//! Periodic rule arbiter: evaluates periodic trigger rules over a closed
//! interval of UTC instants, with explained verdicts, paging cursors bound to
//! a rule fingerprint, and self-checking session exports.

pub mod seq_facts;
pub mod text;
pub mod calendar;
pub mod model;
pub mod tzutil;
pub mod engine;
pub mod base64url;
pub mod json;
pub mod canonical;
pub mod fingerprint;
pub mod storage;
pub mod api;
pub mod paging;
