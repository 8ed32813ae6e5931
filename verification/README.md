# Periodic rule arbiter (周期规则裁决器)

A local service that evaluates periodic trigger rules over a closed interval
of UTC instants: every instant is explained by the inclusion rules that
produced it, the exclusion windows and minimum gap it was checked against,
and the verdict it received. Pages can be walked forward or backward with
cursors bound to the rule's fingerprint; sessions export as self-checking
envelopes.

## Layout

- `src/` — the verified library (Verus):
  - `calendar.rs`, `text.rs`, `seq_facts.rs` — civil dates, decimal text, byte order of strings;
  - `model.rs` — rules, DST policies, holiday sets (ordered by name);
  - `tzutil.rs` — zones of the bundled chrono-tz database, gap and fold resolution;
  - `engine.rs` — validation, candidates, merging of sources, exclusion windows,
    minimum gap, paging;
  - `paging.rs` — what holds of the whole verdict sequence and of walking it page by page;
  - `json.rs`, `base64url.rs`, `fingerprint.rs` — canonical JSON, fingerprints, cursors;
  - `canonical.rs` — the canonical rule JSON reads back uniquely, so any field change changes it;
  - `storage.rs` — sessions, their canonical JSON, export and import;
  - `api.rs` — the service's operations.
- `app/` — the program around it: command line, HTTP (tiny_http), files, JSON forms.
- `tests/` — integration tests.
