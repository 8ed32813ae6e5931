//! Query sessions, their canonical JSON, and self-checking export envelopes.
//!
//! Rules and sessions are kept as files under a data directory:
//! `rules/<rule_id>.json` and `sessions/<session_id>.json`; this module
//! decides the names, the program around the library reads and writes them.

use vstd::prelude::*;
use crate::fingerprint::{digest_hex, direction_text, rule_json, text_digest, write_rule_json};
use crate::json::{
    i64_array_json, join, json_array, json_quote, lemma_join_push, opt_int_json, opt_str_json,
    opt_text, write_i64_array, write_int, write_opt_int, write_opt_str, write_str, write_uint,
};
use crate::model::{Direction, RuleVersion};
use crate::text::{cat, dec_text, text_eq};
use crate::tzutil::{tzdb_id, tzdb_version};

verus! {

/// One page query of a session.
#[derive(Debug, Clone, PartialEq, Eq)]
pub struct QueryRecord {
    pub direction: Direction,
    pub limit: usize,
    pub cursor: Option<String>,
    /// UTC epoch seconds returned by the page.
    pub returned_epochs: Vec<i64>,
    pub next_cursor: Option<String>,
    /// The instant the cursor was checked against (`None` for a first page).
    pub anchor_epoch: Option<i64>,
}

/// A query session: the rule's snapshot and every page queried.
#[derive(Debug, Clone, PartialEq, Eq)]
pub struct SessionRecord {
    pub session_id: String,
    pub rule_id: String,
    pub rule_fingerprint: String,
    pub tzdb: String,
    pub rule_snapshot: RuleVersion,
    pub queries: Vec<QueryRecord>,
    pub created_unix: i64,
}

/// An exported session with the digest of its canonical JSON.
#[derive(Debug, Clone, PartialEq, Eq)]
pub struct ExportEnvelope {
    pub format: String,
    pub format_version: u32,
    pub tzdb: String,
    pub session: SessionRecord,
    /// Hex SHA-256 of the session's canonical JSON, checked on import.
    pub digest: String,
}

/// A storage failure, with its message.
#[derive(Debug)]
pub struct StoreError(pub String);

/// Where rules and sessions are kept.
#[derive(Debug)]
pub struct Store {
    root: String,
}

/// A file stem made of the name's ASCII letters, digits, `-` and `_`, every
/// other character replaced by `_`.
pub open spec fn safe_char(c: char) -> char {
    if ('0' <= c <= '9') || ('a' <= c <= 'z') || ('A' <= c <= 'Z') || c == '-' || c == '_' {
        c
    } else {
        '_'
    }
}

pub open spec fn safe_stem(name: Seq<char>) -> Seq<char> {
    name.map_values(|c: char| safe_char(c))
}

/// The file stem of a rule or session name.
pub fn safe_name(name: &str) -> (r: String)
    ensures
        r@ == safe_stem(name@),
{
    let mut out = String::new();
    let n = name.unicode_len();
    let mut i: usize = 0;
    while i < n
        invariant
            n == name@.len(),
            i <= n,
            out@ == safe_stem(name@.take(i as int)),
        decreases n - i,
    {
        let c = name.get_char(i);
        let keep = ('0' <= c && c <= '9') || ('a' <= c && c <= 'z') || ('A' <= c && c <= 'Z') || c == '-'
            || c == '_';
        let ghost before = out@;
        if keep {
            crate::text::push_char(&mut out, c);
        } else {
            crate::text::push_char(&mut out, '_');
        }
        proof {
            assert(safe_stem(name@.take(i + 1)) =~= safe_stem(name@.take(i as int)).push(safe_char(c)));
        }
        i = i + 1;
    }
    proof {
        assert(name@.take(n as int) =~= name@);
    }
    out
}

impl Store {
    /// A store kept under `root`.
    pub fn new(root: String) -> (r: Store)
        ensures
            r.spec_root() == root@,
    {
        Store { root }
    }

    pub closed spec fn spec_root(&self) -> Seq<char> {
        self.root@
    }

    /// The data directory.
    pub fn root(&self) -> (r: &str)
        ensures
            r@ == self.spec_root(),
    {
        self.root.as_str()
    }

    /// The file of the rule called `rule_id`, relative to the root.
    pub fn rule_file(&self, rule_id: &str) -> (r: String)
        ensures
            r@ == "rules/"@ + safe_stem(rule_id@) + ".json"@,
    {
        let stem = safe_name(rule_id);
        let head = cat("rules/", stem.as_str());
        cat(head.as_str(), ".json")
    }

    /// The file of the session called `session_id`, relative to the root.
    pub fn session_file(&self, session_id: &str) -> (r: String)
        ensures
            r@ == "sessions/"@ + safe_stem(session_id@) + ".json"@,
    {
        let stem = safe_name(session_id);
        let head = cat("sessions/", stem.as_str());
        cat(head.as_str(), ".json")
    }
}

// ------------------------------------------------------------ canonical JSON

/// A page query, keys in ascending order.
pub open spec fn query_json(q: QueryRecord) -> Seq<char> {
    "{\"anchor_epoch\":"@ + opt_int_json(q.anchor_epoch) + ",\"cursor\":"@ + opt_str_json(
        opt_text(q.cursor),
    ) + ",\"direction\":"@ + json_quote(direction_text(q.direction)) + ",\"limit\":"@ + dec_text(
        q.limit as int,
    ) + ",\"next_cursor\":"@ + opt_str_json(opt_text(q.next_cursor)) + ",\"returned_epochs\":"@
        + i64_array_json(q.returned_epochs@) + "}"@
}

pub open spec fn queries_json(s: Seq<QueryRecord>) -> Seq<char> {
    json_array(s.map_values(|q: QueryRecord| query_json(q)))
}

/// A session's canonical JSON: compact, keys in ascending order at every level.
pub open spec fn session_json(s: SessionRecord) -> Seq<char> {
    "{\"created_unix\":"@ + dec_text(s.created_unix as int) + ",\"queries\":"@ + queries_json(
        s.queries@,
    ) + ",\"rule_fingerprint\":"@ + json_quote(s.rule_fingerprint@) + ",\"rule_id\":"@ + json_quote(
        s.rule_id@,
    ) + ",\"rule_snapshot\":"@ + rule_json(s.rule_snapshot) + ",\"session_id\":"@ + json_quote(
        s.session_id@,
    ) + ",\"tzdb\":"@ + json_quote(s.tzdb@) + "}"@
}

fn write_query(out: &mut String, q: &QueryRecord)
    ensures
        final(out)@ == old(out)@ + query_json(*q),
{
    let ghost base = out@;
    out.append("{\"anchor_epoch\":");
    write_opt_int(out, q.anchor_epoch);
    out.append(",\"cursor\":");
    write_opt_str(out, &q.cursor);
    out.append(",\"direction\":");
    match q.direction {
        Direction::Forward => write_str(out, "forward"),
        Direction::Backward => write_str(out, "backward"),
    }
    out.append(",\"limit\":");
    write_uint(out, q.limit as u64);
    out.append(",\"next_cursor\":");
    write_opt_str(out, &q.next_cursor);
    out.append(",\"returned_epochs\":");
    write_i64_array(out, &q.returned_epochs);
    out.append("}");
    proof {
        assert(out@ =~= base + query_json(*q));
    }
}

fn write_queries(out: &mut String, v: &Vec<QueryRecord>)
    ensures
        final(out)@ == old(out)@ + queries_json(v@),
{
    let ghost base = out@;
    out.append("[");
    let n = v.len();
    let mut i: usize = 0;
    proof {
        assert(v@.take(0).map_values(|q: QueryRecord| query_json(q)) =~= Seq::<Seq<char>>::empty());
        assert(out@ =~= base + "["@ + join(v@.take(0).map_values(|q: QueryRecord| query_json(q))));
    }
    while i < n
        invariant
            n == v@.len(),
            i <= n,
            out@ == base + "["@ + join(v@.take(i as int).map_values(|q: QueryRecord| query_json(q))),
        decreases n - i,
    {
        let ghost items = v@.take(i as int).map_values(|q: QueryRecord| query_json(q));
        proof {
            assert(v@.take(i + 1).map_values(|q: QueryRecord| query_json(q)) =~= items.push(
                query_json(v@[i as int]),
            ));
            lemma_join_push(items, query_json(v@[i as int]));
        }
        if i > 0 {
            out.append(",");
        }
        write_query(out, &v[i]);
        proof {
            if i > 0 {
                assert(out@ =~= base + "["@ + (join(items) + ","@ + query_json(v@[i as int])));
            } else {
                assert(out@ =~= base + "["@ + query_json(v@[i as int]));
            }
        }
        i = i + 1;
    }
    proof {
        assert(v@.take(n as int) =~= v@);
    }
    out.append("]");
    proof {
        assert(out@ =~= base + queries_json(v@));
    }
}

/// Canonical JSON of a session: keys sorted, so every instance writes the
/// same bytes for the same session.
pub fn canonical_session_json(session: &SessionRecord) -> (r: String)
    ensures
        r@ == session_json(*session),
{
    let mut out = String::new();
    out.append("{\"created_unix\":");
    write_int(&mut out, session.created_unix);
    out.append(",\"queries\":");
    write_queries(&mut out, &session.queries);
    out.append(",\"rule_fingerprint\":");
    write_str(&mut out, session.rule_fingerprint.as_str());
    out.append(",\"rule_id\":");
    write_str(&mut out, session.rule_id.as_str());
    out.append(",\"rule_snapshot\":");
    write_rule_json(&mut out, &session.rule_snapshot);
    out.append(",\"session_id\":");
    write_str(&mut out, session.session_id.as_str());
    out.append(",\"tzdb\":");
    write_str(&mut out, session.tzdb.as_str());
    out.append("}");
    proof {
        assert(out@ =~= session_json(*session));
    }
    out
}

// ------------------------------------------------------------ export and import

/// The envelope format's name.
pub open spec fn envelope_format() -> Seq<char> {
    "periodic-arbiter-session"@
}

/// The digest an envelope must carry for its session.
pub open spec fn session_digest(s: SessionRecord) -> Seq<char> {
    text_digest(session_json(s))
}

/// Exports a session as a self-contained envelope carrying its digest.
pub fn export_session(session: SessionRecord, tzdb: &str) -> (r: ExportEnvelope)
    ensures
        r.format@ == envelope_format(),
        r.format_version == 1,
        r.tzdb@ == tzdb@,
        r.session == session,
        r.digest@ == session_digest(session),
{
    let canonical = canonical_session_json(&session);
    let digest = digest_hex(canonical.as_str());
    ExportEnvelope {
        format: "periodic-arbiter-session".to_owned(),
        format_version: 1,
        tzdb: tzdb.to_owned(),
        session,
        digest,
    }
}

/// The warning given when an envelope comes from another time zone database.
pub open spec fn tzdb_warning(exported: Seq<char>) -> Seq<char> {
    "时区数据库版本不同：导出端 "@ + exported + " / 导入端 "@ + tzdb_id() + "（固定库标识已记入游标与文件）"@
}

/// What importing decides from an envelope's fields: the error text, or
/// the warning (if any) that comes with the session.
pub open spec fn import_outcome(
    format: Seq<char>,
    version: u32,
    tzdb: Seq<char>,
    session: SessionRecord,
    digest: Seq<char>,
) -> Result<Option<Seq<char>>, Seq<char>> {
    if format != envelope_format() || version != 1 {
        Err("不支持的导出格式或版本"@)
    } else if digest != session_digest(session) {
        Err("会话摘要不一致：文件已损坏或被修改"@)
    } else if tzdb != tzdb_id() {
        Ok(Some(tzdb_warning(tzdb)))
    } else {
        Ok(None)
    }
}

/// Checks and unpacks an export envelope: its format, then its digest; a
/// different time zone database gives a warning with the session.
pub fn import_envelope(envelope: ExportEnvelope) -> (r: Result<(SessionRecord, Option<String>), StoreError>)
    ensures
        match import_outcome(envelope.format@, envelope.format_version, envelope.tzdb@, envelope.session, envelope.digest@) {
            Err(m) => r matches Err(e) && e.0@ == m,
            Ok(w) => r matches Ok(p) && p.0 == envelope.session && opt_text(p.1) == w,
        },
{
    if !text_eq(envelope.format.as_str(), "periodic-arbiter-session") || envelope.format_version != 1 {
        return Err(StoreError("不支持的导出格式或版本".to_owned()));
    }
    let canonical = canonical_session_json(&envelope.session);
    let actual = digest_hex(canonical.as_str());
    if !text_eq(actual.as_str(), envelope.digest.as_str()) {
        return Err(StoreError("会话摘要不一致：文件已损坏或被修改".to_owned()));
    }
    let current = tzdb_version();
    let warning = if !text_eq(envelope.tzdb.as_str(), current) {
        let a = cat("时区数据库版本不同：导出端 ", envelope.tzdb.as_str());
        let b = cat(a.as_str(), " / 导入端 ");
        let c = cat(b.as_str(), current);
        Some(cat(c.as_str(), "（固定库标识已记入游标与文件）"))
    } else {
        None
    };
    Ok((envelope.session, warning))
}

/// Importing an envelope that exporting made, under this time zone
/// database, gives the session back with no warning.
pub proof fn lemma_export_import(session: SessionRecord)
    ensures
        import_outcome(envelope_format(), 1, tzdb_id(), session, session_digest(session)) == Ok::<
            Option<Seq<char>>,
            Seq<char>,
        >(None),
{
}

/// An envelope whose digest is not that of its session is refused.
pub proof fn lemma_tampered_refused(
    format: Seq<char>,
    version: u32,
    tzdb: Seq<char>,
    session: SessionRecord,
    digest: Seq<char>,
)
    requires
        digest != session_digest(session),
    ensures
        import_outcome(format, version, tzdb, session, digest) is Err,
{
}

} // verus!
