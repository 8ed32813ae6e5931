//! The service's operations: validating, evaluating and paging rules, binding
//! cursors and sessions. Reading and writing the data directory is left to
//! the program around the library, which hands in what it read.

use vstd::prelude::*;
use crate::engine::{
    check_rule, evaluable, has_name, known_tz_list, lemma_page_models, names_sorted, page_models,
    rule_defect, spec_evaluate, verdict_models, Engine, Provenance, ProvenanceModel, Verdict,
    VerdictKind, VerdictModel,
};
use crate::fingerprint::{
    cursor_fault_text, cursor_text, decode_cursor, encode_cursor, rule_fingerprint,
    spec_decode_cursor, spec_fingerprint, CursorFault,
};
use crate::json::opt_text;
use crate::paging::{lemma_page_order, lemma_verdicts_in_interval};
use crate::model::{Direction, FoldPolicy, GapPolicy, RuleVersion};
use crate::storage::{QueryRecord, SessionRecord, Store};
use crate::text::{cat, push_char};
use crate::tzutil::{
    epoch_representable, is_local_searchable, local_searchable, naive_parse, parse_tz, parse_wall,
    resolve_local, spec_resolve_local, tzdb_id, tzdb_version, view_instant, zone_abbreviation, zone_known, zone_local_wall, zone_variant_at, FoldSide,
    ResolvedInstant,
};
use crate::calendar::{wall_text, LocalDateTime};

verus! {

// ------------------------------------------------------------ transfer objects

/// One source of a verdict as the API shows it.
#[derive(Debug, Clone)]
pub struct SourceDto {
    pub rule_id: String,
    pub rule_kind: String,
    pub local_wall: String,
    pub side: String,
    pub shifted_by_seconds: i64,
}

impl View for SourceDto {
    type V = ProvenanceModel;

    open spec fn view(&self) -> ProvenanceModel {
        ProvenanceModel {
            rule_id: self.rule_id@,
            rule_kind: self.rule_kind@,
            local_wall: self.local_wall@,
            side: self.side@,
            shifted_by_seconds: self.shifted_by_seconds,
        }
    }
}

impl SourceDto {
    /// The API form of a provenance.
    pub fn from_provenance(p: &Provenance) -> (r: SourceDto)
        ensures
            r@ == p@,
    {
        SourceDto {
            rule_id: p.rule_id.clone(),
            rule_kind: p.rule_kind.clone(),
            local_wall: p.local_wall.clone(),
            side: p.side.to_owned(),
            shifted_by_seconds: p.shifted_by_seconds,
        }
    }
}

/// A verdict as the API shows it.
#[derive(Debug, Clone)]
pub struct VerdictDto {
    pub epoch: i64,
    pub local_wall: String,
    pub offset_name: String,
    pub offset_seconds: i32,
    pub kind: &'static str,
    pub sources: Vec<SourceDto>,
    pub checks: Vec<String>,
}

/// A verdict of the API as plain values.
pub struct VerdictDtoModel {
    pub epoch: i64,
    pub local_wall: Seq<char>,
    pub offset_name: Seq<char>,
    pub offset_seconds: i32,
    pub kind: Seq<char>,
    pub sources: Seq<ProvenanceModel>,
    pub checks: Seq<Seq<char>>,
}

impl View for VerdictDto {
    type V = VerdictDtoModel;

    open spec fn view(&self) -> VerdictDtoModel {
        VerdictDtoModel {
            epoch: self.epoch,
            local_wall: self.local_wall@,
            offset_name: self.offset_name@,
            offset_seconds: self.offset_seconds,
            kind: self.kind@,
            sources: self.sources@.map_values(|s: SourceDto| s@),
            checks: self.checks@.map_values(|c: String| c@),
        }
    }
}

/// The name of a verdict kind in the API.
pub open spec fn kind_text(k: VerdictKind) -> Seq<char> {
    match k {
        VerdictKind::Accepted => "accepted"@,
        VerdictKind::Excluded => "excluded"@,
        VerdictKind::TooSoon => "too_soon"@,
    }
}

/// The API form of a verdict model.
pub open spec fn dto_of(m: VerdictModel) -> VerdictDtoModel {
    VerdictDtoModel {
        epoch: m.epoch,
        local_wall: m.local_wall,
        offset_name: m.offset_name,
        offset_seconds: m.offset_seconds,
        kind: kind_text(m.kind),
        sources: m.sources,
        checks: m.checks,
    }
}

pub open spec fn dto_models(s: Seq<VerdictDto>) -> Seq<VerdictDtoModel> {
    s.map_values(|d: VerdictDto| d@)
}

pub open spec fn dtos_of(s: Seq<VerdictModel>) -> Seq<VerdictDtoModel> {
    s.map_values(|m: VerdictModel| dto_of(m))
}

impl VerdictDto {
    /// The API form of a verdict.
    pub fn from_verdict(v: &Verdict) -> (r: VerdictDto)
        ensures
            r@ == dto_of(v@),
    {
        let n = v.sources.len();
        let mut sources: Vec<SourceDto> = Vec::new();
        let mut i: usize = 0;
        while i < n
            invariant
                n == v.sources@.len(),
                i <= n,
                sources@.map_values(|s: SourceDto| s@) == v.sources@.take(i as int).map_values(
                    |p: Provenance| p@,
                ),
            decreases n - i,
        {
            let s = SourceDto::from_provenance(&v.sources[i]);
            let ghost before = sources@;
            sources.push(s);
            proof {
                assert(sources@.map_values(|s: SourceDto| s@) =~= before.map_values(|s: SourceDto| s@).push(
                    v.sources@[i as int]@,
                ));
                assert(v.sources@.take(i + 1).map_values(|p: Provenance| p@) =~= v.sources@.take(
                    i as int,
                ).map_values(|p: Provenance| p@).push(v.sources@[i as int]@));
            }
            i = i + 1;
        }
        let checks = v.checks.clone();
        proof {
            assert(v.sources@.take(n as int) =~= v.sources@);
            assert(checks@ =~= v.checks@);
            assert(checks@.map_values(|c: String| c@) =~= v.checks@.map_values(|c: String| c@));
        }
        let kind = match v.kind {
            VerdictKind::Accepted => "accepted",
            VerdictKind::Excluded => "excluded",
            VerdictKind::TooSoon => "too_soon",
        };
        VerdictDto {
            epoch: v.epoch,
            local_wall: v.local_wall.clone(),
            offset_name: v.offset_name.clone(),
            offset_seconds: v.offset_seconds,
            kind,
            sources,
            checks,
        }
    }
}

/// The API forms of verdicts, in order.
pub fn verdict_dtos(vs: &[Verdict]) -> (r: Vec<VerdictDto>)
    ensures
        dto_models(r@) == dtos_of(verdict_models(vs@)),
{
    let n = vs.len();
    let mut out: Vec<VerdictDto> = Vec::new();
    let mut i: usize = 0;
    while i < n
        invariant
            n == vs@.len(),
            i <= n,
            dto_models(out@) == dtos_of(verdict_models(vs@.take(i as int))),
        decreases n - i,
    {
        let d = VerdictDto::from_verdict(&vs[i]);
        let ghost before = out@;
        out.push(d);
        proof {
            assert(dto_models(out@) =~= dto_models(before).push(dto_of(vs@[i as int]@)));
            assert(dtos_of(verdict_models(vs@.take(i + 1))) =~= dtos_of(verdict_models(vs@.take(i as int))).push(
                dto_of(vs@[i as int]@),
            ));
        }
        i = i + 1;
    }
    proof {
        assert(vs@.take(n as int) =~= vs@);
    }
    out
}

/// The service's state: where its files are kept.
#[derive(Debug)]
pub struct AppState {
    pub store: Store,
}

/// An error answered to a request, with its HTTP status.
#[derive(Debug)]
pub struct ApiError {
    pub status: u16,
    pub message: String,
}

// ------------------------------------------------------------ rules

/// Every zone name of the bundled database, once each, ascending.
pub fn list_timezones() -> (r: Vec<&'static str>)
    ensures
        names_sorted(r@),
        forall|x: Seq<char>| has_name(r@, x) <==> exists|i: int| 0 <= i && #[trigger] zone_variant_at(i) == Some(x),
        forall|i: int| 0 <= i < r@.len() ==> zone_known(#[trigger] r@[i]@),
{
    known_tz_list()
}

/// Validates a rule for saving and gives its fingerprint; the program
/// around the library then writes the rule to its file.
pub fn save_rule(rule: &RuleVersion) -> (r: Result<String, ApiError>)
    requires
        rule.end_epoch - rule.start_epoch <= i64::MAX,
    ensures
        r is Ok <==> rule_defect(*rule) is None,
        r matches Ok(fp) ==> fp@ == spec_fingerprint(*rule),
        r matches Err(e) ==> e.status == 400 && rule_defect(*rule) == Some(e.message@),
{
    match check_rule(rule) {
        Err(e) => Err(ApiError { status: 400, message: e.0 }),
        Ok(()) => Ok(rule_fingerprint(rule)),
    }
}

/// The complete verdict sequence of a rule, without storing anything.
#[derive(Debug)]
pub struct EvaluateResponse {
    pub rule_fingerprint: String,
    pub tzdb: String,
    pub items: Vec<VerdictDto>,
}

/// Evaluates a rule over its whole closed interval (nothing is stored).
pub fn evaluate_rule(rule: RuleVersion) -> (r: Result<EvaluateResponse, ApiError>)
    requires
        rule.end_epoch - rule.start_epoch <= i64::MAX,
        rule_defect(rule) is None ==> evaluable(rule),
    ensures
        r is Ok <==> rule_defect(rule) is None,
        r matches Err(e) ==> e.status == 400 && rule_defect(rule) == Some(e.message@),
        r matches Ok(resp) ==> {
            &&& resp.rule_fingerprint@ == spec_fingerprint(rule)
            &&& resp.tzdb@ == tzdb_id()
            &&& dto_models(resp.items@) == dtos_of(spec_evaluate(rule))
        },
{
    let fp = rule_fingerprint(&rule);
    let engine = match Engine::new(rule) {
        Err(e) => {
            return Err(ApiError { status: 400, message: e.0 });
        },
        Ok(engine) => engine,
    };
    let all = engine.evaluate();
    let items = verdict_dtos(all.as_slice());
    Ok(EvaluateResponse { rule_fingerprint: fp, tzdb: tzdb_version().to_owned(), items })
}

// ------------------------------------------------------------ paged queries

/// A paged query.
#[derive(Debug)]
pub struct QueryRequest {
    pub rule: RuleVersion,
    pub direction: Direction,
    pub limit: usize,
    pub cursor: Option<String>,
    /// Every query after the first should name its session; without one a session is derived.
    pub session_id: Option<String>,
}

/// The answer to a paged query.
#[derive(Debug)]
pub struct QueryResponse {
    pub rule_fingerprint: String,
    pub tzdb: String,
    pub session_id: String,
    pub direction: Direction,
    pub anchor_epoch: Option<i64>,
    pub items: Vec<VerdictDto>,
    pub next_cursor: Option<String>,
    pub has_more: bool,
    pub error: Option<String>,
}

/// Page sizes are held to 1..=500.
pub open spec fn clamp_limit(l: int) -> int {
    if l < 1 {
        1
    } else if l > 500 {
        500
    } else {
        l
    }
}

/// The instant a query's cursor gives (`None` without a cursor), or why the
/// cursor is refused.
pub open spec fn query_anchor(rule: RuleVersion, direction: Direction, cursor: Option<Seq<char>>) -> Result<Option<i64>, CursorFault> {
    match cursor {
        None => Ok(None),
        Some(c) => match spec_decode_cursor(c, spec_fingerprint(rule), tzdb_id(), direction) {
            Ok(e) => Ok(Some(e)),
            Err(f) => Err(f),
        },
    }
}

/// Whether an instant lies beyond `last` in the query direction.
pub open spec fn epoch_beyond(e: i64, direction: Direction, last: i64) -> bool {
    match direction {
        Direction::Forward => e > last,
        Direction::Backward => e < last,
    }
}

/// Whether the whole sequence holds an instant beyond the page's last one.
pub open spec fn more_after(all: Seq<VerdictModel>, direction: Direction, page: Seq<VerdictModel>) -> bool {
    page.len() > 0 && exists|i: int| 0 <= i < all.len() && #[trigger] epoch_beyond(all[i].epoch, direction, page.last().epoch)
}

/// Whether more follows a page: forward, exactly when some instant of the
/// whole sequence lies strictly after the page's last instant; backward,
/// exactly when some lies strictly before it; after an empty page, nothing.
/// So a page that ends at the sequence's last instant (its first, walking
/// backward) has nothing more.
pub proof fn lemma_more_after_meaning(all: Seq<VerdictModel>, page: Seq<VerdictModel>)
    ensures
        more_after(all, Direction::Forward, page) <==> page.len() > 0 && exists|i: int|
            0 <= i < all.len() && (#[trigger] all[i]).epoch > page.last().epoch,
        more_after(all, Direction::Backward, page) <==> page.len() > 0 && exists|i: int|
            0 <= i < all.len() && (#[trigger] all[i]).epoch < page.last().epoch,
        page.len() > 0 && (forall|i: int| 0 <= i < all.len() ==> (#[trigger] all[i]).epoch <= page.last().epoch)
            ==> !more_after(all, Direction::Forward, page),
        page.len() > 0 && (forall|i: int| 0 <= i < all.len() ==> (#[trigger] all[i]).epoch >= page.last().epoch)
            ==> !more_after(all, Direction::Backward, page),
{
    if page.len() > 0 {
        let last = page.last().epoch;
        assert forall|d: Direction| #![trigger more_after(all, d, page)] more_after(all, d, page) implies exists|i: int|
            0 <= i < all.len() && match d {
                Direction::Forward => (#[trigger] all[i]).epoch > last,
                Direction::Backward => all[i].epoch < last,
            } by {
            let i = choose|i: int| 0 <= i < all.len() && #[trigger] epoch_beyond(all[i].epoch, d, last);
            assert(0 <= i < all.len() && match d {
                Direction::Forward => all[i].epoch > last,
                Direction::Backward => all[i].epoch < last,
            });
        }
        if exists|i: int| 0 <= i < all.len() && (#[trigger] all[i]).epoch > last {
            let i = choose|i: int| 0 <= i < all.len() && (#[trigger] all[i]).epoch > last;
            assert(epoch_beyond(all[i].epoch, Direction::Forward, last));
        }
        if exists|i: int| 0 <= i < all.len() && (#[trigger] all[i]).epoch < last {
            let i = choose|i: int| 0 <= i < all.len() && (#[trigger] all[i]).epoch < last;
            assert(epoch_beyond(all[i].epoch, Direction::Backward, last));
        }
        assert(more_after(all, Direction::Forward, page) ==> exists|i: int|
            0 <= i < all.len() && (#[trigger] all[i]).epoch > last);
        assert(more_after(all, Direction::Backward, page) ==> exists|i: int|
            0 <= i < all.len() && (#[trigger] all[i]).epoch < last);
    }
}

/// The cursor for the page after `page`, if the page is not empty.
pub open spec fn next_cursor_of(fp: Seq<char>, direction: Direction, page: Seq<VerdictModel>) -> Option<Seq<char>> {
    if page.len() == 0 {
        None
    } else {
        Some(cursor_text(fp, tzdb_id(), direction, page.last().epoch))
    }
}

/// The session a query belongs to: the one it names; a query that names
/// none starts a new session, whose id begins with one derived from the
/// fingerprint.
pub open spec fn session_id_of(named: Option<Seq<char>>, fp: Seq<char>) -> Seq<char> {
    match named {
        Some(s) => s,
        None => "sess-"@ + fp.take(12),
    }
}

/// A query whose page is decided; it waits for the session it belongs to.
#[derive(Debug)]
pub struct PendingQuery {
    pub engine: Engine,
    pub direction: Direction,
    pub limit: usize,
    pub cursor: Option<String>,
    pub fingerprint: String,
    pub anchor: Option<i64>,
    pub page: Vec<Verdict>,
    pub has_more: bool,
    pub next_cursor: Option<String>,
    /// The session to load before completing the query (the one named), or
    /// the id the new session will have.
    pub session_id: String,
    /// Whether the query named its session; otherwise it starts a new one.
    pub named_session: bool,
}

/// What a pending query holds for a request whose rule is valid and whose
/// cursor (if any) gave `anchor`.
pub open spec fn pending_for(
    p: PendingQuery,
    rule: RuleVersion,
    direction: Direction,
    limit: usize,
    cursor: Option<String>,
    session_id: Option<String>,
    anchor: Option<i64>,
) -> bool {
    let all = spec_evaluate(rule);
    let fp = spec_fingerprint(rule);
    let page = page_models(all, direction, anchor, clamp_limit(limit as int));
    &&& p.engine.spec_rule() == rule
    &&& p.fingerprint@ == fp
    &&& p.direction == direction
    &&& p.limit == clamp_limit(limit as int)
    &&& p.cursor == cursor
    &&& p.anchor == anchor
    &&& verdict_models(p.page@) == page
    &&& p.has_more == more_after(all, direction, page)
    &&& opt_text(p.next_cursor) == next_cursor_of(fp, direction, page)
    &&& p.session_id@ == session_id_of(opt_text(session_id), fp)
    &&& p.named_session == (session_id is Some)
}

fn clamp_page_size(limit: usize) -> (r: usize)
    ensures
        r == clamp_limit(limit as int),
{
    if limit < 1 {
        1
    } else if limit > 500 {
        500
    } else {
        limit
    }
}

fn any_beyond(all: &[Verdict], direction: Direction, last: i64) -> (r: bool)
    ensures
        r == exists|i: int| 0 <= i < all@.len() && #[trigger] epoch_beyond(all@[i].epoch, direction, last),
{
    let n = all.len();
    let mut i: usize = 0;
    while i < n
        invariant
            n == all@.len(),
            i <= n,
            forall|k: int| 0 <= k < i ==> !#[trigger] epoch_beyond(all@[k].epoch, direction, last),
        decreases n - i,
    {
        let hit = match direction {
            Direction::Forward => all[i].epoch > last,
            Direction::Backward => all[i].epoch < last,
        };
        if hit {
            assert(epoch_beyond(all@[i as int].epoch, direction, last));
            return true;
        }
        i = i + 1;
    }
    false
}

fn derived_session_id(fp: &str) -> (r: String)
    requires
        fp@.len() >= 12,
    ensures
        r@ == "sess-"@ + fp@.take(12),
{
    let mut out = "sess-".to_owned();
    let ghost head = out@;
    let mut i: usize = 0;
    while i < 12
        invariant
            fp@.len() >= 12,
            i <= 12,
            out@ == head + fp@.take(i as int),
        decreases 12 - i,
    {
        let c = fp.get_char(i);
        push_char(&mut out, c);
        proof {
            assert(fp@.take(i + 1) =~= fp@.take(i as int).push(c));
        }
        i = i + 1;
    }
    out
}

fn decode_anchor(cursor: &Option<String>, fp: &String, direction: Direction, Ghost(rule): Ghost<RuleVersion>) -> (r: Result<Option<i64>, ApiError>)
    requires
        fp@ == spec_fingerprint(rule),
    ensures
        match query_anchor(rule, direction, opt_text(*cursor)) {
            Err(f) => r matches Err(e) && e.status == 409 && e.message@ == cursor_fault_text(f),
            Ok(a) => r == Ok::<Option<i64>, ApiError>(a),
        },
{
    match cursor {
        None => Ok(None),
        Some(c) => match decode_cursor(c.as_str(), fp.as_str(), tzdb_version(), direction) {
            Ok(e) => Ok(Some(e)),
            Err(err) => Err(ApiError { status: 409, message: err.message() }),
        },
    }
}

proof fn lemma_more_after(all: Seq<Verdict>, direction: Direction, page: Seq<VerdictModel>)
    requires
        page.len() > 0,
    ensures
        more_after(verdict_models(all), direction, page) == exists|i: int|
            0 <= i < all.len() && #[trigger] epoch_beyond(all[i].epoch, direction, page.last().epoch),
{
    let all_m = verdict_models(all);
    let last = page.last().epoch;
    if more_after(all_m, direction, page) {
        let i = choose|i: int| 0 <= i < all_m.len() && #[trigger] epoch_beyond(all_m[i].epoch, direction, last);
        assert(all_m[i] == all[i]@);
        assert(epoch_beyond(all[i].epoch, direction, last));
    }
    if exists|i: int| 0 <= i < all.len() && #[trigger] epoch_beyond(all[i].epoch, direction, last) {
        let i = choose|i: int| 0 <= i < all.len() && #[trigger] epoch_beyond(all[i].epoch, direction, last);
        assert(all_m[i] == all[i]@);
        assert(epoch_beyond(all_m[i].epoch, direction, last));
    }
}

fn decide_page(engine: &Engine, direction: Direction, anchor: Option<i64>, limit: usize, fp: &String) -> (r: (
    Vec<Verdict>,
    bool,
    Option<String>,
))
    requires
        evaluable(engine.spec_rule()),
        fp@ == spec_fingerprint(engine.spec_rule()),
    ensures
        ({
            let all = spec_evaluate(engine.spec_rule());
            let page = page_models(all, direction, anchor, limit as int);
            &&& verdict_models(r.0@) == page
            &&& r.1 == more_after(all, direction, page)
            &&& opt_text(r.2) == next_cursor_of(fp@, direction, page)
        }),
{
    let all = engine.evaluate();
    let page = engine.page(all.as_slice(), direction, anchor, limit);
    let ghost all_m = spec_evaluate(engine.spec_rule());
    let ghost page_m = page_models(all_m, direction, anchor, limit as int);
    proof {
        lemma_page_models(all@, direction, anchor, limit as int);
    }
    let n = page.len();
    if n == 0 {
        return (page, false, None);
    }
    let last = page[n - 1].epoch;
    proof {
        assert(page_m.last() == page@[n - 1]@);
    }
    let more = any_beyond(all.as_slice(), direction, last);
    proof {
        lemma_more_after(all@, direction, page_m);
    }
    let next = encode_cursor(fp.as_str(), tzdb_version(), direction, last);
    (page, more, Some(next))
}

/// Starts a paged query: validates the rule, checks the cursor against the
/// rule's fingerprint, the time zone database and the direction, and
/// decides the page, whether more follows, and the next cursor.
pub fn handle_query(req: QueryRequest) -> (r: Result<PendingQuery, ApiError>)
    requires
        req.rule.end_epoch - req.rule.start_epoch <= i64::MAX,
        rule_defect(req.rule) is None ==> evaluable(req.rule),
    ensures
        match rule_defect(req.rule) {
            Some(m) => r matches Err(e) && e.status == 400 && e.message@ == m,
            None => match query_anchor(req.rule, req.direction, opt_text(req.cursor)) {
                Err(f) => r matches Err(e) && e.status == 409 && e.message@ == cursor_fault_text(f),
                Ok(anchor) => r matches Ok(p) && pending_for(
                    p,
                    req.rule,
                    req.direction,
                    req.limit,
                    req.cursor,
                    req.session_id,
                    anchor,
                ),
            },
        },
{
    let QueryRequest { rule, direction, limit, cursor, session_id } = req;
    let limit = clamp_page_size(limit);
    let fp = rule_fingerprint(&rule);
    let ghost rule0 = rule;
    let engine = match Engine::new(rule) {
        Err(e) => {
            return Err(ApiError { status: 400, message: e.0 });
        },
        Ok(engine) => engine,
    };
    let anchor = match decode_anchor(&cursor, &fp, direction, Ghost(rule0)) {
        Ok(a) => a,
        Err(e) => {
            return Err(e);
        },
    };
    let (page, has_more, next_cursor) = decide_page(&engine, direction, anchor, limit, &fp);
    let named_session = session_id.is_some();
    let sid = match session_id {
        Some(s) => s,
        None => derived_session_id(fp.as_str()),
    };
    Ok(PendingQuery {
        engine,
        direction,
        limit,
        cursor,
        fingerprint: fp,
        anchor,
        page,
        has_more,
        next_cursor,
        session_id: sid,
        named_session,
    })
}

/// The message when a session was made for another version of the rule.
pub open spec fn session_mismatch_text() -> Seq<char> {
    "会话绑定的规则版本与当前规则不一致，旧会话/游标被拒绝；请以新规则开始查询"@
}

/// The epochs of verdicts, in order.
pub open spec fn epochs_of(vs: Seq<Verdict>) -> Seq<i64> {
    vs.map_values(|v: Verdict| v.epoch)
}

/// Page epochs in the order a record stores them: ascending, so a backward
/// page (nearest first) is stored reversed.
pub open spec fn stored_order(e: Seq<i64>, direction: Direction) -> Seq<i64> {
    match direction {
        Direction::Forward => e,
        Direction::Backward => e.reverse(),
    }
}

/// Strictly ascending epochs.
pub open spec fn ascending_epochs(e: Seq<i64>) -> bool {
    forall|i: int, j: int| 0 <= i < j < e.len() ==> #[trigger] e[i] < #[trigger] e[j]
}

/// The stored session a query joins: the one loaded for the session it
/// names; a query that names none joins no stored session.
pub open spec fn joined(p: PendingQuery, stored: Option<SessionRecord>) -> Option<SessionRecord> {
    if p.named_session {
        stored
    } else {
        None
    }
}

/// What the record of a query holds.
pub open spec fn records_query(q: QueryRecord, p: PendingQuery) -> bool {
    &&& q.direction == p.direction
    &&& q.limit == p.limit
    &&& q.cursor == p.cursor
    &&& q.returned_epochs@ == stored_order(epochs_of(p.page@), p.direction)
    &&& q.next_cursor == p.next_cursor
    &&& q.anchor_epoch == p.anchor
}

fn reversed(v: Vec<i64>) -> (r: Vec<i64>)
    ensures
        r@ == v@.reverse(),
{
    let n = v.len();
    let mut out: Vec<i64> = Vec::new();
    let mut i: usize = 0;
    while i < n
        invariant
            n == v@.len(),
            i <= n,
            out@ == v@.reverse().take(i as int),
        decreases n - i,
    {
        out.push(v[n - 1 - i]);
        proof {
            assert(v@.reverse().take(i + 1) =~= v@.reverse().take(i as int).push(v@[n - 1 - i]));
        }
        i = i + 1;
    }
    proof {
        assert(v@.reverse().take(n as int) =~= v@.reverse());
    }
    out
}

fn clone_opt(o: &Option<String>) -> (r: Option<String>)
    ensures
        r == *o,
{
    match o {
        Some(s) => Some(s.clone()),
        None => None,
    }
}

/// Whether one of the strings is `t`.
pub open spec fn text_among(taken: Seq<String>, t: Seq<char>) -> bool {
    exists|i: int| 0 <= i < taken.len() && #[trigger] taken[i]@ == t
}

fn among(taken: &Vec<String>, t: &str) -> (r: bool)
    ensures
        r == text_among(taken@, t@),
{
    let n = taken.len();
    let mut i: usize = 0;
    while i < n
        invariant
            n == taken@.len(),
            i <= n,
            forall|k: int| 0 <= k < i ==> #[trigger] taken@[k]@ != t@,
        decreases n - i,
    {
        if crate::text::text_eq(taken[i].as_str(), t) {
            return true;
        }
        i = i + 1;
    }
    false
}

/// An id for a new session that none of `taken` has: `base` itself when it
/// is free, otherwise `base` followed by `-` and a number (or, should every
/// such number be taken, by dashes beyond the length of every taken id).
pub fn fresh_session_id(base: &str, taken: &Vec<String>) -> (r: String)
    ensures
        !text_among(taken@, r@),
        !text_among(taken@, base@) ==> r@ == base@,
        r@.len() >= base@.len(),
        r@.take(base@.len() as int) == base@,
{
    if !among(taken, base) {
        return base.to_owned();
    }
    let n = taken.len();
    let mut k: usize = 0;
    while k < n
        invariant
            n == taken@.len(),
            k <= n,
            text_among(taken@, base@),
        decreases n - k,
    {
        let head = cat(base, "-");
        let digits = crate::text::fmt_u64((k + 1) as u64);
        let candidate = cat(head.as_str(), digits.as_str());
        if !among(taken, candidate.as_str()) {
            proof {
                assert(candidate@.take(base@.len() as int) =~= base@);
            }
            return candidate;
        }
        k = k + 1;
    }
    let mut longest: usize = 0;
    let mut i: usize = 0;
    while i < n
        invariant
            n == taken@.len(),
            i <= n,
            forall|j: int| 0 <= j < i ==> #[trigger] taken@[j]@.len() <= longest,
        decreases n - i,
    {
        let l = taken[i].as_str().unicode_len();
        if l > longest {
            longest = l;
        }
        i = i + 1;
    }
    let mut out = cat(base, "-");
    while out.as_str().unicode_len() <= longest
        invariant
            forall|j: int| 0 <= j < n ==> #[trigger] taken@[j]@.len() <= longest,
            n == taken@.len(),
            out@.len() >= base@.len(),
            out@.take(base@.len() as int) == base@,
        decreases longest + 1 - out@.len(),
    {
        let ghost before = out@;
        push_char(&mut out, '-');
        proof {
            assert(out@.take(base@.len() as int) =~= before.take(base@.len() as int));
        }
    }
    proof {
        assert forall|j: int| 0 <= j < taken@.len() implies #[trigger] taken@[j]@ != out@ by {
            assert(taken@[j]@.len() <= longest);
        }
    }
    out
}

/// A query's record stores the page's epochs strictly ascending, in either
/// direction.
pub proof fn lemma_recorded_epochs_ascending(
    p: PendingQuery,
    rule: RuleVersion,
    direction: Direction,
    limit: usize,
    cursor: Option<String>,
    session_id: Option<String>,
    anchor: Option<i64>,
)
    requires
        pending_for(p, rule, direction, limit, cursor, session_id, anchor),
    ensures
        ascending_epochs(stored_order(epochs_of(p.page@), p.direction)),
{
    let ms = spec_evaluate(rule);
    lemma_verdicts_in_interval(rule);
    lemma_page_order(ms, direction, anchor, clamp_limit(limit as int));
    let pm = page_models(ms, direction, anchor, clamp_limit(limit as int));
    let e = epochs_of(p.page@);
    assert forall|i: int| 0 <= i < e.len() implies #[trigger] e[i] == pm[i].epoch by {
        assert(verdict_models(p.page@)[i] == p.page@[i]@);
    }
    let st = stored_order(e, direction);
    assert forall|i: int, j: int| 0 <= i < j < st.len() implies #[trigger] st[i] < #[trigger] st[j] by {
        match direction {
            Direction::Forward => {
                assert(e[i] == pm[i].epoch && e[j] == pm[j].epoch);
            },
            Direction::Backward => {
                let n = e.len();
                assert(st[i] == e[n - 1 - i] && st[j] == e[n - 1 - j]);
                assert(e[n - 1 - i] == pm[n - 1 - i].epoch && e[n - 1 - j] == pm[n - 1 - j].epoch);
            },
        }
    }
}

impl PendingQuery {
    /// For a query that names no session, gives the new session an id that
    /// none of `taken` (the stored sessions) has; a query that names its
    /// session keeps it. Nothing else changes.
    pub fn with_fresh_session(self, taken: &Vec<String>) -> (r: PendingQuery)
        ensures
            self.named_session ==> r.session_id == self.session_id,
            !self.named_session ==> !text_among(taken@, r.session_id@) && r.session_id@.take(
                self.session_id@.len() as int,
            ) == self.session_id@ && (!text_among(taken@, self.session_id@) ==> r.session_id@
                == self.session_id@),
            r.engine == self.engine,
            r.direction == self.direction,
            r.limit == self.limit,
            r.cursor == self.cursor,
            r.fingerprint == self.fingerprint,
            r.anchor == self.anchor,
            r.page == self.page,
            r.has_more == self.has_more,
            r.next_cursor == self.next_cursor,
            r.named_session == self.named_session,
    {
        if self.named_session {
            return self;
        }
        let id = fresh_session_id(self.session_id.as_str(), taken);
        PendingQuery { session_id: id, ..self }
    }

    /// Completes the query with the session it belongs to: for a query that
    /// names its session, `stored` (when one was kept); for a query that
    /// names none, or a named session not kept, a new one created at
    /// `now_unix`. Refuses a session made for another version of the rule,
    /// records the query in the session, and answers. The program around the
    /// library then writes the session and the rule.
    pub fn complete(self, stored: Option<SessionRecord>, now_unix: i64) -> (r: Result<(QueryResponse, SessionRecord), ApiError>)
        ensures
            match joined(self, stored) {
                Some(st) => st.rule_fingerprint@ != self.fingerprint@ ==> (r matches Err(e) && e.status == 409
                    && e.message@ == session_mismatch_text()),
                None => true,
            },
            r matches Ok((resp, s)) ==> {
                &&& match joined(self, stored) {
                    Some(st) => {
                        &&& st.rule_fingerprint@ == self.fingerprint@
                        &&& s.session_id == st.session_id
                        &&& s.rule_id == st.rule_id
                        &&& s.rule_fingerprint == st.rule_fingerprint
                        &&& s.tzdb == st.tzdb
                        &&& s.rule_snapshot == st.rule_snapshot
                        &&& s.created_unix == st.created_unix
                        &&& s.queries@.len() == st.queries@.len() + 1
                        &&& s.queries@.take(st.queries@.len() as int) == st.queries@
                    },
                    None => {
                        &&& s.session_id@ == self.session_id@
                        &&& s.rule_id@ == self.engine.spec_rule().rule_id@
                        &&& s.rule_fingerprint@ == self.fingerprint@
                        &&& s.tzdb@ == tzdb_id()
                        &&& s.rule_snapshot == self.engine.spec_rule()
                        &&& s.created_unix == now_unix
                        &&& s.queries@.len() == 1
                    },
                }
                &&& records_query(s.queries@.last(), self)
                &&& resp.rule_fingerprint@ == self.fingerprint@
                &&& resp.tzdb@ == tzdb_id()
                &&& resp.session_id@ == self.session_id@
                &&& resp.direction == self.direction
                &&& resp.anchor_epoch == self.anchor
                &&& dto_models(resp.items@) == dtos_of(verdict_models(self.page@))
                &&& resp.next_cursor == self.next_cursor
                &&& resp.has_more == self.has_more
                &&& resp.error is None
            },
            joined(self, stored) is None ==> r is Ok,
            joined(self, stored) matches Some(st) ==> (r is Ok <==> st.rule_fingerprint@ == self.fingerprint@),
    {
        let PendingQuery {
            engine,
            direction,
            limit,
            cursor,
            fingerprint,
            anchor,
            page,
            has_more,
            next_cursor,
            session_id,
            named_session,
        } = self;
        let stored = if named_session { stored } else { None };
        let mut session = match stored {
            Some(st) => {
                if !crate::text::text_eq(st.rule_fingerprint.as_str(), fingerprint.as_str()) {
                    return Err(ApiError {
                        status: 409,
                        message: "会话绑定的规则版本与当前规则不一致，旧会话/游标被拒绝；请以新规则开始查询".to_owned(),
                    });
                }
                st
            },
            None => {
                let rule = engine.into_rule();
                SessionRecord {
                    session_id: session_id.clone(),
                    rule_id: rule.rule_id.clone(),
                    rule_fingerprint: fingerprint.clone(),
                    tzdb: tzdb_version().to_owned(),
                    rule_snapshot: rule,
                    queries: Vec::new(),
                    created_unix: now_unix,
                }
            },
        };
        let n = page.len();
        let mut epochs: Vec<i64> = Vec::new();
        let mut i: usize = 0;
        while i < n
            invariant
                n == page@.len(),
                i <= n,
                epochs@ == epochs_of(page@.take(i as int)),
            decreases n - i,
        {
            epochs.push(page[i].epoch);
            proof {
                assert(epochs_of(page@.take(i + 1)) =~= epochs_of(page@.take(i as int)).push(page@[i as int].epoch));
            }
            i = i + 1;
        }
        proof {
            assert(page@.take(n as int) =~= page@);
        }
        let epochs = match direction {
            Direction::Forward => epochs,
            Direction::Backward => reversed(epochs),
        };
        let record = QueryRecord {
            direction,
            limit,
            cursor,
            returned_epochs: epochs,
            next_cursor: clone_opt(&next_cursor),
            anchor_epoch: anchor,
        };
        let ghost before = session.queries@;
        session.queries.push(record);
        proof {
            assert(session.queries@.take(before.len() as int) =~= before);
        }
        let items = verdict_dtos(page.as_slice());
        let resp = QueryResponse {
            rule_fingerprint: fingerprint,
            tzdb: tzdb_version().to_owned(),
            session_id,
            direction,
            anchor_epoch: anchor,
            items,
            next_cursor,
            has_more,
            error: None,
        };
        Ok((resp, session))
    }
}

// ------------------------------------------------------------ local wall times

/// A local wall time to resolve in a zone under the DST policies.
#[derive(Debug)]
pub struct ResolveRequest {
    pub timezone: String,
    /// `YYYY-MM-DDTHH:MM:SS` or `YYYY-MM-DDTHH:MM`.
    pub local: String,
    pub gap_policy: GapPolicy,
    pub fold_policy: FoldPolicy,
}

/// One instant a local wall time resolves to.
#[derive(Debug)]
pub struct ResolvedDto {
    pub epoch: i64,
    pub side: &'static str,
    pub shifted_by_seconds: i64,
    pub local_view: String,
    pub offset_name: String,
}

pub open spec fn fold_side_text(s: FoldSide) -> Seq<char> {
    match s {
        FoldSide::Single => "single"@,
        FoldSide::Early => "early"@,
        FoldSide::Late => "late"@,
    }
}

/// The wall clock a request's text names: with seconds, else without.
pub open spec fn requested_wall(text: Seq<char>) -> Result<LocalDateTime, Seq<char>> {
    match naive_parse(text, "%Y-%m-%dT%H:%M:%S"@) {
        Ok(w) => Ok(w),
        Err(_) => naive_parse(text, "%Y-%m-%dT%H:%M"@),
    }
}

/// What the API shows of one resolved instant.
pub open spec fn resolved_shown(d: ResolvedDto, zone: Seq<char>, ri: ResolvedInstant) -> bool {
    &&& d.epoch == ri.epoch
    &&& d.side@ == fold_side_text(ri.side)
    &&& d.shifted_by_seconds == ri.shifted_by_seconds
    &&& d.local_view@ == wall_text(zone_local_wall(zone, ri.epoch))
    &&& d.offset_name@ == zone_abbreviation(zone, ri.epoch)
}

/// The message for a wall time too close to the end of the calendar range.
pub open spec fn out_of_range_text() -> Seq<char> {
    "本地时间超出可解析范围"@
}

/// Resolves a local wall time (for interval bounds and exclusion windows)
/// into the UTC instants the DST policies give, each shown in the zone.
pub fn resolve_local_endpoint(req: ResolveRequest) -> (r: Result<Vec<ResolvedDto>, ApiError>)
    ensures
        !zone_known(req.timezone@) ==> (r matches Err(e) && e.status == 400 && e.message@ == "未知时区: "@
            + req.timezone@),
        zone_known(req.timezone@) ==> match requested_wall(req.local@) {
            Err(m) => r matches Err(e) && e.status == 400 && e.message@ == "本地时间格式非法: "@ + m,
            Ok(w) => if !local_searchable(w) {
                r matches Err(e) && e.status == 400 && e.message@ == out_of_range_text()
            } else {
                r matches Ok(ds) && ds@.len() == spec_resolve_local(req.timezone@, w, req.gap_policy, req.fold_policy).len()
                    && forall|i: int| 0 <= i < ds@.len() ==> resolved_shown(#[trigger] ds@[i], req.timezone@,
                    spec_resolve_local(req.timezone@, w, req.gap_policy, req.fold_policy)[i])
            },
        },
{
    let zone = match parse_tz(req.timezone.as_str()) {
        Ok(z) => z,
        Err(m) => {
            return Err(ApiError { status: 400, message: m });
        },
    };
    let local = match parse_wall(req.local.as_str(), "%Y-%m-%dT%H:%M:%S") {
        Ok(w) => w,
        Err(_) => match parse_wall(req.local.as_str(), "%Y-%m-%dT%H:%M") {
            Ok(w) => w,
            Err(m) => {
                return Err(ApiError { status: 400, message: cat("本地时间格式非法: ", m.as_str()) });
            },
        },
    };
    if !is_local_searchable(local) {
        return Err(ApiError { status: 400, message: "本地时间超出可解析范围".to_owned() });
    }
    let rs = resolve_local(&zone, local, req.gap_policy, req.fold_policy);
    let ghost spec_rs = spec_resolve_local(zone@, local, req.gap_policy, req.fold_policy);
    proof {
        assert forall|k: int| 0 <= k < rs@.len() implies epoch_representable(#[trigger] rs@[k].epoch as int) by {
            assert(local.as_utc_seconds() - 86400 < rs@[k].epoch <= local.as_utc_seconds() + 86400);
        }
    }
    let n = rs.len();
    let mut out: Vec<ResolvedDto> = Vec::new();
    let mut i: usize = 0;
    while i < n
        invariant
            n == rs@.len(),
            rs@ == spec_rs,
            zone@ == req.timezone@,
            i <= n,
            out@.len() == i,
            forall|k: int| 0 <= k < rs@.len() ==> epoch_representable(#[trigger] rs@[k].epoch as int),
            forall|k: int| 0 <= k < i ==> resolved_shown(#[trigger] out@[k], zone@, spec_rs[k]),
        decreases n - i,
    {
        let ri = &rs[i];
        assert(epoch_representable(rs@[i as int].epoch as int));
        let view = view_instant(&zone, ri.epoch);
        let side = match ri.side {
            FoldSide::Single => "single",
            FoldSide::Early => "early",
            FoldSide::Late => "late",
        };
        out.push(ResolvedDto {
            epoch: ri.epoch,
            side,
            shifted_by_seconds: ri.shifted_by_seconds,
            local_view: view.wall,
            offset_name: view.offset_name,
        });
        i = i + 1;
    }
    Ok(out)
}

} // verus!
