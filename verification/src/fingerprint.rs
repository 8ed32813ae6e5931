//! Rule fingerprints and paging cursors.
//!
//! A fingerprint is the SHA-256 of the rule's canonical JSON (keys in
//! ascending order); a cursor binds the fingerprint, the query direction and
//! the last instant returned. Any change of the rule gives another
//! fingerprint, and older cursors are then refused.

use vstd::prelude::*;
use vstd::utf8::encode_utf8;
use sha2::Digest;
use crate::json::{
    hex_digit, i32_array_json, opt_text, join, json_array, json_quote, lemma_join_push, string_array_json,
    string_views, u32_array_json, write_i32_array, write_int, write_str, write_str_array,
    write_u32_array,
};
use crate::base64url::{
    ascii_chars, b64_decode, b64_encode, b64url_decode, b64url_encode,
    full_group_digits, lemma_b64_round_trip,
};
use crate::model::{
    Direction, ExclusionWindow, FoldPolicy, GapPolicy, HolidaySets, InclusionRule, RuleVersion,
};
use crate::text::{cat, dec_text, fmt_u64, nat_digits, text_eq};

verus! {

// ------------------------------------------------------------ digests

/// What SHA-256 gives for `data`.
pub uninterp spec fn sha256_of(data: Seq<u8>) -> Seq<u8>;

/// `sha2::Sha256::digest`: the 32-byte SHA-256 digest of `data`.
#[verifier::external_body]
pub(crate) fn sha256(data: &[u8]) -> (r: Vec<u8>)
    ensures
        r@ == sha256_of(data@),
        r@.len() == 32,
{
    sha2::Sha256::digest(data).to_vec()
}

/// Lower-case hexadecimal text of bytes, high nibble first.
pub open spec fn hex_text(b: Seq<u8>) -> Seq<char>
    decreases b.len(),
{
    if b.len() == 0 {
        Seq::empty()
    } else {
        hex_text(b.drop_last()) + seq![hex_digit(b.last() as int / 16), hex_digit(b.last() as int % 16)]
    }
}

/// `hex::encode`: two lower-case hexadecimal digits per byte, high nibble first.
#[verifier::external_body]
pub(crate) fn hex_encode(data: &[u8]) -> (r: String)
    ensures
        r@ == hex_text(data@),
{
    hex::encode(data)
}

/// Hex text has two digits per byte.
pub proof fn lemma_hex_len(b: Seq<u8>)
    ensures
        hex_text(b).len() == 2 * b.len(),
    decreases b.len(),
{
    if b.len() > 0 {
        lemma_hex_len(b.drop_last());
    }
}

/// Hex digest of a text's UTF-8 bytes.
pub open spec fn text_digest(t: Seq<char>) -> Seq<char> {
    hex_text(sha256_of(encode_utf8(t)))
}

/// Hex SHA-256 of a string.
pub fn digest_hex(s: &str) -> (r: String)
    ensures
        r@ == text_digest(s@),
        r@.len() == 64,
{
    let d = sha256(s.as_bytes());
    proof {
        lemma_hex_len(d@);
    }
    hex_encode(d.as_slice())
}

// ------------------------------------------------------------ canonical rule JSON

/// `[hour,minute,second]`.
pub open spec fn hms_json(h: [u32; 3]) -> Seq<char> {
    "["@ + dec_text(h[0] as int) + ","@ + dec_text(h[1] as int) + ","@ + dec_text(h[2] as int) + "]"@
}

/// An inclusion rule, keys in ascending order, tagged by `kind`.
pub open spec fn inclusion_json(inc: InclusionRule) -> Seq<char> {
    match inc {
        InclusionRule::Monthly(m) => "{\"days_of_month\":"@ + i32_array_json(m.days_of_month@)
            + ",\"hms\":"@ + hms_json(m.hms) + ",\"id\":"@ + json_quote(m.id@)
            + ",\"kind\":\"monthly\"}"@,
        InclusionRule::Weekly(w) => "{\"days_of_week\":"@ + u32_array_json(w.days_of_week@)
            + ",\"hms\":"@ + hms_json(w.hms) + ",\"id\":"@ + json_quote(w.id@)
            + ",\"kind\":\"weekly\"}"@,
        InclusionRule::Holiday(h) => "{\"hms\":"@ + hms_json(h.hms) + ",\"holidays\":"@
            + string_array_json(string_views(h.holidays@)) + ",\"id\":"@ + json_quote(h.id@)
            + ",\"kind\":\"holiday\"}"@,
    }
}

/// An exclusion window, keys in ascending order.
pub open spec fn exclusion_json(x: ExclusionWindow) -> Seq<char> {
    "{\"end_epoch\":"@ + dec_text(x.end_epoch as int) + ",\"id\":"@ + json_quote(x.id@)
        + ",\"note\":"@ + json_quote(x.note@) + ",\"start_epoch\":"@ + dec_text(
        x.start_epoch as int,
    ) + "}"@
}

/// One holiday set as an object member.
pub open spec fn holiday_member_json(e: (Seq<char>, Seq<Seq<char>>)) -> Seq<char> {
    json_quote(e.0) + ":"@ + string_array_json(e.1)
}

/// The holiday sets as an object, names in ascending order.
pub open spec fn holidays_json(h: Seq<(Seq<char>, Seq<Seq<char>>)>) -> Seq<char> {
    "{"@ + join(h.map_values(|e: (Seq<char>, Seq<Seq<char>>)| holiday_member_json(e))) + "}"@
}

pub open spec fn inclusions_json(s: Seq<InclusionRule>) -> Seq<char> {
    json_array(s.map_values(|i: InclusionRule| inclusion_json(i)))
}

pub open spec fn exclusions_json(s: Seq<ExclusionWindow>) -> Seq<char> {
    json_array(s.map_values(|x: ExclusionWindow| exclusion_json(x)))
}

pub open spec fn gap_json(g: GapPolicy) -> Seq<char> {
    match g {
        GapPolicy::Skip => "\"skip\""@,
        GapPolicy::ShiftForward => "\"shift_forward\""@,
    }
}

pub open spec fn fold_json(f: FoldPolicy) -> Seq<char> {
    match f {
        FoldPolicy::Early => "\"early\""@,
        FoldPolicy::Late => "\"late\""@,
        FoldPolicy::Both => "\"both\""@,
    }
}

/// The first half of the rule's members (`end_epoch` .. `holidays`).
pub open spec fn rule_json_head(r: RuleVersion) -> Seq<char> {
    "{\"end_epoch\":"@ + dec_text(r.end_epoch as int) + ",\"exclusions\":"@ + exclusions_json(
        r.exclusions@,
    ) + ",\"fold_policy\":"@ + fold_json(r.fold_policy) + ",\"gap_policy\":"@ + gap_json(
        r.gap_policy,
    ) + ",\"holidays\":"@ + holidays_json(r.holidays@)
}

/// The second half of the rule's members (`inclusions` .. `version`).
pub open spec fn rule_json_tail(r: RuleVersion) -> Seq<char> {
    ",\"inclusions\":"@ + inclusions_json(r.inclusions@) + ",\"min_gap_seconds\":"@ + dec_text(
        r.min_gap_seconds as int,
    ) + ",\"rule_id\":"@ + json_quote(r.rule_id@) + ",\"start_epoch\":"@ + dec_text(
        r.start_epoch as int,
    ) + ",\"timezone\":"@ + json_quote(r.timezone@) + ",\"version\":"@ + dec_text(
        r.version as int,
    ) + "}"@
}

/// The rule's canonical JSON: compact, every object's keys in ascending order.
pub open spec fn rule_json(r: RuleVersion) -> Seq<char> {
    rule_json_head(r) + rule_json_tail(r)
}

/// What the fingerprint hashes: the rule's canonical JSON.
pub open spec fn rule_hash_input(r: RuleVersion) -> Seq<char> {
    rule_json(r)
}

/// The fingerprint of a rule.
pub open spec fn spec_fingerprint(r: RuleVersion) -> Seq<char> {
    text_digest(rule_hash_input(r))
}

fn write_hms(out: &mut String, hms: [u32; 3])
    ensures
        final(out)@ == old(out)@ + hms_json(hms),
{
    let ghost base = out@;
    out.append("[");
    write_int(out, hms[0] as i64);
    out.append(",");
    write_int(out, hms[1] as i64);
    out.append(",");
    write_int(out, hms[2] as i64);
    out.append("]");
    proof {
        assert(out@ =~= base + hms_json(hms));
    }
}

fn write_inclusion(out: &mut String, inc: &InclusionRule)
    ensures
        final(out)@ == old(out)@ + inclusion_json(*inc),
{
    let ghost base = out@;
    match inc {
        InclusionRule::Monthly(m) => {
            out.append("{\"days_of_month\":");
            write_i32_array(out, &m.days_of_month);
            out.append(",\"hms\":");
            write_hms(out, m.hms);
            out.append(",\"id\":");
            write_str(out, m.id.as_str());
            out.append(",\"kind\":\"monthly\"}");
        },
        InclusionRule::Weekly(w) => {
            out.append("{\"days_of_week\":");
            write_u32_array(out, &w.days_of_week);
            out.append(",\"hms\":");
            write_hms(out, w.hms);
            out.append(",\"id\":");
            write_str(out, w.id.as_str());
            out.append(",\"kind\":\"weekly\"}");
        },
        InclusionRule::Holiday(h) => {
            out.append("{\"hms\":");
            write_hms(out, h.hms);
            out.append(",\"holidays\":");
            write_str_array(out, &h.holidays);
            out.append(",\"id\":");
            write_str(out, h.id.as_str());
            out.append(",\"kind\":\"holiday\"}");
        },
    }
    proof {
        assert(out@ =~= base + inclusion_json(*inc));
    }
}

fn write_exclusion(out: &mut String, x: &ExclusionWindow)
    ensures
        final(out)@ == old(out)@ + exclusion_json(*x),
{
    let ghost base = out@;
    out.append("{\"end_epoch\":");
    write_int(out, x.end_epoch);
    out.append(",\"id\":");
    write_str(out, x.id.as_str());
    out.append(",\"note\":");
    write_str(out, x.note.as_str());
    out.append(",\"start_epoch\":");
    write_int(out, x.start_epoch);
    out.append("}");
    proof {
        assert(out@ =~= base + exclusion_json(*x));
    }
}

fn write_inclusions(out: &mut String, v: &Vec<InclusionRule>)
    ensures
        final(out)@ == old(out)@ + inclusions_json(v@),
{
    let ghost base = out@;
    out.append("[");
    let n = v.len();
    let mut i: usize = 0;
    proof {
        assert(v@.take(0).map_values(|i: InclusionRule| inclusion_json(i)) =~= Seq::<Seq<char>>::empty());
        assert(out@ =~= base + "["@ + join(v@.take(0).map_values(|i: InclusionRule| inclusion_json(i))));
    }
    while i < n
        invariant
            n == v@.len(),
            i <= n,
            out@ == base + "["@ + join(v@.take(i as int).map_values(|i: InclusionRule| inclusion_json(i))),
        decreases n - i,
    {
        let ghost items = v@.take(i as int).map_values(|i: InclusionRule| inclusion_json(i));
        proof {
            assert(v@.take(i + 1).map_values(|i: InclusionRule| inclusion_json(i)) =~= items.push(
                inclusion_json(v@[i as int]),
            ));
            lemma_join_push(items, inclusion_json(v@[i as int]));
        }
        if i > 0 {
            out.append(",");
        }
        write_inclusion(out, &v[i]);
        proof {
            if i > 0 {
                assert(out@ =~= base + "["@ + (join(items) + ","@ + inclusion_json(v@[i as int])));
            } else {
                assert(out@ =~= base + "["@ + inclusion_json(v@[i as int]));
            }
        }
        i = i + 1;
    }
    proof {
        assert(v@.take(n as int) =~= v@);
    }
    out.append("]");
    proof {
        assert(out@ =~= base + inclusions_json(v@));
    }
}

fn write_exclusions(out: &mut String, v: &Vec<ExclusionWindow>)
    ensures
        final(out)@ == old(out)@ + exclusions_json(v@),
{
    let ghost base = out@;
    out.append("[");
    let n = v.len();
    let mut i: usize = 0;
    proof {
        assert(v@.take(0).map_values(|x: ExclusionWindow| exclusion_json(x)) =~= Seq::<Seq<char>>::empty());
        assert(out@ =~= base + "["@ + join(v@.take(0).map_values(|x: ExclusionWindow| exclusion_json(x))));
    }
    while i < n
        invariant
            n == v@.len(),
            i <= n,
            out@ == base + "["@ + join(v@.take(i as int).map_values(|x: ExclusionWindow| exclusion_json(x))),
        decreases n - i,
    {
        let ghost items = v@.take(i as int).map_values(|x: ExclusionWindow| exclusion_json(x));
        proof {
            assert(v@.take(i + 1).map_values(|x: ExclusionWindow| exclusion_json(x)) =~= items.push(
                exclusion_json(v@[i as int]),
            ));
            lemma_join_push(items, exclusion_json(v@[i as int]));
        }
        if i > 0 {
            out.append(",");
        }
        write_exclusion(out, &v[i]);
        proof {
            if i > 0 {
                assert(out@ =~= base + "["@ + (join(items) + ","@ + exclusion_json(v@[i as int])));
            } else {
                assert(out@ =~= base + "["@ + exclusion_json(v@[i as int]));
            }
        }
        i = i + 1;
    }
    proof {
        assert(v@.take(n as int) =~= v@);
    }
    out.append("]");
    proof {
        assert(out@ =~= base + exclusions_json(v@));
    }
}

fn write_holidays(out: &mut String, h: &HolidaySets)
    ensures
        final(out)@ == old(out)@ + holidays_json(h@),
{
    let ghost base = out@;
    out.append("{");
    let n = h.len();
    let mut i: usize = 0;
    let ghost f = |e: (Seq<char>, Seq<Seq<char>>)| holiday_member_json(e);
    proof {
        assert(h@.take(0).map_values(f) =~= Seq::<Seq<char>>::empty());
        assert(out@ =~= base + "{"@ + join(h@.take(0).map_values(f)));
    }
    while i < n
        invariant
            n == h@.len(),
            i <= n,
            f == (|e: (Seq<char>, Seq<Seq<char>>)| holiday_member_json(e)),
            out@ == base + "{"@ + join(h@.take(i as int).map_values(f)),
        decreases n - i,
    {
        let ghost items = h@.take(i as int).map_values(f);
        proof {
            assert(h@.take(i + 1).map_values(f) =~= items.push(holiday_member_json(h@[i as int])));
            lemma_join_push(items, holiday_member_json(h@[i as int]));
        }
        if i > 0 {
            out.append(",");
        }
        let (name, dates) = h.entry(i);
        write_str(out, name.as_str());
        out.append(":");
        write_str_array(out, dates);
        proof {
            assert(string_views(dates@) == h@[i as int].1);
            if i > 0 {
                assert(out@ =~= base + "{"@ + (join(items) + ","@ + holiday_member_json(h@[i as int])));
            } else {
                assert(out@ =~= base + "{"@ + holiday_member_json(h@[i as int]));
            }
        }
        i = i + 1;
    }
    proof {
        assert(h@.take(n as int) =~= h@);
    }
    out.append("}");
    proof {
        assert(out@ =~= base + holidays_json(h@));
    }
}

fn write_gap(out: &mut String, g: GapPolicy)
    ensures
        final(out)@ == old(out)@ + gap_json(g),
{
    match g {
        GapPolicy::Skip => out.append("\"skip\""),
        GapPolicy::ShiftForward => out.append("\"shift_forward\""),
    }
}

fn write_fold(out: &mut String, f: FoldPolicy)
    ensures
        final(out)@ == old(out)@ + fold_json(f),
{
    match f {
        FoldPolicy::Early => out.append("\"early\""),
        FoldPolicy::Late => out.append("\"late\""),
        FoldPolicy::Both => out.append("\"both\""),
    }
}

fn write_rule_head(out: &mut String, r: &RuleVersion)
    ensures
        final(out)@ == old(out)@ + rule_json_head(*r),
{
    let ghost base = out@;
    out.append("{\"end_epoch\":");
    write_int(out, r.end_epoch);
    out.append(",\"exclusions\":");
    write_exclusions(out, &r.exclusions);
    out.append(",\"fold_policy\":");
    write_fold(out, r.fold_policy);
    out.append(",\"gap_policy\":");
    write_gap(out, r.gap_policy);
    out.append(",\"holidays\":");
    write_holidays(out, &r.holidays);
    proof {
        assert(out@ =~= base + rule_json_head(*r));
    }
}

fn write_rule_tail(out: &mut String, r: &RuleVersion)
    ensures
        final(out)@ == old(out)@ + rule_json_tail(*r),
{
    let ghost base = out@;
    out.append(",\"inclusions\":");
    write_inclusions(out, &r.inclusions);
    out.append(",\"min_gap_seconds\":");
    write_int(out, r.min_gap_seconds);
    out.append(",\"rule_id\":");
    write_str(out, r.rule_id.as_str());
    out.append(",\"start_epoch\":");
    write_int(out, r.start_epoch);
    out.append(",\"timezone\":");
    write_str(out, r.timezone.as_str());
    out.append(",\"version\":");
    write_int(out, r.version as i64);
    out.append("}");
    proof {
        assert(out@ =~= base + rule_json_tail(*r));
    }
}

/// Appends the rule's canonical JSON.
pub fn write_rule_json(out: &mut String, r: &RuleVersion)
    ensures
        final(out)@ == old(out)@ + rule_json(*r),
{
    let ghost base = out@;
    write_rule_head(out, r);
    write_rule_tail(out, r);
    proof {
        assert(out@ =~= base + rule_json(*r));
    }
}

/// Fingerprint of a rule: hex SHA-256 of the rule's canonical JSON (every
/// object's keys in ascending byte order), so it depends on the rule's
/// contents only.
pub fn rule_fingerprint(rule: &RuleVersion) -> (r: String)
    ensures
        r@ == spec_fingerprint(*rule),
        r@.len() == 64,
{
    let mut text = String::new();
    write_rule_json(&mut text, rule);
    proof {
        assert(text@ =~= rule_hash_input(*rule));
    }
    digest_hex(text.as_str())
}

// ------------------------------------------------------------ cursors

/// The query direction as a cursor names it.
pub open spec fn direction_text(d: Direction) -> Seq<char> {
    match d {
        Direction::Forward => "forward"@,
        Direction::Backward => "backward"@,
    }
}

/// The direction a cursor's text names, if any.
pub open spec fn parse_direction(t: Seq<char>) -> Option<Direction> {
    if t == "forward"@ {
        Some(Direction::Forward)
    } else if t == "backward"@ {
        Some(Direction::Backward)
    } else {
        None
    }
}

/// The cursor payload as JSON: format version 1, fingerprint, time zone
/// database, direction and the last instant returned, in that order.
pub open spec fn cursor_json(fp: Seq<char>, tzdb: Seq<char>, d: Direction, last: i64) -> Seq<char> {
    "{\"v\":1,\"fp\":"@ + json_quote(fp) + ",\"tzdb\":"@ + json_quote(tzdb) + ",\"dir\":"@
        + json_quote(direction_text(d)) + ",\"last_epoch\":"@ + dec_text(last as int) + "}"@
}

/// The cursor: base64url of the payload's UTF-8 bytes.
pub open spec fn cursor_text(fp: Seq<char>, tzdb: Seq<char>, d: Direction, last: i64) -> Seq<char> {
    ascii_chars(b64_encode(encode_utf8(cursor_json(fp, tzdb, d, last))))
}

/// Issues the cursor for the next page.
pub fn encode_cursor(fingerprint: &str, tzdb: &str, direction: Direction, last_epoch: i64) -> (r: String)
    ensures
        r@ == cursor_text(fingerprint@, tzdb@, direction, last_epoch),
{
    let mut json = String::new();
    json.append("{\"v\":1,\"fp\":");
    write_str(&mut json, fingerprint);
    json.append(",\"tzdb\":");
    write_str(&mut json, tzdb);
    json.append(",\"dir\":");
    match direction {
        Direction::Forward => write_str(&mut json, "forward"),
        Direction::Backward => write_str(&mut json, "backward"),
    }
    json.append(",\"last_epoch\":");
    write_int(&mut json, last_epoch);
    json.append("}");
    proof {
        assert(json@ =~= cursor_json(fingerprint@, tzdb@, direction, last_epoch));
    }
    b64url_encode(json.as_str().as_bytes())
}

/// The fields of a cursor payload as the JSON document holds them; a field
/// that is absent or of another type is `None`, and `has` tells which of
/// the keys `v`, `fp`, `tzdb`, `dir`, `last_epoch` the document holds at all.
pub struct CursorFields {
    pub v: Option<u64>,
    pub fp: Option<String>,
    pub tzdb: Option<String>,
    pub dir: Option<String>,
    pub last_epoch: Option<i64>,
    pub has: [bool; 5],
}

/// Cursor payload fields as plain values.
pub struct CursorFieldsModel {
    pub v: Option<u64>,
    pub fp: Option<Seq<char>>,
    pub tzdb: Option<Seq<char>>,
    pub dir: Option<Seq<char>>,
    pub last_epoch: Option<i64>,
    pub has: [bool; 5],
}

impl View for CursorFields {
    type V = CursorFieldsModel;

    open spec fn view(&self) -> CursorFieldsModel {
        CursorFieldsModel {
            v: self.v,
            fp: opt_text(self.fp),
            tzdb: opt_text(self.tzdb),
            dir: opt_text(self.dir),
            last_epoch: self.last_epoch,
            has: self.has,
        }
    }
}

/// What `serde_json` reads out of a cursor payload's bytes: the fields, or
/// the text of the parse error.
pub uninterp spec fn cursor_payload_fields(raw: Seq<u8>) -> Result<CursorFieldsModel, Seq<char>>;

/// The fields that a payload written by `encode_cursor` holds.
pub open spec fn written_fields(fp: Seq<char>, tzdb: Seq<char>, d: Direction, last: i64) -> CursorFieldsModel {
    CursorFieldsModel {
        v: Some(1),
        fp: Some(fp),
        tzdb: Some(tzdb),
        dir: Some(direction_text(d)),
        last_epoch: Some(last),
        has: [true, true, true, true, true],
    }
}

/// A read of payload fields as plain values.
pub open spec fn fields_view(r: Result<CursorFields, String>) -> Result<CursorFieldsModel, Seq<char>> {
    match r {
        Ok(f) => Ok(f@),
        Err(m) => Err(m@),
    }
}

/// The read of a payload written by `encode_cursor`.
pub open spec fn written_result(fp: Seq<char>, tzdb: Seq<char>, d: Direction, last: i64) -> Result<CursorFieldsModel, Seq<char>> {
    Ok(written_fields(fp, tzdb, d, last))
}

/// `serde_json::from_slice` of the payload into a `Value`, then each field
/// read with `get` and `as_u64`, `as_str` or `as_i64`. The result is named
/// by `cursor_payload_fields`; of a payload in the form that `encode_cursor`
/// writes, serde_json reads back the values that were written (its reader
/// undoes the escapes its writer makes).
#[verifier::external_body]
fn read_cursor_payload(raw: &[u8]) -> (r: Result<CursorFields, String>)
    ensures
        fields_view(r) == cursor_payload_fields(raw@),
        forall|fp: Seq<char>, tzdb: Seq<char>, d: Direction, e: i64|
            encode_utf8(#[trigger] cursor_json(fp, tzdb, d, e)) == raw@ ==> fields_view(r)
                == written_result(fp, tzdb, d, e),
{
    let v: serde_json::Value = serde_json::from_slice(raw).map_err(|e| e.to_string())?;
    let text = |k: &str| v.get(k).and_then(|x| x.as_str()).map(|s| s.to_owned());
    let has = |k: &str| v.get(k).is_some();
    Ok(CursorFields {
        v: v.get("v").and_then(|x| x.as_u64()),
        fp: text("fp"),
        tzdb: text("tzdb"),
        dir: text("dir"),
        last_epoch: v.get("last_epoch").and_then(|x| x.as_i64()),
        has: [has("v"), has("fp"), has("tzdb"), has("dir"), has("last_epoch")],
    })
}

/// Why a cursor was refused, as plain values.
pub enum CursorFault {
    Decode(Seq<char>),
    FingerprintMismatch,
    TzdbMismatch,
    DirectionMismatch,
}

/// Why a cursor was refused.
#[derive(Debug, Clone, PartialEq, Eq)]
pub enum CursorError {
    /// Not base64url, not a payload, or a payload of another format.
    Decode(String),
    /// Issued for a rule with another fingerprint (the rule has changed).
    FingerprintMismatch,
    /// Issued under another time zone database.
    TzdbMismatch,
    /// Issued for the other direction.
    DirectionMismatch,
}

impl View for CursorError {
    type V = CursorFault;

    open spec fn view(&self) -> CursorFault {
        match self {
            CursorError::Decode(m) => CursorFault::Decode(m@),
            CursorError::FingerprintMismatch => CursorFault::FingerprintMismatch,
            CursorError::TzdbMismatch => CursorFault::TzdbMismatch,
            CursorError::DirectionMismatch => CursorFault::DirectionMismatch,
        }
    }
}

/// The text shown for a refused cursor.
pub open spec fn cursor_fault_text(f: CursorFault) -> Seq<char> {
    match f {
        CursorFault::Decode(m) => "游标无法解码: "@ + m,
        CursorFault::FingerprintMismatch => "游标绑定的规则指纹与当前规则不一致（规则已变更），旧游标被拒绝"@,
        CursorFault::TzdbMismatch => "游标绑定的时区数据库版本与当前实例不一致，旧游标被拒绝"@,
        CursorFault::DirectionMismatch => "游标签发方向与本次查询方向不一致，旧游标被拒绝"@,
    }
}

impl CursorError {
    /// The message shown for this refusal.
    pub fn message(&self) -> (r: String)
        ensures
            r@ == cursor_fault_text(self@),
    {
        match self {
            CursorError::Decode(m) => cat("游标无法解码: ", m.as_str()),
            CursorError::FingerprintMismatch => "游标绑定的规则指纹与当前规则不一致（规则已变更），旧游标被拒绝".to_owned(),
            CursorError::TzdbMismatch => "游标绑定的时区数据库版本与当前实例不一致，旧游标被拒绝".to_owned(),
            CursorError::DirectionMismatch => "游标签发方向与本次查询方向不一致，旧游标被拒绝".to_owned(),
        }
    }
}

/// A cursor outcome as plain values.
pub open spec fn outcome_view(r: Result<i64, CursorError>) -> Result<i64, CursorFault> {
    match r {
        Ok(e) => Ok(e),
        Err(x) => Err(x@),
    }
}

pub open spec fn missing_field(name: Seq<char>) -> Seq<char> {
    "missing field `"@ + name + "`"@
}

/// The fault of a field that is absent, or present with another type.
pub open spec fn field_fault(name: Seq<char>, present: bool, expected: Seq<char>) -> Seq<char> {
    if present {
        "invalid type: field `"@ + name + "`, expected "@ + expected
    } else {
        missing_field(name)
    }
}

/// What the fields of a decoded payload decide: a payload of another form
/// cannot be decoded; then the fingerprint, the time zone database and the
/// direction must be those of the query, in that order.
pub open spec fn check_fields(f: CursorFieldsModel, fp: Seq<char>, tzdb: Seq<char>, d: Direction) -> Result<i64, CursorFault> {
    if f.v is None {
        Err(CursorFault::Decode(field_fault("v"@, f.has[0], "u32"@)))
    } else if f.fp is None {
        Err(CursorFault::Decode(field_fault("fp"@, f.has[1], "a string"@)))
    } else if f.tzdb is None {
        Err(CursorFault::Decode(field_fault("tzdb"@, f.has[2], "a string"@)))
    } else if f.dir is None {
        Err(CursorFault::Decode(field_fault("dir"@, f.has[3], "a string"@)))
    } else if f.last_epoch is None {
        Err(CursorFault::Decode(field_fault("last_epoch"@, f.has[4], "i64"@)))
    } else if f.v->0 > u32::MAX {
        Err(CursorFault::Decode("invalid value: integer `"@ + nat_digits(f.v->0 as nat) + "`, expected u32"@))
    } else if parse_direction(f.dir->0) is None {
        Err(CursorFault::Decode("unknown variant `"@ + f.dir->0 + "`, expected `forward` or `backward`"@))
    } else if f.v->0 != 1 {
        Err(CursorFault::Decode("不支持的游标版本 "@ + nat_digits(f.v->0 as nat)))
    } else if f.fp->0 != fp {
        Err(CursorFault::FingerprintMismatch)
    } else if f.tzdb->0 != tzdb {
        Err(CursorFault::TzdbMismatch)
    } else if parse_direction(f.dir->0) != Some(d) {
        Err(CursorFault::DirectionMismatch)
    } else {
        Ok(f.last_epoch->0)
    }
}

fn missing(name: &str) -> (r: String)
    ensures
        r@ == missing_field(name@),
{
    let head = cat("missing field `", name);
    cat(head.as_str(), "`")
}

fn fault(name: &str, present: bool, expected: &str) -> (r: String)
    ensures
        r@ == field_fault(name@, present, expected@),
{
    if present {
        let a = cat("invalid type: field `", name);
        let b = cat(a.as_str(), "`, expected ");
        cat(b.as_str(), expected)
    } else {
        missing(name)
    }
}

fn read_direction(t: &str) -> (r: Option<Direction>)
    ensures
        r == parse_direction(t@),
{
    if text_eq(t, "forward") {
        Some(Direction::Forward)
    } else if text_eq(t, "backward") {
        Some(Direction::Backward)
    } else {
        None
    }
}

/// Decides a cursor from the fields read out of its payload.
pub fn check_cursor_fields(
    fields: &CursorFields,
    expected_fingerprint: &str,
    expected_tzdb: &str,
    direction: Direction,
) -> (r: Result<i64, CursorError>)
    ensures
        outcome_view(r) == check_fields(fields@, expected_fingerprint@, expected_tzdb@, direction),
{
    let v = match fields.v {
        Some(v) => v,
        None => return Err(CursorError::Decode(fault("v", fields.has[0], "u32"))),
    };
    let fp = match &fields.fp {
        Some(t) => t,
        None => return Err(CursorError::Decode(fault("fp", fields.has[1], "a string"))),
    };
    let tzdb = match &fields.tzdb {
        Some(t) => t,
        None => return Err(CursorError::Decode(fault("tzdb", fields.has[2], "a string"))),
    };
    let dir = match &fields.dir {
        Some(t) => t,
        None => return Err(CursorError::Decode(fault("dir", fields.has[3], "a string"))),
    };
    let last = match fields.last_epoch {
        Some(e) => e,
        None => return Err(CursorError::Decode(fault("last_epoch", fields.has[4], "i64"))),
    };
    if v > 4294967295 {
        let digits = fmt_u64(v);
        let head = cat("invalid value: integer `", digits.as_str());
        return Err(CursorError::Decode(cat(head.as_str(), "`, expected u32")));
    }
    let d = match read_direction(dir.as_str()) {
        Some(d) => d,
        None => {
            let head = cat("unknown variant `", dir.as_str());
            return Err(CursorError::Decode(cat(head.as_str(), "`, expected `forward` or `backward`")));
        },
    };
    if v != 1 {
        let digits = fmt_u64(v);
        return Err(CursorError::Decode(cat("不支持的游标版本 ", digits.as_str())));
    }
    if !text_eq(fp.as_str(), expected_fingerprint) {
        return Err(CursorError::FingerprintMismatch);
    }
    if !text_eq(tzdb.as_str(), expected_tzdb) {
        return Err(CursorError::TzdbMismatch);
    }
    if d != direction {
        return Err(CursorError::DirectionMismatch);
    }
    Ok(last)
}

/// What decoding gives for a cursor text.
pub open spec fn spec_decode_cursor(c: Seq<char>, fp: Seq<char>, tzdb: Seq<char>, d: Direction) -> Result<i64, CursorFault> {
    match b64_decode(encode_utf8(c)) {
        Err(m) => Err(CursorFault::Decode(m)),
        Ok(raw) => match cursor_payload_fields(raw) {
            Err(m) => Err(CursorFault::Decode(m)),
            Ok(f) => check_fields(f, fp, tzdb, d),
        },
    }
}

/// What a cursor issued for `(fp0, tzdb0, d0, e0)` gives for a query with
/// `(fp, tzdb, d)`: its instant when all three match, otherwise the first
/// mismatch.
pub open spec fn bound_outcome(
    fp0: Seq<char>,
    tzdb0: Seq<char>,
    d0: Direction,
    e0: i64,
    fp: Seq<char>,
    tzdb: Seq<char>,
    d: Direction,
) -> Result<i64, CursorFault> {
    if fp0 != fp {
        Err(CursorFault::FingerprintMismatch)
    } else if tzdb0 != tzdb {
        Err(CursorFault::TzdbMismatch)
    } else if d0 != d {
        Err(CursorFault::DirectionMismatch)
    } else {
        Ok(e0)
    }
}

proof fn lemma_digits_ascii(b: Seq<u8>)
    ensures
        forall|i: int| 0 <= i < b64_encode(b).len() ==> #[trigger] b64_encode(b)[i] < 128,
    decreases b.len(),
{
    if b.len() >= 3 {
        lemma_digits_ascii(b.skip(3));
        let g = full_group_digits(b[0], b[1], b[2]);
        assert(b64_encode(b) == g + b64_encode(b.skip(3)));
        assert forall|i: int| 0 <= i < b64_encode(b).len() implies #[trigger] b64_encode(b)[i] < 128 by {
            if i >= 4 {
                assert(b64_encode(b)[i] == b64_encode(b.skip(3))[i - 4]);
            }
        }
    }
}

/// The bytes of an ASCII text made from bytes below 128 are those bytes.
proof fn lemma_ascii_round_trip(x: Seq<u8>)
    requires
        forall|i: int| 0 <= i < x.len() ==> #[trigger] x[i] < 128,
    ensures
        encode_utf8(ascii_chars(x)) == x,
{
    let c = ascii_chars(x);
    assert(vstd::utf8::is_ascii_chars(c)) by {
        assert forall|i: int| 0 <= i < c.len() implies '\0' <= #[trigger] c[i] <= '\u{7f}' by {
            assert(c[i] == x[i] as char);
        }
    }
    vstd::utf8::is_ascii_chars_encode_utf8(c);
    assert forall|i: int| 0 <= i < x.len() implies encode_utf8(c)[i] == x[i] by {
        assert(c[i] == x[i] as char);
        assert(c[i] as u8 == encode_utf8(c)[i]);
    }
    assert(encode_utf8(c) =~= x);
}

/// Decoding a cursor's base64url gives back the payload bytes.
proof fn lemma_cursor_bytes(fp: Seq<char>, tzdb: Seq<char>, d: Direction, e: i64)
    ensures
        b64_decode(encode_utf8(cursor_text(fp, tzdb, d, e))) == Ok::<Seq<u8>, Seq<char>>(
            encode_utf8(cursor_json(fp, tzdb, d, e)),
        ),
{
    let raw = encode_utf8(cursor_json(fp, tzdb, d, e));
    lemma_digits_ascii(raw);
    lemma_ascii_round_trip(b64_encode(raw));
    lemma_b64_round_trip(raw);
}

/// Checks a cursor against the current fingerprint, time zone database and
/// direction, and gives the instant it was issued after.
pub fn decode_cursor(
    cursor: &str,
    expected_fingerprint: &str,
    expected_tzdb: &str,
    direction: Direction,
) -> (r: Result<i64, CursorError>)
    ensures
        outcome_view(r) == spec_decode_cursor(cursor@, expected_fingerprint@, expected_tzdb@, direction),
        forall|fp0: Seq<char>, tzdb0: Seq<char>, d0: Direction, e0: i64|
            cursor@ == #[trigger] cursor_text(fp0, tzdb0, d0, e0) ==> outcome_view(r) == bound_outcome(
                fp0,
                tzdb0,
                d0,
                e0,
                expected_fingerprint@,
                expected_tzdb@,
                direction,
            ),
{
    let raw = match b64url_decode(cursor) {
        Ok(b) => b,
        Err(m) => {
            proof {
                assert forall|fp0: Seq<char>, tzdb0: Seq<char>, d0: Direction, e0: i64|
                    cursor@ == #[trigger] cursor_text(fp0, tzdb0, d0, e0) implies false by {
                    lemma_cursor_bytes(fp0, tzdb0, d0, e0);
                }
            }
            return Err(CursorError::Decode(m));
        },
    };
    let ghost raw_view = raw@;
    let fields = match read_cursor_payload(raw.as_slice()) {
        Ok(f) => f,
        Err(m) => {
            proof {
                assert forall|fp0: Seq<char>, tzdb0: Seq<char>, d0: Direction, e0: i64|
                    cursor@ == #[trigger] cursor_text(fp0, tzdb0, d0, e0) implies false by {
                    lemma_cursor_bytes(fp0, tzdb0, d0, e0);
                    assert(encode_utf8(cursor_json(fp0, tzdb0, d0, e0)) == raw_view);
                }
            }
            return Err(CursorError::Decode(m));
        },
    };
    let r = check_cursor_fields(&fields, expected_fingerprint, expected_tzdb, direction);
    proof {
        reveal_strlit("forward");
        reveal_strlit("backward");
        assert forall|fp0: Seq<char>, tzdb0: Seq<char>, d0: Direction, e0: i64|
            cursor@ == #[trigger] cursor_text(fp0, tzdb0, d0, e0) implies outcome_view(r) == bound_outcome(
            fp0,
            tzdb0,
            d0,
            e0,
            expected_fingerprint@,
            expected_tzdb@,
            direction,
        ) by {
            lemma_cursor_bytes(fp0, tzdb0, d0, e0);
            assert(encode_utf8(cursor_json(fp0, tzdb0, d0, e0)) == raw_view);
            assert(fields@ == written_fields(fp0, tzdb0, d0, e0));
            assert(parse_direction(direction_text(d0)) == Some(d0));
        }
    }
    r
}

} // verus!
