//! Tests of the library's parts on concrete values: text formats, digests,
//! cursors, sessions and the service operations.

use chrono::{TimeZone, Utc};
use periodic_arbiter::api::{
    evaluate_rule, fresh_session_id, handle_query, list_timezones, resolve_local_endpoint,
    save_rule, QueryRequest, ResolveRequest, VerdictDto,
};
use periodic_arbiter::base64url::{b64url_decode, b64url_encode};
use periodic_arbiter::engine::{Engine, VerdictKind};
use periodic_arbiter::fingerprint::{
    check_cursor_fields, decode_cursor, digest_hex, encode_cursor, rule_fingerprint,
    write_rule_json, CursorError, CursorFields,
};
use periodic_arbiter::json::write_str;
use periodic_arbiter::model::{
    Direction, ExclusionWindow, FoldPolicy, GapPolicy, HolidayRule, HolidaySets, InclusionRule,
    MonthlyRule, RuleVersion, WeeklyRule,
};
use periodic_arbiter::storage::{
    canonical_session_json, export_session, import_envelope, safe_name, QueryRecord,
    SessionRecord, Store,
};
use periodic_arbiter::tzutil::tzdb_version;

fn ymd(y: i32, m: u32, d: u32, h: u32, mi: u32, s: u32) -> i64 {
    Utc.with_ymd_and_hms(y, m, d, h, mi, s).unwrap().timestamp()
}

fn small_rule() -> RuleVersion {
    let mut holidays = HolidaySets::new();
    holidays.insert("b".to_string(), vec!["2024-01-02".to_string()]);
    holidays.insert("a".to_string(), vec![]);
    RuleVersion {
        rule_id: "r1".into(),
        version: 3,
        timezone: "UTC".into(),
        start_epoch: 0,
        end_epoch: 86400,
        holidays,
        inclusions: vec![
            InclusionRule::Monthly(MonthlyRule { id: "m".into(), days_of_month: vec![-1, 2], hms: [1, 2, 3] }),
            InclusionRule::Weekly(WeeklyRule { id: "w".into(), days_of_week: vec![4], hms: [0, 0, 0] }),
            InclusionRule::Holiday(HolidayRule { id: "h".into(), holidays: vec!["b".into()], hms: [9, 0, 0] }),
        ],
        exclusions: vec![ExclusionWindow { id: "x".into(), start_epoch: 5, end_epoch: 6, note: "n\"q".into() }],
        min_gap_seconds: 60,
        gap_policy: GapPolicy::ShiftForward,
        fold_policy: FoldPolicy::Both,
    }
}

fn daily_utc(start: i64, end: i64, min_gap: i64) -> RuleVersion {
    RuleVersion {
        rule_id: "d".into(),
        version: 1,
        timezone: "UTC".into(),
        start_epoch: start,
        end_epoch: end,
        holidays: HolidaySets::new(),
        inclusions: vec![InclusionRule::Weekly(WeeklyRule {
            id: "w".into(),
            days_of_week: vec![1, 2, 3, 4, 5, 6, 7],
            hms: [9, 0, 0],
        })],
        exclusions: vec![],
        min_gap_seconds: min_gap,
        gap_policy: GapPolicy::Skip,
        fold_policy: FoldPolicy::Early,
    }
}

// ---------- base64url ----------
#[test]
fn base64url_encodes_without_padding() {
    assert_eq!(b64url_encode(b"hello"), "aGVsbG8");
    assert_eq!(b64url_encode(b"he"), "aGU");
    assert_eq!(b64url_encode(b"hel"), "aGVs");
    assert_eq!(b64url_encode(&[0xfb, 0xff]), "-_8");
    assert_eq!(b64url_encode(b""), "");
}

#[test]
fn base64url_round_trips() {
    for text in [&b""[..], b"a", b"ab", b"abc", b"abcd", &[0u8, 255, 128, 7, 9][..]] {
        let e = b64url_encode(text);
        assert_eq!(b64url_decode(&e).unwrap(), text.to_vec());
    }
}

#[test]
fn base64url_decode_errors() {
    assert_eq!(b64url_decode("A").unwrap_err(), "base64url 长度非法");
    assert_eq!(b64url_decode("AAAAA").unwrap_err(), "base64url 长度非法");
    assert_eq!(b64url_decode("AA*A").unwrap_err(), "非法 base64url 字符");
    assert_eq!(b64url_decode("AAAA*A").unwrap_err(), "非法字符");
}

// ---------- JSON text and digests ----------
#[test]
fn json_string_escapes_as_serde_json() {
    let mut out = String::from("x");
    write_str(&mut out, "a\"b\\c\n\t\u{1}é");
    assert_eq!(out, "x\"a\\\"b\\\\c\\n\\t\\u0001é\"");
    let mut empty = String::new();
    write_str(&mut empty, "");
    assert_eq!(empty, "\"\"");
}

#[test]
fn digest_is_hex_sha256() {
    assert_eq!(
        digest_hex("abc"),
        "ba7816bf8f01cfea414140de5dae2223b00361a396177a9cb410ff61f20015ad"
    );
}

#[test]
fn canonical_rule_json_sorts_keys() {
    let mut out = String::new();
    write_rule_json(&mut out, &small_rule());
    assert_eq!(
        out,
        [
            "{\"end_epoch\":86400,",
            "\"exclusions\":[{\"end_epoch\":6,\"id\":\"x\",\"note\":\"n\\\"q\",\"start_epoch\":5}],",
            "\"fold_policy\":\"both\",\"gap_policy\":\"shift_forward\",",
            "\"holidays\":{\"a\":[],\"b\":[\"2024-01-02\"]},",
            "\"inclusions\":[",
            "{\"days_of_month\":[-1,2],\"hms\":[1,2,3],\"id\":\"m\",\"kind\":\"monthly\"},",
            "{\"days_of_week\":[4],\"hms\":[0,0,0],\"id\":\"w\",\"kind\":\"weekly\"},",
            "{\"hms\":[9,0,0],\"holidays\":[\"b\"],\"id\":\"h\",\"kind\":\"holiday\"}],",
            "\"min_gap_seconds\":60,\"rule_id\":\"r1\",\"start_epoch\":0,\"timezone\":\"UTC\",\"version\":3}",
        ]
        .join("")
    );
}

#[test]
fn fingerprint_hashes_canonical_json() {
    let rule = small_rule();
    let mut text = String::new();
    write_rule_json(&mut text, &rule);
    let fp = rule_fingerprint(&rule);
    assert_eq!(fp, digest_hex(&text));
    assert_eq!(fp.len(), 64);
    assert!(fp.chars().all(|c| c.is_ascii_hexdigit() && !c.is_ascii_uppercase()));
}

fn json_of(r: &RuleVersion) -> String {
    let mut t = String::new();
    write_rule_json(&mut t, r);
    t
}

#[test]
fn any_field_change_changes_the_canonical_json() {
    let base = small_rule();
    let base_json = json_of(&base);
    let mut variants: Vec<RuleVersion> = Vec::new();
    let mut r = small_rule();
    r.version = 4;
    variants.push(r);
    let mut r = small_rule();
    r.exclusions[0].note = "n\\q".into();
    variants.push(r);
    let mut r = small_rule();
    r.exclusions[0].note = "n\"q ".into();
    variants.push(r);
    let mut r = small_rule();
    r.inclusions[0] = InclusionRule::Monthly(MonthlyRule { id: "m".into(), days_of_month: vec![-12], hms: [1, 2, 3] });
    variants.push(r);
    let mut r = small_rule();
    r.fold_policy = FoldPolicy::Late;
    variants.push(r);
    let mut r = small_rule();
    r.holidays.insert("a".to_string(), vec!["2024-01-03".to_string()]);
    variants.push(r);
    for v in &variants {
        assert_ne!(json_of(v), base_json);
        assert_ne!(rule_fingerprint(v), rule_fingerprint(&base));
    }
}

// ---------- cursors ----------
#[test]
fn cursor_text_is_base64url_of_payload() {
    let c = encode_cursor("f", "t", Direction::Backward, -5);
    let raw = b64url_decode(&c).unwrap();
    assert_eq!(
        String::from_utf8(raw).unwrap(),
        "{\"v\":1,\"fp\":\"f\",\"tzdb\":\"t\",\"dir\":\"backward\",\"last_epoch\":-5}"
    );
}

#[test]
fn cursor_round_trip_and_each_refusal() {
    let c = encode_cursor("fp\"x", "db", Direction::Forward, 7);
    assert_eq!(decode_cursor(&c, "fp\"x", "db", Direction::Forward), Ok(7));
    assert_eq!(decode_cursor(&c, "other", "db", Direction::Forward), Err(CursorError::FingerprintMismatch));
    assert_eq!(decode_cursor(&c, "fp\"x", "db2", Direction::Forward), Err(CursorError::TzdbMismatch));
    assert_eq!(decode_cursor(&c, "fp\"x", "db", Direction::Backward), Err(CursorError::DirectionMismatch));
    // The fingerprint is checked before the direction.
    assert_eq!(decode_cursor(&c, "other", "db", Direction::Backward), Err(CursorError::FingerprintMismatch));
    assert!(matches!(decode_cursor("@@@@", "fp", "db", Direction::Forward), Err(CursorError::Decode(_))));
    let not_json = b64url_encode(b"not json");
    assert!(matches!(decode_cursor(&not_json, "fp", "db", Direction::Forward), Err(CursorError::Decode(_))));
}

#[test]
fn cursor_fields_decide_the_outcome() {
    let fields = |v: Option<u64>, dir: &str| CursorFields {
        v,
        fp: Some("f".into()),
        tzdb: Some("t".into()),
        dir: Some(dir.into()),
        last_epoch: Some(9),
        has: [v.is_some(), true, true, true, true],
    };
    assert_eq!(check_cursor_fields(&fields(Some(1), "forward"), "f", "t", Direction::Forward), Ok(9));
    assert_eq!(
        check_cursor_fields(&fields(Some(2), "forward"), "f", "t", Direction::Forward),
        Err(CursorError::Decode("不支持的游标版本 2".into()))
    );
    assert_eq!(
        check_cursor_fields(&fields(None, "forward"), "f", "t", Direction::Forward),
        Err(CursorError::Decode("missing field `v`".into()))
    );
    assert_eq!(
        check_cursor_fields(&fields(Some(1), "sideways"), "f", "t", Direction::Forward),
        Err(CursorError::Decode("unknown variant `sideways`, expected `forward` or `backward`".into()))
    );
    assert_eq!(
        check_cursor_fields(&fields(Some(1), "backward"), "f", "t", Direction::Forward),
        Err(CursorError::DirectionMismatch)
    );
}

#[test]
fn cursor_field_faults_name_the_field() {
    let mut f = CursorFields {
        v: Some(1),
        fp: None,
        tzdb: Some("t".into()),
        dir: Some("forward".into()),
        last_epoch: Some(1),
        has: [true, false, true, true, true],
    };
    assert_eq!(
        check_cursor_fields(&f, "f", "t", Direction::Forward),
        Err(CursorError::Decode("missing field `fp`".into()))
    );
    f.has[1] = true;
    assert_eq!(
        check_cursor_fields(&f, "f", "t", Direction::Forward),
        Err(CursorError::Decode("invalid type: field `fp`, expected a string".into()))
    );
    f.fp = Some("f".into());
    f.v = Some(1u64 << 33);
    assert_eq!(
        check_cursor_fields(&f, "f", "t", Direction::Forward),
        Err(CursorError::Decode("invalid value: integer `8589934592`, expected u32".into()))
    );
    let raw = b64url_encode(b"{\"v\":1,\"fp\":5,\"tzdb\":\"t\",\"dir\":\"forward\",\"last_epoch\":1}");
    assert_eq!(
        decode_cursor(&raw, "f", "t", Direction::Forward),
        Err(CursorError::Decode("invalid type: field `fp`, expected a string".into()))
    );
}

#[test]
fn cursor_error_messages() {
    assert_eq!(CursorError::Decode("x".into()).message(), "游标无法解码: x");
    assert_eq!(
        CursorError::DirectionMismatch.message(),
        "游标签发方向与本次查询方向不一致，旧游标被拒绝"
    );
}

// ---------- sessions ----------
fn session_of(rule: RuleVersion) -> SessionRecord {
    SessionRecord {
        session_id: "s1".into(),
        rule_id: rule.rule_id.clone(),
        rule_fingerprint: rule_fingerprint(&rule),
        tzdb: tzdb_version().to_string(),
        rule_snapshot: rule,
        queries: vec![QueryRecord {
            direction: Direction::Forward,
            limit: 2,
            cursor: None,
            returned_epochs: vec![1, -2],
            next_cursor: Some("c".into()),
            anchor_epoch: None,
        }],
        created_unix: 42,
    }
}

#[test]
fn canonical_session_json_sorts_keys() {
    let s = session_of(daily_utc(0, 10, 0));
    let mut rule_json = String::new();
    write_rule_json(&mut rule_json, &s.rule_snapshot);
    let expected = format!(
        "{{\"created_unix\":42,\"queries\":[{{\"anchor_epoch\":null,\"cursor\":null,\"direction\":\"forward\",\"limit\":2,\"next_cursor\":\"c\",\"returned_epochs\":[1,-2]}}],\"rule_fingerprint\":\"{}\",\"rule_id\":\"d\",\"rule_snapshot\":{},\"session_id\":\"s1\",\"tzdb\":\"{}\"}}",
        s.rule_fingerprint,
        rule_json,
        tzdb_version()
    );
    assert_eq!(canonical_session_json(&s), expected);
}

#[test]
fn export_then_import_gives_the_session_back() {
    let s = session_of(daily_utc(0, 10, 0));
    let env = export_session(s.clone(), tzdb_version());
    assert_eq!(env.format, "periodic-arbiter-session");
    assert_eq!(env.format_version, 1);
    assert_eq!(env.digest, digest_hex(&canonical_session_json(&s)));
    let (back, warning) = import_envelope(env).unwrap();
    assert_eq!(back, s);
    assert_eq!(warning, None);
}

#[test]
fn import_refuses_other_formats_and_warns_on_other_tzdb() {
    let s = session_of(daily_utc(0, 10, 0));
    let mut env = export_session(s.clone(), tzdb_version());
    env.format_version = 2;
    assert_eq!(import_envelope(env).unwrap_err().0, "不支持的导出格式或版本");
    let mut env = export_session(s.clone(), tzdb_version());
    env.session.created_unix = 43;
    assert_eq!(import_envelope(env).unwrap_err().0, "会话摘要不一致：文件已损坏或被修改");
    let env = export_session(s, "2023c");
    let (_, warning) = import_envelope(env).unwrap();
    assert_eq!(
        warning.unwrap(),
        format!(
            "时区数据库版本不同：导出端 2023c / 导入端 {}（固定库标识已记入游标与文件）",
            tzdb_version()
        )
    );
}

#[test]
fn file_names_are_sanitised() {
    assert_eq!(safe_name("a/b c-d_é"), "a_b_c-d__");
    let store = Store::new("data".into());
    assert_eq!(store.root(), "data");
    assert_eq!(store.rule_file("../x"), "rules/___x.json");
    assert_eq!(store.session_file("sess-1"), "sessions/sess-1.json");
}

// ---------- service operations ----------
#[test]
fn zone_list_is_sorted_and_unique() {
    let zones = list_timezones();
    assert!(zones.len() > 300);
    assert!(zones.windows(2).all(|w| w[0] < w[1]));
    assert!(zones.contains(&"America/New_York"));
    assert!(zones.contains(&"UTC"));
}

#[test]
fn save_rule_validates_and_fingerprints() {
    let rule = daily_utc(0, 86400, 0);
    assert_eq!(save_rule(&rule).unwrap(), rule_fingerprint(&rule));
    let bad = daily_utc(10, 0, 0);
    let err = save_rule(&bad).unwrap_err();
    assert_eq!(err.status, 400);
    assert_eq!(err.message, "start_epoch 不能晚于 end_epoch（必须是闭区间）");
}

#[test]
fn evaluate_rule_reports_every_verdict() {
    let rule = daily_utc(ymd(2024, 6, 1, 0, 0, 0), ymd(2024, 6, 3, 0, 0, 0), 25 * 3600);
    let fp = rule_fingerprint(&rule);
    let resp = evaluate_rule(rule).unwrap();
    assert_eq!(resp.rule_fingerprint, fp);
    assert_eq!(resp.tzdb, tzdb_version());
    let kinds: Vec<&str> = resp.items.iter().map(|d| d.kind).collect();
    assert_eq!(kinds, vec!["accepted", "too_soon"]);
    assert_eq!(resp.items[0].local_wall, "2024-06-01 09:00:00");
    assert_eq!(resp.items[0].sources[0].side, "single");
    let err = evaluate_rule(daily_utc(0, 10, -1)).unwrap_err();
    assert_eq!(err.status, 400);
    assert_eq!(err.message, "min_gap_seconds 不能为负");
}

#[test]
fn verdict_dto_kind_names() {
    let rule = daily_utc(ymd(2024, 6, 1, 0, 0, 0), ymd(2024, 6, 2, 0, 0, 0), 0);
    let vs = Engine::new(rule).unwrap().evaluate();
    assert_eq!(vs[0].kind, VerdictKind::Accepted);
    let dto = VerdictDto::from_verdict(&vs[0]);
    assert_eq!(dto.kind, "accepted");
    assert_eq!(dto.epoch, vs[0].epoch);
    assert_eq!(dto.checks, vs[0].checks);
}

fn request(rule: RuleVersion, direction: Direction, limit: usize, cursor: Option<String>, session_id: Option<String>) -> QueryRequest {
    QueryRequest { rule, direction, limit, cursor, session_id }
}

#[test]
fn query_pages_and_records_the_session() {
    let rule = daily_utc(ymd(2024, 6, 1, 0, 0, 0), ymd(2024, 6, 6, 0, 0, 0), 0);
    let fp = rule_fingerprint(&rule);
    let pending = handle_query(request(rule.clone(), Direction::Forward, 2, None, None)).unwrap();
    assert_eq!(pending.session_id, format!("sess-{}", &fp[..12]));
    assert_eq!(pending.limit, 2);
    assert!(pending.has_more);
    let (resp, session) = pending.complete(None, 99).unwrap();
    assert_eq!(resp.items.len(), 2);
    assert_eq!(resp.items[0].epoch, ymd(2024, 6, 1, 9, 0, 0));
    assert!(resp.has_more);
    assert_eq!(resp.error, None);
    assert_eq!(session.created_unix, 99);
    assert_eq!(session.rule_snapshot, rule);
    assert_eq!(session.queries.len(), 1);
    assert_eq!(session.queries[0].returned_epochs, vec![ymd(2024, 6, 1, 9, 0, 0), ymd(2024, 6, 2, 9, 0, 0)]);

    // Next page with the cursor, in the same session.
    let cursor = resp.next_cursor.clone().unwrap();
    let sid = resp.session_id.clone();
    let pending = handle_query(request(rule.clone(), Direction::Forward, 0, Some(cursor), Some(sid))).unwrap();
    assert_eq!(pending.limit, 1);
    assert_eq!(pending.anchor, Some(ymd(2024, 6, 2, 9, 0, 0)));
    let (resp2, session2) = pending.complete(Some(session), 100).unwrap();
    assert_eq!(resp2.items[0].epoch, ymd(2024, 6, 3, 9, 0, 0));
    assert_eq!(session2.queries.len(), 2);
    assert_eq!(session2.created_unix, 99);

    // The last page has nothing after it.
    let pending = handle_query(request(rule.clone(), Direction::Backward, 500, None, None)).unwrap();
    assert_eq!(pending.page.len(), 5);
    assert_eq!(pending.page[0].epoch, ymd(2024, 6, 5, 9, 0, 0));
    assert!(!pending.has_more);
}

#[test]
fn query_refuses_stale_cursor_and_session() {
    let rule = daily_utc(ymd(2024, 6, 1, 0, 0, 0), ymd(2024, 6, 6, 0, 0, 0), 0);
    let pending = handle_query(request(rule.clone(), Direction::Forward, 1, None, None)).unwrap();
    let (resp, session) = pending.complete(None, 1).unwrap();
    let mut changed = rule.clone();
    changed.version = 2;
    let err = handle_query(request(changed.clone(), Direction::Forward, 1, resp.next_cursor.clone(), None)).unwrap_err();
    assert_eq!(err.status, 409);
    assert_eq!(err.message, CursorError::FingerprintMismatch.message());
    let pending = handle_query(request(changed, Direction::Forward, 1, None, Some(session.session_id.clone()))).unwrap();
    let err = pending.complete(Some(session), 2).unwrap_err();
    assert_eq!(err.status, 409);
    assert_eq!(err.message, "会话绑定的规则版本与当前规则不一致，旧会话/游标被拒绝；请以新规则开始查询");
    let bad = daily_utc(5, 1, 0);
    assert_eq!(handle_query(request(bad, Direction::Forward, 1, None, None)).unwrap_err().status, 400);
}

#[test]
fn resolve_local_endpoint_shifts_and_reports() {
    let ok = resolve_local_endpoint(ResolveRequest {
        timezone: "America/New_York".into(),
        local: "2024-03-10T02:30".into(),
        gap_policy: GapPolicy::ShiftForward,
        fold_policy: FoldPolicy::Early,
    })
    .unwrap();
    assert_eq!(ok.len(), 1);
    assert_eq!(ok[0].epoch, ymd(2024, 3, 10, 7, 0, 0));
    assert_eq!(ok[0].side, "single");
    assert_eq!(ok[0].shifted_by_seconds, 1800);
    assert_eq!(ok[0].local_view, "2024-03-10 03:00:00");
    assert_eq!(ok[0].offset_name, "EDT");
    let both = resolve_local_endpoint(ResolveRequest {
        timezone: "America/New_York".into(),
        local: "2024-11-03T01:30:00".into(),
        gap_policy: GapPolicy::Skip,
        fold_policy: FoldPolicy::Both,
    })
    .unwrap();
    let sides: Vec<&str> = both.iter().map(|d| d.side).collect();
    assert_eq!(sides, vec!["early", "late"]);
    let err = resolve_local_endpoint(ResolveRequest {
        timezone: "Mars/Base".into(),
        local: "2024-11-03T01:30:00".into(),
        gap_policy: GapPolicy::Skip,
        fold_policy: FoldPolicy::Both,
    })
    .unwrap_err();
    assert_eq!(err.message, "未知时区: Mars/Base");
    let err = resolve_local_endpoint(ResolveRequest {
        timezone: "UTC".into(),
        local: "yesterday".into(),
        gap_policy: GapPolicy::Skip,
        fold_policy: FoldPolicy::Both,
    })
    .unwrap_err();
    assert_eq!(err.status, 400);
    assert!(err.message.starts_with("本地时间格式非法: "));
}

// ---------- laws on concrete values ----------
#[test]
fn accepted_instants_respect_min_gap_and_ascend() {
    let rule = daily_utc(ymd(2024, 6, 1, 0, 0, 0), ymd(2024, 6, 20, 0, 0, 0), 50 * 3600);
    let vs = Engine::new(rule).unwrap().evaluate();
    assert!(vs.windows(2).all(|w| w[0].epoch < w[1].epoch));
    let accepted: Vec<i64> = vs.iter().filter(|v| v.kind == VerdictKind::Accepted).map(|v| v.epoch).collect();
    assert!(accepted.windows(2).all(|w| w[1] - w[0] >= 50 * 3600));
    assert_eq!(accepted.len(), 7);
}

#[test]
fn pages_mirror_for_small_sizes() {
    let rule = daily_utc(ymd(2024, 6, 1, 0, 0, 0), ymd(2024, 6, 9, 0, 0, 0), 0);
    let engine = Engine::new(rule).unwrap();
    let all = engine.evaluate();
    for limit in 1..5 {
        let mut fwd = Vec::new();
        let mut anchor = None;
        loop {
            let p = engine.page(&all, Direction::Forward, anchor, limit);
            if p.is_empty() { break; }
            anchor = Some(p.last().unwrap().epoch);
            fwd.extend(p.iter().map(|v| v.epoch));
        }
        let mut back = Vec::new();
        let mut anchor = None;
        loop {
            let p = engine.page(&all, Direction::Backward, anchor, limit);
            if p.is_empty() { break; }
            anchor = Some(p.last().unwrap().epoch);
            back.extend(p.iter().map(|v| v.epoch));
        }
        back.reverse();
        assert_eq!(fwd, back);
        assert_eq!(fwd, all.iter().map(|v| v.epoch).collect::<Vec<_>>());
    }
}

#[test]
fn unnamed_query_starts_a_new_session() {
    let rule = daily_utc(ymd(2024, 6, 1, 0, 0, 0), ymd(2024, 6, 6, 0, 0, 0), 0);
    let fp = rule_fingerprint(&rule);
    let base = format!("sess-{}", &fp[..12]);
    let pending = handle_query(request(rule.clone(), Direction::Forward, 2, None, None)).unwrap();
    assert!(!pending.named_session);
    let (_, first) = pending.complete(None, 5).unwrap();
    // A second unnamed query gets a fresh id and does not join the first session.
    let pending = handle_query(request(rule.clone(), Direction::Forward, 2, None, None)).unwrap();
    let pending = pending.with_fresh_session(&vec![first.session_id.clone()]);
    assert_eq!(pending.session_id, format!("{}-1", base));
    let (resp, second) = pending.complete(Some(first.clone()), 6).unwrap();
    assert_eq!(resp.session_id, second.session_id);
    assert_eq!(second.queries.len(), 1);
    assert_eq!(second.created_unix, 6);
    assert_eq!(first.queries.len(), 1);
}

#[test]
fn fresh_ids_avoid_taken_ones() {
    assert_eq!(fresh_session_id("s", &vec![]), "s");
    assert_eq!(fresh_session_id("s", &vec!["s".to_string()]), "s-1");
    assert_eq!(fresh_session_id("s", &vec!["s".to_string(), "s-1".to_string()]), "s-2");
}

#[test]
fn backward_pages_are_recorded_ascending() {
    let rule = daily_utc(ymd(2024, 6, 1, 0, 0, 0), ymd(2024, 6, 6, 0, 0, 0), 0);
    let pending = handle_query(request(rule, Direction::Backward, 3, None, Some("b".into()))).unwrap();
    assert_eq!(pending.page[0].epoch, ymd(2024, 6, 5, 9, 0, 0));
    let (resp, session) = pending.complete(None, 1).unwrap();
    assert_eq!(resp.items[0].epoch, ymd(2024, 6, 5, 9, 0, 0));
    assert_eq!(
        session.queries[0].returned_epochs,
        vec![ymd(2024, 6, 3, 9, 0, 0), ymd(2024, 6, 4, 9, 0, 0), ymd(2024, 6, 5, 9, 0, 0)]
    );
}

#[test]
fn page_with_next_gives_the_last_instant() {
    let rule = daily_utc(ymd(2024, 6, 1, 0, 0, 0), ymd(2024, 6, 6, 0, 0, 0), 0);
    let engine = Engine::new(rule).unwrap();
    let all = engine.evaluate();
    let (page, next) = engine.page_with_next(&all, Direction::Forward, None, 2);
    assert_eq!(page.len(), 2);
    assert_eq!(next, Some(ymd(2024, 6, 2, 9, 0, 0)));
    let (page, next) = engine.page_with_next(&all, Direction::Forward, Some(ymd(2024, 6, 5, 9, 0, 0)), 2);
    assert!(page.is_empty());
    assert_eq!(next, None);
}

#[test]
fn far_windows_outside_the_interval_do_not_block_evaluation() {
    let mut rule = daily_utc(ymd(2024, 6, 1, 0, 0, 0), ymd(2024, 6, 3, 0, 0, 0), 0);
    rule.exclusions.push(ExclusionWindow { id: "far".into(), start_epoch: i64::MIN, end_epoch: i64::MIN + 5, note: String::new() });
    assert!(Engine::new(rule.clone()).unwrap().can_evaluate());
    assert_eq!(Engine::new(rule.clone()).unwrap().evaluate().len(), 2);
    rule.exclusions.push(ExclusionWindow { id: "wide".into(), start_epoch: i64::MIN, end_epoch: i64::MAX, note: String::new() });
    assert!(!Engine::new(rule).unwrap().can_evaluate());
}

#[test]
fn a_window_reaching_into_the_interval_but_holding_no_instant_is_evaluated() {
    let start = ymd(2024, 6, 1, 0, 0, 0);
    let mut rule = daily_utc(start, ymd(2024, 6, 5, 23, 59, 59), 0);
    rule.exclusions.push(ExclusionWindow { id: "early".into(), start_epoch: i64::MIN, end_epoch: start + 1, note: String::new() });
    let engine = Engine::new(rule).unwrap();
    assert!(engine.can_evaluate());
    let all = engine.evaluate();
    assert_eq!(all.len(), 5);
    assert!(all.iter().all(|v| v.kind == VerdictKind::Accepted));
}

#[test]
fn invalid_rule_far_outside_the_supported_range_is_refused_with_400() {
    let mut rule = daily_utc(ymd(2024, 6, 1, 0, 0, 0), ymd(2024, 6, 3, 0, 0, 0), 0);
    rule.start_epoch = 1_000_000_000_000_000;
    let err = evaluate_rule(rule).unwrap_err();
    assert_eq!(err.status, 400);
}
