//! Integration tests of the periodic rule arbiter; every zone lookup uses the
//! 2024a database bundled with chrono-tz, never the machine's zone.

use chrono::{TimeZone, Utc};
use periodic_arbiter::calendar::{CivilDate, LocalDateTime};
use periodic_arbiter::engine::{day_of_month_matches, Engine, VerdictKind};
use periodic_arbiter::fingerprint;
use periodic_arbiter::model::{
    Direction, ExclusionWindow, FoldPolicy, GapPolicy, HolidayRule, HolidaySets, InclusionRule,
    MonthlyRule, RuleVersion, WeeklyRule,
};
use periodic_arbiter::storage;
use periodic_arbiter::tzutil;

fn ymd(y: i32, m: u32, d: u32, h: u32, mi: u32, s: u32) -> i64 {
    Utc.with_ymd_and_hms(y, m, d, h, mi, s).unwrap().timestamp()
}

fn date(y: i32, m: u32, d: u32) -> CivilDate {
    CivilDate { year: y, month: m, day: d }
}

fn daily(hms: [u32; 3], id: &str) -> InclusionRule {
    InclusionRule::Weekly(WeeklyRule {
        id: id.into(),
        days_of_week: vec![1, 2, 3, 4, 5, 6, 7],
        hms,
    })
}

fn base_rule(gap: GapPolicy, fold: FoldPolicy) -> RuleVersion {
    RuleVersion {
        rule_id: "r".into(),
        version: 1,
        timezone: "America/New_York".into(),
        start_epoch: ymd(2024, 1, 1, 5, 0, 0),
        end_epoch: ymd(2025, 1, 1, 5, 0, 0),
        holidays: HolidaySets::new(),
        inclusions: vec![daily([9, 0, 0], "w")],
        exclusions: vec![],
        min_gap_seconds: 0,
        gap_policy: gap,
        fold_policy: fold,
    }
}

fn local_ny(y: i32, m: u32, d: u32, h: u32, mi: u32) -> LocalDateTime {
    LocalDateTime { date: date(y, m, d), hour: h, minute: mi, second: 0 }
}

// ---------- gaps ----------
#[test]
fn spring_forward_gap_skip() {
    let tz = tzutil::parse_tz("America/New_York").unwrap();
    let r = tzutil::resolve_local(&tz, local_ny(2024, 3, 10, 2, 30), GapPolicy::Skip, FoldPolicy::Early);
    assert!(r.is_empty());
}

#[test]
fn spring_forward_gap_shifts_to_next_valid_instant() {
    let tz = tzutil::parse_tz("America/New_York").unwrap();
    let r = tzutil::resolve_local(
        &tz,
        local_ny(2024, 3, 10, 2, 30),
        GapPolicy::ShiftForward,
        FoldPolicy::Early,
    );
    assert_eq!(r.len(), 1);
    assert_eq!(r[0].epoch, ymd(2024, 3, 10, 7, 0, 0));
    assert_eq!(r[0].shifted_by_seconds, 1800);
    let view = tzutil::view_instant(&tz, r[0].epoch);
    assert_eq!(view.wall, "2024-03-10 03:00:00");
    assert_eq!(view.offset_name, "EDT");
}

#[test]
fn southern_hemisphere_gap() {
    let tz = tzutil::parse_tz("Australia/Sydney").unwrap();
    let local = LocalDateTime { date: date(2024, 10, 6), hour: 2, minute: 30, second: 0 };
    assert!(tzutil::resolve_local(&tz, local, GapPolicy::Skip, FoldPolicy::Early).is_empty());
    let shifted = tzutil::resolve_local(&tz, local, GapPolicy::ShiftForward, FoldPolicy::Early);
    assert_eq!(shifted[0].shifted_by_seconds, 1800);
}

// ---------- folds ----------
#[test]
fn fall_back_fold_policies() {
    let tz = tzutil::parse_tz("America/New_York").unwrap();
    let local = local_ny(2024, 11, 3, 1, 30);
    let early = tzutil::resolve_local(&tz, local, GapPolicy::Skip, FoldPolicy::Early);
    let late = tzutil::resolve_local(&tz, local, GapPolicy::Skip, FoldPolicy::Late);
    let both = tzutil::resolve_local(&tz, local, GapPolicy::Skip, FoldPolicy::Both);
    assert_eq!(early[0].epoch, ymd(2024, 11, 3, 5, 30, 0));
    assert_eq!(late[0].epoch, ymd(2024, 11, 3, 6, 30, 0));
    assert_eq!(both.len(), 2);
    assert_eq!(both[0].epoch, early[0].epoch);
    assert_eq!(both[1].epoch, late[0].epoch);
    assert_eq!(late[0].epoch - early[0].epoch, 3600);
}

#[test]
fn fold_both_emits_two_distinct_instants() {
    let mut rule = base_rule(GapPolicy::Skip, FoldPolicy::Both);
    rule.inclusions = vec![InclusionRule::Weekly(WeeklyRule {
        id: "w".into(),
        days_of_week: vec![7],
        hms: [1, 30, 0],
    })];
    rule.start_epoch = ymd(2024, 11, 3, 0, 0, 0);
    rule.end_epoch = ymd(2024, 11, 3, 12, 0, 0);
    let epochs: Vec<i64> = Engine::new(rule).unwrap().evaluate().iter().map(|v| v.epoch).collect();
    assert!(epochs.contains(&ymd(2024, 11, 3, 5, 30, 0)));
    assert!(epochs.contains(&ymd(2024, 11, 3, 6, 30, 0)));
}

// ---------- month ends / leap days ----------
#[test]
fn month_end_negative_dom() {
    assert!(day_of_month_matches(-1, date(2024, 2, 29)));
    assert!(day_of_month_matches(-2, date(2024, 2, 28)));
    assert!(day_of_month_matches(-1, date(2023, 2, 28)));
    assert!(day_of_month_matches(31, date(2024, 1, 31)));
    assert!(!day_of_month_matches(31, date(2024, 4, 30)));
    assert!(!day_of_month_matches(29, date(2023, 2, 28)));
}

#[test]
fn leap_day_monthly_rule() {
    let rule = RuleVersion {
        rule_id: "leap".into(), version: 1, timezone: "UTC".into(),
        start_epoch: ymd(2023, 1, 1, 0, 0, 0), end_epoch: ymd(2025, 12, 31, 23, 59, 59),
        holidays: HolidaySets::new(),
        inclusions: vec![InclusionRule::Monthly(MonthlyRule {
            id: "m29".into(), days_of_month: vec![29], hms: [12, 0, 0],
        })],
        exclusions: vec![], min_gap_seconds: 0,
        gap_policy: GapPolicy::Skip, fold_policy: FoldPolicy::Early,
    };
    let vs = Engine::new(rule).unwrap().evaluate();
    assert_eq!(vs.iter().filter(|v| v.local_wall.starts_with("2024-02-29")).count(), 1);
    assert!(vs.iter().all(|v| !v.local_wall.starts_with("2023-02")));
}

// ---------- closed interval ----------
#[test]
fn closed_interval_endpoints_inclusive() {
    let rule = RuleVersion {
        rule_id: "ep".into(), version: 1, timezone: "UTC".into(),
        start_epoch: ymd(2024, 6, 1, 12, 0, 0), end_epoch: ymd(2024, 6, 2, 12, 0, 0),
        holidays: HolidaySets::new(), inclusions: vec![daily([12, 0, 0], "w")],
        exclusions: vec![], min_gap_seconds: 0,
        gap_policy: GapPolicy::Skip, fold_policy: FoldPolicy::Early,
    };
    let epochs: Vec<i64> = Engine::new(rule).unwrap().evaluate().iter().map(|v| v.epoch).collect();
    assert_eq!(epochs, vec![ymd(2024, 6, 1, 12, 0, 0), ymd(2024, 6, 2, 12, 0, 0)]);
}

// ---------- exclusion endpoints, compared as instants ----------
#[test]
fn exclusion_window_endpoints_inclusive() {
    let rule = RuleVersion {
        rule_id: "ex".into(), version: 1, timezone: "UTC".into(),
        start_epoch: ymd(2024, 6, 1, 0, 0, 0), end_epoch: ymd(2024, 6, 3, 0, 0, 0),
        holidays: HolidaySets::new(), inclusions: vec![daily([9, 0, 0], "w")],
        exclusions: vec![ExclusionWindow {
            id: "blk".into(),
            // Holds exactly the instant 6/1 09:00 (endpoints included).
            start_epoch: ymd(2024, 6, 1, 9, 0, 0),
            end_epoch: ymd(2024, 6, 1, 9, 0, 0),
            note: String::new(),
        }],
        min_gap_seconds: 0,
        gap_policy: GapPolicy::Skip, fold_policy: FoldPolicy::Early,
    };
    let vs = Engine::new(rule).unwrap().evaluate();
    let blocked = vs.iter().find(|v| v.epoch == ymd(2024, 6, 1, 9, 0, 0)).unwrap();
    assert_eq!(blocked.kind, VerdictKind::Excluded);
    let next = vs.iter().find(|v| v.epoch == ymd(2024, 6, 2, 9, 0, 0)).unwrap();
    assert_eq!(next.kind, VerdictKind::Accepted);
    assert!(blocked.checks.iter().any(|c| c.contains("按瞬间命中端点包含")));
}

// ---------- minimum gap ----------
#[test]
fn min_gap_compares_instants_not_strings() {
    // Daily 09:00 with a 25 h gap: consecutive days are 24 h apart, so every
    // other day is refused; only UTC instant differences decide this.
    let rule = RuleVersion {
        rule_id: "gap".into(), version: 1, timezone: "UTC".into(),
        start_epoch: ymd(2024, 6, 1, 0, 0, 0), end_epoch: ymd(2024, 6, 5, 0, 0, 0),
        holidays: HolidaySets::new(), inclusions: vec![daily([9, 0, 0], "w")],
        exclusions: vec![], min_gap_seconds: 25 * 3600,
        gap_policy: GapPolicy::Skip, fold_policy: FoldPolicy::Early,
    };
    let vs = Engine::new(rule).unwrap().evaluate();
    // 6/1 accept, 6/2 soon, 6/3 accept (48h >= 25h), 6/4 soon
    let kind_at = |d| {
        vs.iter()
            .find(|v| v.epoch == ymd(2024, 6, d, 9, 0, 0))
            .map(|v| v.kind)
            .unwrap()
    };
    assert_eq!(kind_at(1), VerdictKind::Accepted);
    assert_eq!(kind_at(2), VerdictKind::TooSoon);
    assert_eq!(kind_at(3), VerdictKind::Accepted);
    assert_eq!(kind_at(4), VerdictKind::TooSoon);
}

// ---------- merged sources ----------
#[test]
fn multiple_sources_same_instant_merge_once() {
    let mut holidays = HolidaySets::new();
    holidays.insert("spec".to_string(), vec!["2024-06-03".to_string()]);
    let rule = RuleVersion {
        rule_id: "merge".into(), version: 1, timezone: "UTC".into(),
        start_epoch: ymd(2024, 6, 3, 0, 0, 0), end_epoch: ymd(2024, 6, 3, 23, 59, 59),
        holidays,
        inclusions: vec![
            InclusionRule::Weekly(WeeklyRule { id: "w".into(), days_of_week: vec![1], hms: [9, 0, 0] }),
            InclusionRule::Monthly(MonthlyRule { id: "m".into(), days_of_month: vec![3], hms: [9, 0, 0] }),
            InclusionRule::Holiday(HolidayRule { id: "h".into(), holidays: vec!["spec".into()], hms: [9, 0, 0] }),
        ],
        exclusions: vec![], min_gap_seconds: 0,
        gap_policy: GapPolicy::Skip, fold_policy: FoldPolicy::Early,
    };
    let vs = Engine::new(rule).unwrap().evaluate();
    assert_eq!(vs.len(), 1, "同一瞬间只能出现一次");
    let v = &vs[0];
    assert_eq!(v.kind, VerdictKind::Accepted);
    let ids: Vec<&str> = v.sources.iter().map(|s| s.rule_id.as_str()).collect();
    assert_eq!(ids, vec!["h", "m", "w"], "解释必须保留全部三个来源");
    assert!(v.checks.iter().any(|c| c.contains("最终裁决:接受")));
}

#[test]
fn merge_during_fold_preserves_two_sides_and_sources() {
    // 11/3 01:30 falls back; two weekly rules name the same wall time.
    let rule = RuleVersion {
        rule_id: "mergefold".into(), version: 1, timezone: "America/New_York".into(),
        start_epoch: ymd(2024, 11, 3, 0, 0, 0), end_epoch: ymd(2024, 11, 3, 12, 0, 0),
        holidays: HolidaySets::new(),
        inclusions: vec![
            InclusionRule::Weekly(WeeklyRule { id: "daily".into(), days_of_week: vec![7], hms: [1, 30, 0] }),
            InclusionRule::Weekly(WeeklyRule { id: "weekend".into(), days_of_week: vec![6, 7], hms: [1, 30, 0] }),
        ],
        exclusions: vec![], min_gap_seconds: 0,
        gap_policy: GapPolicy::Skip, fold_policy: FoldPolicy::Both,
    };
    let vs = Engine::new(rule).unwrap().evaluate();
    assert_eq!(vs.len(), 2);
    for v in &vs {
        let ids: Vec<&str> = v.sources.iter().map(|s| s.rule_id.as_str()).collect();
        assert!(ids.contains(&"daily") && ids.contains(&"weekend"));
    }
}

// ---------- fingerprints ----------
#[test]
fn fingerprint_changes_with_any_field_and_stable_for_order() {
    let r1 = base_rule(GapPolicy::Skip, FoldPolicy::Early);
    let fp1 = fingerprint::rule_fingerprint(&r1);
    // Another DST policy gives another fingerprint.
    let mut r2 = r1.clone();
    r2.fold_policy = FoldPolicy::Late;
    assert_ne!(fp1, fingerprint::rule_fingerprint(&r2));
    // The same inclusions written again give the same fingerprint.
    let mut r3 = r1.clone();
    r3.inclusions = vec![daily([9, 0, 0], "z")];
    let mut r4 = r3.clone();
    r4.inclusions = vec![daily([9, 0, 0], "z")];
    assert_eq!(fingerprint::rule_fingerprint(&r3), fingerprint::rule_fingerprint(&r4));
    // The same rule twice gives the same fingerprint.
    assert_eq!(fp1, fingerprint::rule_fingerprint(&r1));
}

// ---------- cursors bound to rule and direction ----------
#[test]
fn cursor_rejects_on_rule_change_and_wrong_direction() {
    let rule = base_rule(GapPolicy::Skip, FoldPolicy::Early);
    let fp = fingerprint::rule_fingerprint(&rule);
    let tzdb = tzutil::tzdb_version();
    let cur = fingerprint::encode_cursor(&fp, tzdb, Direction::Forward, 12345);
    assert_eq!(
        fingerprint::decode_cursor(&cur, &fp, tzdb, Direction::Forward).unwrap(),
        12345
    );
    // The other direction is refused.
    assert!(matches!(
        fingerprint::decode_cursor(&cur, &fp, tzdb, Direction::Backward),
        Err(fingerprint::CursorError::DirectionMismatch)
    ));
    // A changed rule has another fingerprint.
    let mut changed = rule.clone();
    changed.version = 2;
    let fp2 = fingerprint::rule_fingerprint(&changed);
    assert!(matches!(
        fingerprint::decode_cursor(&cur, &fp2, tzdb, Direction::Forward),
        Err(fingerprint::CursorError::FingerprintMismatch)
    ));
    // A damaged cursor.
    let mut tampered = cur.clone();
    tampered.push('A');
    assert!(fingerprint::decode_cursor(&tampered, &fp, tzdb, Direction::Forward).is_err());
}

// ---------- forward and backward pages mirror each other ----------
fn demo_rule() -> RuleVersion {
    let mut holidays = HolidaySets::new();
    holidays.insert("special".to_string(), vec!["2024-11-11".to_string()]);
    RuleVersion {
        rule_id: "demo".into(), version: 1, timezone: "America/New_York".into(),
        start_epoch: ymd(2024, 3, 8, 0, 0, 0), end_epoch: ymd(2024, 11, 12, 23, 59, 59),
        holidays,
        inclusions: vec![
            InclusionRule::Monthly(MonthlyRule { id: "m10".into(), days_of_month: vec![10], hms: [2, 30, 0] }),
            InclusionRule::Weekly(WeeklyRule { id: "wday".into(), days_of_week: vec![1, 2, 3, 4, 5], hms: [9, 0, 0] }),
            InclusionRule::Weekly(WeeklyRule { id: "wend".into(), days_of_week: vec![6, 7], hms: [1, 30, 0] }),
            InclusionRule::Holiday(HolidayRule { id: "hsp".into(), holidays: vec!["special".into()], hms: [9, 0, 0] }),
        ],
        exclusions: vec![ExclusionWindow {
            id: "july4".into(),
            start_epoch: ymd(2024, 7, 4, 4, 0, 0),
            end_epoch: ymd(2024, 7, 5, 3, 59, 59),
            note: "独立日".into(),
        }],
        min_gap_seconds: 20 * 3600,
        gap_policy: GapPolicy::ShiftForward,
        fold_policy: FoldPolicy::Both,
    }
}

fn collect_pages(rule: &RuleVersion, dir: Direction, limit: usize) -> Vec<i64> {
    let engine = Engine::new(rule.clone()).unwrap();
    let all = engine.evaluate();
    let fp = fingerprint::rule_fingerprint(rule);
    let tzdb = tzutil::tzdb_version();
    let mut anchor: Option<i64> = None;
    let mut out = Vec::new();
    loop {
        let page = engine.page(&all, dir, anchor, limit);
        if page.is_empty() { break; }
        let last = page.last().unwrap().epoch;
        out.extend(page.iter().map(|v| v.epoch));
        let cur = fingerprint::encode_cursor(&fp, tzdb, dir, last);
        // Decode every cursor fully, as a real round trip would.
        anchor = Some(fingerprint::decode_cursor(&cur, &fp, tzdb, dir).unwrap());
    }
    out
}

#[test]
fn forward_backward_are_mirrors_over_closed_interval() {
    let rule = demo_rule();
    for limit in [1, 3, 7, 50, 1000] {
        let fwd = collect_pages(&rule, Direction::Forward, limit);
        let mut back = collect_pages(&rule, Direction::Backward, limit);
        back.reverse();
        assert_eq!(fwd, back, "limit={limit} 时正反向序列必须互为镜像");
    }
}

#[test]
fn demo_contains_gap_fold_exclusion_and_merge() {
    let vs = Engine::new(demo_rule()).unwrap().evaluate();
    // Gap shift: 3/10 02:30 -> 03:00 EDT = 07:00Z
    let gapped = vs.iter().find(|v| v.epoch == ymd(2024, 3, 10, 7, 0, 0));
    assert!(gapped.is_some(), "必须包含跳空平移后的瞬间");
    assert!(gapped.unwrap().sources.iter().any(|s| s.shifted_by_seconds == 1800));
    // Both sides of the fold.
    let fold_count = vs.iter().filter(|v| v.local_wall == "2024-11-03 01:30:00").count();
    assert_eq!(fold_count, 2);
    // The exclusion window blocks 7/4 09:00 local.
    assert!(vs
        .iter()
        .any(|v| v.kind == VerdictKind::Excluded && v.local_wall == "2024-07-04 09:00:00"));
    // Merged sources: 11/11 (a Monday and the holiday) 09:00 has two sources.
    let merged = vs.iter().find(|v| v.local_wall == "2024-11-11 09:00:00").unwrap();
    let ids: Vec<&str> = merged.sources.iter().map(|s| s.rule_id.as_str()).collect();
    assert!(ids.contains(&"hsp") && ids.contains(&"wday"));
}

// ---------- export, then import elsewhere: same instants and explanations ----------
#[test]
fn export_import_roundtrip_reproduces_identical_verdicts() {
    let rule = demo_rule();
    let engine_a = Engine::new(rule.clone()).unwrap();
    let verdicts_a = engine_a.evaluate();
    let fp = fingerprint::rule_fingerprint(&rule);

    // Instance A records two forward queries.
    let fwd1 = engine_a.page(&verdicts_a, Direction::Forward, None, 5);
    let cur = fingerprint::encode_cursor(&fp, tzutil::tzdb_version(), Direction::Forward, fwd1.last().unwrap().epoch);
    let anchor = fingerprint::decode_cursor(&cur, &fp, tzutil::tzdb_version(), Direction::Forward).unwrap();
    let fwd2 = engine_a.page(&verdicts_a, Direction::Forward, Some(anchor), 5);
    let session = storage::SessionRecord {
        session_id: "sess-x".into(),
        rule_id: rule.rule_id.clone(),
        rule_fingerprint: fp.clone(),
        tzdb: tzutil::tzdb_version().to_string(),
        rule_snapshot: rule.clone(),
        queries: vec![
            storage::QueryRecord {
                direction: Direction::Forward, limit: 5, cursor: None,
                returned_epochs: fwd1.iter().map(|v| v.epoch).collect(),
                next_cursor: Some(cur.clone()), anchor_epoch: None,
            },
            storage::QueryRecord {
                direction: Direction::Forward, limit: 5, cursor: Some(cur),
                returned_epochs: fwd2.iter().map(|v| v.epoch).collect(),
                next_cursor: None, anchor_epoch: Some(anchor),
            },
        ],
        created_unix: 1700000000,
    };

    let envelope = storage::export_session(session, tzutil::tzdb_version());

    // Instance B restores only from the envelope; the rule snapshot and cursors still work.
    let (imported, warning) = storage::import_envelope(envelope).unwrap();
    assert!(warning.is_none());
    let reloaded = imported;
    assert_eq!(reloaded.rule_fingerprint, fp);
    let engine_b = Engine::new(reloaded.rule_snapshot.clone()).unwrap();
    let verdicts_b = engine_b.evaluate();

    // The same UTC instants.
    let epochs_a: Vec<i64> = verdicts_a.iter().map(|v| v.epoch).collect();
    let epochs_b: Vec<i64> = verdicts_b.iter().map(|v| v.epoch).collect();
    assert_eq!(epochs_a, epochs_b);
    // The same kinds and explanations, in the same order.
    let kinds_a: Vec<_> = verdicts_a.iter().map(|v| v.kind).collect();
    let kinds_b: Vec<_> = verdicts_b.iter().map(|v| v.kind).collect();
    assert_eq!(kinds_a, kinds_b);
    for (a, b) in verdicts_a.iter().zip(verdicts_b.iter()) {
        assert_eq!(a.sources, b.sources);
        assert_eq!(a.checks, b.checks);
    }
    // The recorded cursor continues paging after import, as on instance A.
    let stored_cur = reloaded.queries[0].next_cursor.clone().unwrap();
    let anchor_b =
        fingerprint::decode_cursor(&stored_cur, &fp, tzutil::tzdb_version(), Direction::Forward)
            .unwrap();
    let page_b = engine_b.page(&verdicts_b, Direction::Forward, Some(anchor_b), 5);
    assert_eq!(
        page_b.iter().map(|v| v.epoch).collect::<Vec<_>>(),
        fwd2.iter().map(|v| v.epoch).collect::<Vec<_>>()
    );
}

#[test]
fn corrupted_import_is_rejected() {
    let rule = demo_rule();
    let session = storage::SessionRecord {
        session_id: "s".into(), rule_id: rule.rule_id.clone(),
        rule_fingerprint: fingerprint::rule_fingerprint(&rule),
        tzdb: tzutil::tzdb_version().to_string(),
        rule_snapshot: rule, queries: vec![], created_unix: 1,
    };
    let mut env = storage::export_session(session, tzutil::tzdb_version());
    env.digest = format!("{:0>64}", "0");
    assert!(storage::import_envelope(env).is_err());
}

// ---------- rule validation ----------
#[test]
fn rejects_invalid_rules() {
    let mut r = demo_rule();
    r.start_epoch = r.end_epoch + 1;
    assert!(Engine::new(r).is_err());
    let mut r = demo_rule();
    r.min_gap_seconds = -5;
    assert!(Engine::new(r).is_err());
    let mut r = demo_rule();
    r.timezone = "Not/AZone".into();
    assert!(Engine::new(r).is_err());
    let mut r = demo_rule();
    r.holidays.insert("bad".into(), vec!["2024-13-40".into()]);
    r.inclusions.push(InclusionRule::Holiday(HolidayRule {
        id: "hb".into(), holidays: vec!["bad".into()], hms: [0, 0, 0],
    }));
    assert!(Engine::new(r).is_err());
}
