//! The periodic rule arbitration engine.
//!
//! Over the rule's whole closed interval `[start_epoch, end_epoch]` it computes
//! the verdict sequence in ascending UTC instant order. A forward query takes
//! a prefix of it and a backward query a suffix, so the two directions mirror
//! each other over the same interval.

use vstd::prelude::*;
use crate::calendar::{CivilDate, LocalDateTime, date_text, hms_text, wall_text, month_length};
use crate::model::{DayOfMonth, Direction, ExclusionWindow, HolidaySets, InclusionRule, HolidayRule, MonthlyRule, RuleVersion, WeeklyRule};
use crate::text::{cat, dec_text, fmt_i64, text_eq, text_lt, text_less};
use crate::tzutil::{
    FoldSide, ResolvedInstant, Zone, epoch_representable, parse_tz, zone_known,
    zone_local_wall, zone_offset, zone_abbreviation, spec_resolve_local, zone_variant_at,
    zone_variant_name,
};

verus! {

/// `NaiveDate::parse_from_str(text, "%Y-%m-%d")` succeeds.
pub uninterp spec fn date_text_parses(text: Seq<char>) -> bool;

/// `NaiveDate::parse_from_str(text, "%Y-%m-%d").is_ok()`.
#[verifier::external_body]
fn parses_as_date(text: &str) -> (r: bool)
    ensures
        r == date_text_parses(text@),
{
    chrono::NaiveDate::parse_from_str(text, "%Y-%m-%d").is_ok()
}

/// Rule or input validation error.
#[derive(Debug, Clone, PartialEq, Eq)]
pub struct EngineError(pub String);

// ------------------------------------------------------------------ validation

/// Largest accepted span of the closed interval: 400 years of seconds.
pub const MAX_SPAN_SECONDS: i64 = 12_614_400_000;

pub open spec fn hms_valid(hms: [u32; 3]) -> bool {
    hms[0] < 24 && hms[1] < 60 && hms[2] < 60
}

/// First problem among the inclusion rules from index `i` on: a repeated id,
/// or an invalid wall time.
pub open spec fn inclusion_defect(incs: Seq<InclusionRule>, i: int) -> Option<Seq<char>>
    decreases incs.len() - i,
{
    if i < 0 || i >= incs.len() {
        None
    } else if exists|j: int| 0 <= j < i && incs[j].spec_id() == incs[i].spec_id() {
        Some("包含规则 id 重复: "@ + incs[i].spec_id())
    } else if !hms_valid(incs[i].spec_hms()) {
        Some("包含规则 "@ + incs[i].spec_id() + " 的 hms 非法"@)
    } else {
        inclusion_defect(incs, i + 1)
    }
}

/// First date text of holiday set `k` (from date `i` on) that does not parse.
pub open spec fn holiday_date_defect(name: Seq<char>, dates: Seq<Seq<char>>, i: int) -> Option<Seq<char>>
    decreases dates.len() - i,
{
    if i < 0 || i >= dates.len() {
        None
    } else if !date_text_parses(dates[i]) {
        Some("节假日集合 "@ + name + " 含非法日期 "@ + dates[i])
    } else {
        holiday_date_defect(name, dates, i + 1)
    }
}

/// First unparsable date over the holiday sets from set `k` on.
pub open spec fn holidays_defect(sets: Seq<(Seq<char>, Seq<Seq<char>>)>, k: int) -> Option<Seq<char>>
    decreases sets.len() - k,
{
    if k < 0 || k >= sets.len() {
        None
    } else {
        match holiday_date_defect(sets[k].0, sets[k].1, 0) {
            Some(m) => Some(m),
            None => holidays_defect(sets, k + 1),
        }
    }
}

/// First exclusion window (from index `i` on) whose start is after its end.
pub open spec fn exclusion_defect(exs: Seq<ExclusionWindow>, i: int) -> Option<Seq<char>>
    decreases exs.len() - i,
{
    if i < 0 || i >= exs.len() {
        None
    } else if exs[i].start_epoch > exs[i].end_epoch {
        Some("排除窗 "@ + exs[i].id@ + " 起点晚于终点"@)
    } else {
        exclusion_defect(exs, i + 1)
    }
}

pub open spec fn set_defined(sets: Seq<(Seq<char>, Seq<Seq<char>>)>, name: Seq<char>) -> bool {
    exists|k: int| 0 <= k < sets.len() && sets[k].0 == name
}

/// First holiday set name (from index `j` on) a holiday rule refers to that is not defined.
pub open spec fn undefined_set_in(
    sets: Seq<(Seq<char>, Seq<Seq<char>>)>,
    rule_id: Seq<char>,
    names: Seq<String>,
    j: int,
) -> Option<Seq<char>>
    decreases names.len() - j,
{
    if j < 0 || j >= names.len() {
        None
    } else if !set_defined(sets, names[j]@) {
        Some("节假日规则 "@ + rule_id + " 引用了未定义集合 "@ + names[j]@)
    } else {
        undefined_set_in(sets, rule_id, names, j + 1)
    }
}

/// First reference to an undefined holiday set, over the inclusion rules from index `i` on.
pub open spec fn undefined_set_defect(
    sets: Seq<(Seq<char>, Seq<Seq<char>>)>,
    incs: Seq<InclusionRule>,
    i: int,
) -> Option<Seq<char>>
    decreases incs.len() - i,
{
    if i < 0 || i >= incs.len() {
        None
    } else {
        let here = match incs[i] {
            InclusionRule::Holiday(h) => undefined_set_in(sets, h.id@, h.holidays@, 0),
            _ => None,
        };
        match here {
            Some(m) => Some(m),
            None => undefined_set_defect(sets, incs, i + 1),
        }
    }
}

proof fn lemma_undefined_in_none(sets: Seq<(Seq<char>, Seq<Seq<char>>)>, id: Seq<char>, names: Seq<String>, j: int)
    requires
        0 <= j,
    ensures
        undefined_set_in(sets, id, names, j) is None <==> forall|jj: int|
            j <= jj < names.len() ==> exists|k: int| 0 <= k < sets.len() && sets[k].0 == (#[trigger] names[jj])@,
    decreases names.len() - j,
{
    if j < names.len() {
        lemma_undefined_in_none(sets, id, names, j + 1);
        if !set_defined(sets, names[j]@) {
            assert(!(exists|k: int| 0 <= k < sets.len() && sets[k].0 == names[j]@));
        }
    }
}

proof fn lemma_undefined_defect_none(sets: Seq<(Seq<char>, Seq<Seq<char>>)>, incs: Seq<InclusionRule>, i: int)
    requires
        0 <= i,
    ensures
        undefined_set_defect(sets, incs, i) is None <==> forall|ii: int, j: int|
            i <= ii < incs.len() && (#[trigger] incs[ii]) is Holiday && 0 <= j < incs[ii]->Holiday_0.holidays@.len()
                ==> exists|k: int| 0 <= k < sets.len() && sets[k].0 == (#[trigger] incs[ii]->Holiday_0.holidays@[j])@,
    decreases incs.len() - i,
{
    if i < incs.len() {
        lemma_undefined_defect_none(sets, incs, i + 1);
        if let InclusionRule::Holiday(h) = incs[i] {
            lemma_undefined_in_none(sets, h.id@, h.holidays@, 0);
            if undefined_set_in(sets, h.id@, h.holidays@, 0) is Some {
                let jj = choose|jj: int|
                    0 <= jj < h.holidays@.len() && !(exists|k: int| 0 <= k < sets.len() && sets[k].0 == (#[trigger] h.holidays@[jj])@);
                assert(incs[i]->Holiday_0.holidays@[jj] == h.holidays@[jj]);
            }
        }
    }
}

proof fn lemma_inclusion_defect_none(incs: Seq<InclusionRule>, i: int)
    requires
        0 <= i,
    ensures
        inclusion_defect(incs, i) is None <==> forall|b: int|
            i <= b < incs.len() ==> {
                &&& forall|a: int| 0 <= a < b ==> (#[trigger] incs[a]).spec_id() != incs[b].spec_id()
                &&& (#[trigger] incs[b]).spec_hms()[0] < 24
                &&& incs[b].spec_hms()[1] < 60
                &&& incs[b].spec_hms()[2] < 60
            },
    decreases incs.len() - i,
{
    if i < incs.len() {
        lemma_inclusion_defect_none(incs, i + 1);
        if exists|j: int| 0 <= j < i && incs[j].spec_id() == incs[i].spec_id() {
            let j = choose|j: int| 0 <= j < i && incs[j].spec_id() == incs[i].spec_id();
            assert(incs[j].spec_id() == incs[i].spec_id());
        }
    }
}

proof fn lemma_dates_defect_none(name: Seq<char>, dates: Seq<Seq<char>>, i: int)
    requires
        0 <= i,
    ensures
        holiday_date_defect(name, dates, i) is None <==> forall|d: int| i <= d < dates.len() ==> date_text_parses(#[trigger] dates[d]),
    decreases dates.len() - i,
{
    if i < dates.len() {
        lemma_dates_defect_none(name, dates, i + 1);
    }
}

proof fn lemma_holidays_defect_none(sets: Seq<(Seq<char>, Seq<Seq<char>>)>, k: int)
    requires
        0 <= k,
    ensures
        holidays_defect(sets, k) is None <==> forall|kk: int, d: int|
            k <= kk < sets.len() && 0 <= d < sets[kk].1.len() ==> date_text_parses(#[trigger] sets[kk].1[d]),
    decreases sets.len() - k,
{
    if k < sets.len() {
        lemma_holidays_defect_none(sets, k + 1);
        lemma_dates_defect_none(sets[k].0, sets[k].1, 0);
    }
}

proof fn lemma_exclusion_defect_none(exs: Seq<ExclusionWindow>, i: int)
    requires
        0 <= i,
    ensures
        exclusion_defect(exs, i) is None <==> forall|j: int| i <= j < exs.len() ==> (#[trigger] exs[j]).start_epoch <= exs[j].end_epoch,
    decreases exs.len() - i,
{
    if i < exs.len() {
        lemma_exclusion_defect_none(exs, i + 1);
    }
}

/// A rule is valid exactly when: its interval is closed (start not after
/// end) and spans at most 400 years (12 614 400 000 s); its minimum gap is
/// not negative; its zone is known; its inclusion rules have distinct ids and
/// wall times within a day (hour < 24, minute < 60, second < 60); every date
/// of its holiday sets parses; no exclusion window starts after it ends; and
/// every holiday set a holiday inclusion refers to is one of its sets.
pub proof fn lemma_rule_valid_iff(rule: RuleVersion)
    ensures
        rule_defect(rule) is None <==> {
            &&& rule.start_epoch <= rule.end_epoch
            &&& rule.min_gap_seconds >= 0
            &&& rule.end_epoch - rule.start_epoch <= 12_614_400_000
            &&& zone_known(rule.timezone@)
            &&& forall|a: int, b: int|
                0 <= a < b < rule.inclusions@.len() ==> (#[trigger] rule.inclusions@[a]).spec_id()
                    != (#[trigger] rule.inclusions@[b]).spec_id()
            &&& forall|b: int|
                0 <= b < rule.inclusions@.len() ==> (#[trigger] rule.inclusions@[b]).spec_hms()[0] < 24
                    && rule.inclusions@[b].spec_hms()[1] < 60 && rule.inclusions@[b].spec_hms()[2] < 60
            &&& forall|k: int, d: int|
                0 <= k < rule.holidays@.len() && 0 <= d < rule.holidays@[k].1.len() ==> date_text_parses(
                    #[trigger] rule.holidays@[k].1[d],
                )
            &&& forall|j: int|
                0 <= j < rule.exclusions@.len() ==> (#[trigger] rule.exclusions@[j]).start_epoch
                    <= rule.exclusions@[j].end_epoch
            &&& forall|i: int, j: int|
                0 <= i < rule.inclusions@.len() && (#[trigger] rule.inclusions@[i]) is Holiday && 0 <= j
                    < rule.inclusions@[i]->Holiday_0.holidays@.len() ==> exists|k: int|
                    0 <= k < rule.holidays@.len() && rule.holidays@[k].0 == (
                    #[trigger] rule.inclusions@[i]->Holiday_0.holidays@[j])@
        },
{
    lemma_inclusion_defect_none(rule.inclusions@, 0);
    lemma_holidays_defect_none(rule.holidays@, 0);
    lemma_exclusion_defect_none(rule.exclusions@, 0);
    lemma_undefined_defect_none(rule.holidays@, rule.inclusions@, 0);
    let incs = rule.inclusions@;
    if forall|b: int|
        0 <= b < incs.len() ==> {
            &&& forall|a: int| 0 <= a < b ==> (#[trigger] incs[a]).spec_id() != incs[b].spec_id()
            &&& (#[trigger] incs[b]).spec_hms()[0] < 24
            &&& incs[b].spec_hms()[1] < 60
            &&& incs[b].spec_hms()[2] < 60
        } {
        assert forall|a: int, b: int| 0 <= a < b < incs.len() implies (#[trigger] incs[a]).spec_id() != (#[trigger] incs[b]).spec_id() by {
            assert(forall|a2: int| 0 <= a2 < b ==> (#[trigger] incs[a2]).spec_id() != incs[b].spec_id());
        }
    }
}

/// A valid rule names only holiday sets it defines: every set that one of
/// its holiday inclusions refers to is a name of the rule's holiday sets. So
/// a rule that refers to an undefined set is refused.
pub proof fn lemma_valid_rule_defines_sets(rule: RuleVersion)
    requires
        rule_defect(rule) is None,
    ensures
        forall|i: int, j: int|
            0 <= i < rule.inclusions@.len() && (#[trigger] rule.inclusions@[i]) is Holiday && 0 <= j
                < rule.inclusions@[i]->Holiday_0.holidays@.len() ==> exists|k: int|
                0 <= k < rule.holidays@.len() && rule.holidays@[k].0 == (
                #[trigger] rule.inclusions@[i]->Holiday_0.holidays@[j])@,
{
    lemma_undefined_defect_none(rule.holidays@, rule.inclusions@, 0);
}

/// The message of the first check a rule fails, in the order the checks run;
/// `None` for a valid rule.
pub open spec fn rule_defect(rule: RuleVersion) -> Option<Seq<char>> {
    if rule.start_epoch > rule.end_epoch {
        Some("start_epoch 不能晚于 end_epoch（必须是闭区间）"@)
    } else if rule.min_gap_seconds < 0 {
        Some("min_gap_seconds 不能为负"@)
    } else if rule.end_epoch - rule.start_epoch > MAX_SPAN_SECONDS {
        Some("闭区间跨度超过 400 年，请收窄时间窗"@)
    } else if !zone_known(rule.timezone@) {
        Some("未知时区: "@ + rule.timezone@)
    } else if inclusion_defect(rule.inclusions@, 0) is Some {
        inclusion_defect(rule.inclusions@, 0)
    } else if holidays_defect(rule.holidays@, 0) is Some {
        holidays_defect(rule.holidays@, 0)
    } else if exclusion_defect(rule.exclusions@, 0) is Some {
        exclusion_defect(rule.exclusions@, 0)
    } else {
        undefined_set_defect(rule.holidays@, rule.inclusions@, 0)
    }
}

fn check_inclusions(incs: &Vec<InclusionRule>) -> (r: Option<String>)
    ensures
        r matches Some(m) ==> inclusion_defect(incs@, 0) == Some(m@),
        r is None <==> inclusion_defect(incs@, 0) is None,
{
    let n = incs.len();
    let mut i: usize = 0;
    while i < n
        invariant
            n == incs@.len(),
            i <= n,
            inclusion_defect(incs@, 0) == inclusion_defect(incs@, i as int),
        decreases n - i,
    {
        let id = incs[i].id();
        let mut j: usize = 0;
        let mut dup = false;
        while j < i
            invariant
                n == incs@.len(),
                j <= i < n,
                id@ == incs@[i as int].spec_id(),
                !dup ==> forall|k: int| 0 <= k < j ==> incs@[k].spec_id() != incs@[i as int].spec_id(),
                dup ==> exists|k: int| 0 <= k < i && incs@[k].spec_id() == incs@[i as int].spec_id(),
            decreases i - j,
        {
            if !dup && text_eq(incs[j].id(), id) {
                dup = true;
            }
            j = j + 1;
        }
        if dup {
            return Some(cat("包含规则 id 重复: ", id));
        }
        let hms = incs[i].hms();
        if !(hms[0] < 24 && hms[1] < 60 && hms[2] < 60) {
            return Some(cat(cat("包含规则 ", id).as_str(), " 的 hms 非法"));
        }
        i = i + 1;
    }
    None
}

fn check_holiday_dates(sets: &HolidaySets) -> (r: Option<String>)
    ensures
        r matches Some(m) ==> holidays_defect(sets@, 0) == Some(m@),
        r is None <==> holidays_defect(sets@, 0) is None,
{
    let n = sets.len();
    let mut k: usize = 0;
    while k < n
        invariant
            n == sets@.len(),
            k <= n,
            holidays_defect(sets@, 0) == holidays_defect(sets@, k as int),
        decreases n - k,
    {
        let (name, dates) = sets.entry(k);
        let ghost dv = dates@.map_values(|s: String| s@);
        let m = dates.len();
        let mut i: usize = 0;
        while i < m
            invariant
                m == dates@.len(),
                m == dv.len(),
                k < n,
                n == sets@.len(),
                i <= m,
                name@ == sets@[k as int].0,
                dv == sets@[k as int].1,
                dv == dates@.map_values(|s: String| s@),
                holiday_date_defect(name@, dv, 0) == holiday_date_defect(name@, dv, i as int),
                holidays_defect(sets@, 0) == holidays_defect(sets@, k as int),
            decreases m - i,
        {
            assert(dates@[i as int]@ == dv[i as int]);
            if !parses_as_date(dates[i].as_str()) {
                let msg = cat(cat(cat("节假日集合 ", name.as_str()).as_str(), " 含非法日期 ").as_str(), dates[i].as_str());
                return Some(msg);
            }
            i = i + 1;
        }
        k = k + 1;
    }
    None
}

fn check_exclusions(exs: &Vec<ExclusionWindow>) -> (r: Option<String>)
    ensures
        r matches Some(m) ==> exclusion_defect(exs@, 0) == Some(m@),
        r is None <==> exclusion_defect(exs@, 0) is None,
{
    let n = exs.len();
    let mut i: usize = 0;
    while i < n
        invariant
            n == exs@.len(),
            i <= n,
            exclusion_defect(exs@, 0) == exclusion_defect(exs@, i as int),
        decreases n - i,
    {
        if exs[i].start_epoch > exs[i].end_epoch {
            return Some(cat(cat("排除窗 ", exs[i].id.as_str()).as_str(), " 起点晚于终点"));
        }
        i = i + 1;
    }
    None
}

fn set_is_defined(sets: &HolidaySets, name: &str) -> (r: bool)
    ensures
        r == set_defined(sets@, name@),
{
    sets.get(name).is_some()
}

fn check_holiday_refs(sets: &HolidaySets, incs: &Vec<InclusionRule>) -> (r: Option<String>)
    ensures
        r matches Some(m) ==> undefined_set_defect(sets@, incs@, 0) == Some(m@),
        r is None <==> undefined_set_defect(sets@, incs@, 0) is None,
{
    let n = incs.len();
    let mut i: usize = 0;
    while i < n
        invariant
            n == incs@.len(),
            i <= n,
            undefined_set_defect(sets@, incs@, 0) == undefined_set_defect(sets@, incs@, i as int),
        decreases n - i,
    {
        if let InclusionRule::Holiday(h) = &incs[i] {
            let m = h.holidays.len();
            let mut j: usize = 0;
            while j < m
                invariant
                    m == h.holidays@.len(),
                    j <= m,
                    undefined_set_in(sets@, h.id@, h.holidays@, 0) == undefined_set_in(sets@, h.id@, h.holidays@, j as int),
                    undefined_set_defect(sets@, incs@, 0) == undefined_set_defect(sets@, incs@, i as int),
                    i < n,
                    n == incs@.len(),
                    incs@[i as int] == InclusionRule::Holiday(*h),
                decreases m - j,
            {
                if !set_is_defined(sets, h.holidays[j].as_str()) {
                    let msg = cat(cat(cat("节假日规则 ", h.id.as_str()).as_str(), " 引用了未定义集合 ").as_str(), h.holidays[j].as_str());
                    return Some(msg);
                }
                j = j + 1;
            }
        }
        i = i + 1;
    }
    None
}

/// Message of the first check `rule` fails, if any.
fn validate(rule: &RuleVersion) -> (r: Option<String>)
    requires
        rule.end_epoch - rule.start_epoch <= i64::MAX,
    ensures
        r matches Some(m) ==> rule_defect(*rule) == Some(m@),
        r is None <==> rule_defect(*rule) is None,
{
    if rule.start_epoch > rule.end_epoch {
        return Some("start_epoch 不能晚于 end_epoch（必须是闭区间）".to_owned());
    }
    if rule.min_gap_seconds < 0 {
        return Some("min_gap_seconds 不能为负".to_owned());
    }
    if rule.end_epoch - rule.start_epoch > MAX_SPAN_SECONDS {
        return Some("闭区间跨度超过 400 年，请收窄时间窗".to_owned());
    }
    match parse_tz(rule.timezone.as_str()) {
        Err(m) => {
            return Some(m);
        },
        Ok(_) => {},
    }
    if let Some(m) = check_inclusions(&rule.inclusions) {
        return Some(m);
    }
    if let Some(m) = check_holiday_dates(&rule.holidays) {
        return Some(m);
    }
    if let Some(m) = check_exclusions(&rule.exclusions) {
        return Some(m);
    }
    check_holiday_refs(&rule.holidays, &rule.inclusions)
}

// ------------------------------------------------------------------ verdicts

/// One inclusion rule that produced a candidate instant.
#[derive(Debug, PartialEq, Eq)]
pub struct Provenance {
    pub rule_id: String,
    pub rule_kind: String,
    pub local_wall: String,
    pub side: &'static str,
    /// Seconds a gap shifted the wall time forward (0 when not shifted).
    pub shifted_by_seconds: i64,
}

/// A provenance as plain text values.
#[verifier::ext_equal]
pub struct ProvenanceModel {
    pub rule_id: Seq<char>,
    pub rule_kind: Seq<char>,
    pub local_wall: Seq<char>,
    pub side: Seq<char>,
    pub shifted_by_seconds: i64,
}

impl View for Provenance {
    type V = ProvenanceModel;

    open spec fn view(&self) -> ProvenanceModel {
        ProvenanceModel {
            rule_id: self.rule_id@,
            rule_kind: self.rule_kind@,
            local_wall: self.local_wall@,
            side: self.side@,
            shifted_by_seconds: self.shifted_by_seconds,
        }
    }
}

impl Clone for Provenance {
    fn clone(&self) -> (r: Self)
        ensures
            r == *self,
    {
        Provenance {
            rule_id: self.rule_id.clone(),
            rule_kind: self.rule_kind.clone(),
            local_wall: self.local_wall.clone(),
            side: self.side,
            shifted_by_seconds: self.shifted_by_seconds,
        }
    }
}

/// Kind of verdict on an instant.
#[derive(Debug, Clone, Copy, PartialEq, Eq, Structural)]
pub enum VerdictKind {
    Accepted,
    Excluded,
    TooSoon,
}

/// The verdict on one UTC instant: accepted, blocked by an exclusion window,
/// or rejected by the minimum gap; with its sources and the checks it went through.
#[derive(Debug, PartialEq, Eq)]
pub struct Verdict {
    pub epoch: i64,
    pub local_wall: String,
    pub offset_name: String,
    pub offset_seconds: i32,
    pub kind: VerdictKind,
    /// Every inclusion rule that produced the instant.
    pub sources: Vec<Provenance>,
    /// The checks passed or triggered, in order.
    pub checks: Vec<String>,
}

/// A verdict as plain values.
#[verifier::ext_equal]
pub struct VerdictModel {
    pub epoch: i64,
    pub local_wall: Seq<char>,
    pub offset_name: Seq<char>,
    pub offset_seconds: i32,
    pub kind: VerdictKind,
    pub sources: Seq<ProvenanceModel>,
    pub checks: Seq<Seq<char>>,
}

impl View for Verdict {
    type V = VerdictModel;

    open spec fn view(&self) -> VerdictModel {
        VerdictModel {
            epoch: self.epoch,
            local_wall: self.local_wall@,
            offset_name: self.offset_name@,
            offset_seconds: self.offset_seconds,
            kind: self.kind,
            sources: self.sources@.map_values(|p: Provenance| p@),
            checks: self.checks@.map_values(|c: String| c@),
        }
    }
}

impl Clone for Verdict {
    fn clone(&self) -> (r: Self)
        ensures
            r@ == self@,
    {
        let sources = self.sources.clone();
        let checks = self.checks.clone();
        proof {
            assert(sources@ =~= self.sources@);
            assert(checks@ =~= self.checks@);
            assert(sources@.map_values(|p: Provenance| p@) =~= self.sources@.map_values(|p: Provenance| p@));
            assert(checks@.map_values(|c: String| c@) =~= self.checks@.map_values(|c: String| c@));
        }
        Verdict {
            epoch: self.epoch,
            local_wall: self.local_wall.clone(),
            offset_name: self.offset_name.clone(),
            offset_seconds: self.offset_seconds,
            kind: self.kind,
            sources,
            checks,
        }
    }
}

/// The models of a sequence of verdicts.
pub open spec fn verdict_models(vs: Seq<Verdict>) -> Seq<VerdictModel> {
    vs.map_values(|v: Verdict| v@)
}

// ------------------------------------------------------------------ paging

/// Whether a verdict lies beyond the anchor in the query direction.
pub open spec fn beyond_anchor(v: Verdict, direction: Direction, anchor: Option<i64>) -> bool {
    match anchor {
        None => true,
        Some(c) => match direction {
            Direction::Forward => v.epoch > c,
            Direction::Backward => v.epoch < c,
        },
    }
}

/// At most the first `n` elements.
pub open spec fn first_n<A>(s: Seq<A>, n: int) -> Seq<A> {
    if n < s.len() { s.take(n) } else { s }
}

/// One page: forward, the first `limit` verdicts after the anchor; backward,
/// the `limit` verdicts nearest before the anchor, nearest first.
pub open spec fn spec_page(vs: Seq<Verdict>, direction: Direction, anchor: Option<i64>, limit: int) -> Seq<Verdict> {
    let f = vs.filter(|v: Verdict| beyond_anchor(v, direction, anchor));
    match direction {
        Direction::Forward => first_n(f, limit),
        Direction::Backward => first_n(f.reverse(), limit),
    }
}

proof fn lemma_filter_take_prefix(vs: Seq<Verdict>, p: spec_fn(Verdict) -> bool, i: int)
    requires
        0 <= i <= vs.len(),
    ensures
        vs.filter(p) == vs.take(i).filter(p) + vs.skip(i).filter(p),
{
    assert(vs =~= vs.take(i) + vs.skip(i));
    Seq::filter_distributes_over_add(vs.take(i), vs.skip(i), p);
}

/// Whether a verdict model lies beyond the anchor in the query direction.
pub open spec fn model_beyond(m: VerdictModel, direction: Direction, anchor: Option<i64>) -> bool {
    match anchor {
        None => true,
        Some(c) => match direction {
            Direction::Forward => m.epoch > c,
            Direction::Backward => m.epoch < c,
        },
    }
}

/// One page of verdict models, as `spec_page` takes it of verdicts.
pub open spec fn page_models(ms: Seq<VerdictModel>, direction: Direction, anchor: Option<i64>, limit: int) -> Seq<VerdictModel> {
    let f = ms.filter(|m: VerdictModel| model_beyond(m, direction, anchor));
    match direction {
        Direction::Forward => first_n(f, limit),
        Direction::Backward => first_n(f.reverse(), limit),
    }
}

proof fn lemma_models_filter(vs: Seq<Verdict>, direction: Direction, anchor: Option<i64>)
    ensures
        verdict_models(vs.filter(|v: Verdict| beyond_anchor(v, direction, anchor))) == verdict_models(vs).filter(
            |m: VerdictModel| model_beyond(m, direction, anchor),
        ),
    decreases vs.len(),
{
    let p = |v: Verdict| beyond_anchor(v, direction, anchor);
    let q = |m: VerdictModel| model_beyond(m, direction, anchor);
    reveal_with_fuel(Seq::<_>::filter, 1);
    if vs.len() > 0 {
        lemma_models_filter(vs.drop_last(), direction, anchor);
        assert(verdict_models(vs).drop_last() =~= verdict_models(vs.drop_last()));
        assert(verdict_models(vs).last() == vs.last()@);
        assert(p(vs.last()) == q(vs.last()@));
        if p(vs.last()) {
            assert(verdict_models(vs.drop_last().filter(p).push(vs.last())) =~= verdict_models(
                vs.drop_last().filter(p),
            ).push(vs.last()@));
        }
    } else {
        assert(verdict_models(vs) =~= Seq::<VerdictModel>::empty());
        assert(verdict_models(vs.filter(p)) =~= Seq::<VerdictModel>::empty());
    }
}

/// The models of a page are the page of the models.
pub proof fn lemma_page_models(vs: Seq<Verdict>, direction: Direction, anchor: Option<i64>, limit: int)
    requires
        limit >= 0,
    ensures
        verdict_models(spec_page(vs, direction, anchor, limit)) == page_models(verdict_models(vs), direction, anchor, limit),
{
    let f = vs.filter(|v: Verdict| beyond_anchor(v, direction, anchor));
    let g = verdict_models(vs).filter(|m: VerdictModel| model_beyond(m, direction, anchor));
    lemma_models_filter(vs, direction, anchor);
    assert(verdict_models(f) == g);
    assert(verdict_models(f.reverse()) =~= g.reverse());
    if limit < f.len() {
        assert(verdict_models(f.take(limit)) =~= g.take(limit));
        assert(verdict_models(f.reverse().take(limit)) =~= g.reverse().take(limit));
    }
}

// ------------------------------------------------------------------ candidates

/// Whether a day-of-month entry names `date` (negative entries count from the month's end).
pub open spec fn dom_matches(d: int, date: CivilDate) -> bool {
    if d > 0 {
        date.day == d
    } else {
        date.day == month_length(date.year as int, date.month as int) + d + 1
    }
}

/// Whether an inclusion rule fires on a local date.
pub open spec fn spec_day_matches(holidays: Seq<(Seq<char>, Seq<Seq<char>>)>, date: CivilDate, inc: InclusionRule) -> bool {
    match inc {
        InclusionRule::Monthly(m) => monthly_matches(m.days_of_month@, date),
        InclusionRule::Weekly(w) => w.days_of_week@.contains(date.iso_weekday() as u32),
        InclusionRule::Holiday(h) => holiday_matches(holidays, h.holidays@, date),
    }
}

/// A weekly inclusion fires on a date exactly when its weekdays hold the
/// date's ISO weekday: the days since 1970-01-01 (a Thursday, 4) counted in
/// the cycle Monday (1) … Sunday (7).
pub proof fn lemma_weekly_fires(holidays: Seq<(Seq<char>, Seq<Seq<char>>)>, date: CivilDate, w: WeeklyRule)
    ensures
        spec_day_matches(holidays, date, InclusionRule::Weekly(w)) <==> exists|k: int|
            0 <= k < w.days_of_week@.len() && (#[trigger] w.days_of_week@[k]) as int == (date.days() + 3) % 7 + 1,
{
    let n = date.days();
    assert((n % 7 + 3) % 7 == (n + 3) % 7) by (nonlinear_arith);
    let iso = date.iso_weekday();
    assert(1 <= iso <= 7);
    assert((iso as u32) as int == iso);
    if w.days_of_week@.contains(iso as u32) {
        let k = choose|k: int| 0 <= k < w.days_of_week@.len() && w.days_of_week@[k] == iso as u32;
        assert((w.days_of_week@[k]) as int == (n + 3) % 7 + 1);
    }
    if exists|k: int| 0 <= k < w.days_of_week@.len() && (#[trigger] w.days_of_week@[k]) as int == (n + 3) % 7 + 1 {
        let k = choose|k: int| 0 <= k < w.days_of_week@.len() && (#[trigger] w.days_of_week@[k]) as int == (n + 3) % 7 + 1;
        assert(w.days_of_week@[k] == iso as u32);
    }
}

/// A monthly inclusion fires on a date exactly when one of its entries names
/// the date: a positive entry `d` is the month's `d`-th day, a negative entry
/// `-k` the `k`-th day counted back from the month's last day (`-1` is the
/// last day, the one after which a new month begins), and zero no day.
pub proof fn lemma_monthly_fires(holidays: Seq<(Seq<char>, Seq<Seq<char>>)>, date: CivilDate, m: MonthlyRule)
    requires
        date.well_formed(),
        date.year < i32::MAX,
    ensures
        spec_day_matches(holidays, date, InclusionRule::Monthly(m)) <==> exists|k: int|
            0 <= k < m.days_of_month@.len() && {
                let d = #[trigger] m.days_of_month@[k];
                ||| d > 0 && date.day == d
                ||| d < 0 && date.day - d == month_length(date.year as int, date.month as int) + 1
            },
        date.day == month_length(date.year as int, date.month as int) <==> date.next().day == 1,
{
    let days = m.days_of_month@;
    if monthly_matches(days, date) {
        let k = choose|k: int| 0 <= k < days.len() && dom_matches(days[k] as int, date);
        assert(days[k] != 0);
        assert(0 <= k < days.len() && {
            let d = days[k];
            ||| d > 0 && date.day == d
            ||| d < 0 && date.day - d == month_length(date.year as int, date.month as int) + 1
        });
    }
    if exists|k: int| 0 <= k < days.len() && {
        let d = #[trigger] days[k];
        ||| d > 0 && date.day == d
        ||| d < 0 && date.day - d == month_length(date.year as int, date.month as int) + 1
    } {
        let k = choose|k: int| 0 <= k < days.len() && {
            let d = #[trigger] days[k];
            ||| d > 0 && date.day == d
            ||| d < 0 && date.day - d == month_length(date.year as int, date.month as int) + 1
        };
        assert(dom_matches(days[k] as int, date));
    }
}

/// A holiday inclusion fires on a date exactly when one of the sets it names
/// is a set of the rule that lists the date, written `YYYY-MM-DD`.
pub proof fn lemma_holiday_fires(holidays: Seq<(Seq<char>, Seq<Seq<char>>)>, date: CivilDate, h: HolidayRule)
    ensures
        spec_day_matches(holidays, date, InclusionRule::Holiday(h)) <==> exists|i: int, k: int|
            0 <= i < h.holidays@.len() && 0 <= k < holidays.len() && holidays[k].0 == (#[trigger] h.holidays@[i])@
                && (#[trigger] holidays[k]).1.contains(date_text(date)),
{
}

/// Some day-of-month entry names the date.
pub open spec fn monthly_matches(days: Seq<DayOfMonth>, date: CivilDate) -> bool {
    exists|i: int| 0 <= i < days.len() && dom_matches(days[i] as int, date)
}

/// Some referenced holiday set lists the date.
pub open spec fn holiday_matches(holidays: Seq<(Seq<char>, Seq<Seq<char>>)>, names: Seq<String>, date: CivilDate) -> bool {
    exists|i: int, k: int|
        0 <= i < names.len() && 0 <= k < holidays.len() && holidays[k].0 == names[i]@
            && holidays[k].1.contains(date_text(date))
}

pub open spec fn inclusion_kind(inc: InclusionRule) -> Seq<char> {
    match inc {
        InclusionRule::Monthly(_) => "monthly"@,
        InclusionRule::Weekly(_) => "weekly"@,
        InclusionRule::Holiday(_) => "holiday"@,
    }
}

pub open spec fn side_text(side: FoldSide) -> Seq<char> {
    match side {
        FoldSide::Single => "single"@,
        FoldSide::Early => "early"@,
        FoldSide::Late => "late"@,
    }
}

/// The wall time of an inclusion rule on a date.
pub open spec fn wall_on(date: CivilDate, hms: [u32; 3]) -> LocalDateTime {
    LocalDateTime { date, hour: hms[0], minute: hms[1], second: hms[2] }
}

pub open spec fn provenance_of(date: CivilDate, inc: InclusionRule, r: ResolvedInstant) -> ProvenanceModel {
    let hms = inc.spec_hms();
    ProvenanceModel {
        rule_id: inc.spec_id(),
        rule_kind: inclusion_kind(inc),
        local_wall: date_text(date) + seq![' '] + hms_text(hms[0] as int, hms[1] as int, hms[2] as int),
        side: side_text(r.side),
        shifted_by_seconds: r.shifted_by_seconds,
    }
}

/// Candidates of resolved instants that fall in the closed interval.
pub open spec fn emitted(rule: RuleVersion, date: CivilDate, inc: InclusionRule, rs: Seq<ResolvedInstant>) -> Seq<(i64, ProvenanceModel)>
    decreases rs.len(),
{
    if rs.len() == 0 {
        seq![]
    } else {
        let r = rs.last();
        let rest = emitted(rule, date, inc, rs.drop_last());
        if rule.start_epoch <= r.epoch <= rule.end_epoch {
            rest.push((r.epoch, provenance_of(date, inc, r)))
        } else {
            rest
        }
    }
}

/// Candidates of one local date over a prefix of the inclusion rules.
pub open spec fn day_candidates(rule: RuleVersion, date: CivilDate, incs: Seq<InclusionRule>) -> Seq<(i64, ProvenanceModel)>
    decreases incs.len(),
{
    if incs.len() == 0 {
        seq![]
    } else {
        let inc = incs.last();
        let rest = day_candidates(rule, date, incs.drop_last());
        if spec_day_matches(rule.holidays@, date, inc) {
            let rs = spec_resolve_local(rule.timezone@, wall_on(date, inc.spec_hms()), rule.gap_policy, rule.fold_policy);
            rest + emitted(rule, date, inc, rs)
        } else {
            rest
        }
    }
}

/// Most local dates one evaluation visits.
pub const MAX_DAYS: i64 = 150_000;

/// Candidates of the local dates from `date` up to `last`, at most `fuel` dates.
pub open spec fn candidates_from(rule: RuleVersion, date: CivilDate, last: CivilDate, fuel: int) -> Seq<(i64, ProvenanceModel)>
    decreases fuel,
{
    if fuel <= 0 || !date.le(last) {
        seq![]
    } else {
        day_candidates(rule, date, rule.inclusions@) + candidates_from(rule, date.next(), last, fuel - 1)
    }
}

/// Local date of an instant in the rule's zone.
pub open spec fn local_date(rule: RuleVersion, epoch: i64) -> CivilDate {
    zone_local_wall(rule.timezone@, epoch).date
}

/// Every candidate `(instant, source)` of the rule, in generation order.
pub open spec fn all_candidates(rule: RuleVersion) -> Seq<(i64, ProvenanceModel)> {
    candidates_from(rule, local_date(rule, rule.start_epoch), local_date(rule, rule.end_epoch), MAX_DAYS as int)
}

// ------------------------------------------------------------------ grouping

/// Inserts an instant into an ascending sequence of distinct instants.
pub open spec fn insert_epoch(s: Seq<i64>, e: i64) -> Seq<i64> {
    if s.contains(e) {
        s
    } else {
        s.filter(|x: i64| x < e).push(e) + s.filter(|x: i64| x > e)
    }
}

/// The distinct instants of the candidates, ascending.
pub open spec fn sorted_epochs(c: Seq<(i64, ProvenanceModel)>) -> Seq<i64>
    decreases c.len(),
{
    if c.len() == 0 {
        seq![]
    } else {
        insert_epoch(sorted_epochs(c.drop_last()), c.last().0)
    }
}

/// The sources of the candidates at one instant, in generation order.
pub open spec fn group_sources(c: Seq<(i64, ProvenanceModel)>, e: i64) -> Seq<ProvenanceModel> {
    c.filter(at_instant(e)).map_values(candidate_source())
}

pub open spec fn at_instant(e: i64) -> spec_fn((i64, ProvenanceModel)) -> bool {
    |x: (i64, ProvenanceModel)| x.0 == e
}

pub open spec fn candidate_source() -> spec_fn((i64, ProvenanceModel)) -> ProvenanceModel {
    |x: (i64, ProvenanceModel)| x.1
}

pub open spec fn groups_of(c: Seq<(i64, ProvenanceModel)>) -> Seq<(i64, Seq<ProvenanceModel>)> {
    sorted_epochs(c).map_values(|e: i64| (e, group_sources(c, e)))
}

// ------------------------------------------------------------------ source order

pub open spec fn side_rank(side: Seq<char>) -> int {
    if side == "early"@ {
        0
    } else if side == "single"@ {
        1
    } else if side == "late"@ {
        2
    } else {
        3
    }
}

/// Source order: by rule id, then early / single / late.
pub open spec fn source_le(a: ProvenanceModel, b: ProvenanceModel) -> bool {
    text_lt(a.rule_id, b.rule_id) || (a.rule_id == b.rule_id && side_rank(a.side) <= side_rank(b.side))
}

/// Inserts `x` after every element ordered no later than it.
pub open spec fn insert_source(sorted: Seq<ProvenanceModel>, x: ProvenanceModel) -> Seq<ProvenanceModel> {
    sorted.filter(|y: ProvenanceModel| source_le(y, x)).push(x) + sorted.filter(
        |y: ProvenanceModel| !source_le(y, x),
    )
}

/// Stable sort of sources by rule id, then side.
pub open spec fn sort_sources(s: Seq<ProvenanceModel>) -> Seq<ProvenanceModel>
    decreases s.len(),
{
    if s.len() == 0 {
        s
    } else {
        insert_source(sort_sources(s.drop_last()), s.last())
    }
}

pub open spec fn same_source(a: ProvenanceModel, b: ProvenanceModel) -> bool {
    a.rule_id == b.rule_id && a.side == b.side && a.shifted_by_seconds == b.shifted_by_seconds
}

/// Drops each source equal (same rule, side and shift) to the one kept before it.
pub open spec fn dedup_sources(s: Seq<ProvenanceModel>) -> Seq<ProvenanceModel>
    decreases s.len(),
{
    if s.len() <= 1 {
        s
    } else {
        let d = dedup_sources(s.drop_last());
        if same_source(d.last(), s.last()) {
            d
        } else {
            d.push(s.last())
        }
    }
}

pub open spec fn normalize_sources(s: Seq<ProvenanceModel>) -> Seq<ProvenanceModel> {
    dedup_sources(sort_sources(s))
}

// ------------------------------------------------------------------ checks

pub open spec fn source_line(p: ProvenanceModel) -> Seq<char> {
    "来源:包含规则 "@ + p.rule_id + "("@ + p.rule_kind + ") 的本地时间 "@ + p.local_wall
}

/// DST notes for the sources: a gap shift, or the side chosen in a fold.
pub open spec fn dst_lines(ps: Seq<ProvenanceModel>, abbreviation: Seq<char>) -> Seq<Seq<char>>
    decreases ps.len(),
{
    if ps.len() == 0 {
        seq![]
    } else {
        let p = ps.last();
        let rest = dst_lines(ps.drop_last(), abbreviation);
        if p.shifted_by_seconds > 0 {
            rest.push(
                "DST 跳空:规则 "@ + p.rule_id + " 本地时间不存在，按 shift_forward 平移 "@ + dec_text(
                    p.shifted_by_seconds as int,
                ) + " 秒到下一合法瞬间"@,
            )
        } else if p.side != "single"@ {
            rest.push(
                "DST 回拨:规则 "@ + p.rule_id + " 选择"@ + (if p.side == "early"@ { "早"@ } else { "晚"@ })
                    + "侧（偏移 "@ + abbreviation + "）"@,
            )
        } else {
            rest
        }
    }
}

/// Index of the first exclusion window (from `i` on) that contains `e`, endpoints included.
pub open spec fn first_exclusion(exs: Seq<ExclusionWindow>, e: i64, i: int) -> Option<int>
    decreases exs.len() - i,
{
    if i < 0 || i >= exs.len() {
        None
    } else if exs[i].start_epoch <= e <= exs[i].end_epoch {
        Some(i)
    } else {
        first_exclusion(exs, e, i + 1)
    }
}

pub open spec fn exclusion_line(zone: Seq<char>, ex: ExclusionWindow) -> Seq<char> {
    "排除窗 "@ + ex.id@ + " ["@ + wall_text(zone_local_wall(zone, ex.start_epoch)) + ".."@ + wall_text(
        zone_local_wall(zone, ex.end_epoch),
    ) + "](UTC epoch "@ + dec_text(ex.start_epoch as int) + ".."@ + dec_text(ex.end_epoch as int)
        + ") 按瞬间命中端点包含:拒绝"@
}

pub open spec fn exclusion_pass_line() -> Seq<char> {
    "排除窗检查:未命中任何闭区间排除窗:通过"@
}

pub open spec fn too_soon_line(delta: int, min_gap: int) -> Seq<char> {
    "最小间隔:距上一已接受瞬间 "@ + dec_text(delta) + " 秒 < "@ + dec_text(min_gap) + " 秒:拒绝"@
}

pub open spec fn gap_pass_line(delta: int, min_gap: int) -> Seq<char> {
    "最小间隔:距上一已接受瞬间 "@ + dec_text(delta) + " 秒 ≥ "@ + dec_text(min_gap) + " 秒:通过"@
}

pub open spec fn first_accept_line() -> Seq<char> {
    "最小间隔:区间内尚无已接受瞬间:通过"@
}

pub open spec fn accept_line() -> Seq<char> {
    "最终裁决:接受"@
}

/// The verdict on instant `e` with its normalized sources, given the last accepted instant.
pub open spec fn make_verdict(rule: RuleVersion, e: i64, sources: Seq<ProvenanceModel>, last_accepted: Option<i64>) -> VerdictModel {
    let zone = rule.timezone@;
    let abbreviation = zone_abbreviation(zone, e);
    let base = sources.map_values(|p: ProvenanceModel| source_line(p)) + dst_lines(sources, abbreviation);
    let (kind, checks) = match first_exclusion(rule.exclusions@, e, 0) {
        Some(k) => (VerdictKind::Excluded, base.push(exclusion_line(zone, rule.exclusions@[k]))),
        None => {
            let passed = base.push(exclusion_pass_line());
            if rule.min_gap_seconds > 0 {
                match last_accepted {
                    Some(prev) => {
                        let delta = e - prev;
                        if delta < rule.min_gap_seconds {
                            (VerdictKind::TooSoon, passed.push(too_soon_line(delta, rule.min_gap_seconds as int)))
                        } else {
                            (VerdictKind::Accepted, passed.push(gap_pass_line(delta, rule.min_gap_seconds as int)).push(accept_line()))
                        }
                    },
                    None => (VerdictKind::Accepted, passed.push(first_accept_line()).push(accept_line())),
                }
            } else {
                (VerdictKind::Accepted, passed.push(accept_line()))
            }
        },
    };
    VerdictModel {
        epoch: e,
        local_wall: wall_text(zone_local_wall(zone, e)),
        offset_name: abbreviation,
        offset_seconds: zone_offset(zone, e),
        kind,
        sources,
        checks,
    }
}

/// Verdicts of the groups in order; the minimum gap is measured from the
/// last accepted instant, starting from the interval's start.
pub open spec fn verdict_fold(rule: RuleVersion, groups: Seq<(i64, Seq<ProvenanceModel>)>, last_accepted: Option<i64>) -> Seq<VerdictModel>
    decreases groups.len(),
{
    if groups.len() == 0 {
        seq![]
    } else {
        let (e, raw) = groups[0];
        let v = make_verdict(rule, e, normalize_sources(raw), last_accepted);
        let next = if v.kind == VerdictKind::Accepted { Some(e) } else { last_accepted };
        seq![v] + verdict_fold(rule, groups.drop_first(), next)
    }
}

/// The verdict sequence of a rule over its whole closed interval.
pub open spec fn spec_evaluate(rule: RuleVersion) -> Seq<VerdictModel> {
    verdict_fold(rule, groups_of(all_candidates(rule)), None)
}

// ------------------------------------------------------------------ engine

/// Instants an evaluated interval may start or end at: five days inside the
/// range `chrono` handles, so that every local date of the interval and every
/// gap search around it stays within that range.
pub open spec fn epoch_supported(e: int) -> bool {
    crate::tzutil::MIN_EPOCH + 5 * 86400 <= e <= crate::tzutil::MAX_EPOCH - 5 * 86400
}

/// Both ends of the interval are supported instants.
pub open spec fn interval_supported(rule: RuleVersion) -> bool {
    &&& epoch_supported(rule.start_epoch as int)
    &&& epoch_supported(rule.end_epoch as int)
}

/// The exclusion window that excludes the instant `e` (the first one that
/// holds it), if any, can show its endpoints, as its check line does.
pub open spec fn shown_window_ok(exs: Seq<ExclusionWindow>, e: i64) -> bool {
    match first_exclusion(exs, e, 0) {
        Some(k) => exclusion_showable(exs[k]),
        None => true,
    }
}

/// What evaluating a rule needs from its instants: a supported interval,
/// and showable endpoints for each window that excludes one of the rule's
/// instants. Windows that exclude nothing are never read.
pub open spec fn evaluable(rule: RuleVersion) -> bool {
    &&& interval_supported(rule)
    &&& forall|i: int|
        0 <= i < all_candidates(rule).len() ==> shown_window_ok(rule.exclusions@, #[trigger] all_candidates(rule)[i].0)
}

/// Both endpoints of an exclusion window can be shown as wall clocks.
pub open spec fn exclusion_showable(ex: ExclusionWindow) -> bool {
    epoch_representable(ex.start_epoch as int) && epoch_representable(ex.end_epoch as int)
}

/// The walk over local dates stays short: from the local date of the
/// interval's start to that of its end there are fewer than 146 004 days
/// (a 400-year span plus the zone offsets), well below the guard of
/// `MAX_DAYS` dates, and the last date lies in `chrono`'s range.
pub open spec fn walk_bounded(rule: RuleVersion) -> bool {
    let first = local_date(rule, rule.start_epoch);
    let last = local_date(rule, rule.end_epoch);
    &&& first.well_formed()
    &&& last.well_formed()
    &&& last.year <= crate::calendar::MAX_YEAR
    &&& last.days() - first.days() < 146_004
}

proof fn lemma_walk_fuel(rule: RuleVersion, d: CivilDate, last: CivilDate, f1: int, f2: int)
    requires
        d.well_formed(),
        last.well_formed(),
        last.year <= crate::calendar::MAX_YEAR,
        f1 > last.days() - d.days(),
        f2 > last.days() - d.days(),
    ensures
        candidates_from(rule, d, last, f1) == candidates_from(rule, d, last, f2),
    decreases f1,
{
    crate::calendar::lemma_le_days(d, last);
    if d.le(last) {
        crate::calendar::lemma_next_day(d);
        lemma_walk_fuel(rule, d.next(), last, f1 - 1, f2 - 1);
    }
}

/// The guard on the number of dates never cuts the walk short: with the walk
/// bounded, the candidates are those of every local date from the first to
/// the last, however much more room the walk is given.
pub proof fn lemma_guard_never_cuts(rule: RuleVersion, f: int)
    requires
        walk_bounded(rule),
        f >= 146_004,
    ensures
        all_candidates(rule) == candidates_from(
            rule,
            local_date(rule, rule.start_epoch),
            local_date(rule, rule.end_epoch),
            f,
        ),
{
    lemma_walk_fuel(rule, local_date(rule, rule.start_epoch), local_date(rule, rule.end_epoch), MAX_DAYS as int, f);
}

/// Validates a rule; the error names the first check that fails.
pub fn check_rule(rule: &RuleVersion) -> (r: Result<(), EngineError>)
    requires
        rule.end_epoch - rule.start_epoch <= i64::MAX,
    ensures
        r is Ok <==> rule_defect(*rule) is None,
        r matches Err(err) ==> rule_defect(*rule) == Some(err.0@),
{
    match validate(rule) {
        Some(m) => Err(EngineError(m)),
        None => Ok(()),
    }
}

/// A validated rule together with its time zone.
#[derive(Debug)]
pub struct Engine {
    rule: RuleVersion,
    zone: Zone,
}

impl Engine {
    #[verifier::type_invariant]
    closed spec fn inv(self) -> bool {
        &&& rule_defect(self.rule) is None
        &&& self.zone@ == self.rule.timezone@
    }

    /// The rule this engine evaluates.
    pub closed spec fn spec_rule(self) -> RuleVersion {
        self.rule
    }

    /// Validates a rule and builds its engine; the error names the first check that fails.
    pub fn new(rule: RuleVersion) -> (r: Result<Engine, EngineError>)
        requires
            rule.end_epoch - rule.start_epoch <= i64::MAX,
        ensures
            r is Ok <==> rule_defect(rule) is None,
            r matches Ok(e) ==> e.spec_rule() == rule,
            r matches Err(err) ==> rule_defect(rule) == Some(err.0@),
    {
        match validate(&rule) {
            Some(m) => Err(EngineError(m)),
            None => {
                match parse_tz(rule.timezone.as_str()) {
                    Ok(zone) => Ok(Engine { rule, zone }),
                    Err(m) => Err(EngineError(m)),
                }
            },
        }
    }

    /// The rule.
    pub fn rule(&self) -> (r: &RuleVersion)
        ensures
            *r == self.spec_rule(),
            rule_defect(*r) is None,
    {
        proof {
            use_type_invariant(self);
        }
        &self.rule
    }

    /// The engine's rule back.
    pub fn into_rule(self) -> (r: RuleVersion)
        ensures
            r == self.spec_rule(),
    {
        self.rule
    }

    /// One page together with the epoch the next page's cursor starts from:
    /// the page's last instant (`None` for an empty page).
    pub fn page_with_next(&self, verdicts: &[Verdict], direction: Direction, after_epoch: Option<i64>, limit: usize) -> (r: (Vec<Verdict>, Option<i64>))
        ensures
            verdict_models(r.0@) == verdict_models(spec_page(verdicts@, direction, after_epoch, limit as int)),
            r.1 == (if r.0@.len() == 0 { None } else { Some(r.0@.last().epoch) }),
    {
        let page = self.page(verdicts, direction, after_epoch, limit);
        let n = page.len();
        let next = if n == 0 { None } else { Some(page[n - 1].epoch) };
        (page, next)
    }

    /// One page of verdicts in the query direction: forward, the first
    /// `limit` after the anchor; backward, the `limit` nearest before it,
    /// nearest first. Without an anchor the page starts at the interval's end
    /// the query starts from.
    pub fn page(&self, verdicts: &[Verdict], direction: Direction, after_epoch: Option<i64>, limit: usize) -> (r: Vec<Verdict>)
        ensures
            verdict_models(r@) == verdict_models(spec_page(verdicts@, direction, after_epoch, limit as int)),
    {
        let ghost p = |v: Verdict| beyond_anchor(v, direction, after_epoch);
        let n = verdicts.len();
        let mut out: Vec<Verdict> = Vec::new();
        match direction {
            Direction::Forward => {
                let mut i: usize = 0;
                while i < n && out.len() < limit
                    invariant
                        n == verdicts@.len(),
                        i <= n,
                        out@.len() <= limit,
                        p == (|v: Verdict| beyond_anchor(v, direction, after_epoch)),
                        direction == Direction::Forward,
                        verdict_models(out@) == verdict_models(verdicts@.take(i as int).filter(p)),
                    decreases n - i,
                {
                    let v = &verdicts[i];
                    let pass = match after_epoch {
                        Some(c) => v.epoch > c,
                        None => true,
                    };
                    proof {
                        crate::seq_facts::lemma_filter_push(verdicts@.take(i as int), p, verdicts@[i as int]);
                        assert(verdicts@.take(i + 1) =~= verdicts@.take(i as int).push(verdicts@[i as int]));
                        assert(pass == p(verdicts@[i as int]));
                    }
                    if pass {
                        let c = v.clone();
                        let ghost before = out@;
                        out.push(c);
                        proof {
                            assert(out@ =~= before.push(c));
                            assert(verdict_models(out@) =~= verdict_models(before).push(c@));
                            assert(verdict_models(verdicts@.take(i + 1).filter(p)) =~= verdict_models(verdicts@.take(i as int).filter(p)).push(verdicts@[i as int]@));
                        }
                    }
                    i = i + 1;
                }
                proof {
                    lemma_filter_take_prefix(verdicts@, p, i as int);
                    let f = verdicts@.filter(p);
                    let a = verdicts@.take(i as int).filter(p);
                    if i == n {
                        assert(verdicts@.take(i as int) =~= verdicts@);
                    } else {
                        assert(f.take(limit as int) =~= a);
                    }
                    assert(verdict_models(spec_page(verdicts@, direction, after_epoch, limit as int)) =~= verdict_models(a)) by {
                        if i == n {
                            assert(verdicts@.skip(n as int).filter(p) =~= Seq::<Verdict>::empty());
                            assert(f =~= a);
                        }
                    }
                }
            },
            Direction::Backward => {
                let mut i: usize = n;
                while i > 0 && out.len() < limit
                    invariant
                        n == verdicts@.len(),
                        i <= n,
                        out@.len() <= limit,
                        p == (|v: Verdict| beyond_anchor(v, direction, after_epoch)),
                        direction == Direction::Backward,
                        verdict_models(out@) == verdict_models(verdicts@.skip(i as int).filter(p).reverse()),
                    decreases i,
                {
                    let v = &verdicts[i - 1];
                    let pass = match after_epoch {
                        Some(c) => v.epoch < c,
                        None => true,
                    };
                    proof {
                        let t = verdicts@.skip(i as int);
                        let x = verdicts@[i - 1];
                        assert(verdicts@.skip(i - 1) =~= seq![x] + t);
                        Seq::filter_distributes_over_add(seq![x], t, p);
                        reveal_with_fuel(Seq::<_>::filter, 2);
                        assert(seq![x].drop_last() =~= Seq::<Verdict>::empty());
                    }
                    proof {
                        assert(pass == p(verdicts@[i - 1]));
                    }
                    if pass {
                        let c = v.clone();
                        let ghost before = out@;
                        out.push(c);
                        proof {
                            assert(out@ =~= before.push(c));
                            assert(verdict_models(out@) =~= verdict_models(before).push(c@));
                            let t = verdicts@.skip(i as int);
                            let x = verdicts@[i - 1];
                            assert(seq![x].filter(p) =~= seq![x]);
                            assert((seq![x] + t.filter(p)).reverse() =~= t.filter(p).reverse().push(x));
                            assert(verdict_models(t.filter(p).reverse().push(x)) =~= verdict_models(t.filter(p).reverse()).push(x@));
                            assert(verdict_models(out@) =~= verdict_models(verdicts@.skip(i - 1).filter(p).reverse()));
                        }
                    } else {
                        proof {
                            let t = verdicts@.skip(i as int);
                            let x = verdicts@[i - 1];
                            assert(seq![x].filter(p) =~= Seq::<Verdict>::empty());
                            assert(seq![x].filter(p) + t.filter(p) =~= t.filter(p));
                        }
                    }
                    i = i - 1;
                }
                proof {
                    lemma_filter_take_prefix(verdicts@, p, i as int);
                    let f = verdicts@.filter(p);
                    let b = verdicts@.skip(i as int).filter(p);
                    let a = verdicts@.take(i as int).filter(p);
                    assert(f.reverse() =~= b.reverse() + a.reverse());
                    if i == 0 {
                        assert(verdicts@.take(0) =~= Seq::<Verdict>::empty());
                        assert(a =~= Seq::<Verdict>::empty());
                        assert(f.reverse() =~= b.reverse());
                    } else {
                        assert(f.reverse().take(limit as int) =~= b.reverse());
                    }
                }
            },
        }
        out
    }
}

// ------------------------------------------------------------------ grouping proofs

pub open spec fn strictly_increasing(s: Seq<i64>) -> bool {
    forall|i: int, j: int| 0 <= i < j < s.len() ==> s[i] < s[j]
}

/// Where `e` would go in an ascending sequence that does not hold it.
proof fn lemma_split_point(s: Seq<i64>, e: i64) -> (p: int)
    requires
        strictly_increasing(s),
        !s.contains(e),
    ensures
        0 <= p <= s.len(),
        forall|k: int| 0 <= k < p ==> s[k] < e,
        forall|k: int| p <= k < s.len() ==> s[k] > e,
        s.filter(|x: i64| x < e) == s.take(p),
        s.filter(|x: i64| x > e) == s.skip(p),
        insert_epoch(s, e) == s.take(p).push(e) + s.skip(p),
    decreases s.len(),
{
    let lt = |x: i64| x < e;
    let gt = |x: i64| x > e;
    let p: int = if s.len() == 0 || s[0] > e {
        0
    } else {
        let t = s.drop_first();
        assert(strictly_increasing(t));
        assert(!t.contains(e)) by {
            if t.contains(e) {
                let k = choose|k: int| 0 <= k < t.len() && t[k] == e;
                assert(s[k + 1] == e);
            }
        }
        let q = lemma_split_point(t, e);
        assert(s[0] != e) by {
            assert(s.contains(s[0]));
        }
        q + 1
    };
    assert forall|k: int| 0 <= k < p implies s[k] < e by {
        if k > 0 {
            assert(s.drop_first()[k - 1] == s[k]);
        }
    }
    assert forall|k: int| p <= k < s.len() implies s[k] > e by {
        if p == 0 {
            if k > 0 {
                assert(s[0] < s[k]);
            }
            if s.len() > 0 {
                assert(s[0] != e) by {
                    assert(s.contains(s[0]));
                }
            }
        } else {
            assert(s.drop_first()[k - 1] == s[k]);
        }
    }
    assert forall|k: int| 0 <= k < p implies lt(#[trigger] s[k]) by {}
    assert forall|k: int| p <= k < s.len() implies !lt(#[trigger] s[k]) by {}
    crate::seq_facts::lemma_filter_prefix(s, lt, p);
    assert forall|k: int| 0 <= k < p implies !gt(#[trigger] s[k]) by {}
    assert forall|k: int| p <= k < s.len() implies gt(#[trigger] s[k]) by {}
    crate::seq_facts::lemma_filter_suffix(s, gt, p);
    p
}

/// The distinct instants are ascending and are exactly the candidates' instants.
pub proof fn lemma_sorted_epochs(c: Seq<(i64, ProvenanceModel)>)
    ensures
        strictly_increasing(sorted_epochs(c)),
        forall|e: i64| sorted_epochs(c).contains(e) <==> exists|i: int| 0 <= i < c.len() && c[i].0 == e,
    decreases c.len(),
{
    if c.len() > 0 {
        let t = c.drop_last();
        lemma_sorted_epochs(t);
        let s = sorted_epochs(t);
        let e = c.last().0;
        if !s.contains(e) {
            let p = lemma_split_point(s, e);
            let s2 = s.take(p).push(e) + s.skip(p);
            assert forall|i: int, j: int| 0 <= i < j < s2.len() implies s2[i] < s2[j] by {
                if j < p {
                } else if j == p {
                } else if i < p {
                    assert(s2[j] == s[j - 1]);
                } else if i == p {
                    assert(s2[j] == s[j - 1]);
                } else {
                    assert(s2[j] == s[j - 1]);
                    assert(s2[i] == s[i - 1]);
                }
            }
            assert forall|x: i64| s2.contains(x) <==> (s.contains(x) || x == e) by {
                if s2.contains(x) {
                    let k = choose|k: int| 0 <= k < s2.len() && s2[k] == x;
                    if k < p {
                        assert(s[k] == x);
                    } else if k > p {
                        assert(s[k - 1] == x);
                    }
                }
                if s.contains(x) {
                    let k = choose|k: int| 0 <= k < s.len() && s[k] == x;
                    if k < p {
                        assert(s2[k] == x);
                    } else {
                        assert(s2[k + 1] == x);
                    }
                }
                if x == e {
                    assert(s2[p] == x);
                }
            }
        }
        assert forall|x: i64| sorted_epochs(c).contains(x) <==> exists|i: int| 0 <= i < c.len() && c[i].0 == x by {
            if exists|i: int| 0 <= i < c.len() && c[i].0 == x {
                let i = choose|i: int| 0 <= i < c.len() && c[i].0 == x;
                if i < c.len() - 1 {
                    assert(t[i].0 == x);
                }
            }
            if exists|i: int| 0 <= i < t.len() && t[i].0 == x {
                let i = choose|i: int| 0 <= i < t.len() && t[i].0 == x;
                assert(c[i].0 == x);
            }
        }
    }
}

/// Adding a candidate extends only its own instant's sources.
pub proof fn lemma_group_sources_push(c: Seq<(i64, ProvenanceModel)>, x: (i64, ProvenanceModel), e: i64)
    ensures
        group_sources(c.push(x), e) == (if x.0 == e { group_sources(c, e).push(x.1) } else { group_sources(c, e) }),
{
    let p = at_instant(e);
    crate::seq_facts::lemma_filter_push(c, p, x);
    let f = candidate_source();
    if x.0 == e {
        assert(c.filter(p).push(x).map_values(f) =~= c.filter(p).map_values(f).push(x.1));
    }
}

/// No candidate at an instant that is not among the candidates' instants.
pub proof fn lemma_group_sources_absent(c: Seq<(i64, ProvenanceModel)>, e: i64)
    requires
        forall|i: int| 0 <= i < c.len() ==> c[i].0 != e,
    ensures
        group_sources(c, e) == Seq::<ProvenanceModel>::empty(),
{
    let p = at_instant(e);
    crate::seq_facts::lemma_filter_none(c, p);
    assert(c.filter(p).map_values(candidate_source()) =~= Seq::<ProvenanceModel>::empty());
}

pub open spec fn groups_view(g: Seq<(i64, Vec<Provenance>)>) -> Seq<(i64, Seq<ProvenanceModel>)> {
    g.map_values(|x: (i64, Vec<Provenance>)| (x.0, x.1@.map_values(|p: Provenance| p@)))
}

/// Adds candidate `(e, prov)` to the groups of `acc`, keeping instants ascending.
fn add_candidate(groups: &mut Vec<(i64, Vec<Provenance>)>, e: i64, prov: Provenance, Ghost(acc): Ghost<Seq<(i64, ProvenanceModel)>>)
    requires
        groups_view(old(groups)@) == groups_of(acc),
    ensures
        groups_view(final(groups)@) == groups_of(acc.push((e, prov@))),
{
    let ghost x = (e, prov@);
    let ghost s = sorted_epochs(acc);
    let ghost gv = groups_view(groups@);
    proof {
        lemma_sorted_epochs(acc);
        lemma_sorted_epochs(acc.push(x));
        assert(acc.push(x).drop_last() =~= acc);
        assert forall|j: int| 0 <= j < gv.len() implies #[trigger] gv[j].0 == s[j] by {}
    }
    let mut k = groups.len();
    while k > 0 && groups[k - 1].0 > e
        invariant
            k <= groups@.len(),
            gv == groups_view(groups@),
            gv == groups_of(acc),
            s == sorted_epochs(acc),
            strictly_increasing(s),
            forall|j: int| k <= j < s.len() ==> s[j] > e,
        decreases k,
    {
        assert(gv[k - 1].0 == groups@[k - 1].0);
        k = k - 1;
    }
    proof {
        if k > 0 {
            assert(gv[k - 1].0 == groups@[k - 1].0);
        }
    }
    if k > 0 && groups[k - 1].0 == e {
        let mut entry = groups.remove(k - 1);
        let ghost before_sources = entry.1@;
        entry.1.push(prov);
        groups.insert(k - 1, entry);
        proof {
            let new_acc = acc.push(x);
            assert(s.contains(e)) by {
                assert(s[k - 1] == e);
            }
            assert(sorted_epochs(new_acc) == s);
            let want = groups_of(new_acc);
            let got = groups_view(groups@);
            assert(got.len() == want.len());
            assert forall|j: int| 0 <= j < got.len() implies got[j] == want[j] by {
                lemma_group_sources_push(acc, x, s[j]);
                assert(want[j] == (s[j], group_sources(new_acc, s[j])));
                assert(gv[j] == (s[j], group_sources(acc, s[j])));
                if j == k - 1 {
                    assert(groups@[j].1@ == before_sources.push(prov));
                    assert(before_sources == old(groups)@[j].1@);
                    assert(got[j].1 =~= gv[j].1.push(prov@));
                } else {
                    assert(groups@[j] == old(groups)@[j]);
                    assert(s[j] != e) by {
                        if j < k - 1 {
                            assert(s[j] < s[k - 1]);
                        } else {
                            assert(s[k - 1] < s[j]);
                        }
                    }
                }
            }
            assert(got =~= want);
        }
    } else {
        let mut v: Vec<Provenance> = Vec::new();
        v.push(prov);
        groups.insert(k, (e, v));
        proof {
            let new_acc = acc.push(x);
            assert(!s.contains(e)) by {
                if s.contains(e) {
                    let j = choose|j: int| 0 <= j < s.len() && s[j] == e;
                    if j < k - 1 {
                        assert(s[j] < s[k - 1]);
                    }
                }
            }
            let p = lemma_split_point(s, e);
            assert(p == k) by {
                if p < k {
                    assert(s[k - 1] > e);
                }
                if p > k {
                    assert(s[k as int] < e);
                }
            }
            assert(sorted_epochs(new_acc) == s.take(p).push(e) + s.skip(p));
            assert forall|i: int| 0 <= i < acc.len() implies acc[i].0 != e by {
                if acc[i].0 == e {
                    assert(s.contains(e));
                }
            }
            lemma_group_sources_absent(acc, e);
            let want = groups_of(new_acc);
            let got = groups_view(groups@);
            assert(got.len() == want.len());
            assert forall|j: int| 0 <= j < got.len() implies got[j] == want[j] by {
                if j < k {
                    assert(want[j] == (s[j], group_sources(new_acc, s[j])));
                    assert(gv[j] == (s[j], group_sources(acc, s[j])));
                    lemma_group_sources_push(acc, x, s[j]);
                    assert(groups@[j] == old(groups)@[j]);
                } else if j == k {
                    lemma_group_sources_push(acc, x, e);
                    assert(want[j] == (e, group_sources(new_acc, e)));
                    assert(got[j].1 =~= seq![prov@]);
                    assert(Seq::<ProvenanceModel>::empty().push(prov@) =~= seq![prov@]);
                } else {
                    lemma_group_sources_push(acc, x, s[j - 1]);
                    assert(want[j] == (s[j - 1], group_sources(new_acc, s[j - 1])));
                    assert(gv[j - 1] == (s[j - 1], group_sources(acc, s[j - 1])));
                    assert(groups@[j] == old(groups)@[j - 1]);
                }
            }
            assert(got =~= want);
        }
    }
}

// ------------------------------------------------------------------ source order proofs

pub open spec fn prov_models(s: Seq<Provenance>) -> Seq<ProvenanceModel> {
    s.map_values(|p: Provenance| p@)
}

pub open spec fn sources_sorted(s: Seq<ProvenanceModel>) -> bool {
    forall|i: int, j: int| 0 <= i < j < s.len() ==> source_le(#[trigger] s[i], #[trigger] s[j])
}

/// `source_le` is a total preorder.
pub proof fn lemma_source_le_facts()
    ensures
        forall|a: ProvenanceModel, b: ProvenanceModel| #[trigger] source_le(a, b) || source_le(b, a),
        forall|a: ProvenanceModel, b: ProvenanceModel, c: ProvenanceModel|
            #![trigger source_le(a, b), source_le(b, c)]
            source_le(a, b) && source_le(b, c) ==> source_le(a, c),
{
    crate::text::lemma_text_lt_facts();
}

/// Inserting into a sorted sequence: `x` goes after every element ordered no later than it.
proof fn lemma_insert_source(s: Seq<ProvenanceModel>, x: ProvenanceModel, k: int)
    requires
        sources_sorted(s),
        0 <= k <= s.len(),
        k > 0 ==> source_le(s[k - 1], x),
        forall|j: int| k <= j < s.len() ==> !source_le(#[trigger] s[j], x),
    ensures
        insert_source(s, x) == s.take(k).push(x) + s.skip(k),
        sources_sorted(insert_source(s, x)),
{
    lemma_source_le_facts();
    let le = |y: ProvenanceModel| source_le(y, x);
    let nle = |y: ProvenanceModel| !source_le(y, x);
    assert forall|j: int| 0 <= j < k implies le(#[trigger] s[j]) by {
        if j < k - 1 {
            assert(source_le(s[j], s[k - 1]));
        }
    }
    assert forall|j: int| k <= j < s.len() implies !le(#[trigger] s[j]) by {}
    crate::seq_facts::lemma_filter_prefix(s, le, k);
    assert forall|j: int| 0 <= j < k implies !nle(#[trigger] s[j]) by {
        assert(le(s[j]));
    }
    assert forall|j: int| k <= j < s.len() implies nle(#[trigger] s[j]) by {}
    crate::seq_facts::lemma_filter_suffix(s, nle, k);
    let r = s.take(k).push(x) + s.skip(k);
    assert forall|a: int, b: int| 0 <= a < b < r.len() implies source_le(#[trigger] r[a], #[trigger] r[b]) by {
        if b < k {
        } else if b == k {
            assert(le(s[a]));
        } else if a < k {
            assert(r[b] == s[b - 1]);
        } else if a == k {
            assert(r[b] == s[b - 1]);
            assert(!source_le(s[b - 1], x));
        } else {
            assert(r[a] == s[a - 1]);
            assert(r[b] == s[b - 1]);
        }
    }
}

pub proof fn lemma_sort_sources_sorted(s: Seq<ProvenanceModel>)
    ensures
        sources_sorted(sort_sources(s)),
        sort_sources(s).len() == s.len(),
    decreases s.len(),
{
    if s.len() > 0 {
        lemma_sort_sources_sorted(s.drop_last());
        let t = sort_sources(s.drop_last());
        let x = s.last();
        // the insertion point exists: after the last element ordered no later than x
        let k = insertion_point(t, x);
        lemma_insert_source(t, x, k);
    }
}

/// Number of leading elements of a sorted sequence ordered no later than `x`.
proof fn insertion_point(t: Seq<ProvenanceModel>, x: ProvenanceModel) -> (k: int)
    requires
        sources_sorted(t),
    ensures
        0 <= k <= t.len(),
        k > 0 ==> source_le(t[k - 1], x),
        forall|j: int| k <= j < t.len() ==> !source_le(#[trigger] t[j], x),
    decreases t.len(),
{
    if t.len() == 0 {
        0
    } else if source_le(t.last(), x) {
        t.len() as int
    } else {
        let u = t.drop_last();
        assert(sources_sorted(u)) by {
            assert forall|a: int, b: int| 0 <= a < b < u.len() implies source_le(#[trigger] u[a], #[trigger] u[b]) by {
                assert(u[a] == t[a] && u[b] == t[b]);
            }
        }
        let k = insertion_point(u, x);
        assert forall|j: int| k <= j < t.len() implies !source_le(#[trigger] t[j], x) by {
            if j < t.len() - 1 {
                assert(u[j] == t[j]);
            }
        }
        if k > 0 {
            assert(u[k - 1] == t[k - 1]);
        }
        k
    }
}

fn side_rank_of(side: &str) -> (r: u8)
    ensures
        r == side_rank(side@),
{
    if text_eq(side, "early") {
        0
    } else if text_eq(side, "single") {
        1
    } else if text_eq(side, "late") {
        2
    } else {
        3
    }
}

fn source_before(a: &Provenance, b: &Provenance) -> (r: bool)
    ensures
        r == source_le(a@, b@),
{
    text_less(a.rule_id.as_str(), b.rule_id.as_str()) || (text_eq(a.rule_id.as_str(), b.rule_id.as_str())
        && side_rank_of(a.side) <= side_rank_of(b.side))
}

/// Stable sort of sources by rule id, then side (insertion sort).
fn sort_provenances(raw: &Vec<Provenance>) -> (r: Vec<Provenance>)
    ensures
        prov_models(r@) == sort_sources(prov_models(raw@)),
{
    let ghost m = prov_models(raw@);
    let mut sorted: Vec<Provenance> = Vec::new();
    let n = raw.len();
    let mut i: usize = 0;
    proof {
        assert(m.take(0) =~= Seq::<ProvenanceModel>::empty());
    }
    while i < n
        invariant
            n == raw@.len(),
            m == prov_models(raw@),
            i <= n,
            prov_models(sorted@) == sort_sources(m.take(i as int)),
            sources_sorted(prov_models(sorted@)),
        decreases n - i,
    {
        let x = raw[i].clone();
        let ghost sv = prov_models(sorted@);
        let mut k = sorted.len();
        while k > 0 && !source_before(&sorted[k - 1], &x)
            invariant
                k <= sorted@.len(),
                sv == prov_models(sorted@),
                forall|j: int| k <= j < sv.len() ==> !source_le(#[trigger] sv[j], x@),
            decreases k,
        {
            k = k - 1;
        }
        proof {
            lemma_insert_source(sv, x@, k as int);
            assert(m.take(i + 1).drop_last() =~= m.take(i as int));
            assert(m.take(i + 1).last() == x@);
        }
        sorted.insert(k, x);
        proof {
            assert(prov_models(sorted@) =~= sv.take(k as int).push(x@) + sv.skip(k as int));
        }
        i = i + 1;
    }
    proof {
        assert(m.take(n as int) =~= m);
    }
    sorted
}

proof fn lemma_dedup_nonempty(s: Seq<ProvenanceModel>)
    requires
        s.len() > 0,
    ensures
        dedup_sources(s).len() > 0,
    decreases s.len(),
{
    if s.len() > 1 {
        lemma_dedup_nonempty(s.drop_last());
    }
}

fn same_provenance(a: &Provenance, b: &Provenance) -> (r: bool)
    ensures
        r == same_source(a@, b@),
{
    text_eq(a.rule_id.as_str(), b.rule_id.as_str()) && text_eq(a.side, b.side) && a.shifted_by_seconds
        == b.shifted_by_seconds
}

/// Drops each source equal to the one kept before it.
fn dedup_provenances(s: &Vec<Provenance>) -> (r: Vec<Provenance>)
    ensures
        prov_models(r@) == dedup_sources(prov_models(s@)),
{
    let ghost m = prov_models(s@);
    let mut out: Vec<Provenance> = Vec::new();
    let n = s.len();
    let mut i: usize = 0;
    proof {
        assert(m.take(0) =~= Seq::<ProvenanceModel>::empty());
    }
    while i < n
        invariant
            n == s@.len(),
            m == prov_models(s@),
            i <= n,
            prov_models(out@) == dedup_sources(m.take(i as int)),
        decreases n - i,
    {
        let x = s[i].clone();
        let ghost before = out@;
        proof {
            assert(m.take(i + 1).drop_last() =~= m.take(i as int));
            assert(m.take(i + 1).last() == x@);
            if i > 0 {
                lemma_dedup_nonempty(m.take(i as int));
            }
        }
        let keep = if out.len() == 0 {
            true
        } else {
            let last = out.len() - 1;
            !same_provenance(&out[last], &x)
        };
        if keep {
            out.push(x);
            proof {
                if i == 0 {
                    assert(m.take(1) =~= seq![x@]);
                }
                assert(prov_models(out@) =~= prov_models(before).push(x@));
            }
        }
        i = i + 1;
    }
    proof {
        assert(m.take(n as int) =~= m);
    }
    out
}

// ------------------------------------------------------------------ day matching

/// Whether day-of-month entry `d` names `date`; negative entries count from
/// the month's end (-1 is the last day).
pub fn day_of_month_matches(d: DayOfMonth, date: CivilDate) -> (r: bool)
    requires
        date.well_formed(),
    ensures
        r == dom_matches(d as int, date),
{
    let n = date.day as i32;
    if d > 0 {
        n == d
    } else {
        let len = crate::calendar::days_in_month(date) as i32;
        n == len + d + 1
    }
}

/// `HH:MM:SS` of a valid wall time.
fn fmt_hms(hms: [u32; 3]) -> (r: String)
    requires
        hms_valid(hms),
    ensures
        r@ == hms_text(hms[0] as int, hms[1] as int, hms[2] as int),
{
    let mut r = crate::text::fmt_two(hms[0]);
    r.append(":");
    r.append(crate::text::fmt_two(hms[1]).as_str());
    r.append(":");
    r.append(crate::text::fmt_two(hms[2]).as_str());
    proof {
        reveal_strlit(":");
        assert(r@ =~= hms_text(hms[0] as int, hms[1] as int, hms[2] as int));
    }
    r
}

fn contains_text(v: &Vec<String>, key: &str) -> (r: bool)
    ensures
        r == v@.map_values(|s: String| s@).contains(key@),
{
    let ghost m = v@.map_values(|s: String| s@);
    let n = v.len();
    let mut i: usize = 0;
    while i < n
        invariant
            n == v@.len(),
            m == v@.map_values(|s: String| s@),
            i <= n,
            forall|k: int| 0 <= k < i ==> m[k] != key@,
        decreases n - i,
    {
        if text_eq(v[i].as_str(), key) {
            assert(m[i as int] == key@);
            return true;
        }
        i = i + 1;
    }
    false
}

/// Whether the holiday set called `name` lists `key`.
fn set_lists(sets: &HolidaySets, name: &str, key: &str) -> (r: bool)
    ensures
        r == exists|k: int| 0 <= k < sets@.len() && sets@[k].0 == name@ && sets@[k].1.contains(key@),
{
    let _ = sets.len();
    proof {
        crate::text::lemma_text_lt_facts();
    }
    match sets.get(name) {
        None => false,
        Some(v) => {
            let b = contains_text(v, key);
            proof {
                let k0 = choose|k: int| 0 <= k < sets@.len() && sets@[k].0 == name@ && v@.map_values(|s: String| s@) == sets@[k].1;
                if !b {
                    assert forall|k: int| 0 <= k < sets@.len() && sets@[k].0 == name@ implies !sets@[k].1.contains(key@) by {
                        if k != k0 {
                            if k < k0 {
                                assert(crate::text::text_lt(sets@[k].0, sets@[k0].0));
                            } else {
                                assert(crate::text::text_lt(sets@[k0].0, sets@[k].0));
                            }
                        }
                    }
                }
            }
            b
        },
    }
}

impl Engine {
    /// Whether an inclusion rule fires on a local date.
    fn day_matches(&self, date: CivilDate, inc: &InclusionRule) -> (r: bool)
        requires
            date.valid(),
        ensures
            r == spec_day_matches(self.spec_rule().holidays@, date, *inc),
    {
        match inc {
            InclusionRule::Monthly(m) => {
                let n = m.days_of_month.len();
                let mut i: usize = 0;
                while i < n
                    invariant
                        n == m.days_of_month@.len(),
                        i <= n,
                        date.valid(),
                        *inc == InclusionRule::Monthly(*m),
                        forall|k: int| 0 <= k < i ==> !dom_matches(m.days_of_month@[k] as int, date),
                    decreases n - i,
                {
                    if day_of_month_matches(m.days_of_month[i], date) {
                        assert(dom_matches(m.days_of_month@[i as int] as int, date));
                        assert(monthly_matches(m.days_of_month@, date));
                        return true;
                    }
                    i = i + 1;
                }
                false
            },
            InclusionRule::Weekly(w) => {
                let iso = crate::calendar::iso_weekday(date);
                let n = w.days_of_week.len();
                let mut i: usize = 0;
                while i < n
                    invariant
                        n == w.days_of_week@.len(),
                        i <= n,
                        iso == date.iso_weekday(),
                        *inc == InclusionRule::Weekly(*w),
                        forall|k: int| 0 <= k < i ==> w.days_of_week@[k] != iso,
                    decreases n - i,
                {
                    if w.days_of_week[i] == iso {
                        assert(w.days_of_week@[i as int] == iso);
                        assert(w.days_of_week@.contains(iso));
                        assert(date.iso_weekday() as u32 == iso);
                        return true;
                    }
                    i = i + 1;
                }
                false
            },
            InclusionRule::Holiday(h) => {
                let key = crate::calendar::format_date(date);
                let sets = &self.rule.holidays;
                let n = h.holidays.len();
                let mut i: usize = 0;
                while i < n
                    invariant
                        n == h.holidays@.len(),
                        i <= n,
                        key@ == date_text(date),
                        *inc == InclusionRule::Holiday(*h),
                        *sets == self.spec_rule().holidays,
                        forall|a: int, k: int| 0 <= a < i && 0 <= k < sets@.len() && sets@[k].0 == h.holidays@[a]@ ==> !sets@[k].1.contains(key@),
                    decreases n - i,
                {
                    if set_lists(sets, h.holidays[i].as_str(), key.as_str()) {
                        let ghost k = choose|k: int| 0 <= k < sets@.len() && sets@[k].0 == h.holidays@[i as int]@ && sets@[k].1.contains(key@);
                        assert(0 <= i < h.holidays@.len() && 0 <= k < sets@.len() && sets@[k].0 == h.holidays@[i as int]@ && sets@[k].1.contains(date_text(date)));
                        assert(holiday_matches(sets@, h.holidays@, date));
                        return true;
                    }
                    i = i + 1;
                }
                false
            },
        }
    }
}

// ------------------------------------------------------------------ candidate generation

proof fn lemma_inclusions_valid(incs: Seq<InclusionRule>, i: int)
    requires
        0 <= i,
        inclusion_defect(incs, i) is None,
    ensures
        forall|j: int| i <= j < incs.len() ==> hms_valid(#[trigger] incs[j].spec_hms()),
    decreases incs.len() - i,
{
    if i < incs.len() {
        lemma_inclusions_valid(incs, i + 1);
    }
}

/// A valid date all of whose wall times admit the gap search.
pub open spec fn date_searchable(date: CivilDate) -> bool {
    &&& date.valid()
    &&& epoch_representable(date.days() * 86400 - 86400)
    &&& epoch_representable(date.days() * 86400 + 86399 + 86400)
}

fn make_provenance(date: CivilDate, inc: &InclusionRule, r: ResolvedInstant) -> (p: Provenance)
    requires
        date.valid(),
        hms_valid(inc.spec_hms()),
    ensures
        p@ == provenance_of(date, *inc, r),
{
    let mut local_wall = crate::calendar::format_date(date);
    local_wall.append(" ");
    local_wall.append(fmt_hms(inc.hms()).as_str());
    proof {
        reveal_strlit(" ");
    }
    let rule_kind = match inc {
        InclusionRule::Monthly(_) => "monthly".to_owned(),
        InclusionRule::Weekly(_) => "weekly".to_owned(),
        InclusionRule::Holiday(_) => "holiday".to_owned(),
    };
    let side: &'static str = match r.side {
        FoldSide::Single => "single",
        FoldSide::Early => "early",
        FoldSide::Late => "late",
    };
    let p = Provenance {
        rule_id: inc.id().to_owned(),
        rule_kind,
        local_wall,
        side,
        shifted_by_seconds: r.shifted_by_seconds,
    };
    proof {
        assert(p@.local_wall =~= provenance_of(date, *inc, r).local_wall);
    }
    p
}

impl Engine {
    /// Adds the candidates of resolved instants that fall in the closed interval.
    fn emit_resolved(
        &self,
        groups: &mut Vec<(i64, Vec<Provenance>)>,
        date: CivilDate,
        inc: &InclusionRule,
        rs: &Vec<ResolvedInstant>,
        Ghost(acc): Ghost<Seq<(i64, ProvenanceModel)>>,
    )
        requires
            groups_view(old(groups)@) == groups_of(acc),
            date.valid(),
            hms_valid(inc.spec_hms()),
        ensures
            groups_view(final(groups)@) == groups_of(acc + emitted(self.spec_rule(), date, *inc, rs@)),
    {
        let ghost rule = self.spec_rule();
        let start = self.rule.start_epoch;
        let end = self.rule.end_epoch;
        let n = rs.len();
        let mut k: usize = 0;
        let ghost mut cur = acc;
        proof {
            assert(rs@.take(0) =~= Seq::<ResolvedInstant>::empty());
            assert(acc + emitted(rule, date, *inc, rs@.take(0)) =~= acc);
        }
        while k < n
            invariant
                n == rs@.len(),
                k <= n,
                rule == self.spec_rule(),
                start == rule.start_epoch,
                end == rule.end_epoch,
                date.valid(),
                hms_valid(inc.spec_hms()),
                cur == acc + emitted(rule, date, *inc, rs@.take(k as int)),
                groups_view(groups@) == groups_of(cur),
            decreases n - k,
        {
            let r = rs[k];
            proof {
                assert(rs@.take(k + 1).drop_last() =~= rs@.take(k as int));
                assert(rs@.take(k + 1).last() == r);
            }
            if start <= r.epoch && r.epoch <= end {
                let prov = make_provenance(date, inc, r);
                add_candidate(groups, r.epoch, prov, Ghost(cur));
                proof {
                    cur = cur.push((r.epoch, provenance_of(date, *inc, r)));
                    assert(cur =~= acc + emitted(rule, date, *inc, rs@.take(k + 1)));
                }
            }
            k = k + 1;
        }
        proof {
            assert(rs@.take(n as int) =~= rs@);
        }
    }

    /// Adds the candidates of one local date.
    fn emit_day(&self, groups: &mut Vec<(i64, Vec<Provenance>)>, date: CivilDate, Ghost(acc): Ghost<Seq<(i64, ProvenanceModel)>>)
        requires
            groups_view(old(groups)@) == groups_of(acc),
            date_searchable(date),
        ensures
            groups_view(final(groups)@) == groups_of(acc + day_candidates(self.spec_rule(), date, self.spec_rule().inclusions@)),
    {
        proof {
            use_type_invariant(self);
            lemma_inclusions_valid(self.rule.inclusions@, 0);
        }
        let ghost rule = self.spec_rule();
        let incs = &self.rule.inclusions;
        let n = incs.len();
        let mut j: usize = 0;
        proof {
            assert(incs@.take(0) =~= Seq::<InclusionRule>::empty());
            assert(acc + day_candidates(rule, date, incs@.take(0)) =~= acc);
        }
        while j < n
            invariant
                n == incs@.len(),
                j <= n,
                rule == self.spec_rule(),
                *incs == rule.inclusions,
                self.zone@ == rule.timezone@,
                date_searchable(date),
                forall|q: int| 0 <= q < incs@.len() ==> hms_valid(#[trigger] incs@[q].spec_hms()),
                groups_view(groups@) == groups_of(acc + day_candidates(rule, date, incs@.take(j as int))),
            decreases n - j,
        {
            let inc = &incs[j];
            let ghost before = acc + day_candidates(rule, date, incs@.take(j as int));
            proof {
                assert(incs@.take(j + 1).drop_last() =~= incs@.take(j as int));
                assert(incs@.take(j + 1).last() == *inc);
                assert(hms_valid(inc.spec_hms()));
            }
            if self.day_matches(date, inc) {
                let hms = inc.hms();
                let local = LocalDateTime { date, hour: hms[0], minute: hms[1], second: hms[2] };
                proof {
                    assert(local == wall_on(date, inc.spec_hms()));
                    assert(local.valid());
                }
                let rs = crate::tzutil::resolve_local(&self.zone, local, self.rule.gap_policy, self.rule.fold_policy);
                self.emit_resolved(groups, date, inc, &rs, Ghost(before));
                proof {
                    assert(before + emitted(rule, date, *inc, rs@) =~= acc + day_candidates(rule, date, incs@.take(j + 1)));
                }
            } else {
                proof {
                    assert(before =~= acc + day_candidates(rule, date, incs@.take(j + 1)));
                }
            }
            j = j + 1;
        }
        proof {
            assert(incs@.take(n as int) =~= incs@);
        }
    }
}

/// First day `chrono` represents.
pub open spec fn first_representable_date() -> CivilDate {
    CivilDate { year: crate::calendar::MIN_YEAR, month: 1, day: 1 }
}

/// Last day `chrono` represents.
pub open spec fn last_representable_date() -> CivilDate {
    CivilDate { year: crate::calendar::MAX_YEAR, month: 12, day: 31 }
}

proof fn lemma_representable_days()
    ensures
        first_representable_date().days() == -96465292,
        last_representable_date().days() == 95026236,
        first_representable_date().well_formed(),
        last_representable_date().well_formed(),
{
}

impl Engine {
    /// Groups every candidate of the interval by instant, instants ascending.
    fn collect_groups(&self) -> (g: Vec<(i64, Vec<Provenance>)>)
        requires
            interval_supported(self.spec_rule()),
        ensures
            groups_view(g@) == groups_of(all_candidates(self.spec_rule())),
            walk_bounded(self.spec_rule()),
    {
        proof {
            use_type_invariant(self);
            lemma_representable_days();
        }
        let ghost rule = self.spec_rule();
        let start = self.rule.start_epoch;
        let end = self.rule.end_epoch;
        let first = crate::tzutil::local_wall_at(&self.zone, start).date;
        let last = crate::tzutil::local_wall_at(&self.zone, end).date;
        proof {
            assert(first.days() * 86400 > start - 2 * 86400);
            assert(last.days() * 86400 < end + 86400);
            assert(end - start <= MAX_SPAN_SECONDS);
            assert(last.days() - first.days() < 146_004);
            crate::calendar::lemma_le_days(last, last_representable_date());
            assert(walk_bounded(rule));
        }
        let mut groups: Vec<(i64, Vec<Provenance>)> = Vec::new();
        let ghost mut acc: Seq<(i64, ProvenanceModel)> = Seq::empty();
        let mut date = first;
        let mut guard: i64 = 0;
        proof {
            assert(groups_view(groups@) =~= Seq::<(i64, Seq<ProvenanceModel>)>::empty());
            assert(groups_of(acc) =~= Seq::<(i64, Seq<ProvenanceModel>)>::empty());
            assert(acc + all_candidates(rule) =~= all_candidates(rule));
        }
        while crate::calendar::date_le(date, last) && guard < MAX_DAYS
            invariant
                rule == self.spec_rule(),
                self.zone@ == rule.timezone@,
                start == rule.start_epoch,
                end == rule.end_epoch,
                interval_supported(rule),
                last == local_date(rule, end),
                groups_view(groups@) == groups_of(acc),
                acc + candidates_from(rule, date, last, MAX_DAYS - guard) == all_candidates(rule),
                0 <= guard <= MAX_DAYS,
                date.well_formed(),
                last.well_formed(),
                date.days() * 86400 > start - 2 * 86400,
                last.days() * 86400 < end + 86400,
                first_representable_date().days() == -96465292,
                last_representable_date().days() == 95026236,
                first_representable_date().well_formed(),
                last_representable_date().well_formed(),
            decreases MAX_DAYS - guard,
        {
            proof {
                crate::calendar::lemma_le_days(date, last);
                crate::calendar::lemma_le_days(first_representable_date(), date);
                crate::calendar::lemma_le_days(date, last_representable_date());
                assert(date.valid());
                assert(date_searchable(date));
            }
            self.emit_day(&mut groups, date, Ghost(acc));
            proof {
                let fuel = MAX_DAYS - guard;
                assert(candidates_from(rule, date, last, fuel as int) == day_candidates(rule, date, rule.inclusions@) + candidates_from(rule, date.next(), last, fuel - 1));
                acc = acc + day_candidates(rule, date, rule.inclusions@);
                assert(acc + candidates_from(rule, date.next(), last, fuel - 1) =~= all_candidates(rule));
                crate::calendar::lemma_next_day(date);
            }
            guard = guard + 1;
            date = crate::calendar::next_day(date);
        }
        proof {
            assert(candidates_from(rule, date, last, MAX_DAYS - guard) =~= Seq::<(i64, ProvenanceModel)>::empty());
            assert(acc =~= all_candidates(rule));
        }
        groups
    }
}

// ------------------------------------------------------------------ verdict construction

proof fn lemma_emitted_in_range(rule: RuleVersion, date: CivilDate, inc: InclusionRule, rs: Seq<ResolvedInstant>)
    ensures
        forall|i: int| 0 <= i < emitted(rule, date, inc, rs).len() ==> rule.start_epoch <= #[trigger] emitted(rule, date, inc, rs)[i].0 <= rule.end_epoch,
    decreases rs.len(),
{
    if rs.len() > 0 {
        lemma_emitted_in_range(rule, date, inc, rs.drop_last());
        let rest = emitted(rule, date, inc, rs.drop_last());
        let all = emitted(rule, date, inc, rs);
        assert forall|i: int| 0 <= i < all.len() implies rule.start_epoch <= #[trigger] all[i].0 <= rule.end_epoch by {
            if i < rest.len() {
                assert(all[i] == rest[i]);
            }
        }
    }
}

proof fn lemma_day_candidates_in_range(rule: RuleVersion, date: CivilDate, incs: Seq<InclusionRule>)
    ensures
        forall|i: int| 0 <= i < day_candidates(rule, date, incs).len() ==> rule.start_epoch <= #[trigger] day_candidates(rule, date, incs)[i].0 <= rule.end_epoch,
    decreases incs.len(),
{
    if incs.len() > 0 {
        lemma_day_candidates_in_range(rule, date, incs.drop_last());
        let inc = incs.last();
        let rs = spec_resolve_local(rule.timezone@, wall_on(date, inc.spec_hms()), rule.gap_policy, rule.fold_policy);
        lemma_emitted_in_range(rule, date, inc, rs);
        let a = day_candidates(rule, date, incs.drop_last());
        let b = emitted(rule, date, inc, rs);
        assert forall|i: int| 0 <= i < (a + b).len() implies rule.start_epoch <= #[trigger] (a + b)[i].0 <= rule.end_epoch by {
            if i >= a.len() {
                assert((a + b)[i] == b[i - a.len()]);
            }
        }
    }
}

proof fn lemma_candidates_from_in_range(rule: RuleVersion, date: CivilDate, last: CivilDate, fuel: int)
    ensures
        forall|i: int| 0 <= i < candidates_from(rule, date, last, fuel).len() ==> rule.start_epoch <= #[trigger] candidates_from(rule, date, last, fuel)[i].0 <= rule.end_epoch,
    decreases fuel,
{
    if fuel > 0 && date.le(last) {
        lemma_candidates_from_in_range(rule, date.next(), last, fuel - 1);
        lemma_day_candidates_in_range(rule, date, rule.inclusions@);
        let a = day_candidates(rule, date, rule.inclusions@);
        let b = candidates_from(rule, date.next(), last, fuel - 1);
        assert forall|i: int| 0 <= i < (a + b).len() implies rule.start_epoch <= #[trigger] (a + b)[i].0 <= rule.end_epoch by {
            if i >= a.len() {
                assert((a + b)[i] == b[i - a.len()]);
            }
        }
    }
}

/// Every instant with a verdict lies in the rule's closed interval, and the
/// instants are strictly ascending.
pub proof fn lemma_groups_in_range(rule: RuleVersion)
    ensures
        strictly_increasing(sorted_epochs(all_candidates(rule))),
        forall|k: int| 0 <= k < groups_of(all_candidates(rule)).len() ==> rule.start_epoch <= #[trigger] groups_of(all_candidates(rule))[k].0 <= rule.end_epoch,
{
    let c = all_candidates(rule);
    lemma_sorted_epochs(c);
    lemma_candidates_from_in_range(rule, local_date(rule, rule.start_epoch), local_date(rule, rule.end_epoch), MAX_DAYS as int);
    let s = sorted_epochs(c);
    assert forall|k: int| 0 <= k < groups_of(c).len() implies rule.start_epoch <= #[trigger] groups_of(c)[k].0 <= rule.end_epoch by {
        assert(groups_of(c)[k].0 == s[k]);
        assert(s.contains(s[k]));
        let i = choose|i: int| 0 <= i < c.len() && c[i].0 == s[k];
    }
}

fn source_line_of(p: &Provenance) -> (r: String)
    ensures
        r@ == source_line(p@),
{
    let mut r = "来源:包含规则 ".to_owned();
    r.append(p.rule_id.as_str());
    r.append("(");
    r.append(p.rule_kind.as_str());
    r.append(") 的本地时间 ");
    r.append(p.local_wall.as_str());
    r
}

fn push_line(checks: &mut Vec<String>, line: String)
    ensures
        final(checks)@.map_values(|c: String| c@) == old(checks)@.map_values(|c: String| c@).push(line@),
{
    let ghost before = checks@;
    checks.push(line);
    proof {
        assert(checks@.map_values(|c: String| c@) =~= before.map_values(|c: String| c@).push(line@));
    }
}

impl Engine {
    /// The first exclusion window containing `e`, endpoints included.
    fn find_exclusion(&self, e: i64) -> (r: Option<usize>)
        ensures
            r matches Some(k) ==> first_exclusion(self.spec_rule().exclusions@, e, 0) == Some(k as int)
                && k < self.spec_rule().exclusions@.len(),
            r matches Some(k) ==> self.spec_rule().exclusions@[k as int].start_epoch <= e
                <= self.spec_rule().exclusions@[k as int].end_epoch,
            r is None <==> first_exclusion(self.spec_rule().exclusions@, e, 0) is None,
    {
        let exs = &self.rule.exclusions;
        let n = exs.len();
        let mut i: usize = 0;
        while i < n
            invariant
                n == exs@.len(),
                *exs == self.spec_rule().exclusions,
                i <= n,
                first_exclusion(exs@, e, 0) == first_exclusion(exs@, e, i as int),
            decreases n - i,
        {
            if exs[i].start_epoch <= e && e <= exs[i].end_epoch {
                return Some(i);
            }
            i = i + 1;
        }
        None
    }

    /// The verdict on instant `e` from its raw sources.
    fn build_verdict(&self, e: i64, raw: &Vec<Provenance>, last_accepted: Option<i64>) -> (v: Verdict)
        requires
            interval_supported(self.spec_rule()),
            shown_window_ok(self.spec_rule().exclusions@, e),
            self.spec_rule().start_epoch <= e <= self.spec_rule().end_epoch,
            last_accepted matches Some(p) ==> self.spec_rule().start_epoch <= p <= self.spec_rule().end_epoch,
        ensures
            v@ == make_verdict(self.spec_rule(), e, normalize_sources(prov_models(raw@)), last_accepted),
    {
        proof {
            use_type_invariant(self);
        }
        let ghost rule = self.spec_rule();
        let sorted = sort_provenances(raw);
        let sources = dedup_provenances(&sorted);
        let ghost sm = prov_models(sources@);
        assert(sm == normalize_sources(prov_models(raw@)));
        let view = crate::tzutil::view_instant(&self.zone, e);
        let mut checks: Vec<String> = Vec::new();
        let n = sources.len();
        let mut i: usize = 0;
        proof {
            assert(checks@.map_values(|c: String| c@) =~= sm.take(0).map_values(|p: ProvenanceModel| source_line(p)));
        }
        while i < n
            invariant
                n == sources@.len(),
                sm == prov_models(sources@),
                i <= n,
                checks@.map_values(|c: String| c@) == sm.take(i as int).map_values(|p: ProvenanceModel| source_line(p)),
            decreases n - i,
        {
            push_line(&mut checks, source_line_of(&sources[i]));
            proof {
                assert(sm.take(i + 1).map_values(|p: ProvenanceModel| source_line(p)) =~= sm.take(i as int).map_values(|p: ProvenanceModel| source_line(p)).push(source_line(sm[i as int])));
            }
            i = i + 1;
        }
        let ghost lines = sm.map_values(|p: ProvenanceModel| source_line(p));
        proof {
            assert(sm.take(n as int) =~= sm);
        }
        let abbreviation = &view.offset_name;
        let mut i: usize = 0;
        proof {
            assert(sm.take(0) =~= Seq::<ProvenanceModel>::empty());
            assert(lines + dst_lines(sm.take(0), abbreviation@) =~= lines);
        }
        while i < n
            invariant
                n == sources@.len(),
                sm == prov_models(sources@),
                i <= n,
                checks@.map_values(|c: String| c@) == lines + dst_lines(sm.take(i as int), abbreviation@),
            decreases n - i,
        {
            let p = &sources[i];
            let ghost before = lines + dst_lines(sm.take(i as int), abbreviation@);
            proof {
                assert(sm.take(i + 1).drop_last() =~= sm.take(i as int));
                assert(sm.take(i + 1).last() == p@);
            }
            if p.shifted_by_seconds > 0 {
                let mut line = "DST 跳空:规则 ".to_owned();
                line.append(p.rule_id.as_str());
                line.append(" 本地时间不存在，按 shift_forward 平移 ");
                line.append(fmt_i64(p.shifted_by_seconds).as_str());
                line.append(" 秒到下一合法瞬间");
                push_line(&mut checks, line);
                proof {
                    assert(before.push(line@) =~= lines + dst_lines(sm.take(i + 1), abbreviation@));
                }
            } else if !text_eq(p.side, "single") {
                let mut line = "DST 回拨:规则 ".to_owned();
                line.append(p.rule_id.as_str());
                line.append(" 选择");
                line.append(if text_eq(p.side, "early") { "早" } else { "晚" });
                line.append("侧（偏移 ");
                line.append(abbreviation.as_str());
                line.append("）");
                push_line(&mut checks, line);
                proof {
                    assert(before.push(line@) =~= lines + dst_lines(sm.take(i + 1), abbreviation@));
                }
            }
            i = i + 1;
        }
        proof {
            assert(sm.take(n as int) =~= sm);
        }
        let ghost base = lines + dst_lines(sm, abbreviation@);
        let kind;
        match self.find_exclusion(e) {
            Some(k) => {
                let ex = &self.rule.exclusions[k];
                proof {
                    assert(exclusion_showable(rule.exclusions@[k as int]));
                }
                let mut line = "排除窗 ".to_owned();
                line.append(ex.id.as_str());
                line.append(" [");
                line.append(crate::tzutil::wall_text_at(&self.zone, ex.start_epoch).as_str());
                line.append("..");
                line.append(crate::tzutil::wall_text_at(&self.zone, ex.end_epoch).as_str());
                line.append("](UTC epoch ");
                line.append(fmt_i64(ex.start_epoch).as_str());
                line.append("..");
                line.append(fmt_i64(ex.end_epoch).as_str());
                line.append(") 按瞬间命中端点包含:拒绝");
                push_line(&mut checks, line);
                kind = VerdictKind::Excluded;
            },
            None => {
                push_line(&mut checks, "排除窗检查:未命中任何闭区间排除窗:通过".to_owned());
                if self.rule.min_gap_seconds > 0 {
                    match last_accepted {
                        Some(prev) => {
                            let delta = e - prev;
                            if delta < self.rule.min_gap_seconds {
                                let mut line = "最小间隔:距上一已接受瞬间 ".to_owned();
                                line.append(fmt_i64(delta).as_str());
                                line.append(" 秒 < ");
                                line.append(fmt_i64(self.rule.min_gap_seconds).as_str());
                                line.append(" 秒:拒绝");
                                push_line(&mut checks, line);
                                kind = VerdictKind::TooSoon;
                            } else {
                                let mut line = "最小间隔:距上一已接受瞬间 ".to_owned();
                                line.append(fmt_i64(delta).as_str());
                                line.append(" 秒 ≥ ");
                                line.append(fmt_i64(self.rule.min_gap_seconds).as_str());
                                line.append(" 秒:通过");
                                push_line(&mut checks, line);
                                push_line(&mut checks, "最终裁决:接受".to_owned());
                                kind = VerdictKind::Accepted;
                            }
                        },
                        None => {
                            push_line(&mut checks, "最小间隔:区间内尚无已接受瞬间:通过".to_owned());
                            push_line(&mut checks, "最终裁决:接受".to_owned());
                            kind = VerdictKind::Accepted;
                        },
                    }
                } else {
                    push_line(&mut checks, "最终裁决:接受".to_owned());
                    kind = VerdictKind::Accepted;
                }
            },
        }
        let v = Verdict {
            epoch: e,
            local_wall: view.wall,
            offset_name: view.offset_name,
            offset_seconds: view.offset_seconds,
            kind,
            sources,
            checks,
        };
        proof {
            let want = make_verdict(rule, e, sm, last_accepted);
            assert(v@.checks =~= want.checks);
            assert(v@ =~= want);
        }
        v
    }

    /// Verdicts of the groups, in order, tracking the last accepted instant.
    #[verifier::rlimit(40)]
    fn verdicts_of(&self, groups: &Vec<(i64, Vec<Provenance>)>) -> (r: Vec<Verdict>)
        requires
            interval_supported(self.spec_rule()),
            forall|k: int| 0 <= k < groups@.len() ==> shown_window_ok(self.spec_rule().exclusions@, #[trigger] groups@[k].0),
            forall|k: int| 0 <= k < groups@.len() ==> self.spec_rule().start_epoch <= #[trigger] groups@[k].0 <= self.spec_rule().end_epoch,
        ensures
            verdict_models(r@) == verdict_fold(self.spec_rule(), groups_view(groups@), None),
    {
        let ghost rule = self.spec_rule();
        let ghost gv = groups_view(groups@);
        let mut out: Vec<Verdict> = Vec::new();
        let mut last: Option<i64> = None;
        let n = groups.len();
        let mut i: usize = 0;
        proof {
            assert(gv.skip(0) =~= gv);
            assert(verdict_models(out@) + verdict_fold(rule, gv.skip(0), last) =~= verdict_fold(rule, gv, None));
        }
        while i < n
            invariant
                n == groups@.len(),
                rule == self.spec_rule(),
                gv == groups_view(groups@),
                interval_supported(rule),
                forall|k: int| 0 <= k < groups@.len() ==> shown_window_ok(rule.exclusions@, #[trigger] groups@[k].0),
                i <= n,
                out@.len() == i,
                forall|k: int| 0 <= k < groups@.len() ==> rule.start_epoch <= #[trigger] groups@[k].0 <= rule.end_epoch,
                last matches Some(p) ==> rule.start_epoch <= p <= rule.end_epoch,
                verdict_models(out@) + verdict_fold(rule, gv.skip(i as int), last) == verdict_fold(rule, gv, None),
            decreases n - i,
        {
            let e = groups[i].0;
            let v = self.build_verdict(e, &groups[i].1, last);
            let accepted = match v.kind {
                VerdictKind::Accepted => true,
                _ => false,
            };
            let ghost before = out@;
            proof {
                let rest = gv.skip(i as int);
                assert(rest[0] == gv[i as int]);
                assert(rest.drop_first() =~= gv.skip(i + 1));
            }
            out.push(v);
            if accepted {
                last = Some(e);
            }
            proof {
                assert(verdict_models(out@) =~= verdict_models(before).push(out@[i as int]@));
            }
            i = i + 1;
        }
        proof {
            assert(gv.skip(n as int) =~= Seq::<(i64, Seq<ProvenanceModel>)>::empty());
            assert(verdict_models(out@) + verdict_fold(rule, gv.skip(n as int), last) =~= verdict_models(out@));
        }
        out
    }

    /// Whether the engine's rule is evaluable: its interval is supported, and
    /// every window that excludes one of its instants can show its endpoints.
    pub fn can_evaluate(&self) -> (r: bool)
        ensures
            r == evaluable(self.spec_rule()),
    {
        let ghost rule = self.spec_rule();
        let lo: i64 = crate::tzutil::MIN_EPOCH + 5 * 86400;
        let hi: i64 = crate::tzutil::MAX_EPOCH - 5 * 86400;
        let start = self.rule.start_epoch;
        let end = self.rule.end_epoch;
        if !(lo <= start && start <= hi && lo <= end && end <= hi) {
            return false;
        }
        let groups = self.collect_groups();
        let ghost c = all_candidates(rule);
        proof {
            lemma_sorted_epochs(c);
        }
        let elo: i64 = crate::tzutil::MIN_EPOCH + 86400;
        let ehi: i64 = crate::tzutil::MAX_EPOCH - 86400;
        let n = groups.len();
        let mut i: usize = 0;
        while i < n
            invariant
                n == groups@.len(),
                rule == self.spec_rule(),
                c == all_candidates(rule),
                groups_view(groups@) == groups_of(c),
                i <= n,
                elo == crate::tzutil::MIN_EPOCH + 86400,
                ehi == crate::tzutil::MAX_EPOCH - 86400,
                forall|k: int| 0 <= k < i ==> shown_window_ok(rule.exclusions@, #[trigger] groups@[k].0),
            decreases n - i,
        {
            let e = groups[i].0;
            match self.find_exclusion(e) {
                Some(j) => {
                    let ex = &self.rule.exclusions[j];
                    if !(elo <= ex.start_epoch && ex.start_epoch <= ehi && elo <= ex.end_epoch && ex.end_epoch <= ehi) {
                        proof {
                            assert(!shown_window_ok(rule.exclusions@, e));
                            lemma_group_epoch(rule, groups@, i as int);
                            lemma_sorted_epochs(c);
                            assert(sorted_epochs(c).contains(e));
                            let m = choose|m: int| 0 <= m < c.len() && c[m].0 == e;
                            assert(!shown_window_ok(rule.exclusions@, c[m].0));
                        }
                        return false;
                    }
                },
                None => {},
            }
            i = i + 1;
        }
        proof {
            lemma_windows_from_groups(rule, groups@);
        }
        true
    }

    /// The verdict sequence over the rule's whole closed interval, ascending by instant.
    pub fn evaluate(&self) -> (r: Vec<Verdict>)
        requires
            evaluable(self.spec_rule()),
        ensures
            verdict_models(r@) == spec_evaluate(self.spec_rule()),
            walk_bounded(self.spec_rule()),
    {
        let groups = self.collect_groups();
        proof {
            lemma_groups_in_range(self.spec_rule());
            lemma_group_windows(self.spec_rule(), groups@);
            let gv = groups_view(groups@);
            assert forall|k: int| 0 <= k < groups@.len() implies self.spec_rule().start_epoch <= #[trigger] groups@[k].0 <= self.spec_rule().end_epoch by {
                assert(gv[k].0 == groups@[k].0);
            }
        }
        self.verdicts_of(&groups)
    }
}

proof fn lemma_group_epoch(rule: RuleVersion, groups: Seq<(i64, Vec<Provenance>)>, k: int)
    requires
        groups_view(groups) == groups_of(all_candidates(rule)),
        0 <= k < groups.len(),
    ensures
        groups.len() == sorted_epochs(all_candidates(rule)).len(),
        sorted_epochs(all_candidates(rule))[k] == groups[k].0,
{
    let c = all_candidates(rule);
    let gv = groups_view(groups);
    assert(gv.len() == groups.len());
    assert(gv[k].0 == groups[k].0);
    assert(groups_of(c).len() == sorted_epochs(c).len());
    assert(groups_of(c)[k].0 == sorted_epochs(c)[k]);
}

/// From `evaluable`: the window excluding each group's instant can be shown.
proof fn lemma_group_windows(rule: RuleVersion, groups: Seq<(i64, Vec<Provenance>)>)
    requires
        evaluable(rule),
        groups_view(groups) == groups_of(all_candidates(rule)),
    ensures
        forall|k: int| 0 <= k < groups.len() ==> shown_window_ok(rule.exclusions@, #[trigger] groups[k].0),
{
    let c = all_candidates(rule);
    lemma_sorted_epochs(c);
    assert forall|k: int| 0 <= k < groups.len() implies shown_window_ok(rule.exclusions@, #[trigger] groups[k].0) by {
        lemma_group_epoch(rule, groups, k);
        assert(sorted_epochs(c).contains(groups[k].0));
        let m = choose|m: int| 0 <= m < c.len() && c[m].0 == groups[k].0;
        assert(shown_window_ok(rule.exclusions@, c[m].0));
    }
}

/// Back to `evaluable`: every candidate's instant is a group's instant.
proof fn lemma_windows_from_groups(rule: RuleVersion, groups: Seq<(i64, Vec<Provenance>)>)
    requires
        interval_supported(rule),
        groups_view(groups) == groups_of(all_candidates(rule)),
        forall|k: int| 0 <= k < groups.len() ==> shown_window_ok(rule.exclusions@, #[trigger] groups[k].0),
    ensures
        evaluable(rule),
{
    let c = all_candidates(rule);
    lemma_sorted_epochs(c);
    assert forall|i: int| 0 <= i < c.len() implies shown_window_ok(rule.exclusions@, #[trigger] c[i].0) by {
        assert(sorted_epochs(c).contains(c[i].0));
        let k = choose|k: int| 0 <= k < sorted_epochs(c).len() && sorted_epochs(c)[k] == c[i].0;
        assert(groups_view(groups).len() == groups.len());
        assert(groups_of(c).len() == sorted_epochs(c).len());
        lemma_group_epoch(rule, groups, k);
        assert(shown_window_ok(rule.exclusions@, groups[k].0));
    }
}

// ------------------------------------------------------------------ zone names

/// The names strictly ascend in byte order.
pub open spec fn names_sorted(s: Seq<&'static str>) -> bool {
    forall|i: int, j: int| 0 <= i < j < s.len() ==> text_lt(#[trigger] s[i]@, #[trigger] s[j]@)
}

/// Whether a name is among the names.
pub open spec fn has_name(s: Seq<&'static str>, x: Seq<char>) -> bool {
    exists|i: int| 0 <= i < s.len() && #[trigger] s[i]@ == x
}

/// Inserts a name into a sorted list unless it is there already.
fn insert_name(v: &mut Vec<&'static str>, name: &'static str)
    requires
        names_sorted(old(v)@),
    ensures
        names_sorted(final(v)@),
        forall|x: Seq<char>| has_name(final(v)@, x) <==> (has_name(old(v)@, x) || x == name@),
{
    proof {
        crate::text::lemma_text_lt_facts();
    }
    let n = v.len();
    let mut k: usize = 0;
    while k < n
        invariant
            n == v@.len(),
            v@ == old(v)@,
            k <= n,
            forall|i: int| 0 <= i < k ==> text_lt(#[trigger] v@[i]@, name@),
        ensures
            k <= n,
            v@ == old(v)@,
            forall|i: int| 0 <= i < k ==> text_lt(#[trigger] v@[i]@, name@),
            k < n ==> !text_lt(v@[k as int]@, name@),
        decreases n - k,
    {
        if !text_less(v[k], name) {
            break;
        }
        k = k + 1;
    }
    if k < n && text_eq(v[k], name) {
        assert(v@[k as int]@ == name@);
        assert(has_name(v@, name@));
        return;
    }
    let ghost old_v = v@;
    assert(old_v == old(v)@);
    v.insert(k, name);
    proof {
        assert forall|i: int, j: int| 0 <= i < j < v@.len() implies text_lt(#[trigger] v@[i]@, #[trigger] v@[j]@) by {
            if j < k {
                assert(v@[i] == old_v[i] && v@[j] == old_v[j]);
            } else if j == k {
                assert(v@[i] == old_v[i]);
            } else if i < k {
                assert(v@[i] == old_v[i] && v@[j] == old_v[j - 1]);
                assert(text_lt(old_v[i]@, old_v[j - 1]@));
            } else if i == k {
                assert(v@[j] == old_v[j - 1]);
                assert(old_v[k as int]@ != name@);
                assert(text_lt(name@, old_v[k as int]@));
                if j - 1 > k {
                    assert(text_lt(old_v[k as int]@, old_v[j - 1]@));
                }
            } else {
                assert(v@[i] == old_v[i - 1] && v@[j] == old_v[j - 1]);
                assert(text_lt(old_v[i - 1]@, old_v[j - 1]@));
            }
        }
        assert forall|x: Seq<char>| has_name(v@, x) <==> (has_name(old_v, x) || x == name@) by {
            if has_name(v@, x) {
                let i = choose|i: int| 0 <= i < v@.len() && #[trigger] v@[i]@ == x;
                if i < k {
                    assert(old_v[i]@ == x);
                } else if i > k {
                    assert(old_v[i - 1]@ == x);
                }
            }
            if has_name(old_v, x) {
                let i = choose|i: int| 0 <= i < old_v.len() && #[trigger] old_v[i]@ == x;
                if i < k {
                    assert(v@[i]@ == x);
                } else {
                    assert(v@[i + 1]@ == x);
                }
            }
            if x == name@ {
                assert(v@[k as int]@ == x);
            }
        }
        assert(forall|x: Seq<char>| has_name(v@, x) <==> (has_name(old(v)@, x) || x == name@));
    }
}

/// Every zone name of the bundled database, once each, in ascending order.
pub fn known_tz_list() -> (r: Vec<&'static str>)
    ensures
        names_sorted(r@),
        forall|x: Seq<char>| has_name(r@, x) <==> exists|i: int| 0 <= i && #[trigger] zone_variant_at(i) == Some(x),
        forall|i: int| 0 <= i < r@.len() ==> zone_known(#[trigger] r@[i]@),
{
    let mut out: Vec<&'static str> = Vec::new();
    let mut i: usize = 0;
    loop
        invariant
            names_sorted(out@),
            forall|x: Seq<char>| has_name(out@, x) <==> exists|j: int| 0 <= j < i && #[trigger] zone_variant_at(j) == Some(x),
            forall|k: int| 0 <= k < out@.len() ==> zone_known(#[trigger] out@[k]@),
            i <= isize::MAX,
        decreases isize::MAX - i,
    {
        match zone_variant_name(i) {
            None => {
                proof {
                    assert forall|x: Seq<char>| has_name(out@, x) <==> exists|j: int| 0 <= j && #[trigger] zone_variant_at(j) == Some(x) by {
                        if exists|j: int| 0 <= j && #[trigger] zone_variant_at(j) == Some(x) {
                            let j = choose|j: int| 0 <= j && #[trigger] zone_variant_at(j) == Some(x);
                            if j >= i {
                                assert(zone_variant_at(j) is None);
                            }
                            assert(0 <= j < i);
                        }
                    }
                }
                return out;
            },
            Some(name) => {
                let ghost before = out@;
                insert_name(&mut out, name);
                proof {
                    assert forall|k: int| 0 <= k < out@.len() implies zone_known(#[trigger] out@[k]@) by {
                        assert(has_name(out@, out@[k]@));
                        if out@[k]@ != name@ {
                            assert(has_name(before, out@[k]@));
                            let m = choose|m: int| 0 <= m < before.len() && #[trigger] before[m]@ == out@[k]@;
                            assert(zone_known(before[m]@));
                        }
                    }
                    assert forall|x: Seq<char>| has_name(out@, x) <==> exists|j: int| 0 <= j < i + 1 && #[trigger] zone_variant_at(j) == Some(x) by {
                        if exists|j: int| 0 <= j < i + 1 && #[trigger] zone_variant_at(j) == Some(x) {
                            let j = choose|j: int| 0 <= j < i + 1 && #[trigger] zone_variant_at(j) == Some(x);
                            if j < i {
                                assert(has_name(before, x));
                            }
                        }
                        if has_name(before, x) {
                            let j = choose|j: int| 0 <= j < i && #[trigger] zone_variant_at(j) == Some(x);
                            assert(0 <= j < i + 1);
                        }
                    }
                }
                i = i + 1;
            },
        }
    }
}

} // verus!
