//! Time zones and the resolution of local wall times across DST gaps and folds.
//!
//! Every decision is made on UTC instants; local wall clocks are only read
//! from the zone database through the items below.

use vstd::prelude::*;
use crate::calendar::{CivilDate, LocalDateTime, wall_text, wall_as_utc_seconds};
use crate::model::{FoldPolicy, GapPolicy};
use crate::text::cat;
use chrono::{Datelike, Offset, TimeZone, Timelike};

verus! {

/// First UTC epoch second of the day `chrono` represents first (-262143-01-01).
pub const MIN_EPOCH: i64 = -8334601228800;
/// Last UTC epoch second of the last day `chrono` represents (262142-12-31).
pub const MAX_EPOCH: i64 = 8210266876799;

/// Instants whose local wall clock `chrono` computes in every zone (one day of
/// headroom on each side of its range).
pub open spec fn epoch_representable(e: int) -> bool {
    MIN_EPOCH + 86400 <= e <= MAX_EPOCH - 86400
}

/// Whether the zone database knows an IANA zone name (`Tz::from_str`).
pub uninterp spec fn zone_known(name: Seq<char>) -> bool;

/// The local wall clock of a zone at a UTC instant
/// (`Utc.timestamp_opt(e, 0)` → `with_timezone` → `naive_local`).
pub uninterp spec fn zone_local_wall(zone: Seq<char>, epoch: i64) -> LocalDateTime;

/// The zone's UTC offset in seconds at a UTC instant (`offset().fix().local_minus_utc()`).
pub uninterp spec fn zone_offset(zone: Seq<char>, epoch: i64) -> i32;

/// The zone's abbreviation at a UTC instant (`format("%Z")`).
pub uninterp spec fn zone_abbreviation(zone: Seq<char>, epoch: i64) -> Seq<char>;

/// What `TimeZone::from_local_datetime` makes of a local wall time.
pub uninterp spec fn zone_resolution(zone: Seq<char>, wall: LocalDateTime) -> LocalLookup;

/// The outcome of mapping a local wall time to UTC instants.
#[derive(Debug, Clone, Copy, PartialEq, Eq, Structural)]
pub enum LocalLookup {
    /// The wall time does not exist (a gap).
    Missing,
    /// Exactly one instant.
    Unique(i64),
    /// Two instants (a fold), in the order the zone database gives them.
    Twice(i64, i64),
}

/// A time zone known to the zone database, held by its IANA name.
#[derive(Debug)]
pub struct Zone {
    name: String,
}

impl View for Zone {
    type V = Seq<char>;

    closed spec fn view(&self) -> Seq<char> {
        self.name@
    }
}

impl Zone {
    #[verifier::type_invariant]
    closed spec fn inv(self) -> bool {
        zone_known(self.name@)
    }

    /// The zone's IANA name.
    pub fn name(&self) -> (r: &str)
        ensures
            r@ == self@,
            zone_known(self@),
    {
        proof {
            use_type_invariant(self);
        }
        self.name.as_str()
    }
}

/// `name.parse::<chrono_tz::Tz>().is_ok()`.
#[verifier::external_body]
fn zone_name_known(name: &str) -> (r: bool)
    ensures
        r == zone_known(name@),
{
    name.parse::<chrono_tz::Tz>().is_ok()
}

/// `Utc.timestamp_opt(epoch, 0)` → `with_timezone(&tz)` → `naive_local()`: the
/// local wall clock, which reads the instant shifted by the zone's offset.
#[verifier::external_body]
pub(crate) fn local_wall_at(zone: &Zone, epoch: i64) -> (r: LocalDateTime)
    requires
        epoch_representable(epoch as int),
    ensures
        r == zone_local_wall(zone@, epoch),
        r.well_formed(),
        r.as_utc_seconds() == epoch + zone_offset(zone@, epoch),
        epoch - 86400 < r.as_utc_seconds() < epoch + 86400,
{
    let tz = zone.name.parse::<chrono_tz::Tz>().unwrap();
    let n = chrono::Utc.timestamp_opt(epoch, 0).single().unwrap().with_timezone(&tz).naive_local();
    let date = CivilDate { year: n.year(), month: n.month(), day: n.day() };
    LocalDateTime { date, hour: n.hour(), minute: n.minute(), second: n.second() }
}

/// `offset().fix().local_minus_utc()` of the instant in the zone; a fixed
/// offset lies strictly within one day.
#[verifier::external_body]
pub(crate) fn offset_at(zone: &Zone, epoch: i64) -> (r: i32)
    requires
        epoch_representable(epoch as int),
    ensures
        r == zone_offset(zone@, epoch),
        -86400 < r < 86400,
{
    let tz = zone.name.parse::<chrono_tz::Tz>().unwrap();
    chrono::Utc.timestamp_opt(epoch, 0).single().unwrap().with_timezone(&tz).offset().fix().local_minus_utc()
}

/// `format("%Z")` of the instant in the zone: its abbreviation.
#[verifier::external_body]
pub(crate) fn abbreviation_at(zone: &Zone, epoch: i64) -> (r: String)
    requires
        epoch_representable(epoch as int),
    ensures
        r@ == zone_abbreviation(zone@, epoch),
{
    let tz = zone.name.parse::<chrono_tz::Tz>().unwrap();
    chrono::Utc.timestamp_opt(epoch, 0).single().unwrap().with_timezone(&tz).format("%Z").to_string()
}

/// `format("%Y-%m-%d %H:%M:%S")` of the instant in the zone: its local wall clock as text.
#[verifier::external_body]
pub(crate) fn wall_text_at(zone: &Zone, epoch: i64) -> (r: String)
    requires
        epoch_representable(epoch as int),
    ensures
        r@ == wall_text(zone_local_wall(zone@, epoch)),
{
    let tz = zone.name.parse::<chrono_tz::Tz>().unwrap();
    chrono::Utc
        .timestamp_opt(epoch, 0)
        .single()
        .unwrap()
        .with_timezone(&tz)
        .format("%Y-%m-%d %H:%M:%S")
        .to_string()
}

/// `tz.from_local_datetime(&wall)`, its variants told apart. Each instant
/// found is the wall clock less an offset, and a `chrono` offset is less
/// than a day either way; a wall time in a fold has two instants, given
/// earliest first.
#[verifier::external_body]
pub(crate) fn lookup_wall(zone: &Zone, wall: LocalDateTime) -> (r: LocalLookup)
    requires
        wall.valid(),
    ensures
        r == zone_resolution(zone@, wall),
        r matches LocalLookup::Unique(e) ==> wall.as_utc_seconds() - 86400 < e < wall.as_utc_seconds() + 86400,
        r matches LocalLookup::Twice(a, b) ==> wall.as_utc_seconds() - 86400 < a < wall.as_utc_seconds() + 86400
            && wall.as_utc_seconds() - 86400 < b < wall.as_utc_seconds() + 86400 && a < b,
{
    let tz = zone.name.parse::<chrono_tz::Tz>().unwrap();
    let d = wall.date;
    let naive = chrono::NaiveDate::from_ymd_opt(d.year, d.month, d.day)
        .unwrap()
        .and_hms_opt(wall.hour, wall.minute, wall.second)
        .unwrap();
    match tz.from_local_datetime(&naive) {
        chrono::LocalResult::None => LocalLookup::Missing,
        chrono::LocalResult::Single(t) => LocalLookup::Unique(t.timestamp()),
        chrono::LocalResult::Ambiguous(a, b) => LocalLookup::Twice(a.timestamp(), b.timestamp()),
    }
}

/// The name of the `i`-th zone of `chrono_tz::TZ_VARIANTS`, if there is one.
pub uninterp spec fn zone_variant_at(i: int) -> Option<Seq<char>>;

/// `chrono_tz::TZ_VARIANTS.get(i)` and the zone's `name()`. Every variant's
/// name parses as a zone; past the end of the list there is none, and the
/// list is shorter than `isize::MAX`.
#[verifier::external_body]
pub(crate) fn zone_variant_name(i: usize) -> (r: Option<&'static str>)
    ensures
        zone_variant_at(i as int) == (match r {
            Some(n) => Some(n@),
            None => None::<Seq<char>>,
        }),
        r matches Some(n) ==> zone_known(n@),
        r is None ==> forall|j: int| j >= i ==> #[trigger] zone_variant_at(j) is None,
        i >= isize::MAX ==> r is None,
{
    chrono_tz::TZ_VARIANTS.get(i).map(|t| t.name())
}

/// What `chrono::NaiveDateTime::parse_from_str` gives for a text and a
/// format: the wall clock, or the text of the parse error.
pub uninterp spec fn naive_parse(text: Seq<char>, format: Seq<char>) -> Result<LocalDateTime, Seq<char>>;

/// `chrono::NaiveDateTime::parse_from_str(text, format)`; a parsed value is a
/// wall clock that `chrono` represents, read with its calendar accessors.
#[verifier::external_body]
pub(crate) fn parse_wall(text: &str, format: &str) -> (r: Result<LocalDateTime, String>)
    ensures
        naive_parse(text@, format@) == (match r {
            Ok(w) => Ok(w),
            Err(m) => Err::<LocalDateTime, Seq<char>>(m@),
        }),
        r matches Ok(w) ==> w.valid(),
{
    match chrono::NaiveDateTime::parse_from_str(text, format) {
        Ok(n) => Ok(LocalDateTime {
            date: CivilDate { year: n.year(), month: n.month(), day: n.day() },
            hour: n.hour(),
            minute: n.minute(),
            second: n.second(),
        }),
        Err(e) => Err(e.to_string()),
    }
}

/// Whether a wall clock lies far enough inside `chrono`'s range to be resolved.
pub fn is_local_searchable(local: LocalDateTime) -> (r: bool)
    requires
        local.valid(),
    ensures
        r == local_searchable(local),
{
    let t = wall_as_utc_seconds(local);
    MIN_EPOCH + 2 * 86400 <= t && t <= MAX_EPOCH - 2 * 86400
}

/// Parses an IANA zone name.
pub fn parse_tz(name: &str) -> (r: Result<Zone, String>)
    ensures
        r is Ok <==> zone_known(name@),
        r matches Ok(z) ==> z@ == name@,
        r matches Err(m) ==> m@ == "未知时区: "@ + name@,
{
    if zone_name_known(name) {
        Ok(Zone { name: name.to_owned() })
    } else {
        Err(cat("未知时区: ", name))
    }
}

/// Identifier of the bundled zone database.
pub fn tzdb_version() -> (r: &'static str)
    ensures
        r@ == tzdb_id(),
{
    "2024a (chrono-tz 0.9.0 bundled)"
}

pub open spec fn tzdb_id() -> Seq<char> {
    "2024a (chrono-tz 0.9.0 bundled)"@
}

/// Which occurrence of a local wall time an instant is.
#[derive(Debug, Clone, Copy, PartialEq, Eq, Structural)]
pub enum FoldSide {
    /// The only valid instant (or the instant a gap was shifted to).
    Single,
    /// The earlier occurrence in a fold.
    Early,
    /// The later occurrence in a fold.
    Late,
}

/// A candidate instant resolved from a local wall time.
#[derive(Debug, Clone, Copy, PartialEq, Eq, Structural)]
pub struct ResolvedInstant {
    pub epoch: i64,
    pub side: FoldSide,
    /// Seconds of wall clock skipped when a gap was shifted forward (0 otherwise).
    pub shifted_by_seconds: i64,
}

/// The zone's wall clock at `t`, in seconds, read as if it were UTC.
pub open spec fn wall_seconds(zone: Seq<char>, t: int) -> int {
    t + zone_offset(zone, t as i64)
}

/// First phase of the search for the end of a gap: from `hi`, step forward
/// with doubling steps (capped at one day) until the wall clock reaches
/// `target` or `cap` is reached.
pub open spec fn gap_expand(zone: Seq<char>, target: int, hi: int, step: int, cap: int) -> int
    decreases cap - hi,
{
    if step > 0 && wall_seconds(zone, hi) < target && hi < cap {
        let next_hi = if hi + step < cap { hi + step } else { cap };
        let next_step = if 2 * step < 86400 { 2 * step } else { 86400 };
        gap_expand(zone, target, next_hi, next_step, cap)
    } else {
        hi
    }
}

/// Second phase: bisect `(lo, hi]` down to the instant where the wall clock
/// first reaches `target`.
pub open spec fn gap_bisect(zone: Seq<char>, target: int, lo: int, hi: int) -> int
    decreases hi - lo,
{
    if lo + 1 < hi {
        let mid = lo + (hi - lo) / 2;
        if wall_seconds(zone, mid) >= target {
            gap_bisect(zone, target, lo, mid)
        } else {
            gap_bisect(zone, target, mid, hi)
        }
    } else {
        hi
    }
}

/// The instant a nonexistent wall time `target` (read as UTC seconds) is
/// shifted to: the search starts one day before and is capped one day after.
pub open spec fn gap_end(zone: Seq<char>, target: int) -> int {
    let lo = target - 86400;
    gap_bisect(zone, target, lo, gap_expand(zone, target, lo, 60, target + 86400))
}

/// A local wall time around which the gap search stays within the range of instants `chrono` handles.
pub open spec fn local_searchable(local: LocalDateTime) -> bool {
    &&& local.valid()
    &&& epoch_representable(local.as_utc_seconds() - 86400)
    &&& epoch_representable(local.as_utc_seconds() + 86400)
}

/// The instants a local wall time resolves to under the DST policies.
pub open spec fn spec_resolve_local(
    zone: Seq<char>,
    local: LocalDateTime,
    gap: GapPolicy,
    fold: FoldPolicy,
) -> Seq<ResolvedInstant> {
    match zone_resolution(zone, local) {
        LocalLookup::Unique(e) => seq![ResolvedInstant { epoch: e, side: FoldSide::Single, shifted_by_seconds: 0 }],
        LocalLookup::Missing => match gap {
            GapPolicy::Skip => seq![],
            GapPolicy::ShiftForward => {
                let target = local.as_utc_seconds();
                let e = gap_end(zone, target);
                seq![
                    ResolvedInstant {
                        epoch: e as i64,
                        side: FoldSide::Single,
                        shifted_by_seconds: (wall_seconds(zone, e) - target) as i64,
                    },
                ]
            },
        },
        LocalLookup::Twice(a, b) => {
            let early = ResolvedInstant { epoch: a, side: FoldSide::Early, shifted_by_seconds: 0 };
            let late = ResolvedInstant { epoch: b, side: FoldSide::Late, shifted_by_seconds: 0 };
            match fold {
                FoldPolicy::Early => seq![early],
                FoldPolicy::Late => seq![late],
                FoldPolicy::Both => seq![early, late],
            }
        },
    }
}

/// What each policy keeps of a local wall time. A wall time with one
/// instant gives that instant, whatever the policies. In a fold (two
/// instants, the earlier first) the early policy keeps only the earlier one,
/// the late policy only the later one, and both keeps the two in order, each
/// marked with its side and never shifted. In a gap, skipping gives nothing
/// and shifting forward gives one instant.
pub proof fn lemma_policies_keep(zone: Seq<char>, local: LocalDateTime, gap: GapPolicy, fold: FoldPolicy)
    ensures
        zone_resolution(zone, local) matches LocalLookup::Unique(e) ==> spec_resolve_local(zone, local, gap, fold)
            =~= seq![ResolvedInstant { epoch: e, side: FoldSide::Single, shifted_by_seconds: 0 }],
        zone_resolution(zone, local) matches LocalLookup::Twice(a, b) ==> {
            let r = spec_resolve_local(zone, local, gap, fold);
            &&& fold == FoldPolicy::Early ==> r.len() == 1 && r[0].epoch == a && r[0].side == FoldSide::Early
            &&& fold == FoldPolicy::Late ==> r.len() == 1 && r[0].epoch == b && r[0].side == FoldSide::Late
            &&& fold == FoldPolicy::Both ==> r.len() == 2 && r[0].epoch == a && r[0].side == FoldSide::Early
                && r[1].epoch == b && r[1].side == FoldSide::Late
            &&& forall|k: int| 0 <= k < r.len() ==> (#[trigger] r[k]).shifted_by_seconds == 0
        },
        zone_resolution(zone, local) is Missing ==> spec_resolve_local(zone, local, gap, fold).len() == (
        if gap == GapPolicy::Skip {
            0int
        } else {
            1int
        }),
        zone_resolution(zone, local) is Missing && gap == GapPolicy::ShiftForward ==> spec_resolve_local(
            zone,
            local,
            gap,
            fold,
        )[0].side == FoldSide::Single,
{
}

fn wall_seconds_at(zone: &Zone, t: i64) -> (r: i64)
    requires
        epoch_representable(t as int),
    ensures
        r == wall_seconds(zone@, t as int),
        t - 86400 < r < t + 86400,
{
    t + (offset_at(zone, t) as i64)
}

/// Finds the first valid instant after a gap that swallows the local wall
/// time `target`: the wall clock is before `target` one second earlier and
/// has reached it at the result.
fn gap_end_instant(zone: &Zone, target: LocalDateTime) -> (r: i64)
    requires
        local_searchable(target),
    ensures
        r == gap_end(zone@, target.as_utc_seconds()),
        target.as_utc_seconds() - 86400 < r <= target.as_utc_seconds() + 86400,
        wall_seconds(zone@, r - 1) < target.as_utc_seconds() <= wall_seconds(zone@, r as int),
{
    let as_utc = wall_as_utc_seconds(target);
    let ghost t = as_utc as int;
    let lo0: i64 = as_utc - 86400;
    let mut lo: i64 = lo0;
    let mut hi: i64 = lo;
    let mut step: i64 = 60;
    let cap: i64 = as_utc + 86400;
    let mut w = wall_seconds_at(zone, hi);
    while w < as_utc && hi < cap
        invariant
            w == wall_seconds(zone@, hi as int),
            hi - 86400 < w < hi + 86400,
            t == as_utc,
            lo == lo0,
            lo0 == t - 86400,
            cap == t + 86400,
            epoch_representable(lo0 as int),
            epoch_representable(cap as int),
            lo0 <= hi <= cap,
            0 < step <= 86400,
            wall_seconds(zone@, lo0 as int) < t,
            gap_expand(zone@, t, lo0 as int, 60, cap as int) == gap_expand(zone@, t, hi as int, step as int, cap as int),
        decreases cap - hi,
    {
        let ghost old_hi = hi as int;
        let ghost old_step = step as int;
        assert(wall_seconds(zone@, old_hi) < t);
        hi = if hi + step < cap { hi + step } else { cap };
        step = if step * 2 < 86400 { step * 2 } else { 86400 };
        w = wall_seconds_at(zone, hi);
        assert(gap_expand(zone@, t, old_hi, old_step, cap as int) == gap_expand(zone@, t, hi as int, step as int, cap as int));
    }
    let ghost wh = wall_seconds(zone@, hi as int);
    assert(wh >= t);
    while lo + 1 < hi
        invariant
            lo0 <= lo < hi <= cap,
            t == as_utc,
            lo0 == t - 86400,
            cap == t + 86400,
            epoch_representable(lo0 as int),
            epoch_representable(cap as int),
            wall_seconds(zone@, lo as int) < t <= wall_seconds(zone@, hi as int),
            gap_end(zone@, t) == gap_bisect(zone@, t, lo as int, hi as int),
        decreases hi - lo,
    {
        let mid = lo + (hi - lo) / 2;
        assert(lo < mid < hi);
        let wm = wall_seconds_at(zone, mid);
        assert(gap_bisect(zone@, t, lo as int, hi as int) == if wm >= t {
            gap_bisect(zone@, t, lo as int, mid as int)
        } else {
            gap_bisect(zone@, t, mid as int, hi as int)
        });
        if wm >= as_utc {
            hi = mid;
        } else {
            lo = mid;
        }
    }
    hi
}

/// Resolves a local wall time to 0, 1 or 2 UTC instants under the gap and fold policies.
pub fn resolve_local(zone: &Zone, local: LocalDateTime, gap: GapPolicy, fold: FoldPolicy) -> (r: Vec<ResolvedInstant>)
    requires
        local_searchable(local),
    ensures
        r@ == spec_resolve_local(zone@, local, gap, fold),
        zone_resolution(zone@, local) is Missing && gap == GapPolicy::ShiftForward ==> {
            let e = r@[0].epoch as int;
            &&& r@.len() == 1 && r@[0].side == FoldSide::Single
            &&& r@[0].shifted_by_seconds == wall_seconds(zone@, e) - local.as_utc_seconds() >= 0
            &&& wall_seconds(zone@, e - 1) < local.as_utc_seconds() <= wall_seconds(zone@, e)
            &&& local.as_utc_seconds() - 86400 < e <= local.as_utc_seconds() + 86400
        },
        forall|k: int|
            0 <= k < r@.len() ==> local.as_utc_seconds() - 86400 < #[trigger] r@[k].epoch <= local.as_utc_seconds() + 86400,
        zone_resolution(zone@, local) is Twice && fold == FoldPolicy::Both ==> r@.len() == 2 && r@[0].epoch < r@[1].epoch
            && r@[0].side == FoldSide::Early && r@[1].side == FoldSide::Late,
        zone_resolution(zone@, local) matches LocalLookup::Twice(a, b) ==> a < b && match fold {
            FoldPolicy::Early => r@.len() == 1 && r@[0].epoch == a && r@[0].side == FoldSide::Early,
            FoldPolicy::Late => r@.len() == 1 && r@[0].epoch == b && r@[0].side == FoldSide::Late,
            FoldPolicy::Both => r@.len() == 2,
        },
{
    match lookup_wall(zone, local) {
        LocalLookup::Unique(e) => {
            let mut v = Vec::new();
            v.push(ResolvedInstant { epoch: e, side: FoldSide::Single, shifted_by_seconds: 0 });
            v
        },
        LocalLookup::Missing => match gap {
            GapPolicy::Skip => Vec::new(),
            GapPolicy::ShiftForward => {
                let end = gap_end_instant(zone, local);
                let shifted = wall_seconds_at(zone, end) - wall_as_utc_seconds(local);
                let mut v = Vec::new();
                v.push(ResolvedInstant { epoch: end, side: FoldSide::Single, shifted_by_seconds: shifted });
                v
            },
        },
        LocalLookup::Twice(a, b) => {
            let early = ResolvedInstant { epoch: a, side: FoldSide::Early, shifted_by_seconds: 0 };
            let late = ResolvedInstant { epoch: b, side: FoldSide::Late, shifted_by_seconds: 0 };
            let mut v = Vec::new();
            match fold {
                FoldPolicy::Early => v.push(early),
                FoldPolicy::Late => v.push(late),
                FoldPolicy::Both => {
                    v.push(early);
                    v.push(late);
                },
            }
            v
        },
    }
}

/// An instant shown in a zone.
#[derive(Debug, Clone)]
pub struct LocalView {
    pub wall: String,
    pub offset_seconds: i32,
    pub offset_name: String,
}

/// Shows a UTC instant in a zone: wall clock text, offset and abbreviation.
pub fn view_instant(zone: &Zone, epoch: i64) -> (r: LocalView)
    requires
        epoch_representable(epoch as int),
    ensures
        r.wall@ == wall_text(zone_local_wall(zone@, epoch)),
        r.offset_seconds == zone_offset(zone@, epoch),
        r.offset_name@ == zone_abbreviation(zone@, epoch),
{
    LocalView {
        wall: wall_text_at(zone, epoch),
        offset_seconds: offset_at(zone, epoch),
        offset_name: abbreviation_at(zone, epoch),
    }
}

} // verus!
