//! Data model of rules and query direction.
//!
//! Every instant is a UTC epoch second; local wall clocks appear only when a
//! candidate is generated or an instant is shown.

use vstd::prelude::*;
use crate::text::{text_lt, text_less, text_eq};

verus! {

/// What to do with a local wall time that does not exist (a DST gap).
#[derive(Debug, Clone, Copy, PartialEq, Eq, Structural)]
pub enum GapPolicy {
    /// Drop the candidate.
    Skip,
    /// Move it to the first valid instant after the gap.
    ShiftForward,
}

/// Which occurrence of a repeated local wall time (a DST fold) to keep.
#[derive(Debug, Clone, Copy, PartialEq, Eq, Structural)]
pub enum FoldPolicy {
    /// Only the earlier occurrence (the larger UTC offset).
    Early,
    /// Only the later occurrence (the smaller UTC offset).
    Late,
    /// Both occurrences, as two distinct instants.
    Both,
}

/// Day of month: positive from 1, or negative counting from the month's end (-1 = last day).
pub type DayOfMonth = i32;

/// ISO weekday, 1 = Monday … 7 = Sunday.
pub type DayOfWeekIso = u32;

/// Inclusion by day of month.
#[derive(Debug, Clone, PartialEq, Eq)]
pub struct MonthlyRule {
    pub id: String,
    pub days_of_month: Vec<DayOfMonth>,
    /// Local wall time `[hour, minute, second]`.
    pub hms: [u32; 3],
}

/// Inclusion by day of week.
#[derive(Debug, Clone, PartialEq, Eq)]
pub struct WeeklyRule {
    pub id: String,
    pub days_of_week: Vec<DayOfWeekIso>,
    pub hms: [u32; 3],
}

/// Inclusion by named holiday sets of the rule.
#[derive(Debug, Clone, PartialEq, Eq)]
pub struct HolidayRule {
    pub id: String,
    pub holidays: Vec<String>,
    pub hms: [u32; 3],
}

/// One of the three kinds of inclusion rule.
#[derive(Debug, Clone, PartialEq, Eq)]
pub enum InclusionRule {
    Monthly(MonthlyRule),
    Weekly(WeeklyRule),
    Holiday(HolidayRule),
}

impl InclusionRule {
    pub open spec fn spec_id(&self) -> Seq<char> {
        match self {
            InclusionRule::Monthly(r) => r.id@,
            InclusionRule::Weekly(r) => r.id@,
            InclusionRule::Holiday(r) => r.id@,
        }
    }

    pub open spec fn spec_hms(&self) -> [u32; 3] {
        match self {
            InclusionRule::Monthly(r) => r.hms,
            InclusionRule::Weekly(r) => r.hms,
            InclusionRule::Holiday(r) => r.hms,
        }
    }

    /// The rule's id.
    pub fn id(&self) -> (r: &str)
        ensures
            r@ == self.spec_id(),
    {
        match self {
            InclusionRule::Monthly(r) => r.id.as_str(),
            InclusionRule::Weekly(r) => r.id.as_str(),
            InclusionRule::Holiday(r) => r.id.as_str(),
        }
    }

    /// The rule's local wall time.
    pub fn hms(&self) -> (r: [u32; 3])
        ensures
            r == self.spec_hms(),
    {
        match self {
            InclusionRule::Monthly(r) => r.hms,
            InclusionRule::Weekly(r) => r.hms,
            InclusionRule::Holiday(r) => r.hms,
        }
    }
}

/// Exclusion window: the closed interval `[start_epoch, end_epoch]` of UTC instants.
#[derive(Debug, Clone, PartialEq, Eq)]
pub struct ExclusionWindow {
    pub id: String,
    /// Included UTC epoch second.
    pub start_epoch: i64,
    /// Included UTC epoch second.
    pub end_epoch: i64,
    pub note: String,
}

/// Named holiday sets: set name -> local dates (`YYYY-MM-DD`), names kept in
/// ascending byte order without repetition, as an ordered map keeps them.
#[derive(Debug, PartialEq, Eq)]
pub struct HolidaySets {
    entries: Vec<(String, Vec<String>)>,
}

/// The view of one holiday set.
pub open spec fn holiday_entry_view(e: (String, Vec<String>)) -> (Seq<char>, Seq<Seq<char>>) {
    (e.0@, e.1@.map_values(|s: String| s@))
}

/// Names strictly ascending.
pub open spec fn names_ascending(s: Seq<(Seq<char>, Seq<Seq<char>>)>) -> bool {
    forall|i: int, j: int| 0 <= i < j < s.len() ==> text_lt(#[trigger] s[i].0, #[trigger] s[j].0)
}

/// Inserting into an ordered map: replaces the dates of an existing name,
/// otherwise adds the name in its place.
pub open spec fn holiday_insert(
    s: Seq<(Seq<char>, Seq<Seq<char>>)>,
    name: Seq<char>,
    dates: Seq<Seq<char>>,
) -> Seq<(Seq<char>, Seq<Seq<char>>)> {
    s.filter(|e: (Seq<char>, Seq<Seq<char>>)| text_lt(e.0, name)).push((name, dates)) + s.filter(
        |e: (Seq<char>, Seq<Seq<char>>)| text_lt(name, e.0),
    )
}

impl View for HolidaySets {
    type V = Seq<(Seq<char>, Seq<Seq<char>>)>;

    closed spec fn view(&self) -> Seq<(Seq<char>, Seq<Seq<char>>)> {
        self.entries@.map_values(|e: (String, Vec<String>)| holiday_entry_view(e))
    }
}

impl HolidaySets {
    #[verifier::type_invariant]
    closed spec fn inv(self) -> bool {
        names_ascending(self@)
    }

    /// An empty collection.
    pub fn new() -> (r: Self)
        ensures
            r@ == Seq::<(Seq<char>, Seq<Seq<char>>)>::empty(),
    {
        let r = HolidaySets { entries: Vec::new() };
        assert(r@ =~= Seq::<(Seq<char>, Seq<Seq<char>>)>::empty());
        r
    }

    /// Number of sets.
    pub fn len(&self) -> (n: usize)
        ensures
            n == self@.len(),
            names_ascending(self@),
    {
        proof {
            use_type_invariant(self);
        }
        self.entries.len()
    }

    /// The `i`-th set in name order.
    pub fn entry(&self, i: usize) -> (r: (&String, &Vec<String>))
        requires
            i < self@.len(),
        ensures
            r.0@ == self@[i as int].0,
            r.1@.map_values(|s: String| s@) == self@[i as int].1,
    {
        let e = &self.entries[i];
        (&e.0, &e.1)
    }

    /// Inserts or replaces a set.
    pub fn insert(&mut self, name: String, dates: Vec<String>)
        ensures
            final(self)@ == holiday_insert(
                old(self)@,
                name@,
                dates@.map_values(|s: String| s@),
            ),
    {
        proof {
            use_type_invariant(&*self);
        }
        let ghost old_view = self@;
        let ghost dv = dates@.map_values(|s: String| s@);
        let mut entries = Vec::new();
        std::mem::swap(&mut entries, &mut self.entries);
        let n = entries.len();
        let mut i: usize = 0;
        while i < n && text_less(entries[i].0.as_str(), name.as_str())
            invariant
                n == entries.len(),
                i <= n,
                entries@.map_values(|e: (String, Vec<String>)| holiday_entry_view(e)) == old_view,
                names_ascending(old_view),
                forall|k: int| 0 <= k < i ==> text_lt(#[trigger] old_view[k].0, name@),
            decreases n - i,
        {
            i = i + 1;
        }
        let replace = i < n && text_eq(entries[i].0.as_str(), name.as_str());
        let ghost nv = name@;
        proof {
            crate::text::lemma_text_lt_facts();
            assert forall|k: int| i <= k < n implies !text_lt(#[trigger] old_view[k].0, nv) by {
                if k > i {
                    assert(text_lt(old_view[i as int].0, old_view[k].0));
                }
            }
            let lo = old_view.filter(|e: (Seq<char>, Seq<Seq<char>>)| text_lt(e.0, nv));
            crate::seq_facts::lemma_filter_prefix(old_view, |e: (Seq<char>, Seq<Seq<char>>)| text_lt(e.0, nv), i as int);
            let start = if replace { i + 1 } else { i as int };
            assert forall|k: int| start <= k < n implies text_lt(nv, #[trigger] old_view[k].0) by {
                if replace {
                    assert(text_lt(old_view[i as int].0, old_view[k].0));
                } else {
                    if k > i {
                        assert(text_lt(old_view[i as int].0, old_view[k].0));
                    }
                }
            }
            assert forall|k: int| 0 <= k < start implies !text_lt(nv, #[trigger] old_view[k].0) by {
                if k < i {
                    assert(text_lt(old_view[k].0, nv));
                }
            }
            crate::seq_facts::lemma_filter_suffix(old_view, |e: (Seq<char>, Seq<Seq<char>>)| text_lt(nv, e.0), start);
        }
        let mut tail = entries.split_off(i);
        if replace {
            tail.remove(0);
        }
        entries.push((name, dates));
        entries.append(&mut tail);
        proof {
            let start = if replace { i + 1 } else { i as int };
            let nview = entries@.map_values(|e: (String, Vec<String>)| holiday_entry_view(e));
            assert(nview =~= old_view.take(i as int).push((nv, dv)) + old_view.skip(start));
            assert(nview =~= holiday_insert(old_view, nv, dv));
            crate::text::lemma_text_lt_facts();
            assert forall|a: int, b: int| 0 <= a < b < nview.len() implies text_lt(
                #[trigger] nview[a].0,
                #[trigger] nview[b].0,
            ) by {
                if b < i {
                } else if b == i {
                } else if a < i {
                    assert(text_lt(old_view[a].0, nv));
                    assert(nview[b] == old_view[start + (b - i - 1)]);
                } else if a == i {
                    assert(nview[b] == old_view[start + (b - i - 1)]);
                } else {
                    assert(nview[a] == old_view[start + (a - i - 1)]);
                    assert(nview[b] == old_view[start + (b - i - 1)]);
                }
            }
        }
        self.entries = entries;
    }

    /// The dates of the set called `name`, if there is one.
    pub fn get(&self, name: &str) -> (r: Option<&Vec<String>>)
        ensures
            r matches Some(v) ==> exists|k: int|
                0 <= k < self@.len() && self@[k].0 == name@ && v@.map_values(|s: String| s@)
                    == self@[k].1,
            r is None <==> forall|k: int| 0 <= k < self@.len() ==> self@[k].0 != name@,
    {
        let n = self.entries.len();
        let mut i: usize = 0;
        while i < n
            invariant
                n == self@.len(),
                i <= n,
                forall|k: int| 0 <= k < i ==> self@[k].0 != name@,
            decreases n - i,
        {
            assert(self@[i as int] == holiday_entry_view(self.entries@[i as int]));
            if text_eq(self.entries[i].0.as_str(), name) {
                assert(self@[i as int] == holiday_entry_view(self.entries@[i as int]));
                return Some(&self.entries[i].1);
            }
            i = i + 1;
        }
        None
    }
}

impl Clone for HolidaySets {
    fn clone(&self) -> (r: Self)
        ensures
            r@ == self@,
    {
        proof {
            use_type_invariant(self);
        }
        let mut entries: Vec<(String, Vec<String>)> = Vec::new();
        let n = self.entries.len();
        let mut i: usize = 0;
        while i < n
            invariant
                n == self.entries@.len(),
                i <= n,
                entries@.len() == i,
                forall|k: int|
                    0 <= k < i ==> holiday_entry_view(#[trigger] entries@[k]) == holiday_entry_view(
                        self.entries@[k],
                    ),
            decreases n - i,
        {
            let name = self.entries[i].0.clone();
            let dates = self.entries[i].1.clone();
            proof {
                assert(dates@.map_values(|s: String| s@) =~= self.entries@[i as int].1@.map_values(
                    |s: String| s@,
                ));
            }
            entries.push((name, dates));
            i = i + 1;
        }
        proof {
            assert(entries@.map_values(|e: (String, Vec<String>)| holiday_entry_view(e))
                =~= self.entries@.map_values(|e: (String, Vec<String>)| holiday_entry_view(e)));
        }
        HolidaySets { entries }
    }
}

/// A versioned periodic rule.
#[derive(Debug, Clone, PartialEq, Eq)]
pub struct RuleVersion {
    pub rule_id: String,
    /// Human-readable version; the fingerprint covers every field.
    pub version: u32,
    /// IANA zone name such as `America/New_York`.
    pub timezone: String,
    /// Start of the closed interval (UTC epoch second, included).
    pub start_epoch: i64,
    /// End of the closed interval (UTC epoch second, included).
    pub end_epoch: i64,
    /// Holiday sets: name -> local dates in the rule's zone.
    pub holidays: HolidaySets,
    pub inclusions: Vec<InclusionRule>,
    pub exclusions: Vec<ExclusionWindow>,
    /// Minimum spacing in seconds between accepted instants (effective when > 0).
    pub min_gap_seconds: i64,
    pub gap_policy: GapPolicy,
    pub fold_policy: FoldPolicy,
}

/// Query direction.
#[derive(Debug, Clone, Copy, PartialEq, Eq, Structural)]
pub enum Direction {
    Forward,
    Backward,
}

} // verus!
