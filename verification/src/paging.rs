//! What holds of the verdict sequence as a whole, and of walking through it
//! page by page in either direction.

use vstd::prelude::*;
use crate::engine::{
    first_n, groups_of, all_candidates, sorted_epochs, lemma_groups_in_range, model_beyond,
    page_models, spec_evaluate, verdict_fold, VerdictModel, VerdictKind, make_verdict,
    normalize_sources, first_exclusion, ProvenanceModel, sort_sources, dedup_sources, same_source,
    source_le, sources_sorted, insert_source, lemma_sort_sources_sorted, lemma_sorted_epochs,
    group_sources, at_instant, candidate_source,
};
use crate::model::ExclusionWindow;
use crate::model::{Direction, RuleVersion};
use crate::seq_facts::{lemma_filter_all, lemma_filter_prefix, lemma_filter_suffix};

verus! {

/// Verdict epochs strictly ascend.
pub open spec fn epochs_ascending(ms: Seq<VerdictModel>) -> bool {
    forall|i: int, j: int| 0 <= i < j < ms.len() ==> #[trigger] ms[i].epoch < #[trigger] ms[j].epoch
}

proof fn lemma_fold_epochs(rule: RuleVersion, groups: Seq<(i64, Seq<ProvenanceModel>)>, last: Option<i64>)
    ensures
        verdict_fold(rule, groups, last).len() == groups.len(),
        forall|k: int| 0 <= k < groups.len() ==> #[trigger] verdict_fold(rule, groups, last)[k].epoch == groups[k].0,
    decreases groups.len(),
{
    if groups.len() > 0 {
        let (e, raw) = groups[0];
        let v = make_verdict(rule, e, normalize_sources(raw), last);
        let next = if v.kind == VerdictKind::Accepted { Some(e) } else { last };
        lemma_fold_epochs(rule, groups.drop_first(), next);
        assert forall|k: int| 0 <= k < groups.len() implies #[trigger] verdict_fold(rule, groups, last)[k].epoch == groups[k].0 by {
            if k > 0 {
                assert(verdict_fold(rule, groups, last)[k] == verdict_fold(rule, groups.drop_first(), next)[k - 1]);
            }
        }
    }
}

/// Each instant of a rule's verdict sequence appears once, in ascending
/// order, and lies inside the rule's closed interval.
pub proof fn lemma_verdicts_in_interval(rule: RuleVersion)
    ensures
        epochs_ascending(spec_evaluate(rule)),
        forall|k: int|
            0 <= k < spec_evaluate(rule).len() ==> rule.start_epoch <= #[trigger] spec_evaluate(rule)[k].epoch
                <= rule.end_epoch,
{
    let c = all_candidates(rule);
    let g = groups_of(c);
    lemma_groups_in_range(rule);
    lemma_fold_epochs(rule, g, None);
    let ms = spec_evaluate(rule);
    assert forall|i: int, j: int| 0 <= i < j < ms.len() implies #[trigger] ms[i].epoch < #[trigger] ms[j].epoch by {
        assert(ms[i].epoch == g[i].0 && ms[j].epoch == g[j].0);
        assert(g[i].0 == sorted_epochs(c)[i] && g[j].0 == sorted_epochs(c)[j]);
    }
    assert forall|k: int| 0 <= k < ms.len() implies rule.start_epoch <= #[trigger] ms[k].epoch <= rule.end_epoch by {
        assert(ms[k].epoch == g[k].0);
    }
}

// ------------------------------------------------------------ walking pages

/// Every page forward from `anchor`, each starting after the last instant
/// of the one before, until a page comes back empty (at most `fuel` more pages).
pub open spec fn forward_pages(ms: Seq<VerdictModel>, anchor: Option<i64>, limit: int, fuel: nat) -> Seq<VerdictModel>
    decreases fuel,
{
    let p = page_models(ms, Direction::Forward, anchor, limit);
    if fuel == 0 || p.len() == 0 {
        p
    } else {
        p + forward_pages(ms, Some(p.last().epoch), limit, (fuel - 1) as nat)
    }
}

/// Every page backward from `anchor`, each starting before the last instant
/// of the one before, until a page comes back empty (at most `fuel` more pages).
pub open spec fn backward_pages(ms: Seq<VerdictModel>, anchor: Option<i64>, limit: int, fuel: nat) -> Seq<VerdictModel>
    decreases fuel,
{
    let p = page_models(ms, Direction::Backward, anchor, limit);
    if fuel == 0 || p.len() == 0 {
        p
    } else {
        p + backward_pages(ms, Some(p.last().epoch), limit, (fuel - 1) as nat)
    }
}

proof fn lemma_forward_filter(ms: Seq<VerdictModel>, anchor: Option<i64>, k: int)
    requires
        epochs_ascending(ms),
        0 <= k <= ms.len(),
        anchor is None ==> k == 0,
        anchor matches Some(a) ==> k > 0 && a == ms[k - 1].epoch,
    ensures
        ms.filter(|m: VerdictModel| model_beyond(m, Direction::Forward, anchor)) == ms.skip(k),
{
    let p = |m: VerdictModel| model_beyond(m, Direction::Forward, anchor);
    match anchor {
        None => {
            lemma_filter_all(ms, p);
            assert(ms.skip(0) =~= ms);
        },
        Some(a) => {
            assert forall|i: int| 0 <= i < k implies !p(#[trigger] ms[i]) by {
                if i < k - 1 {
                    assert(ms[i].epoch < ms[k - 1].epoch);
                }
            }
            assert forall|i: int| k <= i < ms.len() implies p(#[trigger] ms[i]) by {
                assert(ms[k - 1].epoch < ms[i].epoch);
            }
            lemma_filter_suffix(ms, p, k);
        },
    }
}

proof fn lemma_backward_filter(ms: Seq<VerdictModel>, anchor: Option<i64>, j: int)
    requires
        epochs_ascending(ms),
        0 <= j <= ms.len(),
        anchor is None ==> j == ms.len(),
        anchor matches Some(a) ==> j < ms.len() && a == ms[j].epoch,
    ensures
        ms.filter(|m: VerdictModel| model_beyond(m, Direction::Backward, anchor)) == ms.take(j),
{
    let p = |m: VerdictModel| model_beyond(m, Direction::Backward, anchor);
    match anchor {
        None => {
            lemma_filter_all(ms, p);
            assert(ms.take(ms.len() as int) =~= ms);
        },
        Some(a) => {
            assert forall|i: int| 0 <= i < j implies p(#[trigger] ms[i]) by {
                assert(ms[i].epoch < ms[j].epoch);
            }
            assert forall|i: int| j <= i < ms.len() implies !p(#[trigger] ms[i]) by {
                if i > j {
                    assert(ms[j].epoch < ms[i].epoch);
                }
            }
            lemma_filter_prefix(ms, p, j);
        },
    }
}

proof fn lemma_forward_walk(ms: Seq<VerdictModel>, anchor: Option<i64>, k: int, limit: int, fuel: nat)
    requires
        epochs_ascending(ms),
        limit >= 1,
        0 <= k <= ms.len(),
        anchor is None ==> k == 0,
        anchor matches Some(a) ==> k > 0 && a == ms[k - 1].epoch,
        fuel >= ms.len() - k,
    ensures
        forward_pages(ms, anchor, limit, fuel) == ms.skip(k),
    decreases ms.len() - k,
{
    lemma_forward_filter(ms, anchor, k);
    let rest = ms.skip(k);
    let p = page_models(ms, Direction::Forward, anchor, limit);
    assert(p == first_n(rest, limit));
    if k == ms.len() {
        assert(rest.len() == 0);
        assert(p =~= rest);
    } else {
        let m = if limit < rest.len() { limit } else { rest.len() as int };
        assert(p =~= ms.subrange(k, k + m));
        assert(p.last() == ms[k + m - 1]);
        lemma_forward_walk(ms, Some(ms[k + m - 1].epoch), k + m, limit, (fuel - 1) as nat);
        assert(p + ms.skip(k + m) =~= rest);
    }
}

proof fn lemma_backward_walk(ms: Seq<VerdictModel>, anchor: Option<i64>, j: int, limit: int, fuel: nat)
    requires
        epochs_ascending(ms),
        limit >= 1,
        0 <= j <= ms.len(),
        anchor is None ==> j == ms.len(),
        anchor matches Some(a) ==> j < ms.len() && a == ms[j].epoch,
        fuel >= j,
    ensures
        backward_pages(ms, anchor, limit, fuel) == ms.take(j).reverse(),
    decreases j,
{
    lemma_backward_filter(ms, anchor, j);
    let front = ms.take(j).reverse();
    let p = page_models(ms, Direction::Backward, anchor, limit);
    assert(p == first_n(front, limit));
    if j == 0 {
        assert(front.len() == 0);
        assert(p =~= front);
    } else {
        let m = if limit < j { limit } else { j };
        assert(p =~= front.take(m));
        assert(p.last() == ms[j - m]);
        lemma_backward_walk(ms, Some(ms[j - m].epoch), j - m, limit, (fuel - 1) as nat);
        assert(front.take(m) + ms.take(j - m).reverse() =~= front);
    }
}

/// Walking forward page by page from the start of the interval returns
/// the whole verdict sequence; walking backward from its end returns it in
/// reverse. So the two directions mirror each other, for every page size.
pub proof fn lemma_pages_mirror(ms: Seq<VerdictModel>, limit: int)
    requires
        epochs_ascending(ms),
        limit >= 1,
    ensures
        forward_pages(ms, None, limit, ms.len()) == ms,
        backward_pages(ms, None, limit, ms.len()) == ms.reverse(),
        backward_pages(ms, None, limit, ms.len()).reverse() == forward_pages(ms, None, limit, ms.len()),
{
    lemma_forward_walk(ms, None, 0, limit, ms.len());
    assert(ms.skip(0) =~= ms);
    lemma_backward_walk(ms, None, ms.len() as int, limit, ms.len());
    assert(ms.take(ms.len() as int) =~= ms);
    assert(ms.reverse().reverse() =~= ms);
}

/// For a rule's verdicts: paging forward and paging backward over the
/// closed interval give mirror-image sequences, for every page size.
pub proof fn lemma_rule_pages_mirror(rule: RuleVersion, limit: int)
    requires
        limit >= 1,
    ensures
        forward_pages(spec_evaluate(rule), None, limit, spec_evaluate(rule).len()) == spec_evaluate(rule),
        backward_pages(spec_evaluate(rule), None, limit, spec_evaluate(rule).len()).reverse()
            == spec_evaluate(rule),
{
    lemma_verdicts_in_interval(rule);
    lemma_pages_mirror(spec_evaluate(rule), limit);
}

// ------------------------------------------------------------ decisions

/// The instant of the last accepted verdict before index `j`, or `init`
/// when none before `j` was accepted.
pub open spec fn prior_accepted(ms: Seq<VerdictModel>, j: int, init: Option<i64>) -> Option<i64>
    decreases j,
{
    if j <= 0 {
        init
    } else if ms[j - 1].kind == VerdictKind::Accepted {
        Some(ms[j - 1].epoch)
    } else {
        prior_accepted(ms, j - 1, init)
    }
}

proof fn lemma_prior_shift(v0: VerdictModel, rest: Seq<VerdictModel>, j: int, init: Option<i64>)
    requires
        1 <= j <= rest.len() + 1,
    ensures
        prior_accepted(seq![v0] + rest, j, init) == prior_accepted(
            rest,
            j - 1,
            if v0.kind == VerdictKind::Accepted { Some(v0.epoch) } else { init },
        ),
    decreases j,
{
    let s = seq![v0] + rest;
    let next = if v0.kind == VerdictKind::Accepted { Some(v0.epoch) } else { init };
    if j > 1 {
        lemma_prior_shift(v0, rest, j - 1, init);
        assert(s[j - 1] == rest[j - 2]);
        assert(prior_accepted(s, j, init) == if s[j - 1].kind == VerdictKind::Accepted {
            Some(s[j - 1].epoch)
        } else {
            prior_accepted(s, j - 1, init)
        });
        assert(prior_accepted(rest, j - 1, next) == if rest[j - 2].kind == VerdictKind::Accepted {
            Some(rest[j - 2].epoch)
        } else {
            prior_accepted(rest, j - 2, next)
        });
    } else {
        assert(s[0] == v0);
        assert(prior_accepted(s, 1, init) == if s[0].kind == VerdictKind::Accepted {
            Some(s[0].epoch)
        } else {
            prior_accepted(s, 0, init)
        });
        assert(prior_accepted(rest, 0, next) == next);
    }
}

proof fn lemma_fold_decisions(rule: RuleVersion, groups: Seq<(i64, Seq<ProvenanceModel>)>, last: Option<i64>)
    ensures
        verdict_fold(rule, groups, last).len() == groups.len(),
        forall|j: int|
            0 <= j < groups.len() ==> #[trigger] verdict_fold(rule, groups, last)[j] == make_verdict(
                rule,
                groups[j].0,
                normalize_sources(groups[j].1),
                prior_accepted(verdict_fold(rule, groups, last), j, last),
            ),
    decreases groups.len(),
{
    if groups.len() > 0 {
        let r = verdict_fold(rule, groups, last);
        let (e, raw) = groups[0];
        let v = make_verdict(rule, e, normalize_sources(raw), last);
        let next = if v.kind == VerdictKind::Accepted { Some(e) } else { last };
        let rest = verdict_fold(rule, groups.drop_first(), next);
        lemma_fold_decisions(rule, groups.drop_first(), next);
        assert(r == seq![v] + rest);
        assert forall|j: int| 0 <= j < groups.len() implies #[trigger] r[j] == make_verdict(
            rule,
            groups[j].0,
            normalize_sources(groups[j].1),
            prior_accepted(r, j, last),
        ) by {
            if j > 0 {
                lemma_prior_shift(v, rest, j, last);
                assert(r[j] == rest[j - 1]);
                assert(groups.drop_first()[j - 1] == groups[j]);
            }
        }
    }
}

/// Each verdict of a rule is decided from its own instant and sources and
/// from the last instant accepted before it: the minimum gap is measured
/// greedily from the start of the interval.
pub proof fn lemma_verdict_decisions(rule: RuleVersion)
    ensures
        forall|j: int|
            0 <= j < spec_evaluate(rule).len() ==> #[trigger] spec_evaluate(rule)[j] == make_verdict(
                rule,
                spec_evaluate(rule)[j].epoch,
                spec_evaluate(rule)[j].sources,
                prior_accepted(spec_evaluate(rule), j, None),
            ),
{
    let g = groups_of(all_candidates(rule));
    lemma_fold_decisions(rule, g, None);
}

/// Whether an exclusion window holds an instant (both endpoints included).
pub open spec fn window_holds(exs: Seq<ExclusionWindow>, e: i64) -> bool {
    exists|w: int| 0 <= w < exs.len() && #[trigger] exs[w].start_epoch <= e <= exs[w].end_epoch
}

proof fn lemma_first_exclusion(exs: Seq<ExclusionWindow>, e: i64, i: int)
    requires
        0 <= i <= exs.len(),
    ensures
        first_exclusion(exs, e, i) is Some <==> exists|w: int|
            i <= w < exs.len() && #[trigger] exs[w].start_epoch <= e <= exs[w].end_epoch,
    decreases exs.len() - i,
{
    if i < exs.len() {
        lemma_first_exclusion(exs, e, i + 1);
    }
}

proof fn lemma_kind_of(rule: RuleVersion, m: VerdictModel, prior: Option<i64>)
    requires
        m == make_verdict(rule, m.epoch, m.sources, prior),
    ensures
        m.kind == VerdictKind::Excluded <==> window_holds(rule.exclusions@, m.epoch),
        m.kind == VerdictKind::TooSoon <==> (!window_holds(rule.exclusions@, m.epoch) && rule.min_gap_seconds > 0
            && too_close(prior, m.epoch, rule.min_gap_seconds)),
        m.kind == VerdictKind::Accepted && rule.min_gap_seconds > 0 ==> !too_close(prior, m.epoch, rule.min_gap_seconds),
{
    lemma_first_exclusion(rule.exclusions@, m.epoch, 0);
}

/// A verdict is `Excluded` exactly when an exclusion window holds its
/// instant, endpoints included; instants are compared, not wall-clock text.
pub proof fn lemma_excluded_iff_window(rule: RuleVersion)
    ensures
        forall|j: int|
            0 <= j < spec_evaluate(rule).len() ==> (#[trigger] spec_evaluate(rule)[j].kind == VerdictKind::Excluded
                <==> window_holds(rule.exclusions@, spec_evaluate(rule)[j].epoch)),
{
    lemma_verdict_decisions(rule);
    let ms = spec_evaluate(rule);
    assert forall|j: int| 0 <= j < ms.len() implies (#[trigger] ms[j].kind == VerdictKind::Excluded
        <==> window_holds(rule.exclusions@, ms[j].epoch)) by {
        assert(ms[j] == make_verdict(rule, ms[j].epoch, ms[j].sources, prior_accepted(ms, j, None)));
        lemma_kind_of(rule, ms[j], prior_accepted(ms, j, None));
    }
}

proof fn lemma_prior_after(ms: Seq<VerdictModel>, i: int, j: int, init: Option<i64>)
    requires
        epochs_ascending(ms),
        0 <= i < j <= ms.len(),
        ms[i].kind == VerdictKind::Accepted,
    ensures
        prior_accepted(ms, j, init) matches Some(q) && q >= ms[i].epoch,
    decreases j,
{
    if j - 1 > i && ms[j - 1].kind != VerdictKind::Accepted {
        lemma_prior_after(ms, i, j - 1, init);
    } else if j - 1 > i {
        assert(ms[i].epoch < ms[j - 1].epoch);
    }
}

/// Whether an instant follows the prior accepted one by less than `gap`.
pub open spec fn too_close(prior: Option<i64>, e: i64, gap: i64) -> bool {
    match prior {
        Some(p) => e - p < gap,
        None => false,
    }
}

/// The minimum gap: an instant outside every exclusion window is too soon
/// exactly when the gap is positive and the last accepted instant before it
/// is less than the gap away; any two accepted instants are at least the
/// gap apart.
pub proof fn lemma_min_gap(rule: RuleVersion)
    ensures
        forall|j: int|
            0 <= j < spec_evaluate(rule).len() ==> (#[trigger] spec_evaluate(rule)[j].kind == VerdictKind::TooSoon
                <==> (!window_holds(rule.exclusions@, spec_evaluate(rule)[j].epoch) && rule.min_gap_seconds > 0
                && too_close(prior_accepted(spec_evaluate(rule), j, None), spec_evaluate(rule)[j].epoch,
                rule.min_gap_seconds))),
        forall|i: int, j: int|
            0 <= i < j < spec_evaluate(rule).len() && #[trigger] spec_evaluate(rule)[i].kind == VerdictKind::Accepted
                && #[trigger] spec_evaluate(rule)[j].kind == VerdictKind::Accepted ==> spec_evaluate(rule)[j].epoch
                - spec_evaluate(rule)[i].epoch >= rule.min_gap_seconds,
{
    lemma_verdict_decisions(rule);
    lemma_verdicts_in_interval(rule);
    let ms = spec_evaluate(rule);
    assert forall|j: int| 0 <= j < ms.len() implies (#[trigger] ms[j].kind == VerdictKind::TooSoon
        <==> (!window_holds(rule.exclusions@, ms[j].epoch) && rule.min_gap_seconds > 0
        && too_close(prior_accepted(ms, j, None), ms[j].epoch, rule.min_gap_seconds))) by {
        assert(ms[j] == make_verdict(rule, ms[j].epoch, ms[j].sources, prior_accepted(ms, j, None)));
        lemma_kind_of(rule, ms[j], prior_accepted(ms, j, None));
    }
    assert forall|i: int, j: int|
        0 <= i < j < ms.len() && #[trigger] ms[i].kind == VerdictKind::Accepted && #[trigger] ms[j].kind
            == VerdictKind::Accepted implies ms[j].epoch - ms[i].epoch >= rule.min_gap_seconds by {
        assert(ms[j] == make_verdict(rule, ms[j].epoch, ms[j].sources, prior_accepted(ms, j, None)));
        lemma_kind_of(rule, ms[j], prior_accepted(ms, j, None));
        lemma_prior_after(ms, i, j, None);
        assert(ms[i].epoch < ms[j].epoch);
    }
}

// ------------------------------------------------------------ merged sources

proof fn lemma_sort_same_elements(s: Seq<ProvenanceModel>)
    ensures
        forall|x: ProvenanceModel| sort_sources(s).contains(x) <==> s.contains(x),
    decreases s.len(),
{
    if s.len() > 0 {
        let t = sort_sources(s.drop_last());
        let x = s.last();
        lemma_sort_same_elements(s.drop_last());
        let p = |y: ProvenanceModel| source_le(y, x);
        let q = |y: ProvenanceModel| !source_le(y, x);
        let ins = insert_source(t, x);
        assert(ins == t.filter(p).push(x) + t.filter(q));
        assert forall|y: ProvenanceModel| ins.contains(y) <==> s.contains(y) by {
            if ins.contains(y) {
                let k = choose|k: int| 0 <= k < ins.len() && ins[k] == y;
                let a = t.filter(p).push(x);
                if k < a.len() {
                    if k < a.len() - 1 {
                        assert(t.filter(p).contains(y)) by {
                            assert(t.filter(p)[k] == y);
                        }
                        t.lemma_filter_contains_rev(p, y);
                    } else {
                        assert(y == x);
                        assert(s[s.len() - 1] == y);
                    }
                } else {
                    assert(t.filter(q).contains(y)) by {
                        assert(t.filter(q)[k - a.len()] == y);
                    }
                    t.lemma_filter_contains_rev(q, y);
                }
                if y != x {
                    assert(s.drop_last().contains(y));
                    let m = choose|m: int| 0 <= m < s.drop_last().len() && s.drop_last()[m] == y;
                    assert(s[m] == y);
                }
            }
            if s.contains(y) {
                let m = choose|m: int| 0 <= m < s.len() && s[m] == y;
                if m == s.len() - 1 {
                    let a = t.filter(p).push(x);
                    assert(ins[a.len() - 1] == y);
                } else {
                    assert(s.drop_last()[m] == y);
                    assert(s.drop_last().contains(y));
                    assert(t.contains(y));
                    let k = choose|k: int| 0 <= k < t.len() && t[k] == y;
                    let a = t.filter(p).push(x);
                    if p(t[k]) {
                        t.lemma_filter_contains(p, k);
                        let i = choose|i: int| 0 <= i < t.filter(p).len() && t.filter(p)[i] == y;
                        assert(ins[i] == y);
                    } else {
                        t.lemma_filter_contains(q, k);
                        let i = choose|i: int| 0 <= i < t.filter(q).len() && t.filter(q)[i] == y;
                        assert(ins[a.len() + i] == y);
                    }
                }
            }
        }
    }
}

/// No two neighbouring sources are the same source.
pub open spec fn no_adjacent_repeats(s: Seq<ProvenanceModel>) -> bool {
    forall|k: int| 0 <= k < s.len() - 1 ==> !same_source(#[trigger] s[k], s[k + 1])
}

proof fn lemma_dedup_subset(s: Seq<ProvenanceModel>)
    ensures
        forall|k: int| 0 <= k < dedup_sources(s).len() ==> s.contains(#[trigger] dedup_sources(s)[k]),
        s.len() > 0 ==> dedup_sources(s).len() > 0,
    decreases s.len(),
{
    if s.len() > 1 {
        let t = s.drop_last();
        let d = dedup_sources(t);
        lemma_dedup_subset(t);
        let r = dedup_sources(s);
        assert forall|k: int| 0 <= k < r.len() implies s.contains(#[trigger] r[k]) by {
            if k < d.len() {
                assert(r[k] == d[k]);
                assert(t.contains(d[k]));
                let m = choose|m: int| 0 <= m < t.len() && t[m] == d[k];
                assert(s[m] == d[k]);
            } else {
                assert(s[s.len() - 1] == r[k]);
            }
        }
    } else if s.len() == 1 {
        assert(s[0] == dedup_sources(s)[0]);
    }
}

proof fn lemma_dedup_covers(s: Seq<ProvenanceModel>)
    ensures
        forall|m: int| 0 <= m < s.len() ==> exists|k: int|
            0 <= k < dedup_sources(s).len() && same_source(#[trigger] dedup_sources(s)[k], #[trigger] s[m]),
    decreases s.len(),
{
    if s.len() > 1 {
        let t = s.drop_last();
        let d = dedup_sources(t);
        lemma_dedup_covers(t);
        lemma_dedup_subset(t);
        let x = s.last();
        let r = dedup_sources(s);
        assert forall|m: int| 0 <= m < s.len() implies exists|k: int|
            0 <= k < r.len() && same_source(#[trigger] r[k], #[trigger] s[m]) by {
            if m < s.len() - 1 {
                assert(t[m] == s[m]);
                let k = choose|k: int| 0 <= k < d.len() && same_source(#[trigger] d[k], #[trigger] t[m]);
                assert(r[k] == d[k]);
            } else if same_source(d.last(), x) {
                assert(r[d.len() - 1] == d.last());
            } else {
                assert(r[r.len() - 1] == x);
            }
        }
    } else if s.len() == 1 {
        assert(dedup_sources(s)[0] == s[0]);
    }
}

proof fn lemma_dedup_sorted(s: Seq<ProvenanceModel>)
    requires
        sources_sorted(s),
    ensures
        sources_sorted(dedup_sources(s)),
        no_adjacent_repeats(dedup_sources(s)),
    decreases s.len(),
{
    if s.len() > 1 {
        let t = s.drop_last();
        let d = dedup_sources(t);
        assert(sources_sorted(t));
        lemma_dedup_sorted(t);
        lemma_dedup_subset(t);
        let x = s.last();
        let r = dedup_sources(s);
        assert forall|i: int, j: int| 0 <= i < j < r.len() implies source_le(#[trigger] r[i], #[trigger] r[j]) by {
            if j < d.len() {
                assert(r[i] == d[i] && r[j] == d[j]);
            } else {
                assert(r[i] == d[i]);
                assert(t.contains(d[i]));
                let m = choose|m: int| 0 <= m < t.len() && t[m] == d[i];
                assert(s[m] == d[i]);
            }
        }
        assert forall|k: int| 0 <= k < r.len() - 1 implies !same_source(#[trigger] r[k], r[k + 1]) by {
            if k + 1 < d.len() {
                assert(r[k] == d[k] && r[k + 1] == d[k + 1]);
            } else {
                assert(r[k] == d.last());
            }
        }
    }
}

/// Whether the candidates of a rule hold `(e, p)`.
pub open spec fn candidate_at(rule: RuleVersion, e: i64, p: ProvenanceModel) -> bool {
    exists|i: int| 0 <= i < all_candidates(rule).len() && #[trigger] all_candidates(rule)[i] == (e, p)
}

proof fn lemma_group_members(c: Seq<(i64, ProvenanceModel)>, e: i64)
    ensures
        forall|p: ProvenanceModel| group_sources(c, e).contains(p) <==> exists|i: int|
            0 <= i < c.len() && #[trigger] c[i] == (e, p),
{
    let f = c.filter(at_instant(e));
    let g = group_sources(c, e);
    assert(g == f.map_values(candidate_source()));
    assert forall|p: ProvenanceModel| g.contains(p) <==> exists|i: int| 0 <= i < c.len() && #[trigger] c[i] == (e, p) by {
        if g.contains(p) {
            let k = choose|k: int| 0 <= k < g.len() && g[k] == p;
            c.lemma_filter_pred(at_instant(e), k);
            assert(f.contains(f[k]));
            c.lemma_filter_contains_rev(at_instant(e), f[k]);
            let i = choose|i: int| 0 <= i < c.len() && c[i] == f[k];
            assert(c[i] == (e, p));
        }
        if exists|i: int| 0 <= i < c.len() && #[trigger] c[i] == (e, p) {
            let i = choose|i: int| 0 <= i < c.len() && #[trigger] c[i] == (e, p);
            assert(at_instant(e)(c[i]));
            c.lemma_filter_contains(at_instant(e), i);
            let k = choose|k: int| 0 <= k < f.len() && f[k] == c[i];
            assert(g[k] == p);
        }
    }
}

proof fn lemma_verdict_sources(rule: RuleVersion, j: int)
    requires
        0 <= j < spec_evaluate(rule).len(),
    ensures
        sources_sorted(spec_evaluate(rule)[j].sources),
        no_adjacent_repeats(spec_evaluate(rule)[j].sources),
        spec_evaluate(rule)[j].sources.len() > 0,
        forall|k: int|
            0 <= k < spec_evaluate(rule)[j].sources.len() ==> candidate_at(
                rule,
                spec_evaluate(rule)[j].epoch,
                #[trigger] spec_evaluate(rule)[j].sources[k],
            ),
{
    let c = all_candidates(rule);
    let g = groups_of(c);
    let ms = spec_evaluate(rule);
    lemma_fold_decisions(rule, g, None);
    lemma_sorted_epochs(c);
    let e = g[j].0;
    let raw = g[j].1;
    assert(e == sorted_epochs(c)[j]);
    assert(raw == group_sources(c, e));
    assert(ms[j] == make_verdict(rule, e, normalize_sources(raw), prior_accepted(ms, j, None)));
    let sorted = sort_sources(raw);
    lemma_sort_sources_sorted(raw);
    lemma_sort_same_elements(raw);
    lemma_dedup_subset(sorted);
    lemma_dedup_sorted(sorted);
    lemma_group_members(c, e);
    assert(sorted_epochs(c).contains(e));
    let i0 = choose|i: int| 0 <= i < c.len() && c[i].0 == e;
    assert(c[i0] == (e, c[i0].1));
    assert(raw.contains(c[i0].1));
    assert(sorted.contains(c[i0].1));
    assert forall|k: int| 0 <= k < ms[j].sources.len() implies candidate_at(rule, ms[j].epoch, #[trigger] ms[j].sources[k]) by {
        let x = ms[j].sources[k];
        assert(sorted.contains(x));
        assert(raw.contains(x));
        let i = choose|i: int| 0 <= i < c.len() && #[trigger] c[i] == (e, x);
    }
}

proof fn lemma_candidate_kept(rule: RuleVersion, i: int)
    requires
        0 <= i < all_candidates(rule).len(),
    ensures
        exists|j: int, k: int|
            0 <= j < spec_evaluate(rule).len() && 0 <= k < spec_evaluate(rule)[j].sources.len()
                && spec_evaluate(rule)[j].epoch == all_candidates(rule)[i].0
                && same_source(spec_evaluate(rule)[j].sources[k], all_candidates(rule)[i].1),
{
    let c = all_candidates(rule);
    let g = groups_of(c);
    let ms = spec_evaluate(rule);
    lemma_fold_decisions(rule, g, None);
    lemma_sorted_epochs(c);
    let e = c[i].0;
    let x = c[i].1;
    assert(sorted_epochs(c).contains(e));
    let j = choose|j: int| 0 <= j < sorted_epochs(c).len() && sorted_epochs(c)[j] == e;
    assert(g[j].0 == e);
    let raw = g[j].1;
    assert(raw == group_sources(c, e));
    assert(ms[j] == make_verdict(rule, e, normalize_sources(raw), prior_accepted(ms, j, None)));
    let sorted = sort_sources(raw);
    lemma_sort_same_elements(raw);
    lemma_dedup_covers(sorted);
    lemma_group_members(c, e);
    assert(c[i] == (e, x));
    assert(raw.contains(x));
    assert(sorted.contains(x));
    let m = choose|m: int| 0 <= m < sorted.len() && sorted[m] == x;
    let k = choose|k: int| 0 <= k < dedup_sources(sorted).len() && same_source(#[trigger] dedup_sources(sorted)[k], #[trigger] sorted[m]);
    assert(ms[j].sources[k] == dedup_sources(sorted)[k]);
}

/// Merging: each instant appears once and lists what produced it, ordered
/// by rule id and side, with neighbouring repeats dropped. Everything
/// listed is a candidate at that instant, and every candidate is listed
/// (up to a repeat) by the verdict at its instant.
pub proof fn lemma_merged_sources(rule: RuleVersion)
    ensures
        forall|j: int|
            0 <= j < spec_evaluate(rule).len() ==> {
                &&& sources_sorted(#[trigger] spec_evaluate(rule)[j].sources)
                &&& no_adjacent_repeats(spec_evaluate(rule)[j].sources)
                &&& spec_evaluate(rule)[j].sources.len() > 0
                &&& forall|k: int|
                    0 <= k < spec_evaluate(rule)[j].sources.len() ==> candidate_at(
                        rule,
                        spec_evaluate(rule)[j].epoch,
                        #[trigger] spec_evaluate(rule)[j].sources[k],
                    )
            },
        forall|i: int|
            0 <= i < all_candidates(rule).len() ==> exists|j: int, k: int|
                0 <= j < spec_evaluate(rule).len() && 0 <= k < spec_evaluate(rule)[j].sources.len()
                    && spec_evaluate(rule)[j].epoch == #[trigger] all_candidates(rule)[i].0
                    && same_source(spec_evaluate(rule)[j].sources[k], all_candidates(rule)[i].1),
{
    assert forall|j: int| 0 <= j < spec_evaluate(rule).len() implies {
        &&& sources_sorted(#[trigger] spec_evaluate(rule)[j].sources)
        &&& no_adjacent_repeats(spec_evaluate(rule)[j].sources)
        &&& spec_evaluate(rule)[j].sources.len() > 0
        &&& forall|k: int|
            0 <= k < spec_evaluate(rule)[j].sources.len() ==> candidate_at(
                rule,
                spec_evaluate(rule)[j].epoch,
                #[trigger] spec_evaluate(rule)[j].sources[k],
            )
    } by {
        lemma_verdict_sources(rule, j);
    }
    assert forall|i: int| 0 <= i < all_candidates(rule).len() implies exists|j: int, k: int|
        0 <= j < spec_evaluate(rule).len() && 0 <= k < spec_evaluate(rule)[j].sources.len()
            && spec_evaluate(rule)[j].epoch == #[trigger] all_candidates(rule)[i].0
            && same_source(spec_evaluate(rule)[j].sources[k], all_candidates(rule)[i].1) by {
        lemma_candidate_kept(rule, i);
    }
}

// ------------------------------------------------------------ page order

proof fn lemma_filter_ascending(ms: Seq<VerdictModel>, p: spec_fn(VerdictModel) -> bool)
    requires
        epochs_ascending(ms),
    ensures
        epochs_ascending(ms.filter(p)),
    decreases ms.len(),
{
    reveal_with_fuel(Seq::<_>::filter, 1);
    if ms.len() > 0 {
        let t = ms.drop_last();
        assert(epochs_ascending(t));
        lemma_filter_ascending(t, p);
        let f = t.filter(p);
        if p(ms.last()) {
            let g = f.push(ms.last());
            assert forall|i: int, j: int| 0 <= i < j < g.len() implies #[trigger] g[i].epoch < #[trigger] g[j].epoch by {
                if j == g.len() - 1 {
                    assert(f.contains(g[i]));
                    t.lemma_filter_contains_rev(p, g[i]);
                    let k = choose|k: int| 0 <= k < t.len() && t[k] == g[i];
                    assert(ms[k] == t[k]);
                    assert(ms[k].epoch < ms[ms.len() - 1].epoch);
                } else {
                    assert(g[i] == f[i] && g[j] == f[j]);
                }
            }
        }
    }
}

/// Strictly descending epochs.
pub open spec fn epochs_descending(ms: Seq<VerdictModel>) -> bool {
    forall|i: int, j: int| 0 <= i < j < ms.len() ==> #[trigger] ms[i].epoch > #[trigger] ms[j].epoch
}

/// Over ascending verdicts, a forward page ascends and a backward page
/// (nearest instant first) descends.
pub proof fn lemma_page_order(ms: Seq<VerdictModel>, direction: Direction, anchor: Option<i64>, limit: int)
    requires
        epochs_ascending(ms),
        limit >= 0,
    ensures
        direction == Direction::Forward ==> epochs_ascending(page_models(ms, direction, anchor, limit)),
        direction == Direction::Backward ==> epochs_descending(page_models(ms, direction, anchor, limit)),
{
    let f = ms.filter(|m: VerdictModel| model_beyond(m, direction, anchor));
    lemma_filter_ascending(ms, |m: VerdictModel| model_beyond(m, direction, anchor));
    let pg = page_models(ms, direction, anchor, limit);
    match direction {
        Direction::Forward => {
            assert(pg == first_n(f, limit));
            assert forall|i: int, j: int| 0 <= i < j < pg.len() implies #[trigger] pg[i].epoch < #[trigger] pg[j].epoch by {
                assert(pg[i] == f[i] && pg[j] == f[j]);
            }
        },
        Direction::Backward => {
            let r = f.reverse();
            assert(pg == first_n(r, limit));
            assert forall|i: int, j: int| 0 <= i < j < pg.len() implies #[trigger] pg[i].epoch > #[trigger] pg[j].epoch by {
                assert(pg[i] == r[i] && pg[j] == r[j]);
                assert(r[i] == f[f.len() - 1 - i] && r[j] == f[f.len() - 1 - j]);
            }
        },
    }
}

} // verus!
