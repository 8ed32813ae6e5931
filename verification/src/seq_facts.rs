//! General facts about sequences used by the proofs.

use vstd::prelude::*;

verus! {

/// Filtering a sequence whose first `i` elements pass and the rest fail keeps the first `i`.
pub proof fn lemma_filter_prefix<A>(s: Seq<A>, p: spec_fn(A) -> bool, i: int)
    requires
        0 <= i <= s.len(),
        forall|k: int| 0 <= k < i ==> p(#[trigger] s[k]),
        forall|k: int| i <= k < s.len() ==> !p(#[trigger] s[k]),
    ensures
        s.filter(p) == s.take(i),
    decreases s.len(),
{
    reveal_with_fuel(Seq::<_>::filter, 1);
    if s.len() == 0 {
        assert(s.filter(p) =~= s.take(i));
    } else if i == s.len() {
        let t = s.drop_last();
        lemma_filter_prefix(t, p, i - 1);
        assert(t.take(i - 1).push(s.last()) =~= s.take(i));
    } else {
        let t = s.drop_last();
        lemma_filter_prefix(t, p, i);
        assert(t.take(i) =~= s.take(i));
    }
}

/// Filtering a sequence whose elements fail before `start` and pass from `start` keeps the suffix.
pub proof fn lemma_filter_suffix<A>(s: Seq<A>, p: spec_fn(A) -> bool, start: int)
    requires
        0 <= start <= s.len(),
        forall|k: int| 0 <= k < start ==> !p(#[trigger] s[k]),
        forall|k: int| start <= k < s.len() ==> p(#[trigger] s[k]),
    ensures
        s.filter(p) == s.skip(start),
    decreases s.len(),
{
    reveal_with_fuel(Seq::<_>::filter, 1);
    if s.len() == 0 {
        assert(s.filter(p) =~= s.skip(start));
    } else if start == s.len() {
        let t = s.drop_last();
        lemma_filter_suffix(t, p, start - 1);
        assert(s.filter(p) =~= s.skip(start));
    } else {
        let t = s.drop_last();
        lemma_filter_suffix(t, p, start);
        assert(t.skip(start).push(s.last()) =~= s.skip(start));
    }
}

/// Filtering a sequence where every element fails gives the empty sequence.
pub proof fn lemma_filter_none<A>(s: Seq<A>, p: spec_fn(A) -> bool)
    requires
        forall|k: int| 0 <= k < s.len() ==> !p(#[trigger] s[k]),
    ensures
        s.filter(p) == Seq::<A>::empty(),
{
    lemma_filter_prefix(s, p, 0);
    assert(s.take(0) =~= Seq::<A>::empty());
}

/// Filtering a sequence where every element passes keeps it whole.
pub proof fn lemma_filter_all<A>(s: Seq<A>, p: spec_fn(A) -> bool)
    requires
        forall|k: int| 0 <= k < s.len() ==> p(#[trigger] s[k]),
    ensures
        s.filter(p) == s,
{
    lemma_filter_prefix(s, p, s.len() as int);
    assert(s.take(s.len() as int) =~= s);
}

/// Filtering distributes over pushing one element.
pub proof fn lemma_filter_push<A>(s: Seq<A>, p: spec_fn(A) -> bool, x: A)
    ensures
        s.push(x).filter(p) == (if p(x) { s.filter(p).push(x) } else { s.filter(p) }),
{
    reveal_with_fuel(Seq::<_>::filter, 1);
    assert(s.push(x).drop_last() =~= s);
}

} // verus!
