//! Sums over sequences, and the facts about them that the flocking rules rely on.
use vstd::prelude::*;
use vstd::multiset::Multiset;

verus! {

broadcast use vstd::seq_lib::group_to_multiset_ensures;

/// The sum of `f` over the elements of `s`.
pub open spec fn sum_of<A>(s: Seq<A>, f: spec_fn(A) -> int) -> int
    decreases s.len(),
{
    if s.len() == 0 {
        0
    } else {
        sum_of(s.drop_last(), f) + f(s.last())
    }
}

/// A sum over one more element.
pub proof fn lemma_sum_of_push<A>(s: Seq<A>, x: A, f: spec_fn(A) -> int)
    ensures
        sum_of(s.push(x), f) == sum_of(s, f) + f(x),
{
    assert(s.push(x).drop_last() =~= s);
}

/// Summing over mapped elements is summing the composed function.
pub proof fn lemma_sum_of_map<A, B>(s: Seq<A>, h: spec_fn(A) -> B, f: spec_fn(B) -> int)
    ensures
        sum_of(s.map_values(h), f) == sum_of(s, |x: A| f(h(x))),
    decreases s.len(),
{
    if s.len() > 0 {
        assert(s.map_values(h).drop_last() =~= s.drop_last().map_values(h));
        lemma_sum_of_map(s.drop_last(), h, f);
    }
}

/// Taking one element out of a sum.
pub proof fn lemma_sum_of_remove<A>(s: Seq<A>, k: int, f: spec_fn(A) -> int)
    requires
        0 <= k < s.len(),
    ensures
        sum_of(s, f) == sum_of(s.remove(k), f) + f(s[k]),
    decreases s.len(),
{
    if k < s.len() - 1 {
        assert(s.remove(k).drop_last() =~= s.drop_last().remove(k));
        assert(s.remove(k).last() == s.last());
        lemma_sum_of_remove(s.drop_last(), k, f);
    } else {
        assert(s.remove(k) =~= s.drop_last());
    }
}

/// A sum depends only on the multiset of the summed elements.
pub proof fn lemma_sum_of_permutation<A>(s: Seq<A>, t: Seq<A>, f: spec_fn(A) -> int)
    requires
        s.to_multiset() =~= t.to_multiset(),
    ensures
        sum_of(s, f) == sum_of(t, f),
    decreases s.len(),
{
    if s.len() == 0 {
        assert(t.to_multiset().len() == t.len());
        assert(s.to_multiset().len() == s.len());
        assert(t.len() == 0);
        assert(t =~= s);
    } else {
        let x = s.last();
        assert(s.to_multiset().count(x) > 0) by {
            assert(s.contains(x)) by {
                assert(s[s.len() - 1] == x);
            }
        }
        assert(t.contains(x));
        let k = choose|k: int| 0 <= k < t.len() && t[k] == x;
        lemma_sum_of_remove(t, k, f);
        let s0 = s.drop_last();
        assert(s0.push(x) =~= s);
        assert(s0.to_multiset() =~= t.remove(k).to_multiset()) by {
            assert(s.to_multiset() =~= s0.to_multiset().insert(x));
            assert(t.remove(k).to_multiset() =~= t.to_multiset().remove(x));
        }
        lemma_sum_of_permutation(s0, t.remove(k), f);
    }
}

/// Filtering a sequence filters its multiset.
pub proof fn lemma_filter_to_multiset<A>(s: Seq<A>, p: spec_fn(A) -> bool)
    ensures
        s.filter(p).to_multiset() =~= s.to_multiset().filter(p),
    decreases s.len(),
{
    reveal(Seq::filter);
    if s.len() > 0 {
        let s0 = s.drop_last();
        let x = s.last();
        lemma_filter_to_multiset(s0, p);
        assert(s0.push(x) =~= s);
        assert(s.to_multiset() =~= s0.to_multiset().insert(x));
        if p(x) {
            assert(s.filter(p) == s0.filter(p).push(x));
            assert(s.filter(p).to_multiset() =~= s0.filter(p).to_multiset().insert(x));
        } else {
            assert(s.filter(p) == s0.filter(p));
        }
    } else {
        assert(s.filter(p) == s);
        assert(s.to_multiset().len() == 0);
        assert(s.to_multiset() =~= Multiset::empty());
    }
}

/// Summing over the filtered elements is summing a function that is zero off the filter.
pub proof fn lemma_sum_of_filter<A>(s: Seq<A>, p: spec_fn(A) -> bool, f: spec_fn(A) -> int)
    ensures
        sum_of(s.filter(p), f) == sum_of(s, |x: A| if p(x) { f(x) } else { 0 }),
    decreases s.len(),
{
    reveal(Seq::filter);
    let g = |x: A| if p(x) { f(x) } else { 0 };
    if s.len() > 0 {
        lemma_sum_of_filter(s.drop_last(), p, f);
        assert(sum_of(s, g) == sum_of(s.drop_last(), g) + g(s.last()));
        if p(s.last()) {
            assert(s.filter(p) == s.drop_last().filter(p).push(s.last()));
            lemma_sum_of_push(s.drop_last().filter(p), s.last(), f);
        } else {
            assert(s.filter(p) == s.drop_last().filter(p));
        }
    } else {
        assert(s.filter(p) == s);
    }
}

} // verus!
