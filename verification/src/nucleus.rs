//! Why the nucleus holds the mass that was asked for.
//!
//! A token is left out of the candidates only if its probability is at most
//! `(1 - top_p) / (n - 1)` and another token passes that cutoff. Then at
//! most `n - 1` tokens are left out, so they hold at most `1 - top_p`
//! together and the candidates hold the rest. Where no token passes the
//! cutoff all are candidates and hold all the mass.

use vstd::prelude::*;
use vstd::seq_lib::{to_multiset_contains, to_multiset_len, to_multiset_remove};
use crate::sampler::{
    by_weight, candidates, eligible, eligible_below, in_nucleus, is_nucleus_len, lemma_by_weight_total,
    none_eligible,
    lemma_listed_mass_prefix, lemma_mass_grows, lemma_nucleus_len_unique, listed_mass, mass, nucleus, total, weight,
    ONE,
};

verus! {

/// The sum of the weights below `n` of the indices that are not listed:
/// with `every` none, else those that do not pass the cutoff.
pub open spec fn excluded_mass(weights: Seq<u32>, top_p: u32, every: bool, n: int) -> int
    decreases n,
{
    if n <= 0 {
        0
    } else if every || eligible(weights, top_p, n - 1) {
        excluded_mass(weights, top_p, every, n - 1)
    } else {
        excluded_mass(weights, top_p, every, n - 1) + weights[n - 1]
    }
}

/// The mass of a list without one entry is its mass less that entry's weight.
pub proof fn lemma_listed_mass_remove(weights: Seq<u32>, list: Seq<usize>, i: int)
    requires
        0 <= i < list.len(),
    ensures
        listed_mass(weights, list, list.len() as int) == listed_mass(
            weights,
            list.remove(i),
            list.len() - 1,
        ) + weight(weights, list[i]),
    decreases list.len(),
{
    let len: int = list.len() as int;
    let shorter = list.remove(i);
    if i == len - 1 {
        lemma_listed_mass_prefix(weights, list, shorter, len - 1);
    } else {
        let front = list.drop_last();
        lemma_listed_mass_remove(weights, front, i);
        lemma_listed_mass_prefix(weights, list, front, len - 1);
        assert(front.remove(i) =~= shorter.drop_last());
        lemma_listed_mass_prefix(weights, front.remove(i), shorter, len - 2);
        assert(shorter[len - 2] == list[len - 1]);
    }
}

/// Two lists of the same indices, in whatever order, have the same mass.
pub proof fn lemma_listed_mass_permutation(weights: Seq<u32>, a: Seq<usize>, b: Seq<usize>)
    requires
        a.to_multiset() == b.to_multiset(),
    ensures
        a.len() == b.len(),
        listed_mass(weights, a, a.len() as int) == listed_mass(weights, b, b.len() as int),
    decreases a.len(),
{
    to_multiset_len(a);
    to_multiset_len(b);
    if a.len() > 0 {
        let x: usize = a.last();
        let front = a.drop_last();
        to_multiset_contains(a, x);
        to_multiset_contains(b, x);
        assert(a[a.len() - 1] == x);
        assert(a.contains(x));
        assert(b.contains(x));
        let i: int = choose|i: int| 0 <= i < b.len() && b[i] == x;
        to_multiset_remove(a, a.len() - 1);
        to_multiset_remove(b, i);
        assert(a.remove(a.len() - 1) =~= front);
        lemma_listed_mass_permutation(weights, front, b.remove(i));
        lemma_listed_mass_remove(weights, b, i);
        lemma_listed_mass_prefix(weights, a, front, a.len() - 1);
    }
}

/// Below any `m`, the indices listed and the others share the mass, and
/// each of the others holds at most its part of what the listed may leave.
/// With `every` nothing is left to the others.
pub proof fn lemma_excluded_mass(weights: Seq<u32>, top_p: u32, every: bool, m: int)
    requires
        0 <= m <= weights.len() <= usize::MAX,
        top_p <= ONE,
    ensures
        listed_mass(
            weights,
            eligible_below(weights, top_p, every, m),
            eligible_below(weights, top_p, every, m).len() as int,
        ) + excluded_mass(weights, top_p, every, m) == mass(weights, m),
        0 <= eligible_below(weights, top_p, every, m).len() <= m,
        excluded_mass(weights, top_p, every, m) * (weights.len() - 1) * ONE <= (m - eligible_below(
            weights,
            top_p,
            every,
            m,
        ).len()) * ((ONE - top_p) * total(weights)),
        every ==> excluded_mass(weights, top_p, every, m) == 0,
    decreases m,
{
    let others: int = weights.len() - 1;
    let limit: int = (ONE - top_p) * total(weights);
    if m > 0 {
        lemma_excluded_mass(weights, top_p, every, m - 1);
        let shorter = eligible_below(weights, top_p, every, m - 1);
        let list = eligible_below(weights, top_p, every, m);
        let x: int = excluded_mass(weights, top_p, every, m - 1);
        let count: int = m - 1 - shorter.len();
        assert(x * others * ONE <= count * limit);
        if every || eligible(weights, top_p, m - 1) {
            lemma_listed_mass_prefix(weights, list, shorter, shorter.len() as int);
            assert(weight(weights, (m - 1) as usize) == weights[m - 1]);
            assert(m - list.len() == count);
        } else {
            let w: int = weights[m - 1] as int;
            assert(w * others * ONE <= limit);
            assert((x + w) * others * ONE <= (count + 1) * limit) by (nonlinear_arith)
                requires
                    x * others * ONE <= count * limit,
                    w * others * ONE <= limit,
            ;
            assert(m - list.len() == count + 1);
        }
    } else {
        assert(0 * others * ONE <= 0 * limit) by (nonlinear_arith);
    }
}

/// Where an index below `m` passes the cutoff there is more than one weight.
pub proof fn lemma_eligible_needs_others(weights: Seq<u32>, top_p: u32, m: int)
    requires
        0 <= m <= weights.len(),
        top_p <= ONE,
        eligible_below(weights, top_p, false, m).len() > 0,
    ensures
        weights.len() > 1,
    decreases m,
{
    if m > 0 {
        if eligible(weights, top_p, m - 1) {
            let all: int = total(weights);
            let w: int = weights[m - 1] as int;
            let others: int = weights.len() - 1;
            lemma_mass_grows(weights, 0, weights.len() as int);
            assert(others > 0) by (nonlinear_arith)
                requires
                    w * others * ONE > (ONE - top_p) * all,
                    0 <= all,
                    top_p <= ONE,
                    0 <= w,
                    0 <= others,
            ;
        } else {
            lemma_eligible_needs_others(weights, top_p, m - 1);
        }
    }
}

/// A list has a nucleus.
pub proof fn lemma_nucleus_len_exists(weights: Seq<u32>, top_p: u32, list: Seq<usize>, k: int) -> (r:
    int)
    requires
        0 <= k <= list.len(),
        forall|j: int| 0 <= j < k ==> in_nucleus(weights, top_p, list, j),
    ensures
        is_nucleus_len(weights, top_p, list, r),
    decreases list.len() - k,
{
    if k < list.len() && in_nucleus(weights, top_p, list, k) {
        lemma_nucleus_len_exists(weights, top_p, list, k + 1)
    } else {
        k
    }
}

/// The nucleus holds at least the mass `top_p` of all weights.
pub proof fn lemma_nucleus_mass(weights: Seq<u32>, top_p: u32)
    requires
        weights.len() <= usize::MAX,
        top_p <= ONE,
    ensures
        listed_mass(weights, nucleus(weights, top_p), nucleus(weights, top_p).len() as int) * ONE
            >= top_p * total(weights),
{
    let list = candidates(weights, top_p);
    let n: int = weights.len() as int;
    let every: bool = none_eligible(weights, top_p);
    let found: int = lemma_nucleus_len_exists(weights, top_p, list, 0);
    let k: int = choose|k: int| is_nucleus_len(weights, top_p, list, k);
    lemma_nucleus_len_unique(weights, top_p, list, k, found);
    let kept = nucleus(weights, top_p);
    assert(kept == list.take(k));
    lemma_listed_mass_prefix(weights, kept, list, k);
    if k == list.len() {
        let unsorted = eligible_below(weights, top_p, every, n);
        lemma_by_weight_total(weights);
        unsorted.lemma_sort_by_ensures(by_weight(weights));
        lemma_listed_mass_permutation(weights, unsorted, list);
        lemma_excluded_mass(weights, top_p, every, n);
        let x: int = excluded_mass(weights, top_p, every, n);
        let kept_mass: int = listed_mass(weights, list, k);
        let all: int = total(weights);
        let limit: int = (ONE - top_p) * all;
        let count: int = n - unsorted.len();
        lemma_mass_grows(weights, 0, n);
        assert(0 <= limit) by (nonlinear_arith)
            requires
                limit == (ONE - top_p) * all,
                0 <= all,
                top_p <= ONE,
        ;
        if every {
            assert(kept_mass * ONE >= top_p * all) by (nonlinear_arith)
                requires
                    kept_mass == all,
                    0 <= all,
                    top_p <= ONE,
            ;
        } else {
            lemma_eligible_needs_others(weights, top_p, n);
            assert(kept_mass * ONE >= top_p * all) by (nonlinear_arith)
                requires
                    kept_mass + x == all,
                    x * (n - 1) * ONE <= count * limit,
                    limit == (ONE - top_p) * all,
                    0 <= count <= n - 1,
                    n > 1,
                    0 <= limit,
            ;
        }
    }
}

} // verus!
