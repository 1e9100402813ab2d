//! Choosing the next token: the highest logit, a draw from the whole
//! distribution, or a draw from its nucleus.
//!
//! Logits are compared by their bit patterns. Probabilities arrive as
//! weights: token `i` has probability `weights[i]` over the sum of all
//! weights, so that every comparison of probabilities is one of integers.

use vstd::prelude::*;
use crate::config::MAX_DIMENSION;
use crate::ieee::{is_zero, key, order_key, zero, INFINITY_BITS};
use crate::kernel::Kernel;
use crate::rng::{draw_of, lemma_state_after_shift, next_state, random_draw, state_after, DRAW_RANGE};
use vstd::relations::{sorted_by, total_ordering};
use vstd::seq_lib::{lemma_sorted_unique, to_multiset_build, to_multiset_insert};

verus! {

/// The fixed-point value of probability one: `top_p` counts in units of
/// `1 / ONE`.
pub const ONE: u32 = 0x0100_0000;

/// The state of a sampler.
#[derive(Debug, Clone, PartialEq, Eq)]
pub struct Sampler {
    /// Number of tokens to choose from.
    pub vocab_size: usize,
    /// Temperature, as the bit pattern of a single-precision number that is
    /// zero or positive.
    pub temperature: u32,
    /// Mass of the nucleus in units of `1 / ONE`, at most `ONE`.
    pub top_p: u32,
    /// State of the random number generator.
    pub rng_state: u64,
    /// Room for the candidates of a nucleus, kept from draw to draw.
    pub scratch: Vec<usize>,
}

/// The sum of the first `n` weights.
pub open spec fn mass(weights: Seq<u32>, n: int) -> int
    decreases n,
{
    if n <= 0 {
        0
    } else {
        mass(weights, n - 1) + weights[n - 1]
    }
}

/// The sum of all weights.
pub open spec fn total(weights: Seq<u32>) -> int {
    mass(weights, weights.len() as int)
}

/// Whether `i` is the first index of the highest logit.
pub open spec fn is_argmax(logits: Seq<u32>, i: int) -> bool {
    &&& 0 <= i < logits.len()
    &&& forall|j: int|
        0 <= j < logits.len() ==> order_key(#[trigger] logits[j]) < order_key(logits[i]) || (
        order_key(logits[j]) == order_key(logits[i]) && i <= j)
}

/// The first index of the highest logit.
pub open spec fn argmax(logits: Seq<u32>) -> int {
    choose|i: int| is_argmax(logits, i)
}

/// Whether a draw of `coin` out of `DRAW_RANGE` falls on index `i`: the
/// draw, scaled to the sum of the weights, is at least the sum of the
/// weights before `i` and less than that sum with the weight of `i`.
pub open spec fn is_categorical(weights: Seq<u32>, coin: u32, i: int) -> bool {
    &&& 0 <= i < weights.len()
    &&& mass(weights, i) * DRAW_RANGE <= coin * total(weights)
    &&& coin * total(weights) < mass(weights, i + 1) * DRAW_RANGE
}

/// The index that a draw of `coin` picks from the whole distribution; index
/// 0 where all weights are zero.
pub open spec fn categorical(weights: Seq<u32>, coin: u32) -> int {
    if total(weights) == 0 {
        0
    } else {
        choose|i: int| is_categorical(weights, coin, i)
    }
}

/// Sums never decrease, and are bounded by the number of weights summed.
pub proof fn lemma_mass_grows(weights: Seq<u32>, low: int, high: int)
    requires
        0 <= low <= high,
    ensures
        0 <= mass(weights, low) <= mass(weights, high) <= high * 0xffff_ffff,
    decreases high,
{
    if high > 0 {
        if low < high {
            lemma_mass_grows(weights, low, high - 1);
        } else {
            lemma_mass_grows(weights, 0, high - 1);
        }
    }
}

/// No two indices are the first of the highest logit.
pub proof fn lemma_argmax_unique(logits: Seq<u32>, i: int, j: int)
    requires
        is_argmax(logits, i),
        is_argmax(logits, j),
    ensures
        i == j,
{
    let a = logits[i];
    let b = logits[j];
}

/// A draw falls on one index only.
pub proof fn lemma_categorical_unique(weights: Seq<u32>, coin: u32, i: int, j: int)
    requires
        is_categorical(weights, coin, i),
        is_categorical(weights, coin, j),
    ensures
        i == j,
{
    if i < j {
        lemma_mass_grows(weights, i + 1, j);
        assert(mass(weights, i + 1) * DRAW_RANGE <= mass(weights, j) * DRAW_RANGE)
            by (nonlinear_arith)
            requires
                mass(weights, i + 1) <= mass(weights, j),
        ;
    } else if j < i {
        lemma_mass_grows(weights, j + 1, i);
        assert(mass(weights, j + 1) * DRAW_RANGE <= mass(weights, i) * DRAW_RANGE)
            by (nonlinear_arith)
            requires
                mass(weights, j + 1) <= mass(weights, i),
        ;
    }
}

/// Computes the sum of all weights.
pub fn sum(weights: &Vec<u32>) -> (r: u64)
    requires
        weights@.len() <= MAX_DIMENSION,
    ensures
        r == total(weights@),
        r <= weights@.len() * 0xffff_ffff,
{
    let mut acc: u64 = 0;
    let mut i: usize = 0;
    while i < weights.len()
        invariant
            i <= weights@.len() <= MAX_DIMENSION,
            acc == mass(weights@, i as int),
            acc <= i * 0xffff_ffff,
        decreases weights@.len() - i,
    {
        acc = acc + weights[i] as u64;
        i = i + 1;
    }
    acc
}

/// Finds the first index of the highest logit.
pub fn greedy(logits: &Vec<u32>) -> (r: usize)
    requires
        logits@.len() > 0,
    ensures
        r == argmax(logits@),
        is_argmax(logits@, r as int),
{
    let mut best: usize = 0;
    let mut best_key: i64 = key(logits[0]);
    let mut i: usize = 1;
    while i < logits.len()
        invariant
            1 <= i <= logits@.len(),
            best < i,
            best_key == order_key(logits@[best as int]),
            forall|j: int|
                0 <= j < i ==> order_key(#[trigger] logits@[j]) < best_key || (order_key(
                    logits@[j],
                ) == best_key && best <= j),
        decreases logits@.len() - i,
    {
        let k: i64 = key(logits[i]);
        if k > best_key {
            best = i;
            best_key = k;
        }
        i = i + 1;
    }
    proof {
        assert(is_argmax(logits@, best as int));
        lemma_argmax_unique(logits@, argmax(logits@), best as int);
    }
    best
}

/// Picks the index on which a draw of `coin` falls in the whole
/// distribution.
pub fn pick_categorical(weights: &Vec<u32>, coin: u32) -> (r: usize)
    requires
        0 < weights@.len() <= MAX_DIMENSION,
        coin < DRAW_RANGE,
    ensures
        r == categorical(weights@, coin),
        r < weights@.len(),
        total(weights@) > 0 ==> is_categorical(weights@, coin, r as int),
{
    let all: u64 = sum(weights);
    if all == 0 {
        return 0;
    }
    assert(coin * all < DRAW_RANGE * all) by (nonlinear_arith)
        requires
            coin < DRAW_RANGE,
            all > 0,
    ;
    assert(DRAW_RANGE * all <= 0x0100_0000 * 0x7fff_ffff_0000_0000) by (nonlinear_arith)
        requires
            all <= 0x7fff_ffff * 0xffff_ffff,
            DRAW_RANGE == 0x0100_0000,
    ;
    let target: u128 = coin as u128 * all as u128;
    let last: usize = weights.len() - 1;
    let mut i: usize = 0;
    let mut before: u64 = 0;
    let mut found: bool = false;
    proof {
        lemma_mass_grows(weights@, 1, weights@.len() as int);
    }
    while i < last && !found
        invariant
            last == weights@.len() - 1,
            weights@.len() <= MAX_DIMENSION,
            i <= last,
            before == mass(weights@, i as int),
            before <= i * 0xffff_ffff,
            mass(weights@, i as int) * DRAW_RANGE <= target,
            found ==> target < mass(weights@, i + 1) * DRAW_RANGE,
            target == coin * total(weights@),
            target < DRAW_RANGE * total(weights@),
        decreases last - i, (if found { 0int } else { 1int }),
    {
        let next: u64 = before + weights[i] as u64;
        if target < wide_mul(next, DRAW_RANGE as u64) {
            found = true;
        } else {
            before = next;
            i = i + 1;
        }
    }
    proof {
        assert(total(weights@) * DRAW_RANGE == DRAW_RANGE * total(weights@)) by (nonlinear_arith);
        assert(is_categorical(weights@, coin, i as int));
        lemma_categorical_unique(weights@, coin, categorical(weights@, coin), i as int);
    }
    i
}

/// The product of two 64-bit numbers.
fn wide_mul(a: u64, b: u64) -> (r: u128)
    ensures
        r == a * b,
{
    assert(0 <= a * b <= 0xffff_ffff_ffff_ffff * 0xffff_ffff_ffff_ffff) by (nonlinear_arith)
        requires
            0 <= a <= 0xffff_ffff_ffff_ffff,
            0 <= b <= 0xffff_ffff_ffff_ffff,
    ;
    a as u128 * b as u128
}

/// The weight of index `i`; zero for an index outside the weights.
pub open spec fn weight(weights: Seq<u32>, i: usize) -> int {
    if i < weights.len() {
        weights[i as int] as int
    } else {
        0
    }
}

/// Whether index `i` passes the cutoff of the nucleus of mass `top_p`: its
/// probability exceeds `(1 - top_p) / (n - 1)`, where `n` is the number of
/// weights.
pub open spec fn eligible(weights: Seq<u32>, top_p: u32, i: int) -> bool {
    &&& 0 <= i < weights.len()
    &&& weights[i] * (weights.len() - 1) * ONE > (ONE - top_p) * total(weights)
}

/// The indices below `n` that pass the cutoff, or with `every` all indices
/// below `n`, in the order of the indices.
pub open spec fn eligible_below(weights: Seq<u32>, top_p: u32, every: bool, n: int) -> Seq<usize>
    decreases n,
{
    if n <= 0 {
        Seq::empty()
    } else if every || eligible(weights, top_p, n - 1) {
        eligible_below(weights, top_p, every, n - 1).push((n - 1) as usize)
    } else {
        eligible_below(weights, top_p, every, n - 1)
    }
}

/// Whether no index passes the cutoff of the nucleus of mass `top_p`.
pub open spec fn none_eligible(weights: Seq<u32>, top_p: u32) -> bool {
    eligible_below(weights, top_p, false, weights.len() as int).len() == 0
}

/// Whether index `a` comes no later than index `b` when indices are listed
/// from the heaviest down, equal weights by index.
pub open spec fn precedes(weights: Seq<u32>, a: usize, b: usize) -> bool {
    weight(weights, a) > weight(weights, b) || (weight(weights, a) == weight(weights, b) && a
        <= b)
}

/// The order of indices from the heaviest down.
pub open spec fn by_weight(weights: Seq<u32>) -> spec_fn(usize, usize) -> bool {
    |a: usize, b: usize| precedes(weights, a, b)
}

/// The candidates for the nucleus of mass `top_p`, from the heaviest down:
/// the indices that pass the cutoff, or all indices where none passes it.
pub open spec fn candidates(weights: Seq<u32>, top_p: u32) -> Seq<usize> {
    eligible_below(
        weights,
        top_p,
        none_eligible(weights, top_p),
        weights.len() as int,
    ).sort_by(by_weight(weights))
}

/// The sum of the weights of the first `k` indices of `list`.
pub open spec fn listed_mass(weights: Seq<u32>, list: Seq<usize>, k: int) -> int
    decreases k,
{
    if k <= 0 {
        0
    } else {
        listed_mass(weights, list, k - 1) + weight(weights, list[k - 1])
    }
}

/// Whether the entry at `j` of `list` belongs to the nucleus: the entries
/// before it have not yet reached the mass `top_p`.
pub open spec fn in_nucleus(weights: Seq<u32>, top_p: u32, list: Seq<usize>, j: int) -> bool {
    &&& 0 <= j < list.len()
    &&& listed_mass(weights, list, j) * ONE < top_p * total(weights)
}

/// Whether the nucleus is the first `k` entries of `list`.
pub open spec fn is_nucleus_len(weights: Seq<u32>, top_p: u32, list: Seq<usize>, k: int) -> bool {
    &&& 0 <= k <= list.len()
    &&& forall|j: int| 0 <= j < k ==> in_nucleus(weights, top_p, list, j)
    &&& k < list.len() ==> !in_nucleus(weights, top_p, list, k)
}

/// The nucleus of mass `top_p`: the candidates from the heaviest down, up to
/// and with the one at which their mass reaches `top_p`.
pub open spec fn nucleus(weights: Seq<u32>, top_p: u32) -> Seq<usize> {
    let list = candidates(weights, top_p);
    list.take(choose|k: int| is_nucleus_len(weights, top_p, list, k))
}

/// Whether a draw of `coin` out of `DRAW_RANGE` falls on entry `j` of
/// `list`: `j` is the first entry up to which the mass meets or exceeds the
/// draw, scaled to the mass of the list.
pub open spec fn is_listed_pick(weights: Seq<u32>, list: Seq<usize>, coin: u32, j: int) -> bool {
    &&& 0 <= j < list.len()
    &&& coin * listed_mass(weights, list, list.len() as int) <= listed_mass(weights, list, j + 1)
        * DRAW_RANGE
    &&& forall|i: int|
        0 <= i < j ==> coin * listed_mass(weights, list, list.len() as int) > #[trigger] listed_mass(
            weights,
            list,
            i + 1,
        ) * DRAW_RANGE
}

/// The index that a draw of `coin` picks from `list`; index 0 where the
/// list is empty.
pub open spec fn listed_token(weights: Seq<u32>, list: Seq<usize>, coin: u32) -> usize {
    if list.len() == 0 {
        0
    } else {
        list[choose|j: int| is_listed_pick(weights, list, coin, j)]
    }
}

/// The tokens that are drawn from the distributions `inputs`, one after the
/// other, by a generator in state `state`: it is advanced once for each.
pub open spec fn drawn_tokens(top_p: u32, state: u64, inputs: Seq<Seq<u32>>) -> Seq<int>
    decreases inputs.len(),
{
    if inputs.len() == 0 {
        Seq::empty()
    } else {
        seq![weighted_token(inputs[0], top_p, draw_of(next_state(state)))] + drawn_tokens(
            top_p,
            next_state(state),
            inputs.drop_first(),
        )
    }
}

/// The distributions that `inputs` hold.
pub open spec fn distributions(inputs: Seq<Vec<u32>>) -> Seq<Seq<u32>> {
    Seq::new(inputs.len(), |k: int| inputs[k]@)
}

/// One token is drawn from every distribution, and the token drawn from the
/// `k`-th distribution depends on nothing but that distribution, `top_p`,
/// the state at the start and `k`.
pub proof fn lemma_drawn_token(top_p: u32, state: u64, inputs: Seq<Seq<u32>>, k: int)
    requires
        0 <= k < inputs.len(),
    ensures
        drawn_tokens(top_p, state, inputs).len() == inputs.len(),
        drawn_tokens(top_p, state, inputs)[k] == weighted_token(
            inputs[k],
            top_p,
            draw_of(state_after(state, (k + 1) as nat)),
        ),
    decreases inputs.len(),
{
    let rest = inputs.drop_first();
    lemma_drawn_len(top_p, state, inputs);
    if k == 0 {
        assert(state_after(state, 1) == next_state(state_after(state, 0)));
    } else {
        lemma_drawn_token(top_p, next_state(state), rest, k - 1);
        lemma_state_after_shift(state, k as nat);
    }
}

/// One token is drawn from every distribution.
pub proof fn lemma_drawn_len(top_p: u32, state: u64, inputs: Seq<Seq<u32>>)
    ensures
        drawn_tokens(top_p, state, inputs).len() == inputs.len(),
    decreases inputs.len(),
{
    if inputs.len() > 0 {
        lemma_drawn_len(top_p, next_state(state), inputs.drop_first());
    }
}

/// The index that a draw of `coin` picks: from the whole distribution where
/// `top_p` is zero or one, else from the nucleus of mass `top_p`.
pub open spec fn weighted_token(weights: Seq<u32>, top_p: u32, coin: u32) -> int {
    if top_p == 0 || top_p >= ONE {
        categorical(weights, coin)
    } else {
        listed_token(weights, nucleus(weights, top_p), coin) as int
    }
}

/// Listing indices from the heaviest down orders them totally.
pub proof fn lemma_by_weight_total(weights: Seq<u32>)
    ensures
        total_ordering(by_weight(weights)),
{
    let r = by_weight(weights);
    assert(vstd::relations::reflexive(r));
    assert(vstd::relations::antisymmetric(r));
    assert(vstd::relations::transitive(r));
    assert(vstd::relations::strongly_connected(r));
}

/// The mass of a list never decreases along it.
pub proof fn lemma_listed_mass_grows(weights: Seq<u32>, list: Seq<usize>, low: int, high: int)
    requires
        0 <= low <= high,
    ensures
        0 <= listed_mass(weights, list, low) <= listed_mass(weights, list, high) <= high
            * 0xffff_ffff,
    decreases high,
{
    if high > 0 {
        if low < high {
            lemma_listed_mass_grows(weights, list, low, high - 1);
        } else {
            lemma_listed_mass_grows(weights, list, 0, high - 1);
        }
    }
}

/// The mass of the first entries of a list is that of the same entries of
/// any list that starts with them.
pub proof fn lemma_listed_mass_prefix(weights: Seq<u32>, a: Seq<usize>, b: Seq<usize>, k: int)
    requires
        0 <= k <= a.len(),
        k <= b.len(),
        forall|j: int| 0 <= j < k ==> a[j] == b[j],
    ensures
        listed_mass(weights, a, k) == listed_mass(weights, b, k),
    decreases k,
{
    if k > 0 {
        lemma_listed_mass_prefix(weights, a, b, k - 1);
    }
}

/// A list has one nucleus only.
pub proof fn lemma_nucleus_len_unique(
    weights: Seq<u32>,
    top_p: u32,
    list: Seq<usize>,
    k: int,
    l: int,
)
    requires
        is_nucleus_len(weights, top_p, list, k),
        is_nucleus_len(weights, top_p, list, l),
    ensures
        k == l,
{
    if k < l {
        assert(in_nucleus(weights, top_p, list, k));
    } else if l < k {
        assert(in_nucleus(weights, top_p, list, l));
    }
}

/// A draw falls on one entry of a list only.
pub proof fn lemma_listed_pick_unique(
    weights: Seq<u32>,
    list: Seq<usize>,
    coin: u32,
    i: int,
    j: int,
)
    requires
        is_listed_pick(weights, list, coin, i),
        is_listed_pick(weights, list, coin, j),
    ensures
        i == j,
{
    if i < j {
        assert(coin * listed_mass(weights, list, list.len() as int) > listed_mass(
            weights,
            list,
            i + 1,
        ) * DRAW_RANGE);
    } else if j < i {
        assert(coin * listed_mass(weights, list, list.len() as int) > listed_mass(
            weights,
            list,
            j + 1,
        ) * DRAW_RANGE);
    }
}

/// Lists in `list` the candidates for the nucleus of mass `top_p` from the
/// heaviest down: the indices that pass the cutoff, or all indices where
/// none passes it. What `list` held before is dropped.
pub fn candidates_of(weights: &Vec<u32>, top_p: u32, list: &mut Vec<usize>)
    requires
        0 < weights@.len() <= MAX_DIMENSION,
        top_p <= ONE,
    ensures
        final(list)@ == candidates(weights@, top_p),
        final(list)@.len() <= weights@.len(),
        forall|j: int|
            0 <= j < final(list)@.len() ==> (#[trigger] final(list)@[j]) < weights@.len(),
{
    list_heaviest_first(weights, top_p, false, list);
    if list.len() == 0 {
        list_heaviest_first(weights, top_p, true, list);
    }
}

/// Lists in `list`, from the heaviest down, the indices that pass the
/// cutoff of the nucleus of mass `top_p`, or with `every` all indices.
fn list_heaviest_first(weights: &Vec<u32>, top_p: u32, every: bool, list: &mut Vec<usize>)
    requires
        0 < weights@.len() <= MAX_DIMENSION,
        top_p <= ONE,
    ensures
        final(list)@ == eligible_below(weights@, top_p, every, weights@.len() as int).sort_by(
            by_weight(weights@),
        ),
        final(list)@.len() == eligible_below(weights@, top_p, every, weights@.len() as int).len(),
        final(list)@.len() <= weights@.len(),
        forall|j: int|
            0 <= j < final(list)@.len() ==> (#[trigger] final(list)@[j]) < weights@.len(),
{
    let n: usize = weights.len();
    let all: u64 = sum(weights);
    let bound: u128 = wide_mul((ONE - top_p) as u64, all);
    let others: u64 = (n - 1) as u64;
    list.clear();
    let mut i: usize = 0;
    while i < n
        invariant
            n == weights@.len(),
            0 < n <= MAX_DIMENSION,
            i <= n,
            others == n - 1,
            bound == (ONE - top_p) * total(weights@),
            sorted_by(list@, by_weight(weights@)),
            list@.to_multiset() == eligible_below(weights@, top_p, every, i as int).to_multiset(),
            list@.len() == eligible_below(weights@, top_p, every, i as int).len(),
            list@.len() <= i,
            forall|j: int| 0 <= j < list@.len() ==> (#[trigger] list@[j]) < i,
        decreases n - i,
    {
        assert(weights@[i as int] * others <= 0xffff_ffff * 0x7fff_ffff) by (nonlinear_arith)
            requires
                0 <= weights@[i as int] <= 0xffff_ffff,
                0 <= others <= 0x7fff_ffff,
        ;
        let share: u64 = weights[i] as u64 * others;
        if every || wide_mul(share, ONE as u64) > bound {
            assert(every || eligible(weights@, top_p, i as int));
            let mut p: usize = list.len();
            while p > 0 && weights[list[p - 1]] < weights[i]
                invariant
                    n == weights@.len(),
                    i < n,
                    p <= list@.len(),
                    forall|j: int| 0 <= j < list@.len() ==> (#[trigger] list@[j]) < i,
                    forall|q: int|
                        p <= q < list@.len() ==> weight(weights@, #[trigger] list@[q]) < weight(
                            weights@,
                            i,
                        ),
                decreases p,
            {
                p = p - 1;
            }
            let ghost before: Seq<usize> = list@;
            list.insert(p, i);
            proof {
                to_multiset_insert(before, p as int, i);
                to_multiset_build(eligible_below(weights@, top_p, every, i as int), i);
                assert forall|a: int, b: int| 0 <= a < b < list@.len() implies #[trigger] by_weight(
                    weights@,
                )(list@[a], list@[b]) by {
                    if b < p {
                        assert(by_weight(weights@)(before[a], before[b]));
                    } else if b == p {
                        if p > 0 {
                            if a < p - 1 {
                                assert(by_weight(weights@)(before[a], before[p - 1]));
                            }
                            assert(weight(weights@, before[p - 1]) >= weight(weights@, i));
                        }
                    } else if a < p {
                        assert(by_weight(weights@)(before[a], before[b - 1]));
                    } else if a == p {
                        assert(weight(weights@, before[b - 1]) < weight(weights@, i));
                    } else {
                        assert(by_weight(weights@)(before[a - 1], before[b - 1]));
                    }
                }
            }
        }
        i = i + 1;
    }
    proof {
        let unsorted = eligible_below(weights@, top_p, every, n as int);
        lemma_by_weight_total(weights@);
        unsorted.lemma_sort_by_ensures(by_weight(weights@));
        lemma_sorted_unique(list@, unsorted.sort_by(by_weight(weights@)), by_weight(weights@));
    }
}

/// Lists in `list` the nucleus of mass `top_p` from the heaviest index
/// down. What `list` held before is dropped.
pub fn nucleus_of(weights: &Vec<u32>, top_p: u32, list: &mut Vec<usize>)
    requires
        0 < weights@.len() <= MAX_DIMENSION,
        top_p <= ONE,
    ensures
        final(list)@ == nucleus(weights@, top_p),
        final(list)@.len() <= weights@.len(),
        forall|j: int|
            0 <= j < final(list)@.len() ==> (#[trigger] final(list)@[j]) < weights@.len(),
{
    candidates_of(weights, top_p, list);
    let all: u64 = sum(weights);
    let threshold: u128 = wide_mul(top_p as u64, all);
    let mut k: usize = 0;
    let mut acc: u64 = 0;
    while k < list.len() && wide_mul(acc, ONE as u64) < threshold
        invariant
            k <= list@.len() <= weights@.len() <= MAX_DIMENSION,
            forall|j: int| 0 <= j < list@.len() ==> (#[trigger] list@[j]) < weights@.len(),
            threshold == top_p * total(weights@),
            acc == listed_mass(weights@, list@, k as int),
            acc <= k * 0xffff_ffff,
            forall|j: int| 0 <= j < k ==> in_nucleus(weights@, top_p, list@, j),
        decreases list@.len() - k,
    {
        assert(in_nucleus(weights@, top_p, list@, k as int));
        acc = acc + weights[list[k]] as u64;
        k = k + 1;
    }
    proof {
        assert(is_nucleus_len(weights@, top_p, list@, k as int));
        let c: int = choose|c: int| is_nucleus_len(weights@, top_p, list@, c);
        lemma_nucleus_len_unique(weights@, top_p, list@, c, k as int);
    }
    list.truncate(k);
}

/// Picks the index on which a draw of `coin` falls in `list`.
pub fn pick_listed(weights: &Vec<u32>, list: &Vec<usize>, coin: u32) -> (r: usize)
    requires
        0 < weights@.len() <= MAX_DIMENSION,
        list@.len() <= MAX_DIMENSION,
        forall|j: int| 0 <= j < list@.len() ==> (#[trigger] list@[j]) < weights@.len(),
        coin < DRAW_RANGE,
    ensures
        r == listed_token(weights@, list@, coin),
        r < weights@.len(),
{
    if list.len() == 0 {
        return 0;
    }
    let mut all: u64 = 0;
    let mut k: usize = 0;
    while k < list.len()
        invariant
            k <= list@.len() <= MAX_DIMENSION,
            forall|j: int| 0 <= j < list@.len() ==> (#[trigger] list@[j]) < weights@.len(),
            all == listed_mass(weights@, list@, k as int),
            all <= k * 0xffff_ffff,
        decreases list@.len() - k,
    {
        all = all + weights[list[k]] as u64;
        k = k + 1;
    }
    let target: u128 = wide_mul(coin as u64, all);
    let last: usize = list.len() - 1;
    let mut j: usize = 0;
    let mut acc: u64 = weights[list[0]] as u64;
    assert(listed_mass(weights@, list@, 0) == 0);
    while j < last && target > wide_mul(acc, DRAW_RANGE as u64)
        invariant
            last == list@.len() - 1,
            list@.len() <= MAX_DIMENSION,
            j <= last,
            forall|i: int| 0 <= i < list@.len() ==> (#[trigger] list@[i]) < weights@.len(),
            acc == listed_mass(weights@, list@, j + 1),
            acc <= (j + 1) * 0xffff_ffff,
            target == coin * listed_mass(weights@, list@, list@.len() as int),
            forall|i: int|
                0 <= i < j ==> target > #[trigger] listed_mass(weights@, list@, i + 1)
                    * DRAW_RANGE,
        decreases last - j,
    {
        j = j + 1;
        acc = acc + weights[list[j]] as u64;
    }
    proof {
        let whole: int = listed_mass(weights@, list@, list@.len() as int);
        lemma_listed_mass_grows(weights@, list@, 0, list@.len() as int);
        assert(coin * whole <= whole * DRAW_RANGE) by (nonlinear_arith)
            requires
                coin < DRAW_RANGE,
                0 <= whole,
        ;
        assert(is_listed_pick(weights@, list@, coin, j as int));
        let c: int = choose|c: int| is_listed_pick(weights@, list@, coin, c);
        lemma_listed_pick_unique(weights@, list@, coin, c, j as int);
    }
    list[j]
}

impl Sampler {
    /// Whether the state is one that a sampler can have: there is a token
    /// to choose, the temperature is a number that is not negative, and
    /// `top_p` is at most one.
    pub open spec fn wf(&self) -> bool {
        &&& 0 < self.vocab_size <= MAX_DIMENSION
        &&& 0 <= order_key(self.temperature) <= INFINITY_BITS
        &&& self.top_p <= ONE
    }

    /// Whether the sampler takes the highest logit: its temperature is zero.
    pub open spec fn greedy(&self) -> bool {
        is_zero(self.temperature)
    }

    /// The token that the sampler draws next from `weights`.
    pub open spec fn token_for(&self, weights: Seq<u32>) -> int {
        weighted_token(weights, self.top_p, draw_of(next_state(self.rng_state)))
    }

    /// The tokens that the sampler draws from one distribution after the
    /// other, a draw for each.
    pub open spec fn tokens_for(&self, inputs: Seq<Seq<u32>>) -> Seq<int> {
        drawn_tokens(self.top_p, self.rng_state, inputs)
    }

    /// Two samplers with the same seed and `top_p` draw the same tokens
    /// from the same distributions, each the token that its place in the
    /// sequence, its distribution, `top_p` and the seed give.
    pub proof fn lemma_same_seed_same_tokens(&self, other: &Sampler, inputs: Seq<Seq<u32>>, k: int)
        requires
            self.top_p == other.top_p,
            self.rng_state == other.rng_state,
            0 <= k < inputs.len(),
        ensures
            self.tokens_for(inputs) == other.tokens_for(inputs),
            self.tokens_for(inputs).len() == inputs.len(),
            self.tokens_for(inputs)[k] == weighted_token(
                inputs[k],
                other.top_p,
                draw_of(state_after(other.rng_state, (k + 1) as nat)),
            ),
    {
        lemma_drawn_token(self.top_p, self.rng_state, inputs, k);
    }

    /// A sampler over `vocab_size` tokens whose generator starts at `seed`.
    pub fn new(vocab_size: usize, temperature: u32, top_p: u32, seed: u64) -> (r: Sampler)
        requires
            0 < vocab_size <= MAX_DIMENSION,
            0 <= order_key(temperature) <= INFINITY_BITS,
            top_p <= ONE,
        ensures
            r.wf(),
            r.vocab_size == vocab_size,
            r.temperature == temperature,
            r.top_p == top_p,
            r.rng_state == seed,
    {
        Sampler {
            vocab_size,
            temperature,
            top_p,
            rng_state: seed,
            scratch: Vec::with_capacity(vocab_size),
        }
    }

    /// Tests whether the sampler takes the highest logit.
    pub fn is_greedy(&self) -> (r: bool)
        ensures
            r == self.greedy(),
    {
        zero(self.temperature)
    }

    /// Draws the next token from the distribution that `weights` gives.
    ///
    /// One draw is taken from the generator. Where `top_p` is zero or one
    /// the token is drawn from the whole distribution, else from its
    /// nucleus of mass `top_p`. Where no weight is positive the token is 0.
    pub fn sample_weighted(&mut self, weights: &Vec<u32>) -> (token: usize)
        requires
            old(self).wf(),
            weights@.len() == old(self).vocab_size,
        ensures
            final(self).rng_state == next_state(old(self).rng_state),
            final(self).vocab_size == old(self).vocab_size,
            final(self).temperature == old(self).temperature,
            final(self).top_p == old(self).top_p,
            token == weighted_token(weights@, old(self).top_p, draw_of(final(self).rng_state)),
            token == old(self).token_for(weights@),
            token < old(self).vocab_size,
    {
        let mut state: u64 = self.rng_state;
        let coin: u32 = random_draw(&mut state);
        self.rng_state = state;
        if self.top_p == 0 || self.top_p >= ONE {
            pick_categorical(weights, coin)
        } else {
            nucleus_of(weights, self.top_p, &mut self.scratch);
            pick_listed(weights, &self.scratch, coin)
        }
    }

    /// Chooses the next token from `logits`.
    ///
    /// With a temperature of zero that is the first index of the highest
    /// logit, and no draw is taken. Otherwise `kernel` turns the logits into
    /// weights and the token is drawn as `sample_weighted` draws it.
    /// Returns `None`, and takes no draw, where `logits` or the weights that
    /// `kernel` returns are not one for every token.
    pub fn sample<K: Kernel>(&mut self, kernel: &mut K, logits: &Vec<u32>) -> (token: Option<usize>)
        requires
            old(self).wf(),
        ensures
            final(self).vocab_size == old(self).vocab_size,
            final(self).temperature == old(self).temperature,
            final(self).top_p == old(self).top_p,
            token is Some ==> token->Some_0 < old(self).vocab_size,
            logits@.len() != old(self).vocab_size ==> token is None,
            token is None ==> final(self).rng_state == old(self).rng_state,
            old(self).greedy() ==> final(self).rng_state == old(self).rng_state,
            old(self).greedy() && logits@.len() == old(self).vocab_size ==> token == Some(
                argmax(logits@) as usize,
            ),
            !old(self).greedy() && token is Some ==> final(self).rng_state == next_state(
                old(self).rng_state,
            ),
            !old(self).greedy() && token is Some ==> exists|weights: Seq<u32>|
                weights.len() == old(self).vocab_size && token->Some_0 == #[trigger] weighted_token(
                    weights,
                    old(self).top_p,
                    draw_of(next_state(old(self).rng_state)),
                ),
    {
        if logits.len() != self.vocab_size {
            return None;
        }
        if self.is_greedy() {
            return Some(greedy(logits));
        }
        let weights: Vec<u32> = kernel.softmax(logits, self.temperature);
        if weights.len() != self.vocab_size {
            return None;
        }
        let token: usize = self.sample_weighted(&weights);
        assert(token == weighted_token(
            weights@,
            old(self).top_p,
            draw_of(next_state(old(self).rng_state)),
        ));
        Some(token)
    }

    /// Draws a token from each of `inputs`, one after the other.
    pub fn draw_each(&mut self, inputs: &Vec<Vec<u32>>) -> (tokens: Vec<usize>)
        requires
            old(self).wf(),
            forall|k: int|
                0 <= k < inputs@.len() ==> (#[trigger] inputs@[k])@.len() == old(self).vocab_size,
        ensures
            final(self).wf(),
            final(self).vocab_size == old(self).vocab_size,
            final(self).temperature == old(self).temperature,
            final(self).top_p == old(self).top_p,
            final(self).rng_state == state_after(old(self).rng_state, inputs@.len()),
            tokens@.len() == inputs@.len(),
            forall|k: int|
                0 <= k < inputs@.len() ==> (#[trigger] tokens@[k]) == old(self).tokens_for(
                    distributions(inputs@),
                )[k],
    {
        let mut tokens: Vec<usize> = Vec::new();
        let mut i: usize = 0;
        proof {
            lemma_drawn_len(self.top_p, self.rng_state, distributions(inputs@));
        }
        while i < inputs.len()
            invariant
                self.wf(),
                i <= inputs@.len(),
                forall|k: int|
                    0 <= k < inputs@.len() ==> (#[trigger] inputs@[k])@.len() == self.vocab_size,
                self.vocab_size == old(self).vocab_size,
                self.temperature == old(self).temperature,
                self.top_p == old(self).top_p,
                self.rng_state == state_after(old(self).rng_state, i as nat),
                tokens@.len() == i,
                old(self).tokens_for(distributions(inputs@)).len() == inputs@.len(),
                forall|k: int|
                    0 <= k < i ==> (#[trigger] tokens@[k]) == old(self).tokens_for(
                        distributions(inputs@),
                    )[k],
            decreases inputs@.len() - i,
        {
            proof {
                lemma_drawn_token(
                    old(self).top_p,
                    old(self).rng_state,
                    distributions(inputs@),
                    i as int,
                );
                assert(state_after(old(self).rng_state, (i + 1) as nat) == next_state(
                    state_after(old(self).rng_state, i as nat),
                ));
            }
            let token: usize = self.sample_weighted(&inputs[i]);
            tokens.push(token);
            i = i + 1;
        }
        tokens
    }
}

} // verus!
