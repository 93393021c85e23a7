//! Fixed-point arithmetic underlying the solver.
//!
//! A quantity (budget, bid, dual multiplier, threshold, ratio) is held as an
//! integer number of `1 / SCALE` units.  All the algebra of the algorithm is
//! stated here as spec functions over `int`, together with the lemmas about
//! integer division and sums that the solver's proofs need.

use vstd::prelude::*;
use vstd::arithmetic::div_mod::{
    lemma_div_by_multiple, lemma_div_denominator, lemma_div_is_ordered,
    lemma_div_is_ordered_by_denominator, lemma_div_multiples_vanish, lemma_div_pos_is_pos,
};
use vstd::arithmetic::mul::{
    lemma_mul_inequality, lemma_mul_is_commutative, lemma_mul_nonnegative,
    lemma_mul_strictly_positive, lemma_mul_upper_bound,
};

verus! {

/// Number of fixed-point units in 1.0: quantities are scaled by this factor.
pub const SCALE: u64 = 1_000_000_000;

/// Largest admissible scaled budget or bid.  Keeping every monetary value
/// at or below this bound keeps all aggregates comfortably inside `u128`.
pub const MAX_MONEY: u64 = 0x20_0000_0000_0000;

/// Largest admissible number of agents or items.
pub const MAX_DIM: usize = 0x1000_0000;

/// The effective price an agent offers for an item: the bid discounted by
/// the agent's dual multiplier, `bid * (1 - alpha)` in scaled arithmetic.
pub open spec fn price_of(alpha: int, bid: int) -> int {
    bid * (SCALE - alpha) / (SCALE as int)
}

/// The budget-retention threshold `U = beta / ((alpha - 1) * (beta - 4)) + 1`
/// in scaled arithmetic: both factors of the denominator are negated, which
/// leaves the quotient unchanged and keeps every operand non-negative.
pub open spec fn u_value(alpha: int, beta: int) -> int {
    beta * (SCALE as int) * (SCALE as int) / ((SCALE - alpha) * (4 * SCALE - beta)) + SCALE
}

/// The proven approximation ratio `(1 - beta/4) * (1 - epsilon)` in scaled
/// arithmetic.
pub open spec fn ratio_of(beta: int, eps: int) -> int {
    (SCALE - beta / 4) * (SCALE - eps) / (SCALE as int)
}

/// The total of an agent's bids over a sequence of item ids.
pub open spec fn seq_bid_sum(bids: Seq<u64>, items: Seq<usize>) -> int
    decreases items.len(),
{
    if items.len() == 0 {
        0
    } else {
        bids[items[0] as int] + seq_bid_sum(bids, items.drop_first())
    }
}

/// Multiplying by a factor of at most `d` and dividing by `d` cannot grow a
/// non-negative value.
pub proof fn lemma_mul_div_le(x: int, y: int, d: int)
    requires
        0 <= x,
        0 <= y <= d,
        0 < d,
    ensures
        0 <= x * y / d <= x,
{
    lemma_mul_nonnegative(x, y);
    lemma_div_pos_is_pos(x * y, d);
    lemma_mul_inequality(y, d, x);
    lemma_mul_is_commutative(y, x);
    lemma_mul_is_commutative(d, x);
    lemma_div_is_ordered(x * y, x * d, d);
    lemma_div_by_multiple(x, d);
}

/// An effective price is non-negative and never exceeds the bid itself.
pub proof fn lemma_price_bounds(alpha: int, bid: int)
    requires
        0 <= alpha <= SCALE,
        0 <= bid,
    ensures
        0 <= price_of(alpha, bid) <= bid,
{
    lemma_mul_div_le(bid, SCALE - alpha, SCALE as int);
}

/// Raising the dual multiplier never raises the effective price.
pub proof fn lemma_price_monotone(alpha1: int, alpha2: int, bid: int)
    requires
        0 <= alpha1 <= alpha2 <= SCALE,
        0 <= bid,
    ensures
        price_of(alpha2, bid) <= price_of(alpha1, bid),
{
    lemma_mul_inequality(SCALE - alpha2, SCALE - alpha1, bid);
    lemma_mul_is_commutative(SCALE - alpha2, bid);
    lemma_mul_is_commutative(SCALE - alpha1, bid);
    lemma_div_is_ordered(bid * (SCALE - alpha2), bid * (SCALE - alpha1), SCALE as int);
}

/// The threshold is at least 1 and bounded by `SCALE` (both scaled), so the
/// exec computation of `U * budget` stays inside `u128`.
pub proof fn lemma_u_value_bounds(alpha: int, beta: int)
    requires
        0 <= alpha < SCALE,
        0 <= beta <= SCALE,
    ensures
        SCALE <= u_value(alpha, beta) <= SCALE * SCALE,
{
    let num = beta * (SCALE as int) * (SCALE as int);
    let den = (SCALE - alpha) * (4 * SCALE - beta);
    lemma_mul_strictly_positive(SCALE - alpha, 4 * SCALE - beta);
    lemma_mul_nonnegative(beta, SCALE as int);
    lemma_mul_nonnegative(beta * (SCALE as int), SCALE as int);
    lemma_div_pos_is_pos(num, den);
    // den >= 3 * SCALE, so num / den <= num / (3 * SCALE)
    lemma_mul_inequality(1, SCALE - alpha, 4 * SCALE - beta);
    lemma_div_is_ordered_by_denominator(num, 3 * SCALE, den);
    // num <= SCALE^3, so num / (3 * SCALE) <= SCALE^3 / (3 * SCALE)
    lemma_mul_inequality(beta, SCALE as int, SCALE as int);
    lemma_mul_inequality(beta * (SCALE as int), (SCALE as int) * (SCALE as int), SCALE as int);
    lemma_div_is_ordered(num, (SCALE as int) * (SCALE as int) * (SCALE as int), 3 * SCALE);
    // SCALE^3 / (3 * SCALE) is at most 333_333_333_333_333_334
    assert((SCALE as int) * (SCALE as int) * (SCALE as int) <= 333_333_333_333_333_334 * (3
        * SCALE));
    lemma_div_is_ordered(
        (SCALE as int) * (SCALE as int) * (SCALE as int),
        333_333_333_333_333_334 * (3 * SCALE),
        3 * SCALE,
    );
    lemma_div_by_multiple(333_333_333_333_333_334, 3 * SCALE);
    assert(333_333_333_333_333_334 <= (SCALE as int) * (SCALE as int) - SCALE);
}

/// The computed approximation ratio lies between `0.75 * (1 - epsilon)` and
/// `1 - epsilon` (all scaled), for any admissible `beta`.
pub proof fn lemma_ratio_bounds(beta: int, eps: int)
    requires
        0 <= beta <= SCALE,
        0 < eps < SCALE,
    ensures
        3 * (SCALE - eps) / 4 <= ratio_of(beta, eps) <= SCALE - eps,
{
    let b = SCALE - eps;
    let a = SCALE - beta / 4;
    lemma_div_is_ordered(beta, SCALE as int, 4);
    assert(SCALE as int == 250_000_000 * 4);
    lemma_div_by_multiple(250_000_000, 4);
    lemma_div_pos_is_pos(beta, 4);
    assert(750_000_000 <= a <= SCALE);
    // upper bound: a * b / SCALE <= SCALE * b / SCALE == b
    lemma_mul_inequality(a, SCALE as int, b);
    lemma_mul_is_commutative(a, b);
    lemma_mul_is_commutative(SCALE as int, b);
    lemma_div_is_ordered(a * b, (SCALE as int) * b, SCALE as int);
    lemma_div_multiples_vanish(b, SCALE as int);
    // lower bound: 750_000_000 * b / SCALE == 3 * b / 4 <= a * b / SCALE
    lemma_mul_inequality(750_000_000, a, b);
    lemma_mul_is_commutative(750_000_000, b);
    lemma_mul_is_commutative(a, b);
    lemma_div_is_ordered(750_000_000 * b, a * b, SCALE as int);
    assert(750_000_000 * b == (3 * b) * 250_000_000);
    lemma_div_denominator((3 * b) * 250_000_000, 250_000_000, 4);
    lemma_mul_nonnegative(3 * b, 250_000_000);
    lemma_div_by_multiple(3 * b, 250_000_000);
    assert((3 * b) * 250_000_000 / 250_000_000 == 3 * b);
}

/// Appending an item adds that item's bid to the total.
pub proof fn lemma_sum_push(bids: Seq<u64>, items: Seq<usize>, x: usize)
    ensures
        seq_bid_sum(bids, items.push(x)) == seq_bid_sum(bids, items) + bids[x as int],
    decreases items.len(),
{
    if items.len() == 0 {
        assert(items.push(x).drop_first() =~= items);
    } else {
        assert(items.push(x).drop_first() =~= items.drop_first().push(x));
        lemma_sum_push(bids, items.drop_first(), x);
    }
}

/// A total of bids is never negative.
pub proof fn lemma_sum_nonneg(bids: Seq<u64>, items: Seq<usize>)
    ensures
        0 <= seq_bid_sum(bids, items),
    decreases items.len(),
{
    if items.len() > 0 {
        lemma_sum_nonneg(bids, items.drop_first());
    }
}

/// A total of bids, each at most `bound`, is at most `len * bound`.
pub proof fn lemma_sum_bound(bids: Seq<u64>, items: Seq<usize>, bound: int)
    requires
        forall|k: int| 0 <= k < items.len() ==> (#[trigger] items[k]) < bids.len(),
        forall|j: int| 0 <= j < bids.len() ==> #[trigger] bids[j] <= bound,
    ensures
        seq_bid_sum(bids, items) <= items.len() * bound,
    decreases items.len(),
{
    if items.len() == 0 {
    } else {
        lemma_sum_bound(bids, items.drop_first(), bound);
        assert(seq_bid_sum(bids, items.drop_first()) <= items.drop_first().len() * bound);
        assert(items.len() * bound == items.drop_first().len() * bound + bound) by {
            lemma_mul_is_commutative(items.len() as int, bound);
            lemma_mul_is_commutative(items.drop_first().len() as int, bound);
            vstd::arithmetic::mul::lemma_mul_is_distributive_add(
                bound,
                items.drop_first().len() as int,
                1,
            );
        }
    }
}

/// If every listed bid is zero, the total is zero.
pub proof fn lemma_sum_zero(bids: Seq<u64>, items: Seq<usize>)
    requires
        forall|k: int| 0 <= k < items.len() ==> bids[#[trigger] items[k] as int] == 0,
    ensures
        seq_bid_sum(bids, items) == 0,
    decreases items.len(),
{
    if items.len() > 0 {
        assert(forall|k: int|
            0 <= k < items.drop_first().len() ==> items.drop_first()[k] == items[k + 1]);
        lemma_sum_zero(bids, items.drop_first());
    }
}

/// A sequence of pairwise-distinct values below `m` has at most `m` entries.
pub proof fn lemma_distinct_bounded_len(s: Seq<usize>, m: int)
    requires
        0 <= m,
        forall|k: int| 0 <= k < s.len() ==> (#[trigger] s[k]) < m,
        forall|k1: int, k2: int|
            0 <= k1 < s.len() && 0 <= k2 < s.len() && k1 != k2 ==> #[trigger] s[k1]
                != #[trigger] s[k2],
    ensures
        s.len() <= m,
    decreases m,
{
    if s.len() == 0 {
    } else if m == 0 {
        assert(s[0] < 0);
    } else if exists|i: int| 0 <= i < s.len() && s[i] == m - 1 {
        let i = choose|i: int| 0 <= i < s.len() && s[i] == m - 1;
        let s2 = s.remove(i);
        assert(forall|k: int| 0 <= k < s2.len() ==> (#[trigger] s2[k]) < m - 1) by {
            assert(forall|k: int|
                0 <= k < s2.len() ==> s2[k] == (if k < i {
                    s[k]
                } else {
                    s[k + 1]
                }));
        }
        lemma_distinct_bounded_len(s2, m - 1);
    } else {
        assert(forall|k: int| 0 <= k < s.len() ==> (#[trigger] s[k]) < m - 1);
        lemma_distinct_bounded_len(s, m - 1);
    }
}

} // verus!
