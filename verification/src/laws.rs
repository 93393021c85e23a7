//! Global laws of the solver, stated and proved over its invariant.

use vstd::prelude::*;
use vstd::arithmetic::div_mod::{
    lemma_div_is_ordered_by_denominator, lemma_div_multiples_vanish, lemma_div_of0,
};
use vstd::arithmetic::mul::{
    lemma_mul_inequality, lemma_mul_is_commutative, lemma_mul_nonnegative,
    lemma_mul_strictly_positive,
};

use crate::arith::{lemma_ratio_bounds, ratio_of, u_value, SCALE};
use crate::primal_dual::{lemma_no_bids_consumption_zero, PrimalDual};

verus! {

/// The spread constant `beta` always lies in `[0, 1]` (scaled), because only
/// bids at most the agent's budget are ever admitted.
pub proof fn lemma_beta_bound(s: PrimalDual)
    requires
        s.wf(),
    ensures
        0 <= s.beta <= SCALE,
{
}

/// Budget cap: consumption is never negative, and the realized objective
/// never exceeds the total of all budgets, since each agent's contribution
/// is capped at its own budget.
pub proof fn lemma_budget_cap(s: PrimalDual, k: int)
    requires
        s.wf(),
        0 <= k <= s.num_agents,
    ensures
        forall|a: int| 0 <= a < s.num_agents ==> #[trigger] s.consumptions@[a] >= 0,
        0 <= s.primal_value(k) <= s.budget_total(k),
    decreases k,
{
    if k > 0 {
        lemma_budget_cap(s, k - 1);
    }
}

/// Ratio bound: the reported approximation ratio always lies between
/// `0.75 * (1 - epsilon)` and `1 - epsilon` (all scaled), because `beta`
/// never leaves `[0, 1]`.
pub proof fn lemma_ratio_bound(s: PrimalDual)
    requires
        s.wf(),
    ensures
        3 * (SCALE - s.epsilon) / 4 <= ratio_of(s.beta as int, s.epsilon as int) <= SCALE
            - s.epsilon,
{
    lemma_ratio_bounds(s.beta as int, s.epsilon as int);
}

/// Relaxing threshold: the budget-retention threshold `U` never falls as an
/// agent's dual multiplier rises, so raising the dual price only relaxes the
/// paid-for constraint.
pub proof fn lemma_threshold_monotone(alpha1: int, alpha2: int, beta: int)
    requires
        0 <= alpha1 <= alpha2 < SCALE,
        0 <= beta <= SCALE,
    ensures
        u_value(alpha1, beta) <= u_value(alpha2, beta),
{
    let num = beta * (SCALE as int) * (SCALE as int);
    let den1 = (SCALE - alpha1) * (4 * SCALE - beta);
    let den2 = (SCALE - alpha2) * (4 * SCALE - beta);
    lemma_mul_nonnegative(beta, SCALE as int);
    lemma_mul_nonnegative(beta * (SCALE as int), SCALE as int);
    lemma_mul_strictly_positive(SCALE - alpha2, 4 * SCALE - beta);
    lemma_mul_inequality(SCALE - alpha2, SCALE - alpha1, 4 * SCALE - beta);
    lemma_div_is_ordered_by_denominator(num, den2, den1);
}

/// Unassigned item: an item on which no agent has an admitted bid never
/// appears in any agent's ledger entry.
pub proof fn lemma_unassigned_item(s: PrimalDual, i: int)
    requires
        s.wf(),
        0 <= i < s.num_items,
        forall|a: int| 0 <= a < s.num_agents ==> #[trigger] s.bids_at(a)[i] == 0,
    ensures
        forall|a: int, k: int|
            0 <= a < s.num_agents && 0 <= k < s.gamma_at(a).len() ==> (#[trigger] s.gamma_at(a)[k])
                != i,
{
    assert forall|a: int, k: int|
        0 <= a < s.num_agents && 0 <= k < s.gamma_at(a).len() implies (#[trigger] s.gamma_at(a)[k])
        != i by {
        if s.gamma_at(a)[k] == i {
            assert(s.bids@[a]@[i] > 0);
            assert(s.bids_at(a)[i] == 0);
        }
    };
}

/// No-bid instance: with no admitted bid anywhere and the dual state still
/// at zero, the realized objective and the dual certificate are both zero
/// and the approximation ratio is exactly `1 - epsilon` (scaled).
pub proof fn lemma_no_bid_instance(s: PrimalDual)
    requires
        s.wf(),
        s.no_admitted_bids(),
        s.beta == 0,
        forall|a: int| 0 <= a < s.num_agents ==> #[trigger] s.alpha@[a] == 0,
    ensures
        s.primal_value(s.num_agents as int) == 0,
        s.dual_value(s.num_agents as int) == 0,
        ratio_of(s.beta as int, s.epsilon as int) == SCALE - s.epsilon,
{
    lemma_objectives_zero(s, s.num_agents as int);
    lemma_div_of0(4);
    lemma_div_multiples_vanish(SCALE - s.epsilon, SCALE as int);
    lemma_mul_is_commutative(SCALE as int, SCALE - s.epsilon);
}

/// Helper for [`lemma_no_bid_instance`]: with all-zero bids and multipliers
/// the partial objective totals vanish.
proof fn lemma_objectives_zero(s: PrimalDual, k: int)
    requires
        s.wf(),
        s.no_admitted_bids(),
        forall|a: int| 0 <= a < s.num_agents ==> #[trigger] s.alpha@[a] == 0,
        0 <= k <= s.num_agents,
    ensures
        s.primal_value(k) == 0,
        s.dual_value(k) == 0,
    decreases k,
{
    if k > 0 {
        lemma_objectives_zero(s, k - 1);
        lemma_no_bids_consumption_zero(s, k - 1);
        assert(s.alpha@[k - 1] == 0);
        assert(s.consumptions@[k - 1] == 0);
        vstd::arithmetic::mul::lemma_mul_basics(s.budgets@[k - 1] as int);
        vstd::arithmetic::mul::lemma_mul_basics(SCALE as int);
        lemma_div_of0(SCALE as int);
    }
}

} // verus!
