//! An approximate solver for the maximum budgeted allocation problem.
//!
//! Budget-constrained agents place bids on indivisible items; the solver
//! assigns each item to at most one agent so as to maximize the total
//! revenue collected, where an agent's collected revenue is capped at its
//! budget.  The algorithm is a primal-dual ascending-auction fixpoint with a
//! proven `(1 - beta/4)(1 - epsilon)` approximation guarantee.
//!
//! All monetary quantities and dual multipliers are decimal fixed-point
//! numbers: a `u64` holds a value scaled by [`arith::SCALE`] so that the
//! arithmetic of the algorithm is exact integer arithmetic.

pub mod arith;
pub mod laws;
pub mod primal_dual;
