use budgeted_allocation::arith::{MAX_MONEY, SCALE};
use budgeted_allocation::primal_dual::{PrimalDual, SolverError};

/// 1 monetary unit in fixed-point representation.
const ONE: u64 = SCALE;
/// Approximation slack of 0.01 in fixed-point representation.
const EPS: u64 = SCALE / 100;

fn sample_solver() -> PrimalDual {
    let num_agents = 2;
    let num_items = 3;

    let mut solver = PrimalDual::new(num_agents, num_items, EPS);

    solver.set_budget(0, 300 * ONE).unwrap();
    solver.set_budget(1, 400 * ONE).unwrap();

    solver.set_bid(0, 0, 200 * ONE).unwrap();
    solver.set_bid(0, 1, 200 * ONE).unwrap();
    solver.set_bid(0, 2, 100 * ONE).unwrap();

    solver.set_bid(1, 0, 100 * ONE).unwrap();
    solver.set_bid(1, 1, 100 * ONE).unwrap();
    solver.set_bid(1, 2, 200 * ONE).unwrap();

    solver
}

#[test]
fn sample() {
    let mut solver = sample_solver();

    solver.solve().unwrap();

    let primal_objective_value = solver.get_primal_objective_value();
    let dual_objective_value = solver.get_dual_objective_value();
    let approximate_rate = solver.get_approximation_ratio();
    assert_eq!(primal_objective_value, 500 * ONE as u128);
    // primal >= dual * ratio, compared exactly in fixed point
    assert!(primal_objective_value * SCALE as u128 >= dual_objective_value * approximate_rate as u128);
}

#[test]
fn budget_cap_on_sample() {
    let mut solver = sample_solver();
    solver.solve().unwrap();
    let primal = solver.get_primal_objective_value();
    let budget_total = solver.get_budget(0) as u128 + solver.get_budget(1) as u128;
    assert!(primal <= budget_total);
}

#[test]
fn alpha_rises_only_for_overloaded_agents() {
    let mut solver = sample_solver();
    assert_eq!(solver.alpha, vec![0, 0]);
    solver.solve().unwrap();
    // agent 0 is over budget at the start and must raise its dual price;
    // agent 1 is within budget and never does
    assert!(solver.alpha[0] > 0);
    assert_eq!(solver.alpha[1], 0);
}

#[test]
fn beta_stays_within_unit_range() {
    let mut solver = PrimalDual::new(2, 2, EPS);
    solver.set_budget(0, 100 * ONE).unwrap();
    solver.set_budget(1, 500 * ONE).unwrap();
    assert_eq!(solver.beta, 0);
    solver.set_bid(0, 0, 100 * ONE).unwrap();
    // a bid equal to the budget drives beta to exactly 1
    assert_eq!(solver.beta, SCALE);
    solver.set_bid(1, 1, 250 * ONE).unwrap();
    // a smaller ratio leaves the maximum in place
    assert_eq!(solver.beta, SCALE);
    assert!(solver.beta <= SCALE);
}

#[test]
fn ratio_stays_within_bounds() {
    let mut solver = PrimalDual::new(2, 2, EPS);
    solver.set_budget(0, 300 * ONE).unwrap();
    solver.set_bid(0, 0, 200 * ONE).unwrap();
    let ratio = solver.get_approximation_ratio();
    let lower = 3 * (SCALE - EPS) / 4;
    let upper = SCALE - EPS;
    assert!(lower <= ratio && ratio <= upper);
    // beta = 2/3, so the ratio is (1 - 1/6) * 0.99 with rounding down
    let beta = 200u128 * SCALE as u128 / 300;
    let expected = (SCALE as u128 - beta / 4) * (SCALE as u128 - EPS as u128) / SCALE as u128;
    assert_eq!(ratio as u128, expected);
}

#[test]
fn queries_are_idempotent() {
    let mut solver = sample_solver();
    solver.solve().unwrap();
    assert_eq!(solver.get_primal_objective_value(), solver.get_primal_objective_value());
    assert_eq!(solver.get_dual_objective_value(), solver.get_dual_objective_value());
    assert_eq!(solver.get_approximation_ratio(), solver.get_approximation_ratio());
    let first: Vec<Vec<usize>> = solver.get_assignment().iter().map(|d| d.iter().copied().collect()).collect();
    let second: Vec<Vec<usize>> = solver.get_assignment().iter().map(|d| d.iter().copied().collect()).collect();
    assert_eq!(first, second);
}

#[test]
fn unaffordable_bid_is_a_no_op() {
    let mut solver = PrimalDual::new(2, 2, EPS);
    solver.set_budget(0, 100 * ONE).unwrap();
    solver.set_bid(0, 0, 60 * ONE).unwrap();
    let beta_before = solver.beta;
    let ratio_before = solver.get_approximation_ratio();

    // above the agent's budget: accepted as a call, ignored as a bid
    assert_eq!(solver.set_bid(0, 1, 101 * ONE), Ok(()));
    assert_eq!(solver.get_bid(0, 1), 0);
    // an existing bid is not disturbed either
    assert_eq!(solver.set_bid(0, 0, 200 * ONE), Ok(()));
    assert_eq!(solver.get_bid(0, 0), 60 * ONE);
    assert_eq!(solver.beta, beta_before);
    assert_eq!(solver.get_approximation_ratio(), ratio_before);
}

#[test]
fn unbid_item_stays_unassigned() {
    let mut solver = PrimalDual::new(2, 3, EPS);
    solver.set_budget(0, 300 * ONE).unwrap();
    solver.set_budget(1, 400 * ONE).unwrap();
    solver.set_bid(0, 0, 200 * ONE).unwrap();
    solver.set_bid(1, 2, 100 * ONE).unwrap();
    solver.solve().unwrap();
    let assignment = solver.get_assignment();
    for agent_items in assignment.iter() {
        for item in agent_items.iter() {
            assert_ne!(*item, 1);
        }
    }
}

#[test]
fn no_bid_instance_yields_zero_objectives() {
    let mut solver = PrimalDual::new(3, 4, EPS);
    solver.set_budget(0, 10 * ONE).unwrap();
    solver.set_budget(1, 20 * ONE).unwrap();
    solver.set_budget(2, 30 * ONE).unwrap();
    solver.solve().unwrap();
    assert_eq!(solver.get_primal_objective_value(), 0);
    assert_eq!(solver.get_dual_objective_value(), 0);
    assert_eq!(solver.get_approximation_ratio(), SCALE - EPS);
}

#[test]
fn invalid_values_are_rejected() {
    let mut solver = PrimalDual::new(1, 1, EPS);
    assert_eq!(solver.set_budget(0, MAX_MONEY + 1), Err(SolverError::InvalidBudget));
    solver.set_budget(0, 5 * ONE).unwrap();
    assert_eq!(solver.set_bid(0, 0, 0), Err(SolverError::InvalidBid));
    assert_eq!(solver.set_bid(0, 0, MAX_MONEY + 1), Err(SolverError::InvalidBid));
    assert_eq!(solver.get_bid(0, 0), 0);
}

#[test]
fn budget_overwrites() {
    let mut solver = PrimalDual::new(1, 1, EPS);
    solver.set_budget(0, 5 * ONE).unwrap();
    assert_eq!(solver.get_budget(0), 5 * ONE);
    solver.set_budget(0, 7 * ONE).unwrap();
    assert_eq!(solver.get_budget(0), 7 * ONE);
}

#[test]
fn sample_assignment_gives_each_item_one_owner() {
    let mut solver = sample_solver();
    solver.solve().unwrap();
    let assignment = solver.get_assignment();
    let mut seen = vec![0usize; 3];
    for agent_items in assignment.iter() {
        for item in agent_items.iter() {
            seen[*item] += 1;
        }
    }
    // every item got a bid, so each ends up with exactly one owner
    assert_eq!(seen, vec![1, 1, 1]);
}

#[test]
fn approximation_holds_on_uneven_instance() {
    let mut solver = PrimalDual::new(3, 5, EPS);
    solver.set_budget(0, 120 * ONE).unwrap();
    solver.set_budget(1, 80 * ONE).unwrap();
    solver.set_budget(2, 200 * ONE).unwrap();
    solver.set_bid(0, 0, 90 * ONE).unwrap();
    solver.set_bid(0, 1, 60 * ONE).unwrap();
    solver.set_bid(1, 1, 70 * ONE).unwrap();
    solver.set_bid(1, 2, 50 * ONE).unwrap();
    solver.set_bid(2, 2, 40 * ONE).unwrap();
    solver.set_bid(2, 3, 150 * ONE).unwrap();
    solver.set_bid(2, 4, 60 * ONE).unwrap();
    solver.solve().unwrap();
    let primal = solver.get_primal_objective_value();
    let dual = solver.get_dual_objective_value();
    let ratio = solver.get_approximation_ratio();
    assert!(primal * SCALE as u128 >= dual * ratio as u128);
    let budget_total = (120 + 80 + 200) * ONE as u128;
    assert!(primal <= budget_total);
}
