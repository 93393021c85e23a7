//! The primal-dual solver for maximum budgeted allocation.

use std::collections::VecDeque;
use vstd::prelude::*;

use crate::arith::{
    lemma_distinct_bounded_len, lemma_mul_div_le, lemma_price_bounds, lemma_price_monotone,
    lemma_ratio_bounds, lemma_sum_bound, lemma_sum_nonneg, lemma_sum_push, lemma_sum_zero,
    lemma_u_value_bounds, price_of, ratio_of, seq_bid_sum, u_value, MAX_DIM, MAX_MONEY, SCALE,
};
use vstd::arithmetic::div_mod::{lemma_div_is_ordered, lemma_fundamental_div_mod_converse_div};
use vstd::arithmetic::mul::{
    lemma_mul_inequality, lemma_mul_is_distributive_add_other_way, lemma_mul_nonnegative,
    lemma_mul_upper_bound,
};

verus! {

/// How a mutating call can fail at the boundary.
#[derive(Clone, Copy, Debug, PartialEq, Eq, Structural)]
pub enum SolverError {
    /// The budget value cannot be represented (it exceeds [`MAX_MONEY`]).
    InvalidBudget,
    /// The bid is zero or cannot be represented (it exceeds [`MAX_MONEY`]).
    InvalidBid,
    /// The solve did not reach a fixpoint within its iteration budget; the
    /// instance is pathological for the configured `epsilon`.
    Internal,
}

/// One candidate entry of the price index: an agent, the effective price it
/// offered for the item, and the agent's update count when the price was
/// recorded.  A recorded price is stale once the agent's update count moves.
#[derive(Clone, Copy)]
pub struct Candidate {
    pub price: u64,
    pub version: u64,
    pub agent: usize,
}

/// Budgets and bid rows exist for every agent and stay in the representable
/// money range.
pub open spec fn money_ok(budgets: Seq<u64>, bids: Seq<Vec<u64>>, n: int, m: int) -> bool {
    &&& budgets.len() == n
    &&& bids.len() == n
    &&& forall|a: int| 0 <= a < n ==> (#[trigger] bids[a])@.len() == m
    &&& forall|a: int| 0 <= a < n ==> #[trigger] budgets[a] <= MAX_MONEY
    &&& forall|a: int, i: int| 0 <= a < n && 0 <= i < m ==> #[trigger] bids[a]@[i] <= MAX_MONEY
}

/// Every dual multiplier stays below 1 and dominates its update count, so
/// the count can never overflow.
pub open spec fn dual_ok(alpha: Seq<u64>, num_update: Seq<u64>, n: int) -> bool {
    &&& alpha.len() == n
    &&& num_update.len() == n
    &&& forall|a: int| 0 <= a < n ==> #[trigger] alpha[a] < SCALE
    &&& forall|a: int| 0 <= a < n ==> #[trigger] num_update[a] <= alpha[a]
    &&& forall|a: int| 0 <= a < n && #[trigger] num_update[a] == 0 ==> alpha[a] == 0
}

/// A candidate entry of item `i` is consistent: a real agent with an
/// admitted bid, a version no newer than the agent's, and a recorded price
/// never below the current effective price and equal to it while the
/// version is current.
pub open spec fn entry_ok(
    bids: Seq<Vec<u64>>,
    alpha: Seq<u64>,
    num_update: Seq<u64>,
    e: Candidate,
    i: int,
    n: int,
) -> bool {
    &&& e.agent < n
    &&& bids[e.agent as int]@[i] > 0
    &&& e.version <= num_update[e.agent as int]
    &&& price_of(alpha[e.agent as int] as int, bids[e.agent as int]@[i] as int) <= e.price
    &&& e.version == num_update[e.agent as int] ==> e.price == price_of(
        alpha[e.agent as int] as int,
        bids[e.agent as int]@[i] as int,
    )
}

/// Some candidate entry of the row names agent `a`.
pub open spec fn row_has_agent(row: Seq<Candidate>, a: int) -> bool {
    exists|k: int| 0 <= k < row.len() && (#[trigger] row[k]).agent == a
}

/// Strict order on candidate entries: by price, then version, then agent.
pub open spec fn cand_lt(a: Candidate, b: Candidate) -> bool {
    ||| a.price < b.price
    ||| (a.price == b.price && a.version < b.version)
    ||| (a.price == b.price && a.version == b.version && a.agent < b.agent)
}

/// The price index is consistent: every entry is well formed, one agent
/// appears at most once per item, and every admitted bid has an entry.
pub open spec fn index_ok(
    bids: Seq<Vec<u64>>,
    alpha: Seq<u64>,
    num_update: Seq<u64>,
    item_agent: Seq<Vec<Candidate>>,
    n: int,
    m: int,
) -> bool {
    &&& item_agent.len() == m
    &&& forall|i: int, k: int|
        0 <= i < m && 0 <= k < item_agent[i]@.len() ==> entry_ok(
            bids,
            alpha,
            num_update,
            #[trigger] item_agent[i]@[k],
            i,
            n,
        )
    &&& forall|i: int, k1: int, k2: int|
        0 <= i < m && 0 <= k1 < item_agent[i]@.len() && 0 <= k2 < item_agent[i]@.len() && k1 != k2
            ==> (#[trigger] item_agent[i]@[k1]).agent != (#[trigger] item_agent[i]@[k2]).agent
    &&& forall|a: int, i: int|
        0 <= a < n && 0 <= i < m && #[trigger] bids[a]@[i] > 0 ==> row_has_agent(item_agent[i]@, a)
}

/// The number of stale candidate entries (version behind the agent's update
/// count) from position `k` of the row on.
pub open spec fn stale_from(row: Seq<Candidate>, num_update: Seq<u64>, k: int) -> int
    decreases row.len() - k,
{
    if 0 <= k < row.len() {
        (if row[k].version != num_update[row[k].agent as int] {
            1int
        } else {
            0int
        }) + stale_from(row, num_update, k + 1)
    } else {
        0
    }
}

/// The ledger is consistent: entries list real items the agent bid on, no
/// item is owned twice, and consumption equals the total of the bids over
/// the owned items.
pub open spec fn ledger_ok(
    bids: Seq<Vec<u64>>,
    gamma: Seq<VecDeque<usize>>,
    consumptions: Seq<u128>,
    n: int,
    m: int,
) -> bool {
    &&& gamma.len() == n
    &&& consumptions.len() == n
    &&& forall|a: int, k: int|
        0 <= a < n && 0 <= k < gamma[a]@.len() ==> (#[trigger] gamma[a]@[k]) < m
            && bids[a]@[gamma[a]@[k] as int] > 0
    &&& forall|a1: int, k1: int, a2: int, k2: int|
        0 <= a1 < n && 0 <= k1 < gamma[a1]@.len() && 0 <= a2 < n && 0 <= k2 < gamma[a2]@.len() && (
        a1 != a2 || k1 != k2) ==> (#[trigger] gamma[a1]@[k1]) != (#[trigger] gamma[a2]@[k2])
    &&& forall|a: int|
        0 <= a < n ==> #[trigger] consumptions[a] as int == seq_bid_sum(bids[a]@, gamma[a]@)
}

/// The items among `[0, i)` whose initial-assignment pointer names agent
/// `a`, in increasing order: what the initial assignment owes that agent.
pub open spec fn initial_items(max_bid_agent: Seq<usize>, a: int, i: int) -> Seq<usize>
    decreases i,
{
    if i <= 0 {
        Seq::empty()
    } else if max_bid_agent[i - 1] == a {
        initial_items(max_bid_agent, a, i - 1).push((i - 1) as usize)
    } else {
        initial_items(max_bid_agent, a, i - 1)
    }
}

/// Some agent's ledger entry lists the item.
pub open spec fn item_owned(gamma: Seq<VecDeque<usize>>, n: int, item: usize) -> bool {
    exists|a: int, k: int| 0 <= a < n && 0 <= k < gamma[a]@.len() && #[trigger] gamma[a]@[k] == item
}

/// Every item that any agent bid on is owned by some agent: the initial
/// assignment hands such an item out, and reconciliation only moves items
/// between agents, never drops one.
pub open spec fn items_assigned(
    gamma: Seq<VecDeque<usize>>,
    max_bid_agent: Seq<usize>,
    n: int,
    m: int,
) -> bool {
    forall|i: int|
        0 <= i < m && (#[trigger] max_bid_agent[i]) < n ==> item_owned(gamma, n, i as usize)
}

/// The initial-assignment pointers are consistent: a pointer either names no
/// agent (value `n`) and then no agent bid on the item, or it names an agent
/// with an admitted bid on the item.
pub open spec fn max_bid_ok(
    bids: Seq<Vec<u64>>,
    max_bid_agent: Seq<usize>,
    n: int,
    m: int,
) -> bool {
    &&& max_bid_agent.len() == m
    &&& forall|i: int| 0 <= i < m ==> #[trigger] max_bid_agent[i] <= n
    &&& forall|i: int|
        0 <= i < m && #[trigger] max_bid_agent[i] < n ==> bids[max_bid_agent[i] as int]@[i] > 0
    &&& forall|i: int, a: int|
        0 <= i < m && 0 <= a < n && max_bid_agent[i] == n ==> #[trigger] bids[a]@[i] == 0
}

/// The solver instance: state store, price index, assignment ledger, and the
/// convergence driver over them.
pub struct PrimalDual {
    pub num_agents: usize,
    pub num_items: usize,
    /// Approximation slack, scaled by [`SCALE`]; strictly between 0 and 1.
    pub epsilon: u64,
    /// Per-agent budget, scaled by [`SCALE`].
    pub budgets: Vec<u64>,
    /// `bids[agent][item]`, scaled by [`SCALE`]; 0 means no admitted bid.
    pub bids: Vec<Vec<u64>>,
    /// Per-agent dual multiplier in `[0, 1)`, scaled by [`SCALE`].
    pub alpha: Vec<u64>,
    /// Maximum admitted bid-to-budget ratio, scaled by [`SCALE`].
    pub beta: u64,
    /// Per-agent total of bids over the items it currently owns.
    pub consumptions: Vec<u128>,
    /// Assignment ledger: `gamma[agent]` lists the items the agent owns.
    pub gamma: Vec<VecDeque<usize>>,
    /// Price index: `item_agent[item]` lists the candidate entries.
    pub item_agent: Vec<Vec<Candidate>>,
    /// Per-agent count of effective dual updates; versions the price index.
    pub num_update: Vec<u64>,
    /// Per-item agent with the highest raw bid, or `num_agents` for none.
    pub max_bid_agent: Vec<usize>,
}

impl PrimalDual {
    /// The per-agent bid rows as a sequence of sequences.
    pub open spec fn bids_at(self, a: int) -> Seq<u64> {
        self.bids@[a]@
    }

    /// The ledger entry of one agent as a sequence of item ids.
    pub open spec fn gamma_at(self, a: int) -> Seq<usize> {
        self.gamma@[a]@
    }

    /// The current effective price of agent `a` for item `i`.
    pub open spec fn spec_price(self, a: int, i: int) -> int {
        price_of(self.alpha@[a] as int, self.bids_at(a)[i] as int)
    }

    /// Everything of the invariant except the ledger: the part that a
    /// reconciliation step keeps intact while it moves an item.
    pub open spec fn wf_core(self) -> bool {
        let n = self.num_agents as int;
        let m = self.num_items as int;
        &&& self.num_agents <= MAX_DIM
        &&& self.num_items <= MAX_DIM
        &&& 0 < self.epsilon < SCALE
        &&& self.beta <= SCALE
        &&& money_ok(self.budgets@, self.bids@, n, m)
        &&& dual_ok(self.alpha@, self.num_update@, n)
        &&& index_ok(self.bids@, self.alpha@, self.num_update@, self.item_agent@, n, m)
        &&& max_bid_ok(self.bids@, self.max_bid_agent@, n, m)
    }

    /// The solver's full invariant.
    pub open spec fn wf(self) -> bool {
        &&& self.wf_core()
        &&& ledger_ok(
            self.bids@,
            self.gamma@,
            self.consumptions@,
            self.num_agents as int,
            self.num_items as int,
        )
    }

    /// No call to `solve` has done any work yet: the dual state and the
    /// ledger are all-zero, as construction leaves them.
    pub open spec fn unsolved(self) -> bool {
        &&& forall|a: int| 0 <= a < self.num_agents ==> #[trigger] self.alpha@[a] == 0
        &&& forall|a: int| 0 <= a < self.num_agents ==> #[trigger] self.num_update@[a] == 0
        &&& forall|a: int| 0 <= a < self.num_agents ==> #[trigger] self.consumptions@[a] == 0
        &&& forall|a: int| 0 <= a < self.num_agents ==> self.gamma_at(a).len() == 0
    }

    /// No bid was ever admitted.
    pub open spec fn no_admitted_bids(self) -> bool {
        forall|a: int, i: int|
            0 <= a < self.num_agents && 0 <= i < self.num_items ==> #[trigger] self.bids_at(a)[i]
                == 0
    }

    /// Agent `a` is paid for: its consumption is within the threshold times
    /// its budget (compared cross-multiplied to stay in integers).
    pub open spec fn spec_paid_for(self, a: int) -> bool {
        self.consumptions@[a] * SCALE <= u_value(self.alpha@[a] as int, self.beta as int)
            * self.budgets@[a]
    }

    /// The realized, budget-capped revenue over agents `[0, k)`.
    pub open spec fn primal_value(self, k: int) -> int
        decreases k,
    {
        if k <= 0 {
            0
        } else {
            self.primal_value(k - 1) + if self.consumptions@[k - 1] <= self.budgets@[k - 1] {
                self.consumptions@[k - 1] as int
            } else {
                self.budgets@[k - 1] as int
            }
        }
    }

    /// The dual certificate `sum budget * alpha + consumption * (1 - alpha)`
    /// over agents `[0, k)`, each term rounded down to scale.
    pub open spec fn dual_value(self, k: int) -> int
        decreases k,
    {
        if k <= 0 {
            0
        } else {
            self.dual_value(k - 1) + (self.budgets@[k - 1] * self.alpha@[k - 1]
                + self.consumptions@[k - 1] * (SCALE - self.alpha@[k - 1])) / (SCALE as int)
        }
    }

    /// The total of all budgets over agents `[0, k)`.
    pub open spec fn budget_total(self, k: int) -> int
        decreases k,
    {
        if k <= 0 {
            0
        } else {
            self.budget_total(k - 1) + self.budgets@[k - 1]
        }
    }

    /// Creates a solver for `num_agents` agents and `num_items` items with
    /// approximation slack `epsilon` (scaled by [`SCALE`]); all budgets,
    /// bids, multipliers and ledgers start at zero.
    pub fn new(num_agents: usize, num_items: usize, epsilon: u64) -> (s: Self)
        requires
            num_agents <= MAX_DIM,
            num_items <= MAX_DIM,
            0 < epsilon < SCALE,
        ensures
            s.wf(),
            s.unsolved(),
            s.num_agents == num_agents,
            s.num_items == num_items,
            s.epsilon == epsilon,
            s.beta == 0,
            s.no_admitted_bids(),
            forall|a: int| 0 <= a < num_agents ==> #[trigger] s.budgets@[a] == 0,
    {
        let mut budgets: Vec<u64> = Vec::new();
        let mut bids: Vec<Vec<u64>> = Vec::new();
        let mut alpha: Vec<u64> = Vec::new();
        let mut consumptions: Vec<u128> = Vec::new();
        let mut gamma: Vec<VecDeque<usize>> = Vec::new();
        let mut num_update: Vec<u64> = Vec::new();
        let mut item_agent: Vec<Vec<Candidate>> = Vec::new();
        let mut max_bid_agent: Vec<usize> = Vec::new();
        let mut a: usize = 0;
        while a < num_agents
            invariant
                a <= num_agents,
                budgets@.len() == a,
                bids@.len() == a,
                alpha@.len() == a,
                consumptions@.len() == a,
                gamma@.len() == a,
                num_update@.len() == a,
                forall|j: int| 0 <= j < a ==> #[trigger] budgets@[j] == 0,
                forall|j: int| 0 <= j < a ==> #[trigger] alpha@[j] == 0,
                forall|j: int| 0 <= j < a ==> #[trigger] consumptions@[j] == 0,
                forall|j: int| 0 <= j < a ==> #[trigger] num_update@[j] == 0,
                forall|j: int| 0 <= j < a ==> (#[trigger] gamma@[j])@.len() == 0,
                forall|j: int, i: int|
                    0 <= j < a && 0 <= i < num_items ==> #[trigger] bids@[j]@[i] == 0,
                forall|j: int| 0 <= j < a ==> (#[trigger] bids@[j])@.len() == num_items,
            decreases num_agents - a,
        {
            budgets.push(0);
            let mut row: Vec<u64> = Vec::new();
            let mut i: usize = 0;
            while i < num_items
                invariant
                    i <= num_items,
                    row@.len() == i,
                    forall|j: int| 0 <= j < i ==> #[trigger] row@[j] == 0,
                decreases num_items - i,
            {
                row.push(0);
                i = i + 1;
            }
            bids.push(row);
            alpha.push(0);
            consumptions.push(0);
            gamma.push(VecDeque::new());
            num_update.push(0);
            a = a + 1;
        }
        let mut i: usize = 0;
        while i < num_items
            invariant
                i <= num_items,
                item_agent@.len() == i,
                max_bid_agent@.len() == i,
                forall|j: int| 0 <= j < i ==> (#[trigger] item_agent@[j])@.len() == 0,
                forall|j: int| 0 <= j < i ==> #[trigger] max_bid_agent@[j] == num_agents,
            decreases num_items - i,
        {
            item_agent.push(Vec::new());
            max_bid_agent.push(num_agents);
            i = i + 1;
        }
        PrimalDual {
            num_agents,
            num_items,
            epsilon,
            budgets,
            bids,
            alpha,
            beta: 0,
            consumptions,
            gamma,
            item_agent,
            num_update,
            max_bid_agent,
        }
    }

    /// Stores the budget of one agent; repeated calls replace the value.
    /// A value beyond the representable range is rejected.
    pub fn set_budget(&mut self, agent_id: usize, budget: u64) -> (r: Result<(), SolverError>)
        requires
            old(self).wf(),
            agent_id < old(self).num_agents,
        ensures
            final(self).wf(),
            budget > MAX_MONEY ==> r == Err::<(), SolverError>(SolverError::InvalidBudget)
                && *final(self) == *old(self),
            budget <= MAX_MONEY ==> r == Ok::<(), SolverError>(()) && final(self).budgets@
                == old(self).budgets@.update(agent_id as int, budget),
            final(self).num_agents == old(self).num_agents,
            final(self).num_items == old(self).num_items,
            final(self).epsilon == old(self).epsilon,
            final(self).bids@ == old(self).bids@,
            final(self).alpha@ == old(self).alpha@,
            final(self).beta == old(self).beta,
            final(self).consumptions@ == old(self).consumptions@,
            final(self).gamma@ == old(self).gamma@,
            final(self).item_agent@ == old(self).item_agent@,
            final(self).num_update@ == old(self).num_update@,
            final(self).max_bid_agent@ == old(self).max_bid_agent@,
    {
        if budget > MAX_MONEY {
            return Err(SolverError::InvalidBudget);
        }
        self.budgets[agent_id] = budget;
        proof {
            let g = *self;
            assert(money_ok(g.budgets@, g.bids@, g.num_agents as int, g.num_items as int));
        }
        Ok(())
    }

    /// The current effective price of one agent for one item, rounded down
    /// to scale.
    fn price(&self, agent_id: usize, item_id: usize) -> (p: u64)
        requires
            self.wf_core(),
            agent_id < self.num_agents,
            item_id < self.num_items,
        ensures
            p as int == self.spec_price(agent_id as int, item_id as int),
            p <= self.bids_at(agent_id as int)[item_id as int],
    {
        let bid = self.bids[agent_id][item_id];
        let a = self.alpha[agent_id];
        proof {
            assert(self.alpha@[agent_id as int] < SCALE);
            assert(self.bids_at(agent_id as int)[item_id as int] <= MAX_MONEY);
            vstd::arithmetic::mul::lemma_mul_upper_bound(
                bid as int,
                MAX_MONEY as int,
                (SCALE - a) as int,
                SCALE as int,
            );
        }
        let q = (bid as u128) * ((SCALE - a) as u128) / (SCALE as u128);
        proof {
            lemma_price_bounds(a as int, bid as int);
        }
        q as u64
    }

    /// Admits or rejects a bid of one agent on one item.  A zero or
    /// unrepresentable value is an error; a value above the agent's budget
    /// is silently ignored; an admissible value is stored, is entered into
    /// the price index, becomes the item's initial assignee if it is the
    /// highest raw bid so far, and raises `beta` to `bid / budget` if that
    /// ratio is a new maximum.
    pub fn set_bid(&mut self, agent_id: usize, item_id: usize, bid: u64) -> (r: Result<
        (),
        SolverError,
    >)
        requires
            old(self).wf(),
            old(self).unsolved(),
            agent_id < old(self).num_agents,
            item_id < old(self).num_items,
        ensures
            final(self).wf(),
            final(self).unsolved(),
            (bid == 0 || bid > MAX_MONEY) ==> r == Err::<(), SolverError>(SolverError::InvalidBid)
                && *final(self) == *old(self),
            0 < bid <= MAX_MONEY && bid > old(self).budgets@[agent_id as int] ==> r == Ok::<
                (),
                SolverError,
            >(()) && *final(self) == *old(self),
            0 < bid <= MAX_MONEY && bid <= old(self).budgets@[agent_id as int] ==> {
                &&& r == Ok::<(), SolverError>(())
                &&& final(self).bids_at(agent_id as int) == old(self).bids_at(
                    agent_id as int,
                ).update(item_id as int, bid)
                &&& forall|a: int|
                    0 <= a < old(self).num_agents && a != agent_id ==> final(self).bids_at(a)
                        == old(self).bids_at(a)
                &&& final(self).beta == if bid * SCALE / (old(self).budgets@[agent_id as int] as int)
                    > old(self).beta {
                    (bid * SCALE / (old(self).budgets@[agent_id as int] as int)) as u64
                } else {
                    old(self).beta
                }
                &&& final(self).max_bid_agent@ == old(self).max_bid_agent@.update(
                    item_id as int,
                    if old(self).max_bid_agent@[item_id as int] == old(self).num_agents || bid
                        > old(self).bids_at(old(self).max_bid_agent@[item_id as int] as int)[item_id as int] {
                        agent_id
                    } else {
                        old(self).max_bid_agent@[item_id as int]
                    },
                )
            },
            final(self).num_agents == old(self).num_agents,
            final(self).num_items == old(self).num_items,
            final(self).epsilon == old(self).epsilon,
            final(self).budgets@ == old(self).budgets@,
            final(self).alpha@ == old(self).alpha@,
            final(self).consumptions@ == old(self).consumptions@,
            final(self).gamma@ == old(self).gamma@,
            final(self).num_update@ == old(self).num_update@,
    {
        if bid == 0 || bid > MAX_MONEY {
            return Err(SolverError::InvalidBid);
        }
        if bid > self.budgets[agent_id] {
            return Ok(());
        }
        self.bids[agent_id][item_id] = bid;
        let a_val = self.alpha[agent_id];
        let p_wide = (bid as u128) * ((SCALE - a_val) as u128) / (SCALE as u128);
        proof {
            lemma_price_bounds(a_val as int, bid as int);
        }
        let p = p_wide as u64;
        let version = self.num_update[agent_id];
        let entry = Candidate { price: p, version, agent: agent_id };
        let ghost mid = *self;

        // insert the candidate, or refresh the agent's existing entry
        let len = self.item_agent[item_id].len();
        let mut k: usize = 0;
        let mut found = false;
        while k < len && !found
            invariant
                *self == mid,
                item_id < self.item_agent@.len(),
                len == self.item_agent@[item_id as int]@.len(),
                k <= len,
                !found ==> forall|j: int|
                    0 <= j < k ==> (#[trigger] self.item_agent@[item_id as int]@[j]).agent
                        != agent_id,
                found ==> k < len && self.item_agent@[item_id as int]@[k as int].agent == agent_id,
            decreases len - k + if found {
                0int
            } else {
                1int
            },
        {
            if self.item_agent[item_id][k].agent == agent_id {
                found = true;
            } else {
                k = k + 1;
            }
        }
        let ghost kk = k as int;
        let ghost was_found = found;
        if found {
            self.item_agent[item_id][k] = entry;
        } else {
            self.item_agent[item_id].push(entry);
        }

        // track the agent with the highest raw bid for the initial assignment
        let incumbent = self.max_bid_agent[item_id];
        if incumbent >= self.num_agents {
            self.max_bid_agent[item_id] = agent_id;
        } else {
            if bid > self.bids[incumbent][item_id] {
                self.max_bid_agent[item_id] = agent_id;
            }
        }

        // raise the spread constant to the new bid-to-budget ratio if needed
        let budget = self.budgets[agent_id];
        let q_wide = (bid as u128) * (SCALE as u128) / (budget as u128);
        proof {
            lemma_mul_div_le(SCALE as int, bid as int, budget as int);
            vstd::arithmetic::mul::lemma_mul_is_commutative(SCALE as int, bid as int);
        }
        let q = q_wide as u64;
        if q > self.beta {
            self.beta = q;
        }
        proof {
            let o = *old(self);
            let g = *self;
            let n = o.num_agents as int;
            let m = o.num_items as int;
            let ai = agent_id as int;
            let ii = item_id as int;
            assert(g.bids@[ai]@ =~= o.bids@[ai]@.update(ii, bid));
            assert(forall|a: int| 0 <= a < n && a != ai ==> g.bids@[a] == o.bids@[a]);
            assert(forall|a: int, i: int|
                0 <= a < n && 0 <= i < m && (a != ai || i != ii) ==> #[trigger] g.bids@[a]@[i]
                    == o.bids@[a]@[i]);
            // money_ok
            assert forall|a: int| 0 <= a < n implies (#[trigger] g.bids@[a])@.len() == m by {
                assert(o.bids@[a]@.len() == m);
            };
            assert forall|a: int, i: int|
                0 <= a < n && 0 <= i < m implies #[trigger] g.bids@[a]@[i] <= MAX_MONEY by {
                if a != ai || i != ii {
                    assert(o.bids@[a]@[i] <= MAX_MONEY);
                }
            };
            assert(money_ok(g.budgets@, g.bids@, n, m));
            // index_ok: every entry is still consistent
            assert forall|i: int, j: int|
                0 <= i < m && 0 <= j < g.item_agent@[i]@.len() implies entry_ok(
                g.bids@,
                g.alpha@,
                g.num_update@,
                #[trigger] g.item_agent@[i]@[j],
                i,
                n,
            ) by {
                if i != ii {
                    assert(g.item_agent@[i] == o.item_agent@[i]);
                    let e = g.item_agent@[i]@[j];
                    assert(entry_ok(o.bids@, o.alpha@, o.num_update@, e, i, n));
                    assert(g.bids@[e.agent as int]@[i] == o.bids@[e.agent as int]@[i]);
                } else if (was_found && j == kk) || (!was_found && j == o.item_agent@[ii]@.len()) {
                    assert(g.item_agent@[i]@[j] == entry);
                    assert(g.bids@[ai]@[ii] == bid);
                } else {
                    let e = g.item_agent@[i]@[j];
                    assert(e == o.item_agent@[i]@[j]);
                    assert(entry_ok(o.bids@, o.alpha@, o.num_update@, e, i, n));
                    if was_found {
                        assert(o.item_agent@[i]@[kk].agent == agent_id);
                    }
                    assert(e.agent != agent_id);
                    assert(g.bids@[e.agent as int]@[i] == o.bids@[e.agent as int]@[i]);
                }
            };
            // one entry per agent per item
            assert forall|i: int, k1: int, k2: int|
                0 <= i < m && 0 <= k1 < g.item_agent@[i]@.len() && 0 <= k2
                    < g.item_agent@[i]@.len() && k1 != k2 implies (
            #[trigger] g.item_agent@[i]@[k1]).agent != (#[trigger] g.item_agent@[i]@[k2]).agent by {
                if i != ii {
                    assert(g.item_agent@[i] == o.item_agent@[i]);
                } else if was_found {
                    assert(forall|j: int|
                        0 <= j < g.item_agent@[i]@.len() && j != kk
                            ==> #[trigger] g.item_agent@[i]@[j] == o.item_agent@[i]@[j]);
                    assert(g.item_agent@[i]@[kk].agent == o.item_agent@[i]@[kk].agent);
                } else {
                    let oldlen = o.item_agent@[ii]@.len();
                    assert(forall|j: int|
                        0 <= j < oldlen ==> #[trigger] g.item_agent@[i]@[j]
                            == o.item_agent@[i]@[j]);
                    assert(forall|j: int|
                        0 <= j < oldlen ==> (#[trigger] o.item_agent@[ii]@[j]).agent != agent_id);
                }
            };
            // every admitted bid still has an entry
            assert forall|a: int, i: int|
                0 <= a < n && 0 <= i < m && #[trigger] g.bids@[a]@[i] > 0 implies row_has_agent(
                g.item_agent@[i]@,
                a,
            ) by {
                if a == ai && i == ii {
                    if was_found {
                        assert(g.item_agent@[ii]@[kk].agent == ai);
                    } else {
                        assert(g.item_agent@[ii]@[o.item_agent@[ii]@.len() as int].agent == ai);
                    }
                } else {
                    assert(o.bids@[a]@[i] > 0);
                    assert(row_has_agent(o.item_agent@[i]@, a));
                    let w = choose|w: int|
                        0 <= w < o.item_agent@[i]@.len() && (#[trigger] o.item_agent@[i]@[w]).agent
                            == a;
                    if i != ii {
                        assert(g.item_agent@[i] == o.item_agent@[i]);
                        assert(g.item_agent@[i]@[w].agent == a);
                    } else {
                        if was_found && w == kk {
                            assert(o.item_agent@[ii]@[kk].agent == agent_id);
                        } else {
                            assert(g.item_agent@[i]@[w] == o.item_agent@[i]@[w]);
                            assert(g.item_agent@[i]@[w].agent == a);
                        }
                    }
                }
            };
            assert(index_ok(g.bids@, g.alpha@, g.num_update@, g.item_agent@, n, m));
            // ledger_ok: the ledger is untouched and still empty
            assert forall|a: int|
                0 <= a < n implies #[trigger] g.consumptions@[a] as int == seq_bid_sum(
                g.bids@[a]@,
                g.gamma@[a]@,
            ) by {
                assert(o.gamma_at(a).len() == 0);
                assert(g.gamma@[a] == o.gamma@[a]);
                assert(g.gamma@[a]@.len() == 0);
                assert(o.consumptions@[a] == 0);
            };
            assert(ledger_ok(g.bids@, g.gamma@, g.consumptions@, n, m));
            assert forall|a: int| 0 <= a < n implies g.gamma_at(a).len() == 0 by {
                assert(o.gamma_at(a).len() == 0);
                assert(g.gamma@[a] == o.gamma@[a]);
            };
            assert(g.unsolved());
            // max_bid_ok
            assert forall|i: int|
                0 <= i < m && #[trigger] g.max_bid_agent@[i] < n implies g.bids@[g.max_bid_agent@[i] as int]@[i]
                > 0 by {
                if i != ii {
                    assert(g.max_bid_agent@[i] == o.max_bid_agent@[i]);
                    assert(o.bids@[o.max_bid_agent@[i] as int]@[i] > 0);
                    assert(g.bids@[g.max_bid_agent@[i] as int]@[i]
                        == o.bids@[o.max_bid_agent@[i] as int]@[i]);
                } else {
                    let w = g.max_bid_agent@[ii];
                    if w as int == ai {
                        assert(g.bids@[ai]@[ii] == bid);
                    } else {
                        assert(w == o.max_bid_agent@[ii]);
                        assert(o.bids@[w as int]@[ii] > 0);
                        assert(g.bids@[w as int]@[ii] == o.bids@[w as int]@[ii]);
                    }
                }
            };
            assert forall|i: int, a: int|
                0 <= i < m && 0 <= a < n && g.max_bid_agent@[i] == n implies #[trigger] g.bids@[a]@[i]
                == 0 by {
                assert(i != ii);
                assert(o.max_bid_agent@[i] == n);
                assert(o.bids@[a]@[i] == 0);
                assert(g.bids@[a]@[i] == o.bids@[a]@[i]);
            };
            assert(max_bid_ok(g.bids@, g.max_bid_agent@, n, m));
            assert(g.wf());
            // the ensures clauses over the named fields
            assert(g.bids_at(ai) =~= o.bids_at(ai).update(ii, bid));
            assert(forall|a: int| 0 <= a < n && a != ai ==> g.bids_at(a) == o.bids_at(a));
            assert(g.max_bid_agent@ == o.max_bid_agent@.update(
                ii,
                if o.max_bid_agent@[ii] == o.num_agents || bid > o.bids_at(
                    o.max_bid_agent@[ii] as int,
                )[ii] {
                    agent_id
                } else {
                    o.max_bid_agent@[ii]
                },
            )) by {
                if !(o.max_bid_agent@[ii] == o.num_agents || bid > o.bids_at(
                    o.max_bid_agent@[ii] as int,
                )[ii]) {
                    assert(g.max_bid_agent@ =~= o.max_bid_agent@.update(ii, o.max_bid_agent@[ii]));
                }
            }
        }
        Ok(())
    }

    /// Returns the stored budget of one agent.
    pub fn get_budget(&self, agent_id: usize) -> (budget: u64)
        requires
            self.wf(),
            agent_id < self.num_agents,
        ensures
            budget == self.budgets@[agent_id as int],
    {
        self.budgets[agent_id]
    }

    /// Returns the stored (admitted) bid of one agent on one item; 0 means
    /// the agent has no admitted bid on the item.
    pub fn get_bid(&self, agent_id: usize, item_id: usize) -> (bid: u64)
        requires
            self.wf(),
            agent_id < self.num_agents,
            item_id < self.num_items,
        ensures
            bid == self.bids_at(agent_id as int)[item_id as int],
    {
        self.bids[agent_id][item_id]
    }

    /// Returns the proven approximation ratio `(1 - beta/4) * (1 - epsilon)`
    /// of the current instance, scaled by [`SCALE`].  It always lies between
    /// `0.75 * (1 - epsilon)` and `1 - epsilon`.
    pub fn get_approximation_ratio(&self) -> (ratio: u64)
        requires
            self.wf(),
        ensures
            ratio as int == ratio_of(self.beta as int, self.epsilon as int),
            3 * (SCALE - self.epsilon) / 4 <= ratio as int <= SCALE - self.epsilon,
    {
        proof {
            lemma_ratio_bounds(self.beta as int, self.epsilon as int);
        }
        let b4 = self.beta / 4;
        let r = ((SCALE - b4) as u128) * ((SCALE - self.epsilon) as u128) / (SCALE as u128);
        r as u64
    }

    /// The budget-retention threshold of one agent, scaled by [`SCALE`]:
    /// `beta / ((alpha - 1) * (beta - 4)) + 1` over the scaled state.
    fn u_threshold(&self, agent_id: usize) -> (u: u128)
        requires
            self.wf(),
            agent_id < self.num_agents,
        ensures
            u as int == u_value(self.alpha@[agent_id as int] as int, self.beta as int),
            SCALE <= u as int <= SCALE * SCALE,
            self.beta == 0 ==> u as int == SCALE,
    {
        let a = self.alpha[agent_id];
        let b = self.beta;
        proof {
            assert(self.alpha@[agent_id as int] < SCALE);
            lemma_u_value_bounds(a as int, b as int);
            if b == 0 {
                vstd::arithmetic::mul::lemma_mul_basics(SCALE as int);
                vstd::arithmetic::div_mod::lemma_div_of0(
                    ((SCALE - a) as int) * ((4 * SCALE - b) as int),
                );
            }
            lemma_mul_upper_bound(b as int, SCALE as int, SCALE as int, SCALE as int);
            lemma_mul_upper_bound(
                (b * SCALE) as int,
                (SCALE as int) * (SCALE as int),
                SCALE as int,
                SCALE as int,
            );
            lemma_mul_upper_bound(
                (SCALE - a) as int,
                SCALE as int,
                (4 * SCALE - b) as int,
                4 * (SCALE as int),
            );
        }
        proof {
            vstd::arithmetic::mul::lemma_mul_strictly_positive(
                (SCALE - a) as int,
                (4 * SCALE - b) as int,
            );
        }
        let num = (b as u128) * (SCALE as u128) * (SCALE as u128);
        let den = ((SCALE - a) as u128) * ((4 * SCALE - b) as u128);
        num / den + (SCALE as u128)
    }

    /// Whether one agent's consumption is within its current threshold times
    /// its budget (compared cross-multiplied, so no rounding intervenes).
    fn is_paid_for(&self, agent_id: usize) -> (r: bool)
        requires
            self.wf(),
            agent_id < self.num_agents,
        ensures
            r == self.spec_paid_for(agent_id as int),
    {
        let u = self.u_threshold(agent_id);
        proof {
            lemma_consumption_bound(*self, agent_id as int);
            lemma_mul_upper_bound(
                self.consumptions@[agent_id as int] as int,
                (MAX_DIM as int) * (MAX_MONEY as int),
                SCALE as int,
                SCALE as int,
            );
            lemma_mul_upper_bound(
                u as int,
                (SCALE as int) * (SCALE as int),
                self.budgets@[agent_id as int] as int,
                MAX_MONEY as int,
            );
        }
        let lhs = self.consumptions[agent_id] * (SCALE as u128);
        let rhs = u * (self.budgets[agent_id] as u128);
        lhs <= rhs
    }

    /// Raises one agent's dual multiplier: the first effective update sets it
    /// to `epsilon`, each later one adds `epsilon * (1 - alpha)` (scaled,
    /// rounded down).  The multiplier never decreases and stays below 1; the
    /// agent's update count moves exactly when the multiplier does.
    fn update_alpha(&mut self, agent_id: usize)
        requires
            old(self).wf(),
            agent_id < old(self).num_agents,
        ensures
            final(self).wf(),
            final(self).num_agents == old(self).num_agents,
            final(self).num_items == old(self).num_items,
            final(self).epsilon == old(self).epsilon,
            final(self).budgets@ == old(self).budgets@,
            final(self).bids@ == old(self).bids@,
            final(self).beta == old(self).beta,
            final(self).consumptions@ == old(self).consumptions@,
            final(self).gamma@ == old(self).gamma@,
            final(self).item_agent@ == old(self).item_agent@,
            final(self).max_bid_agent@ == old(self).max_bid_agent@,
            final(self).alpha@ == old(self).alpha@.update(
                agent_id as int,
                final(self).alpha@[agent_id as int],
            ),
            final(self).num_update@ == old(self).num_update@.update(
                agent_id as int,
                final(self).num_update@[agent_id as int],
            ),
            old(self).alpha@[agent_id as int] <= final(self).alpha@[agent_id as int],
            final(self).alpha@[agent_id as int] == if old(self).num_update@[agent_id as int] == 0 {
                old(self).epsilon as int
            } else {
                old(self).alpha@[agent_id as int] + old(self).epsilon * (SCALE - old(
                    self,
                ).alpha@[agent_id as int]) / (SCALE as int)
            },
            // the update count moves exactly when the multiplier does
            final(self).num_update@[agent_id as int] == if final(self).alpha@[agent_id as int]
                != old(self).alpha@[agent_id as int] {
                old(self).num_update@[agent_id as int] + 1
            } else {
                old(self).num_update@[agent_id as int] as int
            },
    {
        let nu = self.num_update[agent_id];
        let ghost o = *old(self);
        if nu == 0 {
            proof {
                assert(o.alpha@[agent_id as int] == 0);
            }
            self.alpha[agent_id] = self.epsilon;
            self.num_update[agent_id] = 1;
        } else {
            let a = self.alpha[agent_id];
            proof {
                assert(o.alpha@[agent_id as int] < SCALE);
                lemma_mul_upper_bound(
                    self.epsilon as int,
                    SCALE as int,
                    (SCALE - a) as int,
                    SCALE as int,
                );
                // the increment cannot push alpha to SCALE or beyond
                lemma_mul_inequality(self.epsilon as int, SCALE - 1, (SCALE - a) as int);
                lemma_div_is_ordered(
                    (self.epsilon as int) * ((SCALE - a) as int),
                    (SCALE - 1) * ((SCALE - a) as int),
                    SCALE as int,
                );
                assert((SCALE - 1) * ((SCALE - a) as int) == ((SCALE - a - 1) as int) * (
                SCALE as int) + (a as int)) by {
                    vstd::arithmetic::mul::lemma_mul_is_distributive_sub(
                        (SCALE - a) as int,
                        SCALE as int,
                        1,
                    );
                    vstd::arithmetic::mul::lemma_mul_is_distributive_sub_other_way(
                        SCALE as int,
                        (SCALE - a) as int,
                        1,
                    );
                    vstd::arithmetic::mul::lemma_mul_is_commutative((SCALE - a) as int, SCALE as int);
                }
                lemma_fundamental_div_mod_converse_div(
                    ((SCALE - a - 1) as int) * (SCALE as int) + (a as int),
                    SCALE as int,
                    (SCALE - a - 1) as int,
                    a as int,
                );
            }
            let inc = ((self.epsilon as u128) * ((SCALE - a) as u128) / (SCALE as u128)) as u64;
            assert(inc <= SCALE - a - 1);
            if inc > 0 {
                self.alpha[agent_id] = a + inc;
                self.num_update[agent_id] = nu + 1;
            }
        }
        proof {
            let g = *self;
            let n = o.num_agents as int;
            let m = o.num_items as int;
            let ai = agent_id as int;
            assert(g.alpha@ =~= o.alpha@.update(ai, g.alpha@[ai]));
            assert(g.num_update@ =~= o.num_update@.update(ai, g.num_update@[ai]));
            assert(dual_ok(g.alpha@, g.num_update@, n));
            // every price index entry stays consistent: only agent `ai`'s
            // effective prices moved, and they moved downward
            assert forall|i: int, j: int|
                0 <= i < m && 0 <= j < g.item_agent@[i]@.len() implies entry_ok(
                g.bids@,
                g.alpha@,
                g.num_update@,
                #[trigger] g.item_agent@[i]@[j],
                i,
                n,
            ) by {
                let e = g.item_agent@[i]@[j];
                assert(entry_ok(o.bids@, o.alpha@, o.num_update@, e, i, n));
                if e.agent as int == ai {
                    lemma_price_bounds(o.alpha@[ai] as int, o.bids@[ai]@[i] as int);
                    lemma_price_monotone(
                        o.alpha@[ai] as int,
                        g.alpha@[ai] as int,
                        o.bids@[ai]@[i] as int,
                    );
                }
            };
            assert(index_ok(g.bids@, g.alpha@, g.num_update@, g.item_agent@, n, m));
            assert(g.wf());
        }
    }

    /// Determines the current winner of one item, refreshing the price
    /// index lazily: the largest recorded `(price, version, agent)` entry is
    /// inspected, and if its version is behind its agent's update count the
    /// entry is re-recorded at the agent's current effective price and count
    /// (which can only have fallen) and the lookup retries.  The agent of
    /// the first current top entry is returned: its effective price is
    /// maximal among all agents with an admitted bid on the item, and a tie
    /// falls to the entry with the higher update count, then the larger
    /// agent id.
    fn max_price_agent(&mut self, item_id: usize) -> (w: usize)
        requires
            old(self).wf_core(),
            item_id < old(self).num_items,
            old(self).item_agent@[item_id as int]@.len() > 0,
        ensures
            final(self).wf_core(),
            final(self).num_agents == old(self).num_agents,
            final(self).num_items == old(self).num_items,
            final(self).epsilon == old(self).epsilon,
            final(self).budgets@ == old(self).budgets@,
            final(self).bids@ == old(self).bids@,
            final(self).alpha@ == old(self).alpha@,
            final(self).beta == old(self).beta,
            final(self).consumptions@ == old(self).consumptions@,
            final(self).gamma@ == old(self).gamma@,
            final(self).num_update@ == old(self).num_update@,
            final(self).max_bid_agent@ == old(self).max_bid_agent@,
            final(self).item_agent@.len() == old(self).item_agent@.len(),
            forall|i: int|
                0 <= i < old(self).num_items && i != item_id ==> final(self).item_agent@[i]
                    == old(self).item_agent@[i],
            final(self).item_agent@[item_id as int]@.len() == old(
                self,
            ).item_agent@[item_id as int]@.len(),
            forall|k: int|
                0 <= k < old(self).item_agent@[item_id as int]@.len()
                    ==> (#[trigger] final(self).item_agent@[item_id as int]@[k]).agent == old(
                    self,
                ).item_agent@[item_id as int]@[k].agent,
            w < old(self).num_agents,
            old(self).bids_at(w as int)[item_id as int] > 0,
            forall|b: int|
                0 <= b < old(self).num_agents && #[trigger] old(self).bids_at(b)[item_id as int] > 0
                    ==> old(self).spec_price(b, item_id as int) <= old(self).spec_price(
                    w as int,
                    item_id as int,
                ),
            // the winner's entry is current and strictly the largest left in
            // the index: ties fell to the higher version, then larger agent
            exists|kw: int|
                0 <= kw < final(self).item_agent@[item_id as int]@.len()
                    && (#[trigger] final(self).item_agent@[item_id as int]@[kw]).agent == w
                    && final(self).item_agent@[item_id as int]@[kw].version
                    == final(self).num_update@[w as int] && forall|k: int|
                    0 <= k < final(self).item_agent@[item_id as int]@.len() && k != kw ==> cand_lt(
                        final(self).item_agent@[item_id as int]@[k],
                        final(self).item_agent@[item_id as int]@[kw],
                    ),
    {
        let ghost o = *old(self);
        let ghost ii = item_id as int;
        let ghost n = o.num_agents as int;
        let ghost m = o.num_items as int;
        let len = self.item_agent[item_id].len();
        proof {
            lemma_stale_nonneg(self.item_agent@[ii]@, self.num_update@, 0);
        }
        loop
            invariant
                o == *old(self),
                ii == item_id as int,
                n == o.num_agents as int,
                m == o.num_items as int,
                self.wf_core(),
                item_id < self.num_items,
                self.num_agents == o.num_agents,
                self.num_items == o.num_items,
                self.epsilon == o.epsilon,
                self.budgets@ == o.budgets@,
                self.bids@ == o.bids@,
                self.alpha@ == o.alpha@,
                self.beta == o.beta,
                self.consumptions@ == o.consumptions@,
                self.gamma@ == o.gamma@,
                self.num_update@ == o.num_update@,
                self.max_bid_agent@ == o.max_bid_agent@,
                self.item_agent@.len() == o.item_agent@.len(),
                forall|i: int|
                    0 <= i < self.num_items && i != ii ==> self.item_agent@[i] == o.item_agent@[i],
                self.item_agent@[ii]@.len() == len,
                len == o.item_agent@[ii]@.len(),
                0 < len,
                forall|j: int|
                    0 <= j < len ==> (#[trigger] self.item_agent@[ii]@[j]).agent
                        == o.item_agent@[ii]@[j].agent,
                stale_from(self.item_agent@[ii]@, self.num_update@, 0) >= 0,
            decreases stale_from(self.item_agent@[ii]@, self.num_update@, 0),
        {
            // find the largest recorded entry
            let ghost rs = *self;
            let mut best: usize = 0;
            let mut j: usize = 1;
            while j < len
                invariant
                    *self == rs,
                    self.wf_core(),
                    item_id < self.num_items,
                    self.item_agent@.len() == self.num_items,
                    ii == item_id as int,
                    n == self.num_agents as int,
                    self.item_agent@[ii]@.len() == len,
                    0 < len,
                    best < len,
                    best < j,
                    j <= len,
                    forall|t: int|
                        0 <= t < j && t != best ==> cand_lt(
                            #[trigger] self.item_agent@[ii]@[t],
                            self.item_agent@[ii]@[best as int],
                        ),
                decreases len - j,
            {
                let e = self.item_agent[item_id][j];
                let b = self.item_agent[item_id][best];
                if e.price > b.price || (e.price == b.price && (e.version > b.version || (e.version
                    == b.version && e.agent > b.agent))) {
                    best = j;
                } else {
                    proof {
                        assert(self.item_agent@[ii]@[j as int].agent
                            != self.item_agent@[ii]@[best as int].agent);
                    }
                }
                j = j + 1;
            }
            let e = self.item_agent[item_id][best];
            proof {
                assert(entry_ok(self.bids@, self.alpha@, self.num_update@, e, ii, n));
            }
            let nu = self.num_update[e.agent];
            if e.version == nu {
                // the top entry is current: its agent is the winner
                proof {
                    let g = *self;
                    assert(e.price == g.spec_price(e.agent as int, ii));
                    assert forall|b: int|
                        0 <= b < n && #[trigger] o.bids_at(b)[ii] > 0 implies o.spec_price(b, ii)
                        <= o.spec_price(e.agent as int, ii) by {
                        assert(g.bids@[b]@[ii] > 0);
                        assert(row_has_agent(g.item_agent@[ii]@, b));
                        let wk = choose|wk: int|
                            0 <= wk < g.item_agent@[ii]@.len() && (
                            #[trigger] g.item_agent@[ii]@[wk]).agent == b;
                        let eb = g.item_agent@[ii]@[wk];
                        assert(entry_ok(g.bids@, g.alpha@, g.num_update@, eb, ii, n));
                        assert(g.spec_price(b, ii) <= eb.price);
                        assert(eb.price <= e.price);
                    };
                    assert(self.item_agent@[ii]@[best as int].agent == e.agent);
                    assert(self.item_agent@[ii]@[best as int].version
                        == self.num_update@[e.agent as int]);
                }
                return e.agent;
            }
            // stale: re-record at the current price and count, then retry
            let p = self.price(e.agent, item_id);
            let ghost pre = *self;
            self.item_agent[item_id][best] = Candidate { price: p, version: nu, agent: e.agent };
            proof {
                let g = *self;
                assert(g.item_agent@[ii]@ =~= pre.item_agent@[ii]@.update(
                    best as int,
                    Candidate { price: p, version: nu, agent: e.agent },
                ));
                assert forall|i: int, t: int|
                    0 <= i < m && 0 <= t < g.item_agent@[i]@.len() implies entry_ok(
                    g.bids@,
                    g.alpha@,
                    g.num_update@,
                    #[trigger] g.item_agent@[i]@[t],
                    i,
                    n,
                ) by {
                    if i != ii || t != best as int {
                        assert(g.item_agent@[i]@[t] == pre.item_agent@[i]@[t]);
                        assert(entry_ok(
                            pre.bids@,
                            pre.alpha@,
                            pre.num_update@,
                            pre.item_agent@[i]@[t],
                            i,
                            n,
                        ));
                    }
                };
                assert forall|a: int, i: int|
                    0 <= a < n && 0 <= i < m && #[trigger] g.bids@[a]@[i] > 0 implies row_has_agent(
                    g.item_agent@[i]@,
                    a,
                ) by {
                    assert(row_has_agent(pre.item_agent@[i]@, a));
                    let wit = choose|wk: int|
                        0 <= wk < pre.item_agent@[i]@.len() && (
                        #[trigger] pre.item_agent@[i]@[wk]).agent == a;
                    assert(g.item_agent@[i]@[wit].agent == a);
                };
                assert(index_ok(g.bids@, g.alpha@, g.num_update@, g.item_agent@, n, m));
                assert(g.wf_core());
                lemma_stale_refresh(
                    pre.item_agent@[ii]@,
                    g.item_agent@[ii]@,
                    g.num_update@,
                    best as int,
                    0,
                );
                lemma_stale_nonneg(g.item_agent@[ii]@, g.num_update@, 0);
            }
        }
    }

    /// Gives every item with at least one admitted bid to the agent with the
    /// highest raw bid on it and credits that bid to the agent's
    /// consumption.  Items nobody bid on stay unassigned for the whole run.
    fn initialize(&mut self)
        requires
            old(self).wf(),
            old(self).unsolved(),
        ensures
            final(self).wf(),
            final(self).num_agents == old(self).num_agents,
            final(self).num_items == old(self).num_items,
            final(self).epsilon == old(self).epsilon,
            final(self).budgets@ == old(self).budgets@,
            final(self).bids@ == old(self).bids@,
            final(self).alpha@ == old(self).alpha@,
            final(self).beta == old(self).beta,
            final(self).item_agent@ == old(self).item_agent@,
            final(self).num_update@ == old(self).num_update@,
            final(self).max_bid_agent@ == old(self).max_bid_agent@,
            old(self).no_admitted_bids() ==> final(self).gamma@ == old(self).gamma@
                && final(self).consumptions@ == old(self).consumptions@,
            // each item goes to the agent its pointer names, in item order
            forall|a: int|
                0 <= a < old(self).num_agents ==> (#[trigger] final(self).gamma@[a])@
                    == initial_items(
                    old(self).max_bid_agent@,
                    a,
                    old(self).num_items as int,
                ),
            // and its bid is credited to that agent's consumption
            forall|a: int|
                0 <= a < old(self).num_agents ==> #[trigger] final(self).consumptions@[a] as int
                    == seq_bid_sum(
                    old(self).bids@[a]@,
                    initial_items(old(self).max_bid_agent@, a, old(self).num_items as int),
                ),
            items_assigned(
                final(self).gamma@,
                old(self).max_bid_agent@,
                old(self).num_agents as int,
                old(self).num_items as int,
            ),
    {
        let ghost o = *old(self);
        let ghost n = o.num_agents as int;
        let ghost mm = o.num_items as int;
        proof {
            assert forall|a: int| 0 <= a < n implies self.gamma@[a]@.len() == 0 by {
                assert(o.gamma_at(a).len() == 0);
            };
            assert forall|a: int|
                0 <= a < n implies self.gamma@[a]@ == initial_items(o.max_bid_agent@, a, 0) by {
                assert(self.gamma@[a]@ =~= initial_items(o.max_bid_agent@, a, 0));
            };
        }
        let m = self.num_items;
        let mut i: usize = 0;
        while i < m
            invariant
                o == *old(self),
                o.wf(),
                n == o.num_agents as int,
                mm == o.num_items as int,
                m == o.num_items,
                self.wf(),
                self.num_agents == o.num_agents,
                self.num_items == o.num_items,
                self.epsilon == o.epsilon,
                self.budgets@ == o.budgets@,
                self.bids@ == o.bids@,
                self.alpha@ == o.alpha@,
                self.beta == o.beta,
                self.item_agent@ == o.item_agent@,
                self.num_update@ == o.num_update@,
                self.max_bid_agent@ == o.max_bid_agent@,
                i <= m,
                forall|a: int, k: int|
                    0 <= a < n && 0 <= k < self.gamma@[a]@.len() ==> (#[trigger] self.gamma@[a]@[k])
                        < i,
                forall|a: int|
                    0 <= a < n ==> (#[trigger] self.gamma@[a])@ == initial_items(
                        o.max_bid_agent@,
                        a,
                        i as int,
                    ),
                forall|i2: int|
                    0 <= i2 < i && (#[trigger] o.max_bid_agent@[i2]) < o.num_agents ==> item_owned(
                        self.gamma@,
                        n,
                        i2 as usize,
                    ),
                o.no_admitted_bids() ==> self.gamma@ == o.gamma@ && self.consumptions@
                    == o.consumptions@,
            decreases m - i,
        {
            let mba = self.max_bid_agent[i];
            if mba < self.num_agents {
                let b = self.bids[mba][i];
                let ghost pre = *self;
                proof {
                    assert(b == o.bids@[mba as int]@[i as int]);
                    assert(b > 0);
                    lemma_consumption_bound(*self, mba as int);
                    lemma_mul_inequality(mm, MAX_DIM as int, MAX_MONEY as int);
                }
                self.gamma[mba].push_back(i);
                self.consumptions[mba] = self.consumptions[mba] + (b as u128);
                proof {
                    let g = *self;
                    let ai = mba as int;
                    assert(g.gamma@ =~= pre.gamma@.update(ai, g.gamma@[ai]));
                    assert(g.gamma@[ai]@ == pre.gamma@[ai]@.push(i));
                    assert(forall|a: int| 0 <= a < n && a != ai ==> g.gamma@[a] == pre.gamma@[a]);
                    let newpos = pre.gamma@[ai]@.len() as int;
                    assert forall|a: int, k: int|
                        0 <= a < n && 0 <= k < g.gamma@[a]@.len() implies (
                    #[trigger] g.gamma@[a]@[k]) < mm && g.bids@[a]@[g.gamma@[a]@[k] as int] > 0 by {
                        if a == ai && k == newpos {
                            assert(g.gamma@[a]@[k] == i);
                        } else {
                            assert(g.gamma@[a]@[k] == pre.gamma@[a]@[k]);
                        }
                    };
                    assert forall|a1: int, k1: int, a2: int, k2: int|
                        0 <= a1 < n && 0 <= k1 < g.gamma@[a1]@.len() && 0 <= a2 < n && 0 <= k2
                            < g.gamma@[a2]@.len() && (a1 != a2 || k1 != k2) implies (
                    #[trigger] g.gamma@[a1]@[k1]) != (#[trigger] g.gamma@[a2]@[k2]) by {
                        if a1 == ai && k1 == newpos {
                            assert(g.gamma@[a1]@[k1] == i);
                            assert(g.gamma@[a2]@[k2] == pre.gamma@[a2]@[k2]);
                            assert(pre.gamma@[a2]@[k2] < i);
                        } else if a2 == ai && k2 == newpos {
                            assert(g.gamma@[a2]@[k2] == i);
                            assert(g.gamma@[a1]@[k1] == pre.gamma@[a1]@[k1]);
                            assert(pre.gamma@[a1]@[k1] < i);
                        } else {
                            assert(g.gamma@[a1]@[k1] == pre.gamma@[a1]@[k1]);
                            assert(g.gamma@[a2]@[k2] == pre.gamma@[a2]@[k2]);
                        }
                    };
                    lemma_sum_push(g.bids@[ai]@, pre.gamma@[ai]@, i);
                    assert forall|a: int|
                        0 <= a < n implies #[trigger] g.consumptions@[a] as int == seq_bid_sum(
                        g.bids@[a]@,
                        g.gamma@[a]@,
                    ) by {
                        if a != ai {
                            assert(g.consumptions@[a] == pre.consumptions@[a]);
                            assert(g.gamma@[a] == pre.gamma@[a]);
                        }
                    };
                    assert(ledger_ok(g.bids@, g.gamma@, g.consumptions@, n, mm));
                    assert(g.wf());
                    // an item was assigned, so some bid was admitted
                    assert(o.bids_at(ai)[i as int] > 0);
                    assert(!o.no_admitted_bids());
                    // the ledger entries still match the pointers scanned so far
                    assert forall|a: int|
                        0 <= a < n implies (#[trigger] g.gamma@[a])@ == initial_items(
                        o.max_bid_agent@,
                        a,
                        i as int + 1,
                    ) by {
                        if a == ai {
                            assert(initial_items(o.max_bid_agent@, a, i as int + 1)
                                == initial_items(o.max_bid_agent@, a, i as int).push(i));
                        } else {
                            assert(o.max_bid_agent@[i as int] != a);
                            assert(initial_items(o.max_bid_agent@, a, i as int + 1)
                                == initial_items(o.max_bid_agent@, a, i as int));
                            assert(g.gamma@[a] == pre.gamma@[a]);
                        }
                    };
                    assert forall|i2: int|
                        0 <= i2 < i as int + 1 && (#[trigger] o.max_bid_agent@[i2])
                            < o.num_agents implies item_owned(g.gamma@, n, i2 as usize) by {
                        if i2 == i as int {
                            assert(g.gamma@[ai]@[newpos] == i);
                        } else {
                            assert(item_owned(pre.gamma@, n, i2 as usize));
                            let (a2, k2) = choose|a2: int, k2: int|
                                0 <= a2 < n && 0 <= k2 < pre.gamma@[a2]@.len() && #[trigger] pre.gamma@[a2]@[k2]
                                    == i2 as usize;
                            assert(g.gamma@[a2]@[k2] == i2 as usize);
                        }
                    };
                }
            } else {
                proof {
                    assert(self.max_bid_agent@[i as int] == o.num_agents);
                    assert forall|a: int|
                        0 <= a < n implies (#[trigger] self.gamma@[a])@ == initial_items(
                        o.max_bid_agent@,
                        a,
                        i as int + 1,
                    ) by {
                        assert(o.max_bid_agent@[i as int] != a);
                        assert(initial_items(o.max_bid_agent@, a, i as int + 1) == initial_items(
                            o.max_bid_agent@,
                            a,
                            i as int,
                        ));
                    };
                }
            }
            i = i + 1;
        }
        proof {
            // consumption matches the handed-out items, by the ledger invariant
            assert forall|a: int|
                0 <= a < n implies #[trigger] self.consumptions@[a] as int == seq_bid_sum(
                o.bids@[a]@,
                initial_items(o.max_bid_agent@, a, mm),
            ) by {
                assert(self.consumptions@[a] as int == seq_bid_sum(self.bids@[a]@, self.gamma@[a]@));
                assert(self.gamma@[a]@ == initial_items(o.max_bid_agent@, a, mm));
            };
        }
    }

    /// Runs the convergence driver to its fixpoint: the initial assignment,
    /// then repeated passes over the agents that reconcile wrongly allocated
    /// items and raise dual prices, until a full pass finds every agent paid
    /// for.  On success every agent ends within its threshold.  An instance
    /// that does not converge within the iteration budget (a pathological
    /// configuration for the chosen `epsilon`) is reported as
    /// [`SolverError::Internal`].
    pub fn solve(&mut self) -> (r: Result<(), SolverError>)
        requires
            old(self).wf(),
            old(self).unsolved(),
        ensures
            final(self).wf(),
            final(self).num_agents == old(self).num_agents,
            final(self).num_items == old(self).num_items,
            final(self).epsilon == old(self).epsilon,
            final(self).budgets@ == old(self).budgets@,
            final(self).bids@ == old(self).bids@,
            final(self).beta == old(self).beta,
            final(self).max_bid_agent@ == old(self).max_bid_agent@,
            forall|a: int|
                0 <= a < old(self).num_agents
                    ==> old(self).alpha@[a] <= #[trigger] final(self).alpha@[a],
            r == Ok::<(), SolverError>(()) ==> forall|a: int|
                0 <= a < old(self).num_agents ==> final(self).spec_paid_for(a),
            // the only failure is the non-convergence report, and it can
            // only be raised while some agent is still over its threshold
            r == Ok::<(), SolverError>(()) || r == Err::<(), SolverError>(SolverError::Internal),
            r == Err::<(), SolverError>(SolverError::Internal) ==> exists|a: int|
                0 <= a < old(self).num_agents && !(#[trigger] final(self).spec_paid_for(a)),
            // every item anyone bid on ends up owned by some agent
            items_assigned(
                final(self).gamma@,
                old(self).max_bid_agent@,
                old(self).num_agents as int,
                old(self).num_items as int,
            ),
            old(self).no_admitted_bids() ==> r == Ok::<(), SolverError>(()) && final(self).alpha@
                == old(self).alpha@ && final(self).num_update@ == old(self).num_update@
                && final(self).consumptions@ == old(self).consumptions@ && final(self).gamma@
                == old(self).gamma@,
    {
        let ghost o = *old(self);
        let ghost n = o.num_agents as int;
        self.initialize();
        let mut fuel: u64 = 0x1000_0000_0000;
        loop
            invariant
                o == *old(self),
                n == o.num_agents as int,
                self.wf(),
                self.num_agents == o.num_agents,
                self.num_items == o.num_items,
                self.epsilon == o.epsilon,
                self.budgets@ == o.budgets@,
                self.bids@ == o.bids@,
                self.beta == o.beta,
                self.max_bid_agent@ == o.max_bid_agent@,
                forall|a: int| 0 <= a < n ==> o.alpha@[a] <= #[trigger] self.alpha@[a],
                items_assigned(self.gamma@, o.max_bid_agent@, n, o.num_items as int),
                o.no_admitted_bids() ==> self.alpha@ == o.alpha@ && self.num_update@
                    == o.num_update@ && self.consumptions@ == o.consumptions@ && self.gamma@
                    == o.gamma@,
            decreases fuel,
        {
            let mut all_paid = true;
            let ghost pass0 = *self;
            let ghost fuel0 = fuel;
            let mut agent_id: usize = 0;
            while agent_id < self.num_agents
                invariant
                    o == *old(self),
                    n == o.num_agents as int,
                    pass0.wf(),
                    self.wf(),
                    self.num_agents == o.num_agents,
                    self.num_items == o.num_items,
                    self.epsilon == o.epsilon,
                    self.budgets@ == o.budgets@,
                    self.bids@ == o.bids@,
                    self.beta == o.beta,
                    self.max_bid_agent@ == o.max_bid_agent@,
                    forall|a: int| 0 <= a < n ==> o.alpha@[a] <= #[trigger] self.alpha@[a],
                    items_assigned(self.gamma@, o.max_bid_agent@, n, o.num_items as int),
                    o.no_admitted_bids() ==> self.alpha@ == o.alpha@ && self.num_update@
                        == o.num_update@ && self.consumptions@ == o.consumptions@ && self.gamma@
                        == o.gamma@,
                    agent_id <= self.num_agents,
                    fuel <= fuel0,
                    all_paid ==> *self == pass0 && fuel == fuel0,
                    all_paid ==> forall|a: int|
                        0 <= a < agent_id ==> pass0.spec_paid_for(a),
                    !all_paid ==> fuel < fuel0,
                decreases self.num_agents - agent_id,
            {
                let mut paid = self.is_paid_for(agent_id);
                while !paid
                    invariant
                        o == *old(self),
                        n == o.num_agents as int,
                        pass0.wf(),
                        self.wf(),
                        self.num_agents == o.num_agents,
                        self.num_items == o.num_items,
                        self.epsilon == o.epsilon,
                        self.budgets@ == o.budgets@,
                        self.bids@ == o.bids@,
                        self.beta == o.beta,
                        self.max_bid_agent@ == o.max_bid_agent@,
                        forall|a: int| 0 <= a < n ==> o.alpha@[a] <= #[trigger] self.alpha@[a],
                        items_assigned(self.gamma@, o.max_bid_agent@, n, o.num_items as int),
                        o.no_admitted_bids() ==> self.alpha@ == o.alpha@ && self.num_update@
                            == o.num_update@ && self.consumptions@ == o.consumptions@
                            && self.gamma@ == o.gamma@,
                        agent_id < self.num_agents,
                        paid == self.spec_paid_for(agent_id as int),
                        fuel <= fuel0,
                        all_paid ==> *self == pass0 && fuel == fuel0,
                        all_paid ==> forall|a: int| 0 <= a < agent_id ==> pass0.spec_paid_for(a),
                        !all_paid ==> fuel < fuel0,
                    decreases fuel,
                {
                    proof {
                        // an unpaid agent consumes something, so a bid exists
                        if o.no_admitted_bids() {
                            assert forall|a: int, i: int|
                                0 <= a < n && 0 <= i < self.num_items implies #[trigger] self.bids_at(
                                a,
                            )[i] == 0 by {
                                assert(o.bids_at(a)[i] == 0);
                            };
                            lemma_no_bids_consumption_zero(*self, agent_id as int);
                            lemma_zero_consumption_paid(*self, agent_id as int);
                        }
                    }
                    if fuel == 0 {
                        proof {
                            assert(!self.spec_paid_for(agent_id as int));
                        }
                        return Err(SolverError::Internal);
                    }
                    fuel = fuel - 1;
                    all_paid = false;

                    // reconcile: pop each owned item once; keep it if this
                    // agent is still the item's true winner, move it to the
                    // winner otherwise
                    let num = self.gamma[agent_id].len();
                    let mut cnt: usize = 0;
                    let mut kk: usize = 0;
                    let mut stop = false;
                    while kk < num && !stop
                        invariant
                            o == *old(self),
                            n == o.num_agents as int,
                            self.wf(),
                            self.num_agents == o.num_agents,
                            self.num_items == o.num_items,
                            self.epsilon == o.epsilon,
                            self.budgets@ == o.budgets@,
                            self.bids@ == o.bids@,
                            self.beta == o.beta,
                            self.max_bid_agent@ == o.max_bid_agent@,
                            forall|a: int|
                                0 <= a < n ==> o.alpha@[a] <= #[trigger] self.alpha@[a],
                            items_assigned(self.gamma@, o.max_bid_agent@, n, o.num_items as int),
                            agent_id < self.num_agents,
                            kk <= num,
                            cnt <= kk,
                            self.gamma@[agent_id as int]@.len() == num - kk + cnt,
                        decreases num - kk,
                    {
                        let ghost pre = *self;
                        let ghost ai = agent_id as int;
                        let ghost m = o.num_items as int;
                        let popped = self.gamma[agent_id].pop_front();
                        let item = popped.unwrap();
                        proof {
                            assert(self.gamma@ =~= pre.gamma@.update(
                                ai,
                                self.gamma@[ai],
                            ));
                            assert(self.gamma@[ai]@ =~= pre.gamma@[ai]@.drop_first());
                            assert(item == pre.gamma@[ai]@[0]);
                            assert(pre.bids@[ai]@[item as int] > 0);
                            assert(self.wf_core());
                            // the item has at least one candidate entry
                            assert(row_has_agent(self.item_agent@[item as int]@, ai));
                            let wit = choose|wk: int|
                                0 <= wk < self.item_agent@[item as int]@.len() && (
                                #[trigger] self.item_agent@[item as int]@[wk]).agent == ai;
                            assert(self.item_agent@[item as int]@.len() > 0);
                        }
                        let w = self.max_price_agent(item);
                        let ghost mid = *self;
                        if w == agent_id {
                            cnt = cnt + 1;
                            self.gamma[agent_id].push_back(item);
                            proof {
                                let g = *self;
                                assert(g.gamma@ =~= pre.gamma@.update(ai, g.gamma@[ai]));
                                assert(g.gamma@[ai]@ == mid.gamma@[ai]@.push(item));
                                lemma_ledger_requeue(
                                    g.bids@,
                                    pre.gamma@,
                                    pre.consumptions@,
                                    g.gamma@,
                                    g.consumptions@,
                                    o.max_bid_agent@,
                                    ai,
                                    ai,
                                    item,
                                    n,
                                    m,
                                );
                                assert(g.wf());
                            }
                        } else {
                            let b_out = self.bids[agent_id][item];
                            let b_in = self.bids[w][item];
                            proof {
                                // the popped bid is part of the consumption
                                assert(pre.consumptions@[ai] as int == seq_bid_sum(
                                    pre.bids@[ai]@,
                                    pre.gamma@[ai]@,
                                ));
                                assert(seq_bid_sum(pre.bids@[ai]@, pre.gamma@[ai]@)
                                    == pre.bids@[ai]@[item as int] + seq_bid_sum(
                                    pre.bids@[ai]@,
                                    pre.gamma@[ai]@.drop_first(),
                                ));
                                lemma_sum_nonneg(pre.bids@[ai]@, pre.gamma@[ai]@.drop_first());
                                // the receiving agent's consumption stays in range
                                lemma_row_sum_bound(
                                    pre.bids@[w as int]@,
                                    pre.gamma@[w as int]@,
                                    m,
                                );
                                lemma_mul_inequality(m, MAX_DIM as int, MAX_MONEY as int);
                                assert(pre.consumptions@[w as int] as int == seq_bid_sum(
                                    pre.bids@[w as int]@,
                                    pre.gamma@[w as int]@,
                                ));
                            }
                            self.consumptions[agent_id] = self.consumptions[agent_id] - (
                            b_out as u128);
                            self.gamma[w].push_back(item);
                            self.consumptions[w] = self.consumptions[w] + (b_in as u128);
                            proof {
                                let g = *self;
                                assert(g.gamma@[ai]@ == mid.gamma@[ai]@);
                                assert(g.gamma@[w as int]@ == mid.gamma@[w as int]@.push(item));
                                assert(mid.gamma@[w as int]@ == pre.gamma@[w as int]@);
                                lemma_ledger_requeue(
                                    g.bids@,
                                    pre.gamma@,
                                    pre.consumptions@,
                                    g.gamma@,
                                    g.consumptions@,
                                    o.max_bid_agent@,
                                    ai,
                                    w as int,
                                    item,
                                    n,
                                    m,
                                );
                                assert(g.wf());
                            }
                            if self.is_paid_for(agent_id) {
                                stop = true;
                            }
                        }
                        kk = kk + 1;
                    }

                    // if every owned item was confirmed, only this agent's
                    // own prices can be the obstacle: raise the dual price,
                    // re-checking, at most once per item
                    if cnt == num {
                        let mut t: usize = 0;
                        let mut paid_mid = self.is_paid_for(agent_id);
                        while t < self.num_items && !paid_mid
                            invariant
                                o == *old(self),
                                n == o.num_agents as int,
                                self.wf(),
                                self.num_agents == o.num_agents,
                                self.num_items == o.num_items,
                                self.epsilon == o.epsilon,
                                self.budgets@ == o.budgets@,
                                self.bids@ == o.bids@,
                                self.beta == o.beta,
                                self.max_bid_agent@ == o.max_bid_agent@,
                                forall|a: int|
                                    0 <= a < n ==> o.alpha@[a] <= #[trigger] self.alpha@[a],
                                items_assigned(self.gamma@, o.max_bid_agent@, n, o.num_items as int),
                                agent_id < self.num_agents,
                                t <= self.num_items,
                                paid_mid == self.spec_paid_for(agent_id as int),
                            decreases self.num_items - t,
                        {
                            self.update_alpha(agent_id);
                            proof {
                                let ai = agent_id as int;
                                assert forall|a: int|
                                    0 <= a < n implies o.alpha@[a] <= #[trigger] self.alpha@[a] by {
                                };
                            }
                            paid_mid = self.is_paid_for(agent_id);
                            t = t + 1;
                        }
                    }

                    // one more raise if the agent is still not paid for
                    if !self.is_paid_for(agent_id) {
                        self.update_alpha(agent_id);
                        proof {
                            assert forall|a: int|
                                0 <= a < n implies o.alpha@[a] <= #[trigger] self.alpha@[a] by {};
                        }
                    }
                    paid = self.is_paid_for(agent_id);
                }
                proof {
                    if all_paid {
                        assert(*self == pass0);
                        assert(pass0.spec_paid_for(agent_id as int));
                    }
                }
                agent_id = agent_id + 1;
            }
            if all_paid {
                proof {
                    assert(*self == pass0);
                    assert(forall|a: int| 0 <= a < n ==> pass0.spec_paid_for(a));
                }
                return Ok(());
            }
        }
    }

    /// Returns the dual objective `sum over agents of budget * alpha +
    /// consumption * (1 - alpha)` (scaled by [`SCALE`], each term rounded
    /// down to scale): the certificate that the underlying primal-dual
    /// analysis compares the realized objective against.
    pub fn get_dual_objective_value(&self) -> (v: u128)
        requires
            self.wf(),
        ensures
            v as int == self.dual_value(self.num_agents as int),
    {
        let bound: u128 = (MAX_DIM as u128 + 1) * (MAX_MONEY as u128);
        let mut total: u128 = 0;
        let mut a: usize = 0;
        while a < self.num_agents
            invariant
                self.wf(),
                a <= self.num_agents,
                bound == (MAX_DIM as int + 1) * (MAX_MONEY as int),
                total as int == self.dual_value(a as int),
                total <= a * bound,
            decreases self.num_agents - a,
        {
            let b = self.budgets[a];
            let al = self.alpha[a];
            let c = self.consumptions[a];
            proof {
                lemma_consumption_bound(*self, a as int);
                lemma_mul_upper_bound(b as int, MAX_MONEY as int, al as int, SCALE as int);
                lemma_mul_upper_bound(
                    c as int,
                    (MAX_DIM as int) * (MAX_MONEY as int),
                    (SCALE - al) as int,
                    SCALE as int,
                );
                // the per-agent term is at most bound
                lemma_mul_upper_bound(bound as int, bound as int, SCALE as int, SCALE as int);
                lemma_div_is_ordered(
                    (b as int) * (al as int) + (c as int) * ((SCALE - al) as int),
                    (bound as int) * (SCALE as int),
                    SCALE as int,
                );
                lemma_mul_div_le(bound as int, SCALE as int, SCALE as int);
                vstd::arithmetic::mul::lemma_mul_is_commutative(bound as int, SCALE as int);
                lemma_mul_is_distributive_add_other_way(bound as int, a as int, 1);
                lemma_mul_inequality(a as int + 1, MAX_DIM as int, bound as int);
            }
            let num = (b as u128) * (al as u128) + c * ((SCALE - al) as u128);
            let term = num / (SCALE as u128);
            total = total + term;
            a = a + 1;
        }
        total
    }

    /// Returns the realized objective: the total over agents of consumption
    /// capped at budget (scaled by [`SCALE`]).
    pub fn get_primal_objective_value(&self) -> (v: u128)
        requires
            self.wf(),
        ensures
            v as int == self.primal_value(self.num_agents as int),
    {
        let mut total: u128 = 0;
        let mut a: usize = 0;
        while a < self.num_agents
            invariant
                self.wf(),
                a <= self.num_agents,
                total as int == self.primal_value(a as int),
                total <= a * (MAX_MONEY as u128),
            decreases self.num_agents - a,
        {
            let c = self.consumptions[a];
            let b = self.budgets[a] as u128;
            let term = if c <= b {
                c
            } else {
                b
            };
            proof {
                lemma_mul_is_distributive_add_other_way(MAX_MONEY as int, a as int, 1);
                lemma_mul_inequality(a as int + 1, MAX_DIM as int, MAX_MONEY as int);
            }
            total = total + term;
            a = a + 1;
        }
        total
    }

    /// Returns the final assignment: for each agent, the item ids it owns,
    /// in insertion order.
    pub fn get_assignment(&self) -> (g: &Vec<VecDeque<usize>>)
        requires
            self.wf(),
        ensures
            *g == self.gamma,
    {
        &self.gamma
    }
}

/// A refresh of one stale entry lowers the stale count by exactly one.
proof fn lemma_stale_refresh(
    row: Seq<Candidate>,
    row2: Seq<Candidate>,
    num_update: Seq<u64>,
    j: int,
    k: int,
)
    requires
        row2.len() == row.len(),
        0 <= j < row.len(),
        0 <= k <= row.len(),
        forall|t: int| 0 <= t < row.len() && t != j ==> row2[t] == row[t],
        row[j].version != num_update[row[j].agent as int],
        row2[j].version == num_update[row2[j].agent as int],
    ensures
        stale_from(row2, num_update, k) == stale_from(row, num_update, k) - if k <= j {
            1int
        } else {
            0int
        },
    decreases row.len() - k,
{
    if k < row.len() {
        lemma_stale_refresh(row, row2, num_update, j, k + 1);
    }
}

/// A stale count is never negative.
proof fn lemma_stale_nonneg(row: Seq<Candidate>, num_update: Seq<u64>, k: int)
    requires
        0 <= k,
    ensures
        stale_from(row, num_update, k) >= 0,
    decreases row.len() - k,
{
    if k < row.len() {
        lemma_stale_nonneg(row, num_update, k + 1);
    }
}

/// A total of pairwise-distinct item bids, each below the money cap and each
/// item below `m`, lies between 0 and `m` times the cap.
pub proof fn lemma_row_sum_bound(row: Seq<u64>, items: Seq<usize>, m: int)
    requires
        0 <= m,
        row.len() == m,
        forall|j: int| 0 <= j < row.len() ==> #[trigger] row[j] <= MAX_MONEY,
        forall|k: int| 0 <= k < items.len() ==> (#[trigger] items[k]) < m,
        forall|k1: int, k2: int|
            0 <= k1 < items.len() && 0 <= k2 < items.len() && k1 != k2 ==> #[trigger] items[k1]
                != #[trigger] items[k2],
    ensures
        0 <= seq_bid_sum(row, items) <= m * (MAX_MONEY as int),
{
    lemma_distinct_bounded_len(items, m);
    lemma_sum_bound(row, items, MAX_MONEY as int);
    lemma_sum_nonneg(row, items);
    lemma_mul_inequality(items.len() as int, m, MAX_MONEY as int);
}

/// An agent's consumption is bounded by the number of items times the
/// largest admissible bid, because it owns each item at most once.
pub proof fn lemma_consumption_bound(s: PrimalDual, a: int)
    requires
        s.wf(),
        0 <= a < s.num_agents,
    ensures
        0 <= s.consumptions@[a] as int <= (s.num_items as int) * (MAX_MONEY as int),
{
    lemma_row_sum_bound(s.bids@[a]@, s.gamma@[a]@, s.num_items as int);
}

/// Moving the front item of one agent's ledger entry to the back of an
/// entry (its own when the owner was confirmed, the new winner's when not),
/// with the matching consumption updates, keeps the ledger consistent.
proof fn lemma_ledger_requeue(
    bids: Seq<Vec<u64>>,
    g0: Seq<VecDeque<usize>>,
    c0: Seq<u128>,
    g1: Seq<VecDeque<usize>>,
    c1: Seq<u128>,
    max_bid_agent: Seq<usize>,
    from: int,
    to: int,
    item: usize,
    n: int,
    m: int,
)
    requires
        ledger_ok(bids, g0, c0, n, m),
        items_assigned(g0, max_bid_agent, n, m),
        0 <= from < n,
        0 <= to < n,
        g0[from]@.len() > 0,
        g0[from]@[0] == item,
        bids[to]@[item as int] > 0,
        g1.len() == n,
        c1.len() == n,
        from == to ==> g1[from]@ == g0[from]@.drop_first().push(item) && c1 == c0 && (forall|
            a: int,
        | 0 <= a < n && a != from ==> g1[a] == g0[a]),
        from != to ==> g1[from]@ == g0[from]@.drop_first() && g1[to]@ == g0[to]@.push(item) && c1[from] as int
            == c0[from] - bids[from]@[item as int] && c1[to] as int == c0[to] + bids[to]@[item as int]
            && (forall|a: int| 0 <= a < n && a != from && a != to ==> g1[a] == g0[a]) && (forall|
            a: int,
        | 0 <= a < n && a != from && a != to ==> c1[a] == c0[a]),
    ensures
        ledger_ok(bids, g1, c1, n, m),
        items_assigned(g1, max_bid_agent, n, m),
{
    let tail = g0[from]@.drop_first();
    let newpos = if from == to {
        tail.len() as int
    } else {
        g0[to]@.len() as int
    };
    assert(forall|k: int| 0 <= k < tail.len() ==> #[trigger] tail[k] == g0[from]@[k + 1]);
    // the moved item sits nowhere else in the old ledger
    assert forall|a: int, k: int|
        0 <= a < n && 0 <= k < g0[a]@.len() && (a != from || k != 0) implies (#[trigger] g0[a]@[k])
        != item by {
        assert(g0[a]@[k] != g0[from]@[0]);
    };
    // where each new position takes its value from
    assert forall|a: int, k: int|
        0 <= a < n && 0 <= k < g1[a]@.len() implies (#[trigger] g1[a]@[k]) == (if a == to && k
            == newpos {
            item
        } else if a == from {
            g0[from]@[k + 1]
        } else {
            g0[a]@[k]
        }) && (a == to && k == newpos ==> g1[a]@.len() == newpos + 1) && g1[a]@.len() <= g0[a]@.len()
        + 1 by {
        if a == from && a == to {
        } else if a == from {
        } else if a == to {
        } else {
            assert(g1[a] == g0[a]);
        }
    };
    // entries stay valid items with admitted bids
    assert forall|a: int, k: int|
        0 <= a < n && 0 <= k < g1[a]@.len() implies (#[trigger] g1[a]@[k]) < m
            && bids[a]@[g1[a]@[k] as int] > 0 by {
        if a == to && k == newpos {
            assert(g1[a]@[k] == item);
            assert(g0[from]@[0] < m);
        } else if a == from {
            assert(g1[a]@[k] == g0[from]@[k + 1]);
        } else {
            assert(g1[a]@[k] == g0[a]@[k]);
        }
    };
    // no item is owned twice
    assert forall|a1: int, k1: int, a2: int, k2: int|
        0 <= a1 < n && 0 <= k1 < g1[a1]@.len() && 0 <= a2 < n && 0 <= k2 < g1[a2]@.len() && (a1
            != a2 || k1 != k2) implies (#[trigger] g1[a1]@[k1]) != (#[trigger] g1[a2]@[k2]) by {
        if a1 == to && k1 == newpos {
            assert(g1[a1]@[k1] == item);
            if a2 == from {
                assert(g1[a2]@[k2] == g0[from]@[k2 + 1]);
            } else {
                assert(g1[a2]@[k2] == g0[a2]@[k2]);
            }
        } else if a2 == to && k2 == newpos {
            assert(g1[a2]@[k2] == item);
            if a1 == from {
                assert(g1[a1]@[k1] == g0[from]@[k1 + 1]);
            } else {
                assert(g1[a1]@[k1] == g0[a1]@[k1]);
            }
        } else {
            let o1 = if a1 == from {
                k1 + 1
            } else {
                k1
            };
            let o2 = if a2 == from {
                k2 + 1
            } else {
                k2
            };
            assert(g1[a1]@[k1] == g0[a1]@[o1]);
            assert(g1[a2]@[k2] == g0[a2]@[o2]);
            assert(a1 != a2 || o1 != o2);
        }
    };
    // consumption still equals the total of the owned bids
    assert(seq_bid_sum(bids[from]@, g0[from]@) == bids[from]@[item as int] + seq_bid_sum(
        bids[from]@,
        tail,
    ));
    if from == to {
        lemma_sum_push(bids[from]@, tail, item);
    } else {
        lemma_sum_push(bids[to]@, g0[to]@, item);
    }
    assert forall|a: int|
        0 <= a < n implies #[trigger] c1[a] as int == seq_bid_sum(bids[a]@, g1[a]@) by {
        if a == from && from == to {
            assert(seq_bid_sum(bids[a]@, g1[a]@) == seq_bid_sum(bids[a]@, tail)
                + bids[a]@[item as int]);
        } else if a == from {
            assert(g1[a]@ == tail);
        } else if a == to {
            assert(g1[a]@ == g0[to]@.push(item));
        } else {
            assert(g1[a] == g0[a]);
            assert(c1[a] == c0[a]);
        }
    };
    // every owned item stays owned: the moved item lands at its new
    // position, every other one keeps (or shifts) its old one
    assert forall|i: int|
        0 <= i < m && (#[trigger] max_bid_agent[i]) < n implies item_owned(g1, n, i as usize) by {
        assert(item_owned(g0, n, i as usize));
        let (a2, k2) = choose|a2: int, k2: int|
            0 <= a2 < n && 0 <= k2 < g0[a2]@.len() && #[trigger] g0[a2]@[k2] == i as usize;
        if a2 == from && k2 == 0 {
            assert(g1[to]@[newpos] == item);
        } else if a2 == from {
            assert(g1[from]@[k2 - 1] == g0[from]@[k2]);
        } else {
            assert(g1[a2]@[k2] == g0[a2]@[k2]);
        }
    };
}

/// An agent that consumes nothing is always paid for.
pub proof fn lemma_zero_consumption_paid(s: PrimalDual, a: int)
    requires
        s.wf(),
        0 <= a < s.num_agents,
        s.consumptions@[a] == 0,
    ensures
        s.spec_paid_for(a),
{
    lemma_u_value_bounds(s.alpha@[a] as int, s.beta as int);
    lemma_mul_nonnegative(u_value(s.alpha@[a] as int, s.beta as int), s.budgets@[a] as int);
}

/// With no admitted bid anywhere, every agent consumes nothing.
pub proof fn lemma_no_bids_consumption_zero(s: PrimalDual, a: int)
    requires
        s.wf(),
        s.no_admitted_bids(),
        0 <= a < s.num_agents,
    ensures
        s.consumptions@[a] == 0,
{
    let items = s.gamma@[a]@;
    let row = s.bids@[a]@;
    assert forall|k: int| 0 <= k < items.len() implies row[#[trigger] items[k] as int] == 0 by {
        assert(items[k] < s.num_items);
        assert(s.bids_at(a)[items[k] as int] == 0);
    };
    lemma_sum_zero(row, items);
}

} // verus!
