use vstd::prelude::*;

verus! {

/// Seconds of derived latency per unit of estimated cost.
pub const LATENCY_PER_COST: u64 = 10;

/// One unit of work. Costs are kept in thousandths of a cost unit, so a
/// derived latency (cost times `LATENCY_PER_COST`) is in milliseconds.
#[derive(Clone, Debug)]
pub struct TaskConfig {
    pub id: usize,
    pub kind: String,
    pub backend: String,
    pub estimated_cost: u64,
}

impl TaskConfig {
    pub fn new(id: usize, kind: String, backend: String, estimated_cost: u64) -> (r: TaskConfig)
        ensures
            r.id == id,
            r.kind == kind,
            r.backend == backend,
            r.estimated_cost == estimated_cost,
    {
        TaskConfig { id, kind, backend, estimated_cost }
    }
}

/// Why a batch was refused.
#[derive(Clone, Debug)]
pub enum Violation {
    /// A descriptor's derived latency (milliseconds) is above the ceiling.
    LatencyExceeded { id: usize, latency: u128, limit: u64 },
    /// The running total of costs (thousandths) is above the budget.
    BudgetExceeded { total: u128, limit: u64 },
    /// The batch could not be decoded before it reached admission.
    MalformedInput { detail: String },
}

impl Violation {
    /// A short description of the violation.
    pub fn message(&self) -> (r: String)
        ensures
            self is LatencyExceeded ==> r@ == "task exceeds max latency"@,
            self is BudgetExceeded ==> r@ == "total cost exceeds budget"@,
            self is MalformedInput ==> r@ == "malformed task batch"@,
    {
        match self {
            Violation::LatencyExceeded { .. } => String::from_str("task exceeds max latency"),
            Violation::BudgetExceeded { .. } => String::from_str("total cost exceeds budget"),
            Violation::MalformedInput { .. } => String::from_str("malformed task batch"),
        }
    }
}

/// Derived latency of a cost.
pub open spec fn latency_spec(cost: u64) -> int {
    cost * LATENCY_PER_COST
}

/// Derived latency of a cost, in milliseconds.
pub fn latency_of(cost: u64) -> (r: u128)
    ensures
        r == latency_spec(cost),
{
    proof {
        assert(cost * LATENCY_PER_COST <= 0xffff_ffff_ffff_ffffu64 * 10) by (nonlinear_arith)
            requires
                cost <= 0xffff_ffff_ffff_ffffu64,
                LATENCY_PER_COST == 10,
        ;
    }
    cost as u128 * LATENCY_PER_COST as u128
}

/// Sum of the costs of the first `n` descriptors.
pub open spec fn costs_through(s: Seq<TaskConfig>, n: int) -> int
    decreases n,
{
    if n <= 0 || s.len() < n {
        0
    } else {
        costs_through(s, n - 1) + s[n - 1].estimated_cost
    }
}

/// `a` and `b` hold the same descriptors, each as many times.
pub open spec fn same_tasks(a: Seq<TaskConfig>, b: Seq<TaskConfig>) -> bool {
    a.to_multiset() == b.to_multiset()
}

/// `s` is in ascending order of cost.
pub open spec fn cost_sorted(s: Seq<TaskConfig>) -> bool {
    forall|i: int, j: int| 0 <= i < j < s.len() ==> s[i].estimated_cost <= s[j].estimated_cost
}

/// `v` holds exactly the descriptors of `s`, in ascending order of cost.
pub open spec fn is_cost_ordering(v: Seq<TaskConfig>, s: Seq<TaskConfig>) -> bool {
    same_tasks(v, s) && cost_sorted(v)
}

} // verus!
