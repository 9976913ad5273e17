use vstd::prelude::*;
use crate::task::{TaskConfig, Violation, latency_spec, latency_of, costs_through};

verus! {

/// The first violation met when checking `s` from index `i` on, in input
/// order: a descriptor's latency is checked before it is added to the
/// running total, and the running total is checked after each addition.
pub open spec fn first_violation(s: Seq<TaskConfig>, max_latency: u64, max_budget: u64, i: nat) -> Option<Violation>
    decreases s.len() - i,
{
    if i >= s.len() {
        None
    } else if latency_spec(s[i as int].estimated_cost) > max_latency {
        Some(Violation::LatencyExceeded {
            id: s[i as int].id,
            latency: latency_spec(s[i as int].estimated_cost) as u128,
            limit: max_latency,
        })
    } else if costs_through(s, i + 1 as int) > max_budget {
        Some(Violation::BudgetExceeded {
            total: costs_through(s, i + 1 as int) as u128,
            limit: max_budget,
        })
    } else {
        first_violation(s, max_latency, max_budget, i + 1)
    }
}

/// The outcome of admission for a whole batch: `None` when it is admitted.
pub open spec fn admission(s: Seq<TaskConfig>, max_latency: u64, max_budget: u64) -> Option<Violation> {
    first_violation(s, max_latency, max_budget, 0)
}

/// Descriptors `i` up to (not including) `k` pass both checks.
pub open spec fn passes_until(s: Seq<TaskConfig>, max_latency: u64, max_budget: u64, i: int, k: int) -> bool {
    forall|j: int|
        i <= j < k ==> latency_spec(#[trigger] s[j].estimated_cost) <= max_latency
            && costs_through(s, j + 1) <= max_budget
}

/// Checking from `i` meets the same violation as checking from `k`
/// when every descriptor in between passes.
pub proof fn lemma_skip_passing(s: Seq<TaskConfig>, max_latency: u64, max_budget: u64, i: nat, k: nat)
    requires
        i <= k <= s.len(),
        passes_until(s, max_latency, max_budget, i as int, k as int),
    ensures
        first_violation(s, max_latency, max_budget, i) == first_violation(s, max_latency, max_budget, k),
    decreases k - i,
{
    if i < k {
        assert(latency_spec(s[i as int].estimated_cost) <= max_latency);
        lemma_skip_passing(s, max_latency, max_budget, i + 1, k);
    }
}

/// Checks a batch against the latency and budget ceilings, in input order,
/// stopping at the first violation.
pub fn validate(tasks: &Vec<TaskConfig>, max_latency: u64, max_budget: u64) -> (r: Result<(), Violation>)
    ensures
        r is Ok <==> admission(tasks@, max_latency, max_budget) is None,
        r is Err ==> admission(tasks@, max_latency, max_budget) == Some(r->Err_0),
{
    let ghost s = tasks@;
    let mut total: u128 = 0;
    let mut i: usize = 0;
    while i < tasks.len()
        invariant
            s == tasks@,
            0 <= i <= s.len(),
            total == costs_through(s, i as int),
            total <= max_budget,
            admission(s, max_latency, max_budget) == first_violation(s, max_latency, max_budget, i as nat),
        decreases s.len() - i,
    {
        let task = &tasks[i];
        let latency = latency_of(task.estimated_cost);
        if latency > max_latency as u128 {
            return Err(Violation::LatencyExceeded { id: task.id, latency, limit: max_latency });
        }
        total = total + task.estimated_cost as u128;
        assert(costs_through(s, i + 1) == costs_through(s, i as int) + s[i as int].estimated_cost);
        if total > max_budget as u128 {
            return Err(Violation::BudgetExceeded { total, limit: max_budget });
        }
        i = i + 1;
    }
    Ok(())
}

} // verus!
