use vstd::prelude::*;
use crate::task::{TaskConfig, Violation, latency_spec, costs_through, cost_sorted, is_cost_ordering};
use crate::admission::{passes_until, lemma_skip_passing};
use crate::scheduler::{is_schedule_result, is_execution_of};

verus! {

broadcast use vstd::seq_lib::group_to_multiset_ensures, vstd::multiset::group_multiset_axioms;

/// A batch whose every derived latency is within `max_latency`, and whose
/// every running total of costs (in input order) is within `max_budget`, is
/// admitted: scheduling returns all of its descriptors in ascending order of
/// cost.
pub proof fn within_ceilings_is_admitted(
    s: Seq<TaskConfig>,
    max_latency: u64,
    max_budget: u64,
    r: Result<Vec<TaskConfig>, Violation>,
)
    requires
        forall|j: int| 0 <= j < s.len() ==> latency_spec(#[trigger] s[j].estimated_cost) <= max_latency,
        forall|n: int| 1 <= n <= s.len() ==> #[trigger] costs_through(s, n) <= max_budget,
        is_schedule_result(s, max_latency, max_budget, r),
    ensures
        r is Ok,
        is_cost_ordering(r->Ok_0@, s),
{
    assert forall|j: int| 0 <= j < s.len() implies latency_spec(#[trigger] s[j].estimated_cost) <= max_latency
        && costs_through(s, j + 1) <= max_budget by {
        assert(costs_through(s, j + 1) <= max_budget);
    }
    lemma_skip_passing(s, max_latency, max_budget, 0, s.len());
}

/// When descriptor `k` is the first whose derived latency exceeds
/// `max_latency`, and no running total before it exceeds `max_budget`,
/// scheduling fails naming descriptor `k`, whatever the later descriptors'
/// costs are.
pub proof fn latency_violation_names_descriptor(
    s: Seq<TaskConfig>,
    max_latency: u64,
    max_budget: u64,
    k: int,
    r: Result<Vec<TaskConfig>, Violation>,
)
    requires
        0 <= k < s.len(),
        latency_spec(s[k].estimated_cost) > max_latency,
        passes_until(s, max_latency, max_budget, 0, k),
        is_schedule_result(s, max_latency, max_budget, r),
    ensures
        r == Err::<Vec<TaskConfig>, Violation>(Violation::LatencyExceeded {
            id: s[k].id,
            latency: latency_spec(s[k].estimated_cost) as u128,
            limit: max_latency,
        }),
{
    lemma_skip_passing(s, max_latency, max_budget, 0, k as nat);
}

/// When the running total of costs first exceeds `max_budget` at descriptor
/// `k`, and no derived latency up to `k` exceeds `max_latency`, scheduling
/// fails with the running total through `k`.
pub proof fn budget_violation_carries_total(
    s: Seq<TaskConfig>,
    max_latency: u64,
    max_budget: u64,
    k: int,
    r: Result<Vec<TaskConfig>, Violation>,
)
    requires
        0 <= k < s.len(),
        latency_spec(s[k].estimated_cost) <= max_latency,
        costs_through(s, k + 1) > max_budget,
        passes_until(s, max_latency, max_budget, 0, k),
        is_schedule_result(s, max_latency, max_budget, r),
    ensures
        r == Err::<Vec<TaskConfig>, Violation>(Violation::BudgetExceeded {
            total: costs_through(s, k + 1) as u128,
            limit: max_budget,
        }),
{
    lemma_skip_passing(s, max_latency, max_budget, 0, k as nat);
}

/// Executing a batch gives exactly one outcome per descriptor, and the ids of
/// the outcomes are the ids of the batch.
pub proof fn execution_keeps_ids(s: Seq<TaskConfig>, r: Seq<(usize, String)>)
    requires
        is_execution_of(r, s),
    ensures
        r.len() == s.len(),
        r.map_values(|o: (usize, String)| o.0) == s.map_values(|t: TaskConfig| t.id),
        r.map_values(|o: (usize, String)| o.0).to_set() == s.map_values(|t: TaskConfig| t.id).to_set(),
{
    assert(r.map_values(|o: (usize, String)| o.0) =~= s.map_values(|t: TaskConfig| t.id));
}

/// Two sequences in ascending order of cost that hold the same descriptors
/// have the same cost at every position.
pub proof fn sorted_same_tasks_same_costs(a: Seq<TaskConfig>, b: Seq<TaskConfig>)
    requires
        cost_sorted(a),
        cost_sorted(b),
        a.to_multiset() == b.to_multiset(),
    ensures
        a.len() == b.len(),
        forall|i: int| 0 <= i < a.len() ==> #[trigger] a[i].estimated_cost == b[i].estimated_cost,
    decreases a.len(),
{
    assert(a.len() == a.to_multiset().len());
    assert(b.len() == b.to_multiset().len());
    if a.len() > 0 {
        let x = a[0];
        assert(a.contains(x));
        assert(a.to_multiset().count(x) > 0);
        assert(b.to_multiset().count(x) > 0);
        assert(b.contains(x));
        let j = choose|j: int| 0 <= j < b.len() && b[j] == x;
        assert(b.contains(b[0]));
        assert(b.to_multiset().count(b[0]) > 0);
        assert(a.to_multiset().count(b[0]) > 0);
        assert(a.contains(b[0]));
        let i0 = choose|i: int| 0 <= i < a.len() && a[i] == b[0];
        assert(a[0].estimated_cost <= a[i0].estimated_cost);
        let c = x.estimated_cost;
        assert(b[0].estimated_cost == c);
        let a2 = a.remove(0);
        let b2 = b.remove(j);
        assert(a2.to_multiset() == a.to_multiset().remove(a[0]));
        assert(b2.to_multiset() == b.to_multiset().remove(b[j]));
        assert(cost_sorted(a2));
        assert(cost_sorted(b2)) by {
            assert forall|p: int, q: int| 0 <= p < q < b2.len() implies b2[p].estimated_cost
                <= b2[q].estimated_cost by {
                let pp = if p < j { p } else { p + 1 };
                let qq = if q < j { q } else { q + 1 };
                assert(b2[p] == b[pp]);
                assert(b2[q] == b[qq]);
            }
        }
        sorted_same_tasks_same_costs(a2, b2);
        assert forall|i: int| 0 <= i < a.len() implies #[trigger] a[i].estimated_cost
            == b[i].estimated_cost by {
            if i > 0 {
                assert(a[i] == a2[i - 1]);
                if i - 1 < j {
                    assert(b2[i - 1] == b[i - 1]);
                    assert(b[0].estimated_cost <= b[i - 1].estimated_cost);
                    assert(b[i].estimated_cost <= b[j].estimated_cost);
                } else {
                    assert(b2[i - 1] == b[i]);
                }
            }
        }
    }
}

/// Scheduling the same batch under the same ceilings twice gives the same
/// violation, or two orderings with the same cost at every position; a
/// descriptor whose cost no other descriptor shares is at the same position
/// in both.
pub proof fn schedule_is_repeatable(
    s: Seq<TaskConfig>,
    max_latency: u64,
    max_budget: u64,
    r1: Result<Vec<TaskConfig>, Violation>,
    r2: Result<Vec<TaskConfig>, Violation>,
)
    requires
        is_schedule_result(s, max_latency, max_budget, r1),
        is_schedule_result(s, max_latency, max_budget, r2),
    ensures
        r1 is Ok <==> r2 is Ok,
        r1 is Err ==> r1 == r2,
        r1 is Ok ==> r1->Ok_0@.len() == r2->Ok_0@.len(),
        r1 is Ok ==> forall|i: int| 0 <= i < r1->Ok_0@.len()
            ==> #[trigger] r1->Ok_0@[i].estimated_cost == r2->Ok_0@[i].estimated_cost,
        r1 is Ok ==> forall|i: int| 0 <= i < r1->Ok_0@.len() && (forall|j: int|
            0 <= j < r1->Ok_0@.len() && j != i ==> r1->Ok_0@[j].estimated_cost != r1->Ok_0@[i].estimated_cost)
            ==> #[trigger] r2->Ok_0@[i] == r1->Ok_0@[i],
{
    if r1 is Ok {
        let a = r1->Ok_0@;
        let b = r2->Ok_0@;
        sorted_same_tasks_same_costs(a, b);
        assert forall|i: int| 0 <= i < a.len() && (forall|j: int|
            0 <= j < a.len() && j != i ==> a[j].estimated_cost != a[i].estimated_cost)
            implies #[trigger] b[i] == a[i] by {
            assert(b.contains(b[i]));
            assert(b.to_multiset().count(b[i]) > 0);
            assert(a.to_multiset().count(b[i]) > 0);
            assert(a.contains(b[i]));
            let j = choose|j: int| 0 <= j < a.len() && a[j] == b[i];
            assert(a[j].estimated_cost == a[i].estimated_cost);
        }
    }
}

} // verus!
