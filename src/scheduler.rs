use vstd::prelude::*;
use vstd::multiset::Multiset;
use crate::task::{TaskConfig, Violation, is_cost_ordering, cost_sorted};
use crate::admission::{admission, validate};
use crate::queue::MinQueue;

verus! {

broadcast use vstd::seq_lib::group_to_multiset_ensures, vstd::multiset::group_multiset_axioms;

/// What `schedule_tasks` returns for the batch `s` under the two ceilings:
/// the first violation in input order, or else every descriptor of the batch
/// in ascending order of cost.
pub open spec fn is_schedule_result(
    s: Seq<TaskConfig>,
    max_latency: u64,
    max_budget: u64,
    r: Result<Vec<TaskConfig>, Violation>,
) -> bool {
    match admission(s, max_latency, max_budget) {
        None => r is Ok && is_cost_ordering(r->Ok_0@, s),
        Some(e) => r == Err::<Vec<TaskConfig>, Violation>(e),
    }
}

/// The character of a decimal digit.
pub open spec fn digit_char(d: nat) -> char {
    if d == 0 { '0' }
    else if d == 1 { '1' }
    else if d == 2 { '2' }
    else if d == 3 { '3' }
    else if d == 4 { '4' }
    else if d == 5 { '5' }
    else if d == 6 { '6' }
    else if d == 7 { '7' }
    else if d == 8 { '8' }
    else { '9' }
}

/// The decimal digits of `n`, most significant first, without leading zeros.
pub open spec fn decimal(n: nat) -> Seq<char>
    decreases n,
{
    if n < 10 {
        seq![digit_char(n)]
    } else {
        decimal(n / 10).push(digit_char(n % 10))
    }
}

/// The status message of an executed descriptor.
pub open spec fn status_message(id: nat, backend: Seq<char>) -> Seq<char> {
    "Executed task "@ + decimal(id) + " on "@ + backend
}

/// `r` holds one outcome per descriptor of `s`, in the same order.
pub open spec fn is_execution_of(r: Seq<(usize, String)>, s: Seq<TaskConfig>) -> bool {
    &&& r.len() == s.len()
    &&& forall|i: int| 0 <= i < s.len() ==> #[trigger] r[i].0 == s[i].id
    &&& forall|i: int| 0 <= i < s.len() ==> (#[trigger] r[i].1)@ == status_message(s[i].id as nat, s[i].backend@)
}

/// The outcomes of the units that completed, in the order they were joined.
pub open spec fn completed(joined: Seq<Option<(usize, String)>>) -> Seq<(usize, String)>
    decreases joined.len(),
{
    if joined.len() == 0 {
        Seq::empty()
    } else {
        let rest = completed(joined.drop_last());
        match joined.last() {
            Some(o) => rest.push(o),
            None => rest,
        }
    }
}

fn digit_str(d: usize) -> (r: &'static str)
    requires
        d < 10,
    ensures
        r@ == seq![digit_char(d as nat)],
{
    proof {
        reveal_strlit("0");
        reveal_strlit("1");
        reveal_strlit("2");
        reveal_strlit("3");
        reveal_strlit("4");
        reveal_strlit("5");
        reveal_strlit("6");
        reveal_strlit("7");
        reveal_strlit("8");
        reveal_strlit("9");
    }
    if d == 0 { "0" }
    else if d == 1 { "1" }
    else if d == 2 { "2" }
    else if d == 3 { "3" }
    else if d == 4 { "4" }
    else if d == 5 { "5" }
    else if d == 6 { "6" }
    else if d == 7 { "7" }
    else if d == 8 { "8" }
    else { "9" }
}

/// Appends the decimal digits of `n` to `s`.
pub fn append_decimal(s: &mut String, n: usize)
    ensures
        final(s)@ == old(s)@ + decimal(n as nat),
    decreases n,
{
    if n >= 10 {
        append_decimal(s, n / 10);
    }
    s.append(digit_str(n % 10));
    proof {
        assert(final(s)@ =~= old(s)@ + decimal(n as nat));
    }
}

/// The work of one unit: the outcome of executing one descriptor.
pub fn execute_unit(task: &TaskConfig) -> (r: (usize, String))
    ensures
        r.0 == task.id,
        r.1@ == status_message(task.id as nat, task.backend@),
{
    proof {
        reveal_strlit("Executed task ");
        reveal_strlit(" on ");
    }
    let mut msg = String::from_str("Executed task ");
    append_decimal(&mut msg, task.id);
    msg.append(" on ");
    msg.append(task.backend.as_str());
    proof {
        assert(msg@ =~= status_message(task.id as nat, task.backend@));
    }
    (task.id, msg)
}

/// Gathers the outcomes of joined units; a unit that did not complete
/// contributes no outcome.
pub fn collect_outcomes(joined: Vec<Option<(usize, String)>>) -> (r: Vec<(usize, String)>)
    ensures
        r@ == completed(joined@),
{
    let mut r: Vec<(usize, String)> = Vec::new();
    let mut i: usize = 0;
    while i < joined.len()
        invariant
            0 <= i <= joined.len(),
            r@ == completed(joined@.subrange(0, i as int)),
        decreases joined.len() - i,
    {
        proof {
            assert(joined@.subrange(0, i + 1).drop_last() =~= joined@.subrange(0, i as int));
        }
        match &joined[i] {
            Some(o) => {
                let msg = o.1.clone();
                r.push((o.0, msg));
            },
            None => {},
        }
        i = i + 1;
    }
    proof {
        assert(joined@.subrange(0, joined@.len() as int) =~= joined@);
    }
    r
}

/// Takes every descriptor out in ascending order of cost.
pub fn order(tasks: Vec<TaskConfig>) -> (r: Vec<TaskConfig>)
    ensures
        is_cost_ordering(r@, tasks@),
{
    let ghost all = tasks@.to_multiset();
    let mut q = MinQueue::from_vec(tasks);
    let mut out: Vec<TaskConfig> = Vec::new();
    proof {
        assert(out@.to_multiset().add(q@) =~= all);
    }
    loop
        invariant
            q.wf(),
            out@.to_multiset().add(q@) == all,
            cost_sorted(out@),
            out@.len() > 0 ==> forall|x: TaskConfig| #[trigger]
                q@.contains(x) ==> out@.last().estimated_cost <= x.estimated_cost,
        ensures
            out@.to_multiset() == all,
            cost_sorted(out@),
        decreases q@.len(),
    {
        let ghost before = q@;
        match q.pop_min() {
            None => {
                proof {
                    assert(q@ =~= Multiset::<TaskConfig>::empty());
                    assert(out@.to_multiset() =~= all);
                }
                break;
            },
            Some(t) => {
                proof {
                    assert(before.contains(t));
                }
                let ghost prev = out@;
                out.push(t);
                proof {
                    assert(out@ == prev.push(t));
                    assert(out@.to_multiset().add(q@) =~= all);
                    assert forall|x: TaskConfig| #[trigger] q@.contains(x) implies
                        out@.last().estimated_cost <= x.estimated_cost by {
                        assert(before.contains(x));
                    }
                }
            },
        }
    }
    out
}

/// Admits and orders batches of descriptors, and executes them.
pub struct Scheduler {}

impl Scheduler {
    /// A scheduler; it keeps nothing from one call to the next.
    pub fn new() -> (r: Scheduler) {
        Scheduler {}
    }

    /// Checks the batch against the ceilings (latency in milliseconds, budget
    /// in thousandths of a cost unit) and, when it is admitted, returns it in
    /// ascending order of cost.
    pub fn schedule_tasks(&self, tasks: Vec<TaskConfig>, max_latency: u64, max_budget: u64) -> (r: Result<Vec<TaskConfig>, Violation>)
        ensures
            is_schedule_result(tasks@, max_latency, max_budget, r),
    {
        match validate(&tasks, max_latency, max_budget) {
            Err(e) => Err(e),
            Ok(()) => Ok(order(tasks)),
        }
    }

    /// Executes every descriptor and returns one outcome for each.
    pub fn execute_tasks(&self, tasks: Vec<TaskConfig>) -> (r: Vec<(usize, String)>)
        ensures
            is_execution_of(r@, tasks@),
    {
        let mut r: Vec<(usize, String)> = Vec::new();
        let mut i: usize = 0;
        while i < tasks.len()
            invariant
                0 <= i <= tasks.len(),
                is_execution_of(r@, tasks@.subrange(0, i as int)),
            decreases tasks.len() - i,
        {
            let o = execute_unit(&tasks[i]);
            r.push(o);
            i = i + 1;
        }
        proof {
            assert(tasks@.subrange(0, tasks@.len() as int) =~= tasks@);
        }
        r
    }
}

} // verus!
