use vstd::prelude::*;
use vstd::multiset::Multiset;
use crate::task::TaskConfig;

verus! {

broadcast use vstd::seq_lib::group_to_multiset_ensures, vstd::multiset::group_multiset_axioms;

/// A binary min-heap of descriptors keyed by estimated cost: the cheapest
/// descriptor leaves first. Insertion and extraction move an item along one
/// path from a leaf to the root.
pub struct MinQueue {
    items: Vec<TaskConfig>,
}

/// Slot `i` is no cheaper than its parent slot.
spec fn edge_ok(s: Seq<TaskConfig>, i: int) -> bool {
    s[(i - 1) / 2].estimated_cost <= s[i].estimated_cost
}

/// Every slot is no cheaper than its parent slot.
spec fn heap_ordered(s: Seq<TaskConfig>) -> bool {
    forall|i: int| 0 < i < s.len() ==> #[trigger] edge_ok(s, i)
}

/// In a heap-ordered sequence the root is a cheapest item.
proof fn lemma_root_is_min(s: Seq<TaskConfig>, i: int)
    requires
        heap_ordered(s),
        0 <= i < s.len(),
    ensures
        s[0].estimated_cost <= s[i].estimated_cost,
    decreases i,
{
    if i > 0 {
        assert(edge_ok(s, i));
        lemma_root_is_min(s, (i - 1) / 2);
    }
}

proof fn lemma_update_to_multiset(s: Seq<TaskConfig>, i: int, x: TaskConfig)
    requires
        0 <= i < s.len(),
    ensures
        s.update(i, x).to_multiset() == s.to_multiset().remove(s[i]).insert(x),
{
    assert(s.update(i, x) =~= s.remove(i).insert(i, x));
    vstd::seq_lib::to_multiset_insert(s.remove(i), i, x);
    vstd::seq_lib::to_multiset_remove(s, i);
}

/// Exchanges the items in slots `i` and `j`.
fn swap_items(v: &mut Vec<TaskConfig>, i: usize, j: usize)
    requires
        i < old(v).len(),
        j < old(v).len(),
        i != j,
    ensures
        final(v)@ == old(v)@.update(i as int, old(v)@[j as int]).update(j as int, old(v)@[i as int]),
        final(v)@.to_multiset() == old(v)@.to_multiset(),
{
    let ghost s = v@;
    let mut a = TaskConfig { id: 0, kind: String::new(), backend: String::new(), estimated_cost: 0 };
    std::mem::swap(&mut v[i], &mut a);
    std::mem::swap(&mut v[j], &mut a);
    std::mem::swap(&mut v[i], &mut a);
    proof {
        let u = s.update(i as int, s[j as int]);
        lemma_update_to_multiset(s, i as int, s[j as int]);
        lemma_update_to_multiset(u, j as int, s[i as int]);
        assert(s.to_multiset().count(s[i as int]) > 0);
        assert(u.to_multiset().remove(u[j as int]).insert(s[i as int]) =~= s.to_multiset());
    }
}

impl View for MinQueue {
    type V = Multiset<TaskConfig>;

    closed spec fn view(&self) -> Multiset<TaskConfig> {
        self.items@.to_multiset()
    }
}

impl MinQueue {
    /// The heap order holds.
    pub closed spec fn wf(&self) -> bool {
        heap_ordered(self.items@)
    }

    /// An empty queue.
    pub fn new() -> (r: MinQueue)
        ensures
            r.wf(),
            r@ == Multiset::<TaskConfig>::empty(),
    {
        let r = MinQueue { items: Vec::new() };
        proof {
            assert(r.items@ =~= Seq::<TaskConfig>::empty());
        }
        r
    }

    /// A queue holding the given descriptors.
    pub fn from_vec(items: Vec<TaskConfig>) -> (r: MinQueue)
        ensures
            r.wf(),
            r@ == items@.to_multiset(),
    {
        let mut q = MinQueue::new();
        let mut items = items;
        let ghost all = items@.to_multiset();
        while items.len() > 0
            invariant
                q.wf(),
                q@.add(items@.to_multiset()) == all,
            decreases items.len(),
        {
            let ghost before = items@;
            let t = items.pop().unwrap();
            proof {
                assert(before.remove(before.len() - 1) =~= items@);
                assert(q@.insert(t).add(items@.to_multiset()) =~= all);
            }
            q.push(t);
        }
        proof {
            assert(items@ =~= Seq::<TaskConfig>::empty());
            assert(q@ =~= all);
        }
        q
    }

    /// Number of descriptors waiting.
    pub fn len(&self) -> (r: usize)
        ensures
            r == self@.len(),
    {
        self.items.len()
    }

    /// Adds a descriptor, with its cost as its priority key.
    pub fn push(&mut self, task: TaskConfig)
        requires
            old(self).wf(),
        ensures
            final(self).wf(),
            final(self)@ == old(self)@.insert(task),
    {
        let ghost s0 = self.items@;
        self.items.push(task);
        let mut k: usize = self.items.len() - 1;
        proof {
            assert forall|i: int| 0 < i < self.items@.len() && i != k implies #[trigger] edge_ok(self.items@, i) by {
                assert(edge_ok(s0, i));
            }
        }
        loop
            invariant
                k < self.items.len(),
                self@ == old(self)@.insert(task),
                forall|i: int| 0 < i < self.items@.len() && i != k ==> #[trigger] edge_ok(self.items@, i),
                k > 0 ==> forall|i: int| 0 < i < self.items@.len() && (i - 1) / 2 == k
                    ==> self.items@[(k - 1) / 2].estimated_cost <= #[trigger] self.items@[i].estimated_cost,
            ensures
                self.wf(),
                self@ == old(self)@.insert(task),
            decreases k,
        {
            if k == 0 {
                break;
            }
            let p: usize = (k - 1) / 2;
            if self.items[p].estimated_cost <= self.items[k].estimated_cost {
                proof {
                    assert(edge_ok(self.items@, k as int));
                }
                break;
            }
            let ghost s = self.items@;
            swap_items(&mut self.items, p, k);
            proof {
                let t = self.items@;
                assert forall|i: int| 0 < i < t.len() && i != p implies #[trigger] edge_ok(t, i) by {
                    if i == k {
                    } else if (i - 1) / 2 == k {
                        assert(edge_ok(s, i));
                    } else if (i - 1) / 2 == p {
                        assert(edge_ok(s, i));
                    } else {
                        assert(edge_ok(s, i));
                    }
                }
                assert forall|i: int| 0 < i < t.len() && (i - 1) / 2 == p && p > 0
                    implies t[(p - 1) / 2].estimated_cost <= #[trigger] t[i].estimated_cost by {
                    assert(edge_ok(s, p as int));
                    if i != k {
                        assert(edge_ok(s, i));
                    }
                }
            }
            k = p;
        }
    }

    /// Takes out a descriptor of least cost, or `None` when the queue is empty.
    pub fn pop_min(&mut self) -> (r: Option<TaskConfig>)
        requires
            old(self).wf(),
        ensures
            final(self).wf(),
            old(self)@.len() == 0 <==> r is None,
            r is None ==> final(self)@ == old(self)@,
            r is Some ==> old(self)@ == final(self)@.insert(r->Some_0),
            r is Some ==> forall|x: TaskConfig| #[trigger]
                old(self)@.contains(x) ==> r->Some_0.estimated_cost <= x.estimated_cost,
    {
        if self.items.len() == 0 {
            return None;
        }
        let ghost s0 = self.items@;
        proof {
            assert forall|x: TaskConfig| #[trigger]
                s0.to_multiset().contains(x) implies s0[0].estimated_cost <= x.estimated_cost by {
                assert(s0.contains(x));
                let j = choose|j: int| 0 <= j < s0.len() && s0[j] == x;
                lemma_root_is_min(s0, j);
            }
        }
        let t = self.items.swap_remove(0);
        proof {
            let s1 = s0.update(0, s0.last());
            lemma_update_to_multiset(s0, 0, s0.last());
            assert(s1.drop_last() =~= s1.remove(s1.len() - 1));
            assert(s1.to_multiset().count(s0.last()) > 0);
            assert(s0.to_multiset() =~= self@.insert(t));
            assert forall|i: int| 0 < i < self.items@.len() && (i - 1) / 2 != 0 implies #[trigger] edge_ok(self.items@, i) by {
                assert(edge_ok(s0, i));
            }
        }
        let mut k: usize = 0;
        loop
            invariant
                self.items@.len() == 0 || k < self.items@.len(),
                s0.to_multiset() == self@.insert(t),
                forall|i: int| 0 < i < self.items@.len() && (i - 1) / 2 != k ==> #[trigger] edge_ok(self.items@, i),
                k > 0 ==> forall|i: int| 0 < i < self.items@.len() && (i - 1) / 2 == k
                    ==> self.items@[(k - 1) / 2].estimated_cost <= #[trigger] self.items@[i].estimated_cost,
            ensures
                self.wf(),
                s0.to_multiset() == self@.insert(t),
            decreases self.items@.len() - k,
        {
            let n = self.items.len();
            if n == 0 || k >= (n - 1) / 2 + (n - 1) % 2 {
                proof {
                    assert forall|i: int| 0 < i < self.items@.len() implies #[trigger] edge_ok(self.items@, i) by {
                        if (i - 1) / 2 == k {
                            assert(false);
                        }
                    }
                }
                break;
            }
            let l: usize = 2 * k + 1;
            let mut m: usize = l;
            if l + 1 < n && self.items[l + 1].estimated_cost < self.items[l].estimated_cost {
                m = l + 1;
            }
            if self.items[k].estimated_cost <= self.items[m].estimated_cost {
                proof {
                    assert forall|i: int| 0 < i < self.items@.len() implies #[trigger] edge_ok(self.items@, i) by {
                        if (i - 1) / 2 == k {
                            assert(i == l || i == l + 1);
                        }
                    }
                }
                break;
            }
            let ghost s = self.items@;
            swap_items(&mut self.items, k, m);
            proof {
                let u = self.items@;
                assert forall|i: int| 0 < i < u.len() && (i - 1) / 2 != m implies #[trigger] edge_ok(u, i) by {
                    if i == m {
                    } else if i == k {
                        assert(edge_ok(s, k as int) || k == 0);
                    } else if (i - 1) / 2 == k {
                        assert(i == l || i == l + 1);
                    } else {
                        assert(edge_ok(s, i));
                    }
                }
                assert forall|i: int| 0 < i < u.len() && (i - 1) / 2 == m
                    implies u[(m - 1) / 2].estimated_cost <= #[trigger] u[i].estimated_cost by {
                    assert(edge_ok(s, i));
                }
            }
            k = m;
        }
        Some(t)
    }
}

} // verus!
