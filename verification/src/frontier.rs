//! The priority frontier: a binary min-heap of `(cost, state)` entries.

use crate::state::{state_before, lemma_state_order_total, ExtendedState};
use vstd::multiset::Multiset;
use vstd::prelude::*;
use vstd::seq_lib::*;

verus! {

/// A state waiting in the frontier with the cost of the path that led to it.
#[derive(Debug, Copy, Clone, PartialEq, Eq)]
pub struct FrontierEntry {
    /// The accumulated cost.
    pub cost: u64,
    /// The state that was reached.
    pub state: ExtendedState,
}

/// The order in which entries leave the frontier: cheapest first, ties
/// broken by the natural order of the states.
pub open spec fn entry_before(a: FrontierEntry, b: FrontierEntry) -> bool {
    a.cost < b.cost || (a.cost == b.cost && state_before(a.state, b.state))
}

/// Whether `e` is in `entries` and no entry of `entries` comes before it.
pub open spec fn is_first(entries: Multiset<FrontierEntry>, e: FrontierEntry) -> bool {
    &&& entries.count(e) > 0
    &&& forall|x: FrontierEntry| entries.count(x) > 0 ==> !entry_before(x, e)
}

/// The entry that comes first is unique: whatever order the entries went in
/// in, the same contents always give up the same entry next.
pub proof fn lemma_first_unique(
    entries: Multiset<FrontierEntry>,
    a: FrontierEntry,
    b: FrontierEntry,
)
    requires
        is_first(entries, a),
        is_first(entries, b),
    ensures
        a == b,
{
    lemma_state_order_total(a.state, b.state, b.state);
    assert(!entry_before(a, b));
    assert(!entry_before(b, a));
}

impl FrontierEntry {
    /// Whether `self` leaves the frontier before `other`.
    pub fn precedes(&self, other: &FrontierEntry) -> (before: bool)
        ensures
            before == entry_before(*self, *other),
    {
        if self.cost != other.cost {
            self.cost < other.cost
        } else {
            self.state.precedes(&other.state)
        }
    }
}

/// The index of the parent of heap slot `i`.
pub open spec fn parent(i: int) -> int {
    (i - 1) / 2
}

/// Every slot but the root holds an entry that does not come before the
/// entry of its parent.
pub open spec fn heap_ordered(s: Seq<FrontierEntry>) -> bool {
    forall|j: int| 0 < j < s.len() ==> !entry_before(#[trigger] s[j], s[parent(j)])
}

/// The heap order with slot `k` left out as a child: the state of the heap
/// while the entry at `k` is sifted up.
spec fn ordered_above(s: Seq<FrontierEntry>, k: int) -> bool {
    &&& forall|j: int| 0 < j < s.len() && j != k ==> !entry_before(#[trigger] s[j], s[parent(j)])
    &&& forall|j: int|
        0 < j < s.len() && parent(j) == k && k > 0 ==> !entry_before(
            #[trigger] s[j],
            s[parent(k)],
        )
}

/// The heap order with slot `k` left out as a parent: the state of the heap
/// while the entry at `k` is sifted down.
spec fn ordered_below(s: Seq<FrontierEntry>, k: int) -> bool {
    &&& forall|j: int|
        0 < j < s.len() && parent(j) != k ==> !entry_before(#[trigger] s[j], s[parent(j)])
    &&& forall|j: int|
        0 < j < s.len() && parent(j) == k && k > 0 ==> !entry_before(
            #[trigger] s[j],
            s[parent(k)],
        )
}

/// In a heap-ordered sequence no entry comes before the root.
proof fn lemma_root_first(s: Seq<FrontierEntry>, j: int)
    requires
        heap_ordered(s),
        0 <= j < s.len(),
    ensures
        !entry_before(s[j], s[0]),
    decreases j,
{
    if j > 0 {
        lemma_root_first(s, parent(j));
        assert(!entry_before(s[j], s[parent(j)]));
    }
}

/// Exchanging two slots keeps the multiset of entries.
proof fn lemma_exchange_keeps_entries(s: Seq<FrontierEntry>, i: int, j: int)
    requires
        0 <= i < s.len(),
        0 <= j < s.len(),
    ensures
        s.update(i, s[j]).update(j, s[i]).to_multiset() == s.to_multiset(),
{
    let mid = s.update(i, s[j]);
    to_multiset_update(s, i, s[j]);
    to_multiset_update(mid, j, s[i]);
    s.to_multiset_ensures();
    if i == j {
        assert(mid.update(j, s[i]) =~= s);
    } else {
        assert(mid[j] == s[j]);
        assert(s.to_multiset().count(s[i]) > 0) by {
            assert(s.contains(s[i]));
        }
        assert(s.to_multiset().count(s[j]) > 0) by {
            assert(s.contains(s[j]));
        }
        assert(mid.update(j, s[i]).to_multiset() =~= s.to_multiset());
    }
}

/// A min-priority queue of frontier entries.
pub struct Frontier {
    items: Vec<FrontierEntry>,
}

impl View for Frontier {
    type V = Multiset<FrontierEntry>;

    closed spec fn view(&self) -> Multiset<FrontierEntry> {
        self.items@.to_multiset()
    }
}

impl Frontier {
    /// The representation invariant: the entries are stored in heap order.
    pub closed spec fn wf(&self) -> bool {
        heap_ordered(self.items@)
    }

    /// An empty frontier.
    pub fn new() -> (frontier: Frontier)
        ensures
            frontier.wf(),
            frontier@ == Multiset::<FrontierEntry>::empty(),
    {
        let frontier = Frontier { items: Vec::new() };
        proof {
            assert(frontier.items@.to_multiset() =~= Multiset::<FrontierEntry>::empty()) by {
                frontier.items@.to_multiset_ensures();
            }
        }
        frontier
    }

    /// The number of waiting entries.
    pub fn len(&self) -> (n: usize)
        ensures
            n == self@.len(),
    {
        proof {
            self.items@.to_multiset_ensures();
        }
        self.items.len()
    }

    /// Whether no entry is waiting.
    pub fn is_empty(&self) -> (empty: bool)
        ensures
            empty == (self@.len() == 0),
    {
        proof {
            self.items@.to_multiset_ensures();
        }
        self.items.len() == 0
    }

    /// Adds an entry.
    pub fn push(&mut self, entry: FrontierEntry)
        requires
            old(self).wf(),
        ensures
            final(self).wf(),
            final(self)@ == old(self)@.insert(entry),
    {
        proof {
            to_multiset_build(self.items@, entry);
        }
        self.items.push(entry);
        let mut i: usize = self.items.len() - 1;
        while i > 0
            invariant
                0 <= i < self.items@.len(),
                self.items@.to_multiset() == old(self)@.insert(entry),
                ordered_above(self.items@, i as int),
            ensures
                heap_ordered(self.items@),
            decreases i,
        {
            let up: usize = (i - 1) / 2;
            let child = self.items[i];
            let elder = self.items[up];
            if child.precedes(&elder) {
                proof {
                    lemma_exchange_keeps_entries(self.items@, i as int, up as int);
                    lemma_state_order_total(child.state, elder.state, elder.state);
                }
                let ghost before = self.items@;
                self.items.set(i, elder);
                self.items.set(up, child);
                proof {
                    let after = self.items@;
                    assert(after =~= before.update(i as int, before[up as int]).update(
                        up as int,
                        before[i as int],
                    ));
                    assert forall|j: int| 0 < j < after.len() && j != up implies !entry_before(
                        #[trigger] after[j],
                        after[parent(j)],
                    ) by {
                        if j == i {
                        } else if parent(j) == i {
                            assert(!entry_before(before[j], before[parent(i as int)]));
                        } else if parent(j) == up {
                            assert(!entry_before(before[j], before[parent(j)]));
                        } else {
                            assert(!entry_before(before[j], before[parent(j)]));
                        }
                    }
                    assert forall|j: int|
                        0 < j < after.len() && parent(j) == up && up > 0 implies !entry_before(
                        #[trigger] after[j],
                        after[parent(up as int)],
                    ) by {
                        assert(!entry_before(before[up as int], before[parent(up as int)]));
                        if j != i {
                            assert(!entry_before(before[j], before[parent(j)]));
                        }
                    }
                }
                i = up;
            } else {
                proof {
                    assert forall|j: int| 0 < j < self.items@.len() implies !entry_before(
                        #[trigger] self.items@[j],
                        self.items@[parent(j)],
                    ) by {}
                }
                break ;
            }
        }
    }

    /// Removes and returns the entry that comes first, or `None` when the
    /// frontier is empty.
    pub fn pop(&mut self) -> (out: Option<FrontierEntry>)
        requires
            old(self).wf(),
        ensures
            final(self).wf(),
            out is None <==> old(self)@.len() == 0,
            out is None ==> final(self)@ == old(self)@,
            out matches Some(e) ==> is_first(old(self)@, e) && final(self)@ == old(self)@.remove(e),
    {
        proof {
            self.items@.to_multiset_ensures();
        }
        if self.items.len() == 0 {
            return None;
        }
        let ghost start = self.items@;
        let top = self.items[0];
        let last = self.items.pop().unwrap();
        proof {
            assert(start.contains(top));
            assert forall|x: FrontierEntry| start.to_multiset().count(x) > 0 implies !entry_before(
                x,
                top,
            ) by {
                assert(start.contains(x));
                let j = choose|j: int| 0 <= j < start.len() && start[j] == x;
                lemma_root_first(start, j);
            }
            assert(self.items@ =~= start.drop_last());
            assert(start =~= self.items@.push(last));
            to_multiset_build(self.items@, last);
        }
        let n = self.items.len();
        if n == 0 {
            proof {
                assert(self.items@.to_multiset() =~= start.to_multiset().remove(top)) by {
                    self.items@.to_multiset_ensures();
                }
            }
            return Some(top);
        }
        proof {
            to_multiset_update(self.items@, 0, last);
            assert(self.items@.update(0, last).to_multiset() =~= start.to_multiset().remove(top));
        }
        self.items.set(0, last);
        let mut i: usize = 0;
        loop
            invariant
                0 <= i < n,
                n == self.items@.len(),
                self.items@.to_multiset() == start.to_multiset().remove(top),
                ordered_below(self.items@, i as int),
            ensures
                heap_ordered(self.items@),
                self.items@.to_multiset() == start.to_multiset().remove(top),
            decreases n - i,
        {
            if i > (n - 1) / 2 {
                break ;
            }
            let left: usize = 2 * i + 1;
            if left >= n {
                break ;
            }
            let mut pick: usize = left;
            if left < n - 1 {
                let a = self.items[left + 1];
                let b = self.items[left];
                if a.precedes(&b) {
                    pick = left + 1;
                }
            }
            let child = self.items[pick];
            let elder = self.items[i];
            if child.precedes(&elder) {
                proof {
                    lemma_exchange_keeps_entries(self.items@, i as int, pick as int);
                }
                let ghost before = self.items@;
                self.items.set(i, child);
                self.items.set(pick, elder);
                proof {
                    let after = self.items@;
                    assert(after =~= before.update(i as int, before[pick as int]).update(
                        pick as int,
                        before[i as int],
                    ));
                    assert forall|j: int|
                        0 < j < after.len() && parent(j) != pick implies !entry_before(
                        #[trigger] after[j],
                        after[parent(j)],
                    ) by {
                        if j == pick {
                        } else if parent(j) == i {
                            assert(j == left || j == left + 1);
                        } else if j == i {
                            assert(!entry_before(before[pick as int], before[parent(i as int)]));
                        } else {
                            assert(!entry_before(before[j], before[parent(j)]));
                        }
                    }
                    assert forall|j: int|
                        0 < j < after.len() && parent(j) == pick && pick > 0 implies !entry_before(
                        #[trigger] after[j],
                        after[parent(pick as int)],
                    ) by {
                        assert(!entry_before(before[j], before[parent(j)]));
                    }
                }
                i = pick;
            } else {
                proof {
                    let s = self.items@;
                    assert forall|j: int| 0 < j < s.len() implies !entry_before(
                        #[trigger] s[j],
                        s[parent(j)],
                    ) by {
                        if parent(j) == i {
                            assert(j == left || j == left + 1);
                        }
                    }
                }
                break ;
            }
        }
        Some(top)
    }
}

} // verus!
