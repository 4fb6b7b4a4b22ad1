//! The relaxation table: the best known cost of every slot of the state
//! space, held in one flat vector that is allocated once per query.

use vstd::prelude::*;

verus! {

/// Whether `now` is at most `before`, where `None` stands for "not reached
/// yet" and is above every cost.
pub open spec fn not_worse(now: Option<u64>, before: Option<u64>) -> bool {
    match (now, before) {
        (_, None) => true,
        (None, Some(_)) => false,
        (Some(a), Some(b)) => a <= b,
    }
}

/// Whether `cost` is strictly below the recorded `current`.
pub open spec fn improves(cost: u64, current: Option<u64>) -> bool {
    match current {
        None => true,
        Some(best) => cost < best,
    }
}

/// What one slot adds to the potential of a table.
pub open spec fn slot_weight(entry: Option<u64>) -> nat {
    match entry {
        None => 0x1_0000_0000_0000_0000,
        Some(cost) => cost as nat,
    }
}

/// The potential of a table: the sum of its slot weights. Every successful
/// relaxation lowers it.
pub open spec fn potential(table: Seq<Option<u64>>) -> nat
    decreases table.len(),
{
    if table.len() == 0 {
        0
    } else {
        potential(table.drop_last()) + slot_weight(table.last())
    }
}

/// Replacing one slot changes the potential by the difference of the two
/// slot weights.
pub proof fn lemma_potential_update(table: Seq<Option<u64>>, k: int, entry: Option<u64>)
    requires
        0 <= k < table.len(),
    ensures
        potential(table.update(k, entry)) + slot_weight(table[k]) == potential(table)
            + slot_weight(entry),
    decreases table.len(),
{
    let changed = table.update(k, entry);
    if k == table.len() - 1 {
        assert(changed.drop_last() =~= table.drop_last());
    } else {
        lemma_potential_update(table.drop_last(), k, entry);
        assert(changed.drop_last() =~= table.drop_last().update(k, entry));
    }
}

/// The relation `not_worse` is reflexive and transitive, so a slot that is
/// only ever rewritten through `relax` never rises over a whole query.
pub proof fn lemma_not_worse_chain(a: Option<u64>, b: Option<u64>, c: Option<u64>)
    ensures
        not_worse(a, a),
        not_worse(a, b) && not_worse(b, c) ==> not_worse(a, c),
{
}

/// A dense table from slot to the least cost seen so far.
pub struct RelaxationTable {
    best: Vec<Option<u64>>,
}

impl View for RelaxationTable {
    type V = Seq<Option<u64>>;

    closed spec fn view(&self) -> Seq<Option<u64>> {
        self.best@
    }
}

impl RelaxationTable {
    /// A table of `slots` entries, none of them reached.
    pub fn new(slots: usize) -> (table: RelaxationTable)
        ensures
            table@.len() == slots,
            forall|k: int| 0 <= k < slots ==> table@[k] is None,
    {
        let mut best: Vec<Option<u64>> = Vec::new();
        let mut k: usize = 0;
        while k < slots
            invariant
                k <= slots,
                best@.len() == k,
                forall|j: int| 0 <= j < k ==> best@[j] is None,
            decreases slots - k,
        {
            best.push(None);
            k += 1;
        }
        RelaxationTable { best }
    }

    /// The number of slots.
    pub fn len(&self) -> (n: usize)
        ensures
            n == self@.len(),
    {
        self.best.len()
    }

    /// The recorded cost of slot `k`.
    pub fn get(&self, k: usize) -> (out: Option<u64>)
        requires
            k < self@.len(),
        ensures
            out == self@[k as int],
    {
        self.best[k]
    }

    /// Records `cost` for slot `k` if it is strictly below what the slot
    /// holds, and says whether it did. No slot ever rises.
    pub fn relax(&mut self, k: usize, cost: u64) -> (written: bool)
        requires
            k < old(self)@.len(),
        ensures
            written == improves(cost, old(self)@[k as int]),
            written ==> final(self)@ == old(self)@.update(k as int, Some(cost)),
            !written ==> final(self)@ == old(self)@,
            final(self)@.len() == old(self)@.len(),
            forall|j: int|
                0 <= j < old(self)@.len() ==> not_worse(
                    #[trigger] final(self)@[j],
                    old(self)@[j],
                ),
            written ==> potential(final(self)@) < potential(old(self)@),
    {
        let better = match self.best[k] {
            None => true,
            Some(current) => cost < current,
        };
        if better {
            proof {
                lemma_potential_update(self.best@, k as int, Some(cost));
            }
            self.best.set(k, Some(cost));
        }
        better
    }

    /// Hands the slots out as a plain vector.
    pub fn into_costs(self) -> (costs: Vec<Option<u64>>)
        ensures
            costs@ == self@,
    {
        self.best
    }
}

} // verus!
