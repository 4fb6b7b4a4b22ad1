//! Transition rules: the implicit graph that a search runs on, and what it
//! means for a state to be reached at a cost.

use crate::state::ExtendedState;
use crate::compass::Coordinate;
use crate::surface::Surface;
use vstd::prelude::*;

verus! {

/// The moves of one problem variant.
///
/// A rule owns a finite state space: the states it calls `valid`, each with
/// a slot of its own below `slots`. From every valid state it offers a list
/// of moves, each to a valid state at a cost of at most `step_bound`. Costs
/// are unsigned, so no move has a negative cost.
pub trait TransitionRule {
    /// The rule's own invariant.
    spec fn wf(&self) -> bool;

    /// The size of the state space.
    spec fn slots(&self) -> nat;

    /// Whether `state` belongs to the state space.
    spec fn valid(&self, state: ExtendedState) -> bool;

    /// The slot of a state in a dense table.
    spec fn slot(&self, state: ExtendedState) -> nat;

    /// The moves out of `state`: each a next state and the cost of going
    /// there.
    spec fn moves(&self, state: ExtendedState) -> Seq<(ExtendedState, u64)>;

    /// An upper bound on the cost of a single move.
    spec fn step_bound(&self) -> nat;

    /// A table with one slot per state can be indexed by `usize`, and the
    /// cost of a walk that visits no state twice fits in `u64`.
    proof fn lemma_sizes(&self)
        requires
            self.wf(),
        ensures
            self.slots() <= usize::MAX,
            self.slots() * self.step_bound() <= u64::MAX,
    ;

    /// Every valid state has a slot inside the table.
    proof fn lemma_slot_in_range(&self, state: ExtendedState)
        requires
            self.wf(),
            self.valid(state),
        ensures
            self.slot(state) < self.slots(),
    ;

    /// No two valid states share a slot.
    proof fn lemma_slot_injective(&self, a: ExtendedState, b: ExtendedState)
        requires
            self.wf(),
            self.valid(a),
            self.valid(b),
            self.slot(a) == self.slot(b),
        ensures
            a == b,
    ;

    /// Moves lead to valid states and cost at most `step_bound`.
    proof fn lemma_moves_valid(&self, state: ExtendedState, i: int)
        requires
            self.wf(),
            self.valid(state),
            0 <= i < self.moves(state).len(),
        ensures
            self.valid(self.moves(state)[i].0),
            0 <= self.moves(state)[i].1 <= self.step_bound(),
    ;

    /// The number of slots a relaxation table needs.
    fn table_size(&self) -> (size: usize)
        requires
            self.wf(),
        ensures
            size == self.slots(),
    ;

    /// Whether `state` belongs to the state space.
    fn admits(&self, state: &ExtendedState) -> (ok: bool)
        requires
            self.wf(),
        ensures
            ok == self.valid(*state),
    ;

    /// The slot of `state`.
    fn key(&self, state: &ExtendedState) -> (k: usize)
        requires
            self.wf(),
            self.valid(*state),
        ensures
            k == self.slot(*state),
    ;

    /// The moves out of `state`, in the rule's fixed order.
    fn expand(&self, state: &ExtendedState) -> (out: Vec<(ExtendedState, u64)>)
        requires
            self.wf(),
            self.valid(*state),
        ensures
            out@ == self.moves(*state),
    ;
}

/// Whether the rule offers a move that leads from hop `a` to hop `b`, where
/// a hop is a state with the cost accumulated on the way to it.
pub open spec fn linked<R: TransitionRule>(
    rule: &R,
    a: (ExtendedState, int),
    b: (ExtendedState, int),
) -> bool {
    exists|j: int|
        0 <= j < rule.moves(a.0).len() && (#[trigger] rule.moves(a.0)[j]).0 == b.0 && a.1
            + rule.moves(a.0)[j].1 == b.1
}

/// Whether `walk` is a sequence of hops that begins at `start` with cost
/// zero and follows one move of the rule after another.
pub open spec fn is_walk<R: TransitionRule>(
    rule: &R,
    start: ExtendedState,
    walk: Seq<(ExtendedState, int)>,
) -> bool {
    &&& walk.len() > 0
    &&& walk[0] == (start, 0int)
    &&& forall|i: int| 0 <= i < walk.len() - 1 ==> linked(rule, #[trigger] walk[i], walk[i + 1])
}

/// Whether some walk from `start` ends in `state` with accumulated cost
/// `cost`.
pub open spec fn reaches<R: TransitionRule>(
    rule: &R,
    start: ExtendedState,
    state: ExtendedState,
    cost: int,
) -> bool {
    exists|walk: Seq<(ExtendedState, int)>| #[trigger]
        is_walk(rule, start, walk) && walk.last() == (state, cost)
}

/// Whether any walk from `start` ends in `state`.
pub open spec fn reachable<R: TransitionRule>(
    rule: &R,
    start: ExtendedState,
    state: ExtendedState,
) -> bool {
    exists|cost: int| reaches(rule, start, state, cost)
}

/// Whether `cost` is the least cost at which `state` is reached.
pub open spec fn least_cost<R: TransitionRule>(
    rule: &R,
    start: ExtendedState,
    state: ExtendedState,
    cost: int,
) -> bool {
    &&& reaches(rule, start, state, cost)
    &&& forall|other: int| reaches(rule, start, state, other) ==> cost <= other
}

/// Where a search is to stop.
pub enum Goal {
    /// At one cell.
    Cell(Coordinate),
    /// At any cell that the surface marks with `true`.
    Marked(Surface<bool>),
    /// Nowhere: the search runs until every reachable state has its cost.
    FullField,
}

impl Goal {
    /// The goal's invariant: a mask is a well-formed surface.
    pub open spec fn wf(&self) -> bool {
        match self {
            Goal::Marked(mask) => mask.wf(),
            _ => true,
        }
    }

    /// Whether a search stops at `pos`.
    pub open spec fn holds(&self, pos: Coordinate) -> bool {
        match self {
            Goal::Cell(cell) => pos == *cell,
            Goal::Marked(mask) => mask.lookup(pos) == Some(true),
            Goal::FullField => false,
        }
    }

    /// Whether a search stops at `pos`.
    pub fn test(&self, pos: Coordinate) -> (hit: bool)
        requires
            self.wf(),
        ensures
            hit == self.holds(pos),
    {
        match self {
            Goal::Cell(cell) => pos.0 == cell.0 && pos.1 == cell.1,
            Goal::Marked(mask) => match mask.value_at(pos) {
                Some(flag) => flag,
                None => false,
            },
            Goal::FullField => false,
        }
    }
}

/// Whether some walk from `start` ends on a goal cell with accumulated cost
/// `cost`.
pub open spec fn goal_reached<R: TransitionRule>(
    rule: &R,
    start: ExtendedState,
    goal: &Goal,
    cost: int,
) -> bool {
    exists|state: ExtendedState| goal.holds(state.position) && #[trigger] reaches(rule, start, state, cost)
}

/// Whether `cost` is the least cost at which any goal cell is reached.
pub open spec fn least_goal_cost<R: TransitionRule>(
    rule: &R,
    start: ExtendedState,
    goal: &Goal,
    cost: int,
) -> bool {
    &&& goal_reached(rule, start, goal, cost)
    &&& forall|other: int| goal_reached(rule, start, goal, other) ==> cost <= other
}

/// The walk of a single hop reaches `start` at cost zero.
pub proof fn lemma_start_reached<R: TransitionRule>(rule: &R, start: ExtendedState)
    ensures
        reaches(rule, start, start, 0),
{
    let walk = seq![(start, 0int)];
    assert(is_walk(rule, start, walk));
    assert(walk.last() == (start, 0int));
}

/// A walk that ends in `state` can be continued by any move out of `state`.
pub proof fn lemma_walk_extends<R: TransitionRule>(
    rule: &R,
    start: ExtendedState,
    state: ExtendedState,
    cost: int,
    i: int,
)
    requires
        reaches(rule, start, state, cost),
        0 <= i < rule.moves(state).len(),
    ensures
        reaches(rule, start, rule.moves(state)[i].0, cost + rule.moves(state)[i].1),
{
    let walk = choose|walk: Seq<(ExtendedState, int)>| #[trigger]
        is_walk(rule, start, walk) && walk.last() == (state, cost);
    let hop = (rule.moves(state)[i].0, cost + rule.moves(state)[i].1);
    let longer = walk.push(hop);
    assert forall|k: int| 0 <= k < longer.len() - 1 implies linked(
        rule,
        #[trigger] longer[k],
        longer[k + 1],
    ) by {
        if k < walk.len() - 1 {
            assert(linked(rule, walk[k], walk[k + 1]));
        } else {
            assert(longer[k] == (state, cost));
            assert(longer[k + 1] == hop);
            assert(rule.moves(longer[k].0)[i].0 == hop.0 && longer[k].1 + rule.moves(
                longer[k].0,
            )[i].1 == hop.1);
        }
    }
    assert(is_walk(rule, start, longer));
    assert(longer.last() == hop);
}

/// A walk without its last hop is a walk, and the last hop is linked to the
/// one before it.
pub proof fn lemma_walk_prefix<R: TransitionRule>(
    rule: &R,
    start: ExtendedState,
    walk: Seq<(ExtendedState, int)>,
)
    requires
        is_walk(rule, start, walk),
        walk.len() > 1,
    ensures
        is_walk(rule, start, walk.drop_last()),
        linked(rule, walk[walk.len() - 2], walk.last()),
        walk[walk.len() - 2].1 <= walk.last().1,
{
    let shorter = walk.drop_last();
    assert forall|k: int| 0 <= k < shorter.len() - 1 implies linked(
        rule,
        #[trigger] shorter[k],
        shorter[k + 1],
    ) by {
        assert(linked(rule, walk[k], walk[k + 1]));
    }
    let k = walk.len() - 2;
    assert(linked(rule, walk[k], walk[k + 1]));
}

/// Every state on a walk from a valid start is valid.
pub proof fn lemma_walk_stays_valid<R: TransitionRule>(
    rule: &R,
    start: ExtendedState,
    walk: Seq<(ExtendedState, int)>,
)
    requires
        rule.wf(),
        rule.valid(start),
        is_walk(rule, start, walk),
    ensures
        rule.valid(walk.last().0),
    decreases walk.len(),
{
    if walk.len() > 1 {
        lemma_walk_prefix(rule, start, walk);
        lemma_walk_stays_valid(rule, start, walk.drop_last());
        let a = walk[walk.len() - 2];
        let b = walk.last();
        let j = choose|j: int|
            0 <= j < rule.moves(a.0).len() && (#[trigger] rule.moves(a.0)[j]).0 == b.0 && a.1
                + rule.moves(a.0)[j].1 == b.1;
        rule.lemma_moves_valid(a.0, j);
    }
}

} // verus!
