//! The search driver: a shortest-path search over the extended states of a
//! transition rule, with the proof that what it returns is optimal.

use crate::frontier::{entry_before, is_first, Frontier, FrontierEntry};
use crate::relaxation::{improves, potential, RelaxationTable};
use crate::rule::{
    goal_reached, is_walk, least_cost, least_goal_cost, lemma_start_reached, lemma_walk_extends,
    lemma_walk_prefix, lemma_walk_stays_valid, reachable, reaches, Goal, TransitionRule,
};
use crate::state::ExtendedState;
use crate::surface::EngineError;
use crate::walks::lemma_reached_within_range;
use vstd::multiset::Multiset;
use vstd::prelude::*;

verus! {

broadcast use vstd::multiset::group_multiset_axioms;

/// The cost that `table` records for `state`.
pub open spec fn recorded<R: TransitionRule>(
    rule: &R,
    table: Seq<Option<u64>>,
    state: ExtendedState,
) -> Option<u64> {
    table[rule.slot(state) as int]
}

/// Whether `table` holds, for every state of the rule, the least cost at
/// which the state is reached from `start`, and `None` exactly for the
/// states that no walk reaches.
pub open spec fn field_exact<R: TransitionRule>(
    rule: &R,
    start: ExtendedState,
    table: Seq<Option<u64>>,
) -> bool {
    &&& table.len() == rule.slots()
    &&& forall|state: ExtendedState|
        rule.valid(state) ==> match #[trigger] recorded(rule, table, state) {
            Some(cost) => least_cost(rule, start, state, cost as int),
            None => !reachable(rule, start, state),
        }
}

/// Every recorded cost is the cost of some walk.
spec fn table_sound<R: TransitionRule>(
    rule: &R,
    start: ExtendedState,
    table: Seq<Option<u64>>,
) -> bool {
    forall|state: ExtendedState|
        rule.valid(state) && (#[trigger] recorded(rule, table, state)) is Some ==> reaches(
            rule,
            start,
            state,
            recorded(rule, table, state)->0 as int,
        )
}

/// Every waiting entry belongs to a valid state whose recorded cost is at
/// most the entry's.
spec fn frontier_known<R: TransitionRule>(
    rule: &R,
    table: Seq<Option<u64>>,
    frontier: Multiset<FrontierEntry>,
) -> bool {
    forall|e: FrontierEntry| #[trigger]
        frontier.count(e) > 0 ==> rule.valid(e.state) && recorded(rule, table, e.state) is Some
            && recorded(rule, table, e.state)->0 <= e.cost
}

/// The target of `mv` is recorded at no more than `from + mv.1`, unless
/// that sum leaves the range of `u64`.
spec fn relaxed<R: TransitionRule>(
    rule: &R,
    table: Seq<Option<u64>>,
    from: u64,
    mv: (ExtendedState, u64),
) -> bool {
    from + mv.1 <= u64::MAX ==> recorded(rule, table, mv.0) is Some && recorded(
        rule,
        table,
        mv.0,
    )->0 <= from + mv.1
}

/// `state` has a recorded cost and all its moves are relaxed from it.
spec fn settled<R: TransitionRule>(
    rule: &R,
    table: Seq<Option<u64>>,
    state: ExtendedState,
) -> bool {
    &&& recorded(rule, table, state) is Some
    &&& forall|j: int|
        0 <= j < rule.moves(state).len() ==> relaxed(
            rule,
            table,
            recorded(rule, table, state)->0,
            #[trigger] rule.moves(state)[j],
        )
}

/// Every expanded state is valid and settled.
spec fn done_settled<R: TransitionRule>(
    rule: &R,
    table: Seq<Option<u64>>,
    done: Set<ExtendedState>,
) -> bool {
    forall|state: ExtendedState| #[trigger]
        done.contains(state) ==> rule.valid(state) && settled(rule, table, state)
}

/// Every recorded state that is not expanded waits in the frontier at its
/// recorded cost; `skip` names the state that is being expanded.
spec fn pending_queued<R: TransitionRule>(
    rule: &R,
    table: Seq<Option<u64>>,
    frontier: Multiset<FrontierEntry>,
    done: Set<ExtendedState>,
    skip: Option<ExtendedState>,
) -> bool {
    forall|state: ExtendedState|
        rule.valid(state) && !done.contains(state) && Some(state) != skip && (
        #[trigger] recorded(rule, table, state)) is Some ==> frontier.count(
            FrontierEntry { cost: recorded(rule, table, state)->0, state },
        ) > 0
}

/// No expanded state sits on a goal cell.
spec fn done_not_goal(goal: &Goal, done: Set<ExtendedState>) -> bool {
    forall|state: ExtendedState| #[trigger] done.contains(state) ==> !goal.holds(state.position)
}

/// What holds between two iterations of the search loop.
spec fn between_pops<R: TransitionRule>(
    rule: &R,
    start: ExtendedState,
    goal: &Goal,
    table: Seq<Option<u64>>,
    frontier: Multiset<FrontierEntry>,
    done: Set<ExtendedState>,
) -> bool {
    &&& rule.wf()
    &&& rule.valid(start)
    &&& table.len() == rule.slots()
    &&& recorded(rule, table, start) == Some(0u64)
    &&& table_sound(rule, start, table)
    &&& frontier_known(rule, table, frontier)
    &&& done_settled(rule, table, done)
    &&& pending_queued(rule, table, frontier, done, None)
    &&& done_not_goal(goal, done)
}

/// What holds while the moves of `state`, popped at `cost`, are relaxed.
spec fn while_expanding<R: TransitionRule>(
    rule: &R,
    start: ExtendedState,
    goal: &Goal,
    table: Seq<Option<u64>>,
    frontier: Multiset<FrontierEntry>,
    done: Set<ExtendedState>,
    state: ExtendedState,
    cost: u64,
) -> bool {
    &&& rule.wf()
    &&& rule.valid(start)
    &&& rule.valid(state)
    &&& table.len() == rule.slots()
    &&& recorded(rule, table, start) == Some(0u64)
    &&& recorded(rule, table, state) == Some(cost)
    &&& table_sound(rule, start, table)
    &&& frontier_known(rule, table, frontier)
    &&& done_settled(rule, table, done)
    &&& pending_queued(rule, table, frontier, done, Some(state))
    &&& done_not_goal(goal, done)
}

/// Before the first pop: the start is recorded at zero and waits in the
/// frontier, and nothing else is recorded.
proof fn lemma_seeded<R: TransitionRule>(
    rule: &R,
    start: ExtendedState,
    goal: &Goal,
    table: Seq<Option<u64>>,
    frontier: Multiset<FrontierEntry>,
)
    requires
        rule.wf(),
        rule.valid(start),
        table.len() == rule.slots(),
        recorded(rule, table, start) == Some(0u64),
        forall|k: int| 0 <= k < table.len() && k != rule.slot(start) ==> table[k] is None,
        frontier == Multiset::<FrontierEntry>::empty().insert(
            FrontierEntry { cost: 0, state: start },
        ),
    ensures
        between_pops(rule, start, goal, table, frontier, Set::empty()),
{
    lemma_start_reached(rule, start);
    assert forall|state: ExtendedState|
        rule.valid(state) && (#[trigger] recorded(rule, table, state)) is Some implies state
        == start by {
        rule.lemma_slot_in_range(state);
        if rule.slot(state) == rule.slot(start) {
            rule.lemma_slot_injective(state, start);
        }
    }
    assert forall|e: FrontierEntry| #[trigger] frontier.count(e) > 0 implies e == (FrontierEntry {
        cost: 0,
        state: start,
    }) by {}
}

/// Relaxing one move keeps every fact of `while_expanding`, keeps every
/// relaxed move relaxed, and leaves the move itself relaxed.
proof fn lemma_relaxation_keeps<R: TransitionRule>(
    rule: &R,
    start: ExtendedState,
    goal: &Goal,
    table: Seq<Option<u64>>,
    frontier: Multiset<FrontierEntry>,
    done: Set<ExtendedState>,
    state: ExtendedState,
    cost: u64,
    i: int,
    total: u64,
)
    requires
        while_expanding(rule, start, goal, table, frontier, done, state, cost),
        0 <= i < rule.moves(state).len(),
        total == cost + rule.moves(state)[i].1,
        improves(total, recorded(rule, table, rule.moves(state)[i].0)),
    ensures
        ({
            let next = rule.moves(state)[i].0;
            let table2 = table.update(rule.slot(next) as int, Some(total));
            let frontier2 = frontier.insert(FrontierEntry { cost: total, state: next });
            &&& while_expanding(rule, start, goal, table2, frontier2, done.remove(next), state, cost)
            &&& relaxed(rule, table2, cost, rule.moves(state)[i])
            &&& forall|from: u64, mv: (ExtendedState, u64)|
                rule.valid(mv.0) && #[trigger] relaxed(rule, table, from, mv) ==> relaxed(
                    rule,
                    table2,
                    from,
                    mv,
                )
        }),
{
    let next = rule.moves(state)[i].0;
    let table2 = table.update(rule.slot(next) as int, Some(total));
    let entry = FrontierEntry { cost: total, state: next };
    let frontier2 = frontier.insert(entry);
    let done2 = done.remove(next);
    rule.lemma_moves_valid(state, i);
    rule.lemma_slot_in_range(next);
    // How the records of the two tables relate.
    assert forall|other: ExtendedState| rule.valid(other) implies (if other == next {
        recorded(rule, table2, other) == Some(total)
    } else {
        #[trigger] recorded(rule, table2, other) == recorded(rule, table, other)
    }) by {
        rule.lemma_slot_in_range(other);
        if other != next && rule.slot(other) == rule.slot(next) {
            rule.lemma_slot_injective(other, next);
        }
    }
    assert(next != state);
    assert(next != start);
    assert(recorded(rule, table2, state) == recorded(rule, table, state));
    assert(recorded(rule, table2, start) == recorded(rule, table, start));
    assert(table_sound(rule, start, table2)) by {
        assert forall|other: ExtendedState|
            rule.valid(other) && (#[trigger] recorded(rule, table2, other)) is Some implies reaches(
            rule,
            start,
            other,
            recorded(rule, table2, other)->0 as int,
        ) by {
            if other == next {
                assert(recorded(rule, table, state) is Some);
                lemma_walk_extends(rule, start, state, cost as int, i);
            } else {
                assert(recorded(rule, table, other) is Some);
            }
        }
    }
    assert(frontier_known(rule, table2, frontier2)) by {
        assert forall|e: FrontierEntry| #[trigger] frontier2.count(e) > 0 implies rule.valid(
            e.state,
        ) && recorded(rule, table2, e.state) is Some && recorded(rule, table2, e.state)->0
            <= e.cost by {
            if e != entry {
                assert(frontier.count(e) > 0);
                assert(recorded(rule, table, e.state) is Some);
            }
        }
    }
    assert forall|from: u64, mv: (ExtendedState, u64)|
        rule.valid(mv.0) && #[trigger] relaxed(rule, table, from, mv) implies relaxed(
        rule,
        table2,
        from,
        mv,
    ) by {
        if mv.0 != next {
            assert(recorded(rule, table2, mv.0) == recorded(rule, table, mv.0));
        }
    }
    assert(done_settled(rule, table2, done2)) by {
        assert forall|other: ExtendedState| #[trigger] done2.contains(other) implies rule.valid(
            other,
        ) && settled(rule, table2, other) by {
            assert(done.contains(other));
            assert(settled(rule, table, other));
            assert(recorded(rule, table2, other) == recorded(rule, table, other));
            assert forall|j: int| 0 <= j < rule.moves(other).len() implies relaxed(
                rule,
                table2,
                recorded(rule, table2, other)->0,
                #[trigger] rule.moves(other)[j],
            ) by {
                rule.lemma_moves_valid(other, j);
                assert(relaxed(
                    rule,
                    table,
                    recorded(rule, table, other)->0,
                    rule.moves(other)[j],
                ));
            }
        }
    }
    assert(pending_queued(rule, table2, frontier2, done2, Some(state))) by {
        assert forall|other: ExtendedState|
            rule.valid(other) && !done2.contains(other) && Some(other) != Some(state) && (
            #[trigger] recorded(rule, table2, other)) is Some implies frontier2.count(
            FrontierEntry { cost: recorded(rule, table2, other)->0, state: other },
        ) > 0 by {
            if other != next {
                assert(recorded(rule, table, other) is Some);
                assert(!done.contains(other));
            }
        }
    }
    assert(done_not_goal(goal, done2)) by {
        assert forall|other: ExtendedState| #[trigger] done2.contains(other) implies !goal.holds(
            other.position,
        ) by {
            assert(done.contains(other));
        }
    }
}

/// Once every move of the popped state is relaxed, the state joins the
/// expanded ones.
proof fn lemma_expansion_ends<R: TransitionRule>(
    rule: &R,
    start: ExtendedState,
    goal: &Goal,
    table: Seq<Option<u64>>,
    frontier: Multiset<FrontierEntry>,
    done: Set<ExtendedState>,
    state: ExtendedState,
    cost: u64,
)
    requires
        while_expanding(rule, start, goal, table, frontier, done, state, cost),
        !goal.holds(state.position),
        forall|j: int|
            0 <= j < rule.moves(state).len() ==> relaxed(
                rule,
                table,
                cost,
                #[trigger] rule.moves(state)[j],
            ),
    ensures
        between_pops(rule, start, goal, table, frontier, done.insert(state)),
{
    let done2 = done.insert(state);
    assert(settled(rule, table, state));
    assert(done_settled(rule, table, done2)) by {
        assert forall|other: ExtendedState| #[trigger] done2.contains(other) implies rule.valid(
            other,
        ) && settled(rule, table, other) by {
            if other != state {
                assert(done.contains(other));
            }
        }
    }
    assert(pending_queued(rule, table, frontier, done2, None)) by {
        assert forall|other: ExtendedState|
            rule.valid(other) && !done2.contains(other) && Some(other) != None::<ExtendedState>
                && (#[trigger] recorded(rule, table, other)) is Some implies frontier.count(
            FrontierEntry { cost: recorded(rule, table, other)->0, state: other },
        ) > 0 by {
            assert(!done.contains(other));
            assert(Some(other) != Some(state));
        }
    }
    assert(done_not_goal(goal, done2)) by {
        assert forall|other: ExtendedState| #[trigger] done2.contains(other) implies !goal.holds(
            other.position,
        ) by {
            if other != state {
                assert(done.contains(other));
            }
        }
    }
}

/// Dropping a stale entry keeps every fact of `between_pops`.
proof fn lemma_stale_dropped<R: TransitionRule>(
    rule: &R,
    start: ExtendedState,
    goal: &Goal,
    table: Seq<Option<u64>>,
    frontier: Multiset<FrontierEntry>,
    done: Set<ExtendedState>,
    e: FrontierEntry,
)
    requires
        between_pops(rule, start, goal, table, frontier, done),
        frontier.count(e) > 0,
        recorded(rule, table, e.state) is Some,
        e.cost > recorded(rule, table, e.state)->0,
    ensures
        between_pops(rule, start, goal, table, frontier.remove(e), done),
{
    let frontier2 = frontier.remove(e);
    assert(frontier_known(rule, table, frontier2)) by {
        assert forall|x: FrontierEntry| #[trigger] frontier2.count(x) > 0 implies rule.valid(
            x.state,
        ) && recorded(rule, table, x.state) is Some && recorded(rule, table, x.state)->0
            <= x.cost by {
            assert(frontier.count(x) > 0);
        }
    }
    assert(pending_queued(rule, table, frontier2, done, None)) by {
        assert forall|other: ExtendedState|
            rule.valid(other) && !done.contains(other) && Some(other) != None::<ExtendedState>
                && (#[trigger] recorded(rule, table, other)) is Some implies frontier2.count(
            FrontierEntry { cost: recorded(rule, table, other)->0, state: other },
        ) > 0 by {
            let x = FrontierEntry { cost: recorded(rule, table, other)->0, state: other };
            assert(frontier.count(x) > 0);
            assert(x != e);
        }
    }
}

/// Taking out an entry that is not stale starts the expansion of its state.
proof fn lemma_expansion_begins<R: TransitionRule>(
    rule: &R,
    start: ExtendedState,
    goal: &Goal,
    table: Seq<Option<u64>>,
    frontier: Multiset<FrontierEntry>,
    done: Set<ExtendedState>,
    e: FrontierEntry,
)
    requires
        between_pops(rule, start, goal, table, frontier, done),
        frontier.count(e) > 0,
        recorded(rule, table, e.state) is Some,
        e.cost <= recorded(rule, table, e.state)->0,
    ensures
        recorded(rule, table, e.state) == Some(e.cost),
        while_expanding(rule, start, goal, table, frontier.remove(e), done, e.state, e.cost),
{
    let frontier2 = frontier.remove(e);
    assert(frontier_known(rule, table, frontier2)) by {
        assert forall|x: FrontierEntry| #[trigger] frontier2.count(x) > 0 implies rule.valid(
            x.state,
        ) && recorded(rule, table, x.state) is Some && recorded(rule, table, x.state)->0
            <= x.cost by {
            assert(frontier.count(x) > 0);
        }
    }
    assert(pending_queued(rule, table, frontier2, done, Some(e.state))) by {
        assert forall|other: ExtendedState|
            rule.valid(other) && !done.contains(other) && Some(other) != Some(e.state) && (
            #[trigger] recorded(rule, table, other)) is Some implies frontier2.count(
            FrontierEntry { cost: recorded(rule, table, other)->0, state: other },
        ) > 0 by {
            let x = FrontierEntry { cost: recorded(rule, table, other)->0, state: other };
            assert(Some(other) != None::<ExtendedState>);
            assert(frontier.count(x) > 0);
            assert(x != e);
        }
    }
}

/// A walk that is cheaper than everything in the frontier ends in a state
/// that is recorded at no more than the cost of the walk.
proof fn lemma_cheap_walk_recorded<R: TransitionRule>(
    rule: &R,
    start: ExtendedState,
    goal: &Goal,
    table: Seq<Option<u64>>,
    frontier: Multiset<FrontierEntry>,
    done: Set<ExtendedState>,
    bound: int,
    walk: Seq<(ExtendedState, int)>,
)
    requires
        between_pops(rule, start, goal, table, frontier, done),
        forall|e: FrontierEntry| #[trigger] frontier.count(e) > 0 ==> e.cost >= bound,
        is_walk(rule, start, walk),
        walk.last().1 < bound,
        walk.last().1 <= u64::MAX,
    ensures
        rule.valid(walk.last().0),
        recorded(rule, table, walk.last().0) is Some,
        recorded(rule, table, walk.last().0)->0 <= walk.last().1,
    decreases walk.len(),
{
    lemma_walk_stays_valid(rule, start, walk);
    if walk.len() > 1 {
        lemma_walk_prefix(rule, start, walk);
        let a = walk[walk.len() - 2];
        let b = walk.last();
        assert(walk.drop_last().last() == a);
        lemma_cheap_walk_recorded(rule, start, goal, table, frontier, done, bound, walk.drop_last());
        let from = recorded(rule, table, a.0)->0;
        if !done.contains(a.0) {
            let waiting = FrontierEntry { cost: from, state: a.0 };
            assert(frontier.count(waiting) > 0);
            assert(false);
        }
        assert(settled(rule, table, a.0));
        let j = choose|j: int|
            0 <= j < rule.moves(a.0).len() && (#[trigger] rule.moves(a.0)[j]).0 == b.0 && a.1
                + rule.moves(a.0)[j].1 == b.1;
        assert(relaxed(rule, table, from, rule.moves(a.0)[j]));
    }
}

/// When the entry that comes first sits on a goal cell and is not stale,
/// its cost is the least at which any goal cell is reached.
proof fn lemma_first_goal_is_least<R: TransitionRule>(
    rule: &R,
    start: ExtendedState,
    goal: &Goal,
    table: Seq<Option<u64>>,
    frontier: Multiset<FrontierEntry>,
    done: Set<ExtendedState>,
    e: FrontierEntry,
)
    requires
        between_pops(rule, start, goal, table, frontier, done),
        is_first(frontier, e),
        recorded(rule, table, e.state) == Some(e.cost),
        goal.holds(e.state.position),
    ensures
        least_goal_cost(rule, start, goal, e.cost as int),
{
    assert(rule.valid(e.state));
    assert(reaches(rule, start, e.state, e.cost as int));
    assert forall|x: FrontierEntry| #[trigger] frontier.count(x) > 0 implies x.cost >= e.cost by {
        assert(!entry_before(x, e));
    }
    assert forall|other: int| goal_reached(rule, start, goal, other) implies e.cost <= other by {
        if other < e.cost {
            let state = choose|state: ExtendedState|
                goal.holds(state.position) && #[trigger] reaches(rule, start, state, other);
            let walk = choose|walk: Seq<(ExtendedState, int)>| #[trigger]
                is_walk(rule, start, walk) && walk.last() == (state, other);
            lemma_cheap_walk_recorded(rule, start, goal, table, frontier, done, e.cost as int, walk);
            if !done.contains(state) {
                let waiting = FrontierEntry { cost: recorded(rule, table, state)->0, state };
                assert(frontier.count(waiting) > 0);
            }
        }
    }
}

/// When the frontier is empty the table is exact and no goal cell is
/// reached.
proof fn lemma_exhausted<R: TransitionRule>(
    rule: &R,
    start: ExtendedState,
    goal: &Goal,
    table: Seq<Option<u64>>,
    frontier: Multiset<FrontierEntry>,
    done: Set<ExtendedState>,
)
    requires
        between_pops(rule, start, goal, table, frontier, done),
        frontier.len() == 0,
    ensures
        field_exact(rule, start, table),
        forall|cost: int| !goal_reached(rule, start, goal, cost),
{
    assert forall|e: FrontierEntry| frontier.count(e) == 0 by {
        if frontier.count(e) > 0 {
            assert(frontier.remove(e).len() == frontier.len() - 1);
        }
    }
    // Whatever a walk costs, its end is recorded at no more.
    assert forall|state: ExtendedState, cost: int| #[trigger]
        reaches(rule, start, state, cost) && cost <= u64::MAX implies rule.valid(state)
        && recorded(rule, table, state) is Some && recorded(rule, table, state)->0 <= cost
        && done.contains(state) by {
        let walk = choose|walk: Seq<(ExtendedState, int)>| #[trigger]
            is_walk(rule, start, walk) && walk.last() == (state, cost);
        lemma_cheap_walk_recorded(rule, start, goal, table, frontier, done, cost + 1, walk);
        if !done.contains(state) {
            let waiting = FrontierEntry { cost: recorded(rule, table, state)->0, state };
            assert(frontier.count(waiting) > 0);
        }
    }
    assert forall|state: ExtendedState| rule.valid(state) implies match #[trigger] recorded(
        rule,
        table,
        state,
    ) {
        Some(cost) => least_cost(rule, start, state, cost as int),
        None => !reachable(rule, start, state),
    } by {
        match recorded(rule, table, state) {
            Some(cost) => {
                assert(reaches(rule, start, state, cost as int));
                assert forall|other: int| reaches(rule, start, state, other) implies cost
                    <= other by {
                    if other < cost {
                        assert(reaches(rule, start, state, other) && other <= u64::MAX);
                    }
                }
            },
            None => {
                if reachable(rule, start, state) {
                    let cost = choose|cost: int| reaches(rule, start, state, cost);
                    lemma_reached_within_range(rule, start, state, cost);
                    let low = choose|low: int|
                        low <= u64::MAX && #[trigger] reaches(rule, start, state, low);
                    assert(reaches(rule, start, state, low) && low <= u64::MAX);
                }
            },
        }
    }
    assert forall|cost: int| !goal_reached(rule, start, goal, cost) by {
        if goal_reached(rule, start, goal, cost) {
            let state = choose|state: ExtendedState|
                goal.holds(state.position) && #[trigger] reaches(rule, start, state, cost);
            lemma_reached_within_range(rule, start, state, cost);
            let low = choose|low: int|
                low <= u64::MAX && #[trigger] reaches(rule, start, state, low);
            assert(reaches(rule, start, state, low) && low <= u64::MAX);
            assert(done.contains(state));
        }
    }
}

/// Runs the search from `start` until a goal cell leaves the frontier or
/// the frontier is empty.
///
/// Returns the cost of the first goal entry that left the frontier, which is
/// the least cost at which any goal cell is reached, together with the
/// relaxation table. When no goal cell is reached the first part is `None`
/// and the table holds the least cost of every reachable state.
pub fn explore<R: TransitionRule>(rule: &R, start: ExtendedState, goal: &Goal) -> (out: (
    Option<u64>,
    RelaxationTable,
))
    requires
        rule.wf(),
        rule.valid(start),
        goal.wf(),
    ensures
        out.0 matches Some(cost) ==> least_goal_cost(rule, start, goal, cost as int),
        out.0 is None ==> field_exact(rule, start, out.1@) && forall|cost: int|
            !goal_reached(rule, start, goal, cost),
        out.1@.len() == rule.slots(),
{
    let size = rule.table_size();
    let mut table = RelaxationTable::new(size);
    let mut frontier = Frontier::new();
    let start_key = rule.key(&start);
    proof {
        rule.lemma_slot_in_range(start);
    }
    table.relax(start_key, 0);
    frontier.push(FrontierEntry { cost: 0, state: start });
    let ghost mut done: Set<ExtendedState> = Set::empty();
    proof {
        lemma_seeded(rule, start, goal, table@, frontier@);
    }
    let mut found: Option<u64> = None;
    loop
        invariant_except_break
            between_pops(rule, start, goal, table@, frontier@, done),
            found is None,
        invariant
            rule.wf(),
            rule.valid(start),
            goal.wf(),
            frontier.wf(),
            table@.len() == rule.slots(),
        ensures
            found matches Some(cost) ==> least_goal_cost(rule, start, goal, cost as int),
            found is None ==> field_exact(rule, start, table@) && forall|cost: int|
                !goal_reached(rule, start, goal, cost),
        decreases potential(table@), frontier@.len(),
    {
        let ghost waiting = frontier@;
        let ghost height = potential(table@);
        let popped = frontier.pop();
        if popped.is_none() {
            proof {
                lemma_exhausted(rule, start, goal, table@, frontier@, done);
            }
            break ;
        }
        let entry = popped.unwrap();
        let state = entry.state;
        let k = rule.key(&state);
        proof {
            rule.lemma_slot_in_range(state);
            assert(recorded(rule, table@, state) is Some);
        }
        let stale = match table.get(k) {
            Some(best) => entry.cost > best,
            None => false,
        };
        if stale {
            proof {
                lemma_stale_dropped(rule, start, goal, table@, waiting, done, entry);
            }
            continue ;
        }
        if goal.test(state.position) {
            proof {
                lemma_expansion_begins(rule, start, goal, table@, waiting, done, entry);
                lemma_first_goal_is_least(rule, start, goal, table@, waiting, done, entry);
            }
            found = Some(entry.cost);
            break ;
        }
        proof {
            lemma_expansion_begins(rule, start, goal, table@, waiting, done, entry);
        }
        let moves = rule.expand(&state);
        let ghost queued = frontier@.len();
        let mut i: usize = 0;
        while i < moves.len()
            invariant
                0 <= i <= moves.len(),
                moves@ == rule.moves(state),
                frontier.wf(),
                while_expanding(rule, start, goal, table@, frontier@, done, state, entry.cost),
                forall|j: int|
                    0 <= j < i ==> relaxed(rule, table@, entry.cost, #[trigger] rule.moves(state)[j]),
                potential(table@) <= height,
                potential(table@) == height ==> frontier@.len() == queued,
            decreases moves.len() - i,
        {
            let next = moves[i].0;
            let delta = moves[i].1;
            proof {
                rule.lemma_moves_valid(state, i as int);
                rule.lemma_slot_in_range(next);
            }
            match entry.cost.checked_add(delta) {
                Some(total) => {
                    let nk = rule.key(&next);
                    let ghost table_before = table@;
                    let ghost frontier_before = frontier@;
                    if table.relax(nk, total) {
                        frontier.push(FrontierEntry { cost: total, state: next });
                        proof {
                            lemma_relaxation_keeps(
                                rule,
                                start,
                                goal,
                                table_before,
                                frontier_before,
                                done,
                                state,
                                entry.cost,
                                i as int,
                                total,
                            );
                            assert forall|j: int| 0 <= j < i implies relaxed(
                                rule,
                                table@,
                                entry.cost,
                                #[trigger] rule.moves(state)[j],
                            ) by {
                                rule.lemma_moves_valid(state, j);
                                assert(relaxed(
                                    rule,
                                    table_before,
                                    entry.cost,
                                    rule.moves(state)[j],
                                ));
                            }
                            done = done.remove(next);
                        }
                    } else {
                        assert(relaxed(rule, table@, entry.cost, rule.moves(state)[i as int]));
                    }
                },
                None => {
                    assert(relaxed(rule, table@, entry.cost, rule.moves(state)[i as int]));
                },
            }
            i += 1;
        }
        proof {
            lemma_expansion_ends(rule, start, goal, table@, frontier@, done, state, entry.cost);
            done = done.insert(state);
        }
    }
    (found, table)
}

/// The least cost at which a walk from `start` reaches a goal cell, or
/// `Unreachable` when no walk reaches one.
pub fn search<R: TransitionRule>(rule: &R, start: ExtendedState, goal: &Goal) -> (out: Result<
    u64,
    EngineError,
>)
    requires
        rule.wf(),
        rule.valid(start),
        goal.wf(),
    ensures
        out matches Ok(cost) ==> least_goal_cost(rule, start, goal, cost as int),
        out matches Err(e) ==> e == EngineError::Unreachable && forall|cost: int|
            !goal_reached(rule, start, goal, cost),
{
    let (found, _) = explore(rule, start, goal);
    match found {
        Some(cost) => Ok(cost),
        None => Err(EngineError::Unreachable),
    }
}

/// The full cost field: for every state of the rule the least cost at which
/// it is reached from `start`, and `None` for the states that are not
/// reached.
pub fn cost_field<R: TransitionRule>(rule: &R, start: ExtendedState) -> (table: RelaxationTable)
    requires
        rule.wf(),
        rule.valid(start),
    ensures
        field_exact(rule, start, table@),
{
    let goal = Goal::FullField;
    let (found, table) = explore(rule, start, &goal);
    proof {
        if found is Some {
            assert(goal_reached(rule, start, &goal, found->0 as int));
        }
    }
    table
}

/// Whether `cost` is the least cost at which a walk from any of `starts`
/// reaches a goal cell.
pub open spec fn least_cost_from_any<R: TransitionRule>(
    rule: &R,
    starts: Seq<ExtendedState>,
    goal: &Goal,
    cost: int,
) -> bool {
    &&& exists|i: int| 0 <= i < starts.len() && goal_reached(rule, #[trigger] starts[i], goal, cost)
    &&& forall|i: int, other: int|
        0 <= i < starts.len() && #[trigger] goal_reached(rule, starts[i], goal, other) ==> cost
            <= other
}

/// Queries every start in turn and reports the least of the costs found, or
/// `Unreachable` when no start reaches a goal cell.
pub fn search_from_any<R: TransitionRule>(
    rule: &R,
    starts: &Vec<ExtendedState>,
    goal: &Goal,
) -> (out: Result<u64, EngineError>)
    requires
        rule.wf(),
        goal.wf(),
        forall|i: int| 0 <= i < starts@.len() ==> rule.valid(#[trigger] starts@[i]),
    ensures
        out matches Ok(cost) ==> least_cost_from_any(rule, starts@, goal, cost as int),
        out matches Err(e) ==> e == EngineError::Unreachable && forall|i: int, cost: int|
            0 <= i < starts@.len() ==> !(#[trigger] goal_reached(rule, starts@[i], goal, cost)),
{
    let mut best: Option<u64> = None;
    let mut k: usize = 0;
    while k < starts.len()
        invariant
            k <= starts@.len(),
            rule.wf(),
            goal.wf(),
            forall|i: int| 0 <= i < starts@.len() ==> rule.valid(#[trigger] starts@[i]),
            best matches Some(cost) ==> least_cost_from_any(
                rule,
                starts@.take(k as int),
                goal,
                cost as int,
            ),
            best is None ==> forall|i: int, cost: int|
                0 <= i < k ==> !(#[trigger] goal_reached(rule, starts@[i], goal, cost)),
        decreases starts@.len() - k,
    {
        let ghost before = starts@.take(k as int);
        let ghost after = starts@.take(k + 1);
        let found = search(rule, starts[k], goal);
        proof {
            assert(after[k as int] == starts@[k as int]);
            assert forall|i: int| 0 <= i < k implies before[i] == after[i] by {}
        }
        match found {
            Ok(cost) => {
                let better = match best {
                    Some(held) => cost < held,
                    None => true,
                };
                if better {
                    proof {
                        assert(goal_reached(rule, after[k as int], goal, cost as int));
                        assert forall|i: int, other: int|
                            0 <= i < after.len() && #[trigger] goal_reached(
                                rule,
                                after[i],
                                goal,
                                other,
                            ) implies cost <= other by {
                            if i < k {
                                assert(before[i] == after[i]);
                                assert(starts@[i] == after[i]);
                            }
                        }
                    }
                    best = Some(cost);
                } else {
                    proof {
                        let held = best->0;
                        let i0 = choose|i: int|
                            0 <= i < before.len() && goal_reached(
                                rule,
                                #[trigger] before[i],
                                goal,
                                held as int,
                            );
                        assert(goal_reached(rule, after[i0], goal, held as int));
                        assert forall|i: int, other: int|
                            0 <= i < after.len() && #[trigger] goal_reached(
                                rule,
                                after[i],
                                goal,
                                other,
                            ) implies held <= other by {
                            if i < k {
                                assert(before[i] == after[i]);
                            }
                        }
                    }
                }
            },
            Err(_) => {
                proof {
                    if best is Some {
                        let held = best->0;
                        let i0 = choose|i: int|
                            0 <= i < before.len() && goal_reached(
                                rule,
                                #[trigger] before[i],
                                goal,
                                held as int,
                            );
                        assert(goal_reached(rule, after[i0], goal, held as int));
                        assert forall|i: int, other: int|
                            0 <= i < after.len() && #[trigger] goal_reached(
                                rule,
                                after[i],
                                goal,
                                other,
                            ) implies held <= other by {
                            if i < k {
                                assert(before[i] == after[i]);
                            }
                        }
                    }
                }
            },
        }
        k += 1;
    }
    proof {
        assert(starts@.take(k as int) =~= starts@);
    }
    match best {
        Some(cost) => Ok(cost),
        None => Err(EngineError::Unreachable),
    }
}

/// A least cost is unique: two searches on the same input cannot return
/// different costs.
pub proof fn lemma_least_goal_cost_unique<R: TransitionRule>(
    rule: &R,
    start: ExtendedState,
    goal: &Goal,
    a: int,
    b: int,
)
    requires
        least_goal_cost(rule, start, goal, a),
        least_goal_cost(rule, start, goal, b),
    ensures
        a == b,
{
}

/// An exact cost field is unique: two tables that are both exact for the
/// same rule and start agree on the slot of every state.
pub proof fn lemma_field_unique<R: TransitionRule>(
    rule: &R,
    start: ExtendedState,
    first: Seq<Option<u64>>,
    second: Seq<Option<u64>>,
    state: ExtendedState,
)
    requires
        rule.valid(state),
        field_exact(rule, start, first),
        field_exact(rule, start, second),
    ensures
        recorded(rule, first, state) == recorded(rule, second, state),
{
    let a = recorded(rule, first, state);
    let b = recorded(rule, second, state);
    if a is Some && b is Some {
        assert(least_cost(rule, start, state, a->0 as int));
        assert(least_cost(rule, start, state, b->0 as int));
    } else if a is Some {
        assert(reaches(rule, start, state, a->0 as int));
        assert(reachable(rule, start, state));
    } else if b is Some {
        assert(reaches(rule, start, state, b->0 as int));
        assert(reachable(rule, start, state));
    }
}

} // verus!
