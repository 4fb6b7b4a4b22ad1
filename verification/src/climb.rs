//! Elevation grids: a move goes to a neighbour that is at most one higher,
//! and costs one step.

use crate::compass::{heading_at, maybe, neighbor, step_from, visiting_order, Coordinate, Moving};
use crate::rule::{goal_reached, least_cost, reachable, Goal, TransitionRule};
use crate::search::{cost_field, least_cost_from_any, recorded, search_from_any};
use crate::state::{plain, ExtendedState};
use crate::surface::{
    lemma_flat_index_in_range, lemma_flat_index_injective, EngineError, Surface,
};
use vstd::prelude::*;

verus! {

/// The neighbour of `pos` along `moving`, if it lies in the grid and is at
/// most one higher than `pos`.
pub open spec fn climb_step(heights: &Surface<u32>, pos: Coordinate, moving: Moving) -> Option<
    Coordinate,
> {
    match neighbor(pos, moving) {
        Some(next) => if heights.contains(next) && heights.at(next) <= heights.at(pos) + 1 {
            Some(next)
        } else {
            None
        },
        None => None,
    }
}

/// The neighbours that `pos` may climb to along the first `upto` headings
/// of the visiting order.
pub open spec fn climbs_around(heights: &Surface<u32>, pos: Coordinate, upto: int) -> Seq<
    Coordinate,
>
    decreases upto,
{
    if upto <= 0 {
        Seq::empty()
    } else {
        climbs_around(heights, pos, upto - 1) + maybe(
            climb_step(heights, pos, visiting_order()[upto - 1]),
        )
    }
}

/// Every cell of `climbs_around` is the climb from `pos` along some
/// heading.
pub proof fn lemma_climbs_around(heights: &Surface<u32>, pos: Coordinate, upto: int, i: int)
    requires
        0 <= upto <= 4,
        0 <= i < climbs_around(heights, pos, upto).len(),
    ensures
        exists|moving: Moving| climb_step(heights, pos, moving) == Some(
            climbs_around(heights, pos, upto)[i],
        ),
    decreases upto,
{
    if upto > 0 {
        let before = climbs_around(heights, pos, upto - 1);
        if i < before.len() {
            lemma_climbs_around(heights, pos, upto - 1, i);
        } else {
            let moving = visiting_order()[upto - 1];
            assert(climb_step(heights, pos, moving) == Some(climbs_around(heights, pos, upto)[i]));
        }
    }
}

/// The neighbour of `pos` along `moving`, if the climb is allowed.
pub fn climb_along(heights: &Surface<u32>, pos: Coordinate, moving: Moving) -> (out: Option<
    Coordinate,
>)
    requires
        heights.wf(),
        heights.contains(pos),
    ensures
        out == climb_step(heights, pos, moving),
{
    let next = match step_from(pos, moving) {
        Some(next) => next,
        None => { return None; },
    };
    let here = match heights.value_at(pos) {
        Some(height) => height,
        None => { return None; },
    };
    match heights.value_at(next) {
        Some(there) => if there as u64 <= here as u64 + 1 {
            Some(next)
        } else {
            None
        },
        None => None,
    }
}

/// The transition rule of an elevation grid.
pub struct ClimbRule<'a> {
    /// The elevation of every cell.
    pub heights: &'a Surface<u32>,
}

impl<'a> TransitionRule for ClimbRule<'a> {
    open spec fn wf(&self) -> bool {
        self.heights.wf()
    }

    open spec fn slots(&self) -> nat {
        self.heights.rows() * self.heights.cols()
    }

    open spec fn valid(&self, state: ExtendedState) -> bool {
        self.heights.contains(state.position) && state == plain(state.position)
    }

    open spec fn slot(&self, state: ExtendedState) -> nat {
        (state.position.0 * self.heights.cols() + state.position.1) as nat
    }

    open spec fn moves(&self, state: ExtendedState) -> Seq<(ExtendedState, u64)> {
        climbs_around(self.heights, state.position, 4).map_values(
            |next: Coordinate| (plain(next), 1u64),
        )
    }

    open spec fn step_bound(&self) -> nat {
        1
    }

    proof fn lemma_sizes(&self) {
        self.heights.lemma_area_fits();
        assert(self.slots() * 1 == self.slots()) by (nonlinear_arith);
    }

    proof fn lemma_slot_in_range(&self, state: ExtendedState) {
        self.heights.lemma_area_fits();
        lemma_flat_index_in_range(
            state.position.0 as int,
            state.position.1 as int,
            self.heights.rows() as int,
            self.heights.cols() as int,
        );
    }

    proof fn lemma_slot_injective(&self, a: ExtendedState, b: ExtendedState) {
        self.lemma_slot_in_range(a);
        self.lemma_slot_in_range(b);
        lemma_flat_index_injective(
            a.position.0 as int,
            a.position.1 as int,
            b.position.0 as int,
            b.position.1 as int,
            self.heights.cols() as int,
        );
    }

    proof fn lemma_moves_valid(&self, state: ExtendedState, i: int) {
        lemma_climbs_around(self.heights, state.position, 4, i);
    }

    fn table_size(&self) -> (size: usize) {
        proof {
            self.heights.lemma_area_fits();
        }
        self.heights.cells().len()
    }

    fn admits(&self, state: &ExtendedState) -> (ok: bool) {
        self.heights.in_bounds(state.position) && state.heading.is_none() && state.run_length == 0
    }

    fn key(&self, state: &ExtendedState) -> (k: usize) {
        proof {
            self.lemma_slot_in_range(*state);
            self.heights.lemma_area_fits();
        }
        state.position.0 as usize * self.heights.width() + state.position.1 as usize
    }

    fn expand(&self, state: &ExtendedState) -> (out: Vec<(ExtendedState, u64)>) {
        let mut out: Vec<(ExtendedState, u64)> = Vec::new();
        let ghost mut cells: Seq<Coordinate> = Seq::empty();
        let mut i: usize = 0;
        while i < 4
            invariant
                i <= 4,
                self.wf(),
                self.valid(*state),
                cells == climbs_around(self.heights, state.position, i as int),
                out@ == cells.map_values(|next: Coordinate| (plain(next), 1u64)),
            decreases 4 - i,
        {
            let ghost before = cells;
            match climb_along(self.heights, state.position, heading_at(i)) {
                Some(next) => {
                    out.push((ExtendedState::at(next), 1));
                    proof {
                        cells = before + seq![next];
                        assert(cells =~= before.push(next));
                        assert(out@ =~= cells.map_values(|next: Coordinate| (plain(next), 1u64)));
                    }
                },
                None => {
                    proof {
                        cells = before + Seq::<Coordinate>::empty();
                        assert(cells =~= before);
                    }
                },
            }
            i += 1;
        }
        out
    }
}

/// The states that carry the positions of `cells` and nothing else.
pub open spec fn plain_states(cells: Seq<Coordinate>) -> Seq<ExtendedState> {
    cells.map_values(|pos: Coordinate| plain(pos))
}

/// The fewest steps that lead from any of `starts` to a goal cell, or
/// `Unreachable` when none of them reaches one. A start outside the grid is
/// refused with `InvalidParameters`.
pub fn fewest_steps(heights: &Surface<u32>, starts: &Vec<Coordinate>, goal: &Goal) -> (out:
    Result<u64, EngineError>)
    requires
        heights.wf(),
        goal.wf(),
    ensures
        out matches Ok(steps) ==> least_cost_from_any(
            &ClimbRule { heights },
            plain_states(starts@),
            goal,
            steps as int,
        ),
        out matches Err(e) ==> (e == EngineError::InvalidParameters || e
            == EngineError::Unreachable),
        out == Err::<u64, EngineError>(EngineError::InvalidParameters) <==> exists|i: int|
            0 <= i < starts@.len() && !heights.contains(#[trigger] starts@[i]),
        out == Err::<u64, EngineError>(EngineError::Unreachable) ==> forall|i: int, cost: int|
            0 <= i < starts@.len() ==> !(#[trigger] goal_reached(
                &ClimbRule { heights },
                plain(starts@[i]),
                goal,
                cost,
            )),
{
    let rule = ClimbRule { heights };
    let mut states: Vec<ExtendedState> = Vec::new();
    let mut k: usize = 0;
    while k < starts.len()
        invariant
            k <= starts@.len(),
            states@ == plain_states(starts@.take(k as int)),
            forall|i: int| 0 <= i < k ==> heights.contains(#[trigger] starts@[i]),
        decreases starts@.len() - k,
    {
        if !heights.in_bounds(starts[k]) {
            return Err(EngineError::InvalidParameters);
        }
        states.push(ExtendedState::at(starts[k]));
        proof {
            assert(starts@.take(k + 1) =~= starts@.take(k as int).push(starts@[k as int]));
            assert(states@ =~= plain_states(starts@.take(k + 1)));
        }
        k += 1;
    }
    proof {
        assert(starts@.take(k as int) =~= starts@);
        assert forall|i: int| 0 <= i < states@.len() implies rule.valid(#[trigger] states@[i]) by {
            assert(heights.contains(starts@[i]));
        }
    }
    let out = search_from_any(&rule, &states, goal);
    proof {
        if out is Err {
            assert forall|i: int, cost: int| 0 <= i < starts@.len() implies !(#[trigger] goal_reached(
                &rule,
                plain(starts@[i]),
                goal,
                cost,
            )) by {
                assert(states@[i] == plain(starts@[i]));
            }
        }
    }
    out
}

/// The fewest steps from `start` to every cell, as a surface of the shape
/// of the grid; `None` marks the cells that no climb reaches.
pub fn steps_field(heights: &Surface<u32>, start: Coordinate) -> (out: Surface<Option<u64>>)
    requires
        heights.wf(),
        heights.contains(start),
    ensures
        out.wf(),
        out.rows() == heights.rows(),
        out.cols() == heights.cols(),
        forall|pos: Coordinate|
            heights.contains(pos) ==> match #[trigger] out.at(pos) {
                Some(steps) => least_cost(
                    &ClimbRule { heights },
                    plain(start),
                    plain(pos),
                    steps as int,
                ),
                None => !reachable(&ClimbRule { heights }, plain(start), plain(pos)),
            },
{
    let rule = ClimbRule { heights };
    let table = cost_field(&rule, ExtendedState::at(start));
    let costs = table.into_costs();
    proof {
        heights.lemma_area_fits();
    }
    let field = Surface::from_cells(costs, heights.height(), heights.width());
    proof {
        assert forall|pos: Coordinate| heights.contains(pos) implies match #[trigger] field.at(
            pos,
        ) {
            Some(steps) => least_cost(&rule, plain(start), plain(pos), steps as int),
            None => !reachable(&rule, plain(start), plain(pos)),
        } by {
            assert(rule.valid(plain(pos)));
            assert(field.at(pos) == recorded(&rule, field.flat(), plain(pos)));
        }
    }
    field
}

} // verus!
