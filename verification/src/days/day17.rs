//! Heat-loss grids: the cheapest way across a grid for a cart that must keep
//! its heading for a minimum number of steps before it may turn, and may
//! not keep it for more than a maximum.

use crate::compass::{
    heading_at, headed_neighbors, maybe, moving_reverse, neighbor, reverse_of, step_from,
    visiting_order, Coordinate,
};
use crate::rule::{
    goal_reached, is_walk, least_cost, least_goal_cost, lemma_walk_stays_valid, reachable,
    reaches, Goal, TransitionRule,
};
use crate::search::{cost_field, field_exact, recorded, search};
use crate::state::{heading_index, heading_rank, plain, ExtendedState};
use crate::surface::{
    lemma_flat_index_in_range, lemma_flat_index_injective, lemma_flat_index_split, EngineError,
    Surface,
};
pub use crate::compass::Moving;
use vstd::prelude::*;

verus! {

/// The four neighbours of `pos` in visiting order, each with the heading
/// that leads to it; a neighbour that `isize` cannot hold is left out.
pub fn adjacent(pos: Coordinate) -> (out: Vec<(isize, isize, Moving)>)
    ensures
        out@ == headed_neighbors(pos, 4),
{
    let mut out: Vec<(isize, isize, Moving)> = Vec::new();
    let mut i: usize = 0;
    while i < 4
        invariant
            i <= 4,
            out@ == headed_neighbors(pos, i as int),
        decreases 4 - i,
    {
        let moving = heading_at(i);
        let ghost before = out@;
        match step_from(pos, moving) {
            Some(next) => {
                out.push((next.0, next.1, moving));
                assert(out@ =~= before + seq![(next.0, next.1, moving)]);
            },
            None => {
                assert(out@ =~= before + Seq::<(isize, isize, Moving)>::empty());
            },
        }
        i += 1;
    }
    out
}

/// The heat loss of the block at `pos`, or `None` outside the grid.
pub fn get_value(map: &Surface<u32>, pos: Coordinate) -> (out: Option<u32>)
    requires
        map.wf(),
    ensures
        out == map.lookup(pos),
{
    map.value_at(pos)
}

/// The greatest heat loss that a single block can have.
pub open spec fn block_limit() -> nat {
    0xFFFF_FFFF
}

/// Whether a relaxation table for `map` and runs of up to `max_run` can be
/// indexed by `usize`, and every walk that visits no state twice has a cost
/// that fits in `u64`.
pub open spec fn table_fits(map: &Surface<u32>, max_run: u32) -> bool {
    &&& map.rows() * map.cols() * 5 * (max_run + 1) <= usize::MAX
    &&& map.rows() * map.cols() * 5 * (max_run + 1) * block_limit() <= u64::MAX
}

/// The transition rule of a heat-loss grid.
///
/// A state carries the heading of the last move and the number of
/// consecutive moves made along it. The start state carries no heading.
pub struct RunLengthRule<'a> {
    /// The heat loss of every block.
    pub map: &'a Surface<u32>,
    /// The number of moves along one heading before a turn is allowed.
    pub min_run: u32,
    /// The greatest number of consecutive moves along one heading.
    pub max_run: u32,
}

/// The run length after a move along `moving` out of `state`.
pub open spec fn next_run(state: ExtendedState, moving: Moving) -> int {
    if state.heading == Some(moving) {
        state.run_length + 1
    } else {
        1
    }
}

impl<'a> RunLengthRule<'a> {
    /// Whether the run-length constraint lets `state` move along `moving`:
    /// the run stays within the maximum, and a turn is neither a reversal
    /// nor made before the run has reached the minimum. A state without a
    /// heading may move along any heading.
    pub open spec fn may_move(&self, state: ExtendedState, moving: Moving) -> bool {
        &&& next_run(state, moving) <= self.max_run
        &&& match state.heading {
            None => true,
            Some(heading) => heading == moving || (state.run_length >= self.min_run && moving
                != moving_reverse(heading)),
        }
    }

    /// The move out of `state` along `moving`, if the neighbour lies in the
    /// grid and the run-length constraint allows it. It costs the heat loss
    /// of the block it enters.
    pub open spec fn move_along(&self, state: ExtendedState, moving: Moving) -> Option<
        (ExtendedState, u64),
    > {
        match neighbor(state.position, moving) {
            Some(next) => if self.map.contains(next) && self.may_move(state, moving) {
                Some(
                    (
                        ExtendedState {
                            position: next,
                            heading: Some(moving),
                            run_length: next_run(state, moving) as u32,
                        },
                        self.map.at(next) as u64,
                    ),
                )
            } else {
                None
            },
            None => None,
        }
    }

    /// The moves out of `state` along the first `upto` headings of the
    /// visiting order.
    pub open spec fn moves_upto(&self, state: ExtendedState, upto: int) -> Seq<
        (ExtendedState, u64),
    >
        decreases upto,
    {
        if upto <= 0 {
            Seq::empty()
        } else {
            self.moves_upto(state, upto - 1) + maybe(
                self.move_along(state, visiting_order()[upto - 1]),
            )
        }
    }

    /// Every move of `moves_upto` is the move along some heading.
    pub proof fn lemma_moves_upto(&self, state: ExtendedState, upto: int, i: int)
        requires
            0 <= upto <= 4,
            0 <= i < self.moves_upto(state, upto).len(),
        ensures
            exists|moving: Moving|
                self.move_along(state, moving) == Some(self.moves_upto(state, upto)[i]),
        decreases upto,
    {
        if upto > 0 {
            let before = self.moves_upto(state, upto - 1);
            if i < before.len() {
                self.lemma_moves_upto(state, upto - 1, i);
            } else {
                let moving = visiting_order()[upto - 1];
                assert(self.move_along(state, moving) == Some(self.moves_upto(state, upto)[i]));
            }
        }
    }

    /// How the slot of a state is laid out: the cell index, then the heading,
    /// then the run length, none of them leaving the table.
    pub proof fn lemma_layout(&self, state: ExtendedState)
        requires
            self.wf(),
            self.valid(state),
        ensures
            ({
                let area = self.map.rows() * self.map.cols();
                let runs = self.max_run + 1;
                let cell = state.position.0 * self.map.cols() + state.position.1;
                let headed = cell * 5 + heading_rank(state.heading);
                &&& 1 <= area
                &&& area * 5 <= area * 5 * runs <= usize::MAX
                &&& runs <= area * 5 * runs
                &&& 0 <= state.position.0 * self.map.cols() <= cell < area
                &&& 0 <= cell * 5 <= headed < area * 5
                &&& 0 <= headed * runs <= headed * runs + state.run_length < area * 5 * runs
            }),
    {
        self.map.lemma_area_fits();
        let rows = self.map.rows() as int;
        let cols = self.map.cols() as int;
        let area = rows * cols;
        let runs = self.max_run + 1;
        let cell = state.position.0 * cols + state.position.1;
        let headed = cell * 5 + heading_rank(state.heading);
        lemma_flat_index_in_range(state.position.0 as int, state.position.1 as int, rows, cols);
        lemma_flat_index_in_range(cell, heading_rank(state.heading), area, 5);
        lemma_flat_index_in_range(headed, state.run_length as int, area * 5, runs);
        lemma_product_grows(area * 5, runs);
        lemma_product_grows(runs, area * 5);
        assert(area * 5 * runs == runs * (area * 5)) by (nonlinear_arith);
    }

    /// A rule for `map` with the given bounds on the run length.
    ///
    /// Fails with `InvalidParameters` when the minimum is above the maximum
    /// or the state space is too large for a table.
    pub fn new(map: &'a Surface<u32>, min_run: u32, max_run: u32) -> (out: Result<
        RunLengthRule<'a>,
        EngineError,
    >)
        requires
            map.wf(),
        ensures
            out is Ok <==> min_run <= max_run && table_fits(map, max_run),
            out matches Err(e) ==> e == EngineError::InvalidParameters,
            out matches Ok(rule) ==> rule.wf() && rule.map == map && rule.min_run == min_run
                && rule.max_run == max_run,
    {
        if min_run > max_run {
            return Err(EngineError::InvalidParameters);
        }
        proof {
            map.lemma_area_fits();
        }
        let cells = map.cells().len() as u64;
        let runs = max_run as u64 + 1;
        let ghost area = (map.rows() * map.cols()) as int;
        let per_cell = match cells.checked_mul(5) {
            Some(n) => n,
            None => {
                proof {
                    lemma_product_grows(area * 5, runs as int);
                    lemma_product_grows(area * 5 * runs, block_limit() as int);
                }
                return Err(EngineError::InvalidParameters);
            },
        };
        let slots = match per_cell.checked_mul(runs) {
            Some(n) => n,
            None => {
                proof {
                    lemma_product_grows(area * 5 * runs, block_limit() as int);
                }
                return Err(EngineError::InvalidParameters);
            },
        };
        if slots > usize::MAX as u64 {
            return Err(EngineError::InvalidParameters);
        }
        match slots.checked_mul(0xFFFF_FFFF) {
            Some(_) => Ok(RunLengthRule { map, min_run, max_run }),
            None => Err(EngineError::InvalidParameters),
        }
    }

    /// The move out of `state` along `moving`, if there is one.
    pub fn try_move(&self, state: &ExtendedState, moving: Moving) -> (out: Option<
        (ExtendedState, u64),
    >)
        requires
            self.wf(),
            self.valid(*state),
        ensures
            out == self.move_along(*state, moving),
    {
        let next = match step_from(state.position, moving) {
            Some(next) => next,
            None => { return None; },
        };
        let loss = match self.map.value_at(next) {
            Some(loss) => loss,
            None => { return None; },
        };
        let run: u32 = match state.heading {
            None => 1,
            Some(heading) => {
                if same_heading(heading, moving) {
                    if state.run_length >= self.max_run {
                        return None;
                    }
                    state.run_length + 1
                } else {
                    if state.run_length < self.min_run || same_heading(
                        moving,
                        reverse_of(heading),
                    ) {
                        return None;
                    }
                    1
                }
            },
        };
        if run > self.max_run {
            return None;
        }
        Some((ExtendedState { position: next, heading: Some(moving), run_length: run }, loss as u64))
    }
}

/// Whether two headings are the same.
pub fn same_heading(a: Moving, b: Moving) -> (same: bool)
    ensures
        same == (a == b),
{
    crate::compass::moving_index(a) == crate::compass::moving_index(b)
}

/// A product of naturals is at least its first factor when the second is
/// positive.
proof fn lemma_product_grows(a: int, b: int)
    requires
        0 <= a,
        1 <= b,
    ensures
        a <= a * b,
{
    assert(a <= a * b) by (nonlinear_arith)
        requires
            0 <= a,
            1 <= b,
    ;
}

impl<'a> TransitionRule for RunLengthRule<'a> {
    open spec fn wf(&self) -> bool {
        &&& self.map.wf()
        &&& self.min_run <= self.max_run
        &&& table_fits(self.map, self.max_run)
    }

    open spec fn slots(&self) -> nat {
        self.map.rows() * self.map.cols() * 5 * ((self.max_run + 1) as nat)
    }

    open spec fn valid(&self, state: ExtendedState) -> bool {
        &&& self.map.contains(state.position)
        &&& state.run_length <= self.max_run
    }

    open spec fn slot(&self, state: ExtendedState) -> nat {
        (((state.position.0 * self.map.cols() + state.position.1) * 5 + heading_rank(
            state.heading,
        )) * (self.max_run + 1) + state.run_length) as nat
    }

    open spec fn moves(&self, state: ExtendedState) -> Seq<(ExtendedState, u64)> {
        self.moves_upto(state, 4)
    }

    open spec fn step_bound(&self) -> nat {
        block_limit()
    }

    proof fn lemma_sizes(&self) {
    }

    proof fn lemma_slot_in_range(&self, state: ExtendedState) {
        self.lemma_layout(state);
    }

    proof fn lemma_slot_injective(&self, a: ExtendedState, b: ExtendedState) {
        self.map.lemma_area_fits();
        let cols = self.map.cols() as int;
        let runs = self.max_run + 1;
        let cell_a = a.position.0 * cols + a.position.1;
        let cell_b = b.position.0 * cols + b.position.1;
        self.lemma_layout(a);
        self.lemma_layout(b);
        lemma_flat_index_injective(
            cell_a * 5 + heading_rank(a.heading),
            a.run_length as int,
            cell_b * 5 + heading_rank(b.heading),
            b.run_length as int,
            runs,
        );
        lemma_flat_index_injective(
            cell_a,
            heading_rank(a.heading),
            cell_b,
            heading_rank(b.heading),
            5,
        );
        lemma_flat_index_injective(
            a.position.0 as int,
            a.position.1 as int,
            b.position.0 as int,
            b.position.1 as int,
            cols,
        );
    }

    proof fn lemma_moves_valid(&self, state: ExtendedState, i: int) {
        self.lemma_moves_upto(state, 4, i);
    }

    fn table_size(&self) -> (size: usize) {
        proof {
            self.map.lemma_area_fits();
            self.lemma_layout(plain((0isize, 0isize)));
        }
        self.map.cells().len() * 5 * (self.max_run as usize + 1)
    }

    fn admits(&self, state: &ExtendedState) -> (ok: bool) {
        self.map.in_bounds(state.position) && state.run_length <= self.max_run
    }

    fn key(&self, state: &ExtendedState) -> (k: usize) {
        proof {
            self.map.lemma_area_fits();
            self.lemma_layout(*state);
        }
        let cell = state.position.0 as usize * self.map.width() + state.position.1 as usize;
        let headed = cell * 5 + heading_index(state.heading);
        headed * (self.max_run as usize + 1) + state.run_length as usize
    }

    fn expand(&self, state: &ExtendedState) -> (out: Vec<(ExtendedState, u64)>) {
        let mut out: Vec<(ExtendedState, u64)> = Vec::new();
        let mut i: usize = 0;
        while i < 4
            invariant
                i <= 4,
                self.wf(),
                self.valid(*state),
                out@ == self.moves_upto(*state, i as int),
            decreases 4 - i,
        {
            let ghost before = out@;
            match self.try_move(state, heading_at(i)) {
                Some(mv) => {
                    out.push(mv);
                    assert(out@ =~= before + seq![mv]);
                },
                None => {
                    assert(out@ =~= before + Seq::<(ExtendedState, u64)>::empty());
                },
            }
            i += 1;
        }
        out
    }
}

/// What a rule offers never breaks the run-length constraint: a move that
/// keeps the heading starts from a run below the maximum and lengthens it
/// by one; a move that changes the heading starts from a run of at least
/// the minimum, does not reverse, and begins a run of one.
pub proof fn lemma_moves_keep_constraint(rule: &RunLengthRule, state: ExtendedState, i: int)
    requires
        0 <= i < rule.moves(state).len(),
    ensures
        ({
            let next = rule.moves(state)[i].0;
            &&& next.heading is Some
            &&& next.run_length <= rule.max_run
            &&& state.heading is Some && next.heading == state.heading ==> state.run_length
                < rule.max_run && next.run_length == state.run_length + 1
            &&& state.heading is Some && next.heading != state.heading ==> state.run_length
                >= rule.min_run && next.heading != Some(moving_reverse(state.heading->0))
                && next.run_length == 1
        }),
{
    rule.lemma_moves_upto(state, 4, i);
}

/// The corner opposite to `(0, 0)`.
pub fn far_corner(map: &Surface<u32>) -> (corner: Coordinate)
    requires
        map.wf(),
    ensures
        corner == ((map.rows() - 1) as isize, (map.cols() - 1) as isize),
        map.contains(corner),
{
    proof {
        map.lemma_area_fits();
    }
    ((map.height() - 1) as isize, (map.width() - 1) as isize)
}

/// The cheapest way from `(0, 0)` to `end` under the given bounds on the
/// run length.
pub fn cheapest_run(map: &Surface<u32>, end: Coordinate, min_run: u32, max_run: u32) -> (out:
    Result<u64, EngineError>)
    requires
        map.wf(),
    ensures
        out matches Ok(cost) ==> least_goal_cost(
            &RunLengthRule { map, min_run, max_run },
            plain((0isize, 0isize)),
            &Goal::Cell(end),
            cost as int,
        ),
        out matches Err(e) ==> (e == EngineError::InvalidParameters || e
            == EngineError::Unreachable),
        out == Err::<u64, EngineError>(EngineError::InvalidParameters) <==> !(min_run <= max_run
            && table_fits(map, max_run)),
        out == Err::<u64, EngineError>(EngineError::Unreachable) ==> forall|cost: int|
            !goal_reached(
                &RunLengthRule { map, min_run, max_run },
                plain((0isize, 0isize)),
                &Goal::Cell(end),
                cost,
            ),
{
    let rule = match RunLengthRule::new(map, min_run, max_run) {
        Ok(rule) => rule,
        Err(e) => { return Err(e); },
    };
    proof {
        map.lemma_area_fits();
    }
    let start = ExtendedState::at((0, 0));
    let goal = Goal::Cell(end);
    search(&rule, start, &goal)
}

/// The least heat loss on the way from `(0, 0)` to `end` when at most three
/// consecutive moves may keep one heading.
pub fn shortest_path(map: &Surface<u32>, end: Coordinate) -> (out: Result<u64, EngineError>)
    requires
        map.wf(),
    ensures
        out matches Ok(cost) ==> least_goal_cost(
            &RunLengthRule { map, min_run: 0, max_run: 3 },
            plain((0isize, 0isize)),
            &Goal::Cell(end),
            cost as int,
        ),
        out matches Err(e) ==> (e == EngineError::InvalidParameters || e
            == EngineError::Unreachable),
        out == Err::<u64, EngineError>(EngineError::InvalidParameters) <==> !table_fits(map, 3),
        out == Err::<u64, EngineError>(EngineError::Unreachable) ==> forall|cost: int|
            !goal_reached(
                &RunLengthRule { map, min_run: 0, max_run: 3 },
                plain((0isize, 0isize)),
                &Goal::Cell(end),
                cost,
            ),
{
    cheapest_run(map, end, 0, 3)
}

/// The least heat loss on the way from `(0, 0)` to `end` when a heading must
/// be kept for at least four moves before a turn and for at most ten.
pub fn shortest_path2(map: &Surface<u32>, end: Coordinate) -> (out: Result<u64, EngineError>)
    requires
        map.wf(),
    ensures
        out matches Ok(cost) ==> least_goal_cost(
            &RunLengthRule { map, min_run: 4, max_run: 10 },
            plain((0isize, 0isize)),
            &Goal::Cell(end),
            cost as int,
        ),
        out matches Err(e) ==> (e == EngineError::InvalidParameters || e
            == EngineError::Unreachable),
        out == Err::<u64, EngineError>(EngineError::InvalidParameters) <==> !table_fits(map, 10),
        out == Err::<u64, EngineError>(EngineError::Unreachable) ==> forall|cost: int|
            !goal_reached(
                &RunLengthRule { map, min_run: 4, max_run: 10 },
                plain((0isize, 0isize)),
                &Goal::Cell(end),
                cost,
            ),
{
    cheapest_run(map, end, 4, 10)
}

/// Whether every character of every line is a decimal digit.
pub open spec fn all_blocks(lines: Seq<Vec<char>>) -> bool {
    forall|r: int, c: int|
        0 <= r < lines.len() && 0 <= c < lines[r]@.len() ==> '0' <= #[trigger] lines[r]@[c]
            <= '9'
}

/// The grid of heat losses that lines of digits write: one block for every
/// digit.
///
/// Fails with `MalformedGrid` when the lines are no rectangle, and with
/// `InvalidParameters` when a character is no digit.
pub fn heat_map(lines: &Vec<Vec<char>>) -> (out: Result<Surface<u32>, EngineError>)
    ensures
        out is Ok <==> crate::surface::rectangular(lines@) && all_blocks(lines@),
        out matches Err(e) ==> e == if all_blocks(lines@) {
            EngineError::MalformedGrid
        } else {
            EngineError::InvalidParameters
        },
        out matches Ok(map) ==> {
            &&& map.wf()
            &&& map.rows() == lines@.len()
            &&& map.cols() == lines@[0]@.len()
            &&& forall|r: int, c: int|
                0 <= r < map.rows() && 0 <= c < map.cols() ==> #[trigger] map.cell(r, c)
                    == lines@[r]@[c] as u32 - '0' as u32
        },
{
    let mut rows: Vec<Vec<u32>> = Vec::new();
    let mut r: usize = 0;
    while r < lines.len()
        invariant
            r <= lines@.len(),
            rows@.len() == r,
            forall|i: int| 0 <= i < r ==> (#[trigger] rows@[i])@.len() == lines@[i]@.len(),
            forall|i: int, c: int|
                0 <= i < r && 0 <= c < lines@[i]@.len() ==> '0' <= #[trigger] lines@[i]@[c]
                    <= '9' && rows@[i]@[c] == lines@[i]@[c] as u32 - '0' as u32,
        decreases lines@.len() - r,
    {
        let line = &lines[r];
        let mut row: Vec<u32> = Vec::new();
        let mut c: usize = 0;
        while c < line.len()
            invariant
                c <= line@.len(),
                r < lines@.len(),
                line@ == lines@[r as int]@,
                row@.len() == c,
                forall|j: int|
                    0 <= j < c ==> '0' <= #[trigger] line@[j] <= '9' && row@[j] == line@[j] as u32
                        - '0' as u32,
            decreases line@.len() - c,
        {
            let here = line[c];
            if !(here >= '0' && here <= '9') {
                assert(!('0' <= lines@[r as int]@[c as int] <= '9'));
                return Err(EngineError::InvalidParameters);
            }
            row.push(here as u32 - '0' as u32);
            c += 1;
        }
        rows.push(row);
        r += 1;
    }
    proof {
        assert(crate::surface::rectangular(rows@) <==> crate::surface::rectangular(lines@)) by {
            if lines@.len() > 0 {
                assert(rows@[0]@.len() == lines@[0]@.len());
            }
            if crate::surface::rectangular(lines@) {
                assert forall|i: int| 0 <= i < rows@.len() implies (#[trigger] rows@[i])@.len()
                    == rows@[0]@.len() by {
                    assert(lines@[i]@.len() == lines@[0]@.len());
                }
            }
            if crate::surface::rectangular(rows@) {
                assert forall|i: int| 0 <= i < lines@.len() implies (#[trigger] lines@[i])@.len()
                    == lines@[0]@.len() by {
                    assert(rows@[i]@.len() == rows@[0]@.len());
                }
            }
        }
    }
    let ghost digits = rows@;
    match Surface::new(rows) {
        Ok(map) => {
            proof {
                assert forall|i: int, c: int|
                    0 <= i < map.rows() && 0 <= c < map.cols() implies #[trigger] map.cell(i, c)
                    == lines@[i]@[c] as u32 - '0' as u32 by {
                    assert(digits[i]@.len() == digits[0]@.len());
                    assert(digits[i]@[c] == lines@[i]@[c] as u32 - '0' as u32);
                }
            }
            Ok(map)
        },
        Err(e) => Err(e),
    }
}

/// The heading with the rank `rank`, or none for rank zero.
pub open spec fn heading_ranked(rank: int) -> Option<Moving> {
    if rank == 1 {
        Some(Moving::Right)
    } else if rank == 2 {
        Some(Moving::Left)
    } else if rank == 3 {
        Some(Moving::Up)
    } else if rank == 4 {
        Some(Moving::Down)
    } else {
        None
    }
}

/// Whether `best` is the least of the first `n` costs from place `base` on
/// of a table, where `None` is no cost.
pub open spec fn least_of(table: Seq<Option<u64>>, base: int, n: int, best: Option<u64>) -> bool {
    &&& best matches Some(c) ==> exists|j: int| 0 <= j < n && #[trigger] table[base + j] == Some(c)
    &&& forall|j: int|
        0 <= j < n && (#[trigger] table[base + j]) is Some ==> best is Some && best->0 <= table[base
            + j]->0
}

/// Whether `cost` is the least heat loss on the way from `(0, 0)` to `pos`
/// in whatever state, or `None` stands for a block that no way reaches.
pub open spec fn least_heat(rule: &RunLengthRule, pos: Coordinate, cost: Option<u64>) -> bool {
    match cost {
        Some(c) => least_goal_cost(rule, plain((0isize, 0isize)), &Goal::Cell(pos), c as int),
        None => forall|x: int|
            !goal_reached(rule, plain((0isize, 0isize)), &Goal::Cell(pos), x),
    }
}

/// The least recorded cost of the states of one block is the least heat
/// loss on the way to the block.
proof fn lemma_block_cost(
    rule: &RunLengthRule,
    table: Seq<Option<u64>>,
    pos: Coordinate,
    best: Option<u64>,
)
    requires
        rule.wf(),
        rule.map.contains(pos),
        field_exact(rule, plain((0isize, 0isize)), table),
        least_of(
            table,
            (pos.0 * rule.map.cols() + pos.1) * 5 * (rule.max_run + 1),
            5 * (rule.max_run + 1),
            best,
        ),
    ensures
        least_heat(rule, pos, best),
{
    let start = plain((0isize, 0isize));
    let goal = Goal::Cell(pos);
    let runs = rule.max_run + 1;
    let cell = pos.0 * rule.map.cols() + pos.1;
    let base = cell * 5 * runs;
    rule.map.lemma_area_fits();
    assert(rule.valid(start));
    // Whatever reaches the block is recorded at no less than `best`.
    assert forall|s: ExtendedState, x: int|
        s.position == pos && #[trigger] reaches(rule, start, s, x) implies best is Some && best->0
        <= x by {
        let walk = choose|walk: Seq<(ExtendedState, int)>| #[trigger]
            is_walk(rule, start, walk) && walk.last() == (s, x);
        lemma_walk_stays_valid(rule, start, walk);
        rule.lemma_layout(s);
        let j = heading_rank(s.heading) * runs + s.run_length;
        assert(rule.slot(s) == base + j) by (nonlinear_arith)
            requires
                rule.slot(s) == (cell * 5 + heading_rank(s.heading)) * runs + s.run_length,
                base == cell * 5 * runs,
                j == heading_rank(s.heading) * runs + s.run_length,
        ;
        assert(0 <= j < 5 * runs) by (nonlinear_arith)
            requires
                j == heading_rank(s.heading) * runs + s.run_length,
                0 <= heading_rank(s.heading) < 5,
                0 <= s.run_length < runs,
        ;
        assert(recorded(rule, table, s) == table[base + j]);
        if recorded(rule, table, s) is None {
            assert(reachable(rule, start, s));
        } else {
            assert(least_cost(rule, start, s, recorded(rule, table, s)->0 as int));
        }
    }
    match best {
        Some(c) => {
            let j = choose|j: int| 0 <= j < 5 * runs && #[trigger] table[base + j] == Some(c);
            lemma_flat_index_split(j, 5, runs);
            let h = j / runs;
            let run = j % runs;
            let s = ExtendedState { position: pos, heading: heading_ranked(h), run_length: run as u32 };
            assert(rule.valid(s));
            rule.lemma_layout(s);
            assert(heading_rank(s.heading) == h);
            assert(rule.slot(s) == base + j) by (nonlinear_arith)
                requires
                    rule.slot(s) == (cell * 5 + h) * runs + run,
                    base == cell * 5 * runs,
                    j == h * runs + run,
            ;
            assert(recorded(rule, table, s) == Some(c));
            assert(least_cost(rule, start, s, c as int));
            assert(goal.holds(s.position));
            assert(goal_reached(rule, start, &goal, c as int));
            assert forall|other: int| goal_reached(rule, start, &goal, other) implies c
                <= other by {
                let t = choose|t: ExtendedState|
                    goal.holds(t.position) && #[trigger] reaches(rule, start, t, other);
                assert(t.position == pos && reaches(rule, start, t, other));
            }
        },
        None => {
            assert forall|x: int| !goal_reached(rule, start, &goal, x) by {
                if goal_reached(rule, start, &goal, x) {
                    let t = choose|t: ExtendedState|
                        goal.holds(t.position) && #[trigger] reaches(rule, start, t, x);
                    assert(t.position == pos && reaches(rule, start, t, x));
                }
            }
        },
    }
}

/// The least heat loss on the way from `(0, 0)` to every block, as a
/// surface of the shape of the grid; `None` marks the blocks that the
/// bounds on the run length let no way reach.
///
/// Fails with `InvalidParameters` as `RunLengthRule::new` does.
pub fn heat_field(map: &Surface<u32>, min_run: u32, max_run: u32) -> (out: Result<
    Surface<Option<u64>>,
    EngineError,
>)
    requires
        map.wf(),
    ensures
        out is Ok <==> min_run <= max_run && table_fits(map, max_run),
        out matches Err(e) ==> e == EngineError::InvalidParameters,
        out matches Ok(field) ==> {
            &&& field.wf()
            &&& field.rows() == map.rows()
            &&& field.cols() == map.cols()
            &&& forall|pos: Coordinate|
                map.contains(pos) ==> least_heat(
                    &RunLengthRule { map, min_run, max_run },
                    pos,
                    #[trigger] field.at(pos),
                )
        },
{
    let rule = match RunLengthRule::new(map, min_run, max_run) {
        Ok(rule) => rule,
        Err(e) => { return Err(e); },
    };
    proof {
        map.lemma_area_fits();
        rule.lemma_layout(plain((0isize, 0isize)));
    }
    let table = cost_field(&rule, ExtendedState::at((0, 0))).into_costs();
    let height = map.height();
    let width = map.width();
    let runs = max_run as usize + 1;
    let ghost area = (map.rows() * map.cols()) as int;
    proof {
        assert(area * 5 * runs == area * (5 * runs)) by (nonlinear_arith);
        assert(5 * runs <= area * (5 * runs)) by (nonlinear_arith)
            requires
                area >= 1,
                runs >= 0,
        ;
        assert(area <= area * (5 * runs)) by (nonlinear_arith)
            requires
                area >= 0,
                runs >= 1,
        ;
    }
    let per_block = 5 * runs;
    let mut cells: Vec<Option<u64>> = Vec::new();
    let mut r: usize = 0;
    while r < height
        invariant
            r <= height,
            rule.wf(),
            rule.map == map,
            rule.max_run == max_run,
            rule.min_run == min_run,
            height == map.rows(),
            width == map.cols(),
            0 < width <= isize::MAX,
            height <= isize::MAX,
            runs == max_run + 1,
            per_block == 5 * runs,
            area == height * width,
            table@.len() == area * per_block,
            area * per_block <= usize::MAX,
            area <= usize::MAX,
            field_exact(&rule, plain((0isize, 0isize)), table@),
            cells@.len() == r * width,
            forall|i: int, j: int|
                0 <= i < r && 0 <= j < width ==> least_heat(
                    &rule,
                    (i as isize, j as isize),
                    #[trigger] cells@[i * width + j],
                ),
        decreases height - r,
    {
        let mut c: usize = 0;
        while c < width
            invariant
                c <= width,
                r < height,
                rule.wf(),
                rule.map == map,
                rule.max_run == max_run,
                rule.min_run == min_run,
                height == map.rows(),
                width == map.cols(),
                0 < width <= isize::MAX,
                height <= isize::MAX,
                runs == max_run + 1,
                per_block == 5 * runs,
                area == height * width,
                table@.len() == area * per_block,
                area * per_block <= usize::MAX,
                area <= usize::MAX,
                field_exact(&rule, plain((0isize, 0isize)), table@),
                cells@.len() == r * width + c,
                forall|i: int, j: int|
                    0 <= i < r && 0 <= j < width ==> least_heat(
                        &rule,
                        (i as isize, j as isize),
                        #[trigger] cells@[i * width + j],
                    ),
                forall|j: int|
                    0 <= j < c ==> least_heat(
                        &rule,
                        (r as isize, j as isize),
                        #[trigger] cells@[r * width + j],
                    ),
            decreases width - c,
        {
            proof {
                lemma_flat_index_in_range(r as int, c as int, height as int, width as int);
                lemma_flat_index_in_range(r * width + c, 0, area, per_block as int);
                assert((r * width + c + 1) * per_block == (r * width + c) * per_block
                    + per_block) by (nonlinear_arith);
                assert((r * width + c + 1) * per_block <= area * per_block) by (nonlinear_arith)
                    requires
                        r * width + c + 1 <= area,
                        per_block >= 0,
                ;
            }
            let base = (r * width + c) * per_block;
            let mut best: Option<u64> = None;
            let mut k: usize = 0;
            while k < per_block
                invariant
                    k <= per_block,
                    base + per_block <= table@.len(),
                    table@.len() <= usize::MAX,
                    least_of(table@, base as int, k as int, best),
                decreases per_block - k,
            {
                let here = table[base + k];
                let ghost before = best;
                best = match (best, here) {
                    (Some(b), Some(h)) => if h < b {
                        Some(h)
                    } else {
                        Some(b)
                    },
                    (None, other) => other,
                    (held, None) => held,
                };
                proof {
                    if best is Some {
                        if best == here {
                            assert(table@[base + k] == best);
                        } else {
                            let j = choose|j: int|
                                0 <= j < k && #[trigger] table@[base + j] == Some(before->0);
                            assert(table@[base + j] == best);
                        }
                    }
                }
                k += 1;
            }
            let ghost rows_before = cells@;
            cells.push(best);
            proof {
                let pos = (r as isize, c as isize);
                assert(base == (pos.0 * rule.map.cols() + pos.1) * 5 * (rule.max_run + 1))
                    by (nonlinear_arith)
                    requires
                        base == (r * width + c) * per_block,
                        per_block == 5 * runs,
                        runs == rule.max_run + 1,
                        pos.0 == r,
                        pos.1 == c,
                        rule.map.cols() == width,
                ;
                lemma_block_cost(&rule, table@, pos, best);
                assert forall|i: int, j: int| 0 <= i < r && 0 <= j < width implies least_heat(
                    &rule,
                    (i as isize, j as isize),
                    #[trigger] cells@[i * width + j],
                ) by {
                    lemma_flat_index_in_range(i, j, r as int, width as int);
                    assert(cells@[i * width + j] == rows_before[i * width + j]);
                }
                assert forall|j: int| 0 <= j < c + 1 implies least_heat(
                    &rule,
                    (r as isize, j as isize),
                    #[trigger] cells@[r * width + j],
                ) by {
                    if j < c {
                        assert(cells@[r * width + j] == rows_before[r * width + j]);
                    }
                }
            }
            c += 1;
        }
        proof {
            assert((r + 1) * width == r * width + width) by (nonlinear_arith);
        }
        r += 1;
    }
    let field = Surface::from_cells(cells, height, width);
    proof {
        assert forall|pos: Coordinate| map.contains(pos) implies least_heat(
            &rule,
            pos,
            #[trigger] field.at(pos),
        ) by {
            assert(field.at(pos) == field.flat()[pos.0 * width + pos.1]);
            assert(least_heat(&rule, (pos.0 as int as isize, pos.1 as int as isize), field.flat()[
                pos.0 * width + pos.1
            ]));
        }
    }
    Ok(field)
}

} // verus!
