//! Pipe networks: the distance from a start tile to every tile of its loop,
//! and the number of tiles that the loop encloses.

use crate::compass::{
    heading_at, heading_for, heading_of, maybe, moving_reverse, neighbor, step_from,
    visiting_order, Coordinate, Moving,
};
use crate::rule::{least_cost, reachable, TransitionRule};
use crate::search::{cost_field, recorded};
use crate::state::{plain, ExtendedState};
use crate::surface::{lemma_flat_index_in_range, lemma_flat_index_injective, Surface};
use vstd::prelude::*;

verus! {

/// Whether a pipe symbol has an opening toward `moving`.
pub open spec fn opens(symbol: char, moving: Moving) -> bool {
    match moving {
        Moving::Right => symbol == '-' || symbol == 'L' || symbol == 'F',
        Moving::Left => symbol == '-' || symbol == 'J' || symbol == '7',
        Moving::Down => symbol == '|' || symbol == 'F' || symbol == '7',
        Moving::Up => symbol == '|' || symbol == 'L' || symbol == 'J',
    }
}

/// Whether a pipe symbol has an opening toward `moving`.
pub fn has_opening(symbol: char, moving: Moving) -> (open: bool)
    ensures
        open == opens(symbol, moving),
{
    match moving {
        Moving::Right => symbol == '-' || symbol == 'L' || symbol == 'F',
        Moving::Left => symbol == '-' || symbol == 'J' || symbol == '7',
        Moving::Down => symbol == '|' || symbol == 'F' || symbol == '7',
        Moving::Up => symbol == '|' || symbol == 'L' || symbol == 'J',
    }
}

/// The symbol at `pos`, or `None` outside the grid.
pub fn get_value(tiles: &Surface<char>, pos: Coordinate) -> (out: Option<char>)
    requires
        tiles.wf(),
    ensures
        out == tiles.lookup(pos),
{
    tiles.value_at(pos)
}

/// The neighbour of `pos` along `moving`, if it lies in the grid and the two
/// tiles connect: the tile at `pos` opens toward the neighbour and the
/// neighbour opens back.
pub open spec fn pipe_step(tiles: &Surface<char>, pos: Coordinate, moving: Moving) -> Option<
    Coordinate,
> {
    match neighbor(pos, moving) {
        Some(next) => if tiles.contains(next) && opens(tiles.at(pos), moving) && opens(
            tiles.at(next),
            moving_reverse(moving),
        ) {
            Some(next)
        } else {
            None
        },
        None => None,
    }
}

/// The connected neighbour of `pos` at offset `direction`; `None` when the
/// offset is not one of the four unit offsets.
pub open spec fn pipe_toward(
    tiles: &Surface<char>,
    pos: Coordinate,
    direction: (isize, isize),
) -> Option<Coordinate> {
    match heading_of(direction) {
        Some(moving) => pipe_step(tiles, pos, moving),
        None => None,
    }
}

/// The connected neighbour of `pos` along `moving`.
pub fn pipe_along(tiles: &Surface<char>, pos: Coordinate, moving: Moving) -> (out: Option<
    Coordinate,
>)
    requires
        tiles.wf(),
        tiles.contains(pos),
    ensures
        out == pipe_step(tiles, pos, moving),
{
    let next = match step_from(pos, moving) {
        Some(next) => next,
        None => { return None; },
    };
    let here = match tiles.value_at(pos) {
        Some(symbol) => symbol,
        None => { return None; },
    };
    match tiles.value_at(next) {
        Some(there) => {
            if has_opening(here, moving) && has_opening(there, crate::compass::reverse_of(moving)) {
                Some(next)
            } else {
                None
            }
        },
        None => None,
    }
}

/// The tile at offset `direction` from `pos`, if `direction` is a unit
/// offset, the tile lies in the grid and the two tiles connect.
pub fn valid_pipe(tiles: &Surface<char>, pos: Coordinate, direction: (isize, isize)) -> (out:
    Option<Coordinate>)
    requires
        tiles.wf(),
        tiles.contains(pos),
    ensures
        out == pipe_toward(tiles, pos, direction),
{
    match heading_for(direction) {
        Some(moving) => pipe_along(tiles, pos, moving),
        None => None,
    }
}

/// The connected neighbours of `pos` along the first `upto` headings of the
/// visiting order.
pub open spec fn pipes_around(tiles: &Surface<char>, pos: Coordinate, upto: int) -> Seq<
    Coordinate,
>
    decreases upto,
{
    if upto <= 0 {
        Seq::empty()
    } else {
        pipes_around(tiles, pos, upto - 1) + maybe(
            pipe_step(tiles, pos, visiting_order()[upto - 1]),
        )
    }
}

/// Every tile of `pipes_around` is the connected neighbour of `pos` along
/// some heading.
pub proof fn lemma_pipes_around(tiles: &Surface<char>, pos: Coordinate, upto: int, i: int)
    requires
        0 <= upto <= 4,
        0 <= i < pipes_around(tiles, pos, upto).len(),
    ensures
        exists|moving: Moving| pipe_step(tiles, pos, moving) == Some(
            pipes_around(tiles, pos, upto)[i],
        ),
    decreases upto,
{
    if upto > 0 {
        let before = pipes_around(tiles, pos, upto - 1);
        if i < before.len() {
            lemma_pipes_around(tiles, pos, upto - 1, i);
        } else {
            let moving = visiting_order()[upto - 1];
            assert(pipe_step(tiles, pos, moving) == Some(pipes_around(tiles, pos, upto)[i]));
        }
    }
}

/// The tiles next to `pos` that connect to it, in visiting order.
pub fn adjacent_pipes(tiles: &Surface<char>, pos: Coordinate) -> (out: Vec<Coordinate>)
    requires
        tiles.wf(),
        tiles.contains(pos),
    ensures
        out@ == pipes_around(tiles, pos, 4),
{
    let mut out: Vec<Coordinate> = Vec::new();
    let mut i: usize = 0;
    while i < 4
        invariant
            i <= 4,
            tiles.wf(),
            tiles.contains(pos),
            out@ == pipes_around(tiles, pos, i as int),
        decreases 4 - i,
    {
        let ghost before = out@;
        match pipe_along(tiles, pos, heading_at(i)) {
            Some(next) => {
                out.push(next);
                assert(out@ =~= before + seq![next]);
            },
            None => {
                assert(out@ =~= before + Seq::<Coordinate>::empty());
            },
        }
        i += 1;
    }
    out
}

/// The transition rule of a pipe network: a move goes from a tile to a
/// connected neighbour and costs one step.
pub struct PipeRule<'a> {
    /// The tiles of the network.
    pub tiles: &'a Surface<char>,
}

impl<'a> TransitionRule for PipeRule<'a> {
    open spec fn wf(&self) -> bool {
        self.tiles.wf()
    }

    open spec fn slots(&self) -> nat {
        self.tiles.rows() * self.tiles.cols()
    }

    open spec fn valid(&self, state: ExtendedState) -> bool {
        self.tiles.contains(state.position) && state == plain(state.position)
    }

    open spec fn slot(&self, state: ExtendedState) -> nat {
        (state.position.0 * self.tiles.cols() + state.position.1) as nat
    }

    open spec fn moves(&self, state: ExtendedState) -> Seq<(ExtendedState, u64)> {
        pipes_around(self.tiles, state.position, 4).map_values(
            |next: Coordinate| (plain(next), 1u64),
        )
    }

    open spec fn step_bound(&self) -> nat {
        1
    }

    proof fn lemma_sizes(&self) {
        self.tiles.lemma_area_fits();
        assert(self.slots() * 1 == self.slots()) by (nonlinear_arith);
    }

    proof fn lemma_slot_in_range(&self, state: ExtendedState) {
        self.tiles.lemma_area_fits();
        lemma_flat_index_in_range(
            state.position.0 as int,
            state.position.1 as int,
            self.tiles.rows() as int,
            self.tiles.cols() as int,
        );
    }

    proof fn lemma_slot_injective(&self, a: ExtendedState, b: ExtendedState) {
        self.lemma_slot_in_range(a);
        self.lemma_slot_in_range(b);
        lemma_flat_index_injective(
            a.position.0 as int,
            a.position.1 as int,
            b.position.0 as int,
            b.position.1 as int,
            self.tiles.cols() as int,
        );
    }

    proof fn lemma_moves_valid(&self, state: ExtendedState, i: int) {
        lemma_pipes_around(self.tiles, state.position, 4, i);
    }

    fn table_size(&self) -> (size: usize) {
        proof {
            self.tiles.lemma_area_fits();
        }
        self.tiles.cells().len()
    }

    fn admits(&self, state: &ExtendedState) -> (ok: bool) {
        self.tiles.in_bounds(state.position) && state.heading.is_none() && state.run_length == 0
    }

    fn key(&self, state: &ExtendedState) -> (k: usize) {
        proof {
            self.lemma_slot_in_range(*state);
            self.tiles.lemma_area_fits();
        }
        state.position.0 as usize * self.tiles.width() + state.position.1 as usize
    }

    fn expand(&self, state: &ExtendedState) -> (out: Vec<(ExtendedState, u64)>) {
        let around = adjacent_pipes(self.tiles, state.position);
        let mut out: Vec<(ExtendedState, u64)> = Vec::new();
        let mut i: usize = 0;
        while i < around.len()
            invariant
                i <= around@.len(),
                out@ == around@.take(i as int).map_values(|next: Coordinate| (plain(next), 1u64)),
            decreases around@.len() - i,
        {
            out.push((ExtendedState::at(around[i]), 1));
            assert(around@.take(i + 1) =~= around@.take(i as int).push(around@[i as int]));
            assert(out@ =~= around@.take(i + 1).map_values(
                |next: Coordinate| (plain(next), 1u64),
            ));
            i += 1;
        }
        assert(around@.take(i as int) =~= around@);
        out
    }
}

/// Whether `top` is the greatest cost that `costs` holds.
pub open spec fn is_greatest(costs: Seq<Option<u64>>, top: u64) -> bool {
    &&& exists|k: int| 0 <= k < costs.len() && costs[k] == Some(top)
    &&& forall|k: int| 0 <= k < costs.len() && costs[k] is Some ==> costs[k]->0 <= top
}

/// The distance from `start` to every tile that the pipes connect it with,
/// and the greatest of those distances.
///
/// The second part holds, for every tile, the least number of steps along
/// connected pipes that lead from `start` to it, and `None` for the tiles
/// that no such path reaches.
pub fn shortest_path(tiles: &Surface<char>, start: Coordinate) -> (out: (
    u64,
    Surface<Option<u64>>,
))
    requires
        tiles.wf(),
        tiles.contains(start),
    ensures
        out.1.wf(),
        out.1.rows() == tiles.rows(),
        out.1.cols() == tiles.cols(),
        forall|pos: Coordinate|
            tiles.contains(pos) ==> match #[trigger] out.1.at(pos) {
                Some(steps) => least_cost(
                    &PipeRule { tiles },
                    plain(start),
                    plain(pos),
                    steps as int,
                ),
                None => !reachable(&PipeRule { tiles }, plain(start), plain(pos)),
            },
        is_greatest(out.1.flat(), out.0),
{
    let rule = PipeRule { tiles };
    let origin = ExtendedState::at(start);
    let table = cost_field(&rule, origin);
    let costs = table.into_costs();
    proof {
        rule.lemma_slot_in_range(origin);
        assert(recorded(&rule, costs@, origin) is Some) by {
            crate::rule::lemma_start_reached(&rule, origin);
            assert(reachable(&rule, origin, origin));
        }
    }
    let mut top: u64 = 0;
    let mut seen: bool = false;
    let mut k: usize = 0;
    while k < costs.len()
        invariant
            k <= costs@.len(),
            seen ==> exists|j: int| 0 <= j < k && costs@[j] == Some(top),
            !seen ==> forall|j: int| 0 <= j < k ==> costs@[j] is None,
            forall|j: int| 0 <= j < k && costs@[j] is Some ==> costs@[j]->0 <= top,
        decreases costs@.len() - k,
    {
        match costs[k] {
            Some(steps) => {
                if !seen || steps > top {
                    top = steps;
                    seen = true;
                }
            },
            None => {},
        }
        k += 1;
    }
    proof {
        tiles.lemma_area_fits();
        assert(costs@[rule.slot(origin) as int] is Some);
    }
    let field = Surface::from_cells(costs, tiles.height(), tiles.width());
    proof {
        assert forall|pos: Coordinate| tiles.contains(pos) implies match #[trigger] field.at(pos) {
            Some(steps) => least_cost(&rule, plain(start), plain(pos), steps as int),
            None => !reachable(&rule, plain(start), plain(pos)),
        } by {
            assert(rule.valid(plain(pos)));
            assert(field.at(pos) == recorded(&rule, field.flat(), plain(pos)));
        }
    }
    (top, field)
}

/// The loop on its own: the symbol of every tile that has a distance, and
/// `'.'` for every other tile.
pub fn loop_map(tiles: &Surface<char>, steps: &Surface<Option<u64>>) -> (out: Surface<char>)
    requires
        tiles.wf(),
        steps.wf(),
        steps.rows() == tiles.rows(),
        steps.cols() == tiles.cols(),
    ensures
        out.wf(),
        out.rows() == tiles.rows(),
        out.cols() == tiles.cols(),
        forall|k: int|
            0 <= k < out.flat().len() ==> #[trigger] out.flat()[k] == if steps.flat()[k] is None {
                '.'
            } else {
                tiles.flat()[k]
            },
{
    proof {
        tiles.lemma_area_fits();
        steps.lemma_area_fits();
    }
    let symbols = tiles.cells();
    let costs = steps.cells();
    let mut cells: Vec<char> = Vec::new();
    let mut k: usize = 0;
    while k < symbols.len()
        invariant
            k <= symbols@.len(),
            symbols@.len() == costs@.len(),
            cells@.len() == k,
            forall|j: int|
                0 <= j < k ==> #[trigger] cells@[j] == if costs@[j] is None {
                    '.'
                } else {
                    symbols@[j]
                },
        decreases symbols@.len() - k,
    {
        cells.push(if costs[k].is_none() { '.' } else { symbols[k] });
        k += 1;
    }
    Surface::from_cells(cells, tiles.height(), tiles.width())
}

/// The first tile in reading order that holds `'S'`.
pub fn find_start(tiles: &Surface<char>) -> (out: Option<Coordinate>)
    requires
        tiles.wf(),
    ensures
        out is None ==> forall|k: int| 0 <= k < tiles.flat().len() ==> tiles.flat()[k] != 'S',
        out matches Some(pos) ==> {
            &&& tiles.contains(pos)
            &&& tiles.at(pos) == 'S'
            &&& forall|k: int|
                0 <= k < pos.0 * tiles.cols() + pos.1 ==> tiles.flat()[k] != 'S'
        },
{
    proof {
        tiles.lemma_area_fits();
    }
    let width = tiles.width();
    let height = tiles.height();
    let symbols = tiles.cells();
    let mut r: usize = 0;
    while r < height
        invariant
            r <= height,
            tiles.wf(),
            height == tiles.rows(),
            width == tiles.cols(),
            symbols@ == tiles.flat(),
            symbols@.len() == height * width,
            height * width <= usize::MAX,
            height <= isize::MAX,
            width <= isize::MAX,
            forall|k: int| 0 <= k < r * width ==> symbols@[k] != 'S',
        decreases height - r,
    {
        let mut c: usize = 0;
        while c < width
            invariant
                c <= width,
                r < height,
                tiles.wf(),
                height == tiles.rows(),
                width == tiles.cols(),
                symbols@ == tiles.flat(),
                symbols@.len() == height * width,
                height * width <= usize::MAX,
                height <= isize::MAX,
                width <= isize::MAX,
                forall|k: int| 0 <= k < r * width + c ==> symbols@[k] != 'S',
            decreases width - c,
        {
            proof {
                lemma_flat_index_in_range(r as int, c as int, height as int, width as int);
            }
            if symbols[r * width + c] == 'S' {
                return Some((r as isize, c as isize));
            }
            c += 1;
        }
        proof {
            assert((r + 1) * width == r * width + width) by (nonlinear_arith);
        }
        r += 1;
    }
    None
}

} // verus!
