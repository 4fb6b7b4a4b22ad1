//! The boundary classifier: counts the cells that a closed loop of pipe
//! symbols encloses, row by row, by the parity of the loop crossings to the
//! left of each cell.

use crate::surface::{lemma_flat_index_in_range, Surface};
use vstd::prelude::*;

verus! {

/// Whether `symbol` may stand in a loop map: a pipe symbol, or `'.'` for a
/// cell that is not on the loop.
pub open spec fn loop_symbol(symbol: char) -> bool {
    symbol == '.' || symbol == '-' || symbol == '|' || symbol == 'L' || symbol == 'F' || symbol
        == '7' || symbol == 'J'
}

/// Whether every cell of `map` holds a loop symbol.
pub open spec fn loop_symbols_only(map: &Surface<char>) -> bool {
    forall|k: int| 0 <= k < map.flat().len() ==> loop_symbol(#[trigger] map.flat()[k])
}

/// The bend that is open just before column `k`: the nearest `'L'` or `'F'`
/// to the left with nothing but `'-'` in between.
pub open spec fn open_bend(row: Seq<char>, k: int) -> Option<char>
    decreases k,
{
    if k <= 0 {
        None
    } else if row[k - 1] == 'L' || row[k - 1] == 'F' {
        Some(row[k - 1])
    } else if row[k - 1] == '-' {
        open_bend(row, k - 1)
    } else {
        None
    }
}

/// Whether the symbol at column `k` counts as a crossing of the loop. A `'7'`
/// that closes an open `'L'`, and a `'J'` that closes an open `'F'`, do not:
/// with the bend they close they make one crossing, which the bend has
/// counted.
pub open spec fn crosses(row: Seq<char>, k: int) -> bool {
    ||| row[k] == '|'
    ||| row[k] == 'L'
    ||| row[k] == 'F'
    ||| row[k] == '7' && open_bend(row, k) != Some('L')
    ||| row[k] == 'J' && open_bend(row, k) != Some('F')
}

/// The number of crossings in the columns before `k`.
pub open spec fn crossings(row: Seq<char>, k: int) -> nat
    decreases k,
{
    if k <= 0 {
        0
    } else {
        crossings(row, k - 1) + if crosses(row, k - 1) {
            1nat
        } else {
            0nat
        }
    }
}

/// Whether the cell at column `k` is off the loop and inside it: an odd
/// number of crossings lies to its left.
pub open spec fn inside_at(row: Seq<char>, k: int) -> bool {
    row[k] == '.' && crossings(row, k) % 2 == 1
}

/// The number of inside cells in the columns before `k`.
pub open spec fn inside_before(row: Seq<char>, k: int) -> nat
    decreases k,
{
    if k <= 0 {
        0
    } else {
        inside_before(row, k - 1) + if inside_at(row, k - 1) {
            1nat
        } else {
            0nat
        }
    }
}

/// The number of inside cells in the rows before `r`.
pub open spec fn inside_above(map: &Surface<char>, r: int) -> nat
    decreases r,
{
    if r <= 0 {
        0
    } else {
        inside_above(map, r - 1) + inside_before(map.row(r - 1), map.cols() as int)
    }
}

/// The number of crossings and the number of inside cells before column `k`
/// are at most `k`.
pub proof fn lemma_row_counts_bounded(row: Seq<char>, k: int)
    requires
        0 <= k,
    ensures
        crossings(row, k) <= k,
        inside_before(row, k) <= k,
    decreases k,
{
    if k > 0 {
        lemma_row_counts_bounded(row, k - 1);
    }
}

/// The number of inside cells in the rows before `r` is at most the number
/// of cells in those rows.
pub proof fn lemma_inside_bounded(map: &Surface<char>, r: int)
    requires
        0 <= r,
    ensures
        inside_above(map, r) <= r * map.cols(),
    decreases r,
{
    if r > 0 {
        lemma_inside_bounded(map, r - 1);
        lemma_row_counts_bounded(map.row(r - 1), map.cols() as int);
        assert(r * map.cols() == (r - 1) * map.cols() + map.cols()) by (nonlinear_arith);
    } else {
        assert(0 * map.cols() == 0) by (nonlinear_arith);
    }
}

/// Behind a bend and a run of `'-'` the bend is still open, and the run has
/// added no crossing.
proof fn lemma_run_keeps_bend(row: Seq<char>, a: int, k: int)
    requires
        0 <= a < k <= row.len(),
        row[a] == 'L' || row[a] == 'F',
        forall|j: int| a < j < k ==> row[j] == '-',
    ensures
        open_bend(row, k) == Some(row[a]),
        crossings(row, k) == crossings(row, a) + 1,
    decreases k - a,
{
    if k > a + 1 {
        lemma_run_keeps_bend(row, a, k - 1);
    }
}

/// A bend that turns back across the row, `L` with `7` or `F` with `J`,
/// makes one crossing with the bend it closes, as a single `'|'` would; a
/// bend that turns back to the side it came from, `L` with `J` or `F` with
/// `7`, makes two, which leaves the parity as it was.
pub proof fn lemma_bend_pair(row: Seq<char>, a: int, b: int)
    requires
        0 <= a < b < row.len(),
        row[a] == 'L' || row[a] == 'F',
        row[b] == '7' || row[b] == 'J',
        forall|k: int| a < k < b ==> row[k] == '-',
    ensures
        crossings(row, b + 1) == crossings(row, a) + if (row[a] == 'L') == (row[b] == '7') {
            1nat
        } else {
            2nat
        },
        open_bend(row, b + 1) is None,
{
    lemma_run_keeps_bend(row, a, b);
}

/// Whether every cell of `map` holds a loop symbol.
pub fn is_loop_map(map: &Surface<char>) -> (ok: bool)
    ensures
        ok == loop_symbols_only(map),
{
    let cells = map.cells();
    let mut k: usize = 0;
    while k < cells.len()
        invariant
            k <= cells@.len(),
            cells@ == map.flat(),
            forall|j: int| 0 <= j < k ==> loop_symbol(#[trigger] cells@[j]),
        decreases cells@.len() - k,
    {
        let c = cells[k];
        if !(c == '.' || c == '-' || c == '|' || c == 'L' || c == 'F' || c == '7' || c == 'J') {
            assert(!loop_symbol(map.flat()[k as int]));
            return false;
        }
        k += 1;
    }
    true
}

/// The number of cells that the loop encloses.
///
/// Each row is scanned from the left with a count of the crossings so far.
/// A cell that is off the loop is inside when that count is odd.
pub fn get_inside_count(loop_map: &Surface<char>) -> (count: u64)
    requires
        loop_map.wf(),
        loop_symbols_only(loop_map),
    ensures
        count == inside_above(loop_map, loop_map.rows() as int),
{
    proof {
        loop_map.lemma_area_fits();
    }
    let height = loop_map.height();
    let width = loop_map.width();
    let cells = loop_map.cells();
    let mut count: u64 = 0;
    let mut y: usize = 0;
    while y < height
        invariant
            y <= height,
            height == loop_map.rows(),
            width == loop_map.cols(),
            cells@ == loop_map.flat(),
            cells@.len() == height * width,
            height * width <= usize::MAX,
            count == inside_above(loop_map, y as int),
        decreases height - y,
    {
        let ghost row = loop_map.row(y as int);
        let mut intersections: u64 = 0;
        let mut prev: Option<char> = None;
        let mut inside: u64 = 0;
        let mut x: usize = 0;
        proof {
            lemma_inside_bounded(loop_map, y as int);
        }
        while x < width
            invariant
                x <= width,
                y < height,
                height == loop_map.rows(),
                width == loop_map.cols(),
                cells@ == loop_map.flat(),
                cells@.len() == height * width,
                height * width <= usize::MAX,
                row == loop_map.row(y as int),
                intersections == crossings(row, x as int),
                prev == open_bend(row, x as int),
                inside == inside_before(row, x as int),
                count == inside_above(loop_map, y as int),
                count <= y * width,
            decreases width - x,
        {
            proof {
                lemma_flat_index_in_range(y as int, x as int, height as int, width as int);
                lemma_row_counts_bounded(row, x as int);
                assert(row[x as int] == cells@[y * width + x]);
            }
            let c = cells[y * width + x];
            if c == '.' {
                inside = inside + intersections % 2;
            } else if c == '|' || c == 'L' || c == 'F' {
                intersections = intersections + 1;
            } else if c == '7' {
                if !is_bend(prev, 'L') {
                    intersections = intersections + 1;
                }
            } else if c == 'J' {
                if !is_bend(prev, 'F') {
                    intersections = intersections + 1;
                }
            }
            prev = if c == 'L' || c == 'F' {
                Some(c)
            } else if c == '-' {
                prev
            } else {
                None
            };
            x += 1;
        }
        proof {
            lemma_row_counts_bounded(row, width as int);
            assert((y + 1) * width == y * width + width) by (nonlinear_arith);
            assert((y + 1) * width <= height * width) by (nonlinear_arith)
                requires
                    y + 1 <= height,
            ;
        }
        count = count + inside;
        y += 1;
    }
    count
}

/// Whether `bend` is the open bend `symbol`.
fn is_bend(bend: Option<char>, symbol: char) -> (same: bool)
    ensures
        same == (bend == Some(symbol)),
{
    match bend {
        Some(c) => c == symbol,
        None => false,
    }
}

} // verus!
