//! Patterns of ash and rock: the line along which a pattern mirrors itself,
//! with or without one smudged cell.

use crate::surface::{lemma_flat_index_in_range, Surface};
use vstd::prelude::*;

verus! {

/// The number of pairs of rows that face each other across the line below
/// row `r`: as many as there are rows on the shorter side.
pub open spec fn facing_pairs(map: &Surface<char>, r: int) -> int {
    if r + 1 <= map.rows() - 1 - r {
        r + 1
    } else {
        map.rows() - 1 - r
    }
}

/// The number of the first `n` columns in which rows `a` and `b` differ.
pub open spec fn row_differences(map: &Surface<char>, a: int, b: int, n: int) -> nat
    decreases n,
{
    if n <= 0 {
        0
    } else {
        row_differences(map, a, b, n - 1) + if map.cell(a, n - 1) != map.cell(b, n - 1) {
            1nat
        } else {
            0nat
        }
    }
}

/// The number of cells in which the first `d` pairs of rows that face each
/// other across the line below row `r` differ.
pub open spec fn smudges(map: &Surface<char>, r: int, d: int) -> nat
    decreases d,
{
    if d <= 0 {
        0
    } else {
        smudges(map, r, d - 1) + row_differences(map, r - (d - 1), r + d, map.cols() as int)
    }
}

/// At most `n` of the first `n` columns differ.
pub proof fn lemma_differences_bounded(map: &Surface<char>, a: int, b: int, n: int)
    requires
        0 <= n,
    ensures
        row_differences(map, a, b, n) <= n,
    decreases n,
{
    if n > 0 {
        lemma_differences_bounded(map, a, b, n - 1);
    }
}

/// More pairs of rows do not differ in fewer cells.
pub proof fn lemma_smudges_grow(map: &Surface<char>, r: int, d: int, e: int)
    requires
        0 <= d <= e,
    ensures
        smudges(map, r, d) <= smudges(map, r, e),
    decreases e - d,
{
    if d < e {
        lemma_smudges_grow(map, r, d, e - 1);
    }
}

/// The number of columns in which rows `a` and `b` differ.
fn count_differences(map: &Surface<char>, a: usize, b: usize) -> (out: usize)
    requires
        map.wf(),
        a < map.rows(),
        b < map.rows(),
    ensures
        out == row_differences(map, a as int, b as int, map.cols() as int),
{
    proof {
        map.lemma_area_fits();
    }
    let width = map.width();
    let cells = map.cells();
    let mut count: usize = 0;
    let mut c: usize = 0;
    while c < width
        invariant
            c <= width,
            width == map.cols(),
            a < map.rows(),
            b < map.rows(),
            cells@ == map.flat(),
            cells@.len() == map.rows() * map.cols(),
            map.rows() * map.cols() <= usize::MAX,
            count == row_differences(map, a as int, b as int, c as int),
            count <= c,
        decreases width - c,
    {
        proof {
            lemma_flat_index_in_range(a as int, c as int, map.rows() as int, width as int);
            lemma_flat_index_in_range(b as int, c as int, map.rows() as int, width as int);
        }
        if cells[a * width + c] != cells[b * width + c] {
            count += 1;
        }
        c += 1;
    }
    count
}

/// A way of telling whether a pattern folds along the line below a row.
pub trait Score {
    /// Whether the pattern folds along the line below row `row`.
    spec fn folds_at(&self, map: &Surface<char>, row: int) -> bool;

    /// Whether the pattern folds along the line below row `row`.
    fn valid_fold_row(&self, map: &Surface<char>, row: usize) -> (out: bool)
        requires
            map.wf(),
            row < map.rows(),
        ensures
            out == self.folds_at(map, row as int),
    ;
}

/// The first of the first `n` rows below which the pattern folds.
pub open spec fn first_fold<S: Score>(scorer: &S, map: &Surface<char>, n: int) -> Option<int>
    decreases n,
{
    if n <= 0 {
        None
    } else {
        match first_fold(scorer, map, n - 1) {
            Some(r) => Some(r),
            None => if scorer.folds_at(map, n - 1) {
                Some(n - 1)
            } else {
                None
            },
        }
    }
}

/// What `first_fold` finds lies among the first `n` rows, and later rows do
/// not change it.
pub proof fn lemma_first_fold<S: Score>(scorer: &S, map: &Surface<char>, n: int, m: int)
    requires
        0 <= n <= m,
    ensures
        first_fold(scorer, map, n) matches Some(r) ==> 0 <= r < n && first_fold(scorer, map, m)
            == Some(r),
    decreases m,
{
    if n < m {
        lemma_first_fold(scorer, map, n, m - 1);
    } else if n > 0 {
        lemma_first_fold(scorer, map, n - 1, n - 1);
    }
}

/// The first row below which the pattern folds.
pub fn mirror_row<S: Score>(scorer: &S, map: &Surface<char>) -> (out: Option<usize>)
    requires
        map.wf(),
    ensures
        out is Some <==> first_fold(scorer, map, map.rows() as int) is Some,
        out matches Some(r) ==> first_fold(scorer, map, map.rows() as int) == Some(r as int) && r
            < map.rows(),
{
    let height = map.height();
    let mut r: usize = 0;
    while r < height
        invariant
            r <= height,
            height == map.rows(),
            map.wf(),
            first_fold(scorer, map, r as int) is None,
        decreases height - r,
    {
        if scorer.valid_fold_row(map, r) {
            proof {
                assert(first_fold(scorer, map, r + 1) == Some(r as int));
                lemma_first_fold(scorer, map, r + 1, height as int);
            }
            return Some(r);
        }
        r += 1;
    }
    None
}

/// The pattern with rows and columns exchanged.
pub fn transform(map: &Surface<char>) -> (out: Surface<char>)
    requires
        map.wf(),
    ensures
        out.wf(),
        out.rows() == map.cols(),
        out.cols() == map.rows(),
        forall|r: int, c: int|
            0 <= r < out.rows() && 0 <= c < out.cols() ==> #[trigger] out.cell(r, c) == map.cell(
                c,
                r,
            ),
{
    proof {
        map.lemma_area_fits();
    }
    let height = map.height();
    let width = map.width();
    let cells = map.cells();
    let mut turned: Vec<char> = Vec::new();
    let mut x: usize = 0;
    while x < width
        invariant
            x <= width,
            height == map.rows(),
            width == map.cols(),
            0 < height,
            cells@ == map.flat(),
            cells@.len() == height * width,
            height * width <= usize::MAX,
            turned@.len() == x * height,
            forall|i: int, j: int|
                0 <= i < x && 0 <= j < height ==> turned@[i * height + j] == #[trigger] map.cell(
                    j,
                    i,
                ),
        decreases width - x,
    {
        let mut y: usize = 0;
        while y < height
            invariant
                y <= height,
                x < width,
                height == map.rows(),
                width == map.cols(),
                0 < height,
                cells@ == map.flat(),
                cells@.len() == height * width,
                height * width <= usize::MAX,
                turned@.len() == x * height + y,
                forall|i: int, j: int|
                    0 <= i < x && 0 <= j < height ==> turned@[i * height + j]
                        == #[trigger] map.cell(j, i),
                forall|j: int| 0 <= j < y ==> turned@[x * height + j] == #[trigger] map.cell(
                    j,
                    x as int,
                ),
            decreases height - y,
        {
            proof {
                lemma_flat_index_in_range(y as int, x as int, height as int, width as int);
            }
            let ghost before = turned@;
            turned.push(cells[y * width + x]);
            proof {
                assert forall|i: int, j: int| 0 <= i < x && 0 <= j < height implies turned@[i
                    * height + j] == #[trigger] map.cell(j, i) by {
                    lemma_flat_index_in_range(i, j, x as int, height as int);
                    assert(before[i * height + j] == map.cell(j, i));
                }
            }
            y += 1;
        }
        proof {
            assert((x + 1) * height == x * height + height) by (nonlinear_arith);
        }
        x += 1;
    }
    proof {
        assert(width * height == height * width) by (nonlinear_arith);
    }
    let out = Surface::from_cells(turned, width, height);
    proof {
        assert forall|r: int, c: int|
            0 <= r < out.rows() && 0 <= c < out.cols() implies #[trigger] out.cell(r, c)
            == map.cell(c, r) by {
            assert(turned@[r * height + c] == map.cell(c, r));
        }
    }
    out
}

/// The score of a pattern: a hundred for every row above a horizontal line
/// of reflection, or else one for every column to the left of a vertical
/// line. `None` when the pattern has neither, or the score leaves `usize`.
pub fn score<S: Score>(scorer: &S, map: &Surface<char>) -> (out: Option<usize>)
    requires
        map.wf(),
    ensures
        match first_fold(scorer, map, map.rows() as int) {
            Some(r) => out == if (r + 1) * 100 <= usize::MAX {
                Some(((r + 1) * 100) as usize)
            } else {
                None
            },
            None => exists|turned: Surface<char>|
                #![trigger first_fold(scorer, &turned, turned.rows() as int)]
                is_turned(map, &turned) && out == match first_fold(
                    scorer,
                    &turned,
                    turned.rows() as int,
                ) {
                    Some(c) => Some((c + 1) as usize),
                    None => None,
                },
        },
{
    proof {
        map.lemma_area_fits();
    }
    match mirror_row(scorer, map) {
        Some(v) => (v + 1).checked_mul(100),
        None => {
            let turned = transform(map);
            proof {
                turned.lemma_area_fits();
                assert(is_turned(map, &turned));
            }
            match mirror_row(scorer, &turned) {
                Some(v) => Some(v + 1),
                None => None,
            }
        },
    }
}

/// Whether `turned` is `map` with rows and columns exchanged.
pub open spec fn is_turned(map: &Surface<char>, turned: &Surface<char>) -> bool {
    &&& turned.wf()
    &&& turned.rows() == map.cols()
    &&& turned.cols() == map.rows()
    &&& forall|r: int, c: int|
        0 <= r < turned.rows() && 0 <= c < turned.cols() ==> #[trigger] turned.cell(r, c)
            == map.cell(c, r)
}

/// Folds a pattern where the two sides are exact mirror images.
#[derive(Clone, Copy, Eq, PartialEq, Debug)]
pub struct Part1 {}

/// Folds a pattern where the two sides are mirror images but for one cell.
#[derive(Clone, Copy, Eq, PartialEq, Debug)]
pub struct Part2 {}

impl Score for Part1 {
    /// The line below `row` has rows on both sides, and no two rows that
    /// face each other across it differ.
    open spec fn folds_at(&self, map: &Surface<char>, row: int) -> bool {
        facing_pairs(map, row) > 0 && smudges(map, row, facing_pairs(map, row)) == 0
    }

    fn valid_fold_row(&self, map: &Surface<char>, row: usize) -> (out: bool) {
        let height = map.height();
        let mut dist: usize = 0;
        proof {
            map.lemma_area_fits();
        }
        loop
            invariant
                map.wf(),
                height == map.rows(),
                row < height,
                height <= isize::MAX,
                dist <= facing_pairs(map, row as int),
                smudges(map, row as int, dist as int) == 0,
            ensures
                dist == facing_pairs(map, row as int),
                smudges(map, row as int, dist as int) == 0,
            decreases height - dist,
        {
            if dist > row || row + dist + 1 >= height {
                break ;
            }
            if count_differences(map, row - dist, row + dist + 1) != 0 {
                proof {
                    lemma_smudges_grow(map, row as int, dist + 1, facing_pairs(map, row as int));
                }
                return false;
            }
            dist += 1;
        }
        dist > 0
    }
}

impl Score for Part2 {
    /// The line below `row` has rows on both sides, and the rows that face
    /// each other across it differ in exactly one cell.
    open spec fn folds_at(&self, map: &Surface<char>, row: int) -> bool {
        facing_pairs(map, row) > 0 && smudges(map, row, facing_pairs(map, row)) == 1
    }

    fn valid_fold_row(&self, map: &Surface<char>, row: usize) -> (out: bool) {
        let height = map.height();
        let mut dist: usize = 0;
        let mut diffcount: usize = 0;
        proof {
            map.lemma_area_fits();
        }
        loop
            invariant
                map.wf(),
                height == map.rows(),
                row < height,
                height <= isize::MAX,
                dist <= facing_pairs(map, row as int),
                diffcount == smudges(map, row as int, dist as int),
                diffcount <= 1,
            ensures
                dist == facing_pairs(map, row as int),
                diffcount == smudges(map, row as int, dist as int),
            decreases height - dist,
        {
            if dist > row || row + dist + 1 >= height {
                break ;
            }
            let more = count_differences(map, row - dist, row + dist + 1);
            proof {
                lemma_differences_bounded(
                    map,
                    row - dist,
                    row + dist + 1,
                    map.cols() as int,
                );
            }
            if more > 1 || diffcount + more > 1 {
                proof {
                    lemma_smudges_grow(map, row as int, dist + 1, facing_pairs(map, row as int));
                }
                return false;
            }
            diffcount = diffcount + more;
            dist += 1;
        }
        dist > 0 && diffcount == 1
    }
}

} // verus!
