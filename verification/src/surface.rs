//! Rectangular grids of cell values with bounds-checked lookup.

use crate::compass::{neighbors, neighbors_of, Coordinate};
use vstd::prelude::*;

verus! {

/// The ways a query can fail.
#[derive(Clone, Copy, Debug, PartialEq, Eq, Structural)]
pub enum EngineError {
    /// The rows handed to a surface are empty or differ in length.
    MalformedGrid,
    /// The frontier ran dry before any goal cell was reached.
    Unreachable,
    /// A transition rule was configured with bounds it cannot work with.
    InvalidParameters,
}

/// `row * width + col` stays below `height * width` inside the grid.
pub proof fn lemma_flat_index_in_range(row: int, col: int, height: int, width: int)
    requires
        0 <= row < height,
        0 <= col < width,
    ensures
        0 <= row * width + col < height * width,
        row * width + col >= row * width,
{
    assert(row * width >= 0) by (nonlinear_arith)
        requires
            row >= 0,
            width >= 0,
    ;
    assert((row + 1) * width <= height * width) by (nonlinear_arith)
        requires
            row + 1 <= height,
            width >= 0,
    ;
    assert((row + 1) * width == row * width + width) by (nonlinear_arith);
}

/// Two in-range pairs with the same flat index are the same pair.
pub proof fn lemma_flat_index_injective(r1: int, c1: int, r2: int, c2: int, width: int)
    requires
        0 <= c1 < width,
        0 <= c2 < width,
        r1 * width + c1 == r2 * width + c2,
    ensures
        r1 == r2,
        c1 == c2,
{
    if r1 < r2 {
        assert((r1 + 1) * width <= r2 * width) by (nonlinear_arith)
            requires
                r1 + 1 <= r2,
                width >= 0,
        ;
        assert((r1 + 1) * width == r1 * width + width) by (nonlinear_arith);
    } else if r2 < r1 {
        assert((r2 + 1) * width <= r1 * width) by (nonlinear_arith)
            requires
                r2 + 1 <= r1,
                width >= 0,
        ;
        assert((r2 + 1) * width == r2 * width + width) by (nonlinear_arith);
    }
}

/// A place in cells laid out row after row is the cell of its row and its
/// column.
pub proof fn lemma_flat_index_split(k: int, rows: int, cols: int)
    requires
        0 <= k < rows * cols,
        0 < cols,
    ensures
        0 <= k / cols < rows,
        0 <= k % cols < cols,
        (k / cols) * cols + k % cols == k,
{
    vstd::arithmetic::div_mod::lemma_fundamental_div_mod(k, cols);
    vstd::arithmetic::div_mod::lemma_mod_pos_bound(k, cols);
    let q = k / cols;
    assert(q * cols == cols * q) by (nonlinear_arith);
    if q >= rows {
        assert(q * cols >= rows * cols) by (nonlinear_arith)
            requires
                q >= rows,
                cols > 0,
        ;
    }
    if q < 0 {
        assert(q * cols <= -cols) by (nonlinear_arith)
            requires
                q <= -1,
                cols > 0,
        ;
    }
}

/// An immutable rectangular table of cell values, stored row after row in
/// one flat vector.
pub struct Surface<T> {
    cells: Vec<T>,
    height: usize,
    width: usize,
}

/// Whether `rows` is a non-empty rectangle: at least one row, at least one
/// column, every row as long as the first, and no more rows or columns than
/// an `isize` coordinate can address.
pub open spec fn rectangular<T>(rows: Seq<Vec<T>>) -> bool {
    &&& 0 < rows.len() <= isize::MAX
    &&& 0 < rows[0]@.len() <= isize::MAX
    &&& forall|i: int| 0 <= i < rows.len() ==> (#[trigger] rows[i])@.len() == rows[0]@.len()
}

impl<T: Copy> Surface<T> {
    /// The representation invariant: a positive height and width that
    /// `isize` coordinates can address, and exactly `height * width` stored
    /// cells.
    pub closed spec fn wf(&self) -> bool {
        &&& 0 < self.height <= isize::MAX
        &&& 0 < self.width <= isize::MAX
        &&& self.cells@.len() == self.height * self.width
    }

    /// Number of rows.
    pub closed spec fn rows(&self) -> nat {
        self.height as nat
    }

    /// Number of columns.
    pub closed spec fn cols(&self) -> nat {
        self.width as nat
    }

    /// The cells, row after row.
    pub closed spec fn flat(&self) -> Seq<T> {
        self.cells@
    }

    /// The value stored at row `r`, column `c`.
    pub open spec fn cell(&self, r: int, c: int) -> T {
        self.flat()[r * self.cols() + c]
    }

    /// The value stored at `pos`.
    pub open spec fn at(&self, pos: Coordinate) -> T {
        self.cell(pos.0 as int, pos.1 as int)
    }

    /// Row `r` as a sequence of cells.
    pub open spec fn row(&self, r: int) -> Seq<T> {
        Seq::new(self.cols(), |c: int| self.cell(r, c))
    }

    /// Whether `pos` lies inside `[0, rows) x [0, cols)`.
    pub open spec fn contains(&self, pos: Coordinate) -> bool {
        0 <= pos.0 < self.rows() && 0 <= pos.1 < self.cols()
    }

    /// The model of `value_at`: the cell at `pos`, or `None` outside the grid.
    pub open spec fn lookup(&self, pos: Coordinate) -> Option<T> {
        if self.contains(pos) {
            Some(self.cell(pos.0 as int, pos.1 as int))
        } else {
            None
        }
    }

    /// The number of cells fits in `usize`.
    pub proof fn lemma_area_fits(&self)
        requires
            self.wf(),
        ensures
            self.rows() > 0,
            self.cols() > 0,
            self.rows() * self.cols() <= usize::MAX,
            self.rows() <= isize::MAX,
            self.cols() <= isize::MAX,
            self.flat().len() == self.rows() * self.cols(),
    {
        assert(self.cells.len() == self.cells@.len());
    }

    /// Builds a surface from rows of cells.
    pub fn new(rows: Vec<Vec<T>>) -> (out: Result<Surface<T>, EngineError>)
        ensures
            out is Ok <==> rectangular(rows@),
            out matches Err(e) ==> e == EngineError::MalformedGrid,
            out matches Ok(s) ==> {
                &&& s.wf()
                &&& s.rows() == rows@.len()
                &&& s.cols() == rows@[0]@.len()
                &&& forall|r: int, c: int|
                    0 <= r < s.rows() && 0 <= c < s.cols() ==> #[trigger] s.cell(r, c)
                        == rows@[r]@[c]
            },
    {
        let height = rows.len();
        if height == 0 || height > isize::MAX as usize {
            return Err(EngineError::MalformedGrid);
        }
        let width = rows[0].len();
        if width == 0 || width > isize::MAX as usize {
            return Err(EngineError::MalformedGrid);
        }
        let mut cells: Vec<T> = Vec::new();
        let mut r: usize = 0;
        while r < height
            invariant
                0 <= r <= height,
                height == rows@.len(),
                width == rows@[0]@.len(),
                width > 0,
                cells@.len() == r * width,
                forall|i: int| 0 <= i < r ==> (#[trigger] rows@[i])@.len() == width,
                forall|i: int, j: int|
                    0 <= i < r && 0 <= j < width ==> cells@[i * width + j] == (
                    #[trigger] rows@[i]@[j]),
            decreases height - r,
        {
            let row = &rows[r];
            if row.len() != width {
                return Err(EngineError::MalformedGrid);
            }
            let mut c: usize = 0;
            while c < width
                invariant
                    0 <= c <= width,
                    0 <= r < height,
                    height == rows@.len(),
                    row@ == rows@[r as int]@,
                    row@.len() == width,
                    cells@.len() == r * width + c,
                    forall|i: int, j: int|
                        0 <= i < r && 0 <= j < width ==> cells@[i * width + j] == (
                        #[trigger] rows@[i]@[j]),
                    forall|j: int| 0 <= j < c ==> cells@[r * width + j] == #[trigger] row@[j],
                decreases width - c,
            {
                let ghost before = cells@;
                cells.push(row[c]);
                proof {
                    assert forall|i: int, j: int| 0 <= i < r && 0 <= j < width implies cells@[i
                        * width + j] == (#[trigger] rows@[i]@[j]) by {
                        lemma_flat_index_in_range(i, j, r as int, width as int);
                        assert(before[i * width + j] == rows@[i]@[j]);
                    }
                }
                c += 1;
            }
            proof {
                assert((r + 1) * width == r * width + width) by (nonlinear_arith);
            }
            r += 1;
        }
        Ok(Surface { cells, height, width })
    }

    /// Wraps cells that are already laid out row after row.
    pub fn from_cells(cells: Vec<T>, height: usize, width: usize) -> (out: Surface<T>)
        requires
            0 < height <= isize::MAX,
            0 < width <= isize::MAX,
            cells@.len() == height * width,
        ensures
            out.wf(),
            out.rows() == height,
            out.cols() == width,
            out.flat() == cells@,
    {
        Surface { cells, height, width }
    }

    /// The cells, row after row.
    pub fn cells(&self) -> (out: &Vec<T>)
        ensures
            out@ == self.flat(),
    {
        &self.cells
    }

    /// A copy of the surface with the cell at `pos` replaced by `value`.
    pub fn replaced(&self, pos: Coordinate, value: T) -> (out: Surface<T>)
        requires
            self.wf(),
            self.contains(pos),
        ensures
            out.wf(),
            out.rows() == self.rows(),
            out.cols() == self.cols(),
            out.flat() == self.flat().update(pos.0 * self.cols() + pos.1, value),
            out.cell(pos.0 as int, pos.1 as int) == value,
            forall|r: int, c: int|
                0 <= r < self.rows() && 0 <= c < self.cols() && (r, c) != (
                    pos.0 as int,
                    pos.1 as int,
                ) ==> #[trigger] out.cell(r, c) == self.cell(r, c),
    {
        let r = pos.0 as usize;
        let c = pos.1 as usize;
        proof {
            assert(self.cells.len() == self.cells@.len());
            lemma_flat_index_in_range(r as int, c as int, self.height as int, self.width as int);
        }
        let spot = r * self.width + c;
        let mut cells: Vec<T> = Vec::new();
        let mut k: usize = 0;
        while k < self.cells.len()
            invariant
                k <= self.cells@.len(),
                spot < self.cells@.len(),
                cells@.len() == k,
                forall|j: int|
                    0 <= j < k ==> cells@[j] == if j == spot {
                        value
                    } else {
                        self.cells@[j]
                    },
            decreases self.cells@.len() - k,
        {
            cells.push(if k == spot { value } else { self.cells[k] });
            k += 1;
        }
        assert(cells@ =~= self.cells@.update(spot as int, value));
        let out = Surface { cells, height: self.height, width: self.width };
        proof {
            assert forall|r2: int, c2: int|
                0 <= r2 < self.rows() && 0 <= c2 < self.cols() && (r2, c2) != (
                    pos.0 as int,
                    pos.1 as int,
                ) implies #[trigger] out.cell(r2, c2) == self.cell(r2, c2) by {
                lemma_flat_index_in_range(r2, c2, self.height as int, self.width as int);
                if r2 * self.width + c2 == r * self.width + c {
                    lemma_flat_index_injective(r2, c2, r as int, c as int, self.width as int);
                }
            }
        }
        out
    }

    /// Number of rows.
    pub fn height(&self) -> (h: usize)
        ensures
            h == self.rows(),
    {
        self.height
    }

    /// Number of columns.
    pub fn width(&self) -> (w: usize)
        ensures
            w == self.cols(),
    {
        self.width
    }

    /// Whether `pos` lies inside the grid.
    pub fn in_bounds(&self, pos: Coordinate) -> (b: bool)
        ensures
            b == self.contains(pos),
    {
        pos.0 >= 0 && pos.1 >= 0 && (pos.0 as usize) < self.height && (pos.1 as usize)
            < self.width
    }

    /// Up to four axis-aligned neighbours of `pos`, in visiting order. They
    /// are not filtered to the grid: that is left to the caller.
    pub fn neighbors(&self, pos: Coordinate) -> (out: Vec<Coordinate>)
        ensures
            out@ == neighbors_of(pos, 4),
    {
        neighbors(pos)
    }

    /// The cell at `pos`, or `None` for any coordinate outside the grid.
    pub fn value_at(&self, pos: Coordinate) -> (out: Option<T>)
        requires
            self.wf(),
        ensures
            out == self.lookup(pos),
    {
        if self.in_bounds(pos) {
            let r = pos.0 as usize;
            let c = pos.1 as usize;
            proof {
                assert(self.cells.len() == self.cells@.len());
                lemma_flat_index_in_range(r as int, c as int, self.height as int, self.width as int);
            }
            Some(self.cells[r * self.width + c])
        } else {
            None
        }
    }
}

} // verus!
