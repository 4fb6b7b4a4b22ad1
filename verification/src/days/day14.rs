//! Platforms of rolling rocks: tilting a platform so that its round rocks
//! roll north, turning it by a quarter, and the load on its north beams.

use crate::surface::{lemma_flat_index_in_range, lemma_flat_index_split, Surface};
use std::collections::HashMap;
use vstd::arithmetic::div_mod::lemma_fundamental_div_mod_converse;
use vstd::prelude::*;

verus! {

broadcast use vstd::std_specs::hash::group_hash_axioms;

/// A platform: round rocks `'O'`, cube rocks `'#'` and empty space.
pub struct Platform {
    pub map: Surface<char>,
}

/// The cell at row `y` and column `x` of cells that are laid out row after
/// row, `cols` to a row.
pub open spec fn cell_at(flat: Seq<char>, cols: int, y: int, x: int) -> char {
    flat[y * cols + x]
}

/// The first row of the stretch of column `x` that row `y` belongs to: the
/// row below the nearest cube rock above row `y`, or the first row.
pub open spec fn stretch_start(flat: Seq<char>, cols: int, x: int, y: int) -> int
    decreases y,
{
    if y <= 0 {
        0
    } else if cell_at(flat, cols, y - 1, x) == '#' {
        y
    } else {
        stretch_start(flat, cols, x, y - 1)
    }
}

/// The row of the nearest cube rock in column `x` at or below row `y`, or
/// the number of rows when there is none.
pub open spec fn stretch_end(flat: Seq<char>, rows: int, cols: int, x: int, y: int) -> int
    decreases rows - y,
{
    if y < 0 || y >= rows {
        rows
    } else if cell_at(flat, cols, y, x) == '#' {
        y
    } else {
        stretch_end(flat, rows, cols, x, y + 1)
    }
}

/// The number of round rocks in column `x` from row `a` up to row `b`.
pub open spec fn round_rocks(flat: Seq<char>, cols: int, x: int, a: int, b: int) -> int
    decreases b - a,
{
    if b <= a {
        0
    } else {
        round_rocks(flat, cols, x, a, b - 1) + if cell_at(flat, cols, b - 1, x) == 'O' {
            1int
        } else {
            0int
        }
    }
}

/// What the cell at row `y` and column `x` holds after a tilt to the north:
/// a cube rock stays; the round rocks of a stretch between cube rocks fill
/// its first rows; what a round rock leaves behind is empty; everything
/// else stays.
pub open spec fn tilted_at(flat: Seq<char>, rows: int, cols: int, y: int, x: int) -> char {
    let here = cell_at(flat, cols, y, x);
    let first = stretch_start(flat, cols, x, y);
    let last = stretch_end(flat, rows, cols, x, y);
    if here == '#' {
        '#'
    } else if y - first < round_rocks(flat, cols, x, first, last) {
        'O'
    } else if here == 'O' {
        '.'
    } else {
        here
    }
}

/// The cells of a platform after a tilt to the north.
pub open spec fn tilt_of(flat: Seq<char>, rows: int, cols: int) -> Seq<char> {
    Seq::new((rows * cols) as nat, |k: int| tilted_at(flat, rows, cols, k / cols, k % cols))
}

/// The cells of a platform after a quarter turn to the right: what was the
/// first column, read from the bottom, is the first row.
pub open spec fn rotate_of(flat: Seq<char>, rows: int, cols: int) -> Seq<char> {
    Seq::new((rows * cols) as nat, |k: int| cell_at(flat, cols, rows - 1 - k % rows, k / rows))
}

/// The load of the round rocks in the first `n` cells: for each the number
/// of rows from it to the south edge, its own row included.
pub open spec fn load_upto(flat: Seq<char>, rows: int, cols: int, n: int) -> int
    decreases n,
{
    if n <= 0 {
        0
    } else {
        load_upto(flat, rows, cols, n - 1) + if flat[n - 1] == 'O' {
            rows - (n - 1) / cols
        } else {
            0
        }
    }
}

/// Within a stretch without a cube rock the end of the stretch is the same
/// for every row.
proof fn lemma_stretch_end(flat: Seq<char>, rows: int, cols: int, x: int, y: int, end: int)
    requires
        0 <= y <= end <= rows,
        forall|r: int| y <= r < end ==> cell_at(flat, cols, r, x) != '#',
        end < rows ==> cell_at(flat, cols, end, x) == '#',
    ensures
        stretch_end(flat, rows, cols, x, y) == end,
    decreases end - y,
{
    if y < end {
        lemma_stretch_end(flat, rows, cols, x, y + 1, end);
    }
}

/// The load is never negative, and more cells do not carry less.
proof fn lemma_load_grows(flat: Seq<char>, rows: int, cols: int, n: int, m: int)
    requires
        0 <= n <= m <= rows * cols,
        0 < cols,
    ensures
        load_upto(flat, rows, cols, n) <= load_upto(flat, rows, cols, m),
    decreases m - n,
{
    if n < m {
        lemma_load_grows(flat, rows, cols, n, m - 1);
        assert((m - 1) / cols < rows) by {
            vstd::arithmetic::div_mod::lemma_fundamental_div_mod(m - 1, cols);
            vstd::arithmetic::div_mod::lemma_mod_pos_bound(m - 1, cols);
            let q = (m - 1) / cols;
            if q >= rows {
                assert(cols * q >= cols * rows) by (nonlinear_arith)
                    requires
                        q >= rows,
                        cols > 0,
                ;
                assert(cols * rows == rows * cols) by (nonlinear_arith);
            }
        }
    }
}

impl Platform {
    /// The invariant of a platform: its map is well formed.
    pub open spec fn wf(&self) -> bool {
        self.map.wf()
    }

    /// Tilts the platform so that every round rock rolls north as far as it
    /// can.
    pub fn tilt(&mut self)
        requires
            old(self).wf(),
        ensures
            final(self).wf(),
            final(self).map.rows() == old(self).map.rows(),
            final(self).map.cols() == old(self).map.cols(),
            final(self).map.flat() == tilt_of(
                old(self).map.flat(),
                old(self).map.rows() as int,
                old(self).map.cols() as int,
            ),
    {
        proof {
            self.map.lemma_area_fits();
        }
        let height = self.map.height();
        let width = self.map.width();
        let ghost orig = self.map.flat();
        let ghost rows = height as int;
        let ghost cols = width as int;
        let given = self.map.cells();
        let mut cells: Vec<char> = Vec::new();
        let mut k: usize = 0;
        while k < given.len()
            invariant
                k <= given@.len(),
                cells@ == given@.take(k as int),
            decreases given@.len() - k,
        {
            cells.push(given[k]);
            assert(given@.take(k + 1) =~= given@.take(k as int).push(given@[k as int]));
            k += 1;
        }
        assert(given@.take(k as int) =~= given@);
        let mut x: usize = 0;
        while x < width
            invariant
                x <= width,
                rows == height,
                cols == width,
                0 < height,
                0 < width,
                orig.len() == rows * cols,
                rows * cols <= usize::MAX,
                cells@.len() == orig.len(),
                forall|r: int, c: int|
                    0 <= r < rows && 0 <= c < cols ==> cell_at(cells@, cols, r, c) == if c < x {
                        tilted_at(orig, rows, cols, r, c)
                    } else {
                        #[trigger] cell_at(orig, cols, r, c)
                    },
            decreases width - x,
        {
            let mut block: usize = 0;
            let mut y: usize = 0;
            let ghost mut first: int = 0;
            while y < height
                invariant
                    y <= height,
                    x < width,
                    rows == height,
                    cols == width,
                    0 < height,
                    0 < width,
                    orig.len() == rows * cols,
                    rows * cols <= usize::MAX,
                    cells@.len() == orig.len(),
                    0 <= first <= block <= y,
                    block == first + round_rocks(orig, cols, x as int, first, y as int),
                    forall|r: int|
                        first <= r <= y ==> #[trigger] stretch_start(orig, cols, x as int, r)
                            == first,
                    forall|r: int|
                        first <= r < y ==> #[trigger] cell_at(orig, cols, r, x as int) != '#',
                    forall|r: int, c: int|
                        0 <= r < rows && 0 <= c < cols && c != x ==> cell_at(cells@, cols, r, c)
                            == if c < x {
                            tilted_at(orig, rows, cols, r, c)
                        } else {
                            #[trigger] cell_at(orig, cols, r, c)
                        },
                    forall|r: int|
                        y <= r < rows ==> cell_at(cells@, cols, r, x as int) == #[trigger] cell_at(
                            orig,
                            cols,
                            r,
                            x as int,
                        ),
                    forall|r: int|
                        0 <= r < first ==> #[trigger] cell_at(cells@, cols, r, x as int)
                            == tilted_at(orig, rows, cols, r, x as int),
                    forall|r: int|
                        first <= r < block ==> #[trigger] cell_at(cells@, cols, r, x as int) == 'O',
                    forall|r: int|
                        block <= r < y ==> #[trigger] cell_at(cells@, cols, r, x as int) == if cell_at(
                            orig,
                            cols,
                            r,
                            x as int,
                        ) == 'O' {
                            '.'
                        } else {
                            cell_at(orig, cols, r, x as int)
                        },
                decreases height - y,
            {
                proof {
                    lemma_flat_index_in_range(y as int, x as int, rows, cols);
                    lemma_flat_index_in_range(block as int, x as int, rows, cols);
                    assert(cell_at(cells@, cols, y as int, x as int) == cell_at(
                        orig,
                        cols,
                        y as int,
                        x as int,
                    ));
                }
                let ghost before = cells@;
                let ghost was = first;
                let here = cells[y * width + x];
                assert(here == cell_at(orig, cols, y as int, x as int));
                assert(stretch_start(orig, cols, x as int, y as int) == first);
                if here == 'O' && block < y {
                    cells.set(block * width + x, 'O');
                    cells.set(y * width + x, '.');
                    proof {
                        lemma_writes_stay_put(
                            before,
                            cells@,
                            rows,
                            cols,
                            x as int,
                            block as int,
                            y as int,
                        );
                    }
                    block += 1;
                } else if here == 'O' {
                    block = y + 1;
                } else if here == '#' {
                    proof {
                        assert forall|r: int| 0 <= r < y + 1 implies #[trigger] cell_at(
                            cells@,
                            cols,
                            r,
                            x as int,
                        ) == tilted_at(orig, rows, cols, r, x as int) by {
                            if first <= r < y {
                                lemma_stretch_end(orig, rows, cols, x as int, r, y as int);
                                assert(stretch_start(orig, cols, x as int, r) == first);
                            }
                        }
                        first = y + 1;
                    }
                    block = y + 1;
                }
                proof {
                    if here == '#' {
                        assert(first == y + 1);
                    } else {
                        assert(first == was);
                    }
                    assert(stretch_start(orig, cols, x as int, y + 1) == first);
                    assert(round_rocks(orig, cols, x as int, first, y + 1) == block - first);
                }
                y += 1;
            }
            proof {
                assert forall|r: int| 0 <= r < rows implies #[trigger] cell_at(
                    cells@,
                    cols,
                    r,
                    x as int,
                ) == tilted_at(orig, rows, cols, r, x as int) by {
                    if first <= r {
                        lemma_stretch_end(orig, rows, cols, x as int, r, rows);
                        assert(stretch_start(orig, cols, x as int, r) == first);
                    }
                }
            }
            x += 1;
        }
        proof {
            assert forall|k: int| 0 <= k < cells@.len() implies cells@[k] == tilt_of(
                orig,
                rows,
                cols,
            )[k] by {
                lemma_flat_index_split(k, rows, cols);
                assert(cell_at(cells@, cols, k / cols, k % cols) == tilted_at(
                    orig,
                    rows,
                    cols,
                    k / cols,
                    k % cols,
                ));
            }
            assert(cells@ =~= tilt_of(orig, rows, cols));
        }
        self.map = Surface::from_cells(cells, height, width);
    }

    /// Turns the platform by a quarter to the right.
    pub fn rotate(&mut self)
        requires
            old(self).wf(),
        ensures
            final(self).wf(),
            final(self).map.rows() == old(self).map.cols(),
            final(self).map.cols() == old(self).map.rows(),
            final(self).map.flat() == rotate_of(
                old(self).map.flat(),
                old(self).map.rows() as int,
                old(self).map.cols() as int,
            ),
    {
        proof {
            self.map.lemma_area_fits();
        }
        let height = self.map.height();
        let width = self.map.width();
        let ghost orig = self.map.flat();
        let ghost rows = height as int;
        let ghost cols = width as int;
        let given = self.map.cells();
        let mut cells: Vec<char> = Vec::new();
        let mut x: usize = 0;
        while x < width
            invariant
                x <= width,
                rows == height,
                cols == width,
                0 < height,
                0 < width,
                given@ == orig,
                orig.len() == rows * cols,
                rows * cols <= usize::MAX,
                cells@.len() == x * rows,
                forall|k: int|
                    0 <= k < cells@.len() ==> cells@[k] == #[trigger] rotate_of(
                        orig,
                        rows,
                        cols,
                    )[k],
            decreases width - x,
        {
            let mut j: usize = 0;
            while j < height
                invariant
                    j <= height,
                    x < width,
                    rows == height,
                    cols == width,
                    0 < height,
                    0 < width,
                    given@ == orig,
                    orig.len() == rows * cols,
                    rows * cols <= usize::MAX,
                    cells@.len() == x * rows + j,
                    forall|k: int|
                        0 <= k < cells@.len() ==> cells@[k] == #[trigger] rotate_of(
                            orig,
                            rows,
                            cols,
                        )[k],
                decreases height - j,
            {
                let y = height - 1 - j;
                proof {
                    lemma_flat_index_in_range(y as int, x as int, rows, cols);
                    lemma_flat_index_in_range(x as int, j as int, cols, rows);
                    lemma_fundamental_div_mod_converse(x * rows + j, rows, x as int, j as int);
                    assert(cols * rows == rows * cols) by (nonlinear_arith);
                }
                cells.push(given[y * width + x]);
                j += 1;
            }
            proof {
                assert((x + 1) * rows == x * rows + rows) by (nonlinear_arith);
            }
            x += 1;
        }
        proof {
            assert(cols * rows == rows * cols) by (nonlinear_arith);
            assert(cells@ =~= rotate_of(orig, rows, cols));
        }
        self.map = Surface::from_cells(cells, width, height);
    }

    /// The load on the north beams: for every round rock the number of rows
    /// from it to the south edge, its own row included. `None` when the
    /// load leaves `usize`.
    pub fn score(&self) -> (out: Option<usize>)
        requires
            self.wf(),
        ensures
            out matches Some(load) ==> load == load_upto(
                self.map.flat(),
                self.map.rows() as int,
                self.map.cols() as int,
                self.map.flat().len() as int,
            ),
            out is None ==> load_upto(
                self.map.flat(),
                self.map.rows() as int,
                self.map.cols() as int,
                self.map.flat().len() as int,
            ) > usize::MAX,
    {
        proof {
            self.map.lemma_area_fits();
        }
        let height = self.map.height();
        let width = self.map.width();
        let cells = self.map.cells();
        let ghost flat = self.map.flat();
        let ghost rows = height as int;
        let ghost cols = width as int;
        let mut total: usize = 0;
        let mut y: usize = 0;
        while y < height
            invariant
                y <= height,
                rows == height,
                cols == width,
                height == self.map.rows(),
                width == self.map.cols(),
                0 < width,
                cells@ == flat,
                flat == self.map.flat(),
                flat.len() == rows * cols,
                rows * cols <= usize::MAX,
                total == load_upto(flat, rows, cols, y * cols),
            decreases height - y,
        {
            let mut x: usize = 0;
            while x < width
                invariant
                    x <= width,
                    y < height,
                    rows == height,
                    cols == width,
                    height == self.map.rows(),
                    width == self.map.cols(),
                    0 < width,
                    cells@ == flat,
                    flat == self.map.flat(),
                    flat.len() == rows * cols,
                    rows * cols <= usize::MAX,
                    total == load_upto(flat, rows, cols, y * cols + x),
                decreases width - x,
            {
                proof {
                    lemma_flat_index_in_range(y as int, x as int, rows, cols);
                    lemma_fundamental_div_mod_converse(y * cols + x, cols, y as int, x as int);
                }
                if cells[y * width + x] == 'O' {
                    match total.checked_add(height - y) {
                        Some(t) => {
                            total = t;
                        },
                        None => {
                            proof {
                                assert(load_upto(flat, rows, cols, y * cols + x + 1) == total + (
                                rows - y));
                                lemma_load_grows(flat, rows, cols, y * cols + x + 1, rows * cols);
                            }
                            return None;
                        },
                    }
                }
                x += 1;
            }
            proof {
                assert((y + 1) * cols == y * cols + cols) by (nonlinear_arith);
            }
            y += 1;
        }
        Some(total)
    }
}

/// Writing two cells of column `x` leaves every other cell as it was.
proof fn lemma_writes_stay_put(
    before: Seq<char>,
    after: Seq<char>,
    rows: int,
    cols: int,
    x: int,
    a: int,
    b: int,
)
    requires
        0 <= a < rows,
        0 <= b < rows,
        0 <= x < cols,
        before.len() == rows * cols,
        after == before.update(a * cols + x, 'O').update(b * cols + x, '.'),
        a != b,
    ensures
        cell_at(after, cols, a, x) == 'O',
        cell_at(after, cols, b, x) == '.',
        forall|r: int, c: int|
            0 <= r < rows && 0 <= c < cols && !(c == x && (r == a || r == b)) ==> #[trigger] cell_at(
                after,
                cols,
                r,
                c,
            ) == cell_at(before, cols, r, c),
{
    lemma_flat_index_in_range(a, x, rows, cols);
    lemma_flat_index_in_range(b, x, rows, cols);
    if a * cols + x == b * cols + x {
        crate::surface::lemma_flat_index_injective(a, x, b, x, cols);
    }
    assert forall|r: int, c: int|
        0 <= r < rows && 0 <= c < cols && !(c == x && (r == a || r == b)) implies #[trigger] cell_at(
        after,
        cols,
        r,
        c,
    ) == cell_at(before, cols, r, c) by {
        lemma_flat_index_in_range(r, c, rows, cols);
        if r * cols + c == a * cols + x {
            crate::surface::lemma_flat_index_injective(r, c, a, x, cols);
        }
        if r * cols + c == b * cols + x {
            crate::surface::lemma_flat_index_injective(r, c, b, x, cols);
        }
    }
}

/// The cells after a tilt to the north and a quarter turn to the right of a
/// platform of `rows` rows and `cols` columns; the result has `cols` rows
/// and `rows` columns.
pub open spec fn quarter_of(flat: Seq<char>, rows: int, cols: int) -> Seq<char> {
    rotate_of(tilt_of(flat, rows, cols), rows, cols)
}

/// The cells after one spin cycle: four times a tilt and a quarter turn.
pub open spec fn cycle_of(flat: Seq<char>, rows: int, cols: int) -> Seq<char> {
    quarter_of(
        quarter_of(quarter_of(quarter_of(flat, rows, cols), cols, rows), rows, cols),
        cols,
        rows,
    )
}

/// The cells after `n` spin cycles.
pub open spec fn after_cycles(flat: Seq<char>, rows: int, cols: int, n: int) -> Seq<char>
    decreases n,
{
    if n <= 0 {
        flat
    } else {
        cycle_of(after_cycles(flat, rows, cols, n - 1), rows, cols)
    }
}

/// The load after `k + 1` spin cycles.
pub open spec fn reading(flat: Seq<char>, rows: int, cols: int, k: int) -> int {
    load_upto(after_cycles(flat, rows, cols, k + 1), rows, cols, rows * cols)
}

/// The loads after each of the first `n` spin cycles.
pub open spec fn readings(flat: Seq<char>, rows: int, cols: int, n: int) -> Seq<usize> {
    Seq::new(n as nat, |k: int| reading(flat, rows, cols, k) as usize)
}

/// How many rounds in a row must confirm the length of a loop before the
/// loop is checked.
pub open spec fn patience() -> int {
    100
}

/// The number of spin cycles whose load is asked for.
pub open spec fn target() -> int {
    1_000_000_000
}

/// What a round does to the length of the loop and to the count of rounds
/// that confirmed it, when the load `s` of round `r` was last seen in the
/// round that `last` names: a longer distance is the new length and resets
/// the count, any other distance adds to the count.
pub open spec fn noticed(last: Map<usize, usize>, size: int, calm: int, s: usize, r: int) -> (
    int,
    int,
) {
    if last.contains_key(s) {
        if r - last[s] > size {
            (r - last[s], 0)
        } else {
            (size, calm + 1)
        }
    } else {
        (size, calm)
    }
}

/// What is known before round `r`: the round in which each load was last
/// seen, the length of the loop, and the count of rounds that confirmed it.
pub open spec fn watch(scores: Seq<usize>, r: int) -> (Map<usize, usize>, int, int)
    decreases r,
{
    if r <= 0 {
        (Map::empty(), 0, 0)
    } else {
        let before = watch(scores, r - 1);
        let now = noticed(before.0, before.1, before.2, scores[r - 1], r - 1);
        (before.0.insert(scores[r - 1], (r - 1) as usize), now.0, now.1)
    }
}

/// Whether the last `size` loads up to round `r` repeat the `size` loads
/// before them, checked from round `r` backwards from place `i` on: `None`
/// when the loads before them do not reach back far enough.
pub open spec fn settles(scores: Seq<usize>, r: int, size: int, i: int) -> Option<bool>
    decreases size - i,
{
    if i >= size {
        Some(true)
    } else if r - i - size < 0 {
        None
    } else if scores[r - i] != scores[r - i - size] {
        Some(false)
    } else {
        settles(scores, r, size, i + 1)
    }
}

/// The load after `target` spin cycles, read off a loop of `size` loads
/// that ends with round `r`.
pub open spec fn read_off(scores: Seq<usize>, r: int, size: int) -> Option<usize> {
    if size <= 0 || target() - 1 - (r - size) < 0 {
        None
    } else {
        Some(scores[(r - size) + (target() - 1 - (r - size)) % size])
    }
}

/// What the rounds from `r` on find: the load after `target` spin cycles,
/// read off the first loop that has been confirmed for more than
/// `patience` rounds and that the loads bear out; `None` when the rounds run
/// out or a check reaches back before the first load.
pub open spec fn found_from(scores: Seq<usize>, r: int) -> Option<usize>
    decreases scores.len() - r,
{
    if r < 0 || r >= scores.len() {
        None
    } else {
        let before = watch(scores, r);
        let now = noticed(before.0, before.1, before.2, scores[r], r);
        if now.1 > patience() {
            match settles(scores, r, now.0, 0) {
                None => None,
                Some(true) => read_off(scores, r, now.0),
                Some(false) => found_from(scores, r + 1),
            }
        } else {
            found_from(scores, r + 1)
        }
    }
}

impl Platform {
    /// One spin cycle: four times a tilt to the north and a quarter turn to
    /// the right.
    pub fn cycle(&mut self)
        requires
            old(self).wf(),
        ensures
            final(self).wf(),
            final(self).map.rows() == old(self).map.rows(),
            final(self).map.cols() == old(self).map.cols(),
            final(self).map.flat() == cycle_of(
                old(self).map.flat(),
                old(self).map.rows() as int,
                old(self).map.cols() as int,
            ),
    {
        self.tilt();
        self.rotate();
        self.tilt();
        self.rotate();
        self.tilt();
        self.rotate();
        self.tilt();
        self.rotate();
    }
}

/// Whether the last `size` loads up to round `r` repeat the `size` loads
/// before them.
fn check_loop(scores: &Vec<usize>, r: usize, size: usize, Ghost(all): Ghost<Seq<usize>>) -> (out:
    Option<bool>)
    requires
        r < all.len(),
        scores@ == all.take(r + 1),
        size <= r,
    ensures
        out == settles(all, r as int, size as int, 0),
{
    let mut i: usize = 0;
    while i < size
        invariant
            i <= size <= r,
            r < all.len(),
            scores@ == all.take(r + 1),
            settles(all, r as int, size as int, 0) == settles(all, r as int, size as int, i as int),
        decreases size - i,
    {
        if size > r - i {
            return None;
        }
        proof {
            assert(scores@[r - i] == all[r - i]);
            assert(scores@[r - i - size] == all[r - i - size]);
        }
        if scores[r - i] != scores[r - i - size] {
            return Some(false);
        }
        i += 1;
    }
    Some(true)
}

/// The load after a thousand million spin cycles, found by spinning the
/// platform for at most `limit` cycles until its loads run in a loop.
///
/// Returns `None` when no loop is found within `limit` cycles, when a check
/// for a loop reaches back before the first load, or when a load leaves
/// `usize`.
pub fn spin(platform: &mut Platform, limit: usize) -> (out: Option<usize>)
    requires
        old(platform).wf(),
    ensures
        final(platform).wf(),
        out matches Some(load) ==> found_from(
            readings(
                old(platform).map.flat(),
                old(platform).map.rows() as int,
                old(platform).map.cols() as int,
                limit as int,
            ),
            0,
        ) == Some(load),
        out is None ==> found_from(
            readings(
                old(platform).map.flat(),
                old(platform).map.rows() as int,
                old(platform).map.cols() as int,
                limit as int,
            ),
            0,
        ) is None || exists|k: int|
            0 <= k < limit && #[trigger] reading(
                old(platform).map.flat(),
                old(platform).map.rows() as int,
                old(platform).map.cols() as int,
                k,
            ) > usize::MAX,
{
    let ghost orig = platform.map.flat();
    let ghost rows = platform.map.rows() as int;
    let ghost cols = platform.map.cols() as int;
    let ghost all = readings(orig, rows, cols, limit as int);
    let mut seen: HashMap<usize, usize> = HashMap::new();
    let mut scores: Vec<usize> = Vec::new();
    let mut loop_size: usize = 0;
    let mut calm: usize = 0;
    let mut r: usize = 0;
    proof {
        platform.map.lemma_area_fits();
    }
    while r < limit
        invariant
            r <= limit,
            platform.wf(),
            orig == old(platform).map.flat(),
            rows == old(platform).map.rows(),
            cols == old(platform).map.cols(),
            platform.map.rows() == rows,
            platform.map.cols() == cols,
            platform.map.flat().len() == rows * cols,
            platform.map.flat() == after_cycles(orig, rows, cols, r as int),
            all == readings(orig, rows, cols, limit as int),
            all.len() == limit,
            scores@ == all.take(r as int),
            watch(all, r as int) == (seen@, loop_size as int, calm as int),
            forall|s: usize| seen@.contains_key(s) ==> #[trigger] seen@[s] < r,
            calm <= r,
            loop_size <= r,
            calm > 0 ==> loop_size >= 1,
            found_from(all, 0) == found_from(all, r as int),
        decreases limit - r,
    {
        platform.cycle();
        proof {
            platform.map.lemma_area_fits();
        }
        let s = match platform.score() {
            Some(s) => s,
            None => {
                assert(reading(orig, rows, cols, r as int) > usize::MAX);
                return None;
            },
        };
        proof {
            assert(all[r as int] == s);
            assert(all.take(r + 1) =~= all.take(r as int).push(s));
        }
        scores.push(s);
        let ghost last = seen@;
        match seen.insert(s, r) {
            Some(prev) => {
                let d = r - prev;
                if d > loop_size {
                    loop_size = d;
                    calm = 0;
                } else {
                    calm += 1;
                }
            },
            None => {},
        }
        proof {
            assert((loop_size as int, calm as int) == noticed(
                last,
                watch(all, r as int).1,
                watch(all, r as int).2,
                s,
                r as int,
            ));
        }
        if calm > 100 {
            match check_loop(&scores, r, loop_size, Ghost(all)) {
                None => {
                    return None;
                },
                Some(true) => {
                    let start = r - loop_size;
                    if start > 1_000_000_000 - 1 {
                        return None;
                    }
                    let offset = (1_000_000_000 - 1 - start) % loop_size;
                    proof {
                        assert(scores@[start + offset] == all[start + offset]);
                    }
                    return Some(scores[start + offset]);
                },
                Some(false) => {},
            }
        }
        r += 1;
    }
    None
}

} // verus!
