//! Galaxies: the distances between them once the empty rows and columns of
//! the sky have been stretched.

use crate::outside::offset_between;
use crate::surface::{lemma_flat_index_in_range, Surface};
use rusttype::Point;
use vstd::prelude::*;

verus! {

/// The absolute value of `v`.
pub open spec fn magnitude(v: int) -> int {
    if v < 0 {
        -v
    } else {
        v
    }
}

/// The sum of the horizontal and the vertical distance between two points.
pub open spec fn taxicab(a: Point<isize>, b: Point<isize>) -> int {
    magnitude(b.x - a.x) + magnitude(b.y - a.y)
}

/// The number of the first `n` of `marks` that lie between `low` and
/// `high`, `low` included and `high` not.
pub open spec fn marks_between(marks: Seq<isize>, low: int, high: int, n: int) -> nat
    decreases n,
{
    if n <= 0 {
        0
    } else {
        marks_between(marks, low, high, n - 1) + if low <= marks[n - 1] < high {
            1nat
        } else {
            0nat
        }
    }
}

/// At most `n` of the first `n` marks lie anywhere.
pub proof fn lemma_marks_bounded(marks: Seq<isize>, low: int, high: int, n: int)
    requires
        0 <= n,
    ensures
        marks_between(marks, low, high, n) <= n,
    decreases n,
{
    if n > 0 {
        lemma_marks_bounded(marks, low, high, n - 1);
    }
}

/// The lesser of two integers.
pub open spec fn lesser(a: int, b: int) -> int {
    if a < b {
        a
    } else {
        b
    }
}

/// The greater of two integers.
pub open spec fn greater(a: int, b: int) -> int {
    if a < b {
        b
    } else {
        a
    }
}

/// The distance between two galaxies in the stretched sky: their taxicab
/// distance, and `multiplier` more for every empty column and every empty
/// row that lies between them.
pub open spec fn stretched(
    a: Point<isize>,
    b: Point<isize>,
    empty_rows: Seq<isize>,
    empty_cols: Seq<isize>,
    multiplier: isize,
) -> int {
    taxicab(a, b) + multiplier * marks_between(
        empty_cols,
        lesser(a.x as int, b.x as int),
        greater(a.x as int, b.x as int),
        empty_cols.len() as int,
    ) + multiplier * marks_between(
        empty_rows,
        lesser(a.y as int, b.y as int),
        greater(a.y as int, b.y as int),
        empty_rows.len() as int,
    )
}

/// The taxicab distance between `a` and `b`, or `None` when a difference
/// of coordinates or the distance leaves `isize`.
pub fn manhatten(a: Point<isize>, b: Point<isize>) -> (out: Option<isize>)
    ensures
        out is Some <==> isize::MIN < b.x - a.x <= isize::MAX && isize::MIN < b.y - a.y
            <= isize::MAX && taxicab(a, b) <= isize::MAX,
        out matches Some(d) ==> d == taxicab(a, b),
{
    if b.x.checked_sub(a.x).is_none() || b.y.checked_sub(a.y).is_none() {
        return None;
    }
    let d = offset_between(b, a);
    if d.x == isize::MIN || d.y == isize::MIN {
        return None;
    }
    let dx = if d.x < 0 {
        -d.x
    } else {
        d.x
    };
    let dy = if d.y < 0 {
        -d.y
    } else {
        d.y
    };
    dx.checked_add(dy)
}

/// How many of `marks` lie between `low` and `high`.
pub fn count_between(marks: &Vec<isize>, low: isize, high: isize) -> (out: usize)
    ensures
        out == marks_between(marks@, low as int, high as int, marks@.len() as int),
{
    let mut count: usize = 0;
    let mut k: usize = 0;
    while k < marks.len()
        invariant
            k <= marks@.len(),
            count == marks_between(marks@, low as int, high as int, k as int),
            count <= k,
        decreases marks@.len() - k,
    {
        if low <= marks[k] && marks[k] < high {
            count += 1;
        }
        k += 1;
    }
    count
}

/// Whether `v` fits in `isize`.
pub open spec fn in_range(v: int) -> bool {
    isize::MIN <= v <= isize::MAX
}

/// Whether the taxicab distance between `a` and `b` can be had: both
/// differences of coordinates have a magnitude that fits in `isize`, and so
/// has their sum.
pub open spec fn taxicab_fits(a: Point<isize>, b: Point<isize>) -> bool {
    isize::MIN < b.x - a.x <= isize::MAX && isize::MIN < b.y - a.y <= isize::MAX && taxicab(a, b)
        <= isize::MAX
}

/// Whether the stretched distance can be had step by step: the taxicab
/// distance, each count of empty lines, each of their products with
/// `multiplier`, and each sum on the way fit in `isize`.
pub open spec fn stretch_fits(
    a: Point<isize>,
    b: Point<isize>,
    empty_rows: Seq<isize>,
    empty_cols: Seq<isize>,
    multiplier: isize,
) -> bool {
    let cols = marks_between(
        empty_cols,
        lesser(a.x as int, b.x as int),
        greater(a.x as int, b.x as int),
        empty_cols.len() as int,
    );
    let rows = marks_between(
        empty_rows,
        lesser(a.y as int, b.y as int),
        greater(a.y as int, b.y as int),
        empty_rows.len() as int,
    );
    &&& taxicab_fits(a, b)
    &&& cols <= isize::MAX
    &&& rows <= isize::MAX
    &&& in_range(multiplier * cols)
    &&& in_range(multiplier * rows)
    &&& in_range(taxicab(a, b) + multiplier * cols)
    &&& in_range(taxicab(a, b) + multiplier * cols + multiplier * rows)
}

/// The distance between `a` and `b` in the stretched sky, or `None` when it
/// cannot be had step by step within `isize`.
pub fn manhatten2(
    a: Point<isize>,
    b: Point<isize>,
    empty_rows: &Vec<isize>,
    empty_cols: &Vec<isize>,
    multiplier: isize,
) -> (out: Option<isize>)
    ensures
        out is Some <==> stretch_fits(a, b, empty_rows@, empty_cols@, multiplier),
        out matches Some(d) ==> d == stretched(a, b, empty_rows@, empty_cols@, multiplier),
{
    let plain = match manhatten(a, b) {
        Some(d) => d,
        None => { return None; },
    };
    let (low_x, high_x) = if a.x < b.x {
        (a.x, b.x)
    } else {
        (b.x, a.x)
    };
    let (low_y, high_y) = if a.y < b.y {
        (a.y, b.y)
    } else {
        (b.y, a.y)
    };
    let cols = count_between(empty_cols, low_x, high_x);
    let rows = count_between(empty_rows, low_y, high_y);
    if cols > isize::MAX as usize || rows > isize::MAX as usize {
        return None;
    }
    let wide = match multiplier.checked_mul(cols as isize) {
        Some(v) => v,
        None => { return None; },
    };
    let tall = match multiplier.checked_mul(rows as isize) {
        Some(v) => v,
        None => { return None; },
    };
    match plain.checked_add(wide) {
        Some(v) => v.checked_add(tall),
        None => None,
    }
}

/// Whether every cell of row `r` is `'.'`.
pub open spec fn row_empty(image: &Surface<char>, r: int) -> bool {
    forall|c: int| 0 <= c < image.cols() ==> image.cell(r, c) == '.'
}

/// Whether every cell of column `c` is `'.'`.
pub open spec fn col_empty(image: &Surface<char>, c: int) -> bool {
    forall|r: int| 0 <= r < image.rows() ==> image.cell(r, c) == '.'
}

/// The empty rows among the first `n`, in rising order.
pub open spec fn empty_rows_upto(image: &Surface<char>, n: int) -> Seq<isize>
    decreases n,
{
    if n <= 0 {
        Seq::empty()
    } else if row_empty(image, n - 1) {
        empty_rows_upto(image, n - 1).push((n - 1) as isize)
    } else {
        empty_rows_upto(image, n - 1)
    }
}

/// The empty columns among the first `n`, in rising order.
pub open spec fn empty_cols_upto(image: &Surface<char>, n: int) -> Seq<isize>
    decreases n,
{
    if n <= 0 {
        Seq::empty()
    } else if col_empty(image, n - 1) {
        empty_cols_upto(image, n - 1).push((n - 1) as isize)
    } else {
        empty_cols_upto(image, n - 1)
    }
}

/// The rows of the image that hold no galaxy.
pub fn empty_rows(image: &Surface<char>) -> (out: Vec<isize>)
    requires
        image.wf(),
    ensures
        out@ == empty_rows_upto(image, image.rows() as int),
{
    proof {
        image.lemma_area_fits();
    }
    let height = image.height();
    let width = image.width();
    let cells = image.cells();
    let mut out: Vec<isize> = Vec::new();
    let mut r: usize = 0;
    while r < height
        invariant
            r <= height,
            height == image.rows(),
            width == image.cols(),
            height <= isize::MAX,
            cells@ == image.flat(),
            cells@.len() == height * width,
            height * width <= usize::MAX,
            out@ == empty_rows_upto(image, r as int),
        decreases height - r,
    {
        let mut empty = true;
        let mut c: usize = 0;
        while c < width
            invariant
                c <= width,
                r < height,
                height == image.rows(),
                width == image.cols(),
                cells@ == image.flat(),
                cells@.len() == height * width,
                height * width <= usize::MAX,
                empty == forall|j: int| 0 <= j < c ==> image.cell(r as int, j) == '.',
            decreases width - c,
        {
            proof {
                lemma_flat_index_in_range(r as int, c as int, height as int, width as int);
            }
            if cells[r * width + c] != '.' {
                empty = false;
                assert(image.cell(r as int, c as int) != '.');
            }
            c += 1;
        }
        if empty {
            out.push(r as isize);
        }
        r += 1;
    }
    out
}

/// The columns of the image that hold no galaxy.
pub fn empty_cols(image: &Surface<char>) -> (out: Vec<isize>)
    requires
        image.wf(),
    ensures
        out@ == empty_cols_upto(image, image.cols() as int),
{
    proof {
        image.lemma_area_fits();
    }
    let height = image.height();
    let width = image.width();
    let cells = image.cells();
    let mut out: Vec<isize> = Vec::new();
    let mut c: usize = 0;
    while c < width
        invariant
            c <= width,
            height == image.rows(),
            width == image.cols(),
            width <= isize::MAX,
            cells@ == image.flat(),
            cells@.len() == height * width,
            height * width <= usize::MAX,
            out@ == empty_cols_upto(image, c as int),
        decreases width - c,
    {
        let mut empty = true;
        let mut r: usize = 0;
        while r < height
            invariant
                r <= height,
                c < width,
                height == image.rows(),
                width == image.cols(),
                cells@ == image.flat(),
                cells@.len() == height * width,
                height * width <= usize::MAX,
                empty == forall|j: int| 0 <= j < r ==> image.cell(j, c as int) == '.',
            decreases height - r,
        {
            proof {
                lemma_flat_index_in_range(r as int, c as int, height as int, width as int);
            }
            if cells[r * width + c] != '.' {
                empty = false;
                assert(image.cell(r as int, c as int) != '.');
            }
            r += 1;
        }
        if empty {
            out.push(c as isize);
        }
        c += 1;
    }
    out
}

/// The galaxies among the first `n` cells in reading order, each as a point
/// of its column and its row.
pub open spec fn galaxies_upto(image: &Surface<char>, n: int) -> Seq<Point<isize>>
    decreases n,
{
    if n <= 0 {
        Seq::empty()
    } else if image.flat()[n - 1] == '#' {
        galaxies_upto(image, n - 1).push(
            Point {
                x: ((n - 1) % (image.cols() as int)) as isize,
                y: ((n - 1) / (image.cols() as int)) as isize,
            },
        )
    } else {
        galaxies_upto(image, n - 1)
    }
}

/// The galaxies of the image, the cells that hold `'#'`, in reading order.
pub fn galaxies(image: &Surface<char>) -> (out: Vec<Point<isize>>)
    requires
        image.wf(),
    ensures
        out@ == galaxies_upto(image, image.flat().len() as int),
{
    proof {
        image.lemma_area_fits();
    }
    let height = image.height();
    let width = image.width();
    let cells = image.cells();
    let mut out: Vec<Point<isize>> = Vec::new();
    let mut r: usize = 0;
    while r < height
        invariant
            r <= height,
            height == image.rows(),
            width == image.cols(),
            0 < width <= isize::MAX,
            height <= isize::MAX,
            cells@ == image.flat(),
            cells@.len() == height * width,
            height * width <= usize::MAX,
            out@ == galaxies_upto(image, r * width),
        decreases height - r,
    {
        let mut c: usize = 0;
        while c < width
            invariant
                c <= width,
                r < height,
                height == image.rows(),
                width == image.cols(),
                0 < width <= isize::MAX,
                height <= isize::MAX,
                cells@ == image.flat(),
                cells@.len() == height * width,
                height * width <= usize::MAX,
                out@ == galaxies_upto(image, r * width + c),
            decreases width - c,
        {
            proof {
                lemma_flat_index_in_range(r as int, c as int, height as int, width as int);
                vstd::arithmetic::div_mod::lemma_fundamental_div_mod_converse(
                    r * width + c,
                    width as int,
                    r as int,
                    c as int,
                );
            }
            if cells[r * width + c] == '#' {
                out.push(Point { x: c as isize, y: r as isize });
            }
            c += 1;
        }
        proof {
            assert((r + 1) * width == r * width + width) by (nonlinear_arith);
        }
        r += 1;
    }
    out
}

/// The sum of the stretched distances between galaxy `i` and the first `j`
/// galaxies.
pub open spec fn distances_to(
    galaxies: Seq<Point<isize>>,
    empty_rows: Seq<isize>,
    empty_cols: Seq<isize>,
    multiplier: isize,
    i: int,
    j: int,
) -> int
    decreases j,
{
    if j <= 0 {
        0
    } else {
        distances_to(galaxies, empty_rows, empty_cols, multiplier, i, j - 1) + stretched(
            galaxies[j - 1],
            galaxies[i],
            empty_rows,
            empty_cols,
            multiplier,
        )
    }
}

/// The sum of the stretched distances between every two of the first `n`
/// galaxies, each pair counted once.
pub open spec fn all_distances(
    galaxies: Seq<Point<isize>>,
    empty_rows: Seq<isize>,
    empty_cols: Seq<isize>,
    multiplier: isize,
    n: int,
) -> int
    decreases n,
{
    if n <= 0 {
        0
    } else {
        all_distances(galaxies, empty_rows, empty_cols, multiplier, n - 1) + distances_to(
            galaxies,
            empty_rows,
            empty_cols,
            multiplier,
            n - 1,
            n - 1,
        )
    }
}

/// Whether the distance between galaxy `j` and galaxy `i` can be had, and
/// can be added to the sum of the distances of all pairs before it without
/// leaving `isize`.
pub open spec fn pair_fits(
    galaxies: Seq<Point<isize>>,
    empty_rows: Seq<isize>,
    empty_cols: Seq<isize>,
    multiplier: isize,
    i: int,
    j: int,
) -> bool {
    &&& stretch_fits(galaxies[j], galaxies[i], empty_rows, empty_cols, multiplier)
    &&& in_range(
        all_distances(galaxies, empty_rows, empty_cols, multiplier, i) + distances_to(
            galaxies,
            empty_rows,
            empty_cols,
            multiplier,
            i,
            j + 1,
        ),
    )
}

/// The sum of the stretched distances between every two galaxies, each pair
/// counted once; `None` when a distance cannot be had or a sum on the way
/// leaves `isize`.
pub fn total_distance(
    galaxies: &Vec<Point<isize>>,
    empty_rows: &Vec<isize>,
    empty_cols: &Vec<isize>,
    multiplier: isize,
) -> (out: Option<isize>)
    ensures
        out is Some <==> forall|i: int, j: int|
            0 <= j < i < galaxies@.len() ==> #[trigger] pair_fits(
                galaxies@,
                empty_rows@,
                empty_cols@,
                multiplier,
                i,
                j,
            ),
        out matches Some(total) ==> total == all_distances(
            galaxies@,
            empty_rows@,
            empty_cols@,
            multiplier,
            galaxies@.len() as int,
        ),
{
    let mut total: isize = 0;
    let mut i: usize = 0;
    while i < galaxies.len()
        invariant
            i <= galaxies@.len(),
            total == all_distances(galaxies@, empty_rows@, empty_cols@, multiplier, i as int),
            forall|a: int, b: int|
                0 <= b < a < i ==> #[trigger] pair_fits(
                    galaxies@,
                    empty_rows@,
                    empty_cols@,
                    multiplier,
                    a,
                    b,
                ),
        decreases galaxies@.len() - i,
    {
        let mut j: usize = 0;
        let ghost before = total;
        while j < i
            invariant
                j <= i < galaxies@.len(),
                before == all_distances(galaxies@, empty_rows@, empty_cols@, multiplier, i as int),
                total == before + distances_to(
                    galaxies@,
                    empty_rows@,
                    empty_cols@,
                    multiplier,
                    i as int,
                    j as int,
                ),
                forall|a: int, b: int|
                    0 <= b < a < i ==> #[trigger] pair_fits(
                        galaxies@,
                        empty_rows@,
                        empty_cols@,
                        multiplier,
                        a,
                        b,
                    ),
                forall|b: int|
                    0 <= b < j ==> #[trigger] pair_fits(
                        galaxies@,
                        empty_rows@,
                        empty_cols@,
                        multiplier,
                        i as int,
                        b,
                    ),
            decreases i - j,
        {
            let d = match manhatten2(galaxies[j], galaxies[i], empty_rows, empty_cols, multiplier) {
                Some(d) => d,
                None => {
                    assert(!pair_fits(
                        galaxies@,
                        empty_rows@,
                        empty_cols@,
                        multiplier,
                        i as int,
                        j as int,
                    ));
                    return None;
                },
            };
            total = match total.checked_add(d) {
                Some(t) => t,
                None => {
                    assert(!pair_fits(
                        galaxies@,
                        empty_rows@,
                        empty_cols@,
                        multiplier,
                        i as int,
                        j as int,
                    ));
                    return None;
                },
            };
            j += 1;
        }
        i += 1;
    }
    Some(total)
}

} // verus!
