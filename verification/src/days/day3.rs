//! Engine schematics: the numbers of a schematic that touch a symbol, and
//! the gears that join exactly two of them.

use crate::surface::{lemma_flat_index_in_range, Surface};
use vstd::prelude::*;

verus! {

/// Whether `c` is a decimal digit.
pub open spec fn is_digit(c: char) -> bool {
    '0' <= c <= '9'
}

/// Whether `c` is one of the symbols that make a number a part number.
pub open spec fn is_symbol(c: char) -> bool {
    c == '$' || c == '-' || c == '*' || c == '/' || c == '=' || c == '@' || c == '#' || c == '%'
        || c == '+' || c == '&'
}

/// Whether the schematic holds a symbol at row `r` and column `c`.
pub open spec fn symbol_at(s: &Surface<char>, r: int, c: int) -> bool {
    0 <= r < s.rows() && 0 <= c < s.cols() && is_symbol(s.cell(r, c))
}

/// Whether the schematic holds a gear symbol at row `r` and column `c`.
pub open spec fn gear_at(s: &Surface<char>, r: int, c: int) -> bool {
    0 <= r < s.rows() && 0 <= c < s.cols() && s.cell(r, c) == '*'
}

/// The offsets of the eight neighbours of a cell, in the order in which
/// they are looked at.
pub open spec fn offsets() -> Seq<(int, int)> {
    seq![(0, 1), (0, -1), (1, 0), (-1, 0), (-1, -1), (-1, 1), (1, -1), (1, 1)]
}

/// Whether one of the first `n` neighbours of a cell holds a symbol.
pub open spec fn symbol_near(s: &Surface<char>, r: int, c: int, n: int) -> bool
    decreases n,
{
    if n <= 0 {
        false
    } else {
        symbol_near(s, r, c, n - 1) || symbol_at(
            s,
            r + offsets()[n - 1].0,
            c + offsets()[n - 1].1,
        )
    }
}

/// The gears among the first `n` neighbours of a cell.
pub open spec fn gears_near(s: &Surface<char>, r: int, c: int, n: int) -> Seq<(int, int)>
    decreases n,
{
    if n <= 0 {
        Seq::empty()
    } else if gear_at(s, r + offsets()[n - 1].0, c + offsets()[n - 1].1) {
        gears_near(s, r, c, n - 1).push((r + offsets()[n - 1].0, c + offsets()[n - 1].1))
    } else {
        gears_near(s, r, c, n - 1)
    }
}

/// The gear next to a cell, when exactly one of its neighbours is a gear.
pub open spec fn lone_gear(s: &Surface<char>, r: int, c: int) -> Option<(int, int)> {
    if gears_near(s, r, c, 8).len() == 1 {
        Some(gears_near(s, r, c, 8)[0])
    } else {
        None
    }
}

/// The number that the digits of row `r` from column `a` up to column `b`
/// write.
pub open spec fn run_value(s: &Surface<char>, r: int, a: int, b: int) -> int
    decreases b - a,
{
    if b <= a {
        0
    } else {
        run_value(s, r, a, b - 1) * 10 + (s.cell(r, b - 1) as int - '0' as int)
    }
}

/// Whether one of the cells of row `r` from column `a` up to column `b` has
/// a symbol for a neighbour.
pub open spec fn run_touches(s: &Surface<char>, r: int, a: int, b: int) -> bool
    decreases b - a,
{
    if b <= a {
        false
    } else {
        run_touches(s, r, a, b - 1) || symbol_near(s, r, b - 1, 8)
    }
}

/// The gear that a number belongs to: the lone gear next to the last of its
/// digits that has one.
pub open spec fn run_gear(s: &Surface<char>, r: int, a: int, b: int) -> Option<(int, int)>
    decreases b - a,
{
    if b <= a {
        None
    } else {
        match lone_gear(s, r, b - 1) {
            Some(g) => Some(g),
            None => run_gear(s, r, a, b - 1),
        }
    }
}

/// The column at which the number begins that has a digit in column `c`.
pub open spec fn run_begin(s: &Surface<char>, r: int, c: int) -> int
    decreases c,
{
    if c <= 0 || !is_digit(s.cell(r, c - 1)) {
        c
    } else {
        run_begin(s, r, c - 1)
    }
}

/// Whether a number ends with the digit in column `c`.
pub open spec fn ends_run(s: &Surface<char>, r: int, c: int) -> bool {
    is_digit(s.cell(r, c)) && (c + 1 >= s.cols() || !is_digit(s.cell(r, c + 1)))
}

/// A number of the schematic: its value, whether it touches a symbol, and
/// the gear it belongs to.
pub type Part = (int, bool, Option<(int, int)>);

/// The number of row `r` that ends before column `b`.
pub open spec fn part_ending(s: &Surface<char>, r: int, b: int) -> Part {
    let a = run_begin(s, r, b - 1);
    (run_value(s, r, a, b), run_touches(s, r, a, b), run_gear(s, r, a, b))
}

/// The numbers of row `r` that end within its first `n` columns, from left
/// to right.
pub open spec fn parts_in_row(s: &Surface<char>, r: int, n: int) -> Seq<Part>
    decreases n,
{
    if n <= 0 {
        Seq::empty()
    } else if ends_run(s, r, n - 1) {
        parts_in_row(s, r, n - 1).push(part_ending(s, r, n))
    } else {
        parts_in_row(s, r, n - 1)
    }
}

/// The numbers of the first `n` rows, in reading order.
pub open spec fn parts_in_rows(s: &Surface<char>, n: int) -> Seq<Part>
    decreases n,
{
    if n <= 0 {
        Seq::empty()
    } else {
        parts_in_rows(s, n - 1) + parts_in_row(s, n - 1, s.cols() as int)
    }
}

/// The sum of those of the first `n` numbers that touch a symbol.
pub open spec fn parts_sum(parts: Seq<Part>, n: int) -> int
    decreases n,
{
    if n <= 0 {
        0
    } else {
        parts_sum(parts, n - 1) + if parts[n - 1].1 {
            parts[n - 1].0
        } else {
            0
        }
    }
}

/// The values of those of the first `n` numbers that touch a symbol and
/// belong to the gear at `gear`.
pub open spec fn joined_by(parts: Seq<Part>, gear: (int, int), n: int) -> Seq<int>
    decreases n,
{
    if n <= 0 {
        Seq::empty()
    } else if parts[n - 1].1 && parts[n - 1].2 == Some(gear) {
        joined_by(parts, gear, n - 1).push(parts[n - 1].0)
    } else {
        joined_by(parts, gear, n - 1)
    }
}

/// The ratio of the gear at `gear`: the product of its two numbers when it
/// joins exactly two, and nothing otherwise.
pub open spec fn gear_ratio(parts: Seq<Part>, gear: (int, int)) -> int {
    let joined = joined_by(parts, gear, parts.len() as int);
    if joined.len() == 2 {
        joined[0] * joined[1]
    } else {
        0
    }
}

/// The sum of the ratios of the gears among the first `n` cells of the
/// schematic.
pub open spec fn ratios_sum(s: &Surface<char>, parts: Seq<Part>, n: int) -> int
    decreases n,
{
    if n <= 0 {
        0
    } else {
        ratios_sum(s, parts, n - 1) + if s.flat()[n - 1] == '*' {
            gear_ratio(parts, ((n - 1) / (s.cols() as int), (n - 1) % (s.cols() as int)))
        } else {
            0
        }
    }
}

/// A number as the program holds it.
#[derive(Debug, Clone, Copy, PartialEq, Eq)]
pub struct PartNumber {
    pub value: u32,
    pub touches: bool,
    pub gear: Option<(usize, usize)>,
}

/// The numbers as values, flags and gear cells.
pub open spec fn part_views(parts: Seq<PartNumber>) -> Seq<Part> {
    parts.map_values(
        |p: PartNumber|
            (
                p.value as int,
                p.touches,
                match p.gear {
                    Some(g) => Some((g.0 as int, g.1 as int)),
                    None => None,
                },
            ),
    )
}

/// Whether `c` is a decimal digit.
pub fn digit(c: char) -> (out: bool)
    ensures
        out == is_digit(c),
{
    c >= '0' && c <= '9'
}

/// Whether `c` is a symbol.
pub fn symbol(c: char) -> (out: bool)
    ensures
        out == is_symbol(c),
{
    c == '$' || c == '-' || c == '*' || c == '/' || c == '=' || c == '@' || c == '#' || c == '%'
        || c == '+' || c == '&'
}

/// The offset of the neighbour at place `k`.
fn offset(k: usize) -> (out: (isize, isize))
    requires
        k < 8,
    ensures
        (out.0 as int, out.1 as int) == offsets()[k as int],
{
    if k == 0 {
        (0, 1)
    } else if k == 1 {
        (0, -1)
    } else if k == 2 {
        (1, 0)
    } else if k == 3 {
        (-1, 0)
    } else if k == 4 {
        (-1, -1)
    } else if k == 5 {
        (-1, 1)
    } else if k == 6 {
        (1, -1)
    } else {
        (1, 1)
    }
}

/// Whether a neighbour of the cell holds a symbol, and the gear next to
/// the cell when exactly one neighbour is a gear.
fn look_around(s: &Surface<char>, r: usize, c: usize) -> (out: (bool, Option<(usize, usize)>))
    requires
        s.wf(),
        r < s.rows(),
        c < s.cols(),
    ensures
        out.0 == symbol_near(s, r as int, c as int, 8),
        match out.1 {
            Some(g) => lone_gear(s, r as int, c as int) == Some((g.0 as int, g.1 as int)),
            None => lone_gear(s, r as int, c as int) is None,
        },
{
    proof {
        s.lemma_area_fits();
    }
    let mut touches = false;
    let mut gears: usize = 0;
    let mut gear: (usize, usize) = (0, 0);
    let mut k: usize = 0;
    while k < 8
        invariant
            k <= 8,
            s.wf(),
            r < s.rows() <= isize::MAX,
            c < s.cols() <= isize::MAX,
            touches == symbol_near(s, r as int, c as int, k as int),
            gears == gears_near(s, r as int, c as int, k as int).len(),
            gears <= k,
            gears >= 1 ==> gears_near(s, r as int, c as int, k as int)[0] == (
                gear.0 as int,
                gear.1 as int,
            ),
        decreases 8 - k,
    {
        let d = offset(k);
        let pos = (r as isize + d.0, c as isize + d.1);
        match s.value_at(pos) {
            Some(here) => {
                if symbol(here) {
                    touches = true;
                }
                if here == '*' {
                    if gears == 0 {
                        gear = (pos.0 as usize, pos.1 as usize);
                    }
                    gears += 1;
                }
            },
            None => {},
        }
        k += 1;
    }
    (touches, if gears == 1 {
        Some(gear)
    } else {
        None
    })
}

/// Within a number every digit belongs to the number that begins at the
/// first of them.
proof fn lemma_run_begin(s: &Surface<char>, r: int, a: int, c: int)
    requires
        0 <= a <= c,
        a == 0 || !is_digit(s.cell(r, a - 1)),
        forall|j: int| a <= j < c ==> is_digit(#[trigger] s.cell(r, j)),
    ensures
        run_begin(s, r, c) == a,
    decreases c - a,
{
    if a < c {
        lemma_run_begin(s, r, a, c - 1);
    }
}

/// No number ends inside a run of digits.
proof fn lemma_no_end_inside(s: &Surface<char>, r: int, a: int, b: int)
    requires
        0 <= a <= b <= s.cols(),
        forall|j: int| a <= j < b ==> is_digit(#[trigger] s.cell(r, j)),
    ensures
        b > a ==> parts_in_row(s, r, b - 1) == parts_in_row(s, r, a),
        b == a ==> parts_in_row(s, r, b) == parts_in_row(s, r, a),
    decreases b - a,
{
    if b > a + 1 {
        lemma_no_end_inside(s, r, a, b - 1);
        assert(is_digit(s.cell(r, b - 1)));
        assert(!ends_run(s, r, b - 2));
    }
}

/// The numbers of the schematic in reading order, or `None` when one of
/// them leaves `u32`.
pub fn part_numbers(schematic: &Surface<char>) -> (out: Option<Vec<PartNumber>>)
    requires
        schematic.wf(),
    ensures
        out matches Some(parts) ==> part_views(parts@) == parts_in_rows(
            schematic,
            schematic.rows() as int,
        ),
        out is None ==> exists|i: int|
            0 <= i < parts_in_rows(schematic, schematic.rows() as int).len() && (
            #[trigger] parts_in_rows(schematic, schematic.rows() as int)[i]).0 > u32::MAX,
{
    proof {
        schematic.lemma_area_fits();
    }
    let height = schematic.height();
    let width = schematic.width();
    let cells = schematic.cells();
    let ghost s = schematic;
    let mut parts: Vec<PartNumber> = Vec::new();
    let mut y: usize = 0;
    while y < height
        invariant
            y <= height,
            s == schematic,
            s.wf(),
            height == s.rows(),
            width == s.cols(),
            cells@ == s.flat(),
            cells@.len() == height * width,
            height * width <= usize::MAX,
            part_views(parts@) == parts_in_rows(s, y as int),
        decreases height - y,
    {
        let ghost above = part_views(parts@);
        let mut x: usize = 0;
        while x < width
            invariant
                x <= width,
                y < height,
                s == schematic,
                s.wf(),
                height == s.rows(),
                width == s.cols(),
                cells@ == s.flat(),
                cells@.len() == height * width,
                height * width <= usize::MAX,
                above == parts_in_rows(s, y as int),
                part_views(parts@) == above + parts_in_row(s, y as int, x as int),
                x == 0 || x == width || !is_digit(s.cell(y as int, x - 1)),
            decreases width - x,
        {
            proof {
                lemma_flat_index_in_range(y as int, x as int, height as int, width as int);
            }
            if !digit(cells[y * width + x]) {
                proof {
                    assert(!ends_run(s, y as int, x as int));
                }
                x += 1;
                continue ;
            }
            let start = x;
            let mut value: u32 = 0;
            let mut touches = false;
            let mut gear: Option<(usize, usize)> = None;
            let mut overflow = false;
            while x < width && digit(cells[y * width + x])
                invariant
                    start <= x <= width,
                    y < height,
                    s == schematic,
                    s.wf(),
                    height == s.rows(),
                    width == s.cols(),
                    cells@ == s.flat(),
                    cells@.len() == height * width,
                    height * width <= usize::MAX,
                    forall|j: int| start <= j < x ==> is_digit(#[trigger] s.cell(y as int, j)),
                    !overflow ==> value == run_value(s, y as int, start as int, x as int),
                    overflow ==> run_value(s, y as int, start as int, x as int) > u32::MAX,
                    touches == run_touches(s, y as int, start as int, x as int),
                    match gear {
                        Some(g) => run_gear(s, y as int, start as int, x as int) == Some(
                            (g.0 as int, g.1 as int),
                        ),
                        None => run_gear(s, y as int, start as int, x as int) is None,
                    },
                    x < width ==> y * width + x < cells@.len(),
                decreases width - x,
            {
                let v = cells[y * width + x] as u32 - '0' as u32;
                if !overflow {
                    let next = match value.checked_mul(10) {
                        Some(scaled) => scaled.checked_add(v),
                        None => None,
                    };
                    match next {
                        Some(n) => {
                            value = n;
                        },
                        None => {
                            overflow = true;
                        },
                    }
                }
                let around = look_around(schematic, y, x);
                if around.0 {
                    touches = true;
                }
                if around.1.is_some() {
                    gear = around.1;
                }
                x += 1;
                proof {
                    if x < width {
                        lemma_flat_index_in_range(y as int, x as int, height as int, width as int);
                    }
                }
            }
            proof {
                lemma_no_end_inside(s, y as int, start as int, x as int);
                lemma_run_begin(s, y as int, start as int, x - 1);
                assert(ends_run(s, y as int, x - 1));
                assert(parts_in_row(s, y as int, x as int) == parts_in_row(
                    s,
                    y as int,
                    start as int,
                ).push(part_ending(s, y as int, x as int)));
            }
            if overflow {
                proof {
                    lemma_part_stays(s, y as int, x as int, (above + parts_in_row(
                        s,
                        y as int,
                        start as int,
                    )).len() as int);
                }
                return None;
            }
            let ghost before = part_views(parts@);
            parts.push(PartNumber { value, touches, gear });
            proof {
                assert(part_views(parts@) =~= before.push(part_ending(s, y as int, x as int)));
                assert(part_views(parts@) =~= above + parts_in_row(s, y as int, x as int));
            }
            if x < width {
                proof {
                    assert(!ends_run(s, y as int, x as int));
                }
                x += 1;
            }
        }
        y += 1;
    }
    Some(parts)
}

/// A number of row `r` that ends before column `b` is one of the numbers of
/// the schematic, at place `i` when `i` numbers come before it.
proof fn lemma_part_stays(s: &Surface<char>, r: int, b: int, i: int)
    requires
        s.wf(),
        0 <= r < s.rows(),
        0 < b <= s.cols(),
        ends_run(s, r, b - 1),
        i == parts_in_rows(s, r).len() + parts_in_row(s, r, b - 1).len(),
    ensures
        0 <= i < parts_in_rows(s, s.rows() as int).len(),
        parts_in_rows(s, s.rows() as int)[i] == part_ending(s, r, b),
{
    lemma_row_prefix(s, r, b, s.cols() as int);
    lemma_rows_prefix(s, r + 1, s.rows() as int);
}

/// The numbers that end within the first `n` columns stay the first
/// numbers of the row.
proof fn lemma_row_prefix(s: &Surface<char>, r: int, n: int, m: int)
    requires
        0 <= n <= m,
    ensures
        parts_in_row(s, r, n).len() <= parts_in_row(s, r, m).len(),
        forall|i: int|
            0 <= i < parts_in_row(s, r, n).len() ==> parts_in_row(s, r, m)[i] == parts_in_row(
                s,
                r,
                n,
            )[i],
    decreases m - n,
{
    if n < m {
        lemma_row_prefix(s, r, n, m - 1);
    }
}

/// The numbers of the first `n` rows stay the first numbers of the
/// schematic.
proof fn lemma_rows_prefix(s: &Surface<char>, n: int, m: int)
    requires
        0 <= n <= m,
    ensures
        parts_in_rows(s, n).len() <= parts_in_rows(s, m).len(),
        forall|i: int|
            0 <= i < parts_in_rows(s, n).len() ==> parts_in_rows(s, m)[i] == parts_in_rows(s, n)[i],
    decreases m - n,
{
    if n < m {
        lemma_rows_prefix(s, n, m - 1);
    }
}

/// The sum of the numbers that touch a symbol, or `None` when it leaves
/// `u32`.
pub fn sum_of_parts(parts: &Vec<PartNumber>) -> (out: Option<u32>)
    ensures
        out matches Some(total) ==> total == parts_sum(part_views(parts@), parts@.len() as int),
        out is None ==> parts_sum(part_views(parts@), parts@.len() as int) > u32::MAX,
{
    let ghost list = part_views(parts@);
    let mut total: u32 = 0;
    let mut k: usize = 0;
    while k < parts.len()
        invariant
            k <= parts@.len(),
            list == part_views(parts@),
            total == parts_sum(list, k as int),
        decreases parts@.len() - k,
    {
        proof {
            assert(list[k as int].0 == parts@[k as int].value);
            assert(list[k as int].1 == parts@[k as int].touches);
        }
        if parts[k].touches {
            match total.checked_add(parts[k].value) {
                Some(t) => {
                    total = t;
                },
                None => {
                    proof {
                        lemma_parts_sum_grows(list, k + 1, parts@.len() as int);
                    }
                    return None;
                },
            }
        }
        k += 1;
    }
    Some(total)
}

/// More numbers do not add up to less.
proof fn lemma_parts_sum_grows(parts: Seq<Part>, n: int, m: int)
    requires
        0 <= n <= m <= parts.len(),
        forall|i: int| 0 <= i < parts.len() ==> (#[trigger] parts[i]).0 >= 0,
    ensures
        parts_sum(parts, n) <= parts_sum(parts, m),
    decreases m - n,
{
    if n < m {
        lemma_parts_sum_grows(parts, n, m - 1);
    }
}

/// The ratio of the gear at row `r` and column `c`, or `None` when it
/// leaves `u32`.
fn ratio_of(parts: &Vec<PartNumber>, r: usize, c: usize) -> (out: Option<u32>)
    ensures
        out matches Some(ratio) ==> ratio == gear_ratio(part_views(parts@), (r as int, c as int)),
        out is None ==> gear_ratio(part_views(parts@), (r as int, c as int)) > u32::MAX,
{
    let ghost list = part_views(parts@);
    let ghost gear = (r as int, c as int);
    let mut joined: Vec<u32> = Vec::new();
    let mut k: usize = 0;
    while k < parts.len()
        invariant
            k <= parts@.len(),
            list == part_views(parts@),
            gear == (r as int, c as int),
            joined@.len() == joined_by(list, gear, k as int).len(),
            forall|i: int|
                0 <= i < joined@.len() ==> joined@[i] as int == #[trigger] joined_by(
                    list,
                    gear,
                    k as int,
                )[i],
        decreases parts@.len() - k,
    {
        proof {
            assert(list[k as int].0 == parts@[k as int].value);
            assert(list[k as int].1 == parts@[k as int].touches);
            assert(list[k as int].2 == match parts@[k as int].gear {
                Some(g) => Some((g.0 as int, g.1 as int)),
                None => None,
            });
        }
        let here = match parts[k].gear {
            Some(g) => g.0 == r && g.1 == c,
            None => false,
        };
        if parts[k].touches && here {
            joined.push(parts[k].value);
        }
        k += 1;
    }
    if joined.len() == 2 {
        proof {
            assert(joined@[0] * joined@[1] <= 0xFFFF_FFFF * 0xFFFF_FFFF) by (nonlinear_arith)
                requires
                    0 <= joined@[0] <= 0xFFFF_FFFF,
                    0 <= joined@[1] <= 0xFFFF_FFFF,
            ;
        }
        let product = joined[0] as u64 * joined[1] as u64;
        if product > u32::MAX as u64 {
            None
        } else {
            Some(product as u32)
        }
    } else {
        Some(0)
    }
}

/// What joins a gear is never negative.
proof fn lemma_joined_values(parts: Seq<Part>, gear: (int, int), n: int)
    requires
        0 <= n <= parts.len(),
        forall|i: int| 0 <= i < parts.len() ==> (#[trigger] parts[i]).0 >= 0,
    ensures
        forall|i: int|
            0 <= i < joined_by(parts, gear, n).len() ==> #[trigger] joined_by(parts, gear, n)[i]
                >= 0,
    decreases n,
{
    if n > 0 {
        lemma_joined_values(parts, gear, n - 1);
        let before = joined_by(parts, gear, n - 1);
        let now = joined_by(parts, gear, n);
        assert forall|i: int| 0 <= i < now.len() implies #[trigger] now[i] >= 0 by {
            if i < before.len() {
                assert(now[i] == before[i]);
            } else {
                assert(now[i] == parts[n - 1].0);
            }
        }
    }
}

/// More cells do not hold gears with a lesser sum of ratios.
proof fn lemma_ratios_grow(s: &Surface<char>, parts: Seq<Part>, n: int, m: int)
    requires
        0 <= n <= m,
        forall|i: int| 0 <= i < parts.len() ==> (#[trigger] parts[i]).0 >= 0,
    ensures
        ratios_sum(s, parts, n) <= ratios_sum(s, parts, m),
    decreases m - n,
{
    if n < m {
        lemma_ratios_grow(s, parts, n, m - 1);
        let gear = ((m - 1) / (s.cols() as int), (m - 1) % (s.cols() as int));
        lemma_joined_values(parts, gear, parts.len() as int);
        let joined = joined_by(parts, gear, parts.len() as int);
        if joined.len() == 2 {
            assert(joined[0] * joined[1] >= 0) by (nonlinear_arith)
                requires
                    joined[0] >= 0,
                    joined[1] >= 0,
            ;
        }
    }
}

/// The sum of the ratios of all gears, or `None` when it leaves `u32`.
pub fn gear_ratios(schematic: &Surface<char>, parts: &Vec<PartNumber>) -> (out: Option<u32>)
    requires
        schematic.wf(),
    ensures
        out matches Some(total) ==> total == ratios_sum(
            schematic,
            part_views(parts@),
            schematic.flat().len() as int,
        ),
        out is None ==> ratios_sum(
            schematic,
            part_views(parts@),
            schematic.flat().len() as int,
        ) > u32::MAX,
{
    proof {
        schematic.lemma_area_fits();
    }
    let height = schematic.height();
    let width = schematic.width();
    let cells = schematic.cells();
    let ghost list = part_views(parts@);
    let mut total: u32 = 0;
    let mut y: usize = 0;
    while y < height
        invariant
            y <= height,
            height == schematic.rows(),
            width == schematic.cols(),
            0 < width,
            cells@ == schematic.flat(),
            cells@.len() == height * width,
            height * width <= usize::MAX,
            list == part_views(parts@),
            total == ratios_sum(schematic, list, y * width),
        decreases height - y,
    {
        let mut x: usize = 0;
        while x < width
            invariant
                x <= width,
                y < height,
                height == schematic.rows(),
                width == schematic.cols(),
                0 < width,
                cells@ == schematic.flat(),
                cells@.len() == height * width,
                height * width <= usize::MAX,
                list == part_views(parts@),
                total == ratios_sum(schematic, list, y * width + x),
            decreases width - x,
        {
            proof {
                lemma_flat_index_in_range(y as int, x as int, height as int, width as int);
                vstd::arithmetic::div_mod::lemma_fundamental_div_mod_converse(
                    y * width + x,
                    width as int,
                    y as int,
                    x as int,
                );
            }
            if cells[y * width + x] == '*' {
                proof {
                    assert forall|i: int| 0 <= i < list.len() implies (#[trigger] list[i]).0
                        >= 0 by {
                        assert(list[i].0 == parts@[i].value);
                    }
                    lemma_ratios_grow(schematic, list, 0, y * width + x);
                    lemma_ratios_grow(schematic, list, y * width + x + 1, height * width);
                }
                let ratio = match ratio_of(parts, y, x) {
                    Some(ratio) => ratio,
                    None => { return None; },
                };
                total = match total.checked_add(ratio) {
                    Some(t) => t,
                    None => { return None; },
                };
            }
            x += 1;
        }
        proof {
            assert((y + 1) * width == y * width + width) by (nonlinear_arith);
        }
        y += 1;
    }
    Some(total)
}

} // verus!
