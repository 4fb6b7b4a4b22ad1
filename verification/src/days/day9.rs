//! Histories of readings: the table of repeated differences of a history,
//! and the values it predicts after the last reading and before the first.

use crate::text::{parse_signed, signed_of, split_whitespace, to_chars, views, words};
use vstd::prelude::*;

verus! {

/// The readings of `row` as integers.
pub open spec fn readings(row: Seq<i32>) -> Seq<int> {
    row.map_values(|v: i32| v as int)
}

/// The rows of `rows` as sequences of integers.
pub open spec fn tables(rows: Seq<Vec<i32>>) -> Seq<Seq<int>> {
    rows.map_values(|row: Vec<i32>| readings(row@))
}

/// The differences of neighbouring entries of `row`.
pub open spec fn differences(row: Seq<int>) -> Seq<int> {
    if row.len() == 0 {
        Seq::empty()
    } else {
        Seq::new((row.len() - 1) as nat, |i: int| row[i + 1] - row[i])
    }
}

/// Whether every entry of `row` is zero.
pub open spec fn all_zero(row: Seq<int>) -> bool {
    forall|i: int| 0 <= i < row.len() ==> row[i] == 0
}

/// The table of differences of `row`: the row itself, then its differences,
/// then theirs, down to the first row of differences that is all zero.
pub open spec fn triangle(row: Seq<int>) -> Seq<Seq<int>>
    decreases row.len(),
{
    if row.len() == 0 || all_zero(differences(row)) {
        seq![row, differences(row)]
    } else {
        seq![row] + triangle(differences(row))
    }
}

/// Whether every entry of every row fits in `i32`.
pub open spec fn all_fit(rows: Seq<Seq<int>>) -> bool {
    forall|r: int, c: int|
        0 <= r < rows.len() && 0 <= c < rows[r].len() ==> i32::MIN <= #[trigger] rows[r][c]
            <= i32::MAX
}

/// Whatever rows of `i32` hold fits in `i32`.
pub proof fn lemma_tables_fit(rows: Seq<Vec<i32>>)
    ensures
        all_fit(tables(rows)),
{
    assert forall|r: int, c: int|
        0 <= r < tables(rows).len() && 0 <= c < tables(rows)[r].len() implies i32::MIN
        <= #[trigger] tables(rows)[r][c] <= i32::MAX by {
        assert(tables(rows)[r][c] == rows[r]@[c] as int);
    }
}

/// The table of differences has at least two rows, and its second row holds
/// the differences of the first.
pub proof fn lemma_triangle_begins(row: Seq<int>)
    ensures
        triangle(row).len() >= 2,
        triangle(row)[0] == row,
        triangle(row)[1] == differences(row),
    decreases row.len(),
{
    if !(row.len() == 0 || all_zero(differences(row))) {
        lemma_triangle_begins(differences(row));
    }
}

/// The differences of `row`, or `None` when one of them leaves `i32`.
pub fn next_row(row: &Vec<i32>) -> (out: Option<Vec<i32>>)
    ensures
        out matches Some(next) ==> readings(next@) == differences(readings(row@)),
        out is None <==> exists|i: int|
            0 <= i < differences(readings(row@)).len() && !(i32::MIN <= #[trigger] differences(
                readings(row@),
            )[i] <= i32::MAX),
{
    let mut next: Vec<i32> = Vec::new();
    let ghost target = differences(readings(row@));
    let mut i: usize = 1;
    while i < row.len()
        invariant
            1 <= i,
            i <= row@.len() || (row@.len() == 0 && i == 1),
            target == differences(readings(row@)),
            next@.len() == i - 1,
            forall|j: int| 0 <= j < i - 1 ==> next@[j] as int == #[trigger] target[j],
        decreases row@.len() - i,
    {
        match row[i].checked_sub(row[i - 1]) {
            Some(d) => {
                next.push(d);
            },
            None => {
                assert(!(i32::MIN <= target[i - 1] <= i32::MAX));
                return None;
            },
        }
        i += 1;
    }
    assert(readings(next@) =~= target);
    Some(next)
}

/// Whether every entry of `row` is zero.
pub fn is_all_zero(row: &Vec<i32>) -> (out: bool)
    ensures
        out == all_zero(readings(row@)),
{
    let mut i: usize = 0;
    while i < row.len()
        invariant
            i <= row@.len(),
            forall|j: int| 0 <= j < i ==> readings(row@)[j] == 0,
        decreases row@.len() - i,
    {
        if row[i] != 0 {
            assert(readings(row@)[i as int] != 0);
            return false;
        }
        i += 1;
    }
    true
}

/// The table of differences of `history`, or `None` when an entry of the
/// table leaves `i32`.
pub fn extrapolate(history: &Vec<i32>) -> (out: Option<Vec<Vec<i32>>>)
    ensures
        out matches Some(rows) ==> tables(rows@) == triangle(readings(history@)),
        out is None <==> !all_fit(triangle(readings(history@))),
{
    let ghost whole = triangle(readings(history@));
    let mut histories: Vec<Vec<i32>> = Vec::new();
    let mut current: Vec<i32> = Vec::new();
    let mut k: usize = 0;
    while k < history.len()
        invariant
            k <= history@.len(),
            current@ == history@.take(k as int),
        decreases history@.len() - k,
    {
        current.push(history[k]);
        assert(history@.take(k + 1) =~= history@.take(k as int).push(history@[k as int]));
        k += 1;
    }
    assert(history@.take(k as int) =~= history@);
    loop
        invariant
            whole == triangle(readings(history@)),
            whole == tables(histories@) + triangle(readings(current@)),
        decreases current@.len(),
    {
        let ghost top = readings(current@);
        let ghost above = tables(histories@);
        proof {
            lemma_triangle_begins(top);
        }
        let next = match next_row(&current) {
            Some(next) => next,
            None => {
                proof {
                    let i = choose|i: int|
                        0 <= i < differences(top).len() && !(i32::MIN <= #[trigger] differences(
                            top,
                        )[i] <= i32::MAX);
                    let r = above.len() as int + 1;
                    assert(whole[r] == triangle(top)[1]);
                    assert(!(i32::MIN <= whole[r][i] <= i32::MAX));
                }
                return None;
            },
        };
        let done = current.len() == 0 || is_all_zero(&next);
        histories.push(current);
        proof {
            assert(tables(histories@) =~= above + seq![top]);
        }
        if done {
            let ghost upper = tables(histories@);
            histories.push(next);
            proof {
                let last = readings(next@);
                assert(tables(histories@) =~= upper + seq![last]);
                assert(triangle(top) =~= seq![top, last]);
                assert(whole =~= tables(histories@));
                lemma_tables_fit(histories@);
            }
            return Some(histories);
        }
        current = next;
        proof {
            assert(triangle(top) =~= seq![top] + triangle(readings(current@)));
            assert(whole =~= tables(histories@) + triangle(readings(current@)));
        }
    }
}

/// The sum of the last entries of the first `n` rows.
pub open spec fn sum_of_lasts(rows: Seq<Seq<int>>, n: int) -> int
    decreases n,
{
    if n <= 0 {
        0
    } else {
        sum_of_lasts(rows, n - 1) + rows[n - 1].last()
    }
}

/// What the rows from `n` on predict before their first entries: the first
/// entry of row `n` less what the rows below predict.
pub open spec fn value_before(rows: Seq<Seq<int>>, n: int) -> int
    decreases rows.len() - n,
{
    if n < 0 || n >= rows.len() {
        0
    } else {
        rows[n].first() - value_before(rows, n + 1)
    }
}

/// Whether no row is empty.
pub open spec fn no_row_empty(rows: Seq<Seq<int>>) -> bool {
    forall|r: int| 0 <= r < rows.len() ==> (#[trigger] rows[r]).len() > 0
}

/// The value that follows the last reading of `history`: the sum of the last
/// entries of its table of differences.
///
/// Returns `None` when the table has an empty row or an entry that leaves
/// `i32`, or the sum leaves `i32`.
pub fn part1(history: &Vec<i32>) -> (out: Option<i32>)
    ensures
        ({
            let rows = triangle(readings(history@));
            let total = sum_of_lasts(rows, rows.len() as int);
            &&& out is Some <==> all_fit(rows) && no_row_empty(rows) && i32::MIN <= total
                <= i32::MAX
            &&& out matches Some(v) ==> v == total
        }),
{
    let histories = match extrapolate(history) {
        Some(rows) => rows,
        None => { return None; },
    };
    let ghost rows = triangle(readings(history@));
    proof {
        lemma_tables_fit(histories@);
    }
    let mut total: i128 = 0;
    let mut k: usize = 0;
    while k < histories.len()
        invariant
            k <= histories@.len(),
            rows == triangle(readings(history@)),
            all_fit(rows),
            tables(histories@) == rows,
            total == sum_of_lasts(rows, k as int),
            -0x8000_0000 * k <= total <= 0x8000_0000 * k,
            forall|r: int| 0 <= r < k ==> (#[trigger] rows[r]).len() > 0,
        decreases histories@.len() - k,
    {
        let row = &histories[k];
        proof {
            assert(rows[k as int] == readings(row@));
        }
        if row.len() == 0 {
            assert(rows[k as int].len() == 0);
            return None;
        }
        let last = row[row.len() - 1];
        proof {
            assert(rows[k as int].last() == last as int);
            assert(0x8000_0000 * (k + 1) == 0x8000_0000 * k + 0x8000_0000) by (nonlinear_arith);
            assert(0x8000_0000 * (k + 1) <= 0x8000_0000 * 0x1_0000_0000_0000_0000)
                by (nonlinear_arith)
                requires
                    k + 1 <= 0x1_0000_0000_0000_0000,
            ;
        }
        total = total + last as i128;
        k += 1;
    }
    if total < i32::MIN as i128 || total > i32::MAX as i128 {
        return None;
    }
    Some(total as i32)
}

/// The value that precedes the first reading of `history`: the first entry
/// of each row of its table of differences less what the rows below
/// predict.
///
/// Returns `None` when the table has an empty row or an entry that leaves
/// `i32`, or a value on the way leaves `i32`.
pub fn part2(history: &Vec<i32>) -> (out: Option<i32>)
    ensures
        ({
            let rows = triangle(readings(history@));
            &&& out matches Some(v) ==> v == value_before(rows, 0) && all_fit(rows)
                && no_row_empty(rows)
            &&& out is None ==> !all_fit(rows) || !no_row_empty(rows) || exists|n: int|
                0 <= n < rows.len() && !(i32::MIN <= #[trigger] value_before(rows, n)
                    <= i32::MAX)
        }),
{
    let histories = match extrapolate(history) {
        Some(rows) => rows,
        None => { return None; },
    };
    let ghost rows = triangle(readings(history@));
    proof {
        lemma_tables_fit(histories@);
    }
    let mut acc: i32 = 0;
    let mut k: usize = histories.len();
    while k > 0
        invariant
            k <= histories@.len(),
            rows == triangle(readings(history@)),
            all_fit(rows),
            tables(histories@) == rows,
            acc == value_before(rows, k as int),
            forall|r: int| k <= r < rows.len() ==> (#[trigger] rows[r]).len() > 0,
        decreases k,
    {
        let row = &histories[k - 1];
        proof {
            assert(rows[k - 1] == readings(row@));
        }
        if row.len() == 0 {
            assert(rows[k - 1].len() == 0);
            return None;
        }
        proof {
            assert(rows[k - 1].first() == row@[0] as int);
            assert(value_before(rows, k - 1) == rows[k - 1].first() - value_before(
                rows,
                k as int,
            ));
        }
        match row[0].checked_sub(acc) {
            Some(v) => {
                acc = v;
            },
            None => {
                assert(!(i32::MIN <= value_before(rows, k - 1) <= i32::MAX));
                return None;
            },
        }
        k -= 1;
    }
    Some(acc)
}

/// The readings that the words of a line write, or `None` when a word is no
/// number that fits in `i32`.
pub open spec fn history_of(line: Seq<char>) -> Option<Seq<i32>> {
    if forall|i: int|
        0 <= i < words(line).len() ==> signed_of(
            #[trigger] words(line)[i],
            i32::MIN as int,
            i32::MAX as int,
        ) is Some {
        Some(
            Seq::new(
                words(line).len(),
                |i: int| signed_of(words(line)[i], i32::MIN as int, i32::MAX as int)->0 as i32,
            ),
        )
    } else {
        None
    }
}

/// Reads the readings of a line such as `0 3 6 9 12 15`.
pub fn parse_history(line: &str) -> (out: Option<Vec<i32>>)
    ensures
        out is Some <==> history_of(line@) is Some,
        out matches Some(history) ==> history_of(line@) == Some(history@),
{
    let chars = to_chars(line);
    let parts = split_whitespace(&chars);
    let mut history: Vec<i32> = Vec::new();
    let mut k: usize = 0;
    while k < parts.len()
        invariant
            k <= parts@.len(),
            chars@ == line@,
            views(parts@) == words(chars@),
            history@.len() == k,
            forall|i: int|
                0 <= i < k ==> signed_of(
                    #[trigger] words(chars@)[i],
                    i32::MIN as int,
                    i32::MAX as int,
                ) == Some(history@[i] as int),
        decreases parts@.len() - k,
    {
        proof {
            assert(views(parts@)[k as int] == parts@[k as int]@);
        }
        match parse_signed(&parts[k], i32::MIN as i64, i32::MAX as i64) {
            Some(v) => {
                history.push(v as i32);
            },
            None => {
                return None;
            },
        }
        k += 1;
    }
    proof {
        assert(views(parts@).len() == parts@.len());
        assert(history@ =~= history_of(line@)->0);
    }
    Some(history)
}

} // verus!
