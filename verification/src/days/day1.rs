//! Calibration values: the first and the last digit that a line holds, as a
//! character or spelled out.

use crate::text::{find_from, first_from, occurs_at, stands_at, to_chars};
use vstd::prelude::*;

verus! {

/// The value of `c` as a decimal digit.
pub open spec fn digit_of(c: char) -> Option<u32> {
    if '0' <= c <= '9' {
        Some((c as u32 - '0' as u32) as u32)
    } else {
        None
    }
}

/// The first digit among the characters from `from` on.
pub open spec fn first_digit(line: Seq<char>, from: int) -> Option<u32>
    decreases line.len() - from,
{
    if from < 0 || from >= line.len() {
        None
    } else {
        match digit_of(line[from]) {
            Some(d) => Some(d),
            None => first_digit(line, from + 1),
        }
    }
}

/// The last digit among the first `n` characters.
pub open spec fn last_digit(line: Seq<char>, n: int) -> Option<u32>
    decreases n,
{
    if n <= 0 {
        None
    } else {
        match digit_of(line[n - 1]) {
            Some(d) => Some(d),
            None => last_digit(line, n - 1),
        }
    }
}

/// The calibration value of a line: ten times its first digit plus its
/// last digit, or `None` for a line without a digit.
pub open spec fn value_of_line(line: Seq<char>) -> Option<u32> {
    match (first_digit(line, 0), last_digit(line, line.len() as int)) {
        (Some(a), Some(b)) => Some((a * 10 + b) as u32),
        _ => None,
    }
}

/// The value of `c` as a decimal digit.
pub fn to_digit(c: char) -> (out: Option<u32>)
    ensures
        out == digit_of(c),
        out matches Some(d) ==> d <= 9,
{
    if c >= '0' && c <= '9' {
        Some(c as u32 - '0' as u32)
    } else {
        None
    }
}

/// The calibration value of a line.
pub fn calibration(line: &str) -> (out: Option<u32>)
    ensures
        out == value_of_line(line@),
{
    let chars = to_chars(line);
    let mut i: usize = 0;
    while i < chars.len() && to_digit(chars[i]).is_none()
        invariant
            i <= chars@.len(),
            first_digit(chars@, 0) == first_digit(chars@, i as int),
        decreases chars@.len() - i,
    {
        i += 1;
    }
    if i == chars.len() {
        return None;
    }
    let a = to_digit(chars[i]).unwrap();
    let mut j: usize = chars.len();
    while j > 0 && to_digit(chars[j - 1]).is_none()
        invariant
            j <= chars@.len(),
            last_digit(chars@, chars@.len() as int) == last_digit(chars@, j as int),
        decreases j,
    {
        j -= 1;
    }
    if j == 0 {
        proof {
            lemma_digit_both_ways(chars@, i as int);
        }
        return None;
    }
    let b = to_digit(chars[j - 1]).unwrap();
    Some(a * 10 + b)
}

/// A line that has a first digit has a last one.
proof fn lemma_digit_both_ways(line: Seq<char>, i: int)
    requires
        0 <= i < line.len(),
        digit_of(line[i]) is Some,
    ensures
        last_digit(line, line.len() as int) is Some,
{
    lemma_last_digit_found(line, i, line.len() as int);
}

/// A digit among the first `n` characters gives them a last digit.
proof fn lemma_last_digit_found(line: Seq<char>, i: int, n: int)
    requires
        0 <= i < n,
        digit_of(line[i]) is Some,
    ensures
        last_digit(line, n) is Some,
    decreases n,
{
    if digit_of(line[n - 1]) is None {
        lemma_last_digit_found(line, i, n - 1);
    }
}

/// The last index, `upto` at most, at which `pattern` stands in `text`.
pub open spec fn last_upto(text: Seq<char>, pattern: Seq<char>, upto: int) -> Option<int>
    decreases upto + 1,
{
    if upto < 0 {
        None
    } else if occurs_at(text, pattern, upto) {
        Some(upto)
    } else {
        last_upto(text, pattern, upto - 1)
    }
}

/// Among the first `n` entries of `mapping`, the one whose text stands
/// first in `line`, as the index at which it stands and its value. Of two
/// entries that stand first at the same index the earlier one is taken.
pub open spec fn earliest(mapping: Seq<(Seq<char>, u32)>, line: Seq<char>, n: int) -> Option<
    (int, u32),
>
    decreases n,
{
    if n <= 0 {
        None
    } else {
        let before = earliest(mapping, line, n - 1);
        match (before, first_from(line, mapping[n - 1].0, 0)) {
            (Some(b), Some(i)) => if i < b.0 {
                Some((i, mapping[n - 1].1))
            } else {
                before
            },
            (None, Some(i)) => Some((i, mapping[n - 1].1)),
            (_, None) => before,
        }
    }
}

/// Among the first `n` entries of `mapping`, the one whose text stands last
/// in `line`, as the index at which it stands and its value. Of two entries
/// that stand last at the same index the later one is taken.
pub open spec fn latest(mapping: Seq<(Seq<char>, u32)>, line: Seq<char>, n: int) -> Option<
    (int, u32),
>
    decreases n,
{
    if n <= 0 {
        None
    } else {
        let before = latest(mapping, line, n - 1);
        match (before, last_upto(line, mapping[n - 1].0, line.len() as int)) {
            (Some(b), Some(i)) => if i >= b.0 {
                Some((i, mapping[n - 1].1))
            } else {
                before
            },
            (None, Some(i)) => Some((i, mapping[n - 1].1)),
            (_, None) => before,
        }
    }
}

/// The texts and values of a mapping.
pub open spec fn mapping_view(mapping: Seq<(&str, u32)>) -> Seq<(Seq<char>, u32)> {
    mapping.map_values(|entry: (&str, u32)| (entry.0@, entry.1))
}

/// The first index at which `pattern` stands in `text`.
pub fn find(text: &Vec<char>, pattern: &Vec<char>) -> (out: Option<usize>)
    ensures
        out is Some <==> first_from(text@, pattern@, 0) is Some,
        out matches Some(i) ==> first_from(text@, pattern@, 0) == Some(i as int),
{
    if pattern.len() == 0 {
        proof {
            assert(text@.subrange(0, 0) =~= pattern@);
        }
        return Some(0);
    }
    find_from(text, pattern, 0)
}

/// The last index at which `pattern` stands in `text`.
pub fn rfind(text: &Vec<char>, pattern: &Vec<char>) -> (out: Option<usize>)
    ensures
        out is Some <==> last_upto(text@, pattern@, text@.len() as int) is Some,
        out matches Some(i) ==> last_upto(text@, pattern@, text@.len() as int) == Some(i as int),
{
    let mut i: usize = text.len();
    loop
        invariant
            i <= text@.len(),
            last_upto(text@, pattern@, text@.len() as int) == last_upto(text@, pattern@, i as int),
        decreases i,
    {
        if stands_at(text, pattern, i) {
            return Some(i);
        }
        if i == 0 {
            return None;
        }
        i -= 1;
    }
}

/// The value of the entry of `mapping` whose text stands first in `input`,
/// or `None` when none of the texts stands in it.
pub fn first(mapping: &Vec<(&str, u32)>, input: &str) -> (out: Option<u32>)
    ensures
        out == match earliest(mapping_view(mapping@), input@, mapping@.len() as int) {
            Some(found) => Some(found.1),
            None => None,
        },
{
    let line = to_chars(input);
    let ghost list = mapping_view(mapping@);
    let mut best: Option<(usize, u32)> = None;
    let mut k: usize = 0;
    while k < mapping.len()
        invariant
            k <= mapping@.len(),
            line@ == input@,
            list == mapping_view(mapping@),
            match best {
                Some(b) => earliest(list, line@, k as int) == Some((b.0 as int, b.1)),
                None => earliest(list, line@, k as int) is None,
            },
        decreases mapping@.len() - k,
    {
        let pattern = to_chars(mapping[k].0);
        proof {
            assert(list[k as int] == (mapping@[k as int].0@, mapping@[k as int].1));
        }
        match find(&line, &pattern) {
            Some(i) => {
                let better = match best {
                    Some(b) => i < b.0,
                    None => true,
                };
                if better {
                    best = Some((i, mapping[k].1));
                }
            },
            None => {},
        }
        k += 1;
    }
    match best {
        Some(b) => Some(b.1),
        None => None,
    }
}

/// The value of the entry of `mapping` whose text stands last in `input`,
/// or `None` when none of the texts stands in it.
pub fn last(mapping: &Vec<(&str, u32)>, input: &str) -> (out: Option<u32>)
    ensures
        out == match latest(mapping_view(mapping@), input@, mapping@.len() as int) {
            Some(found) => Some(found.1),
            None => None,
        },
{
    let line = to_chars(input);
    let ghost list = mapping_view(mapping@);
    let mut best: Option<(usize, u32)> = None;
    let mut k: usize = 0;
    while k < mapping.len()
        invariant
            k <= mapping@.len(),
            line@ == input@,
            list == mapping_view(mapping@),
            match best {
                Some(b) => latest(list, line@, k as int) == Some((b.0 as int, b.1)),
                None => latest(list, line@, k as int) is None,
            },
        decreases mapping@.len() - k,
    {
        let pattern = to_chars(mapping[k].0);
        proof {
            assert(list[k as int] == (mapping@[k as int].0@, mapping@[k as int].1));
        }
        match rfind(&line, &pattern) {
            Some(i) => {
                let better = match best {
                    Some(b) => i >= b.0,
                    None => true,
                };
                if better {
                    best = Some((i, mapping[k].1));
                }
            },
            None => {},
        }
        k += 1;
    }
    match best {
        Some(b) => Some(b.1),
        None => None,
    }
}

/// The digits from one to nine, each as a character and spelled out, with
/// their values.
pub fn digit_names() -> (out: Vec<(&'static str, u32)>)
    ensures
        out@.len() == 18,
        forall|i: int| 0 <= i < 9 ==> (#[trigger] out@[i]).1 == i + 1,
        forall|i: int| 9 <= i < 18 ==> (#[trigger] out@[i]).1 == i - 8,
        out@[0].0@ == "1"@ && out@[1].0@ == "2"@ && out@[2].0@ == "3"@,
        out@[3].0@ == "4"@ && out@[4].0@ == "5"@ && out@[5].0@ == "6"@,
        out@[6].0@ == "7"@ && out@[7].0@ == "8"@ && out@[8].0@ == "9"@,
        out@[9].0@ == "one"@ && out@[10].0@ == "two"@ && out@[11].0@ == "three"@,
        out@[12].0@ == "four"@ && out@[13].0@ == "five"@ && out@[14].0@ == "six"@,
        out@[15].0@ == "seven"@ && out@[16].0@ == "eight"@ && out@[17].0@ == "nine"@,
{
    let mut out: Vec<(&'static str, u32)> = Vec::new();
    out.push(("1", 1));
    out.push(("2", 2));
    out.push(("3", 3));
    out.push(("4", 4));
    out.push(("5", 5));
    out.push(("6", 6));
    out.push(("7", 7));
    out.push(("8", 8));
    out.push(("9", 9));
    out.push(("one", 1));
    out.push(("two", 2));
    out.push(("three", 3));
    out.push(("four", 4));
    out.push(("five", 5));
    out.push(("six", 6));
    out.push(("seven", 7));
    out.push(("eight", 8));
    out.push(("nine", 9));
    out
}

/// The sum of the calibration values of the first `n` lines; a line
/// without a digit adds nothing.
pub open spec fn digits_total(lines: Seq<Seq<char>>, n: int) -> int
    decreases n,
{
    if n <= 0 {
        0
    } else {
        digits_total(lines, n - 1) + match value_of_line(lines[n - 1]) {
            Some(v) => v as int,
            None => 0,
        }
    }
}

/// The views of a list of texts.
pub open spec fn line_views(lines: Seq<String>) -> Seq<Seq<char>> {
    lines.map_values(|l: String| l@)
}

/// The sum of the calibration values of all lines that hold a digit, or
/// `None` when the sum leaves `u32`.
pub fn part1(lines: &Vec<String>) -> (out: Option<u32>)
    ensures
        out matches Some(total) ==> total == digits_total(
            line_views(lines@),
            lines@.len() as int,
        ),
        out is None ==> digits_total(line_views(lines@), lines@.len() as int) > u32::MAX,
{
    let ghost list = line_views(lines@);
    let mut total: u32 = 0;
    let mut k: usize = 0;
    while k < lines.len()
        invariant
            k <= lines@.len(),
            list == line_views(lines@),
            total == digits_total(list, k as int),
        decreases lines@.len() - k,
    {
        proof {
            assert(list[k as int] == lines@[k as int]@);
        }
        match calibration(lines[k].as_str()) {
            Some(v) => match total.checked_add(v) {
                Some(t) => {
                    total = t;
                },
                None => {
                    proof {
                        lemma_digits_total_grows(list, k + 1, lines@.len() as int);
                    }
                    return None;
                },
            },
            None => {},
        }
        k += 1;
    }
    Some(total)
}

/// More lines do not add up to less.
proof fn lemma_digits_total_grows(lines: Seq<Seq<char>>, n: int, m: int)
    requires
        0 <= n <= m,
    ensures
        digits_total(lines, n) <= digits_total(lines, m),
    decreases m - n,
{
    if n < m {
        lemma_digits_total_grows(lines, n, m - 1);
    }
}

/// The value of a line when digits may be spelled out: ten times the value
/// of what stands first plus the value of what stands last.
pub open spec fn named_value(mapping: Seq<(Seq<char>, u32)>, line: Seq<char>) -> Option<int> {
    match (
        earliest(mapping, line, mapping.len() as int),
        latest(mapping, line, mapping.len() as int),
    ) {
        (Some(a), Some(b)) => Some(a.1 * 10 + b.1),
        _ => None,
    }
}

/// The sum of the values of the first `n` lines, or `None` when one of
/// them has no value.
pub open spec fn names_total(mapping: Seq<(Seq<char>, u32)>, lines: Seq<Seq<char>>, n: int) -> Option<
    int,
>
    decreases n,
{
    if n <= 0 {
        Some(0)
    } else {
        match (names_total(mapping, lines, n - 1), named_value(mapping, lines[n - 1])) {
            (Some(before), Some(v)) => Some(before + v),
            _ => None,
        }
    }
}

/// Once a line has no value, no longer list of lines has a total.
proof fn lemma_names_total_stays_none(
    mapping: Seq<(Seq<char>, u32)>,
    lines: Seq<Seq<char>>,
    n: int,
    m: int,
)
    requires
        names_total(mapping, lines, n) is None,
        n <= m,
    ensures
        names_total(mapping, lines, m) is None,
    decreases m - n,
{
    if n < m {
        lemma_names_total_stays_none(mapping, lines, n, m - 1);
    }
}

/// The total never falls and is never negative.
proof fn lemma_names_total_grows(
    mapping: Seq<(Seq<char>, u32)>,
    lines: Seq<Seq<char>>,
    n: int,
    m: int,
)
    requires
        0 <= n <= m,
        names_total(mapping, lines, m) is Some,
    ensures
        names_total(mapping, lines, n) is Some,
        names_total(mapping, lines, n)->0 <= names_total(mapping, lines, m)->0,
    decreases m - n,
{
    if n < m {
        lemma_names_total_grows(mapping, lines, n, m - 1);
    }
}

/// The sum of the values of all lines when digits may be spelled out as
/// `mapping` says; `None` when a line has no value or the sum leaves `u32`.
pub fn part2(mapping: &Vec<(&str, u32)>, lines: &Vec<String>) -> (out: Option<u32>)
    ensures
        out matches Some(total) ==> names_total(
            mapping_view(mapping@),
            line_views(lines@),
            lines@.len() as int,
        ) == Some(total as int),
        out is None ==> names_total(
            mapping_view(mapping@),
            line_views(lines@),
            lines@.len() as int,
        ) is None || names_total(
            mapping_view(mapping@),
            line_views(lines@),
            lines@.len() as int,
        )->0 > u32::MAX,
{
    let ghost list = line_views(lines@);
    let ghost names = mapping_view(mapping@);
    let mut total: u32 = 0;
    let mut k: usize = 0;
    while k < lines.len()
        invariant
            k <= lines@.len(),
            list == line_views(lines@),
            names == mapping_view(mapping@),
            names.len() == mapping@.len(),
            names_total(names, list, k as int) == Some(total as int),
        decreases lines@.len() - k,
    {
        proof {
            assert(list[k as int] == lines@[k as int]@);
        }
        let a = first(mapping, lines[k].as_str());
        let b = last(mapping, lines[k].as_str());
        let value = match (a, b) {
            (Some(a), Some(b)) => match a.checked_mul(10) {
                Some(tens) => tens.checked_add(b),
                None => None,
            },
            _ => {
                proof {
                    lemma_names_total_stays_none(names, list, k + 1, lines@.len() as int);
                }
                return None;
            },
        };
        let next = match value {
            Some(v) => total.checked_add(v),
            None => None,
        };
        match next {
            Some(t) => {
                total = t;
            },
            None => {
                proof {
                    if names_total(names, list, lines@.len() as int) is Some {
                        lemma_names_total_grows(names, list, k + 1, lines@.len() as int);
                    }
                }
                return None;
            },
        }
        k += 1;
    }
    Some(total)
}

} // verus!
