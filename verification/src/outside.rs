//! What the library takes from other crates and from parts of the standard
//! library that have no verified specification. Every contract in this file
//! is believed, not proved.

use itertools::Itertools;
use vstd::prelude::*;

verus! {

/// The groups that the regular expression `pattern` captures at its first
/// match in `text`: group zero is the whole match, group `k` the text that
/// the `k`-th opening parenthesis of the pattern captured, or `None` where
/// that group took no part in the match. The whole is `None` when `pattern`
/// is no valid expression or matches nowhere in `text`.
pub uninterp spec fn regex_groups(pattern: Seq<char>, text: Seq<char>) -> Option<
    Seq<Option<Seq<char>>>,
>;

/// The views of a list of optional character vectors.
pub open spec fn group_views(groups: Seq<Option<Vec<char>>>) -> Seq<Option<Seq<char>>> {
    groups.map_values(
        |g: Option<Vec<char>>|
            match g {
                Some(chars) => Some(chars@),
                None => None,
            },
    )
}

/// Compiles `pattern` with `regex::Regex::new` and searches `text` with
/// `Regex::captures`. The contract gives the outcome its name,
/// `regex_groups`, and claims nothing else of it.
#[verifier::external_body]
pub(crate) fn captures(pattern: &str, text: &str) -> (out: Option<Vec<Option<Vec<char>>>>)
    ensures
        out matches Some(groups) ==> regex_groups(pattern@, text@) == Some(group_views(groups@)),
        out is None ==> regex_groups(pattern@, text@) is None,
{
    let re = match regex::Regex::new(pattern) {
        Ok(re) => re,
        Err(_) => return None,
    };
    match re.captures(text) {
        Some(found) => Some(found.iter().map(|m| m.map(|m| m.as_str().chars().collect())).collect()),
        None => None,
    }
}

/// `String::push` appends one character to the end of the string.
pub assume_specification[ String::push ](s: &mut String, c: char)
    ensures
        final(s)@ == old(s)@.push(c),
;

/// Whether `table` lists every character of `s` once, with the number of
/// times it occurs in `s`, the most frequent first and, among equally
/// frequent characters, the lesser character first.
pub open spec fn is_frequency_table(s: Seq<char>, table: Seq<(char, usize)>) -> bool {
    &&& forall|i: int|
        0 <= i < table.len() ==> (#[trigger] table[i]).1 > 0 && table[i].1 == s.to_multiset().count(
            table[i].0,
        )
    &&& forall|j: int|
        0 <= j < s.len() ==> exists|i: int|
            0 <= i < table.len() && (#[trigger] table[i]).0 == #[trigger] s[j]
    &&& forall|i: int, j: int|
        0 <= i < j < table.len() ==> (#[trigger] table[i]).1 > (#[trigger] table[j]).1 || (
        table[i].1 == table[j].1 && table[i].0 < table[j].0)
}

/// Counts the characters with `counter::Counter` and lists them with
/// `Counter::most_common_ordered`: each character with its count, sorted by
/// falling count and, for equal counts, by rising character.
#[verifier::external_body]
pub(crate) fn most_common(chars: &Vec<char>) -> (out: Vec<(char, usize)>)
    ensures
        is_frequency_table(chars@, out@),
{
    chars.iter().copied().collect::<counter::Counter<char>>().most_common_ordered()
}

/// What `lcmx::lcmx` returns for `values`: the least common multiple of all
/// of them, folded from the left, and `None` for an empty list.
pub uninterp spec fn lcmx_of(values: Seq<u64>) -> Option<u64>;

/// Whether `lcmx::lcmx` runs on `values` without a division by zero and
/// without a product that leaves `u64`: no value but the first is zero, and
/// the multiple of each prefix times the next value fits.
pub open spec fn lcmx_runs(values: Seq<u64>) -> bool {
    forall|i: int|
        1 <= i < values.len() ==> (#[trigger] values[i]) != 0 && lcmx_of(values.take(i)) is Some
            && lcmx_of(values.take(i))->0 * values[i] <= u64::MAX
}

/// Calls `lcmx::lcmx`, which folds the values from the left with
/// `a * b / gcd(a, b)`. The contract names the result and says that it is
/// `Some` exactly for a non-empty list, and the value itself for a list of
/// one.
#[verifier::external_body]
pub(crate) fn lcm_of_all(values: &Vec<u64>) -> (out: Option<u64>)
    requires
        lcmx_runs(values@),
    ensures
        out == lcmx_of(values@),
        out is Some <==> values@.len() > 0,
        values@.len() == 1 ==> out == Some(values@[0]),
{
    lcmx::lcmx(values)
}

/// Calls `ascii_converter::string_to_decimals`: every character cast to a
/// byte when all of them are below 128, and an error otherwise.
#[verifier::external_body]
pub(crate) fn decimals(text: &str) -> (out: Option<Vec<u8>>)
    ensures
        out is Some <==> forall|i: int| 0 <= i < text@.len() ==> (text@[i] as u32) < 128,
        out matches Some(codes) ==> codes@ == Seq::new(text@.len(), |i: int| text@[i] as u8),
{
    ascii_converter::string_to_decimals(text).ok()
}

/// Calls `Itertools::next_tuple` on the items: the first two, when there
/// are at least two.
#[verifier::external_body]
pub(crate) fn first_two<T>(items: Vec<T>) -> (out: Option<(T, T)>)
    ensures
        out is Some <==> items@.len() >= 2,
        out matches Some(pair) ==> pair.0 == items@[0] && pair.1 == items@[1],
{
    items.into_iter().next_tuple()
}

/// Calls `Itertools::next_tuple` on the items: the first three, when there
/// are at least three.
#[verifier::external_body]
pub(crate) fn first_three<T>(items: Vec<T>) -> (out: Option<(T, T, T)>)
    ensures
        out is Some <==> items@.len() >= 3,
        out matches Some(triple) ==> triple.0 == items@[0] && triple.1 == items@[1] && triple.2
            == items@[2],
{
    items.into_iter().next_tuple()
}

/// Calls `Itertools::collect_tuple` on the items: all three, when there are
/// exactly three.
#[verifier::external_body]
pub(crate) fn exactly_three<T>(items: Vec<T>) -> (out: Option<(T, T, T)>)
    ensures
        out is Some <==> items@.len() == 3,
        out matches Some(triple) ==> triple.0 == items@[0] && triple.1 == items@[1] && triple.2
            == items@[2],
{
    items.into_iter().collect_tuple()
}

/// Calls `Itertools::tuples` on the items: the first with the second, the
/// third with the fourth, and so on; a last item without a partner is
/// dropped.
#[verifier::external_body]
pub(crate) fn in_pairs<T>(items: Vec<T>) -> (out: Vec<(T, T)>)
    ensures
        out@.len() == items@.len() / 2,
        forall|i: int|
            0 <= i < out@.len() ==> (#[trigger] out@[i]).0 == items@[2 * i] && out@[i].1
                == items@[2 * i + 1],
{
    items.into_iter().tuples().collect()
}

/// `rusttype::Point`: a point of the plane with the two public coordinates
/// `x` and `y`.
#[verifier::external_type_specification]
#[verifier::reject_recursive_types(N)]
pub struct ExPoint<N>(rusttype::Point<N>);

/// `rusttype::Vector`: the difference of two points, with the two public
/// coordinates `x` and `y`.
#[verifier::external_type_specification]
#[verifier::reject_recursive_types(N)]
pub struct ExVector<N>(rusttype::Vector<N>);

/// Subtracts two `rusttype::Point`s with the crate's `Sub`: the vector of
/// the differences of their coordinates.
#[verifier::external_body]
pub(crate) fn offset_between(b: rusttype::Point<isize>, a: rusttype::Point<isize>) -> (out:
    rusttype::Vector<isize>)
    requires
        isize::MIN <= b.x - a.x <= isize::MAX,
        isize::MIN <= b.y - a.y <= isize::MAX,
    ensures
        out.x == b.x - a.x,
        out.y == b.y - a.y,
{
    b - a
}

} // verus!
