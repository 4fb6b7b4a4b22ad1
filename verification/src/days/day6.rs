//! Boat races: in how many ways a race can be won.

use crate::text::{
    join_all, joined, numbers_of, parse_unsigned, read_numbers, second_field, second_of,
    split_whitespace, to_chars, unsigned_of, views, words,
};
use vstd::prelude::*;

verus! {

/// How far a boat gets in a race of `time` when its button is held for
/// `hold`.
pub open spec fn reach(time: int, hold: int) -> int {
    hold * (time - hold)
}

/// The number of holding times below `upto` that beat `distance`.
pub open spec fn wins_below(time: int, distance: int, upto: int) -> nat
    decreases upto,
{
    if upto <= 0 {
        0
    } else {
        wins_below(time, distance, upto - 1) + if reach(time, upto - 1) > distance {
            1nat
        } else {
            0nat
        }
    }
}

/// At most `upto` holding times below `upto` win.
pub proof fn lemma_wins_bounded(time: int, distance: int, upto: int)
    requires
        0 <= upto,
    ensures
        wins_below(time, distance, upto) <= upto,
    decreases upto,
{
    if upto > 0 {
        lemma_wins_bounded(time, distance, upto - 1);
    }
}

/// The number of ways to win a race: the holding times from zero up to but
/// not including `time` that get the boat farther than `distance`.
pub fn ways_to_win(time: u64, distance: u64) -> (out: u64)
    ensures
        out == wins_below(time as int, distance as int, time as int),
{
    let mut count: u64 = 0;
    let mut hold: u64 = 0;
    while hold < time
        invariant
            hold <= time,
            count == wins_below(time as int, distance as int, hold as int),
            count <= hold,
        decreases time - hold,
    {
        proof {
            assert(0 <= hold * (time - hold) <= 0xFFFF_FFFF_FFFF_FFFF * 0xFFFF_FFFF_FFFF_FFFF)
                by (nonlinear_arith)
                requires
                    0 <= hold <= 0xFFFF_FFFF_FFFF_FFFF,
                    0 <= time - hold <= 0xFFFF_FFFF_FFFF_FFFF,
            ;
        }
        let far: u128 = (hold as u128) * ((time - hold) as u128);
        if far > distance as u128 {
            count += 1;
        }
        hold += 1;
    }
    count
}

/// The product of the numbers of ways to win the first `n` races.
pub open spec fn ways_product(times: Seq<u64>, distances: Seq<u64>, n: int) -> nat
    decreases n,
{
    if n <= 0 {
        1
    } else {
        ways_product(times, distances, n - 1) * wins_below(
            times[n - 1] as int,
            distances[n - 1] as int,
            times[n - 1] as int,
        )
    }
}

/// The product of the numbers of ways to win each of the races; races
/// without a partner in the shorter list are left out. `None` when the
/// product leaves `u64`.
pub fn margin(times: &Vec<u64>, distances: &Vec<u64>) -> (out: Option<u64>)
    ensures
        ({
            let n = if times@.len() <= distances@.len() {
                times@.len() as int
            } else {
                distances@.len() as int
            };
            &&& out matches Some(v) ==> v == ways_product(times@, distances@, n)
            &&& out is None ==> exists|k: int|
                0 <= k <= n && #[trigger] ways_product(times@, distances@, k) > u64::MAX
        }),
{
    let n = if times.len() <= distances.len() {
        times.len()
    } else {
        distances.len()
    };
    let mut product: u64 = 1;
    let mut k: usize = 0;
    while k < n
        invariant
            k <= n,
            n <= times@.len(),
            n <= distances@.len(),
            product == ways_product(times@, distances@, k as int),
        decreases n - k,
    {
        let ways = ways_to_win(times[k], distances[k]);
        match product.checked_mul(ways) {
            Some(v) => {
                product = v;
            },
            None => {
                assert(ways_product(times@, distances@, k + 1) > u64::MAX);
                return None;
            },
        }
        k += 1;
    }
    Some(product)
}

/// The numbers that a line such as `Time:  7 15 30` lists after its first
/// colon, up to the next colon; `None` without a colon or when a word is no
/// number of at most `limit`.
pub open spec fn listed(line: Seq<char>, limit: nat) -> Option<Seq<u64>> {
    match second_of(line, ':') {
        Some(field) => numbers_of(field, limit),
        None => None,
    }
}

/// Reads the numbers of a line such as `Time:  7 15 30`.
pub fn parse_numbers(line: &str, limit: u64) -> (out: Option<Vec<u64>>)
    ensures
        out is Some <==> listed(line@, limit as nat) is Some,
        out matches Some(list) ==> listed(line@, limit as nat) == Some(list@),
{
    let chars = to_chars(line);
    match second_field(&chars, ':') {
        Some(field) => read_numbers(&field, limit),
        None => None,
    }
}

/// The one number that a line such as `Time:  7 15 30` writes after its
/// first colon when the white space between its digits is ignored.
pub open spec fn listed_as_one(line: Seq<char>) -> Option<nat> {
    match second_of(line, ':') {
        Some(field) => unsigned_of(
            joined(words(field), words(field).len() as int),
            10,
            u64::MAX as nat,
        ),
        None => None,
    }
}

/// Reads a line such as `Time:  7 15 30` as the one number `71530`.
pub fn parse_joined(line: &str) -> (out: Option<u64>)
    ensures
        out is Some <==> listed_as_one(line@) is Some,
        out matches Some(v) ==> listed_as_one(line@) == Some(v as nat),
{
    let chars = to_chars(line);
    let field = match second_field(&chars, ':') {
        Some(field) => field,
        None => { return None; },
    };
    let parts = split_whitespace(&field);
    proof {
        assert(views(parts@).len() == parts@.len());
    }
    let digits = join_all(&parts);
    parse_unsigned(&digits, u64::MAX)
}

} // verus!
