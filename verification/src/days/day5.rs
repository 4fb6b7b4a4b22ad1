//! Almanac maps: where a source number is mapped to, and the lowest location
//! that any seed reaches through a chain of maps.

use crate::outside::{captures, first_three, group_views, in_pairs, regex_groups};
use crate::text::{
    after_last, numbers_of, parse_unsigned, read_numbers, split_whitespace, tail_after, to_chars,
    to_text, unsigned_of, views, words,
};
use core::ops::Range;
use vstd::prelude::*;

verus! {

/// One map of an almanac: the names of what it maps from and to, and its
/// ranges, each a destination range with the source range it stands for.
#[derive(Debug, Clone, PartialEq, Eq)]
pub struct SeedMap {
    pub source: String,
    pub destination: String,
    pub ranges: Vec<(Range<u64>, Range<u64>)>,
}

/// Whether a pair of ranges is well formed: the source range is not
/// reversed and the destination range has room for all of it.
pub open spec fn pair_fits(pair: (Range<u64>, Range<u64>)) -> bool {
    pair.1.start <= pair.1.end && pair.0.start + (pair.1.end - pair.1.start) <= u64::MAX
}

/// The index of the first of the first `n` pairs whose source range holds
/// `number`.
pub open spec fn holder(ranges: Seq<(Range<u64>, Range<u64>)>, number: u64, n: int) -> Option<int>
    decreases n,
{
    if n <= 0 {
        None
    } else {
        match holder(ranges, number, n - 1) {
            Some(i) => Some(i),
            None => if ranges[n - 1].1.start <= number < ranges[n - 1].1.end {
                Some(n - 1)
            } else {
                None
            },
        }
    }
}

/// Where `ranges` map `number`: by the first pair whose source range holds
/// it, to the same offset in the destination range; to itself when no
/// source range holds it.
pub open spec fn mapped(ranges: Seq<(Range<u64>, Range<u64>)>, number: u64) -> int {
    match holder(ranges, number, ranges.len() as int) {
        Some(i) => ranges[i].0.start + (number - ranges[i].1.start),
        None => number as int,
    }
}

/// What `holder` finds is a pair whose source range holds the number.
pub proof fn lemma_holder(ranges: Seq<(Range<u64>, Range<u64>)>, number: u64, n: int)
    requires
        0 <= n <= ranges.len(),
    ensures
        holder(ranges, number, n) matches Some(i) ==> 0 <= i < n && ranges[i].1.start <= number
            < ranges[i].1.end,
    decreases n,
{
    if n > 0 {
        lemma_holder(ranges, number, n - 1);
    }
}

/// The pair of ranges that a line of three numbers stands for: the start of
/// the destination range, the start of the source range, and the length of
/// both.
pub open spec fn range_of(line: Seq<char>) -> Option<(Range<u64>, Range<u64>)> {
    let w = words(line);
    if w.len() >= 3 {
        match (
            unsigned_of(w[0], 10, u64::MAX as nat),
            unsigned_of(w[1], 10, u64::MAX as nat),
            unsigned_of(w[2], 10, u64::MAX as nat),
        ) {
            (Some(to), Some(from), Some(len)) => if to + len <= u64::MAX && from + len
                <= u64::MAX {
                Some(
                    (
                        Range { start: to as u64, end: (to + len) as u64 },
                        Range { start: from as u64, end: (from + len) as u64 },
                    ),
                )
            } else {
                None
            },
            _ => None,
        }
    } else {
        None
    }
}

/// Reads a line of three numbers as a pair of ranges.
pub fn parse_range(s: &str) -> (out: Option<(Range<u64>, Range<u64>)>)
    ensures
        out == range_of(s@),
        out matches Some(pair) ==> pair_fits(pair),
{
    let line = to_chars(s);
    let parts = split_whitespace(&line);
    let ghost w = words(line@);
    proof {
        assert(views(parts@).len() == parts@.len());
        if parts@.len() >= 3 {
            assert(views(parts@)[0] == parts@[0]@);
            assert(views(parts@)[1] == parts@[1]@);
            assert(views(parts@)[2] == parts@[2]@);
        }
    }
    let (a, b, c) = match first_three(parts) {
        Some(triple) => triple,
        None => { return None; },
    };
    let to = match parse_unsigned(&a, u64::MAX) {
        Some(v) => v,
        None => { return None; },
    };
    let from = match parse_unsigned(&b, u64::MAX) {
        Some(v) => v,
        None => { return None; },
    };
    let len = match parse_unsigned(&c, u64::MAX) {
        Some(v) => v,
        None => { return None; },
    };
    let to_end = match to.checked_add(len) {
        Some(v) => v,
        None => { return None; },
    };
    let from_end = match from.checked_add(len) {
        Some(v) => v,
        None => { return None; },
    };
    Some((Range { start: to, end: to_end }, Range { start: from, end: from_end }))
}

/// The names that the heading of a map gives, given the groups that the
/// pattern of a heading captured in it.
pub open spec fn heading_of_map(groups: Option<Seq<Option<Seq<char>>>>) -> Option<
    (Seq<char>, Seq<char>),
> {
    match groups {
        Some(g) => if g.len() == 3 && g[1] is Some && g[2] is Some {
            Some((g[1]->0, g[2]->0))
        } else {
            None
        },
        None => None,
    }
}

/// The pairs of ranges that the lines from `from` on stand for, or `None`
/// when one of them is no line of three numbers.
pub open spec fn ranges_of(lines: Seq<Seq<char>>, upto: int) -> Option<
    Seq<(Range<u64>, Range<u64>)>,
>
    decreases upto,
{
    if upto <= 1 {
        Some(Seq::empty())
    } else {
        match (ranges_of(lines, upto - 1), range_of(lines[upto - 1])) {
            (Some(before), Some(pair)) => Some(before.push(pair)),
            _ => None,
        }
    }
}

impl SeedMap {
    /// Whether every pair of ranges is well formed.
    pub open spec fn wf(&self) -> bool {
        forall|i: int| 0 <= i < self.ranges@.len() ==> pair_fits(#[trigger] self.ranges@[i])
    }

    /// The names of a heading, from the groups that its pattern captured.
    pub fn names_from(groups: &Vec<Option<Vec<char>>>) -> (out: Option<(String, String)>)
        ensures
            out is Some <==> heading_of_map(Some(group_views(groups@))) is Some,
            out matches Some(names) ==> heading_of_map(Some(group_views(groups@))) == Some(
                (names.0@, names.1@),
            ),
    {
        if groups.len() != 3 {
            return None;
        }
        proof {
            assert(group_views(groups@)[1] == match groups@[1] {
                Some(c) => Some(c@),
                None => None,
            });
            assert(group_views(groups@)[2] == match groups@[2] {
                Some(c) => Some(c@),
                None => None,
            });
        }
        match (&groups[1], &groups[2]) {
            (Some(a), Some(b)) => Some((to_text(a), to_text(b))),
            _ => None,
        }
    }

    /// Reads the lines of one map: a heading such as `seed-to-soil map:`,
    /// then one line of three numbers for each pair of ranges.
    ///
    /// Returns `None` when there is no heading or a line after it is no
    /// line of three numbers that fit.
    pub fn parse(lines: &Vec<String>) -> (out: Option<SeedMap>)
        ensures
            out matches Some(map) ==> {
                &&& lines@.len() > 0
                &&& heading_of_map(regex_groups("(\\w+)\\-to\\-(\\w+) map:"@, lines@[0]@)) == Some(
                    (map.source@, map.destination@),
                )
                &&& ranges_of(lines@.map_values(|l: String| l@), lines@.len() as int) == Some(
                    map.ranges@,
                )
                &&& map.wf()
            },
            out is None ==> lines@.len() == 0 || heading_of_map(
                regex_groups("(\\w+)\\-to\\-(\\w+) map:"@, lines@[0]@),
            ) is None || ranges_of(lines@.map_values(|l: String| l@), lines@.len() as int)
                is None,
    {
        if lines.len() == 0 {
            return None;
        }
        let names = match captures("(\\w+)\\-to\\-(\\w+) map:", lines[0].as_str()) {
            Some(groups) => match SeedMap::names_from(&groups) {
                Some(names) => names,
                None => { return None; },
            },
            None => { return None; },
        };
        let ghost texts = lines@.map_values(|l: String| l@);
        let mut ranges: Vec<(Range<u64>, Range<u64>)> = Vec::new();
        let mut k: usize = 1;
        while k < lines.len()
            invariant
                1 <= k <= lines@.len(),
                texts == lines@.map_values(|l: String| l@),
                ranges_of(texts, k as int) == Some(ranges@),
                forall|i: int| 0 <= i < ranges@.len() ==> pair_fits(#[trigger] ranges@[i]),
            decreases lines@.len() - k,
        {
            proof {
                assert(texts[k as int] == lines@[k as int]@);
            }
            match parse_range(lines[k].as_str()) {
                Some(pair) => {
                    ranges.push(pair);
                },
                None => {
                    proof {
                        lemma_ranges_stay_none(texts, k + 1, lines@.len() as int);
                    }
                    return None;
                },
            }
            k += 1;
        }
        Some(SeedMap { source: names.0, destination: names.1, ranges })
    }

    /// Where the map sends `source_number`.
    pub fn mapped_to(&self, source_number: u64) -> (out: u64)
        requires
            self.wf(),
        ensures
            out == mapped(self.ranges@, source_number),
    {
        let mut k: usize = 0;
        while k < self.ranges.len()
            invariant
                k <= self.ranges@.len(),
                self.wf(),
                holder(self.ranges@, source_number, k as int) is None,
            decreases self.ranges@.len() - k,
        {
            let pair = &self.ranges[k];
            if pair.1.start <= source_number && source_number < pair.1.end {
                proof {
                    assert(pair_fits(self.ranges@[k as int]));
                    assert(holder(self.ranges@, source_number, k + 1) == Some(k as int));
                    lemma_holder_stays(
                        self.ranges@,
                        source_number,
                        k + 1,
                        self.ranges@.len() as int,
                    );
                }
                return pair.0.start + (source_number - pair.1.start);
            }
            k += 1;
        }
        source_number
    }
}

/// Once a pair holds the number, later pairs do not change what is found.
pub proof fn lemma_holder_stays(
    ranges: Seq<(Range<u64>, Range<u64>)>,
    number: u64,
    n: int,
    m: int,
)
    requires
        holder(ranges, number, n) is Some,
        n <= m,
    ensures
        holder(ranges, number, m) == holder(ranges, number, n),
    decreases m - n,
{
    if n < m {
        lemma_holder_stays(ranges, number, n, m - 1);
    }
}

/// Once a line is no pair of ranges, no longer list of lines has ranges.
proof fn lemma_ranges_stay_none(lines: Seq<Seq<char>>, n: int, m: int)
    requires
        ranges_of(lines, n) is None,
        n <= m,
    ensures
        ranges_of(lines, m) is None,
    decreases m - n,
{
    if n < m {
        lemma_ranges_stay_none(lines, n, m - 1);
    }
}

/// Whether every map of `maps` is well formed.
pub open spec fn all_wf(maps: Seq<SeedMap>) -> bool {
    forall|i: int| 0 <= i < maps.len() ==> (#[trigger] maps[i]).wf()
}

/// Where the first `n` maps, one after the other, send `seed`.
pub open spec fn through(maps: Seq<SeedMap>, seed: u64, n: int) -> u64
    decreases n,
{
    if n <= 0 {
        seed
    } else {
        mapped(maps[n - 1].ranges@, through(maps, seed, n - 1)) as u64
    }
}

/// Where the chain of all `maps` sends `seed`.
pub fn location(maps: &Vec<SeedMap>, seed: u64) -> (out: u64)
    requires
        all_wf(maps@),
    ensures
        out == through(maps@, seed, maps@.len() as int),
{
    let mut at = seed;
    let mut k: usize = 0;
    while k < maps.len()
        invariant
            k <= maps@.len(),
            all_wf(maps@),
            at == through(maps@, seed, k as int),
        decreases maps@.len() - k,
    {
        at = maps[k].mapped_to(at);
        k += 1;
    }
    at
}

/// Whether `low` is the least location that any of `seeds` reaches.
pub open spec fn is_lowest(maps: Seq<SeedMap>, seeds: Seq<u64>, low: u64) -> bool {
    &&& exists|i: int|
        0 <= i < seeds.len() && through(maps, #[trigger] seeds[i], maps.len() as int) == low
    &&& forall|i: int|
        0 <= i < seeds.len() ==> low <= through(maps, #[trigger] seeds[i], maps.len() as int)
}

/// The least location that any of `seeds` reaches, or `None` without seeds.
pub fn lowest_location(maps: &Vec<SeedMap>, seeds: &Vec<u64>) -> (out: Option<u64>)
    requires
        all_wf(maps@),
    ensures
        out is None <==> seeds@.len() == 0,
        out matches Some(low) ==> is_lowest(maps@, seeds@, low),
{
    let mut best: Option<u64> = None;
    let mut k: usize = 0;
    while k < seeds.len()
        invariant
            k <= seeds@.len(),
            all_wf(maps@),
            best is None <==> k == 0,
            best matches Some(low) ==> is_lowest(maps@, seeds@.take(k as int), low),
        decreases seeds@.len() - k,
    {
        let at = location(maps, seeds[k]);
        let ghost before = seeds@.take(k as int);
        let ghost after = seeds@.take(k + 1);
        proof {
            assert(after[k as int] == seeds@[k as int]);
            assert forall|i: int| 0 <= i < k implies before[i] == after[i] by {}
        }
        let better = match best {
            Some(low) => at < low,
            None => true,
        };
        if better {
            proof {
                assert(through(maps@, after[k as int], maps@.len() as int) == at);
                assert forall|i: int| 0 <= i < after.len() implies at <= through(
                    maps@,
                    #[trigger] after[i],
                    maps@.len() as int,
                ) by {
                    if i < k {
                        assert(before[i] == after[i]);
                    }
                }
            }
            best = Some(at);
        } else {
            proof {
                let low = best->0;
                let i0 = choose|i: int|
                    0 <= i < before.len() && through(
                        maps@,
                        #[trigger] before[i],
                        maps@.len() as int,
                    ) == low;
                assert(through(maps@, after[i0], maps@.len() as int) == low);
                assert forall|i: int| 0 <= i < after.len() implies low <= through(
                    maps@,
                    #[trigger] after[i],
                    maps@.len() as int,
                ) by {
                    if i < k {
                        assert(before[i] == after[i]);
                    }
                }
            }
        }
        k += 1;
    }
    proof {
        assert(seeds@.take(k as int) =~= seeds@);
    }
    best
}

/// Whether `low` is below the location of every seed of the first `n`
/// ranges and of the seeds of range `n` below `upto`.
pub open spec fn below_all(
    maps: Seq<SeedMap>,
    ranges: Seq<Range<u64>>,
    low: u64,
    n: int,
    upto: int,
) -> bool {
    forall|r: int, seed: u64|
        0 <= r <= n && r < ranges.len() && ranges[r].start <= seed < ranges[r].end && (r < n
            || seed < upto) ==> low <= #[trigger] through_of(maps, ranges, r, seed)
}

/// The location of `seed`, taken as a seed of range `r`.
pub open spec fn through_of(maps: Seq<SeedMap>, ranges: Seq<Range<u64>>, r: int, seed: u64) -> u64 {
    through(maps, seed, maps.len() as int)
}

/// Whether `low` is the location of a seed of one of the ranges.
pub open spec fn is_reached(maps: Seq<SeedMap>, ranges: Seq<Range<u64>>, low: u64) -> bool {
    exists|r: int, seed: u64|
        0 <= r < ranges.len() && ranges[r].start <= seed < ranges[r].end && #[trigger] through_of(
            maps,
            ranges,
            r,
            seed,
        ) == low
}

/// The least location that any seed of any of `ranges` reaches, found by
/// trying every seed. Without a seed it is `u64::MAX`.
pub fn lowest_in_ranges(maps: &Vec<SeedMap>, ranges: &Vec<Range<u64>>) -> (out: u64)
    requires
        all_wf(maps@),
    ensures
        below_all(maps@, ranges@, out, ranges@.len() as int, 0),
        is_reached(maps@, ranges@, out) || out == u64::MAX,
{
    let mut lowest: u64 = u64::MAX;
    let mut k: usize = 0;
    while k < ranges.len()
        invariant
            k <= ranges@.len(),
            all_wf(maps@),
            below_all(maps@, ranges@, lowest, k as int, 0),
            is_reached(maps@, ranges@, lowest) || lowest == u64::MAX,
        decreases ranges@.len() - k,
    {
        let start = ranges[k].start;
        let end = ranges[k].end;
        let mut seed: u64 = start;
        while seed < end
            invariant
                k < ranges@.len(),
                start == ranges@[k as int].start,
                end == ranges@[k as int].end,
                start <= seed,
                all_wf(maps@),
                below_all(maps@, ranges@, lowest, k as int, seed as int),
                is_reached(maps@, ranges@, lowest) || lowest == u64::MAX,
            decreases end - seed,
        {
            let at = location(maps, seed);
            proof {
                assert(through_of(maps@, ranges@, k as int, seed) == at);
            }
            if at < lowest {
                lowest = at;
            }
            seed += 1;
        }
        k += 1;
    }
    lowest
}

/// Where the range ends that the `i`-th pair of `seeds` stands for: the
/// first seed plus the count.
pub open spec fn range_end(seeds: Seq<u64>, i: int) -> int {
    seeds[2 * i] + seeds[2 * i + 1]
}

/// The ranges of seeds that a list of numbers stands for when it is read in
/// pairs of a first seed and a count; a last number without a partner is
/// dropped. `None` when a range would end above `u64`.
pub fn seed_ranges(seeds: Vec<u64>) -> (out: Option<Vec<Range<u64>>>)
    ensures
        out is Some <==> forall|i: int|
            0 <= i < seeds@.len() / 2 ==> #[trigger] range_end(seeds@, i) <= u64::MAX,
        out matches Some(ranges) ==> ranges@.len() == seeds@.len() / 2 && forall|i: int|
            0 <= i < ranges@.len() ==> (#[trigger] ranges@[i]).start == seeds@[2 * i]
                && ranges@[i].end == range_end(seeds@, i),
{
    let ghost given = seeds@;
    let pairs = in_pairs(seeds);
    let mut ranges: Vec<Range<u64>> = Vec::new();
    let mut k: usize = 0;
    while k < pairs.len()
        invariant
            k <= pairs@.len(),
            given == seeds@,
            pairs@.len() == given.len() / 2,
            forall|i: int|
                0 <= i < pairs@.len() ==> (#[trigger] pairs@[i]).0 == given[2 * i] && pairs@[i].1
                    == given[2 * i + 1],
            ranges@.len() == k,
            forall|i: int|
                0 <= i < k ==> (#[trigger] ranges@[i]).start == given[2 * i] && ranges@[i].end
                    == range_end(given, i),
            forall|i: int| 0 <= i < k ==> #[trigger] range_end(given, i) <= u64::MAX,
        decreases pairs@.len() - k,
    {
        let pair = pairs[k];
        match pair.0.checked_add(pair.1) {
            Some(end) => {
                ranges.push(Range { start: pair.0, end });
            },
            None => {
                assert(range_end(given, k as int) > u64::MAX);
                return None;
            },
        }
        k += 1;
    }
    Some(ranges)
}

/// The seeds that a heading line such as `seeds: 79 14 55 13` lists: the
/// numbers after its last colon.
pub open spec fn seeds_of(line: Seq<char>) -> Option<Seq<u64>> {
    numbers_of(
        line.subrange(after_last(line, ':', line.len() as int), line.len() as int),
        u64::MAX as nat,
    )
}

/// Reads the seeds of a heading line.
pub fn parse_seeds(line: &str) -> (out: Option<Vec<u64>>)
    ensures
        out is Some <==> seeds_of(line@) is Some,
        out matches Some(seeds) ==> seeds_of(line@) == Some(seeds@),
{
    let chars = to_chars(line);
    let tail = tail_after(&chars, ':');
    read_numbers(&tail, u64::MAX)
}

} // verus!
