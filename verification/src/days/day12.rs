//! Rows of springs: whether a row of working and broken springs agrees with
//! the sizes of its groups of broken springs, and in how many ways the
//! unknown springs of a row can be filled in so that it does.

use crate::outside::{captures, group_views, regex_groups};
use crate::powers::{lemma_pow2_grows, lemma_pow2_values, pow2};
use crate::text::{
    lemma_first_from, first_from, occurs_at, parse_unsigned, pieces, pieces_from, split_on,
    to_chars, to_text, unsigned_of, views,
};
use vstd::prelude::*;

verus! {

/// A row of springs: its condition, with `'.'` for a working spring, `'#'`
/// for a broken one and `'?'` for an unknown one, and the sizes of its
/// groups of broken springs.
#[derive(Clone, Eq, PartialEq, Debug)]
pub struct Spring {
    pub condition: String,
    pub counts: Vec<usize>,
}

/// The lengths of those of the first `n` parts that are not empty.
pub open spec fn run_lengths(parts: Seq<Seq<char>>, n: int) -> Seq<usize>
    decreases n,
{
    if n <= 0 {
        Seq::empty()
    } else if parts[n - 1].len() > 0 {
        run_lengths(parts, n - 1).push(parts[n - 1].len() as usize)
    } else {
        run_lengths(parts, n - 1)
    }
}

/// The sum of the lengths of the first `n` parts.
pub open spec fn lengths_sum(parts: Seq<Seq<char>>, n: int) -> int
    decreases n,
{
    if n <= 0 {
        0
    } else {
        lengths_sum(parts, n - 1) + parts[n - 1].len()
    }
}

/// The sum of the first `n` counts.
pub open spec fn counts_sum(counts: Seq<usize>, n: int) -> int
    decreases n,
{
    if n <= 0 {
        0
    } else {
        counts_sum(counts, n - 1) + counts[n - 1]
    }
}

/// The groups of a condition: what the working springs cut it into.
pub open spec fn groups_of(cond: Seq<char>) -> Seq<Seq<char>> {
    pieces(cond, seq!['.'])
}

/// Whether a condition without unknown springs agrees with `counts`: its
/// groups of broken springs have exactly these sizes, in this order.
pub open spec fn agrees(cond: Seq<char>, counts: Seq<usize>) -> bool {
    !cond.contains('?') && run_lengths(groups_of(cond), groups_of(cond).len() as int) == counts
}

/// Whether a condition has too few springs that are broken or unknown for
/// `counts`.
pub open spec fn too_few(cond: Seq<char>, counts: Seq<usize>) -> bool {
    lengths_sum(groups_of(cond), groups_of(cond).len() as int) < counts_sum(
        counts,
        counts.len() as int,
    )
}

/// The number of unknown springs among the first `n`.
pub open spec fn unknowns(cond: Seq<char>, n: int) -> nat
    decreases n,
{
    if n <= 0 {
        0
    } else {
        unknowns(cond, n - 1) + if cond[n - 1] == '?' {
            1nat
        } else {
            0nat
        }
    }
}

/// The first `n` springs of a condition with every unknown spring replaced
/// by the next character of `fill`.
pub open spec fn filled(cond: Seq<char>, fill: Seq<char>, n: int) -> Seq<char>
    decreases n,
{
    if n <= 0 {
        Seq::empty()
    } else if cond[n - 1] == '?' {
        filled(cond, fill, n - 1).push(fill[unknowns(cond, n - 1) as int])
    } else {
        filled(cond, fill, n - 1).push(cond[n - 1])
    }
}

/// The index of the first unknown spring at or after `from`.
pub open spec fn first_unknown(cond: Seq<char>, from: int) -> Option<int>
    decreases cond.len() - from,
{
    if from < 0 || from >= cond.len() {
        None
    } else if cond[from] == '?' {
        Some(from)
    } else {
        first_unknown(cond, from + 1)
    }
}

/// The number of ways to replace the unknown springs of `cond` by working
/// and broken ones so that the condition agrees with `counts`.
pub open spec fn arrangements(cond: Seq<char>, counts: Seq<usize>) -> nat
    decreases unknowns(cond, cond.len() as int),
{
    match first_unknown(cond, 0) {
        Some(p) => {
            if 0 <= p < cond.len() && cond[p] == '?' {
                proof {
                    lemma_unknowns_update(cond, p, '.', cond.len() as int);
                    lemma_unknowns_update(cond, p, '#', cond.len() as int);
                }
                arrangements(cond.update(p, '.'), counts) + arrangements(
                    cond.update(p, '#'),
                    counts,
                )
            } else {
                0
            }
        },
        None => if agrees(cond, counts) {
            1
        } else {
            0
        },
    }
}

/// Replacing a spring changes the number of unknown springs by what the old
/// and the new spring count for.
pub proof fn lemma_unknowns_update(cond: Seq<char>, p: int, c: char, n: int)
    requires
        0 <= p < cond.len(),
        0 <= n <= cond.len(),
    ensures
        unknowns(cond.update(p, c), n) + (if p < n && cond[p] == '?' {
            1int
        } else {
            0int
        }) == unknowns(cond, n) + (if p < n && c == '?' {
            1int
        } else {
            0int
        }),
    decreases n,
{
    if n > 0 {
        lemma_unknowns_update(cond, p, c, n - 1);
    }
}

/// What `first_unknown` finds is an unknown spring at or after `from`, with
/// none between `from` and it; when it finds nothing there is none.
pub proof fn lemma_first_unknown(cond: Seq<char>, from: int)
    requires
        0 <= from,
    ensures
        first_unknown(cond, from) matches Some(p) ==> from <= p < cond.len() && cond[p] == '?'
            && forall|j: int| from <= j < p ==> cond[j] != '?',
        first_unknown(cond, from) is None ==> forall|j: int|
            from <= j < cond.len() ==> cond[j] != '?',
    decreases cond.len() - from,
{
    if from < cond.len() && cond[from] != '?' {
        lemma_first_unknown(cond, from + 1);
    }
}

/// The number of springs from `from` on that are not working.
pub open spec fn not_working(cond: Seq<char>, from: int) -> int
    decreases cond.len() - from,
{
    if from < 0 || from >= cond.len() {
        0
    } else {
        not_working(cond, from + 1) + if cond[from] != '.' {
            1int
        } else {
            0int
        }
    }
}

/// A stretch without a working spring counts in full.
proof fn lemma_stretch(cond: Seq<char>, from: int, to: int)
    requires
        0 <= from <= to <= cond.len(),
        forall|j: int| from <= j < to ==> cond[j] != '.',
    ensures
        not_working(cond, from) == (to - from) + not_working(cond, to),
    decreases to - from,
{
    if from < to {
        lemma_stretch(cond, from + 1, to);
    }
}

/// The sum of the lengths of all groups from `from` on is the number of
/// springs from `from` on that are not working.
proof fn lemma_groups_total(cond: Seq<char>, from: int)
    requires
        0 <= from <= cond.len(),
    ensures
        lengths_sum(
            pieces_from(cond, seq!['.'], from),
            pieces_from(cond, seq!['.'], from).len() as int,
        ) == not_working(cond, from),
    decreases cond.len() - from,
{
    let dot = seq!['.'];
    let parts = pieces_from(cond, dot, from);
    lemma_first_from(cond, dot, from);
    assert forall|j: int| 0 <= j < cond.len() implies (occurs_at(cond, dot, j) <==> cond[j]
        == '.') by {
        if 0 <= j && j + 1 <= cond.len() {
            assert(cond.subrange(j, j + 1)[0] == cond[j]);
            if cond[j] == '.' {
                assert(cond.subrange(j, j + 1) =~= dot);
            }
        }
    }
    match first_from(cond, dot, from) {
        Some(i) => {
            let rest = pieces_from(cond, dot, i + 1);
            lemma_groups_total(cond, i + 1);
            assert(parts == seq![cond.subrange(from, i)] + rest);
            lemma_sum_of_front(seq![cond.subrange(from, i)] + rest);
            assert((seq![cond.subrange(from, i)] + rest).drop_first() =~= rest);
            lemma_stretch(cond, from, i);
            assert(cond[i] == '.');
        },
        None => {
            assert(parts == seq![cond.subrange(from, cond.len() as int)]);
            lemma_stretch(cond, from, cond.len() as int);
            assert(lengths_sum(parts, 0) == 0);
        },
    }
}

/// The sum of the lengths is the length of the first part plus the sum of
/// the lengths of the others.
proof fn lemma_sum_of_front(parts: Seq<Seq<char>>)
    requires
        parts.len() > 0,
    ensures
        lengths_sum(parts, parts.len() as int) == parts[0].len() + lengths_sum(
            parts.drop_first(),
            parts.len() - 1,
        ),
    decreases parts.len(),
{
    let n = parts.len() as int;
    let tail = parts.drop_first();
    assert(lengths_sum(parts, n) == lengths_sum(parts, n - 1) + parts[n - 1].len());
    if n > 1 {
        let shorter = parts.drop_last();
        lemma_sum_of_front(shorter);
        assert(shorter.drop_first() =~= tail.drop_last());
        lemma_sum_prefix(parts, shorter, n - 1);
        lemma_sum_prefix(tail, shorter.drop_first(), n - 2);
        assert(lengths_sum(tail, n - 1) == lengths_sum(tail, n - 2) + tail[n - 2].len());
        assert(tail[n - 2] == parts[n - 1]);
        assert(shorter[0] == parts[0]);
    } else {
        assert(lengths_sum(parts, 0) == 0);
        assert(lengths_sum(tail, 0) == 0);
    }
}

/// The sum of the first lengths depends on the first parts only.
proof fn lemma_sum_prefix(a: Seq<Seq<char>>, b: Seq<Seq<char>>, n: int)
    requires
        0 <= n <= a.len(),
        n <= b.len(),
        forall|i: int| 0 <= i < n ==> a[i] == b[i],
    ensures
        lengths_sum(a, n) == lengths_sum(b, n),
    decreases n,
{
    if n > 0 {
        lemma_sum_prefix(a, b, n - 1);
    }
}

/// The lengths of the groups that are not empty add up to the lengths of
/// all groups.
proof fn lemma_runs_total(parts: Seq<Seq<char>>, n: int)
    requires
        0 <= n <= parts.len(),
        forall|i: int| 0 <= i < n ==> (#[trigger] parts[i]).len() <= usize::MAX,
    ensures
        counts_sum(run_lengths(parts, n), run_lengths(parts, n).len() as int) == lengths_sum(
            parts,
            n,
        ),
    decreases n,
{
    if n > 0 {
        lemma_runs_total(parts, n - 1);
        if parts[n - 1].len() > 0 {
            let runs = run_lengths(parts, n);
            assert(runs.drop_last() =~= run_lengths(parts, n - 1));
            lemma_counts_prefix(runs, run_lengths(parts, n - 1), runs.len() - 1);
        }
    }
}

/// The sum of the first counts depends on the first counts only.
proof fn lemma_counts_prefix(a: Seq<usize>, b: Seq<usize>, n: int)
    requires
        0 <= n <= a.len(),
        n <= b.len(),
        forall|i: int| 0 <= i < n ==> a[i] == b[i],
    ensures
        counts_sum(a, n) == counts_sum(b, n),
    decreases n,
{
    if n > 0 {
        lemma_counts_prefix(a, b, n - 1);
    }
}

/// Replacing a spring changes the number of springs that are not working
/// by what the old and the new spring count for.
proof fn lemma_not_working_update(cond: Seq<char>, p: int, c: char, from: int)
    requires
        0 <= p < cond.len(),
        0 <= from <= cond.len(),
    ensures
        not_working(cond.update(p, c), from) + (if from <= p && cond[p] != '.' {
            1int
        } else {
            0int
        }) == not_working(cond, from) + (if from <= p && c != '.' {
            1int
        } else {
            0int
        }),
    decreases cond.len() - from,
{
    if from < cond.len() {
        lemma_not_working_update(cond, p, c, from + 1);
    }
}

/// A condition with too few springs that are broken or unknown has no
/// arrangement.
pub proof fn lemma_too_few_has_none(cond: Seq<char>, counts: Seq<usize>)
    requires
        too_few(cond, counts),
        cond.len() <= usize::MAX,
    ensures
        arrangements(cond, counts) == 0,
    decreases unknowns(cond, cond.len() as int),
{
    lemma_first_unknown(cond, 0);
    lemma_groups_total(cond, 0);
    match first_unknown(cond, 0) {
        Some(p) => {
            let dotted = cond.update(p, '.');
            let broken = cond.update(p, '#');
            lemma_unknowns_update(cond, p, '.', cond.len() as int);
            lemma_unknowns_update(cond, p, '#', cond.len() as int);
            lemma_not_working_update(cond, p, '.', 0);
            lemma_not_working_update(cond, p, '#', 0);
            lemma_groups_total(dotted, 0);
            lemma_groups_total(broken, 0);
            lemma_too_few_has_none(dotted, counts);
            lemma_too_few_has_none(broken, counts);
        },
        None => {
            if agrees(cond, counts) {
                let parts = groups_of(cond);
                lemma_piece_lengths(cond, 0);
                lemma_runs_total(parts, parts.len() as int);
            }
        },
    }
}

/// No group is longer than the condition.
proof fn lemma_piece_lengths(cond: Seq<char>, from: int)
    requires
        0 <= from <= cond.len(),
    ensures
        forall|i: int|
            0 <= i < pieces_from(cond, seq!['.'], from).len() ==> (#[trigger] pieces_from(
                cond,
                seq!['.'],
                from,
            )[i]).len() <= cond.len(),
    decreases cond.len() - from,
{
    let dot = seq!['.'];
    lemma_first_from(cond, dot, from);
    match first_from(cond, dot, from) {
        Some(i) => {
            lemma_piece_lengths(cond, i + 1);
            let rest = pieces_from(cond, dot, i + 1);
            let parts = pieces_from(cond, dot, from);
            assert forall|k: int| 0 <= k < parts.len() implies (#[trigger] parts[k]).len()
                <= cond.len() by {
                if k > 0 {
                    assert(parts[k] == rest[k - 1]);
                }
            }
        },
        None => {},
    }
}

impl Spring {
    /// A row with the given condition and group sizes.
    pub fn new(condition: String, counts: Vec<usize>) -> (out: Spring)
        ensures
            out.condition == condition,
            out.counts == counts,
    {
        Spring { condition, counts }
    }

    /// Whether `cond`, a condition without unknown springs, agrees with the
    /// group sizes of the row.
    pub fn is_valid(&self, cond: String) -> (out: bool)
        ensures
            out == agrees(cond@, self.counts@),
    {
        let chars = to_chars(cond.as_str());
        holds(&chars, &self.counts)
    }

    /// Whether the condition of the row has too few springs that are broken
    /// or unknown for its group sizes.
    pub fn is_invalid(&self) -> (out: bool)
        ensures
            out == too_few(self.condition@, self.counts@),
    {
        let chars = to_chars(self.condition.as_str());
        lacks(&chars, &self.counts)
    }

    /// The condition of the row with every unknown spring replaced by the
    /// next character of `fill`; `None` when `fill` has too few characters.
    pub fn populate(&self, fill: String) -> (out: Option<String>)
        ensures
            out is Some <==> unknowns(self.condition@, self.condition@.len() as int)
                <= fill@.len(),
            out matches Some(text) ==> text@ == filled(
                self.condition@,
                fill@,
                self.condition@.len() as int,
            ),
    {
        let cond = to_chars(self.condition.as_str());
        let with = to_chars(fill.as_str());
        let mut out: Vec<char> = Vec::new();
        let mut used: usize = 0;
        let mut k: usize = 0;
        while k < cond.len()
            invariant
                k <= cond@.len(),
                cond@ == self.condition@,
                with@ == fill@,
                used == unknowns(cond@, k as int),
                used <= with@.len(),
                used <= k,
                out@ == filled(cond@, with@, k as int),
            decreases cond@.len() - k,
        {
            if cond[k] == '?' {
                if used >= with.len() {
                    proof {
                        lemma_unknowns_grow(cond@, k + 1, cond@.len() as int);
                    }
                    return None;
                }
                out.push(with[used]);
                used += 1;
            } else {
                out.push(cond[k]);
            }
            k += 1;
        }
        Some(to_text(&out))
    }
}

/// More springs do not hold fewer unknown ones.
proof fn lemma_unknowns_grow(cond: Seq<char>, n: int, m: int)
    requires
        0 <= n <= m,
    ensures
        unknowns(cond, n) <= unknowns(cond, m),
    decreases m - n,
{
    if n < m {
        lemma_unknowns_grow(cond, n, m - 1);
    }
}

/// Whether `cond` agrees with `counts`.
pub fn holds(cond: &Vec<char>, counts: &Vec<usize>) -> (out: bool)
    ensures
        out == agrees(cond@, counts@),
{
    let mut k: usize = 0;
    while k < cond.len()
        invariant
            k <= cond@.len(),
            forall|j: int| 0 <= j < k ==> cond@[j] != '?',
        decreases cond@.len() - k,
    {
        if cond[k] == '?' {
            assert(cond@.contains('?'));
            return false;
        }
        k += 1;
    }
    assert(!cond@.contains('?'));
    let mut dot: Vec<char> = Vec::new();
    dot.push('.');
    assert(dot@ =~= seq!['.']);
    let parts = split_on(cond, &dot);
    let ghost texts = groups_of(cond@);
    proof {
        assert(views(parts@).len() == parts@.len());
    }
    let mut runs: Vec<usize> = Vec::new();
    let mut i: usize = 0;
    while i < parts.len()
        invariant
            i <= parts@.len(),
            texts == views(parts@),
            texts.len() == parts@.len(),
            runs@ == run_lengths(texts, i as int),
        decreases parts@.len() - i,
    {
        proof {
            assert(texts[i as int] == parts@[i as int]@);
        }
        if parts[i].len() > 0 {
            runs.push(parts[i].len());
        }
        i += 1;
    }
    if runs.len() != counts.len() {
        return false;
    }
    let mut j: usize = 0;
    while j < runs.len()
        invariant
            j <= runs@.len(),
            runs@.len() == counts@.len(),
            !cond@.contains('?'),
            texts == groups_of(cond@),
            runs@ == run_lengths(texts, texts.len() as int),
            forall|m: int| 0 <= m < j ==> runs@[m] == counts@[m],
        decreases runs@.len() - j,
    {
        if runs[j] != counts[j] {
            assert(runs@[j as int] != counts@[j as int]);
            return false;
        }
        j += 1;
    }
    assert(runs@ =~= counts@);
    true
}

/// Whether `cond` has too few springs that are broken or unknown for
/// `counts`.
pub fn lacks(cond: &Vec<char>, counts: &Vec<usize>) -> (out: bool)
    ensures
        out == too_few(cond@, counts@),
{
    let mut dot: Vec<char> = Vec::new();
    dot.push('.');
    assert(dot@ =~= seq!['.']);
    let parts = split_on(cond, &dot);
    let ghost texts = groups_of(cond@);
    proof {
        assert(views(parts@).len() == parts@.len());
    }
    let mut have: u128 = 0;
    let mut i: usize = 0;
    while i < parts.len()
        invariant
            i <= parts@.len(),
            texts == views(parts@),
            texts.len() == parts@.len(),
            have == lengths_sum(texts, i as int),
            have <= i * 0x1_0000_0000_0000_0000,
        decreases parts@.len() - i,
    {
        proof {
            assert(texts[i as int] == parts@[i as int]@);
            assert((i + 1) * 0x1_0000_0000_0000_0000 == i * 0x1_0000_0000_0000_0000
                + 0x1_0000_0000_0000_0000) by (nonlinear_arith);
            assert((i + 1) * 0x1_0000_0000_0000_0000 <= 0x1_0000_0000_0000_0000
                * 0x1_0000_0000_0000_0000) by (nonlinear_arith)
                requires
                    i + 1 <= 0x1_0000_0000_0000_0000,
            ;
        }
        have = have + parts[i].len() as u128;
        i += 1;
    }
    let mut need: u128 = 0;
    let mut j: usize = 0;
    while j < counts.len()
        invariant
            j <= counts@.len(),
            need == counts_sum(counts@, j as int),
            need <= j * 0x1_0000_0000_0000_0000,
        decreases counts@.len() - j,
    {
        proof {
            assert((j + 1) * 0x1_0000_0000_0000_0000 == j * 0x1_0000_0000_0000_0000
                + 0x1_0000_0000_0000_0000) by (nonlinear_arith);
            assert((j + 1) * 0x1_0000_0000_0000_0000 <= 0x1_0000_0000_0000_0000
                * 0x1_0000_0000_0000_0000) by (nonlinear_arith)
                requires
                    j + 1 <= 0x1_0000_0000_0000_0000,
            ;
        }
        need = need + counts[j] as u128;
        j += 1;
    }
    have < need
}

/// The number of arrangements of `cond` for `counts`, or `None` when it
/// leaves `usize`.
pub fn count_arrangements(cond: Vec<char>, counts: &Vec<usize>) -> (out: Option<usize>)
    ensures
        out matches Some(n) ==> n == arrangements(cond@, counts@),
        out is None ==> arrangements(cond@, counts@) > usize::MAX,
    decreases unknowns(cond@, cond@.len() as int),
{
    if lacks(&cond, counts) {
        proof {
            assert(cond.len() == cond@.len());
            lemma_too_few_has_none(cond@, counts@);
        }
        return Some(0);
    }
    let mut p: usize = 0;
    while p < cond.len() && cond[p] != '?'
        invariant
            p <= cond@.len(),
            first_unknown(cond@, 0) == first_unknown(cond@, p as int),
        decreases cond@.len() - p,
    {
        p += 1;
    }
    if p == cond.len() {
        return if holds(&cond, counts) {
            Some(1)
        } else {
            Some(0)
        };
    }
    let mut dotted: Vec<char> = Vec::new();
    let mut broken: Vec<char> = Vec::new();
    let mut k: usize = 0;
    while k < cond.len()
        invariant
            k <= cond@.len(),
            p < cond@.len(),
            dotted@ == cond@.update(p as int, '.').take(k as int),
            broken@ == cond@.update(p as int, '#').take(k as int),
        decreases cond@.len() - k,
    {
        dotted.push(if k == p { '.' } else { cond[k] });
        broken.push(if k == p { '#' } else { cond[k] });
        proof {
            let d = cond@.update(p as int, '.');
            let b = cond@.update(p as int, '#');
            assert(d.take(k + 1) =~= d.take(k as int).push(d[k as int]));
            assert(b.take(k + 1) =~= b.take(k as int).push(b[k as int]));
        }
        k += 1;
    }
    proof {
        let d = cond@.update(p as int, '.');
        let b = cond@.update(p as int, '#');
        assert(d.take(k as int) =~= d);
        assert(b.take(k as int) =~= b);
        lemma_unknowns_update(cond@, p as int, '.', cond@.len() as int);
        lemma_unknowns_update(cond@, p as int, '#', cond@.len() as int);
    }
    let with_dot = match count_arrangements(dotted, counts) {
        Some(n) => n,
        None => { return None; },
    };
    let with_hash = match count_arrangements(broken, counts) {
        Some(n) => n,
        None => { return None; },
    };
    with_dot.checked_add(with_hash)
}

/// The number of ways to fill in the unknown springs of the row so that it
/// agrees with its group sizes, or `None` when the number leaves `usize`.
pub fn solve(spring: Spring) -> (out: Option<usize>)
    ensures
        out matches Some(n) ==> n == arrangements(spring.condition@, spring.counts@),
        out is None ==> arrangements(spring.condition@, spring.counts@) > usize::MAX,
{
    let cond = to_chars(spring.condition.as_str());
    count_arrangements(cond, &spring.counts)
}

/// The lowest `count` bits of `num`, the highest of them first, with `'#'`
/// for a one and `'.'` for a zero.
pub open spec fn bits_text(num: u32, count: u32) -> Seq<char> {
    Seq::new(
        count as nat,
        |j: int|
            if (num >> ((count - 1 - j) as u32)) & 1 == 1 {
                '#'
            } else {
                '.'
            },
    )
}

/// The text of `count` characters that writes the lowest `count` bits of
/// `num`, the highest of them first, with `'#'` for a one and `'.'` for a
/// zero.
pub fn num_to_string(num: u32, count: u32) -> (out: String)
    requires
        count <= 32,
    ensures
        out@ == bits_text(num, count),
{
    let mut chars: Vec<char> = Vec::new();
    let mut k: u32 = 0;
    while k < count
        invariant
            k <= count <= 32,
            chars@.len() == k,
            forall|j: int|
                0 <= j < k ==> #[trigger] chars@[j] == if (num >> ((count - 1 - j) as u32)) & 1
                    == 1 {
                    '#'
                } else {
                    '.'
                },
        decreases count - k,
    {
        let i: u32 = count - 1 - k;
        chars.push(if (num >> i) & 1 == 1 { '#' } else { '.' });
        k += 1;
    }
    assert(chars@ =~= bits_text(num, count));
    to_text(&chars)
}

/// The number of the first `n` fillings of the unknown springs of `cond`
/// with the bits of a number that agree with `counts`; `unknown` is the
/// number of unknown springs.
pub open spec fn trials(cond: Seq<char>, counts: Seq<usize>, unknown: u32, n: int) -> nat
    decreases n,
{
    if n <= 0 {
        0
    } else {
        trials(cond, counts, unknown, n - 1) + if agrees(
            filled(cond, bits_text((n - 1) as u32, unknown), cond.len() as int),
            counts,
        ) {
            1nat
        } else {
            0nat
        }
    }
}

/// At most `n` of the first `n` fillings agree.
proof fn lemma_trials_bounded(cond: Seq<char>, counts: Seq<usize>, unknown: u32, n: int)
    requires
        0 <= n,
    ensures
        trials(cond, counts, unknown, n) <= n,
    decreases n,
{
    if n > 0 {
        lemma_trials_bounded(cond, counts, unknown, n - 1);
    }
}

/// The number of unknown springs of `cond`.
pub fn count_unknown(cond: &Vec<char>) -> (out: usize)
    ensures
        out == unknowns(cond@, cond@.len() as int),
{
    let mut count: usize = 0;
    let mut k: usize = 0;
    while k < cond.len()
        invariant
            k <= cond@.len(),
            count == unknowns(cond@, k as int),
            count <= k,
        decreases cond@.len() - k,
    {
        if cond[k] == '?' {
            count += 1;
        }
        k += 1;
    }
    count
}

impl Spring {
    /// The number of ways to fill in the unknown springs of the row so that
    /// it agrees with its group sizes, found by trying every filling; the
    /// row must have fewer than 32 unknown springs.
    pub fn count_by_trial(&self) -> (out: usize)
        requires
            unknowns(self.condition@, self.condition@.len() as int) < 32,
        ensures
            out == trials(
                self.condition@,
                self.counts@,
                unknowns(self.condition@, self.condition@.len() as int) as u32,
                pow2(unknowns(self.condition@, self.condition@.len() as int)) as int,
            ),
    {
        let cond = to_chars(self.condition.as_str());
        let unknown = count_unknown(&cond) as u32;
        let mut fillings: u64 = 1;
        let mut b: u32 = 0;
        while b < unknown
            invariant
                b <= unknown < 32,
                fillings == pow2(b as nat),
            decreases unknown - b,
        {
            proof {
                lemma_pow2_grows(b as nat, 30);
                lemma_pow2_values();
            }
            fillings = fillings * 2;
            b += 1;
        }
        proof {
            lemma_pow2_grows(unknown as nat, 31);
            lemma_pow2_values();
        }
        let mut valid: usize = 0;
        let mut j: u64 = 0;
        while j < fillings
            invariant
                j <= fillings <= 0x8000_0000,
                unknown < 32,
                cond@ == self.condition@,
                unknown == unknowns(cond@, cond@.len() as int),
                valid == trials(cond@, self.counts@, unknown, j as int),
                valid <= j,
            decreases fillings - j,
        {
            let fill = num_to_string(j as u32, unknown);
            proof {
                assert(fill@.len() == unknown);
            }
            match self.populate(fill) {
                Some(p) => {
                    if self.is_valid(p) {
                        valid += 1;
                    }
                },
                None => {
                    assert(false);
                },
            }
            j += 1;
        }
        valid
    }
}

/// The fourth power of `x`.
pub open spec fn fourth_power(x: int) -> int {
    x * x * x * x
}

/// The sum over the first `n` rows of the guess for a row unfolded five
/// times: the number of arrangements of the row times the fourth power of
/// the whole ratio of the number for the row unfolded twice to it; `None`
/// when one of the first numbers is zero.
pub open spec fn guesses(once: Seq<usize>, twice: Seq<usize>, n: int) -> Option<int>
    decreases n,
{
    if n <= 0 {
        Some(0)
    } else {
        match guesses(once, twice, n - 1) {
            Some(before) => if once[n - 1] == 0 {
                None
            } else {
                Some(before + once[n - 1] * fourth_power(twice[n - 1] as int / once[n - 1] as int))
            },
            None => None,
        }
    }
}

/// Once a number of arrangements is zero, no longer list has a sum; a sum
/// that exists is at least the sum of any shorter list.
proof fn lemma_guesses(once: Seq<usize>, twice: Seq<usize>, n: int, m: int)
    requires
        0 <= n <= m,
    ensures
        guesses(once, twice, n) is None ==> guesses(once, twice, m) is None,
        guesses(once, twice, m) matches Some(all) ==> guesses(once, twice, n) is Some && 0
            <= guesses(once, twice, n)->0 <= all,
    decreases m - n,
{
    if n < m {
        lemma_guesses(once, twice, n, m - 1);
        lemma_guess_positive(once[m - 1] as int, twice[m - 1] as int);
    } else {
        lemma_guesses_positive(once, twice, n);
    }
}

/// A guess is never negative.
proof fn lemma_guess_positive(a: int, b: int)
    requires
        a >= 0,
    ensures
        a != 0 ==> a * fourth_power(b / a) >= 0,
{
    if a != 0 {
        let x = b / a;
        lemma_fourth_power(x);
        assert(a * fourth_power(x) >= 0) by (nonlinear_arith)
            requires
                a >= 0,
                fourth_power(x) >= 0,
        ;
    }
}

/// A sum of guesses is never negative.
proof fn lemma_guesses_positive(once: Seq<usize>, twice: Seq<usize>, n: int)
    ensures
        guesses(once, twice, n) matches Some(all) ==> all >= 0,
    decreases n,
{
    if n > 0 {
        lemma_guesses_positive(once, twice, n - 1);
        lemma_guess_positive(once[n - 1] as int, twice[n - 1] as int);
    }
}

/// A fourth power is never negative and is at least the square and the
/// cube of a number that is not negative.
proof fn lemma_fourth_power(x: int)
    ensures
        fourth_power(x) >= 0,
        x >= 1 ==> fourth_power(x) >= x * x * x >= x * x >= x,
        x == 0 ==> fourth_power(x) == 0,
{
    assert(x * x >= 0) by (nonlinear_arith);
    assert(fourth_power(x) == (x * x) * (x * x)) by (nonlinear_arith)
        requires
            fourth_power(x) == x * x * x * x,
    ;
    assert((x * x) * (x * x) >= 0) by (nonlinear_arith)
        requires
            x * x >= 0,
    ;
    if x >= 1 {
        assert(x * x >= x) by (nonlinear_arith)
            requires
                x >= 1,
        ;
        assert(x * x * x >= x * x) by (nonlinear_arith)
            requires
                x >= 1,
                x * x >= 0,
        ;
        assert(x * x * x * x >= x * x * x) by (nonlinear_arith)
            requires
                x >= 1,
                x * x * x >= 0,
        ;
    }
}

/// The sum of the guesses for all rows of which both lists hold a number.
/// `None` when a row has no arrangement at all, or the sum leaves `usize`.
pub fn unfolded_guess(once: &Vec<usize>, twice: &Vec<usize>) -> (out: Option<usize>)
    ensures
        ({
            let n = if once@.len() <= twice@.len() {
                once@.len() as int
            } else {
                twice@.len() as int
            };
            &&& out matches Some(total) ==> guesses(once@, twice@, n) == Some(total as int)
            &&& out is None ==> guesses(once@, twice@, n) is None || guesses(once@, twice@, n)->0
                > usize::MAX
        }),
{
    let n = if once.len() <= twice.len() {
        once.len()
    } else {
        twice.len()
    };
    let mut total: usize = 0;
    let mut k: usize = 0;
    while k < n
        invariant
            k <= n,
            n <= once@.len(),
            n <= twice@.len(),
            n == if once@.len() <= twice@.len() {
                once@.len()
            } else {
                twice@.len()
            },
            guesses(once@, twice@, k as int) == Some(total as int),
        decreases n - k,
    {
        let a = once[k];
        let b = twice[k];
        proof {
            lemma_guesses(once@, twice@, k + 1, n as int);
            lemma_guesses(once@, twice@, k as int, k + 1);
        }
        if a == 0 {
            return None;
        }
        let x = b / a;
        proof {
            lemma_fourth_power(x as int);
            let fourth = fourth_power(x as int);
            assert(a * fourth >= fourth) by (nonlinear_arith)
                requires
                    a >= 1,
                    fourth >= 0,
            ;
            assert(x as int == twice@[k as int] as int / once@[k as int] as int);
            assert(guesses(once@, twice@, k + 1) == Some(total + a * fourth));
            assert(x == 0 ==> x * x == 0 && x * x * x == 0) by (nonlinear_arith);
        }
        let squared = match x.checked_mul(x) {
            Some(v) => v,
            None => { return None; },
        };
        let cubed = match squared.checked_mul(x) {
            Some(v) => v,
            None => { return None; },
        };
        let fourth = match cubed.checked_mul(x) {
            Some(v) => v,
            None => { return None; },
        };
        let term = match a.checked_mul(fourth) {
            Some(v) => v,
            None => { return None; },
        };
        total = match total.checked_add(term) {
            Some(v) => v,
            None => { return None; },
        };
        k += 1;
    }
    Some(total)
}

/// What a line says of a row, given the groups that the pattern of a row
/// captured in it.
pub open spec fn spring_of(groups: Option<Seq<Option<Seq<char>>>>) -> Option<
    (Seq<char>, Seq<usize>),
> {
    match groups {
        Some(g) => if g.len() == 3 && g[1] is Some && g[2] is Some {
            match sizes_of(pieces(g[2]->0, seq![',']), pieces(g[2]->0, seq![',']).len() as int) {
                Some(sizes) => Some((g[1]->0, sizes)),
                None => None,
            }
        } else {
            None
        },
        None => None,
    }
}

/// The numbers that the first `n` parts write, or `None` when one of them
/// is no number.
pub open spec fn sizes_of(parts: Seq<Seq<char>>, n: int) -> Option<Seq<usize>>
    decreases n,
{
    if n <= 0 {
        Some(Seq::empty())
    } else {
        match (sizes_of(parts, n - 1), unsigned_of(parts[n - 1], 10, usize::MAX as nat)) {
            (Some(before), Some(v)) => Some(before.push(v as usize)),
            _ => None,
        }
    }
}

/// Once a part is no number, no longer list of parts is a list of sizes.
proof fn lemma_sizes_stay_none(parts: Seq<Seq<char>>, n: int, m: int)
    requires
        sizes_of(parts, n) is None,
        n <= m,
    ensures
        sizes_of(parts, m) is None,
    decreases m - n,
{
    if n < m {
        lemma_sizes_stay_none(parts, n, m - 1);
    }
}

/// Reads group sizes such as `1,1,3`.
fn read_sizes(text: &Vec<char>) -> (out: Option<Vec<usize>>)
    ensures
        out is Some <==> sizes_of(pieces(text@, seq![',']), pieces(text@, seq![',']).len() as int)
            is Some,
        out matches Some(sizes) ==> sizes_of(
            pieces(text@, seq![',']),
            pieces(text@, seq![',']).len() as int,
        ) == Some(sizes@),
{
    let mut comma: Vec<char> = Vec::new();
    comma.push(',');
    assert(comma@ =~= seq![',']);
    let parts = split_on(text, &comma);
    let ghost texts = pieces(text@, seq![',']);
    proof {
        assert(views(parts@).len() == parts@.len());
    }
    let mut sizes: Vec<usize> = Vec::new();
    let mut k: usize = 0;
    while k < parts.len()
        invariant
            k <= parts@.len(),
            texts == views(parts@),
            texts == pieces(text@, seq![',']),
            texts.len() == parts@.len(),
            sizes_of(texts, k as int) == Some(sizes@),
        decreases parts@.len() - k,
    {
        proof {
            assert(texts[k as int] == parts@[k as int]@);
        }
        match parse_unsigned(&parts[k], usize::MAX as u64) {
            Some(v) => {
                sizes.push(v as usize);
            },
            None => {
                proof {
                    lemma_sizes_stay_none(texts, k + 1, texts.len() as int);
                }
                return None;
            },
        }
        k += 1;
    }
    Some(sizes)
}

impl Spring {
    /// Builds a row from the groups that the pattern of a row captured.
    pub fn from_groups(groups: &Vec<Option<Vec<char>>>) -> (out: Option<Spring>)
        ensures
            out is Some <==> spring_of(Some(group_views(groups@))) is Some,
            out matches Some(spring) ==> spring_of(Some(group_views(groups@))) == Some(
                (spring.condition@, spring.counts@),
            ),
    {
        if groups.len() != 3 {
            return None;
        }
        proof {
            assert(group_views(groups@)[1] == match groups@[1] {
                Some(c) => Some(c@),
                None => None,
            });
            assert(group_views(groups@)[2] == match groups@[2] {
                Some(c) => Some(c@),
                None => None,
            });
        }
        match (&groups[1], &groups[2]) {
            (Some(cond), Some(list)) => match read_sizes(list) {
                Some(counts) => Some(Spring { condition: to_text(cond), counts }),
                None => None,
            },
            _ => None,
        }
    }

    /// Reads a line such as `???.### 1,1,3`.
    pub fn parse(line: &str) -> (out: Option<Spring>)
        ensures
            out is Some <==> spring_of(regex_groups("([#\\.\\?]+) ([\\d\\,]+)"@, line@)) is Some,
            out matches Some(spring) ==> spring_of(
                regex_groups("([#\\.\\?]+) ([\\d\\,]+)"@, line@),
            ) == Some((spring.condition@, spring.counts@)),
    {
        match captures("([#\\.\\?]+) ([\\d\\,]+)", line) {
            Some(groups) => Spring::from_groups(&groups),
            None => None,
        }
    }
}

/// `times` copies of `cond`, with `mark` between one copy and the next.
pub open spec fn copies_joined(cond: Seq<char>, mark: char, times: int) -> Seq<char>
    decreases times,
{
    if times <= 0 {
        Seq::empty()
    } else if times == 1 {
        cond
    } else {
        copies_joined(cond, mark, times - 1).push(mark) + cond
    }
}

/// `times` copies of `counts`, one after the other.
pub open spec fn copies_of(counts: Seq<usize>, times: int) -> Seq<usize>
    decreases times,
{
    if times <= 0 {
        Seq::empty()
    } else {
        copies_of(counts, times - 1) + counts
    }
}

impl Spring {
    /// The row unfolded: `times` copies of its condition with an unknown
    /// spring between one copy and the next, and `times` copies of its
    /// group sizes.
    pub fn unfold(&self, times: usize) -> (out: Spring)
        ensures
            out.condition@ == copies_joined(self.condition@, '?', times as int),
            out.counts@ == copies_of(self.counts@, times as int),
    {
        let cond = to_chars(self.condition.as_str());
        let mut chars: Vec<char> = Vec::new();
        let mut counts: Vec<usize> = Vec::new();
        let mut k: usize = 0;
        while k < times
            invariant
                k <= times,
                cond@ == self.condition@,
                chars@ == copies_joined(cond@, '?', k as int),
                counts@ == copies_of(self.counts@, k as int),
            decreases times - k,
        {
            if k > 0 {
                chars.push('?');
            }
            let ghost before = chars@;
            let mut i: usize = 0;
            while i < cond.len()
                invariant
                    i <= cond@.len(),
                    chars@ == before + cond@.take(i as int),
                decreases cond@.len() - i,
            {
                chars.push(cond[i]);
                assert(cond@.take(i + 1) =~= cond@.take(i as int).push(cond@[i as int]));
                assert(chars@ =~= before + cond@.take(i + 1));
                i += 1;
            }
            let ghost held = counts@;
            let mut j: usize = 0;
            while j < self.counts.len()
                invariant
                    j <= self.counts@.len(),
                    counts@ == held + self.counts@.take(j as int),
                decreases self.counts@.len() - j,
            {
                counts.push(self.counts[j]);
                assert(self.counts@.take(j + 1) =~= self.counts@.take(j as int).push(
                    self.counts@[j as int],
                ));
                assert(counts@ =~= held + self.counts@.take(j + 1));
                j += 1;
            }
            proof {
                assert(cond@.take(cond@.len() as int) =~= cond@);
                assert(self.counts@.take(self.counts@.len() as int) =~= self.counts@);
                if k == 0 {
                    assert(chars@ =~= cond@);
                }
            }
            k += 1;
        }
        Spring { condition: to_text(&chars), counts }
    }
}

} // verus!
