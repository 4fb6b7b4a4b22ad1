//! Scratch cards: the numbers of a card that win, what they are worth, and
//! how many cards the winnings add up to.

use crate::outside::{captures, group_views, regex_groups};
use crate::powers::{lemma_pow2_grows, lemma_pow2_values, pow2};
use crate::text::{numbers_of, parse_unsigned, read_numbers, unsigned_of};
use vstd::prelude::*;

verus! {

/// A scratch card: its number, the winning numbers and the numbers drawn.
#[derive(Debug, Clone, PartialEq, Eq)]
pub struct Card {
    pub id: u32,
    pub winners: Vec<u32>,
    pub numbers: Vec<u32>,
}

/// The numbers of `list` as `u32`.
pub open spec fn narrowed(list: Seq<u64>) -> Seq<u32> {
    list.map_values(|v: u64| v as u32)
}

/// The numbers that the words of `text` write, or `None` when a word is no
/// number that fits in `u32`.
pub open spec fn numbers_in(text: Seq<char>) -> Option<Seq<u32>> {
    match numbers_of(text, u32::MAX as nat) {
        Some(list) => Some(narrowed(list)),
        None => None,
    }
}

/// Reads the numbers that `text` lists between white space.
pub fn read_small_numbers(text: &Vec<char>) -> (out: Option<Vec<u32>>)
    ensures
        out is Some <==> numbers_in(text@) is Some,
        out matches Some(list) ==> numbers_in(text@) == Some(list@),
{
    let wide = match read_numbers(text, u32::MAX as u64) {
        Some(wide) => wide,
        None => { return None; },
    };
    let mut list: Vec<u32> = Vec::new();
    let mut k: usize = 0;
    while k < wide.len()
        invariant
            k <= wide@.len(),
            forall|i: int| 0 <= i < wide@.len() ==> #[trigger] wide@[i] <= u32::MAX,
            list@ == narrowed(wide@.take(k as int)),
        decreases wide@.len() - k,
    {
        list.push(wide[k] as u32);
        proof {
            assert(wide@.take(k + 1) =~= wide@.take(k as int).push(wide@[k as int]));
            assert(list@ =~= narrowed(wide@.take(k + 1)));
        }
        k += 1;
    }
    proof {
        assert(wide@.take(k as int) =~= wide@);
    }
    Some(list)
}

/// What a line says of a card, given the groups that the pattern of a card
/// line captured in it: the card number, the winning numbers and the
/// numbers drawn.
pub open spec fn card_of(groups: Option<Seq<Option<Seq<char>>>>) -> Option<
    (u32, Seq<u32>, Seq<u32>),
> {
    match groups {
        Some(g) => if g.len() == 4 && g[1] is Some && g[2] is Some && g[3] is Some && unsigned_of(
            g[1]->0,
            10,
            u32::MAX as nat,
        ) is Some && numbers_in(g[2]->0) is Some && numbers_in(g[3]->0) is Some {
            Some(
                (
                    unsigned_of(g[1]->0, 10, u32::MAX as nat)->0 as u32,
                    numbers_in(g[2]->0)->0,
                    numbers_in(g[3]->0)->0,
                ),
            )
        } else {
            None
        },
        None => None,
    }
}

/// The winning numbers among the first `n` numbers drawn, in the order in
/// which they were drawn.
pub open spec fn winning(winners: Seq<u32>, numbers: Seq<u32>, n: int) -> Seq<u32>
    decreases n,
{
    if n <= 0 {
        Seq::empty()
    } else if winners.contains(numbers[n - 1]) {
        winning(winners, numbers, n - 1).push(numbers[n - 1])
    } else {
        winning(winners, numbers, n - 1)
    }
}

/// The number of cards that card `index` wins through the first `k` of the
/// cards below it, with what those cards win in turn.
pub open spec fn won(counts: Seq<usize>, index: int, k: int) -> nat
    decreases counts.len() - index, k,
{
    if index < 0 || k <= 0 || index + k >= counts.len() {
        0
    } else {
        won(counts, index, k - 1) + 1 + won(counts, index + k, counts[index + k] as int)
    }
}

/// The number of cards that card `index` stands for: itself and all that it
/// wins.
pub open spec fn instances(counts: Seq<usize>, index: int) -> nat {
    1 + won(counts, index, counts[index] as int)
}

/// Whether every card wins only cards that exist.
pub open spec fn wins_in_range(counts: Seq<usize>) -> bool {
    forall|i: int| 0 <= i < counts.len() ==> i + #[trigger] counts[i] < counts.len()
}

impl Card {
    /// Builds a card from the groups that the pattern of a card line
    /// captured.
    pub fn from_groups(groups: &Vec<Option<Vec<char>>>) -> (out: Option<Card>)
        ensures
            out is Some <==> card_of(Some(group_views(groups@))) is Some,
            out matches Some(card) ==> card_of(Some(group_views(groups@))) == Some(
                (card.id, card.winners@, card.numbers@),
            ),
    {
        if groups.len() != 4 {
            return None;
        }
        proof {
            assert(group_views(groups@)[1] == match groups@[1] {
                Some(c) => Some(c@),
                None => None,
            });
            assert(group_views(groups@)[2] == match groups@[2] {
                Some(c) => Some(c@),
                None => None,
            });
            assert(group_views(groups@)[3] == match groups@[3] {
                Some(c) => Some(c@),
                None => None,
            });
        }
        let id = match &groups[1] {
            Some(text) => match parse_unsigned(text, u32::MAX as u64) {
                Some(v) => v as u32,
                None => { return None; },
            },
            None => { return None; },
        };
        let winners = match &groups[2] {
            Some(text) => match read_small_numbers(text) {
                Some(list) => list,
                None => { return None; },
            },
            None => { return None; },
        };
        let numbers = match &groups[3] {
            Some(text) => match read_small_numbers(text) {
                Some(list) => list,
                None => { return None; },
            },
            None => { return None; },
        };
        Some(Card { id, winners, numbers })
    }

    /// Reads a line such as `Card 1: 41 48 | 83 86 48`.
    pub fn parse(line: &str) -> (out: Option<Card>)
        ensures
            out is Some <==> card_of(
                regex_groups("Card\\s+(\\d+):([\\d\\s]+)\\|([\\d\\s]+)"@, line@),
            ) is Some,
            out matches Some(card) ==> card_of(
                regex_groups("Card\\s+(\\d+):([\\d\\s]+)\\|([\\d\\s]+)"@, line@),
            ) == Some((card.id, card.winners@, card.numbers@)),
    {
        match captures("Card\\s+(\\d+):([\\d\\s]+)\\|([\\d\\s]+)", line) {
            Some(groups) => Card::from_groups(&groups),
            None => None,
        }
    }

    /// The numbers drawn that are winning numbers, in the order in which
    /// they were drawn.
    pub fn winning_numbers(&self) -> (out: Vec<u32>)
        ensures
            out@ == winning(self.winners@, self.numbers@, self.numbers@.len() as int),
            out@.len() <= self.numbers@.len(),
    {
        let mut out: Vec<u32> = Vec::new();
        let mut k: usize = 0;
        while k < self.numbers.len()
            invariant
                k <= self.numbers@.len(),
                out@ == winning(self.winners@, self.numbers@, k as int),
                out@.len() <= k,
            decreases self.numbers@.len() - k,
        {
            let n = self.numbers[k];
            let mut hit = false;
            let mut j: usize = 0;
            while j < self.winners.len()
                invariant
                    j <= self.winners@.len(),
                    hit == exists|i: int| 0 <= i < j && self.winners@[i] == n,
                decreases self.winners@.len() - j,
            {
                if self.winners[j] == n {
                    hit = true;
                }
                j += 1;
            }
            proof {
                if hit {
                    let i = choose|i: int| 0 <= i < self.winners@.len() && self.winners@[i] == n;
                    assert(self.winners@.contains(n));
                }
            }
            if hit {
                out.push(n);
            }
            k += 1;
        }
        out
    }

    /// What the card is worth: nothing without a winning number, one point
    /// for the first and twice as much for each one more.
    pub fn points(&self) -> (out: u32)
        requires
            winning(self.winners@, self.numbers@, self.numbers@.len() as int).len() < 32,
        ensures
            out == pow2(
                winning(self.winners@, self.numbers@, self.numbers@.len() as int).len(),
            ) / 2,
    {
        let count = self.winning_numbers().len();
        let mut power: u32 = 1;
        let mut k: usize = 0;
        while k < count
            invariant
                k <= count < 32,
                power == pow2(k as nat),
            decreases count - k,
        {
            proof {
                lemma_pow2_grows(k as nat, 30);
                lemma_pow2_values();
            }
            power = power * 2;
            k += 1;
        }
        power / 2
    }
}

/// The number of cards that card `index` wins through the first `k` cards
/// below it, or `None` when the number leaves `u32`.
fn count_won(counts: &Vec<usize>, index: usize, k: usize, depth: u32) -> (out: Option<u32>)
    requires
        wins_in_range(counts@),
        index < counts@.len(),
        index + k < counts@.len(),
    ensures
        out matches Some(n) ==> n == won(counts@, index as int, k as int),
        out is None ==> won(counts@, index as int, k as int) > u32::MAX,
    decreases counts@.len() - index, k, 0nat,
{
    if k == 0 {
        return Some(0);
    }
    let before = match count_won(counts, index, k - 1, depth) {
        Some(n) => n,
        None => { return None; },
    };
    assert(index + k < counts.len());
    let below = match part2_instances(counts, index + k, depth.wrapping_add(1)) {
        Some(n) => n,
        None => { return None; },
    };
    before.checked_add(below)
}

/// The number of cards that card `index` stands for: itself and every card
/// that it wins, with what those win in turn. `None` when the number leaves
/// `u32`.
pub fn part2_instances(counts: &Vec<usize>, index: usize, depth: u32) -> (out: Option<u32>)
    requires
        wins_in_range(counts@),
        index < counts@.len(),
    ensures
        out matches Some(n) ==> n == instances(counts@, index as int),
        out is None ==> instances(counts@, index as int) > u32::MAX,
    decreases counts@.len() - index, counts@[index as int], 1nat,
{
    match count_won(counts, index, counts[index], depth) {
        Some(n) => n.checked_add(1),
        None => None,
    }
}

/// The number of copies of card `j` that there are once the first `n`
/// cards have handed out what they win: the card itself, and one more for
/// every copy of an earlier card that wins it.
pub open spec fn held(counts: Seq<usize>, j: int, n: int) -> nat
    decreases j, n,
{
    if n <= 0 || j < 0 {
        1
    } else {
        held(counts, j, n - 1) + if n - 1 < j && j <= n - 1 + counts[n - 1] {
            held(counts, n - 1, n - 1)
        } else {
            0
        }
    }
}

/// The number of copies of the first `n` cards in the end.
pub open spec fn held_total(counts: Seq<usize>, n: int) -> nat
    decreases n,
{
    if n <= 0 {
        0
    } else {
        held_total(counts, n - 1) + held(counts, n - 1, n - 1)
    }
}

/// Cards that come after card `j` hand nothing to it.
pub proof fn lemma_held_settles(counts: Seq<usize>, j: int, n: int)
    requires
        0 <= j <= n,
    ensures
        held(counts, j, n) == held(counts, j, j),
    decreases n - j,
{
    if j < n {
        lemma_held_settles(counts, j, n - 1);
    }
}

/// More cards hand out no fewer copies.
proof fn lemma_held_grows(counts: Seq<usize>, j: int, n: int, m: int)
    requires
        0 <= n <= m,
    ensures
        held(counts, j, n) <= held(counts, j, m),
    decreases m - n,
{
    if n < m {
        lemma_held_grows(counts, j, n, m - 1);
    }
}

/// More cards have no fewer copies in all.
proof fn lemma_held_total_grows(counts: Seq<usize>, n: int, m: int)
    requires
        0 <= n <= m,
    ensures
        held_total(counts, n) <= held_total(counts, m),
    decreases m - n,
{
    if n < m {
        lemma_held_total_grows(counts, n, m - 1);
    }
}

/// The number of cards in the end, counted card by card: every card hands
/// one copy of each card it wins to each of its own copies. `None` when a
/// number of copies leaves `u32`.
pub fn count_copies(counts: &Vec<usize>) -> (out: Option<u32>)
    requires
        wins_in_range(counts@),
    ensures
        out matches Some(total) ==> total == held_total(counts@, counts@.len() as int),
        out is None ==> held_total(counts@, counts@.len() as int) > u32::MAX,
{
    let n = counts.len();
    let mut copies: Vec<u32> = Vec::new();
    let mut k: usize = 0;
    while k < n
        invariant
            k <= n,
            copies@.len() == k,
            forall|j: int| 0 <= j < k ==> copies@[j] == 1,
        decreases n - k,
    {
        copies.push(1);
        k += 1;
    }
    let mut i: usize = 0;
    while i < n
        invariant
            i <= n,
            n == counts@.len(),
            wins_in_range(counts@),
            copies@.len() == n,
            forall|j: int| 0 <= j < n ==> #[trigger] copies@[j] == held(counts@, j, i as int),
        decreases n - i,
    {
        let count = counts[i];
        let mine = copies[i];
        proof {
            assert(i + counts@[i as int] < n);
        }
        let mut j: usize = i + 1;
        while j < i + 1 + count
            invariant
                i + 1 <= j <= i + 1 + count,
                i + count < n,
                n == counts@.len(),
                count == counts@[i as int],
                copies@.len() == n,
                mine == held(counts@, i as int, i as int),
                forall|m: int|
                    0 <= m < n ==> #[trigger] copies@[m] == if i < m < j {
                        held(counts@, m, i + 1)
                    } else {
                        held(counts@, m, i as int)
                    },
            decreases i + 1 + count - j,
        {
            match copies[j].checked_add(mine) {
                Some(v) => {
                    copies.set(j, v);
                },
                None => {
                    proof {
                        assert(held(counts@, j as int, i + 1) > u32::MAX);
                        lemma_held_grows(counts@, j as int, i + 1, j as int);
                        lemma_held_total_grows(counts@, j + 1, n as int);
                    }
                    return None;
                },
            }
            j += 1;
        }
        i += 1;
    }
    let mut total: u32 = 0;
    let mut k: usize = 0;
    while k < n
        invariant
            k <= n,
            n == counts@.len(),
            copies@.len() == n,
            forall|j: int| 0 <= j < n ==> #[trigger] copies@[j] == held(counts@, j, n as int),
            total == held_total(counts@, k as int),
        decreases n - k,
    {
        proof {
            lemma_held_settles(counts@, k as int, n as int);
        }
        match total.checked_add(copies[k]) {
            Some(t) => {
                total = t;
            },
            None => {
                proof {
                    lemma_held_total_grows(counts@, k + 1, n as int);
                }
                return None;
            },
        }
        k += 1;
    }
    Some(total)
}

} // verus!
