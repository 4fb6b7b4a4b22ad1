//! Hands of cards: how strong a hand is, what it is worth among hands of
//! equal strength, and what a list of hands wins in all.

use crate::outside::{first_two, is_frequency_table, most_common};
use crate::text::{
    parse_unsigned, pieces, split_on, to_chars, to_text, unsigned_of, views,
};
use vstd::prelude::*;
use vstd::seq_lib::to_multiset_contains;

verus! {

/// A hand of cards and what was bid on it.
#[derive(Clone, Eq, PartialEq, Debug)]
pub struct Hand {
    pub cards: String,
    pub bid: usize,
}

/// A hand of cards in which `'J'` is a joker, and what was bid on it.
#[derive(Clone, Eq, PartialEq, Debug)]
pub struct Hand2 {
    pub cards: String,
    pub bid: usize,
}

/// The rank of a card, from zero for the weakest to twelve for the ace.
/// With jokers, `'J'` is the weakest card.
pub open spec fn card_rank(card: char, jokers: bool) -> Option<nat> {
    if card == 'A' {
        Some(12)
    } else if card == 'K' {
        Some(11)
    } else if card == 'Q' {
        Some(10)
    } else if card == 'J' {
        if jokers {
            Some(0)
        } else {
            Some(9)
        }
    } else if card == 'T' {
        if jokers {
            Some(9)
        } else {
            Some(8)
        }
    } else if '2' <= card <= '9' {
        if jokers {
            Some((card as nat - '2' as nat + 1) as nat)
        } else {
            Some((card as nat - '2' as nat) as nat)
        }
    } else {
        None
    }
}

/// The first `n` cards read as the digits of a number in base thirteen, the
/// first card the most significant; `None` when a card has no rank.
pub open spec fn cards_value(cards: Seq<char>, jokers: bool, n: int) -> Option<nat>
    decreases n,
{
    if n <= 0 {
        Some(0)
    } else {
        match (cards_value(cards, jokers, n - 1), card_rank(cards[n - 1], jokers)) {
            (Some(before), Some(rank)) => Some(before * 13 + rank),
            _ => None,
        }
    }
}

/// The kind of hand that the counts of its cards, the greatest first, make:
/// six for five of a kind down to zero for five different cards.
pub open spec fn kind_of(counts: Seq<usize>) -> Option<u32> {
    if counts == seq![5usize] {
        Some(6)
    } else if counts == seq![4usize, 1usize] {
        Some(5)
    } else if counts == seq![3usize, 2usize] {
        Some(4)
    } else if counts == seq![3usize, 1usize, 1usize] {
        Some(3)
    } else if counts == seq![2usize, 2usize, 1usize] {
        Some(2)
    } else if counts == seq![2usize, 1usize, 1usize, 1usize] {
        Some(1)
    } else if counts == seq![1usize, 1usize, 1usize, 1usize, 1usize] {
        Some(0)
    } else {
        None
    }
}

/// The counts of a frequency table.
pub open spec fn counts_of(table: Seq<(char, usize)>) -> Seq<usize> {
    table.map_values(|entry: (char, usize)| entry.1)
}

/// The frequency table of `s`: every character of `s` with the number of
/// times it occurs, the most frequent first and, among equally frequent
/// characters, the lesser character first.
pub open spec fn frequency_table(s: Seq<char>) -> Seq<(char, usize)> {
    choose|table: Seq<(char, usize)>| is_frequency_table(s, table)
}

/// Two frequency tables of one text agree on every entry that the first
/// has.
proof fn lemma_tables_agree(s: Seq<char>, a: Seq<(char, usize)>, b: Seq<(char, usize)>, i: int)
    requires
        is_frequency_table(s, a),
        is_frequency_table(s, b),
        0 <= i < a.len(),
    ensures
        i < b.len(),
        a[i] == b[i],
    decreases i,
{
    assert forall|j: int| 0 <= j < i implies j < b.len() && a[j] == b[j] by {
        lemma_tables_agree(s, a, b, j);
    }
    let c = a[i].0;
    to_multiset_contains(s, c);
    let at = choose|at: int| 0 <= at < s.len() && s[at] == c;
    let k = choose|k: int| 0 <= k < b.len() && (#[trigger] b[k]).0 == s[at];
    if k < i {
        assert(a[k] == b[k]);
        assert(a[k].1 > a[i].1 || (a[k].1 == a[i].1 && a[k].0 < a[i].0));
    }
    let d = b[i].0;
    to_multiset_contains(s, d);
    let at2 = choose|at2: int| 0 <= at2 < s.len() && s[at2] == d;
    let m = choose|m: int| 0 <= m < a.len() && (#[trigger] a[m]).0 == s[at2];
    if m < i {
        assert(a[m] == b[m]);
        assert(b[m].1 > b[i].1 || (b[m].1 == b[i].1 && b[m].0 < b[i].0));
    }
    if m > i {
        assert(a[i].1 > a[m].1 || (a[i].1 == a[m].1 && a[i].0 < a[m].0));
    }
    if k > i {
        assert(b[i].1 > b[k].1 || (b[i].1 == b[k].1 && b[i].0 < b[k].0));
    }
}

/// A text has one frequency table only.
pub proof fn lemma_table_unique(s: Seq<char>, table: Seq<(char, usize)>)
    requires
        is_frequency_table(s, table),
    ensures
        table == frequency_table(s),
{
    let other = frequency_table(s);
    assert(is_frequency_table(s, other));
    if other.len() > table.len() {
        lemma_tables_agree(s, other, table, table.len() as int);
    }
    if table.len() > other.len() {
        lemma_tables_agree(s, table, other, other.len() as int);
    }
    assert forall|i: int| 0 <= i < table.len() implies #[trigger] table[i] == other[i] by {
        lemma_tables_agree(s, table, other, i);
    }
    assert(table =~= other);
}

/// The characters among the first `n` of `cards` that are no `'J'`.
pub open spec fn without_jokers(cards: Seq<char>, n: int) -> Seq<char>
    decreases n,
{
    if n <= 0 {
        Seq::empty()
    } else if cards[n - 1] == 'J' {
        without_jokers(cards, n - 1)
    } else {
        without_jokers(cards, n - 1).push(cards[n - 1])
    }
}

/// The counts of the cards of a hand with jokers: the counts of the cards
/// that are no jokers, the greatest first, with the number of jokers added
/// to the greatest; one count of all cards when every card is a joker.
pub open spec fn joker_counts(cards: Seq<char>) -> Seq<int> {
    let plain = without_jokers(cards, cards.len() as int);
    let counts = counts_of(frequency_table(plain));
    let jokers = cards.len() - plain.len();
    if counts.len() == 0 {
        seq![jokers]
    } else {
        Seq::new(
            counts.len(),
            |i: int|
                if i == 0 {
                    counts[0] + jokers
                } else {
                    counts[i] as int
                },
        )
    }
}

/// The counts `counts` as a sequence of integers.
pub open spec fn as_ints(counts: Seq<usize>) -> Seq<int> {
    counts.map_values(|c: usize| c as int)
}

/// The rank of a card.
pub fn rank_of(card: char, jokers: bool) -> (out: Option<u32>)
    ensures
        out is Some <==> card_rank(card, jokers) is Some,
        out matches Some(r) ==> card_rank(card, jokers) == Some(r as nat) && r < 13,
{
    if card == 'A' {
        Some(12)
    } else if card == 'K' {
        Some(11)
    } else if card == 'Q' {
        Some(10)
    } else if card == 'J' {
        if jokers {
            Some(0)
        } else {
            Some(9)
        }
    } else if card == 'T' {
        if jokers {
            Some(9)
        } else {
            Some(8)
        }
    } else if card >= '2' && card <= '9' {
        if jokers {
            Some(card as u32 - '2' as u32 + 1)
        } else {
            Some(card as u32 - '2' as u32)
        }
    } else {
        None
    }
}

/// The cards read as a number in base thirteen; `None` when a card has no
/// rank or the number leaves `u32`.
pub fn value_of(cards: &Vec<char>, jokers: bool) -> (out: Option<u32>)
    ensures
        out matches Some(v) ==> cards_value(cards@, jokers, cards@.len() as int) == Some(v as nat),
        out is None ==> cards_value(cards@, jokers, cards@.len() as int) is None || cards_value(
            cards@,
            jokers,
            cards@.len() as int,
        )->0 > u32::MAX,
{
    let mut value: u32 = 0;
    let mut k: usize = 0;
    while k < cards.len()
        invariant
            k <= cards@.len(),
            cards_value(cards@, jokers, k as int) == Some(value as nat),
        decreases cards@.len() - k,
    {
        let rank = match rank_of(cards[k], jokers) {
            Some(r) => r,
            None => {
                proof {
                    lemma_value_stays_none(cards@, jokers, k + 1, cards@.len() as int);
                }
                return None;
            },
        };
        let next = match value.checked_mul(13) {
            Some(scaled) => scaled.checked_add(rank),
            None => None,
        };
        match next {
            Some(v) => {
                value = v;
            },
            None => {
                proof {
                    lemma_value_grows(cards@, jokers, k + 1, cards@.len() as int);
                }
                return None;
            },
        }
        k += 1;
    }
    Some(value)
}

/// Once a card has no rank, no longer hand has a value.
proof fn lemma_value_stays_none(cards: Seq<char>, jokers: bool, n: int, m: int)
    requires
        cards_value(cards, jokers, n) is None,
        n <= m,
    ensures
        cards_value(cards, jokers, m) is None,
    decreases m - n,
{
    if n < m {
        lemma_value_stays_none(cards, jokers, n, m - 1);
    }
}

/// More cards do not make a hand worth less.
proof fn lemma_value_grows(cards: Seq<char>, jokers: bool, n: int, m: int)
    requires
        0 <= n <= m,
        cards_value(cards, jokers, n) is Some,
    ensures
        cards_value(cards, jokers, m) matches Some(v) ==> v >= cards_value(cards, jokers, n)->0,
    decreases m - n,
{
    if n < m {
        lemma_value_grows(cards, jokers, n, m - 1);
    }
}

/// The kind of hand that `c`, the counts of its cards with the greatest
/// first, makes; `None` when the counts are those of no hand of five cards.
pub fn hand_strength(c: Vec<usize>) -> (out: Option<u32>)
    ensures
        out == kind_of(c@),
{
    let n = c.len();
    let out = if n == 1 && c[0] == 5 {
        Some(6)
    } else if n == 2 && c[0] == 4 && c[1] == 1 {
        Some(5)
    } else if n == 2 && c[0] == 3 && c[1] == 2 {
        Some(4)
    } else if n == 3 && c[0] == 3 && c[1] == 1 && c[2] == 1 {
        Some(3)
    } else if n == 3 && c[0] == 2 && c[1] == 2 && c[2] == 1 {
        Some(2)
    } else if n == 4 && c[0] == 2 && c[1] == 1 && c[2] == 1 && c[3] == 1 {
        Some(1)
    } else if n == 5 && c[0] == 1 && c[1] == 1 && c[2] == 1 && c[3] == 1 && c[4] == 1 {
        Some(0)
    } else {
        None
    };
    proof {
        let s = c@;
        if out == Some(6u32) {
            assert(s =~= seq![5usize]);
        } else if out == Some(5u32) {
            assert(s =~= seq![4usize, 1usize]);
        } else if out == Some(4u32) {
            assert(s =~= seq![3usize, 2usize]);
        } else if out == Some(3u32) {
            assert(s =~= seq![3usize, 1usize, 1usize]);
        } else if out == Some(2u32) {
            assert(s =~= seq![2usize, 2usize, 1usize]);
        } else if out == Some(1u32) {
            assert(s =~= seq![2usize, 1usize, 1usize, 1usize]);
        } else if out == Some(0u32) {
            assert(s =~= seq![1usize, 1usize, 1usize, 1usize, 1usize]);
        } else {
            lemma_kind_lengths(s);
        }
    }
    out
}

/// What the seven kinds of hand look like.
proof fn lemma_kind_lengths(s: Seq<usize>)
    ensures
        s == seq![5usize] ==> s.len() == 1 && s[0] == 5,
        s == seq![4usize, 1usize] ==> s.len() == 2 && s[0] == 4 && s[1] == 1,
        s == seq![3usize, 2usize] ==> s.len() == 2 && s[0] == 3 && s[1] == 2,
        s == seq![3usize, 1usize, 1usize] ==> s.len() == 3 && s[0] == 3 && s[1] == 1 && s[2] == 1,
        s == seq![2usize, 2usize, 1usize] ==> s.len() == 3 && s[0] == 2 && s[1] == 2 && s[2] == 1,
        s == seq![2usize, 1usize, 1usize, 1usize] ==> s.len() == 4 && s[0] == 2 && s[1] == 1
            && s[2] == 1 && s[3] == 1,
        s == seq![1usize, 1usize, 1usize, 1usize, 1usize] ==> s.len() == 5 && s[0] == 1 && s[1]
            == 1 && s[2] == 1 && s[3] == 1 && s[4] == 1,
{
}

/// The counts of the characters of `cards`, the greatest first.
pub fn card_counts(cards: &Vec<char>) -> (out: Vec<usize>)
    ensures
        out@ == counts_of(frequency_table(cards@)),
{
    let table = most_common(cards);
    proof {
        lemma_table_unique(cards@, table@);
    }
    let mut out: Vec<usize> = Vec::new();
    let mut k: usize = 0;
    while k < table.len()
        invariant
            k <= table@.len(),
            out@ == counts_of(table@.take(k as int)),
        decreases table@.len() - k,
    {
        out.push(table[k].1);
        proof {
            assert(table@.take(k + 1) =~= table@.take(k as int).push(table@[k as int]));
            assert(out@ =~= counts_of(table@.take(k + 1)));
        }
        k += 1;
    }
    proof {
        assert(table@.take(k as int) =~= table@);
    }
    out
}

impl Hand {
    /// The kind of the hand, from six for five of a kind down to zero for
    /// five different cards; `None` when the cards are no hand of five.
    pub fn strength(&self) -> (out: Option<u32>)
        ensures
            out == kind_of(counts_of(frequency_table(self.cards@))),
    {
        let cards = to_chars(self.cards.as_str());
        hand_strength(card_counts(&cards))
    }

    /// The cards read as a number in base thirteen, which orders hands of
    /// equal strength.
    pub fn value(&self) -> (out: Option<u32>)
        ensures
            out matches Some(v) ==> cards_value(self.cards@, false, self.cards@.len() as int)
                == Some(v as nat),
            out is None ==> cards_value(self.cards@, false, self.cards@.len() as int) is None
                || cards_value(self.cards@, false, self.cards@.len() as int)->0 > u32::MAX,
    {
        let cards = to_chars(self.cards.as_str());
        value_of(&cards, false)
    }

    /// Reads a line such as `32T3K 765`.
    pub fn parse(line: &str) -> (out: Option<Hand>)
        ensures
            out is Some <==> hand_and_bid(line@) is Some,
            out matches Some(hand) ==> hand_and_bid(line@) == Some((hand.cards@, hand.bid)),
    {
        match parse_hand_bid(line) {
            Some((cards, bid)) => Some(Hand { cards, bid }),
            None => None,
        }
    }
}

impl Hand2 {
    /// The kind of the hand when every joker counts as the card that the
    /// hand holds most of.
    pub fn strength(&self) -> (out: Option<u32>)
        ensures
            out matches Some(kind) ==> exists|counts: Seq<usize>|
                as_ints(counts) == joker_counts(self.cards@) && kind_of(counts) == Some(kind),
            out is None ==> forall|counts: Seq<usize>|
                as_ints(counts) == joker_counts(self.cards@) ==> kind_of(counts) is None,
    {
        let cards = to_chars(self.cards.as_str());
        let mut plain: Vec<char> = Vec::new();
        let mut k: usize = 0;
        while k < cards.len()
            invariant
                k <= cards@.len(),
                plain@ == without_jokers(cards@, k as int),
                plain@.len() <= k,
            decreases cards@.len() - k,
        {
            if cards[k] != 'J' {
                plain.push(cards[k]);
            }
            k += 1;
        }
        let jokers = cards.len() - plain.len();
        let mut c = card_counts(&plain);
        let ghost given = c@;
        if c.len() == 0 {
            c.push(0);
        }
        let first = match c[0].checked_add(jokers) {
            Some(v) => v,
            None => {
                proof {
                    assert forall|counts: Seq<usize>|
                        as_ints(counts) == joker_counts(self.cards@) implies kind_of(counts)
                        is None by {
                        assert(as_ints(counts).len() == counts.len());
                        assert(as_ints(counts)[0] == counts[0] as int);
                    }
                }
                return None;
            },
        };
        c.set(0, first);
        proof {
            assert(as_ints(c@) =~= joker_counts(self.cards@));
            assert forall|counts: Seq<usize>|
                as_ints(counts) == joker_counts(self.cards@) implies counts == c@ by {
                assert(counts.len() == as_ints(counts).len());
                assert(c@.len() == as_ints(c@).len());
                assert forall|i: int| 0 <= i < counts.len() implies counts[i] == c@[i] by {
                    assert(as_ints(counts)[i] == counts[i] as int);
                    assert(as_ints(c@)[i] == c@[i] as int);
                }
                assert(counts =~= c@);
            }
        }
        hand_strength(c)
    }

    /// The cards read as a number in base thirteen with the joker as the
    /// weakest card.
    pub fn value(&self) -> (out: Option<u32>)
        ensures
            out matches Some(v) ==> cards_value(self.cards@, true, self.cards@.len() as int)
                == Some(v as nat),
            out is None ==> cards_value(self.cards@, true, self.cards@.len() as int) is None
                || cards_value(self.cards@, true, self.cards@.len() as int)->0 > u32::MAX,
    {
        let cards = to_chars(self.cards.as_str());
        value_of(&cards, true)
    }

    /// Reads a line such as `32T3K 765`.
    pub fn parse(line: &str) -> (out: Option<Hand2>)
        ensures
            out is Some <==> hand_and_bid(line@) is Some,
            out matches Some(hand) ==> hand_and_bid(line@) == Some((hand.cards@, hand.bid)),
    {
        match parse_hand_bid(line) {
            Some((cards, bid)) => Some(Hand2 { cards, bid }),
            None => None,
        }
    }
}

/// The cards and the bid that a line names: the first two of the parts that
/// single spaces cut it into, the second a number.
pub open spec fn hand_and_bid(line: Seq<char>) -> Option<(Seq<char>, usize)> {
    let parts = pieces(line, seq![' ']);
    if parts.len() >= 2 {
        match unsigned_of(parts[1], 10, usize::MAX as nat) {
            Some(bid) => Some((parts[0], bid as usize)),
            None => None,
        }
    } else {
        None
    }
}

/// Reads the cards and the bid of a line such as `32T3K 765`.
pub fn parse_hand_bid(s: &str) -> (out: Option<(String, usize)>)
    ensures
        out is Some <==> hand_and_bid(s@) is Some,
        out matches Some(pair) ==> hand_and_bid(s@) == Some((pair.0@, pair.1)),
{
    let line = to_chars(s);
    let mut space: Vec<char> = Vec::new();
    space.push(' ');
    assert(space@ =~= seq![' ']);
    let parts = split_on(&line, &space);
    proof {
        assert(views(parts@).len() == parts@.len());
        if parts@.len() >= 2 {
            assert(views(parts@)[0] == parts@[0]@);
            assert(views(parts@)[1] == parts@[1]@);
        }
    }
    let (cards, bid) = match first_two(parts) {
        Some(pair) => pair,
        None => { return None; },
    };
    match parse_unsigned(&bid, usize::MAX as u64) {
        Some(v) => Some((to_text(&cards), v as usize)),
        None => None,
    }
}

/// Whether the hand with key `a` at place `i` comes before the hand with
/// key `b` at place `j` when hands are ordered by strength, then by value,
/// and hands of equal strength and value keep their places.
pub open spec fn ranks_before(a: (u32, u32), i: int, b: (u32, u32), j: int) -> bool {
    a.0 < b.0 || (a.0 == b.0 && (a.1 < b.1 || (a.1 == b.1 && i < j)))
}

/// The number of hands among the first `n` that come before hand `i`.
pub open spec fn weaker_hands(keys: Seq<(u32, u32)>, i: int, n: int) -> nat
    decreases n,
{
    if n <= 0 {
        0
    } else {
        weaker_hands(keys, i, n - 1) + if ranks_before(keys[n - 1], n - 1, keys[i], i) {
            1nat
        } else {
            0nat
        }
    }
}

/// What the first `n` hands win: each its bid times its rank, where the
/// weakest hand of all has rank one.
pub open spec fn winnings(keys: Seq<(u32, u32)>, bids: Seq<usize>, n: int) -> int
    decreases n,
{
    if n <= 0 {
        0
    } else {
        winnings(keys, bids, n - 1) + (weaker_hands(keys, n - 1, keys.len() as int) + 1)
            * bids[n - 1]
    }
}

/// At most `n` of the first `n` hands come before any hand.
proof fn lemma_weaker_bounded(keys: Seq<(u32, u32)>, i: int, n: int)
    requires
        0 <= n,
    ensures
        weaker_hands(keys, i, n) <= n,
    decreases n,
{
    if n > 0 {
        lemma_weaker_bounded(keys, i, n - 1);
    }
}

/// What a list of hands wins in all, given the strength and the value of
/// each hand and its bid: the sum of every bid times the rank of its hand.
/// `None` when the sum leaves `usize`.
pub fn total_winnings(keys: &Vec<(u32, u32)>, bids: &Vec<usize>) -> (out: Option<usize>)
    requires
        keys@.len() == bids@.len(),
    ensures
        out matches Some(total) ==> total == winnings(keys@, bids@, keys@.len() as int),
        out is None ==> winnings(keys@, bids@, keys@.len() as int) > usize::MAX,
{
    let n = keys.len();
    let mut total: usize = 0;
    let mut i: usize = 0;
    while i < n
        invariant
            i <= n,
            n == keys@.len(),
            n == bids@.len(),
            total == winnings(keys@, bids@, i as int),
        decreases n - i,
    {
        let mut weaker: usize = 0;
        let mut j: usize = 0;
        while j < n
            invariant
                j <= n,
                i < n,
                n == keys@.len(),
                weaker == weaker_hands(keys@, i as int, j as int),
                weaker <= j,
                j > i ==> weaker < j,
            decreases n - j,
        {
            let a = keys[j];
            let b = keys[i];
            if a.0 < b.0 || (a.0 == b.0 && (a.1 < b.1 || (a.1 == b.1 && j < i))) {
                weaker += 1;
            }
            j += 1;
        }
        let gain = match (weaker + 1).checked_mul(bids[i]) {
            Some(g) => total.checked_add(g),
            None => None,
        };
        match gain {
            Some(t) => {
                total = t;
            },
            None => {
                proof {
                    lemma_winnings_grow(keys@, bids@, i + 1, n as int);
                }
                return None;
            },
        }
        i += 1;
    }
    Some(total)
}

/// More hands do not win less.
proof fn lemma_winnings_grow(keys: Seq<(u32, u32)>, bids: Seq<usize>, n: int, m: int)
    requires
        0 <= n <= m,
    ensures
        winnings(keys, bids, n) <= winnings(keys, bids, m),
    decreases m - n,
{
    if n < m {
        lemma_winnings_grow(keys, bids, n, m - 1);
        let rank = weaker_hands(keys, m - 1, keys.len() as int) + 1;
        assert(rank * bids[m - 1] >= 0) by (nonlinear_arith)
            requires
                rank >= 0,
                bids[m - 1] >= 0,
        ;
    }
}

} // verus!
