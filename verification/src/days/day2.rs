//! Games of cubes: the handfuls that were shown in a game, the most cubes of
//! each colour that it needs, and whether a bag could have held them.

use crate::outside::{captures, exactly_three, group_views, regex_groups};
use crate::text::{
    parse_unsigned, pieces, same_chars, split_on, to_chars, to_text, unsigned_of, views,
};
use vstd::prelude::*;

verus! {

/// A number of cubes of one colour.
#[derive(Debug, Clone, PartialEq, Eq)]
pub struct Cubes {
    pub count: u32,
    pub color: String,
}

/// One game: its number and the handfuls of cubes that were shown.
#[derive(Debug, Clone, PartialEq, Eq)]
pub struct Game {
    pub id: u32,
    pub handfuls: Vec<Vec<Cubes>>,
}

/// What a text says of some cubes, given the groups that the pattern of a
/// count and a colour captured in it.
pub open spec fn cubes_of(groups: Option<Seq<Option<Seq<char>>>>) -> Option<(u32, Seq<char>)> {
    match groups {
        Some(g) => if g.len() == 3 && g[1] is Some && g[2] is Some && unsigned_of(
            g[1]->0,
            10,
            u32::MAX as nat,
        ) is Some {
            Some((unsigned_of(g[1]->0, 10, u32::MAX as nat)->0 as u32, g[2]->0))
        } else {
            None
        },
        None => None,
    }
}

/// What `text` says of some cubes.
pub open spec fn cubes_in(text: Seq<char>) -> Option<(u32, Seq<char>)> {
    cubes_of(regex_groups("(\\d+) (\\w+)"@, text))
}

impl Cubes {
    /// The count and the colour of the cubes.
    pub open spec fn view(&self) -> (u32, Seq<char>) {
        (self.count, self.color@)
    }

    /// Builds cubes from the groups that the pattern captured.
    pub fn from_groups(groups: &Vec<Option<Vec<char>>>) -> (out: Option<Cubes>)
        ensures
            out is Some <==> cubes_of(Some(group_views(groups@))) is Some,
            out matches Some(cubes) ==> cubes_of(Some(group_views(groups@))) == Some(cubes.view()),
    {
        if groups.len() != 3 {
            return None;
        }
        proof {
            assert(group_views(groups@)[1] == match groups@[1] {
                Some(c) => Some(c@),
                None => None,
            });
            assert(group_views(groups@)[2] == match groups@[2] {
                Some(c) => Some(c@),
                None => None,
            });
        }
        match (&groups[1], &groups[2]) {
            (Some(digits), Some(name)) => match parse_unsigned(digits, u32::MAX as u64) {
                Some(v) => Some(Cubes { count: v as u32, color: to_text(name) }),
                None => None,
            },
            _ => None,
        }
    }

    /// Reads a text such as `3 blue`.
    pub fn parse(text: &str) -> (out: Option<Cubes>)
        ensures
            out is Some <==> cubes_in(text@) is Some,
            out matches Some(cubes) ==> cubes_in(text@) == Some(cubes.view()),
    {
        match captures("(\\d+) (\\w+)", text) {
            Some(groups) => Cubes::from_groups(&groups),
            None => None,
        }
    }
}

/// The views of a list of cubes.
pub open spec fn handful_view(handful: Seq<Cubes>) -> Seq<(u32, Seq<char>)> {
    handful.map_values(|c: Cubes| c.view())
}

/// The views of a list of handfuls.
pub open spec fn handfuls_view(handfuls: Seq<Vec<Cubes>>) -> Seq<Seq<(u32, Seq<char>)>> {
    handfuls.map_values(|h: Vec<Cubes>| handful_view(h@))
}

/// The cubes that the first `n` parts of a handful name, or `None` when one
/// of the parts names none.
pub open spec fn handful_of(parts: Seq<Seq<char>>, n: int) -> Option<Seq<(u32, Seq<char>)>>
    decreases n,
{
    if n <= 0 {
        Some(Seq::empty())
    } else {
        match (handful_of(parts, n - 1), cubes_in(parts[n - 1])) {
            (Some(before), Some(cubes)) => Some(before.push(cubes)),
            _ => None,
        }
    }
}

/// The handfuls that the first `n` parts of a game name.
pub open spec fn handfuls_of(parts: Seq<Seq<char>>, n: int) -> Option<
    Seq<Seq<(u32, Seq<char>)>>,
>
    decreases n,
{
    if n <= 0 {
        Some(Seq::empty())
    } else {
        match (
            handfuls_of(parts, n - 1),
            handful_of(
                pieces(parts[n - 1], seq![',', ' ']),
                pieces(parts[n - 1], seq![',', ' ']).len() as int,
            ),
        ) {
            (Some(before), Some(handful)) => Some(before.push(handful)),
            _ => None,
        }
    }
}

/// What a line says of a game, given the groups that the pattern of a game
/// line captured in it.
pub open spec fn game_of(groups: Option<Seq<Option<Seq<char>>>>) -> Option<
    (u32, Seq<Seq<(u32, Seq<char>)>>),
> {
    match groups {
        Some(g) => if g.len() == 3 && g[1] is Some && g[2] is Some && unsigned_of(
            g[1]->0,
            10,
            u32::MAX as nat,
        ) is Some {
            match handfuls_of(
                pieces(g[2]->0, seq![';', ' ']),
                pieces(g[2]->0, seq![';', ' ']).len() as int,
            ) {
                Some(handfuls) => Some(
                    (unsigned_of(g[1]->0, 10, u32::MAX as nat)->0 as u32, handfuls),
                ),
                None => None,
            }
        } else {
            None
        },
        None => None,
    }
}

/// The greatest count of cubes of `color` among the first `n` cubes of a
/// handful, or `None` when none of them has that colour.
pub open spec fn most_in(handful: Seq<(u32, Seq<char>)>, color: Seq<char>, n: int) -> Option<u32>
    decreases n,
{
    if n <= 0 {
        None
    } else {
        let before = most_in(handful, color, n - 1);
        if handful[n - 1].1 == color {
            match before {
                Some(m) => if handful[n - 1].0 > m {
                    Some(handful[n - 1].0)
                } else {
                    Some(m)
                },
                None => Some(handful[n - 1].0),
            }
        } else {
            before
        }
    }
}

/// The greatest count of cubes of `color` in any of the first `n`
/// handfuls, or `None` when none of them shows that colour.
pub open spec fn most_shown(
    handfuls: Seq<Seq<(u32, Seq<char>)>>,
    color: Seq<char>,
    n: int,
) -> Option<u32>
    decreases n,
{
    if n <= 0 {
        None
    } else {
        let before = most_shown(handfuls, color, n - 1);
        match (before, most_in(handfuls[n - 1], color, handfuls[n - 1].len() as int)) {
            (Some(a), Some(b)) => if b > a {
                Some(b)
            } else {
                Some(a)
            },
            (Some(a), None) => Some(a),
            (None, other) => other,
        }
    }
}

/// Reads the cubes of one handful, such as `3 blue, 4 red`.
fn read_handful(text: &Vec<char>) -> (out: Option<Vec<Cubes>>)
    ensures
        out is Some <==> handful_of(
            pieces(text@, seq![',', ' ']),
            pieces(text@, seq![',', ' ']).len() as int,
        ) is Some,
        out matches Some(handful) ==> handful_of(
            pieces(text@, seq![',', ' ']),
            pieces(text@, seq![',', ' ']).len() as int,
        ) == Some(handful_view(handful@)),
{
    let mut sep: Vec<char> = Vec::new();
    sep.push(',');
    sep.push(' ');
    assert(sep@ =~= seq![',', ' ']);
    let parts = split_on(text, &sep);
    let ghost texts = pieces(text@, seq![',', ' ']);
    let mut handful: Vec<Cubes> = Vec::new();
    let mut k: usize = 0;
    proof {
        assert(views(parts@).len() == parts@.len());
    }
    while k < parts.len()
        invariant
            k <= parts@.len(),
            texts == views(parts@),
            texts == pieces(text@, seq![',', ' ']),
            texts.len() == parts@.len(),
            handful_of(texts, k as int) == Some(handful_view(handful@)),
        decreases parts@.len() - k,
    {
        let ghost before = handful_view(handful@);
        let part = to_text(&parts[k]);
        proof {
            assert(texts[k as int] == parts@[k as int]@);
        }
        match Cubes::parse(part.as_str()) {
            Some(cubes) => {
                handful.push(cubes);
                proof {
                    assert(handful_view(handful@) =~= before.push(cubes.view()));
                }
            },
            None => {
                proof {
                    lemma_handful_stays_none(texts, k + 1, texts.len() as int);
                }
                return None;
            },
        }
        k += 1;
    }
    Some(handful)
}

/// Reads the handfuls of a game, such as `3 blue, 4 red; 1 red`.
fn read_handfuls(rest: &Vec<char>) -> (out: Option<Vec<Vec<Cubes>>>)
    ensures
        out is Some <==> handfuls_of(
            pieces(rest@, seq![';', ' ']),
            pieces(rest@, seq![';', ' ']).len() as int,
        ) is Some,
        out matches Some(handfuls) ==> handfuls_of(
            pieces(rest@, seq![';', ' ']),
            pieces(rest@, seq![';', ' ']).len() as int,
        ) == Some(handfuls_view(handfuls@)),
{
    let mut sep: Vec<char> = Vec::new();
    sep.push(';');
    sep.push(' ');
    assert(sep@ =~= seq![';', ' ']);
    let parts = split_on(rest, &sep);
    let ghost texts = pieces(rest@, seq![';', ' ']);
    proof {
        assert(views(parts@).len() == parts@.len());
    }
    let mut handfuls: Vec<Vec<Cubes>> = Vec::new();
    let mut k: usize = 0;
    while k < parts.len()
        invariant
            k <= parts@.len(),
            texts == views(parts@),
            texts == pieces(rest@, seq![';', ' ']),
            texts.len() == parts@.len(),
            handfuls_of(texts, k as int) == Some(handfuls_view(handfuls@)),
        decreases parts@.len() - k,
    {
        let ghost before = handfuls_view(handfuls@);
        proof {
            assert(texts[k as int] == parts@[k as int]@);
        }
        match read_handful(&parts[k]) {
            Some(handful) => {
                handfuls.push(handful);
                proof {
                    assert(handfuls_view(handfuls@) =~= before.push(handful_view(handful@)));
                }
            },
            None => {
                proof {
                    lemma_handfuls_stay_none(texts, k + 1, texts.len() as int);
                }
                return None;
            },
        }
        k += 1;
    }
    Some(handfuls)
}

/// Once a part names no cubes, no longer list of parts is a handful.
proof fn lemma_handful_stays_none(parts: Seq<Seq<char>>, n: int, m: int)
    requires
        handful_of(parts, n) is None,
        n <= m,
    ensures
        handful_of(parts, m) is None,
    decreases m - n,
{
    if n < m {
        lemma_handful_stays_none(parts, n, m - 1);
    }
}

/// Once a part is no handful, no longer list of parts is a list of
/// handfuls.
proof fn lemma_handfuls_stay_none(parts: Seq<Seq<char>>, n: int, m: int)
    requires
        handfuls_of(parts, n) is None,
        n <= m,
    ensures
        handfuls_of(parts, m) is None,
    decreases m - n,
{
    if n < m {
        lemma_handfuls_stay_none(parts, n, m - 1);
    }
}

impl Game {
    /// The number of the game and its handfuls.
    pub open spec fn view(&self) -> (u32, Seq<Seq<(u32, Seq<char>)>>) {
        (self.id, handfuls_view(self.handfuls@))
    }

    /// Builds a game from the groups that the pattern of a game line
    /// captured.
    pub fn from_groups(groups: &Vec<Option<Vec<char>>>) -> (out: Option<Game>)
        ensures
            out is Some <==> game_of(Some(group_views(groups@))) is Some,
            out matches Some(game) ==> game_of(Some(group_views(groups@))) == Some(game.view()),
    {
        if groups.len() != 3 {
            return None;
        }
        proof {
            assert(group_views(groups@)[1] == match groups@[1] {
                Some(c) => Some(c@),
                None => None,
            });
            assert(group_views(groups@)[2] == match groups@[2] {
                Some(c) => Some(c@),
                None => None,
            });
        }
        let (digits, rest) = match (&groups[1], &groups[2]) {
            (Some(digits), Some(rest)) => (digits, rest),
            _ => { return None; },
        };
        let id = match parse_unsigned(digits, u32::MAX as u64) {
            Some(v) => v as u32,
            None => { return None; },
        };
        let handfuls = match read_handfuls(rest) {
            Some(handfuls) => handfuls,
            None => { return None; },
        };
        Some(Game { id, handfuls })
    }

    /// Reads a line such as `Game 1: 3 blue, 4 red; 1 red, 2 green`.
    pub fn parse(line: &str) -> (out: Option<Game>)
        ensures
            out is Some <==> game_of(regex_groups("Game (\\d+): (.*)"@, line@)) is Some,
            out matches Some(game) ==> game_of(regex_groups("Game (\\d+): (.*)"@, line@)) == Some(
                game.view(),
            ),
    {
        match captures("Game (\\d+): (.*)", line) {
            Some(groups) => Game::from_groups(&groups),
            None => None,
        }
    }

    /// The greatest number of cubes of `color` that any handful shows, or
    /// `None` when no handful shows that colour.
    pub fn max_count(&self, color: &str) -> (out: Option<u32>)
        ensures
            out == most_shown(self.view().1, color@, self.handfuls@.len() as int),
    {
        let wanted = to_chars(color);
        let ghost shown = self.view().1;
        let mut best: Option<u32> = None;
        let mut k: usize = 0;
        while k < self.handfuls.len()
            invariant
                k <= self.handfuls@.len(),
                wanted@ == color@,
                shown == handfuls_view(self.handfuls@),
                best == most_shown(shown, color@, k as int),
            decreases self.handfuls@.len() - k,
        {
            let handful = &self.handfuls[k];
            let ghost cubes = handful_view(handful@);
            proof {
                assert(shown[k as int] == cubes);
            }
            let mut most: Option<u32> = None;
            let mut j: usize = 0;
            while j < handful.len()
                invariant
                    j <= handful@.len(),
                    wanted@ == color@,
                    cubes == handful_view(handful@),
                    most == most_in(cubes, color@, j as int),
                decreases handful@.len() - j,
            {
                let name = to_chars(handful[j].color.as_str());
                proof {
                    assert(cubes[j as int] == handful@[j as int].view());
                }
                if same_chars(&name, &wanted) {
                    most = match most {
                        Some(m) => if handful[j].count > m {
                            Some(handful[j].count)
                        } else {
                            Some(m)
                        },
                        None => Some(handful[j].count),
                    };
                }
                j += 1;
            }
            best = match (best, most) {
                (Some(a), Some(b)) => if b > a {
                    Some(b)
                } else {
                    Some(a)
                },
                (Some(a), None) => Some(a),
                (None, other) => other,
            };
            k += 1;
        }
        best
    }

    /// The greatest numbers of red, green and blue cubes that any handful
    /// shows, or `None` when one of the colours is never shown.
    pub fn max_counts(&self) -> (out: Option<(u32, u32, u32)>)
        ensures
            out == match (
                most_shown(self.view().1, "red"@, self.handfuls@.len() as int),
                most_shown(self.view().1, "green"@, self.handfuls@.len() as int),
                most_shown(self.view().1, "blue"@, self.handfuls@.len() as int),
            ) {
                (Some(r), Some(g), Some(b)) => Some((r, g, b)),
                _ => None,
            },
    {
        let mut counts: Vec<u32> = Vec::new();
        match self.max_count("red") {
            Some(r) => counts.push(r),
            None => { return None; },
        }
        match self.max_count("green") {
            Some(g) => counts.push(g),
            None => { return None; },
        }
        match self.max_count("blue") {
            Some(b) => counts.push(b),
            None => { return None; },
        }
        exactly_three(counts)
    }

    /// Whether a bag with `red`, `green` and `blue` cubes could have shown
    /// every handful; `None` when one of the colours is never shown.
    pub fn is_valid(&self, red: u32, green: u32, blue: u32) -> (out: Option<bool>)
        ensures
            out == match (
                most_shown(self.view().1, "red"@, self.handfuls@.len() as int),
                most_shown(self.view().1, "green"@, self.handfuls@.len() as int),
                most_shown(self.view().1, "blue"@, self.handfuls@.len() as int),
            ) {
                (Some(r), Some(g), Some(b)) => Some(r <= red && g <= green && b <= blue),
                _ => None,
            },
    {
        match self.max_counts() {
            Some((r, g, b)) => Some(r <= red && g <= green && b <= blue),
            None => None,
        }
    }

    /// The product of the greatest numbers of red, green and blue cubes;
    /// `None` when one of the colours is never shown or the product leaves
    /// `u32`.
    pub fn power(&self) -> (out: Option<u32>)
        ensures
            out == match (
                most_shown(self.view().1, "red"@, self.handfuls@.len() as int),
                most_shown(self.view().1, "green"@, self.handfuls@.len() as int),
                most_shown(self.view().1, "blue"@, self.handfuls@.len() as int),
            ) {
                (Some(r), Some(g), Some(b)) => if r * g * b <= u32::MAX {
                    Some((r * g * b) as u32)
                } else {
                    None
                },
                _ => None,
            },
    {
        match self.max_counts() {
            Some((r, g, b)) => {
                proof {
                    assert(0 <= r * g <= 0xFFFF_FFFF * 0xFFFF_FFFF) by (nonlinear_arith)
                        requires
                            0 <= r <= 0xFFFF_FFFF,
                            0 <= g <= 0xFFFF_FFFF,
                    ;
                    assert(0 <= (r * g) * b <= 0xFFFF_FFFF * 0xFFFF_FFFF * 0xFFFF_FFFF)
                        by (nonlinear_arith)
                        requires
                            0 <= r * g <= 0xFFFF_FFFF * 0xFFFF_FFFF,
                            0 <= b <= 0xFFFF_FFFF,
                    ;
                }
                let product = (r as u128) * (g as u128) * (b as u128);
                if product <= u32::MAX as u128 {
                    Some(product as u32)
                } else {
                    None
                }
            },
            None => None,
        }
    }
}

/// The views of a list of games.
pub open spec fn game_views(games: Seq<Game>) -> Seq<(u32, Seq<Seq<(u32, Seq<char>)>>)> {
    games.map_values(|g: Game| g.view())
}

/// The greatest numbers of red, green and blue cubes that a game shows.
pub open spec fn needs(game: (u32, Seq<Seq<(u32, Seq<char>)>>)) -> Option<(u32, u32, u32)> {
    match (
        most_shown(game.1, "red"@, game.1.len() as int),
        most_shown(game.1, "green"@, game.1.len() as int),
        most_shown(game.1, "blue"@, game.1.len() as int),
    ) {
        (Some(r), Some(g), Some(b)) => Some((r, g, b)),
        _ => None,
    }
}

/// The sum of the numbers of those of the first `n` games that a bag with
/// the given cubes could have shown; `None` when a game never shows one of
/// the colours.
pub open spec fn possible_ids(
    games: Seq<(u32, Seq<Seq<(u32, Seq<char>)>>)>,
    red: u32,
    green: u32,
    blue: u32,
    n: int,
) -> Option<int>
    decreases n,
{
    if n <= 0 {
        Some(0)
    } else {
        match (possible_ids(games, red, green, blue, n - 1), needs(games[n - 1])) {
            (Some(before), Some(most)) => Some(
                before + if most.0 <= red && most.1 <= green && most.2 <= blue {
                    games[n - 1].0 as int
                } else {
                    0
                },
            ),
            _ => None,
        }
    }
}

/// The sum of the powers of the first `n` games; `None` when a game never
/// shows one of the colours.
pub open spec fn powers(games: Seq<(u32, Seq<Seq<(u32, Seq<char>)>>)>, n: int) -> Option<int>
    decreases n,
{
    if n <= 0 {
        Some(0)
    } else {
        match (powers(games, n - 1), needs(games[n - 1])) {
            (Some(before), Some(most)) => Some(before + most.0 * most.1 * most.2),
            _ => None,
        }
    }
}

/// Once a game never shows a colour, no longer list of games has a sum; a
/// sum that exists is at least the sum of any shorter list.
proof fn lemma_possible_ids(
    games: Seq<(u32, Seq<Seq<(u32, Seq<char>)>>)>,
    red: u32,
    green: u32,
    blue: u32,
    n: int,
    m: int,
)
    requires
        0 <= n <= m,
    ensures
        possible_ids(games, red, green, blue, n) is None ==> possible_ids(
            games,
            red,
            green,
            blue,
            m,
        ) is None,
        possible_ids(games, red, green, blue, m) matches Some(all) ==> possible_ids(
            games,
            red,
            green,
            blue,
            n,
        ) is Some && 0 <= possible_ids(games, red, green, blue, n)->0 <= all,
    decreases m - n,
{
    if n < m {
        lemma_possible_ids(games, red, green, blue, n, m - 1);
    } else {
        lemma_possible_ids_positive(games, red, green, blue, n);
    }
}

/// A sum of game numbers is never negative.
proof fn lemma_possible_ids_positive(
    games: Seq<(u32, Seq<Seq<(u32, Seq<char>)>>)>,
    red: u32,
    green: u32,
    blue: u32,
    n: int,
)
    ensures
        possible_ids(games, red, green, blue, n) matches Some(all) ==> all >= 0,
    decreases n,
{
    if n > 0 {
        lemma_possible_ids_positive(games, red, green, blue, n - 1);
    }
}

/// Once a game never shows a colour, no longer list of games has a sum of
/// powers; a sum that exists is at least the sum of any shorter list.
proof fn lemma_powers(games: Seq<(u32, Seq<Seq<(u32, Seq<char>)>>)>, n: int, m: int)
    requires
        0 <= n <= m,
    ensures
        powers(games, n) is None ==> powers(games, m) is None,
        powers(games, m) matches Some(all) ==> powers(games, n) is Some && 0 <= powers(
            games,
            n,
        )->0 <= all,
    decreases m - n,
{
    if n < m {
        lemma_powers(games, n, m - 1);
        lemma_power_positive(needs(games[m - 1]));
    } else {
        lemma_powers_positive(games, n);
    }
}

/// A power is never negative.
proof fn lemma_power_positive(most: Option<(u32, u32, u32)>)
    ensures
        most matches Some(m) ==> m.0 * m.1 * m.2 >= 0,
{
    if most is Some {
        let m = most->0;
        assert(m.0 * m.1 * m.2 >= 0) by (nonlinear_arith)
            requires
                m.0 >= 0,
                m.1 >= 0,
                m.2 >= 0,
        ;
    }
}

/// A sum of powers is never negative.
proof fn lemma_powers_positive(games: Seq<(u32, Seq<Seq<(u32, Seq<char>)>>)>, n: int)
    ensures
        powers(games, n) matches Some(all) ==> all >= 0,
    decreases n,
{
    if n > 0 {
        lemma_powers_positive(games, n - 1);
        lemma_power_positive(needs(games[n - 1]));
    }
}

/// The sum of the numbers of the games that a bag with `red`, `green` and
/// `blue` cubes could have shown. `None` when a game never shows one of
/// the colours or the sum leaves `u32`.
pub fn sum_of_possible(games: &Vec<Game>, red: u32, green: u32, blue: u32) -> (out: Option<u32>)
    ensures
        out matches Some(total) ==> possible_ids(
            game_views(games@),
            red,
            green,
            blue,
            games@.len() as int,
        ) == Some(total as int),
        out is None ==> possible_ids(game_views(games@), red, green, blue, games@.len() as int)
            is None || possible_ids(
            game_views(games@),
            red,
            green,
            blue,
            games@.len() as int,
        )->0 > u32::MAX,
{
    let ghost list = game_views(games@);
    let mut total: u32 = 0;
    let mut k: usize = 0;
    while k < games.len()
        invariant
            k <= games@.len(),
            list == game_views(games@),
            possible_ids(list, red, green, blue, k as int) == Some(total as int),
        decreases games@.len() - k,
    {
        proof {
            assert(list[k as int] == games@[k as int].view());
            assert(list[k as int].1.len() == games@[k as int].handfuls@.len());
        }
        proof {
            lemma_possible_ids(list, red, green, blue, k + 1, games@.len() as int);
        }
        match games[k].is_valid(red, green, blue) {
            Some(true) => match total.checked_add(games[k].id) {
                Some(t) => {
                    total = t;
                },
                None => { return None; },
            },
            Some(false) => {},
            None => { return None; },
        }
        k += 1;
    }
    Some(total)
}

/// The sum of the powers of all games. `None` when a game never shows one
/// of the colours, or a power or the sum leaves `u32`.
pub fn sum_of_powers(games: &Vec<Game>) -> (out: Option<u32>)
    ensures
        out matches Some(total) ==> powers(game_views(games@), games@.len() as int) == Some(
            total as int,
        ),
        out is None ==> powers(game_views(games@), games@.len() as int) is None || powers(
            game_views(games@),
            games@.len() as int,
        )->0 > u32::MAX,
{
    let ghost list = game_views(games@);
    let mut total: u32 = 0;
    let mut k: usize = 0;
    while k < games.len()
        invariant
            k <= games@.len(),
            list == game_views(games@),
            powers(list, k as int) == Some(total as int),
        decreases games@.len() - k,
    {
        proof {
            assert(list[k as int] == games@[k as int].view());
            assert(list[k as int].1.len() == games@[k as int].handfuls@.len());
        }
        proof {
            lemma_powers(list, k + 1, games@.len() as int);
            lemma_powers(list, k as int, k + 1);
        }
        match games[k].power() {
            Some(p) => match total.checked_add(p) {
                Some(t) => {
                    total = t;
                },
                None => { return None; },
            },
            None => { return None; },
        }
        k += 1;
    }
    Some(total)
}

} // verus!
