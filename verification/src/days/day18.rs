//! Dig plans: the corners of the trench that a list of moves digs.

use crate::compass::{neighbors, neighbors_of, Coordinate};
use crate::outside::{captures, group_views, regex_groups};
use crate::text::{parse_hex, parse_unsigned, unsigned_of};
use vstd::prelude::*;

verus! {

/// One instruction of a dig plan: a direction, `'R'`, `'L'`, `'D'` or `'U'`,
/// and a number of metres.
#[derive(Debug, Clone, PartialEq, Eq)]
pub struct Dig {
    pub dir: char,
    pub distance: isize,
}

/// One instruction of a dig plan, read from the colour code of a line.
#[derive(Debug, Clone, PartialEq, Eq)]
pub struct Dig2 {
    pub dir: char,
    pub distance: isize,
}

/// Up to four axis-aligned neighbours of `pos`, in visiting order.
pub fn adjacent(pos: Coordinate) -> (out: Vec<Coordinate>)
    ensures
        out@ == neighbors_of(pos, 4),
{
    neighbors(pos)
}

/// Where a move of `distance` metres along `dir` leads from `pos`; `None`
/// for an unknown direction or a position that `isize` cannot hold.
pub open spec fn moved(pos: (isize, isize), dir: char, distance: isize) -> Option<(isize, isize)> {
    let target = if dir == 'R' {
        Some((pos.0 as int, pos.1 + distance))
    } else if dir == 'L' {
        Some((pos.0 as int, pos.1 - distance))
    } else if dir == 'D' {
        Some((pos.0 + distance, pos.1 as int))
    } else if dir == 'U' {
        Some((pos.0 - distance, pos.1 as int))
    } else {
        None
    };
    match target {
        Some((row, col)) => if isize::MIN <= row <= isize::MAX && isize::MIN <= col
            <= isize::MAX {
            Some((row as isize, col as isize))
        } else {
            None
        },
        None => None,
    }
}

/// The corners that the first `n` moves visit, starting at `(0, 0)`; `None`
/// as soon as one move cannot be made.
pub open spec fn corners(moves: Seq<(char, isize)>, n: int) -> Option<Seq<(isize, isize)>>
    decreases n,
{
    if n <= 0 {
        Some(seq![(0isize, 0isize)])
    } else {
        match corners(moves, n - 1) {
            Some(before) => match moved(before.last(), moves[n - 1].0, moves[n - 1].1) {
                Some(next) => Some(before.push(next)),
                None => None,
            },
            None => None,
        }
    }
}

/// The corners of a closed trench: `corners` of all moves, if the last
/// corner is the first again.
pub open spec fn closed_corners(moves: Seq<(char, isize)>) -> Option<Seq<(isize, isize)>> {
    match corners(moves, moves.len() as int) {
        Some(all) => if all.last() == (0isize, 0isize) {
            Some(all)
        } else {
            None
        },
        None => None,
    }
}

/// Where a move of `distance` metres along `dir` leads from `pos`.
pub fn move_from(pos: (isize, isize), dir: char, distance: isize) -> (out: Option<(isize, isize)>)
    ensures
        out == moved(pos, dir, distance),
{
    if dir == 'R' {
        match pos.1.checked_add(distance) {
            Some(col) => Some((pos.0, col)),
            None => None,
        }
    } else if dir == 'L' {
        match pos.1.checked_sub(distance) {
            Some(col) => Some((pos.0, col)),
            None => None,
        }
    } else if dir == 'D' {
        match pos.0.checked_add(distance) {
            Some(row) => Some((row, pos.1)),
            None => None,
        }
    } else if dir == 'U' {
        match pos.0.checked_sub(distance) {
            Some(row) => Some((row, pos.1)),
            None => None,
        }
    } else {
        None
    }
}

/// The corners of the trench that `moves` digs, as `(row, column)` pairs,
/// the start `(0, 0)` first and last.
///
/// Returns `None` when a direction is none of `'R'`, `'L'`, `'D'`, `'U'`,
/// when a corner leaves the range of `isize`, or when the trench does not
/// end where it began.
pub fn to_vertices(moves: &Vec<(char, isize)>) -> (out: Option<Vec<(isize, isize)>>)
    ensures
        out is Some <==> closed_corners(moves@) is Some,
        out matches Some(vertices) ==> Some(vertices@) == closed_corners(moves@),
{
    let mut pos: (isize, isize) = (0, 0);
    let mut vertices: Vec<(isize, isize)> = Vec::new();
    vertices.push(pos);
    let mut k: usize = 0;
    while k < moves.len()
        invariant
            k <= moves@.len(),
            corners(moves@, k as int) == Some(vertices@),
            vertices@.len() > 0,
            pos == vertices@.last(),
        decreases moves@.len() - k,
    {
        match move_from(pos, moves[k].0, moves[k].1) {
            Some(next) => {
                pos = next;
                vertices.push(next);
            },
            None => {
                proof {
                    lemma_corners_stay_none(moves@, k + 1, moves@.len() as int);
                }
                return None;
            },
        }
        k += 1;
    }
    if pos.0 == 0 && pos.1 == 0 {
        Some(vertices)
    } else {
        None
    }
}

/// Once a move cannot be made, no longer prefix of the plan has corners.
proof fn lemma_corners_stay_none(moves: Seq<(char, isize)>, n: int, m: int)
    requires
        corners(moves, n) is None,
        n <= m,
    ensures
        corners(moves, m) is None,
    decreases m - n,
{
    if n < m {
        lemma_corners_stay_none(moves, n, m - 1);
    }
}

/// What a line says of an instruction, given the groups that the pattern of
/// a plan line captured in it: the direction is the letter of the first
/// group, the distance the number of the second.
pub open spec fn dig_of(groups: Option<Seq<Option<Seq<char>>>>) -> Option<(char, isize)> {
    match groups {
        Some(g) => if g.len() == 6 && g[1] is Some && g[2] is Some && g[1]->0.len() > 0
            && unsigned_of(g[2]->0, 10, isize::MAX as nat) is Some {
            Some((g[1]->0[0], unsigned_of(g[2]->0, 10, isize::MAX as nat)->0 as isize))
        } else {
            None
        },
        None => None,
    }
}

/// The direction that the last digit of a colour code stands for.
pub open spec fn direction_of(digit: char) -> Option<char> {
    if digit == '0' {
        Some('R')
    } else if digit == '1' {
        Some('D')
    } else if digit == '2' {
        Some('L')
    } else if digit == '3' {
        Some('U')
    } else {
        None
    }
}

/// What the colour code of a line says of an instruction, given the groups
/// that the pattern of a colour code captured in it: the distance is the
/// hexadecimal number of the third group, the direction what the digit of
/// the fourth group stands for.
pub open spec fn dig2_of(groups: Option<Seq<Option<Seq<char>>>>) -> Option<(char, isize)> {
    match groups {
        Some(g) => if g.len() == 5 && g[3] is Some && g[4] is Some && g[4]->0.len() > 0
            && direction_of(g[4]->0[0]) is Some && unsigned_of(g[3]->0, 16, isize::MAX as nat)
            is Some {
            Some(
                (
                    direction_of(g[4]->0[0])->0,
                    unsigned_of(g[3]->0, 16, isize::MAX as nat)->0 as isize,
                ),
            )
        } else {
            None
        },
        None => None,
    }
}

impl Dig {
    /// Builds an instruction from the groups that the pattern of a plan
    /// line captured.
    pub fn from_groups(groups: &Vec<Option<Vec<char>>>) -> (out: Option<Dig>)
        ensures
            out is Some <==> dig_of(Some(group_views(groups@))) is Some,
            out matches Some(dig) ==> dig_of(Some(group_views(groups@))) == Some(
                (dig.dir, dig.distance),
            ),
    {
        if groups.len() != 6 {
            return None;
        }
        proof {
            assert(group_views(groups@)[1] == match groups@[1] {
                Some(c) => Some(c@),
                None => None,
            });
            assert(group_views(groups@)[2] == match groups@[2] {
                Some(c) => Some(c@),
                None => None,
            });
        }
        match (&groups[1], &groups[2]) {
            (Some(letter), Some(digits)) => {
                if letter.len() == 0 {
                    return None;
                }
                match parse_unsigned(digits, isize::MAX as u64) {
                    Some(v) => Some(Dig { dir: letter[0], distance: v as isize }),
                    None => None,
                }
            },
            _ => None,
        }
    }

    /// Reads a line such as `R 6 (#70c710)`.
    pub fn parse(line: &str) -> (out: Option<Dig>)
        ensures
            out is Some <==> dig_of(
                regex_groups(
                    "([LRUD])\\s(\\d+)\\s\\(#([0-9a-f]{2})([0-9a-f]{2})([0-9a-f]{2})\\)"@,
                    line@,
                ),
            ) is Some,
            out matches Some(dig) ==> dig_of(
                regex_groups(
                    "([LRUD])\\s(\\d+)\\s\\(#([0-9a-f]{2})([0-9a-f]{2})([0-9a-f]{2})\\)"@,
                    line@,
                ),
            ) == Some((dig.dir, dig.distance)),
    {
        match captures(
            "([LRUD])\\s(\\d+)\\s\\(#([0-9a-f]{2})([0-9a-f]{2})([0-9a-f]{2})\\)",
            line,
        ) {
            Some(groups) => Dig::from_groups(&groups),
            None => None,
        }
    }
}

impl Dig2 {
    /// Builds an instruction from the groups that the pattern of a colour
    /// code captured.
    pub fn from_groups(groups: &Vec<Option<Vec<char>>>) -> (out: Option<Dig2>)
        ensures
            out is Some <==> dig2_of(Some(group_views(groups@))) is Some,
            out matches Some(dig) ==> dig2_of(Some(group_views(groups@))) == Some(
                (dig.dir, dig.distance),
            ),
    {
        if groups.len() != 5 {
            return None;
        }
        proof {
            assert(group_views(groups@)[3] == match groups@[3] {
                Some(c) => Some(c@),
                None => None,
            });
            assert(group_views(groups@)[4] == match groups@[4] {
                Some(c) => Some(c@),
                None => None,
            });
        }
        match (&groups[3], &groups[4]) {
            (Some(digits), Some(last)) => {
                if last.len() == 0 {
                    return None;
                }
                let code = last[0];
                let dir = if code == '0' {
                    'R'
                } else if code == '1' {
                    'D'
                } else if code == '2' {
                    'L'
                } else if code == '3' {
                    'U'
                } else {
                    return None;
                };
                match parse_hex(digits, isize::MAX as u64) {
                    Some(v) => Some(Dig2 { dir, distance: v as isize }),
                    None => None,
                }
            },
            _ => None,
        }
    }

    /// Reads the colour code of a line such as `R 6 (#70c710)`.
    pub fn parse(line: &str) -> (out: Option<Dig2>)
        ensures
            out is Some <==> dig2_of(
                regex_groups(
                    "([LRUD])\\s(\\d+)\\s\\(#([0-9a-f]{5})([0-9a-f]{1})\\)"@,
                    line@,
                ),
            ) is Some,
            out matches Some(dig) ==> dig2_of(
                regex_groups(
                    "([LRUD])\\s(\\d+)\\s\\(#([0-9a-f]{5})([0-9a-f]{1})\\)"@,
                    line@,
                ),
            ) == Some((dig.dir, dig.distance)),
    {
        match captures("([LRUD])\\s(\\d+)\\s\\(#([0-9a-f]{5})([0-9a-f]{1})\\)", line) {
            Some(groups) => Dig2::from_groups(&groups),
            None => None,
        }
    }
}

} // verus!
