//! Grid coordinates and the four headings.

use vstd::prelude::*;

verus! {

/// A grid position as `(row, column)`.
pub type Coordinate = (isize, isize);

/// One of the four axis-aligned headings.
#[derive(Debug, Copy, Clone, PartialEq, Eq, Hash, Structural)]
pub enum Moving {
    Right,
    Left,
    Up,
    Down,
}

/// The position of a heading in the fixed order right, left, up, down.
pub open spec fn moving_rank(moving: Moving) -> int {
    match moving {
        Moving::Right => 0,
        Moving::Left => 1,
        Moving::Up => 2,
        Moving::Down => 3,
    }
}

/// The `(row, column)` offset of one step along a heading.
pub open spec fn moving_offset(moving: Moving) -> (int, int) {
    match moving {
        Moving::Right => (0, 1),
        Moving::Left => (0, -1),
        Moving::Up => (-1, 0),
        Moving::Down => (1, 0),
    }
}

/// The heading that undoes `moving`.
pub open spec fn moving_reverse(moving: Moving) -> Moving {
    match moving {
        Moving::Right => Moving::Left,
        Moving::Left => Moving::Right,
        Moving::Up => Moving::Down,
        Moving::Down => Moving::Up,
    }
}

/// The index of a heading in a table with one slot per heading.
pub fn moving_index(moving: Moving) -> (index: usize)
    ensures
        index == moving_rank(moving),
        index < 4,
{
    match moving {
        Moving::Right => 0,
        Moving::Left => 1,
        Moving::Up => 2,
        Moving::Down => 3,
    }
}

/// The heading opposite to `moving`.
pub fn reverse_of(moving: Moving) -> (back: Moving)
    ensures
        back == moving_reverse(moving),
{
    match moving {
        Moving::Right => Moving::Left,
        Moving::Left => Moving::Right,
        Moving::Up => Moving::Down,
        Moving::Down => Moving::Up,
    }
}

/// The cell one step from `pos` along `moving`, where `isize` can hold it.
pub open spec fn neighbor(pos: Coordinate, moving: Moving) -> Option<Coordinate> {
    let row = pos.0 + moving_offset(moving).0;
    let col = pos.1 + moving_offset(moving).1;
    if isize::MIN <= row <= isize::MAX && isize::MIN <= col <= isize::MAX {
        Some((row as isize, col as isize))
    } else {
        None
    }
}

/// The cell one step from `pos` along `moving`, where `isize` can hold it.
pub fn step_from(pos: Coordinate, moving: Moving) -> (out: Option<Coordinate>)
    ensures
        out == neighbor(pos, moving),
{
    match moving {
        Moving::Right => match pos.1.checked_add(1) {
            Some(col) => Some((pos.0, col)),
            None => None,
        },
        Moving::Left => match pos.1.checked_sub(1) {
            Some(col) => Some((pos.0, col)),
            None => None,
        },
        Moving::Up => match pos.0.checked_sub(1) {
            Some(row) => Some((row, pos.1)),
            None => None,
        },
        Moving::Down => match pos.0.checked_add(1) {
            Some(row) => Some((row, pos.1)),
            None => None,
        },
    }
}

/// The heading whose offset is `direction`, if it is one of the four unit
/// offsets.
pub open spec fn heading_of(direction: (isize, isize)) -> Option<Moving> {
    if direction == (0isize, 1isize) {
        Some(Moving::Right)
    } else if direction == (0isize, -1isize) {
        Some(Moving::Left)
    } else if direction == (1isize, 0isize) {
        Some(Moving::Down)
    } else if direction == (-1isize, 0isize) {
        Some(Moving::Up)
    } else {
        None
    }
}

/// The heading whose offset is `direction`, if it is one of the four unit
/// offsets.
pub fn heading_for(direction: (isize, isize)) -> (out: Option<Moving>)
    ensures
        out == heading_of(direction),
{
    if direction.0 == 0 && direction.1 == 1 {
        Some(Moving::Right)
    } else if direction.0 == 0 && direction.1 == -1 {
        Some(Moving::Left)
    } else if direction.0 == 1 && direction.1 == 0 {
        Some(Moving::Down)
    } else if direction.0 == -1 && direction.1 == 0 {
        Some(Moving::Up)
    } else {
        None
    }
}

/// The four headings in the order in which neighbours are visited: right,
/// left, down, up.
pub open spec fn visiting_order() -> Seq<Moving> {
    seq![Moving::Right, Moving::Left, Moving::Down, Moving::Up]
}

/// The heading at place `i` of the visiting order.
pub fn heading_at(i: usize) -> (moving: Moving)
    requires
        i < 4,
    ensures
        moving == visiting_order()[i as int],
{
    if i == 0 {
        Moving::Right
    } else if i == 1 {
        Moving::Left
    } else if i == 2 {
        Moving::Down
    } else {
        Moving::Up
    }
}

/// The sequence that holds `item` if there is one and nothing otherwise.
pub open spec fn maybe<T>(item: Option<T>) -> Seq<T> {
    match item {
        Some(x) => seq![x],
        None => Seq::empty(),
    }
}

/// The neighbours of `pos` in visiting order, each with the heading that
/// leads to it; a neighbour that `isize` cannot hold is left out.
pub open spec fn headed_neighbors(pos: Coordinate, upto: int) -> Seq<(isize, isize, Moving)>
    decreases upto,
{
    if upto <= 0 {
        Seq::empty()
    } else {
        let moving = visiting_order()[upto - 1];
        headed_neighbors(pos, upto - 1) + maybe(
            match neighbor(pos, moving) {
                Some(next) => Some((next.0, next.1, moving)),
                None => None,
            },
        )
    }
}

/// The neighbours of `pos` in visiting order; a neighbour that `isize`
/// cannot hold is left out.
pub open spec fn neighbors_of(pos: Coordinate, upto: int) -> Seq<Coordinate>
    decreases upto,
{
    if upto <= 0 {
        Seq::empty()
    } else {
        neighbors_of(pos, upto - 1) + maybe(neighbor(pos, visiting_order()[upto - 1]))
    }
}

/// Up to four axis-aligned neighbours of `pos`, in visiting order. They are
/// not filtered by any grid: that is left to the caller.
pub fn neighbors(pos: Coordinate) -> (out: Vec<Coordinate>)
    ensures
        out@ == neighbors_of(pos, 4),
{
    let mut out: Vec<Coordinate> = Vec::new();
    let mut i: usize = 0;
    while i < 4
        invariant
            i <= 4,
            out@ == neighbors_of(pos, i as int),
        decreases 4 - i,
    {
        let moving = heading_at(i);
        let ghost before = out@;
        match step_from(pos, moving) {
            Some(next) => {
                out.push(next);
                assert(out@ =~= before + seq![next]);
            },
            None => {
                assert(out@ =~= before + Seq::<Coordinate>::empty());
            },
        }
        i += 1;
    }
    out
}

} // verus!
