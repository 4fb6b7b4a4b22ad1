//! Search-graph nodes: a grid position together with the heading and the
//! run length that constrained transition rules need.

use crate::compass::{moving_index, moving_rank, Coordinate, Moving};
use vstd::prelude::*;

verus! {

/// The rank of an optional heading: `None` first, then the four headings.
pub open spec fn heading_rank(heading: Option<Moving>) -> int {
    match heading {
        None => 0,
        Some(moving) => 1 + moving_rank(moving),
    }
}

/// The slot of an optional heading in a table with five slots per cell.
pub fn heading_index(heading: Option<Moving>) -> (index: usize)
    ensures
        index == heading_rank(heading),
        index < 5,
{
    match heading {
        None => 0,
        Some(moving) => 1 + moving_index(moving),
    }
}

/// A node of the search graph.
///
/// Rules that only look at the position keep `heading` at `None` and
/// `run_length` at zero.
#[derive(Debug, Copy, Clone, PartialEq, Eq, Hash)]
pub struct ExtendedState {
    /// Where the state sits on the grid.
    pub position: Coordinate,
    /// The heading of the move that led here, if any.
    pub heading: Option<Moving>,
    /// How many consecutive moves were made along `heading`.
    pub run_length: u32,
}

/// The natural order of states: by row, then column, then heading rank,
/// then run length.
pub open spec fn state_before(a: ExtendedState, b: ExtendedState) -> bool {
    ||| a.position.0 < b.position.0
    ||| a.position.0 == b.position.0 && a.position.1 < b.position.1
    ||| a.position == b.position && heading_rank(a.heading) < heading_rank(b.heading)
    ||| a.position == b.position && a.heading == b.heading && a.run_length < b.run_length
}

/// The state that carries `position` and nothing else.
pub open spec fn plain(position: Coordinate) -> ExtendedState {
    ExtendedState { position, heading: None, run_length: 0 }
}

impl ExtendedState {
    /// A state that carries a position only.
    pub fn at(position: Coordinate) -> (state: ExtendedState)
        ensures
            state == plain(position),
    {
        ExtendedState { position, heading: None, run_length: 0 }
    }

    /// Whether `self` comes strictly before `other` in the natural order.
    pub fn precedes(&self, other: &ExtendedState) -> (before: bool)
        ensures
            before == state_before(*self, *other),
    {
        if self.position.0 != other.position.0 {
            self.position.0 < other.position.0
        } else if self.position.1 != other.position.1 {
            self.position.1 < other.position.1
        } else {
            let mine = heading_index(self.heading);
            let theirs = heading_index(other.heading);
            if mine != theirs {
                mine < theirs
            } else {
                self.run_length < other.run_length
            }
        }
    }
}

/// The natural order is a strict total order: no state precedes itself, two
/// different states are ordered one way or the other but not both, and the
/// order is transitive.
pub proof fn lemma_state_order_total(a: ExtendedState, b: ExtendedState, c: ExtendedState)
    ensures
        !state_before(a, a),
        a != b ==> (state_before(a, b) || state_before(b, a)),
        !(state_before(a, b) && state_before(b, a)),
        state_before(a, b) && state_before(b, c) ==> state_before(a, c),
{
}

} // verus!
