//! What a player can do at a decision point.

use vstd::prelude::*;

verus! {

/// Either the end of the turn, or one step of a unit from a cell to an
/// orthogonal neighbour, both given as `(row, column)`.
#[derive(Clone, Copy, Debug, Eq, PartialEq)]
pub enum MAPFAction {
    Commit,
    Move((usize, usize), (usize, usize)),
}

/// The neighbour of `(r, c)` in direction `dir`: `0` is one column on, `1`
/// one row on, `2` one column back, `3` one row back.
pub open spec fn neighbor(r: int, c: int, dir: int) -> (int, int) {
    if dir == 0 {
        (r, c + 1)
    } else if dir == 1 {
        (r + 1, c)
    } else if dir == 2 {
        (r, c - 1)
    } else {
        (r - 1, c)
    }
}

/// The neighbour of `(r, c)` in direction `dir`, if it lies inside a grid of
/// `shape` rows and columns.
pub fn neighbor_in(r: usize, c: usize, dir: u8, shape: (usize, usize)) -> (t: Option<(usize, usize)>)
    requires
        dir < 4,
    ensures
        ({
            let n = neighbor(r as int, c as int, dir as int);
            if 0 <= n.0 < shape.0 && 0 <= n.1 < shape.1 {
                t == Some((n.0 as usize, n.1 as usize))
            } else {
                t is None
            }
        }),
{
    if dir == 0 {
        if r < shape.0 && c < usize::MAX && c + 1 < shape.1 {
            Some((r, c + 1))
        } else {
            None
        }
    } else if dir == 1 {
        if r < usize::MAX && r + 1 < shape.0 && c < shape.1 {
            Some((r + 1, c))
        } else {
            None
        }
    } else if dir == 2 {
        if r < shape.0 && c > 0 && c - 1 < shape.1 {
            Some((r, c - 1))
        } else {
            None
        }
    } else {
        if r > 0 && r - 1 < shape.0 && c < shape.1 {
            Some((r - 1, c))
        } else {
            None
        }
    }
}

} // verus!
