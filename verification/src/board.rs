//! The board model: occupants, per-spot state, and the `Board` type with
//! its coordinate arithmetic and neighbor enumeration.

use vstd::prelude::*;
use crate::grid::{cell_at, coords_adjacent};

verus! {

/// What occupies one intersection of the board.
#[derive(Clone, Copy, Debug, PartialEq, Eq, Structural, Hash)]
pub enum Occupant {
    Empty,
    Black,
    White,
}

/// The full state of one intersection.
#[derive(Clone, Debug)]
pub struct SpotState {
    /// The stone (or lack thereof) at this position.
    pub occupant: Occupant,
    /// Sequence id of the move that last changed this spot, if any.
    pub move_number: Option<u64>,
    /// Free-form annotation, e.g. "removed" or "captured".
    pub marker: Option<String>,
    /// Whether placing the side-to-move's stone here would be legal.
    pub playable: bool,
    /// Which side's territory this point belongs to, when empty.
    pub scoring_owner: Option<Occupant>,
    /// Human-readable rationale for the scoring owner; advisory only.
    pub scoring_explanation: Option<String>,
}

/// A Go board: a side length and `size * size` spots in row-major order.
#[derive(Clone, Debug)]
pub struct Board {
    pub board_size: u8,
    pub spots: Vec<SpotState>,
}

/// The occupancy vector of a sequence of spots.
pub open spec fn occupancy(spots: Seq<SpotState>) -> Seq<Occupant> {
    spots.map_values(|s: SpotState| s.occupant)
}

impl Board {
    /// The side length as a mathematical integer.
    pub open spec fn size(self) -> int {
        self.board_size as int
    }

    /// The occupancy vector of this board.
    pub open spec fn occ(self) -> Seq<Occupant> {
        occupancy(self.spots@)
    }

    /// Well-formedness: a positive side length and exactly `size * size` spots.
    pub open spec fn wf(self) -> bool {
        &&& 1 <= self.size()
        &&& self.spots@.len() == self.size() * self.size()
    }

    /// Create a new board from a vector of spots and a side length.
    pub fn new(spots: Vec<SpotState>, board_size: u8) -> (r: Board)
        requires
            1 <= board_size,
            spots@.len() == board_size * board_size,
        ensures
            r.board_size == board_size,
            r.spots == spots,
            r.wf(),
    {
        Board { board_size, spots }
    }

    /// The index in the spots vector of the coordinate `(row, col)`.
    pub fn index(&self, row: u8, col: u8) -> (r: usize)
        ensures
            r == cell_at(self.size(), row as int, col as int),
    {
        proof {
            assert((row as int) * (self.board_size as int) + (col as int) < 65536)
                by (nonlinear_arith)
                requires
                    row as int <= 255,
                    self.board_size as int <= 255,
                    col as int <= 255,
            ;
        }
        (row as usize) * (self.board_size as usize) + (col as usize)
    }

    /// The spot at `(row, col)`, or `None` if the coordinate is out of bounds.
    pub fn get(&self, row: u8, col: u8) -> (r: Option<&SpotState>)
        requires
            self.wf(),
        ensures
            ({
                if row < self.board_size && col < self.board_size {
                    r == Some(&self.spots[cell_at(self.size(), row as int, col as int)])
                } else {
                    r is None
                }
            }),
    {
        if row < self.board_size && col < self.board_size {
            proof {
                crate::grid::lemma_cell_at_decodes(self.size(), row as int, col as int);
            }
            Some(&self.spots[self.index(row, col)])
        } else {
            None
        }
    }

    /// All in-bounds orthogonal neighbors of `(row, col)`, in the order
    /// north, south, west, east.
    pub fn neighbors(&self, row: u8, col: u8) -> (r: Vec<(u8, u8)>)
        requires
            self.wf(),
            row < self.board_size,
            col < self.board_size,
        ensures
            r@.no_duplicates(),
            forall|k: int|
                0 <= k < r@.len() ==> coords_adjacent(
                    self.size(),
                    row as int,
                    col as int,
                    (#[trigger] r@[k]).0 as int,
                    r@[k].1 as int,
                ),
            forall|a: u8, b: u8|
                #[trigger] coords_adjacent(self.size(), row as int, col as int, a as int, b as int)
                    ==> r@.contains((a, b)),
    {
        let mut result: Vec<(u8, u8)> = Vec::new();
        if row > 0 {
            result.push((row - 1, col));
        }
        if row < self.board_size - 1 {
            result.push((row + 1, col));
        }
        if col > 0 {
            result.push((row, col - 1));
        }
        if col < self.board_size - 1 {
            result.push((row, col + 1));
        }
        proof {
            assert forall|a: u8, b: u8|
                #[trigger] coords_adjacent(self.size(), row as int, col as int, a as int, b as int)
                    implies result@.contains((a, b)) by {
                if a as int == row - 1 && b == col {
                    assert(result@[0] == (a, b));
                } else if a as int == row + 1 && b == col {
                    let k = if row > 0 { 1int } else { 0int };
                    assert(result@[k] == (a, b));
                } else if a == row && b as int == col - 1 {
                    let k = (if row > 0 { 1int } else { 0int }) + (if row + 1 < self.board_size { 1int } else { 0int });
                    assert(result@[k] == (a, b));
                } else {
                    assert(a == row && b as int == col + 1);
                    let k = (if row > 0 { 1int } else { 0int }) + (if row + 1 < self.board_size { 1int } else { 0int }) + (if col > 0 { 1int } else { 0int });
                    assert(result@[k] == (a, b));
                }
            }
        }
        result
    }
}

} // verus!
