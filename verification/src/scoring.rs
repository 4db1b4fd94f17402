//! Scoring: stone counting and the final score of a position under area
//! or territory rules.
//!
//! Scores are returned in half-point units so that fractional komi
//! values such as 6.5 (13 half-points) stay exact integers.

use vstd::prelude::*;
use crate::board::{Board, Occupant};
use crate::grid::cell_count;
use crate::territory::{determine_territory, is_territory_for, territory_points};

verus! {

/// Which rule set to score under.
#[derive(Clone, Copy, Debug, PartialEq, Eq, Structural)]
pub enum ScoringMethod {
    /// Area scoring: stones on the board plus enclosed territory.
    Area,
    /// Territory scoring: enclosed territory only.
    Territory,
}

/// How many of the first `n` cells hold occupant `c`.
pub open spec fn stone_points(occ: Seq<Occupant>, c: Occupant, n: int) -> int
    decreases n,
{
    if n <= 0 {
        0
    } else {
        stone_points(occ, c, n - 1) + if occ[n - 1] == c {
            1int
        } else {
            0int
        }
    }
}

/// Stone counts lie between zero and the number of cells counted.
pub proof fn lemma_stone_points_bound(occ: Seq<Occupant>, c: Occupant, n: int)
    requires
        n >= 0,
    ensures
        0 <= stone_points(occ, c, n) <= n,
    decreases n,
{
    if n > 0 {
        lemma_stone_points_bound(occ, c, n - 1);
    }
}

/// Territory counts lie between zero and the number of cells counted.
pub proof fn lemma_territory_points_bound(occ: Seq<Occupant>, size: int, c: Occupant, n: int)
    requires
        n >= 0,
    ensures
        0 <= territory_points(occ, size, c, n) <= n,
    decreases n,
{
    if n > 0 {
        lemma_territory_points_bound(occ, size, c, n - 1);
    }
}

/// Count the stones of one color on the board.
#[verifier::loop_isolation(false)]
fn count_stones(board: &Board, c: Occupant) -> (r: u64)
    requires
        board.wf(),
    ensures
        r as int == stone_points(board.occ(), c, cell_count(board.size())),
        r as int <= cell_count(board.size()),
{
    let ghost occ = board.occ();
    let ghost szi = board.size();
    proof {
        assert(szi * szi <= 65025) by (nonlinear_arith)
            requires
                0 <= szi <= 255,
        ;
    }
    let mut count: u64 = 0;
    let mut k: usize = 0;
    let n = board.spots.len();
    while k < n
        invariant
            k <= n,
            count as int == stone_points(occ, c, k as int),
            count as int <= k as int,
        decreases n - k,
    {
        if board.spots[k].occupant == c {
            proof {
                assert(occ[k as int] == board.spots@[k as int].occupant);
            }
            count = count + 1;
        } else {
            proof {
                assert(occ[k as int] == board.spots@[k as int].occupant);
            }
        }
        k += 1;
    }
    count
}

/// Calculate both sides' scores in half-point units.
///
/// Under area rules a side scores its stones on the board plus its
/// territory; under territory rules its territory alone.  The komi,
/// given in half-points, is added to White's total in either case.
pub fn calculate_score(board: &Board, method: ScoringMethod, komi_halves: u64) -> (r: (u64, u64))
    requires
        board.wf(),
        komi_halves + 4 * cell_count(board.size()) <= u64::MAX,
    ensures
        ({
            let occ = board.occ();
            let szi = board.size();
            let n = cell_count(szi);
            let black_stones = stone_points(occ, Occupant::Black, n);
            let white_stones = stone_points(occ, Occupant::White, n);
            let black_terr = territory_points(occ, szi, Occupant::Black, n);
            let white_terr = territory_points(occ, szi, Occupant::White, n);
            match method {
                ScoringMethod::Area => r.0 == 2 * (black_stones + black_terr) && r.1 == 2 * (
                white_stones + white_terr) + komi_halves,
                ScoringMethod::Territory => r.0 == 2 * black_terr && r.1 == 2 * white_terr
                    + komi_halves,
            }
        }),
{
    let ghost occ = board.occ();
    let ghost szi = board.size();
    let ghost n = cell_count(szi);
    let black_stones = count_stones(board, Occupant::Black);
    let white_stones = count_stones(board, Occupant::White);
    let (black_terr, white_terr) = determine_territory(board);
    proof {
        lemma_territory_points_bound(occ, szi, Occupant::Black, n);
        lemma_territory_points_bound(occ, szi, Occupant::White, n);
    }
    match method {
        ScoringMethod::Area => {
            let black = 2 * (black_stones + black_terr);
            let white = 2 * (white_stones + white_terr) + komi_halves;
            (black, white)
        },
        ScoringMethod::Territory => {
            let black = 2 * black_terr;
            let white = 2 * white_terr + komi_halves;
            (black, white)
        },
    }
}

} // verus!
