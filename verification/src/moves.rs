//! The move engine and its board utilities.
//!
//! These functions work on a flat spot vector in row-major order with
//! `(x, y)` coordinates, where `x` is the column and `y` is the row, so
//! the spot at `(x, y)` lives at index `y * size + x`.

use vstd::prelude::*;
use crate::board::{occupancy, Board, Occupant, SpotState};
use crate::connectivity::{
    chain_has_liberty, has_empty_neighbor, lemma_chain_liberty_same, lemma_reach_props,
    lemma_reach_symm, lemma_reach_trans, reach,
};
use crate::flood::{collect_chain, contains_cell, neighbor_cells};
use crate::grid::{adjacent, cell_at, coords_adjacent, in_grid, lemma_cell_at_decodes};

verus! {

/// The valid orthogonal neighbor coordinates of `(x, y)`, in the order
/// left, right, up, down.
pub fn neighbors(x: usize, y: usize, size: usize) -> (r: Vec<(usize, usize)>)
    requires
        x < size,
        y < size,
        size <= 255,
    ensures
        r@.no_duplicates(),
        forall|k: int|
            0 <= k < r@.len() ==> coords_adjacent(
                size as int,
                y as int,
                x as int,
                (#[trigger] r@[k]).1 as int,
                r@[k].0 as int,
            ),
        forall|a: usize, b: usize|
            #[trigger] coords_adjacent(size as int, y as int, x as int, b as int, a as int)
                ==> r@.contains((a, b)),
{
    let mut result: Vec<(usize, usize)> = Vec::new();
    if x > 0 {
        result.push((x - 1, y));
    }
    if x + 1 < size {
        result.push((x + 1, y));
    }
    if y > 0 {
        result.push((x, y - 1));
    }
    if y + 1 < size {
        result.push((x, y + 1));
    }
    proof {
        assert forall|a: usize, b: usize|
            #[trigger] coords_adjacent(size as int, y as int, x as int, b as int, a as int)
                implies result@.contains((a, b)) by {
            if b == y && a as int == x - 1 {
                assert(result@[0] == (a, b));
            } else if b == y && a as int == x + 1 {
                let k = if x > 0 { 1int } else { 0int };
                assert(result@[k] == (a, b));
            } else if a == x && b as int == y - 1 {
                let k = (if x > 0 { 1int } else { 0int }) + (if x + 1 < size { 1int } else { 0int });
                assert(result@[k] == (a, b));
            } else {
                assert(a == x && b as int == y + 1);
                let k = (if x > 0 { 1int } else { 0int }) + (if x + 1 < size { 1int } else { 0int })
                    + (if y > 0 { 1int } else { 0int });
                assert(result@[k] == (a, b));
            }
        }
    }
    result
}

/// The index in a row-major spot vector of the coordinate `(x, y)`.
pub fn coord_to_index(x: usize, y: usize, size: usize) -> (r: usize)
    requires
        x < size,
        y < size,
        size <= 255,
    ensures
        r == cell_at(size as int, y as int, x as int),
        r < size * size,
{
    proof {
        lemma_cell_at_decodes(size as int, y as int, x as int);
        assert(size * size <= 65025) by (nonlinear_arith)
            requires
                size <= 255,
        ;
    }
    y * size + x
}

/// All indices of the connected group containing `(x, y)`: the maximal
/// set of same-colored spots reachable from it through orthogonal
/// adjacency.  An empty starting spot forms no group; its index alone is
/// returned.
pub fn get_group_indices(board: &Vec<SpotState>, size: usize, x: usize, y: usize) -> (r: Vec<
    usize,
>)
    requires
        1 <= size <= 255,
        board@.len() == size * size,
        x < size,
        y < size,
    ensures
        r@.no_duplicates(),
        r@.contains(cell_at(size as int, y as int, x as int) as usize),
        occupancy(board@)[cell_at(size as int, y as int, x as int)] == Occupant::Empty ==> r@.len()
            == 1,
        occupancy(board@)[cell_at(size as int, y as int, x as int)] != Occupant::Empty ==> {
            &&& forall|k: int|
                0 <= k < r@.len() ==> reach(
                    occupancy(board@),
                    size as int,
                    cell_at(size as int, y as int, x as int),
                    (#[trigger] r@[k]) as int,
                )
            &&& forall|j: int|
                #[trigger] reach(
                    occupancy(board@),
                    size as int,
                    cell_at(size as int, y as int, x as int),
                    j,
                ) ==> r@.contains(j as usize)
        },
{
    let start = coord_to_index(x, y, size);
    if board[start].occupant == Occupant::Empty {
        let mut r: Vec<usize> = Vec::new();
        r.push(start);
        assert(r@[0] == start);
        r
    } else {
        collect_chain(board, size, start)
    }
}

/// Whether any spot of the group has a liberty: an orthogonally adjacent
/// empty spot.
#[verifier::loop_isolation(false)]
pub fn group_has_liberty(board: &Vec<SpotState>, size: usize, group: &Vec<usize>) -> (r: bool)
    requires
        1 <= size <= 255,
        board@.len() == size * size,
        forall|k: int| 0 <= k < group@.len() ==> (#[trigger] group@[k]) < size * size,
    ensures
        r == exists|k: int|
            0 <= k < group@.len() && has_empty_neighbor(
                occupancy(board@),
                size as int,
                (#[trigger] group@[k]) as int,
            ),
{
    let ghost occ = occupancy(board@);
    let ghost szi = size as int;
    proof {
        assert(szi * szi <= 65025) by (nonlinear_arith)
            requires
                0 <= szi <= 255,
        ;
    }
    let mut k: usize = 0;
    while k < group.len()
        invariant
            k <= group@.len(),
            forall|t: int|
                0 <= t < k ==> !has_empty_neighbor(occ, szi, (#[trigger] group@[t]) as int),
        decreases group@.len() - k,
    {
        let idx = group[k];
        let nbrs = neighbor_cells(size, idx);
        let mut m: usize = 0;
        while m < nbrs.len()
            invariant
                m <= nbrs@.len(),
                forall|t: int|
                    0 <= t < m ==> occ[(#[trigger] nbrs@[t]) as int] != Occupant::Empty,
            decreases nbrs@.len() - m,
        {
            let n = nbrs[m];
            if board[n].occupant == Occupant::Empty {
                assert(adjacent(szi, idx as int, n as int));
                assert(has_empty_neighbor(occ, szi, idx as int));
                return true;
            }
            m += 1;
        }
        proof {
            assert forall|j: int| !(adjacent(szi, idx as int, j) && occ[j] == Occupant::Empty) by {
                if adjacent(szi, idx as int, j) && occ[j] == Occupant::Empty {
                    assert(nbrs@.contains(j as usize));
                    let t = choose|t: int| 0 <= t < nbrs@.len() && nbrs@[t] == j as usize;
                    assert(occ[nbrs@[t] as int] != Occupant::Empty);
                }
            }
            assert(!has_empty_neighbor(occ, szi, idx as int));
        }
        k += 1;
    }
    false
}

/// Remove a group from the board: every listed spot becomes empty, loses
/// its move number, and is marked "captured"; all other spots are
/// untouched.
#[verifier::loop_isolation(false)]
pub fn remove_group(board: &mut Vec<SpotState>, group: &Vec<usize>)
    requires
        forall|k: int| 0 <= k < group@.len() ==> (#[trigger] group@[k]) < old(board)@.len(),
    ensures
        final(board)@.len() == old(board)@.len(),
        forall|j: int|
            0 <= j < final(board)@.len() && group@.contains(j as usize) ==> {
                &&& (#[trigger] final(board)@[j]).occupant == Occupant::Empty
                &&& final(board)@[j].move_number is None
                &&& final(board)@[j].marker matches Some(m) && m@ == "captured"@
                &&& final(board)@[j].playable == old(board)@[j].playable
                &&& final(board)@[j].scoring_owner == old(board)@[j].scoring_owner
                &&& final(board)@[j].scoring_explanation == old(board)@[j].scoring_explanation
            },
        forall|j: int|
            0 <= j < final(board)@.len() && !group@.contains(j as usize)
                ==> (#[trigger] final(board)@[j]) == old(board)@[j],
{
    let n = board.len();
    let mut k: usize = 0;
    while k < group.len()
        invariant
            board@.len() == n,
            board@.len() == old(board)@.len(),
            forall|j: int|
                0 <= j < board@.len() && group@.subrange(0, k as int).contains(j as usize) ==> {
                    &&& (#[trigger] board@[j]).occupant == Occupant::Empty
                    &&& board@[j].move_number is None
                    &&& board@[j].marker matches Some(m) && m@ == "captured"@
                    &&& board@[j].playable == old(board)@[j].playable
                    &&& board@[j].scoring_owner == old(board)@[j].scoring_owner
                    &&& board@[j].scoring_explanation == old(board)@[j].scoring_explanation
                },
            forall|j: int|
                0 <= j < board@.len() && !group@.subrange(0, k as int).contains(j as usize)
                    ==> #[trigger] board@[j] == old(board)@[j],
            k <= group@.len(),
        decreases group@.len() - k,
    {
        let idx = group[k];
        let ghost prev = board@;
        let spot = &mut board[idx];
        spot.occupant = Occupant::Empty;
        spot.move_number = None;
        spot.marker = Some("captured".to_owned());
        proof {
            assert(board@[idx as int].occupant == Occupant::Empty);
            assert(board@[idx as int].move_number is None);
            assert(board@[idx as int].marker matches Some(m) && m@ == "captured"@);
            assert(board@[idx as int].playable == prev[idx as int].playable);
            assert(forall|j: int| 0 <= j < board@.len() && j != idx ==> board@[j] == prev[j]);
            let pre = group@.subrange(0, k as int);
            let cur = group@.subrange(0, k as int + 1);
            assert(cur =~= pre.push(group@[k as int]));
            assert(cur.contains(group@[k as int])) by {
                assert(cur[k as int] == group@[k as int]);
            }
            assert forall|x: usize| #[trigger] cur.contains(x) implies (pre.contains(x) || x
                == group@[k as int]) by {
                let t = choose|t: int| 0 <= t < cur.len() && cur[t] == x;
                if t < k as int {
                    assert(pre[t] == x);
                }
            }
            assert forall|x: usize| #[trigger] pre.contains(x) implies cur.contains(x) by {
                let t = choose|t: int| 0 <= t < pre.len() && pre[t] == x;
                assert(cur[t] == x);
            }
            assert forall|j: int|
                0 <= j < board@.len() && cur.contains(j as usize) implies (
                (#[trigger] board@[j]).occupant == Occupant::Empty) by {
                if j != idx as int {
                    assert(pre.contains(j as usize));
                    assert(board@[j] == prev[j]);
                }
            }
            assert forall|j: int|
                0 <= j < board@.len() && cur.contains(j as usize) implies (
                (#[trigger] board@[j]).move_number is None) by {
                if j != idx as int {
                    assert(pre.contains(j as usize));
                    assert(board@[j] == prev[j]);
                }
            }
            assert forall|j: int|
                0 <= j < board@.len() && cur.contains(j as usize) implies ((#[trigger] board@[j]).marker
                matches Some(m) && m@ == "captured"@) by {
                if j != idx as int {
                    assert(pre.contains(j as usize));
                    assert(board@[j] == prev[j]);
                }
            }
            assert forall|j: int|
                0 <= j < board@.len() && cur.contains(j as usize) implies (
                (#[trigger] board@[j]).playable == old(board)@[j].playable
                    && board@[j].scoring_owner == old(board)@[j].scoring_owner
                    && board@[j].scoring_explanation == old(board)@[j].scoring_explanation) by {
                if j != idx as int {
                    assert(pre.contains(j as usize));
                    assert(board@[j] == prev[j]);
                } else {
                    if pre.contains(j as usize) {
                        assert(prev[j].playable == old(board)@[j].playable);
                    } else {
                        assert(prev[j] == old(board)@[j]);
                    }
                }
            }
            assert forall|j: int|
                0 <= j < board@.len() && !cur.contains(j as usize) implies (#[trigger] board@[j])
                == old(board)@[j] by {
                assert(j != idx as int);
                assert(!pre.contains(j as usize));
                assert(board@[j] == prev[j]);
            }
        }
        k += 1;
    }
    proof {
        assert(group@.subrange(0, group@.len() as int) =~= group@);
    }
}

/// The reasons a candidate move is rejected.
#[derive(Clone, Copy, Debug, PartialEq, Eq, Structural)]
pub enum MoveError {
    /// The target is outside the board or already holds a stone.
    OccupiedOrOutOfBounds,
    /// The move would leave the placed stone's own group without liberties.
    SelfCapture,
    /// The move would exactly restore the previous position's occupancy.
    KoViolation,
}

impl MoveError {
    /// A human-readable description of the rejection.
    pub fn message(&self) -> (r: String)
        ensures
            self is OccupiedOrOutOfBounds ==> r@ == "Position already occupied"@,
            self is SelfCapture ==> r@ == "Illegal move: self_capture"@,
            self is KoViolation ==> r@ == "Illegal move: violates ko rule"@,
    {
        match self {
            MoveError::OccupiedOrOutOfBounds => "Position already occupied".to_owned(),
            MoveError::SelfCapture => "Illegal move: self_capture".to_owned(),
            MoveError::KoViolation => "Illegal move: violates ko rule".to_owned(),
        }
    }
}

/// The opposing color; `Empty` has no opponent.
pub open spec fn opposite_color(c: Occupant) -> Occupant {
    match c {
        Occupant::Black => Occupant::White,
        Occupant::White => Occupant::Black,
        Occupant::Empty => Occupant::Empty,
    }
}

/// Occupancy after placing `color` on cell `i`.
pub open spec fn placed_occ(spots: Seq<SpotState>, i: int, color: Occupant) -> Seq<Occupant> {
    occupancy(spots).update(i, color)
}

/// The cells captured by placing `color` on cell `i`: cells of the
/// opposing color whose chain touches the placed stone and has no liberty
/// once the stone stands.
pub open spec fn captured_by_move(
    spots: Seq<SpotState>,
    size: int,
    i: int,
    color: Occupant,
) -> Set<int> {
    let occ = placed_occ(spots, i, color);
    Set::new(
        |j: int|
            {
                &&& in_grid(size, j)
                &&& occ[j] == opposite_color(color)
                &&& exists|n: int| #[trigger] adjacent(size, i, n) && reach(occ, size, n, j)
                &&& !chain_has_liberty(occ, size, j)
            },
    )
}

/// Occupancy after placing `color` on cell `i` and removing every
/// captured chain.
pub open spec fn occ_after_move(
    spots: Seq<SpotState>,
    size: int,
    i: int,
    color: Occupant,
) -> Seq<Occupant> {
    let occ = placed_occ(spots, i, color);
    let cap = captured_by_move(spots, size, i, color);
    Seq::new(occ.len(), |j: int| if cap.contains(j) {
        Occupant::Empty
    } else {
        occ[j]
    })
}

/// Whether placing `color` on cell `i` is a self-capture: after captures
/// are resolved, the placed stone's own chain has no liberty.
pub open spec fn is_self_capture(
    spots: Seq<SpotState>,
    size: int,
    i: int,
    color: Occupant,
) -> bool {
    !chain_has_liberty(occ_after_move(spots, size, i, color), size, i)
}

/// Whether the coordinate `(x, y)` is on the board and its spot is empty.
pub open spec fn move_target_ok(spots: Seq<SpotState>, size: int, x: int, y: int) -> bool {
    &&& 0 <= x < size
    &&& 0 <= y < size
    &&& occupancy(spots)[cell_at(size, y, x)] == Occupant::Empty
}

/// How the spot vector of an accepted move relates to the one before it:
/// the placed stone carries `color` and the move's sequence id, every
/// captured spot is cleared and marked "captured", and every other spot
/// is untouched.
pub open spec fn move_result_spots(
    old_spots: Seq<SpotState>,
    new_spots: Seq<SpotState>,
    size: int,
    i: int,
    color: Occupant,
    ts: u64,
) -> bool {
    let cap = captured_by_move(old_spots, size, i, color);
    &&& new_spots.len() == old_spots.len()
    &&& new_spots[i].occupant == color
    &&& new_spots[i].move_number == Some(ts)
    &&& new_spots[i].marker == old_spots[i].marker
    &&& new_spots[i].playable == old_spots[i].playable
    &&& new_spots[i].scoring_owner == old_spots[i].scoring_owner
    &&& new_spots[i].scoring_explanation == old_spots[i].scoring_explanation
    &&& forall|j: int|
        0 <= j < new_spots.len() && j != i && cap.contains(j) ==> {
            &&& (#[trigger] new_spots[j]).occupant == Occupant::Empty
            &&& new_spots[j].move_number is None
            &&& new_spots[j].marker matches Some(m) && m@ == "captured"@
            &&& new_spots[j].playable == old_spots[j].playable
            &&& new_spots[j].scoring_owner == old_spots[j].scoring_owner
            &&& new_spots[j].scoring_explanation == old_spots[j].scoring_explanation
        }
    &&& forall|j: int|
        0 <= j < new_spots.len() && j != i && !cap.contains(j) ==> (#[trigger] new_spots[j])
            == old_spots[j]
}

/// Whether a previous position's occupancy equals the occupancy of the
/// given spots.
pub fn occupancy_equals(prev: &Vec<Occupant>, spots: &Vec<SpotState>) -> (r: bool)
    ensures
        r == (prev@ == occupancy(spots@)),
{
    if prev.len() != spots.len() {
        assert(prev@.len() != occupancy(spots@).len());
        return false;
    }
    let mut q: usize = 0;
    while q < spots.len()
        invariant
            q <= spots@.len(),
            prev@.len() == spots@.len(),
            forall|u: int| 0 <= u < q ==> prev@[u] == occupancy(spots@)[u],
        decreases spots@.len() - q,
    {
        if prev[q] != spots[q].occupant {
            assert(prev@[q as int] != occupancy(spots@)[q as int]);
            return false;
        }
        q += 1;
    }
    proof {
        assert(prev@ =~= occupancy(spots@));
    }
    true
}

/// Apply a candidate move: place the stone, capture adjacent opposing
/// chains left without liberties, reject self-captures, and reject a move
/// that restores the previous occupancy (simple ko).
///
/// On success the new spot vector is returned; the placed spot carries
/// the move's sequence id, and each captured spot is cleared and marked
/// "captured".
#[verifier::loop_isolation(false)]
#[verifier::rlimit(100)]
pub fn apply_move_to_board(
    board: Vec<SpotState>,
    size: usize,
    stone_color: Occupant,
    x: usize,
    y: usize,
    previous_board: Option<Vec<Occupant>>,
    timestamp: u64,
) -> (r: Result<Vec<SpotState>, MoveError>)
    requires
        1 <= size <= 255,
        board@.len() == size * size,
        stone_color != Occupant::Empty,
    ensures
        ({
            let szi = size as int;
            let i = cell_at(szi, y as int, x as int);
            let target_ok = move_target_ok(board@, szi, x as int, y as int);
            let self_cap = is_self_capture(board@, szi, i, stone_color);
            let ko = previous_board matches Some(p) && p@ == occ_after_move(
                board@,
                szi,
                i,
                stone_color,
            );
            &&& (r is Ok <==> target_ok && !self_cap && !ko)
            &&& (r == Result::<Vec<SpotState>, MoveError>::Err(MoveError::OccupiedOrOutOfBounds)
                <==> !target_ok)
            &&& (r == Result::<Vec<SpotState>, MoveError>::Err(MoveError::SelfCapture) <==> (
            target_ok && self_cap))
            &&& (r == Result::<Vec<SpotState>, MoveError>::Err(MoveError::KoViolation) <==> (
            target_ok && !self_cap && ko))
            &&& (r matches Ok(nb) ==> move_result_spots(
                board@,
                nb@,
                szi,
                i,
                stone_color,
                timestamp,
            ) && occupancy(nb@) == occ_after_move(board@, szi, i, stone_color))
        }),
{
    let ghost old_spots = board@;
    let ghost szi = size as int;
    proof {
        assert(szi * szi <= 65025) by (nonlinear_arith)
            requires
                0 <= szi <= 255,
        ;
    }
    if !(x < size && y < size) {
        return Err(MoveError::OccupiedOrOutOfBounds);
    }
    let idx = coord_to_index(x, y, size);
    let ghost i = idx as int;
    if board[idx].occupant != Occupant::Empty {
        return Err(MoveError::OccupiedOrOutOfBounds);
    }
    let mut spots = board;
    {
        let spot = &mut spots[idx];
        spot.occupant = stone_color;
        spot.move_number = Some(timestamp);
    }
    let ghost placed = placed_occ(old_spots, i, stone_color);
    proof {
        assert(occupancy(spots@) =~= placed);
    }
    let opp = match stone_color {
        Occupant::Black => Occupant::White,
        _ => Occupant::Black,
    };
    assert(opp == opposite_color(stone_color));
    let ghost cap = captured_by_move(old_spots, szi, i, stone_color);
    let nbrs = neighbor_cells(size, idx);
    let mut captured: Vec<usize> = Vec::new();
    let mut t: usize = 0;
    while t < nbrs.len()
        invariant
            t <= nbrs@.len(),
            captured@.no_duplicates(),
            forall|k: int|
                0 <= k < captured@.len() ==> cap.contains((#[trigger] captured@[k]) as int)
                    && captured@[k] < size * size,
            forall|k: int, j: int|
                0 <= k < captured@.len() && #[trigger] reach(
                    placed,
                    szi,
                    (#[trigger] captured@[k]) as int,
                    j,
                ) ==> captured@.contains(j as usize),
            forall|u: int|
                0 <= u < t ==> ((placed[(#[trigger] nbrs@[u]) as int] == opp
                    && !chain_has_liberty(placed, szi, nbrs@[u] as int)) ==> captured@.contains(
                    nbrs@[u],
                )),
        decreases nbrs@.len() - t,
    {
        let nidx = nbrs[t];
        assert(adjacent(szi, i, nidx as int));
        let is_opp = spots[nidx].occupant == opp;
        let already = contains_cell(&captured, nidx);
        if is_opp && !already {
            let grp = collect_chain(&spots, size, nidx);
            if !group_has_liberty(&spots, size, &grp) {
                proof {
                    assert(!chain_has_liberty(placed, szi, nidx as int)) by {
                        if chain_has_liberty(placed, szi, nidx as int) {
                            let lj = choose|j: int|
                                #[trigger] reach(placed, szi, nidx as int, j)
                                    && has_empty_neighbor(placed, szi, j);
                            assert(grp@.contains(lj as usize));
                            let lk = choose|k: int| 0 <= k < grp@.len() && grp@[k] == lj as usize;
                            assert(has_empty_neighbor(occupancy(spots@), szi, grp@[lk] as int));
                        }
                    }
                }
                let ghost cap_before = captured@;
                let mut w: usize = 0;
                while w < grp.len()
                    invariant
                        w <= grp@.len(),
                        captured@ == cap_before + grp@.subrange(0, w as int),
                        captured@.no_duplicates(),
                        forall|k: int|
                            0 <= k < captured@.len() ==> cap.contains(
                                (#[trigger] captured@[k]) as int,
                            ) && captured@[k] < size * size,
                    decreases grp@.len() - w,
                {
                    let g = grp[w];
                    proof {
                        assert(reach(placed, szi, nidx as int, g as int));
                        lemma_reach_props(placed, szi, nidx as int, g as int);
                        lemma_chain_liberty_same(placed, szi, nidx as int, g as int);
                        assert(cap.contains(g as int)) by {
                            assert(adjacent(szi, i, nidx as int) && reach(
                                placed,
                                szi,
                                nidx as int,
                                g as int,
                            ));
                        }
                        // `g` is not yet listed: chains already captured are
                        // closed under reachability, so holding `g` would mean
                        // holding `nidx` as well, which was checked above.
                        assert(!captured@.contains(g)) by {
                            if cap_before.contains(g) {
                                let k = choose|k: int|
                                    0 <= k < cap_before.len() && cap_before[k] == g;
                                assert(reach(placed, szi, cap_before[k] as int, nidx as int)) by {
                                    lemma_reach_symm(placed, szi, nidx as int, g as int);
                                }
                                assert(cap_before.contains(nidx));
                                assert(captured@.contains(nidx)) by {
                                    assert(captured@[k] == cap_before[k]);
                                    let k2 = choose|k2: int|
                                        0 <= k2 < cap_before.len() && cap_before[k2] == nidx;
                                    assert(captured@[k2] == nidx);
                                }
                            } else if grp@.subrange(0, w as int).contains(g) {
                                assert(grp@.no_duplicates());
                                let k = choose|k: int| 0 <= k < w && grp@.subrange(0, w as int)[k] == g;
                                assert(grp@[k] == g && grp@[w as int] == g);
                            } else {
                                if captured@.contains(g) {
                                    let k = choose|k: int|
                                        0 <= k < captured@.len() && captured@[k] == g;
                                    if k < cap_before.len() {
                                        assert(cap_before[k] == g);
                                    } else {
                                        assert(grp@.subrange(0, w as int)[k - cap_before.len()]
                                            == g);
                                    }
                                }
                            }
                        }
                    }
                    captured.push(g);
                    proof {
                        assert(captured@ =~= cap_before + grp@.subrange(0, w as int + 1));
                    }
                    w += 1;
                }
                proof {
                    assert(grp@.subrange(0, grp@.len() as int) =~= grp@);
                    assert(captured@ == cap_before + grp@);
                    // the whole chain of `nidx` is now listed, and listed
                    // chains remain closed under reachability
                    assert forall|k: int, j: int|
                        0 <= k < captured@.len() && #[trigger] reach(
                            placed,
                            szi,
                            (#[trigger] captured@[k]) as int,
                            j,
                        ) implies captured@.contains(j as usize) by {
                        if k < cap_before.len() {
                            assert(captured@[k] == cap_before[k]);
                            assert(cap_before.contains(j as usize));
                            let k2 = choose|k2: int|
                                0 <= k2 < cap_before.len() && cap_before[k2] == j as usize;
                            assert(captured@[k2] == j as usize);
                        } else {
                            let c = captured@[k];
                            assert(grp@[k - cap_before.len()] == c);
                            assert(reach(placed, szi, nidx as int, c as int));
                            lemma_reach_trans(placed, szi, nidx as int, c as int, j);
                            assert(grp@.contains(j as usize));
                            let k2 = choose|k2: int| 0 <= k2 < grp@.len() && grp@[k2] == j as usize;
                            assert(captured@[cap_before.len() + k2] == j as usize);
                        }
                    }
                    assert(captured@.contains(nidx)) by {
                        assert(grp@.contains(nidx));
                        let k2 = choose|k2: int| 0 <= k2 < grp@.len() && grp@[k2] == nidx;
                        assert(captured@[cap_before.len() + k2] == nidx);
                    }
                    assert forall|z: usize| cap_before.contains(z) implies captured@.contains(
                        z,
                    ) by {
                        let k2 = choose|k2: int|
                            0 <= k2 < cap_before.len() && cap_before[k2] == z;
                        assert(captured@[k2] == z);
                    }
                }
            } else {
                proof {
                    let lk = choose|k: int|
                        0 <= k < grp@.len() && has_empty_neighbor(
                            occupancy(spots@),
                            szi,
                            (#[trigger] grp@[k]) as int,
                        );
                    assert(reach(placed, szi, nidx as int, grp@[lk] as int));
                    assert(chain_has_liberty(placed, szi, nidx as int));
                }
            }
        }
        proof {
            if placed[nidx as int] == opp && !chain_has_liberty(placed, szi, nidx as int) {
                assert(placed[nidx as int] == spots@[nidx as int].occupant);
                assert(is_opp);
                if already {
                    assert(captured@.contains(nidx));
                } else {
                    assert(captured@.contains(nidx));
                }
            }
        }
        t += 1;
    }
    proof {
        // the listed cells are exactly the captured set
        assert forall|j: int| cap.contains(j) implies captured@.contains(j as usize) by {
            let n = choose|n: int| #[trigger] adjacent(szi, i, n) && reach(placed, szi, n, j);
            lemma_reach_props(placed, szi, n, j);
            assert(nbrs@.contains(n as usize));
            let u = choose|u: int| 0 <= u < nbrs@.len() && nbrs@[u] == n as usize;
            lemma_chain_liberty_same(placed, szi, n, j);
            assert(captured@.contains(nbrs@[u]));
            let k = choose|k: int| 0 <= k < captured@.len() && captured@[k] == n as usize;
            assert(reach(placed, szi, captured@[k] as int, j));
        }
    }
    remove_group(&mut spots, &captured);
    let ghost mid = occ_after_move(old_spots, szi, i, stone_color);
    proof {
        assert forall|j: int| 0 <= j < spots@.len() implies occupancy(spots@)[j] == mid[j] by {
            if cap.contains(j) {
                assert(captured@.contains(j as usize));
            } else {
                if captured@.contains(j as usize) {
                    let k = choose|k: int| 0 <= k < captured@.len() && captured@[k] == j as usize;
                    assert(cap.contains(captured@[k] as int));
                }
            }
        }
        assert(occupancy(spots@) =~= mid);
        assert(!cap.contains(i));
        assert(!captured@.contains(idx)) by {
            if captured@.contains(idx) {
                let k = choose|k: int| 0 <= k < captured@.len() && captured@[k] == idx;
                assert(cap.contains(captured@[k] as int));
            }
        }
    }
    let own = collect_chain(&spots, size, idx);
    if !group_has_liberty(&spots, size, &own) {
        proof {
            assert(!chain_has_liberty(mid, szi, i)) by {
                if chain_has_liberty(mid, szi, i) {
                    let lj = choose|j: int|
                        #[trigger] reach(mid, szi, i, j) && has_empty_neighbor(mid, szi, j);
                    assert(own@.contains(lj as usize));
                    let lk = choose|k: int| 0 <= k < own@.len() && own@[k] == lj as usize;
                    assert(has_empty_neighbor(occupancy(spots@), szi, own@[lk] as int));
                }
            }
        }
        return Err(MoveError::SelfCapture);
    }
    proof {
        assert(chain_has_liberty(mid, szi, i)) by {
            let lk = choose|k: int|
                0 <= k < own@.len() && has_empty_neighbor(
                    occupancy(spots@),
                    szi,
                    (#[trigger] own@[k]) as int,
                );
            assert(reach(mid, szi, i, own@[lk] as int));
        }
    }
    if let Some(prev) = &previous_board {
        if occupancy_equals(prev, &spots) {
            return Err(MoveError::KoViolation);
        }
    }
    Ok(spots)
}


impl Board {
    /// Whether placing `stone_color` at `(row, col)` would be legal,
    /// ko aside: the spot is on the board and empty, and the placement
    /// is not a self-capture once captures are resolved.
    #[verifier::loop_isolation(false)]
    pub fn is_move_playable(board: &Board, row: u8, col: u8, stone_color: Occupant) -> (r: bool)
        requires
            board.wf(),
            stone_color != Occupant::Empty,
        ensures
            r == (move_target_ok(board.spots@, board.size(), col as int, row as int)
                && !is_self_capture(
                board.spots@,
                board.size(),
                cell_at(board.size(), row as int, col as int),
                stone_color,
            )),
    {
        let ghost szi = board.size();
        let size = board.board_size as usize;
        let mut sim: Vec<SpotState> = Vec::new();
        let mut k: usize = 0;
        let n = board.spots.len();
        while k < n
            invariant
                k <= n,
                sim@.len() == k,
                forall|t: int|
                    0 <= t < k ==> (#[trigger] sim@[t]).occupant == board.spots@[t].occupant,
            decreases n - k,
        {
            let s = SpotState {
                occupant: board.spots[k].occupant,
                move_number: None,
                marker: None,
                playable: false,
                scoring_owner: None,
                scoring_explanation: None,
            };
            sim.push(s);
            k += 1;
        }
        proof {
            assert(occupancy(sim@) =~= occupancy(board.spots@));
        }
        let r = apply_move_to_board(
            sim,
            size,
            stone_color,
            col as usize,
            row as usize,
            None,
            0,
        );
        proof {
            let i = cell_at(szi, row as int, col as int);
            assert(placed_occ(sim@, i, stone_color) == placed_occ(board.spots@, i, stone_color));
            assert(captured_by_move(sim@, szi, i, stone_color) =~= captured_by_move(
                board.spots@,
                szi,
                i,
                stone_color,
            ));
            assert(occ_after_move(sim@, szi, i, stone_color) =~= occ_after_move(
                board.spots@,
                szi,
                i,
                stone_color,
            ));
        }
        r.is_ok()
    }
}

} // verus!
