//! Group analysis: discovery of connected stone groups and their
//! liberties, and removal of groups left without liberties.

use vstd::prelude::*;
use crate::board::{occupancy, Board, Occupant, SpotState};
use crate::connectivity::{
    chain_has_liberty, has_empty_neighbor, lemma_chain_liberty_same, lemma_reach_join,
    lemma_reach_props, lemma_reach_symm, lemma_reach_trans, reach,
};
use crate::flood::{collect_chain, contains_cell, neighbor_cells, set_cell};
use crate::grid::{adjacent, cell_at, in_grid, lemma_decode_cell, row_of, col_of};

verus! {

/// A connected chain of same-colored stones together with its liberties:
/// the empty spots orthogonally adjacent to the chain.
#[derive(Clone, Debug)]
pub struct Group {
    pub occupant: Occupant,
    pub stones: Vec<(u8, u8)>,
    pub liberties: Vec<(u8, u8)>,
}

/// The cell index of a `(row, col)` coordinate pair.
pub open spec fn coord_cell(size: int, rc: (u8, u8)) -> int {
    cell_at(size, rc.0 as int, rc.1 as int)
}

/// The cell indices of a list of coordinate pairs.
pub open spec fn coord_cells(size: int, s: Seq<(u8, u8)>) -> Seq<int> {
    s.map_values(|rc: (u8, u8)| coord_cell(size, rc))
}

/// The cell indices of a group's stones.
pub open spec fn stones_idx(g: Group, size: int) -> Seq<int> {
    coord_cells(size, g.stones@)
}

/// The cell indices of a group's liberties.
pub open spec fn liberties_idx(g: Group, size: int) -> Seq<int> {
    coord_cells(size, g.liberties@)
}

/// All coordinates of the list are on a board of side `size`.
pub open spec fn coords_in_range(s: Seq<(u8, u8)>, size: int) -> bool {
    forall|k: int| 0 <= k < s.len() ==> (#[trigger] s[k]).0 < size && s[k].1 < size
}

/// Cell `j` is a liberty of the chain of `root`: an empty cell
/// orthogonally adjacent to at least one cell of the chain.
pub open spec fn is_liberty_of(occ: Seq<Occupant>, size: int, root: int, j: int) -> bool {
    &&& in_grid(size, j)
    &&& occ[j] == Occupant::Empty
    &&& exists|s: int| #[trigger] reach(occ, size, root, s) && adjacent(size, s, j)
}

/// What it means for a `Group` value to correctly describe one chain of
/// the board: its stones are exactly one maximal connected set of
/// same-colored stones, and its liberties are exactly the empty cells
/// orthogonally adjacent to that set.
pub open spec fn group_ok(occ: Seq<Occupant>, size: int, g: Group) -> bool {
    let root = coord_cell(size, g.stones@[0]);
    &&& g.stones@.len() >= 1
    &&& coords_in_range(g.stones@, size)
    &&& stones_idx(g, size).no_duplicates()
    &&& g.occupant != Occupant::Empty
    &&& occ[root] == g.occupant
    &&& forall|k: int|
        0 <= k < g.stones@.len() ==> reach(
            occ,
            size,
            root,
            coord_cell(size, #[trigger] g.stones@[k]),
        )
    &&& forall|j: int| #[trigger] reach(occ, size, root, j) ==> stones_idx(g, size).contains(j)
    &&& coords_in_range(g.liberties@, size)
    &&& liberties_idx(g, size).no_duplicates()
    &&& forall|k: int|
        0 <= k < g.liberties@.len() ==> is_liberty_of(
            occ,
            size,
            root,
            coord_cell(size, #[trigger] g.liberties@[k]),
        )
    &&& forall|j: int|
        #[trigger] is_liberty_of(occ, size, root, j) ==> liberties_idx(g, size).contains(j)
}

/// What it means for a list of groups to describe the whole board: every
/// group is a correct chain, every stone belongs to some group, and no
/// cell belongs to two groups.
pub open spec fn groups_partition(occ: Seq<Occupant>, size: int, gs: Seq<Group>) -> bool {
    &&& forall|k: int| 0 <= k < gs.len() ==> group_ok(occ, size, #[trigger] gs[k])
    &&& forall|j: int|
        in_grid(size, j) && occ[j] != Occupant::Empty ==> exists|k: int|
            0 <= k < gs.len() && #[trigger] stones_idx(gs[k], size).contains(j)
    &&& forall|k1: int, k2: int, j: int|
        #![trigger stones_idx(gs[k1], size).contains(j), stones_idx(gs[k2], size).contains(j)]
        0 <= k1 < k2 < gs.len() && stones_idx(gs[k1], size).contains(j) ==> !stones_idx(
            gs[k2],
            size,
        ).contains(j)
}

/// Convert a list of cell indices to `(row, col)` coordinate pairs.
#[verifier::loop_isolation(false)]
pub(crate) fn cells_to_coords(size: usize, cells: &Vec<usize>) -> (r: Vec<(u8, u8)>)
    requires
        1 <= size <= 255,
        forall|k: int| 0 <= k < cells@.len() ==> (#[trigger] cells@[k]) < size * size,
    ensures
        r@.len() == cells@.len(),
        forall|k: int|
            0 <= k < r@.len() ==> (#[trigger] r@[k]).0 < size && r@[k].1 < size && coord_cell(
                size as int,
                r@[k],
            ) == cells@[k] as int && r@[k].0 == row_of(size as int, cells@[k] as int) && r@[k].1
                == col_of(size as int, cells@[k] as int),
    decreases cells@.len(),
{
    let ghost szi = size as int;
    let mut r: Vec<(u8, u8)> = Vec::new();
    let mut k: usize = 0;
    while k < cells.len()
        invariant
            k <= cells@.len(),
            r@.len() == k,
            forall|t: int|
                0 <= t < k ==> (#[trigger] r@[t]).0 < size && r@[t].1 < size && coord_cell(
                    szi,
                    r@[t],
                ) == cells@[t] as int && r@[t].0 == row_of(szi, cells@[t] as int) && r@[t].1
                    == col_of(szi, cells@[t] as int),
        decreases cells@.len() - k,
    {
        let c = cells[k];
        proof {
            lemma_decode_cell(szi, c as int);
        }
        let row = c / size;
        let col = c % size;
        r.push((row as u8, col as u8));
        k += 1;
    }
    r
}

/// The liberties of a set of cells: every empty cell orthogonally
/// adjacent to at least one of them, each listed once.
#[verifier::loop_isolation(false)]
pub(crate) fn collect_liberties(spots: &Vec<SpotState>, size: usize, cells: &Vec<usize>) -> (r:
    Vec<usize>)
    requires
        1 <= size <= 255,
        spots@.len() == size * size,
        forall|k: int| 0 <= k < cells@.len() ==> (#[trigger] cells@[k]) < size * size,
    ensures
        r@.no_duplicates(),
        forall|k: int|
            0 <= k < r@.len() ==> (#[trigger] r@[k]) < size * size && occupancy(spots@)[r@[k] as int]
                == Occupant::Empty && exists|c: int|
                0 <= c < cells@.len() && adjacent(
                    size as int,
                    #[trigger] cells@[c] as int,
                    r@[k] as int,
                ),
        forall|j: int, c: int|
            0 <= c < cells@.len() && #[trigger] adjacent(size as int, cells@[c] as int, j)
                && occupancy(spots@)[j] == Occupant::Empty ==> r@.contains(j as usize),
{
    let ghost occ = occupancy(spots@);
    let ghost szi = size as int;
    proof {
        assert(szi * szi <= 65025) by (nonlinear_arith)
            requires
                0 <= szi <= 255,
        ;
    }
    let mut r: Vec<usize> = Vec::new();
    let mut k: usize = 0;
    while k < cells.len()
        invariant
            k <= cells@.len(),
            r@.no_duplicates(),
            forall|t: int|
                0 <= t < r@.len() ==> (#[trigger] r@[t]) < size * size && occ[r@[t] as int]
                    == Occupant::Empty && exists|c: int|
                    0 <= c < cells@.len() && adjacent(szi, #[trigger] cells@[c] as int, r@[t] as int),
            forall|j: int, c: int|
                0 <= c < k && #[trigger] adjacent(szi, cells@[c] as int, j) && occ[j]
                    == Occupant::Empty ==> r@.contains(j as usize),
        decreases cells@.len() - k,
    {
        let cell = cells[k];
        let nbrs = neighbor_cells(size, cell);
        let mut m: usize = 0;
        while m < nbrs.len()
            invariant
                m <= nbrs@.len(),
                r@.no_duplicates(),
                forall|t: int|
                    0 <= t < r@.len() ==> (#[trigger] r@[t]) < size * size && occ[r@[t] as int]
                        == Occupant::Empty && exists|c: int|
                        0 <= c < cells@.len() && adjacent(
                            szi,
                            #[trigger] cells@[c] as int,
                            r@[t] as int,
                        ),
                forall|j: int, c: int|
                    0 <= c < k && #[trigger] adjacent(szi, cells@[c] as int, j) && occ[j]
                        == Occupant::Empty ==> r@.contains(j as usize),
                forall|t: int|
                    0 <= t < m && occ[(#[trigger] nbrs@[t]) as int] == Occupant::Empty
                        ==> r@.contains(nbrs@[t]),
            decreases nbrs@.len() - m,
        {
            let j = nbrs[m];
            if spots[j].occupant == Occupant::Empty && !contains_cell(&r, j) {
                let ghost r_snap = r@;
                r.push(j);
                proof {
                    assert(r@[r@.len() - 1] == j);
                    assert forall|x: usize| r_snap.contains(x) implies r@.contains(x) by {
                        let t = choose|t: int| 0 <= t < r_snap.len() && r_snap[t] == x;
                        assert(r@[t] == x);
                    }
                    assert(adjacent(szi, cell as int, j as int));
                    assert(occ[j as int] == spots@[j as int].occupant);
                }
            }
            m += 1;
        }
        proof {
            assert forall|j: int, c: int|
                0 <= c < k + 1 && #[trigger] adjacent(szi, cells@[c] as int, j) && occ[j]
                    == Occupant::Empty implies r@.contains(j as usize) by {
                if c == k {
                    assert(nbrs@.contains(j as usize));
                    let t = choose|t: int| 0 <= t < nbrs@.len() && nbrs@[t] == j as usize;
                    assert(occ[nbrs@[t] as int] == Occupant::Empty);
                }
            }
        }
        k += 1;
    }
    r
}

/// Find all stone groups on the board: every maximal connected set of
/// same-colored stones, each with its liberties.  Empty spots belong to
/// no group; every stone belongs to exactly one.
#[verifier::loop_isolation(false)]
#[verifier::rlimit(100)]
pub fn find_groups(board: &Board) -> (r: Vec<Group>)
    requires
        board.wf(),
    ensures
        groups_partition(board.occ(), board.size(), r@),
{
    let ghost occ = board.occ();
    let ghost szi = board.size();
    let size = board.board_size as usize;
    proof {
        assert(szi * szi <= 65025) by (nonlinear_arith)
            requires
                0 <= szi <= 255,
        ;
    }
    let n = board.spots.len();
    let mut groups: Vec<Group> = Vec::new();
    let mut visited: Vec<bool> = Vec::new();
    let mut v: usize = 0;
    while v < n
        invariant
            v <= n,
            visited@.len() == v,
            forall|t: int| 0 <= t < v ==> !(#[trigger] visited@[t]),
        decreases n - v,
    {
        visited.push(false);
        v += 1;
    }
    let mut idx: usize = 0;
    while idx < n
        invariant
            idx <= n,
            visited@.len() == n,
            forall|t: int| 0 <= t < idx ==> #[trigger] visited@[t],
            forall|k: int| 0 <= k < groups@.len() ==> group_ok(occ, szi, #[trigger] groups@[k]),
            forall|k1: int, k2: int, j: int|
                #![trigger stones_idx(groups@[k1], szi).contains(j), stones_idx(groups@[k2], szi).contains(j)]
                0 <= k1 < k2 < groups@.len() && stones_idx(groups@[k1], szi).contains(j)
                    ==> !stones_idx(groups@[k2], szi).contains(j),
            forall|j: int|
                0 <= j < n ==> ((#[trigger] visited@[j]) <==> ((j < idx && occ[j]
                    == Occupant::Empty) || exists|k: int|
                    0 <= k < groups@.len() && #[trigger] stones_idx(groups@[k], szi).contains(j))),
            forall|j: int| idx <= j < n && #[trigger] visited@[j] ==> occ[j] != Occupant::Empty,
        decreases n - idx,
    {
        if !visited[idx] {
            if board.spots[idx].occupant == Occupant::Empty {
                set_cell(&mut visited, idx, true);
                proof {
                    assert(occ[idx as int] == board.spots@[idx as int].occupant);
                }
            } else {
                let cells = collect_chain(&board.spots, size, idx);
                let stones = cells_to_coords(size, &cells);
                let libs_cells = collect_liberties(&board.spots, size, &cells);
                let libs = cells_to_coords(size, &libs_cells);
                let g = Group { occupant: board.spots[idx].occupant, stones, liberties: libs };
                proof {
                    let root = coord_cell(szi, g.stones@[0]);
                    assert(cells@[0] == idx);
                    assert(root == idx as int);
                    assert(occ[idx as int] == board.spots@[idx as int].occupant);
                    // the stone indices are the collected cells
                    assert(stones_idx(g, szi) =~= cells@.map_values(|x: usize| x as int));
                    assert(liberties_idx(g, szi) =~= libs_cells@.map_values(|x: usize| x as int));
                    assert forall|j: int| #[trigger] reach(occ, szi, root, j) implies stones_idx(
                        g,
                        szi,
                    ).contains(j) by {
                        assert(cells@.contains(j as usize));
                        let k = choose|k: int| 0 <= k < cells@.len() && cells@[k] == j as usize;
                        lemma_reach_props(occ, szi, root, j);
                        assert(stones_idx(g, szi)[k] == j);
                    }
                    assert forall|k: int| 0 <= k < g.stones@.len() implies reach(
                        occ,
                        szi,
                        root,
                        coord_cell(szi, #[trigger] g.stones@[k]),
                    ) by {
                        assert(coord_cell(szi, g.stones@[k]) == cells@[k] as int);
                    }
                    // liberties are exactly the empty neighbors of the chain
                    assert forall|k: int| 0 <= k < g.liberties@.len() implies is_liberty_of(
                        occ,
                        szi,
                        root,
                        coord_cell(szi, #[trigger] g.liberties@[k]),
                    ) by {
                        let j = libs_cells@[k] as int;
                        assert(coord_cell(szi, g.liberties@[k]) == j);
                        let c = choose|c: int|
                            0 <= c < cells@.len() && adjacent(szi, #[trigger] cells@[c] as int, j);
                        assert(reach(occ, szi, root, cells@[c] as int) && adjacent(
                            szi,
                            cells@[c] as int,
                            j,
                        ));
                    }
                    assert forall|j: int| #[trigger] is_liberty_of(occ, szi, root, j)
                        implies liberties_idx(g, szi).contains(j) by {
                        let s = choose|s: int|
                            #[trigger] reach(occ, szi, root, s) && adjacent(szi, s, j);
                        assert(cells@.contains(s as usize));
                        let c = choose|c: int| 0 <= c < cells@.len() && cells@[c] == s as usize;
                        assert(adjacent(szi, cells@[c] as int, j));
                        assert(libs_cells@.contains(j as usize));
                        let k = choose|k: int|
                            0 <= k < libs_cells@.len() && libs_cells@[k] == j as usize;
                        assert(liberties_idx(g, szi)[k] == j);
                    }
                    // no-duplicate index lists
                    assert(stones_idx(g, szi).no_duplicates()) by {
                        assert forall|a: int, b: int|
                            0 <= a < b < stones_idx(g, szi).len() implies stones_idx(g, szi)[a]
                            != stones_idx(g, szi)[b] by {
                            assert(stones_idx(g, szi)[a] == cells@[a] as int);
                            assert(stones_idx(g, szi)[b] == cells@[b] as int);
                            assert(cells@[a] != cells@[b]);
                        }
                    }
                    assert(liberties_idx(g, szi).no_duplicates()) by {
                        assert forall|a: int, b: int|
                            0 <= a < b < liberties_idx(g, szi).len() implies liberties_idx(
                            g,
                            szi,
                        )[a] != liberties_idx(g, szi)[b] by {
                            assert(liberties_idx(g, szi)[a] == libs_cells@[a] as int);
                            assert(liberties_idx(g, szi)[b] == libs_cells@[b] as int);
                            assert(libs_cells@[a] != libs_cells@[b]);
                        }
                    }
                    assert(group_ok(occ, szi, g));
                    // the new chain is disjoint from every earlier group:
                    // otherwise its root would already be marked visited
                    assert forall|k1: int, j: int|
                        0 <= k1 < groups@.len() && #[trigger] stones_idx(groups@[k1], szi).contains(
                            j,
                        ) implies !stones_idx(g, szi).contains(j) by {
                        if stones_idx(g, szi).contains(j) {
                            assert(reach(occ, szi, idx as int, j)) by {
                                let k = choose|k: int|
                                    0 <= k < stones_idx(g, szi).len() && stones_idx(g, szi)[k] == j;
                                assert(coord_cell(szi, g.stones@[k]) == cells@[k] as int);
                            }
                            let old_g = groups@[k1];
                            let old_root = coord_cell(szi, old_g.stones@[0]);
                            assert(reach(occ, szi, old_root, j)) by {
                                let k = choose|k: int|
                                    0 <= k < stones_idx(old_g, szi).len() && stones_idx(
                                        old_g,
                                        szi,
                                    )[k] == j;
                                assert(reach(occ, szi, old_root, coord_cell(szi, old_g.stones@[k])));
                            }
                            lemma_reach_join(occ, szi, old_root, idx as int, j);
                            assert(stones_idx(old_g, szi).contains(idx as int));
                            assert(visited@[idx as int]);
                        }
                    }
                }
                let ghost groups_snap = groups@;
                let ghost visited_snap = visited@;
                groups.push(g);
                // mark every cell of the new chain as visited
                let mut w: usize = 0;
                while w < cells.len()
                    invariant
                        w <= cells@.len(),
                        visited@.len() == n,
                        groups@ == groups_snap.push(g),
                        forall|j: int|
                            0 <= j < n ==> ((#[trigger] visited@[j]) <==> (visited_snap[j]
                                || cells@.subrange(0, w as int).contains(j as usize))),
                    decreases cells@.len() - w,
                {
                    let c = cells[w];
                    set_cell(&mut visited, c, true);
                    proof {
                        let pre = cells@.subrange(0, w as int);
                        let cur = cells@.subrange(0, w as int + 1);
                        assert(cur =~= pre.push(cells@[w as int]));
                        assert(cur.contains(cells@[w as int])) by {
                            assert(cur[w as int] == cells@[w as int]);
                        }
                        assert forall|x: usize| #[trigger] cur.contains(x) implies (pre.contains(x)
                            || x == cells@[w as int]) by {
                            let t = choose|t: int| 0 <= t < cur.len() && cur[t] == x;
                            if t < w as int {
                                assert(pre[t] == x);
                            }
                        }
                        assert forall|x: usize| #[trigger] pre.contains(x) implies cur.contains(
                            x,
                        ) by {
                            let t = choose|t: int| 0 <= t < pre.len() && pre[t] == x;
                            assert(cur[t] == x);
                        }
                    }
                    w += 1;
                }
                proof {
                    assert(cells@.subrange(0, cells@.len() as int) =~= cells@);
                    let gs = groups@;
                    assert(gs[gs.len() - 1] == g);
                    assert forall|k: int| 0 <= k < gs.len() implies group_ok(
                        occ,
                        szi,
                        #[trigger] gs[k],
                    ) by {
                        if k < gs.len() - 1 {
                            assert(gs[k] == groups_snap[k]);
                        }
                    }
                    assert forall|j: int| 0 <= j < n implies ((#[trigger] visited@[j]) <==> ((j
                        < idx + 1 && occ[j] == Occupant::Empty) || exists|k: int|
                        0 <= k < gs.len() && #[trigger] stones_idx(gs[k], szi).contains(j))) by {
                        if visited@[j] {
                            if visited_snap[j] {
                                if j < idx as int && occ[j] == Occupant::Empty {
                                } else {
                                    let k = choose|k: int|
                                        0 <= k < groups_snap.len() && #[trigger] stones_idx(
                                            groups_snap[k],
                                            szi,
                                        ).contains(j);
                                    assert(stones_idx(gs[k], szi).contains(j));
                                }
                            } else {
                                assert(cells@.contains(j as usize));
                                let t = choose|t: int|
                                    0 <= t < cells@.len() && cells@[t] == j as usize;
                                assert(stones_idx(g, szi)[t] == j);
                                assert(stones_idx(gs[gs.len() - 1], szi).contains(j));
                            }
                        } else {
                            assert(!visited_snap[j]);
                            assert(!cells@.contains(j as usize));
                            if exists|k: int|
                                0 <= k < gs.len() && #[trigger] stones_idx(gs[k], szi).contains(j) {
                                let k = choose|k: int|
                                    0 <= k < gs.len() && #[trigger] stones_idx(gs[k], szi).contains(
                                        j,
                                    );
                                if k < gs.len() - 1 {
                                    assert(stones_idx(groups_snap[k], szi).contains(j));
                                    assert(visited_snap[j]);
                                } else {
                                    assert(stones_idx(g, szi).contains(j));
                                    let t = choose|t: int|
                                        0 <= t < stones_idx(g, szi).len() && stones_idx(g, szi)[t]
                                            == j;
                                    assert(cells@[t] == j as usize);
                                }
                            }
                            assert(!(j < idx + 1 && occ[j] == Occupant::Empty)) by {
                                if j == idx as int {
                                    assert(occ[j] == board.spots@[j].occupant);
                                }
                            }
                        }
                    }
                }
            }
        }
        idx += 1;
    }
    proof {
        assert forall|j: int| in_grid(szi, j) && occ[j] != Occupant::Empty implies exists|k: int|
            0 <= k < groups@.len() && #[trigger] stones_idx(groups@[k], szi).contains(j) by {
            assert(visited@[j]);
        }
    }
    groups
}


/// A cell holding a stone whose chain has no liberty.
pub open spec fn dead_cell(occ: Seq<Occupant>, size: int, j: int) -> bool {
    &&& in_grid(size, j)
    &&& occ[j] != Occupant::Empty
    &&& !chain_has_liberty(occ, size, j)
}

/// A chain has a liberty exactly when some cell is a liberty of it.
pub proof fn lemma_liberty_forms(occ: Seq<Occupant>, size: int, root: int)
    ensures
        chain_has_liberty(occ, size, root) <==> exists|l: int| is_liberty_of(occ, size, root, l),
{
    if chain_has_liberty(occ, size, root) {
        let j = choose|j: int|
            #[trigger] reach(occ, size, root, j) && has_empty_neighbor(occ, size, j);
        let l = choose|l: int| adjacent(size, j, l) && occ[l] == Occupant::Empty;
        assert(is_liberty_of(occ, size, root, l));
    }
    if exists|l: int| is_liberty_of(occ, size, root, l) {
        let l = choose|l: int| is_liberty_of(occ, size, root, l);
        let s = choose|s: int| #[trigger] reach(occ, size, root, s) && adjacent(size, s, l);
        assert(has_empty_neighbor(occ, size, s));
    }
}

/// A stone of a correctly described group is dead exactly when the
/// group's liberty list is empty.
pub proof fn lemma_group_dead_iff(occ: Seq<Occupant>, size: int, g: Group, j: int)
    requires
        group_ok(occ, size, g),
        stones_idx(g, size).contains(j),
    ensures
        in_grid(size, j),
        occ[j] == g.occupant,
        (g.liberties@.len() == 0 <==> !chain_has_liberty(occ, size, j)),
{
    let root = coord_cell(size, g.stones@[0]);
    let t = choose|t: int| 0 <= t < stones_idx(g, size).len() && stones_idx(g, size)[t] == j;
    assert(stones_idx(g, size)[t] == coord_cell(size, g.stones@[t]));
    assert(reach(occ, size, root, j));
    lemma_reach_props(occ, size, root, j);
    lemma_chain_liberty_same(occ, size, root, j);
    lemma_liberty_forms(occ, size, root);
    if g.liberties@.len() == 0 {
        if chain_has_liberty(occ, size, root) {
            let l = choose|l: int| is_liberty_of(occ, size, root, l);
            assert(liberties_idx(g, size).contains(l));
            let u = choose|u: int|
                0 <= u < liberties_idx(g, size).len() && liberties_idx(g, size)[u] == l;
        }
    } else {
        assert(is_liberty_of(occ, size, root, coord_cell(size, g.liberties@[0])));
    }
}

/// A copy of a list of coordinates.
pub(crate) fn copy_coords(v: &Vec<(u8, u8)>) -> (r: Vec<(u8, u8)>)
    ensures
        r@ == v@,
{
    let mut r: Vec<(u8, u8)> = Vec::new();
    let mut k: usize = 0;
    while k < v.len()
        invariant
            k <= v@.len(),
            r@ == v@.subrange(0, k as int),
        decreases v@.len() - k,
    {
        r.push(v[k]);
        proof {
            assert(r@ =~= v@.subrange(0, k as int + 1));
        }
        k += 1;
    }
    proof {
        assert(v@.subrange(0, v@.len() as int) =~= v@);
    }
    r
}

/// Clear the listed stone coordinates: each becomes an empty spot marked
/// "removed"; every other spot is untouched.
#[verifier::loop_isolation(false)]
fn clear_stones(spots: &mut Vec<SpotState>, size: u8, stones: &Vec<(u8, u8)>)
    requires
        1 <= size,
        old(spots)@.len() == (size as int) * (size as int),
        coords_in_range(stones@, size as int),
    ensures
        final(spots)@.len() == old(spots)@.len(),
        forall|j: int|
            0 <= j < final(spots)@.len() && coord_cells(size as int, stones@).contains(j) ==> {
                &&& (#[trigger] final(spots)@[j]).occupant == Occupant::Empty
                &&& final(spots)@[j].move_number is None
                &&& final(spots)@[j].marker matches Some(m) && m@ == "removed"@
                &&& final(spots)@[j].playable == old(spots)@[j].playable
                &&& final(spots)@[j].scoring_owner == old(spots)@[j].scoring_owner
                &&& final(spots)@[j].scoring_explanation == old(spots)@[j].scoring_explanation
            },
        forall|j: int|
            0 <= j < final(spots)@.len() && !coord_cells(size as int, stones@).contains(j)
                ==> (#[trigger] final(spots)@[j]) == old(spots)@[j],
{
    let ghost szi = size as int;
    let sz = size as usize;
    let mut w: usize = 0;
    while w < stones.len()
        invariant
            w <= stones@.len(),
            spots@.len() == old(spots)@.len(),
            forall|j: int|
                0 <= j < spots@.len() && coord_cells(szi, stones@.subrange(0, w as int)).contains(
                    j,
                ) ==> {
                    &&& (#[trigger] spots@[j]).occupant == Occupant::Empty
                    &&& spots@[j].move_number is None
                    &&& spots@[j].marker matches Some(m) && m@ == "removed"@
                    &&& spots@[j].playable == old(spots)@[j].playable
                    &&& spots@[j].scoring_owner == old(spots)@[j].scoring_owner
                    &&& spots@[j].scoring_explanation == old(spots)@[j].scoring_explanation
                },
            forall|j: int|
                0 <= j < spots@.len() && !coord_cells(szi, stones@.subrange(0, w as int)).contains(
                    j,
                ) ==> (#[trigger] spots@[j]) == old(spots)@[j],
        decreases stones@.len() - w,
    {
        let rc = stones[w];
        let row = rc.0;
        let col = rc.1;
        proof {
            crate::grid::lemma_cell_at_decodes(szi, row as int, col as int);
            assert((row as int) * szi + (col as int) < 65536) by (nonlinear_arith)
                requires
                    0 <= row as int,
                    0 <= col as int,
                    row as int <= 255,
                    col as int <= 255,
                    szi <= 255,
            ;
        }
        let idx = (row as usize) * sz + (col as usize);
        proof {
            assert(coord_cell(szi, stones@[w as int]) == idx as int);
        }
        let spot = &mut spots[idx];
        spot.occupant = Occupant::Empty;
        spot.move_number = None;
        spot.marker = Some("removed".to_owned());
        proof {
            let pre = coord_cells(szi, stones@.subrange(0, w as int));
            let cur = coord_cells(szi, stones@.subrange(0, w as int + 1));
            assert(stones@.subrange(0, w as int + 1) =~= stones@.subrange(0, w as int).push(
                stones@[w as int],
            ));
            assert(cur =~= pre.push(coord_cell(szi, stones@[w as int])));
            assert(cur.contains(idx as int)) by {
                assert(cur[w as int] == coord_cell(szi, stones@[w as int]));
            }
            assert forall|x: int| #[trigger] cur.contains(x) implies (pre.contains(x) || x
                == idx as int) by {
                let t = choose|t: int| 0 <= t < cur.len() && cur[t] == x;
                if t < w as int {
                    assert(pre[t] == x);
                }
            }
            assert forall|x: int| #[trigger] pre.contains(x) implies cur.contains(x) by {
                let t = choose|t: int| 0 <= t < pre.len() && pre[t] == x;
                assert(cur[t] == x);
            }
        }
        w += 1;
    }
    proof {
        assert(stones@.subrange(0, stones@.len() as int) =~= stones@);
    }
}

/// Remove every group without liberties from the board: its stones
/// become empty spots marked "removed".  Returns the removed groups,
/// described against the board as it stood before removal.
#[verifier::loop_isolation(false)]
#[verifier::rlimit(100)]
pub fn remove_dead_stones(board: &mut Board) -> (r: Vec<Group>)
    requires
        old(board).wf(),
    ensures
        final(board).board_size == old(board).board_size,
        final(board).wf(),
        ({
            let occ0 = old(board).occ();
            let szi = old(board).size();
            &&& forall|j: int|
                0 <= j < final(board).spots@.len() && dead_cell(occ0, szi, j) ==> {
                    &&& (#[trigger] final(board).spots@[j]).occupant == Occupant::Empty
                    &&& final(board).spots@[j].move_number is None
                    &&& final(board).spots@[j].marker matches Some(m) && m@ == "removed"@
                    &&& final(board).spots@[j].playable == old(board).spots@[j].playable
                    &&& final(board).spots@[j].scoring_owner == old(board).spots@[j].scoring_owner
                    &&& final(board).spots@[j].scoring_explanation == old(
                        board,
                    ).spots@[j].scoring_explanation
                }
            &&& forall|j: int|
                0 <= j < final(board).spots@.len() && !dead_cell(occ0, szi, j)
                    ==> (#[trigger] final(board).spots@[j]) == old(board).spots@[j]
            &&& forall|k: int|
                0 <= k < r@.len() ==> group_ok(occ0, szi, #[trigger] r@[k]) && r@[k].liberties@.len()
                    == 0
            &&& forall|k1: int, k2: int, j: int|
                #![trigger stones_idx(r@[k1], szi).contains(j), stones_idx(r@[k2], szi).contains(j)]
                0 <= k1 < k2 < r@.len() && stones_idx(r@[k1], szi).contains(j) ==> !stones_idx(
                    r@[k2],
                    szi,
                ).contains(j)
            &&& forall|j: int|
                dead_cell(occ0, szi, j) ==> exists|k: int|
                    0 <= k < r@.len() && #[trigger] stones_idx(r@[k], szi).contains(j)
        }),
{
    let ghost occ0 = board.occ();
    let ghost szi = board.size();
    proof {
        assert(szi * szi <= 65025) by (nonlinear_arith)
            requires
                0 <= szi <= 255,
        ;
    }
    let groups = find_groups(board);
    let mut removed: Vec<Group> = Vec::new();
    let ghost mut picked: Seq<int> = Seq::empty();
    let mut k: usize = 0;
    while k < groups.len()
        invariant
            k <= groups@.len(),
            board.board_size == old(board).board_size,
            board.spots@.len() == old(board).spots@.len(),
            picked.len() == removed@.len(),
            forall|m: int| 0 <= m < picked.len() ==> 0 <= #[trigger] picked[m] < k,
            forall|m1: int, m2: int| 0 <= m1 < m2 < picked.len() ==> picked[m1] < picked[m2],
            forall|m: int|
                0 <= m < removed@.len() ==> {
                    &&& (#[trigger] removed@[m]).stones@ == groups@[picked[m]].stones@
                    &&& removed@[m].liberties@ == groups@[picked[m]].liberties@
                    &&& removed@[m].occupant == groups@[picked[m]].occupant
                    &&& groups@[picked[m]].liberties@.len() == 0
                },
            forall|k2: int|
                0 <= k2 < k && (#[trigger] groups@[k2]).liberties@.len() == 0 ==> exists|m: int|
                    0 <= m < picked.len() && #[trigger] picked[m] == k2,
            forall|j: int|
                0 <= j < board.spots@.len() && (exists|k2: int|
                    0 <= k2 < k && (#[trigger] groups@[k2]).liberties@.len() == 0 && stones_idx(
                        groups@[k2],
                        szi,
                    ).contains(j)) ==> {
                    &&& (#[trigger] board.spots@[j]).occupant == Occupant::Empty
                    &&& board.spots@[j].move_number is None
                    &&& board.spots@[j].marker matches Some(m) && m@ == "removed"@
                    &&& board.spots@[j].playable == old(board).spots@[j].playable
                    &&& board.spots@[j].scoring_owner == old(board).spots@[j].scoring_owner
                    &&& board.spots@[j].scoring_explanation == old(
                        board,
                    ).spots@[j].scoring_explanation
                },
            forall|j: int|
                0 <= j < board.spots@.len() && !(exists|k2: int|
                    0 <= k2 < k && (#[trigger] groups@[k2]).liberties@.len() == 0 && stones_idx(
                        groups@[k2],
                        szi,
                    ).contains(j)) ==> (#[trigger] board.spots@[j]) == old(board).spots@[j],
        decreases groups@.len() - k,
    {
        if groups[k].liberties.len() == 0 {
            let stones_copy = copy_coords(&groups[k].stones);
            let libs_copy = copy_coords(&groups[k].liberties);
            let ghost board_snap = board.spots@;
            let ghost g = groups@[k as int];
            clear_stones(&mut board.spots, board.board_size, &stones_copy);
            let g2 = Group { occupant: groups[k].occupant, stones: stones_copy, liberties: libs_copy };
            let ghost removed_snap = removed@;
            let ghost picked_snap = picked;
            removed.push(g2);
            proof {
                picked = picked.push(k as int);
                assert(removed@[removed@.len() - 1] == g2);
                assert forall|m: int| 0 <= m < removed@.len() implies {
                    &&& (#[trigger] removed@[m]).stones@ == groups@[picked[m]].stones@
                    &&& removed@[m].liberties@ == groups@[picked[m]].liberties@
                    &&& removed@[m].occupant == groups@[picked[m]].occupant
                    &&& groups@[picked[m]].liberties@.len() == 0
                } by {
                    if m < removed@.len() - 1 {
                        assert(removed@[m] == removed_snap[m]);
                        assert(picked[m] == picked_snap[m]);
                    } else {
                        assert(picked[m] == k as int);
                    }
                }
                assert forall|k2: int|
                    0 <= k2 < k + 1 && (#[trigger] groups@[k2]).liberties@.len() == 0
                    implies exists|m: int| 0 <= m < picked.len() && #[trigger] picked[m] == k2 by {
                    if k2 < k as int {
                        let m = choose|m: int|
                            0 <= m < picked_snap.len() && #[trigger] picked_snap[m] == k2;
                        assert(picked[m] == k2);
                    } else {
                        assert(picked[picked.len() - 1] == k2);
                    }
                }
                // the cleared cells of this group extend the cleared region;
                // the group is disjoint from every earlier dead group, so the
                // snapshot still shows the original spots there
                assert forall|j: int|
                    0 <= j < board.spots@.len() && (exists|k2: int|
                        0 <= k2 < k + 1 && (#[trigger] groups@[k2]).liberties@.len() == 0
                            && stones_idx(groups@[k2], szi).contains(j)) implies {
                        &&& (#[trigger] board.spots@[j]).occupant == Occupant::Empty
                        &&& board.spots@[j].move_number is None
                        &&& board.spots@[j].marker matches Some(m) && m@ == "removed"@
                        &&& board.spots@[j].playable == old(board).spots@[j].playable
                        &&& board.spots@[j].scoring_owner == old(board).spots@[j].scoring_owner
                        &&& board.spots@[j].scoring_explanation == old(
                            board,
                        ).spots@[j].scoring_explanation
                    } by {
                    let k2 = choose|k2: int|
                        0 <= k2 < k + 1 && (#[trigger] groups@[k2]).liberties@.len() == 0
                            && stones_idx(groups@[k2], szi).contains(j);
                    if k2 == k as int {
                        assert(coord_cells(szi, g.stones@).contains(j));
                        assert(!(exists|k3: int|
                            0 <= k3 < k && (#[trigger] groups@[k3]).liberties@.len() == 0
                                && stones_idx(groups@[k3], szi).contains(j))) by {
                            if exists|k3: int|
                                0 <= k3 < k && (#[trigger] groups@[k3]).liberties@.len() == 0
                                    && stones_idx(groups@[k3], szi).contains(j) {
                                let k3 = choose|k3: int|
                                    0 <= k3 < k && (#[trigger] groups@[k3]).liberties@.len() == 0
                                        && stones_idx(groups@[k3], szi).contains(j);
                                assert(stones_idx(groups@[k3], szi).contains(j));
                                assert(stones_idx(groups@[k as int], szi).contains(j));
                            }
                        }
                        assert(board_snap[j] == old(board).spots@[j]);
                    } else {
                        assert(!coord_cells(szi, g.stones@).contains(j)) by {
                            if coord_cells(szi, g.stones@).contains(j) {
                                assert(stones_idx(groups@[k as int], szi).contains(j));
                                assert(stones_idx(groups@[k2], szi).contains(j));
                            }
                        }
                        assert(board.spots@[j] == board_snap[j]);
                    }
                }
                assert forall|j: int|
                    0 <= j < board.spots@.len() && !(exists|k2: int|
                        0 <= k2 < k + 1 && (#[trigger] groups@[k2]).liberties@.len() == 0
                            && stones_idx(groups@[k2], szi).contains(j))
                    implies (#[trigger] board.spots@[j]) == old(board).spots@[j] by {
                    assert(!stones_idx(groups@[k as int], szi).contains(j));
                    assert(!coord_cells(szi, g.stones@).contains(j));
                    assert(board.spots@[j] == board_snap[j]);
                    assert(!(exists|k2: int|
                        0 <= k2 < k && (#[trigger] groups@[k2]).liberties@.len() == 0
                            && stones_idx(groups@[k2], szi).contains(j)));
                }
            }
        } else {
            proof {
                assert forall|k2: int|
                    0 <= k2 < k + 1 && (#[trigger] groups@[k2]).liberties@.len() == 0
                    implies exists|m: int| 0 <= m < picked.len() && #[trigger] picked[m] == k2 by {
                    assert(k2 < k as int);
                }
            }
        }
        k += 1;
    }
    proof {
        // every group was scanned, so the cleared cells are exactly the dead ones
        assert forall|j: int|
            0 <= j < board.spots@.len() && dead_cell(occ0, szi, j) implies (exists|k2: int|
                0 <= k2 < groups@.len() && (#[trigger] groups@[k2]).liberties@.len() == 0
                    && stones_idx(groups@[k2], szi).contains(j)) by {
            let k2 = choose|k2: int|
                0 <= k2 < groups@.len() && #[trigger] stones_idx(groups@[k2], szi).contains(j);
            lemma_group_dead_iff(occ0, szi, groups@[k2], j);
        }
        assert forall|j: int|
            0 <= j < board.spots@.len() && !dead_cell(occ0, szi, j) implies !(exists|k2: int|
                0 <= k2 < groups@.len() && (#[trigger] groups@[k2]).liberties@.len() == 0
                    && stones_idx(groups@[k2], szi).contains(j)) by {
            if exists|k2: int|
                0 <= k2 < groups@.len() && (#[trigger] groups@[k2]).liberties@.len() == 0
                    && stones_idx(groups@[k2], szi).contains(j) {
                let k2 = choose|k2: int|
                    0 <= k2 < groups@.len() && (#[trigger] groups@[k2]).liberties@.len() == 0
                        && stones_idx(groups@[k2], szi).contains(j);
                lemma_group_dead_iff(occ0, szi, groups@[k2], j);
            }
        }
        // the returned groups are well-formed, dead, and pairwise disjoint
        assert forall|m: int| 0 <= m < removed@.len() implies group_ok(
            occ0,
            szi,
            #[trigger] removed@[m],
        ) && removed@[m].liberties@.len() == 0 by {
            let gk = groups@[picked[m]];
            assert(group_ok(occ0, szi, gk));
            assert(stones_idx(removed@[m], szi) =~= stones_idx(gk, szi));
            assert(liberties_idx(removed@[m], szi) =~= liberties_idx(gk, szi));
            assert(removed@[m].stones@[0] == gk.stones@[0]);
        }
        assert forall|m1: int, m2: int, j: int|
            #![trigger stones_idx(removed@[m1], szi).contains(j), stones_idx(removed@[m2], szi).contains(j)]
            0 <= m1 < m2 < removed@.len() && stones_idx(removed@[m1], szi).contains(j)
            implies !stones_idx(removed@[m2], szi).contains(j) by {
            assert(stones_idx(removed@[m1], szi) =~= stones_idx(groups@[picked[m1]], szi));
            assert(stones_idx(removed@[m2], szi) =~= stones_idx(groups@[picked[m2]], szi));
        }
        assert forall|j: int| dead_cell(occ0, szi, j) implies exists|m: int|
            0 <= m < removed@.len() && #[trigger] stones_idx(removed@[m], szi).contains(j) by {
            let k2 = choose|k2: int|
                0 <= k2 < groups@.len() && #[trigger] stones_idx(groups@[k2], szi).contains(j);
            lemma_group_dead_iff(occ0, szi, groups@[k2], j);
            let m = choose|m: int| 0 <= m < picked.len() && #[trigger] picked[m] == k2;
            assert(stones_idx(removed@[m], szi) =~= stones_idx(groups@[k2], szi));
        }
    }
    removed
}

} // verus!
