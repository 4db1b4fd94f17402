//! Territory analysis: flood fill of empty regions, border-color
//! classification, and the count of territory points per side.

use vstd::prelude::*;
use crate::board::{occupancy, Board, Occupant, SpotState};
use crate::connectivity::{lemma_reach_props, lemma_reach_symm, lemma_reach_trans, reach};
use crate::counting::{count_matching, lemma_partition_count, lemma_sum_lens_bound, sum_lens};
use crate::flood::{collect_chain, neighbor_cells, set_cell};
use crate::grid::{adjacent, cell_count, in_grid, lemma_decode_cell, on_edge};
use crate::groups::{cells_to_coords, coord_cell, coord_cells, coords_in_range};
use crate::moves::opposite_color;

verus! {

/// A maximal connected set of empty spots, together with the colors of
/// the stones that border it and whether it touches the board edge.
#[derive(Clone, Debug)]
pub struct EmptyRegion {
    pub spots: Vec<(u8, u8)>,
    pub border: Vec<Occupant>,
    pub touches_edge: bool,
}

/// The cell indices of a region's spots.
pub open spec fn region_spots_idx(r: EmptyRegion, size: int) -> Seq<int> {
    coord_cells(size, r.spots@)
}

/// The chain of `root` is bordered by a stone of color `c`.
pub open spec fn borders_color(occ: Seq<Occupant>, size: int, root: int, c: Occupant) -> bool {
    &&& c != Occupant::Empty
    &&& exists|s: int, b: int|
        #[trigger] reach(occ, size, root, s) && #[trigger] adjacent(size, s, b) && occ[b] == c
}

/// The chain of `root` contains a cell on the board edge.
pub open spec fn region_touches(occ: Seq<Occupant>, size: int, root: int) -> bool {
    exists|e: int| #[trigger] reach(occ, size, root, e) && on_edge(size, e)
}

/// What it means for an `EmptyRegion` value to correctly describe one
/// empty region of the board: its spots are exactly one maximal
/// connected set of empty cells, its border lists exactly the colors of
/// the stones adjacent to that set, and its edge flag says whether the
/// set meets the board edge.
#[verifier::opaque]
pub open spec fn region_ok(occ: Seq<Occupant>, size: int, r: EmptyRegion) -> bool {
    let root = coord_cell(size, r.spots@[0]);
    &&& r.spots@.len() >= 1
    &&& coords_in_range(r.spots@, size)
    &&& region_spots_idx(r, size).no_duplicates()
    &&& occ[root] == Occupant::Empty
    &&& forall|k: int|
        0 <= k < r.spots@.len() ==> reach(occ, size, root, coord_cell(size, #[trigger] r.spots@[k]))
    &&& forall|j: int| #[trigger] reach(occ, size, root, j) ==> region_spots_idx(r, size).contains(j)
    &&& (r.touches_edge <==> region_touches(occ, size, root))
    &&& r.border@.no_duplicates()
    &&& !r.border@.contains(Occupant::Empty)
    &&& (r.border@.contains(Occupant::Black) <==> borders_color(occ, size, root, Occupant::Black))
    &&& (r.border@.contains(Occupant::White) <==> borders_color(occ, size, root, Occupant::White))
}

/// What it means for a list of regions to describe the whole board:
/// every region is correct, every empty cell belongs to some region, and
/// no cell belongs to two regions.
pub open spec fn regions_partition(occ: Seq<Occupant>, size: int, rs: Seq<EmptyRegion>) -> bool {
    &&& forall|k: int| 0 <= k < rs.len() ==> region_ok(occ, size, #[trigger] rs[k])
    &&& forall|j: int|
        in_grid(size, j) && occ[j] == Occupant::Empty ==> exists|k: int|
            0 <= k < rs.len() && #[trigger] region_spots_idx(rs[k], size).contains(j)
    &&& forall|k1: int, k2: int, j: int|
        #![trigger region_spots_idx(rs[k1], size).contains(j), region_spots_idx(rs[k2], size).contains(j)]
        0 <= k1 < k2 < rs.len() && region_spots_idx(rs[k1], size).contains(j) ==> !region_spots_idx(
            rs[k2],
            size,
        ).contains(j)
}

/// Whether the empty cell `j` counts as territory for color `c`: its
/// region does not touch the board edge and is bordered by stones of
/// color `c` alone.
#[verifier::opaque]
pub open spec fn is_territory_for(occ: Seq<Occupant>, size: int, j: int, c: Occupant) -> bool {
    &&& in_grid(size, j)
    &&& occ[j] == Occupant::Empty
    &&& c != Occupant::Empty
    &&& !region_touches(occ, size, j)
    &&& borders_color(occ, size, j, c)
    &&& forall|c2: Occupant| #[trigger] borders_color(occ, size, j, c2) ==> c2 == c
}

/// Whether any cell of the list lies on the board edge.
#[verifier::loop_isolation(false)]
fn cells_touch_edge(size: usize, cells: &Vec<usize>) -> (r: bool)
    requires
        1 <= size <= 255,
        forall|k: int| 0 <= k < cells@.len() ==> (#[trigger] cells@[k]) < size * size,
    ensures
        r == exists|k: int| 0 <= k < cells@.len() && on_edge(size as int, (#[trigger] cells@[k]) as int),
{
    let ghost szi = size as int;
    let mut k: usize = 0;
    while k < cells.len()
        invariant
            k <= cells@.len(),
            forall|t: int| 0 <= t < k ==> !on_edge(szi, (#[trigger] cells@[t]) as int),
        decreases cells@.len() - k,
    {
        let c = cells[k];
        proof {
            lemma_decode_cell(szi, c as int);
        }
        let row = c / size;
        let col = c % size;
        if row == 0 || row == size - 1 || col == 0 || col == size - 1 {
            assert(on_edge(szi, c as int));
            return true;
        }
        k += 1;
    }
    false
}

/// Which stone colors appear orthogonally adjacent to the listed cells:
/// returns (black present, white present).
#[verifier::loop_isolation(false)]
fn border_flags(spots: &Vec<SpotState>, size: usize, cells: &Vec<usize>) -> (r: (bool, bool))
    requires
        1 <= size <= 255,
        spots@.len() == size * size,
        forall|k: int| 0 <= k < cells@.len() ==> (#[trigger] cells@[k]) < size * size,
    ensures
        r.0 == exists|c: int, j: int|
            0 <= c < cells@.len() && #[trigger] adjacent(size as int, cells@[c] as int, j)
                && occupancy(spots@)[j] == Occupant::Black,
        r.1 == exists|c: int, j: int|
            0 <= c < cells@.len() && #[trigger] adjacent(size as int, cells@[c] as int, j)
                && occupancy(spots@)[j] == Occupant::White,
{
    let ghost occ = occupancy(spots@);
    let ghost szi = size as int;
    proof {
        assert(szi * szi <= 65025) by (nonlinear_arith)
            requires
                0 <= szi <= 255,
        ;
    }
    let mut has_black = false;
    let mut has_white = false;
    let mut k: usize = 0;
    while k < cells.len()
        invariant
            k <= cells@.len(),
            has_black == exists|c: int, j: int|
                0 <= c < k && #[trigger] adjacent(szi, cells@[c] as int, j) && occ[j]
                    == Occupant::Black,
            has_white == exists|c: int, j: int|
                0 <= c < k && #[trigger] adjacent(szi, cells@[c] as int, j) && occ[j]
                    == Occupant::White,
        decreases cells@.len() - k,
    {
        let cell = cells[k];
        let nbrs = neighbor_cells(size, cell);
        let mut m: usize = 0;
        while m < nbrs.len()
            invariant
                m <= nbrs@.len(),
                has_black == ((exists|c: int, j: int|
                    0 <= c < k && #[trigger] adjacent(szi, cells@[c] as int, j) && occ[j]
                        == Occupant::Black) || (exists|t: int|
                    0 <= t < m && occ[(#[trigger] nbrs@[t]) as int] == Occupant::Black)),
                has_white == ((exists|c: int, j: int|
                    0 <= c < k && #[trigger] adjacent(szi, cells@[c] as int, j) && occ[j]
                        == Occupant::White) || (exists|t: int|
                    0 <= t < m && occ[(#[trigger] nbrs@[t]) as int] == Occupant::White)),
            decreases nbrs@.len() - m,
        {
            let j = nbrs[m];
            match spots[j].occupant {
                Occupant::Black => {
                    has_black = true;
                    proof {
                        assert(occ[nbrs@[m as int] as int] == Occupant::Black);
                    }
                },
                Occupant::White => {
                    has_white = true;
                    proof {
                        assert(occ[nbrs@[m as int] as int] == Occupant::White);
                    }
                },
                Occupant::Empty => {
                    proof {
                        assert(occ[nbrs@[m as int] as int] == Occupant::Empty);
                    }
                },
            }
            m += 1;
        }
        proof {
            assert forall|jj: int|
                #[trigger] adjacent(szi, cell as int, jj) implies nbrs@.contains(jj as usize) by {}
            assert forall|c: int, j: int|
                0 <= c < k + 1 && #[trigger] adjacent(szi, cells@[c] as int, j) && occ[j]
                    == Occupant::Black implies has_black by {
                if c == k {
                    assert(cells@[k as int] == cell);
                    assert(adjacent(szi, cell as int, j));
                    assert(nbrs@.contains(j as usize));
                    let t = choose|t: int| 0 <= t < nbrs@.len() && nbrs@[t] == j as usize;
                    assert(in_grid(szi, j));
                    assert(nbrs@[t] as int == j);
                    assert(occ[nbrs@[t] as int] == Occupant::Black);
                    assert(exists|t2: int|
                        0 <= t2 < nbrs@.len() && occ[(#[trigger] nbrs@[t2]) as int]
                            == Occupant::Black);
                }
            }
            assert forall|c: int, j: int|
                0 <= c < k + 1 && #[trigger] adjacent(szi, cells@[c] as int, j) && occ[j]
                    == Occupant::White implies has_white by {
                if c == k {
                    assert(cells@[k as int] == cell);
                    assert(adjacent(szi, cell as int, j));
                    assert(nbrs@.contains(j as usize));
                    let t = choose|t: int| 0 <= t < nbrs@.len() && nbrs@[t] == j as usize;
                    assert(in_grid(szi, j));
                    assert(nbrs@[t] as int == j);
                    assert(occ[nbrs@[t] as int] == Occupant::White);
                    assert(exists|t2: int|
                        0 <= t2 < nbrs@.len() && occ[(#[trigger] nbrs@[t2]) as int]
                            == Occupant::White);
                }
            }
            if has_black && !(exists|c: int, j: int|
                0 <= c < k + 1 && #[trigger] adjacent(szi, cells@[c] as int, j) && occ[j]
                    == Occupant::Black) {
                if exists|t: int|
                    0 <= t < nbrs@.len() && occ[(#[trigger] nbrs@[t]) as int] == Occupant::Black {
                    let t = choose|t: int|
                        0 <= t < nbrs@.len() && occ[(#[trigger] nbrs@[t]) as int]
                            == Occupant::Black;
                    assert(adjacent(szi, cells@[k as int] as int, nbrs@[t] as int));
                }
            }
            if has_white && !(exists|c: int, j: int|
                0 <= c < k + 1 && #[trigger] adjacent(szi, cells@[c] as int, j) && occ[j]
                    == Occupant::White) {
                if exists|t: int|
                    0 <= t < nbrs@.len() && occ[(#[trigger] nbrs@[t]) as int] == Occupant::White {
                    let t = choose|t: int|
                        0 <= t < nbrs@.len() && occ[(#[trigger] nbrs@[t]) as int]
                            == Occupant::White;
                    assert(adjacent(szi, cells@[k as int] as int, nbrs@[t] as int));
                }
            }
        }
        k += 1;
    }
    (has_black, has_white)
}

/// Find the contiguous empty regions of the board by flood fill: every
/// maximal connected set of empty spots, each with its border colors and
/// edge flag.  Every empty spot belongs to exactly one region.
#[verifier::loop_isolation(false)]
#[verifier::rlimit(40)]
pub fn find_empty_regions(board: &Board) -> (r: Vec<EmptyRegion>)
    requires
        board.wf(),
    ensures
        regions_partition(board.occ(), board.size(), r@),
{
    let ghost occ = board.occ();
    let ghost szi = board.size();
    let size = board.board_size as usize;
    proof {
        assert(szi * szi <= 65025) by (nonlinear_arith)
            requires
                0 <= szi <= 255,
        ;
    }
    let n = board.spots.len();
    let mut regions: Vec<EmptyRegion> = Vec::new();
    let mut visited: Vec<bool> = Vec::new();
    let mut v: usize = 0;
    while v < n
        invariant
            v <= n,
            visited@.len() == v,
            forall|t: int| 0 <= t < v ==> !(#[trigger] visited@[t]),
        decreases n - v,
    {
        visited.push(false);
        v += 1;
    }
    let mut idx: usize = 0;
    while idx < n
        invariant
            idx <= n,
            visited@.len() == n,
            forall|t: int| 0 <= t < idx ==> #[trigger] visited@[t],
            forall|k: int| 0 <= k < regions@.len() ==> region_ok(occ, szi, #[trigger] regions@[k]),
            forall|k1: int, k2: int, j: int|
                #![trigger region_spots_idx(regions@[k1], szi).contains(j), region_spots_idx(regions@[k2], szi).contains(j)]
                0 <= k1 < k2 < regions@.len() && region_spots_idx(regions@[k1], szi).contains(j)
                    ==> !region_spots_idx(regions@[k2], szi).contains(j),
            forall|j: int|
                0 <= j < n ==> ((#[trigger] visited@[j]) <==> ((j < idx && occ[j]
                    != Occupant::Empty) || exists|k: int|
                    0 <= k < regions@.len() && #[trigger] region_spots_idx(
                        regions@[k],
                        szi,
                    ).contains(j))),
            forall|j: int| idx <= j < n && #[trigger] visited@[j] ==> occ[j] == Occupant::Empty,
        decreases n - idx,
    {
        if !visited[idx] {
            if !(board.spots[idx].occupant == Occupant::Empty) {
                set_cell(&mut visited, idx, true);
                proof {
                    assert(occ[idx as int] == board.spots@[idx as int].occupant);
                }
            } else {
                let cells = collect_chain(&board.spots, size, idx);
                let coords = cells_to_coords(size, &cells);
                let touches = cells_touch_edge(size, &cells);
                let flags = border_flags(&board.spots, size, &cells);
                let mut border: Vec<Occupant> = Vec::new();
                if flags.0 {
                    border.push(Occupant::Black);
                }
                if flags.1 {
                    border.push(Occupant::White);
                }
                let reg = EmptyRegion { spots: coords, border, touches_edge: touches };
                proof {
                    reveal(region_ok);
                    let root = coord_cell(szi, reg.spots@[0]);
                    assert(cells@[0] == idx);
                    assert(root == idx as int);
                    assert(occ[idx as int] == board.spots@[idx as int].occupant);
                    assert(region_spots_idx(reg, szi) =~= cells@.map_values(|x: usize| x as int));
                    assert forall|j: int| #[trigger] reach(occ, szi, root, j)
                        implies region_spots_idx(reg, szi).contains(j) by {
                        assert(cells@.contains(j as usize));
                        let k = choose|k: int| 0 <= k < cells@.len() && cells@[k] == j as usize;
                        lemma_reach_props(occ, szi, root, j);
                        assert(region_spots_idx(reg, szi)[k] == j);
                    }
                    assert forall|k: int| 0 <= k < reg.spots@.len() implies reach(
                        occ,
                        szi,
                        root,
                        coord_cell(szi, #[trigger] reg.spots@[k]),
                    ) by {
                        assert(coord_cell(szi, reg.spots@[k]) == cells@[k] as int);
                    }
                    assert(region_spots_idx(reg, szi).no_duplicates()) by {
                        assert forall|a: int, b: int|
                            0 <= a < b < region_spots_idx(reg, szi).len()
                            implies region_spots_idx(reg, szi)[a] != region_spots_idx(
                            reg,
                            szi,
                        )[b] by {
                            assert(region_spots_idx(reg, szi)[a] == cells@[a] as int);
                            assert(region_spots_idx(reg, szi)[b] == cells@[b] as int);
                            assert(cells@[a] != cells@[b]);
                        }
                    }
                    // the edge flag matches the spec form
                    assert(reg.touches_edge <==> region_touches(occ, szi, root)) by {
                        if touches {
                            let k = choose|k: int|
                                0 <= k < cells@.len() && on_edge(szi, (#[trigger] cells@[k]) as int);
                            assert(reach(occ, szi, root, cells@[k] as int));
                        }
                        if region_touches(occ, szi, root) {
                            let e = choose|e: int|
                                #[trigger] reach(occ, szi, root, e) && on_edge(szi, e);
                            assert(cells@.contains(e as usize));
                            let k = choose|k: int| 0 <= k < cells@.len() && cells@[k] == e as usize;
                            assert(on_edge(szi, cells@[k] as int));
                        }
                    }
                    // the border flags match the spec form
                    assert(flags.0 <==> borders_color(occ, szi, root, Occupant::Black)) by {
                        if flags.0 {
                            let (c, j) = choose|c: int, j: int|
                                0 <= c < cells@.len() && #[trigger] adjacent(
                                    szi,
                                    cells@[c] as int,
                                    j,
                                ) && occ[j] == Occupant::Black;
                            assert(reach(occ, szi, root, cells@[c] as int) && adjacent(
                                szi,
                                cells@[c] as int,
                                j,
                            ) && occ[j] == Occupant::Black);
                        }
                        if borders_color(occ, szi, root, Occupant::Black) {
                            let (s, b) = choose|s: int, b: int|
                                #[trigger] reach(occ, szi, root, s) && #[trigger] adjacent(
                                    szi,
                                    s,
                                    b,
                                ) && occ[b] == Occupant::Black;
                            assert(cells@.contains(s as usize));
                            let c = choose|c: int| 0 <= c < cells@.len() && cells@[c] == s as usize;
                            assert(adjacent(szi, cells@[c] as int, b));
                        }
                    }
                    assert(flags.1 <==> borders_color(occ, szi, root, Occupant::White)) by {
                        if flags.1 {
                            let (c, j) = choose|c: int, j: int|
                                0 <= c < cells@.len() && #[trigger] adjacent(
                                    szi,
                                    cells@[c] as int,
                                    j,
                                ) && occ[j] == Occupant::White;
                            assert(reach(occ, szi, root, cells@[c] as int) && adjacent(
                                szi,
                                cells@[c] as int,
                                j,
                            ) && occ[j] == Occupant::White);
                        }
                        if borders_color(occ, szi, root, Occupant::White) {
                            let (s, b) = choose|s: int, b: int|
                                #[trigger] reach(occ, szi, root, s) && #[trigger] adjacent(
                                    szi,
                                    s,
                                    b,
                                ) && occ[b] == Occupant::White;
                            assert(cells@.contains(s as usize));
                            let c = choose|c: int| 0 <= c < cells@.len() && cells@[c] == s as usize;
                            assert(adjacent(szi, cells@[c] as int, b));
                        }
                    }
                    // the border list holds black first, then white
                    assert(reg.border@.contains(Occupant::Black) <==> flags.0) by {
                        if flags.0 {
                            assert(reg.border@[0] == Occupant::Black);
                        }
                        if reg.border@.contains(Occupant::Black) && !flags.0 {
                            let t = choose|t: int|
                                0 <= t < reg.border@.len() && reg.border@[t] == Occupant::Black;
                        }
                    }
                    assert(reg.border@.contains(Occupant::White) <==> flags.1) by {
                        if flags.1 {
                            let pos = if flags.0 { 1int } else { 0int };
                            assert(reg.border@[pos] == Occupant::White);
                        }
                        if reg.border@.contains(Occupant::White) && !flags.1 {
                            let t = choose|t: int|
                                0 <= t < reg.border@.len() && reg.border@[t] == Occupant::White;
                        }
                    }
                    assert(!reg.border@.contains(Occupant::Empty)) by {
                        if reg.border@.contains(Occupant::Empty) {
                            let t = choose|t: int|
                                0 <= t < reg.border@.len() && reg.border@[t] == Occupant::Empty;
                        }
                    }
                    assert(reg.border@.no_duplicates());
                    assert(region_ok(occ, szi, reg));
                    // the new region is disjoint from every earlier one
                    assert forall|k1: int, j: int|
                        0 <= k1 < regions@.len() && #[trigger] region_spots_idx(
                            regions@[k1],
                            szi,
                        ).contains(j) implies !region_spots_idx(reg, szi).contains(j) by {
                        if region_spots_idx(reg, szi).contains(j) {
                            assert(reach(occ, szi, idx as int, j)) by {
                                let k = choose|k: int|
                                    0 <= k < region_spots_idx(reg, szi).len() && region_spots_idx(
                                        reg,
                                        szi,
                                    )[k] == j;
                                assert(coord_cell(szi, reg.spots@[k]) == cells@[k] as int);
                            }
                            let old_r = regions@[k1];
                            let old_root = coord_cell(szi, old_r.spots@[0]);
                            assert(reach(occ, szi, old_root, j)) by {
                                let k = choose|k: int|
                                    0 <= k < region_spots_idx(old_r, szi).len()
                                        && region_spots_idx(old_r, szi)[k] == j;
                                assert(reach(
                                    occ,
                                    szi,
                                    old_root,
                                    coord_cell(szi, old_r.spots@[k]),
                                ));
                            }
                            crate::connectivity::lemma_reach_join(occ, szi, old_root, idx as int, j);
                            assert(region_spots_idx(old_r, szi).contains(idx as int));
                            assert(visited@[idx as int]);
                        }
                    }
                }
                let ghost regions_snap = regions@;
                let ghost visited_snap = visited@;
                regions.push(reg);
                let mut w: usize = 0;
                while w < cells.len()
                    invariant
                        w <= cells@.len(),
                        visited@.len() == n,
                        regions@ == regions_snap.push(reg),
                        forall|j: int|
                            0 <= j < n ==> ((#[trigger] visited@[j]) <==> (visited_snap[j]
                                || cells@.subrange(0, w as int).contains(j as usize))),
                    decreases cells@.len() - w,
                {
                    let c = cells[w];
                    set_cell(&mut visited, c, true);
                    proof {
                        let pre = cells@.subrange(0, w as int);
                        let cur = cells@.subrange(0, w as int + 1);
                        assert(cur =~= pre.push(cells@[w as int]));
                        assert(cur.contains(cells@[w as int])) by {
                            assert(cur[w as int] == cells@[w as int]);
                        }
                        assert forall|x: usize| #[trigger] cur.contains(x) implies (pre.contains(x)
                            || x == cells@[w as int]) by {
                            let t = choose|t: int| 0 <= t < cur.len() && cur[t] == x;
                            if t < w as int {
                                assert(pre[t] == x);
                            }
                        }
                        assert forall|x: usize| #[trigger] pre.contains(x) implies cur.contains(
                            x,
                        ) by {
                            let t = choose|t: int| 0 <= t < pre.len() && pre[t] == x;
                            assert(cur[t] == x);
                        }
                    }
                    w += 1;
                }
                proof {
                    assert(cells@.subrange(0, cells@.len() as int) =~= cells@);
                    let rs = regions@;
                    assert(rs[rs.len() - 1] == reg);
                    assert forall|k: int| 0 <= k < rs.len() implies region_ok(
                        occ,
                        szi,
                        #[trigger] rs[k],
                    ) by {
                        if k < rs.len() - 1 {
                            assert(rs[k] == regions_snap[k]);
                        }
                    }
                    assert forall|j: int| 0 <= j < n implies ((#[trigger] visited@[j]) <==> ((j
                        < idx + 1 && occ[j] != Occupant::Empty) || exists|k: int|
                        0 <= k < rs.len() && #[trigger] region_spots_idx(rs[k], szi).contains(
                            j,
                        ))) by {
                        if visited@[j] {
                            if visited_snap[j] {
                                if j < idx as int && occ[j] != Occupant::Empty {
                                } else {
                                    let k = choose|k: int|
                                        0 <= k < regions_snap.len() && #[trigger] region_spots_idx(
                                            regions_snap[k],
                                            szi,
                                        ).contains(j);
                                    assert(region_spots_idx(rs[k], szi).contains(j));
                                }
                            } else {
                                assert(cells@.contains(j as usize));
                                let t = choose|t: int|
                                    0 <= t < cells@.len() && cells@[t] == j as usize;
                                assert(region_spots_idx(reg, szi)[t] == j);
                                assert(region_spots_idx(rs[rs.len() - 1], szi).contains(j));
                            }
                        } else {
                            assert(!visited_snap[j]);
                            assert(!cells@.contains(j as usize));
                            if exists|k: int|
                                0 <= k < rs.len() && #[trigger] region_spots_idx(
                                    rs[k],
                                    szi,
                                ).contains(j) {
                                let k = choose|k: int|
                                    0 <= k < rs.len() && #[trigger] region_spots_idx(
                                        rs[k],
                                        szi,
                                    ).contains(j);
                                if k < rs.len() - 1 {
                                    assert(region_spots_idx(regions_snap[k], szi).contains(j));
                                    assert(visited_snap[j]);
                                } else {
                                    assert(region_spots_idx(reg, szi).contains(j));
                                    let t = choose|t: int|
                                        0 <= t < region_spots_idx(reg, szi).len()
                                            && region_spots_idx(reg, szi)[t] == j;
                                    assert(cells@[t] == j as usize);
                                }
                            }
                            assert(!(j < idx + 1 && occ[j] != Occupant::Empty)) by {
                                if j == idx as int {
                                    assert(occ[j] == board.spots@[j].occupant);
                                }
                            }
                        }
                    }
                }
            }
        }
        idx += 1;
    }
    proof {
        assert forall|j: int| in_grid(szi, j) && occ[j] == Occupant::Empty implies exists|k: int|
            0 <= k < regions@.len() && #[trigger] region_spots_idx(regions@[k], szi).contains(
                j,
            ) by {
            assert(visited@[j]);
        }
    }
    regions
}


/// How many of the first `n` cells count as territory for color `c`.
pub open spec fn territory_points(occ: Seq<Occupant>, size: int, c: Occupant, n: int) -> int
    decreases n,
{
    if n <= 0 {
        0
    } else {
        territory_points(occ, size, c, n - 1) + if is_territory_for(occ, size, n - 1, c) {
            1int
        } else {
            0int
        }
    }
}

/// `territory_points` agrees with `count_matching` for any predicate that
/// matches territory cell by cell.
proof fn lemma_territory_points_is_count(
    occ: Seq<Occupant>,
    size: int,
    c: Occupant,
    n: int,
    pred: spec_fn(int) -> bool,
)
    requires
        n >= 0,
        forall|j: int| #[trigger] pred(j) == is_territory_for(occ, size, j, c),
    ensures
        territory_points(occ, size, c, n) == count_matching(pred, n),
    decreases n,
{
    if n > 0 {
        lemma_territory_points_is_count(occ, size, c, n - 1, pred);
    }
}

/// A region is counted for color `c` when it does not touch the edge and
/// `c` is its single border color.
pub open spec fn region_counts_for(reg: EmptyRegion, c: Occupant) -> bool {
    &&& !reg.touches_edge
    &&& reg.border@.len() == 1
    &&& reg.border@[0] == c
}

/// A duplicate-free border list holding `c` but neither `Empty` nor the
/// opposing color is exactly the one-element list of `c`.
proof fn lemma_border_single(border: Seq<Occupant>, c: Occupant)
    requires
        border.no_duplicates(),
        !border.contains(Occupant::Empty),
        border.contains(c),
        c != Occupant::Empty,
        !border.contains(opposite_color(c)),
    ensures
        border.len() == 1,
        border[0] == c,
{
    assert forall|t: int| 0 <= t < border.len() implies border[t] == c by {
        assert(border.contains(border[t]));
    }
    assert(border.len() >= 1);
    if border.len() >= 2 {
        assert(border[0] == c && border[1] == c);
    }
}

/// Whether a cell of a region counts as territory for `c` is decided by
/// the region's own classification: the region does not touch the edge
/// and is bordered by `c` alone.
pub proof fn lemma_region_territory(
    occ: Seq<Occupant>,
    size: int,
    reg: EmptyRegion,
    j: int,
    c: Occupant,
)
    requires
        region_ok(occ, size, reg),
        region_spots_idx(reg, size).contains(j),
        c == Occupant::Black || c == Occupant::White,
    ensures
        is_territory_for(occ, size, j, c) <==> (!reg.touches_edge && reg.border@.contains(c)
            && !reg.border@.contains(opposite_color(c))),
{
    reveal(region_ok);
    reveal(is_territory_for);
    let root = coord_cell(size, reg.spots@[0]);
    let t = choose|t: int|
        0 <= t < region_spots_idx(reg, size).len() && region_spots_idx(reg, size)[t] == j;
    assert(region_spots_idx(reg, size)[t] == coord_cell(size, reg.spots@[t]));
    assert(reach(occ, size, root, j));
    lemma_reach_props(occ, size, root, j);
    lemma_reach_symm(occ, size, root, j);
    assert forall|e: int| #[trigger] reach(occ, size, j, e) implies reach(occ, size, root, e) by {
        lemma_reach_trans(occ, size, root, j, e);
    }
    assert forall|e: int| #[trigger] reach(occ, size, root, e) implies reach(occ, size, j, e) by {
        lemma_reach_trans(occ, size, j, root, e);
    }
    assert(region_touches(occ, size, j) <==> region_touches(occ, size, root)) by {
        if region_touches(occ, size, j) {
            let e = choose|e: int| #[trigger] reach(occ, size, j, e) && on_edge(size, e);
            assert(reach(occ, size, root, e));
        }
        if region_touches(occ, size, root) {
            let e = choose|e: int| #[trigger] reach(occ, size, root, e) && on_edge(size, e);
            assert(reach(occ, size, j, e));
        }
    }
    assert forall|c2: Occupant| #[trigger] borders_color(occ, size, j, c2) == borders_color(
        occ,
        size,
        root,
        c2,
    ) by {
        if borders_color(occ, size, j, c2) {
            let (s, b) = choose|s: int, b: int|
                #[trigger] reach(occ, size, j, s) && #[trigger] adjacent(size, s, b) && occ[b]
                    == c2;
            assert(reach(occ, size, root, s) && adjacent(size, s, b) && occ[b] == c2);
        }
        if borders_color(occ, size, root, c2) {
            let (s, b) = choose|s: int, b: int|
                #[trigger] reach(occ, size, root, s) && #[trigger] adjacent(size, s, b) && occ[b]
                    == c2;
            assert(reach(occ, size, j, s) && adjacent(size, s, b) && occ[b] == c2);
        }
    }
    let other = opposite_color(c);
    if is_territory_for(occ, size, j, c) {
        assert(!reg.touches_edge);
        assert(borders_color(occ, size, root, c));
        assert(reg.border@.contains(c));
        if reg.border@.contains(other) {
            assert(borders_color(occ, size, root, other)) by {
                if other == Occupant::Black {
                } else {
                }
            }
            assert(borders_color(occ, size, j, other));
            assert(other == c);
        }
    }
    if !reg.touches_edge && reg.border@.contains(c) && !reg.border@.contains(other) {
        assert(!region_touches(occ, size, j));
        assert(borders_color(occ, size, root, c));
        assert(borders_color(occ, size, j, c));
        assert forall|c2: Occupant| #[trigger] borders_color(occ, size, j, c2) implies c2 == c by {
            assert(borders_color(occ, size, root, c2));
            assert(c2 != Occupant::Empty);
            if c2 != c {
                assert(c2 == other);
                assert(reg.border@.contains(other));
            }
        }
        assert(is_territory_for(occ, size, j, c));
    }
}

/// The spot indices of a region counted for `color` are distinct,
/// in range, and all territory of that color.
proof fn lemma_counted_region_cells(
    occ: Seq<Occupant>,
    size: int,
    reg: EmptyRegion,
    color: Occupant,
)
    requires
        1 <= size,
        region_ok(occ, size, reg),
        color == Occupant::Black || color == Occupant::White,
        !reg.touches_edge,
        reg.border@.contains(color),
        !reg.border@.contains(opposite_color(color)),
    ensures
        region_spots_idx(reg, size).no_duplicates(),
        region_spots_idx(reg, size).len() == reg.spots@.len(),
        forall|e: int|
            #[trigger] region_spots_idx(reg, size).contains(e) ==> 0 <= e < cell_count(size)
                && is_territory_for(occ, size, e, color),
{
    reveal(region_ok);
    assert forall|e: int| #[trigger] region_spots_idx(reg, size).contains(e)
        implies 0 <= e < cell_count(size) && is_territory_for(occ, size, e, color) by {
        lemma_region_territory(occ, size, reg, e, color);
        let t = choose|t: int|
            0 <= t < region_spots_idx(reg, size).len() && region_spots_idx(reg, size)[t] == e;
        assert(region_spots_idx(reg, size)[t] == coord_cell(size, reg.spots@[t]));
        crate::grid::lemma_cell_at_decodes(size, reg.spots@[t].0 as int, reg.spots@[t].1 as int);
    }
}

/// Every territory cell of `color` lies in a region of the list that is
/// counted for `color`.
proof fn lemma_territory_cell_covered(
    occ: Seq<Occupant>,
    size: int,
    rs: Seq<EmptyRegion>,
    j: int,
    color: Occupant,
)
    requires
        regions_partition(occ, size, rs),
        is_territory_for(occ, size, j, color),
        color == Occupant::Black || color == Occupant::White,
    ensures
        exists|k2: int|
            0 <= k2 < rs.len() && #[trigger] region_spots_idx(rs[k2], size).contains(j)
                && region_counts_for(rs[k2], color),
{
    reveal(region_ok);
    reveal(is_territory_for);
    let k2 = choose|k2: int|
        0 <= k2 < rs.len() && #[trigger] region_spots_idx(rs[k2], size).contains(j);
    lemma_region_territory(occ, size, rs[k2], j, color);
    lemma_border_single(rs[k2].border@, color);
    assert(region_counts_for(rs[k2], color));
}

/// A counted border list holds exactly `color`: `color` first, the
/// opposing color absent.
proof fn lemma_single_border_split(border: Seq<Occupant>, color: Occupant)
    requires
        border.len() == 1,
        border[0] == color,
        color != Occupant::Empty,
    ensures
        border.contains(color),
        !border.contains(opposite_color(color)),
{
    assert(border[0] == color);
    if border.contains(opposite_color(color)) {
        let t = choose|t: int| 0 <= t < border.len() && border[t] == opposite_color(color);
    }
}

/// The territory tally of one color over a region list that describes
/// the whole board: the total size of the regions that do not touch the
/// edge and have that color as their single border color.
#[verifier::loop_isolation(false)]
#[verifier::rlimit(60)]
fn tally_territory(board: &Board, regions: &Vec<EmptyRegion>, color: Occupant) -> (r: u64)
    requires
        board.wf(),
        color == Occupant::Black || color == Occupant::White,
        regions_partition(board.occ(), board.size(), regions@),
    ensures
        r as int == territory_points(board.occ(), board.size(), color, cell_count(board.size())),
{
    let ghost occ = board.occ();
    let ghost szi = board.size();
    let ghost n = cell_count(szi);
    let ghost pred = (|j: int| is_territory_for(occ, szi, j, color));
    proof {
        assert(szi * szi <= 65025) by (nonlinear_arith)
            requires
                0 <= szi <= 255,
        ;
    }
    let mut total: u64 = 0;
    let ghost mut parts: Seq<Seq<int>> = Seq::empty();
    let ghost mut picked: Seq<int> = Seq::empty();
    let mut k: usize = 0;
    while k < regions.len()
        invariant
            k <= regions@.len(),
            total as int == sum_lens(parts),
            sum_lens(parts) <= n,
            picked.len() == parts.len(),
            forall|m: int| 0 <= m < picked.len() ==> 0 <= #[trigger] picked[m] < k,
            forall|m1: int, m2: int| 0 <= m1 < m2 < picked.len() ==> picked[m1] < picked[m2],
            forall|m: int|
                0 <= m < parts.len() ==> #[trigger] parts[m] == region_spots_idx(
                    regions@[picked[m]],
                    szi,
                ),
            forall|m: int| 0 <= m < parts.len() ==> (#[trigger] parts[m]).no_duplicates(),
            forall|m: int, e: int|
                0 <= m < parts.len() && (#[trigger] parts[m].contains(e)) ==> 0 <= e < n && pred(
                    e,
                ),
            forall|k2: int|
                0 <= k2 < k && region_counts_for(#[trigger] regions@[k2], color) ==> exists|m: int|
                    0 <= m < picked.len() && #[trigger] picked[m] == k2,
        decreases regions@.len() - k,
    {
        let reg = &regions[k];
        let ghost rk = regions@[k as int];
        if !reg.touches_edge && reg.border.len() == 1 && reg.border[0] == color {
            proof {
                assert(region_ok(occ, szi, rk));
                assert(rk.border@[0] == color && rk.border@.len() == 1);
                lemma_single_border_split(rk.border@, color);
                assert(region_counts_for(rk, color));
                lemma_counted_region_cells(occ, szi, rk, color);
                let part = region_spots_idx(rk, szi);
                let ghost parts_snap = parts;
                let ghost picked_snap = picked;
                parts = parts.push(part);
                picked = picked.push(k as int);
                assert(parts.drop_last() =~= parts_snap);
                assert(sum_lens(parts) == sum_lens(parts_snap) + part.len());
                assert forall|k2: int|
                    0 <= k2 < k + 1 && region_counts_for(#[trigger] regions@[k2], color)
                    implies exists|m: int| 0 <= m < picked.len() && #[trigger] picked[m] == k2 by {
                    if k2 < k as int {
                        let m = choose|m: int|
                            0 <= m < picked_snap.len() && #[trigger] picked_snap[m] == k2;
                        assert(picked[m] == k2);
                    } else {
                        assert(picked[picked.len() - 1] == k2);
                    }
                }
                assert forall|m1: int, m2: int, e: int|
                    #![trigger parts[m1].contains(e), parts[m2].contains(e)]
                    0 <= m1 < m2 < parts.len() && parts[m1].contains(e) implies !parts[m2].contains(
                    e,
                ) by {
                    assert(picked[m1] < picked[m2]);
                    assert(parts[m1] == region_spots_idx(regions@[picked[m1]], szi));
                    assert(parts[m2] == region_spots_idx(regions@[picked[m2]], szi));
                }
                lemma_sum_lens_bound(parts, n);
                assert(part.len() == rk.spots@.len());
            }
            total = total + (reg.spots.len() as u64);
        }
        k += 1;
    }
    proof {
        assert forall|j: int| 0 <= j < n && #[trigger] pred(j) implies exists|m: int|
            0 <= m < parts.len() && #[trigger] parts[m].contains(j) by {
            lemma_territory_cell_covered(occ, szi, regions@, j, color);
            let k2 = choose|k2: int|
                0 <= k2 < regions@.len() && #[trigger] region_spots_idx(
                    regions@[k2],
                    szi,
                ).contains(j) && region_counts_for(regions@[k2], color);
            let m = choose|m: int| 0 <= m < picked.len() && #[trigger] picked[m] == k2;
            assert(parts[m].contains(j));
        }
        assert forall|m1: int, m2: int, e: int|
            #![trigger parts[m1].contains(e), parts[m2].contains(e)]
            0 <= m1 < m2 < parts.len() && parts[m1].contains(e) implies !parts[m2].contains(e) by {
            assert(picked[m1] < picked[m2]);
            assert(parts[m1] == region_spots_idx(regions@[picked[m1]], szi));
            assert(parts[m2] == region_spots_idx(regions@[picked[m2]], szi));
        }
        lemma_partition_count(pred, n, parts);
        lemma_territory_points_is_count(occ, szi, color, n, pred);
    }
    total
}

/// Count the territory points of each side: the empty cells whose region
/// does not touch the board edge and is bordered by one color alone.
/// Returns `(black points, white points)`.
pub fn determine_territory(board: &Board) -> (r: (u64, u64))
    requires
        board.wf(),
    ensures
        r.0 as int == territory_points(
            board.occ(),
            board.size(),
            Occupant::Black,
            cell_count(board.size()),
        ),
        r.1 as int == territory_points(
            board.occ(),
            board.size(),
            Occupant::White,
            cell_count(board.size()),
        ),
{
    let regions = find_empty_regions(board);
    let black = tally_territory(board, &regions, Occupant::Black);
    let white = tally_territory(board, &regions, Occupant::White);
    (black, white)
}

} // verus!
