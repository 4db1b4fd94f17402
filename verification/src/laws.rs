//! Laws of the engine: properties that relate the analysis functions to
//! each other, stated over the same specifications their contracts use.

use vstd::prelude::*;
use crate::board::Occupant;
use crate::connectivity::{
    lemma_reach_props, lemma_reach_symm, lemma_reach_trans, reach,
};
use crate::counting::{count_matching, lemma_count_split, lemma_partition_count, sum_lens};
use crate::grid::{adjacent, cell_count, in_grid, lemma_cell_at_decodes};
use crate::groups::{
    coord_cell, group_ok, groups_partition, is_liberty_of, liberties_idx, stones_idx, Group,
};
use crate::scoring::stone_points;
use crate::territory::{borders_color, is_territory_for, region_touches, territory_points};

verus! {

/// The total number of stones over a list of groups.
pub open spec fn total_stones(gs: Seq<Group>) -> int
    decreases gs.len(),
{
    if gs.len() == 0 {
        0
    } else {
        total_stones(gs.drop_last()) + gs.last().stones@.len()
    }
}

/// The total group size equals the total length of the groups' cell
/// index lists.
proof fn lemma_total_stones_is_sum(gs: Seq<Group>, size: int)
    ensures
        sum_lens(gs.map_values(|g: Group| stones_idx(g, size))) == total_stones(gs),
    decreases gs.len(),
{
    let parts = gs.map_values(|g: Group| stones_idx(g, size));
    if gs.len() == 0 {
    } else {
        lemma_total_stones_is_sum(gs.drop_last(), size);
        assert(parts.drop_last() =~= gs.drop_last().map_values(|g: Group| stones_idx(g, size)));
        assert(parts.last() == stones_idx(gs.last(), size));
    }
}

/// `stone_points` agrees with `count_matching` for any predicate that
/// matches the occupant cell by cell.
proof fn lemma_stone_points_is_count(
    occ: Seq<Occupant>,
    c: Occupant,
    n: int,
    pred: spec_fn(int) -> bool,
)
    requires
        n >= 0,
        forall|j: int| #[trigger] pred(j) == (occ[j] == c),
    ensures
        stone_points(occ, c, n) == count_matching(pred, n),
    decreases n,
{
    if n > 0 {
        lemma_stone_points_is_count(occ, c, n - 1, pred);
    }
}

/// Every intersection is accounted for: over any group list that
/// correctly describes a board, the stones of all groups plus the empty
/// spots add up to the full board.
pub proof fn lemma_stones_and_empties_cover_board(occ: Seq<Occupant>, size: int, gs: Seq<Group>)
    requires
        1 <= size,
        groups_partition(occ, size, gs),
    ensures
        total_stones(gs) + stone_points(occ, Occupant::Empty, cell_count(size)) == cell_count(
            size,
        ),
{
    let n = cell_count(size);
    let parts = gs.map_values(|g: Group| stones_idx(g, size));
    let pred_stone = (|j: int| occ[j] != Occupant::Empty);
    let pred_empty = (|j: int| occ[j] == Occupant::Empty);
    assert forall|k: int| 0 <= k < parts.len() implies (#[trigger] parts[k]).no_duplicates() by {
        assert(parts[k] == stones_idx(gs[k], size));
        assert(group_ok(occ, size, gs[k]));
    }
    assert forall|k: int, e: int|
        0 <= k < parts.len() && (#[trigger] parts[k].contains(e)) implies 0 <= e < n && pred_stone(
        e,
    ) by {
        assert(parts[k] == stones_idx(gs[k], size));
        let g = gs[k];
        assert(group_ok(occ, size, g));
        let t = choose|t: int| 0 <= t < stones_idx(g, size).len() && stones_idx(g, size)[t] == e;
        assert(stones_idx(g, size)[t] == coord_cell(size, g.stones@[t]));
        lemma_cell_at_decodes(size, g.stones@[t].0 as int, g.stones@[t].1 as int);
        let root = coord_cell(size, g.stones@[0]);
        assert(reach(occ, size, root, e));
        lemma_reach_props(occ, size, root, e);
    }
    assert forall|k1: int, k2: int, e: int|
        #![trigger parts[k1].contains(e), parts[k2].contains(e)]
        0 <= k1 < k2 < parts.len() && parts[k1].contains(e) implies !parts[k2].contains(e) by {
        assert(parts[k1] == stones_idx(gs[k1], size));
        assert(parts[k2] == stones_idx(gs[k2], size));
    }
    assert forall|j: int| 0 <= j < n && #[trigger] pred_stone(j) implies exists|k: int|
        0 <= k < parts.len() && #[trigger] parts[k].contains(j) by {
        assert(in_grid(size, j));
        let k = choose|k: int| 0 <= k < gs.len() && #[trigger] stones_idx(gs[k], size).contains(j);
        assert(parts[k] == stones_idx(gs[k], size));
        assert(parts[k].contains(j));
    }
    lemma_partition_count(pred_stone, n, parts);
    lemma_total_stones_is_sum(gs, size);
    lemma_count_split(pred_stone, pred_empty, n);
    lemma_stone_points_is_count(occ, Occupant::Empty, n, pred_empty);
}

/// An empty region that touches the board edge never counts as
/// territory, whatever single color borders it.
pub proof fn lemma_edge_region_not_territory(occ: Seq<Occupant>, size: int, j: int, c: Occupant)
    requires
        region_touches(occ, size, j),
    ensures
        !is_territory_for(occ, size, j, c),
{
    reveal(is_territory_for);
}

/// A board without stones has no stone points and no territory points
/// for either side, so territory scoring awards the komi alone.
pub proof fn lemma_empty_board_scores(occ: Seq<Occupant>, size: int, c: Occupant, n: int)
    requires
        0 <= n <= cell_count(size),
        forall|j: int| in_grid(size, j) ==> occ[j] == Occupant::Empty,
    ensures
        territory_points(occ, size, c, n) == 0,
        c != Occupant::Empty ==> stone_points(occ, c, n) == 0,
    decreases n,
{
    reveal(is_territory_for);
    if n > 0 {
        lemma_empty_board_scores(occ, size, c, n - 1);
        assert(!is_territory_for(occ, size, n - 1, c)) by {
            if is_territory_for(occ, size, n - 1, c) {
                assert(borders_color(occ, size, n - 1, c));
                let (s, b) = choose|s: int, b: int|
                    #[trigger] reach(occ, size, n - 1, s) && #[trigger] adjacent(size, s, b)
                        && occ[b] == c;
                assert(in_grid(size, b));
            }
        }
        assert(in_grid(size, n - 1));
    }
}

} // verus!
