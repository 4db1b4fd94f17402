//! Connectivity of same-colored cells: paths, reachability, and the
//! chains (maximal connected components) they induce.
//!
//! A chain is the set of cells reachable from a given cell through
//! orthogonally adjacent cells that all hold the same occupant.  Both
//! stone groups and empty regions are chains in this sense.

use vstd::prelude::*;
use crate::grid::{adjacent, in_grid};
use crate::board::Occupant;

verus! {

/// A path: one or more cells, consecutive ones orthogonally adjacent,
/// all holding the same occupant as the first.
pub open spec fn is_path(occ: Seq<Occupant>, size: int, p: Seq<int>) -> bool {
    &&& p.len() >= 1
    &&& forall|k: int|
        0 <= k < p.len() ==> in_grid(size, #[trigger] p[k]) && occ[p[k]] == occ[p[0]]
    &&& forall|k: int| 0 <= k < p.len() - 1 ==> adjacent(size, #[trigger] p[k], p[k + 1])
}

/// Cell `j` is reachable from cell `i` through same-colored cells.
pub open spec fn reach(occ: Seq<Occupant>, size: int, i: int, j: int) -> bool {
    exists|p: Seq<int>| is_path(occ, size, p) && p.first() == i && p.last() == j
}

/// The chain of cell `i`: every cell reachable from it.
pub open spec fn chain_of(occ: Seq<Occupant>, size: int, i: int) -> Set<int> {
    Set::new(|j: int| reach(occ, size, i, j))
}

/// Whether some cell orthogonally adjacent to `i` is empty: a liberty of
/// the stone at `i`.
pub open spec fn has_empty_neighbor(occ: Seq<Occupant>, size: int, i: int) -> bool {
    exists|j: int| adjacent(size, i, j) && occ[j] == Occupant::Empty
}

/// Whether the chain of cell `i` has at least one liberty.
pub open spec fn chain_has_liberty(occ: Seq<Occupant>, size: int, i: int) -> bool {
    exists|j: int| #[trigger] reach(occ, size, i, j) && has_empty_neighbor(occ, size, j)
}

/// Reachability is reflexive on in-bounds cells.
pub proof fn lemma_reach_refl(occ: Seq<Occupant>, size: int, i: int)
    requires
        in_grid(size, i),
    ensures
        reach(occ, size, i, i),
{
    let p: Seq<int> = seq![i];
    assert(is_path(occ, size, p) && p.first() == i && p.last() == i);
}

/// Reachability stays within the grid and preserves the occupant.
pub proof fn lemma_reach_props(occ: Seq<Occupant>, size: int, i: int, j: int)
    requires
        reach(occ, size, i, j),
    ensures
        in_grid(size, i),
        in_grid(size, j),
        occ[i] == occ[j],
{
    let p = choose|p: Seq<int>|
        is_path(occ, size, p) && p.first() == i && p.last() == j;
    assert(p[0] == i);
    assert(p[p.len() - 1] == j);
}

/// A reachable cell's same-colored neighbor is reachable too.
pub proof fn lemma_reach_step(occ: Seq<Occupant>, size: int, i: int, j: int, k: int)
    requires
        reach(occ, size, i, j),
        adjacent(size, j, k),
        occ[k] == occ[i],
    ensures
        reach(occ, size, i, k),
{
    let p = choose|p: Seq<int>|
        is_path(occ, size, p) && p.first() == i && p.last() == j;
    let q = p.push(k);
    assert(q.last() == k);
    assert(q.first() == i);
    assert forall|m: int| 0 <= m < q.len() - 1 implies adjacent(size, #[trigger] q[m], q[m + 1]) by {
        if m < p.len() - 1 {
            assert(q[m] == p[m] && q[m + 1] == p[m + 1]);
        } else {
            assert(q[m] == p.last() && q[m + 1] == k);
        }
    }
    assert(is_path(occ, size, q));
}

/// Reachability is transitive.
pub proof fn lemma_reach_trans(occ: Seq<Occupant>, size: int, i: int, j: int, k: int)
    requires
        reach(occ, size, i, j),
        reach(occ, size, j, k),
    ensures
        reach(occ, size, i, k),
{
    let p = choose|p: Seq<int>|
        is_path(occ, size, p) && p.first() == i && p.last() == j;
    let q = choose|q: Seq<int>|
        is_path(occ, size, q) && q.first() == j && q.last() == k;
    let r = p + q.drop_first();
    assert(r.len() == p.len() + q.len() - 1);
    assert(r.first() == p.first());
    assert forall|m: int| 0 <= m < r.len() implies in_grid(size, #[trigger] r[m]) && occ[r[m]]
        == occ[r[0]] by {
        if m < p.len() {
            assert(r[m] == p[m]);
        } else {
            assert(r[m] == q[m - p.len() + 1]);
            assert(occ[q[m - p.len() + 1]] == occ[q[0]]);
            assert(occ[q[0]] == occ[p[0]]) by {
                assert(occ[p.last()] == occ[p[0]]);
            }
        }
    }
    assert forall|m: int| 0 <= m < r.len() - 1 implies adjacent(size, #[trigger] r[m], r[m + 1]) by {
        if m < p.len() - 1 {
            assert(r[m] == p[m] && r[m + 1] == p[m + 1]);
        } else if m == p.len() - 1 {
            if q.len() >= 2 {
                assert(r[m] == p.last() && r[m + 1] == q[1]);
                assert(q[0] == p.last());
                assert(adjacent(size, q[0], q[1]));
            }
        } else {
            assert(r[m] == q[m - p.len() + 1] && r[m + 1] == q[m - p.len() + 2]);
            assert(adjacent(size, q[m - p.len() + 1], q[m - p.len() + 2]));
        }
    }
    if q.len() == 1 {
        assert(j == k);
        assert(reach(occ, size, i, k));
    } else {
        assert(r.last() == q.last());
        assert(is_path(occ, size, r));
        assert(r.first() == i && r.last() == k);
    }
}

/// Reachability is symmetric.
pub proof fn lemma_reach_symm(occ: Seq<Occupant>, size: int, i: int, j: int)
    requires
        reach(occ, size, i, j),
    ensures
        reach(occ, size, j, i),
{
    let p = choose|p: Seq<int>|
        is_path(occ, size, p) && p.first() == i && p.last() == j;
    let n = p.len();
    let q = p.reverse();
    assert(q.len() == n);
    assert forall|m: int| 0 <= m < n implies #[trigger] q[m] == p[n - 1 - m] by {}
    assert(q.first() == p.last());
    assert(q.last() == p.first());
    assert(occ[q[0]] == occ[p[0]]);
    assert forall|m: int| 0 <= m < n implies in_grid(size, #[trigger] q[m]) && occ[q[m]]
        == occ[q[0]] by {
        assert(q[m] == p[n - 1 - m]);
    }
    assert forall|m: int| 0 <= m < n - 1 implies adjacent(size, #[trigger] q[m], q[m + 1]) by {
        assert(q[m] == p[n - 1 - m] && q[m + 1] == p[n - 2 - m]);
        assert(adjacent(size, p[n - 2 - m], p[n - 1 - m]));
    }
    assert(is_path(occ, size, q) && q.first() == j && q.last() == i);
}

/// Every cell of a path lies in any set that contains the path's start
/// and is closed under stepping to same-colored neighbors.
proof fn lemma_path_in_closed_set(occ: Seq<Occupant>, size: int, p: Seq<int>, s: Set<int>)
    requires
        is_path(occ, size, p),
        s.contains(p.first()),
        forall|a: int, b: int|
            s.contains(a) && #[trigger] adjacent(size, a, b) && occ[b] == occ[p.first()]
                ==> s.contains(b),
    ensures
        s.contains(p.last()),
    decreases p.len(),
{
    if p.len() == 1 {
    } else {
        let q = p.drop_last();
        assert(q.first() == p.first());
        assert forall|m: int| 0 <= m < q.len() implies in_grid(size, #[trigger] q[m]) && occ[q[m]]
            == occ[q[0]] by {
            assert(q[m] == p[m]);
        }
        assert forall|m: int| 0 <= m < q.len() - 1 implies adjacent(
            size,
            #[trigger] q[m],
            q[m + 1],
        ) by {
            assert(q[m] == p[m] && q[m + 1] == p[m + 1]);
        }
        assert(is_path(occ, size, q));
        lemma_path_in_closed_set(occ, size, q, s);
        assert(q.last() == p[p.len() - 2]);
        assert(adjacent(size, p[p.len() - 2], p[p.len() - 1]));
        assert(occ[p.last()] == occ[p.first()]);
    }
}

/// Every cell reachable from `i` lies in any set that contains `i` and is
/// closed under stepping to same-colored neighbors.
pub proof fn lemma_reach_in_closed_set(
    occ: Seq<Occupant>,
    size: int,
    i: int,
    j: int,
    s: Set<int>,
)
    requires
        reach(occ, size, i, j),
        s.contains(i),
        forall|a: int, b: int|
            s.contains(a) && #[trigger] adjacent(size, a, b) && occ[b] == occ[i]
                ==> s.contains(b),
    ensures
        s.contains(j),
{
    let p = choose|p: Seq<int>|
        is_path(occ, size, p) && p.first() == i && p.last() == j;
    lemma_path_in_closed_set(occ, size, p, s);
}

/// Two cells that reach a common cell reach each other: chains are equal
/// or disjoint.
pub proof fn lemma_reach_join(occ: Seq<Occupant>, size: int, i: int, j: int, k: int)
    requires
        reach(occ, size, i, k),
        reach(occ, size, j, k),
    ensures
        reach(occ, size, i, j),
{
    lemma_reach_symm(occ, size, j, k);
    lemma_reach_trans(occ, size, i, k, j);
    lemma_reach_symm(occ, size, i, j);
}

/// Two cells of one chain agree on whether the chain has a liberty.
pub proof fn lemma_chain_liberty_same(occ: Seq<Occupant>, size: int, a: int, b: int)
    requires
        reach(occ, size, a, b),
    ensures
        chain_has_liberty(occ, size, a) <==> chain_has_liberty(occ, size, b),
{
    lemma_reach_symm(occ, size, a, b);
    if chain_has_liberty(occ, size, a) {
        let j = choose|j: int| #[trigger] reach(occ, size, a, j) && has_empty_neighbor(occ, size, j);
        lemma_reach_trans(occ, size, b, a, j);
    }
    if chain_has_liberty(occ, size, b) {
        let j = choose|j: int| #[trigger] reach(occ, size, b, j) && has_empty_neighbor(occ, size, j);
        lemma_reach_trans(occ, size, a, b, j);
    }
}

/// Reachability depends only on the occupancy of the cells of the color
/// in question: two boards that agree on where that color sits have the
/// same reachability from any cell of that color.
pub proof fn lemma_reach_same_color_placement(
    occ1: Seq<Occupant>,
    occ2: Seq<Occupant>,
    size: int,
    i: int,
    j: int,
)
    requires
        reach(occ1, size, i, j),
        forall|k: int| in_grid(size, k) ==> ((occ1[k] == occ1[i]) <==> (occ2[k] == occ1[i])),
    ensures
        reach(occ2, size, i, j),
        occ2[i] == occ1[i],
{
    let p = choose|p: Seq<int>|
        is_path(occ1, size, p) && p.first() == i && p.last() == j;
    assert(in_grid(size, i) && occ1[p[0]] == occ1[i]) by {
        assert(in_grid(size, p[0]));
    }
    assert forall|m: int| 0 <= m < p.len() implies in_grid(size, #[trigger] p[m]) && occ2[p[m]]
        == occ2[p[0]] by {
        assert(occ1[p[m]] == occ1[i]);
        assert(occ2[p[m]] == occ1[i]);
        assert(occ2[p[0]] == occ1[i]);
    }
    assert(is_path(occ2, size, p));
}

} // verus!
