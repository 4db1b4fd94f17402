//! Flood fill over same-colored cells, verified to compute exactly the
//! chain (connected component) of its starting cell.

use vstd::prelude::*;
use crate::board::{occupancy, Occupant, SpotState};
use crate::connectivity::{lemma_reach_in_closed_set, lemma_reach_refl, lemma_reach_step, reach};
use crate::grid::{adjacent, cell_at, in_grid, lemma_cell_at_decodes, lemma_decode_cell};

verus! {

/// A sequence of distinct cell indices below `n` has at most `n` elements.
pub proof fn lemma_bounded_distinct_len(s: Seq<usize>, n: int)
    requires
        s.no_duplicates(),
        forall|k: int| 0 <= k < s.len() ==> (#[trigger] s[k]) < n,
        0 <= n,
    ensures
        s.len() <= n,
{
    let t = s.map_values(|x: usize| x as int);
    assert(t.no_duplicates());
    t.unique_seq_to_set();
    assert forall|x: int| t.to_set().contains(x) implies vstd::set_lib::set_int_range(
        0,
        n,
    ).contains(x) by {
        let k = choose|k: int| 0 <= k < t.len() && t[k] == x;
        assert(s[k] < n);
    }
    vstd::set_lib::lemma_int_range(0, n);
    vstd::set_lib::lemma_len_subset(t.to_set(), vstd::set_lib::set_int_range(0, n));
}

/// Overwrite one element of a vector.
pub(crate) fn set_cell<T>(v: &mut Vec<T>, i: usize, x: T)
    requires
        i < old(v)@.len(),
    ensures
        final(v)@ == old(v)@.update(i as int, x),
{
    let r = &mut v[i];
    *r = x;
}

/// Whether a vector of cell indices contains a given index.
pub fn contains_cell(v: &Vec<usize>, x: usize) -> (r: bool)
    ensures
        r == v@.contains(x),
{
    let mut k: usize = 0;
    while k < v.len()
        invariant
            0 <= k <= v@.len(),
            forall|t: int| 0 <= t < k ==> v@[t] != x,
        decreases v@.len() - k,
    {
        if v[k] == x {
            return true;
        }
        k += 1;
    }
    false
}

/// The in-bounds orthogonal neighbor indices of cell `i`.
#[verifier::loop_isolation(false)]
pub fn neighbor_cells(size: usize, i: usize) -> (r: Vec<usize>)
    requires
        1 <= size <= 255,
        i < size * size,
    ensures
        r@.no_duplicates(),
        forall|k: int| 0 <= k < r@.len() ==> adjacent(size as int, i as int, (#[trigger] r@[k]) as int),
        forall|j: int| #[trigger] adjacent(size as int, i as int, j) ==> r@.contains(j as usize),
{
    let sz = size;
    proof {
        assert(sz * sz <= 65025) by (nonlinear_arith)
            requires
                sz <= 255,
        ;
        lemma_decode_cell(size as int, i as int);
    }
    let n = sz * sz;
    let ghost szi = size as int;
    let ghost r0 = crate::grid::row_of(szi, i as int);
    let ghost c0 = crate::grid::col_of(szi, i as int);
    let col = i % size;
    assert(col == c0);
    let mut result: Vec<usize> = Vec::new();
    if i >= size {
        result.push(i - size);
        assert(adjacent(szi, i as int, i - size)) by {
            assert(in_grid(szi, i - size));
        }
    }
    if i + size < n {
        result.push(i + size);
    }
    if col > 0 {
        result.push(i - 1);
        proof {
            lemma_cell_at_decodes(szi, r0, c0 - 1);
            assert(cell_at(szi, r0, c0 - 1) == i - 1);
            assert(adjacent(szi, i as int, i - 1));
        }
    }
    if col < size - 1 {
        result.push(i + 1);
        proof {
            lemma_cell_at_decodes(szi, r0, c0 + 1);
            assert(cell_at(szi, r0, c0 + 1) == i + 1);
            assert(adjacent(szi, i as int, i + 1));
        }
    }
    proof {
        assert forall|j: int| #[trigger] adjacent(szi, i as int, j) implies result@.contains(
            j as usize,
        ) by {
            let up = if i >= size { 1int } else { 0int };
            let down = if i + size < n { 1int } else { 0int };
            if j == i - size {
                assert(result@[0] == (i - size) as usize);
            } else if j == i + size {
                assert(result@[up] == (i + size) as usize);
            } else if j == i - 1 {
                assert(col > 0) by {
                    if c0 == 0 {
                        assert(cell_at(szi, r0, c0) == i as int);
                        assert(in_grid(szi, j));
                        assert(r0 >= 1) by {
                            if r0 == 0 {
                                assert(i as int == c0) by (nonlinear_arith)
                                    requires
                                        i as int == r0 * szi + c0,
                                        r0 == 0,
                                ;
                                assert(j == -1);
                            }
                        }
                        assert((r0 - 1) * szi + (szi - 1) == r0 * szi - 1) by (nonlinear_arith);
                        lemma_cell_at_decodes(szi, r0 - 1, szi - 1);
                        assert(crate::grid::col_of(szi, j) == szi - 1);
                        assert(szi != 1) by {
                            if szi == 1 {
                                assert(i as int == 0 && j == 0);
                            }
                        }
                        assert(!adjacent(szi, i as int, j));
                    }
                }
                assert(result@[up + down] == (i - 1) as usize);
            } else {
                assert(j == i + 1 && c0 != szi - 1);
                assert(col < size - 1);
                assert(result@[up + down + (if col > 0 { 1int } else { 0int })] == (i + 1) as usize);
            }
        }
    }
    result
}

/// Flood fill: collect exactly the chain of `start`, the cells reachable
/// from it through orthogonally adjacent cells of the same occupant.
#[verifier::loop_isolation(false)]
#[verifier::rlimit(100)]
pub fn collect_chain(spots: &Vec<SpotState>, size: usize, start: usize) -> (r: Vec<usize>)
    requires
        1 <= size <= 255,
        spots@.len() == size * size,
        start < size * size,
    ensures
        r@.no_duplicates(),
        r@.len() >= 1,
        r@[0] == start,
        r@.contains(start),
        forall|k: int| 0 <= k < r@.len() ==> (#[trigger] r@[k]) < size * size,
        forall|k: int|
            0 <= k < r@.len() ==> reach(
                occupancy(spots@),
                size as int,
                start as int,
                (#[trigger] r@[k]) as int,
            ),
        forall|j: int|
            #[trigger] reach(occupancy(spots@), size as int, start as int, j) ==> r@.contains(
                j as usize,
            ),
{
    let ghost occ = occupancy(spots@);
    let ghost szi = size as int;
    let ghost s0 = start as int;
    proof {
        assert(szi * szi <= 65025) by (nonlinear_arith)
            requires
                0 <= szi <= 255,
        ;
        lemma_reach_refl(occ, szi, s0);
    }
    let mut chain: Vec<usize> = Vec::new();
    chain.push(start);
    let mut stack: Vec<usize> = Vec::new();
    stack.push(start);
    assert(chain@[0] == start);
    assert(stack@[0] == start);
    while stack.len() > 0
        invariant
            chain@.no_duplicates(),
            stack@.no_duplicates(),
            chain@.len() >= 1,
            chain@[0] == start,
            chain@.contains(start),
            forall|k: int|
                0 <= k < chain@.len() ==> in_grid(szi, (#[trigger] chain@[k]) as int) && reach(
                    occ,
                    szi,
                    s0,
                    chain@[k] as int,
                ),
            forall|k: int| 0 <= k < stack@.len() ==> chain@.contains(#[trigger] stack@[k]),
            forall|a: usize, j: int|
                chain@.contains(a) && !stack@.contains(a) && #[trigger] adjacent(szi, a as int, j)
                    && occ[j] == occ[s0] ==> chain@.contains(j as usize),
        decreases size * size - chain@.len(), stack@.len(),
    {
        proof {
            lemma_bounded_distinct_len(chain@, szi * szi);
        }
        let ghost stack_pre = stack@;
        let e = stack.pop().unwrap();
        assert(chain@.contains(e));
        assert(in_grid(szi, e as int));
        proof {
            assert forall|a: usize| stack_pre.contains(a) implies (a == e || stack@.contains(
                a,
            )) by {
                let k = choose|k: int| 0 <= k < stack_pre.len() && stack_pre[k] == a;
                if k < stack_pre.len() - 1 {
                    assert(stack@[k] == a);
                }
            }
        }
        let nbrs = neighbor_cells(size, e);
        let ghost chain_before = chain@;
        let ghost stack_before = stack@;
        let mut m: usize = 0;
        while m < nbrs.len()
            invariant
                m <= nbrs@.len(),
                chain@.no_duplicates(),
                stack@.no_duplicates(),
                chain@.len() >= 1,
                chain@[0] == start,
                chain@.contains(start),
                chain@.contains(e),
                forall|k: int|
                    0 <= k < chain@.len() ==> in_grid(szi, (#[trigger] chain@[k]) as int) && reach(
                        occ,
                        szi,
                        s0,
                        chain@[k] as int,
                    ),
                forall|k: int| 0 <= k < stack@.len() ==> chain@.contains(#[trigger] stack@[k]),
                forall|a: usize, j: int|
                    chain@.contains(a) && a != e && !stack@.contains(a) && #[trigger] adjacent(
                        szi,
                        a as int,
                        j,
                    ) && occ[j] == occ[s0] ==> chain@.contains(j as usize),
                forall|t: int|
                    0 <= t < m ==> (occ[(#[trigger] nbrs@[t]) as int] == occ[s0] ==> chain@.contains(
                        nbrs@[t],
                    )),
                chain_before.len() <= chain@.len(),
                stack@.len() - stack_before.len() == chain@.len() - chain_before.len(),
            decreases nbrs@.len() - m,
        {
            let j = nbrs[m];
            assert(adjacent(szi, e as int, j as int));
            assert(in_grid(szi, j as int));
            let same = spots[j].occupant == spots[start].occupant;
            if same && !contains_cell(&chain, j) {
                proof {
                    assert(occ[j as int] == spots@[j as int].occupant);
                    assert(occ[s0] == spots@[s0].occupant);
                    assert(reach(occ, szi, s0, e as int));
                    lemma_reach_step(occ, szi, s0, e as int, j as int);
                }
                let ghost chain_snap = chain@;
                let ghost stack_snap = stack@;
                chain.push(j);
                stack.push(j);
                proof {
                    assert forall|x: usize| chain_snap.contains(x) implies chain@.contains(x) by {
                        let k = choose|k: int| 0 <= k < chain_snap.len() && chain_snap[k] == x;
                        assert(chain@[k] == x);
                    }
                    assert forall|x: usize| stack_snap.contains(x) implies stack@.contains(x) by {
                        let k = choose|k: int| 0 <= k < stack_snap.len() && stack_snap[k] == x;
                        assert(stack@[k] == x);
                    }
                    assert(chain@[chain@.len() - 1] == j);
                    assert(stack@[stack@.len() - 1] == j);
                    assert forall|x: usize| stack@.contains(x) implies chain@.contains(x) by {
                        let k = choose|k: int| 0 <= k < stack@.len() && stack@[k] == x;
                        if k < stack@.len() - 1 {
                            assert(stack_snap[k] == x);
                        }
                    }
                }
            }
            m += 1;
        }
        proof {
            // After scanning all neighbors of `e`, the cell `e` is closed:
            // each of its same-colored neighbors is in the chain.
            assert forall|a: usize, j: int|
                chain@.contains(a) && !stack@.contains(a) && #[trigger] adjacent(szi, a as int, j)
                    && occ[j] == occ[s0] implies chain@.contains(j as usize) by {
                if a == e {
                    assert(nbrs@.contains(j as usize));
                    let t = choose|t: int| 0 <= t < nbrs@.len() && nbrs@[t] == j as usize;
                    assert(occ[nbrs@[t] as int] == occ[s0]);
                } else {
                }
            }
            lemma_bounded_distinct_len(chain@, szi * szi);
        }
    }
    proof {
        let s = Set::new(|j: int| in_grid(szi, j) && chain@.contains(j as usize));
        assert(s.contains(s0));
        assert forall|j: int| #[trigger] reach(occ, szi, s0, j) implies chain@.contains(j as usize) by {
            assert forall|a: int, b: int|
                s.contains(a) && #[trigger] adjacent(szi, a, b) && occ[b] == occ[s0]
                    implies s.contains(b) by {
                let au = a as usize;
                assert(chain@.contains(au));
                assert(au as int == a);
                assert(!stack@.contains(au));
                assert(chain@.contains(b as usize));
            }
            lemma_reach_in_closed_set(occ, szi, s0, j, s);
        }
    }
    chain
}

} // verus!
