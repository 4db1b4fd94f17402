//! The geometry of a square board: cell indices, coordinates, and
//! orthogonal adjacency.
//!
//! A board of side `size` stores its intersections in row-major order,
//! so the spot at `(row, col)` lives at index `row * size + col`.

use vstd::prelude::*;

verus! {

/// Number of intersections on a board of the given side length.
pub open spec fn cell_count(size: int) -> int {
    size * size
}

/// Whether `i` is a valid cell index on a board of side `size`.
pub open spec fn in_grid(size: int, i: int) -> bool {
    0 <= i < size * size
}

/// Row of the cell at index `i`.
pub open spec fn row_of(size: int, i: int) -> int {
    i / size
}

/// Column of the cell at index `i`.
pub open spec fn col_of(size: int, i: int) -> int {
    i % size
}

/// Index of the cell at `(row, col)`.
pub open spec fn cell_at(size: int, row: int, col: int) -> int {
    row * size + col
}

/// Orthogonal adjacency between two cell indices: the cells share a row
/// and their columns differ by one, or share a column and their rows
/// differ by one.
pub open spec fn adjacent(size: int, i: int, j: int) -> bool {
    &&& in_grid(size, i)
    &&& in_grid(size, j)
    &&& {
        ||| (j == i + 1 && i % size != size - 1)
        ||| (i == j + 1 && j % size != size - 1)
        ||| j == i + size
        ||| i == j + size
    }
}

/// Orthogonal adjacency between two in-bounds coordinate pairs.
pub open spec fn coords_adjacent(size: int, r1: int, c1: int, r2: int, c2: int) -> bool {
    &&& 0 <= r1 < size && 0 <= c1 < size
    &&& 0 <= r2 < size && 0 <= c2 < size
    &&& {
        ||| (r1 == r2 && (c2 == c1 + 1 || c1 == c2 + 1))
        ||| (c1 == c2 && (r2 == r1 + 1 || r1 == r2 + 1))
    }
}

/// Whether the cell at index `i` lies on the outer edge of the board.
pub open spec fn on_edge(size: int, i: int) -> bool {
    in_grid(size, i) && (row_of(size, i) == 0 || row_of(size, i) == size - 1 || col_of(size, i)
        == 0 || col_of(size, i) == size - 1)
}

/// Row-major indexing decodes back to the coordinates it was built from.
pub proof fn lemma_cell_at_decodes(size: int, row: int, col: int)
    requires
        0 <= row < size,
        0 <= col < size,
    ensures
        in_grid(size, cell_at(size, row, col)),
        row_of(size, cell_at(size, row, col)) == row,
        col_of(size, cell_at(size, row, col)) == col,
{
    let i = row * size + col;
    assert(0 <= i < size * size && i / size == row && i % size == col) by (nonlinear_arith)
        requires
            0 <= row < size,
            0 <= col < size,
            i == row * size + col,
    ;
}

/// Decoding a cell index yields in-bounds coordinates that encode back to it.
pub proof fn lemma_decode_cell(size: int, i: int)
    requires
        1 <= size,
        in_grid(size, i),
    ensures
        0 <= row_of(size, i) < size,
        0 <= col_of(size, i) < size,
        cell_at(size, row_of(size, i), col_of(size, i)) == i,
{
    vstd::arithmetic::div_mod::lemma_fundamental_div_mod(i, size);
    vstd::arithmetic::div_mod::lemma_mod_bound(i, size);
    let q = i / size;
    let r = i % size;
    assert(0 <= q && q < size && q * size + r == i) by (nonlinear_arith)
        requires
            1 <= size,
            0 <= i < size * size,
            0 <= r < size,
            i == size * q + r,
    ;
}

/// Adjacency of indices coincides with adjacency of the coordinates they
/// decode to.
pub proof fn lemma_adjacent_coords(size: int, i: int, j: int)
    requires
        1 <= size,
        in_grid(size, i),
        in_grid(size, j),
    ensures
        adjacent(size, i, j) <==> coords_adjacent(
            size,
            row_of(size, i),
            col_of(size, i),
            row_of(size, j),
            col_of(size, j),
        ),
{
    lemma_decode_cell(size, i);
    lemma_decode_cell(size, j);
    let r1 = row_of(size, i);
    let c1 = col_of(size, i);
    let r2 = row_of(size, j);
    let c2 = col_of(size, j);
    assert(i == r1 * size + c1);
    assert(j == r2 * size + c2);
    if adjacent(size, i, j) {
        if j == i + 1 && i % size != size - 1 {
            assert(c1 + 1 < size);
            lemma_cell_at_decodes(size, r1, c1 + 1);
            assert(r1 * size + (c1 + 1) == j);
            assert(r2 == r1 && c2 == c1 + 1);
        } else if i == j + 1 && j % size != size - 1 {
            assert(c2 + 1 < size);
            lemma_cell_at_decodes(size, r2, c2 + 1);
            assert(r1 == r2 && c1 == c2 + 1);
        } else if j == i + size {
            assert(r1 + 1 < size || r1 + 1 == size) by (nonlinear_arith)
                requires
                    0 <= r1 < size,
            ;
            assert((r1 + 1) * size + c1 == j) by (nonlinear_arith)
                requires
                    i == r1 * size + c1,
                    j == i + size,
            ;
            assert(r1 + 1 < size) by {
                if r1 + 1 == size {
                    assert(j >= size * size) by (nonlinear_arith)
                        requires
                            j == (r1 + 1) * size + c1,
                            r1 + 1 == size,
                            0 <= c1,
                    ;
                }
            }
            lemma_cell_at_decodes(size, r1 + 1, c1);
            assert(r2 == r1 + 1 && c2 == c1);
        } else {
            assert((r2 + 1) * size + c2 == i) by (nonlinear_arith)
                requires
                    j == r2 * size + c2,
                    i == j + size,
            ;
            assert(r2 + 1 < size) by {
                if r2 + 1 >= size {
                    assert(i >= size * size) by (nonlinear_arith)
                        requires
                            1 <= size,
                            i == (r2 + 1) * size + c2,
                            r2 + 1 >= size,
                            0 <= c2,
                    ;
                }
            }
            lemma_cell_at_decodes(size, r2 + 1, c2);
            assert(r1 == r2 + 1 && c1 == c2);
        }
    }
    if coords_adjacent(size, r1, c1, r2, c2) {
        if r1 == r2 && c2 == c1 + 1 {
            assert(j == i + 1);
            assert(i % size != size - 1);
        } else if r1 == r2 && c1 == c2 + 1 {
            assert(i == j + 1);
            assert(j % size != size - 1);
        } else if c1 == c2 && r2 == r1 + 1 {
            assert(j == i + size) by (nonlinear_arith)
                requires
                    i == r1 * size + c1,
                    j == r2 * size + c2,
                    c1 == c2,
                    r2 == r1 + 1,
            ;
        } else {
            assert(i == j + size) by (nonlinear_arith)
                requires
                    i == r1 * size + c1,
                    j == r2 * size + c2,
                    c1 == c2,
                    r1 == r2 + 1,
            ;
        }
    }
}

} // verus!
