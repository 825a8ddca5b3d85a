use vstd::prelude::*;
use vstd::arithmetic::div_mod::{lemma_fundamental_div_mod, lemma_fundamental_div_mod_converse};
use crate::rules::Direction;

verus! {

/// The column of the cell stored at index `i` of a grid `w` wide.
pub open spec fn column(w: int, i: int) -> int {
    i % w
}

/// The row of the cell stored at index `i` of a grid `w` wide.
pub open spec fn row(w: int, i: int) -> int {
    i / w
}

/// The index of the cell beside cell `i` on side `d`, in a `w` by `h` grid
/// stored row after row; none at the edge.
pub open spec fn neighbor_index(w: int, h: int, i: int, d: Direction) -> Option<int> {
    match d {
        Direction::Up => if row(w, i) > 0 { Some(i - w) } else { None },
        Direction::Down => if row(w, i) + 1 < h { Some(i + w) } else { None },
        Direction::Left => if column(w, i) > 0 { Some(i - 1) } else { None },
        Direction::Right => if column(w, i) + 1 < w { Some(i + 1) } else { None },
    }
}

pub proof fn lemma_position(w: int, h: int, i: int)
    requires
        w > 0,
        h > 0,
        0 <= i < w * h,
    ensures
        0 <= column(w, i) < w,
        0 <= row(w, i) < h,
        i == row(w, i) * w + column(w, i),
{
    lemma_fundamental_div_mod(i, w);
    let q = i / w;
    let r = i % w;
    assert(0 <= r < w);
    assert(q * w == w * q) by (nonlinear_arith);
    assert(0 <= q) by (nonlinear_arith)
        requires i == q * w + r, r < w, w > 0, i >= 0;
    assert(q < h) by (nonlinear_arith)
        requires i == q * w + r, r >= 0, w > 0, i < w * h;
}

/// The cell at column `x` and row `y` is stored at index `y * w + x`.
pub proof fn lemma_index_of(w: int, h: int, x: int, y: int)
    requires
        0 <= x < w,
        0 <= y < h,
    ensures
        0 <= y * w + x < w * h,
        column(w, y * w + x) == x,
        row(w, y * w + x) == y,
{
    assert(0 <= y * w + x < w * h) by (nonlinear_arith)
        requires 0 <= x < w, 0 <= y < h;
    lemma_fundamental_div_mod_converse(y * w + x, w, y, x);
}

/// A neighbour lies in the grid, and the cell is its neighbour on the
/// opposite side.
pub proof fn lemma_neighbor(w: int, h: int, i: int, d: Direction)
    requires
        w > 0,
        h > 0,
        0 <= i < w * h,
    ensures
        match neighbor_index(w, h, i, d) {
            Some(j) => 0 <= j < w * h && neighbor_index(w, h, j, d.opposite_spec()) == Some(i),
            None => true,
        },
{
    lemma_position(w, h, i);
    let q = row(w, i);
    let r = column(w, i);
    match d {
        Direction::Up => {
            if q > 0 {
                assert(i - w == (q - 1) * w + r) by (nonlinear_arith)
                    requires i == q * w + r;
                lemma_fundamental_div_mod_converse(i - w, w, q - 1, r);
                assert(0 <= (q - 1) * w) by (nonlinear_arith)
                    requires q >= 1, w > 0;
            }
        },
        Direction::Down => {
            if q + 1 < h {
                assert(i + w == (q + 1) * w + r) by (nonlinear_arith)
                    requires i == q * w + r;
                lemma_fundamental_div_mod_converse(i + w, w, q + 1, r);
                assert((q + 1) * w + r < w * h) by (nonlinear_arith)
                    requires q + 1 < h, r < w, w > 0;
            }
        },
        Direction::Left => {
            if r > 0 {
                lemma_fundamental_div_mod_converse(i - 1, w, q, r - 1);
            }
        },
        Direction::Right => {
            if r + 1 < w {
                lemma_fundamental_div_mod_converse(i + 1, w, q, r + 1);
                assert(q * w + r + 1 < w * h) by (nonlinear_arith)
                    requires q < h, r + 1 < w, w > 0;
            }
        },
    }
}

/// The index of the cell beside cell `i` on side `d`, if the grid has one.
pub fn neighbor(w: usize, h: usize, i: usize, d: Direction) -> (r: Option<usize>)
    requires
        w > 0,
        h > 0,
        i < w * h,
        w * h <= usize::MAX,
    ensures
        match r {
            Some(j) => neighbor_index(w as int, h as int, i as int, d) == Some(j as int),
            None => neighbor_index(w as int, h as int, i as int, d) is None,
        },
{
    proof {
        lemma_neighbor(w as int, h as int, i as int, d);
        lemma_position(w as int, h as int, i as int);
    }
    let x = i % w;
    let y = i / w;
    match d {
        Direction::Up => if y > 0 { Some(i - w) } else { None },
        Direction::Down => if y + 1 < h { Some(i + w) } else { None },
        Direction::Left => if x > 0 { Some(i - 1) } else { None },
        Direction::Right => if x + 1 < w { Some(i + 1) } else { None },
    }
}

} // verus!
