//! Cell indices of a uniform 3D grid of `w * h * d` cells, laid out
//! `z * (w * h) + y * w + x`: clamping integer coordinates into the grid and
//! flattening them, and splitting an index back into coordinates.

use vstd::prelude::*;

verus! {

/// `v` held to `0..=hi`.
pub open spec fn clamp_coord(v: int, hi: int) -> int {
    if v < 0 {
        0
    } else if v > hi {
        hi
    } else {
        v
    }
}

/// The grid has at least one cell in each direction, its layers fit a
/// `u16`, and so does every index.
pub open spec fn grid_fits(w: u16, h: u16, d: u16) -> bool {
    &&& w >= 1
    &&& h >= 1
    &&& d >= 1
    &&& (w as int) * (h as int) <= 65535
    &&& (w as int) * (h as int) * (d as int) <= 65536
}

/// Clamp the coordinate `v` into `0..n`.
fn clamp_into(v: i32, n: u16) -> (r: u16)
    requires
        n >= 1,
    ensures
        r == clamp_coord(v as int, n - 1),
{
    let hi = (n as i32) - 1;
    if v < 0 {
        0
    } else if v > hi {
        hi as u16
    } else {
        v as u16
    }
}

/// The cell of the coordinates `(ix, iy, iz)`, each first clamped into the
/// grid.
pub fn flatten_clamped(ix: i32, iy: i32, iz: i32, w: u16, h: u16, d: u16) -> (r: u16)
    requires
        grid_fits(w, h, d),
    ensures
        r == clamp_coord(iz as int, d - 1) * ((w as int) * (h as int)) + clamp_coord(
            iy as int,
            h - 1,
        ) * (w as int) + clamp_coord(ix as int, w - 1),
        r < (w as int) * (h as int) * (d as int),
{
    let cx = clamp_into(ix, w);
    let cy = clamp_into(iy, h);
    let cz = clamp_into(iz, d);
    let wh = w * h;
    proof {
        lemma_flat_bound(cx as int, cy as int, cz as int, w as int, h as int, d as int);
    }
    cz * wh + cy * w + cx
}

/// Below a grid of `w * h * d` cells, `z * (w * h) + y * w + x` with each
/// coordinate inside the grid is below `w * h * d`.
proof fn lemma_flat_bound(x: int, y: int, z: int, w: int, h: int, d: int)
    requires
        0 <= x < w,
        0 <= y < h,
        0 <= z < d,
    ensures
        0 <= y * w + x < w * h,
        0 <= z * (w * h) + y * w + x < w * h * d,
{
    assert(0 <= y * w + x < w * h) by (nonlinear_arith)
        requires
            0 <= x < w,
            0 <= y < h,
    ;
    assert(0 <= z * (w * h) + y * w + x < w * h * d) by (nonlinear_arith)
        requires
            0 <= y * w + x < w * h,
            0 <= z < d,
    ;
}

/// The coordinates `(x, y, z)` of the cell `cell`.
pub fn split_cell(cell: u16, w: u16, h: u16) -> (r: (u16, u16, u16))
    requires
        w >= 1,
        h >= 1,
        (w as int) * (h as int) <= 65535,
    ensures
        r.2 == cell as int / ((w as int) * (h as int)),
        r.1 == (cell as int % ((w as int) * (h as int))) / (w as int),
        r.0 == (cell as int % ((w as int) * (h as int))) % (w as int),
        r.0 < w,
        r.1 < h,
        r.2 * ((w as int) * (h as int)) + r.1 * (w as int) + r.0 == cell,
{
    proof {
        assert((w as int) * (h as int) >= 1) by (nonlinear_arith)
            requires
                w >= 1,
                h >= 1,
        ;
    }
    let wh = w * h;
    let cz = cell / wh;
    let rem = cell % wh;
    let cy = rem / w;
    let cx = rem % w;
    proof {
        let whi = (w as int) * (h as int);
        vstd::arithmetic::div_mod::lemma_fundamental_div_mod(cell as int, whi);
        vstd::arithmetic::div_mod::lemma_fundamental_div_mod(rem as int, w as int);
        vstd::arithmetic::div_mod::lemma_multiply_divide_lt(rem as int, w as int, h as int);
    }
    (cx, cy, cz)
}

/// Splitting the index of a cell inside the grid gives back its coordinates.
pub proof fn lemma_split_flatten(x: int, y: int, z: int, w: u16, h: u16, d: u16)
    requires
        grid_fits(w, h, d),
        0 <= x < w,
        0 <= y < h,
        0 <= z < d,
    ensures
        ({
            let wh = (w as int) * (h as int);
            let cell = z * wh + y * (w as int) + x;
            &&& cell / wh == z
            &&& (cell % wh) / (w as int) == y
            &&& (cell % wh) % (w as int) == x
        }),
{
    let wh = (w as int) * (h as int);
    let cell = z * wh + y * (w as int) + x;
    lemma_flat_bound(x, y, z, w as int, h as int, d as int);
    vstd::arithmetic::div_mod::lemma_fundamental_div_mod_converse(cell, wh, z, y * (w as int) + x);
    vstd::arithmetic::div_mod::lemma_fundamental_div_mod_converse(y * (w as int) + x, w as int, y, x);
}

} // verus!
