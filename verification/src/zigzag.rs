//! The zigzag order of texture blocks.

use vstd::prelude::*;

verus! {

/// Division that rounds toward zero.
pub open spec fn trunc_div(i: int, u: int) -> int {
    if i >= 0 {
        if u >= 0 {
            i / u
        } else {
            -(i / (-u))
        }
    } else if u >= 0 {
        -((-i) / u)
    } else {
        (-i) / (-u)
    }
}

/// The remainder of a division that rounds toward zero.
pub open spec fn trunc_rem(i: int, u: int) -> int {
    i - trunc_div(i, u) * u
}

pub open spec fn fits(v: int) -> bool {
    i64::MIN <= v <= i64::MAX
}

/// The product of quotient and divisor lies between zero and the dividend.
proof fn lemma_trunc(i: int, u: int)
    requires
        u != 0,
    ensures
        i >= 0 ==> 0 <= trunc_div(i, u) * u <= i && 0 <= trunc_rem(i, u),
        i <= 0 ==> i <= trunc_div(i, u) * u <= 0 && trunc_rem(i, u) <= 0,
        i >= 0 && u > 0 ==> trunc_rem(i, u) < u,
{
    let a: int = if i >= 0 { i } else { -i };
    let b: int = if u >= 0 { u } else { -u };
    let q = a / b;
    vstd::arithmetic::div_mod::lemma_fundamental_div_mod(a, b);
    vstd::arithmetic::div_mod::lemma_mod_bound(a, b);
    assert(b * q == a - a % b);
    assert(q >= 0) by (nonlinear_arith)
        requires
            q == a / b,
            a >= 0,
            b > 0,
    ;
    assert(b * q >= 0) by (nonlinear_arith)
        requires
            q >= 0,
            b > 0,
    ;
    assert(q * b == b * q && (-q) * b == -(b * q) && q * (-b) == -(b * q) && (-q) * (-b) == b * q)
        by (nonlinear_arith);
}

/// A quotient is no larger than its dividend.
proof fn lemma_quotient_bound(i: int, u: int)
    requires
        u != 0,
    ensures
        i >= 0 ==> -i <= trunc_div(i, u) <= i,
        i <= 0 ==> i <= trunc_div(i, u) <= -i,
        i < 0 && u != -1 ==> trunc_div(i, u) < -i,
{
    let a: int = if i >= 0 { i } else { -i };
    let b: int = if u >= 0 { u } else { -u };
    vstd::arithmetic::div_mod::lemma_fundamental_div_mod(a, b);
    vstd::arithmetic::div_mod::lemma_mod_bound(a, b);
    vstd::arithmetic::div_mod::lemma_div_is_ordered_by_denominator(a, 1, b);
    if b > 1 && a > 0 {
        vstd::arithmetic::div_mod::lemma_div_decreases(a, b);
    }
    vstd::arithmetic::div_mod::lemma_div_pos_is_pos(a, b);
}

/// The remainder of `i / u`, with the sign of `i`.
pub fn mod_i(i: i64, u: i64) -> (r: i64)
    requires
        u != 0,
        !(i == i64::MIN && u == -1),
    ensures
        r == trunc_rem(i as int, u as int),
{
    proof {
        lemma_trunc(i as int, u as int);
        lemma_quotient_bound(i as int, u as int);
    }
    let q: i64 = i.checked_div(u).unwrap();
    i - q * u
}

pub open spec fn min_of(a: int, b: int) -> int {
    if a <= b {
        a
    } else {
        b
    }
}

pub open spec fn max_of(a: int, b: int) -> int {
    if a <= b {
        b
    } else {
        a
    }
}

/// The number of cells on the first `f` antidiagonals of a `y` by `t` grid: the diagonals grow by
/// one cell up to the shorter side, keep that length up to the longer side, then shrink by one.
pub open spec fn tri_sum_of(y: int, t: int, f: int) -> int {
    let x = min_of(y, t);
    let n = max_of(y, t);
    if f < x {
        f * (f + 1) / 2
    } else if f < n {
        x * (x + 1) / 2 + x * (f - x)
    } else {
        let r = f - n;
        x * (x + 1) / 2 + x * (n - x) + (x - 1) * r - (r - 1) * r / 2
    }
}

/// Every step of the evaluation of `tri_sum` stays within 64 bits.
pub open spec fn tri_sum_fits(y: int, t: int, f: int) -> bool {
    let x = min_of(y, t);
    let n = max_of(y, t);
    if f < x {
        fits(f + 1) && fits(f * (f + 1))
    } else if f < n {
        &&& fits(x + 1)
        &&& fits(x * (x + 1))
        &&& fits(f - x)
        &&& fits(x * (f - x))
        &&& fits(x * (x + 1) / 2 + x * (f - x))
    } else {
        let r = f - n;
        &&& fits(r)
        &&& fits(x + 1)
        &&& fits(x * (x + 1))
        &&& fits(n - x)
        &&& fits(x * (n - x))
        &&& fits(x * (x + 1) / 2 + x * (n - x))
        &&& fits(x - 1)
        &&& fits((x - 1) * r)
        &&& fits(x * (x + 1) / 2 + x * (n - x) + (x - 1) * r)
        &&& fits(r - 1)
        &&& fits((r - 1) * r)
        &&& fits(tri_sum_of(y, t, f))
    }
}

/// A product of neighbours is even and not negative.
proof fn lemma_neighbours(f: int)
    ensures
        f * (f + 1) >= 0,
        f * (f + 1) == 2 * (f * (f + 1) / 2),
{
    assert(f * (f + 1) >= 0) by (nonlinear_arith);
    let h = f / 2;
    if f % 2 == 0 {
        assert(f * (f + 1) == 2 * (h * (f + 1))) by (nonlinear_arith)
            requires
                f == 2 * h,
        ;
    } else {
        assert(f * (f + 1) == 2 * (f * (h + 1))) by (nonlinear_arith)
            requires
                f == 2 * h + 1,
        ;
    }
}

/// Halves a number that is even and not negative.
fn halve(v: i64) -> (r: i64)
    requires
        v >= 0,
    ensures
        r == v as int / 2,
{
    v.checked_div(2).unwrap()
}

/// The number of cells on the first `f` antidiagonals of a `y` by `t` grid.
pub fn tri_sum(y: i64, t: i64, f: i64) -> (r: i64)
    requires
        tri_sum_fits(y as int, t as int, f as int),
    ensures
        r == tri_sum_of(y as int, t as int, f as int),
{
    let x: i64 = if y <= t {
        y
    } else {
        t
    };
    let n: i64 = if y <= t {
        t
    } else {
        y
    };
    proof {
        lemma_neighbours(f as int);
        lemma_neighbours(x as int);
        lemma_neighbours(f - n - 1);
    }
    if f < x {
        return halve(f * (f + 1));
    }
    if f < n {
        return halve(x * (x + 1)) + x * (f - x);
    }
    let r: i64 = f - n;
    assert((r - 1) * r == (f - n - 1) * (f - n - 1 + 1));
    halve(x * (x + 1)) + x * (n - x) + (x - 1) * r - halve((r - 1) * r)
}

/// The place of cell (`px`, `py`) of a `gw` by `gh` grid in zigzag order.
pub open spec fn zigzag_of(gw: int, gh: int, px: int, py: int) -> int {
    let r = min_of(gw, gh);
    let n = max_of(gw, gh);
    let v = px + py;
    let even = trunc_rem(v, 2) == 0;
    let along = if v < r {
        if even {
            v - py
        } else {
            py
        }
    } else if v < n {
        let s = if gw < gh {
            r - (gw - px)
        } else {
            gh - py - 1
        };
        if even {
            s
        } else {
            r - s - 1
        }
    } else {
        let s = gh - py - 1;
        let e = r + n - v - 1;
        if even {
            s
        } else {
            e - s - 1
        }
    };
    tri_sum_of(gw, gh, v) + along
}

/// Every step of the evaluation of `xy_to_zigzag` stays within 64 bits.
pub open spec fn zigzag_fits(gw: int, gh: int, px: int, py: int) -> bool {
    let r = min_of(gw, gh);
    let n = max_of(gw, gh);
    let v = px + py;
    &&& fits(v)
    &&& tri_sum_fits(gw, gh, v)
    &&& fits(zigzag_of(gw, gh, px, py))
    &&& if v < r {
        fits(v - py)
    } else if v < n {
        &&& fits(gh - py)
        &&& fits(gh - py - 1)
        &&& gw < gh ==> fits(gw - px) && fits(r - (gw - px))
        &&& fits(r - (gh - py - 1))
        &&& fits(r - (gh - py - 1) - 1)
        &&& gw < gh ==> fits(r - (r - (gw - px))) && fits(r - (r - (gw - px)) - 1)
    } else {
        &&& fits(gh - py)
        &&& fits(gh - py - 1)
        &&& fits(r + n)
        &&& fits(r + n - v)
        &&& fits(r + n - v - 1)
        &&& fits(r + n - v - 1 - (gh - py - 1))
        &&& fits(r + n - v - 1 - (gh - py - 1) - 1)
    }
}

/// The place of cell (`px`, `py`) of a `gw` by `gh` grid in zigzag order.
pub fn xy_to_zigzag(gw: i64, gh: i64, px: i64, py: i64) -> (z: i64)
    requires
        zigzag_fits(gw as int, gh as int, px as int, py as int),
    ensures
        z == zigzag_of(gw as int, gh as int, px as int, py as int),
{
    let r: i64 = if gw <= gh {
        gw
    } else {
        gh
    };
    let n: i64 = if gw <= gh {
        gh
    } else {
        gw
    };
    let v: i64 = px + py;
    let even = mod_i(v, 2) == 0;
    let base: i64 = tri_sum(gw, gh, v);
    if v < r {
        return base + if even {
            v - py
        } else {
            py
        };
    }
    if v < n {
        let mut s: i64 = gh - py - 1;
        if gw < gh {
            s = r - (gw - px);
        }
        return base + if even {
            s
        } else {
            r - s - 1
        };
    }
    let s: i64 = gh - py - 1;
    let e: i64 = r + n - v - 1;
    base + if even {
        s
    } else {
        e - s - 1
    }
}

/// The column and row of a pixel inside its block, after the turn that belongs to the block.
pub open spec fn turned(rot: int, px: int, py: int) -> (int, int) {
    if rot == 1 {
        (7 - px, py)
    } else if rot == 2 {
        (py, px)
    } else if rot == 3 {
        (7 - py, px)
    } else {
        (px, py)
    }
}

/// The place of pixel (`x`, `y`) in the scrambled order of a texture of `bw` by `bh` blocks.
pub open spec fn block_idx_of(x: int, y: int, bw: int, bh: int) -> int {
    let bi = zigzag_of(bw, bh, trunc_div(x, 8), trunc_div(y, 8));
    let (px, py) = turned(trunc_rem(bi, 4), trunc_rem(x, 8), trunc_rem(y, 8));
    bi * 64 + px + py * 8
}

/// The place of pixel (`x`, `y`) in the scrambled order of a texture of `bw` by `bh` blocks.
pub fn pixel_to_block_idx(x: i64, y: i64, bw: i64, bh: i64) -> (r: usize)
    requires
        zigzag_fits(bw as int, bh as int, trunc_div(x as int, 8), trunc_div(y as int, 8)),
        fits(64 * zigzag_of(bw as int, bh as int, trunc_div(x as int, 8), trunc_div(y as int, 8))),
        0 <= block_idx_of(x as int, y as int, bw as int, bh as int) <= usize::MAX,
        block_idx_of(x as int, y as int, bw as int, bh as int) <= i64::MAX,
    ensures
        r == block_idx_of(x as int, y as int, bw as int, bh as int),
{
    proof {
        lemma_quotient_bound(x as int, 8);
        lemma_quotient_bound(y as int, 8);
    }
    let bi: i64 = xy_to_zigzag(bw, bh, x.checked_div(8).unwrap(), y.checked_div(8).unwrap());
    let rot: i64 = mod_i(bi, 4);
    let mut px: i64 = mod_i(x, 8);
    let mut py: i64 = mod_i(y, 8);
    proof {
        lemma_rem_bound(x as int);
        lemma_rem_bound(y as int);
    }
    if rot == 1 {
        px = 7 - px;
    } else if rot == 2 {
        let old_px: i64 = px;
        px = py;
        py = old_px;
    } else if rot == 3 {
        let old_px: i64 = px;
        px = 7 - py;
        py = old_px;
    }
    let index: i64 = bi * 64 + (px + py * 8);
    index as usize
}

proof fn lemma_rem_bound(i: int)
    ensures
        -8 < trunc_rem(i, 8) < 8,
        i >= 0 ==> trunc_rem(i, 8) == i % 8 && trunc_div(i, 8) == i / 8,
{
    let a: int = if i >= 0 { i } else { -i };
    vstd::arithmetic::div_mod::lemma_fundamental_div_mod(a, 8);
}

/// The number of cells of a `gw` by `gh` grid whose coordinates add up to `v`.
pub open spec fn diagonal_len(gw: int, gh: int, v: int) -> int {
    min_of(min_of(v, gw - 1), min_of(gh - 1, gw + gh - 2 - v)) + 1
}

/// Each diagonal adds its own cells to the count of the cells before it.
pub proof fn law_tri_sum_step(gw: int, gh: int, v: int)
    requires
        gw >= 1,
        gh >= 1,
        0 <= v <= gw + gh - 2,
    ensures
        tri_sum_of(gw, gh, v + 1) == tri_sum_of(gw, gh, v) + diagonal_len(gw, gh, v),
{
    let x = min_of(gw, gh);
    let n = max_of(gw, gh);
    lemma_neighbours(v);
    lemma_neighbours(v + 1);
    lemma_neighbours(x);
    let r = v - n;
    lemma_neighbours(r - 1);
    lemma_neighbours(r);
    assert((v + 1) * (v + 2) == v * (v + 1) + 2 * (v + 1)) by (nonlinear_arith);
    assert(x * (v + 1 - x) == x * (v - x) + x) by (nonlinear_arith);
    assert((x - 1) * (r + 1) == (x - 1) * r + (x - 1)) by (nonlinear_arith);
    assert((r + 1 - 1) * (r + 1) == (r - 1) * r + 2 * r) by (nonlinear_arith);
    assert((r - 1) * (r - 1 + 1) == (r - 1) * r);
    assert((r + 1 - 1) * (r + 1) == r * (r + 1));
    if v + 1 == x {
        assert(x * (v + 1 - x) == 0) by (nonlinear_arith)
            requires
                v + 1 == x,
        ;
        assert((v + 1) * (v + 1 + 1) == x * (x + 1));
        if x == n {
            assert((x - 1) * (v + 1 - n) == 0 && x * (n - x) == 0) by (nonlinear_arith)
                requires
                    v + 1 == n,
                    x == n,
            ;
            assert((v + 1 - n - 1) * (v + 1 - n) == 0) by (nonlinear_arith)
                requires
                    v + 1 == n,
            ;
        }
    } else if v + 1 == n {
        assert((x - 1) * (v + 1 - n) == 0 && (v + 1 - n - 1) * (v + 1 - n) == 0) by (nonlinear_arith)
            requires
                v + 1 == n,
        ;
    }
}

/// The diagonals hold `gw * gh` cells in all.
pub proof fn law_tri_sum_total(gw: int, gh: int)
    requires
        gw >= 1,
        gh >= 1,
    ensures
        tri_sum_of(gw, gh, 0) == 0,
        tri_sum_of(gw, gh, gw + gh - 1) == gw * gh,
{
    let x = min_of(gw, gh);
    let n = max_of(gw, gh);
    let r = x - 1;
    lemma_neighbours(x);
    lemma_neighbours(r - 1);
    assert((r - 1) * (r - 1 + 1) == (r - 1) * r);
    assert(x * (x + 1) + 2 * (x * (n - x)) + 2 * ((x - 1) * r) - (r - 1) * r == 2 * (x * n))
        by (nonlinear_arith)
        requires
            r == x - 1,
    ;
    assert(x * n == gw * gh) by (nonlinear_arith)
        requires
            (x == gw && n == gh) || (x == gh && n == gw),
    ;
}

proof fn lemma_tri_sum_monotone(gw: int, gh: int, u: int, v: int)
    requires
        gw >= 1,
        gh >= 1,
        0 <= u <= v <= gw + gh - 1,
    ensures
        tri_sum_of(gw, gh, u) <= tri_sum_of(gw, gh, v),
    decreases v - u,
{
    if u < v {
        lemma_tri_sum_monotone(gw, gh, u, v - 1);
        law_tri_sum_step(gw, gh, v - 1);
    }
}

proof fn lemma_parity(v: int)
    requires
        v >= 0,
    ensures
        (trunc_rem(v, 2) == 0) == (v % 2 == 0),
{
    vstd::arithmetic::div_mod::lemma_fundamental_div_mod(v, 2);
}

/// A cell is numbered among the cells of its own diagonal.
proof fn lemma_zigzag_on_diagonal(gw: int, gh: int, px: int, py: int)
    requires
        0 <= px < gw,
        0 <= py < gh,
    ensures
        tri_sum_of(gw, gh, px + py) <= zigzag_of(gw, gh, px, py) < tri_sum_of(
            gw,
            gh,
            px + py + 1,
        ),
{
    law_tri_sum_step(gw, gh, px + py);
}

/// The zigzag order numbers the cells of a grid from zero to one less than their count.
pub proof fn law_zigzag_in_range(gw: int, gh: int, px: int, py: int)
    requires
        0 <= px < gw,
        0 <= py < gh,
    ensures
        0 <= zigzag_of(gw, gh, px, py) < gw * gh,
{
    lemma_zigzag_on_diagonal(gw, gh, px, py);
    law_tri_sum_total(gw, gh);
    lemma_tri_sum_monotone(gw, gh, 0, px + py);
    lemma_tri_sum_monotone(gw, gh, px + py + 1, gw + gh - 1);
}

/// No two cells of a grid have the same place in zigzag order.
pub proof fn law_zigzag_injective(gw: int, gh: int, px: int, py: int, qx: int, qy: int)
    requires
        0 <= px < gw,
        0 <= py < gh,
        0 <= qx < gw,
        0 <= qy < gh,
        zigzag_of(gw, gh, px, py) == zigzag_of(gw, gh, qx, qy),
    ensures
        px == qx,
        py == qy,
{
    lemma_zigzag_on_diagonal(gw, gh, px, py);
    lemma_zigzag_on_diagonal(gw, gh, qx, qy);
    if px + py < qx + qy {
        lemma_tri_sum_monotone(gw, gh, px + py + 1, qx + qy);
    } else if qx + qy < px + py {
        lemma_tri_sum_monotone(gw, gh, qx + qy + 1, px + py);
    }
}

/// The cells of one diagonal are numbered before those of the next.
pub proof fn law_zigzag_goes_by_diagonals(gw: int, gh: int, px: int, py: int, qx: int, qy: int)
    requires
        0 <= px < gw,
        0 <= py < gh,
        0 <= qx < gw,
        0 <= qy < gh,
        px + py < qx + qy,
    ensures
        zigzag_of(gw, gh, px, py) < zigzag_of(gw, gh, qx, qy),
{
    lemma_zigzag_on_diagonal(gw, gh, px, py);
    lemma_zigzag_on_diagonal(gw, gh, qx, qy);
    lemma_tri_sum_monotone(gw, gh, px + py + 1, qx + qy);
}

/// Cells with consecutive numbers are neighbors.
pub proof fn law_zigzag_steps_to_a_neighbor(gw: int, gh: int, px: int, py: int, qx: int, qy: int)
    requires
        0 <= px < gw,
        0 <= py < gh,
        0 <= qx < gw,
        0 <= qy < gh,
        zigzag_of(gw, gh, qx, qy) == zigzag_of(gw, gh, px, py) + 1,
    ensures
        -1 <= qx - px <= 1,
        -1 <= qy - py <= 1,
{
    let v = px + py;
    let w = qx + qy;
    lemma_zigzag_on_diagonal(gw, gh, px, py);
    lemma_zigzag_on_diagonal(gw, gh, qx, qy);
    lemma_parity(v);
    lemma_parity(w);
    if w < v {
        law_zigzag_goes_by_diagonals(gw, gh, qx, qy, px, py);
    } else if w > v {
        law_tri_sum_step(gw, gh, v);
        law_tri_sum_step(gw, gh, v + 1);
        if w > v + 1 {
            lemma_tri_sum_monotone(gw, gh, v + 2, w);
        }
        assert(w == v + 1);
    }
}

/// The diagonal whose cells are numbered around `z`.
proof fn lemma_diagonal_of(gw: int, gh: int, z: int, upto: int) -> (v: int)
    requires
        gw >= 1,
        gh >= 1,
        0 <= z < tri_sum_of(gw, gh, upto),
        0 <= upto <= gw + gh - 1,
    ensures
        0 <= v < upto,
        tri_sum_of(gw, gh, v) <= z < tri_sum_of(gw, gh, v + 1),
    decreases upto,
{
    law_tri_sum_total(gw, gh);
    if tri_sum_of(gw, gh, upto - 1) <= z {
        upto - 1
    } else {
        lemma_diagonal_of(gw, gh, z, upto - 1)
    }
}

/// Every number below the count of the cells is the place of some cell.
pub proof fn law_zigzag_onto(gw: int, gh: int, z: int) -> (cell: (int, int))
    requires
        gw >= 1,
        gh >= 1,
        0 <= z < gw * gh,
    ensures
        0 <= cell.0 < gw,
        0 <= cell.1 < gh,
        zigzag_of(gw, gh, cell.0, cell.1) == z,
{
    law_tri_sum_total(gw, gh);
    let v = lemma_diagonal_of(gw, gh, z, gw + gh - 1);
    law_tri_sum_step(gw, gh, v);
    lemma_parity(v);
    let a = z - tri_sum_of(gw, gh, v);
    let r = min_of(gw, gh);
    let n = max_of(gw, gh);
    let even = v % 2 == 0;
    let px = if v < r {
        if even {
            a
        } else {
            v - a
        }
    } else if v < n {
        if gw < gh {
            if even {
                a
            } else {
                r - a - 1
            }
        } else if even {
            v - (gh - 1 - a)
        } else {
            v - a
        }
    } else {
        let e = r + n - v - 1;
        if even {
            v - (gh - 1 - a)
        } else {
            v - (gh - 1 - (e - a - 1))
        }
    };
    (px, v - px)
}

proof fn lemma_rot(bi: int)
    requires
        bi >= 0,
    ensures
        trunc_rem(bi, 4) == bi % 4,
{
    vstd::arithmetic::div_mod::lemma_fundamental_div_mod(bi, 4);
}

/// Every pixel of a texture has a place below the number of its pixels.
pub proof fn law_block_idx_in_range(x: int, y: int, bw: int, bh: int)
    requires
        0 <= x < 8 * bw,
        0 <= y < 8 * bh,
    ensures
        0 <= zigzag_of(bw, bh, x / 8, y / 8) < bw * bh,
        0 <= block_idx_of(x, y, bw, bh) < 64 * (bw * bh),
{
    lemma_rem_bound(x);
    lemma_rem_bound(y);
    law_zigzag_in_range(bw, bh, x / 8, y / 8);
    lemma_rot(zigzag_of(bw, bh, x / 8, y / 8));
}

/// The pixels of a block have the sixty-four places that belong to the block's place in zigzag
/// order.
pub proof fn law_block_idx_names_the_block(x: int, y: int, bw: int, bh: int)
    requires
        0 <= x < 8 * bw,
        0 <= y < 8 * bh,
    ensures
        block_idx_of(x, y, bw, bh) / 64 == zigzag_of(bw, bh, x / 8, y / 8),
{
    lemma_rem_bound(x);
    lemma_rem_bound(y);
    law_zigzag_in_range(bw, bh, x / 8, y / 8);
    lemma_rot(zigzag_of(bw, bh, x / 8, y / 8));
}

/// No two pixels of a texture have the same place.
pub proof fn law_block_idx_injective(x: int, y: int, u: int, v: int, bw: int, bh: int)
    requires
        0 <= x < 8 * bw,
        0 <= y < 8 * bh,
        0 <= u < 8 * bw,
        0 <= v < 8 * bh,
        block_idx_of(x, y, bw, bh) == block_idx_of(u, v, bw, bh),
    ensures
        x == u,
        y == v,
{
    law_block_idx_in_range(x, y, bw, bh);
    law_block_idx_in_range(u, v, bw, bh);
    lemma_rem_bound(x);
    lemma_rem_bound(y);
    lemma_rem_bound(u);
    lemma_rem_bound(v);
    let a = zigzag_of(bw, bh, x / 8, y / 8);
    let b = zigzag_of(bw, bh, u / 8, v / 8);
    lemma_rot(a);
    lemma_rot(b);
    assert(a == b);
    law_zigzag_injective(bw, bh, x / 8, y / 8, u / 8, v / 8);
}

/// Every number below the number of pixels is the place of some pixel.
pub proof fn law_block_idx_onto(z: int, bw: int, bh: int) -> (pixel: (int, int))
    requires
        bw >= 1,
        bh >= 1,
        0 <= z < 64 * (bw * bh),
    ensures
        0 <= pixel.0 < 8 * bw,
        0 <= pixel.1 < 8 * bh,
        block_idx_of(pixel.0, pixel.1, bw, bh) == z,
{
    let bi = z / 64;
    let cell = law_zigzag_onto(bw, bh, bi);
    lemma_rot(bi);
    let rot = bi % 4;
    let col = (z % 64) % 8;
    let row = (z % 64) / 8;
    let (px, py) = if rot == 1 {
        (7 - col, row)
    } else if rot == 2 {
        (row, col)
    } else if rot == 3 {
        (row, 7 - col)
    } else {
        (col, row)
    };
    let x = cell.0 * 8 + px;
    let y = cell.1 * 8 + py;
    lemma_rem_bound(x);
    lemma_rem_bound(y);
    (x, y)
}

} // verus!
