//! Restoring scrambled textures.

use crate::zigzag::{
    block_idx_of, law_block_idx_in_range, law_block_idx_injective, law_block_idx_onto, max_of,
    min_of, pixel_to_block_idx, tri_sum_fits, trunc_div, zigzag_fits, zigzag_of,
};
use vstd::prelude::*;

verus! {

/// How far the pixels of a texture with key `pk` are shifted along the scrambled order.
pub open spec fn shift_of(pk: int, total: int) -> int {
    (-(pk * 64)) % total
}

/// Pixel (`x`, `y`) of the restored texture comes from pixel (`sx`, `sy`) of the scrambled one.
pub open spec fn feeds(sx: int, sy: int, x: int, y: int, w: int, h: int, shift: int) -> bool {
    &&& 0 <= sx < w
    &&& 0 <= sy < h
    &&& 0 <= x < w
    &&& 0 <= y < h
    &&& block_idx_of(sx, sy, w / 8, h / 8) == (block_idx_of(x, y, w / 8, h / 8) + shift) % (w * h)
}

/// Component `c` of pixel (`x`, `y`) in a buffer of four-byte pixels.
pub open spec fn component(pixels: Seq<u8>, w: int, x: int, y: int, c: int) -> u8 {
    pixels[4 * (y * w + x) + c]
}

/// `out` is the texture `pixels` with every pixel moved along the scrambled order by `shift`.
pub open spec fn is_shifted(out: Seq<u8>, pixels: Seq<u8>, w: int, h: int, shift: int) -> bool {
    &&& out.len() == 4 * (w * h)
    &&& pixels.len() == 4 * (w * h)
    &&& forall|sx: int, sy: int, x: int, y: int, c: int|
        #![trigger component(pixels, w, sx, sy, c), component(out, w, x, y, c)]
        feeds(sx, sy, x, y, w, h, shift) && 0 <= c < 4 ==> component(out, w, x, y, c) == component(
            pixels,
            w,
            sx,
            sy,
            c,
        )
}

proof fn lemma_product_bound(a: int, b: int, m: int)
    requires
        -m <= a <= m,
        -m <= b <= m,
        m >= 0,
    ensures
        -(m * m) <= a * b <= m * m,
{
    assert(-(m * m) <= a * b <= m * m) by (nonlinear_arith)
        requires
            -m <= a <= m,
            -m <= b <= m,
            m >= 0,
    ;
}

/// The zigzag numbering of a cell of a grid with sides up to 2^29 stays within 64 bits.
proof fn lemma_zigzag_fits(gw: int, gh: int, px: int, py: int)
    requires
        0 <= px < gw <= 0x2000_0000,
        0 <= py < gh <= 0x2000_0000,
    ensures
        zigzag_fits(gw, gh, px, py),
        tri_sum_fits(gw, gh, px + py),
{
    let m: int = 0x4000_0001;
    let x = min_of(gw, gh);
    let n = max_of(gw, gh);
    let v = px + py;
    let r = v - n;
    assert(m * m == 0x1000_0000_8000_0001);
    lemma_product_bound(v, v + 1, m);
    lemma_product_bound(x, x + 1, m);
    lemma_product_bound(x, v - x, m);
    lemma_product_bound(x, n - x, m);
    lemma_product_bound(x - 1, r, m);
    lemma_product_bound(r - 1, r, m);
}

/// Every pixel of a texture whose places can be counted has one that can be computed.
pub proof fn law_places_can_be_computed(x: int, y: int, bw: int, bh: int)
    requires
        0 <= x < 8 * bw,
        0 <= y < 8 * bh,
        bw <= 0x2000_0000,
        bh <= 0x2000_0000,
        64 * (bw * bh) <= i64::MAX,
    ensures
        zigzag_fits(bw, bh, trunc_div(x, 8), trunc_div(y, 8)),
        i64::MIN <= 64 * zigzag_of(bw, bh, trunc_div(x, 8), trunc_div(y, 8)) <= i64::MAX,
        0 <= block_idx_of(x, y, bw, bh) <= i64::MAX,
{
    law_block_idx_in_range(x, y, bw, bh);
    lemma_zigzag_fits(bw, bh, x / 8, y / 8);
}

proof fn lemma_pixel_index(x: int, y: int, w: int, h: int)
    requires
        0 <= x < w,
        0 <= y < h,
    ensures
        0 <= y * w,
        0 <= y * w + x < w * h,
{
    assert(0 <= y * w && y * w + x < w * h) by (nonlinear_arith)
        requires
            0 <= x < w,
            0 <= y < h,
    ;
}

proof fn lemma_block_count(w: int, h: int)
    requires
        w >= 0,
        h >= 0,
        w % 8 == 0,
        h % 8 == 0,
    ensures
        64 * ((w / 8) * (h / 8)) == w * h,
        8 * (w / 8) == w,
        8 * (h / 8) == h,
{
    let a = w / 8;
    let b = h / 8;
    assert(64 * (a * b) == (8 * a) * (8 * b)) by (nonlinear_arith);
}

/// The place of a pixel in the scrambled order.
fn place(x: u32, y: u32, w: u32, h: u32) -> (r: usize)
    requires
        x < w,
        y < h,
        w % 8 == 0,
        h % 8 == 0,
        w * h <= u32::MAX,
    ensures
        r == block_idx_of(x as int, y as int, (w / 8) as int, (h / 8) as int),
        r < w * h,
{
    proof {
        lemma_block_count(w as int, h as int);
        law_block_idx_in_range(x as int, y as int, (w / 8) as int, (h / 8) as int);
        lemma_zigzag_fits((w / 8) as int, (h / 8) as int, x as int / 8, y as int / 8);
        assert(trunc_div(x as int, 8) == x as int / 8);
        assert(trunc_div(y as int, 8) == y as int / 8);
    }
    pixel_to_block_idx(x as i64, y as i64, (w / 8) as i64, (h / 8) as i64)
}

/// Restores a scrambled texture of four-byte pixels; a texture whose sides are not multiples of
/// eight is not scrambled.
pub fn descramble(pixels: &[u8], w: u32, h: u32, pk: u32) -> (r: Option<Vec<u8>>)
    requires
        w % 8 == 0 && h % 8 == 0 ==> 0 < w * h <= u32::MAX && pixels@.len() == 4 * (w * h),
    ensures
        r is Some <==> w % 8 == 0 && h % 8 == 0,
        r matches Some(out) ==> is_shifted(
            out@,
            pixels@,
            w as int,
            h as int,
            shift_of(pk as int, w * h),
        ),
{
    if w % 8 != 0 || h % 8 != 0 {
        return None;
    }
    proof {
        lemma_block_count(w as int, h as int);
        assert(w > 0 && h > 0) by (nonlinear_arith)
            requires
                w * h > 0,
                w >= 0,
                h >= 0,
        ;
    }
    let total: usize = (w * h) as usize;
    let ghost shift = shift_of(pk as int, total as int);
    let offset: usize = (total - ((pk as u64 * 64) % (total as u64)) as usize) % total;
    assert(offset == shift) by {
        let k = pk as int * 64;
        let t = total as int;
        vstd::arithmetic::div_mod::lemma_fundamental_div_mod(k, t);
        let q = k / t;
        assert(-k == t * (-q) - k % t) by (nonlinear_arith)
            requires
                k == t * q + k % t,
        ;
        assert(t * (-q) - k % t == (-q - 1) * t + (t - k % t)) by (nonlinear_arith);
        vstd::arithmetic::div_mod::lemma_mod_multiples_vanish(-q - 1, t - k % t, t);
        assert(t * (-q - 1) == (-q - 1) * t) by (nonlinear_arith);
    }
    let mut block_map: Vec<usize> = Vec::new();
    let mut inv: Vec<(u32, u32)> = Vec::new();
    inv.resize(total, (0u32, 0u32));
    let ghost bw = w as int / 8;
    let ghost bh = h as int / 8;
    let mut y: u32 = 0;
    while y < h
        invariant
            y <= h,
            w > 0,
            w % 8 == 0,
            h % 8 == 0,
            w * h <= u32::MAX,
            total == w * h,
            bw == w as int / 8,
            bh == h as int / 8,
            block_map@.len() == y * w,
            inv@.len() == total,
            forall|b: int, a: int|
                #![trigger block_idx_of(a, b, bw, bh)]
                0 <= a < w && 0 <= b < y ==> block_map@[b * w + a] == block_idx_of(a, b, bw, bh)
                    && inv@[block_idx_of(a, b, bw, bh)] == (a as u32, b as u32),
        decreases h - y,
    {
        let mut x: u32 = 0;
        while x < w
            invariant
                x <= w,
                y < h,
                w % 8 == 0,
                h % 8 == 0,
                w * h <= u32::MAX,
                total == w * h,
                bw == w as int / 8,
                bh == h as int / 8,
                block_map@.len() == y * w + x,
                inv@.len() == total,
                forall|b: int, a: int|
                    #![trigger block_idx_of(a, b, bw, bh)]
                    0 <= a < w && 0 <= b <= y && (b < y || a < x) ==> block_map@[b * w + a]
                        == block_idx_of(a, b, bw, bh) && inv@[block_idx_of(a, b, bw, bh)] == (
                        a as u32,
                        b as u32,
                    ),
            decreases w - x,
        {
            let fi: usize = place(x, y, w, h);
            let ghost before = inv@;
            let ghost map_before = block_map@;
            block_map.push(fi);
            inv.set(fi, (x, y));
            proof {
                assert forall|b: int, a: int|
                    #![trigger block_idx_of(a, b, bw, bh)]
                    0 <= a < w && 0 <= b <= y && (b < y || a < x + 1) implies block_map@[b * w + a]
                    == block_idx_of(a, b, bw, bh) && inv@[block_idx_of(a, b, bw, bh)] == (
                    a as u32,
                    b as u32,
                ) by {
                    lemma_block_count(w as int, h as int);
                    law_block_idx_in_range(a, b, bw, bh);
                    if b == y && a == x {
                    } else {
                        if block_idx_of(a, b, bw, bh) == fi {
                            law_block_idx_injective(a, b, x as int, y as int, bw, bh);
                        }
                        assert(b * w + a < y * w + x) by (nonlinear_arith)
                            requires
                                0 <= a < w,
                                0 <= b <= y,
                                b < y || a < x,
                                0 <= x,
                        ;
                        lemma_pixel_index(a, b, w as int, h as int);
                        assert(block_map@[b * w + a] == map_before[b * w + a]);
                    }
                }
            }
            x += 1;
        }
        assert((y + 1) * w == y * w + w) by (nonlinear_arith);
        y += 1;
    }
    let mut out: Vec<u8> = Vec::new();
    let mut i: usize = 0;
    let length: usize = pixels.len();
    assert(h * w == w * h) by (nonlinear_arith);
    while i < total
        invariant
            i <= total,
            w > 0,
            h > 0,
            w % 8 == 0,
            h % 8 == 0,
            w * h <= u32::MAX,
            total == w * h,
            bw == w as int / 8,
            bh == h as int / 8,
            0 <= offset < total,
            offset == shift,
            length == pixels@.len(),
            length == 4 * total,
            block_map@.len() == total,
            inv@.len() == total,
            out@.len() == 4 * i,
            forall|b: int, a: int|
                #![trigger block_idx_of(a, b, bw, bh)]
                0 <= a < w && 0 <= b < h ==> block_map@[b * w + a] == block_idx_of(a, b, bw, bh)
                    && inv@[block_idx_of(a, b, bw, bh)] == (a as u32, b as u32),
            forall|sx: int, sy: int, x: int, y: int, c: int|
                #![trigger component(pixels@, w as int, sx, sy, c), component(out@, w as int, x, y, c)]
                feeds(sx, sy, x, y, w as int, h as int, shift) && 0 <= c < 4 && y * w + x < i
                    ==> component(out@, w as int, x, y, c) == component(
                    pixels@,
                    w as int,
                    sx,
                    sy,
                    c,
                ),
        decreases total - i,
    {
        let ghost gx = i as int % w as int;
        let ghost gy = i as int / w as int;
        proof {
            vstd::arithmetic::div_mod::lemma_fundamental_div_mod(i as int, w as int);
            vstd::arithmetic::div_mod::lemma_mod_bound(i as int, w as int);
            assert(w * gy == gy * w) by (nonlinear_arith);
            assert(0 <= gy < h) by (nonlinear_arith)
                requires
                    gy * w + gx == i,
                    0 <= gx < w,
                    i < w * h,
                    i >= 0,
                    w > 0,
            ;
            lemma_block_count(w as int, h as int);
            law_block_idx_in_range(gx, gy, bw, bh);
            assert(block_map@[gy * w + gx] == block_idx_of(gx, gy, bw, bh));
        }
        let fi: usize = block_map[i];
        let shifted: usize = ((fi as u64 + offset as u64) % (total as u64)) as usize;
        proof {
            let pixel = law_block_idx_onto(shifted as int, bw, bh);
            assert(inv@[shifted as int] == (pixel.0 as u32, pixel.1 as u32));
            lemma_pixel_index(pixel.0, pixel.1, w as int, h as int);
        }
        let sx: u32 = inv[shifted].0;
        let sy: u32 = inv[shifted].1;
        let at: usize = (sy * w + sx) as usize * 4;
        let ghost before = out@;
        out.push(pixels[at]);
        out.push(pixels[at + 1]);
        out.push(pixels[at + 2]);
        out.push(pixels[at + 3]);
        proof {
            assert forall|tx: int, ty: int, x: int, y: int, c: int|
                #![trigger component(pixels@, w as int, tx, ty, c), component(out@, w as int, x, y, c)]
                feeds(tx, ty, x, y, w as int, h as int, shift) && 0 <= c < 4 && y * w + x < i
                    + 1 implies component(out@, w as int, x, y, c) == component(
                pixels@,
                w as int,
                tx,
                ty,
                c,
            ) by {
                lemma_pixel_index(x, y, w as int, h as int);
                if y * w + x == i {
                    assert(x == gx && y == gy) by (nonlinear_arith)
                        requires
                            y * w + x == i,
                            gy * w + gx == i,
                            0 <= x < w,
                            0 <= gx < w,
                    ;
                    law_block_idx_injective(tx, ty, sx as int, sy as int, bw, bh);
                } else {
                    assert(component(before, w as int, x, y, c) == component(
                        pixels@,
                        w as int,
                        tx,
                        ty,
                        c,
                    ));
                }
            }
        }
        i += 1;
    }
    proof {
        assert forall|sx: int, sy: int, x: int, y: int, c: int|
            #![trigger component(pixels@, w as int, sx, sy, c), component(out@, w as int, x, y, c)]
            feeds(sx, sy, x, y, w as int, h as int, shift) && 0 <= c < 4 implies component(
            out@,
            w as int,
            x,
            y,
            c,
        ) == component(pixels@, w as int, sx, sy, c) by {
            lemma_pixel_index(x, y, w as int, h as int);
        }
    }
    Some(out)
}

/// Every pixel of a restored texture comes from some pixel of the scrambled one.
pub proof fn law_every_pixel_is_fed(x: int, y: int, w: int, h: int, shift: int) -> (from: (int, int))
    requires
        w % 8 == 0,
        h % 8 == 0,
        0 <= x < w,
        0 <= y < h,
    ensures
        feeds(from.0, from.1, x, y, w, h, shift),
{
    lemma_block_count(w, h);
    lemma_pixel_index(x, y, w, h);
    law_block_idx_onto((block_idx_of(x, y, w / 8, h / 8) + shift) % (w * h), w / 8, h / 8)
}

/// No pixel of a scrambled texture is used for two pixels of the restored one.
pub proof fn law_no_pixel_feeds_twice(
    sx: int,
    sy: int,
    x: int,
    y: int,
    u: int,
    v: int,
    w: int,
    h: int,
    shift: int,
)
    requires
        w % 8 == 0,
        h % 8 == 0,
        feeds(sx, sy, x, y, w, h, shift),
        feeds(sx, sy, u, v, w, h, shift),
    ensures
        x == u,
        y == v,
{
    lemma_block_count(w, h);
    lemma_pixel_index(x, y, w, h);
    let a = block_idx_of(x, y, w / 8, h / 8);
    let b = block_idx_of(u, v, w / 8, h / 8);
    law_block_idx_in_range(x, y, w / 8, h / 8);
    law_block_idx_in_range(u, v, w / 8, h / 8);
    vstd::arithmetic::div_mod::lemma_mod_equivalence(a + shift, b + shift, w * h);
    assert((a - b) % (w * h) == 0);
    if a >= b {
        vstd::arithmetic::div_mod::lemma_small_mod((a - b) as nat, (w * h) as nat);
    } else {
        vstd::arithmetic::div_mod::lemma_mod_equivalence(b + shift, a + shift, w * h);
        vstd::arithmetic::div_mod::lemma_small_mod((b - a) as nat, (w * h) as nat);
    }
    law_block_idx_injective(x, y, u, v, w / 8, h / 8);
}

/// Shifting a texture and shifting it back gives the texture.
pub proof fn law_shift_is_undone(
    back: Seq<u8>,
    moved: Seq<u8>,
    pixels: Seq<u8>,
    w: int,
    h: int,
    shift: int,
)
    requires
        w > 0,
        h > 0,
        w % 8 == 0,
        h % 8 == 0,
        is_shifted(moved, pixels, w, h, shift),
        is_shifted(back, moved, w, h, -shift),
    ensures
        back == pixels,
{
    let total = w * h;
    assert(total > 0) by (nonlinear_arith)
        requires
            total == w * h,
            w > 0,
            h > 0,
    ;
    lemma_block_count(w, h);
    assert forall|k: int| 0 <= k < back.len() implies back[k] == pixels[k] by {
        let c = k % 4;
        let i = k / 4;
        let x = i % w;
        let y = i / w;
        vstd::arithmetic::div_mod::lemma_fundamental_div_mod(i, w);
        vstd::arithmetic::div_mod::lemma_mod_bound(i, w);
        assert(w * y == y * w) by (nonlinear_arith);
        assert(0 <= y < h) by (nonlinear_arith)
            requires
                y * w + x == i,
                0 <= x < w,
                0 <= i < w * h,
                w > 0,
        ;
        // The pixel of `moved` that lands at (x, y) is itself fed by (x, y).
        let (mx, my) = law_every_pixel_is_fed(x, y, w, h, -shift);
        let a = block_idx_of(x, y, w / 8, h / 8);
        let b = block_idx_of(mx, my, w / 8, h / 8);
        law_block_idx_in_range(x, y, w / 8, h / 8);
        vstd::arithmetic::div_mod::lemma_add_mod_noop(a - shift, shift, total);
        vstd::arithmetic::div_mod::lemma_add_mod_noop(b, shift, total);
        vstd::arithmetic::div_mod::lemma_mod_twice(a - shift, total);
        vstd::arithmetic::div_mod::lemma_small_mod(a as nat, total as nat);
        assert((b + shift) % total == a);
        assert(feeds(x, y, mx, my, w, h, shift));
        assert(component(back, w, x, y, c) == component(moved, w, mx, my, c));
        assert(component(moved, w, mx, my, c) == component(pixels, w, x, y, c));
    }
    assert(back =~= pixels);
}

/// A key moves a texture back by as many blocks of sixty-four pixels, around its end.
pub proof fn law_key_shifts_by_blocks(pk: int, total: int)
    requires
        pk >= 0,
        total > 0,
    ensures
        0 <= shift_of(pk, total) < total,
        (shift_of(pk, total) + 64 * pk) % total == 0,
{
    let n = -(pk * 64);
    vstd::arithmetic::div_mod::lemma_fundamental_div_mod(n, total);
    let q = n / total;
    assert(shift_of(pk, total) + 64 * pk == total * (-q)) by (nonlinear_arith)
        requires
            n == total * q + shift_of(pk, total),
            n == -(pk * 64),
    ;
    vstd::arithmetic::div_mod::lemma_mod_multiples_basic(-q, total);
    assert((-q) * total == total * (-q)) by (nonlinear_arith);
}

} // verus!
