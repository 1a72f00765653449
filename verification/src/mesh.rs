//! Index buffers: their encodings, and triangle strips.

use crate::buffers::{low16, low32, unzigzag};
use vstd::prelude::*;

verus! {

/// The value modulo 2^16 when 16 bits are asked for, modulo 2^32 otherwise.
pub open spec fn typed_of(value: int, bits: u32) -> u32 {
    if bits == 16 {
        (value % 0x1_0000) as u32
    } else {
        (value % 0x1_0000_0000) as u32
    }
}

/// Cuts a value to 16 or 32 bits.
pub fn typed_u32(value: i64, bits: u32) -> (r: u32)
    ensures
        r == typed_of(value as int, bits),
{
    if bits == 16 {
        low16(value) as u32
    } else {
        low32(value)
    }
}

/// Entry `i` of a delta-coded list whose first plain entry stands at `start`.
pub open spec fn delta_value(arr: Seq<u32>, start: int, bits: u32, i: int) -> u32
    decreases i,
{
    if i <= start || i <= 0 {
        arr[i]
    } else {
        typed_of(delta_value(arr, start, bits, i - 1) + unzigzag(arr[i] as int), bits)
    }
}

/// Undoes delta coding: from `start` on, each entry is a zigzag difference to the one before it.
pub fn delta_decode(arr: &mut Vec<u32>, start: usize, bits: u32)
    ensures
        final(arr)@ == Seq::new(
            old(arr)@.len(),
            |i: int| delta_value(old(arr)@, start as int, bits, i),
        ),
{
    let ghost source = arr@;
    if start >= arr.len() {
        assert(arr@ =~= Seq::new(
            source.len(),
            |i: int| delta_value(source, start as int, bits, i),
        ));
        return;
    }
    let n: usize = arr.len();
    let mut prev: u32 = arr[start];
    let mut i: usize = start + 1;
    while i < n
        invariant
            start < i <= n,
            n == source.len(),
            arr@.len() == n,
            prev == delta_value(source, start as int, bits, i - 1),
            forall|k: int| 0 <= k < i ==> arr@[k] == delta_value(source, start as int, bits, k),
            forall|k: int| i <= k < n ==> arr@[k] == source[k],
        decreases n - i,
    {
        let x: u32 = arr[i];
        let half: i64 = (x / 2) as i64;
        let step: i64 = if x % 2 == 0 {
            half
        } else {
            -half - 1
        };
        prev = typed_u32(prev as i64 + step, bits);
        arr.set(i, prev);
        i += 1;
    }
    assert(arr@ =~= Seq::new(source.len(), |i: int| delta_value(source, start as int, bits, i)));
}

/// Entry `i`, zero past the end.
pub open spec fn entry_or_zero(enc: Seq<u32>, i: int) -> u32 {
    if 0 <= i < enc.len() {
        enc[i]
    } else {
        0
    }
}

/// How many outputs have a flag: the mask has `enc[1]` words of 32 flags, and its last word is
/// used only if the mask is long enough for all outputs.
pub open spec fn flagged_len(enc: Seq<u32>, out_len: int) -> int {
    let words = entry_or_zero(enc, 1) as int;
    if out_len <= 32 * words {
        out_len
    } else if words == 0 {
        0
    } else {
        32 * (words - 1)
    }
}

/// The flag of output `h`. The last word holds its flags in its low bits.
pub open spec fn mask_flag(enc: Seq<u32>, out_len: int, h: int) -> bool {
    let words = entry_or_zero(enc, 1) as int;
    let u = h / 32;
    let pad = if u == words - 1 {
        32 * words - out_len
    } else {
        0
    };
    entry_or_zero(enc, 3 + u) & (0x8000_0000u32 >> ((pad + h % 32) as u32)) != 0
}

/// How many of the first `h` outputs have their flag set.
pub open spec fn flags_before(enc: Seq<u32>, out_len: int, h: int) -> int
    decreases h,
{
    if h <= 0 {
        0
    } else {
        flags_before(enc, out_len, h - 1) + if mask_flag(enc, out_len, h - 1) {
            1int
        } else {
            0int
        }
    }
}

/// Output `h`: an explicit entry where the flag is set; otherwise the implied number, which
/// starts at `enc[2]` and, unless `use_expected`, counts up.
pub open spec fn implicit_value(
    enc: Seq<u32>,
    out_len: int,
    start_idx: int,
    use_expected: bool,
    h: int,
) -> u32 {
    if h >= flagged_len(enc, out_len) {
        0
    } else if mask_flag(enc, out_len, h) {
        entry_or_zero(enc, start_idx + flags_before(enc, out_len, h))
    } else if use_expected {
        entry_or_zero(enc, 2)
    } else {
        ((entry_or_zero(enc, 2) + (h - flags_before(enc, out_len, h))) % 0x1_0000_0000) as u32
    }
}

/// Entry `i`, zero past the end.
fn entry(enc: &[u32], i: usize) -> (r: u32)
    ensures
        r == entry_or_zero(enc@, i as int),
{
    if i < enc.len() {
        enc[i]
    } else {
        0
    }
}

/// Expands an index list in which runs of consecutive numbers are implied.
pub fn implicit_decode(enc: &[u32], out_len: usize, start_idx: usize, use_expected: bool) -> (r:
    Vec<u32>)
    requires
        start_idx + out_len <= usize::MAX,
    ensures
        r@ == Seq::new(
            out_len as nat,
            |h: int| implicit_value(enc@, out_len as int, start_idx as int, use_expected, h),
        ),
{
    let mut out: Vec<u32> = Vec::new();
    let implied: u32 = entry(enc, 2);
    let words: u64 = entry(enc, 1) as u64;
    let limit: u64 = if out_len as u64 <= 32 * words {
        out_len as u64
    } else if words == 0 {
        0
    } else {
        32 * (words - 1)
    };
    let mut run: u32 = implied;
    let mut idx: usize = start_idx;
    let mut h: usize = 0;
    while (h as u64) < limit
        invariant
            h <= limit <= out_len,
            limit == flagged_len(enc@, out_len as int),
            words == entry_or_zero(enc@, 1),
            implied == entry_or_zero(enc@, 2),
            start_idx + out_len <= usize::MAX,
            0 <= flags_before(enc@, out_len as int, h as int) <= h,
            idx == start_idx + flags_before(enc@, out_len as int, h as int),
            use_expected ==> run == implied,
            !use_expected ==> run == (implied + (h - flags_before(enc@, out_len as int, h as int)))
                % 0x1_0000_0000,
            out@.len() == h,
            forall|k: int|
                0 <= k < h ==> out@[k] == implicit_value(
                    enc@,
                    out_len as int,
                    start_idx as int,
                    use_expected,
                    k,
                ),
        decreases limit - h,
    {
        let u: usize = h / 32;
        let last = u as u64 + 1 == words;
        let pad: u64 = if last {
            32 * words - out_len as u64
        } else {
            0
        };
        let word: u32 = if u <= usize::MAX - 3 {
            entry(enc, 3 + u)
        } else {
            0
        };
        let d: u32 = (pad + (h % 32) as u64) as u32;
        let set = word & (0x8000_0000u32 >> d) != 0;
        assert(set == mask_flag(enc@, out_len as int, h as int));
        if set {
            out.push(entry(enc, idx));
            idx += 1;
        } else {
            out.push(run);
            if !use_expected {
                run = run.wrapping_add(1);
            }
        }
        h += 1;
    }
    while out.len() < out_len
        invariant
            h == limit == flagged_len(enc@, out_len as int),
            h <= out@.len() <= out_len,
            forall|k: int|
                0 <= k < out@.len() ==> out@[k] == implicit_value(
                    enc@,
                    out_len as int,
                    start_idx as int,
                    use_expected,
                    k,
                ),
        decreases out_len - out@.len(),
    {
        out.push(0);
    }
    assert(out@ =~= Seq::new(
        out_len as nat,
        |h: int| implicit_value(enc@, out_len as int, start_idx as int, use_expected, h),
    ));
    out
}

/// How many of the first `n` entries are zero.
pub open spec fn zeros_before(arr: Seq<u32>, n: int) -> int
    decreases n,
{
    if n <= 0 {
        0
    } else {
        zeros_before(arr, n - 1) + if arr[n - 1] == 0 {
            1int
        } else {
            0int
        }
    }
}

/// Numbers that were stored as distances from the next new number, which is `expected` at first.
pub open spec fn renumbered(list: Seq<u32>, expected: int, bits: u32) -> Seq<u32> {
    Seq::new(list.len(), |i: int| typed_of(expected + zeros_before(list, i) - list[i], bits))
}

/// Turns distances from the next new number into numbers. The next new number starts at `state`
/// and grows by one with every entry that takes it.
pub fn expected_renumber(arr: &mut Vec<u32>, state: &mut i64, bits: u32)
    requires
        i64::MIN + 0xffff_ffff <= *old(state),
        *old(state) + old(arr)@.len() <= i64::MAX,
    ensures
        *final(state) == *old(state) + zeros_before(old(arr)@, old(arr)@.len() as int),
        final(arr)@ == renumbered(old(arr)@, *old(state) as int, bits),
{
    let ghost source = arr@;
    let ghost first = *state as int;
    let mut n: i64 = *state;
    let len: usize = arr.len();
    let mut i: usize = 0;
    while i < len
        invariant
            i <= len,
            len == source.len(),
            arr@.len() == len,
            0 <= zeros_before(source, i as int) <= i,
            n == first + zeros_before(source, i as int),
            i64::MIN + 0xffff_ffff <= first,
            first + len <= i64::MAX,
            forall|k: int|
                0 <= k < i ==> arr@[k] == typed_of(
                    first + zeros_before(source, k) - source[k],
                    bits,
                ),
            forall|k: int| i <= k < len ==> arr@[k] == source[k],
        decreases len - i,
    {
        let o: i64 = n - arr[i] as i64;
        arr.set(i, typed_u32(o, bits));
        if n <= o {
            n = o + 1;
        }
        i += 1;
    }
    *state = n;
    assert(arr@ =~= renumbered(source, first, bits));
}

/// The zeros of two lists, one behind the other, are those of the first and those of the second.
proof fn lemma_zeros_join(a: Seq<u32>, b: Seq<u32>, n: int)
    requires
        0 <= n <= a.len() + b.len(),
    ensures
        n <= a.len() ==> zeros_before(a + b, n) == zeros_before(a, n),
        n > a.len() ==> zeros_before(a + b, n) == zeros_before(a, a.len() as int) + zeros_before(
            b,
            n - a.len(),
        ),
    decreases n,
{
    if n > 0 {
        lemma_zeros_join(a, b, n - 1);
        if n > a.len() {
            assert((a + b)[n - 1] == b[n - 1 - a.len()]);
            assert(zeros_before(b, n - a.len()) == zeros_before(b, n - a.len() - 1) + if b[n - 1
                - a.len()] == 0 {
                1int
            } else {
                0int
            });
        }
    }
}

/// Renumbering a list in two parts, the second from where the first ended, gives what renumbering
/// it at once gives, and ends at the same number.
pub proof fn law_renumbering_in_parts(a: Seq<u32>, b: Seq<u32>, expected: int, bits: u32)
    ensures
        renumbered(a + b, expected, bits) == renumbered(a, expected, bits) + renumbered(
            b,
            expected + zeros_before(a, a.len() as int),
            bits,
        ),
        zeros_before(a + b, (a + b).len() as int) == zeros_before(a, a.len() as int)
            + zeros_before(b, b.len() as int),
{
    let whole = renumbered(a + b, expected, bits);
    let parts = renumbered(a, expected, bits) + renumbered(
        b,
        expected + zeros_before(a, a.len() as int),
        bits,
    );
    assert forall|i: int| 0 <= i < whole.len() implies #[trigger] whole[i] == parts[i] by {
        lemma_zeros_join(a, b, i);
    }
    assert(whole =~= parts);
    lemma_zeros_join(a, b, (a + b).len() as int);
}

/// The triangle of window `i` of a strip, nothing if two of its corners coincide. Odd windows
/// swap their first two corners.
pub open spec fn window_triangle(strip: Seq<u32>, i: int) -> Seq<u32> {
    let (a, b, c) = (strip[i], strip[i + 1], strip[i + 2]);
    if a == b || b == c || a == c {
        Seq::empty()
    } else if i % 2 == 0 {
        seq![a, b, c]
    } else {
        seq![b, a, c]
    }
}

/// The triangles of the first `n` windows of a strip.
pub open spec fn strip_triangles(strip: Seq<u32>, n: int) -> Seq<u32>
    decreases n,
{
    if n <= 0 {
        Seq::empty()
    } else {
        strip_triangles(strip, n - 1) + window_triangle(strip, n - 1)
    }
}

/// Turns a triangle strip into separate triangles.
pub fn strip_to_tris(indices: &[u32]) -> (r: Vec<u32>)
    ensures
        r@ == strip_triangles(indices@, indices@.len() - 2),
{
    let mut tris: Vec<u32> = Vec::new();
    let windows: usize = if indices.len() >= 2 {
        indices.len() - 2
    } else {
        0
    };
    let mut i: usize = 0;
    while i < windows
        invariant
            i <= windows,
            windows + 2 <= indices@.len() || windows == 0,
            tris@ == strip_triangles(indices@, i as int),
        decreases windows - i,
    {
        let a: u32 = indices[i];
        let b: u32 = indices[i + 1];
        let c: u32 = indices[i + 2];
        let ghost before = tris@;
        if a == b || b == c || a == c {
            assert(before + Seq::<u32>::empty() =~= before);
        } else if i % 2 == 0 {
            tris.push(a);
            tris.push(b);
            tris.push(c);
            assert(tris@ =~= before + seq![a, b, c]);
        } else {
            tris.push(b);
            tris.push(a);
            tris.push(c);
            assert(tris@ =~= before + seq![b, a, c]);
        }
        i += 1;
    }
    tris
}

/// The triangles of a strip are whole, and no triangle has two equal corners.
pub proof fn law_strip_triangles_are_proper(strip: Seq<u32>, n: int, t: int)
    requires
        n + 2 <= strip.len(),
    ensures
        strip_triangles(strip, n).len() % 3 == 0,
        0 <= t < strip_triangles(strip, n).len() / 3 ==> {
            let s = strip_triangles(strip, n);
            s[3 * t] != s[3 * t + 1] && s[3 * t + 1] != s[3 * t + 2] && s[3 * t] != s[3 * t + 2]
        },
    decreases n,
{
    if n > 0 {
        law_strip_triangles_are_proper(strip, n - 1, t);
        let before = strip_triangles(strip, n - 1);
        let w = window_triangle(strip, n - 1);
        assert(w.len() == 0 || w.len() == 3);
        if 0 <= t < (before + w).len() / 3 && t >= before.len() / 3 {
            assert(3 * t == before.len());
        }
    }
}

/// One vertex predicted from three others: `d` gains `b + c - a`.
#[derive(Clone, Copy, Debug, PartialEq, Eq, Structural)]
pub struct PredictStep {
    pub a: u32,
    pub b: u32,
    pub c: u32,
    pub d: u32,
}

/// Whether position `p` of the strip names a vertex for the first time.
pub open spec fn first_visit(count: int, strip: Seq<u32>, p: int) -> bool {
    strip[p] < count && forall|k: int| 0 <= k < p ==> strip[k] != strip[p]
}

/// The prediction made at position `p`, from the three positions before it.
pub open spec fn step_at(strip: Seq<u32>, p: int) -> PredictStep {
    PredictStep { a: strip[p - 3], b: strip[p - 2], c: strip[p - 1], d: strip[p] }
}

/// The predictions made before position `p`: one for each vertex that is first named there,
/// apart from the first triangle.
pub open spec fn steps_before(count: int, strip: Seq<u32>, p: int) -> Seq<PredictStep>
    decreases p,
{
    if p <= 3 {
        Seq::empty()
    } else if first_visit(count, strip, p - 1) {
        steps_before(count, strip, p - 1).push(step_at(strip, p - 1))
    } else {
        steps_before(count, strip, p - 1)
    }
}

/// Whether all vertices that predictions before position `p` start from exist.
pub open spec fn sources_exist(count: int, strip: Seq<u32>, p: int) -> bool {
    forall|q: int|
        3 <= q < p && #[trigger] first_visit(count, strip, q) ==> strip[q - 3] < count && strip[q
            - 2] < count && strip[q - 1] < count
}

/// The predictions along a strip over `count` vertices, in order, or nothing if one of them
/// starts from a vertex that does not exist.
pub fn parallelogram_predict(count: usize, strip: &[u32]) -> (r: Option<Vec<PredictStep>>)
    ensures
        match r {
            Some(steps) => sources_exist(count as int, strip@, strip@.len() as int) && steps@
                == steps_before(count as int, strip@, strip@.len() as int),
            None => !sources_exist(count as int, strip@, strip@.len() as int),
        },
{
    let mut steps: Vec<PredictStep> = Vec::new();
    if strip.len() < 3 {
        return Some(steps);
    }
    let mut visited: Vec<bool> = Vec::new();
    visited.resize(count, false);
    let mut p: usize = 0;
    while p < strip.len()
        invariant
            p <= strip@.len(),
            visited@.len() == count,
            forall|v: int|
                0 <= v < count ==> (#[trigger] visited@[v] <==> exists|k: int|
                    0 <= k < p && strip@[k] == v),
            sources_exist(count as int, strip@, p as int),
            steps@ == steps_before(count as int, strip@, p as int),
        decreases strip@.len() - p,
    {
        let d: u32 = strip[p];
        let fresh = (d as u64) < (count as u64) && !visited[d as usize];
        let ghost before = visited@;
        assert(fresh == first_visit(count as int, strip@, p as int)) by {
            if d < count {
                assert(visited@[d as int] <==> exists|k: int| 0 <= k < p && strip@[k] == d);
            }
        }
        if fresh {
            if p >= 3 {
                let step = PredictStep { a: strip[p - 3], b: strip[p - 2], c: strip[p - 1], d };
                let bound: u64 = count as u64;
                if step.a as u64 >= bound || step.b as u64 >= bound || step.c as u64 >= bound {
                    assert(!sources_exist(count as int, strip@, strip@.len() as int));
                    return None;
                }
                steps.push(step);
            }
            visited.set(d as usize, true);
        }
        assert forall|v: int| 0 <= v < count implies (#[trigger] visited@[v] <==> exists|k: int|
            0 <= k < p + 1 && strip@[k] == v) by {
            assert(before[v] <==> exists|k: int| 0 <= k < p && strip@[k] == v);
            assert(strip@[p as int] == d);
            if before[v] {
                let k = choose|k: int| 0 <= k < p && strip@[k] == v;
                assert(0 <= k < p + 1 && strip@[k] == v);
            }
            if exists|k: int| 0 <= k < p + 1 && strip@[k] == v {
                let k = choose|k: int| 0 <= k < p + 1 && strip@[k] == v;
                if k < p {
                    assert(before[v]);
                }
            }
        }
        p += 1;
    }
    Some(steps)
}

/// Every prediction is for a vertex that exists and that the strip names at that place.
proof fn lemma_steps_origin(count: int, strip: Seq<u32>, p: int, i: int) -> (q: int)
    requires
        p <= strip.len(),
        0 <= i < steps_before(count, strip, p).len(),
    ensures
        3 <= q < p,
        first_visit(count, strip, q),
        steps_before(count, strip, p)[i] == step_at(strip, q),
    decreases p,
{
    let earlier = steps_before(count, strip, p - 1);
    if first_visit(count, strip, p - 1) && i == earlier.len() {
        p - 1
    } else {
        lemma_steps_origin(count, strip, p - 1, i)
    }
}

/// No vertex is predicted twice, and no vertex of the first triangle is predicted at all.
pub proof fn law_predicted_once(count: int, strip: Seq<u32>, p: int, i: int, j: int)
    requires
        p <= strip.len(),
        0 <= i < j < steps_before(count, strip, p).len(),
    ensures
        steps_before(count, strip, p)[i].d != steps_before(count, strip, p)[j].d,
        steps_before(count, strip, p)[i].d != strip[0],
        steps_before(count, strip, p)[i].d != strip[1],
        steps_before(count, strip, p)[i].d != strip[2],
    decreases p,
{
    let earlier = steps_before(count, strip, p - 1);
    let q = lemma_steps_origin(count, strip, p, i);
    assert(strip[0] != strip[q] && strip[1] != strip[q] && strip[2] != strip[q]);
    if first_visit(count, strip, p - 1) && j == earlier.len() {
        let k = lemma_steps_origin(count, strip, p - 1, i);
        assert(strip[k] != strip[p - 1]);
    } else {
        law_predicted_once(count, strip, p - 1, i, j);
    }
}

/// Each window of three numbers of a strip adds a triangle, turned the other way in every second
/// one, so that all face the same side; a window with two equal numbers adds none.
pub proof fn law_strip_windows_alternate(strip: Seq<u32>, n: int)
    requires
        0 <= n,
        n + 3 <= strip.len(),
    ensures
        ({
            let before = strip_triangles(strip, n);
            let after = strip_triangles(strip, n + 1);
            let k = before.len() as int;
            let (a, b, c) = (strip[n], strip[n + 1], strip[n + 2]);
            let flat = a == b || b == c || a == c;
            &&& flat ==> after == before
            &&& !flat ==> after.len() == k + 3 && after.take(k) == before
            &&& !flat && n % 2 == 0 ==> after[k] == a && after[k + 1] == b && after[k + 2] == c
            &&& !flat && n % 2 == 1 ==> after[k] == b && after[k + 1] == a && after[k + 2] == c
        }),
{
    let before = strip_triangles(strip, n);
    let after = strip_triangles(strip, n + 1);
    let w = window_triangle(strip, n);
    assert(after == before + w);
    assert(before + w =~= before || w.len() == 3);
    assert((before + w).take(before.len() as int) =~= before);
}

/// Every number of a strip that is new behind the first three, and names a vertex, is predicted
/// from the three before it.
pub proof fn law_new_vertices_are_predicted(count: int, strip: Seq<u32>, p: int, q: int)
    requires
        3 <= q < p <= strip.len(),
        strip[q] < count,
        forall|k: int| 0 <= k < q ==> strip[k] != strip[q],
    ensures
        exists|i: int|
            0 <= i < steps_before(count, strip, p).len() && {
                let s = #[trigger] steps_before(count, strip, p)[i];
                s.a == strip[q - 3] && s.b == strip[q - 2] && s.c == strip[q - 1] && s.d == strip[q]
            },
    decreases p,
{
    let all = steps_before(count, strip, p);
    let before = steps_before(count, strip, p - 1);
    assert(first_visit(count, strip, q));
    if q == p - 1 {
        let s = all[before.len() as int];
        assert(s.d == strip[q]);
    } else {
        law_new_vertices_are_predicted(count, strip, p - 1, q);
        let i = choose|i: int|
            0 <= i < before.len() && {
                let s = #[trigger] before[i];
                s.a == strip[q - 3] && s.b == strip[q - 2] && s.c == strip[q - 1] && s.d == strip[q]
            };
        assert(all[i] == before[i]);
    }
}

/// The flags of implied runs are the bits of the mask words, the highest first; those of the last
/// word end with its lowest bit.
pub proof fn law_flags_are_read_from_the_top(enc: Seq<u32>, out_len: int, h: int)
    requires
        0 <= h < out_len <= 32 * entry_or_zero(enc, 1),
        h / 32 < entry_or_zero(enc, 1) - 1 || 32 * (entry_or_zero(enc, 1) - 1) <= h,
        32 * (entry_or_zero(enc, 1) - 1) < out_len,
    ensures
        ({
            let words = entry_or_zero(enc, 1) as int;
            let word = entry_or_zero(enc, 3 + h / 32);
            let bit = if h / 32 == words - 1 {
                out_len - 1 - h
            } else {
                31 - h % 32
            };
            &&& 0 <= bit < 32
            &&& mask_flag(enc, out_len, h) <==> (word >> (bit as u32)) & 1 == 1
        }),
{
    let words = entry_or_zero(enc, 1) as int;
    let u = h / 32;
    let word = entry_or_zero(enc, 3 + u);
    let pad = if u == words - 1 {
        32 * words - out_len
    } else {
        0
    };
    let k = (pad + h % 32) as u32;
    let bit = (31 - k) as u32;
    assert(0 <= pad + h % 32 < 32);
    assert(word & (0x8000_0000u32 >> k) != 0 <==> (word >> bit) & 1 == 1) by (bit_vector)
        requires
            k < 32,
            bit == 31 - k,
    ;
}

/// A number that is flagged is the next of those that are listed; one that is not counts on from
/// the first implied number, or is that number itself where new numbers are marked.
pub proof fn law_implied_numbers_count_on(
    enc: Seq<u32>,
    out_len: int,
    start: int,
    use_expected: bool,
    h: int,
)
    requires
        0 <= h < out_len <= 32 * entry_or_zero(enc, 1),
        entry_or_zero(enc, 2) + out_len <= u32::MAX,
    ensures
        ({
            let flagged = flags_before(enc, out_len, h);
            let v = implicit_value(enc, out_len, start, use_expected, h);
            &&& 0 <= flagged <= h
            &&& mask_flag(enc, out_len, h) ==> v == entry_or_zero(enc, start + flagged)
            &&& !mask_flag(enc, out_len, h) && use_expected ==> v == entry_or_zero(enc, 2)
            &&& !mask_flag(enc, out_len, h) && !use_expected ==> v == entry_or_zero(enc, 2) + (h
                - flagged)
            &&& flags_before(enc, out_len, h + 1) == flagged + if mask_flag(enc, out_len, h) {
                1int
            } else {
                0int
            }
        }),
{
    lemma_flags_bounded(enc, out_len, h);
}

/// Not more numbers are flagged than there are.
proof fn lemma_flags_bounded(enc: Seq<u32>, out_len: int, h: int)
    requires
        0 <= h,
    ensures
        0 <= flags_before(enc, out_len, h) <= h,
    decreases h,
{
    if h > 0 {
        lemma_flags_bounded(enc, out_len, h - 1);
    }
}

/// A list of differences is summed up from its start on: each number is the one before it and a
/// signed step, whose sign is its lowest bit, cut to its width.
pub proof fn law_differences_are_summed(arr: Seq<u32>, start: int, bits: u32, i: int, step: int)
    requires
        0 <= i < arr.len(),
        0 <= start,
    ensures
        i <= start ==> delta_value(arr, start, bits, i) == arr[i],
        i > start && arr[i] == 2 * step ==> delta_value(arr, start, bits, i) == typed_of(
            delta_value(arr, start, bits, i - 1) + step,
            bits,
        ),
        i > start && arr[i] == 2 * step - 1 ==> delta_value(arr, start, bits, i) == typed_of(
            delta_value(arr, start, bits, i - 1) - step,
            bits,
        ),
{
}

/// A number is cut to its lower sixteen bits, or to thirty-two.
pub proof fn law_numbers_are_cut_to_their_width(value: int)
    ensures
        typed_of(value, 16) < 65536,
        (typed_of(value, 16) - value) % 65536 == 0,
        (typed_of(value, 32) - value) % 4294967296 == 0,
        0 <= value < 65536 ==> typed_of(value, 16) == value,
        0 <= value < 4294967296 ==> typed_of(value, 32) == value,
{
    let a = value % 0x1_0000;
    let b = value % 0x1_0000_0000;
    assert(typed_of(value, 16) == a);
    assert(typed_of(value, 32) == b);
    assert((a - value) % 65536 == 0);
    assert((b - value) % 4294967296 == 0);
}

} // verus!
