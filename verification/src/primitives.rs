//! The index lists of a geometry.

use crate::buffers::{
    all_low32, buffer_array_of, lows32, read_buffer_array, unzigzag, BufferError,
};
use crate::json::{
    array, first_key_value, first_key_value_of, get, get_of, items_of, text, text_is, text_of,
    trees, Json, Tree,
};
use crate::mesh::{
    delta_decode, delta_value, entry_or_zero, expected_renumber, implicit_decode, implicit_value,
    renumbered, strip_to_tris, strip_triangles, typed_of, zeros_before,
};
use crate::metadata::{flags, flags_of, Figure};
use crate::text::{contains, contains_of, same_text};
use vstd::hash_map::StringHashMap;
use vstd::prelude::*;

verus! {

/// What the primitives of a geometry have drawn so far.
#[derive(Debug)]
pub struct Drawn {
    /// The indices of the last triangle strip.
    pub strip: Option<Vec<u32>>,
    /// All indices, strips taken apart into triangles.
    pub indices: Vec<u32>,
    /// The glTF mode of the primitives.
    pub mode: Option<u32>,
    /// The next number that no index has named.
    pub expected: i64,
}

/// The mathematical counterpart of [`Drawn`].
#[verifier::ext_equal]
pub ghost struct DrawnView {
    pub strip: Option<Seq<u32>>,
    pub indices: Seq<u32>,
    pub mode: Option<u32>,
    pub expected: int,
}

/// The contents of an optional list.
pub open spec fn list_opt(v: Option<Vec<u32>>) -> Option<Seq<u32>> {
    match v {
        Some(list) => Some(list@),
        None => None,
    }
}

impl View for Drawn {
    type V = DrawnView;

    open spec fn view(&self) -> DrawnView {
        DrawnView {
            strip: list_opt(self.strip),
            indices: self.indices@,
            mode: self.mode,
            expected: self.expected as int,
        }
    }
}

/// Whether an array is stored in the wireframe file.
pub open spec fn in_wireframe(def: Tree) -> bool {
    text_of(get_of(Some(def), "File"@)) matches Some(file) && contains_of(file, "wireframe"@)
}

/// Whether an array is stored in the wireframe file.
pub fn is_in_wireframe(def: &Json) -> (r: bool)
    ensures
        r == in_wireframe(def@),
{
    match text(get(Some(def), "File")) {
        Some(file) => contains(file.as_str(), "wireframe"),
        None => false,
    }
}

/// The glTF mode of a primitive: strips are drawn as triangles.
pub open spec fn mode_of(draw: Tree) -> Option<u32> {
    let mode = text_of(get_of(Some(draw), "Mode"@));
    if mode == Some("POINTS"@) {
        Some(0)
    } else if mode == Some("LINES"@) {
        Some(1)
    } else if mode == Some("LINE_LOOP"@) {
        Some(2)
    } else if mode == Some("LINE_STRIP"@) {
        Some(3)
    } else if mode == Some("TRIANGLES"@) || mode == Some("TRIANGLE_STRIP"@) {
        Some(4)
    } else {
        None
    }
}

/// The glTF mode of a primitive.
pub fn primitive_mode(draw: &Json) -> (r: Option<u32>)
    ensures
        r == mode_of(draw@),
{
    let mode = get(Some(draw), "Mode");
    if text_is(mode, "POINTS") {
        Some(0)
    } else if text_is(mode, "LINES") {
        Some(1)
    } else if text_is(mode, "LINE_LOOP") {
        Some(2)
    } else if text_is(mode, "LINE_STRIP") {
        Some(3)
    } else if text_is(mode, "TRIANGLES") || text_is(mode, "TRIANGLE_STRIP") {
        Some(4)
    } else {
        None
    }
}

/// A list after delta decoding.
pub open spec fn undelta(list: Seq<u32>, start: int, bits: u32) -> Seq<u32> {
    Seq::new(list.len(), |i: int| delta_value(list, start, bits, i))
}

/// Stored indices after the encodings that `mode` names (1: differences, 4: implied runs, on
/// strips only), and the width of the result. Nothing if the result is too long to count.
pub open spec fn plain_indices(list: Seq<u32>, mode: u32, is_strip: bool, bits: u32) -> Option<
    (Seq<u32>, u32),
> {
    if mode & 4 != 0 && is_strip {
        let start = 3 + entry_or_zero(list, 1);
        let flat = if mode & 1 != 0 {
            undelta(list, start, bits)
        } else {
            list
        };
        let count = entry_or_zero(flat, 0) as int;
        if start + count > usize::MAX {
            None
        } else {
            Some(
                (
                    Seq::new(
                        count as nat,
                        |h: int|
                            (implicit_value(flat, count, start, mode & 2 != 0, h) % 0x1_0000)
                                as u32,
                    ),
                    16,
                ),
            )
        }
    } else if mode & 1 != 0 {
        Some((undelta(list, 0, bits), bits))
    } else {
        Some((list, bits))
    }
}

/// Keeps the low sixteen bits of each entry.
fn cut_to_16(list: &Vec<u32>) -> (r: Vec<u32>)
    ensures
        r@ == Seq::new(list@.len(), |h: int| (list@[h] % 0x1_0000) as u32),
{
    let mut out: Vec<u32> = Vec::new();
    let mut i: usize = 0;
    while i < list.len()
        invariant
            i <= list@.len(),
            out@.len() == i,
            forall|k: int| 0 <= k < i ==> #[trigger] out@[k] == list@[k] % 0x1_0000,
        decreases list@.len() - i,
    {
        out.push(list[i] % 0x1_0000);
        i += 1;
    }
    assert(out@ =~= Seq::new(list@.len(), |h: int| (list@[h] % 0x1_0000) as u32));
    out
}

/// Undoes the encodings of stored indices.
pub fn decode_indices(list: Vec<u32>, mode: u32, is_strip: bool, bits: u32) -> (r: Option<
    (Vec<u32>, u32),
>)
    ensures
        match r {
            Some((out, width)) => plain_indices(list@, mode, is_strip, bits) == Some((out@, width)),
            None => plain_indices(list@, mode, is_strip, bits) is None,
        },
{
    let mut idx = list;
    if mode & 4 != 0 && is_strip {
        let runs: u64 = if idx.len() > 1 {
            idx[1] as u64
        } else {
            0
        };
        let start: u64 = 3 + runs;
        if start > usize::MAX as u64 {
            return None;
        }
        if mode & 1 != 0 {
            delta_decode(&mut idx, start as usize, bits);
        }
        let ghost flat = if mode & 1 != 0 {
            undelta(list@, start as int, bits)
        } else {
            list@
        };
        assert(idx@ =~= flat);
        let count: u64 = if idx.len() > 0 {
            idx[0] as u64
        } else {
            0
        };
        if start + count > usize::MAX as u64 {
            return None;
        }
        let wide = implicit_decode(
            idx.as_slice(),
            count as usize,
            start as usize,
            mode & 2 != 0,
        );
        let out = cut_to_16(&wide);
        proof {
            let goal = plain_indices(list@, mode, is_strip, bits).unwrap();
            assert(out@ =~= goal.0);
        }
        Some((out, 16))
    } else if mode & 1 != 0 {
        delta_decode(&mut idx, 0, bits);
        assert(idx@ =~= undelta(list@, 0, bits));
        Some((idx, bits))
    } else {
        Some((idx, bits))
    }
}

/// What is drawn after one more primitive with the given stored indices.
pub open spec fn drawn_with(
    state: DrawnView,
    stored: Seq<u32>,
    mode: u32,
    is_strip: bool,
    output_mode: u32,
    bits: u32,
) -> Result<DrawnView, BufferError> {
    match plain_indices(stored, mode, is_strip, bits) {
        None => Err(BufferError::OutOfRange),
        Some((plain, width)) => if mode & 2 != 0 && state.expected + plain.len() > i64::MAX {
            Err(BufferError::OutOfRange)
        } else {
            let idx = if mode & 2 != 0 {
                renumbered(plain, state.expected, width)
            } else {
                plain
            };
            Ok(
                DrawnView {
                    strip: if is_strip {
                        Some(idx)
                    } else {
                        state.strip
                    },
                    indices: state.indices + if is_strip {
                        strip_triangles(idx, idx.len() - 2)
                    } else {
                        idx
                    },
                    mode: Some(output_mode),
                    expected: if mode & 2 != 0 {
                        state.expected + zeros_before(plain, plain.len() as int)
                    } else {
                        state.expected
                    },
                },
            )
        },
    }
}

/// What is drawn after one more primitive. Primitives without indices, those in the wireframe
/// file, and those of another mode than the first are left out.
pub open spec fn primitive_drawn(
    state: DrawnView,
    prim: Tree,
    meta: Map<Seq<char>, Figure>,
    bin: Seq<u8>,
) -> Result<DrawnView, BufferError> {
    match first_key_value_of(Some(prim)) {
        None => Ok(state),
        Some((_, draw)) => match first_key_value_of(
            get_of(get_of(Some(draw), "Indices"@), "Array"@),
        ) {
            None => Ok(state),
            Some((array_type, def)) => if in_wireframe(def) {
                Ok(state)
            } else {
                match mode_of(draw) {
                    None => Ok(state),
                    Some(output_mode) => if state.mode is Some && state.mode != Some(output_mode) {
                        Ok(state)
                    } else {
                        match buffer_array_of(bin, def, 1, array_type) {
                            Err(e) => Err(e),
                            Ok(data) => drawn_with(
                                state,
                                lows32(data.integers()),
                                flags_of(meta, "triangle_mode"@),
                                text_of(get_of(Some(draw), "Mode"@)) == Some("TRIANGLE_STRIP"@),
                                output_mode,
                                if array_type == "Uint32Array"@ {
                                    32
                                } else {
                                    16
                                },
                            ),
                        }
                    },
                }
            },
        },
    }
}

/// What is drawn after the primitives from `from` on.
pub open spec fn primitives_drawn(
    prims: Seq<Tree>,
    from: int,
    meta: Map<Seq<char>, Figure>,
    bin: Seq<u8>,
    state: DrawnView,
) -> Result<DrawnView, BufferError>
    decreases prims.len() - from,
{
    if from < 0 || from >= prims.len() {
        Ok(state)
    } else {
        match primitive_drawn(state, prims[from], meta, bin) {
            Err(e) => Err(e),
            Ok(next) => primitives_drawn(prims, from + 1, meta, bin, next),
        }
    }
}

/// The state before any primitive.
pub open spec fn nothing_drawn() -> DrawnView {
    DrawnView { strip: None, indices: Seq::empty(), mode: None, expected: 0 }
}

/// The primitives of a geometry.
pub open spec fn primitives_of(geom: Tree) -> Seq<Tree> {
    items_of(get_of(Some(geom), "PrimitiveSetList"@))
}

/// What the primitives of a geometry draw.
pub open spec fn geometry_drawn(
    geom: Tree,
    meta: Map<Seq<char>, Figure>,
    bin: Seq<u8>,
) -> Result<DrawnView, BufferError> {
    primitives_drawn(primitives_of(geom), 0, meta, bin, nothing_drawn())
}

/// The same numbers again.
pub fn copy_u32(list: &Vec<u32>) -> (r: Vec<u32>)
    ensures
        r@ == list@,
{
    let r = list.clone();
    assert(r@ =~= list@);
    r
}

/// How many numbers are new is not more than how many there are.
proof fn lemma_zeros_bounded(list: Seq<u32>, n: int)
    requires
        0 <= n <= list.len(),
    ensures
        0 <= zeros_before(list, n) <= n,
    decreases n,
{
    if n > 0 {
        lemma_zeros_bounded(list, n - 1);
    }
}

/// Draws one more primitive with the given stored indices.
fn draw_stored(
    state: &mut Drawn,
    stored: Vec<u32>,
    mode: u32,
    is_strip: bool,
    output_mode: u32,
    bits: u32,
) -> (r: Result<(), BufferError>)
    requires
        old(state).expected >= 0,
    ensures
        match r {
            Ok(_) => drawn_with(old(state)@, stored@, mode, is_strip, output_mode, bits) == Ok::<
                DrawnView,
                BufferError,
            >(final(state)@) && final(state).expected >= 0,
            Err(e) => drawn_with(old(state)@, stored@, mode, is_strip, output_mode, bits) == Err::<
                DrawnView,
                BufferError,
            >(e),
        },
{
    let (plain, width) = match decode_indices(stored, mode, is_strip, bits) {
        Some(p) => p,
        None => {
            return Err(BufferError::OutOfRange);
        },
    };
    let mut idx = plain;
    if mode & 2 != 0 {
        if idx.len() as u64 > (i64::MAX - state.expected) as u64 {
            return Err(BufferError::OutOfRange);
        }
        proof {
            lemma_zeros_bounded(plain@, plain@.len() as int);
        }
        let mut expected: i64 = state.expected;
        expected_renumber(&mut idx, &mut expected, width);
        state.expected = expected;
        assert(idx@ =~= renumbered(plain@, old(state)@.expected, width));
    }
    let ghost before = state.indices@;
    if is_strip {
        let tris = strip_to_tris(idx.as_slice());
        state.indices.extend_from_slice(tris.as_slice());
        assert(state.indices@ =~= before + strip_triangles(idx@, idx@.len() - 2));
        state.strip = Some(idx);
    } else {
        state.indices.extend_from_slice(idx.as_slice());
        assert(state.indices@ =~= before + idx@);
    }
    state.mode = Some(output_mode);
    Ok(())
}

/// Draws one more primitive.
fn draw_primitive(
    state: &mut Drawn,
    prim: &Json,
    meta: &StringHashMap<Figure>,
    bin: &[u8],
) -> (r: Result<(), BufferError>)
    requires
        old(state).expected >= 0,
    ensures
        match r {
            Ok(_) => primitive_drawn(old(state)@, prim@, meta@, bin@) == Ok::<
                DrawnView,
                BufferError,
            >(final(state)@) && final(state).expected >= 0,
            Err(e) => primitive_drawn(old(state)@, prim@, meta@, bin@) == Err::<
                DrawnView,
                BufferError,
            >(e),
        },
{
    let draw = match first_key_value(Some(prim)) {
        Some((_, d)) => d,
        None => {
            return Ok(());
        },
    };
    let (array_type, def) = match first_key_value(get(get(Some(draw), "Indices"), "Array")) {
        Some(pair) => pair,
        None => {
            return Ok(());
        },
    };
    if is_in_wireframe(def) {
        return Ok(());
    }
    let output_mode: u32 = match primitive_mode(draw) {
        Some(m) => m,
        None => {
            return Ok(());
        },
    };
    match state.mode {
        Some(current) => {
            if current != output_mode {
                return Ok(());
            }
        },
        None => {},
    }
    let data = match read_buffer_array(bin, def, 1, array_type.as_str()) {
        Ok(d) => d,
        Err(e) => {
            return Err(e);
        },
    };
    let stored = all_low32(data.as_i64_vec().as_slice());
    let bits: u32 = if same_text(array_type.as_str(), "Uint32Array") {
        32
    } else {
        16
    };
    let is_strip = text_is(get(Some(draw), "Mode"), "TRIANGLE_STRIP");
    draw_stored(state, stored, flags(meta, "triangle_mode"), is_strip, output_mode, bits)
}

/// Draws all primitives of a geometry.
pub fn draw_primitives(geom: &Json, meta: &StringHashMap<Figure>, bin: &[u8]) -> (r: Result<
    Drawn,
    BufferError,
>)
    ensures
        match r {
            Ok(d) => geometry_drawn(geom@, meta@, bin@) == Ok::<DrawnView, BufferError>(d@),
            Err(e) => geometry_drawn(geom@, meta@, bin@) == Err::<DrawnView, BufferError>(e),
        },
{
    let mut state = Drawn { strip: None, indices: Vec::new(), mode: None, expected: 0 };
    assert(state@ =~= nothing_drawn());
    match array(get(Some(geom), "PrimitiveSetList")) {
        Some(prims) => {
            let ghost list = trees(prims@);
            let mut i: usize = 0;
            while i < prims.len()
                invariant
                    i <= prims@.len(),
                    list == trees(prims@),
                    state.expected >= 0,
                    primitives_of(geom@) == list,
                    geometry_drawn(geom@, meta@, bin@) == primitives_drawn(
                        list,
                        i as int,
                        meta@,
                        bin@,
                        state@,
                    ),
                decreases prims@.len() - i,
            {
                assert(list[i as int] == prims@[i as int]@);
                match draw_primitive(&mut state, &prims[i], meta, bin) {
                    Ok(_) => {},
                    Err(e) => {
                        return Err(e);
                    },
                }
                i += 1;
            }
        },
        None => {},
    }
    Ok(state)
}

/// Once a geometry has a mode, all its primitives have that mode, and what was drawn stays drawn.
pub proof fn law_primitives_share_a_mode(
    prims: Seq<Tree>,
    from: int,
    meta: Map<Seq<char>, Figure>,
    bin: Seq<u8>,
    state: DrawnView,
)
    ensures
        primitives_drawn(prims, from, meta, bin, state) matches Ok(end) ==> (state.mode is Some
            ==> end.mode == state.mode) && state.indices.is_prefix_of(end.indices),
    decreases prims.len() - from,
{
    assert(state.indices =~= state.indices.take(state.indices.len() as int));
    if 0 <= from < prims.len() {
        match primitive_drawn(state, prims[from], meta, bin) {
            Ok(next) => {
                law_primitives_share_a_mode(prims, from + 1, meta, bin, next);
                assert(state.indices =~= next.indices.take(state.indices.len() as int));
                match primitives_drawn(prims, from, meta, bin, state) {
                    Ok(end) => {
                        assert(next.indices == end.indices.take(next.indices.len() as int));
                        assert(state.indices =~= end.indices.take(state.indices.len() as int));
                    },
                    Err(_) => {},
                }
            },
            Err(_) => {},
        }
    }
}

/// The glTF mode in which a primitive set is drawn, nothing if it has no indices outside the
/// wireframe file or is of no known mode.
pub open spec fn drawing_mode(prim: Tree) -> Option<u32> {
    match first_key_value_of(Some(prim)) {
        None => None,
        Some((_, draw)) => match first_key_value_of(
            get_of(get_of(Some(draw), "Indices"@), "Array"@),
        ) {
            None => None,
            Some((_, def)) => if in_wireframe(def) {
                None
            } else {
                mode_of(draw)
            },
        },
    }
}

/// The primitive sets from `from` on that are drawn in `mode`, which is that of the first one that
/// is drawn at all if no mode is given.
pub open spec fn sets_in_mode(prims: Seq<Tree>, from: int, mode: Option<u32>) -> Seq<Tree>
    decreases prims.len() - from,
{
    if from < 0 || from >= prims.len() {
        Seq::empty()
    } else {
        match drawing_mode(prims[from]) {
            Some(m) => if mode is None || mode == Some(m) {
                seq![prims[from]] + sets_in_mode(prims, from + 1, Some(m))
            } else {
                sets_in_mode(prims, from + 1, mode)
            },
            None => sets_in_mode(prims, from + 1, mode),
        }
    }
}

/// What is drawn after all but the first primitive set of a list is what is drawn after the rest.
proof fn lemma_rest_drawn(
    first: Tree,
    rest: Seq<Tree>,
    from: int,
    meta: Map<Seq<char>, Figure>,
    bin: Seq<u8>,
    state: DrawnView,
)
    requires
        from >= 0,
    ensures
        primitives_drawn(seq![first] + rest, from + 1, meta, bin, state) == primitives_drawn(
            rest,
            from,
            meta,
            bin,
            state,
        ),
    decreases rest.len() - from,
{
    let all = seq![first] + rest;
    if from < rest.len() {
        assert(all[from + 1] == rest[from]);
        match primitive_drawn(state, rest[from], meta, bin) {
            Ok(next) => {
                lemma_rest_drawn(first, rest, from + 1, meta, bin, next);
            },
            Err(_) => {},
        }
    }
}

/// Primitive sets without indices, those in the wireframe file, those of an unknown mode, and those
/// of another mode than the first one drawn add nothing and cause no error: what is drawn is what
/// the others draw.
pub proof fn law_idle_sets_change_nothing(
    prims: Seq<Tree>,
    from: int,
    meta: Map<Seq<char>, Figure>,
    bin: Seq<u8>,
    state: DrawnView,
)
    requires
        0 <= from <= prims.len(),
    ensures
        primitives_drawn(prims, from, meta, bin, state) == primitives_drawn(
            sets_in_mode(prims, from, state.mode),
            0,
            meta,
            bin,
            state,
        ),
    decreases prims.len() - from,
{
    if from < prims.len() {
        let kept = sets_in_mode(prims, from, state.mode);
        match primitive_drawn(state, prims[from], meta, bin) {
            Ok(next) => {
                law_idle_sets_change_nothing(prims, from + 1, meta, bin, next);
                match drawing_mode(prims[from]) {
                    Some(m) => if state.mode is None || state.mode == Some(m) {
                        let rest = sets_in_mode(prims, from + 1, Some(m));
                        assert(kept[0] == prims[from]);
                        assert(next.mode == Some(m));
                        lemma_rest_drawn(prims[from], rest, 0, meta, bin, next);
                    },
                    None => {},
                }
            },
            Err(_) => {
                assert(kept[0] == prims[from]);
            },
        }
    }
}

/// The modes of primitives by their glTF numbers: points, lines, closed and open chains of lines,
/// and triangles, which strips become. No other name is a mode.
pub proof fn law_modes_have_their_numbers(draw: Tree, name: Seq<char>)
    requires
        get_of(Some(draw), "Mode"@) matches Some(Tree::Text(t, _)) && t == name,
    ensures
        mode_of(draw) == Some(0u32) <==> name == "POINTS"@,
        mode_of(draw) == Some(1u32) <==> name == "LINES"@,
        mode_of(draw) == Some(2u32) <==> name == "LINE_LOOP"@,
        mode_of(draw) == Some(3u32) <==> name == "LINE_STRIP"@,
        mode_of(draw) == Some(4u32) <==> name == "TRIANGLES"@ || name == "TRIANGLE_STRIP"@,
        mode_of(draw) matches Some(m) ==> m <= 4,
{
    reveal_strlit("POINTS");
    reveal_strlit("LINES");
    reveal_strlit("LINE_LOOP");
    reveal_strlit("LINE_STRIP");
    reveal_strlit("TRIANGLES");
    reveal_strlit("TRIANGLE_STRIP");
    assert("POINTS"@.len() == 6 && "LINES"@.len() == 5 && "LINE_STRIP"@.len() == 10);
    assert("LINE_LOOP"@.len() == 9 && "LINE_LOOP"@[0] == 'L');
    assert("TRIANGLES"@.len() == 9 && "TRIANGLES"@[0] == 'T');
    assert("TRIANGLE_STRIP"@.len() == 14);
}

/// Indices that are not encoded are used as they are; those that are stored as differences (1) are
/// summed up, from the first one on.
pub proof fn law_plain_and_summed_indices(list: Seq<u32>, mode: u32, is_strip: bool, bits: u32, i: int)
    requires
        mode & 4 == 0 || !is_strip,
        0 <= i < list.len(),
    ensures
        plain_indices(list, mode, is_strip, bits) matches Some((out, width)) && {
            &&& width == bits
            &&& out.len() == list.len()
            &&& mode & 1 == 0 ==> out == list
            &&& mode & 1 != 0 ==> out[0] == list[0] && (i > 0 ==> out[i] == typed_of(
                out[i - 1] + unzigzag(list[i] as int),
                bits,
            ))
        },
{
}

/// What is drawn after a primitive of stored indices: the indices themselves, or the triangles of a
/// strip, behind those that were drawn before; indices that were stored by what is new (2) are
/// numbered on from where the last ones ended.
pub proof fn law_indices_are_drawn(
    state: DrawnView,
    stored: Seq<u32>,
    mode: u32,
    is_strip: bool,
    output_mode: u32,
    bits: u32,
)
    ensures
        drawn_with(state, stored, mode, is_strip, output_mode, bits) matches Ok(after) ==> {
            &&& after.mode == Some(output_mode)
            &&& plain_indices(stored, mode, is_strip, bits) matches Some((plain, width)) && {
                let idx = if mode & 2 != 0 {
                    renumbered(plain, state.expected, width)
                } else {
                    plain
                };
                &&& !is_strip ==> after.indices == state.indices + idx && after.strip == state.strip
                &&& is_strip ==> after.strip == Some(idx) && after.indices == state.indices
                    + strip_triangles(idx, idx.len() - 2)
                &&& mode & 2 == 0 ==> after.expected == state.expected
                &&& mode & 2 != 0 ==> after.expected == state.expected + zeros_before(
                    plain,
                    plain.len() as int,
                )
            }
        },
{
}

/// The indices of a primitive are read from its own array, one number each, by the geometry's
/// triangle mode; they are cut to sixteen bits unless the array holds whole words.
pub proof fn law_primitive_is_read_from_its_array(
    state: DrawnView,
    members: Seq<(Seq<char>, Tree)>,
    arrays: Seq<(Seq<char>, Tree)>,
    meta: Map<Seq<char>, Figure>,
    bin: Seq<u8>,
    mode: u32,
)
    requires
        members.len() > 0,
        arrays.len() > 0,
        get_of(get_of(Some(members[0].1), "Indices"@), "Array"@) == Some(Tree::Object(arrays)),
        !in_wireframe(arrays[0].1),
        mode_of(members[0].1) == Some(mode),
        state.mode is None || state.mode == Some(mode),
    ensures
        ({
            let r = primitive_drawn(state, Tree::Object(members), meta, bin);
            let strip = text_of(get_of(Some(members[0].1), "Mode"@)) == Some("TRIANGLE_STRIP"@);
            match buffer_array_of(bin, arrays[0].1, 1, arrays[0].0) {
                Err(e) => r == Err::<DrawnView, BufferError>(e),
                Ok(data) => r == drawn_with(
                    state,
                    lows32(data.integers()),
                    flags_of(meta, "triangle_mode"@),
                    strip,
                    mode,
                    if arrays[0].0 == "Uint32Array"@ {
                        32
                    } else {
                        16
                    },
                ),
            }
        }),
{
}

/// An array is stored in the wireframe file if its file's name says so.
pub proof fn law_wireframe_is_told_by_the_file(def: Tree, file: Seq<char>)
    ensures
        get_of(Some(def), "File"@) matches Some(Tree::Text(f, _)) ==> (f == file ==> (in_wireframe(def)
            <==> contains_of(file, "wireframe"@))),
        !(get_of(Some(def), "File"@) matches Some(Tree::Text(_, _))) ==> !in_wireframe(def),
{
}

} // verus!
