//! Animations: which channels there are, how their arrays are decoded, and how they are written.

use crate::attributes::{axis_named, own, size_of, size_or};
use crate::buffers::{buffer_array_of, read_buffer_array, AttrData, BufferError, Components};
use crate::float_bits::{eq_of, is_nan, is_zero, is_zero_of};
use crate::gltf::{
    accessor_bytes, bytes32, bytes_of, channels_ok, law_new_accessor_holds_its_attribute,
    law_padded_append, lemma_appending_joins, lemma_views_push, lemma_views_update, only_appended,
    views, AccessorKind, Animation, AnimationView, Attribute, AttributeView, Channel, ChannelPath,
    Document, DocumentView,
};
use crate::json::{
    array, first_key_value, first_key_value_of, get, get_of, items_of, kid, kid_count, kids,
    lemma_kid_descends, text, text_of, tree_of, trees, unsigned, unsigned_of, Json, Tree,
};
use crate::keyframes::{
    law_merged_times_are_the_times, merge_times, merged, sample_of, sample_scalar_track, Sample,
};
use crate::metadata::{
    flags, flags_of, meta_value, single_of, user_data_of, user_data_values, Figure,
};
use crate::primitives::copy_u32;
use crate::scene::{base_name, without_numeric_suffix};
use crate::text::{contains, contains_of, lower_of, lowercase, same_text};
use vstd::hash_map::StringHashMap;
use vstd::prelude::*;

verus! {

/// Components that are stored one after the other for all items, put together item by item. What
/// does not make up a whole item is zero.
pub open spec fn interleaved<T>(v: Seq<T>, item_size: int, zero: T) -> Seq<T> {
    let count = v.len() as int / item_size;
    Seq::new(
        v.len(),
        |i: int|
            if i < count * item_size {
                v[i / item_size + count * (i % item_size)]
            } else {
                zero
            },
    )
}

/// The components of an array, put together item by item.
pub open spec fn unpacked(c: Components, item_size: int) -> Components {
    match c {
        Components::F32(v) => Components::F32(interleaved(v, item_size, 0)),
        Components::I32(v) => Components::I32(interleaved(v, item_size, 0)),
        Components::U32(v) => Components::U32(interleaved(v, item_size, 0)),
        Components::U16(v) => Components::U16(interleaved(v, item_size, 0)),
        Components::U8(v) => Components::U8(interleaved(v, item_size, 0)),
        Components::I16(v) => Components::I16(interleaved(v, item_size, 0)),
    }
}

/// Where a component comes from lies within the array.
proof fn lemma_unpacked_source(len: int, item_size: int, i: int)
    requires
        item_size > 0,
        0 <= i < (len / item_size) * item_size,
        0 <= len,
    ensures
        0 <= i / item_size + (len / item_size) * (i % item_size) < len,
        (len / item_size) * item_size <= len,
{
    let count = len / item_size;
    let a = i / item_size;
    let b = i % item_size;
    vstd::arithmetic::div_mod::lemma_fundamental_div_mod(i, item_size);
    vstd::arithmetic::div_mod::lemma_fundamental_div_mod(len, item_size);
    vstd::arithmetic::div_mod::lemma_div_pos_is_pos(i, item_size);
    vstd::arithmetic::div_mod::lemma_mod_bound(i, item_size);
    vstd::arithmetic::div_mod::lemma_mod_bound(len, item_size);
    vstd::arithmetic::div_mod::lemma_div_pos_is_pos(len, item_size);
    assert(a < count) by (nonlinear_arith)
        requires
            i == item_size * a + b,
            0 <= b < item_size,
            i < count * item_size,
            item_size > 0,
    ;
    assert(0 <= count * b) by (nonlinear_arith)
        requires
            count >= 0,
            b >= 0,
    ;
    assert(a + count * b < count * item_size) by (nonlinear_arith)
        requires
            a < count,
            0 <= b < item_size,
            count >= 0,
    ;
    assert(count * item_size <= len) by (nonlinear_arith)
        requires
            len == item_size * count + len % item_size,
            len % item_size >= 0,
    ;
}

/// Puts components together item by item.
fn interleave<T: Copy>(v: &Vec<T>, item_size: usize, zero: T) -> (r: Vec<T>)
    requires
        item_size > 0,
    ensures
        r@ == interleaved(v@, item_size as int, zero),
{
    let length: usize = v.len();
    let count: usize = length / item_size;
    proof {
        vstd::arithmetic::div_mod::lemma_fundamental_div_mod(length as int, item_size as int);
        assert(count * item_size <= length) by (nonlinear_arith)
            requires
                length == item_size * count + length as int % item_size as int,
                length as int % item_size as int >= 0,
        ;
    }
    let whole: usize = count * item_size;
    let mut out: Vec<T> = Vec::new();
    let mut i: usize = 0;
    while i < length
        invariant
            i <= length == v@.len(),
            item_size > 0,
            count == length as int / item_size as int,
            whole == count * item_size,
            whole <= length,
            out@.len() == i,
            forall|k: int|
                0 <= k < i ==> #[trigger] out@[k] == interleaved(v@, item_size as int, zero)[k],
        decreases length - i,
    {
        if i < whole {
            proof {
                lemma_unpacked_source(length as int, item_size as int, i as int);
                let b = i as int % item_size as int;
                vstd::arithmetic::div_mod::lemma_mod_bound(i as int, item_size as int);
                assert(0 <= count * b) by (nonlinear_arith)
                    requires
                        count >= 0,
                        b >= 0,
                ;
                vstd::arithmetic::div_mod::lemma_div_pos_is_pos(i as int, item_size as int);
            }
            let at: usize = i / item_size + count * (i % item_size);
            out.push(v[at]);
        } else {
            out.push(zero);
        }
        i += 1;
    }
    assert(out@ =~= interleaved(v@, item_size as int, zero));
    out
}

/// Puts the components of an array together item by item.
pub fn unpack_components(data: AttrData, item_size: usize) -> (r: AttrData)
    requires
        item_size > 0,
    ensures
        r@ == unpacked(data@, item_size as int),
{
    match data {
        AttrData::F32(v) => AttrData::F32(interleave(&v, item_size, 0)),
        AttrData::I32(v) => AttrData::I32(interleave(&v, item_size, 0)),
        AttrData::U32(v) => AttrData::U32(interleave(&v, item_size, 0)),
        AttrData::U16(v) => AttrData::U16(interleave(&v, item_size, 0)),
        AttrData::U8(v) => AttrData::U8(interleave(&v, item_size, 0)),
        AttrData::I16(v) => AttrData::I16(interleave(&v, item_size, 0)),
    }
}

/// Component `c` of item `k` is entry `k` of the stored list of component `c`.
pub proof fn law_unpacking_transposes(v: Seq<u32>, item_size: int, k: int, c: int)
    requires
        item_size > 0,
        0 <= c < item_size,
        0 <= k < v.len() as int / item_size,
    ensures
        interleaved(v, item_size, 0)[k * item_size + c] == v[k + (v.len() as int / item_size) * c],
{
    let count = v.len() as int / item_size;
    let i = k * item_size + c;
    vstd::arithmetic::div_mod::lemma_fundamental_div_mod_converse(i, item_size, k, c);
    assert(0 <= i < count * item_size) by (nonlinear_arith)
        requires
            i == k * item_size + c,
            0 <= c < item_size,
            0 <= k < count,
    ;
    lemma_unpacked_source(v.len() as int, item_size, i);
}

/// How an animation array's numbers are obtained from what is stored.
#[derive(Debug)]
pub enum ArrayShape {
    /// Triples are rotations, stored as angles of the given resolution. With an origin each one
    /// is relative to the one before.
    Rotations { epsilon: u32, nphi: u32, origin: Option<Vec<u32>> },
    /// Numbers, perhaps scaled from a range. With an origin each item is relative to the one
    /// before.
    Numbers { range: Option<(Vec<u32>, Vec<u32>)>, origin: Option<Vec<u32>> },
}

/// The mathematical counterpart of [`ArrayShape`].
#[verifier::ext_equal]
pub ghost enum ShapeView {
    Rotations { epsilon: u32, nphi: u32, origin: Option<Seq<u32>> },
    Numbers { range: Option<(Seq<u32>, Seq<u32>)>, origin: Option<Seq<u32>> },
}

impl View for ArrayShape {
    type V = ShapeView;

    open spec fn view(&self) -> ShapeView {
        match self {
            ArrayShape::Rotations { epsilon, nphi, origin } => ShapeView::Rotations {
                epsilon: *epsilon,
                nphi: *nphi,
                origin: crate::primitives::list_opt(*origin),
            },
            ArrayShape::Numbers { range, origin } => ShapeView::Numbers {
                range: crate::attributes::range_opt(*range),
                origin: crate::primitives::list_opt(*origin),
            },
        }
    }
}

/// An animation array, still to be decoded.
#[derive(Debug)]
pub struct ArrayPlan {
    pub data: AttrData,
    pub item_size: usize,
    pub shape: ArrayShape,
}

/// The mathematical counterpart of [`ArrayPlan`].
#[verifier::ext_equal]
pub ghost struct ArrayView {
    pub data: Components,
    pub item_size: usize,
    pub shape: ShapeView,
}

impl View for ArrayPlan {
    type V = ArrayView;

    open spec fn view(&self) -> ArrayView {
        ArrayView { data: self.data@, item_size: self.item_size, shape: self.shape@ }
    }
}

/// A number of that name, or the given one if it is zero.
pub open spec fn nonzero_or(meta: Map<Seq<char>, Figure>, key: Seq<char>, default: u32) -> u32 {
    if is_zero_of(single_of(meta, key)) {
        default
    } else {
        single_of(meta, key)
    }
}

/// A number of that name, or the given one if it is zero.
fn nonzero(meta: &StringHashMap<Figure>, key: &str, default: u32) -> (r: u32)
    ensures
        r == nonzero_or(meta@, key@, default),
{
    let v: u32 = meta_value(meta, key);
    if is_zero(v) {
        default
    } else {
        v
    }
}

/// How an array's numbers are obtained, by the channel's mode (1: scaled, 4: relative, 8: stored
/// rotations, 16: relative times) and by how many components it has.
pub open spec fn shape_of(
    meta: Map<Seq<char>, Figure>,
    compressed: bool,
    components: int,
) -> ShapeView {
    let mode = flags_of(meta, "channel_mode"@);
    if components == 4 && mode & 8 != 0 {
        ShapeView::Rotations {
            epsilon: nonzero_or(meta, "epsilon"@, 0x3e80_0000),
            nphi: nonzero_or(meta, "nphi"@, 0x4434_0000),
            origin: if compressed && mode & 4 != 0 {
                Some(
                    seq![
                        single_of(meta, "ox"@),
                        single_of(meta, "oy"@),
                        single_of(meta, "oz"@),
                        single_of(meta, "ow"@),
                    ],
                )
            } else {
                None
            },
        }
    } else {
        let relative = if components == 1 {
            mode & 16 != 0
        } else {
            mode & 4 != 0
        };
        ShapeView::Numbers {
            range: if compressed && components == 3 && mode & 1 != 0 {
                Some(
                    (
                        seq![single_of(meta, "bx"@), single_of(meta, "by"@), single_of(meta, "bz"@)],
                        seq![single_of(meta, "hx"@), single_of(meta, "hy"@), single_of(meta, "hz"@)],
                    ),
                )
            } else {
                None
            },
            origin: if compressed && relative {
                if components == 3 {
                    Some(
                        seq![single_of(meta, "ox"@), single_of(meta, "oy"@), single_of(meta, "oz"@)],
                    )
                } else {
                    Some(seq![single_of(meta, "ot"@)])
                }
            } else {
                None
            },
        }
    }
}

/// The numbers of the given names.
fn three(meta: &StringHashMap<Figure>, a: &str, b: &str, c: &str) -> (r: Vec<u32>)
    ensures
        r@ == seq![single_of(meta@, a@), single_of(meta@, b@), single_of(meta@, c@)],
{
    let mut v: Vec<u32> = Vec::new();
    v.push(meta_value(meta, a));
    v.push(meta_value(meta, b));
    v.push(meta_value(meta, c));
    assert(v@ =~= seq![single_of(meta@, a@), single_of(meta@, b@), single_of(meta@, c@)]);
    v
}

/// How an array's numbers are obtained.
fn read_shape(meta: &StringHashMap<Figure>, compressed: bool, components: usize) -> (r: ArrayShape)
    ensures
        r@ == shape_of(meta@, compressed, components as int),
{
    let mode: u32 = flags(meta, "channel_mode");
    if components == 4 && mode & 8 != 0 {
        let origin = if compressed && mode & 4 != 0 {
            let mut v = three(meta, "ox", "oy", "oz");
            v.push(meta_value(meta, "ow"));
            assert(v@ =~= seq![
                single_of(meta@, "ox"@),
                single_of(meta@, "oy"@),
                single_of(meta@, "oz"@),
                single_of(meta@, "ow"@),
            ]);
            Some(v)
        } else {
            None
        };
        return ArrayShape::Rotations {
            epsilon: nonzero(meta, "epsilon", 0x3e80_0000),
            nphi: nonzero(meta, "nphi", 0x4434_0000),
            origin,
        };
    }
    let range = if compressed && components == 3 && mode & 1 != 0 {
        Some((three(meta, "bx", "by", "bz"), three(meta, "hx", "hy", "hz")))
    } else {
        None
    };
    let relative = if components == 1 {
        mode & 16 != 0
    } else {
        mode & 4 != 0
    };
    let origin = if compressed && relative {
        if components == 3 {
            Some(three(meta, "ox", "oy", "oz"))
        } else {
            let mut v: Vec<u32> = Vec::new();
            v.push(meta_value(meta, "ot"));
            assert(v@ =~= seq![single_of(meta@, "ot"@)]);
            Some(v)
        }
    } else {
        None
    };
    ArrayShape::Numbers { range, origin }
}

/// An animation array.
pub open spec fn animation_array(
    bin: Seq<u8>,
    definition: Option<Tree>,
    meta: Map<Seq<char>, Figure>,
    compressed: bool,
    packed: bool,
    components: int,
) -> Result<ArrayView, BufferError> {
    match first_key_value_of(get_of(definition, "Array"@)) {
        None => Err(BufferError::MissingAnimationArray),
        Some((array_type, array_def)) => {
            let item_size = size_of(unsigned_of(get_of(definition, "ItemSize"@)), components);
            if item_size > usize::MAX {
                Err(BufferError::OutOfRange)
            } else {
                match buffer_array_of(bin, array_def, item_size, array_type) {
                    Err(e) => Err(e),
                    Ok(data) => if packed && components != 1 && item_size == 0 {
                        Err(BufferError::OutOfRange)
                    } else {
                        Ok(
                            ArrayView {
                                data: if packed && components != 1 {
                                    unpacked(data, item_size)
                                } else {
                                    data
                                },
                                item_size: item_size as usize,
                                shape: shape_of(meta, compressed, components),
                            },
                        )
                    },
                }
            }
        },
    }
}

/// A result with its array seen as a mathematical value.
pub open spec fn plan_result(r: Result<ArrayPlan, BufferError>) -> Result<ArrayView, BufferError> {
    match r {
        Ok(p) => Ok(p@),
        Err(e) => Err(e),
    }
}

/// Reads an animation array.
pub fn decode_animation_array(
    animation_bin: &[u8],
    definition: Option<&Json>,
    meta: &StringHashMap<Figure>,
    compressed: bool,
    packed: bool,
    components: usize,
) -> (r: Result<ArrayPlan, BufferError>)
    ensures
        plan_result(r) == animation_array(
            animation_bin@,
            tree_of(definition),
            meta@,
            compressed,
            packed,
            components as int,
        ),
{
    let (array_type, array_def) = match first_key_value(get(definition, "Array")) {
        Some(pair) => pair,
        None => {
            return Err(BufferError::MissingAnimationArray);
        },
    };
    let item_size: usize = match size_or(unsigned(get(definition, "ItemSize")), components) {
        Some(n) => n,
        None => {
            return Err(BufferError::OutOfRange);
        },
    };
    let data = match read_buffer_array(animation_bin, array_def, item_size, array_type.as_str()) {
        Ok(d) => d,
        Err(e) => {
            return Err(e);
        },
    };
    if packed && components != 1 && item_size == 0 {
        return Err(BufferError::OutOfRange);
    }
    let data = if packed && components != 1 {
        unpack_components(data, item_size)
    } else {
        data
    };
    Ok(ArrayPlan { data, item_size, shape: read_shape(meta, compressed, components) })
}

/// Which morph target of which node a name stands for.
#[derive(Clone, Copy, Debug, PartialEq, Eq, Structural)]
pub struct MorphTargetBinding {
    pub node: usize,
    pub target_index: usize,
    pub target_count: usize,
}

/// A binding under its name.
#[derive(Debug)]
pub struct NamedBinding {
    pub name: String,
    pub binding: MorphTargetBinding,
}

impl View for NamedBinding {
    type V = (Seq<char>, MorphTargetBinding);

    open spec fn view(&self) -> (Seq<char>, MorphTargetBinding) {
        (self.name@, self.binding)
    }
}

/// The bindings of a name, in order.
pub open spec fn bound(
    list: Seq<(Seq<char>, MorphTargetBinding)>,
    name: Seq<char>,
    n: int,
) -> Seq<MorphTargetBinding>
    decreases n,
{
    if n <= 0 {
        Seq::empty()
    } else {
        let before = bound(list, name, n - 1);
        if list[n - 1].0 == name {
            before.push(list[n - 1].1)
        } else {
            before
        }
    }
}

/// The bindings of a name.
pub fn bindings_of(list: &Vec<NamedBinding>, name: &str) -> (r: Vec<MorphTargetBinding>)
    ensures
        r@ == bound(views(list@), name@, list@.len() as int),
{
    let mut out: Vec<MorphTargetBinding> = Vec::new();
    let mut i: usize = 0;
    while i < list.len()
        invariant
            i <= list@.len(),
            out@ == bound(views(list@), name@, i as int),
        decreases list@.len() - i,
    {
        assert(views(list@)[i as int] == list@[i as int]@);
        if same_text(list[i].name.as_str(), name) {
            out.push(list[i].binding);
        }
        i += 1;
    }
    out
}

/// What a channel moves.
#[derive(Debug)]
pub enum ChannelTarget {
    /// The weights of morph targets.
    Weights(Vec<MorphTargetBinding>),
    /// A node.
    Node(usize, ChannelPath),
}

/// The mathematical counterpart of [`ChannelTarget`].
#[verifier::ext_equal]
pub ghost enum TargetView {
    Weights(Seq<MorphTargetBinding>),
    Node(usize, ChannelPath),
}

impl View for ChannelTarget {
    type V = TargetView;

    open spec fn view(&self) -> TargetView {
        match self {
            ChannelTarget::Weights(list) => TargetView::Weights(list@),
            ChannelTarget::Node(node, path) => TargetView::Node(*node, *path),
        }
    }
}

/// A channel, still to be decoded.
#[derive(Debug)]
pub struct ChannelPlan {
    pub target: ChannelTarget,
    pub components: usize,
    pub times: ArrayPlan,
    pub values: ArrayPlan,
}

/// The mathematical counterpart of [`ChannelPlan`].
#[verifier::ext_equal]
pub ghost struct ChannelPlanView {
    pub target: TargetView,
    pub components: usize,
    pub times: ArrayView,
    pub values: ArrayView,
}

impl View for ChannelPlan {
    type V = ChannelPlanView;

    open spec fn view(&self) -> ChannelPlanView {
        ChannelPlanView {
            target: self.target@,
            components: self.components,
            times: self.times@,
            values: self.values@,
        }
    }
}

/// The node of a name, or else of the name without its number.
pub open spec fn node_of(names: Map<Seq<char>, usize>, name: Seq<char>) -> Option<usize> {
    if names.contains_key(name) {
        Some(names[name])
    } else if names.contains_key(base_name(name)) {
        Some(names[base_name(name)])
    } else {
        None
    }
}

/// The node of a name, or else of the name without its number.
fn find_node(names: &StringHashMap<usize>, name: &str) -> (r: Option<usize>)
    ensures
        r == node_of(names@, name@),
{
    match names.get(name) {
        Some(i) => Some(*i),
        None => match names.get(without_numeric_suffix(name).as_str()) {
            Some(i) => Some(*i),
            None => None,
        },
    }
}

/// What a channel of that name moves, and by how many components.
pub open spec fn path_of(name: Seq<char>) -> Option<(ChannelPath, int)> {
    if name == "translate"@ {
        Some((ChannelPath::Translation, 3))
    } else if name == "rotate"@ {
        Some((ChannelPath::Rotation, 4))
    } else if name == "scale"@ {
        Some((ChannelPath::Scale, 3))
    } else {
        None
    }
}

/// What a channel moves: the weights of morph targets if its type says that it holds single
/// numbers, or else a node. Nothing if there is nothing of its name, or it is of no known kind.
pub open spec fn target_of(
    channel_type: Seq<char>,
    target_name: Seq<char>,
    channel_name: Seq<char>,
    names: Map<Seq<char>, usize>,
    bindings: Seq<(Seq<char>, MorphTargetBinding)>,
) -> Option<(TargetView, int)> {
    if contains_of(channel_type, "Float"@) {
        let list = bound(bindings, target_name, bindings.len() as int);
        if list.len() == 0 {
            None
        } else {
            Some((TargetView::Weights(list), 1))
        }
    } else {
        match node_of(names, target_name) {
            None => None,
            Some(node) => match path_of(channel_name) {
                None => None,
                Some((path, components)) => Some((TargetView::Node(node, path), components)),
            },
        }
    }
}

/// What a channel moves.
fn find_channel_target(
    channel_type: &str,
    target_name: &str,
    channel_name: &str,
    names: &StringHashMap<usize>,
    bindings: &Vec<NamedBinding>,
) -> (r: Option<(ChannelTarget, usize)>)
    ensures
        match r {
            Some((t, n)) => target_of(
                channel_type@,
                target_name@,
                channel_name@,
                names@,
                views(bindings@),
            ) == Some((t@, n as int)),
            None => target_of(
                channel_type@,
                target_name@,
                channel_name@,
                names@,
                views(bindings@),
            ) is None,
        },
{
    if contains(channel_type, "Float") {
        let list = bindings_of(bindings, target_name);
        if list.len() == 0 {
            return None;
        }
        return Some((ChannelTarget::Weights(list), 1));
    }
    let node: usize = match find_node(names, target_name) {
        Some(n) => n,
        None => {
            return None;
        },
    };
    if same_text(channel_name, "translate") {
        Some((ChannelTarget::Node(node, ChannelPath::Translation), 3))
    } else if same_text(channel_name, "rotate") {
        Some((ChannelTarget::Node(node, ChannelPath::Rotation), 4))
    } else if same_text(channel_name, "scale") {
        Some((ChannelTarget::Node(node, ChannelPath::Scale), 3))
    } else {
        None
    }
}

/// A channel of an animation, nothing if it moves nothing or has no keyframes.
pub open spec fn channel_of(
    wrapper: Tree,
    bin: Seq<u8>,
    names: Map<Seq<char>, usize>,
    bindings: Seq<(Seq<char>, MorphTargetBinding)>,
) -> Result<Option<ChannelPlanView>, BufferError> {
    match first_key_value_of(Some(wrapper)) {
        None => Ok(None),
        Some((kind, channel)) => match (
            text_of(get_of(Some(channel), "TargetName"@)),
            text_of(get_of(Some(channel), "Name"@)),
        ) {
            (Some(target_name), Some(name)) => match target_of(
                kind,
                target_name,
                name,
                names,
                bindings,
            ) {
                None => Ok(None),
                Some((target, components)) => {
                    let meta = user_data_of(channel);
                    let compressed = contains_of(kind, "Compressed"@);
                    let packed = contains_of(kind, "Packed"@);
                    let frames = get_of(Some(channel), "KeyFrames"@);
                    if frames is None {
                        Ok(None)
                    } else {
                        match animation_array(
                            bin,
                            get_of(frames, "Time"@),
                            meta,
                            compressed,
                            false,
                            1,
                        ) {
                            Err(e) => Err(e),
                            Ok(times) => match animation_array(
                                bin,
                                get_of(frames, "Key"@),
                                meta,
                                compressed,
                                packed,
                                components,
                            ) {
                                Err(e) => Err(e),
                                Ok(values) => Ok(
                                    Some(
                                        ChannelPlanView {
                                            target,
                                            components: components as usize,
                                            times,
                                            values,
                                        },
                                    ),
                                ),
                            },
                        }
                    }
                },
            },
            _ => Ok(None),
        },
    }
}

/// The channels of an animation from `from` on, behind those found so far.
pub open spec fn channels_from(
    list: Seq<Tree>,
    from: int,
    bin: Seq<u8>,
    names: Map<Seq<char>, usize>,
    bindings: Seq<(Seq<char>, MorphTargetBinding)>,
    found: Seq<ChannelPlanView>,
) -> Result<Seq<ChannelPlanView>, BufferError>
    decreases list.len() - from,
{
    if from < 0 || from >= list.len() {
        Ok(found)
    } else {
        match channel_of(list[from], bin, names, bindings) {
            Err(e) => Err(e),
            Ok(None) => channels_from(list, from + 1, bin, names, bindings, found),
            Ok(Some(c)) => channels_from(list, from + 1, bin, names, bindings, found.push(c)),
        }
    }
}

/// A result with its channel seen as a mathematical value.
pub open spec fn channel_result(r: Result<Option<ChannelPlan>, BufferError>) -> Result<
    Option<ChannelPlanView>,
    BufferError,
> {
    match r {
        Ok(Some(c)) => Ok(Some(c@)),
        Ok(None) => Ok(None),
        Err(e) => Err(e),
    }
}

/// Reads a channel of an animation.
fn read_channel(
    wrapper: &Json,
    bin: &[u8],
    names: &StringHashMap<usize>,
    bindings: &Vec<NamedBinding>,
) -> (r: Result<Option<ChannelPlan>, BufferError>)
    ensures
        channel_result(r) == channel_of(wrapper@, bin@, names@, views(bindings@)),
{
    let (kind, channel) = match first_key_value(Some(wrapper)) {
        Some(pair) => pair,
        None => {
            return Ok(None);
        },
    };
    let target_name = match text(get(Some(channel), "TargetName")) {
        Some(t) => t,
        None => {
            return Ok(None);
        },
    };
    let name = match text(get(Some(channel), "Name")) {
        Some(t) => t,
        None => {
            return Ok(None);
        },
    };
    let (target, components) = match find_channel_target(
        kind.as_str(),
        target_name.as_str(),
        name.as_str(),
        names,
        bindings,
    ) {
        Some(pair) => pair,
        None => {
            return Ok(None);
        },
    };
    let meta = user_data_values(channel);
    let compressed = contains(kind.as_str(), "Compressed");
    let packed = contains(kind.as_str(), "Packed");
    let frames = get(Some(channel), "KeyFrames");
    if frames.is_none() {
        return Ok(None);
    }
    let times = match decode_animation_array(
        bin,
        get(frames, "Time"),
        &meta,
        compressed,
        false,
        1,
    ) {
        Ok(p) => p,
        Err(e) => {
            return Err(e);
        },
    };
    let values = match decode_animation_array(
        bin,
        get(frames, "Key"),
        &meta,
        compressed,
        packed,
        components,
    ) {
        Ok(p) => p,
        Err(e) => {
            return Err(e);
        },
    };
    let plan = ChannelPlan { target, components, times, values };
    Ok(Some(plan))
}

/// The channels of an animation.
pub open spec fn animation_channels(
    animation: Tree,
    bin: Seq<u8>,
    names: Map<Seq<char>, usize>,
    bindings: Seq<(Seq<char>, MorphTargetBinding)>,
) -> Result<Seq<ChannelPlanView>, BufferError> {
    channels_from(
        items_of(get_of(Some(animation), "Channels"@)),
        0,
        bin,
        names,
        bindings,
        Seq::empty(),
    )
}

/// Reads the channels of an animation.
pub fn read_channels(
    animation: &Json,
    bin: &[u8],
    names: &StringHashMap<usize>,
    bindings: &Vec<NamedBinding>,
) -> (r: Result<Vec<ChannelPlan>, BufferError>)
    ensures
        match r {
            Ok(list) => animation_channels(animation@, bin@, names@, views(bindings@)) == Ok::<
                Seq<ChannelPlanView>,
                BufferError,
            >(views(list@)),
            Err(e) => animation_channels(animation@, bin@, names@, views(bindings@)) == Err::<
                Seq<ChannelPlanView>,
                BufferError,
            >(e),
        },
{
    let mut out: Vec<ChannelPlan> = Vec::new();
    assert(views(out@) =~= Seq::<ChannelPlanView>::empty());
    let ghost goal = animation_channels(animation@, bin@, names@, views(bindings@));
    match array(get(Some(animation), "Channels")) {
        Some(items) => {
            let ghost list = trees(items@);
            let mut i: usize = 0;
            while i < items.len()
                invariant
                    i <= items@.len(),
                    list == trees(items@),
                    goal == animation_channels(animation@, bin@, names@, views(bindings@)),
                    goal == channels_from(
                        list,
                        i as int,
                        bin@,
                        names@,
                        views(bindings@),
                        views(out@),
                    ),
                decreases items@.len() - i,
            {
                assert(list[i as int] == items@[i as int]@);
                match read_channel(&items[i], bin, names, bindings) {
                    Ok(Some(c)) => {
                        proof {
                            lemma_views_push(out@, c);
                        }
                        out.push(c);
                    },
                    Ok(None) => {},
                    Err(e) => {
                        return Err(e);
                    },
                }
                i += 1;
            }
        },
        None => {},
    }
    Ok(out)
}

/// Whether what a channel moves exists.
pub open spec fn moves_existing(target: TargetView, nodes: int) -> bool {
    match target {
        TargetView::Weights(list) => bindings_exist(list, nodes),
        TargetView::Node(node, _) => node < nodes,
    }
}

/// Whether the nodes of bindings exist.
pub open spec fn bindings_exist(list: Seq<MorphTargetBinding>, nodes: int) -> bool {
    forall|i: int| 0 <= i < list.len() ==> (#[trigger] list[i]).node < nodes
}

/// Whether names and named bindings stand for nodes that exist.
pub open spec fn names_exist(
    names: Map<Seq<char>, usize>,
    bindings: Seq<(Seq<char>, MorphTargetBinding)>,
    nodes: int,
) -> bool {
    &&& forall|name: Seq<char>| #[trigger] names.contains_key(name) ==> names[name] < nodes
    &&& forall|i: int| 0 <= i < bindings.len() ==> (#[trigger] bindings[i]).1.node < nodes
}

/// The bindings of a name are among all bindings.
proof fn lemma_bound_exist(
    list: Seq<(Seq<char>, MorphTargetBinding)>,
    name: Seq<char>,
    n: int,
    nodes: int,
)
    requires
        n <= list.len(),
        forall|i: int| 0 <= i < list.len() ==> (#[trigger] list[i]).1.node < nodes,
    ensures
        bindings_exist(bound(list, name, n), nodes),
    decreases n,
{
    if n > 0 {
        lemma_bound_exist(list, name, n - 1, nodes);
        assert(list[n - 1].1.node < nodes);
    }
}

/// The channels behind those found so far move what exists.
proof fn lemma_channels_exist(
    list: Seq<Tree>,
    from: int,
    bin: Seq<u8>,
    names: Map<Seq<char>, usize>,
    bindings: Seq<(Seq<char>, MorphTargetBinding)>,
    found: Seq<ChannelPlanView>,
    nodes: int,
)
    requires
        names_exist(names, bindings, nodes),
        forall|i: int|
            0 <= i < found.len() ==> moves_existing((#[trigger] found[i]).target, nodes),
    ensures
        channels_from(list, from, bin, names, bindings, found) matches Ok(all) ==> forall|i: int|
            0 <= i < all.len() ==> moves_existing((#[trigger] all[i]).target, nodes),
    decreases list.len() - from,
{
    if 0 <= from < list.len() {
        match channel_of(list[from], bin, names, bindings) {
            Err(_) => {},
            Ok(None) => {
                lemma_channels_exist(list, from + 1, bin, names, bindings, found, nodes);
            },
            Ok(Some(c)) => {
                let (_, channel) = first_key_value_of(Some(list[from]))->0;
                let target_name = text_of(get_of(Some(channel), "TargetName"@))->0;
                lemma_bound_exist(bindings, target_name, bindings.len() as int, nodes);
                assert(moves_existing(c.target, nodes));
                lemma_channels_exist(list, from + 1, bin, names, bindings, found.push(c), nodes);
            },
        }
    }
}

/// Where all names stand for nodes that exist, every channel of an animation moves one of them.
pub proof fn law_channels_move_existing_nodes(
    animation: Tree,
    bin: Seq<u8>,
    names: Map<Seq<char>, usize>,
    bindings: Seq<(Seq<char>, MorphTargetBinding)>,
    nodes: int,
)
    requires
        names_exist(names, bindings, nodes),
    ensures
        animation_channels(animation, bin, names, bindings) matches Ok(all) ==> forall|i: int|
            0 <= i < all.len() ==> moves_existing((#[trigger] all[i]).target, nodes),
{
    lemma_channels_exist(
        items_of(get_of(Some(animation), "Channels"@)),
        0,
        bin,
        names,
        bindings,
        Seq::empty(),
        nodes,
    );
}

/// An attribute of keyframes.
pub open spec fn frame_attribute(data: Seq<u32>, item_size: int, count: int) -> AttributeView {
    AttributeView {
        data: Components::F32(data),
        item_size: item_size as usize,
        count: count as usize,
        component_type: 5126,
        normalized: false,
    }
}

/// The document with the keyframes of a channel, and the channel.
pub open spec fn with_channel(
    d: DocumentView,
    node: usize,
    path: ChannelPath,
    times: Seq<u32>,
    values: Seq<u32>,
    item_size: int,
    count: int,
) -> (DocumentView, Channel) {
    let d1 = d.with_accessor(frame_attribute(times, 1, times.len() as int));
    let d2 = d1.with_accessor(frame_attribute(values, item_size, count));
    (
        d2,
        Channel {
            input: d.accessors.len() as usize,
            output: d1.accessors.len() as usize,
            node,
            path,
        },
    )
}

/// Adds the keyframes of a channel to the document.
fn add_channel(
    document: &mut Document,
    node: usize,
    path: ChannelPath,
    times: Vec<u32>,
    values: Vec<u32>,
    item_size: usize,
    count: usize,
) -> (r: Channel)
    ensures
        (final(document)@, r) == with_channel(
            old(document)@,
            node,
            path,
            times@,
            values@,
            item_size as int,
            count as int,
        ),
        old(document)@.wf() ==> final(document)@.wf(),
        only_appended(old(document)@, final(document)@),
        r.input < final(document)@.accessors.len(),
        r.output < final(document)@.accessors.len(),
{
    let n: usize = times.len();
    let first = Attribute {
        data: AttrData::F32(times),
        item_size: 1,
        count: n,
        component_type: 5126,
        normalized: false,
    };
    let input: usize = document.add_accessor(&first);
    let ghost timed = document@;
    let second = Attribute {
        data: AttrData::F32(values),
        item_size,
        count,
        component_type: 5126,
        normalized: false,
    };
    let output: usize = document.add_accessor(&second);
    proof {
        lemma_appending_joins(old(document)@, timed, document@);
    }
    Channel { input, output, node, path }
}

/// The document with a channel that moves a node: as many values for each time as it has
/// components.
pub open spec fn with_movement(
    d: DocumentView,
    node: usize,
    path: ChannelPath,
    components: int,
    times: Seq<u32>,
    values: Seq<u32>,
) -> (DocumentView, Channel) {
    with_channel(d, node, path, times, values, components, times.len() as int)
}

/// The document with a channel that sets the weights of a node's morph targets.
pub open spec fn with_weights(
    d: DocumentView,
    node: usize,
    times: Seq<u32>,
    weights: Seq<u32>,
) -> (DocumentView, Channel) {
    with_channel(d, node, ChannelPath::Weights, times, weights, 1, weights.len() as int)
}

/// Adds a channel that moves a node. The values belong to the times.
pub fn add_node_channel(
    document: &mut Document,
    channels: &mut Vec<Channel>,
    node: usize,
    path: ChannelPath,
    components: usize,
    times: Vec<u32>,
    values: Vec<u32>,
)
    ensures
        final(document)@ == with_movement(
            old(document)@,
            node,
            path,
            components as int,
            times@,
            values@,
        ).0,
        final(channels)@ == old(channels)@.push(
            with_movement(old(document)@, node, path, components as int, times@, values@).1,
        ),
        old(document)@.wf() ==> final(document)@.wf(),
        only_appended(old(document)@, final(document)@),
        node < old(document)@.nodes.len() && channels_ok(
            old(channels)@,
            old(document)@.accessors.len() as int,
            old(document)@.nodes.len() as int,
        ) ==> channels_ok(
            final(channels)@,
            final(document)@.accessors.len() as int,
            final(document)@.nodes.len() as int,
        ),
{
    let n: usize = times.len();
    let channel = add_channel(document, node, path, times, values, components, n);
    channels.push(channel);
}

/// The keyframes of one morph target's weight.
#[derive(Debug)]
pub struct ScalarTrack {
    pub times: Vec<u32>,
    pub values: Vec<u32>,
}

/// The mathematical counterpart of [`ScalarTrack`].
#[verifier::ext_equal]
pub ghost struct TrackView {
    pub times: Seq<u32>,
    pub values: Seq<u32>,
}

impl View for ScalarTrack {
    type V = TrackView;

    open spec fn view(&self) -> TrackView {
        TrackView { times: self.times@, values: self.values@ }
    }
}

/// The tracks of one node's morph targets.
#[derive(Debug)]
pub struct MorphGroup {
    pub node: usize,
    pub tracks: Vec<Option<ScalarTrack>>,
}

/// The mathematical counterpart of [`MorphGroup`].
#[verifier::ext_equal]
pub ghost struct GroupView {
    pub node: usize,
    pub tracks: Seq<Option<TrackView>>,
}

/// The contents of a list of optional tracks.
pub open spec fn tracks_view(list: Seq<Option<ScalarTrack>>) -> Seq<Option<TrackView>> {
    Seq::new(
        list.len(),
        |i: int|
            match list[i] {
                Some(t) => Some(t@),
                None => None,
            },
    )
}

impl View for MorphGroup {
    type V = GroupView;

    open spec fn view(&self) -> GroupView {
        GroupView { node: self.node, tracks: tracks_view(self.tracks@) }
    }
}

/// Where a node's group is, or where it would go: groups stand by ascending node.
pub open spec fn group_place(groups: Seq<GroupView>, node: usize, from: int) -> int
    decreases groups.len() - from,
{
    if from < 0 || from >= groups.len() || groups[from].node >= node {
        from
    } else {
        group_place(groups, node, from + 1)
    }
}

/// A group without tracks.
pub open spec fn empty_group(node: usize, count: int) -> GroupView {
    GroupView { node, tracks: Seq::new(count as nat, |i: int| None) }
}

/// The groups with one for the binding's node.
pub open spec fn with_group(groups: Seq<GroupView>, b: MorphTargetBinding) -> Seq<GroupView> {
    let at = group_place(groups, b.node, 0);
    if at < groups.len() && groups[at].node == b.node {
        groups
    } else {
        groups.insert(at, empty_group(b.node, b.target_count as int))
    }
}

/// The groups with a track for one binding. A binding that does not fit its group is passed over.
pub open spec fn with_track(
    groups: Seq<GroupView>,
    b: MorphTargetBinding,
    track: TrackView,
) -> Seq<GroupView> {
    let list = with_group(groups, b);
    let at = group_place(groups, b.node, 0);
    let group = list[at];
    if group.tracks.len() == b.target_count && b.target_index < group.tracks.len() {
        list.update(
            at,
            GroupView {
                tracks: group.tracks.update(b.target_index as int, Some(track)),
                ..group
            },
        )
    } else {
        list
    }
}

/// The groups with a track for the first `n` bindings.
pub open spec fn with_tracks(
    groups: Seq<GroupView>,
    bindings: Seq<MorphTargetBinding>,
    n: int,
    track: TrackView,
) -> Seq<GroupView>
    decreases n,
{
    if n <= 0 {
        groups
    } else {
        with_track(with_tracks(groups, bindings, n - 1, track), bindings[n - 1], track)
    }
}

/// A group's place lies within the list.
proof fn lemma_group_place(groups: Seq<GroupView>, node: usize, from: int)
    requires
        0 <= from <= groups.len(),
    ensures
        from <= group_place(groups, node, from) <= groups.len(),
        forall|k: int|
            from <= k < group_place(groups, node, from) ==> (#[trigger] groups[k]).node < node,
        group_place(groups, node, from) < groups.len() ==> groups[group_place(
            groups,
            node,
            from,
        )].node >= node,
    decreases groups.len() - from,
{
    if from < groups.len() && groups[from].node < node {
        lemma_group_place(groups, node, from + 1);
    }
}

/// Adds a track for one binding.
fn add_track(groups: &mut Vec<MorphGroup>, b: MorphTargetBinding, times: &Vec<u32>, values: &Vec<
    u32,
>)
    ensures
        views(final(groups)@) == with_track(
            views(old(groups)@),
            b,
            (TrackView { times: times@, values: values@ }),
        ),
{
    let ghost start = views(groups@);
    let mut at: usize = 0;
    while at < groups.len() && groups[at].node < b.node
        invariant
            at <= groups@.len(),
            start == views(groups@),
            group_place(start, b.node, 0) == group_place(start, b.node, at as int),
        decreases groups@.len() - at,
    {
        assert(start[at as int] == groups@[at as int]@);
        at += 1;
    }
    proof {
        lemma_group_place(start, b.node, 0);
        if at < groups@.len() {
            assert(start[at as int] == groups@[at as int]@);
        }
    }
    if !(at < groups.len() && groups[at].node == b.node) {
        let mut tracks: Vec<Option<ScalarTrack>> = Vec::new();
        while tracks.len() < b.target_count
            invariant
                tracks@.len() <= b.target_count,
                forall|k: int| 0 <= k < tracks@.len() ==> (#[trigger] tracks@[k]) is None,
            decreases b.target_count - tracks@.len(),
        {
            tracks.push(None);
        }
        let group = MorphGroup { node: b.node, tracks };
        assert(group@ =~= empty_group(b.node, b.target_count as int));
        let ghost before = groups@;
        groups.insert(at, group);
        assert(views(groups@) =~= start.insert(at as int, group@));
    }
    let ghost list = views(groups@);
    assert(list == with_group(start, b));
    assert(list[at as int] == groups@[at as int]@);
    if groups[at].tracks.len() == b.target_count && b.target_index < groups[at].tracks.len() {
        let track = ScalarTrack { times: copy_u32(times), values: copy_u32(values) };
        let ghost before = groups@;
        groups[at].tracks.set(b.target_index, Some(track));
        proof {
            let old_group = before[at as int];
            let new_group = groups@[at as int];
            assert(tracks_view(new_group.tracks@) =~= tracks_view(old_group.tracks@).update(
                b.target_index as int,
                Some(track@),
            ));
            assert(views(groups@) =~= list.update(at as int, new_group@));
        }
    }
}

/// Adds a track for all bindings of its name.
pub fn add_morph_tracks(
    groups: &mut Vec<MorphGroup>,
    bindings: &Vec<MorphTargetBinding>,
    times: Vec<u32>,
    values: Vec<u32>,
)
    ensures
        views(final(groups)@) == with_tracks(
            views(old(groups)@),
            bindings@,
            bindings@.len() as int,
            (TrackView { times: times@, values: values@ }),
        ),
{
    let ghost start = views(groups@);
    let mut i: usize = 0;
    while i < bindings.len()
        invariant
            i <= bindings@.len(),
            views(groups@) == with_tracks(
                start,
                bindings@,
                i as int,
                (TrackView { times: times@, values: values@ }),
            ),
        decreases bindings@.len() - i,
    {
        add_track(groups, bindings[i], &times, &values);
        i += 1;
    }
}

/// Whether groups stand by ascending node, each node once.
pub open spec fn groups_ascend(groups: Seq<GroupView>) -> bool {
    forall|i: int, j: int|
        0 <= i < j < groups.len() ==> (#[trigger] groups[i]).node < (#[trigger] groups[j]).node
}

/// Adding a track keeps the groups by ascending node.
pub proof fn law_groups_stay_ordered(groups: Seq<GroupView>, b: MorphTargetBinding, track: TrackView)
    requires
        groups_ascend(groups),
    ensures
        groups_ascend(with_track(groups, b, track)),
{
    let at = group_place(groups, b.node, 0);
    lemma_group_place(groups, b.node, 0);
    let list = with_group(groups, b);
    assert forall|i: int, j: int| 0 <= i < j < list.len() implies (#[trigger] list[i]).node < (
    #[trigger] list[j]).node by {
        if list.len() > groups.len() {
            let i0 = if i < at {
                i
            } else {
                i - 1
            };
            let j0 = if j < at {
                j
            } else {
                j - 1
            };
            if i == at {
                assert(list[j] == groups[j0]);
                if j0 > at {
                    assert(groups[at].node < groups[j0].node);
                }
            } else if j == at {
                assert(list[i] == groups[i]);
            } else {
                assert(list[i] == groups[i0] && list[j] == groups[j0]);
            }
        } else {
            assert(groups[i].node < groups[j].node);
        }
    }
    let after = with_track(groups, b, track);
    assert forall|i: int, j: int| 0 <= i < j < after.len() implies (#[trigger] after[i]).node < (
    #[trigger] after[j]).node by {
        assert(list[i].node < list[j].node);
    }
}

/// Groups are only ever of nodes that bindings name.
pub proof fn law_groups_are_of_bound_nodes(
    groups: Seq<GroupView>,
    bindings: Seq<MorphTargetBinding>,
    n: int,
    track: TrackView,
    nodes: int,
)
    requires
        n <= bindings.len(),
        bindings_exist(bindings, nodes),
        forall|i: int| 0 <= i < groups.len() ==> (#[trigger] groups[i]).node < nodes,
    ensures
        forall|i: int|
            0 <= i < with_tracks(groups, bindings, n, track).len() ==> (#[trigger] with_tracks(
                groups,
                bindings,
                n,
                track,
            )[i]).node < nodes,
    decreases n,
{
    if n > 0 {
        law_groups_are_of_bound_nodes(groups, bindings, n - 1, track, nodes);
        let before = with_tracks(groups, bindings, n - 1, track);
        let b = bindings[n - 1];
        let at = group_place(before, b.node, 0);
        lemma_group_place(before, b.node, 0);
        let list = with_group(before, b);
        assert forall|i: int| 0 <= i < list.len() implies (#[trigger] list[i]).node < nodes by {
            if list.len() > before.len() {
                if i < at {
                    assert(list[i] == before[i]);
                } else if i > at {
                    assert(list[i] == before[i - 1]);
                }
            }
        }
        let after = with_track(before, b, track);
        assert forall|i: int| 0 <= i < after.len() implies (#[trigger] after[i]).node < nodes by {
            assert(list[i].node < nodes);
        }
    }
}

/// The times of the first `n` tracks, one track after the other.
pub open spec fn all_times(tracks: Seq<Option<TrackView>>, n: int) -> Seq<u32>
    decreases n,
{
    if n <= 0 {
        Seq::empty()
    } else {
        let before = all_times(tracks, n - 1);
        match tracks[n - 1] {
            Some(t) => before + t.times,
            None => before,
        }
    }
}

/// The times at which a group's weights are given.
pub open spec fn group_times(group: GroupView) -> Seq<u32> {
    merged(all_times(group.tracks, group.tracks.len() as int))
}

/// The times at which a group's weights are given.
pub fn times_of(group: &MorphGroup) -> (r: Vec<u32>)
    ensures
        r@ == group_times(group@),
{
    let ghost tracks = tracks_view(group.tracks@);
    let mut all: Vec<u32> = Vec::new();
    let mut i: usize = 0;
    while i < group.tracks.len()
        invariant
            i <= group.tracks@.len(),
            tracks == tracks_view(group.tracks@),
            all@ == all_times(tracks, i as int),
        decreases group.tracks@.len() - i,
    {
        let ghost before = all@;
        match &group.tracks[i] {
            Some(t) => {
                all.extend_from_slice(t.times.as_slice());
                assert(all@ =~= before + t.times@);
            },
            None => {},
        }
        i += 1;
    }
    merge_times(&all)
}

/// What the weight of morph target `i` at a time is made of.
pub open spec fn weight_of(group: GroupView, i: int, time: u32) -> Sample {
    match group.tracks[i] {
        Some(t) => sample_of(t.times, time),
        None => Sample::Zero,
    }
}

/// What the weight of a morph target at a time is made of.
fn weight_at(group: &MorphGroup, i: usize, time: u32) -> (r: Sample)
    requires
        i < group@.tracks.len(),
    ensures
        r == weight_of(group@, i as int, time),
{
    match &group.tracks[i] {
        Some(t) => sample_scalar_track(&t.times, time),
        None => Sample::Zero,
    }
}

/// What the weights of a group are made of: for each time one weight for each morph target.
pub open spec fn weights_of(group: GroupView, times: Seq<u32>) -> Seq<Sample> {
    let n = group.tracks.len() as int;
    Seq::new(
        (times.len() * n) as nat,
        |k: int| weight_of(group, k % n, times[k / n]),
    )
}

/// What the weights of a group are made of.
pub fn weight_samples(group: &MorphGroup, times: &Vec<u32>) -> (r: Vec<Sample>)
    ensures
        r@ == weights_of(group@, times@),
{
    let n: usize = group.tracks.len();
    let ghost goal = weights_of(group@, times@);
    let mut out: Vec<Sample> = Vec::new();
    let mut t: usize = 0;
    assert(0 * n == 0) by (nonlinear_arith);
    while t < times.len()
        invariant
            t <= times@.len(),
            n == group@.tracks.len(),
            n == group.tracks@.len(),
            goal == weights_of(group@, times@),
            goal.len() == times@.len() * n,
            out@.len() == t * n,
            forall|k: int| 0 <= k < t * n ==> #[trigger] out@[k] == goal[k],
        decreases times@.len() - t,
    {
        proof {
            assert((t + 1) * n == t * n + n) by (nonlinear_arith);
            assert((t + 1) * n <= times@.len() * n) by (nonlinear_arith)
                requires
                    t + 1 <= times@.len(),
            ;
        }
        let mut i: usize = 0;
        while i < n
            invariant
                i <= n,
                t < times@.len(),
                n == group@.tracks.len(),
                n == group.tracks@.len(),
                goal == weights_of(group@, times@),
                goal.len() == times@.len() * n,
                (t + 1) * n == t * n + n,
                (t + 1) * n <= times@.len() * n,
                out@.len() == t * n + i,
                forall|k: int| 0 <= k < t * n + i ==> #[trigger] out@[k] == goal[k],
            decreases n - i,
        {
            proof {
                vstd::arithmetic::div_mod::lemma_fundamental_div_mod_converse(
                    t * n + i,
                    n as int,
                    t as int,
                    i as int,
                );
            }
            out.push(weight_at(group, i, times[t]));
            i += 1;
        }
        t += 1;
    }
    assert(out@ =~= goal);
    out
}

/// Adds a channel that gives weights to a node's morph targets: for each time one weight for each
/// target.
pub fn add_weights_channel(
    document: &mut Document,
    channels: &mut Vec<Channel>,
    node: usize,
    times: Vec<u32>,
    weights: Vec<u32>,
)
    ensures
        final(document)@ == with_weights(old(document)@, node, times@, weights@).0,
        final(channels)@ == old(channels)@.push(
            with_weights(old(document)@, node, times@, weights@).1,
        ),
        old(document)@.wf() ==> final(document)@.wf(),
        only_appended(old(document)@, final(document)@),
        node < old(document)@.nodes.len() && channels_ok(
            old(channels)@,
            old(document)@.accessors.len() as int,
            old(document)@.nodes.len() as int,
        ) ==> channels_ok(
            final(channels)@,
            final(document)@.accessors.len() as int,
            final(document)@.nodes.len() as int,
        ),
{
    let n: usize = weights.len();
    let channel = add_channel(document, node, ChannelPath::Weights, times, weights, 1, n);
    channels.push(channel);
}

/// The name of an animation.
pub open spec fn animation_name(animation: Tree) -> Seq<char> {
    match text_of(get_of(Some(animation), "Name"@)) {
        Some(n) => n,
        None => "Animation"@,
    }
}

/// The name of an animation.
pub fn name_of(animation: &Json) -> (r: String)
    ensures
        r@ == animation_name(animation@),
{
    match text(get(Some(animation), "Name")) {
        Some(n) => n.clone(),
        None => own("Animation"),
    }
}

/// The document with an animation, if it has channels.
pub open spec fn with_channels(d: DocumentView, name: Seq<char>, channels: Seq<Channel>) -> DocumentView {
    if channels.len() == 0 {
        d
    } else {
        d.with_animation(AnimationView { name, channels })
    }
}

/// Adds an animation, if it has channels. Returns how many it has.
pub fn export_animation(document: &mut Document, name: String, channels: Vec<Channel>) -> (r: usize)
    ensures
        final(document)@ == with_channels(old(document)@, name@, channels@),
        r == channels@.len(),
        old(document)@.wf() && channels_ok(
            channels@,
            old(document)@.accessors.len() as int,
            old(document)@.nodes.len() as int,
        ) ==> final(document)@.wf(),
        only_appended(old(document)@, final(document)@),
{
    proof {
        lemma_appending_joins(document@, document@, document@);
    }
    let n: usize = channels.len();
    if n > 0 {
        document.add_animation(Animation { name, channels });
    }
    n
}

/// The animations in a value, behind those found so far. What is inside an animation is not
/// searched.
pub open spec fn animations_in(t: Tree, found: Seq<Tree>) -> Seq<Tree>
    decreases t, kids(t).len() + 1,
{
    match get_of(Some(t), "osgAnimation.Animation"@) {
        Some(animation) => found.push(animation),
        None => animations_within(t, kids(t).len(), found),
    }
}

/// The animations in the first `n` values inside a value, behind those found so far.
pub open spec fn animations_within(t: Tree, n: nat, found: Seq<Tree>) -> Seq<Tree>
    decreases t, n,
{
    if n == 0 || n > kids(t).len() {
        found
    } else {
        proof {
            lemma_kid_descends(t, n - 1);
        }
        animations_in(kids(t)[n - 1], animations_within(t, (n - 1) as nat, found))
    }
}

/// The trees of a list of references.
pub open spec fn ref_trees(list: Seq<&Json>) -> Seq<Tree> {
    Seq::new(list.len(), |i: int| list[i]@)
}

/// Finds the animations of a scene.
pub fn find_animations<'a>(value: &'a Json, found: &mut Vec<&'a Json>)
    ensures
        ref_trees(final(found)@) == animations_in(value@, ref_trees(old(found)@)),
    decreases value,
{
    let ghost start = ref_trees(found@);
    match get(Some(value), "osgAnimation.Animation") {
        Some(animation) => {
            let ghost before = found@;
            found.push(animation);
            assert(ref_trees(found@) =~= ref_trees(before).push(animation@));
        },
        None => {
            let n: usize = kid_count(value);
            let mut i: usize = 0;
            while i < n
                invariant
                    i <= n == kids(value@).len(),
                    ref_trees(found@) == animations_within(value@, i as nat, start),
                decreases n - i,
            {
                let child = kid(value, i);
                find_animations(child, found);
                i += 1;
            }
        },
    }
}

/// The data of one animation, under the animation's name in lower case.
#[derive(Debug)]
pub struct AnimationData {
    pub name: String,
    pub bytes: Vec<u8>,
}

impl View for AnimationData {
    type V = (Seq<char>, Seq<u8>);

    open spec fn view(&self) -> (Seq<char>, Seq<u8>) {
        (self.name@, self.bytes@)
    }
}

/// The position of the data of that name.
pub open spec fn data_index(list: Seq<(Seq<char>, Seq<u8>)>, name: Seq<char>, from: int) -> Option<
    int,
>
    decreases list.len() - from,
{
    if from < 0 || from >= list.len() {
        None
    } else if list[from].0 == name {
        Some(from)
    } else {
        data_index(list, name, from + 1)
    }
}

/// The data with that of one more animation; later data of a name replaces earlier.
pub open spec fn with_data(
    list: Seq<(Seq<char>, Seq<u8>)>,
    name: Seq<char>,
    bytes: Seq<u8>,
) -> Seq<(Seq<char>, Seq<u8>)> {
    match data_index(list, lower_of(name), 0) {
        Some(i) => list.update(i, (lower_of(name), bytes)),
        None => list.push((lower_of(name), bytes)),
    }
}

/// The position of the data of that name.
fn find_data(list: &Vec<AnimationData>, name: &str) -> (r: Option<usize>)
    ensures
        match r {
            Some(i) => data_index(views(list@), name@, 0) == Some(i as int) && i < list@.len(),
            None => data_index(views(list@), name@, 0) is None,
        },
{
    let mut i: usize = 0;
    while i < list.len()
        invariant
            i <= list@.len(),
            data_index(views(list@), name@, 0) == data_index(views(list@), name@, i as int),
        decreases list@.len() - i,
    {
        assert(views(list@)[i as int] == list@[i as int]@);
        if same_text(list[i].name.as_str(), name) {
            return Some(i);
        }
        i += 1;
    }
    None
}

/// Adds the data of an animation.
pub fn put_data(list: &mut Vec<AnimationData>, name: &str, bytes: Vec<u8>)
    ensures
        views(final(list)@) == with_data(views(old(list)@), name@, bytes@),
{
    let lower = lowercase(name);
    let found = find_data(list, lower.as_str());
    let data = AnimationData { name: lower, bytes };
    match found {
        Some(i) => {
            proof {
                lemma_views_update(list@, i as int, data);
            }
            list.set(i, data);
        },
        None => {
            proof {
                lemma_views_push(list@, data);
            }
            list.push(data);
        },
    }
}

/// The data of an animation: that of its name or, if there is only one, that one.
pub open spec fn data_for(list: Seq<(Seq<char>, Seq<u8>)>, animation: Tree) -> Option<Seq<u8>> {
    match data_index(list, lower_of(animation_name(animation)), 0) {
        Some(i) => Some(list[i].1),
        None => if list.len() == 1 {
            Some(list[0].1)
        } else {
            None
        },
    }
}

/// The data of an animation.
pub fn choose_data<'a>(list: &'a Vec<AnimationData>, animation: &Json) -> (r: Option<&'a Vec<u8>>)
    ensures
        match r {
            Some(b) => data_for(views(list@), animation@) == Some(b@),
            None => data_for(views(list@), animation@) is None,
        },
{
    let name = lowercase(name_of(animation).as_str());
    match find_data(list, name.as_str()) {
        Some(i) => {
            assert(views(list@)[i as int] == list@[i as int]@);
            Some(&list[i].bytes)
        },
        None => if list.len() == 1 {
            assert(views(list@)[0] == list@[0]@);
            Some(&list[0].bytes)
        } else {
            None
        },
    }
}

/// A channel for a bone or an object moves the node of its target's name, or else the node of that
/// name without its number: `translate`, `rotate` and `scale` move its translation by three,
/// its rotation by four and its scale by three numbers, and no other name moves anything.
pub proof fn law_channel_moves_what_it_names(
    kind: Seq<char>,
    target: Seq<char>,
    name: Seq<char>,
    names: Map<Seq<char>, usize>,
    bindings: Seq<(Seq<char>, MorphTargetBinding)>,
    node: usize,
)
    requires
        !contains_of(kind, "Float"@),
        (names.contains_key(target) && names[target] == node) || (!names.contains_key(target)
            && names.contains_key(base_name(target)) && names[base_name(target)] == node),
    ensures
        ({
            let r = target_of(kind, target, name, names, bindings);
            &&& name == "translate"@ <==> r == Some(
                (TargetView::Node(node, ChannelPath::Translation), 3int),
            )
            &&& name == "rotate"@ <==> r == Some(
                (TargetView::Node(node, ChannelPath::Rotation), 4int),
            )
            &&& name == "scale"@ <==> r == Some((TargetView::Node(node, ChannelPath::Scale), 3int))
            &&& r is None <==> name != "translate"@ && name != "rotate"@ && name != "scale"@
        }),
{
    reveal_strlit("translate");
    reveal_strlit("rotate");
    reveal_strlit("scale");
    assert("translate"@.len() == 9 && "rotate"@.len() == 6 && "scale"@.len() == 5);
}

/// A channel for a bone or an object whose name no node has, with or without its number, moves
/// nothing.
pub proof fn law_channel_without_a_node_moves_nothing(
    kind: Seq<char>,
    target: Seq<char>,
    name: Seq<char>,
    names: Map<Seq<char>, usize>,
    bindings: Seq<(Seq<char>, MorphTargetBinding)>,
)
    requires
        !contains_of(kind, "Float"@),
        !names.contains_key(target),
        !names.contains_key(base_name(target)),
    ensures
        target_of(kind, target, name, names, bindings) is None,
{
}

/// The bindings of a name are those that the list has under it.
proof fn lemma_bound_holds(
    list: Seq<(Seq<char>, MorphTargetBinding)>,
    name: Seq<char>,
    n: int,
    b: MorphTargetBinding,
)
    requires
        0 <= n <= list.len(),
    ensures
        bound(list, name, n).contains(b) <==> exists|i: int| 0 <= i < n && #[trigger] list[i] == (
            name,
            b,
        ),
    decreases n,
{
    if n > 0 {
        lemma_bound_holds(list, name, n - 1, b);
        let before = bound(list, name, n - 1);
        let after = bound(list, name, n);
        let last = list[n - 1];
        if last.0 == name {
            assert(after[before.len() as int] == last.1);
            if before.contains(b) {
                let k = choose|k: int| 0 <= k < before.len() && before[k] == b;
                assert(after[k] == b);
            }
            if after.contains(b) {
                let k = choose|k: int| 0 <= k < after.len() && after[k] == b;
                if k < before.len() {
                    assert(before[k] == b);
                } else {
                    assert(list[n - 1] == (name, b));
                }
            }
        }
    }
}

/// A channel of single numbers sets the weights of exactly the morph targets that are bound to its
/// target's name, one number at a time, and moves nothing if there are none.
pub proof fn law_float_channel_sets_bound_weights(
    kind: Seq<char>,
    target: Seq<char>,
    name: Seq<char>,
    names: Map<Seq<char>, usize>,
    bindings: Seq<(Seq<char>, MorphTargetBinding)>,
    b: MorphTargetBinding,
)
    requires
        contains_of(kind, "Float"@),
    ensures
        ({
            let r = target_of(kind, target, name, names, bindings);
            &&& (exists|i: int| 0 <= i < bindings.len() && #[trigger] bindings[i] == (target, b))
                <==> (r matches Some((TargetView::Weights(list), n)) && n == 1
                && list.contains(b))
            &&& r is Some ==> (r matches Some((TargetView::Weights(list), n)) && n == 1
                && list.len() > 0)
            &&& r is None ==> !bindings.contains((target, b))
        }),
{
    lemma_bound_holds(bindings, target, bindings.len() as int, b);
    let list = bound(bindings, target, bindings.len() as int);
    if bindings.contains((target, b)) {
        let i = choose|i: int| 0 <= i < bindings.len() && bindings[i] == (target, b);
        assert(bindings[i] == (target, b));
        assert(list.contains(b));
    }
}

/// A channel with keyframes, a name and a target that it moves is taken over, unless its arrays
/// cannot be read: the times are the numbers under `Time`, one each, and the values those under
/// `Key`, as many as the target asks for. Any other channel is left out.
pub proof fn law_channel_is_taken_over(
    members: Seq<(Seq<char>, Tree)>,
    bin: Seq<u8>,
    names: Map<Seq<char>, usize>,
    bindings: Seq<(Seq<char>, MorphTargetBinding)>,
)
    requires
        members.len() > 0,
    ensures
        ({
            let (kind, channel) = members[0];
            let r = channel_of(Tree::Object(members), bin, names, bindings);
            let target = get_of(Some(channel), "TargetName"@);
            let name = get_of(Some(channel), "Name"@);
            let frames = get_of(Some(channel), "KeyFrames"@);
            let meta = user_data_of(channel);
            let compressed = contains_of(kind, "Compressed"@);
            let packed = contains_of(kind, "Packed"@);
            match (target, name) {
                (Some(Tree::Text(t, _)), Some(Tree::Text(n, _))) => match target_of(
                    kind,
                    t,
                    n,
                    names,
                    bindings,
                ) {
                    Some((moved, components)) => frames is Some ==> match r {
                        Ok(plan) => plan matches Some(p) && p.target == moved && p.components
                            == components && animation_array(
                            bin,
                            get_of(frames, "Time"@),
                            meta,
                            compressed,
                            false,
                            1,
                        ) == Ok::<ArrayView, BufferError>(p.times) && animation_array(
                            bin,
                            get_of(frames, "Key"@),
                            meta,
                            compressed,
                            packed,
                            components,
                        ) == Ok::<ArrayView, BufferError>(p.values),
                        Err(_) => animation_array(
                            bin,
                            get_of(frames, "Time"@),
                            meta,
                            compressed,
                            false,
                            1,
                        ) is Err || animation_array(
                            bin,
                            get_of(frames, "Key"@),
                            meta,
                            compressed,
                            packed,
                            components,
                        ) is Err,
                    },
                    None => r == Ok::<Option<ChannelPlanView>, BufferError>(None),
                },
                _ => r == Ok::<Option<ChannelPlanView>, BufferError>(None),
            }
        }),
        get_of(Some(members[0].1), "KeyFrames"@) is None ==> channel_of(
            Tree::Object(members),
            bin,
            names,
            bindings,
        ) == Ok::<Option<ChannelPlanView>, BufferError>(None),
{
}

/// A channel that turns, moves or sizes the node that its target names is taken over with four,
/// three and three numbers for each time, if it has keyframes that can be read.
pub proof fn law_named_channel_moves_its_node(
    members: Seq<(Seq<char>, Tree)>,
    bin: Seq<u8>,
    names: Map<Seq<char>, usize>,
    bindings: Seq<(Seq<char>, MorphTargetBinding)>,
    target: Seq<char>,
    name: Seq<char>,
)
    requires
        members.len() > 0,
        !contains_of(members[0].0, "Float"@),
        get_of(Some(members[0].1), "TargetName"@) matches Some(Tree::Text(t, _)) && t == target,
        get_of(Some(members[0].1), "Name"@) matches Some(Tree::Text(n, _)) && n == name,
        get_of(Some(members[0].1), "KeyFrames"@) is Some,
        names.contains_key(target),
    ensures
        ({
            let r = channel_of(Tree::Object(members), bin, names, bindings);
            let node = names[target];
            &&& name == "translate"@ && r is Ok ==> (r matches Ok(Some(p)) && p.target
                == TargetView::Node(node, ChannelPath::Translation) && p.components == 3)
            &&& name == "rotate"@ && r is Ok ==> (r matches Ok(Some(p)) && p.target
                == TargetView::Node(node, ChannelPath::Rotation) && p.components == 4)
            &&& name == "scale"@ && r is Ok ==> (r matches Ok(Some(p)) && p.target
                == TargetView::Node(node, ChannelPath::Scale) && p.components == 3)
        }),
{
    law_channel_moves_what_it_names(
        members[0].0,
        target,
        name,
        names,
        bindings,
        names[target],
    );
    law_channel_is_taken_over(members, bin, names, bindings);
}

/// What was taken over stays, and the rest is added behind it.
proof fn lemma_channels_append(
    list: Seq<Tree>,
    from: int,
    bin: Seq<u8>,
    names: Map<Seq<char>, usize>,
    bindings: Seq<(Seq<char>, MorphTargetBinding)>,
    found: Seq<ChannelPlanView>,
    k: int,
)
    requires
        0 <= from <= list.len(),
    ensures
        channels_from(list, from, bin, names, bindings, found) matches Ok(all) ==> {
            &&& forall|i: int| 0 <= i < found.len() ==> i < all.len() && #[trigger] all[i] == found[i]
            &&& found.len() <= all.len()
            &&& from <= k < list.len() ==> {
                &&& channel_of(list[k], bin, names, bindings) is Ok
                &&& channel_of(list[k], bin, names, bindings) matches Ok(Some(c)) ==> exists|i: int|
                    found.len() <= i < all.len() && #[trigger] all[i] == c
            }
            &&& forall|i: int|
                found.len() <= i < all.len() ==> exists|j: int|
                    from <= j < list.len() && #[trigger] channel_of(list[j], bin, names, bindings)
                        == Ok::<Option<ChannelPlanView>, BufferError>(Some(#[trigger] all[i]))
        },
    decreases list.len() - from,
{
    if from < list.len() {
        match channel_of(list[from], bin, names, bindings) {
            Err(_) => {},
            Ok(None) => {
                lemma_channels_append(list, from + 1, bin, names, bindings, found, k);
            },
            Ok(Some(c)) => {
                let next = found.push(c);
                lemma_channels_append(list, from + 1, bin, names, bindings, next, k);
                match channels_from(list, from, bin, names, bindings, found) {
                    Ok(all) => {
                        assert(all[found.len() as int] == next[found.len() as int]);
                        assert forall|i: int| 0 <= i < found.len() implies i < all.len()
                            && #[trigger] all[i] == found[i] by {
                            assert(next[i] == found[i]);
                        }
                    },
                    Err(_) => {},
                }
            },
        }
    }
}

/// An animation has a channel for each of its `Channels` that is taken over, and no other.
pub proof fn law_animation_has_its_channels(
    animation: Tree,
    bin: Seq<u8>,
    names: Map<Seq<char>, usize>,
    bindings: Seq<(Seq<char>, MorphTargetBinding)>,
    channels: Seq<Tree>,
)
    requires
        get_of(Some(animation), "Channels"@) == Some(Tree::Array(channels)),
    ensures
        animation_channels(animation, bin, names, bindings) matches Ok(all) ==> {
            &&& forall|k: int|
                0 <= k < channels.len() ==> (#[trigger] channel_of(
                    channels[k],
                    bin,
                    names,
                    bindings,
                ) matches Ok(plan) && (plan matches Some(c) ==> all.contains(c)))
            &&& forall|i: int|
                0 <= i < all.len() ==> exists|k: int|
                    0 <= k < channels.len() && #[trigger] channel_of(
                        channels[k],
                        bin,
                        names,
                        bindings,
                    ) == Ok::<Option<ChannelPlanView>, BufferError>(Some(#[trigger] all[i]))
        },
{
    match animation_channels(animation, bin, names, bindings) {
        Ok(all) => {
            lemma_channels_append(channels, 0, bin, names, bindings, Seq::empty(), 0);
            assert forall|k: int| 0 <= k < channels.len() implies (#[trigger] channel_of(
                channels[k],
                bin,
                names,
                bindings,
            ) matches Ok(plan) && (plan matches Some(c) ==> all.contains(c))) by {
                lemma_channels_append(channels, 0, bin, names, bindings, Seq::empty(), k);
            }
        },
        Err(_) => {},
    }
}

/// The letters behind the prefixes of a channel's numbers.
proof fn lemma_axis_letters()
    ensures
        axis_named("o"@, 0) == "ox"@,
        axis_named("o"@, 1) == "oy"@,
        axis_named("o"@, 2) == "oz"@,
        axis_named("o"@, 3) == "ow"@,
        axis_named("b"@, 0) == "bx"@,
        axis_named("b"@, 1) == "by"@,
        axis_named("b"@, 2) == "bz"@,
        axis_named("h"@, 0) == "hx"@,
        axis_named("h"@, 1) == "hy"@,
        axis_named("h"@, 2) == "hz"@,
{
    reveal_strlit("o");
    reveal_strlit("b");
    reveal_strlit("h");
    reveal_strlit("ox");
    reveal_strlit("oy");
    reveal_strlit("oz");
    reveal_strlit("ow");
    reveal_strlit("bx");
    reveal_strlit("by");
    reveal_strlit("bz");
    reveal_strlit("hx");
    reveal_strlit("hy");
    reveal_strlit("hz");
    assert(axis_named("o"@, 0) =~= "ox"@);
    assert(axis_named("o"@, 1) =~= "oy"@);
    assert(axis_named("o"@, 2) =~= "oz"@);
    assert(axis_named("o"@, 3) =~= "ow"@);
    assert(axis_named("b"@, 0) =~= "bx"@);
    assert(axis_named("b"@, 1) =~= "by"@);
    assert(axis_named("b"@, 2) =~= "bz"@);
    assert(axis_named("h"@, 0) =~= "hx"@);
    assert(axis_named("h"@, 1) =~= "hy"@);
    assert(axis_named("h"@, 2) =~= "hz"@);
}

/// The channel's mode says how its numbers are stored: rotations as directions and angles (8), from
/// a first rotation (4), positions on a grid (1) and from a first position (4), and single numbers
/// from a first number (16). The numbers that this takes are named by their axes. What is not
/// compressed is stored as it is, but for rotations.
pub proof fn law_numbers_are_stored_by_mode(
    meta: Map<Seq<char>, Figure>,
    compressed: bool,
    components: int,
)
    requires
        components == 1 || components == 3 || components == 4,
    ensures
        ({
            let mode = flags_of(meta, "channel_mode"@);
            match shape_of(meta, compressed, components) {
                ShapeView::Rotations { epsilon, nphi, origin } => {
                    &&& components == 4 && mode & 8 != 0
                    &&& origin is Some <==> compressed && mode & 4 != 0
                    &&& origin matches Some(o) ==> o.len() == 4 && forall|i: int|
                        0 <= i < 4 ==> #[trigger] o[i] == single_of(meta, axis_named("o"@, i))
                    &&& !is_zero_of(single_of(meta, "epsilon"@)) ==> epsilon == single_of(
                        meta,
                        "epsilon"@,
                    )
                    &&& !is_zero_of(single_of(meta, "nphi"@)) ==> nphi == single_of(meta, "nphi"@)
                    &&& is_zero_of(single_of(meta, "epsilon"@)) ==> epsilon == 0x3e80_0000
                    &&& is_zero_of(single_of(meta, "nphi"@)) ==> nphi == 0x4434_0000
                },
                ShapeView::Numbers { range, origin } => {
                    &&& !(components == 4 && mode & 8 != 0)
                    &&& range is Some <==> compressed && components == 3 && mode & 1 != 0
                    &&& range matches Some((low, step)) ==> low.len() == 3 && step.len() == 3
                        && forall|i: int|
                        0 <= i < 3 ==> #[trigger] low[i] == single_of(meta, axis_named("b"@, i))
                            && #[trigger] step[i] == single_of(meta, axis_named("h"@, i))
                    &&& origin is Some <==> compressed && (if components == 1 {
                        mode & 16 != 0
                    } else {
                        mode & 4 != 0
                    })
                    &&& components == 3 ==> (origin matches Some(o) ==> o.len() == 3 && forall|
                        i: int,
                    |
                        0 <= i < 3 ==> #[trigger] o[i] == single_of(meta, axis_named("o"@, i)))
                    &&& components == 1 ==> (origin matches Some(o) ==> o.len() == 1 && o[0]
                        == single_of(meta, "ot"@))
                },
            }
        }),
{
    lemma_axis_letters();
}

/// The numbers of an array that is not packed are those of the file, and those of a packed one are
/// the same, item by item where they were stored component by component.
pub proof fn law_array_is_read_as_stored(
    bin: Seq<u8>,
    definition: Tree,
    members: Seq<(Seq<char>, Tree)>,
    meta: Map<Seq<char>, Figure>,
    compressed: bool,
    packed: bool,
    components: int,
    item: int,
    component: int,
)
    requires
        get_of(Some(definition), "Array"@) == Some(Tree::Object(members)),
        members.len() > 0,
        components >= 1,
    ensures
        animation_array(bin, Some(definition), meta, compressed, packed, components) matches Ok(
            a,
        ) ==> {
            let stored = buffer_array_of(bin, members[0].1, a.item_size as int, members[0].0);
            let size = a.item_size as int;
            let count = a.data.len() as int / size;
            &&& unsigned_of(get_of(Some(definition), "ItemSize"@)) matches Some(n) ==> size == n
            &&& unsigned_of(get_of(Some(definition), "ItemSize"@)) is None ==> size == components
            &&& a.shape == shape_of(meta, compressed, components)
            &&& !packed || components == 1 ==> stored == Ok::<Components, BufferError>(a.data)
            &&& packed && components != 1 && 0 <= item < count && 0 <= component < size ==> (
            stored matches Ok(Components::F32(v)) ==> (a.data matches Components::F32(w) && w[item
                * size + component] == v[count * component + item]))
        },
{
    match animation_array(bin, Some(definition), meta, compressed, packed, components) {
        Ok(a) => {
            let size = a.item_size as int;
            let stored = buffer_array_of(bin, members[0].1, size, members[0].0);
            if packed && components != 1 {
                match stored {
                    Ok(Components::F32(v)) => {
                        let count = v.len() as int / size;
                        if 0 <= item < count && 0 <= component < size {
                            let i = item * size + component;
                            vstd::arithmetic::div_mod::lemma_fundamental_div_mod_converse(
                                i,
                                size,
                                item,
                                component,
                            );
                            vstd::arithmetic::div_mod::lemma_fundamental_div_mod(
                                v.len() as int,
                                size,
                            );
                            assert(0 <= i < count * size <= v.len()) by (nonlinear_arith)
                                requires
                                    i == item * size + component,
                                    0 <= item < count,
                                    0 <= component < size,
                                    v.len() == size * count + v.len() as int % size,
                                    v.len() as int % size >= 0,
                            ;
                        }
                    },
                    _ => {},
                }
            }
        },
        Err(_) => {},
    }
}

/// A channel is stored as its times, one number each, and its values, as many numbers for each item
/// as asked for, all as floating-point numbers.
pub proof fn law_channel_is_stored(
    d: DocumentView,
    node: usize,
    path: ChannelPath,
    times: Seq<u32>,
    values: Seq<u32>,
    item_size: int,
    count: int,
)
    requires
        d.wf(),
        d.accessors.len() + 2 <= usize::MAX,
        d.buffer_views.len() + 2 <= usize::MAX,
        times.len() <= usize::MAX,
        0 <= count <= usize::MAX,
        1 <= item_size <= usize::MAX,
    ensures
        ({
            let (e, c) = with_channel(d, node, path, times, values, item_size, count);
            &&& c.node == node
            &&& c.path == path
            &&& c.input != c.output
            &&& e.accessors.len() == d.accessors.len() + 2
            &&& e.accessors[c.input as int].kind == AccessorKind::Scalar
            &&& e.accessors[c.input as int].count == times.len()
            &&& e.accessors[c.input as int].component_type == 5126
            &&& item_size == 3 ==> e.accessors[c.output as int].kind == AccessorKind::Vec3
            &&& item_size == 4 ==> e.accessors[c.output as int].kind == AccessorKind::Vec4
            &&& item_size == 1 ==> e.accessors[c.output as int].kind == AccessorKind::Scalar
            &&& e.accessors[c.output as int].count == count
            &&& e.accessors[c.output as int].component_type == 5126
            &&& !e.accessors[c.output as int].normalized
        }),
{
}

/// The weight of a morph target at a time is that of its own track: the weights stand target by
/// target within each time, and a target without a track rests.
pub proof fn law_weights_belong_to_their_targets(
    group: GroupView,
    times: Seq<u32>,
    time: int,
    target: int,
)
    requires
        0 <= time < times.len(),
        0 <= target < group.tracks.len(),
    ensures
        ({
            let n = group.tracks.len() as int;
            let w = weights_of(group, times);
            &&& w.len() == times.len() * n
            &&& time * n + target < w.len()
            &&& group.tracks[target] is None ==> w[time * n + target] == Sample::Zero
            &&& group.tracks[target] matches Some(t) ==> w[time * n + target] == sample_of(
                t.times,
                times[time],
            )
        }),
{
    let n = group.tracks.len() as int;
    let i = time * n + target;
    vstd::arithmetic::div_mod::lemma_fundamental_div_mod_converse(i, n, time, target);
    assert(0 <= i < times.len() * n) by (nonlinear_arith)
        requires
            i == time * n + target,
            0 <= time < times.len(),
            0 <= target < n,
    ;
}

/// The track of a bound morph target is put in its place among the targets of its node, and the
/// tracks of other targets and nodes stay.
pub proof fn law_track_goes_to_its_target(
    groups: Seq<GroupView>,
    b: MorphTargetBinding,
    track: TrackView,
    at: int,
)
    requires
        0 <= at < groups.len(),
        groups_ascend(groups),
        groups[at].node == b.node,
        groups[at].tracks.len() == b.target_count,
        b.target_index < b.target_count,
    ensures
        ({
            let after = with_track(groups, b, track);
            &&& after.len() == groups.len()
            &&& after[at].node == b.node
            &&& after[at].tracks.len() == b.target_count
            &&& after[at].tracks[b.target_index as int] == Some(track)
            &&& forall|k: int|
                0 <= k < b.target_count && k != b.target_index ==> #[trigger] after[at].tracks[k]
                    == groups[at].tracks[k]
            &&& forall|k: int| 0 <= k < groups.len() && k != at ==> #[trigger] after[k] == groups[k]
        }),
{
    lemma_group_is_at(groups, b.node, 0, at);
}

/// A node's group is found where it is.
proof fn lemma_group_is_at(groups: Seq<GroupView>, node: usize, from: int, at: int)
    requires
        0 <= from <= at < groups.len(),
        groups_ascend(groups),
        groups[at].node == node,
    ensures
        group_place(groups, node, from) == at,
    decreases at - from,
{
    if from < at {
        assert(groups[from].node < groups[at].node);
        lemma_group_is_at(groups, node, from + 1, at);
    }
}

/// A list of files has a name once it was put in.
proof fn lemma_data_found(list: Seq<(Seq<char>, Seq<u8>)>, name: Seq<char>, from: int)
    requires
        0 <= from,
    ensures
        match data_index(list, name, from) {
            Some(i) => from <= i < list.len() && list[i].0 == name,
            None => forall|k: int| from <= k < list.len() ==> (#[trigger] list[k]).0 != name,
        },
    decreases list.len() - from,
{
    if from < list.len() && list[from].0 != name {
        lemma_data_found(list, name, from + 1);
    }
}

/// A file that was put in under a name stands behind all that have another name.
proof fn lemma_data_index_is(list: Seq<(Seq<char>, Seq<u8>)>, name: Seq<char>, from: int, at: int)
    requires
        0 <= from <= at < list.len(),
        list[at].0 == name,
        forall|k: int| from <= k < at ==> (#[trigger] list[k]).0 != name,
    ensures
        data_index(list, name, from) == Some(at),
    decreases at - from,
{
    if from < at {
        assert(list[from].0 != name);
        lemma_data_index_is(list, name, from + 1, at);
    }
}

/// An animation takes the file that was last put in under its name, in whatever case either is
/// written.
pub proof fn law_animation_takes_its_file(
    list: Seq<(Seq<char>, Seq<u8>)>,
    name: Seq<char>,
    bytes: Seq<u8>,
    animation: Tree,
    own: Seq<char>,
)
    requires
        text_of(get_of(Some(animation), "Name"@)) == Some(own),
        lower_of(own) == lower_of(name),
    ensures
        data_for(with_data(list, name, bytes), animation) == Some(bytes),
{
    let key = lower_of(name);
    lemma_data_found(list, key, 0);
    let after = with_data(list, name, bytes);
    match data_index(list, key, 0) {
        Some(i) => {
            lemma_data_before(list, key, 0);
            lemma_data_index_is(after, key, 0, i);
        },
        None => {
            lemma_data_index_is(after, key, 0, list.len() as int);
        },
    }
}

/// The first file of a name is the first.
proof fn lemma_data_before(list: Seq<(Seq<char>, Seq<u8>)>, name: Seq<char>, from: int)
    requires
        0 <= from,
    ensures
        data_index(list, name, from) matches Some(i) ==> forall|k: int|
            from <= k < i ==> (#[trigger] list[k]).0 != name,
    decreases list.len() - from,
{
    if from < list.len() && list[from].0 != name {
        lemma_data_before(list, name, from + 1);
    }
}

/// An animation whose name no file has takes the only file there is, and none of several.
pub proof fn law_animation_without_a_file(
    list: Seq<(Seq<char>, Seq<u8>)>,
    animation: Tree,
    own: Seq<char>,
)
    requires
        text_of(get_of(Some(animation), "Name"@)) == Some(own),
        forall|k: int| 0 <= k < list.len() ==> (#[trigger] list[k]).0 != lower_of(own),
    ensures
        list.len() == 1 ==> data_for(list, animation) == Some(list[0].1),
        list.len() != 1 ==> data_for(list, animation) is None,
{
    lemma_data_found(list, lower_of(own), 0);
}

/// An animation is written under its own name, `Animation` if it has none, with its channels, if
/// it has channels at all.
pub proof fn law_animation_is_written(
    d: DocumentView,
    animation: Tree,
    channels: Seq<Channel>,
)
    ensures
        channels.len() == 0 ==> with_channels(d, animation_name(animation), channels) == d,
        channels.len() > 0 ==> {
            let e = with_channels(d, animation_name(animation), channels);
            let a = e.animations.last();
            &&& e.animations == d.animations.push(a)
            &&& a.channels == channels
            &&& text_of(get_of(Some(animation), "Name"@)) matches Some(n) ==> a.name == n
            &&& text_of(get_of(Some(animation), "Name"@)) is None ==> a.name == "Animation"@
        },
{
}

/// The animations of a scene: a value that holds one is one, and any other has those of the values
/// inside it.
pub proof fn law_animations_are_found(t: Tree, found: Seq<Tree>, animation: Tree)
    ensures
        get_of(Some(t), "osgAnimation.Animation"@) == Some(animation) ==> animations_in(t, found)
            == found.push(animation),
        get_of(Some(t), "osgAnimation.Animation"@) is None ==> forall|i: int|
            0 <= i < kids(t).len() && animations_in(#[trigger] kids(t)[i], Seq::empty()).contains(
                animation,
            ) ==> animations_in(t, found).contains(animation),
{
    if get_of(Some(t), "osgAnimation.Animation"@) is None {
        assert forall|i: int|
            0 <= i < kids(t).len() && animations_in(#[trigger] kids(t)[i], Seq::empty()).contains(
                animation,
            ) implies animations_in(t, found).contains(animation) by {
            lemma_found_within(t, kids(t).len(), i, found, animation);
        }
    }
}

/// What was found stays, whatever was found before it does not matter, and what is in a value is
/// found.
proof fn lemma_found_grows(t: Tree, found: Seq<Tree>, other: Seq<Tree>, animation: Tree)
    ensures
        found.contains(animation) ==> animations_in(t, found).contains(animation),
        animations_in(t, other).contains(animation) && !other.contains(animation)
            ==> animations_in(t, found).contains(animation),
    decreases t, kids(t).len() + 1,
{
    match get_of(Some(t), "osgAnimation.Animation"@) {
        Some(own) => {
            assert(found.push(own)[found.len() as int] == own);
            if found.contains(animation) {
                let k = choose|k: int| 0 <= k < found.len() && found[k] == animation;
                assert(found.push(own)[k] == animation);
            }
            if other.push(own).contains(animation) && !other.contains(animation) {
                let k = choose|k: int|
                    0 <= k < other.push(own).len() && other.push(own)[k] == animation;
                assert(k == other.len());
            }
        },
        None => {
            lemma_found_within_grows(t, kids(t).len(), found, other, animation);
        },
    }
}

/// The same of the first `n` values inside a value.
proof fn lemma_found_within_grows(
    t: Tree,
    n: nat,
    found: Seq<Tree>,
    other: Seq<Tree>,
    animation: Tree,
)
    requires
        n <= kids(t).len(),
    ensures
        found.contains(animation) ==> animations_within(t, n, found).contains(animation),
        animations_within(t, n, other).contains(animation) && !other.contains(animation)
            ==> animations_within(t, n, found).contains(animation),
    decreases t, n,
{
    if n > 0 {
        lemma_kid_descends(t, n - 1);
        lemma_found_within_grows(t, (n - 1) as nat, found, other, animation);
        let a = animations_within(t, (n - 1) as nat, found);
        let b = animations_within(t, (n - 1) as nat, other);
        lemma_found_grows(kids(t)[n - 1], a, b, animation);
    }
}

/// What is in one of the first `n` values inside a value is found.
proof fn lemma_found_within(t: Tree, n: nat, i: int, found: Seq<Tree>, animation: Tree)
    requires
        0 <= i < n <= kids(t).len(),
        animations_in(kids(t)[i], Seq::empty()).contains(animation),
    ensures
        animations_within(t, n, found).contains(animation),
    decreases n,
{
    let before = animations_within(t, (n - 1) as nat, found);
    if i == n - 1 {
        lemma_found_grows(kids(t)[i], before, Seq::empty(), animation);
    } else {
        lemma_found_within(t, (n - 1) as nat, i, found, animation);
        lemma_found_grows(kids(t)[n - 1], before, before, animation);
    }
}

/// The first track of a node makes a group for it, with a place for each of the node's morph
/// targets, of which only the bound one has a track; the groups of other nodes stay.
pub proof fn law_first_track_makes_a_group(
    groups: Seq<GroupView>,
    b: MorphTargetBinding,
    track: TrackView,
)
    requires
        forall|k: int| 0 <= k < groups.len() ==> (#[trigger] groups[k]).node != b.node,
        b.target_index < b.target_count,
    ensures
        ({
            let after = with_track(groups, b, track);
            &&& after.len() == groups.len() + 1
            &&& exists|at: int|
                0 <= at < after.len() && {
                    let g = #[trigger] after[at];
                    &&& g.node == b.node
                    &&& g.tracks.len() == b.target_count
                    &&& forall|k: int|
                        0 <= k < b.target_count ==> #[trigger] g.tracks[k] == if k == b.target_index {
                            Some(track)
                        } else {
                            None
                        }
                }
            &&& forall|k: int|
                0 <= k < groups.len() ==> after.contains(#[trigger] groups[k])
        }),
{
    lemma_group_place(groups, b.node, 0);
    let at = group_place(groups, b.node, 0);
    let after = with_track(groups, b, track);
    let list = groups.insert(at, empty_group(b.node, b.target_count as int));
    assert(list[at] == empty_group(b.node, b.target_count as int));
    assert(after[at].node == b.node);
    assert forall|k: int| 0 <= k < groups.len() implies after.contains(#[trigger] groups[k]) by {
        if k < at {
            assert(list[k] == groups[k]);
            assert(after[k] == groups[k]);
        } else {
            assert(list[k + 1] == groups[k]);
            assert(after[k + 1] == groups[k]);
        }
    }
}

/// A channel that moves a node has an item for each time, of as many numbers as it has components,
/// and one that sets weights single numbers, of its node: the times and the numbers can be read
/// where the channel says.
pub proof fn law_channels_hold_times_and_values(
    d: DocumentView,
    node: usize,
    path: ChannelPath,
    components: usize,
    times: Seq<u32>,
    values: Seq<u32>,
)
    requires
        d.wf(),
        1 <= components,
        d.accessors.len() + 2 <= usize::MAX,
        d.buffer_views.len() + 2 <= usize::MAX,
        d.bin.len() + 4 * times.len() + 4 * values.len() + 12 <= usize::MAX,
    ensures
        ({
            let (e, c) = with_movement(d, node, path, components as int, times, values);
            &&& c.node == node
            &&& c.path == path
            &&& accessor_bytes(e, c.input as int) == bytes32(times)
            &&& accessor_bytes(e, c.output as int) == bytes32(values)
            &&& e.accessors[c.input as int].count == times.len()
            &&& e.accessors[c.output as int].count == times.len()
            &&& components == 3 ==> e.accessors[c.output as int].kind == AccessorKind::Vec3
            &&& components == 4 ==> e.accessors[c.output as int].kind == AccessorKind::Vec4
        }),
        ({
            let (e, c) = with_weights(d, node, times, values);
            &&& c.node == node
            &&& c.path == ChannelPath::Weights
            &&& accessor_bytes(e, c.input as int) == bytes32(times)
            &&& accessor_bytes(e, c.output as int) == bytes32(values)
            &&& e.accessors[c.input as int].count == times.len()
            &&& e.accessors[c.output as int].count == values.len()
            &&& e.accessors[c.output as int].kind == AccessorKind::Scalar
        }),
{
    let t = frame_attribute(times, 1, times.len() as int);
    assert(bytes_of(t.data).len() == 4 * times.len());
    law_new_accessor_holds_its_attribute(d, t, 0);
    let d1 = d.with_accessor(t);
    law_padded_append(d.bin, bytes_of(t.data));
    let v = frame_attribute(values, components as int, times.len() as int);
    let w = frame_attribute(values, 1, values.len() as int);
    assert(bytes_of(v.data).len() == 4 * values.len());
    assert(bytes_of(w.data).len() == 4 * values.len());
    law_new_accessor_holds_its_attribute(d1, v, d.accessors.len() as int);
    law_new_accessor_holds_its_attribute(d1, w, d.accessors.len() as int);
}

/// The times of a track are among those of its group.
proof fn lemma_all_times_hold(tracks: Seq<Option<TrackView>>, n: int, i: int, time: u32)
    requires
        0 <= i < n <= tracks.len(),
        tracks[i] matches Some(t) && t.times.contains(time),
    ensures
        all_times(tracks, n).contains(time),
    decreases n,
{
    let before = all_times(tracks, n - 1);
    let after = all_times(tracks, n);
    if i == n - 1 {
        let own = tracks[i]->0.times;
        let k = choose|k: int| 0 <= k < own.len() && own[k] == time;
        assert(after[before.len() + k] == time);
    } else {
        lemma_all_times_hold(tracks, n - 1, i, time);
        let k = choose|k: int| 0 <= k < before.len() && before[k] == time;
        assert(after[k] == time);
    }
}

/// The weights of a node are given at every time of every track of its morph targets.
pub proof fn law_group_has_every_time(group: GroupView, i: int, j: int)
    requires
        0 <= i < group.tracks.len(),
        group.tracks[i] matches Some(t) && 0 <= j < t.times.len() && !is_nan(t.times[j]),
    ensures
        exists|k: int|
            0 <= k < group_times(group).len() && eq_of(
                #[trigger] group_times(group)[k],
                group.tracks[i]->0.times[j],
            ),
{
    let time = group.tracks[i]->0.times[j];
    let n = group.tracks.len() as int;
    let all = all_times(group.tracks, n);
    lemma_all_times_hold(group.tracks, n, i, time);
    let p = choose|p: int| 0 <= p < all.len() && all[p] == time;
    law_merged_times_are_the_times(all, p, 0);
    let k = choose|k: int| 0 <= k < merged(all).len() && eq_of(#[trigger] merged(all)[k], all[p]);
    assert(eq_of(group_times(group)[k], time));
}

} // verus!
