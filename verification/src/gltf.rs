//! The glTF document under construction, and its binary chunk.

use crate::buffers::{
    i16s_of, i32s_of, le16, le32, plain_array_of, u16s_of, u32s_of, AttrData, BufferError,
    Components,
};
use crate::float_bits::{
    is_nan, lt_of, max_of, maximum, min_of, minimum, INFINITY, NEG_INFINITY,
};
use vstd::prelude::*;

verus! {

/// The views of a list.
pub open spec fn views<T: View>(list: Seq<T>) -> Seq<T::V> {
    Seq::new(list.len(), |i: int| list[i]@)
}

/// The views of a longer list.
pub proof fn lemma_views_push<T: View>(list: Seq<T>, x: T)
    ensures
        views(list.push(x)) == views(list).push(x@),
{
    assert(views(list.push(x)) =~= views(list).push(x@));
}

/// The views of a changed list.
pub proof fn lemma_views_update<T: View>(list: Seq<T>, i: int, x: T)
    requires
        0 <= i < list.len(),
    ensures
        views(list.update(i, x)) == views(list).update(i, x@),
{
    assert(views(list.update(i, x)) =~= views(list).update(i, x@));
}

/// A vertex attribute: how many items of how many components, and how they are stored.
#[derive(Debug)]
pub struct Attribute {
    pub data: AttrData,
    pub item_size: usize,
    pub count: usize,
    pub component_type: u32,
    pub normalized: bool,
}

/// The mathematical counterpart of [`Attribute`].
#[verifier::ext_equal]
pub ghost struct AttributeView {
    pub data: Components,
    pub item_size: usize,
    pub count: usize,
    pub component_type: u32,
    pub normalized: bool,
}

impl View for Attribute {
    type V = AttributeView;

    open spec fn view(&self) -> AttributeView {
        AttributeView {
            data: self.data@,
            item_size: self.item_size,
            count: self.count,
            component_type: self.component_type,
            normalized: self.normalized,
        }
    }
}

/// A range of the binary chunk.
#[derive(Clone, Copy, Debug, PartialEq, Eq, Structural)]
pub struct BufferView {
    pub offset: usize,
    pub length: usize,
    pub target: Option<u32>,
}

/// The shape of an accessor's items.
#[derive(Clone, Copy, Debug, PartialEq, Eq, Structural)]
pub enum AccessorKind {
    Scalar,
    Vec2,
    Vec3,
    Vec4,
    Mat4,
}

/// The least and the greatest value of each component: binary32 patterns for floating-point
/// numbers, and integers, absent where there is no value, for the others.
#[derive(Debug)]
pub enum Bounds {
    Singles(Vec<u32>, Vec<u32>),
    Integers(Vec<Option<i64>>, Vec<Option<i64>>),
}

/// The mathematical counterpart of [`Bounds`].
#[verifier::ext_equal]
pub ghost enum BoundsView {
    Singles(Seq<u32>, Seq<u32>),
    Integers(Seq<Option<i64>>, Seq<Option<i64>>),
}

impl View for Bounds {
    type V = BoundsView;

    open spec fn view(&self) -> BoundsView {
        match self {
            Bounds::Singles(a, b) => BoundsView::Singles(a@, b@),
            Bounds::Integers(a, b) => BoundsView::Integers(a@, b@),
        }
    }
}

/// Numbers in the binary chunk.
#[derive(Debug)]
pub struct Accessor {
    pub buffer_view: usize,
    pub component_type: u32,
    pub count: usize,
    pub kind: AccessorKind,
    pub bounds: Option<Bounds>,
    pub normalized: bool,
}

/// The mathematical counterpart of [`Accessor`].
#[verifier::ext_equal]
pub ghost struct AccessorView {
    pub buffer_view: usize,
    pub component_type: u32,
    pub count: usize,
    pub kind: AccessorKind,
    pub bounds: Option<BoundsView>,
    pub normalized: bool,
}

impl View for Accessor {
    type V = AccessorView;

    open spec fn view(&self) -> AccessorView {
        AccessorView {
            buffer_view: self.buffer_view,
            component_type: self.component_type,
            count: self.count,
            kind: self.kind,
            bounds: match self.bounds {
                Some(b) => Some(b@),
                None => None,
            },
            normalized: self.normalized,
        }
    }
}

/// The format of an embedded image.
#[derive(Clone, Copy, Debug, PartialEq, Eq, Structural)]
pub enum Mime {
    Png,
    Jpeg,
}

/// An embedded image.
#[derive(Clone, Copy, Debug, PartialEq, Eq, Structural)]
pub struct Image {
    pub buffer_view: usize,
    pub mime: Mime,
}

/// How a texture is filtered and wrapped, by the numbers that glTF has from OpenGL.
#[derive(Clone, Copy, Debug, PartialEq, Eq, Structural)]
pub struct SamplerSettings {
    pub mag_filter: u32,
    pub min_filter: u32,
    pub wrap_s: u32,
    pub wrap_t: u32,
}

/// An image with a sampler.
#[derive(Clone, Copy, Debug, PartialEq, Eq, Structural)]
pub struct Texture {
    pub source: usize,
    pub sampler: usize,
}

/// A texture transform to be written, as binary32 patterns.
#[derive(Clone, Copy, Debug, PartialEq, Eq)]
pub struct ExportedTransform {
    pub offset: [u32; 2],
    pub scale: [u32; 2],
    pub rotation: Option<u32>,
}

/// A material's reference to a texture.
#[derive(Clone, Copy, Debug, PartialEq, Eq)]
pub struct TextureInfo {
    pub index: usize,
    pub texcoord: u32,
    pub transform: Option<ExportedTransform>,
}

/// How a material treats its alpha.
#[derive(Clone, Copy, Debug, PartialEq, Eq, Structural)]
pub enum AlphaMode {
    Mask,
    Blend,
    Opaque,
}

/// A material extension that is taken over from the source.
#[derive(Clone, Copy, Debug, PartialEq, Eq, Structural)]
pub enum MaterialExtension {
    /// Clear coat: factor and roughness, as binary32 patterns.
    Clearcoat(u32, u32),
    /// Specular factor, as a binary64 pattern.
    Specular(u64),
}

/// A material. Numbers are binary32 patterns.
#[derive(Debug)]
pub struct Material {
    pub name: String,
    pub double_sided: bool,
    pub alpha_mode: Option<AlphaMode>,
    pub base_color: [u32; 4],
    pub metallic: u32,
    pub roughness: u32,
    pub base_color_texture: Option<TextureInfo>,
    pub metallic_roughness_texture: Option<TextureInfo>,
    pub emissive_factor: Option<[u32; 3]>,
    pub emissive_strength: Option<u32>,
    pub emissive_texture: Option<TextureInfo>,
    pub occlusion_texture: Option<TextureInfo>,
    pub normal_texture: Option<TextureInfo>,
    pub normal_scale: u32,
    pub alpha_cutoff: Option<u32>,
    pub extensions: Vec<MaterialExtension>,
    pub unlit: bool,
}

/// The mathematical counterpart of [`Material`].
#[verifier::ext_equal]
pub ghost struct MaterialView {
    pub name: Seq<char>,
    pub double_sided: bool,
    pub alpha_mode: Option<AlphaMode>,
    pub base_color: [u32; 4],
    pub metallic: u32,
    pub roughness: u32,
    pub base_color_texture: Option<TextureInfo>,
    pub metallic_roughness_texture: Option<TextureInfo>,
    pub emissive_factor: Option<[u32; 3]>,
    pub emissive_strength: Option<u32>,
    pub emissive_texture: Option<TextureInfo>,
    pub occlusion_texture: Option<TextureInfo>,
    pub normal_texture: Option<TextureInfo>,
    pub normal_scale: u32,
    pub alpha_cutoff: Option<u32>,
    pub extensions: Seq<MaterialExtension>,
    pub unlit: bool,
}

impl View for Material {
    type V = MaterialView;

    open spec fn view(&self) -> MaterialView {
        MaterialView {
            name: self.name@,
            double_sided: self.double_sided,
            alpha_mode: self.alpha_mode,
            base_color: self.base_color,
            metallic: self.metallic,
            roughness: self.roughness,
            base_color_texture: self.base_color_texture,
            metallic_roughness_texture: self.metallic_roughness_texture,
            emissive_factor: self.emissive_factor,
            emissive_strength: self.emissive_strength,
            emissive_texture: self.emissive_texture,
            occlusion_texture: self.occlusion_texture,
            normal_texture: self.normal_texture,
            normal_scale: self.normal_scale,
            alpha_cutoff: self.alpha_cutoff,
            extensions: self.extensions@,
            unlit: self.unlit,
        }
    }
}

/// A named accessor.
#[derive(Debug)]
pub struct NamedAccessor {
    pub name: String,
    pub accessor: usize,
}

impl View for NamedAccessor {
    type V = (Seq<char>, usize);

    open spec fn view(&self) -> (Seq<char>, usize) {
        (self.name@, self.accessor)
    }
}

/// The accessors of one morph target.
#[derive(Debug)]
pub struct Target {
    pub name: String,
    pub attributes: Vec<NamedAccessor>,
}

/// The mathematical counterpart of [`Target`].
#[verifier::ext_equal]
pub ghost struct TargetView {
    pub name: Seq<char>,
    pub attributes: Seq<(Seq<char>, usize)>,
}

impl View for Target {
    type V = TargetView;

    open spec fn view(&self) -> TargetView {
        TargetView { name: self.name@, attributes: views(self.attributes@) }
    }
}

/// A mesh of one primitive.
#[derive(Debug)]
pub struct Mesh {
    pub name: String,
    pub attributes: Vec<NamedAccessor>,
    pub indices: usize,
    pub material: usize,
    pub mode: u32,
    pub targets: Vec<Target>,
}

/// The mathematical counterpart of [`Mesh`].
#[verifier::ext_equal]
pub ghost struct MeshView {
    pub name: Seq<char>,
    pub attributes: Seq<(Seq<char>, usize)>,
    pub indices: usize,
    pub material: usize,
    pub mode: u32,
    pub targets: Seq<TargetView>,
}

impl View for Mesh {
    type V = MeshView;

    open spec fn view(&self) -> MeshView {
        MeshView {
            name: self.name@,
            attributes: views(self.attributes@),
            indices: self.indices,
            material: self.material,
            mode: self.mode,
            targets: views(self.targets@),
        }
    }
}

/// The joints of a skinned mesh.
#[derive(Debug)]
pub struct Skin {
    pub name: String,
    pub joints: Vec<usize>,
    pub inverse_bind: usize,
}

/// The mathematical counterpart of [`Skin`].
#[verifier::ext_equal]
pub ghost struct SkinView {
    pub name: Seq<char>,
    pub joints: Seq<usize>,
    pub inverse_bind: usize,
}

impl View for Skin {
    type V = SkinView;

    open spec fn view(&self) -> SkinView {
        SkinView { name: self.name@, joints: self.joints@, inverse_bind: self.inverse_bind }
    }
}

/// A 4x4 matrix in column order, as binary32 patterns.
pub type Matrix = [u32; 16];

/// Where a node stands. A list of matrices means their product, from the outermost inward.
#[derive(Debug)]
pub enum Placement {
    Unplaced,
    /// Translation, rotation and scale.
    Trs(Vec<u32>, Vec<u32>, Vec<u32>),
    /// The product itself.
    Product(Vec<Matrix>),
    /// The product, taken apart into translation, rotation and scale.
    Decomposed(Vec<Matrix>),
}

/// The mathematical counterpart of [`Placement`].
#[verifier::ext_equal]
pub ghost enum PlacementView {
    Unplaced,
    Trs(Seq<u32>, Seq<u32>, Seq<u32>),
    Product(Seq<Matrix>),
    Decomposed(Seq<Matrix>),
}

impl View for Placement {
    type V = PlacementView;

    open spec fn view(&self) -> PlacementView {
        match self {
            Placement::Unplaced => PlacementView::Unplaced,
            Placement::Trs(t, r, s) => PlacementView::Trs(t@, r@, s@),
            Placement::Product(path) => PlacementView::Product(path@),
            Placement::Decomposed(path) => PlacementView::Decomposed(path@),
        }
    }
}

/// A node of the scene.
#[derive(Debug)]
pub struct Node {
    pub name: String,
    pub children: Vec<usize>,
    pub placement: Placement,
    pub mesh: Option<usize>,
    pub skin: Option<usize>,
}

/// The mathematical counterpart of [`Node`].
#[verifier::ext_equal]
pub ghost struct NodeView {
    pub name: Seq<char>,
    pub children: Seq<usize>,
    pub placement: PlacementView,
    pub mesh: Option<usize>,
    pub skin: Option<usize>,
}

impl View for Node {
    type V = NodeView;

    open spec fn view(&self) -> NodeView {
        NodeView {
            name: self.name@,
            children: self.children@,
            placement: self.placement@,
            mesh: self.mesh,
            skin: self.skin,
        }
    }
}

/// What an animation channel moves.
#[derive(Clone, Copy, Debug, PartialEq, Eq, Structural)]
pub enum ChannelPath {
    Translation,
    Rotation,
    Scale,
    Weights,
}

/// One channel of an animation with its sampler: times in one accessor, values in another.
#[derive(Clone, Copy, Debug, PartialEq, Eq, Structural)]
pub struct Channel {
    pub input: usize,
    pub output: usize,
    pub node: usize,
    pub path: ChannelPath,
}

/// An animation. Channel `i` uses sampler `i`.
#[derive(Debug)]
pub struct Animation {
    pub name: String,
    pub channels: Vec<Channel>,
}

/// The mathematical counterpart of [`Animation`].
#[verifier::ext_equal]
pub ghost struct AnimationView {
    pub name: Seq<char>,
    pub channels: Seq<Channel>,
}

impl View for Animation {
    type V = AnimationView;

    open spec fn view(&self) -> AnimationView {
        AnimationView { name: self.name@, channels: self.channels@ }
    }
}

/// The document. All binary data stands in `bin`.
#[derive(Debug)]
pub struct Document {
    pub bin: Vec<u8>,
    pub buffer_views: Vec<BufferView>,
    pub accessors: Vec<Accessor>,
    pub images: Vec<Image>,
    pub samplers: Vec<SamplerSettings>,
    pub textures: Vec<Texture>,
    pub materials: Vec<Material>,
    pub meshes: Vec<Mesh>,
    pub skins: Vec<Skin>,
    pub nodes: Vec<Node>,
    pub roots: Vec<usize>,
    pub animations: Vec<Animation>,
}

/// The mathematical counterpart of [`Document`].
#[verifier::ext_equal]
pub ghost struct DocumentView {
    pub bin: Seq<u8>,
    pub buffer_views: Seq<BufferView>,
    pub accessors: Seq<AccessorView>,
    pub images: Seq<Image>,
    pub samplers: Seq<SamplerSettings>,
    pub textures: Seq<Texture>,
    pub materials: Seq<MaterialView>,
    pub meshes: Seq<MeshView>,
    pub skins: Seq<SkinView>,
    pub nodes: Seq<NodeView>,
    pub roots: Seq<usize>,
    pub animations: Seq<AnimationView>,
}

impl View for Document {
    type V = DocumentView;

    open spec fn view(&self) -> DocumentView {
        DocumentView {
            bin: self.bin@,
            buffer_views: self.buffer_views@,
            accessors: views(self.accessors@),
            images: self.images@,
            samplers: self.samplers@,
            textures: self.textures@,
            materials: views(self.materials@),
            meshes: views(self.meshes@),
            skins: views(self.skins@),
            nodes: views(self.nodes@),
            roots: self.roots@,
            animations: views(self.animations@),
        }
    }
}

/// How many zeros bring a length to a multiple of four.
pub open spec fn padding(len: int) -> int {
    (4 - len % 4) % 4
}

/// Bytes followed by zeros up to a multiple of four.
pub open spec fn padded(bytes: Seq<u8>) -> Seq<u8> {
    bytes + Seq::new(padding(bytes.len() as int) as nat, |i: int| 0u8)
}

/// Appends bytes and then zeros up to a multiple of four. Returns where the bytes start and how
/// many they are.
pub fn push_padded(bin: &mut Vec<u8>, bytes: &[u8]) -> (r: (usize, usize))
    ensures
        final(bin)@ == padded(old(bin)@ + bytes@),
        r.0 == old(bin)@.len(),
        r.1 == bytes@.len(),
{
    let ghost before = bin@;
    let offset: usize = bin.len();
    bin.extend_from_slice(bytes);
    let ghost joined = before + bytes@;
    assert(bin@ =~= joined);
    let ghost mut added: nat = 0;
    while bin.len() % 4 != 0
        invariant
            added <= padding(joined.len() as int),
            bin@ == joined + Seq::new(added, |i: int| 0u8),
        decreases padding(joined.len() as int) - added,
    {
        let ghost now = bin@;
        bin.push(0);
        proof {
            assert(bin@ =~= joined + Seq::new(added + 1, |i: int| 0u8));
            added = added + 1;
        }
    }
    assert(added == padding(joined.len() as int));
    (offset, bytes.len())
}

/// Appending keeps what was there, puts the new bytes at a multiple of four if the length was
/// one, and leaves the length at a multiple of four.
pub proof fn law_padded_append(bin: Seq<u8>, bytes: Seq<u8>)
    ensures
        padded(bin + bytes).len() % 4 == 0,
        padded(bin + bytes).take(bin.len() as int) == bin,
        padded(bin + bytes).subrange(bin.len() as int, (bin.len() + bytes.len()) as int) == bytes,
        padded(bin + bytes).len() < bin.len() + bytes.len() + 4,
{
    assert(padded(bin + bytes).take(bin.len() as int) =~= bin);
    assert(padded(bin + bytes).subrange(bin.len() as int, (bin.len() + bytes.len()) as int)
        =~= bytes);
}

/// Byte `k` of a number, the lowest first.
pub open spec fn byte_of(x: int, k: int) -> u8 {
    if k == 0 {
        (x % 256) as u8
    } else if k == 1 {
        ((x / 0x100) % 256) as u8
    } else if k == 2 {
        ((x / 0x1_0000) % 256) as u8
    } else {
        ((x / 0x100_0000) % 256) as u8
    }
}

/// The little-endian bytes of 32-bit numbers.
pub open spec fn bytes32(v: Seq<u32>) -> Seq<u8> {
    Seq::new(4 * v.len(), |i: int| byte_of(v[i / 4] as int, i % 4))
}

/// The little-endian bytes of 16-bit numbers.
pub open spec fn bytes16(v: Seq<u16>) -> Seq<u8> {
    Seq::new(2 * v.len(), |i: int| byte_of(v[i / 2] as int, i % 2))
}

/// The two's complement patterns of signed numbers.
pub open spec fn patterns32(v: Seq<i32>) -> Seq<u32> {
    Seq::new(v.len(), |i: int| (v[i] as int % 0x1_0000_0000) as u32)
}

/// The two's complement patterns of signed numbers.
pub open spec fn patterns16(v: Seq<i16>) -> Seq<u16> {
    Seq::new(v.len(), |i: int| (v[i] as int % 0x1_0000) as u16)
}

/// The bytes that store an attribute's components.
pub open spec fn bytes_of(c: Components) -> Seq<u8> {
    match c {
        Components::F32(v) => bytes32(v),
        Components::I32(v) => bytes32(patterns32(v)),
        Components::U32(v) => bytes32(v),
        Components::U16(v) => bytes16(v),
        Components::U8(v) => v,
        Components::I16(v) => bytes16(patterns16(v)),
    }
}

/// Appends the bytes of a 32-bit number.
pub fn push_u32(out: &mut Vec<u8>, x: u32)
    ensures
        final(out)@ == old(out)@ + seq![
            byte_of(x as int, 0),
            byte_of(x as int, 1),
            byte_of(x as int, 2),
            byte_of(x as int, 3),
        ],
{
    let ghost before = out@;
    out.push((x % 256) as u8);
    out.push(((x / 0x100) % 256) as u8);
    out.push(((x / 0x1_0000) % 256) as u8);
    out.push(((x / 0x100_0000) % 256) as u8);
    assert(out@ =~= before + seq![
        byte_of(x as int, 0),
        byte_of(x as int, 1),
        byte_of(x as int, 2),
        byte_of(x as int, 3),
    ]);
}

/// The bytes of 32-bit numbers.
pub fn words_to_bytes(v: &[u32]) -> (r: Vec<u8>)
    ensures
        r@ == bytes32(v@),
{
    let mut out: Vec<u8> = Vec::new();
    let mut i: usize = 0;
    while i < v.len()
        invariant
            i <= v@.len(),
            out@ == bytes32(v@.take(i as int)),
        decreases v@.len() - i,
    {
        let ghost before = out@;
        push_u32(&mut out, v[i]);
        i += 1;
        proof {
            let part = v@.take(i as int);
            assert(part.len() == i);
            assert forall|k: int| 0 <= k < 4 * i implies out@[k] == bytes32(part)[k] by {
                if k < 4 * (i - 1) {
                    assert(before[k] == byte_of(v@.take(i - 1)[k / 4] as int, k % 4));
                    assert(part[k / 4] == v@.take(i - 1)[k / 4]);
                } else {
                    assert(k / 4 == i - 1);
                }
            }
            assert(out@ =~= bytes32(part));
        }
    }
    assert(v@.take(i as int) =~= v@);
    out
}

/// The bytes of 16-bit numbers.
fn halves_to_bytes(v: &[u16]) -> (r: Vec<u8>)
    ensures
        r@ == bytes16(v@),
{
    let mut out: Vec<u8> = Vec::new();
    let mut i: usize = 0;
    while i < v.len()
        invariant
            i <= v@.len(),
            out@ == bytes16(v@.take(i as int)),
        decreases v@.len() - i,
    {
        let ghost before = out@;
        let x: u16 = v[i];
        out.push((x % 256) as u8);
        out.push((x / 256) as u8);
        i += 1;
        proof {
            let part = v@.take(i as int);
            assert(part.len() == i);
            assert forall|k: int| 0 <= k < 2 * i implies out@[k] == bytes16(part)[k] by {
                if k < 2 * (i - 1) {
                    assert(before[k] == byte_of(v@.take(i - 1)[k / 2] as int, k % 2));
                    assert(part[k / 2] == v@.take(i - 1)[k / 2]);
                } else {
                    assert(k / 2 == i - 1);
                }
            }
            assert(out@ =~= bytes16(part));
        }
    }
    assert(v@.take(i as int) =~= v@);
    out
}

/// The bytes that store an attribute.
pub fn bytes_for_attr(attr: &Attribute) -> (r: Vec<u8>)
    ensures
        r@ == bytes_of(attr@.data),
{
    match &attr.data {
        AttrData::F32(v) => words_to_bytes(v.as_slice()),
        AttrData::I32(v) => {
            let mut patterns: Vec<u32> = Vec::new();
            let mut i: usize = 0;
            while i < v.len()
                invariant
                    i <= v@.len(),
                    patterns@ == patterns32(v@).take(i as int),
                decreases v@.len() - i,
            {
                patterns.push(crate::buffers::low32(v[i] as i64));
                i += 1;
                assert(patterns@ =~= patterns32(v@).take(i as int));
            }
            assert(patterns@ =~= patterns32(v@));
            words_to_bytes(patterns.as_slice())
        },
        AttrData::U32(v) => words_to_bytes(v.as_slice()),
        AttrData::U16(v) => halves_to_bytes(v.as_slice()),
        AttrData::U8(v) => {
            let out = vstd::slice::slice_to_vec(v.as_slice());
            assert(out@ =~= v@);
            out
        },
        AttrData::I16(v) => {
            let mut patterns: Vec<u16> = Vec::new();
            let mut i: usize = 0;
            while i < v.len()
                invariant
                    i <= v@.len(),
                    patterns@ == patterns16(v@).take(i as int),
                decreases v@.len() - i,
            {
                patterns.push(crate::buffers::low16(v[i] as i64));
                i += 1;
                assert(patterns@ =~= patterns16(v@).take(i as int));
            }
            assert(patterns@ =~= patterns16(v@));
            halves_to_bytes(patterns.as_slice())
        },
    }
}

/// The array type that holds an attribute's components.
pub open spec fn array_type_of(c: Components) -> Seq<char> {
    match c {
        Components::F32(_) => "Float32Array"@,
        Components::I32(_) => "Int32Array"@,
        Components::U32(_) => "Uint32Array"@,
        Components::U16(_) => "Uint16Array"@,
        Components::U8(_) => "Uint8Array"@,
        Components::I16(_) => "Int16Array"@,
    }
}

/// A number is the sum of its bytes.
proof fn lemma_sum_of_bytes(x: u32)
    ensures
        byte_of(x as int, 0) + 0x100 * byte_of(x as int, 1) + 0x1_0000 * byte_of(x as int, 2)
            + 0x100_0000 * byte_of(x as int, 3) == x,
{
    assert((x % 256) + 0x100 * ((x / 0x100) % 256) + 0x1_0000 * ((x / 0x1_0000) % 256) + 0x100_0000
        * ((x / 0x100_0000) % 256) == x) by (bit_vector);
}

/// The bytes of a 32-bit number give the number back.
proof fn lemma_le32(v: Seq<u32>, i: int)
    requires
        0 <= i < v.len(),
    ensures
        le32(bytes32(v), 4 * i) == v[i],
{
    let x = v[i] as int;
    assert(bytes32(v)[4 * i] == byte_of(x, 0));
    assert(bytes32(v)[4 * i + 1] == byte_of(x, 1));
    assert(bytes32(v)[4 * i + 2] == byte_of(x, 2));
    assert(bytes32(v)[4 * i + 3] == byte_of(x, 3));
    lemma_sum_of_bytes(v[i]);
}

/// The bytes of a 16-bit number give the number back.
proof fn lemma_le16(v: Seq<u16>, i: int)
    requires
        0 <= i < v.len(),
    ensures
        le16(bytes16(v), 2 * i) == v[i],
{
    let x = v[i] as int;
    assert(bytes16(v)[2 * i] == byte_of(x, 0));
    assert(bytes16(v)[2 * i + 1] == byte_of(x, 1));
}

/// What is stored for an attribute reads back as the attribute, by the reader of its array type.
pub proof fn law_stored_attribute_reads_back(c: Components)
    ensures
        plain_array_of(bytes_of(c), c.len() as int, array_type_of(c)) == Ok::<
            Components,
            BufferError,
        >(c),
{
    reveal_strlit("Float32Array");
    reveal_strlit("Int32Array");
    reveal_strlit("Uint32Array");
    reveal_strlit("Uint16Array");
    reveal_strlit("Uint8Array");
    reveal_strlit("Int16Array");
    assert("Float32Array"@.len() == 12 && "Int32Array"@.len() == 10 && "Uint32Array"@.len() == 11);
    assert("Uint16Array"@.len() == 11 && "Uint8Array"@.len() == 10 && "Int16Array"@.len() == 10);
    assert("Int32Array"@[0] == 'I' && "Int32Array"@[3] == '3' && "Int16Array"@[3] == '1');
    assert("Uint8Array"@[0] == 'U' && "Uint32Array"@[4] == '3' && "Uint16Array"@[4] == '1');
    match c {
        Components::F32(v) => {
            assert forall|i: int| 0 <= i < v.len() implies u32s_of(bytes32(v), v.len() as int)[i]
                == v[i] by {
                lemma_le32(v, i);
            }
            assert(u32s_of(bytes32(v), v.len() as int) =~= v);
        },
        Components::U32(v) => {
            assert forall|i: int| 0 <= i < v.len() implies u32s_of(bytes32(v), v.len() as int)[i]
                == v[i] by {
                lemma_le32(v, i);
            }
            assert(u32s_of(bytes32(v), v.len() as int) =~= v);
        },
        Components::I32(v) => {
            let p = patterns32(v);
            assert forall|i: int| 0 <= i < v.len() implies i32s_of(bytes32(p), v.len() as int)[i]
                == v[i] by {
                lemma_le32(p, i);
            }
            assert(i32s_of(bytes32(p), v.len() as int) =~= v);
        },
        Components::U16(v) => {
            assert forall|i: int| 0 <= i < v.len() implies u16s_of(bytes16(v), v.len() as int)[i]
                == v[i] by {
                lemma_le16(v, i);
            }
            assert(u16s_of(bytes16(v), v.len() as int) =~= v);
        },
        Components::U8(v) => {
            assert(v.take(v.len() as int) =~= v);
        },
        Components::I16(v) => {
            let p = patterns16(v);
            assert forall|i: int| 0 <= i < v.len() implies i16s_of(bytes16(p), v.len() as int)[i]
                == v[i] by {
                lemma_le16(p, i);
            }
            assert(i16s_of(bytes16(p), v.len() as int) =~= v);
        },
    }
}

/// How many components belong to the counted items: no more than there are.
pub open spec fn counted(len: int, item_size: int, count: int) -> int {
    if count * item_size <= len {
        count * item_size
    } else {
        len
    }
}

/// The least (or greatest) value of component `j` among the first `n` numbers.
pub open spec fn single_extreme(v: Seq<u32>, item_size: int, j: int, n: int, low: bool) -> u32
    decreases n,
{
    if n <= 0 {
        if low {
            INFINITY
        } else {
            NEG_INFINITY
        }
    } else {
        let rest = single_extreme(v, item_size, j, n - 1, low);
        if (n - 1) % item_size != j {
            rest
        } else if low {
            min_of(rest, v[n - 1])
        } else {
            max_of(rest, v[n - 1])
        }
    }
}

/// The least (or greatest) value of component `j` among the first `n` numbers.
pub open spec fn integer_extreme(
    v: Seq<i64>,
    item_size: int,
    j: int,
    n: int,
    low: bool,
) -> Option<i64>
    decreases n,
{
    if n <= 0 {
        None
    } else {
        let rest = integer_extreme(v, item_size, j, n - 1, low);
        let x = v[n - 1];
        if (n - 1) % item_size != j {
            rest
        } else {
            match rest {
                None => Some(x),
                Some(best) => if low == (x < best) {
                    Some(x)
                } else {
                    Some(best)
                },
            }
        }
    }
}

/// The bounds of an attribute's components.
pub open spec fn bounds_of(a: AttributeView) -> BoundsView {
    let size = a.item_size as int;
    let n = counted(a.data.len() as int, size, a.count as int);
    match a.data {
        Components::F32(v) => BoundsView::Singles(
            Seq::new(a.item_size as nat, |j: int| single_extreme(v, size, j, n, true)),
            Seq::new(a.item_size as nat, |j: int| single_extreme(v, size, j, n, false)),
        ),
        _ => BoundsView::Integers(
            Seq::new(
                a.item_size as nat,
                |j: int| integer_extreme(a.data.integers(), size, j, n, true),
            ),
            Seq::new(
                a.item_size as nat,
                |j: int| integer_extreme(a.data.integers(), size, j, n, false),
            ),
        ),
    }
}

/// How many components belong to the counted items.
fn counted_len(len: usize, item_size: usize, count: usize) -> (r: usize)
    ensures
        r == counted(len as int, item_size as int, count as int),
{
    match crate::buffers::checked_product(count as u64, item_size) {
        Some(p) => if p <= len {
            p
        } else {
            len
        },
        None => len,
    }
}

/// The bounds of floating-point components.
fn single_bounds(v: &[u32], item_size: usize, n: usize) -> (r: (Vec<u32>, Vec<u32>))
    requires
        n <= v@.len(),
        item_size == 0 ==> n == 0,
    ensures
        r.0@ == Seq::new(
            item_size as nat,
            |j: int| single_extreme(v@, item_size as int, j, n as int, true),
        ),
        r.1@ == Seq::new(
            item_size as nat,
            |j: int| single_extreme(v@, item_size as int, j, n as int, false),
        ),
{
    let mut low: Vec<u32> = Vec::new();
    let mut high: Vec<u32> = Vec::new();
    low.resize(item_size, INFINITY);
    high.resize(item_size, NEG_INFINITY);
    let mut k: usize = 0;
    while k < n
        invariant
            k <= n <= v@.len(),
            item_size == 0 ==> n == 0,
            low@.len() == item_size,
            high@.len() == item_size,
            forall|j: int|
                0 <= j < item_size ==> #[trigger] low@[j] == single_extreme(
                    v@,
                    item_size as int,
                    j,
                    k as int,
                    true,
                ),
            forall|j: int|
                0 <= j < item_size ==> #[trigger] high@[j] == single_extreme(
                    v@,
                    item_size as int,
                    j,
                    k as int,
                    false,
                ),
        decreases n - k,
    {
        let j: usize = k % item_size;
        low.set(j, minimum(low[j], v[k]));
        high.set(j, maximum(high[j], v[k]));
        k += 1;
    }
    assert(low@ =~= Seq::new(
        item_size as nat,
        |j: int| single_extreme(v@, item_size as int, j, n as int, true),
    ));
    assert(high@ =~= Seq::new(
        item_size as nat,
        |j: int| single_extreme(v@, item_size as int, j, n as int, false),
    ));
    (low, high)
}

/// The bounds of integer components.
fn integer_bounds(v: &[i64], item_size: usize, n: usize) -> (r: (
    Vec<Option<i64>>,
    Vec<Option<i64>>,
))
    requires
        n <= v@.len(),
        item_size == 0 ==> n == 0,
    ensures
        r.0@ == Seq::new(
            item_size as nat,
            |j: int| integer_extreme(v@, item_size as int, j, n as int, true),
        ),
        r.1@ == Seq::new(
            item_size as nat,
            |j: int| integer_extreme(v@, item_size as int, j, n as int, false),
        ),
{
    let mut low: Vec<Option<i64>> = Vec::new();
    let mut high: Vec<Option<i64>> = Vec::new();
    let mut i: usize = 0;
    while i < item_size
        invariant
            i <= item_size,
            low@.len() == i,
            high@.len() == i,
            forall|j: int| 0 <= j < i ==> (#[trigger] low@[j]) is None,
            forall|j: int| 0 <= j < i ==> (#[trigger] high@[j]) is None,
        decreases item_size - i,
    {
        low.push(None);
        high.push(None);
        i += 1;
    }
    let mut k: usize = 0;
    while k < n
        invariant
            k <= n <= v@.len(),
            item_size == 0 ==> n == 0,
            low@.len() == item_size,
            high@.len() == item_size,
            forall|j: int|
                0 <= j < item_size ==> #[trigger] low@[j] == integer_extreme(
                    v@,
                    item_size as int,
                    j,
                    k as int,
                    true,
                ),
            forall|j: int|
                0 <= j < item_size ==> #[trigger] high@[j] == integer_extreme(
                    v@,
                    item_size as int,
                    j,
                    k as int,
                    false,
                ),
        decreases n - k,
    {
        let j: usize = k % item_size;
        let x: i64 = v[k];
        let down = match low[j] {
            None => Some(x),
            Some(best) => if x < best {
                Some(x)
            } else {
                Some(best)
            },
        };
        let up = match high[j] {
            None => Some(x),
            Some(best) => if x < best {
                Some(best)
            } else {
                Some(x)
            },
        };
        low.set(j, down);
        high.set(j, up);
        k += 1;
    }
    assert(low@ =~= Seq::new(
        item_size as nat,
        |j: int| integer_extreme(v@, item_size as int, j, n as int, true),
    ));
    assert(high@ =~= Seq::new(
        item_size as nat,
        |j: int| integer_extreme(v@, item_size as int, j, n as int, false),
    ));
    (low, high)
}

/// The bounds of an attribute's components.
pub fn attribute_bounds(attr: &Attribute) -> (r: Bounds)
    ensures
        r@ == bounds_of(attr@),
{
    let len: usize = attr.data.len();
    let n: usize = counted_len(len, attr.item_size, attr.count);
    proof {
        if attr.item_size == 0 {
            assert(attr.count * attr.item_size == 0) by (nonlinear_arith)
                requires
                    attr.item_size == 0,
            ;
        }
    }
    match &attr.data {
        AttrData::F32(v) => {
            let (low, high) = single_bounds(v.as_slice(), attr.item_size, n);
            Bounds::Singles(low, high)
        },
        _ => {
            let values = attr.data.as_i64_vec();
            let (low, high) = integer_bounds(values.as_slice(), attr.item_size, n);
            Bounds::Integers(low, high)
        },
    }
}

/// The shape of items with that many components.
pub open spec fn kind_of(item_size: usize) -> AccessorKind {
    if item_size == 2 {
        AccessorKind::Vec2
    } else if item_size == 3 {
        AccessorKind::Vec3
    } else if item_size == 4 {
        AccessorKind::Vec4
    } else {
        AccessorKind::Scalar
    }
}

impl DocumentView {
    /// The document with one more range of bytes.
    pub open spec fn with_bytes(self, bytes: Seq<u8>) -> DocumentView {
        DocumentView {
            bin: padded(self.bin + bytes),
            buffer_views: self.buffer_views.push(
                BufferView {
                    offset: self.bin.len() as usize,
                    length: bytes.len() as usize,
                    target: None,
                },
            ),
            ..self
        }
    }

    /// The document with one more attribute.
    pub open spec fn with_accessor(self, a: AttributeView) -> DocumentView {
        let d = self.with_bytes(bytes_of(a.data));
        DocumentView {
            accessors: d.accessors.push(
                AccessorView {
                    buffer_view: self.buffer_views.len() as usize,
                    component_type: a.component_type,
                    count: a.count,
                    kind: kind_of(a.item_size),
                    bounds: Some(bounds_of(a)),
                    normalized: a.normalized,
                },
            ),
            ..d
        }
    }

    /// The document in which an accessor's bytes have a purpose.
    pub open spec fn with_target(self, accessor: int, target: u32) -> DocumentView {
        let at = self.accessors[accessor].buffer_view as int;
        DocumentView {
            buffer_views: self.buffer_views.update(
                at,
                BufferView { target: Some(target), ..self.buffer_views[at] },
            ),
            ..self
        }
    }

    /// The document with one more attribute, whose bytes have a purpose.
    pub open spec fn with_vertex_accessor(self, a: AttributeView, target: u32) -> DocumentView {
        self.with_accessor(a).with_target(self.accessors.len() as int, target)
    }

    /// The document with one more list of matrices.
    pub open spec fn with_matrices(self, matrices: Seq<u32>) -> DocumentView {
        let d = self.with_bytes(bytes32(matrices));
        DocumentView {
            accessors: d.accessors.push(
                AccessorView {
                    buffer_view: self.buffer_views.len() as usize,
                    component_type: 5126,
                    count: (matrices.len() / 16) as usize,
                    kind: AccessorKind::Mat4,
                    bounds: None,
                    normalized: false,
                },
            ),
            ..d
        }
    }

    /// The document with one more image.
    pub open spec fn with_image(self, bytes: Seq<u8>, mime: Mime) -> DocumentView {
        let d = self.with_bytes(bytes);
        DocumentView {
            images: d.images.push(Image { buffer_view: self.buffer_views.len() as usize, mime }),
            ..d
        }
    }

    /// The document with one more sampler.
    pub open spec fn with_sampler(self, settings: SamplerSettings) -> DocumentView {
        DocumentView { samplers: self.samplers.push(settings), ..self }
    }

    /// The document with one more texture.
    pub open spec fn with_texture(self, image: usize, sampler: usize) -> DocumentView {
        DocumentView { textures: self.textures.push(Texture { source: image, sampler }), ..self }
    }

    /// The document with one more material.
    pub open spec fn with_material(self, material: MaterialView) -> DocumentView {
        DocumentView { materials: self.materials.push(material), ..self }
    }

    /// The document with one more mesh.
    pub open spec fn with_mesh(self, mesh: MeshView) -> DocumentView {
        DocumentView { meshes: self.meshes.push(mesh), ..self }
    }

    /// The document with one more skin.
    pub open spec fn with_skin(self, skin: SkinView) -> DocumentView {
        DocumentView { skins: self.skins.push(skin), ..self }
    }

    /// The document with one more node at the top of its scene.
    pub open spec fn with_root(self, node: NodeView) -> DocumentView {
        DocumentView {
            nodes: self.nodes.push(node),
            roots: self.roots.push(self.nodes.len() as usize),
            ..self
        }
    }

    /// The document with one more animation.
    pub open spec fn with_animation(self, animation: AnimationView) -> DocumentView {
        DocumentView { animations: self.animations.push(animation), ..self }
    }

    /// Whether all binary data lies within the binary chunk, on multiples of four, each range
    /// behind those before it.
    pub open spec fn ranges_ok(self) -> bool {
        &&& self.bin.len() % 4 == 0
        &&& forall|i: int|
            0 <= i < self.buffer_views.len() ==> {
                let b = #[trigger] self.buffer_views[i];
                b.offset % 4 == 0 && b.offset + b.length <= self.bin.len()
            }
        &&& forall|i: int, j: int|
            0 <= i < j < self.buffer_views.len() ==> (#[trigger] self.buffer_views[i]).offset
                + self.buffer_views[i].length <= (#[trigger] self.buffer_views[j]).offset
    }

    /// Whether accessors and images name ranges that exist.
    pub open spec fn data_ok(self) -> bool {
        &&& forall|i: int|
            0 <= i < self.accessors.len() ==> (#[trigger] self.accessors[i]).buffer_view
                < self.buffer_views.len()
        &&& forall|i: int|
            0 <= i < self.images.len() ==> (#[trigger] self.images[i]).buffer_view
                < self.buffer_views.len()
    }

    /// Whether textures name images and samplers that exist.
    pub open spec fn textures_ok(self) -> bool {
        forall|i: int|
            0 <= i < self.textures.len() ==> (#[trigger] self.textures[i]).source
                < self.images.len() && self.textures[i].sampler < self.samplers.len()
    }

    /// Whether materials name textures that exist.
    pub open spec fn materials_ok(self) -> bool {
        forall|i: int|
            0 <= i < self.materials.len() ==> material_ok(
                #[trigger] self.materials[i],
                self.textures.len() as int,
            )
    }

    /// Whether meshes name accessors and materials that exist.
    pub open spec fn meshes_ok(self) -> bool {
        forall|i: int|
            0 <= i < self.meshes.len() ==> mesh_ok(
                #[trigger] self.meshes[i],
                self.accessors.len() as int,
                self.materials.len() as int,
            )
    }

    /// Whether skins and nodes name what exists, and nodes form trees under the roots.
    pub open spec fn nodes_ok(self) -> bool {
        &&& forall|i: int|
            0 <= i < self.skins.len() ==> skin_ok(
                #[trigger] self.skins[i],
                self.accessors,
                self.nodes.len() as int,
            )
        &&& forall|i: int|
            0 <= i < self.nodes.len() ==> node_ok(
                #[trigger] self.nodes[i],
                self.nodes.len() as int,
                self.meshes.len() as int,
                self.skins.len() as int,
            )
        &&& is_forest(self.nodes)
        &&& forall|i: int|
            0 <= i < self.roots.len() ==> #[trigger] self.roots[i] < self.nodes.len()
                && unclaimed(self.nodes, self.roots[i] as int)
    }

    /// Whether animations name accessors and nodes that exist.
    pub open spec fn animations_ok(self) -> bool {
        forall|i: int|
            0 <= i < self.animations.len() ==> channels_ok(
                (#[trigger] self.animations[i]).channels,
                self.accessors.len() as int,
                self.nodes.len() as int,
            )
    }

    /// Whether every reference in the document is to something that exists.
    pub open spec fn wf(self) -> bool {
        &&& self.ranges_ok()
        &&& self.data_ok()
        &&& self.textures_ok()
        &&& self.materials_ok()
        &&& self.meshes_ok()
        &&& self.nodes_ok()
        &&& self.animations_ok()
    }
}

/// Whether a list starts with another one.
pub open spec fn starts<T>(first: Seq<T>, all: Seq<T>) -> bool {
    first.len() <= all.len() && forall|i: int|
        0 <= i < first.len() ==> #[trigger] all[i] == first[i]
}

/// Whether `e` holds everything that `d` does, at the same places, and perhaps more behind it. Only
/// what ranges of bytes are for may differ.
#[verifier::opaque]
pub open spec fn only_appended(d: DocumentView, e: DocumentView) -> bool {
    &&& starts(d.bin, e.bin)
    &&& d.buffer_views.len() <= e.buffer_views.len()
    &&& forall|i: int|
        0 <= i < d.buffer_views.len() ==> (#[trigger] e.buffer_views[i]).offset
            == d.buffer_views[i].offset && e.buffer_views[i].length == d.buffer_views[i].length
    &&& starts(d.accessors, e.accessors)
    &&& starts(d.images, e.images)
    &&& starts(d.samplers, e.samplers)
    &&& starts(d.textures, e.textures)
    &&& starts(d.materials, e.materials)
    &&& starts(d.meshes, e.meshes)
    &&& starts(d.skins, e.skins)
    &&& starts(d.nodes, e.nodes)
    &&& starts(d.roots, e.roots)
    &&& starts(d.animations, e.animations)
}

/// Appending to what was appended to is appending, and so is doing nothing.
pub proof fn lemma_appending_joins(c: DocumentView, d: DocumentView, e: DocumentView)
    ensures
        only_appended(c, c),
        only_appended(c, d) && only_appended(d, e) ==> only_appended(c, e),
{
    reveal(only_appended);
}

/// New bytes stand behind what there is.
proof fn lemma_bytes_append(d: DocumentView, bytes: Seq<u8>)
    ensures
        only_appended(d, d.with_bytes(bytes)),
{
    reveal(only_appended);
    law_padded_append(d.bin, bytes);
    let e = d.with_bytes(bytes);
    assert forall|i: int| 0 <= i < d.bin.len() implies #[trigger] e.bin[i] == d.bin[i] by {
        assert(e.bin.take(d.bin.len() as int)[i] == e.bin[i]);
    }
}

/// The bytes of a range.
pub open spec fn stored_range(d: DocumentView, view: int) -> Seq<u8> {
    d.bin.subrange(
        d.buffer_views[view].offset as int,
        d.buffer_views[view].offset + d.buffer_views[view].length,
    )
}

/// Ranges of bytes do not overlap: each ends before the next begins, within the binary chunk.
pub proof fn law_ranges_do_not_overlap(d: DocumentView, i: int, j: int)
    requires
        d.wf(),
        0 <= i < j < d.buffer_views.len(),
    ensures
        d.buffer_views[i].offset + d.buffer_views[i].length <= d.buffer_views[j].offset,
        d.buffer_views[j].offset + d.buffer_views[j].length <= d.bin.len(),
{
}

/// Every skin has joints, and as many inverse bind matrices as joints.
pub proof fn law_skins_have_a_matrix_per_joint(d: DocumentView, skin: int)
    requires
        d.wf(),
        0 <= skin < d.skins.len(),
    ensures
        d.skins[skin].joints.len() > 0,
        d.accessors[d.skins[skin].inverse_bind as int].kind == AccessorKind::Mat4,
        d.accessors[d.skins[skin].inverse_bind as int].count == d.skins[skin].joints.len(),
{
    assert(skin_ok(d.skins[skin], d.accessors, d.nodes.len() as int));
}

/// A node with a mesh has a skin or a place of its own, and not both.
pub proof fn law_meshes_are_placed_once(d: DocumentView, node: int)
    requires
        d.wf(),
        0 <= node < d.nodes.len(),
        d.nodes[node].mesh is Some,
    ensures
        d.nodes[node].skin is Some <==> d.nodes[node].placement == PlacementView::Unplaced,
{
    assert(node_ok(
        d.nodes[node],
        d.nodes.len() as int,
        d.meshes.len() as int,
        d.skins.len() as int,
    ));
}

/// The bytes that an accessor names.
pub open spec fn accessor_bytes(d: DocumentView, accessor: int) -> Seq<u8> {
    stored_range(d, d.accessors[accessor].buffer_view as int)
}

/// The bytes of an image.
pub open spec fn image_bytes(d: DocumentView, image: int) -> Seq<u8> {
    stored_range(d, d.images[image].buffer_view as int)
}

/// What a range of bytes holds stays as it is while things are appended.
pub proof fn law_stored_bytes_stay(d: DocumentView, e: DocumentView, view: int)
    requires
        d.wf(),
        only_appended(d, e),
        0 <= view < d.buffer_views.len(),
    ensures
        view < e.buffer_views.len(),
        stored_range(e, view) == stored_range(d, view),
{
    reveal(only_appended);
    let b = d.buffer_views[view];
    assert(e.buffer_views[view].offset == b.offset && e.buffer_views[view].length == b.length);
    assert(b.offset + b.length <= d.bin.len());
    assert(stored_range(e, view) =~= stored_range(d, view));
}

/// What an accessor names stays as it is while things are appended.
pub proof fn law_accessor_bytes_stay(d: DocumentView, e: DocumentView, accessor: int)
    requires
        d.wf(),
        only_appended(d, e),
        0 <= accessor < d.accessors.len(),
    ensures
        accessor < e.accessors.len(),
        accessor_bytes(e, accessor) == accessor_bytes(d, accessor),
{
    reveal(only_appended);
    assert(e.accessors[accessor] == d.accessors[accessor]);
    law_stored_bytes_stay(d, e, d.accessors[accessor].buffer_view as int);
}

/// An image stays as it is while things are appended.
pub proof fn law_image_bytes_stay(d: DocumentView, e: DocumentView, image: int)
    requires
        d.wf(),
        only_appended(d, e),
        0 <= image < d.images.len(),
    ensures
        image < e.images.len(),
        image_bytes(e, image) == image_bytes(d, image),
{
    reveal(only_appended);
    assert(e.images[image] == d.images[image]);
    law_stored_bytes_stay(d, e, d.images[image].buffer_view as int);
}

/// Whether a texture reference is absent or in range.
pub open spec fn info_ok(info: Option<TextureInfo>, textures: int) -> bool {
    info matches Some(i) ==> i.index < textures
}

/// Whether a material's texture references are in range.
pub open spec fn material_ok(m: MaterialView, textures: int) -> bool {
    &&& info_ok(m.base_color_texture, textures)
    &&& info_ok(m.metallic_roughness_texture, textures)
    &&& info_ok(m.emissive_texture, textures)
    &&& info_ok(m.occlusion_texture, textures)
    &&& info_ok(m.normal_texture, textures)
}

/// Whether named accessors are in range.
pub open spec fn named_ok(list: Seq<(Seq<char>, usize)>, accessors: int) -> bool {
    forall|i: int| 0 <= i < list.len() ==> (#[trigger] list[i]).1 < accessors
}

/// Whether a mesh's references are in range.
pub open spec fn mesh_ok(m: MeshView, accessors: int, materials: int) -> bool {
    &&& named_ok(m.attributes, accessors)
    &&& m.indices < accessors
    &&& m.material < materials
    &&& forall|i: int|
        0 <= i < m.targets.len() ==> named_ok((#[trigger] m.targets[i]).attributes, accessors)
}

/// Whether a skin has joints, its references are in range, and it has a matrix for each joint.
pub open spec fn skin_ok(s: SkinView, accessors: Seq<AccessorView>, nodes: int) -> bool {
    &&& s.joints.len() > 0
    &&& s.inverse_bind < accessors.len()
    &&& accessors[s.inverse_bind as int].kind == AccessorKind::Mat4
    &&& accessors[s.inverse_bind as int].count == s.joints.len()
    &&& forall|i: int| 0 <= i < s.joints.len() ==> #[trigger] s.joints[i] < nodes
}

/// Whether a node's references are in range, and a mesh is placed either by its skin or by the node
/// itself.
pub open spec fn node_ok(n: NodeView, nodes: int, meshes: int, skins: int) -> bool {
    &&& forall|i: int| 0 <= i < n.children.len() ==> #[trigger] n.children[i] < nodes
    &&& n.mesh matches Some(m) ==> m < meshes
    &&& n.skin matches Some(s) ==> s < skins
    &&& n.mesh is Some ==> (n.skin is Some <==> n.placement == PlacementView::Unplaced)
}

/// Whether node `p` has a child number `i`.
pub open spec fn has_child(nodes: Seq<NodeView>, p: int, i: int) -> bool {
    0 <= p < nodes.len() && 0 <= i < nodes[p].children.len()
}

/// Child number `i` of node `p`.
pub open spec fn child(nodes: Seq<NodeView>, p: int, i: int) -> int {
    nodes[p].children[i] as int
}

/// Whether a node is nobody's child.
pub open spec fn unclaimed(nodes: Seq<NodeView>, k: int) -> bool {
    forall|p: int, i: int| #[trigger] has_child(nodes, p, i) ==> child(nodes, p, i) != k
}

/// Whether nodes form trees: a child exists and has one parent, and it stands behind its parent
/// unless the parent is nobody's child, so that there are no cycles.
pub open spec fn is_forest(nodes: Seq<NodeView>) -> bool {
    &&& forall|p: int, i: int| #[trigger]
        has_child(nodes, p, i) ==> child(nodes, p, i) < nodes.len() && (child(nodes, p, i) > p
            || unclaimed(nodes, p))
    &&& forall|p: int, i: int, q: int, j: int| #[trigger]
        has_child(nodes, p, i) && #[trigger] has_child(nodes, q, j) && child(nodes, p, i) == child(
            nodes,
            q,
            j,
        ) ==> p == q && i == j
}

/// Whether the references of channels are in range.
pub open spec fn channels_ok(list: Seq<Channel>, accessors: int, nodes: int) -> bool {
    forall|i: int|
        0 <= i < list.len() ==> {
            let c = #[trigger] list[i];
            c.input < accessors && c.output < accessors && c.node < nodes
        }
}

impl Document {
    /// An empty document.
    pub fn new() -> (r: Document)
        ensures
            r@ == (DocumentView {
                bin: Seq::empty(),
                buffer_views: Seq::empty(),
                accessors: Seq::empty(),
                images: Seq::empty(),
                samplers: Seq::empty(),
                textures: Seq::empty(),
                materials: Seq::empty(),
                meshes: Seq::empty(),
                skins: Seq::empty(),
                nodes: Seq::empty(),
                roots: Seq::empty(),
                animations: Seq::empty(),
            }),
            r@.wf(),
    {
        let r = Document {
            bin: Vec::new(),
            buffer_views: Vec::new(),
            accessors: Vec::new(),
            images: Vec::new(),
            samplers: Vec::new(),
            textures: Vec::new(),
            materials: Vec::new(),
            meshes: Vec::new(),
            skins: Vec::new(),
            nodes: Vec::new(),
            roots: Vec::new(),
            animations: Vec::new(),
        };
        assert(r@ =~= (DocumentView {
            bin: Seq::empty(),
            buffer_views: Seq::empty(),
            accessors: Seq::empty(),
            images: Seq::empty(),
            samplers: Seq::empty(),
            textures: Seq::empty(),
            materials: Seq::empty(),
            meshes: Seq::empty(),
            skins: Seq::empty(),
            nodes: Seq::empty(),
            roots: Seq::empty(),
            animations: Seq::empty(),
        }));
        r
    }

    /// Adds a range of bytes.
    fn add_bytes(&mut self, bytes: &[u8]) -> (r: usize)
        ensures
            final(self)@ == old(self)@.with_bytes(bytes@),
            only_appended(old(self)@, final(self)@),
            r == old(self)@.buffer_views.len(),
            old(self)@.wf() ==> final(self)@.wf() && stored_range(final(self)@, r as int) == bytes@,
    {
        let index: usize = self.buffer_views.len();
        let (offset, length) = push_padded(&mut self.bin, bytes);
        let total: usize = self.bin.len();
        proof {
            if old(self)@.wf() {
                law_bytes_keep_document(old(self)@, bytes@);
            }
        }
        self.buffer_views.push(BufferView { offset, length, target: None });
        proof {
            lemma_bytes_append(old(self)@, bytes@);
            assert(self@ =~= old(self)@.with_bytes(bytes@));
        }
        index
    }

    /// Adds an attribute.
    pub fn add_accessor(&mut self, attr: &Attribute) -> (r: usize)
        ensures
            final(self)@ == old(self)@.with_accessor(attr@),
            only_appended(old(self)@, final(self)@),
            r == old(self)@.accessors.len(),
            final(self)@.accessors[r as int].buffer_view < final(self)@.buffer_views.len(),
            old(self)@.wf() ==> final(self)@.wf() && accessor_bytes(final(self)@, r as int)
                == bytes_of(attr@.data),
    {
        let bytes = bytes_for_attr(attr);
        let buffer_view: usize = self.add_bytes(bytes.as_slice());
        let kind = if attr.item_size == 2 {
            AccessorKind::Vec2
        } else if attr.item_size == 3 {
            AccessorKind::Vec3
        } else if attr.item_size == 4 {
            AccessorKind::Vec4
        } else {
            AccessorKind::Scalar
        };
        let index: usize = self.accessors.len();
        let accessor = Accessor {
            buffer_view,
            component_type: attr.component_type,
            count: attr.count,
            kind,
            bounds: Some(attribute_bounds(attr)),
            normalized: attr.normalized,
        };
        proof {
            lemma_views_push(self.accessors@, accessor);
            if self@.wf() {
                law_reader_keeps_document(self@, accessor@);
            }
        }
        let ghost d = self@;
        self.accessors.push(accessor);
        proof {
            assert(self@ =~= DocumentView { accessors: d.accessors.push(accessor@), ..d });
            assert(only_appended(d, self@)) by {
                reveal(only_appended);
            }
            lemma_appending_joins(old(self)@, d, self@);
        }
        index
    }

    /// Says what the bytes of an accessor are for, if there is such an accessor.
    pub fn set_accessor_target(&mut self, accessor: usize, target: u32)
        requires
            accessor < old(self)@.accessors.len() ==> (old(self)@.accessors[accessor as int].buffer_view
                < old(self)@.buffer_views.len()),
        ensures
            final(self)@ == if accessor < old(self)@.accessors.len() {
                old(self)@.with_target(accessor as int, target)
            } else {
                old(self)@
            },
            only_appended(old(self)@, final(self)@),
            old(self)@.wf() ==> final(self)@.wf(),
    {
        proof {
            lemma_appending_joins(self@, self@, self@);
        }
        if accessor >= self.accessors.len() {
            return;
        }
        proof {
            if self@.wf() {
                law_target_keeps_document(self@, accessor as int, target);
            }
        }
        assert(self@.accessors[accessor as int] == self.accessors@[accessor as int]@);
        let at: usize = self.accessors[accessor].buffer_view;
        let range = self.buffer_views[at];
        self.buffer_views.set(at, BufferView { target: Some(target), ..range });
        proof {
            reveal(only_appended);
            assert(self@ =~= old(self)@.with_target(accessor as int, target));
        }
    }

    /// Adds an attribute, and says what its bytes are for.
    pub fn add_vertex_accessor(&mut self, attr: &Attribute, target: u32) -> (r: usize)
        ensures
            final(self)@ == old(self)@.with_vertex_accessor(attr@, target),
            only_appended(old(self)@, final(self)@),
            r == old(self)@.accessors.len(),
            old(self)@.wf() ==> final(self)@.wf() && accessor_bytes(final(self)@, r as int)
                == bytes_of(attr@.data),
    {
        let index: usize = self.add_accessor(attr);
        let ghost d = self@;
        self.set_accessor_target(index, target);
        proof {
            lemma_appending_joins(old(self)@, d, self@);
            if d.wf() {
                law_accessor_bytes_stay(d, self@, index as int);
            }
        }
        index
    }

    /// Adds a list of matrices.
    pub fn add_mat4_accessor(&mut self, matrices: &[u32]) -> (r: usize)
        ensures
            final(self)@ == old(self)@.with_matrices(matrices@),
            only_appended(old(self)@, final(self)@),
            r == old(self)@.accessors.len(),
            old(self)@.wf() ==> final(self)@.wf() && accessor_bytes(final(self)@, r as int)
                == bytes32(matrices@),
    {
        let bytes = words_to_bytes(matrices);
        let buffer_view: usize = self.add_bytes(bytes.as_slice());
        let index: usize = self.accessors.len();
        let accessor = Accessor {
            buffer_view,
            component_type: 5126,
            count: matrices.len() / 16,
            kind: AccessorKind::Mat4,
            bounds: None,
            normalized: false,
        };
        proof {
            lemma_views_push(self.accessors@, accessor);
            if self@.wf() {
                law_reader_keeps_document(self@, accessor@);
            }
        }
        let ghost d = self@;
        self.accessors.push(accessor);
        proof {
            assert(self@ =~= DocumentView { accessors: d.accessors.push(accessor@), ..d });
            assert(only_appended(d, self@)) by {
                reveal(only_appended);
            }
            lemma_appending_joins(old(self)@, d, self@);
        }
        index
    }

    /// Adds an image.
    pub fn add_image_bytes(&mut self, bytes: &[u8], mime: Mime) -> (r: usize)
        ensures
            final(self)@ == old(self)@.with_image(bytes@, mime),
            only_appended(old(self)@, final(self)@),
            r == old(self)@.images.len(),
            old(self)@.wf() ==> final(self)@.wf() && image_bytes(final(self)@, r as int) == bytes@,
    {
        let buffer_view: usize = self.add_bytes(bytes);
        let index: usize = self.images.len();
        let ghost d = self@;
        self.images.push(Image { buffer_view, mime });
        proof {
            assert(self@ =~= DocumentView { images: d.images.push(Image { buffer_view, mime }), ..d });
            assert(only_appended(d, self@)) by {
                reveal(only_appended);
            }
            lemma_appending_joins(old(self)@, d, self@);
        }
        index
    }

    /// Adds a sampler.
    pub fn add_sampler(&mut self, settings: SamplerSettings) -> (r: usize)
        ensures
            final(self)@ == old(self)@.with_sampler(settings),
            only_appended(old(self)@, final(self)@),
            r == old(self)@.samplers.len(),
            old(self)@.wf() ==> final(self)@.wf(),
    {
        let index: usize = self.samplers.len();
        let ghost d = self@;
        self.samplers.push(settings);
        assert(self@ =~= d.with_sampler(settings));
        reveal(only_appended);
        index
    }

    /// Adds a texture.
    pub fn add_texture(&mut self, image: usize, sampler: usize) -> (r: usize)
        ensures
            final(self)@ == old(self)@.with_texture(image, sampler),
            only_appended(old(self)@, final(self)@),
            r == old(self)@.textures.len(),
            old(self)@.wf() && image < old(self)@.images.len() && sampler
                < old(self)@.samplers.len() ==> final(self)@.wf(),
    {
        let index: usize = self.textures.len();
        let ghost d = self@;
        self.textures.push(Texture { source: image, sampler });
        assert(self@ =~= d.with_texture(image, sampler));
        reveal(only_appended);
        index
    }

    /// Adds a material.
    pub fn add_material(&mut self, material: Material) -> (r: usize)
        ensures
            final(self)@ == old(self)@.with_material(material@),
            only_appended(old(self)@, final(self)@),
            r == old(self)@.materials.len(),
            old(self)@.wf() && material_ok(material@, old(self)@.textures.len() as int)
                ==> final(self)@.wf(),
    {
        let index: usize = self.materials.len();
        proof {
            lemma_views_push(self.materials@, material);
        }
        let ghost d = self@;
        self.materials.push(material);
        assert(self@ =~= d.with_material(material@));
        reveal(only_appended);
        index
    }

    /// Adds a mesh.
    pub fn add_mesh(&mut self, mesh: Mesh) -> (r: usize)
        ensures
            final(self)@ == old(self)@.with_mesh(mesh@),
            only_appended(old(self)@, final(self)@),
            r == old(self)@.meshes.len(),
            old(self)@.wf() && mesh_ok(
                mesh@,
                old(self)@.accessors.len() as int,
                old(self)@.materials.len() as int,
            ) ==> final(self)@.wf(),
    {
        let index: usize = self.meshes.len();
        proof {
            lemma_views_push(self.meshes@, mesh);
        }
        let ghost d = self@;
        self.meshes.push(mesh);
        assert(self@ =~= d.with_mesh(mesh@));
        reveal(only_appended);
        index
    }

    /// Adds a skin.
    pub fn add_skin(&mut self, skin: Skin) -> (r: usize)
        ensures
            final(self)@ == old(self)@.with_skin(skin@),
            only_appended(old(self)@, final(self)@),
            r == old(self)@.skins.len(),
            old(self)@.wf() && skin_ok(
                skin@,
                old(self)@.accessors,
                old(self)@.nodes.len() as int,
            ) ==> final(self)@.wf(),
    {
        let index: usize = self.skins.len();
        proof {
            lemma_views_push(self.skins@, skin);
        }
        let ghost d = self@;
        self.skins.push(skin);
        assert(self@ =~= d.with_skin(skin@));
        reveal(only_appended);
        index
    }

    /// Adds a node at the top of the scene.
    pub fn add_root(&mut self, node: Node) -> (r: usize)
        ensures
            final(self)@ == old(self)@.with_root(node@),
            only_appended(old(self)@, final(self)@),
            r == old(self)@.nodes.len(),
            old(self)@.wf() && node_ok(
                node@,
                old(self)@.nodes.len() as int,
                old(self)@.meshes.len() as int,
                old(self)@.skins.len() as int,
            ) && node@.children.len() == 0 ==> final(self)@.wf(),
    {
        let index: usize = self.nodes.len();
        proof {
            lemma_views_push(self.nodes@, node);
        }
        let ghost d = self@;
        self.nodes.push(node);
        self.roots.push(index);
        proof {
            assert(self@ =~= d.with_root(node@));
            reveal(only_appended);
            if d.wf() && node@.children.len() == 0 {
                lemma_leaf_keeps_forest(d.nodes, node@);
            }
        }
        index
    }

    /// Adds an animation.
    pub fn add_animation(&mut self, animation: Animation)
        ensures
            final(self)@ == old(self)@.with_animation(animation@),
            only_appended(old(self)@, final(self)@),
            old(self)@.wf() && channels_ok(
                animation@.channels,
                old(self)@.accessors.len() as int,
                old(self)@.nodes.len() as int,
            ) ==> final(self)@.wf(),
    {
        proof {
            lemma_views_push(self.animations@, animation);
        }
        let ghost d = self@;
        self.animations.push(animation);
        proof {
            assert(self@ =~= d.with_animation(animation@));
            reveal(only_appended);
            if d.wf() && channels_ok(
                animation@.channels,
                d.accessors.len() as int,
                d.nodes.len() as int,
            ) {
                law_animation_keeps_document(d, animation@);
            }
        }
    }
}

/// A node without children keeps the trees as they are.
pub proof fn lemma_leaf_keeps_forest(nodes: Seq<NodeView>, node: NodeView)
    requires
        is_forest(nodes),
        node.children.len() == 0,
    ensures
        is_forest(nodes.push(node)),
        unclaimed(nodes.push(node), nodes.len() as int),
        forall|k: int| unclaimed(nodes, k) ==> #[trigger] unclaimed(nodes.push(node), k),
{
    let after = nodes.push(node);
    assert forall|p: int, i: int| #[trigger] has_child(after, p, i) implies has_child(nodes, p, i)
        && child(after, p, i) == child(nodes, p, i) by {}
    assert forall|k: int| unclaimed(nodes, k) implies #[trigger] unclaimed(after, k) by {
        assert forall|p: int, i: int| #[trigger] has_child(after, p, i) implies child(after, p, i)
            != k by {
            assert(has_child(nodes, p, i));
        }
    }
    assert forall|p: int, i: int| #[trigger] has_child(after, p, i) implies child(after, p, i)
        < nodes.len() && (child(after, p, i) > p || unclaimed(after, p)) by {
        assert(has_child(nodes, p, i));
    }
    assert forall|p: int, i: int, q: int, j: int| #[trigger]
        has_child(after, p, i) && #[trigger] has_child(after, q, j) && child(after, p, i) == child(
            after,
            q,
            j,
        ) implies p == q && i == j by {
        assert(has_child(nodes, p, i) && has_child(nodes, q, j));
    }
}

/// Adding an animation keeps every reference, if its own are to what exists.
pub proof fn law_animation_keeps_document(d: DocumentView, animation: AnimationView)
    requires
        d.wf(),
        channels_ok(animation.channels, d.accessors.len() as int, d.nodes.len() as int),
    ensures
        d.with_animation(animation).wf(),
{
    let e = d.with_animation(animation);
    assert forall|i: int| 0 <= i < e.animations.len() implies channels_ok(
        (#[trigger] e.animations[i]).channels,
        e.accessors.len() as int,
        e.nodes.len() as int,
    ) by {
        if i < d.animations.len() {
            assert(e.animations[i] == d.animations[i]);
        }
    }
}

/// Adding bytes keeps every reference, and the new range holds exactly the bytes.
pub proof fn law_bytes_keep_document(d: DocumentView, bytes: Seq<u8>)
    requires
        d.wf(),
        padded(d.bin + bytes).len() <= usize::MAX,
    ensures
        d.with_bytes(bytes).wf(),
        d.with_bytes(bytes).bin.subrange(
            d.with_bytes(bytes).buffer_views.last().offset as int,
            d.with_bytes(bytes).buffer_views.last().offset
                + d.with_bytes(bytes).buffer_views.last().length,
        ) == bytes,
        forall|i: int|
            0 <= i < d.buffer_views.len() ==> #[trigger] d.with_bytes(bytes).buffer_views[i]
                == d.buffer_views[i],
        d.with_bytes(bytes).bin.take(d.bin.len() as int) == d.bin,
{
    law_padded_append(d.bin, bytes);
}

/// A mesh that names what exists still does once there is more.
proof fn lemma_mesh_ok_grows(m: MeshView, accessors: int, materials: int, more: int, others: int)
    requires
        mesh_ok(m, accessors, materials),
        accessors <= more,
        materials <= others,
    ensures
        mesh_ok(m, more, others),
{
    assert forall|t: int| 0 <= t < m.targets.len() implies named_ok(
        (#[trigger] m.targets[t]).attributes,
        more,
    ) by {
        assert(named_ok(m.targets[t].attributes, accessors));
    }
}

/// Adding an accessor keeps every reference, if its own is to a range that exists.
pub proof fn law_reader_keeps_document(d: DocumentView, a: AccessorView)
    requires
        d.wf(),
        a.buffer_view < d.buffer_views.len(),
    ensures
        (DocumentView { accessors: d.accessors.push(a), ..d }).wf(),
{
    let e = DocumentView { accessors: d.accessors.push(a), ..d };
    assert forall|i: int| 0 <= i < e.meshes.len() implies mesh_ok(
        #[trigger] e.meshes[i],
        e.accessors.len() as int,
        e.materials.len() as int,
    ) by {
        lemma_mesh_ok_grows(
            d.meshes[i],
            d.accessors.len() as int,
            d.materials.len() as int,
            e.accessors.len() as int,
            e.materials.len() as int,
        );
    }
    assert forall|i: int| 0 <= i < e.animations.len() implies channels_ok(
        (#[trigger] e.animations[i]).channels,
        e.accessors.len() as int,
        e.nodes.len() as int,
    ) by {
        assert(channels_ok(
            d.animations[i].channels,
            d.accessors.len() as int,
            d.nodes.len() as int,
        ));
    }
    assert forall|i: int| 0 <= i < e.skins.len() implies skin_ok(
        #[trigger] e.skins[i],
        e.accessors,
        e.nodes.len() as int,
    ) by {
        assert(skin_ok(d.skins[i], d.accessors, d.nodes.len() as int));
    }
}

/// Saying what an accessor's bytes are for keeps every reference.
pub proof fn law_target_keeps_document(d: DocumentView, accessor: int, target: u32)
    requires
        d.wf(),
        0 <= accessor < d.accessors.len(),
    ensures
        d.with_target(accessor, target).wf(),
{
    let e = d.with_target(accessor, target);
    let at = d.accessors[accessor].buffer_view as int;
    assert forall|i: int| 0 <= i < e.buffer_views.len() implies {
        let b = #[trigger] e.buffer_views[i];
        b.offset % 4 == 0 && b.offset + b.length <= e.bin.len()
    } by {
        assert(d.buffer_views[i].offset % 4 == 0);
        assert(d.buffer_views[at].offset % 4 == 0);
    }
}

/// The text of a glTF file, padded with blanks to a multiple of four.
pub open spec fn padded_text(json: Seq<u8>) -> Seq<u8> {
    json + Seq::new(padding(json.len() as int) as nat, |i: int| 0x20u8)
}

/// The four bytes of a number.
pub open spec fn word(x: int) -> Seq<u8> {
    seq![byte_of(x, 0), byte_of(x, 1), byte_of(x, 2), byte_of(x, 3)]
}

/// A binary glTF file: a header, the chunk of text and the chunk of data.
#[verifier::opaque]
pub open spec fn glb_of(json: Seq<u8>, bin: Seq<u8>) -> Seq<u8> {
    let text = padded_text(json);
    let data = padded(bin);
    word(0x46546c67) + word(2) + word(28 + text.len() as int + data.len() as int) + word(text.len() as int)
        + word(0x4e4f534a) + text + word(data.len() as int) + word(0x004e4942) + data
}

/// Appends zeros or blanks up to a multiple of four.
fn pad_with(out: &mut Vec<u8>, filler: u8)
    ensures
        final(out)@ == old(out)@ + Seq::new(
            padding(old(out)@.len() as int) as nat,
            |i: int| filler,
        ),
{
    let ghost start = out@;
    let ghost mut added: nat = 0;
    while out.len() % 4 != 0
        invariant
            added <= padding(start.len() as int),
            out@ == start + Seq::new(added, |i: int| filler),
        decreases padding(start.len() as int) - added,
    {
        out.push(filler);
        proof {
            assert(out@ =~= start + Seq::new(added + 1, |i: int| filler));
            added = added + 1;
        }
    }
    assert(added == padding(start.len() as int));
}

/// Appends the four lowest bytes of a number.
fn push_word(out: &mut Vec<u8>, x: u64)
    ensures
        final(out)@ == old(out)@ + word(x as int),
{
    let ghost start = out@;
    push_u32(out, (x % 0x1_0000_0000) as u32);
    proof {
        lemma_word(x as int);
        assert(out@ =~= start + word(x as int));
    }
}

/// Frames the text and the data of a glTF document as one binary file. Lengths are written modulo
/// 2^32.
pub fn write_glb(json: &[u8], bin: &[u8]) -> (r: Vec<u8>)
    requires
        json@.len() + bin@.len() + 40 <= usize::MAX,
    ensures
        r@ == glb_of(json@, bin@),
{
    let mut text = vstd::slice::slice_to_vec(json);
    assert(text@ =~= json@);
    pad_with(&mut text, 0x20);
    let mut data = vstd::slice::slice_to_vec(bin);
    assert(data@ =~= bin@);
    pad_with(&mut data, 0);
    assert(text@ == padded_text(json@));
    assert(data@ == padded(bin@));
    let total: u64 = 28 + text.len() as u64 + data.len() as u64;
    let mut out: Vec<u8> = Vec::new();
    push_word(&mut out, 0x46546c67);
    assert(out@ =~= word(0x46546c67));
    push_word(&mut out, 2);
    push_word(&mut out, total);
    push_word(&mut out, text.len() as u64);
    push_word(&mut out, 0x4e4f534a);
    let ghost head = out@;
    out.extend_from_slice(text.as_slice());
    assert(out@ =~= head + text@);
    push_word(&mut out, data.len() as u64);
    push_word(&mut out, 0x004e4942);
    let ghost middle = out@;
    out.extend_from_slice(data.as_slice());
    assert(out@ =~= middle + data@);
    reveal(glb_of);
    out
}

/// Multiples of 256 * d do not change the byte above d.
proof fn lemma_digit(y: int, q: int, d: int)
    requires
        d > 0,
    ensures
        ((y + (256 * d) * q) / d) % 256 == (y / d) % 256,
{
    assert(y + (256 * d) * q == y + (256 * q) * d) by (nonlinear_arith);
    vstd::arithmetic::div_mod::lemma_hoist_over_denominator(y, 256 * q, d as nat);
    vstd::arithmetic::div_mod::lemma_mod_multiples_vanish(q, y / d, 256);
}

/// A byte below bit 32 does not change when multiples of 2^32 go.
proof fn lemma_byte_of_low(x: int, k: int)
    requires
        x >= 0,
        0 <= k < 4,
    ensures
        byte_of(x % 0x1_0000_0000, k) == byte_of(x, k),
{
    let y = x % 0x1_0000_0000;
    let q = x / 0x1_0000_0000;
    assert(x == y + 0x1_0000_0000 * q);
    if k == 0 {
        lemma_digit(y, 0x100_0000 * q, 1);
    } else if k == 1 {
        lemma_digit(y, 0x1_0000 * q, 0x100);
    } else if k == 2 {
        lemma_digit(y, 0x100 * q, 0x1_0000);
    } else {
        lemma_digit(y, q, 0x100_0000);
    }
}

/// Only the low 32 bits of a number are written.
proof fn lemma_word(x: int)
    requires
        x >= 0,
    ensures
        word(x % 0x1_0000_0000) == word(x),
{
    lemma_byte_of_low(x, 0);
    lemma_byte_of_low(x, 1);
    lemma_byte_of_low(x, 2);
    lemma_byte_of_low(x, 3);
    assert(word(x % 0x1_0000_0000) =~= word(x));
}

/// A number below 2^32 reads back from its four bytes.
proof fn lemma_word_reads_back(x: int, file: Seq<u8>, at: int)
    requires
        0 <= x < 0x1_0000_0000,
        0 <= at,
        at + 4 <= file.len(),
        file.subrange(at, at + 4) == word(x),
    ensures
        le32(file, at) == x,
{
    let w = word(x);
    assert(file[at] == w[0]) by {
        assert(file.subrange(at, at + 4)[0] == w[0]);
    }
    assert(file[at + 1] == w[1]) by {
        assert(file.subrange(at, at + 4)[1] == w[1]);
    }
    assert(file[at + 2] == w[2]) by {
        assert(file.subrange(at, at + 4)[2] == w[2]);
    }
    assert(file[at + 3] == w[3]) by {
        assert(file.subrange(at, at + 4)[3] == w[3]);
    }
    lemma_sum_of_bytes(x as u32);
}

/// Five words, each in its place.
proof fn lemma_five_parts(a: Seq<u8>, b: Seq<u8>, c: Seq<u8>, d: Seq<u8>, e: Seq<u8>)
    requires
        a.len() == 4,
        b.len() == 4,
        c.len() == 4,
        d.len() == 4,
        e.len() == 4,
    ensures
        (a + b + c + d + e).len() == 20,
        (a + b + c + d + e).subrange(0, 4) == a,
        (a + b + c + d + e).subrange(4, 8) == b,
        (a + b + c + d + e).subrange(8, 12) == c,
        (a + b + c + d + e).subrange(12, 16) == d,
        (a + b + c + d + e).subrange(16, 20) == e,
{
    let s = a + b + c + d + e;
    assert(s.subrange(0, 4) =~= a);
    assert(s.subrange(4, 8) =~= b);
    assert(s.subrange(8, 12) =~= c);
    assert(s.subrange(12, 16) =~= d);
    assert(s.subrange(16, 20) =~= e);
}

/// Two words and what follows, each in its place.
proof fn lemma_three_parts(a: Seq<u8>, b: Seq<u8>, c: Seq<u8>)
    requires
        a.len() == 4,
        b.len() == 4,
    ensures
        (a + b + c).len() == 8 + c.len(),
        (a + b + c).subrange(0, 4) == a,
        (a + b + c).subrange(4, 8) == b,
        (a + b + c).subrange(8, 8 + c.len() as int) == c,
{
    let s = a + b + c;
    assert(s.subrange(0, 4) =~= a);
    assert(s.subrange(4, 8) =~= b);
    assert(s.subrange(8, 8 + c.len() as int) =~= c);
}

/// The parts of a binary glTF file, each in its place.
#[verifier::rlimit(60)]
proof fn lemma_glb_parts(json: Seq<u8>, bin: Seq<u8>)
    ensures
        ({
            let file = glb_of(json, bin);
            let text = padded_text(json);
            let data = padded(bin);
            let n = text.len() as int;
            let m = data.len() as int;
            &&& file.len() == 28 + n + m
            &&& file.subrange(0, 4) == word(0x46546c67)
            &&& file.subrange(4, 8) == word(2)
            &&& file.subrange(8, 12) == word(28 + n + m)
            &&& file.subrange(12, 16) == word(n)
            &&& file.subrange(16, 20) == word(0x4e4f534a)
            &&& file.subrange(20, 20 + n) == text
            &&& file.subrange(20 + n, 24 + n) == word(m)
            &&& file.subrange(24 + n, 28 + n) == word(0x004e4942)
            &&& file.subrange(28 + n, 28 + n + m) == data
        }),
{
    let text = padded_text(json);
    let data = padded(bin);
    let file = glb_of(json, bin);
    let n = text.len() as int;
    let m = data.len() as int;
    let a = word(0x46546c67);
    let b = word(2);
    let c = word(28 + n + m);
    let d = word(n);
    let e = word(0x4e4f534a);
    let f = word(m);
    let g = word(0x004e4942);
    let head = a + b + c + d + e;
    let tail = f + g + data;
    reveal(glb_of);
    assert(file =~= head + text + tail);
    lemma_five_parts(a, b, c, d, e);
    lemma_three_parts(f, g, data);
    lemma_head_part(head, text + tail, 0, 4);
    lemma_head_part(head, text + tail, 4, 8);
    lemma_head_part(head, text + tail, 8, 12);
    lemma_head_part(head, text + tail, 12, 16);
    lemma_head_part(head, text + tail, 16, 20);
    assert(head + (text + tail) =~= file);
    assert(file.subrange(20, 20 + n) =~= text);
    lemma_tail_part(head + text, tail, 0, 4);
    lemma_tail_part(head + text, tail, 4, 8);
    lemma_tail_part(head + text, tail, 8, 8 + m);
}

/// Padding is short and brings a length to a multiple of four.
proof fn lemma_padding(len: int)
    requires
        0 <= len,
    ensures
        0 <= padding(len) < 4,
        (len + padding(len)) % 4 == 0,
{
}

/// The first part of a concatenation.
proof fn lemma_prefix(x: Seq<u8>, y: Seq<u8>)
    ensures
        (x + y).take(x.len() as int) == x,
{
    assert((x + y).take(x.len() as int) =~= x);
}

/// A range of the first part of a concatenation.
proof fn lemma_head_part(x: Seq<u8>, y: Seq<u8>, i: int, j: int)
    requires
        0 <= i <= j <= x.len(),
    ensures
        (x + y).subrange(i, j) == x.subrange(i, j),
{
    assert((x + y).subrange(i, j) =~= x.subrange(i, j));
}

/// A range of the second part of a concatenation.
proof fn lemma_tail_part(x: Seq<u8>, y: Seq<u8>, i: int, j: int)
    requires
        0 <= i <= j <= y.len(),
    ensures
        (x + y).subrange(x.len() + i, x.len() + j) == y.subrange(i, j),
{
    assert((x + y).subrange(x.len() + i, x.len() + j) =~= y.subrange(i, j));
}

/// A reader of the file finds what was written: the magic number, version 2, the true length of
/// the whole, and two chunks, each with its true length and type, whose contents are the text
/// followed by blanks and the data followed by zeros. Chunks start on multiples of four.
pub proof fn law_glb_reads_back(json: Seq<u8>, bin: Seq<u8>)
    requires
        glb_of(json, bin).len() < 0x1_0000_0000,
    ensures
        ({
            let file = glb_of(json, bin);
            let n = padded_text(json).len() as int;
            let m = padded(bin).len() as int;
            &&& file.len() == 28 + n + m
            &&& le32(file, 0) == 0x46546c67
            &&& le32(file, 4) == 2
            &&& le32(file, 8) == file.len()
            &&& le32(file, 12) == n
            &&& le32(file, 16) == 0x4e4f534a
            &&& le32(file, 20 + n) == m
            &&& le32(file, 24 + n) == 0x004e4942
            &&& file.subrange(20, 20 + n) == padded_text(json)
            &&& file.subrange(20, 20 + json.len() as int) == json
            &&& file.subrange(28 + n, 28 + n + m) == padded(bin)
            &&& file.subrange(28 + n, 28 + n + bin.len() as int) == bin
            &&& json.len() <= n < json.len() + 4
            &&& bin.len() <= m < bin.len() + 4
            &&& n % 4 == 0
            &&& m % 4 == 0
        }),
{
    let text = padded_text(json);
    let data = padded(bin);
    let file = glb_of(json, bin);
    let n = text.len() as int;
    let m = data.len() as int;
    lemma_glb_parts(json, bin);
    lemma_header_reads_back(file, n, m);
    lemma_padding(json.len() as int);
    lemma_padding(bin.len() as int);
    lemma_prefix(json, Seq::new(padding(json.len() as int) as nat, |i: int| 0x20u8));
    lemma_prefix(bin, Seq::new(padding(bin.len() as int) as nat, |i: int| 0u8));
    lemma_inner(file, 20, text, json);
    lemma_inner(file, 28 + n, data, bin);
}

/// The numbers of a binary glTF file read back.
proof fn lemma_header_reads_back(file: Seq<u8>, n: int, m: int)
    requires
        0 <= n,
        0 <= m,
        28 + n + m == file.len() < 0x1_0000_0000,
        file.subrange(0, 4) == word(0x46546c67),
        file.subrange(4, 8) == word(2),
        file.subrange(8, 12) == word(28 + n + m),
        file.subrange(12, 16) == word(n),
        file.subrange(16, 20) == word(0x4e4f534a),
        file.subrange(20 + n, 24 + n) == word(m),
        file.subrange(24 + n, 28 + n) == word(0x004e4942),
    ensures
        le32(file, 0) == 0x46546c67,
        le32(file, 4) == 2,
        le32(file, 8) == file.len(),
        le32(file, 12) == n,
        le32(file, 16) == 0x4e4f534a,
        le32(file, 20 + n) == m,
        le32(file, 24 + n) == 0x004e4942,
{
    assert(le32(file, 0) == 0x46546c67) by {
        lemma_word_reads_back(0x46546c67, file, 0);
    }
    assert(le32(file, 4) == 2) by {
        lemma_word_reads_back(2, file, 4);
    }
    assert(le32(file, 8) == file.len()) by {
        lemma_word_reads_back(28 + n + m, file, 8);
    }
    assert(le32(file, 12) == n) by {
        lemma_word_reads_back(n, file, 12);
    }
    assert(le32(file, 16) == 0x4e4f534a) by {
        lemma_word_reads_back(0x4e4f534a, file, 16);
    }
    assert(le32(file, 20 + n) == m) by {
        lemma_word_reads_back(m, file, 20 + n);
    }
    assert(le32(file, 24 + n) == 0x004e4942) by {
        lemma_word_reads_back(0x004e4942, file, 24 + n);
    }
}

/// What stands at the start of a range stands at that place.
proof fn lemma_inner(file: Seq<u8>, at: int, part: Seq<u8>, start: Seq<u8>)
    requires
        0 <= at,
        at + part.len() <= file.len(),
        file.subrange(at, at + part.len()) == part,
        start.len() <= part.len(),
        part.take(start.len() as int) == start,
    ensures
        file.subrange(at, at + start.len()) == start,
{
    assert forall|i: int| 0 <= i < start.len() implies file[at + i] == start[i] by {
        assert(file.subrange(at, at + part.len())[i] == part[i]);
        assert(part.take(start.len() as int)[i] == part[i]);
    }
    assert(file.subrange(at, at + start.len()) =~= start);
}

/// Numbers are stored with their lowest byte first.
pub proof fn law_numbers_are_stored_lowest_byte_first(words: Seq<u32>, halves: Seq<u16>, i: int)
    requires
        0 <= i,
    ensures
        bytes32(words).len() == 4 * words.len(),
        bytes16(halves).len() == 2 * halves.len(),
        i < words.len() ==> words[i] == bytes32(words)[4 * i] + 256 * bytes32(words)[4 * i + 1]
            + 65536 * bytes32(words)[4 * i + 2] + 16777216 * bytes32(words)[4 * i + 3],
        i < halves.len() ==> halves[i] == bytes16(halves)[2 * i] + 256 * bytes16(halves)[2 * i + 1],
{
}

/// How many bytes a component of a type takes: the numbers of OpenGL for bytes, shorts, and words.
pub open spec fn component_width(component_type: u32) -> int {
    if component_type == 5120 || component_type == 5121 {
        1
    } else if component_type == 5122 || component_type == 5123 {
        2
    } else {
        4
    }
}

/// How many bytes components take.
proof fn lemma_bytes_len(c: Components)
    ensures
        bytes_of(c).len() == match c {
            Components::U8(_) => c.len(),
            Components::U16(_) | Components::I16(_) => 2 * c.len(),
            _ => 4 * c.len(),
        },
{
}

/// The type of components that an attribute claims has their width.
pub open spec fn type_fits(a: AttributeView) -> bool {
    component_width(a.component_type) == match a.data {
        Components::U8(_) => 1int,
        Components::U16(_) | Components::I16(_) => 2int,
        _ => 4int,
    }
}

/// The least number of a component is one of its numbers, and none is less; the greatest likewise.
proof fn lemma_single_extreme(v: Seq<u32>, size: int, j: int, n: int, i: int)
    requires
        0 <= i < n <= v.len(),
        0 <= j < size,
        i % size == j,
        !is_nan(v[i]),
    ensures
        !is_nan(single_extreme(v, size, j, n, true)),
        !is_nan(single_extreme(v, size, j, n, false)),
        !lt_of(v[i], single_extreme(v, size, j, n, true)),
        !lt_of(single_extreme(v, size, j, n, false), v[i]),
    decreases n,
{
    lemma_extreme_is_a_number(v, size, j, n - 1);
    if i < n - 1 {
        lemma_single_extreme(v, size, j, n - 1, i);
    }
}

/// The extremes are numbers, between the infinities.
proof fn lemma_extreme_is_a_number(v: Seq<u32>, size: int, j: int, n: int)
    requires
        n <= v.len(),
    ensures
        !is_nan(single_extreme(v, size, j, n, true)),
        !is_nan(single_extreme(v, size, j, n, false)),
    decreases n,
{
    if n > 0 {
        lemma_extreme_is_a_number(v, size, j, n - 1);
    }
}

/// The bounds of an attribute of floating-point numbers hold every number of its items, each among
/// those of its own component.
pub proof fn law_bounds_hold_every_number(a: AttributeView, values: Seq<u32>, item: int, j: int)
    requires
        a.data == Components::F32(values),
        0 <= item < a.count,
        0 <= j < a.item_size,
        item * a.item_size + j < values.len(),
        !is_nan(values[item * a.item_size + j]),
    ensures
        bounds_of(a) matches BoundsView::Singles(low, high) && {
            let x = values[item * a.item_size + j];
            &&& low.len() == a.item_size
            &&& high.len() == a.item_size
            &&& !lt_of(x, low[j])
            &&& !lt_of(high[j], x)
        },
{
    let size = a.item_size as int;
    let i = item * size + j;
    let n = counted(values.len() as int, size, a.count as int);
    vstd::arithmetic::div_mod::lemma_fundamental_div_mod_converse(i, size, item, j);
    assert(i < a.count * size) by (nonlinear_arith)
        requires
            i == item * size + j,
            0 <= item < a.count,
            0 <= j < size,
    ;
    lemma_single_extreme(values, size, j, n, i);
}

/// The same of integers: the least is one of them, and none is less.
proof fn lemma_integer_extreme(v: Seq<i64>, size: int, j: int, n: int, i: int)
    requires
        0 <= i < n <= v.len(),
        0 <= j < size,
        i % size == j,
    ensures
        integer_extreme(v, size, j, n, true) matches Some(least) && least <= v[i],
        integer_extreme(v, size, j, n, false) matches Some(most) && v[i] <= most,
    decreases n,
{
    if i < n - 1 {
        lemma_integer_extreme(v, size, j, n - 1, i);
    }
}

/// The extremes of integers are among them.
proof fn lemma_integer_extreme_is_one(v: Seq<i64>, size: int, j: int, n: int, low: bool)
    requires
        n <= v.len(),
    ensures
        integer_extreme(v, size, j, n, low) matches Some(x) ==> exists|i: int|
            0 <= i < n && i % size == j && #[trigger] v[i] == x,
    decreases n,
{
    if n > 0 {
        lemma_integer_extreme_is_one(v, size, j, n - 1, low);
        match integer_extreme(v, size, j, n, low) {
            Some(x) => {
                if (n - 1) % size == j && v[n - 1] == x {
                } else {
                    let i = choose|i: int| 0 <= i < n - 1 && i % size == j && #[trigger] v[i] == x;
                    assert(v[i] == x);
                }
            },
            None => {},
        }
    }
}

/// The bounds of an attribute of integers hold every number of its items, and are among them.
pub proof fn law_integer_bounds_hold_every_number(a: AttributeView, item: int, j: int)
    requires
        !(a.data is F32),
        0 <= item < a.count,
        0 <= j < a.item_size,
        item * a.item_size + j < a.data.len(),
    ensures
        bounds_of(a) matches BoundsView::Integers(low, high) && {
            let x = a.data.integers()[item * a.item_size + j];
            &&& low.len() == a.item_size
            &&& high.len() == a.item_size
            &&& low[j] matches Some(least) && least <= x && a.data.integers().contains(least)
            &&& high[j] matches Some(most) && x <= most && a.data.integers().contains(most)
        },
{
    let v = a.data.integers();
    let size = a.item_size as int;
    let i = item * size + j;
    let n = counted(v.len() as int, size, a.count as int);
    vstd::arithmetic::div_mod::lemma_fundamental_div_mod_converse(i, size, item, j);
    assert(i < a.count * size) by (nonlinear_arith)
        requires
            i == item * size + j,
            0 <= item < a.count,
            0 <= j < size,
    ;
    lemma_integer_extreme(v, size, j, n, i);
    lemma_integer_extreme_is_one(v, size, j, n, true);
    lemma_integer_extreme_is_one(v, size, j, n, false);
}

/// A new accessor names the bytes of its attribute, and what others name stays.
pub proof fn law_new_accessor_holds_its_attribute(d: DocumentView, a: AttributeView, k: int)
    requires
        d.wf(),
        d.bin.len() + bytes_of(a.data).len() + 4 <= usize::MAX,
        d.buffer_views.len() < usize::MAX,
        0 <= k < d.accessors.len() ==> d.accessors[k].buffer_view < d.buffer_views.len(),
    ensures
        accessor_bytes(d.with_accessor(a), d.accessors.len() as int) == bytes_of(a.data),
        0 <= k < d.accessors.len() ==> accessor_bytes(d.with_accessor(a), k) == accessor_bytes(d, k),
        d.with_accessor(a).wf(),
{
    let bytes = bytes_of(a.data);
    let e = d.with_accessor(a);
    law_padded_append(d.bin, bytes);
    law_bytes_keep_document(d, bytes);
    let f = d.with_bytes(bytes);
    law_reader_keeps_document(f, e.accessors.last());
    assert(e =~= DocumentView { accessors: f.accessors.push(e.accessors.last()), ..f });
    assert(accessor_bytes(e, d.accessors.len() as int) =~= bytes);
    lemma_bytes_append(d, bytes);
    assert(only_appended(d, e)) by {
        reveal(only_appended);
    }
    if 0 <= k < d.accessors.len() {
        law_accessor_bytes_stay(d, e, k);
    }
}

} // verus!
