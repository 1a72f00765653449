//! The document as a JSON value: which members it has, in which order, and what they hold.

use crate::attributes::own;
use crate::convert::{extension_names, law_listed_extensions_are_those_used, uses_extension};
use crate::float_bits::ONE;
use crate::gltf::{
    bytes_of, component_width, law_meshes_are_placed_once, only_appended, type_fits, views,
    Accessor, AccessorKind, AccessorView, AlphaMode, Animation, AnimationView, AttributeView,
    Bounds, BoundsView, BufferView, Channel, ChannelPath, Document, DocumentView, ExportedTransform,
    Image, Material, MaterialExtension, MaterialView, Matrix, Mesh, MeshView, Mime, NamedAccessor,
    Node, NodeView, PlacementView, SamplerSettings, Skin, SkinView, Target, TargetView, Texture,
    TextureInfo,
};
use crate::palette::{has_clearcoat, has_specular, uses_transform, StudioView};
use crate::text::texts;
use vstd::prelude::*;

verus! {

/// The binary64 pattern of one.
pub const DOUBLE_ONE: u64 = 0x3ff0_0000_0000_0000;

/// A JSON value to be written.
#[derive(Debug)]
pub enum Written {
    Null,
    Bool(bool),
    /// An integer.
    Whole(u64),
    /// A binary32 pattern.
    Single(u32),
    /// An integer, written as the binary32 number nearest to it.
    Rounded(i64),
    /// A binary64 pattern.
    Double(u64),
    Text(String),
    List(Vec<Written>),
    Members(Vec<(String, Written)>),
}

/// The mathematical counterpart of [`Written`].
pub ghost enum WrittenView {
    Null,
    Bool(bool),
    Whole(u64),
    Single(u32),
    Rounded(i64),
    Double(u64),
    Text(Seq<char>),
    List(Seq<WrittenView>),
    Members(Seq<(Seq<char>, WrittenView)>),
}

impl Written {
    /// The value as a mathematical one.
    pub open spec fn seen(self) -> WrittenView
        decreases self,
    {
        match self {
            Written::Null => WrittenView::Null,
            Written::Bool(b) => WrittenView::Bool(b),
            Written::Whole(n) => WrittenView::Whole(n),
            Written::Single(b) => WrittenView::Single(b),
            Written::Rounded(n) => WrittenView::Rounded(n),
            Written::Double(b) => WrittenView::Double(b),
            Written::Text(t) => WrittenView::Text(t@),
            Written::List(items) => WrittenView::List(
                Seq::new(
                    items@.len(),
                    |i: int|
                        if 0 <= i < items@.len() {
                            items@[i].seen()
                        } else {
                            WrittenView::Null
                        },
                ),
            ),
            Written::Members(members) => WrittenView::Members(
                Seq::new(
                    members@.len(),
                    |i: int|
                        if 0 <= i < members@.len() {
                            (members@[i].0@, members@[i].1.seen())
                        } else {
                            (Seq::empty(), WrittenView::Null)
                        },
                ),
            ),
        }
    }
}

impl View for Written {
    type V = WrittenView;

    open spec fn view(&self) -> WrittenView {
        self.seen()
    }
}

/// Members with their names and values seen as mathematical ones.
pub open spec fn entries(members: Seq<(String, Written)>) -> Seq<(Seq<char>, WrittenView)> {
    Seq::new(members.len(), |i: int| (members[i].0@, members[i].1@))
}

/// A list of values.
fn list(items: Vec<Written>) -> (r: Written)
    ensures
        r@ == WrittenView::List(views(items@)),
{
    proof {
        reveal_with_fuel(Written::seen, 2);
        assert(Written::List(items)@->List_0 =~= views(items@));
    }
    Written::List(items)
}

/// An object of the given members.
fn object(members: Vec<(String, Written)>) -> (r: Written)
    ensures
        r@ == WrittenView::Members(entries(members@)),
{
    proof {
        reveal_with_fuel(Written::seen, 2);
        assert(Written::Members(members)@->Members_0 =~= entries(members@));
    }
    Written::Members(members)
}

/// No members.
fn no_members() -> (r: Vec<(String, Written)>)
    ensures
        entries(r@) == Seq::<(Seq<char>, WrittenView)>::empty(),
{
    let r: Vec<(String, Written)> = Vec::new();
    assert(entries(r@) =~= Seq::<(Seq<char>, WrittenView)>::empty());
    r
}

/// Adds a member.
fn put(members: &mut Vec<(String, Written)>, name: &str, value: Written)
    ensures
        entries(final(members)@) == entries(old(members)@).push((name@, value@)),
{
    let ghost before = members@;
    members.push((own(name), value));
    assert(entries(members@) =~= entries(before).push((name@, value@)));
}

/// A text.
fn text(s: &str) -> (r: Written)
    ensures
        r@ == WrittenView::Text(s@),
{
    Written::Text(own(s))
}

/// An index or a size.
pub open spec fn whole_of(n: usize) -> WrittenView {
    WrittenView::Whole(n as u64)
}

/// An index or a size.
fn whole(n: usize) -> (r: Written)
    ensures
        r@ == whole_of(n),
{
    Written::Whole(n as u64)
}

/// Numbers, from binary32 patterns.
pub open spec fn singles_of(list: Seq<u32>) -> WrittenView {
    WrittenView::List(Seq::new(list.len(), |i: int| WrittenView::Single(list[i])))
}

/// Numbers, from binary32 patterns.
fn singles(bits: &[u32]) -> (r: Written)
    ensures
        r@ == singles_of(bits@),
{
    let mut out: Vec<Written> = Vec::new();
    let mut i: usize = 0;
    while i < bits.len()
        invariant
            i <= bits@.len(),
            out@.len() == i,
            forall|k: int| 0 <= k < i ==> (#[trigger] out@[k])@ == WrittenView::Single(bits@[k]),
        decreases bits@.len() - i,
    {
        out.push(Written::Single(bits[i]));
        i += 1;
    }
    assert(views(out@) =~= Seq::new(bits@.len(), |k: int| WrittenView::Single(bits@[k])));
    list(out)
}

/// What has a form in the file.
pub trait Laid: Sized {
    /// The form.
    spec fn laid(self) -> WrittenView;

    /// The form.
    fn lay(&self) -> (r: Written)
        ensures
            r@ == self.laid(),
    ;
}

/// The forms of a list.
fn lay_all<T: Laid>(items: &Vec<T>) -> (r: Written)
    ensures
        r@ == WrittenView::List(Seq::new(items@.len(), |i: int| items@[i].laid())),
{
    let mut out: Vec<Written> = Vec::new();
    let mut i: usize = 0;
    while i < items.len()
        invariant
            i <= items@.len(),
            out@.len() == i,
            forall|k: int| 0 <= k < i ==> (#[trigger] out@[k])@ == items@[k].laid(),
        decreases items@.len() - i,
    {
        out.push(items[i].lay());
        i += 1;
    }
    assert(views(out@) =~= Seq::new(items@.len(), |k: int| items@[k].laid()));
    list(out)
}

impl Laid for usize {
    open spec fn laid(self) -> WrittenView {
        whole_of(self)
    }

    fn lay(&self) -> (r: Written) {
        whole(*self)
    }
}

impl Laid for String {
    open spec fn laid(self) -> WrittenView {
        WrittenView::Text(self@)
    }

    fn lay(&self) -> (r: Written) {
        text(self.as_str())
    }
}

impl Laid for Option<i64> {
    open spec fn laid(self) -> WrittenView {
        match self {
            Some(n) => WrittenView::Rounded(n),
            None => WrittenView::Null,
        }
    }

    fn lay(&self) -> (r: Written) {
        match self {
            Some(n) => Written::Rounded(*n),
            None => Written::Null,
        }
    }
}

/// The indices of a list.
pub open spec fn wholes_of(list: Seq<usize>) -> WrittenView {
    WrittenView::List(Seq::new(list.len(), |i: int| whole_of(list[i])))
}

/// The indices of a list.
fn wholes(items: &Vec<usize>) -> (r: Written)
    ensures
        r@ == wholes_of(items@),
{
    let r = lay_all(items);
    assert(r@->List_0 =~= wholes_of(items@)->List_0);
    r
}

/// The texts of a list.
pub open spec fn texts_of(list: Seq<Seq<char>>) -> WrittenView {
    WrittenView::List(Seq::new(list.len(), |i: int| WrittenView::Text(list[i])))
}

/// The bounds of integers.
pub open spec fn rounded_of(list: Seq<Option<i64>>) -> WrittenView {
    WrittenView::List(Seq::new(list.len(), |i: int| list[i].laid()))
}

/// An object of one member.
pub open spec fn only_member(name: Seq<char>, value: WrittenView) -> WrittenView {
    WrittenView::Members(Seq::empty().push((name, value)))
}

/// An object of one member.
fn only(name: &str, value: Written) -> (r: Written)
    ensures
        r@ == only_member(name@, value@),
{
    let mut m = no_members();
    put(&mut m, name, value);
    object(m)
}

/// Members with one more, where there is a value for it.
pub open spec fn with_some(
    members: Seq<(Seq<char>, WrittenView)>,
    name: Seq<char>,
    value: Option<WrittenView>,
) -> Seq<(Seq<char>, WrittenView)> {
    match value {
        Some(v) => members.push((name, v)),
        None => members,
    }
}

/// An optional value seen as a mathematical one.
pub open spec fn seen_opt(value: Option<Written>) -> Option<WrittenView> {
    match value {
        Some(v) => Some(v@),
        None => None,
    }
}

/// Adds a member, where there is a value for it.
fn put_some(members: &mut Vec<(String, Written)>, name: &str, value: Option<Written>)
    ensures
        entries(final(members)@) == with_some(entries(old(members)@), name@, seen_opt(value)),
{
    match value {
        Some(v) => {
            put(members, name, v);
        },
        None => {},
    }
}

/// The name of a shape of items.
pub open spec fn kind_name_of(kind: AccessorKind) -> Seq<char> {
    match kind {
        AccessorKind::Scalar => "SCALAR"@,
        AccessorKind::Vec2 => "VEC2"@,
        AccessorKind::Vec3 => "VEC3"@,
        AccessorKind::Vec4 => "VEC4"@,
        AccessorKind::Mat4 => "MAT4"@,
    }
}

/// The name of a shape of items.
fn kind_name(kind: AccessorKind) -> (r: Written)
    ensures
        r@ == WrittenView::Text(kind_name_of(kind)),
{
    match kind {
        AccessorKind::Scalar => text("SCALAR"),
        AccessorKind::Vec2 => text("VEC2"),
        AccessorKind::Vec3 => text("VEC3"),
        AccessorKind::Vec4 => text("VEC4"),
        AccessorKind::Mat4 => text("MAT4"),
    }
}

/// The form of an accessor.
pub open spec fn accessor_form(a: AccessorView) -> WrittenView {
    let base = Seq::empty()
        .push(("bufferView"@, whole_of(a.buffer_view)))
        .push(("byteOffset"@, WrittenView::Whole(0)))
        .push(("componentType"@, WrittenView::Whole(a.component_type as u64)))
        .push(("count"@, whole_of(a.count)))
        .push(("type"@, WrittenView::Text(kind_name_of(a.kind))));
    let bounded = match a.bounds {
        Some(BoundsView::Singles(low, high)) => base.push(("min"@, singles_of(low))).push(
            ("max"@, singles_of(high)),
        ),
        Some(BoundsView::Integers(low, high)) => base.push(("min"@, rounded_of(low))).push(
            ("max"@, rounded_of(high)),
        ),
        None => base,
    };
    WrittenView::Members(
        if a.normalized {
            bounded.push(("normalized"@, WrittenView::Bool(true)))
        } else {
            bounded
        },
    )
}

impl Laid for Accessor {
    open spec fn laid(self) -> WrittenView {
        accessor_form(self@)
    }

    fn lay(&self) -> (r: Written) {
        let mut m = no_members();
        put(&mut m, "bufferView", whole(self.buffer_view));
        put(&mut m, "byteOffset", Written::Whole(0));
        put(&mut m, "componentType", Written::Whole(self.component_type as u64));
        put(&mut m, "count", whole(self.count));
        put(&mut m, "type", kind_name(self.kind));
        match &self.bounds {
            Some(Bounds::Singles(low, high)) => {
                put(&mut m, "min", singles(low.as_slice()));
                put(&mut m, "max", singles(high.as_slice()));
            },
            Some(Bounds::Integers(low, high)) => {
                put(&mut m, "min", lay_all(low));
                put(&mut m, "max", lay_all(high));
            },
            None => {},
        }
        if self.normalized {
            put(&mut m, "normalized", Written::Bool(true));
        }
        object(m)
    }
}

/// The form of a range of bytes.
pub open spec fn buffer_view_form(b: BufferView) -> WrittenView {
    let base = Seq::empty()
        .push(("buffer"@, WrittenView::Whole(0)))
        .push(("byteOffset"@, whole_of(b.offset)))
        .push(("byteLength"@, whole_of(b.length)));
    WrittenView::Members(
        match b.target {
            Some(target) => base.push(("target"@, WrittenView::Whole(target as u64))),
            None => base,
        },
    )
}

impl Laid for BufferView {
    open spec fn laid(self) -> WrittenView {
        buffer_view_form(self)
    }

    fn lay(&self) -> (r: Written) {
        let mut m = no_members();
        put(&mut m, "buffer", Written::Whole(0));
        put(&mut m, "byteOffset", whole(self.offset));
        put(&mut m, "byteLength", whole(self.length));
        match self.target {
            Some(target) => {
                put(&mut m, "target", Written::Whole(target as u64));
            },
            None => {},
        }
        object(m)
    }
}

/// The name of an image format.
pub open spec fn mime_name_of(mime: Mime) -> Seq<char> {
    match mime {
        Mime::Png => "image/png"@,
        Mime::Jpeg => "image/jpeg"@,
    }
}

/// The form of an image.
pub open spec fn image_form(i: Image) -> WrittenView {
    WrittenView::Members(
        Seq::empty()
            .push(("bufferView"@, whole_of(i.buffer_view)))
            .push(("mimeType"@, WrittenView::Text(mime_name_of(i.mime)))),
    )
}

impl Laid for Image {
    open spec fn laid(self) -> WrittenView {
        image_form(self)
    }

    fn lay(&self) -> (r: Written) {
        let mut m = no_members();
        put(&mut m, "bufferView", whole(self.buffer_view));
        let mime = match self.mime {
            Mime::Png => text("image/png"),
            Mime::Jpeg => text("image/jpeg"),
        };
        put(&mut m, "mimeType", mime);
        object(m)
    }
}

/// The form of a texture.
pub open spec fn texture_form(t: Texture) -> WrittenView {
    WrittenView::Members(
        Seq::empty()
            .push(("source"@, whole_of(t.source)))
            .push(("sampler"@, whole_of(t.sampler))),
    )
}

impl Laid for Texture {
    open spec fn laid(self) -> WrittenView {
        texture_form(self)
    }

    fn lay(&self) -> (r: Written) {
        let mut m = no_members();
        put(&mut m, "source", whole(self.source));
        put(&mut m, "sampler", whole(self.sampler));
        object(m)
    }
}

/// The form of a sampler.
pub open spec fn sampler_form(s: SamplerSettings) -> WrittenView {
    WrittenView::Members(
        Seq::empty()
            .push(("magFilter"@, WrittenView::Whole(s.mag_filter as u64)))
            .push(("minFilter"@, WrittenView::Whole(s.min_filter as u64)))
            .push(("wrapS"@, WrittenView::Whole(s.wrap_s as u64)))
            .push(("wrapT"@, WrittenView::Whole(s.wrap_t as u64))),
    )
}

impl Laid for SamplerSettings {
    open spec fn laid(self) -> WrittenView {
        sampler_form(self)
    }

    fn lay(&self) -> (r: Written) {
        let mut m = no_members();
        put(&mut m, "magFilter", Written::Whole(self.mag_filter as u64));
        put(&mut m, "minFilter", Written::Whole(self.min_filter as u64));
        put(&mut m, "wrapS", Written::Whole(self.wrap_s as u64));
        put(&mut m, "wrapT", Written::Whole(self.wrap_t as u64));
        object(m)
    }
}

/// The form of a skin.
pub open spec fn skin_form(s: SkinView) -> WrittenView {
    WrittenView::Members(
        Seq::empty()
            .push(("name"@, WrittenView::Text(s.name)))
            .push(("joints"@, wholes_of(s.joints)))
            .push(("inverseBindMatrices"@, whole_of(s.inverse_bind))),
    )
}

impl Laid for Skin {
    open spec fn laid(self) -> WrittenView {
        skin_form(self@)
    }

    fn lay(&self) -> (r: Written) {
        let mut m = no_members();
        put(&mut m, "name", text(self.name.as_str()));
        put(&mut m, "joints", wholes(&self.joints));
        put(&mut m, "inverseBindMatrices", whole(self.inverse_bind));
        object(m)
    }
}

/// The form of a texture transform.
pub open spec fn transform_form(t: ExportedTransform) -> WrittenView {
    let base = Seq::empty()
        .push(("offset"@, singles_of(t.offset@)))
        .push(("scale"@, singles_of(t.scale@)));
    WrittenView::Members(
        match t.rotation {
            Some(rotation) => base.push(("rotation"@, WrittenView::Single(rotation))),
            None => base,
        },
    )
}

/// The members of a reference to a texture.
pub open spec fn info_members(info: TextureInfo) -> Seq<(Seq<char>, WrittenView)> {
    let base = Seq::empty()
        .push(("index"@, whole_of(info.index)))
        .push(("texCoord"@, WrittenView::Whole(info.texcoord as u64)));
    match info.transform {
        Some(t) => base.push(
            ("extensions"@, only_member("KHR_texture_transform"@, transform_form(t))),
        ),
        None => base,
    }
}

/// The members of a reference to a texture.
fn lay_info(info: &TextureInfo) -> (r: Vec<(String, Written)>)
    ensures
        entries(r@) == info_members(*info),
{
    let mut m = no_members();
    put(&mut m, "index", whole(info.index));
    put(&mut m, "texCoord", Written::Whole(info.texcoord as u64));
    match &info.transform {
        Some(t) => {
            let mut inner = no_members();
            put(&mut inner, "offset", singles(vstd::array::array_as_slice(&t.offset)));
            put(&mut inner, "scale", singles(vstd::array::array_as_slice(&t.scale)));
            match t.rotation {
                Some(rotation) => {
                    put(&mut inner, "rotation", Written::Single(rotation));
                },
                None => {},
            }
            put(&mut m, "extensions", only("KHR_texture_transform", object(inner)));
        },
        None => {},
    }
    m
}

/// The form of an optional reference to a texture, with an optional number beside it.
pub open spec fn info_form(
    info: Option<TextureInfo>,
    beside: Option<(Seq<char>, WrittenView)>,
) -> Option<WrittenView> {
    match info {
        Some(i) => Some(
            WrittenView::Members(
                match beside {
                    Some(member) => info_members(i).push(member),
                    None => info_members(i),
                },
            ),
        ),
        None => None,
    }
}

/// The form of an optional reference to a texture.
fn info(reference: &Option<TextureInfo>) -> (r: Option<Written>)
    ensures
        seen_opt(r) == info_form(*reference, None),
{
    match reference {
        Some(i) => Some(object(lay_info(i))),
        None => None,
    }
}

/// The form of an optional reference to a texture, with a number beside it.
fn info_beside(reference: &Option<TextureInfo>, name: &str, value: Written) -> (r: Option<Written>)
    ensures
        seen_opt(r) == info_form(*reference, Some((name@, value@))),
{
    match reference {
        Some(i) => {
            let mut m = lay_info(i);
            put(&mut m, name, value);
            Some(object(m))
        },
        None => None,
    }
}

/// A factor. That of a plain material is written as an integer where it is zero or one.
pub open spec fn factor_form(plain: bool, bits: u32) -> WrittenView {
    if plain && bits == 0 {
        WrittenView::Whole(0)
    } else if plain && bits == ONE {
        WrittenView::Whole(1)
    } else {
        WrittenView::Single(bits)
    }
}

/// A factor.
fn factor(plain: bool, bits: u32) -> (r: Written)
    ensures
        r@ == factor_form(plain, bits),
{
    if plain && bits == 0 {
        Written::Whole(0)
    } else if plain && bits == ONE {
        Written::Whole(1)
    } else {
        Written::Single(bits)
    }
}

/// The form of a material's surface. A material without an alpha mode is plain.
pub open spec fn surface_form(m: MaterialView) -> WrittenView {
    let plain = m.alpha_mode is None;
    let base = Seq::empty()
        .push(
            (
                "baseColorFactor"@,
                WrittenView::List(Seq::new(4, |i: int| factor_form(plain, m.base_color@[i]))),
            ),
        )
        .push(("metallicFactor"@, factor_form(plain, m.metallic)))
        .push(("roughnessFactor"@, factor_form(plain, m.roughness)));
    WrittenView::Members(
        with_some(
            with_some(base, "baseColorTexture"@, info_form(m.base_color_texture, None)),
            "metallicRoughnessTexture"@,
            info_form(m.metallic_roughness_texture, None),
        ),
    )
}

/// The form of a material's surface.
fn surface(material: &Material) -> (r: Written)
    ensures
        r@ == surface_form(material@),
{
    let plain = material.alpha_mode.is_none();
    let mut color: Vec<Written> = Vec::new();
    let mut i: usize = 0;
    while i < 4
        invariant
            i <= 4,
            color@.len() == i,
            forall|k: int|
                0 <= k < i ==> (#[trigger] color@[k])@ == factor_form(
                    plain,
                    material.base_color@[k],
                ),
        decreases 4 - i,
    {
        color.push(factor(plain, material.base_color[i]));
        i += 1;
    }
    assert(views(color@) =~= Seq::new(4, |k: int| factor_form(plain, material.base_color@[k])));
    let mut m = no_members();
    put(&mut m, "baseColorFactor", list(color));
    put(&mut m, "metallicFactor", factor(plain, material.metallic));
    put(&mut m, "roughnessFactor", factor(plain, material.roughness));
    put_some(&mut m, "baseColorTexture", info(&material.base_color_texture));
    put_some(&mut m, "metallicRoughnessTexture", info(&material.metallic_roughness_texture));
    object(m)
}

/// The form of an extension, with its name.
pub open spec fn extension_form(e: MaterialExtension) -> (Seq<char>, WrittenView) {
    match e {
        MaterialExtension::Clearcoat(factor, roughness) => (
            "KHR_materials_clearcoat"@,
            WrittenView::Members(
                Seq::empty()
                    .push(("clearcoatFactor"@, WrittenView::Single(factor)))
                    .push(("clearcoatRoughnessFactor"@, WrittenView::Single(roughness))),
            ),
        ),
        MaterialExtension::Specular(factor) => (
            "KHR_materials_specular"@,
            only_member("specularFactor"@, WrittenView::Double(factor)),
        ),
    }
}

/// Members with the first `n` extensions of a list.
pub open spec fn with_extensions(
    members: Seq<(Seq<char>, WrittenView)>,
    list: Seq<MaterialExtension>,
    n: int,
) -> Seq<(Seq<char>, WrittenView)>
    decreases n,
{
    if n <= 0 {
        members
    } else {
        with_extensions(members, list, n - 1).push(extension_form(list[n - 1]))
    }
}

/// The extensions of a material.
pub open spec fn extension_members(m: MaterialView) -> Seq<(Seq<char>, WrittenView)> {
    let strong = match m.emissive_strength {
        Some(strength) => Seq::empty().push(
            (
                "KHR_materials_emissive_strength"@,
                only_member("emissiveStrength"@, WrittenView::Single(strength)),
            ),
        ),
        None => Seq::empty(),
    };
    let more = with_extensions(strong, m.extensions, m.extensions.len() as int);
    if m.unlit {
        more.push(("KHR_materials_unlit"@, WrittenView::Members(Seq::empty())))
    } else {
        more
    }
}

/// The extensions of a material.
fn lay_extensions(material: &Material) -> (r: Vec<(String, Written)>)
    ensures
        entries(r@) == extension_members(material@),
{
    let mut m = no_members();
    match material.emissive_strength {
        Some(strength) => {
            put(
                &mut m,
                "KHR_materials_emissive_strength",
                only("emissiveStrength", Written::Single(strength)),
            );
        },
        None => {},
    }
    let ghost strong = entries(m@);
    let mut i: usize = 0;
    while i < material.extensions.len()
        invariant
            i <= material.extensions@.len(),
            entries(m@) == with_extensions(strong, material.extensions@, i as int),
        decreases material.extensions@.len() - i,
    {
        match material.extensions[i] {
            MaterialExtension::Clearcoat(factor, roughness) => {
                let mut inner = no_members();
                put(&mut inner, "clearcoatFactor", Written::Single(factor));
                put(&mut inner, "clearcoatRoughnessFactor", Written::Single(roughness));
                put(&mut m, "KHR_materials_clearcoat", object(inner));
            },
            MaterialExtension::Specular(factor) => {
                put(
                    &mut m,
                    "KHR_materials_specular",
                    only("specularFactor", Written::Double(factor)),
                );
            },
        }
        i += 1;
    }
    if material.unlit {
        put(&mut m, "KHR_materials_unlit", object(no_members()));
    }
    m
}

/// The name of a way to treat alpha.
pub open spec fn alpha_name_of(mode: AlphaMode) -> Seq<char> {
    match mode {
        AlphaMode::Mask => "MASK"@,
        AlphaMode::Blend => "BLEND"@,
        AlphaMode::Opaque => "OPAQUE"@,
    }
}

/// The form of a material.
pub open spec fn material_form(m: MaterialView) -> WrittenView {
    let base = Seq::empty()
        .push(("name"@, WrittenView::Text(m.name)))
        .push(("doubleSided"@, WrittenView::Bool(m.double_sided)));
    let a = with_some(
        base,
        "alphaMode"@,
        match m.alpha_mode {
            Some(mode) => Some(WrittenView::Text(alpha_name_of(mode))),
            None => None,
        },
    );
    let b = a.push(("pbrMetallicRoughness"@, surface_form(m)));
    let c = with_some(
        b,
        "emissiveFactor"@,
        match m.emissive_factor {
            Some(f) => Some(singles_of(f@)),
            None => None,
        },
    );
    let d = with_some(c, "emissiveTexture"@, info_form(m.emissive_texture, None));
    let e = with_some(
        d,
        "occlusionTexture"@,
        info_form(m.occlusion_texture, Some(("strength"@, WrittenView::Double(DOUBLE_ONE)))),
    );
    let f = with_some(
        e,
        "normalTexture"@,
        info_form(m.normal_texture, Some(("scale"@, WrittenView::Single(m.normal_scale)))),
    );
    let g = with_some(
        f,
        "alphaCutoff"@,
        match m.alpha_cutoff {
            Some(cutoff) => Some(WrittenView::Single(cutoff)),
            None => None,
        },
    );
    let extensions = extension_members(m);
    WrittenView::Members(
        if extensions.len() > 0 {
            g.push(("extensions"@, WrittenView::Members(extensions)))
        } else {
            g
        },
    )
}

impl Laid for Material {
    open spec fn laid(self) -> WrittenView {
        material_form(self@)
    }

    fn lay(&self) -> (r: Written) {
        let mut m = no_members();
        put(&mut m, "name", text(self.name.as_str()));
        put(&mut m, "doubleSided", Written::Bool(self.double_sided));
        match self.alpha_mode {
            Some(AlphaMode::Mask) => {
                put(&mut m, "alphaMode", text("MASK"));
            },
            Some(AlphaMode::Blend) => {
                put(&mut m, "alphaMode", text("BLEND"));
            },
            Some(AlphaMode::Opaque) => {
                put(&mut m, "alphaMode", text("OPAQUE"));
            },
            None => {},
        }
        put(&mut m, "pbrMetallicRoughness", surface(self));
        match &self.emissive_factor {
            Some(f) => {
                put(&mut m, "emissiveFactor", singles(vstd::array::array_as_slice(f)));
            },
            None => {},
        }
        put_some(&mut m, "emissiveTexture", info(&self.emissive_texture));
        let occlusion = info_beside(
            &self.occlusion_texture,
            "strength",
            Written::Double(DOUBLE_ONE),
        );
        put_some(&mut m, "occlusionTexture", occlusion);
        let normal = info_beside(
            &self.normal_texture,
            "scale",
            Written::Single(self.normal_scale),
        );
        put_some(&mut m, "normalTexture", normal);
        match self.alpha_cutoff {
            Some(cutoff) => {
                put(&mut m, "alphaCutoff", Written::Single(cutoff));
            },
            None => {},
        }
        let extensions = lay_extensions(self);
        if extensions.len() > 0 {
            put(&mut m, "extensions", object(extensions));
        }
        object(m)
    }
}

/// The form of named accessors.
pub open spec fn named_form(list: Seq<(Seq<char>, usize)>) -> WrittenView {
    WrittenView::Members(Seq::new(list.len(), |i: int| (list[i].0, whole_of(list[i].1))))
}

/// The form of named accessors.
fn named(items: &Vec<NamedAccessor>) -> (r: Written)
    ensures
        r@ == named_form(views(items@)),
{
    let mut m = no_members();
    let mut i: usize = 0;
    while i < items.len()
        invariant
            i <= items@.len(),
            entries(m@).len() == i,
            forall|k: int|
                0 <= k < i ==> #[trigger] entries(m@)[k] == (
                    views(items@)[k].0,
                    whole_of(views(items@)[k].1),
                ),
        decreases items@.len() - i,
    {
        assert(views(items@)[i as int] == items@[i as int]@);
        put(&mut m, items[i].name.as_str(), whole(items[i].accessor));
        i += 1;
    }
    assert(entries(m@) =~= named_form(views(items@))->Members_0);
    object(m)
}

impl Laid for Target {
    open spec fn laid(self) -> WrittenView {
        named_form(self@.attributes)
    }

    fn lay(&self) -> (r: Written) {
        named(&self.attributes)
    }
}

/// The forms of morph targets.
pub open spec fn targets_form(list: Seq<TargetView>) -> WrittenView {
    WrittenView::List(Seq::new(list.len(), |i: int| named_form(list[i].attributes)))
}

/// The names of morph targets.
pub open spec fn target_names(list: Seq<TargetView>) -> WrittenView {
    WrittenView::List(Seq::new(list.len(), |i: int| WrittenView::Text(list[i].name)))
}

/// As many zeros as there are morph targets.
pub open spec fn resting_weights(n: nat) -> WrittenView {
    WrittenView::List(Seq::new(n, |i: int| WrittenView::Double(0)))
}

/// The names of morph targets, and a zero for each.
fn lay_targets(items: &Vec<Target>) -> (r: (Written, Written))
    ensures
        r.0@ == target_names(views(items@)),
        r.1@ == resting_weights(items@.len()),
{
    let mut names: Vec<Written> = Vec::new();
    let mut weights: Vec<Written> = Vec::new();
    let mut i: usize = 0;
    while i < items.len()
        invariant
            i <= items@.len(),
            names@.len() == i,
            weights@.len() == i,
            forall|k: int|
                0 <= k < i ==> (#[trigger] names@[k])@ == WrittenView::Text(views(items@)[k].name),
            forall|k: int| 0 <= k < i ==> (#[trigger] weights@[k])@ == WrittenView::Double(0),
        decreases items@.len() - i,
    {
        assert(views(items@)[i as int] == items@[i as int]@);
        names.push(text(items[i].name.as_str()));
        weights.push(Written::Double(0));
        i += 1;
    }
    assert(views(names@) =~= target_names(views(items@))->List_0);
    assert(views(weights@) =~= resting_weights(items@.len())->List_0);
    (list(names), list(weights))
}

/// The form of a mesh's one primitive.
pub open spec fn primitive_form(m: MeshView) -> WrittenView {
    let base = Seq::empty()
        .push(("attributes"@, named_form(m.attributes)))
        .push(("indices"@, whole_of(m.indices)))
        .push(("material"@, whole_of(m.material)))
        .push(("mode"@, WrittenView::Whole(m.mode as u64)));
    WrittenView::Members(
        if m.targets.len() > 0 {
            base.push(("targets"@, targets_form(m.targets)))
        } else {
            base
        },
    )
}

/// The form of a mesh.
pub open spec fn mesh_form(m: MeshView) -> WrittenView {
    let base = Seq::empty()
        .push(("name"@, WrittenView::Text(m.name)))
        .push(("primitives"@, WrittenView::List(Seq::empty().push(primitive_form(m)))));
    WrittenView::Members(
        if m.targets.len() > 0 {
            base.push(("weights"@, resting_weights(m.targets.len()))).push(
                ("extras"@, only_member("targetNames"@, target_names(m.targets))),
            )
        } else {
            base
        },
    )
}

/// A list of one value.
fn only_item(item: Written) -> (r: Written)
    ensures
        r@ == WrittenView::List(Seq::empty().push(item@)),
{
    let mut items: Vec<Written> = Vec::new();
    items.push(item);
    assert(views(items@) =~= Seq::empty().push(item@));
    list(items)
}

impl Laid for Mesh {
    open spec fn laid(self) -> WrittenView {
        mesh_form(self@)
    }

    fn lay(&self) -> (r: Written) {
        let mut primitive = no_members();
        put(&mut primitive, "attributes", named(&self.attributes));
        put(&mut primitive, "indices", whole(self.indices));
        put(&mut primitive, "material", whole(self.material));
        put(&mut primitive, "mode", Written::Whole(self.mode as u64));
        let moving = self.targets.len() > 0;
        if moving {
            let forms = lay_all(&self.targets);
            assert(forms@->List_0 =~= targets_form(views(self.targets@))->List_0);
            put(&mut primitive, "targets", forms);
        }
        let mut m = no_members();
        put(&mut m, "name", text(self.name.as_str()));
        put(&mut m, "primitives", only_item(object(primitive)));
        if moving {
            let (names, weights) = lay_targets(&self.targets);
            put(&mut m, "weights", weights);
            put(&mut m, "extras", only("targetNames", names));
        }
        object(m)
    }
}

/// The place of a node, worked out from its matrices.
#[derive(Debug)]
pub enum Place {
    Unplaced,
    /// Translation, rotation and scale.
    Trs(Vec<u32>, Vec<u32>, Vec<u32>),
    Whole(Matrix),
}

/// The mathematical counterpart of [`Place`].
#[verifier::ext_equal]
pub ghost enum PlaceView {
    Unplaced,
    Trs(Seq<u32>, Seq<u32>, Seq<u32>),
    Whole(Matrix),
}

impl View for Place {
    type V = PlaceView;

    open spec fn view(&self) -> PlaceView {
        match self {
            Place::Unplaced => PlaceView::Unplaced,
            Place::Trs(t, r, s) => PlaceView::Trs(t@, r@, s@),
            Place::Whole(m) => PlaceView::Whole(*m),
        }
    }
}

/// Whether a place has the form that a node asks for: that of a node that is placed by numbers has
/// these numbers, and matrices are worked out to one matrix or to three parts.
pub open spec fn worked_out(asked: PlacementView, place: PlaceView) -> bool {
    match asked {
        PlacementView::Unplaced => place == PlaceView::Unplaced,
        PlacementView::Trs(t, r, s) => place == PlaceView::Trs(t, r, s),
        PlacementView::Product(_) => place is Whole,
        PlacementView::Decomposed(_) => place is Trs,
    }
}

/// Whether every node's place is worked out.
pub open spec fn all_worked_out(nodes: Seq<NodeView>, places: Seq<PlaceView>) -> bool {
    &&& places.len() == nodes.len()
    &&& forall|i: int|
        0 <= i < nodes.len() ==> worked_out((#[trigger] nodes[i]).placement, places[i])
}

/// The form of a node.
pub open spec fn node_form(n: NodeView, place: PlaceView) -> WrittenView {
    let base = Seq::empty().push(("name"@, WrittenView::Text(n.name)));
    let a = if n.children.len() > 0 {
        base.push(("children"@, wholes_of(n.children)))
    } else {
        base
    };
    let b = match place {
        PlaceView::Unplaced => a,
        PlaceView::Trs(t, r, s) => a.push(("translation"@, singles_of(t))).push(
            ("rotation"@, singles_of(r)),
        ).push(("scale"@, singles_of(s))),
        PlaceView::Whole(m) => a.push(("matrix"@, singles_of(m@))),
    };
    let c = match n.mesh {
        Some(mesh) => b.push(("mesh"@, whole_of(mesh))),
        None => b,
    };
    WrittenView::Members(
        match n.skin {
            Some(skin) => c.push(("skin"@, whole_of(skin))),
            None => c,
        },
    )
}

/// The form of a node.
fn lay_node(n: &Node, place: &Place) -> (r: Written)
    ensures
        r@ == node_form(n@, place@),
{
    let mut m = no_members();
    put(&mut m, "name", text(n.name.as_str()));
    if n.children.len() > 0 {
        put(&mut m, "children", wholes(&n.children));
    }
    match place {
        Place::Unplaced => {},
        Place::Trs(t, r, s) => {
            put(&mut m, "translation", singles(t.as_slice()));
            put(&mut m, "rotation", singles(r.as_slice()));
            put(&mut m, "scale", singles(s.as_slice()));
        },
        Place::Whole(matrix) => {
            put(&mut m, "matrix", singles(vstd::array::array_as_slice(matrix)));
        },
    }
    match n.mesh {
        Some(mesh) => {
            put(&mut m, "mesh", whole(mesh));
        },
        None => {},
    }
    match n.skin {
        Some(skin) => {
            put(&mut m, "skin", whole(skin));
        },
        None => {},
    }
    object(m)
}

/// The forms of nodes.
pub open spec fn nodes_form(nodes: Seq<NodeView>, places: Seq<PlaceView>) -> WrittenView {
    WrittenView::List(Seq::new(nodes.len(), |i: int| node_form(nodes[i], places[i])))
}

/// The forms of nodes.
fn lay_nodes(nodes: &Vec<Node>, places: &Vec<Place>) -> (r: Written)
    requires
        places@.len() == nodes@.len(),
    ensures
        r@ == nodes_form(views(nodes@), views(places@)),
{
    let mut out: Vec<Written> = Vec::new();
    let mut i: usize = 0;
    while i < nodes.len()
        invariant
            i <= nodes@.len() == places@.len(),
            out@.len() == i,
            forall|k: int|
                0 <= k < i ==> (#[trigger] out@[k])@ == node_form(
                    views(nodes@)[k],
                    views(places@)[k],
                ),
        decreases nodes@.len() - i,
    {
        assert(views(nodes@)[i as int] == nodes@[i as int]@);
        assert(views(places@)[i as int] == places@[i as int]@);
        out.push(lay_node(&nodes[i], &places[i]));
        i += 1;
    }
    assert(views(out@) =~= nodes_form(views(nodes@), views(places@))->List_0);
    list(out)
}

/// The name of what a channel moves.
pub open spec fn path_name_of(path: ChannelPath) -> Seq<char> {
    match path {
        ChannelPath::Translation => "translation"@,
        ChannelPath::Rotation => "rotation"@,
        ChannelPath::Scale => "scale"@,
        ChannelPath::Weights => "weights"@,
    }
}

/// The name of what a channel moves.
fn path_name(path: ChannelPath) -> (r: Written)
    ensures
        r@ == WrittenView::Text(path_name_of(path)),
{
    match path {
        ChannelPath::Translation => text("translation"),
        ChannelPath::Rotation => text("rotation"),
        ChannelPath::Scale => text("scale"),
        ChannelPath::Weights => text("weights"),
    }
}

/// The form of a channel's sampler.
pub open spec fn curve_form(c: Channel) -> WrittenView {
    WrittenView::Members(
        Seq::empty()
            .push(("input"@, whole_of(c.input)))
            .push(("output"@, whole_of(c.output)))
            .push(("interpolation"@, WrittenView::Text("LINEAR"@))),
    )
}

/// The form of a channel that uses sampler `i`.
pub open spec fn channel_form(c: Channel, i: int) -> WrittenView {
    WrittenView::Members(
        Seq::empty()
            .push(("sampler"@, WrittenView::Whole(i as u64)))
            .push(
                (
                    "target"@,
                    WrittenView::Members(
                        Seq::empty()
                            .push(("node"@, whole_of(c.node)))
                            .push(("path"@, WrittenView::Text(path_name_of(c.path)))),
                    ),
                ),
            ),
    )
}

/// The form of an animation.
pub open spec fn animation_form(a: AnimationView) -> WrittenView {
    WrittenView::Members(
        Seq::empty()
            .push(("name"@, WrittenView::Text(a.name)))
            .push(
                (
                    "samplers"@,
                    WrittenView::List(
                        Seq::new(a.channels.len(), |i: int| curve_form(a.channels[i])),
                    ),
                ),
            )
            .push(
                (
                    "channels"@,
                    WrittenView::List(
                        Seq::new(a.channels.len(), |i: int| channel_form(a.channels[i], i)),
                    ),
                ),
            ),
    )
}

impl Laid for Channel {
    open spec fn laid(self) -> WrittenView {
        curve_form(self)
    }

    fn lay(&self) -> (r: Written) {
        let mut m = no_members();
        put(&mut m, "input", whole(self.input));
        put(&mut m, "output", whole(self.output));
        put(&mut m, "interpolation", text("LINEAR"));
        object(m)
    }
}

impl Laid for Animation {
    open spec fn laid(self) -> WrittenView {
        animation_form(self@)
    }

    fn lay(&self) -> (r: Written) {
        let mut channels: Vec<Written> = Vec::new();
        let mut i: usize = 0;
        while i < self.channels.len()
            invariant
                i <= self.channels@.len(),
                channels@.len() == i,
                forall|k: int|
                    0 <= k < i ==> (#[trigger] channels@[k])@ == channel_form(self.channels@[k], k),
            decreases self.channels@.len() - i,
        {
            let mut target = no_members();
            put(&mut target, "node", whole(self.channels[i].node));
            put(&mut target, "path", path_name(self.channels[i].path));
            let mut m = no_members();
            put(&mut m, "sampler", whole(i));
            put(&mut m, "target", object(target));
            channels.push(object(m));
            i += 1;
        }
        let samplers = lay_all(&self.channels);
        proof {
            let a = self@;
            assert(views(channels@) =~= Seq::new(
                a.channels.len(),
                |i: int| channel_form(a.channels[i], i),
            ));
            assert(samplers@->List_0 =~= Seq::new(
                a.channels.len(),
                |i: int| curve_form(a.channels[i]),
            ));
        }
        let mut m = no_members();
        put(&mut m, "name", text(self.name.as_str()));
        put(&mut m, "samplers", samplers);
        put(&mut m, "channels", list(channels));
        object(m)
    }
}

/// What every file says of itself.
pub open spec fn asset_form() -> WrittenView {
    WrittenView::Members(
        Seq::empty()
            .push(("version"@, WrittenView::Text("2.0"@)))
            .push(("generator"@, WrittenView::Text("sketchfab-downloader-rust"@))),
    )
}

/// The forms of accessors.
pub open spec fn accessors_form(list: Seq<AccessorView>) -> WrittenView {
    WrittenView::List(Seq::new(list.len(), |i: int| accessor_form(list[i])))
}

/// The forms of ranges of bytes.
pub open spec fn buffer_views_form(list: Seq<BufferView>) -> WrittenView {
    WrittenView::List(Seq::new(list.len(), |i: int| buffer_view_form(list[i])))
}

/// The forms of materials.
pub open spec fn materials_form(list: Seq<MaterialView>) -> WrittenView {
    WrittenView::List(Seq::new(list.len(), |i: int| material_form(list[i])))
}

/// The forms of meshes.
pub open spec fn meshes_form(list: Seq<MeshView>) -> WrittenView {
    WrittenView::List(Seq::new(list.len(), |i: int| mesh_form(list[i])))
}

/// The forms of skins.
pub open spec fn skins_form(list: Seq<SkinView>) -> WrittenView {
    WrittenView::List(Seq::new(list.len(), |i: int| skin_form(list[i])))
}

/// The forms of animations.
pub open spec fn animations_form(list: Seq<AnimationView>) -> WrittenView {
    WrittenView::List(Seq::new(list.len(), |i: int| animation_form(list[i])))
}

/// The forms of textures.
pub open spec fn textures_form(list: Seq<Texture>) -> WrittenView {
    WrittenView::List(Seq::new(list.len(), |i: int| texture_form(list[i])))
}

/// The forms of images.
pub open spec fn images_form(list: Seq<Image>) -> WrittenView {
    WrittenView::List(Seq::new(list.len(), |i: int| image_form(list[i])))
}

/// The forms of samplers.
pub open spec fn samplers_form(list: Seq<SamplerSettings>) -> WrittenView {
    WrittenView::List(Seq::new(list.len(), |i: int| sampler_form(list[i])))
}

/// A list that is written only if something is in it.
pub open spec fn unless_empty(n: nat, form: WrittenView) -> Option<WrittenView> {
    if n > 0 {
        Some(form)
    } else {
        None
    }
}

/// The members that every document has.
pub open spec fn fixed_members(d: DocumentView, places: Seq<PlaceView>) -> Seq<
    (Seq<char>, WrittenView),
> {
    Seq::empty()
        .push(("asset"@, asset_form()))
        .push(("scene"@, WrittenView::Whole(0)))
        .push(
            (
                "scenes"@,
                WrittenView::List(Seq::empty().push(only_member("nodes"@, wholes_of(d.roots)))),
            ),
        )
        .push(("nodes"@, nodes_form(d.nodes, places)))
        .push(("meshes"@, meshes_form(d.meshes)))
        .push(("accessors"@, accessors_form(d.accessors)))
        .push(("bufferViews"@, buffer_views_form(d.buffer_views)))
        .push(
            (
                "buffers"@,
                WrittenView::List(
                    Seq::empty().push(
                        only_member("byteLength"@, WrittenView::Whole(d.bin.len() as u64)),
                    ),
                ),
            ),
        )
        .push(("materials"@, materials_form(d.materials)))
}

/// The members of a document. Lists that may be absent are left out when they are empty.
pub open spec fn document_members(
    d: DocumentView,
    used: Seq<Seq<char>>,
    places: Seq<PlaceView>,
) -> Seq<(Seq<char>, WrittenView)> {
    let a = with_some(
        fixed_members(d, places),
        "skins"@,
        unless_empty(d.skins.len(), skins_form(d.skins)),
    );
    let b = with_some(
        a,
        "animations"@,
        unless_empty(d.animations.len(), animations_form(d.animations)),
    );
    let c = with_some(
        b,
        "textures"@,
        unless_empty(d.textures.len(), textures_form(d.textures)),
    );
    let e = with_some(c, "images"@, unless_empty(d.images.len(), images_form(d.images)));
    let f = with_some(
        e,
        "samplers"@,
        unless_empty(d.samplers.len(), samplers_form(d.samplers)),
    );
    with_some(f, "extensionsUsed"@, unless_empty(used.len(), texts_of(used)))
}

/// The members that every document has.
fn lay_fixed(d: &Document, places: &Vec<Place>) -> (r: Vec<(String, Written)>)
    requires
        places@.len() == d.nodes@.len(),
    ensures
        entries(r@) == fixed_members(d@, views(places@)),
{
    let meshes = lay_all(&d.meshes);
    assert(meshes@->List_0 =~= meshes_form(d@.meshes)->List_0);
    let accessors = lay_all(&d.accessors);
    assert(accessors@->List_0 =~= accessors_form(d@.accessors)->List_0);
    let buffer_views = lay_all(&d.buffer_views);
    assert(buffer_views@->List_0 =~= buffer_views_form(d@.buffer_views)->List_0);
    let materials = lay_all(&d.materials);
    assert(materials@->List_0 =~= materials_form(d@.materials)->List_0);
    let mut asset = no_members();
    put(&mut asset, "version", text("2.0"));
    put(&mut asset, "generator", text("sketchfab-downloader-rust"));
    let mut m = no_members();
    put(&mut m, "asset", object(asset));
    put(&mut m, "scene", Written::Whole(0));
    put(&mut m, "scenes", only_item(only("nodes", wholes(&d.roots))));
    put(&mut m, "nodes", lay_nodes(&d.nodes, places));
    put(&mut m, "meshes", meshes);
    put(&mut m, "accessors", accessors);
    put(&mut m, "bufferViews", buffer_views);
    put(&mut m, "buffers", only_item(only("byteLength", whole(d.bin.len()))));
    put(&mut m, "materials", materials);
    m
}

/// The document as a JSON value, with the extensions that it uses and the places of its nodes.
pub fn document_json(d: &Document, used: &Vec<String>, places: &Vec<Place>) -> (r: Written)
    requires
        all_worked_out(d@.nodes, views(places@)),
    ensures
        r@ == WrittenView::Members(document_members(d@, texts(used@), views(places@))),
{
    let mut m = lay_fixed(d, places);
    if d.skins.len() > 0 {
        let form = lay_all(&d.skins);
        assert(form@->List_0 =~= skins_form(d@.skins)->List_0);
        put(&mut m, "skins", form);
    }
    if d.animations.len() > 0 {
        let form = lay_all(&d.animations);
        assert(form@->List_0 =~= animations_form(d@.animations)->List_0);
        put(&mut m, "animations", form);
    }
    if d.textures.len() > 0 {
        let form = lay_all(&d.textures);
        assert(form@->List_0 =~= textures_form(d@.textures)->List_0);
        put(&mut m, "textures", form);
    }
    if d.images.len() > 0 {
        let form = lay_all(&d.images);
        assert(form@->List_0 =~= images_form(d@.images)->List_0);
        put(&mut m, "images", form);
    }
    if d.samplers.len() > 0 {
        let form = lay_all(&d.samplers);
        assert(form@->List_0 =~= samplers_form(d@.samplers)->List_0);
        put(&mut m, "samplers", form);
    }
    if used.len() > 0 {
        let form = lay_all(used);
        assert(form@->List_0 =~= texts_of(texts(used@))->List_0);
        put(&mut m, "extensionsUsed", form);
    }
    object(m)
}

/// Whether one of the members has a name.
pub open spec fn has_name(members: Seq<(Seq<char>, WrittenView)>, name: Seq<char>) -> bool {
    exists|i: int| 0 <= i < members.len() && (#[trigger] members[i]).0 == name
}

/// One more member brings its own name and keeps the others.
proof fn lemma_one_more_member(
    members: Seq<(Seq<char>, WrittenView)>,
    member: (Seq<char>, WrittenView),
    name: Seq<char>,
)
    ensures
        has_name(members.push(member), name) <==> has_name(members, name) || member.0 == name,
        members.push(member).contains(member),
        forall|x: (Seq<char>, WrittenView)|
            members.contains(x) ==> #[trigger] members.push(member).contains(x),
{
    let more = members.push(member);
    assert(more[members.len() as int] == member);
    if has_name(members, name) {
        let i = choose|i: int| 0 <= i < members.len() && (#[trigger] members[i]).0 == name;
        assert(more[i].0 == name);
    }
    assert forall|x: (Seq<char>, WrittenView)| members.contains(x) implies #[trigger] more.contains(
        x,
    ) by {
        let i = choose|i: int| 0 <= i < members.len() && members[i] == x;
        assert(more[i] == x);
    }
}

/// One more member, where there is a value for it, brings its own name and keeps the others.
proof fn lemma_perhaps_one_more(
    members: Seq<(Seq<char>, WrittenView)>,
    own_name: Seq<char>,
    value: Option<WrittenView>,
    name: Seq<char>,
)
    ensures
        has_name(with_some(members, own_name, value), name) <==> has_name(members, name) || (value
            is Some && own_name == name),
        value is Some ==> with_some(members, own_name, value).contains((own_name, value->0)),
        forall|x: (Seq<char>, WrittenView)|
            members.contains(x) ==> #[trigger] with_some(members, own_name, value).contains(x),
{
    match value {
        Some(v) => {
            lemma_one_more_member(members, (own_name, v), name);
        },
        None => {},
    }
}

/// The members that every document has are there whatever else is, and so are the lists that have
/// something in them.
proof fn lemma_document_holds(d: DocumentView, used: Seq<Seq<char>>, places: Seq<PlaceView>)
    ensures
        ({
            let fixed = fixed_members(d, places);
            let all = document_members(d, used, places);
            &&& forall|i: int| 0 <= i < fixed.len() ==> all.contains(#[trigger] fixed[i])
            &&& d.images.len() > 0 ==> all.contains(("images"@, images_form(d.images)))
            &&& used.len() > 0 ==> all.contains(("extensionsUsed"@, texts_of(used)))
            &&& has_name(all, "extensionsUsed"@) <==> has_name(fixed, "extensionsUsed"@)
                || used.len() > 0
        }),
{
    let name = "extensionsUsed"@;
    assert("skins"@ != name && "animations"@ != name && "textures"@ != name && "images"@ != name
        && "samplers"@ != name) by {
        reveal_strlit("extensionsUsed");
        reveal_strlit("skins");
        reveal_strlit("animations");
        reveal_strlit("textures");
        reveal_strlit("images");
        reveal_strlit("samplers");
        assert("extensionsUsed"@.len() == 14);
        assert("skins"@.len() == 5);
        assert("animations"@.len() == 10);
        assert("textures"@.len() == 8);
        assert("images"@.len() == 6);
        assert("samplers"@.len() == 8);
    }
    let fixed = fixed_members(d, places);
    let skins = unless_empty(d.skins.len(), skins_form(d.skins));
    let animations = unless_empty(d.animations.len(), animations_form(d.animations));
    let textures = unless_empty(d.textures.len(), textures_form(d.textures));
    let images = unless_empty(d.images.len(), images_form(d.images));
    let samplers = unless_empty(d.samplers.len(), samplers_form(d.samplers));
    let a = with_some(fixed, "skins"@, skins);
    let b = with_some(a, "animations"@, animations);
    let c = with_some(b, "textures"@, textures);
    let e = with_some(c, "images"@, images);
    let f = with_some(e, "samplers"@, samplers);
    lemma_perhaps_one_more(fixed, "skins"@, skins, name);
    lemma_perhaps_one_more(a, "animations"@, animations, name);
    lemma_perhaps_one_more(b, "textures"@, textures, name);
    lemma_perhaps_one_more(c, "images"@, images, name);
    lemma_perhaps_one_more(e, "samplers"@, samplers, name);
    lemma_perhaps_one_more(f, name, unless_empty(used.len(), texts_of(used)), name);
    assert forall|i: int| 0 <= i < fixed.len() implies document_members(
        d,
        used,
        places,
    ).contains(#[trigger] fixed[i]) by {
        assert(fixed.contains(fixed[i]));
        assert(a.contains(fixed[i]));
        assert(b.contains(fixed[i]));
        assert(c.contains(fixed[i]));
        assert(e.contains(fixed[i]));
        assert(f.contains(fixed[i]));
    }
    if d.images.len() > 0 {
        let member = ("images"@, images_form(d.images));
        assert(e.contains(member));
        assert(f.contains(member));
    }
}

/// The file is glTF 2.0 and complete in itself: its one buffer is the binary chunk, every range of
/// bytes lies in it on a multiple of four, and every image is such a range and names no other
/// place.
pub proof fn law_file_is_complete_in_itself(
    d: DocumentView,
    used: Seq<Seq<char>>,
    places: Seq<PlaceView>,
)
    requires
        d.wf(),
    ensures
        ({
            let all = document_members(d, used, places);
            &&& all.contains(("asset"@, asset_form()))
            &&& all.contains(
                (
                    "buffers"@,
                    WrittenView::List(
                        Seq::empty().push(
                            only_member("byteLength"@, WrittenView::Whole(d.bin.len() as u64)),
                        ),
                    ),
                ),
            )
            &&& all.contains(("bufferViews"@, buffer_views_form(d.buffer_views)))
            &&& d.images.len() > 0 ==> all.contains(("images"@, images_form(d.images)))
        }),
        forall|i: int|
            0 <= i < d.buffer_views.len() ==> {
                let b = #[trigger] d.buffer_views[i];
                let members = buffer_view_form(b)->Members_0;
                &&& members.contains(("buffer"@, WrittenView::Whole(0)))
                &&& members.contains(("byteOffset"@, whole_of(b.offset)))
                &&& members.contains(("byteLength"@, whole_of(b.length)))
                &&& b.offset % 4 == 0
                &&& b.offset + b.length <= d.bin.len()
            },
        forall|i: int|
            0 <= i < d.images.len() ==> {
                let image = #[trigger] d.images[i];
                let members = image_form(image)->Members_0;
                &&& members.contains(("bufferView"@, whole_of(image.buffer_view)))
                &&& image.buffer_view < d.buffer_views.len()
                &&& !has_name(members, "uri"@)
            },
{
    lemma_document_holds(d, used, places);
    let fixed = fixed_members(d, places);
    assert(fixed[0] == ("asset"@, asset_form()));
    assert(fixed[6] == ("bufferViews"@, buffer_views_form(d.buffer_views)));
    assert(fixed[7].0 == "buffers"@);
    assert forall|i: int| 0 <= i < d.buffer_views.len() implies {
        let b = #[trigger] d.buffer_views[i];
        let members = buffer_view_form(b)->Members_0;
        &&& members.contains(("buffer"@, WrittenView::Whole(0)))
        &&& members.contains(("byteOffset"@, whole_of(b.offset)))
        &&& members.contains(("byteLength"@, whole_of(b.length)))
    } by {
        let b = d.buffer_views[i];
        let members = buffer_view_form(b)->Members_0;
        assert(members[0] == ("buffer"@, WrittenView::Whole(0)));
        assert(members[1] == ("byteOffset"@, whole_of(b.offset)));
        assert(members[2] == ("byteLength"@, whole_of(b.length)));
    }
    assert("bufferView"@ != "uri"@ && "mimeType"@ != "uri"@) by {
        reveal_strlit("uri");
        reveal_strlit("bufferView");
        reveal_strlit("mimeType");
        assert("uri"@.len() == 3);
        assert("bufferView"@.len() == 10);
        assert("mimeType"@.len() == 8);
    }
    assert forall|i: int| 0 <= i < d.images.len() implies {
        let image = #[trigger] d.images[i];
        let members = image_form(image)->Members_0;
        &&& members.contains(("bufferView"@, whole_of(image.buffer_view)))
        &&& !has_name(members, "uri"@)
    } by {
        let members = image_form(d.images[i])->Members_0;
        assert(members[0] == ("bufferView"@, whole_of(d.images[i].buffer_view)));
        assert(members[1].0 == "mimeType"@);
        assert(members.len() == 2);
    }
}

/// The list of extensions is written as it is, and left out if it is empty.
pub proof fn law_extensions_are_written(
    d: DocumentView,
    used: Seq<Seq<char>>,
    places: Seq<PlaceView>,
)
    ensures
        has_name(document_members(d, used, places), "extensionsUsed"@) <==> used.len() > 0,
        used.len() > 0 ==> document_members(d, used, places).contains(
            ("extensionsUsed"@, texts_of(used)),
        ),
{
    lemma_document_holds(d, used, places);
    let fixed = fixed_members(d, places);
    let name = "extensionsUsed"@;
    assert("asset"@ != name && "scene"@ != name && "scenes"@ != name && "nodes"@ != name
        && "meshes"@ != name && "accessors"@ != name && "bufferViews"@ != name && "buffers"@ != name
        && "materials"@ != name) by {
        reveal_strlit("extensionsUsed");
        reveal_strlit("asset");
        reveal_strlit("scene");
        reveal_strlit("scenes");
        reveal_strlit("nodes");
        reveal_strlit("meshes");
        reveal_strlit("accessors");
        reveal_strlit("bufferViews");
        reveal_strlit("buffers");
        reveal_strlit("materials");
        assert(name.len() == 14);
        assert("asset"@.len() == 5);
        assert("scene"@.len() == 5);
        assert("scenes"@.len() == 6);
        assert("nodes"@.len() == 5);
        assert("meshes"@.len() == 6);
        assert("accessors"@.len() == 9);
        assert("bufferViews"@.len() == 11);
        assert("buffers"@.len() == 7);
        assert("materials"@.len() == 9);
    }
    assert(!has_name(fixed, name));
}

/// The names of a node's members differ.
proof fn lemma_node_names()
    ensures
        "skin"@ != "name"@,
        "skin"@ != "mesh"@,
        "skin"@ != "children"@,
        "skin"@ != "translation"@,
        "skin"@ != "rotation"@,
        "skin"@ != "scale"@,
        "skin"@ != "matrix"@,
        "matrix"@ != "name"@,
        "matrix"@ != "mesh"@,
        "matrix"@ != "children"@,
        "matrix"@ != "translation"@,
        "matrix"@ != "rotation"@,
        "matrix"@ != "scale"@,
        "translation"@ != "name"@,
        "translation"@ != "mesh"@,
        "translation"@ != "children"@,
        "translation"@ != "rotation"@,
        "translation"@ != "scale"@,
        "rotation"@ != "name"@,
        "rotation"@ != "mesh"@,
        "rotation"@ != "children"@,
        "rotation"@ != "scale"@,
        "scale"@ != "name"@,
        "scale"@ != "mesh"@,
        "scale"@ != "children"@,
{
    reveal_strlit("name");
    reveal_strlit("mesh");
    reveal_strlit("skin");
    reveal_strlit("children");
    reveal_strlit("translation");
    reveal_strlit("rotation");
    reveal_strlit("scale");
    reveal_strlit("matrix");
    assert("name"@.len() == 4 && "name"@[0] == 'n');
    assert("mesh"@.len() == 4 && "mesh"@[0] == 'm');
    assert("skin"@.len() == 4 && "skin"@[0] == 's');
    assert("children"@.len() == 8 && "children"@[0] == 'c');
    assert("rotation"@.len() == 8 && "rotation"@[0] == 'r');
    assert("translation"@.len() == 11);
    assert("scale"@.len() == 5);
    assert("matrix"@.len() == 6);
}

/// Which of the members that place a node its form has.
proof fn lemma_node_members(n: NodeView, place: PlaceView)
    ensures
        ({
            let members = node_form(n, place)->Members_0;
            &&& has_name(members, "skin"@) <==> n.skin is Some
            &&& has_name(members, "matrix"@) <==> place is Whole
            &&& has_name(members, "translation"@) <==> place is Trs
            &&& has_name(members, "rotation"@) <==> place is Trs
            &&& has_name(members, "scale"@) <==> place is Trs
        }),
{
    lemma_node_names();
    let base = Seq::empty().push(("name"@, WrittenView::Text(n.name)));
    let a = if n.children.len() > 0 {
        base.push(("children"@, wholes_of(n.children)))
    } else {
        base
    };
    assert forall|name: Seq<char>| #[trigger]
        has_name(a, name) implies name == "name"@ || name == "children"@ by {
        let i = choose|i: int| 0 <= i < a.len() && (#[trigger] a[i]).0 == name;
    }
    let b = match place {
        PlaceView::Unplaced => a,
        PlaceView::Trs(t, r, s) => a.push(("translation"@, singles_of(t))).push(
            ("rotation"@, singles_of(r)),
        ).push(("scale"@, singles_of(s))),
        PlaceView::Whole(m) => a.push(("matrix"@, singles_of(m@))),
    };
    lemma_node_member(n, place, a, b, "skin"@);
    lemma_node_member(n, place, a, b, "matrix"@);
    lemma_node_member(n, place, a, b, "translation"@);
    lemma_node_member(n, place, a, b, "rotation"@);
    lemma_node_member(n, place, a, b, "scale"@);
}

/// Whether the form of a node has a member, given its members before the place, `a`, and after it,
/// `b`.
proof fn lemma_node_member(
    n: NodeView,
    place: PlaceView,
    a: Seq<(Seq<char>, WrittenView)>,
    b: Seq<(Seq<char>, WrittenView)>,
    name: Seq<char>,
)
    requires
        b == match place {
            PlaceView::Unplaced => a,
            PlaceView::Trs(t, r, s) => a.push(("translation"@, singles_of(t))).push(
                ("rotation"@, singles_of(r)),
            ).push(("scale"@, singles_of(s))),
            PlaceView::Whole(m) => a.push(("matrix"@, singles_of(m@))),
        },
        a == if n.children.len() > 0 {
            Seq::empty().push(("name"@, WrittenView::Text(n.name))).push(
                ("children"@, wholes_of(n.children)),
            )
        } else {
            Seq::empty().push(("name"@, WrittenView::Text(n.name)))
        },
        name != "mesh"@,
    ensures
        has_name(node_form(n, place)->Members_0, name) <==> has_name(a, name) || (place is Trs && (
        name == "translation"@ || name == "rotation"@ || name == "scale"@)) || (place is Whole
            && name == "matrix"@) || (n.skin is Some && name == "skin"@),
{
    match place {
        PlaceView::Unplaced => {},
        PlaceView::Trs(t, r, s) => {
            let x = ("translation"@, singles_of(t));
            let y = ("rotation"@, singles_of(r));
            lemma_one_more_member(a, x, name);
            lemma_one_more_member(a.push(x), y, name);
            lemma_one_more_member(a.push(x).push(y), ("scale"@, singles_of(s)), name);
        },
        PlaceView::Whole(m) => {
            lemma_one_more_member(a, ("matrix"@, singles_of(m@)), name);
        },
    }
    let c = match n.mesh {
        Some(mesh) => {
            lemma_one_more_member(b, ("mesh"@, whole_of(mesh)), name);
            b.push(("mesh"@, whole_of(mesh)))
        },
        None => b,
    };
    match n.skin {
        Some(skin) => {
            lemma_one_more_member(c, ("skin"@, whole_of(skin)), name);
        },
        None => {},
    }
}

/// A node with a mesh is written with exactly one of a skin, a matrix, and a translation with a
/// rotation and a scale.
pub proof fn law_mesh_nodes_are_placed_once(d: DocumentView, places: Seq<PlaceView>, node: int)
    requires
        d.wf(),
        all_worked_out(d.nodes, places),
        0 <= node < d.nodes.len(),
        d.nodes[node].mesh is Some,
    ensures
        ({
            let members = node_form(d.nodes[node], places[node])->Members_0;
            let skinned = has_name(members, "skin"@);
            let matrix = has_name(members, "matrix"@);
            let parts = has_name(members, "translation"@);
            &&& has_name(members, "rotation"@) == parts
            &&& has_name(members, "scale"@) == parts
            &&& skinned || matrix || parts
            &&& !(skinned && matrix)
            &&& !(skinned && parts)
            &&& !(matrix && parts)
        }),
{
    law_meshes_are_placed_once(d, node);
    lemma_node_members(d.nodes[node], places[node]);
    assert(worked_out(d.nodes[node].placement, places[node]));
}

/// The extensions of a list are named by their kinds.
proof fn lemma_extension_names(
    members: Seq<(Seq<char>, WrittenView)>,
    list: Seq<MaterialExtension>,
    n: int,
    name: Seq<char>,
)
    requires
        0 <= n <= list.len(),
    ensures
        has_name(with_extensions(members, list, n), name) <==> has_name(members, name) || (name
            == "KHR_materials_clearcoat"@ && has_clearcoat(list.take(n))) || (name
            == "KHR_materials_specular"@ && has_specular(list.take(n))),
    decreases n,
{
    if n > 0 {
        lemma_extension_names(members, list, n - 1, name);
        let last = list[n - 1];
        lemma_one_more_member(
            with_extensions(members, list, n - 1),
            extension_form(last),
            name,
        );
        let before = list.take(n - 1);
        let after = list.take(n);
        assert(after[n - 1] == last);
        assert forall|i: int| 0 <= i < n - 1 implies #[trigger] before[i] == after[i] by {}
        assert(has_clearcoat(after) <==> has_clearcoat(before) || last is Clearcoat) by {
            if has_clearcoat(before) {
                let i = choose|i: int| 0 <= i < before.len() && #[trigger] before[i] is Clearcoat;
                assert(after[i] is Clearcoat);
            }
            if has_clearcoat(after) {
                let i = choose|i: int| 0 <= i < after.len() && #[trigger] after[i] is Clearcoat;
                if i < n - 1 {
                    assert(before[i] is Clearcoat);
                }
            }
        }
        assert(has_specular(after) <==> has_specular(before) || last is Specular) by {
            if has_specular(before) {
                let i = choose|i: int| 0 <= i < before.len() && #[trigger] before[i] is Specular;
                assert(after[i] is Specular);
            }
            if has_specular(after) {
                let i = choose|i: int| 0 <= i < after.len() && #[trigger] after[i] is Specular;
                if i < n - 1 {
                    assert(before[i] is Specular);
                }
            }
        }
    }
}

/// A material uses the extensions that its form names, and transforms of textures.
pub proof fn law_material_names_what_it_uses(m: MaterialView, name: Seq<char>)
    ensures
        uses_extension(m, name) <==> has_name(extension_members(m), name) || (name
            == "KHR_texture_transform"@ && uses_transform(m)),
{
    let none = Seq::<(Seq<char>, WrittenView)>::empty();
    let strong = match m.emissive_strength {
        Some(strength) => {
            let member = (
                "KHR_materials_emissive_strength"@,
                only_member("emissiveStrength"@, WrittenView::Single(strength)),
            );
            lemma_one_more_member(none, member, name);
            none.push(member)
        },
        None => none,
    };
    let n = m.extensions.len() as int;
    lemma_extension_names(strong, m.extensions, n, name);
    assert(m.extensions.take(n) =~= m.extensions);
    if m.unlit {
        lemma_one_more_member(
            with_extensions(strong, m.extensions, n),
            ("KHR_materials_unlit"@, WrittenView::Members(Seq::empty())),
            name,
        );
    }
}

/// The extensions that are listed are those that the forms of the materials and of their references
/// to textures name.
pub proof fn law_listed_extensions_are_those_written(s: StudioView, name: Seq<char>)
    requires
        s.wf(),
    ensures
        extension_names(s.extensions).contains(name) <==> exists|i: int|
            0 <= i < s.document.materials.len() && (has_name(
                extension_members(#[trigger] s.document.materials[i]),
                name,
            ) || (name == "KHR_texture_transform"@ && uses_transform(s.document.materials[i]))),
{
    law_listed_extensions_are_those_used(s, name);
    assert forall|i: int| 0 <= i < s.document.materials.len() implies (uses_extension(
        #[trigger] s.document.materials[i],
        name,
    ) <==> has_name(extension_members(s.document.materials[i]), name) || (name
        == "KHR_texture_transform"@ && uses_transform(s.document.materials[i]))) by {
        law_material_names_what_it_uses(s.document.materials[i], name);
    }
}

/// How many components glTF gives to an item of a type.
pub open spec fn components_of_type(name: Seq<char>) -> int {
    if name == "SCALAR"@ {
        1
    } else if name == "VEC2"@ {
        2
    } else if name == "VEC3"@ {
        3
    } else if name == "VEC4"@ {
        4
    } else if name == "MAT4"@ {
        16
    } else {
        0
    }
}

/// The names of types differ.
proof fn lemma_type_names()
    ensures
        components_of_type("SCALAR"@) == 1,
        components_of_type("VEC2"@) == 2,
        components_of_type("VEC3"@) == 3,
        components_of_type("VEC4"@) == 4,
        components_of_type("MAT4"@) == 16,
{
    reveal_strlit("SCALAR");
    reveal_strlit("VEC2");
    reveal_strlit("VEC3");
    reveal_strlit("VEC4");
    reveal_strlit("MAT4");
    assert("SCALAR"@.len() == 6);
    assert("VEC2"@.len() == 4 && "VEC2"@[0] == 'V' && "VEC2"@[3] == '2');
    assert("VEC3"@.len() == 4 && "VEC3"@[0] == 'V' && "VEC3"@[3] == '3');
    assert("VEC4"@.len() == 4 && "VEC4"@[0] == 'V' && "VEC4"@[3] == '4');
    assert("MAT4"@.len() == 4 && "MAT4"@[0] == 'M');
}

/// Whether a member of a name is written, and with that value only.
pub open spec fn says(form: WrittenView, name: Seq<char>, value: WrittenView) -> bool {
    form matches WrittenView::Members(members) && members.contains((name, value)) && forall|i: int|
        0 <= i < members.len() && (#[trigger] members[i]).0 == name ==> members[i].1 == value
}

/// Whether the bytes that an accessor's form refers to are its items and nothing else: the number
/// of components of its type, times its count, times the width of its components, is the length of
/// the range that it names.
pub open spec fn reads_its_range(d: DocumentView, accessor: int) -> bool {
    let a = d.accessors[accessor];
    let b = d.buffer_views[a.buffer_view as int];
    let form = accessor_form(a);
    &&& a.buffer_view < d.buffer_views.len()
    &&& says(form, "bufferView"@, whole_of(a.buffer_view))
    &&& says(form, "count"@, whole_of(a.count))
    &&& says(form, "componentType"@, WrittenView::Whole(a.component_type as u64))
    &&& says(form, "byteOffset"@, WrittenView::Whole(0))
    &&& says(buffer_view_form(b), "byteLength"@, whole_of(b.length))
    &&& exists|name: Seq<char>| #[trigger]
        says(form, "type"@, WrittenView::Text(name)) && components_of_type(name) * a.count
            * component_width(a.component_type) == b.length
}

/// The names of an accessor's members differ.
proof fn lemma_accessor_names()
    ensures
        "bufferView"@ != "byteOffset"@,
        "bufferView"@ != "componentType"@,
        "bufferView"@ != "count"@,
        "bufferView"@ != "type"@,
        "bufferView"@ != "min"@,
        "bufferView"@ != "max"@,
        "bufferView"@ != "normalized"@,
        "byteOffset"@ != "componentType"@,
        "byteOffset"@ != "count"@,
        "byteOffset"@ != "type"@,
        "byteOffset"@ != "min"@,
        "byteOffset"@ != "max"@,
        "byteOffset"@ != "normalized"@,
        "componentType"@ != "count"@,
        "componentType"@ != "type"@,
        "componentType"@ != "min"@,
        "componentType"@ != "max"@,
        "componentType"@ != "normalized"@,
        "count"@ != "type"@,
        "count"@ != "min"@,
        "count"@ != "max"@,
        "count"@ != "normalized"@,
        "type"@ != "min"@,
        "type"@ != "max"@,
        "type"@ != "normalized"@,
        "min"@ != "max"@,
        "min"@ != "normalized"@,
        "max"@ != "normalized"@,
        "byteLength"@ != "buffer"@,
        "byteLength"@ != "byteOffset"@,
        "byteLength"@ != "target"@,
        "byteOffset"@ != "buffer"@,
        "byteOffset"@ != "target"@,
        "buffer"@ != "target"@,
{
    reveal_strlit("bufferView");
    reveal_strlit("byteOffset");
    reveal_strlit("componentType");
    reveal_strlit("count");
    reveal_strlit("type");
    reveal_strlit("min");
    reveal_strlit("max");
    reveal_strlit("normalized");
    reveal_strlit("byteLength");
    reveal_strlit("buffer");
    reveal_strlit("target");
    assert("bufferView"@.len() == 10 && "bufferView"@[1] == 'u');
    assert("byteOffset"@.len() == 10 && "byteOffset"@[1] == 'y' && "byteOffset"@[4] == 'O');
    assert("byteLength"@.len() == 10 && "byteLength"@[1] == 'y' && "byteLength"@[4] == 'L');
    assert("normalized"@.len() == 10 && "normalized"@[1] == 'o');
    assert("componentType"@.len() == 13);
    assert("count"@.len() == 5);
    assert("type"@.len() == 4);
    assert("min"@.len() == 3 && "min"@[1] == 'i');
    assert("max"@.len() == 3 && "max"@[1] == 'a');
    assert("buffer"@.len() == 6 && "buffer"@[0] == 'b');
    assert("target"@.len() == 6 && "target"@[0] == 't');
}

/// An accessor is written with its range, its count, the type of its components and of its items,
/// and its bounds, and says that it is normalized only if it is.
pub proof fn law_accessor_is_written(a: AccessorView)
    ensures
        ({
            let form = accessor_form(a);
            &&& says(form, "bufferView"@, whole_of(a.buffer_view))
            &&& says(form, "byteOffset"@, WrittenView::Whole(0))
            &&& says(form, "componentType"@, WrittenView::Whole(a.component_type as u64))
            &&& says(form, "count"@, whole_of(a.count))
            &&& exists|name: Seq<char>| #[trigger]
                says(form, "type"@, WrittenView::Text(name)) && components_of_type(name)
                    == match a.kind {
                    AccessorKind::Scalar => 1int,
                    AccessorKind::Vec2 => 2,
                    AccessorKind::Vec3 => 3,
                    AccessorKind::Vec4 => 4,
                    AccessorKind::Mat4 => 16,
                }
            &&& a.bounds matches Some(BoundsView::Singles(low, high)) ==> says(
                form,
                "min"@,
                singles_of(low),
            ) && says(form, "max"@, singles_of(high))
            &&& a.bounds matches Some(BoundsView::Integers(low, high)) ==> says(
                form,
                "min"@,
                rounded_of(low),
            ) && says(form, "max"@, rounded_of(high))
            &&& a.bounds is None ==> !has_name(form->Members_0, "min"@) && !has_name(
                form->Members_0,
                "max"@,
            )
            &&& a.normalized ==> says(form, "normalized"@, WrittenView::Bool(true))
            &&& !a.normalized ==> !has_name(form->Members_0, "normalized"@)
        }),
{
    lemma_accessor_names();
    lemma_type_names();
    let form = accessor_form(a);
    let m = form->Members_0;
    let name = kind_name_of(a.kind);
    assert(m[0] == ("bufferView"@, whole_of(a.buffer_view)));
    assert(m[1] == ("byteOffset"@, WrittenView::Whole(0)));
    assert(m[2] == ("componentType"@, WrittenView::Whole(a.component_type as u64)));
    assert(m[3] == ("count"@, whole_of(a.count)));
    assert(m[4] == ("type"@, WrittenView::Text(name)));
    if a.bounds is Some {
        assert(m[5].0 == "min"@);
        assert(m[6].0 == "max"@);
        assert(m.len() <= 8);
        if a.normalized {
            assert(m[7] == ("normalized"@, WrittenView::Bool(true)));
        }
    } else {
        assert(m.len() <= 6);
        if a.normalized {
            assert(m[5] == ("normalized"@, WrittenView::Bool(true)));
        }
    }
    assert(says(form, "type"@, WrittenView::Text(name)));
}

/// A range of bytes is written with its buffer, its place and its length, and what it is for.
pub proof fn law_range_is_written(b: BufferView)
    ensures
        says(buffer_view_form(b), "buffer"@, WrittenView::Whole(0)),
        says(buffer_view_form(b), "byteOffset"@, whole_of(b.offset)),
        says(buffer_view_form(b), "byteLength"@, whole_of(b.length)),
        b.target matches Some(t) ==> says(
            buffer_view_form(b),
            "target"@,
            WrittenView::Whole(t as u64),
        ),
{
    lemma_accessor_names();
    let m = buffer_view_form(b)->Members_0;
    assert(m[0] == ("buffer"@, WrittenView::Whole(0)));
    assert(m[1] == ("byteOffset"@, whole_of(b.offset)));
    assert(m[2] == ("byteLength"@, whole_of(b.length)));
    if b.target is Some {
        assert(m[3] == ("target"@, WrittenView::Whole(b.target->0 as u64)));
    }
}

/// An attribute of whole items of one to four components, of a type that has their width, is stored
/// as an accessor whose type, count and component type make up its range exactly.
pub proof fn law_new_accessor_reads_its_range(d: DocumentView, a: AttributeView)
    requires
        1 <= a.item_size <= 4,
        a.data.len() == a.count * a.item_size,
        type_fits(a),
        bytes_of(a.data).len() <= usize::MAX,
        d.buffer_views.len() < usize::MAX,
    ensures
        reads_its_range(d.with_accessor(a), d.accessors.len() as int),
{
    let e = d.with_accessor(a);
    let at = d.accessors.len() as int;
    let stored = e.accessors[at];
    let form = accessor_form(stored);
    law_accessor_is_written(stored);
    let name = choose|name: Seq<char>| #[trigger]
        says(form, "type"@, WrittenView::Text(name)) && components_of_type(name)
            == match stored.kind {
            AccessorKind::Scalar => 1int,
            AccessorKind::Vec2 => 2,
            AccessorKind::Vec3 => 3,
            AccessorKind::Vec4 => 4,
            AccessorKind::Mat4 => 16,
        };
    assert(components_of_type(name) == a.item_size);
    let view = stored.buffer_view;
    let b = e.buffer_views[view as int];
    law_range_is_written(b);
    let n = a.item_size as int;
    let count = a.count as int;
    assert(b.length == bytes_of(a.data).len());
    let width = component_width(a.component_type);
    assert(bytes_of(a.data).len() == width * (a.count * a.item_size));
    assert(n * count * width == width * (count * n)) by (nonlinear_arith);
    assert(says(form, "type"@, WrittenView::Text(name)));
}

/// The same of a list of matrices of sixteen numbers.
pub proof fn law_matrices_read_their_range(d: DocumentView, matrices: Seq<u32>)
    requires
        matrices.len() % 16 == 0,
        4 * matrices.len() <= usize::MAX,
        d.buffer_views.len() < usize::MAX,
    ensures
        reads_its_range(d.with_matrices(matrices), d.accessors.len() as int),
{
    let e = d.with_matrices(matrices);
    let at = d.accessors.len() as int;
    let stored = e.accessors[at];
    let form = accessor_form(stored);
    law_accessor_is_written(stored);
    let name = choose|name: Seq<char>| #[trigger]
        says(form, "type"@, WrittenView::Text(name)) && components_of_type(name)
            == match stored.kind {
            AccessorKind::Scalar => 1int,
            AccessorKind::Vec2 => 2,
            AccessorKind::Vec3 => 3,
            AccessorKind::Vec4 => 4,
            AccessorKind::Mat4 => 16,
        };
    let view = stored.buffer_view;
    let b = e.buffer_views[view as int];
    law_range_is_written(b);
    assert(b.length == 4 * matrices.len());
    assert(16 * stored.count * component_width(5126) == b.length);
    assert(says(form, "type"@, WrittenView::Text(name)));
}

/// An accessor that makes up its range goes on doing so, whatever is appended.
pub proof fn law_accessors_go_on_reading_their_range(d: DocumentView, e: DocumentView, accessor: int)
    requires
        only_appended(d, e),
        0 <= accessor < d.accessors.len(),
        d.accessors[accessor].buffer_view < d.buffer_views.len(),
        reads_its_range(d, accessor),
    ensures
        reads_its_range(e, accessor),
{
    reveal(only_appended);
    let form = accessor_form(d.accessors[accessor]);
    assert(e.accessors[accessor] == d.accessors[accessor]);
    let view = d.accessors[accessor].buffer_view as int;
    let b = d.buffer_views[view];
    let c = e.buffer_views[view];
    assert(c.offset == b.offset && c.length == b.length);
    law_range_is_written(c);
    let name = choose|name: Seq<char>| #[trigger]
        says(form, "type"@, WrittenView::Text(name)) && components_of_type(name)
            * d.accessors[accessor].count * component_width(d.accessors[accessor].component_type)
            == b.length;
    assert(says(form, "type"@, WrittenView::Text(name)));
}

/// The same of an attribute whose bytes are said to be for vertices or indices.
pub proof fn law_vertex_accessor_reads_its_range(d: DocumentView, a: AttributeView, target: u32)
    requires
        1 <= a.item_size <= 4,
        a.data.len() == a.count * a.item_size,
        type_fits(a),
        bytes_of(a.data).len() <= usize::MAX,
        d.buffer_views.len() < usize::MAX,
    ensures
        reads_its_range(d.with_vertex_accessor(a, target), d.accessors.len() as int),
        ({
            let e = d.with_vertex_accessor(a, target);
            let view = e.accessors[d.accessors.len() as int].buffer_view as int;
            says(buffer_view_form(e.buffer_views[view]), "target"@, WrittenView::Whole(target as u64))
        }),
{
    law_new_accessor_reads_its_range(d, a);
    let f = d.with_accessor(a);
    let e = d.with_vertex_accessor(a, target);
    let at = d.accessors.len() as int;
    let view = f.accessors[at].buffer_view as int;
    assert(e.accessors[at] == f.accessors[at]);
    assert(e.buffer_views[view].length == f.buffer_views[view].length);
    law_range_is_written(e.buffer_views[view]);
    let form = accessor_form(f.accessors[at]);
    let name = choose|name: Seq<char>| #[trigger]
        says(form, "type"@, WrittenView::Text(name)) && components_of_type(name)
            * f.accessors[at].count * component_width(f.accessors[at].component_type)
            == f.buffer_views[view].length;
    assert(says(form, "type"@, WrittenView::Text(name)));
}

/// Whether an object has a member of that name and value.
pub open spec fn writes(form: WrittenView, name: Seq<char>, value: WrittenView) -> bool {
    form matches WrittenView::Members(members) && members.contains((name, value))
}

/// An image is written as a range of bytes of the kind that it is, a texture as an image with a
/// sampler, and a sampler with its filters and wraps.
pub proof fn law_images_and_textures_are_written(i: Image, t: Texture, s: SamplerSettings)
    ensures
        writes(image_form(i), "bufferView"@, whole_of(i.buffer_view)),
        i.mime == Mime::Png <==> writes(image_form(i), "mimeType"@, WrittenView::Text("image/png"@)),
        i.mime == Mime::Jpeg <==> writes(
            image_form(i),
            "mimeType"@,
            WrittenView::Text("image/jpeg"@),
        ),
        writes(texture_form(t), "source"@, whole_of(t.source)),
        writes(texture_form(t), "sampler"@, whole_of(t.sampler)),
        writes(sampler_form(s), "magFilter"@, WrittenView::Whole(s.mag_filter as u64)),
        writes(sampler_form(s), "minFilter"@, WrittenView::Whole(s.min_filter as u64)),
        writes(sampler_form(s), "wrapS"@, WrittenView::Whole(s.wrap_s as u64)),
        writes(sampler_form(s), "wrapT"@, WrittenView::Whole(s.wrap_t as u64)),
{
    reveal_strlit("image/png");
    reveal_strlit("image/jpeg");
    reveal_strlit("bufferView");
    reveal_strlit("mimeType");
    assert("image/png"@.len() == 9 && "image/jpeg"@.len() == 10);
    assert("bufferView"@.len() == 10 && "mimeType"@.len() == 8);
    let a = image_form(i)->Members_0;
    assert(a[0] == ("bufferView"@, whole_of(i.buffer_view)));
    assert(a[1] == ("mimeType"@, WrittenView::Text(mime_name_of(i.mime))));
    assert(a.len() == 2);
    let b = texture_form(t)->Members_0;
    assert(b[0] == ("source"@, whole_of(t.source)));
    assert(b[1] == ("sampler"@, whole_of(t.sampler)));
    let c = sampler_form(s)->Members_0;
    assert(c[0] == ("magFilter"@, WrittenView::Whole(s.mag_filter as u64)));
    assert(c[1] == ("minFilter"@, WrittenView::Whole(s.min_filter as u64)));
    assert(c[2] == ("wrapS"@, WrittenView::Whole(s.wrap_s as u64)));
    assert(c[3] == ("wrapT"@, WrittenView::Whole(s.wrap_t as u64)));
}

/// Whether a list of numbers is written as given, in order.
pub open spec fn lists_singles(form: WrittenView, numbers: Seq<u32>) -> bool {
    form matches WrittenView::List(items) && items.len() == numbers.len() && forall|i: int|
        0 <= i < items.len() ==> #[trigger] items[i] == WrittenView::Single(numbers[i])
}

/// Whether a list of indices is written as given, in order.
pub open spec fn lists_wholes(form: WrittenView, numbers: Seq<usize>) -> bool {
    form matches WrittenView::List(items) && items.len() == numbers.len() && forall|i: int|
        0 <= i < items.len() ==> #[trigger] items[i] == WrittenView::Whole(numbers[i] as u64)
}

/// A skin is written with its joints, in order, and the accessor of its matrices.
pub proof fn law_skin_is_written(s: SkinView)
    ensures
        writes(skin_form(s), "name"@, WrittenView::Text(s.name)),
        writes(skin_form(s), "inverseBindMatrices"@, whole_of(s.inverse_bind)),
        exists|joints: WrittenView| #[trigger]
            writes(skin_form(s), "joints"@, joints) && lists_wholes(joints, s.joints),
{
    let m = skin_form(s)->Members_0;
    assert(m[0] == ("name"@, WrittenView::Text(s.name)));
    assert(m[1] == ("joints"@, wholes_of(s.joints)));
    assert(m[2] == ("inverseBindMatrices"@, whole_of(s.inverse_bind)));
    assert(writes(skin_form(s), "joints"@, wholes_of(s.joints)));
    assert(lists_wholes(wholes_of(s.joints), s.joints));
}

/// A reference to a texture is written with the texture and the coordinates that it uses, and with
/// its transform, if it has one: offset, scale, and a rotation where it turns.
pub proof fn law_texture_reference_is_written(info: TextureInfo)
    ensures
        ({
            let form = WrittenView::Members(info_members(info));
            &&& writes(form, "index"@, whole_of(info.index))
            &&& writes(form, "texCoord"@, WrittenView::Whole(info.texcoord as u64))
            &&& info.transform is None <==> !has_name(info_members(info), "extensions"@)
            &&& info.transform matches Some(t) ==> exists|outer: WrittenView, inner: WrittenView|
                {
                    &&& #[trigger] writes(form, "extensions"@, outer)
                    &&& #[trigger] writes(outer, "KHR_texture_transform"@, inner)
                    &&& exists|offset: WrittenView| #[trigger]
                        writes(inner, "offset"@, offset) && lists_singles(offset, t.offset@)
                    &&& exists|scale: WrittenView| #[trigger]
                        writes(inner, "scale"@, scale) && lists_singles(scale, t.scale@)
                    &&& t.rotation matches Some(r) ==> writes(
                        inner,
                        "rotation"@,
                        WrittenView::Single(r),
                    )
                }
        }),
{
    reveal_strlit("index");
    reveal_strlit("texCoord");
    reveal_strlit("extensions");
    assert("index"@.len() == 5 && "texCoord"@.len() == 8 && "extensions"@.len() == 10);
    let m = info_members(info);
    let form = WrittenView::Members(m);
    assert(m[0] == ("index"@, whole_of(info.index)));
    assert(m[1] == ("texCoord"@, WrittenView::Whole(info.texcoord as u64)));
    match info.transform {
        Some(t) => {
            let inner = transform_form(t);
            let outer = only_member("KHR_texture_transform"@, inner);
            assert(m[2] == ("extensions"@, outer));
            assert(outer->Members_0[0] == ("KHR_texture_transform"@, inner));
            let n = inner->Members_0;
            assert(n[0] == ("offset"@, singles_of(t.offset@)));
            assert(n[1] == ("scale"@, singles_of(t.scale@)));
            assert(writes(inner, "offset"@, singles_of(t.offset@)));
            assert(writes(inner, "scale"@, singles_of(t.scale@)));
            assert(lists_singles(singles_of(t.offset@), t.offset@));
            assert(lists_singles(singles_of(t.scale@), t.scale@));
            if t.rotation is Some {
                assert(n[2] == ("rotation"@, WrittenView::Single(t.rotation->0)));
            }
            assert(writes(form, "extensions"@, outer));
            assert(writes(outer, "KHR_texture_transform"@, inner));
        },
        None => {},
    }
}

/// One more member keeps what is written.
proof fn lemma_still_written(
    members: Seq<(Seq<char>, WrittenView)>,
    name: Seq<char>,
    value: Option<WrittenView>,
)
    ensures
        forall|x: (Seq<char>, WrittenView)|
            members.contains(x) ==> #[trigger] with_some(members, name, value).contains(x),
        value matches Some(v) ==> with_some(members, name, value).contains((name, v)),
{
    lemma_perhaps_one_more(members, name, value, name);
}

/// A material is written with its surface, and with what else it has: its alpha mode by name, what
/// it cuts off, what it emits, and a reference for each of its textures, under the name of what the
/// texture is for.
pub proof fn law_material_is_written(m: MaterialView)
    ensures
        ({
            let form = material_form(m);
            &&& writes(form, "name"@, WrittenView::Text(m.name))
            &&& writes(form, "doubleSided"@, WrittenView::Bool(m.double_sided))
            &&& writes(form, "pbrMetallicRoughness"@, surface_form(m))
            &&& m.alpha_mode == Some(AlphaMode::Mask) ==> writes(
                form,
                "alphaMode"@,
                WrittenView::Text("MASK"@),
            )
            &&& m.alpha_mode == Some(AlphaMode::Blend) ==> writes(
                form,
                "alphaMode"@,
                WrittenView::Text("BLEND"@),
            )
            &&& m.alpha_mode == Some(AlphaMode::Opaque) ==> writes(
                form,
                "alphaMode"@,
                WrittenView::Text("OPAQUE"@),
            )
            &&& m.alpha_cutoff matches Some(c) ==> writes(
                form,
                "alphaCutoff"@,
                WrittenView::Single(c),
            )
            &&& m.emissive_factor matches Some(f) ==> exists|color: WrittenView| #[trigger]
                writes(form, "emissiveFactor"@, color) && lists_singles(color, f@)
            &&& m.emissive_texture matches Some(i) ==> writes(
                form,
                "emissiveTexture"@,
                WrittenView::Members(info_members(i)),
            )
            &&& m.occlusion_texture matches Some(i) ==> writes(
                form,
                "occlusionTexture"@,
                WrittenView::Members(
                    info_members(i).push(
                        ("strength"@, WrittenView::Double(0x3ff0_0000_0000_0000)),
                    ),
                ),
            )
            &&& m.normal_texture matches Some(i) ==> writes(
                form,
                "normalTexture"@,
                WrittenView::Members(
                    info_members(i).push(("scale"@, WrittenView::Single(m.normal_scale))),
                ),
            )
            &&& extension_members(m).len() > 0 ==> writes(
                form,
                "extensions"@,
                WrittenView::Members(extension_members(m)),
            )
        }),
{
    let base = Seq::empty()
        .push(("name"@, WrittenView::Text(m.name)))
        .push(("doubleSided"@, WrittenView::Bool(m.double_sided)));
    assert(base[0] == ("name"@, WrittenView::Text(m.name)));
    assert(base[1] == ("doubleSided"@, WrittenView::Bool(m.double_sided)));
    assert(base.contains(base[0]) && base.contains(base[1]));
    let mode = match m.alpha_mode {
        Some(mode) => Some(WrittenView::Text(alpha_name_of(mode))),
        None => None,
    };
    let a = with_some(base, "alphaMode"@, mode);
    lemma_still_written(base, "alphaMode"@, mode);
    let b = a.push(("pbrMetallicRoughness"@, surface_form(m)));
    lemma_one_more_member(a, ("pbrMetallicRoughness"@, surface_form(m)), "name"@);
    let color = match m.emissive_factor {
        Some(f) => Some(singles_of(f@)),
        None => None,
    };
    let c = with_some(b, "emissiveFactor"@, color);
    lemma_still_written(b, "emissiveFactor"@, color);
    let d = with_some(c, "emissiveTexture"@, info_form(m.emissive_texture, None));
    lemma_still_written(c, "emissiveTexture"@, info_form(m.emissive_texture, None));
    let occlusion = info_form(
        m.occlusion_texture,
        Some(("strength"@, WrittenView::Double(DOUBLE_ONE))),
    );
    let e = with_some(d, "occlusionTexture"@, occlusion);
    lemma_still_written(d, "occlusionTexture"@, occlusion);
    let normal = info_form(
        m.normal_texture,
        Some(("scale"@, WrittenView::Single(m.normal_scale))),
    );
    let f = with_some(e, "normalTexture"@, normal);
    lemma_still_written(e, "normalTexture"@, normal);
    let cutoff = match m.alpha_cutoff {
        Some(x) => Some(WrittenView::Single(x)),
        None => None,
    };
    let g = with_some(f, "alphaCutoff"@, cutoff);
    lemma_still_written(f, "alphaCutoff"@, cutoff);
    let extensions = extension_members(m);
    lemma_one_more_member(g, ("extensions"@, WrittenView::Members(extensions)), "name"@);
    let form = material_form(m);
    let all = form->Members_0;
    assert forall|x: (Seq<char>, WrittenView)| g.contains(x) implies #[trigger] all.contains(x) by {
        assert(g.push(("extensions"@, WrittenView::Members(extensions))).contains(x));
    }
    assert forall|x: (Seq<char>, WrittenView)| b.contains(x) implies #[trigger] all.contains(x) by {
        assert(c.contains(x));
        assert(d.contains(x));
        assert(e.contains(x));
        assert(f.contains(x));
        assert(g.contains(x));
    }
    assert forall|x: (Seq<char>, WrittenView)| a.contains(x) implies #[trigger] all.contains(x) by {
        assert(b.contains(x));
    }
    assert forall|x: (Seq<char>, WrittenView)| base.contains(x) implies #[trigger] all.contains(x) by {
        assert(a.contains(x));
    }
    assert(all.contains(base[0]) && all.contains(base[1]));
    if mode is Some {
        assert(a.contains(("alphaMode"@, mode->0)));
        assert(all.contains(("alphaMode"@, mode->0)));
    }
    assert(b.contains(("pbrMetallicRoughness"@, surface_form(m))));
    if m.emissive_factor is Some {
        let x = ("emissiveFactor"@, singles_of(m.emissive_factor->0@));
        assert(c.contains(x) && d.contains(x) && e.contains(x) && f.contains(x) && g.contains(x));
        assert(writes(form, "emissiveFactor"@, x.1));
        assert(lists_singles(x.1, m.emissive_factor->0@));
    }
    if m.emissive_texture is Some {
        let x = ("emissiveTexture"@, info_form(m.emissive_texture, None)->0);
        assert(d.contains(x) && e.contains(x) && f.contains(x) && g.contains(x));
        assert(all.contains(x));
    }
    if m.occlusion_texture is Some {
        let x = ("occlusionTexture"@, occlusion->0);
        assert(e.contains(x) && f.contains(x) && g.contains(x));
        assert(all.contains(x));
    }
    if m.normal_texture is Some {
        let x = ("normalTexture"@, normal->0);
        assert(f.contains(x) && g.contains(x));
        assert(all.contains(x));
    }
    if m.alpha_cutoff is Some {
        let x = ("alphaCutoff"@, cutoff->0);
        assert(g.contains(x));
        assert(all.contains(x));
    }
}

/// The surface of a material is written with its color, its metalness and its roughness, as
/// numbers, or as integers where a plain material has zero or one, and with references to its
/// textures.
pub proof fn law_surface_is_written(m: MaterialView)
    ensures
        ({
            let form = surface_form(m);
            let plain = m.alpha_mode is None;
            &&& exists|color: WrittenView|
                {
                    &&& #[trigger] writes(form, "baseColorFactor"@, color)
                    &&& !plain ==> lists_singles(color, m.base_color@)
                    &&& plain && m.base_color == [ONE, ONE, ONE, ONE] ==> (color matches
                        WrittenView::List(items) && items.len() == 4 && forall|i: int|
                        0 <= i < 4 ==> #[trigger] items[i] == WrittenView::Whole(1))
                }
            &&& !plain ==> writes(form, "metallicFactor"@, WrittenView::Single(m.metallic))
            &&& !plain ==> writes(form, "roughnessFactor"@, WrittenView::Single(m.roughness))
            &&& plain && m.metallic == 0 ==> writes(form, "metallicFactor"@, WrittenView::Whole(0))
            &&& plain && m.roughness == ONE ==> writes(
                form,
                "roughnessFactor"@,
                WrittenView::Whole(1),
            )
            &&& m.base_color_texture matches Some(i) ==> writes(
                form,
                "baseColorTexture"@,
                WrittenView::Members(info_members(i)),
            )
            &&& m.metallic_roughness_texture matches Some(i) ==> writes(
                form,
                "metallicRoughnessTexture"@,
                WrittenView::Members(info_members(i)),
            )
        }),
{
    let plain = m.alpha_mode is None;
    let color = WrittenView::List(Seq::new(4, |i: int| factor_form(plain, m.base_color@[i])));
    let base = Seq::empty()
        .push(("baseColorFactor"@, color))
        .push(("metallicFactor"@, factor_form(plain, m.metallic)))
        .push(("roughnessFactor"@, factor_form(plain, m.roughness)));
    let info = info_form(m.base_color_texture, None);
    let other = info_form(m.metallic_roughness_texture, None);
    let a = with_some(base, "baseColorTexture"@, info);
    lemma_still_written(base, "baseColorTexture"@, info);
    lemma_still_written(a, "metallicRoughnessTexture"@, other);
    let form = surface_form(m);
    let all = form->Members_0;
    assert(base[0] == ("baseColorFactor"@, color));
    assert(base[1] == ("metallicFactor"@, factor_form(plain, m.metallic)));
    assert(base[2] == ("roughnessFactor"@, factor_form(plain, m.roughness)));
    assert(base.contains(base[0]) && base.contains(base[1]) && base.contains(base[2]));
    assert(a.contains(base[0]) && a.contains(base[1]) && a.contains(base[2]));
    assert(all.contains(base[0]) && all.contains(base[1]) && all.contains(base[2]));
    if info is Some {
        assert(a.contains(("baseColorTexture"@, info->0)));
        assert(all.contains(("baseColorTexture"@, info->0)));
    }
    assert(writes(form, "baseColorFactor"@, color));
    if !plain {
        assert(lists_singles(color, m.base_color@));
    }
}

/// An extension of a material is written with its numbers, under its name.
pub proof fn law_extensions_are_written_with_their_numbers(m: MaterialView, i: int)
    requires
        0 <= i < m.extensions.len(),
    ensures
        ({
            let form = WrittenView::Members(extension_members(m));
            &&& m.emissive_strength matches Some(s) ==> exists|inner: WrittenView| #[trigger]
                writes(form, "KHR_materials_emissive_strength"@, inner) && writes(
                    inner,
                    "emissiveStrength"@,
                    WrittenView::Single(s),
                )
            &&& m.extensions[i] matches MaterialExtension::Clearcoat(factor, roughness) ==> exists|
                inner: WrittenView,
            | #[trigger]
                writes(form, "KHR_materials_clearcoat"@, inner) && writes(
                    inner,
                    "clearcoatFactor"@,
                    WrittenView::Single(factor),
                ) && writes(inner, "clearcoatRoughnessFactor"@, WrittenView::Single(roughness))
            &&& m.extensions[i] matches MaterialExtension::Specular(factor) ==> exists|
                inner: WrittenView,
            | #[trigger]
                writes(form, "KHR_materials_specular"@, inner) && writes(
                    inner,
                    "specularFactor"@,
                    WrittenView::Double(factor),
                )
        }),
{
    let none = Seq::<(Seq<char>, WrittenView)>::empty();
    let strength = match m.emissive_strength {
        Some(s) => Some(only_member("emissiveStrength"@, WrittenView::Single(s))),
        None => None,
    };
    let strong = with_some(none, "KHR_materials_emissive_strength"@, strength);
    lemma_still_written(none, "KHR_materials_emissive_strength"@, strength);
    let n = m.extensions.len() as int;
    let more = with_extensions(strong, m.extensions, n);
    let unlit = ("KHR_materials_unlit"@, WrittenView::Members(Seq::empty()));
    lemma_one_more_member(more, unlit, "name"@);
    let form = WrittenView::Members(extension_members(m));
    let own = extension_form(m.extensions[i]);
    lemma_extension_is_kept(strong, m.extensions, n, i, own);
    assert(form->Members_0.contains(own)) by {
        assert(more.push(unlit).contains(own));
    }
    if m.emissive_strength is Some {
        let x = ("KHR_materials_emissive_strength"@, strength->0);
        lemma_extension_is_kept(strong, m.extensions, n, i, x);
        assert(more.push(unlit).contains(x));
        assert(writes(form, x.0, x.1));
        assert(x.1->Members_0[0] == ("emissiveStrength"@, WrittenView::Single(m.emissive_strength->0)));
    }
    assert(writes(form, own.0, own.1));
    match m.extensions[i] {
        MaterialExtension::Clearcoat(factor, roughness) => {
            let inner = own.1->Members_0;
            assert(inner[0] == ("clearcoatFactor"@, WrittenView::Single(factor)));
            assert(inner[1] == ("clearcoatRoughnessFactor"@, WrittenView::Single(roughness)));
        },
        MaterialExtension::Specular(factor) => {
            let inner = own.1->Members_0;
            assert(inner[0] == ("specularFactor"@, WrittenView::Double(factor)));
        },
    }
}

/// What is written stays written when extensions are added, and so is each of them.
proof fn lemma_extension_is_kept(
    members: Seq<(Seq<char>, WrittenView)>,
    list: Seq<MaterialExtension>,
    n: int,
    i: int,
    x: (Seq<char>, WrittenView),
)
    requires
        0 <= n <= list.len(),
    ensures
        members.contains(x) ==> with_extensions(members, list, n).contains(x),
        0 <= i < n ==> with_extensions(members, list, n).contains(extension_form(list[i])),
    decreases n,
{
    if n > 0 {
        lemma_extension_is_kept(members, list, n - 1, i, x);
        lemma_one_more_member(
            with_extensions(members, list, n - 1),
            extension_form(list[n - 1]),
            x.0,
        );
    }
}

/// A mesh is written as one primitive with its attributes by name, its indices, its material and
/// its mode; and if it has morph targets, with these in order, their names, and a weight of zero
/// for each.
pub proof fn law_mesh_is_written(m: MeshView, i: int, k: int)
    ensures
        ({
            let form = mesh_form(m);
            let primitive = primitive_form(m);
            &&& writes(form, "name"@, WrittenView::Text(m.name))
            &&& exists|list: WrittenView| #[trigger]
                writes(form, "primitives"@, list) && (list matches WrittenView::List(items)
                    && items.len() == 1 && items[0] == primitive)
            &&& writes(primitive, "indices"@, whole_of(m.indices))
            &&& writes(primitive, "material"@, whole_of(m.material))
            &&& writes(primitive, "mode"@, WrittenView::Whole(m.mode as u64))
            &&& exists|inner: WrittenView| #[trigger]
                writes(primitive, "attributes"@, inner) && (0 <= i < m.attributes.len() ==> writes(
                    inner,
                    m.attributes[i].0,
                    whole_of(m.attributes[i].1),
                ))
            &&& 0 <= k < m.targets.len() ==> {
                &&& exists|list: WrittenView| #[trigger]
                    writes(primitive, "targets"@, list) && (list matches WrittenView::List(items)
                        && items.len() == m.targets.len() && (0 <= i < m.targets[k].attributes.len()
                        ==> writes(
                        items[k],
                        m.targets[k].attributes[i].0,
                        whole_of(m.targets[k].attributes[i].1),
                    )))
                &&& exists|list: WrittenView| #[trigger]
                    writes(form, "weights"@, list) && (list matches WrittenView::List(items)
                        && items.len() == m.targets.len() && items[k] == WrittenView::Double(0))
                &&& exists|inner: WrittenView, list: WrittenView| #[trigger]
                    writes(form, "extras"@, inner) && #[trigger] writes(
                        inner,
                        "targetNames"@,
                        list,
                    ) && (list matches WrittenView::List(items) && items[k] == WrittenView::Text(
                        m.targets[k].name,
                    ))
            }
        }),
{
    let form = mesh_form(m);
    let primitive = primitive_form(m);
    let f = form->Members_0;
    let p = primitive->Members_0;
    assert(f[0] == ("name"@, WrittenView::Text(m.name)));
    let one = WrittenView::List(Seq::empty().push(primitive));
    assert(f[1] == ("primitives"@, one));
    assert(writes(form, "primitives"@, one));
    let named = named_form(m.attributes);
    assert(p[0] == ("attributes"@, named));
    assert(p[1] == ("indices"@, whole_of(m.indices)));
    assert(p[2] == ("material"@, whole_of(m.material)));
    assert(p[3] == ("mode"@, WrittenView::Whole(m.mode as u64)));
    assert(writes(primitive, "attributes"@, named));
    if 0 <= i < m.attributes.len() {
        assert(named->Members_0[i] == (m.attributes[i].0, whole_of(m.attributes[i].1)));
    }
    if 0 <= k < m.targets.len() {
        let targets = targets_form(m.targets);
        assert(p[4] == ("targets"@, targets));
        assert(writes(primitive, "targets"@, targets));
        if 0 <= i < m.targets[k].attributes.len() {
            let inner = targets->List_0[k];
            assert(inner->Members_0[i] == (
                m.targets[k].attributes[i].0,
                whole_of(m.targets[k].attributes[i].1),
            ));
        }
        let weights = resting_weights(m.targets.len());
        assert(f[2] == ("weights"@, weights));
        assert(writes(form, "weights"@, weights));
        let names = target_names(m.targets);
        let extras = only_member("targetNames"@, names);
        assert(f[3] == ("extras"@, extras));
        assert(extras->Members_0[0] == ("targetNames"@, names));
        assert(writes(form, "extras"@, extras));
        assert(writes(extras, "targetNames"@, names));
    }
}

/// A node is written with its name, its children in order, its mesh and skin if it has them, and
/// its place: a matrix of sixteen numbers, or a translation, a rotation and a scale.
pub proof fn law_node_is_written(n: NodeView, place: PlaceView)
    ensures
        ({
            let form = node_form(n, place);
            &&& writes(form, "name"@, WrittenView::Text(n.name))
            &&& n.children.len() > 0 ==> exists|list: WrittenView| #[trigger]
                writes(form, "children"@, list) && lists_wholes(list, n.children)
            &&& n.mesh matches Some(mesh) ==> writes(form, "mesh"@, whole_of(mesh))
            &&& n.skin matches Some(skin) ==> writes(form, "skin"@, whole_of(skin))
            &&& place matches PlaceView::Whole(m) ==> exists|list: WrittenView| #[trigger]
                writes(form, "matrix"@, list) && lists_singles(list, m@)
            &&& place matches PlaceView::Trs(t, r, s) ==> {
                &&& exists|list: WrittenView| #[trigger]
                    writes(form, "translation"@, list) && lists_singles(list, t)
                &&& exists|list: WrittenView| #[trigger]
                    writes(form, "rotation"@, list) && lists_singles(list, r)
                &&& exists|list: WrittenView| #[trigger]
                    writes(form, "scale"@, list) && lists_singles(list, s)
            }
        }),
{
    let base = Seq::empty().push(("name"@, WrittenView::Text(n.name)));
    assert(base[0] == ("name"@, WrittenView::Text(n.name)));
    assert(base.contains(base[0]));
    let children = if n.children.len() > 0 {
        Some(wholes_of(n.children))
    } else {
        None
    };
    let a = with_some(base, "children"@, children);
    lemma_still_written(base, "children"@, children);
    let b = match place {
        PlaceView::Unplaced => a,
        PlaceView::Trs(t, r, s) => a.push(("translation"@, singles_of(t))).push(
            ("rotation"@, singles_of(r)),
        ).push(("scale"@, singles_of(s))),
        PlaceView::Whole(m) => a.push(("matrix"@, singles_of(m@))),
    };
    match place {
        PlaceView::Unplaced => {},
        PlaceView::Trs(t, r, s) => {
            let x = ("translation"@, singles_of(t));
            let y = ("rotation"@, singles_of(r));
            lemma_one_more_member(a, x, "name"@);
            lemma_one_more_member(a.push(x), y, "name"@);
            lemma_one_more_member(a.push(x).push(y), ("scale"@, singles_of(s)), "name"@);
            assert forall|z: (Seq<char>, WrittenView)| a.contains(z) implies #[trigger] b.contains(
                z,
            ) by {
                assert(a.push(x).contains(z));
                assert(a.push(x).push(y).contains(z));
            }
            assert(a.push(x).push(y).contains(x));
            assert(b.contains(x) && b.contains(y));
        },
        PlaceView::Whole(m) => {
            lemma_one_more_member(a, ("matrix"@, singles_of(m@)), "name"@);
        },
    }
    let mesh = match n.mesh {
        Some(i) => Some(whole_of(i)),
        None => None,
    };
    let skin = match n.skin {
        Some(i) => Some(whole_of(i)),
        None => None,
    };
    let c = with_some(b, "mesh"@, mesh);
    lemma_still_written(b, "mesh"@, mesh);
    let all = with_some(c, "skin"@, skin);
    lemma_still_written(c, "skin"@, skin);
    let form = node_form(n, place);
    assert(form == WrittenView::Members(all));
    assert forall|z: (Seq<char>, WrittenView)| b.contains(z) implies #[trigger] all.contains(z) by {
        assert(c.contains(z));
    }
    assert(a.contains(base[0]) && b.contains(base[0]));
    if n.children.len() > 0 {
        let x = ("children"@, wholes_of(n.children));
        assert(a.contains(x) && b.contains(x));
        assert(writes(form, "children"@, x.1));
        assert(lists_wholes(x.1, n.children));
    }
    if n.mesh is Some {
        assert(c.contains(("mesh"@, mesh->0)));
    }
    match place {
        PlaceView::Unplaced => {},
        PlaceView::Trs(t, r, s) => {
            assert(writes(form, "translation"@, singles_of(t)) && lists_singles(singles_of(t), t));
            assert(writes(form, "rotation"@, singles_of(r)) && lists_singles(singles_of(r), r));
            assert(writes(form, "scale"@, singles_of(s)) && lists_singles(singles_of(s), s));
        },
        PlaceView::Whole(m) => {
            assert(writes(form, "matrix"@, singles_of(m@)) && lists_singles(singles_of(m@), m@));
        },
    }
}

/// An animation is written with a linear sampler for each channel, from the channel's times to its
/// values, and a channel that uses this sampler and moves what the channel moves of its node.
pub proof fn law_animation_is_written_by_channels(a: AnimationView, i: int)
    requires
        0 <= i < a.channels.len() <= usize::MAX,
    ensures
        ({
            let form = animation_form(a);
            let c = a.channels[i];
            let path = match c.path {
                ChannelPath::Translation => "translation"@,
                ChannelPath::Rotation => "rotation"@,
                ChannelPath::Scale => "scale"@,
                ChannelPath::Weights => "weights"@,
            };
            &&& writes(form, "name"@, WrittenView::Text(a.name))
            &&& exists|list: WrittenView| #[trigger]
                writes(form, "samplers"@, list) && (list matches WrittenView::List(items)
                    && items.len() == a.channels.len() && writes(
                    items[i],
                    "input"@,
                    whole_of(c.input),
                ) && writes(items[i], "output"@, whole_of(c.output)) && writes(
                    items[i],
                    "interpolation"@,
                    WrittenView::Text("LINEAR"@),
                ))
            &&& exists|list: WrittenView| #[trigger]
                writes(form, "channels"@, list) && (list matches WrittenView::List(items)
                    && items.len() == a.channels.len() && writes(
                    items[i],
                    "sampler"@,
                    WrittenView::Whole(i as u64),
                ) && exists|target: WrittenView| #[trigger]
                    writes(items[i], "target"@, target) && writes(target, "node"@, whole_of(c.node))
                        && writes(target, "path"@, WrittenView::Text(path)))
        }),
{
    let form = animation_form(a);
    let c = a.channels[i];
    let m = form->Members_0;
    let samplers = WrittenView::List(
        Seq::new(a.channels.len(), |k: int| curve_form(a.channels[k])),
    );
    let channels = WrittenView::List(
        Seq::new(a.channels.len(), |k: int| channel_form(a.channels[k], k)),
    );
    assert(m[0] == ("name"@, WrittenView::Text(a.name)));
    assert(m[1] == ("samplers"@, samplers));
    assert(m[2] == ("channels"@, channels));
    assert(writes(form, "samplers"@, samplers));
    assert(writes(form, "channels"@, channels));
    let s = curve_form(c)->Members_0;
    assert(s[0] == ("input"@, whole_of(c.input)));
    assert(s[1] == ("output"@, whole_of(c.output)));
    assert(s[2] == ("interpolation"@, WrittenView::Text("LINEAR"@)));
    let one = channel_form(c, i);
    let n = one->Members_0;
    assert(n[0] == ("sampler"@, WrittenView::Whole(i as u64)));
    let target = n[1].1;
    assert(n[1] == ("target"@, target));
    let t = target->Members_0;
    assert(t[0] == ("node"@, whole_of(c.node)));
    assert(t[1] == ("path"@, WrittenView::Text(path_name_of(c.path))));
    assert(writes(one, "target"@, target));
    assert(channels->List_0[i] == one);
    assert(samplers->List_0[i] == curve_form(c));
}

/// The document is one scene, of the roots in order, with a form for each node, mesh, accessor,
/// range and material, each at its own index; and so for skins, animations, textures, images and
/// samplers, where there are some.
pub proof fn law_document_is_written(
    d: DocumentView,
    used: Seq<Seq<char>>,
    places: Seq<PlaceView>,
    i: int,
)
    requires
        0 <= i,
    ensures
        ({
            let form = WrittenView::Members(document_members(d, used, places));
            &&& writes(form, "scene"@, WrittenView::Whole(0))
            &&& exists|list: WrittenView| #[trigger]
                writes(form, "scenes"@, list) && (list matches WrittenView::List(items)
                    && items.len() == 1 && exists|roots: WrittenView| #[trigger]
                    writes(items[0], "nodes"@, roots) && lists_wholes(roots, d.roots))
            &&& exists|list: WrittenView| #[trigger]
                writes(form, "nodes"@, list) && (list matches WrittenView::List(items)
                    && items.len() == d.nodes.len() && (i < d.nodes.len() ==> items[i] == node_form(
                    d.nodes[i],
                    places[i],
                )))
            &&& exists|list: WrittenView| #[trigger]
                writes(form, "meshes"@, list) && (list matches WrittenView::List(items)
                    && items.len() == d.meshes.len() && (i < d.meshes.len() ==> items[i]
                    == mesh_form(d.meshes[i])))
            &&& exists|list: WrittenView| #[trigger]
                writes(form, "accessors"@, list) && (list matches WrittenView::List(items)
                    && items.len() == d.accessors.len() && (i < d.accessors.len() ==> items[i]
                    == accessor_form(d.accessors[i])))
            &&& exists|list: WrittenView| #[trigger]
                writes(form, "bufferViews"@, list) && (list matches WrittenView::List(items)
                    && items.len() == d.buffer_views.len() && (i < d.buffer_views.len() ==> items[i]
                    == buffer_view_form(d.buffer_views[i])))
            &&& exists|list: WrittenView| #[trigger]
                writes(form, "materials"@, list) && (list matches WrittenView::List(items)
                    && items.len() == d.materials.len() && (i < d.materials.len() ==> items[i]
                    == material_form(d.materials[i])))
            &&& i < d.skins.len() ==> exists|list: WrittenView| #[trigger]
                writes(form, "skins"@, list) && (list matches WrittenView::List(items) && items.len()
                    == d.skins.len() && items[i] == skin_form(d.skins[i]))
            &&& i < d.animations.len() ==> exists|list: WrittenView| #[trigger]
                writes(form, "animations"@, list) && (list matches WrittenView::List(items)
                    && items.len() == d.animations.len() && items[i] == animation_form(
                    d.animations[i],
                ))
            &&& i < d.textures.len() ==> exists|list: WrittenView| #[trigger]
                writes(form, "textures"@, list) && (list matches WrittenView::List(items)
                    && items.len() == d.textures.len() && items[i] == texture_form(d.textures[i]))
            &&& i < d.images.len() ==> exists|list: WrittenView| #[trigger]
                writes(form, "images"@, list) && (list matches WrittenView::List(items)
                    && items.len() == d.images.len() && items[i] == image_form(d.images[i]))
            &&& i < d.samplers.len() ==> exists|list: WrittenView| #[trigger]
                writes(form, "samplers"@, list) && (list matches WrittenView::List(items)
                    && items.len() == d.samplers.len() && items[i] == sampler_form(d.samplers[i]))
        }),
{
    lemma_document_holds(d, used, places);
    let fixed = fixed_members(d, places);
    let form = WrittenView::Members(document_members(d, used, places));
    assert(fixed[1] == ("scene"@, WrittenView::Whole(0)));
    let scene = only_member("nodes"@, wholes_of(d.roots));
    let scenes = WrittenView::List(Seq::empty().push(scene));
    assert(fixed[2] == ("scenes"@, scenes));
    assert(writes(form, "scenes"@, scenes));
    assert(scene->Members_0[0] == ("nodes"@, wholes_of(d.roots)));
    assert(writes(scene, "nodes"@, wholes_of(d.roots)));
    assert(scenes->List_0[0] == scene);
    assert(lists_wholes(wholes_of(d.roots), d.roots));
    assert(fixed[3] == ("nodes"@, nodes_form(d.nodes, places)));
    assert(writes(form, "nodes"@, nodes_form(d.nodes, places)));
    assert(fixed[4] == ("meshes"@, meshes_form(d.meshes)));
    assert(writes(form, "meshes"@, meshes_form(d.meshes)));
    assert(fixed[5] == ("accessors"@, accessors_form(d.accessors)));
    assert(writes(form, "accessors"@, accessors_form(d.accessors)));
    assert(fixed[6] == ("bufferViews"@, buffer_views_form(d.buffer_views)));
    assert(writes(form, "bufferViews"@, buffer_views_form(d.buffer_views)));
    assert(fixed[8] == ("materials"@, materials_form(d.materials)));
    assert(writes(form, "materials"@, materials_form(d.materials)));
    lemma_document_lists(d, used, places);
    if i < d.skins.len() {
        assert(writes(form, "skins"@, skins_form(d.skins)));
    }
    if i < d.animations.len() {
        assert(writes(form, "animations"@, animations_form(d.animations)));
    }
    if i < d.textures.len() {
        assert(writes(form, "textures"@, textures_form(d.textures)));
    }
    if i < d.images.len() {
        assert(writes(form, "images"@, images_form(d.images)));
    }
    if i < d.samplers.len() {
        assert(writes(form, "samplers"@, samplers_form(d.samplers)));
    }
}

/// The lists that have something in them are written.
proof fn lemma_document_lists(d: DocumentView, used: Seq<Seq<char>>, places: Seq<PlaceView>)
    ensures
        ({
            let all = document_members(d, used, places);
            &&& d.skins.len() > 0 ==> all.contains(("skins"@, skins_form(d.skins)))
            &&& d.animations.len() > 0 ==> all.contains(
                ("animations"@, animations_form(d.animations)),
            )
            &&& d.textures.len() > 0 ==> all.contains(("textures"@, textures_form(d.textures)))
            &&& d.samplers.len() > 0 ==> all.contains(("samplers"@, samplers_form(d.samplers)))
        }),
{
    let fixed = fixed_members(d, places);
    let skins = unless_empty(d.skins.len(), skins_form(d.skins));
    let animations = unless_empty(d.animations.len(), animations_form(d.animations));
    let textures = unless_empty(d.textures.len(), textures_form(d.textures));
    let images = unless_empty(d.images.len(), images_form(d.images));
    let samplers = unless_empty(d.samplers.len(), samplers_form(d.samplers));
    let a = with_some(fixed, "skins"@, skins);
    let b = with_some(a, "animations"@, animations);
    let c = with_some(b, "textures"@, textures);
    let e = with_some(c, "images"@, images);
    let f = with_some(e, "samplers"@, samplers);
    lemma_still_written(fixed, "skins"@, skins);
    lemma_still_written(a, "animations"@, animations);
    lemma_still_written(b, "textures"@, textures);
    lemma_still_written(c, "images"@, images);
    lemma_still_written(e, "samplers"@, samplers);
    lemma_still_written(f, "extensionsUsed"@, unless_empty(used.len(), texts_of(used)));
    if d.skins.len() > 0 {
        let x = ("skins"@, skins_form(d.skins));
        assert(a.contains(x) && b.contains(x) && c.contains(x) && e.contains(x) && f.contains(x));
    }
    if d.animations.len() > 0 {
        let x = ("animations"@, animations_form(d.animations));
        assert(b.contains(x) && c.contains(x) && e.contains(x) && f.contains(x));
    }
    if d.textures.len() > 0 {
        let x = ("textures"@, textures_form(d.textures));
        assert(c.contains(x) && e.contains(x) && f.contains(x));
    }
    if d.samplers.len() > 0 {
        assert(f.contains(("samplers"@, samplers_form(d.samplers))));
    }
}

/// The file says that it is glTF 2.0 and what made it.
pub proof fn law_file_says_what_it_is()
    ensures
        writes(asset_form(), "version"@, WrittenView::Text("2.0"@)),
        writes(asset_form(), "generator"@, WrittenView::Text("sketchfab-downloader-rust"@)),
{
    let m = asset_form()->Members_0;
    assert(m[0] == ("version"@, WrittenView::Text("2.0"@)));
    assert(m[1] == ("generator"@, WrittenView::Text("sketchfab-downloader-rust"@)));
}

} // verus!
