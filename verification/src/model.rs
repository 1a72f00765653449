//! A model's description: its materials, textures and animations.

use crate::attributes::own;
use crate::float_bits::ONE;
use crate::geometry::text_opt;
use crate::gltf::{
    lemma_views_push, lemma_views_update, views, AlphaMode, ExportedTransform, MaterialExtension,
    SamplerSettings,
};
use crate::json::{
    array, bool_of, boolean, get, get_of, items_of, kid, kid_count, kids, number, number_of, object,
    single_or, single_or_of, text, text_is, text_of, tree_of, trees, unsigned, unsigned_of, Json,
    Number, Tree,
};
use crate::page::PageError;
use crate::scene::{singles_of, vec_from};
use crate::text::{
    after_last, after_last_of, chars_of, join, part_of, rfind_char, rfind_of, same_text, string_of,
};
use vstd::prelude::*;

verus! {

/// How a texture is moved, scaled and turned, as binary32 patterns.
#[derive(Clone, Copy, Debug, PartialEq, Eq)]
pub struct TextureTransform {
    pub offset: [u32; 2],
    pub scale: [u32; 2],
    pub rotation: u32,
}

/// How a material uses a texture.
#[derive(Debug)]
pub struct TextureUse {
    pub uid: String,
    pub texcoord_unit: u32,
    pub transform: TextureTransform,
    pub sampler: SamplerSettings,
    /// Whether the texture's own alpha is meant, not its brightness.
    pub alpha_channel: bool,
    /// The transform as it is to be written, once it is computed; nothing if it changes nothing.
    pub exported: Option<ExportedTransform>,
}

/// The mathematical counterpart of [`TextureUse`].
#[verifier::ext_equal]
pub ghost struct UseView {
    pub uid: Seq<char>,
    pub texcoord_unit: u32,
    pub transform: TextureTransform,
    pub sampler: SamplerSettings,
    pub alpha_channel: bool,
    pub exported: Option<ExportedTransform>,
}

impl View for TextureUse {
    type V = UseView;

    open spec fn view(&self) -> UseView {
        UseView {
            uid: self.uid@,
            texcoord_unit: self.texcoord_unit,
            transform: self.transform,
            sampler: self.sampler,
            alpha_channel: self.alpha_channel,
            exported: self.exported,
        }
    }
}

/// An optional use.
pub open spec fn use_opt(v: Option<TextureUse>) -> Option<UseView> {
    match v {
        Some(u) => Some(u@),
        None => None,
    }
}

/// Numbers of a material that follow from others by floating-point arithmetic, as binary32
/// patterns. They are zero until they are computed.
#[derive(Clone, Copy, Debug, PartialEq, Eq)]
pub struct Derived {
    pub roughness: u32,
    /// The emissive color, divided by its strength.
    pub emissive: [u32; 3],
    /// The greatest component of the emissive color, but at least one.
    pub emissive_strength: u32,
}

/// A material of the model. Numbers are binary32 patterns.
#[derive(Debug)]
pub struct MaterialEntry {
    pub name: String,
    pub base_color: [u32; 4],
    pub base_color_texture: Option<TextureUse>,
    pub emissive_color: [u32; 3],
    /// What the emissive color is multiplied by.
    pub emissive_factor: u32,
    pub emissive_enabled: bool,
    pub emissive_texture: Option<TextureUse>,
    pub occlusion_texture: Option<TextureUse>,
    pub normal_texture: Option<TextureUse>,
    pub metallic_texture: Option<TextureUse>,
    pub roughness_texture: Option<TextureUse>,
    /// Whether the roughness is given as its opposite.
    pub roughness_invert: bool,
    pub opacity_texture: Option<TextureUse>,
    pub alpha_mask_texture: Option<TextureUse>,
    pub alpha_invert: bool,
    pub normal_scale: u32,
    pub normal_flip_y: bool,
    pub metallic_factor: u32,
    /// The roughness, or its opposite, where it is given.
    pub roughness_factor: Option<Number>,
    pub alpha_mode: AlphaMode,
    pub alpha_cutoff: u32,
    pub double_sided: bool,
    pub unlit: bool,
    pub extensions: Vec<MaterialExtension>,
    pub derived: Derived,
}

/// The mathematical counterpart of [`MaterialEntry`].
#[verifier::ext_equal]
pub ghost struct EntryView {
    pub name: Seq<char>,
    pub base_color: [u32; 4],
    pub base_color_texture: Option<UseView>,
    pub emissive_color: [u32; 3],
    pub emissive_factor: u32,
    pub emissive_enabled: bool,
    pub emissive_texture: Option<UseView>,
    pub occlusion_texture: Option<UseView>,
    pub normal_texture: Option<UseView>,
    pub metallic_texture: Option<UseView>,
    pub roughness_texture: Option<UseView>,
    pub roughness_invert: bool,
    pub opacity_texture: Option<UseView>,
    pub alpha_mask_texture: Option<UseView>,
    pub alpha_invert: bool,
    pub normal_scale: u32,
    pub normal_flip_y: bool,
    pub metallic_factor: u32,
    pub roughness_factor: Option<Number>,
    pub alpha_mode: AlphaMode,
    pub alpha_cutoff: u32,
    pub double_sided: bool,
    pub unlit: bool,
    pub extensions: Seq<MaterialExtension>,
    pub derived: Derived,
}

impl View for MaterialEntry {
    type V = EntryView;

    open spec fn view(&self) -> EntryView {
        EntryView {
            name: self.name@,
            base_color: self.base_color,
            base_color_texture: use_opt(self.base_color_texture),
            emissive_color: self.emissive_color,
            emissive_factor: self.emissive_factor,
            emissive_enabled: self.emissive_enabled,
            emissive_texture: use_opt(self.emissive_texture),
            occlusion_texture: use_opt(self.occlusion_texture),
            normal_texture: use_opt(self.normal_texture),
            metallic_texture: use_opt(self.metallic_texture),
            roughness_texture: use_opt(self.roughness_texture),
            roughness_invert: self.roughness_invert,
            opacity_texture: use_opt(self.opacity_texture),
            alpha_mask_texture: use_opt(self.alpha_mask_texture),
            alpha_invert: self.alpha_invert,
            normal_scale: self.normal_scale,
            normal_flip_y: self.normal_flip_y,
            metallic_factor: self.metallic_factor,
            roughness_factor: self.roughness_factor,
            alpha_mode: self.alpha_mode,
            alpha_cutoff: self.alpha_cutoff,
            double_sided: self.double_sided,
            unlit: self.unlit,
            extensions: self.extensions@,
            derived: self.derived,
        }
    }
}

impl EntryView {
    /// The textures that a material uses, in the order in which they are considered.
    pub open spec fn uses(self) -> Seq<Option<UseView>> {
        seq![
            self.base_color_texture,
            self.emissive_texture,
            self.occlusion_texture,
            self.normal_texture,
            self.metallic_texture,
            self.roughness_texture,
            self.opacity_texture,
            self.alpha_mask_texture,
        ]
    }
}

impl MaterialEntry {
    /// Use `i` of the textures that a material uses.
    pub fn usage(&self, i: usize) -> (r: Option<&TextureUse>)
        requires
            i < 8,
        ensures
            match r {
                Some(u) => self@.uses()[i as int] == Some(u@),
                None => self@.uses()[i as int] is None,
            },
    {
        let slot = if i == 0 {
            &self.base_color_texture
        } else if i == 1 {
            &self.emissive_texture
        } else if i == 2 {
            &self.occlusion_texture
        } else if i == 3 {
            &self.normal_texture
        } else if i == 4 {
            &self.metallic_texture
        } else if i == 5 {
            &self.roughness_texture
        } else if i == 6 {
            &self.opacity_texture
        } else {
            &self.alpha_mask_texture
        };
        match slot {
            Some(u) => Some(u),
            None => None,
        }
    }
}

/// A channel of a material, if it is switched on.
pub open spec fn channel_of(material: Tree, name: Seq<char>) -> Option<Tree> {
    let channel = get_of(get_of(Some(material), "channels"@), name);
    if bool_of(get_of(channel, "enable"@)) == Some(true) {
        channel
    } else {
        None
    }
}

/// A channel of a material, if it is switched on.
pub fn enabled_channel<'a>(material: &'a Json, name: &str) -> (r: Option<&'a Json>)
    ensures
        tree_of(r) == channel_of(material@, name@),
{
    let channel = get(get(Some(material), "channels"), name);
    match boolean(get(channel, "enable")) {
        Some(b) => if b {
            channel
        } else {
            None
        },
        None => None,
    }
}

/// The number of a texture filter.
pub open spec fn filter_of(value: Option<Seq<char>>, default: u32) -> u32 {
    if value == Some("NEAREST"@) {
        9728
    } else if value == Some("LINEAR"@) {
        9729
    } else if value == Some("NEAREST_MIPMAP_NEAREST"@) {
        9984
    } else if value == Some("LINEAR_MIPMAP_NEAREST"@) {
        9985
    } else if value == Some("NEAREST_MIPMAP_LINEAR"@) {
        9986
    } else if value == Some("LINEAR_MIPMAP_LINEAR"@) {
        9987
    } else {
        default
    }
}

/// The number of a texture filter.
pub fn texture_filter(value: Option<&Json>, default: u32) -> (r: u32)
    ensures
        r == filter_of(text_of(tree_of(value)), default),
{
    if text_is(value, "NEAREST") {
        9728
    } else if text_is(value, "LINEAR") {
        9729
    } else if text_is(value, "NEAREST_MIPMAP_NEAREST") {
        9984
    } else if text_is(value, "LINEAR_MIPMAP_NEAREST") {
        9985
    } else if text_is(value, "NEAREST_MIPMAP_LINEAR") {
        9986
    } else if text_is(value, "LINEAR_MIPMAP_LINEAR") {
        9987
    } else {
        default
    }
}

/// The number of a way to wrap a texture.
pub open spec fn wrap_of(value: Option<Seq<char>>) -> u32 {
    if value == Some("CLAMP_TO_EDGE"@) {
        33071
    } else if value == Some("MIRRORED_REPEAT"@) {
        33648
    } else {
        10497
    }
}

/// The number of a way to wrap a texture.
pub fn texture_wrap(value: Option<&Json>) -> (r: u32)
    ensures
        r == wrap_of(text_of(tree_of(value))),
{
    if text_is(value, "CLAMP_TO_EDGE") {
        33071
    } else if text_is(value, "MIRRORED_REPEAT") {
        33648
    } else {
        10497
    }
}

/// An array with the given two numbers.
pub open spec fn pair(s: Seq<u32>) -> [u32; 2] {
    choose|a: [u32; 2]| a@ == s
}

/// An array with the given three numbers.
pub open spec fn triple(s: Seq<u32>) -> [u32; 3] {
    choose|a: [u32; 3]| a@ == s
}

/// An array with the given four numbers.
pub open spec fn quad(s: Seq<u32>) -> [u32; 4] {
    choose|a: [u32; 4]| a@ == s
}

/// Two numbers, with a fallback for each.
pub fn vec2(value: Option<&Json>, fallback: u32) -> (r: [u32; 2])
    ensures
        r@ == singles_of(tree_of(value), seq![fallback, fallback]),
        r == pair(singles_of(tree_of(value), seq![fallback, fallback])),
{
    let default: [u32; 2] = [fallback, fallback];
    assert(default@ =~= seq![fallback, fallback]);
    let v = vec_from(value, &default);
    let r: [u32; 2] = [v[0], v[1]];
    assert(r@ =~= v@);
    proof {
        let c = pair(v@);
        assert(c@ == r@);
        assert(c =~= r);
    }
    r
}

/// Three numbers of a channel's color, one where there is none.
pub fn color3(channel: Option<&Json>) -> (r: [u32; 3])
    ensures
        r@ == singles_of(get_of(tree_of(channel), "color"@), seq![ONE, ONE, ONE]),
        r == triple(singles_of(get_of(tree_of(channel), "color"@), seq![ONE, ONE, ONE])),
{
    let default: [u32; 3] = [ONE, ONE, ONE];
    assert(default@ =~= seq![ONE, ONE, ONE]);
    let v = vec_from(get(channel, "color"), &default);
    let r: [u32; 3] = [v[0], v[1], v[2]];
    assert(r@ =~= v@);
    proof {
        let c = triple(v@);
        assert(c@ == r@);
        assert(c =~= r);
    }
    r
}

/// How a channel uses a texture, nothing if it names none.
pub open spec fn use_of(channel: Option<Tree>) -> Option<UseView> {
    let texture = get_of(channel, "texture"@);
    let moved = get_of(channel, "UVTransforms"@);
    match text_of(get_of(texture, "uid"@)) {
        None => None,
        Some(uid) => Some(
            UseView {
                uid,
                texcoord_unit: match unsigned_of(get_of(texture, "texCoordUnit"@)) {
                    Some(n) => (n % 0x1_0000_0000) as u32,
                    None => 0,
                },
                transform: TextureTransform {
                    offset: pair(singles_of(get_of(moved, "offset"@), seq![0, 0])),
                    scale: pair(singles_of(get_of(moved, "scale"@), seq![ONE, ONE])),
                    rotation: single_or_of(get_of(moved, "rotation"@), 0),
                },
                sampler: SamplerSettings {
                    mag_filter: filter_of(text_of(get_of(texture, "magFilter"@)), 9729),
                    min_filter: filter_of(text_of(get_of(texture, "minFilter"@)), 9987),
                    wrap_s: wrap_of(text_of(get_of(texture, "wrapS"@))),
                    wrap_t: wrap_of(text_of(get_of(texture, "wrapT"@))),
                },
                alpha_channel: text_of(get_of(texture, "internalFormat"@)) == Some("ALPHA"@),
                exported: None,
            },
        ),
    }
}

/// How a channel uses a texture.
pub fn texture_use(channel: Option<&Json>) -> (r: Option<TextureUse>)
    ensures
        use_opt(r) == use_of(tree_of(channel)),
{
    let texture = get(channel, "texture");
    let moved = get(channel, "UVTransforms");
    let uid = match text(get(texture, "uid")) {
        Some(u) => u.clone(),
        None => {
            return None;
        },
    };
    let texcoord_unit: u32 = match unsigned(get(texture, "texCoordUnit")) {
        Some(n) => (n % 0x1_0000_0000) as u32,
        None => 0,
    };
    let offset = vec2(get(moved, "offset"), 0);
    let scale = vec2(get(moved, "scale"), ONE);
    let rotation: u32 = single_or(get(moved, "rotation"), 0);
    Some(
        TextureUse {
            uid,
            texcoord_unit,
            transform: TextureTransform { offset, scale, rotation },
            sampler: SamplerSettings {
                mag_filter: texture_filter(get(texture, "magFilter"), 9729),
                min_filter: texture_filter(get(texture, "minFilter"), 9987),
                wrap_s: texture_wrap(get(texture, "wrapS")),
                wrap_t: texture_wrap(get(texture, "wrapT")),
            },
            alpha_channel: text_is(get(texture, "internalFormat"), "ALPHA"),
            exported: None,
        },
    )
}

/// The first of two channels that is switched on.
pub open spec fn either(a: Option<Tree>, b: Option<Tree>) -> Option<Tree> {
    if a is Some {
        a
    } else {
        b
    }
}

/// The material extensions that are taken over.
pub open spec fn extensions_of(material: Tree) -> Seq<MaterialExtension> {
    let coat = channel_of(material, "ClearCoat"@);
    let specular = channel_of(material, "SpecularF0"@);
    let first = if coat is Some {
        seq![
            MaterialExtension::Clearcoat(
                single_or_of(get_of(coat, "factor"@), ONE),
                single_or_of(
                    get_of(channel_of(material, "ClearCoatRoughness"@), "factor"@),
                    0,
                ),
            ),
        ]
    } else {
        Seq::empty()
    };
    if specular is Some {
        first.push(
            MaterialExtension::Specular(
                match number_of(get_of(specular, "factor"@)) {
                    Some(n) => n.double,
                    None => 0x3ff0_0000_0000_0000,
                },
            ),
        )
    } else {
        first
    }
}

/// The material extensions that are taken over.
fn read_extensions(material: &Json) -> (r: Vec<MaterialExtension>)
    ensures
        r@ == extensions_of(material@),
{
    let mut out: Vec<MaterialExtension> = Vec::new();
    let coat = enabled_channel(material, "ClearCoat");
    if coat.is_some() {
        let factor: u32 = single_or(get(coat, "factor"), ONE);
        let roughness: u32 = single_or(
            get(enabled_channel(material, "ClearCoatRoughness"), "factor"),
            0,
        );
        out.push(MaterialExtension::Clearcoat(factor, roughness));
    }
    let specular = enabled_channel(material, "SpecularF0");
    if specular.is_some() {
        let factor: u64 = match number(get(specular, "factor")) {
            Some(n) => n.double,
            None => 0x3ff0_0000_0000_0000,
        };
        out.push(MaterialExtension::Specular(factor));
    }
    assert(out@ =~= extensions_of(material@));
    out
}

/// Whether a flag is set.
pub open spec fn is_set(v: Option<Tree>) -> bool {
    bool_of(v) == Some(true)
}

/// Whether a flag is set.
fn flag(v: Option<&Json>) -> (r: bool)
    ensures
        r == is_set(tree_of(v)),
{
    match boolean(v) {
        Some(b) => b,
        None => false,
    }
}

/// A material of a model's description, nothing if it has no name.
pub open spec fn entry_of(material: Tree, global_unlit: bool) -> Option<EntryView> {
    let diffuse = either(
        channel_of(material, "DiffusePBR"@),
        channel_of(material, "AlbedoPBR"@),
    );
    let emissive = channel_of(material, "EmitColor"@);
    let normal = channel_of(material, "NormalMap"@);
    let metallic = channel_of(material, "MetalnessPBR"@);
    let rough = channel_of(material, "RoughnessPBR"@);
    let glossy = channel_of(material, "GlossinessPBR"@);
    let roughness = either(rough, glossy);
    let opacity = channel_of(material, "Opacity"@);
    let mask = channel_of(material, "AlphaMask"@);
    let rgb = singles_of(get_of(diffuse, "color"@), seq![ONE, ONE, ONE]);
    if !(material is Object) {
        None
    } else {
        match text_of(get_of(Some(material), "name"@)) {
            None => None,
            Some(name) => Some(
                EntryView {
                    name,
                    base_color: quad(
                        seq![
                            rgb[0],
                            rgb[1],
                            rgb[2],
                            single_or_of(get_of(opacity, "factor"@), ONE),
                        ],
                    ),
                    base_color_texture: use_of(diffuse),
                    emissive_color: triple(
                        singles_of(get_of(emissive, "color"@), seq![ONE, ONE, ONE]),
                    ),
                    emissive_factor: single_or_of(get_of(emissive, "factor"@), ONE),
                    emissive_enabled: emissive is Some,
                    emissive_texture: use_of(emissive),
                    occlusion_texture: use_of(channel_of(material, "AOPBR"@)),
                    normal_texture: use_of(normal),
                    metallic_texture: use_of(metallic),
                    roughness_texture: use_of(roughness),
                    roughness_invert: glossy is Some && rough is None,
                    opacity_texture: use_of(opacity),
                    alpha_mask_texture: use_of(mask),
                    alpha_invert: is_set(get_of(either(opacity, mask), "invert"@)),
                    normal_scale: single_or_of(get_of(normal, "factor"@), ONE),
                    normal_flip_y: is_set(get_of(normal, "flipY"@)),
                    metallic_factor: single_or_of(get_of(metallic, "factor"@), 0),
                    roughness_factor: number_of(get_of(roughness, "factor"@)),
                    alpha_mode: if mask is Some {
                        AlphaMode::Mask
                    } else if opacity is Some {
                        AlphaMode::Blend
                    } else {
                        AlphaMode::Opaque
                    },
                    alpha_cutoff: single_or_of(get_of(mask, "factor"@), 0x3f00_0000),
                    double_sided: text_of(get_of(Some(material), "cullFace"@)) == Some("DISABLE"@),
                    unlit: global_unlit || is_set(get_of(Some(material), "shadeless"@)),
                    extensions: extensions_of(material),
                    derived: Derived {
                        roughness: 0,
                        emissive: triple(seq![0, 0, 0]),
                        emissive_strength: 0,
                    },
                },
            ),
        }
    }
}

/// An optional material.
pub open spec fn entry_opt(v: Option<MaterialEntry>) -> Option<EntryView> {
    match v {
        Some(e) => Some(e@),
        None => None,
    }
}

/// Reads a material of a model's description.
#[verifier::rlimit(40)]
pub fn read_material(material: &Json, global_unlit: bool) -> (r: Option<MaterialEntry>)
    ensures
        entry_opt(r) == entry_of(material@, global_unlit),
{
    if object(Some(material)).is_none() {
        return None;
    }
    let name = match text(get(Some(material), "name")) {
        Some(n) => n.clone(),
        None => {
            return None;
        },
    };
    let diffuse = match enabled_channel(material, "DiffusePBR") {
        Some(c) => Some(c),
        None => enabled_channel(material, "AlbedoPBR"),
    };
    let emissive = enabled_channel(material, "EmitColor");
    let occlusion = enabled_channel(material, "AOPBR");
    let normal = enabled_channel(material, "NormalMap");
    let metallic = enabled_channel(material, "MetalnessPBR");
    let rough = enabled_channel(material, "RoughnessPBR");
    let glossy = enabled_channel(material, "GlossinessPBR");
    let roughness = match rough {
        Some(c) => Some(c),
        None => glossy,
    };
    let opacity = enabled_channel(material, "Opacity");
    let mask = enabled_channel(material, "AlphaMask");
    let inverted = match opacity {
        Some(c) => Some(c),
        None => mask,
    };
    let rgb = color3(diffuse);
    let alpha: u32 = single_or(get(opacity, "factor"), ONE);
    let base_color: [u32; 4] = [rgb[0], rgb[1], rgb[2], alpha];
    proof {
        let s = singles_of(get_of(tree_of(diffuse), "color"@), seq![ONE, ONE, ONE]);
        let c = quad(seq![s[0], s[1], s[2], alpha]);
        assert(base_color@ =~= seq![s[0], s[1], s[2], alpha]);
        assert(c@ == base_color@);
        assert(c =~= base_color);
    }
    let zero: [u32; 3] = [0, 0, 0];
    proof {
        let c = triple(seq![0, 0, 0]);
        assert(zero@ =~= seq![0, 0, 0]);
        assert(c@ == zero@);
        assert(c =~= zero);
    }
    let alpha_mode = if mask.is_some() {
        AlphaMode::Mask
    } else if opacity.is_some() {
        AlphaMode::Blend
    } else {
        AlphaMode::Opaque
    };
    Some(
        MaterialEntry {
            name,
            base_color,
            base_color_texture: texture_use(diffuse),
            emissive_color: color3(emissive),
            emissive_factor: single_or(get(emissive, "factor"), ONE),
            emissive_enabled: emissive.is_some(),
            emissive_texture: texture_use(emissive),
            occlusion_texture: texture_use(occlusion),
            normal_texture: texture_use(normal),
            metallic_texture: texture_use(metallic),
            roughness_texture: texture_use(roughness),
            roughness_invert: glossy.is_some() && rough.is_none(),
            opacity_texture: texture_use(opacity),
            alpha_mask_texture: texture_use(mask),
            alpha_invert: flag(get(inverted, "invert")),
            normal_scale: single_or(get(normal, "factor"), ONE),
            normal_flip_y: flag(get(normal, "flipY")),
            metallic_factor: single_or(get(metallic, "factor"), 0),
            roughness_factor: number(get(roughness, "factor")),
            alpha_mode,
            alpha_cutoff: single_or(get(mask, "factor"), 0x3f00_0000),
            double_sided: text_is(get(Some(material), "cullFace"), "DISABLE"),
            unlit: global_unlit || flag(get(Some(material), "shadeless")),
            extensions: read_extensions(material),
            derived: Derived { roughness: 0, emissive: zero, emissive_strength: 0 },
        },
    )
}

/// The named materials among the first `n` values.
pub open spec fn entries_upto(values: Seq<Tree>, n: int, global_unlit: bool) -> Seq<EntryView>
    decreases n,
{
    if n <= 0 {
        Seq::empty()
    } else {
        let before = entries_upto(values, n - 1, global_unlit);
        match entry_of(values[n - 1], global_unlit) {
            Some(e) => before.push(e),
            None => before,
        }
    }
}

/// Whether a model as a whole is shown without light.
pub open spec fn is_unlit(model: Tree) -> bool {
    text_of(
        get_of(get_of(get_of(Some(model), "options"@), "shading"@), "type"@),
    ) == Some("shadeless"@)
}

/// All named materials of a model's description.
pub open spec fn entries_of(model: Tree) -> Seq<EntryView> {
    match get_of(get_of(Some(model), "options"@), "materials"@) {
        Some(source) => if source is Object {
            entries_upto(kids(source), kids(source).len() as int, is_unlit(model))
        } else {
            Seq::empty()
        },
        None => Seq::empty(),
    }
}

/// Reads all named materials of a model's description.
fn read_entries(model: &Json) -> (r: Vec<MaterialEntry>)
    ensures
        views(r@) == entries_of(model@),
{
    let options = get(Some(model), "options");
    let unlit = text_is(get(get(options, "shading"), "type"), "shadeless");
    let mut out: Vec<MaterialEntry> = Vec::new();
    assert(views(out@) =~= Seq::<EntryView>::empty());
    match get(options, "materials") {
        Some(source) => {
            if object(Some(source)).is_none() {
                return out;
            }
            let n: usize = kid_count(source);
            let mut i: usize = 0;
            while i < n
                invariant
                    i <= n == kids(source@).len(),
                    unlit == is_unlit(model@),
                    views(out@) == entries_upto(kids(source@), i as int, unlit),
                decreases n - i,
            {
                match read_material(kid(source, i), unlit) {
                    Some(e) => {
                        proof {
                            lemma_views_push(out@, e);
                        }
                        out.push(e);
                    },
                    None => {},
                }
                i += 1;
            }
        },
        None => {},
    }
    out
}

/// The position of the material of that name.
pub open spec fn entry_index(list: Seq<EntryView>, name: Seq<char>, from: int) -> Option<int>
    decreases list.len() - from,
{
    if from < 0 || from >= list.len() {
        None
    } else if list[from].name == name {
        Some(from)
    } else {
        entry_index(list, name, from + 1)
    }
}

/// Among the first `n` materials, the last one of each name.
pub open spec fn by_name(all: Seq<EntryView>, n: int) -> Seq<EntryView>
    decreases n,
{
    if n <= 0 {
        Seq::empty()
    } else {
        let before = by_name(all, n - 1);
        match entry_index(before, all[n - 1].name, 0) {
            Some(i) => before.update(i, all[n - 1]),
            None => before.push(all[n - 1]),
        }
    }
}

/// The material of that name.
pub fn find_material(list: &Vec<MaterialEntry>, name: &str) -> (r: Option<usize>)
    ensures
        match r {
            Some(i) => entry_index(views(list@), name@, 0) == Some(i as int) && i < list@.len(),
            None => entry_index(views(list@), name@, 0) is None,
        },
{
    let mut i: usize = 0;
    while i < list.len()
        invariant
            i <= list@.len(),
            entry_index(views(list@), name@, 0) == entry_index(views(list@), name@, i as int),
        decreases list@.len() - i,
    {
        assert(views(list@)[i as int] == list@[i as int]@);
        if same_text(list[i].name.as_str(), name) {
            return Some(i);
        }
        i += 1;
    }
    None
}

/// Where a material of a name is found, it has that name; where none is found, none has it.
pub proof fn lemma_entry_index(list: Seq<EntryView>, name: Seq<char>, from: int)
    requires
        0 <= from,
    ensures
        match entry_index(list, name, from) {
            Some(i) => from <= i < list.len() && list[i].name == name,
            None => forall|j: int| from <= j < list.len() ==> (#[trigger] list[j]).name != name,
        },
    decreases list.len() - from,
{
    if from < list.len() && list[from].name != name {
        lemma_entry_index(list, name, from + 1);
    }
}

/// No two materials of a model share a name, and a material is found under each name that the
/// description has.
pub proof fn law_material_names_are_unique(all: Seq<EntryView>, n: int)
    requires
        0 <= n <= all.len(),
    ensures
        forall|i: int, j: int|
            0 <= i < j < by_name(all, n).len() ==> (#[trigger] by_name(all, n)[i]).name != (
            #[trigger] by_name(all, n)[j]).name,
        forall|k: int|
            0 <= k < n ==> entry_index(by_name(all, n), (#[trigger] all[k]).name, 0) is Some,
    decreases n,
{
    if n > 0 {
        law_material_names_are_unique(all, n - 1);
        let before = by_name(all, n - 1);
        let after = by_name(all, n);
        let e = all[n - 1];
        lemma_entry_index(before, e.name, 0);
        assert forall|i: int, j: int| 0 <= i < j < after.len() implies (#[trigger] after[i]).name
            != (#[trigger] after[j]).name by {
            match entry_index(before, e.name, 0) {
                Some(p) => {
                    assert(before[i].name != before[j].name);
                },
                None => {
                    if j < before.len() {
                        assert(before[i].name != before[j].name);
                    }
                },
            }
        }
        assert forall|k: int| 0 <= k < n implies entry_index(
            after,
            (#[trigger] all[k]).name,
            0,
        ) is Some by {
            let name = all[k].name;
            lemma_entry_index(after, name, 0);
            if k < n - 1 {
                lemma_entry_index(before, name, 0);
                let q = entry_index(before, name, 0)->0;
                assert(after[q].name == name);
            } else {
                match entry_index(before, e.name, 0) {
                    Some(p) => {
                        assert(after[p].name == name);
                    },
                    None => {
                        assert(after[before.len() as int].name == name);
                    },
                }
            }
        }
    }
}

/// A texture of the model.
#[derive(Debug)]
pub struct TextureEntry {
    pub uid: String,
    pub url: String,
    /// The number by which the texture is scrambled, if it is.
    pub pk: Option<u32>,
    pub filename: String,
    /// The name of the file with the texture in order, if there is one.
    pub clean_file: Option<String>,
}

/// The mathematical counterpart of [`TextureEntry`].
#[verifier::ext_equal]
pub ghost struct TextureEntryView {
    pub uid: Seq<char>,
    pub url: Seq<char>,
    pub pk: Option<u32>,
    pub filename: Seq<char>,
    pub clean_file: Option<Seq<char>>,
}

impl View for TextureEntry {
    type V = TextureEntryView;

    open spec fn view(&self) -> TextureEntryView {
        TextureEntryView {
            uid: self.uid@,
            url: self.url@,
            pk: self.pk,
            filename: self.filename@,
            clean_file: text_opt(self.clean_file),
        }
    }
}

/// The name of the file that holds a texture: the one in order, if there is one.
pub open spec fn texture_file_of(t: TextureEntryView) -> Seq<char> {
    match t.clean_file {
        Some(name) => name,
        None => t.filename,
    }
}

/// The name of the file that holds a texture.
pub fn texture_file<'a>(texture: &'a TextureEntry) -> (r: &'a String)
    ensures
        r@ == texture_file_of(texture@),
{
    match &texture.clean_file {
        Some(name) => name,
        None => &texture.filename,
    }
}

/// The name of the file for a texture in order.
pub fn clean_name(uid: &str) -> (r: String)
    ensures
        r@ == uid@ + "_clean.png"@,
{
    join(uid, "_clean.png")
}

/// What is to be done with a downloaded texture.
#[derive(Clone, Copy, Debug, PartialEq, Eq, Structural)]
pub enum TextureTask {
    /// Nothing: it is not scrambled.
    Keep,
    /// Nothing: it was put in order before.
    Reuse,
    /// Put it in order, by that number.
    Clean(u32),
}

/// What is to be done with a downloaded texture, given whether the file with it in order exists.
pub fn texture_task(texture: &TextureEntry, in_order: bool) -> (r: TextureTask)
    ensures
        r == match texture@.pk {
            None => TextureTask::Keep,
            Some(pk) => if in_order {
                TextureTask::Reuse
            } else {
                TextureTask::Clean(pk)
            },
        },
{
    match texture.pk {
        None => TextureTask::Keep,
        Some(pk) => if in_order {
            TextureTask::Reuse
        } else {
            TextureTask::Clean(pk)
        },
    }
}

/// Notes that a texture's file in order exists.
pub fn note_in_order(texture: &mut TextureEntry)
    ensures
        final(texture)@ == (TextureEntryView {
            clean_file: Some(old(texture)@.uid + "_clean.png"@),
            ..old(texture)@
        }),
{
    let name = clean_name(texture.uid.as_str());
    texture.clean_file = Some(name);
}

/// The extension of a file name: what follows its last dot, unless that is its first character or
/// the name is the parent directory's.
pub open spec fn extension_of(name: Seq<char>) -> Option<Seq<char>> {
    match rfind_of(name, '.', name.len() as int) {
        Some(i) => if i == 0 || name == ".."@ {
            None
        } else {
            Some(name.skip(i + 1))
        },
        None => None,
    }
}

/// The extension of a file name.
pub fn extension(name: &str) -> (r: Option<String>)
    ensures
        text_opt(r) == extension_of(name@),
{
    let s = chars_of(name);
    match rfind_char(s.as_slice(), '.', s.len()) {
        Some(i) => {
            if i == 0 || same_text(name, "..") {
                return None;
            }
            assert(s@.subrange(i + 1, s@.len() as int) =~= s@.skip(i + 1));
            Some(string_of(part_of(s.as_slice(), i + 1, s.len()).as_slice()))
        },
        None => None,
    }
}

/// The width of an image, zero if it is not given.
pub open spec fn width_of(image: Tree) -> u64 {
    match unsigned_of(get_of(Some(image), "width"@)) {
        Some(w) => w,
        None => 0,
    }
}

/// The widest of the first `n` images that have an address; of several the last.
pub open spec fn best_image(images: Seq<Tree>, n: int) -> Option<int>
    decreases n,
{
    if n <= 0 {
        None
    } else {
        let before = best_image(images, n - 1);
        if text_of(get_of(Some(images[n - 1]), "url"@)) is None {
            before
        } else {
            match before {
                Some(b) => if width_of(images[b]) > width_of(images[n - 1]) {
                    Some(b)
                } else {
                    Some(n - 1)
                },
                None => Some(n - 1),
            }
        }
    }
}

/// The best image is one with an address, and no image with an address is wider.
pub proof fn law_best_image_is_widest(images: Seq<Tree>, n: int, k: int)
    requires
        0 <= k < n <= images.len(),
        text_of(get_of(Some(images[k]), "url"@)) is Some,
    ensures
        best_image(images, n) matches Some(b) && 0 <= b < n && text_of(
            get_of(Some(images[b]), "url"@),
        ) is Some && width_of(images[b]) >= width_of(images[k]),
    decreases n,
{
    lemma_best_image(images, n - 1);
    if k < n - 1 {
        law_best_image_is_widest(images, n - 1, k);
    }
}

/// The best image is one of the images, with an address.
proof fn lemma_best_image(images: Seq<Tree>, n: int)
    requires
        n <= images.len(),
    ensures
        best_image(images, n) matches Some(b) ==> 0 <= b < n && text_of(
            get_of(Some(images[b]), "url"@),
        ) is Some,
    decreases n,
{
    if n > 0 {
        lemma_best_image(images, n - 1);
    }
}

/// Whether use `k` of material `i` is of the texture.
pub open spec fn uses_texture(all: Seq<EntryView>, i: int, k: int, uid: Seq<char>) -> bool {
    all[i].uses()[k] matches Some(u) && u.uid == uid
}

/// Whether one of the materials uses the texture.
pub open spec fn wanted(all: Seq<EntryView>, uid: Seq<char>) -> bool {
    exists|i: int, k: int|
        0 <= i < all.len() && 0 <= k < 8 && #[trigger] uses_texture(all, i, k, uid)
}

/// Whether one of the materials uses the texture.
fn is_wanted(all: &Vec<MaterialEntry>, uid: &str) -> (r: bool)
    ensures
        r == wanted(views(all@), uid@),
{
    let mut i: usize = 0;
    while i < all.len()
        invariant
            i <= all@.len(),
            forall|a: int, b: int|
                0 <= a < i && 0 <= b < 8 ==> !#[trigger] uses_texture(views(all@), a, b, uid@),
        decreases all@.len() - i,
    {
        assert(views(all@)[i as int] == all@[i as int]@);
        let mut k: usize = 0;
        while k < 8
            invariant
                k <= 8,
                i < all@.len(),
                views(all@)[i as int] == all@[i as int]@,
                forall|a: int, b: int|
                    0 <= a < i && 0 <= b < 8 ==> !#[trigger] uses_texture(views(all@), a, b, uid@),
                forall|b: int|
                    0 <= b < k ==> !#[trigger] uses_texture(views(all@), i as int, b, uid@),
            decreases 8 - k,
        {
            match all[i].usage(k) {
                Some(u) => {
                    if same_text(u.uid.as_str(), uid) {
                        assert(uses_texture(views(all@), i as int, k as int, uid@));
                        return true;
                    }
                },
                None => {},
            }
            k += 1;
        }
        i += 1;
    }
    false
}

/// The texture of a set of images, nothing if the set has no number, is not used, or has no image
/// with an address.
pub open spec fn texture_of(set: Tree, all: Seq<EntryView>) -> Option<TextureEntryView> {
    let images = items_of(get_of(Some(set), "images"@));
    match text_of(get_of(Some(set), "uid"@)) {
        None => None,
        Some(uid) => if !wanted(all, uid) {
            None
        } else {
            match best_image(images, images.len() as int) {
                None => None,
                Some(b) => {
                    let image = Some(images[b]);
                    let url = text_of(get_of(image, "url"@))->0;
                    Some(
                        TextureEntryView {
                            uid,
                            url,
                            pk: match unsigned_of(get_of(image, "pk"@)) {
                                Some(n) => Some((n % 0x1_0000_0000) as u32),
                                None => None,
                            },
                            filename: uid + "."@ + match extension_of(after_last_of(url, '/')) {
                                Some(e) => e,
                                None => "png"@,
                            },
                            clean_file: None,
                        },
                    )
                },
            }
        },
    }
}

/// An optional texture.
pub open spec fn texture_opt(v: Option<TextureEntry>) -> Option<TextureEntryView> {
    match v {
        Some(t) => Some(t@),
        None => None,
    }
}

/// The widest image that has an address.
fn pick_image<'a>(images: &'a Vec<Json>) -> (r: Option<&'a Json>)
    ensures
        match r {
            Some(image) => best_image(trees(images@), images@.len() as int) matches Some(b)
                && image@ == trees(images@)[b] && text_of(get_of(Some(image@), "url"@)) is Some,
            None => best_image(trees(images@), images@.len() as int) is None,
        },
{
    let ghost list = trees(images@);
    let mut best: Option<usize> = None;
    let mut i: usize = 0;
    while i < images.len()
        invariant
            i <= images@.len(),
            list == trees(images@),
            match best {
                Some(b) => best_image(list, i as int) == Some(b as int) && b < i,
                None => best_image(list, i as int) is None,
            },
        decreases images@.len() - i,
    {
        assert(list[i as int] == images@[i as int]@);
        if text(get(Some(&images[i]), "url")).is_some() {
            let width: u64 = match unsigned(get(Some(&images[i]), "width")) {
                Some(w) => w,
                None => 0,
            };
            best = match best {
                Some(b) => {
                    assert(list[b as int] == images@[b as int]@);
                    let other: u64 = match unsigned(get(Some(&images[b]), "width")) {
                        Some(w) => w,
                        None => 0,
                    };
                    if other > width {
                        Some(b)
                    } else {
                        Some(i)
                    }
                },
                None => Some(i),
            };
        }
        i += 1;
    }
    match best {
        Some(b) => {
            proof {
                lemma_best_image(list, list.len() as int);
                assert(list[b as int] == images@[b as int]@);
            }
            Some(&images[b])
        },
        None => None,
    }
}

/// Reads the texture of a set of images.
fn read_texture(set: &Json, all: &Vec<MaterialEntry>) -> (r: Option<TextureEntry>)
    ensures
        texture_opt(r) == texture_of(set@, views(all@)),
{
    let uid = match text(get(Some(set), "uid")) {
        Some(u) => u,
        None => {
            return None;
        },
    };
    if !is_wanted(all, uid.as_str()) {
        return None;
    }
    let images = match array(get(Some(set), "images")) {
        Some(list) => list,
        None => {
            return None;
        },
    };
    let image = match pick_image(images) {
        Some(i) => i,
        None => {
            return None;
        },
    };
    let url = match text(get(Some(image), "url")) {
        Some(u) => u,
        None => {
            return None;
        },
    };
    let ending = match extension(after_last(url.as_str(), '/').as_str()) {
        Some(e) => e,
        None => own("png"),
    };
    let pk: Option<u32> = match unsigned(get(Some(image), "pk")) {
        Some(n) => Some((n % 0x1_0000_0000) as u32),
        None => None,
    };
    let filename = join(join(uid.as_str(), ".").as_str(), ending.as_str());
    Some(
        TextureEntry { uid: uid.clone(), url: url.clone(), pk, filename, clean_file: None },
    )
}

/// The position of the texture of that number.
pub open spec fn texture_index(
    list: Seq<TextureEntryView>,
    uid: Seq<char>,
    from: int,
) -> Option<int>
    decreases list.len() - from,
{
    if from < 0 || from >= list.len() {
        None
    } else if list[from].uid == uid {
        Some(from)
    } else {
        texture_index(list, uid, from + 1)
    }
}

/// The textures of the first `n` sets; a later set replaces an earlier one of its number.
pub open spec fn textures_upto(sets: Seq<Tree>, n: int, all: Seq<EntryView>) -> Seq<
    TextureEntryView,
>
    decreases n,
{
    if n <= 0 {
        Seq::empty()
    } else {
        let before = textures_upto(sets, n - 1, all);
        match texture_of(sets[n - 1], all) {
            None => before,
            Some(t) => match texture_index(before, t.uid, 0) {
                Some(i) => before.update(i, t),
                None => before.push(t),
            },
        }
    }
}

/// The texture of that number.
pub fn find_texture(list: &Vec<TextureEntry>, uid: &str) -> (r: Option<usize>)
    ensures
        match r {
            Some(i) => texture_index(views(list@), uid@, 0) == Some(i as int) && i < list@.len(),
            None => texture_index(views(list@), uid@, 0) is None,
        },
{
    let mut i: usize = 0;
    while i < list.len()
        invariant
            i <= list@.len(),
            texture_index(views(list@), uid@, 0) == texture_index(views(list@), uid@, i as int),
        decreases list@.len() - i,
    {
        assert(views(list@)[i as int] == list@[i as int]@);
        if same_text(list[i].uid.as_str(), uid) {
            return Some(i);
        }
        i += 1;
    }
    None
}

/// Reads the textures of a list of sets.
fn read_textures(results: Option<&Json>, all: &Vec<MaterialEntry>) -> (r: Vec<TextureEntry>)
    ensures
        views(r@) == textures_upto(
            items_of(tree_of(results)),
            items_of(tree_of(results)).len() as int,
            views(all@),
        ),
{
    let mut out: Vec<TextureEntry> = Vec::new();
    assert(views(out@) =~= Seq::<TextureEntryView>::empty());
    match array(results) {
        Some(sets) => {
            let ghost list = trees(sets@);
            let mut i: usize = 0;
            while i < sets.len()
                invariant
                    i <= sets@.len(),
                    list == trees(sets@),
                    views(out@) == textures_upto(list, i as int, views(all@)),
                decreases sets@.len() - i,
            {
                assert(list[i as int] == sets@[i as int]@);
                match read_texture(&sets[i], all) {
                    Some(t) => match find_texture(&out, t.uid.as_str()) {
                        Some(at) => {
                            proof {
                                lemma_views_update(out@, at as int, t);
                            }
                            out.set(at, t);
                        },
                        None => {
                            proof {
                                lemma_views_push(out@, t);
                            }
                            out.push(t);
                        },
                    },
                    None => {},
                }
                i += 1;
            }
        },
        None => {},
    }
    out
}

/// An animation of the model.
#[derive(Debug)]
pub struct AnimationEntry {
    pub uid: String,
    pub name: String,
    pub url: String,
}

/// The mathematical counterpart of [`AnimationEntry`].
#[verifier::ext_equal]
pub ghost struct AnimationEntryView {
    pub uid: Seq<char>,
    pub name: Seq<char>,
    pub url: Seq<char>,
}

impl View for AnimationEntry {
    type V = AnimationEntryView;

    open spec fn view(&self) -> AnimationEntryView {
        AnimationEntryView { uid: self.uid@, name: self.name@, url: self.url@ }
    }
}

/// The animations among the first `n` values: those with a number, a name and an address.
pub open spec fn animations_upto(list: Seq<Tree>, n: int) -> Seq<AnimationEntryView>
    decreases n,
{
    if n <= 0 {
        Seq::empty()
    } else {
        let before = animations_upto(list, n - 1);
        let one = Some(list[n - 1]);
        match (
            text_of(get_of(one, "uid"@)),
            text_of(get_of(one, "name"@)),
            text_of(get_of(one, "url"@)),
        ) {
            (Some(uid), Some(name), Some(url)) => before.push(
                AnimationEntryView { uid, name, url },
            ),
            _ => before,
        }
    }
}

/// Reads the animations of a list.
fn read_animations(results: Option<&Json>) -> (r: Vec<AnimationEntry>)
    ensures
        views(r@) == animations_upto(
            items_of(tree_of(results)),
            items_of(tree_of(results)).len() as int,
        ),
{
    let mut out: Vec<AnimationEntry> = Vec::new();
    assert(views(out@) =~= Seq::<AnimationEntryView>::empty());
    match array(results) {
        Some(items) => {
            let ghost list = trees(items@);
            let mut i: usize = 0;
            while i < items.len()
                invariant
                    i <= items@.len(),
                    list == trees(items@),
                    views(out@) == animations_upto(list, i as int),
                decreases items@.len() - i,
            {
                assert(list[i as int] == items@[i as int]@);
                let one = Some(&items[i]);
                match (text(get(one, "uid")), text(get(one, "name")), text(get(one, "url"))) {
                    (Some(uid), Some(name), Some(url)) => {
                        let entry = AnimationEntry {
                            uid: uid.clone(),
                            name: name.clone(),
                            url: url.clone(),
                        };
                        proof {
                            lemma_views_push(out@, entry);
                        }
                        out.push(entry);
                    },
                    _ => {},
                }
                i += 1;
            }
        },
        None => {},
    }
    out
}

/// What a model's description says.
#[derive(Debug)]
pub struct ModelConfig {
    pub textures: Vec<TextureEntry>,
    pub materials: Vec<MaterialEntry>,
    pub animations: Vec<AnimationEntry>,
    pub vertex_colors: bool,
    pub vertex_color_alpha: bool,
    pub vertex_color_srgb: bool,
    pub flip_uvs: bool,
}

/// The mathematical counterpart of [`ModelConfig`].
#[verifier::ext_equal]
pub ghost struct ConfigView {
    pub textures: Seq<TextureEntryView>,
    pub materials: Seq<EntryView>,
    pub animations: Seq<AnimationEntryView>,
    pub vertex_colors: bool,
    pub vertex_color_alpha: bool,
    pub vertex_color_srgb: bool,
    pub flip_uvs: bool,
}

impl View for ModelConfig {
    type V = ConfigView;

    open spec fn view(&self) -> ConfigView {
        ConfigView {
            textures: views(self.textures@),
            materials: views(self.materials@),
            animations: views(self.animations@),
            vertex_colors: self.vertex_colors,
            vertex_color_alpha: self.vertex_color_alpha,
            vertex_color_srgb: self.vertex_color_srgb,
            flip_uvs: self.flip_uvs,
        }
    }
}

/// The name under which the description keeps what it says of a model.
pub open spec fn model_entry(uid: Seq<char>) -> Seq<char> {
    "/i/models/"@ + uid
}

/// What a description says of a model, nothing if it does not speak of it.
pub open spec fn config_of(prefetched: Tree, uid: Seq<char>) -> Option<ConfigView> {
    let own = get_of(Some(prefetched), model_entry(uid));
    let sets = items_of(
        get_of(get_of(Some(prefetched), model_entry(uid) + "/textures?optimized=1"@), "results"@),
    );
    let moves = items_of(
        get_of(
            get_of(Some(prefetched), model_entry(uid) + "/animations?optimized=1"@),
            "results"@,
        ),
    );
    match own {
        None => None,
        Some(model) => {
            let all = entries_of(model);
            let color = get_of(
                get_of(get_of(Some(model), "options"@), "shading"@),
                "vertexColor"@,
            );
            Some(
                ConfigView {
                    textures: textures_upto(sets, sets.len() as int, all),
                    materials: by_name(all, all.len() as int),
                    animations: animations_upto(moves, moves.len() as int),
                    vertex_colors: is_set(get_of(color, "enable"@)),
                    vertex_color_alpha: is_set(get_of(color, "useAlpha"@)),
                    vertex_color_srgb: text_of(get_of(color, "colorSpace"@)) == Some("srgb"@),
                    flip_uvs: !is_unlit(model),
                },
            )
        },
    }
}

/// Keeps the last material of each name.
fn keep_last(all: Vec<MaterialEntry>) -> (r: Vec<MaterialEntry>)
    ensures
        views(r@) == by_name(views(all@), all@.len() as int),
{
    let ghost list = views(all@);
    let mut rest = all;
    let mut out: Vec<MaterialEntry> = Vec::new();
    assert(views(out@) =~= Seq::<EntryView>::empty());
    let total: usize = rest.len();
    let mut i: usize = 0;
    while i < total
        invariant
            i <= total,
            total == list.len() == all@.len(),
            list == views(all@),
            rest@ == all@.skip(i as int),
            views(out@) == by_name(list, i as int),
        decreases total - i,
    {
        let e = rest.remove(0);
        assert(rest@ =~= all@.skip(i + 1));
        assert(e == all@[i as int]);
        assert(list[i as int] == e@);
        match find_material(&out, e.name.as_str()) {
            Some(at) => {
                proof {
                    lemma_views_update(out@, at as int, e);
                }
                out.set(at, e);
            },
            None => {
                proof {
                    lemma_views_push(out@, e);
                }
                out.push(e);
            },
        }
        i += 1;
    }
    out
}

/// Reads what a description says of a model.
pub fn read_model(prefetched: &Json, uid: &str) -> (r: Result<ModelConfig, PageError>)
    ensures
        match r {
            Ok(c) => config_of(prefetched@, uid@) == Some(c@),
            Err(e) => config_of(prefetched@, uid@) is None && e == PageError::NoModel,
        },
{
    let model_key = join("/i/models/", uid);
    let textures_key = join(model_key.as_str(), "/textures?optimized=1");
    let animations_key = join(model_key.as_str(), "/animations?optimized=1");
    let model = match get(Some(prefetched), model_key.as_str()) {
        Some(m) => m,
        None => {
            return Err(PageError::NoModel);
        },
    };
    let all = read_entries(model);
    let textures = read_textures(
        get(get(Some(prefetched), textures_key.as_str()), "results"),
        &all,
    );
    let animations = read_animations(
        get(get(Some(prefetched), animations_key.as_str()), "results"),
    );
    let shading = get(get(Some(model), "options"), "shading");
    let color = get(shading, "vertexColor");
    let unlit = text_is(get(shading, "type"), "shadeless");
    let materials = keep_last(all);
    Ok(
        ModelConfig {
            textures,
            materials,
            animations,
            vertex_colors: flag(get(color, "enable")),
            vertex_color_alpha: flag(get(color, "useAlpha")),
            vertex_color_srgb: text_is(get(color, "colorSpace"), "srgb"),
            flip_uvs: !unlit,
        },
    )
}

/// Whether a channel of a material is switched on.
pub open spec fn is_on(material: Tree, name: Seq<char>) -> bool {
    get_of(get_of(get_of(Some(material), "channels"@), name), "enable"@) == Some(Tree::Bool(true))
}

/// What a channel of a material says.
pub open spec fn said(material: Tree, name: Seq<char>, what: Seq<char>) -> Option<Tree> {
    get_of(get_of(get_of(Some(material), "channels"@), name), what)
}

/// A number of a channel that is switched on, and a default where there is none.
pub open spec fn said_or(material: Tree, name: Seq<char>, what: Seq<char>, default: u32) -> u32 {
    if is_on(material, name) && said(material, name, what) matches Some(Tree::Number(_)) {
        said(material, name, what)->0->Number_0.single
    } else {
        default
    }
}

/// A value of the description with a name is a material, and no other.
pub proof fn law_materials_have_names(material: Tree, global_unlit: bool)
    ensures
        entry_of(material, global_unlit) is Some <==> material is Object && (get_of(
            Some(material),
            "name"@,
        ) matches Some(Tree::Text(_, _))),
        entry_of(material, global_unlit) matches Some(e) ==> (get_of(
            Some(material),
            "name"@,
        ) matches Some(Tree::Text(n, _)) && e.name == n),
{
}

/// A material is masked if and only if its mask is switched on, blended if and only if its opacity
/// is and its mask is not, and opaque if and only if neither is. The alpha of its color is the
/// factor of its opacity, and what is cut off the factor of its mask, a half if it has none.
pub proof fn law_transparency_follows_its_channels(material: Tree, global_unlit: bool)
    ensures
        entry_of(material, global_unlit) matches Some(e) ==> {
            &&& e.alpha_mode == AlphaMode::Mask <==> is_on(material, "AlphaMask"@)
            &&& e.alpha_mode == AlphaMode::Blend <==> is_on(material, "Opacity"@) && !is_on(
                material,
                "AlphaMask"@,
            )
            &&& e.alpha_mode == AlphaMode::Opaque <==> !is_on(material, "Opacity"@) && !is_on(
                material,
                "AlphaMask"@,
            )
            &&& e.alpha_cutoff == said_or(material, "AlphaMask"@, "factor"@, 0x3f00_0000)
            &&& e.alpha_invert <==> if is_on(material, "Opacity"@) {
                said(material, "Opacity"@, "invert"@) == Some(Tree::Bool(true))
            } else {
                is_on(material, "AlphaMask"@) && said(material, "AlphaMask"@, "invert"@) == Some(
                    Tree::Bool(true),
                )
            }
        },
{
}

/// The factors of a material are those of its channels: metalness from none, the scale of normals
/// from one, and roughness from the roughness channel, or else from that of gloss, which is its
/// opposite.
pub proof fn law_factors_follow_their_channels(material: Tree, global_unlit: bool)
    ensures
        entry_of(material, global_unlit) matches Some(e) ==> {
            &&& e.metallic_factor == said_or(material, "MetalnessPBR"@, "factor"@, 0)
            &&& e.normal_scale == said_or(material, "NormalMap"@, "factor"@, ONE)
            &&& e.normal_flip_y <==> is_on(material, "NormalMap"@) && said(
                material,
                "NormalMap"@,
                "flipY"@,
            ) == Some(Tree::Bool(true))
            &&& e.emissive_enabled <==> is_on(material, "EmitColor"@)
            &&& e.emissive_factor == said_or(material, "EmitColor"@, "factor"@, ONE)
            &&& e.roughness_invert <==> is_on(material, "GlossinessPBR"@) && !is_on(
                material,
                "RoughnessPBR"@,
            )
            &&& is_on(material, "RoughnessPBR"@) ==> e.roughness_factor == number_of(
                said(material, "RoughnessPBR"@, "factor"@),
            )
            &&& !is_on(material, "RoughnessPBR"@) && is_on(material, "GlossinessPBR"@)
                ==> e.roughness_factor == number_of(said(material, "GlossinessPBR"@, "factor"@))
            &&& !is_on(material, "RoughnessPBR"@) && !is_on(material, "GlossinessPBR"@)
                ==> e.roughness_factor is None
        },
{
}

/// The textures of a material are those of its channels that are switched on: the color's of the
/// diffuse channel, or else of the albedo, and the roughness' of the roughness channel, or else of
/// that of gloss.
pub proof fn law_textures_follow_their_channels(material: Tree, global_unlit: bool)
    ensures
        entry_of(material, global_unlit) matches Some(e) ==> {
            &&& e.base_color_texture == if is_on(material, "DiffusePBR"@) {
                use_of(get_of(get_of(Some(material), "channels"@), "DiffusePBR"@))
            } else {
                texture_on(material, "AlbedoPBR"@)
            }
            &&& e.roughness_texture == if is_on(material, "RoughnessPBR"@) {
                use_of(get_of(get_of(Some(material), "channels"@), "RoughnessPBR"@))
            } else {
                texture_on(material, "GlossinessPBR"@)
            }
            &&& e.emissive_texture == texture_on(material, "EmitColor"@)
            &&& e.occlusion_texture == texture_on(material, "AOPBR"@)
            &&& e.normal_texture == texture_on(material, "NormalMap"@)
            &&& e.metallic_texture == texture_on(material, "MetalnessPBR"@)
            &&& e.opacity_texture == texture_on(material, "Opacity"@)
            &&& e.alpha_mask_texture == texture_on(material, "AlphaMask"@)
        },
{
}

/// The texture of a channel, nothing if it is switched off.
pub open spec fn texture_on(material: Tree, name: Seq<char>) -> Option<UseView> {
    if is_on(material, name) {
        use_of(get_of(get_of(Some(material), "channels"@), name))
    } else {
        None
    }
}

/// The color of a material: that of the diffuse channel, or else of the albedo, white where nothing
/// is said, with the opacity's factor as alpha.
pub proof fn law_colors_follow_their_channels(
    material: Tree,
    global_unlit: bool,
    base: [u32; 4],
    glow: [u32; 3],
)
    requires
        base[3] == said_or(material, "Opacity"@, "factor"@, ONE),
        forall|j: int|
            0 <= j < 3 ==> #[trigger] base@[j] == if is_on(material, "DiffusePBR"@) {
                color_said(material, "DiffusePBR"@, j)
            } else {
                color_said(material, "AlbedoPBR"@, j)
            },
        forall|j: int| 0 <= j < 3 ==> #[trigger] glow@[j] == color_said(material, "EmitColor"@, j),
    ensures
        entry_of(material, global_unlit) matches Some(e) ==> e.base_color == base && e.emissive_color
            == glow,
{
    match entry_of(material, global_unlit) {
        Some(e) => {
            let diffuse = either(
                channel_of(material, "DiffusePBR"@),
                channel_of(material, "AlbedoPBR"@),
            );
            let rgb = singles_of(get_of(diffuse, "color"@), seq![ONE, ONE, ONE]);
            let alpha = single_or_of(
                get_of(channel_of(material, "Opacity"@), "factor"@),
                ONE,
            );
            assert(base@[0] == rgb[0] && base@[1] == rgb[1] && base@[2] == rgb[2]);
            assert(base@[3] == alpha);
            assert(seq![rgb[0], rgb[1], rgb[2], alpha] =~= base@);
            let q = quad(base@);
            assert(q@ == base@);
            assert(q =~= base);
            let emit = singles_of(
                get_of(channel_of(material, "EmitColor"@), "color"@),
                seq![ONE, ONE, ONE],
            );
            assert(emit =~= glow@) by {
                assert(glow@[0] == emit[0] && glow@[1] == emit[1] && glow@[2] == emit[2]);
            }
            let t = triple(glow@);
            assert(t@ == glow@);
            assert(t =~= glow);
        },
        None => {},
    }
}

/// A component of the color of a channel that is switched on, one where nothing is said.
pub open spec fn color_said(material: Tree, name: Seq<char>, j: int) -> u32 {
    if is_on(material, name) {
        match said(material, name, "color"@) {
            Some(Tree::Array(list)) => if 0 <= j < list.len() && list[j] is Number {
                list[j]->Number_0.single
            } else {
                ONE
            },
            _ => ONE,
        }
    } else {
        ONE
    }
}

/// A material is seen from both sides if nothing is culled, and unlit if it or the whole model is.
pub proof fn law_sides_and_light(material: Tree, global_unlit: bool)
    ensures
        entry_of(material, global_unlit) matches Some(e) ==> {
            &&& e.double_sided <==> (get_of(Some(material), "cullFace"@) matches Some(
                Tree::Text(t, _),
            ) && t == "DISABLE"@)
            &&& e.unlit <==> global_unlit || get_of(Some(material), "shadeless"@) == Some(
                Tree::Bool(true),
            )
        },
{
}

/// A material has a clear coat if and only if that channel is switched on, with its factor and the
/// factor of the coat's roughness, and a specular factor if and only if that channel is.
pub proof fn law_extensions_follow_their_channels(material: Tree, global_unlit: bool)
    ensures
        entry_of(material, global_unlit) matches Some(e) ==> {
            &&& is_on(material, "ClearCoat"@) <==> exists|i: int|
                0 <= i < e.extensions.len() && #[trigger] e.extensions[i] is Clearcoat
            &&& is_on(material, "SpecularF0"@) <==> exists|i: int|
                0 <= i < e.extensions.len() && #[trigger] e.extensions[i] is Specular
            &&& forall|i: int|
                0 <= i < e.extensions.len() ==> (#[trigger] e.extensions[i] matches
                    MaterialExtension::Clearcoat(factor, roughness) ==> factor == said_or(
                    material,
                    "ClearCoat"@,
                    "factor"@,
                    ONE,
                ) && roughness == said_or(material, "ClearCoatRoughness"@, "factor"@, 0))
            &&& forall|i: int|
                0 <= i < e.extensions.len() ==> (#[trigger] e.extensions[i] matches
                    MaterialExtension::Specular(factor) ==> factor == match said(
                    material,
                    "SpecularF0"@,
                    "factor"@,
                ) {
                    Some(Tree::Number(n)) => n.double,
                    _ => 0x3ff0_0000_0000_0000,
                })
        },
{
    match entry_of(material, global_unlit) {
        Some(e) => {
            let list = e.extensions;
            if is_on(material, "ClearCoat"@) {
                assert(list[0] is Clearcoat);
            }
            if is_on(material, "SpecularF0"@) {
                assert(list[list.len() - 1] is Specular);
            }
        },
        None => {},
    }
}

/// The use of a texture: its number, its unit, how it is filtered and wrapped, by the names of
/// OpenGL, and whether its own alpha counts. It is filtered linearly, between mipmaps when it is
/// small, and repeated, where nothing else is said.
pub proof fn law_texture_use_is_read(channel: Option<Tree>, uid: Seq<char>)
    requires
        get_of(get_of(channel, "texture"@), "uid"@) matches Some(Tree::Text(t, _)) && t == uid,
    ensures
        ({
            let texture = get_of(channel, "texture"@);
            let moved = get_of(channel, "UVTransforms"@);
            use_of(channel) matches Some(u) && {
                &&& u.uid == uid
                &&& unsigned_of(get_of(texture, "texCoordUnit"@)) is None ==> u.texcoord_unit == 0
                &&& unsigned_of(get_of(texture, "texCoordUnit"@)) matches Some(n) ==> (n
                    <= u32::MAX ==> u.texcoord_unit == n)
                &&& u.sampler.mag_filter == filter_of(text_of(get_of(texture, "magFilter"@)), 9729)
                &&& u.sampler.min_filter == filter_of(text_of(get_of(texture, "minFilter"@)), 9987)
                &&& u.sampler.wrap_s == wrap_of(text_of(get_of(texture, "wrapS"@)))
                &&& u.sampler.wrap_t == wrap_of(text_of(get_of(texture, "wrapT"@)))
                &&& u.alpha_channel <==> text_of(get_of(texture, "internalFormat"@)) == Some(
                    "ALPHA"@,
                )
                &&& u.transform.rotation == match get_of(moved, "rotation"@) {
                    Some(Tree::Number(n)) => n.single,
                    _ => 0,
                }
            }
        }),
{
}

/// A texture is moved by its channel's offset and scaled by its scale, not at all where nothing is
/// said.
pub proof fn law_texture_is_moved_and_scaled(
    channel: Option<Tree>,
    offset: [u32; 2],
    scale: [u32; 2],
)
    requires
        forall|j: int|
            0 <= j < 2 ==> #[trigger] offset@[j] == match get_of(
                get_of(channel, "UVTransforms"@),
                "offset"@,
            ) {
                Some(Tree::Array(list)) => if j < list.len() && list[j] is Number {
                    list[j]->Number_0.single
                } else {
                    0
                },
                _ => 0,
            },
        forall|j: int|
            0 <= j < 2 ==> #[trigger] scale@[j] == match get_of(
                get_of(channel, "UVTransforms"@),
                "scale"@,
            ) {
                Some(Tree::Array(list)) => if j < list.len() && list[j] is Number {
                    list[j]->Number_0.single
                } else {
                    ONE
                },
                _ => ONE,
            },
    ensures
        use_of(channel) matches Some(u) ==> u.transform.offset == offset && u.transform.scale
            == scale,
{
    let moved = get_of(channel, "UVTransforms"@);
    let a = singles_of(get_of(moved, "offset"@), seq![0, 0]);
    let b = singles_of(get_of(moved, "scale"@), seq![ONE, ONE]);
    assert(a =~= offset@) by {
        assert(offset@[0] == a[0] && offset@[1] == a[1]);
    }
    assert(b =~= scale@) by {
        assert(scale@[0] == b[0] && scale@[1] == b[1]);
    }
    let p = pair(offset@);
    assert(p@ == offset@);
    assert(p =~= offset);
    let q = pair(scale@);
    assert(q@ == scale@);
    assert(q =~= scale);
}

/// The numbers that OpenGL has for the names of filters: nearest ones are even and linear ones odd,
/// first those without mipmaps, then those with the nearest one, then those between two.
pub proof fn law_filters_have_their_numbers(name: Seq<char>, default: u32)
    ensures
        ({
            let r = filter_of(Some(name), default);
            &&& name == "NEAREST"@ ==> r == 9728
            &&& name == "LINEAR"@ ==> r == 9729
            &&& name == "NEAREST_MIPMAP_NEAREST"@ ==> r == 9984
            &&& name == "LINEAR_MIPMAP_NEAREST"@ ==> r == 9985
            &&& name == "NEAREST_MIPMAP_LINEAR"@ ==> r == 9986
            &&& name == "LINEAR_MIPMAP_LINEAR"@ ==> r == 9987
            &&& r == default || name == "NEAREST"@ || name == "LINEAR"@ || name
                == "NEAREST_MIPMAP_NEAREST"@ || name == "LINEAR_MIPMAP_NEAREST"@ || name
                == "NEAREST_MIPMAP_LINEAR"@ || name == "LINEAR_MIPMAP_LINEAR"@
        }),
        filter_of(None, default) == default,
{
    reveal_strlit("NEAREST");
    reveal_strlit("LINEAR");
    reveal_strlit("NEAREST_MIPMAP_NEAREST");
    reveal_strlit("LINEAR_MIPMAP_NEAREST");
    reveal_strlit("NEAREST_MIPMAP_LINEAR");
    reveal_strlit("LINEAR_MIPMAP_LINEAR");
    assert("NEAREST"@.len() == 7 && "LINEAR"@.len() == 6);
    assert("NEAREST_MIPMAP_NEAREST"@.len() == 22 && "LINEAR_MIPMAP_LINEAR"@.len() == 20);
    assert("LINEAR_MIPMAP_NEAREST"@.len() == 21 && "LINEAR_MIPMAP_NEAREST"@[0] == 'L');
    assert("NEAREST_MIPMAP_LINEAR"@.len() == 21 && "NEAREST_MIPMAP_LINEAR"@[0] == 'N');
}

/// The numbers that OpenGL has for the names of ways to wrap. What has no name of them is repeated.
pub proof fn law_wraps_have_their_numbers(name: Option<Seq<char>>)
    ensures
        name == Some("CLAMP_TO_EDGE"@) <==> wrap_of(name) == 33071,
        name == Some("MIRRORED_REPEAT"@) <==> wrap_of(name) == 33648,
        name != Some("CLAMP_TO_EDGE"@) && name != Some("MIRRORED_REPEAT"@) <==> wrap_of(name)
            == 10497,
{
    reveal_strlit("CLAMP_TO_EDGE");
    reveal_strlit("MIRRORED_REPEAT");
    assert("CLAMP_TO_EDGE"@.len() == 13 && "MIRRORED_REPEAT"@.len() == 15);
}

/// Each value of a description with a name is among its materials, and nothing else is.
proof fn lemma_entries_hold(values: Seq<Tree>, n: int, global_unlit: bool, e: EntryView)
    requires
        0 <= n <= values.len(),
    ensures
        entries_upto(values, n, global_unlit).contains(e) <==> exists|i: int|
            0 <= i < n && entry_of(#[trigger] values[i], global_unlit) == Some(e),
    decreases n,
{
    if n > 0 {
        lemma_entries_hold(values, n - 1, global_unlit, e);
        let before = entries_upto(values, n - 1, global_unlit);
        let after = entries_upto(values, n, global_unlit);
        match entry_of(values[n - 1], global_unlit) {
            Some(x) => {
                assert(after[before.len() as int] == x);
                if before.contains(e) {
                    let k = choose|k: int| 0 <= k < before.len() && before[k] == e;
                    assert(after[k] == e);
                }
                if after.contains(e) {
                    let k = choose|k: int| 0 <= k < after.len() && after[k] == e;
                    if k < before.len() {
                        assert(before[k] == e);
                    } else {
                        assert(entry_of(values[n - 1], global_unlit) == Some(e));
                    }
                }
            },
            None => {},
        }
    }
}

/// The materials of a model are those that its options list, all unlit if its shading is shadeless.
pub proof fn law_model_has_its_materials(model: Tree, members: Seq<(Seq<char>, Tree)>, e: EntryView)
    requires
        get_of(get_of(Some(model), "options"@), "materials"@) == Some(Tree::Object(members)),
    ensures
        entries_of(model).contains(e) <==> exists|i: int|
            0 <= i < members.len() && entry_of(
                (#[trigger] members[i]).1,
                text_of(get_of(get_of(get_of(Some(model), "options"@), "shading"@), "type"@))
                    == Some("shadeless"@),
            ) == Some(e),
{
    let values = kids(Tree::Object(members));
    lemma_entries_hold(values, values.len() as int, is_unlit(model), e);
    assert forall|i: int| 0 <= i < members.len() implies values[i] == (#[trigger] members[i]).1 by {}
    if exists|i: int|
        0 <= i < values.len() && entry_of(#[trigger] values[i], is_unlit(model)) == Some(e) {
        let i = choose|i: int|
            0 <= i < values.len() && entry_of(#[trigger] values[i], is_unlit(model)) == Some(e);
        assert(entry_of(members[i].1, is_unlit(model)) == Some(e));
    }
    if exists|i: int|
        0 <= i < members.len() && entry_of((#[trigger] members[i]).1, is_unlit(model)) == Some(e) {
        let i = choose|i: int|
            0 <= i < members.len() && entry_of((#[trigger] members[i]).1, is_unlit(model)) == Some(
                e,
            );
        assert(entry_of(values[i], is_unlit(model)) == Some(e));
    }
}

/// The description of a model stands under its number, its textures and animations beside it; what
/// it says of vertex colors is taken over, and texture coordinates stay flipped unless it is
/// shadeless.
pub proof fn law_description_is_found(prefetched: Tree, uid: Seq<char>, model: Tree)
    requires
        get_of(Some(prefetched), "/i/models/"@ + uid) == Some(model),
    ensures
        config_of(prefetched, uid) matches Some(c) && {
            let shading = get_of(get_of(Some(model), "options"@), "shading"@);
            let color = get_of(shading, "vertexColor"@);
            let sets = get_of(
                get_of(Some(prefetched), "/i/models/"@ + uid + "/textures?optimized=1"@),
                "results"@,
            );
            let moves = get_of(
                get_of(Some(prefetched), "/i/models/"@ + uid + "/animations?optimized=1"@),
                "results"@,
            );
            &&& c.vertex_colors <==> get_of(color, "enable"@) == Some(Tree::Bool(true))
            &&& c.vertex_color_alpha <==> get_of(color, "useAlpha"@) == Some(Tree::Bool(true))
            &&& c.vertex_color_srgb <==> text_of(get_of(color, "colorSpace"@)) == Some("srgb"@)
            &&& c.flip_uvs <==> text_of(get_of(shading, "type"@)) != Some("shadeless"@)
            &&& forall|k: int|
                #![trigger items_of(sets)[k]]
                0 <= k < items_of(sets).len() && texture_of(items_of(sets)[k], entries_of(model))
                    is Some ==> has_texture(
                    c.textures,
                    texture_of(items_of(sets)[k], entries_of(model))->0.uid,
                )
            &&& forall|k: int|
                #![trigger items_of(moves)[k]]
                0 <= k < items_of(moves).len() ==> match (
                    text_of(get_of(Some(items_of(moves)[k]), "uid"@)),
                    text_of(get_of(Some(items_of(moves)[k]), "name"@)),
                    text_of(get_of(Some(items_of(moves)[k]), "url"@)),
                ) {
                    (Some(id), Some(name), Some(url)) => c.animations.contains(
                        AnimationEntryView { uid: id, name, url },
                    ),
                    _ => true,
                }
        },
        get_of(Some(prefetched), "/i/models/"@ + uid) is None ==> config_of(prefetched, uid) is None,
{
    let c = config_of(prefetched, uid)->0;
    let sets = items_of(
        get_of(
            get_of(Some(prefetched), "/i/models/"@ + uid + "/textures?optimized=1"@),
            "results"@,
        ),
    );
    let moves = items_of(
        get_of(
            get_of(Some(prefetched), "/i/models/"@ + uid + "/animations?optimized=1"@),
            "results"@,
        ),
    );
    assert forall|k: int|
        #![trigger sets[k]]
        0 <= k < sets.len() && texture_of(sets[k], entries_of(model)) is Some implies has_texture(
        c.textures,
        texture_of(sets[k], entries_of(model))->0.uid,
    ) by {
        lemma_textures_hold(sets, sets.len() as int, entries_of(model), k);
    }
    assert forall|k: int| #![trigger moves[k]] 0 <= k < moves.len() implies match (
        text_of(get_of(Some(moves[k]), "uid"@)),
        text_of(get_of(Some(moves[k]), "name"@)),
        text_of(get_of(Some(moves[k]), "url"@)),
    ) {
        (Some(id), Some(name), Some(url)) => c.animations.contains(
            AnimationEntryView { uid: id, name, url },
        ),
        _ => true,
    } by {
        lemma_animations_hold(moves, moves.len() as int, k);
    }
}

/// Whether a list has a texture of a number.
pub open spec fn has_texture(list: Seq<TextureEntryView>, uid: Seq<char>) -> bool {
    exists|i: int| 0 <= i < list.len() && (#[trigger] list[i]).uid == uid
}

/// A texture of a number is found.
proof fn lemma_texture_index(list: Seq<TextureEntryView>, uid: Seq<char>, from: int)
    requires
        0 <= from,
    ensures
        texture_index(list, uid, from) matches Some(i) ==> from <= i < list.len() && list[i].uid
            == uid,
    decreases list.len() - from,
{
    if from < list.len() && list[from].uid != uid {
        lemma_texture_index(list, uid, from + 1);
    }
}

/// The textures of a description are all listed.
proof fn lemma_textures_hold(sets: Seq<Tree>, n: int, all: Seq<EntryView>, k: int)
    requires
        0 <= k < n <= sets.len(),
        texture_of(sets[k], all) is Some,
    ensures
        has_texture(textures_upto(sets, n, all), texture_of(sets[k], all)->0.uid),
    decreases n,
{
    let uid = texture_of(sets[k], all)->0.uid;
    let before = textures_upto(sets, n - 1, all);
    let after = textures_upto(sets, n, all);
    match texture_of(sets[n - 1], all) {
        Some(t) => {
            lemma_texture_index(before, t.uid, 0);
            if k == n - 1 {
                match texture_index(before, t.uid, 0) {
                    Some(i) => {
                        assert(after[i].uid == uid);
                    },
                    None => {
                        assert(after[before.len() as int].uid == uid);
                    },
                }
            } else {
                lemma_textures_hold(sets, n - 1, all, k);
                let i = choose|i: int| 0 <= i < before.len() && (#[trigger] before[i]).uid == uid;
                assert(after[i].uid == uid);
            }
        },
        None => {
            lemma_textures_hold(sets, n - 1, all, k);
        },
    }
}

/// The animations of a description are all listed.
proof fn lemma_animations_hold(list: Seq<Tree>, n: int, k: int)
    requires
        0 <= k < n <= list.len(),
    ensures
        match (
            text_of(get_of(Some(list[k]), "uid"@)),
            text_of(get_of(Some(list[k]), "name"@)),
            text_of(get_of(Some(list[k]), "url"@)),
        ) {
            (Some(uid), Some(name), Some(url)) => animations_upto(list, n).contains(
                AnimationEntryView { uid, name, url },
            ),
            _ => true,
        },
    decreases n,
{
    let before = animations_upto(list, n - 1);
    let after = animations_upto(list, n);
    match (
        text_of(get_of(Some(list[k]), "uid"@)),
        text_of(get_of(Some(list[k]), "name"@)),
        text_of(get_of(Some(list[k]), "url"@)),
    ) {
        (Some(uid), Some(name), Some(url)) => {
            let e = AnimationEntryView { uid, name, url };
            if k == n - 1 {
                assert(after[before.len() as int] == e);
            } else {
                lemma_animations_hold(list, n - 1, k);
                let i = choose|i: int| 0 <= i < before.len() && before[i] == e;
                assert(after[i] == e);
            }
        },
        _ => {},
    }
}

/// A texture is listed if a material uses it and it has an image with an address: under its own
/// number, with the address and the key of the widest such image, and a file that is named by the
/// number and the ending of the address, `png` if it has none.
pub proof fn law_texture_is_listed(set: Tree, images: Seq<Tree>, all: Seq<EntryView>)
    requires
        get_of(Some(set), "images"@) == Some(Tree::Array(images)),
    ensures
        texture_of(set, all) matches Some(t) ==> {
            &&& text_of(get_of(Some(set), "uid"@)) == Some(t.uid)
            &&& wanted(all, t.uid)
            &&& t.clean_file is None
            &&& exists|i: int| #[trigger]
                is_widest(images, i) && text_of(get_of(Some(images[i]), "url"@)) == Some(t.url) && (
                unsigned_of(get_of(Some(images[i]), "pk"@)) matches Some(n) ==> (n <= u32::MAX
                    ==> t.pk == Some(n as u32))) && (unsigned_of(get_of(Some(images[i]), "pk"@))
                    is None ==> t.pk is None)
            &&& extension_of(after_last_of(t.url, '/')) is None ==> t.filename == t.uid + ".png"@
            &&& extension_of(after_last_of(t.url, '/')) matches Some(e) ==> t.filename == t.uid
                + "."@ + e
        },
        (text_of(get_of(Some(set), "uid"@)) matches Some(uid) && wanted(all, uid)) && (exists|i: int|
            0 <= i < images.len() && text_of(get_of(Some(#[trigger] images[i]), "url"@)) is Some)
            ==> texture_of(set, all) is Some,
{
    let n = images.len() as int;
    lemma_best_is_widest(images, n);
    match texture_of(set, all) {
        Some(t) => {
            let b = best_image(images, n)->0;
            assert(is_widest(images, b));
            reveal_strlit(".");
            reveal_strlit("png");
            reveal_strlit(".png");
            assert(t.uid + "."@ + "png"@ =~= t.uid + ".png"@);
        },
        None => {},
    }
}

/// Whether an image has an address, and none of those that have one is wider.
pub open spec fn is_widest(images: Seq<Tree>, i: int) -> bool {
    &&& 0 <= i < images.len()
    &&& text_of(get_of(Some(images[i]), "url"@)) is Some
    &&& forall|k: int|
        0 <= k < images.len() && text_of(get_of(Some(#[trigger] images[k]), "url"@)) is Some
            ==> width_said(images[k]) <= width_said(images[i])
}

/// The width that an image says, zero if it says none.
pub open spec fn width_said(image: Tree) -> u64 {
    match get_of(Some(image), "width"@) {
        Some(Tree::Number(n)) => match n.unsigned {
            Some(w) => w,
            None => 0,
        },
        _ => 0,
    }
}

/// The best image has an address and is the widest.
proof fn lemma_best_is_widest(images: Seq<Tree>, n: int)
    requires
        0 <= n <= images.len(),
    ensures
        match best_image(images, n) {
            Some(i) => 0 <= i < n && text_of(get_of(Some(images[i]), "url"@)) is Some && forall|k: int|
                0 <= k < n && text_of(get_of(Some(#[trigger] images[k]), "url"@)) is Some
                    ==> width_said(images[k]) <= width_said(images[i]),
            None => forall|k: int|
                0 <= k < n ==> text_of(get_of(Some(#[trigger] images[k]), "url"@)) is None,
        },
    decreases n,
{
    if n > 0 {
        lemma_best_is_widest(images, n - 1);
    }
}

/// The ending of a file name is what stands behind its last dot, unless that dot is its first
/// character.
pub proof fn law_ending_stands_behind_the_last_dot(name: Seq<char>, ending: Seq<char>)
    requires
        name.len() > 0,
        name != "."@,
        !ending.contains('.'),
    ensures
        extension_of(name + seq!['.'] + ending) == Some(ending),
        extension_of(seq!['.'] + ending) is None,
        extension_of(ending) is None,
{
    let whole = name + seq!['.'] + ending;
    lemma_last_dot(whole, name.len() as int, whole.len() as int);
    assert(whole.skip(name.len() as int + 1) =~= ending);
    assert(".."@.len() == 2 && ".."@[0] == '.') by {
        reveal_strlit("..");
    }
    if whole =~= ".."@ {
        assert(whole.len() == 2);
        assert(name =~= seq!['.']) by {
            assert(name[0] == whole[0]);
        }
        assert("."@ =~= seq!['.']) by {
            reveal_strlit(".");
        }
    }
    let hidden = seq!['.'] + ending;
    lemma_last_dot(hidden, 0, hidden.len() as int);
    lemma_no_dot(ending, ending.len() as int);
}

/// The last dot is the one behind which there is none.
proof fn lemma_last_dot(s: Seq<char>, at: int, end: int)
    requires
        0 <= at < end <= s.len(),
        s[at] == '.',
        forall|k: int| at < k < end ==> #[trigger] s[k] != '.',
    ensures
        rfind_of(s, '.', end) == Some(at),
    decreases end,
{
    if end - 1 > at {
        lemma_last_dot(s, at, end - 1);
    }
}

/// Where there is no dot, none is found.
proof fn lemma_no_dot(s: Seq<char>, end: int)
    requires
        !s.contains('.'),
        0 <= end <= s.len(),
    ensures
        rfind_of(s, '.', end) is None,
    decreases end,
{
    if end > 0 {
        assert(s[end - 1] != '.');
        lemma_no_dot(s, end - 1);
    }
}

/// A texture with a key is put in order once: it is scrambled if and only if it has a key, and what
/// was put in order before is used again. Its file in order is named by its number.
pub proof fn law_scrambled_textures_are_put_in_order(
    texture: &TextureEntry,
    in_order: bool,
    task: TextureTask,
)
    requires
        call_ensures(texture_task, (texture, in_order), task),
    ensures
        task == TextureTask::Keep <==> texture@.pk is None,
        task == TextureTask::Reuse <==> texture@.pk is Some && in_order,
        task matches TextureTask::Clean(pk) ==> texture@.pk == Some(pk) && !in_order,
{
}

/// The file that holds a texture is the one in order, if there is one, and otherwise the one that
/// was downloaded; the one in order has the name of the texture's number.
pub proof fn law_texture_file_in_order(t: TextureEntryView, uid: &str, name: String)
    requires
        call_ensures(clean_name, (uid,), name),
    ensures
        t.clean_file matches Some(f) ==> texture_file_of(t) == f,
        t.clean_file is None ==> texture_file_of(t) == t.filename,
        name@ == uid@ + "_clean.png"@,
{
}

} // verus!
