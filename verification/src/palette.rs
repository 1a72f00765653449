//! Materials of the result, with the textures that are made for them.

use crate::attributes::own;
use crate::float_bits::{eq_of, equal, lt, lt_of, ONE};
use crate::gltf::{
    image_bytes, info_ok, law_padded_append, lemma_appending_joins, lemma_views_push, material_ok,
    only_appended, padded, views, AlphaMode, Document, DocumentView, Material, MaterialExtension,
    MaterialView, Mime, SamplerSettings, TextureInfo,
};
use crate::images::{
    base_alpha_image, file_opt, flipped_file, flipped_normal_image, masked_file,
    metallic_roughness_image, surface_file, FileView, ImageError, ImageFile,
};
use crate::model::{EntryView, MaterialEntry, TextureUse, UseView};
use crate::text::same_text;
use vstd::prelude::*;

verus! {

/// What a texture is made from: one texture, or several packed into one.
#[derive(Debug)]
pub enum TextureKey {
    Plain { uid: String, sampler: SamplerSettings },
    Packed {
        metallic: Option<String>,
        roughness: Option<String>,
        invert: bool,
        sampler: SamplerSettings,
    },
    Masked {
        base: Option<String>,
        alpha: String,
        invert: bool,
        own_alpha: bool,
        sampler: SamplerSettings,
    },
    Flipped { uid: String, sampler: SamplerSettings },
}

/// The mathematical counterpart of [`TextureKey`].
#[verifier::ext_equal]
pub ghost enum KeyView {
    Plain { uid: Seq<char>, sampler: SamplerSettings },
    Packed {
        metallic: Option<Seq<char>>,
        roughness: Option<Seq<char>>,
        invert: bool,
        sampler: SamplerSettings,
    },
    Masked {
        base: Option<Seq<char>>,
        alpha: Seq<char>,
        invert: bool,
        own_alpha: bool,
        sampler: SamplerSettings,
    },
    Flipped { uid: Seq<char>, sampler: SamplerSettings },
}

impl View for TextureKey {
    type V = KeyView;

    open spec fn view(&self) -> KeyView {
        match self {
            TextureKey::Plain { uid, sampler } => KeyView::Plain { uid: uid@, sampler: *sampler },
            TextureKey::Packed { metallic, roughness, invert, sampler } => KeyView::Packed {
                metallic: crate::geometry::text_opt(*metallic),
                roughness: crate::geometry::text_opt(*roughness),
                invert: *invert,
                sampler: *sampler,
            },
            TextureKey::Masked { base, alpha, invert, own_alpha, sampler } => KeyView::Masked {
                base: crate::geometry::text_opt(*base),
                alpha: alpha@,
                invert: *invert,
                own_alpha: *own_alpha,
                sampler: *sampler,
            },
            TextureKey::Flipped { uid, sampler } => KeyView::Flipped {
                uid: uid@,
                sampler: *sampler,
            },
        }
    }
}

/// Whether two optional texts are the same.
pub fn same_optional(a: &Option<String>, b: &Option<String>) -> (r: bool)
    ensures
        r == (crate::geometry::text_opt(*a) == crate::geometry::text_opt(*b)),
{
    match (a, b) {
        (Some(x), Some(y)) => same_text(x.as_str(), y.as_str()),
        (None, None) => true,
        _ => false,
    }
}

/// Whether two textures are made from the same.
fn same_key(a: &TextureKey, b: &TextureKey) -> (r: bool)
    ensures
        r == (a@ == b@),
{
    match (a, b) {
        (
            TextureKey::Plain { uid: u, sampler: s },
            TextureKey::Plain { uid: v, sampler: t },
        ) => same_text(u.as_str(), v.as_str()) && *s == *t,
        (
            TextureKey::Packed { metallic: m, roughness: o, invert: i, sampler: s },
            TextureKey::Packed { metallic: n, roughness: p, invert: j, sampler: t },
        ) => same_optional(m, n) && same_optional(o, p) && *i == *j && *s == *t,
        (
            TextureKey::Masked { base: b0, alpha: a0, invert: i, own_alpha: w, sampler: s },
            TextureKey::Masked { base: b1, alpha: a1, invert: j, own_alpha: x, sampler: t },
        ) => same_optional(b0, b1) && same_text(a0.as_str(), a1.as_str()) && *i == *j && *w == *x
            && *s == *t,
        (
            TextureKey::Flipped { uid: u, sampler: s },
            TextureKey::Flipped { uid: v, sampler: t },
        ) => same_text(u.as_str(), v.as_str()) && *s == *t,
        _ => false,
    }
}

/// A texture that was made.
#[derive(Debug)]
pub struct Made {
    pub key: TextureKey,
    pub index: usize,
}

impl View for Made {
    type V = (KeyView, usize);

    open spec fn view(&self) -> (KeyView, usize) {
        (self.key@, self.index)
    }
}

/// The extensions of glTF that the result uses.
#[derive(Clone, Copy, Debug, PartialEq, Eq, Structural)]
pub struct Extensions {
    pub texture_transform: bool,
    pub unlit: bool,
    pub emissive_strength: bool,
    pub clearcoat: bool,
    pub specular: bool,
}

/// The document with the textures that were made for it.
#[derive(Debug)]
pub struct Studio {
    pub document: Document,
    pub made: Vec<Made>,
    pub extensions: Extensions,
}

/// The mathematical counterpart of [`Studio`].
#[verifier::ext_equal]
pub ghost struct StudioView {
    pub document: DocumentView,
    pub made: Seq<(KeyView, usize)>,
    pub extensions: Extensions,
}

impl View for Studio {
    type V = StudioView;

    open spec fn view(&self) -> StudioView {
        StudioView {
            document: self.document@,
            made: views(self.made@),
            extensions: self.extensions,
        }
    }
}

/// The texture that was made from that.
pub open spec fn made_index(made: Seq<(KeyView, usize)>, key: KeyView, from: int) -> Option<usize>
    decreases made.len() - from,
{
    if from < 0 || from >= made.len() {
        None
    } else if made[from].0 == key {
        Some(made[from].1)
    } else {
        made_index(made, key, from + 1)
    }
}

/// The sampler with those settings.
pub open spec fn sampler_index(
    list: Seq<SamplerSettings>,
    settings: SamplerSettings,
    from: int,
) -> Option<int>
    decreases list.len() - from,
{
    if from < 0 || from >= list.len() {
        None
    } else if list[from] == settings {
        Some(from)
    } else {
        sampler_index(list, settings, from + 1)
    }
}

/// The document with a sampler of those settings, and the sampler.
pub open spec fn with_sampler_for(d: DocumentView, settings: SamplerSettings) -> (
    DocumentView,
    usize,
) {
    match sampler_index(d.samplers, settings, 0) {
        Some(i) => (d, i as usize),
        None => (d.with_sampler(settings), d.samplers.len() as usize),
    }
}

/// Where a sampler is found, it has the settings.
pub proof fn lemma_sampler_index(
    list: Seq<SamplerSettings>,
    settings: SamplerSettings,
    from: int,
)
    requires
        0 <= from,
    ensures
        match sampler_index(list, settings, from) {
            Some(i) => from <= i < list.len() && list[i] == settings,
            None => forall|j: int| from <= j < list.len() ==> list[j] != settings,
        },
    decreases list.len() - from,
{
    if from < list.len() && list[from] != settings {
        lemma_sampler_index(list, settings, from + 1);
    }
}

/// No sampler is written twice.
pub proof fn law_samplers_stay_unique(d: DocumentView, settings: SamplerSettings)
    requires
        forall|i: int, j: int| 0 <= i < j < d.samplers.len() ==> d.samplers[i] != d.samplers[j],
    ensures
        forall|i: int, j: int|
            0 <= i < j < with_sampler_for(d, settings).0.samplers.len() ==> with_sampler_for(
                d,
                settings,
            ).0.samplers[i] != with_sampler_for(d, settings).0.samplers[j],
        with_sampler_for(d, settings).0.samplers.contains(settings),
{
    lemma_sampler_index(d.samplers, settings, 0);
    let after = with_sampler_for(d, settings).0.samplers;
    match sampler_index(d.samplers, settings, 0) {
        Some(i) => {
            assert(after[i] == settings);
        },
        None => {
            assert(after[d.samplers.len() as int] == settings);
        },
    }
}

impl StudioView {
    /// Whether every reference is to something that exists, and the extensions that are noted are
    /// those that the materials use.
    pub open spec fn wf(self) -> bool {
        self.document.wf() && made_ok(self) && extensions_noted(self)
    }

    /// Whether `after` holds what this does, at the same places, and perhaps more textures and
    /// materials, with every reference to something that exists if that was so before.
    pub open spec fn leads_to(self, after: StudioView) -> bool {
        &&& self.document.textures.len() <= after.document.textures.len()
        &&& self.document.materials.len() <= after.document.materials.len()
        &&& self.document.accessors == after.document.accessors
        &&& self.document.meshes == after.document.meshes
        &&& self.document.skins == after.document.skins
        &&& self.document.nodes == after.document.nodes
        &&& only_appended(self.document, after.document)
        &&& self.wf() ==> after.wf()
    }

    /// One more texture, of an image that the document has.
    pub open spec fn with_made(self, key: KeyView, image: usize, sampler: SamplerSettings) -> (
        StudioView,
        usize,
    ) {
        let (d, at) = with_sampler_for(self.document, sampler);
        let index = d.textures.len() as usize;
        (
            StudioView {
                document: d.with_texture(image, at),
                made: self.made.push((key, index)),
                ..self
            },
            index,
        )
    }

    /// The texture made from that: the one made before, or a new one from the file, if there is
    /// one.
    pub open spec fn obtain(
        self,
        key: KeyView,
        file: Option<Seq<u8>>,
        sampler: SamplerSettings,
    ) -> (StudioView, Option<usize>) {
        match made_index(self.made, key, 0) {
            Some(index) => (self, Some(index)),
            None => match file {
                None => (self, None),
                Some(bytes) => {
                    let image = self.document.images.len() as usize;
                    let (after, index) = StudioView {
                        document: self.document.with_image(bytes, Mime::Png),
                        ..self
                    }.with_made(key, image, sampler);
                    (after, Some(index))
                },
            },
        }
    }
}

/// A texture file, if it exists.
#[derive(Debug)]
pub struct StoredTexture {
    pub uid: String,
    pub file: Option<ImageFile>,
}

/// The mathematical counterpart of [`StoredTexture`].
#[verifier::ext_equal]
pub ghost struct StoredView {
    pub uid: Seq<char>,
    pub file: Option<FileView>,
}

impl View for StoredTexture {
    type V = StoredView;

    open spec fn view(&self) -> StoredView {
        StoredView {
            uid: self.uid@,
            file: match self.file {
                Some(f) => Some(f@),
                None => None,
            },
        }
    }
}

/// The file of a texture.
pub open spec fn stored_file(list: Seq<StoredView>, uid: Seq<char>, from: int) -> Option<FileView>
    decreases list.len() - from,
{
    if from < 0 || from >= list.len() {
        None
    } else if list[from].uid == uid {
        list[from].file
    } else {
        stored_file(list, uid, from + 1)
    }
}

/// The file of a use's texture.
pub open spec fn file_of(list: Seq<StoredView>, usage: Option<UseView>) -> Option<FileView> {
    match usage {
        Some(u) => stored_file(list, u.uid, 0),
        None => None,
    }
}

/// The file of a texture.
fn find_file<'a>(list: &'a Vec<StoredTexture>, uid: &str) -> (r: Option<&'a ImageFile>)
    ensures
        file_opt(r) == stored_file(views(list@), uid@, 0),
{
    let mut i: usize = 0;
    while i < list.len()
        invariant
            i <= list@.len(),
            stored_file(views(list@), uid@, 0) == stored_file(views(list@), uid@, i as int),
        decreases list@.len() - i,
    {
        assert(views(list@)[i as int] == list@[i as int]@);
        if same_text(list[i].uid.as_str(), uid) {
            return match &list[i].file {
                Some(f) => Some(f),
                None => None,
            };
        }
        i += 1;
    }
    None
}

/// A reference seen as a use.
pub open spec fn use_ref(u: Option<&TextureUse>) -> Option<UseView> {
    match u {
        Some(v) => Some(v@),
        None => None,
    }
}

/// The file of a use's texture.
fn file_for<'a>(list: &'a Vec<StoredTexture>, usage: Option<&TextureUse>) -> (r: Option<
    &'a ImageFile,
>)
    ensures
        file_opt(r) == file_of(views(list@), use_ref(usage)),
{
    match usage {
        Some(u) => find_file(list, u.uid.as_str()),
        None => None,
    }
}

impl Studio {
    /// The texture that was made from that.
    pub fn find_made(&self, key: &TextureKey) -> (r: Option<usize>)
        ensures
            r == made_index(self@.made, key@, 0),
            made_ok(self@) ==> (r matches Some(index) ==> index < self@.document.textures.len()),
    {
        proof {
            lemma_made_index(self@.made, key@, 0);
        }
        let mut i: usize = 0;
        while i < self.made.len()
            invariant
                i <= self.made@.len(),
                made_index(self@.made, key@, 0) == made_index(self@.made, key@, i as int),
            decreases self.made@.len() - i,
        {
            assert(self@.made[i as int] == self.made@[i as int]@);
            if same_key(&self.made[i].key, key) {
                return Some(self.made[i].index);
            }
            i += 1;
        }
        None
    }

    /// A sampler of those settings.
    fn sampler_for(&mut self, settings: SamplerSettings) -> (r: usize)
        ensures
            (final(self)@.document, r) == with_sampler_for(old(self)@.document, settings),
            final(self)@.made == old(self)@.made,
            final(self)@.extensions == old(self)@.extensions,
            r < final(self)@.document.samplers.len(),
            old(self)@.document.wf() ==> final(self)@.document.wf(),
            only_appended(old(self)@.document, final(self)@.document),
    {
        proof {
            lemma_appending_joins(self@.document, self@.document, self@.document);
        }
        let mut i: usize = 0;
        while i < self.document.samplers.len()
            invariant
                i <= self.document.samplers@.len(),
                self@ == old(self)@,
                only_appended(self@.document, self@.document),
                sampler_index(self@.document.samplers, settings, 0) == sampler_index(
                    self@.document.samplers,
                    settings,
                    i as int,
                ),
            decreases self.document.samplers@.len() - i,
        {
            if self.document.samplers[i] == settings {
                return i;
            }
            i += 1;
        }
        self.document.add_sampler(settings)
    }

    /// Makes a texture of an image that the document has.
    pub fn make(&mut self, key: TextureKey, image: usize, sampler: SamplerSettings) -> (r: usize)
        ensures
            (final(self)@, r) == old(self)@.with_made(key@, image, sampler),
            r < final(self)@.document.textures.len(),
            image < old(self)@.document.images.len() && made_index(old(self)@.made, key@, 0)
                is None ==> old(self)@.leads_to(final(self)@),
    {
        let ghost before = self@;
        let at: usize = self.sampler_for(sampler);
        let ghost sampled = self@.document;
        let index: usize = self.document.add_texture(image, at);
        let one = Made { key, index };
        proof {
            lemma_appending_joins(before.document, sampled, self@.document);
            lemma_views_push(self.made@, one);
            lemma_made_index(before.made, key@, 0);
        }
        self.made.push(one);
        index
    }

    /// Makes a texture of a new image.
    fn make_new(&mut self, key: TextureKey, bytes: &[u8], sampler: SamplerSettings) -> (r: usize)
        requires
            made_index(old(self)@.made, key@, 0) is None,
        ensures
            (final(self)@, Some(r)) == old(self)@.obtain(key@, Some(bytes@), sampler),
            r < final(self)@.document.textures.len(),
            old(self)@.leads_to(final(self)@),
    {
        let image: usize = self.document.add_image_bytes(bytes, Mime::Png);
        let ghost stored = self@.document;
        let index: usize = self.make(key, image, sampler);
        proof {
            lemma_appending_joins(old(self)@.document, stored, self@.document);
        }
        index
    }
}

/// The texture coordinate that a use reads: the one of its unit, or else the first.
pub open spec fn texcoord_of(units: Seq<(u32, u32)>, unit: u32) -> u32 {
    match unit_entry(units, unit, 0) {
        Some(k) => k,
        None => match least_entry(units, units.len() as int) {
            Some(k) => k,
            None => 0,
        },
    }
}

/// The texture coordinate of a unit.
pub open spec fn unit_entry(units: Seq<(u32, u32)>, unit: u32, from: int) -> Option<u32>
    decreases units.len() - from,
{
    if from < 0 || from >= units.len() {
        None
    } else if units[from].0 == unit {
        Some(units[from].1)
    } else {
        unit_entry(units, unit, from + 1)
    }
}

/// The least texture coordinate among the first `n` units.
pub open spec fn least_entry(units: Seq<(u32, u32)>, n: int) -> Option<u32>
    decreases n,
{
    if n <= 0 {
        None
    } else {
        match least_entry(units, n - 1) {
            Some(k) => if units[n - 1].1 < k {
                Some(units[n - 1].1)
            } else {
                Some(k)
            },
            None => Some(units[n - 1].1),
        }
    }
}

/// The texture coordinate that a use reads.
pub fn texcoord_for(units: &Vec<(u32, u32)>, unit: u32) -> (r: u32)
    ensures
        r == texcoord_of(units@, unit),
{
    let mut i: usize = 0;
    while i < units.len()
        invariant
            i <= units@.len(),
            unit_entry(units@, unit, 0) == unit_entry(units@, unit, i as int),
        decreases units@.len() - i,
    {
        if units[i].0 == unit {
            return units[i].1;
        }
        i += 1;
    }
    let mut least: Option<u32> = None;
    let mut k: usize = 0;
    while k < units.len()
        invariant
            k <= units@.len(),
            least == least_entry(units@, k as int),
        decreases units@.len() - k,
    {
        let one: u32 = units[k].1;
        least = match least {
            Some(v) => if one < v {
                Some(one)
            } else {
                Some(v)
            },
            None => Some(one),
        };
        k += 1;
    }
    match least {
        Some(v) => v,
        None => 0,
    }
}

/// A reference to a texture.
pub open spec fn info_of(index: usize, usage: UseView, units: Seq<(u32, u32)>) -> TextureInfo {
    TextureInfo {
        index,
        texcoord: texcoord_of(units, usage.texcoord_unit),
        transform: usage.exported,
    }
}

/// A reference to a texture that was made.
pub fn texture_info_for_index(index: usize, usage: &TextureUse, units: &Vec<(u32, u32)>) -> (r:
    TextureInfo)
    ensures
        r == info_of(index, usage@, units@),
{
    TextureInfo {
        index,
        texcoord: texcoord_for(units, usage.texcoord_unit),
        transform: usage.exported,
    }
}

/// A reference to a use's own texture, if it was made.
pub open spec fn plain_info(
    made: Seq<(KeyView, usize)>,
    usage: Option<UseView>,
    units: Seq<(u32, u32)>,
) -> Option<TextureInfo> {
    match usage {
        None => None,
        Some(u) => match made_index(made, KeyView::Plain { uid: u.uid, sampler: u.sampler }, 0) {
            Some(index) => Some(info_of(index, u, units)),
            None => None,
        },
    }
}

/// A reference to a use's own texture, if it was made.
pub fn texture_info(studio: &Studio, usage: Option<&TextureUse>, units: &Vec<(u32, u32)>) -> (r:
    Option<TextureInfo>)
    ensures
        r == plain_info(studio@.made, use_ref(usage), units@),
        made_ok(studio@) ==> info_ok(r, studio@.document.textures.len() as int),
{
    match usage {
        None => None,
        Some(u) => {
            let key = TextureKey::Plain { uid: u.uid.clone(), sampler: u.sampler };
            match studio.find_made(&key) {
                Some(index) => Some(texture_info_for_index(index, u, units)),
                None => None,
            }
        },
    }
}

/// Whether two uses read a texture in the same places.
pub open spec fn same_mapping(a: UseView, b: UseView) -> bool {
    &&& a.texcoord_unit == b.texcoord_unit
    &&& eq_of(a.transform.offset[0], b.transform.offset[0])
    &&& eq_of(a.transform.offset[1], b.transform.offset[1])
    &&& eq_of(a.transform.scale[0], b.transform.scale[0])
    &&& eq_of(a.transform.scale[1], b.transform.scale[1])
    &&& eq_of(a.transform.rotation, b.transform.rotation)
}

/// Whether two uses read a texture in the same places.
pub fn same_texture_mapping(left: &TextureUse, right: &TextureUse) -> (r: bool)
    ensures
        r == same_mapping(left@, right@),
{
    left.texcoord_unit == right.texcoord_unit && equal(
        left.transform.offset[0],
        right.transform.offset[0],
    ) && equal(left.transform.offset[1], right.transform.offset[1]) && equal(
        left.transform.scale[0],
        right.transform.scale[0],
    ) && equal(left.transform.scale[1], right.transform.scale[1]) && equal(
        left.transform.rotation,
        right.transform.rotation,
    )
}

/// The use whose texture a material takes its alpha from.
pub open spec fn alpha_use(source: EntryView) -> Option<UseView> {
    if source.alpha_mask_texture is Some {
        source.alpha_mask_texture
    } else {
        source.opacity_texture
    }
}

/// The number of a use's texture.
pub open spec fn uid_opt(u: Option<UseView>) -> Option<Seq<char>> {
    match u {
        Some(v) => Some(v.uid),
        None => None,
    }
}

/// The base color with the alpha packed in, if the two are read in the same places.
pub open spec fn masked_base(source: EntryView, files: Seq<StoredView>, s: StudioView) -> (
    StudioView,
    Option<usize>,
) {
    let base = source.base_color_texture;
    match alpha_use(source) {
        None => (s, None),
        Some(alpha) => if base is Some && !same_mapping(base->0, alpha) {
            (s, None)
        } else {
            let sampler = match base {
                Some(b) => b.sampler,
                None => alpha.sampler,
            };
            s.obtain(
                KeyView::Masked {
                    base: uid_opt(base),
                    alpha: alpha.uid,
                    invert: source.alpha_invert,
                    own_alpha: alpha.alpha_channel,
                    sampler,
                },
                masked_file(
                    file_of(files, base),
                    stored_file(files, alpha.uid, 0),
                    source.alpha_invert,
                    alpha.alpha_channel,
                ),
                sampler,
            )
        },
    }
}

/// The base color texture of a material.
pub open spec fn base_info(
    source: EntryView,
    masked: Option<usize>,
    made: Seq<(KeyView, usize)>,
    units: Seq<(u32, u32)>,
) -> Option<TextureInfo> {
    match masked {
        Some(index) => Some(
            info_of(
                index,
                match source.base_color_texture {
                    Some(b) => b,
                    None => alpha_use(source)->0,
                },
                units,
            ),
        ),
        None => plain_info(made, source.base_color_texture, units),
    }
}

/// The normal map of a material: its own texture, or that texture with its green inverted.
pub open spec fn normal_info(
    source: EntryView,
    files: Seq<StoredView>,
    units: Seq<(u32, u32)>,
    s: StudioView,
) -> (StudioView, Option<TextureInfo>) {
    match source.normal_texture {
        None => (s, None),
        Some(u) => if source.normal_flip_y {
            let (after, index) = s.obtain(
                KeyView::Flipped { uid: u.uid, sampler: u.sampler },
                flipped_file(stored_file(files, u.uid, 0)),
                u.sampler,
            );
            (
                after,
                match index {
                    Some(i) => Some(info_of(i, u, units)),
                    None => None,
                },
            )
        } else {
            (s, plain_info(s.made, Some(u), units))
        },
    }
}

/// The packed texture of roughness and metalness, where a material has one of them.
pub open spec fn surface_info(
    source: EntryView,
    files: Seq<StoredView>,
    units: Seq<(u32, u32)>,
    s: StudioView,
) -> Result<(StudioView, Option<TextureInfo>), ImageError> {
    let usage = if source.roughness_texture is Some {
        source.roughness_texture
    } else {
        source.metallic_texture
    };
    match usage {
        None => Ok((s, None)),
        Some(u) => {
            let key = KeyView::Packed {
                metallic: uid_opt(source.metallic_texture),
                roughness: uid_opt(source.roughness_texture),
                invert: source.roughness_invert,
                sampler: u.sampler,
            };
            let file = surface_file(
                file_of(files, source.metallic_texture),
                file_of(files, source.roughness_texture),
                source.roughness_invert,
            );
            if made_index(s.made, key, 0) is None && file is Err {
                Err(file->Err_0)
            } else {
                let bytes = match file {
                    Ok(b) => b,
                    Err(_) => None,
                };
                let (after, index) = s.obtain(key, bytes, u.sampler);
                Ok(
                    (
                        after,
                        match index {
                            Some(i) => Some(info_of(i, u, units)),
                            None => None,
                        },
                    ),
                )
            }
        },
    }
}

/// Whether a texture reference carries a transform.
pub open spec fn moves(info: Option<TextureInfo>) -> bool {
    info matches Some(i) && i.transform is Some
}

/// Whether a material is brighter than white.
pub open spec fn is_strong(source: EntryView) -> bool {
    source.emissive_enabled && lt_of(ONE, source.derived.emissive_strength)
}

/// Whether a list of extensions has one of clear coat.
pub open spec fn has_clearcoat(list: Seq<MaterialExtension>) -> bool {
    exists|i: int| 0 <= i < list.len() && #[trigger] list[i] is Clearcoat
}

/// Whether a list of extensions has one of specular reflection.
pub open spec fn has_specular(list: Seq<MaterialExtension>) -> bool {
    exists|i: int| 0 <= i < list.len() && #[trigger] list[i] is Specular
}

/// Whether the extensions that a material uses are among those noted.
pub open spec fn uses_noted(m: MaterialView, e: Extensions) -> bool {
    &&& m.unlit ==> e.unlit
    &&& m.emissive_strength is Some ==> e.emissive_strength
    &&& has_clearcoat(m.extensions) ==> e.clearcoat
    &&& has_specular(m.extensions) ==> e.specular
    &&& uses_transform(m) ==> e.texture_transform
}

/// Whether a material transforms one of its textures.
pub open spec fn uses_transform(m: MaterialView) -> bool {
    moves(m.base_color_texture) || moves(m.metallic_roughness_texture) || moves(m.emissive_texture)
        || moves(m.occlusion_texture) || moves(m.normal_texture)
}

/// Whether every extension that is noted is used by a material.
#[verifier::opaque]
pub open spec fn all_in_use(list: Seq<MaterialView>, e: Extensions) -> bool {
    &&& e.unlit ==> exists|i: int| 0 <= i < list.len() && (#[trigger] list[i]).unlit
    &&& e.emissive_strength ==> exists|i: int|
        0 <= i < list.len() && (#[trigger] list[i]).emissive_strength is Some
    &&& e.clearcoat ==> exists|i: int|
        0 <= i < list.len() && has_clearcoat((#[trigger] list[i]).extensions)
    &&& e.specular ==> exists|i: int|
        0 <= i < list.len() && has_specular((#[trigger] list[i]).extensions)
    &&& e.texture_transform ==> exists|i: int|
        0 <= i < list.len() && uses_transform(#[trigger] list[i])
}

/// With one more material, the extensions that were in use and those that it uses are in use.
pub proof fn lemma_in_use_grows(
    list: Seq<MaterialView>,
    m: MaterialView,
    e: Extensions,
    f: Extensions,
)
    requires
        all_in_use(list, e),
        f.unlit ==> e.unlit || m.unlit,
        f.emissive_strength ==> e.emissive_strength || m.emissive_strength is Some,
        f.clearcoat ==> e.clearcoat || has_clearcoat(m.extensions),
        f.specular ==> e.specular || has_specular(m.extensions),
        f.texture_transform ==> e.texture_transform || uses_transform(m),
    ensures
        all_in_use(list.push(m), f),
{
    reveal(all_in_use);
    let more = list.push(m);
    assert(more[list.len() as int] == m);
    assert forall|i: int| 0 <= i < list.len() implies #[trigger] list[i] == more[i] by {}
}

/// Whether the extensions that are noted are those that the materials use.
pub open spec fn extensions_noted(s: StudioView) -> bool {
    &&& forall|i: int|
        0 <= i < s.document.materials.len() ==> uses_noted(
            #[trigger] s.document.materials[i],
            s.extensions,
        )
    &&& all_in_use(s.document.materials, s.extensions)
}

/// A material of the result.
pub open spec fn material_of(
    source: EntryView,
    base: Option<TextureInfo>,
    emissive: Option<TextureInfo>,
    occlusion: Option<TextureInfo>,
    normal: Option<TextureInfo>,
    surface: Option<TextureInfo>,
) -> MaterialView {
    MaterialView {
        name: source.name,
        double_sided: source.double_sided,
        alpha_mode: Some(source.alpha_mode),
        base_color: source.base_color,
        metallic: source.metallic_factor,
        roughness: source.derived.roughness,
        base_color_texture: base,
        metallic_roughness_texture: surface,
        emissive_factor: if source.emissive_enabled {
            Some(source.derived.emissive)
        } else {
            None
        },
        emissive_strength: if is_strong(source) {
            Some(source.derived.emissive_strength)
        } else {
            None
        },
        emissive_texture: emissive,
        occlusion_texture: occlusion,
        normal_texture: normal,
        normal_scale: source.normal_scale,
        alpha_cutoff: if source.alpha_mode == AlphaMode::Mask {
            Some(source.alpha_cutoff)
        } else {
            None
        },
        extensions: if source.unlit {
            Seq::empty()
        } else {
            source.extensions
        },
        unlit: source.unlit,
    }
}

/// The studio with a material of the given textures, and the extensions that it uses noted.
pub open spec fn with_finished(
    source: EntryView,
    base: Option<TextureInfo>,
    emissive: Option<TextureInfo>,
    occlusion: Option<TextureInfo>,
    normal: Option<TextureInfo>,
    surface: Option<TextureInfo>,
    s: StudioView,
) -> StudioView {
    let e = s.extensions;
    StudioView {
        document: s.document.with_material(
            material_of(source, base, emissive, occlusion, normal, surface),
        ),
        extensions: Extensions {
            texture_transform: e.texture_transform || moves(base) || moves(emissive) || moves(
                occlusion,
            ) || moves(normal) || moves(surface),
            unlit: e.unlit || source.unlit,
            emissive_strength: e.emissive_strength || is_strong(source),
            clearcoat: e.clearcoat || (!source.unlit && has_clearcoat(source.extensions)),
            specular: e.specular || (!source.unlit && has_specular(source.extensions)),
        },
        ..s
    }
}

/// The studio after a material was added for geometries with the given units, and the material.
pub open spec fn variant_added(
    source: EntryView,
    units: Seq<(u32, u32)>,
    files: Seq<StoredView>,
    s: StudioView,
) -> Result<(StudioView, usize), ImageError> {
    let (s1, masked) = masked_base(source, files, s);
    let base = base_info(source, masked, s1.made, units);
    let emissive = plain_info(s1.made, source.emissive_texture, units);
    let occlusion = plain_info(s1.made, source.occlusion_texture, units);
    let (s2, normal) = normal_info(source, files, units, s1);
    match surface_info(source, files, units, s2) {
        Err(e) => Err(e),
        Ok((s3, surface)) => Ok(
            (
                with_finished(source, base, emissive, occlusion, normal, surface, s3),
                s3.document.materials.len() as usize,
            ),
        ),
    }
}

/// The number of a use's texture.
fn uid_of(u: Option<&TextureUse>) -> (r: Option<String>)
    ensures
        crate::geometry::text_opt(r) == uid_opt(use_ref(u)),
{
    match u {
        Some(v) => Some(v.uid.clone()),
        None => None,
    }
}

/// A reference to an optional use.
fn as_use(u: &Option<TextureUse>) -> (r: Option<&TextureUse>)
    ensures
        use_ref(r) == crate::model::use_opt(*u),
{
    match u {
        Some(v) => Some(v),
        None => None,
    }
}

/// Packs the alpha into the base color, if the two are read in the same places.
fn add_masked_base(source: &MaterialEntry, files: &Vec<StoredTexture>, studio: &mut Studio) -> (r:
    Option<usize>)
    ensures
        (final(studio)@, r) == masked_base(source@, views(files@), old(studio)@),
        old(studio)@.leads_to(final(studio)@),
        old(studio)@.wf() ==> (r matches Some(index) ==> index
            < final(studio)@.document.textures.len()),
{
    proof {
        lemma_appending_joins(studio@.document, studio@.document, studio@.document);
    }
    let base = as_use(&source.base_color_texture);
    let alpha = match &source.alpha_mask_texture {
        Some(a) => a,
        None => match &source.opacity_texture {
            Some(a) => a,
            None => {
                return None;
            },
        },
    };
    let sampler = match base {
        Some(b) => {
            if !same_texture_mapping(b, alpha) {
                return None;
            }
            b.sampler
        },
        None => alpha.sampler,
    };
    let key = TextureKey::Masked {
        base: uid_of(base),
        alpha: alpha.uid.clone(),
        invert: source.alpha_invert,
        own_alpha: alpha.alpha_channel,
        sampler,
    };
    match studio.find_made(&key) {
        Some(index) => Some(index),
        None => {
            let image = base_alpha_image(
                file_for(files, base),
                find_file(files, alpha.uid.as_str()),
                source.alpha_invert,
                alpha.alpha_channel,
            );
            match image {
                Some(bytes) => Some(studio.make_new(key, bytes.as_slice(), sampler)),
                None => None,
            }
        },
    }
}

/// Adds the normal map of a material.
fn add_normal(
    source: &MaterialEntry,
    files: &Vec<StoredTexture>,
    units: &Vec<(u32, u32)>,
    studio: &mut Studio,
) -> (r: Option<TextureInfo>)
    ensures
        (final(studio)@, r) == normal_info(source@, views(files@), units@, old(studio)@),
        old(studio)@.leads_to(final(studio)@),
        old(studio)@.wf() ==> info_ok(r, final(studio)@.document.textures.len() as int),
{
    proof {
        lemma_appending_joins(studio@.document, studio@.document, studio@.document);
    }
    let usage = match &source.normal_texture {
        Some(u) => u,
        None => {
            return None;
        },
    };
    if !source.normal_flip_y {
        return texture_info(studio, Some(usage), units);
    }
    let key = TextureKey::Flipped { uid: usage.uid.clone(), sampler: usage.sampler };
    let index: usize = match studio.find_made(&key) {
        Some(index) => index,
        None => match flipped_normal_image(find_file(files, usage.uid.as_str())) {
            Some(bytes) => studio.make_new(key, bytes.as_slice(), usage.sampler),
            None => {
                return None;
            },
        },
    };
    Some(texture_info_for_index(index, usage, units))
}

/// Adds the packed texture of roughness and metalness.
fn add_surface(
    source: &MaterialEntry,
    files: &Vec<StoredTexture>,
    units: &Vec<(u32, u32)>,
    studio: &mut Studio,
) -> (r: Result<Option<TextureInfo>, ImageError>)
    ensures
        match r {
            Ok(info) => surface_info(source@, views(files@), units@, old(studio)@) == Ok::<
                (StudioView, Option<TextureInfo>),
                ImageError,
            >((final(studio)@, info)),
            Err(e) => surface_info(source@, views(files@), units@, old(studio)@) == Err::<
                (StudioView, Option<TextureInfo>),
                ImageError,
            >(e),
        },
        old(studio)@.leads_to(final(studio)@),
        old(studio)@.wf() ==> (r matches Ok(info) ==> info_ok(
            info,
            final(studio)@.document.textures.len() as int,
        )),
{
    proof {
        lemma_appending_joins(studio@.document, studio@.document, studio@.document);
    }
    let usage = match &source.roughness_texture {
        Some(u) => u,
        None => match &source.metallic_texture {
            Some(u) => u,
            None => {
                return Ok(None);
            },
        },
    };
    let metallic = as_use(&source.metallic_texture);
    let roughness = as_use(&source.roughness_texture);
    let key = TextureKey::Packed {
        metallic: uid_of(metallic),
        roughness: uid_of(roughness),
        invert: source.roughness_invert,
        sampler: usage.sampler,
    };
    let index: usize = match studio.find_made(&key) {
        Some(index) => index,
        None => match metallic_roughness_image(
            file_for(files, metallic),
            file_for(files, roughness),
            source.roughness_invert,
        ) {
            Ok(Some(bytes)) => studio.make_new(key, bytes.as_slice(), usage.sampler),
            Ok(None) => {
                return Ok(None);
            },
            Err(e) => {
                return Err(e);
            },
        },
    };
    Ok(Some(texture_info_for_index(index, usage, units)))
}

/// Whether a texture reference carries a transform.
fn does_move(info: Option<TextureInfo>) -> (r: bool)
    ensures
        r == moves(info),
{
    match info {
        Some(i) => i.transform.is_some(),
        None => false,
    }
}

/// Whether a list of extensions has one of clear coat, and one of specular reflection.
fn kinds(list: &Vec<MaterialExtension>) -> (r: (bool, bool))
    ensures
        r.0 == has_clearcoat(list@),
        r.1 == has_specular(list@),
{
    let mut coat = false;
    let mut specular = false;
    let mut i: usize = 0;
    while i < list.len()
        invariant
            i <= list@.len(),
            coat <==> exists|k: int| 0 <= k < i && #[trigger] list@[k] is Clearcoat,
            specular <==> exists|k: int| 0 <= k < i && #[trigger] list@[k] is Specular,
        decreases list@.len() - i,
    {
        match list[i] {
            MaterialExtension::Clearcoat(_, _) => {
                assert(list@[i as int] is Clearcoat);
                coat = true;
            },
            MaterialExtension::Specular(_) => {
                assert(list@[i as int] is Specular);
                specular = true;
            },
        }
        i += 1;
    }
    (coat, specular)
}

/// The same extensions again.
fn copy_extensions(list: &Vec<MaterialExtension>) -> (r: Vec<MaterialExtension>)
    ensures
        r@ == list@,
{
    let mut out: Vec<MaterialExtension> = Vec::new();
    let mut i: usize = 0;
    while i < list.len()
        invariant
            i <= list@.len(),
            out@ == list@.take(i as int),
        decreases list@.len() - i,
    {
        out.push(list[i]);
        i += 1;
        assert(out@ =~= list@.take(i as int));
    }
    assert(out@ =~= list@);
    out
}

/// The extensions that are noted with a material of the given textures are those in use.
proof fn lemma_finished_is_noted(
    source: EntryView,
    base: Option<TextureInfo>,
    emissive: Option<TextureInfo>,
    occlusion: Option<TextureInfo>,
    normal: Option<TextureInfo>,
    surface: Option<TextureInfo>,
    s: StudioView,
)
    requires
        s.wf(),
    ensures
        extensions_noted(with_finished(source, base, emissive, occlusion, normal, surface, s)),
        made_ok(with_finished(source, base, emissive, occlusion, normal, surface, s)),
{
    let after = with_finished(source, base, emissive, occlusion, normal, surface, s);
    let m = material_of(source, base, emissive, occlusion, normal, surface);
    assert(uses_noted(m, after.extensions));
    assert forall|i: int| 0 <= i < after.document.materials.len() implies uses_noted(
        #[trigger] after.document.materials[i],
        after.extensions,
    ) by {
        if i < s.document.materials.len() {
            assert(after.document.materials[i] == s.document.materials[i]);
            assert(uses_noted(s.document.materials[i], s.extensions));
        }
    }
    lemma_in_use_grows(s.document.materials, m, s.extensions, after.extensions);
}

/// Adds a material of the given textures, and notes the extensions that it uses.
fn add_finished(
    source: &MaterialEntry,
    base: Option<TextureInfo>,
    emissive: Option<TextureInfo>,
    occlusion: Option<TextureInfo>,
    normal: Option<TextureInfo>,
    surface: Option<TextureInfo>,
    studio: &mut Studio,
) -> (r: usize)
    ensures
        final(studio)@ == with_finished(
            source@,
            base,
            emissive,
            occlusion,
            normal,
            surface,
            old(studio)@,
        ),
        r == old(studio)@.document.materials.len(),
        r < final(studio)@.document.materials.len(),
        only_appended(old(studio)@.document, final(studio)@.document),
        old(studio)@.wf() && material_ok(
            material_of(source@, base, emissive, occlusion, normal, surface),
            old(studio)@.document.textures.len() as int,
        ) ==> final(studio)@.wf(),
{
    let ghost before = studio@;
    let strong = source.emissive_enabled && lt(ONE, source.derived.emissive_strength);
    let (coat, specular) = kinds(&source.extensions);
    let extensions = if source.unlit {
        Vec::new()
    } else {
        copy_extensions(&source.extensions)
    };
    let alpha_cutoff = match source.alpha_mode {
        AlphaMode::Mask => Some(source.alpha_cutoff),
        _ => None,
    };
    let material = Material {
        name: source.name.clone(),
        double_sided: source.double_sided,
        alpha_mode: Some(source.alpha_mode),
        base_color: source.base_color,
        metallic: source.metallic_factor,
        roughness: source.derived.roughness,
        base_color_texture: base,
        metallic_roughness_texture: surface,
        emissive_factor: if source.emissive_enabled {
            Some(source.derived.emissive)
        } else {
            None
        },
        emissive_strength: if strong {
            Some(source.derived.emissive_strength)
        } else {
            None
        },
        emissive_texture: emissive,
        occlusion_texture: occlusion,
        normal_texture: normal,
        normal_scale: source.normal_scale,
        alpha_cutoff,
        extensions,
        unlit: source.unlit,
    };
    assert(material@ =~= material_of(source@, base, emissive, occlusion, normal, surface));
    let e = studio.extensions;
    let transform = e.texture_transform || does_move(base) || does_move(emissive) || does_move(
        occlusion,
    ) || does_move(normal) || does_move(surface);
    studio.extensions =
    Extensions {
        texture_transform: transform,
        unlit: e.unlit || source.unlit,
        emissive_strength: e.emissive_strength || strong,
        clearcoat: e.clearcoat || (!source.unlit && coat),
        specular: e.specular || (!source.unlit && specular),
    };
    let index: usize = studio.document.add_material(material);
    proof {
        if before.wf() {
            lemma_finished_is_noted(source@, base, emissive, occlusion, normal, surface, before);
        }
    }
    index
}

/// Adds a material for geometries with the given units. An error leaves what was made before it.
#[verifier::rlimit(60)]
pub fn add_material_variant(
    source: &MaterialEntry,
    units: &Vec<(u32, u32)>,
    files: &Vec<StoredTexture>,
    studio: &mut Studio,
) -> (r: Result<usize, ImageError>)
    ensures
        match r {
            Ok(index) => variant_added(source@, units@, views(files@), old(studio)@) == Ok::<
                (StudioView, usize),
                ImageError,
            >((final(studio)@, index)),
            Err(e) => variant_added(source@, units@, views(files@), old(studio)@) == Err::<
                (StudioView, usize),
                ImageError,
            >(e),
        },
        old(studio)@.leads_to(final(studio)@),
        r matches Ok(index) ==> index < final(studio)@.document.materials.len(),
{
    let ghost start = studio@;
    let masked = add_masked_base(source, files, studio);
    let ghost after_base = studio@;
    let base = match masked {
        Some(index) => {
            let usage = match &source.base_color_texture {
                Some(b) => b,
                None => match &source.alpha_mask_texture {
                    Some(a) => a,
                    None => match &source.opacity_texture {
                        Some(a) => a,
                        None => {
                            assert(false);
                            return Err(ImageError::Unreadable);
                        },
                    },
                },
            };
            Some(texture_info_for_index(index, usage, units))
        },
        None => texture_info(studio, as_use(&source.base_color_texture), units),
    };
    let emissive = texture_info(studio, as_use(&source.emissive_texture), units);
    let occlusion = texture_info(studio, as_use(&source.occlusion_texture), units);
    let normal = add_normal(source, files, units, studio);
    let ghost after_normal = studio@;
    proof {
        lemma_appending_joins(start.document, after_base.document, after_normal.document);
    }
    let surface = match add_surface(source, files, units, studio) {
        Ok(info) => info,
        Err(e) => {
            proof {
                lemma_appending_joins(start.document, after_normal.document, studio@.document);
            }
            return Err(e);
        },
    };
    let ghost after_surface = studio@;
    proof {
        lemma_appending_joins(start.document, after_normal.document, after_surface.document);
    }
    let index: usize = add_finished(source, base, emissive, occlusion, normal, surface, studio);
    proof {
        lemma_appending_joins(start.document, after_surface.document, studio@.document);
    }
    Ok(index)
}

/// Where a texture was made, it is one of those noted.
proof fn lemma_made_index(made: Seq<(KeyView, usize)>, key: KeyView, from: int)
    requires
        0 <= from,
    ensures
        match made_index(made, key, from) {
            Some(index) => exists|i: int| from <= i < made.len() && made[i] == (key, index),
            None => forall|i: int| from <= i < made.len() ==> (#[trigger] made[i]).0 != key,
        },
    decreases made.len() - from,
{
    if from < made.len() {
        if made[from].0 != key {
            lemma_made_index(made, key, from + 1);
        } else {
            assert(made[from] == (key, made[from].1));
        }
    }
}

/// Whether the textures that were made are textures of the document, each made once.
pub open spec fn made_ok(s: StudioView) -> bool {
    &&& forall|i: int|
        0 <= i < s.made.len() ==> (#[trigger] s.made[i]).1 < s.document.textures.len()
    &&& forall|i: int, j: int|
        0 <= i < j < s.made.len() ==> (#[trigger] s.made[i]).0 != (#[trigger] s.made[j]).0
}

/// A texture that is needed again is not made again, and every texture that is handed out is one
/// of the document's.
pub proof fn law_textures_are_made_once(
    s: StudioView,
    key: KeyView,
    file: Option<Seq<u8>>,
    sampler: SamplerSettings,
)
    requires
        made_ok(s),
        s.document.textures.len() < usize::MAX,
    ensures
        made_ok(s.obtain(key, file, sampler).0),
        s.obtain(key, file, sampler).1 matches Some(index) ==> index < s.obtain(
            key,
            file,
            sampler,
        ).0.document.textures.len() && s.obtain(key, file, sampler).0.obtain(key, file, sampler)
            == (s.obtain(key, file, sampler).0, Some(index)),
{
    lemma_made_index(s.made, key, 0);
    let (after, got) = s.obtain(key, file, sampler);
    match made_index(s.made, key, 0) {
        Some(index) => {
            let i = choose|i: int| 0 <= i < s.made.len() && s.made[i] == (key, index);
            assert(s.made[i].1 < s.document.textures.len());
        },
        None => {
            if file is Some {
                let n = s.made.len() as int;
                assert(after.made[n].0 == key);
                lemma_made_index(after.made, key, 0);
                match made_index(after.made, key, 0) {
                    Some(found) => {
                        let i = choose|i: int|
                            0 <= i < after.made.len() && after.made[i] == (key, found);
                        if i < n {
                            assert(s.made[i].0 != key);
                        }
                    },
                    None => {},
                }
            }
        },
    }
}

/// A texture that is made shows the image that it was made of, with the sampler that was asked for.
pub proof fn law_texture_shows_its_image(
    s: StudioView,
    key: KeyView,
    image: usize,
    sampler: SamplerSettings,
)
    requires
        s.document.textures.len() <= usize::MAX,
        s.document.samplers.len() <= usize::MAX,
    ensures
        ({
            let (after, index) = s.with_made(key, image, sampler);
            let d = after.document;
            &&& index < d.textures.len()
            &&& d.textures.len() == s.document.textures.len() + 1
            &&& d.textures[index as int].source == image
            &&& d.samplers[d.textures[index as int].sampler as int] == sampler
            &&& d.images == s.document.images
            &&& after.made == s.made.push((key, index))
        }),
{
    lemma_sampler_index(s.document.samplers, sampler, 0);
}

/// A packed texture that was not made before is a new image, with the bytes of its file, as a PNG;
/// it is kept under its key. One that was made before is the same again.
pub proof fn law_packed_texture_holds_its_file(
    s: StudioView,
    key: KeyView,
    file: Seq<u8>,
    sampler: SamplerSettings,
)
    requires
        s.document.wf(),
        s.document.images.len() <= usize::MAX,
        s.document.textures.len() <= usize::MAX,
        s.document.samplers.len() <= usize::MAX,
        s.document.buffer_views.len() <= usize::MAX,
        s.document.bin.len() + file.len() <= usize::MAX,
    ensures
        ({
            let (after, index) = s.obtain(key, Some(file), sampler);
            let d = after.document;
            &&& index is Some
            &&& made_index(s.made, key, 0) is None ==> {
                let t = d.textures[index->0 as int];
                &&& d.images.len() == s.document.images.len() + 1
                &&& t.source == s.document.images.len()
                &&& d.images[t.source as int].mime == Mime::Png
                &&& image_bytes(d, t.source as int) == file
                &&& d.samplers[t.sampler as int] == sampler
                &&& after.made == s.made.push((key, index->0))
            }
            &&& made_index(s.made, key, 0) is Some ==> after == s && index == made_index(
                s.made,
                key,
                0,
            )
        }),
        made_index(s.made, key, 0) is None ==> s.obtain(key, None, sampler) == (s, None::<usize>),
{
    if made_index(s.made, key, 0) is None {
        let image = s.document.images.len() as usize;
        let held = StudioView { document: s.document.with_image(file, Mime::Png), ..s };
        law_texture_shows_its_image(held, key, image, sampler);
        law_padded_append(s.document.bin, file);
        let d = s.obtain(key, Some(file), sampler).0.document;
        assert(d.bin == padded(s.document.bin + file));
        assert(image_bytes(d, image as int) =~= file);
    }
}

/// A texture reads the coordinates of its own unit, or the first ones there are if the geometry has
/// none of that unit.
pub proof fn law_texture_reads_its_own_unit(units: Seq<(u32, u32)>, unit: u32, i: int)
    requires
        0 <= i < units.len(),
    ensures
        units[i].0 == unit && (forall|k: int| 0 <= k < i ==> (#[trigger] units[k]).0 != unit)
            ==> texcoord_of(units, unit) == units[i].1,
        (forall|k: int| 0 <= k < units.len() ==> (#[trigger] units[k]).0 != unit) ==> texcoord_of(
            units,
            unit,
        ) <= units[i].1 && exists|k: int|
            0 <= k < units.len() && (#[trigger] units[k]).1 == texcoord_of(units, unit),
        texcoord_of(Seq::empty(), unit) == 0,
{
    if units[i].0 == unit && (forall|k: int| 0 <= k < i ==> (#[trigger] units[k]).0 != unit) {
        lemma_unit_entry_is(units, unit, 0, i);
    }
    if forall|k: int| 0 <= k < units.len() ==> (#[trigger] units[k]).0 != unit {
        lemma_no_unit_entry(units, unit, 0);
        lemma_least_entry(units, units.len() as int, i);
    }
    let none = Seq::<(u32, u32)>::empty();
    lemma_no_unit_entry(none, unit, 0);
    assert(least_entry(none, 0) is None);
}

/// The first entry of a unit is found.
proof fn lemma_unit_entry_is(units: Seq<(u32, u32)>, unit: u32, from: int, at: int)
    requires
        0 <= from <= at < units.len(),
        units[at].0 == unit,
        forall|k: int| 0 <= k < at ==> (#[trigger] units[k]).0 != unit,
    ensures
        unit_entry(units, unit, from) == Some(units[at].1),
    decreases at - from,
{
    if from < at {
        assert(units[from].0 != unit);
        lemma_unit_entry_is(units, unit, from + 1, at);
    }
}

/// Where there is no entry of a unit, none is found.
proof fn lemma_no_unit_entry(units: Seq<(u32, u32)>, unit: u32, from: int)
    requires
        0 <= from,
        forall|k: int| 0 <= k < units.len() ==> (#[trigger] units[k]).0 != unit,
    ensures
        unit_entry(units, unit, from) is None,
    decreases units.len() - from,
{
    if from < units.len() {
        assert(units[from].0 != unit);
        lemma_no_unit_entry(units, unit, from + 1);
    }
}

/// The least entry is one of them.
proof fn lemma_least_entry(units: Seq<(u32, u32)>, n: int, i: int)
    requires
        0 <= i < n <= units.len(),
    ensures
        least_entry(units, n) matches Some(k) && k <= units[i].1 && exists|j: int|
            0 <= j < n && (#[trigger] units[j]).1 == k,
    decreases n,
{
    if n > 1 {
        if i < n - 1 {
            lemma_least_entry(units, n - 1, i);
        } else {
            lemma_least_entry(units, n - 1, 0);
        }
        let k = least_entry(units, n)->0;
        if units[n - 1].1 != k {
            let j = choose|j: int| 0 <= j < n - 1 && (#[trigger] units[j]).1 == k;
            assert(units[j].1 == k);
        }
    } else {
        assert(least_entry(units, 0) is None);
        assert(units[n - 1].1 == least_entry(units, n)->0);
    }
}

/// Two textures are mapped alike if and only if they read the same unit and are moved, scaled and
/// turned by equal numbers.
pub proof fn law_mappings_are_compared_in_full(a: UseView, b: UseView)
    ensures
        same_mapping(a, b) <==> {
            &&& a.texcoord_unit == b.texcoord_unit
            &&& forall|j: int|
                0 <= j < 2 ==> eq_of(#[trigger] a.transform.offset@[j], b.transform.offset@[j])
            &&& forall|j: int|
                0 <= j < 2 ==> eq_of(#[trigger] a.transform.scale@[j], b.transform.scale@[j])
            &&& eq_of(a.transform.rotation, b.transform.rotation)
        },
        same_mapping(a, b) == same_mapping(b, a),
{
    let offsets = forall|j: int|
        0 <= j < 2 ==> eq_of(#[trigger] a.transform.offset@[j], b.transform.offset@[j]);
    let scales = forall|j: int|
        0 <= j < 2 ==> eq_of(#[trigger] a.transform.scale@[j], b.transform.scale@[j]);
    if offsets {
        assert(eq_of(a.transform.offset@[0], b.transform.offset@[0]));
        assert(eq_of(a.transform.offset@[1], b.transform.offset@[1]));
    }
    if scales {
        assert(eq_of(a.transform.scale@[0], b.transform.scale@[0]));
        assert(eq_of(a.transform.scale@[1], b.transform.scale@[1]));
    }
}

/// A material that is added has the factors, the color, the sides and the transparency of its
/// source; it cuts off alpha only if it is masked, emits only if its source does, with a strength
/// only above one, and takes over extensions only if it is lit.
pub proof fn law_material_keeps_its_source(
    source: EntryView,
    units: Seq<(u32, u32)>,
    files: Seq<StoredView>,
    s: StudioView,
)
    ensures
        variant_added(source, units, files, s) matches Ok((after, index)) ==> {
            let m = after.document.materials.last();
            &&& after.document.materials.len() > 0
            &&& index == (after.document.materials.len() - 1) as usize
            &&& m.name == source.name
            &&& m.double_sided == source.double_sided
            &&& m.alpha_mode == Some(source.alpha_mode)
            &&& m.base_color == source.base_color
            &&& m.metallic == source.metallic_factor
            &&& m.roughness == source.derived.roughness
            &&& m.normal_scale == source.normal_scale
            &&& m.unlit == source.unlit
            &&& m.alpha_cutoff == if source.alpha_mode == AlphaMode::Mask {
                Some(source.alpha_cutoff)
            } else {
                None
            }
            &&& m.emissive_factor == if source.emissive_enabled {
                Some(source.derived.emissive)
            } else {
                None
            }
            &&& m.emissive_strength == if source.emissive_enabled && lt_of(
                0x3f80_0000,
                source.derived.emissive_strength,
            ) {
                Some(source.derived.emissive_strength)
            } else {
                None
            }
            &&& source.unlit ==> m.extensions.len() == 0
            &&& !source.unlit ==> m.extensions == source.extensions
        },
{
}

/// What was made before stays known.
proof fn lemma_made_stays(s: StudioView, key: KeyView, file: Option<Seq<u8>>, sampler: SamplerSettings)
    ensures
        s.made.len() <= s.obtain(key, file, sampler).0.made.len(),
        forall|k: int|
            0 <= k < s.made.len() ==> #[trigger] s.obtain(key, file, sampler).0.made[k] == s.made[k],
        s.obtain(key, file, sampler).1 matches Some(index) ==> s.obtain(
            key,
            file,
            sampler,
        ).0.made.contains((key, index)),
{
    lemma_made_index(s.made, key, 0);
    match made_index(s.made, key, 0) {
        Some(index) => {
            let k = choose|k: int| 0 <= k < s.made.len() && #[trigger] s.made[k] == (key, index);
            assert(s.made.contains((key, index)));
        },
        None => {
            if file is Some {
                let (after, index) = s.obtain(key, file, sampler);
                assert(after.made[s.made.len() as int] == (key, index->0));
            }
        },
    }
}

/// Whether a reference is to the texture that was made under a key, for a use of a texture: with
/// its coordinates and its transform.
pub open spec fn refers_to(
    info: TextureInfo,
    made: Seq<(KeyView, usize)>,
    key: KeyView,
    usage: UseView,
    units: Seq<(u32, u32)>,
) -> bool {
    &&& made.contains((key, info.index))
    &&& info.texcoord == texcoord_of(units, usage.texcoord_unit)
    &&& info.transform == usage.exported
}

/// The light that a material emits and its occlusion are those of their own textures, as they were
/// stored, and there is none where the source has none.
pub proof fn law_emission_and_occlusion_show_their_textures(
    source: EntryView,
    units: Seq<(u32, u32)>,
    files: Seq<StoredView>,
    s: StudioView,
)
    ensures
        variant_added(source, units, files, s) matches Ok((after, index)) ==> {
            let m = after.document.materials.last();
            &&& source.emissive_texture is None ==> m.emissive_texture is None
            &&& source.occlusion_texture is None ==> m.occlusion_texture is None
            &&& m.emissive_texture matches Some(i) ==> (source.emissive_texture matches Some(u)
                && refers_to(
                i,
                after.made,
                KeyView::Plain { uid: u.uid, sampler: u.sampler },
                u,
                units,
            ))
            &&& m.occlusion_texture matches Some(i) ==> (source.occlusion_texture matches Some(u)
                && refers_to(
                i,
                after.made,
                KeyView::Plain { uid: u.uid, sampler: u.sampler },
                u,
                units,
            ))
            &&& source.emissive_texture matches Some(u) ==> (made_index(
                s.made,
                KeyView::Plain { uid: u.uid, sampler: u.sampler },
                0,
            ) is Some ==> m.emissive_texture is Some)
            &&& source.occlusion_texture matches Some(u) ==> (made_index(
                s.made,
                KeyView::Plain { uid: u.uid, sampler: u.sampler },
                0,
            ) is Some ==> m.occlusion_texture is Some)
        },
{
    match variant_added(source, units, files, s) {
        Ok((after, _)) => {
            lemma_variant_keeps_made(source, units, files, s);
            let s1 = masked_base(source, files, s).0;
            match source.emissive_texture {
                Some(u) => {
                    let key = KeyView::Plain { uid: u.uid, sampler: u.sampler };
                    lemma_plain_is_made(s1.made, after.made, key);
                    lemma_made_is_found(s.made, s1.made, key);
                },
                None => {},
            }
            match source.occlusion_texture {
                Some(u) => {
                    let key = KeyView::Plain { uid: u.uid, sampler: u.sampler };
                    lemma_plain_is_made(s1.made, after.made, key);
                    lemma_made_is_found(s.made, s1.made, key);
                },
                None => {},
            }
        },
        Err(_) => {},
    }
}

/// A texture that is found in a list is in any longer list.
proof fn lemma_plain_is_made(made: Seq<(KeyView, usize)>, more: Seq<(KeyView, usize)>, key: KeyView)
    requires
        made.len() <= more.len(),
        forall|k: int| 0 <= k < made.len() ==> #[trigger] more[k] == made[k],
    ensures
        made_index(made, key, 0) matches Some(index) ==> more.contains((key, index)),
{
    lemma_made_index(made, key, 0);
    match made_index(made, key, 0) {
        Some(index) => {
            let k = choose|k: int| 0 <= k < made.len() && #[trigger] made[k] == (key, index);
            assert(more[k] == (key, index));
        },
        None => {},
    }
}

/// A texture that is found in a list is found in any longer list.
proof fn lemma_made_is_found(made: Seq<(KeyView, usize)>, more: Seq<(KeyView, usize)>, key: KeyView)
    requires
        made.len() <= more.len(),
        forall|k: int| 0 <= k < made.len() ==> #[trigger] more[k] == made[k],
    ensures
        made_index(made, key, 0) is Some ==> made_index(more, key, 0) is Some,
{
    lemma_made_index(made, key, 0);
    lemma_made_index(more, key, 0);
    if made_index(made, key, 0) is Some {
        let index = made_index(made, key, 0)->0;
        let k = choose|k: int| 0 <= k < made.len() && #[trigger] made[k] == (key, index);
        assert(more[k].0 == key);
    }
}

/// Adding a material keeps what was made.
proof fn lemma_variant_keeps_made(
    source: EntryView,
    units: Seq<(u32, u32)>,
    files: Seq<StoredView>,
    s: StudioView,
)
    ensures
        variant_added(source, units, files, s) matches Ok((after, index)) ==> {
            let s1 = masked_base(source, files, s).0;
            let s2 = normal_info(source, files, units, s1).0;
            &&& s.made.len() <= s1.made.len() <= s2.made.len() <= after.made.len()
            &&& forall|k: int| 0 <= k < s.made.len() ==> #[trigger] s1.made[k] == s.made[k]
            &&& forall|k: int| 0 <= k < s1.made.len() ==> #[trigger] s2.made[k] == s1.made[k]
            &&& forall|k: int| 0 <= k < s2.made.len() ==> #[trigger] after.made[k] == s2.made[k]
            &&& forall|k: int| 0 <= k < s1.made.len() ==> #[trigger] after.made[k] == s1.made[k]
        },
{
    let base = source.base_color_texture;
    match alpha_use(source) {
        Some(alpha) => {
            if !(base is Some && !same_mapping(base->0, alpha)) {
                let sampler = match base {
                    Some(b) => b.sampler,
                    None => alpha.sampler,
                };
                lemma_made_stays(
                    s,
                    KeyView::Masked {
                        base: uid_opt(base),
                        alpha: alpha.uid,
                        invert: source.alpha_invert,
                        own_alpha: alpha.alpha_channel,
                        sampler,
                    },
                    masked_file(
                        file_of(files, base),
                        stored_file(files, alpha.uid, 0),
                        source.alpha_invert,
                        alpha.alpha_channel,
                    ),
                    sampler,
                );
            }
        },
        None => {},
    }
    let s1 = masked_base(source, files, s).0;
    match source.normal_texture {
        Some(u) => {
            lemma_made_stays(
                s1,
                KeyView::Flipped { uid: u.uid, sampler: u.sampler },
                flipped_file(stored_file(files, u.uid, 0)),
                u.sampler,
            );
        },
        None => {},
    }
    let s2 = normal_info(source, files, units, s1).0;
    let usage = if source.roughness_texture is Some {
        source.roughness_texture
    } else {
        source.metallic_texture
    };
    match usage {
        Some(u) => {
            let file = surface_file(
                file_of(files, source.metallic_texture),
                file_of(files, source.roughness_texture),
                source.roughness_invert,
            );
            let bytes = match file {
                Ok(b) => b,
                Err(_) => None,
            };
            lemma_made_stays(
                s2,
                KeyView::Packed {
                    metallic: uid_opt(source.metallic_texture),
                    roughness: uid_opt(source.roughness_texture),
                    invert: source.roughness_invert,
                    sampler: u.sampler,
                },
                bytes,
                u.sampler,
            );
        },
        None => {},
    }
}

/// The normals of a material are those of its own texture, turned over if its source asks for it.
pub proof fn law_normals_show_their_texture(
    source: EntryView,
    units: Seq<(u32, u32)>,
    files: Seq<StoredView>,
    s: StudioView,
)
    ensures
        variant_added(source, units, files, s) matches Ok((after, index)) ==> {
            let m = after.document.materials.last();
            &&& source.normal_texture is None ==> m.normal_texture is None
            &&& m.normal_texture matches Some(i) ==> (source.normal_texture matches Some(u)
                && refers_to(
                i,
                after.made,
                if source.normal_flip_y {
                    KeyView::Flipped { uid: u.uid, sampler: u.sampler }
                } else {
                    KeyView::Plain { uid: u.uid, sampler: u.sampler }
                },
                u,
                units,
            ))
            &&& source.normal_texture matches Some(u) ==> (source.normal_flip_y && flipped_file(
                stored_file(files, u.uid, 0),
            ) is Some ==> m.normal_texture is Some)
        },
{
    match variant_added(source, units, files, s) {
        Ok((after, _)) => {
            lemma_variant_keeps_made(source, units, files, s);
            let s1 = masked_base(source, files, s).0;
            let s2 = normal_info(source, files, units, s1).0;
            match source.normal_texture {
                Some(u) => {
                    if source.normal_flip_y {
                        let key = KeyView::Flipped { uid: u.uid, sampler: u.sampler };
                        let file = flipped_file(stored_file(files, u.uid, 0));
                        lemma_made_stays(s1, key, file, u.sampler);
                        let (then, index) = s1.obtain(key, file, u.sampler);
                        if index is Some {
                            let k = choose|k: int|
                                0 <= k < then.made.len() && then.made[k] == (key, index->0);
                            assert(after.made[k] == s2.made[k]);
                            assert(after.made.contains((key, index->0)));
                        }
                    } else {
                        let key = KeyView::Plain { uid: u.uid, sampler: u.sampler };
                        lemma_plain_is_made(s1.made, after.made, key);
                    }
                },
                None => {},
            }
        },
        Err(_) => {},
    }
}

/// The roughness and the metalness of a material are packed into one texture, made of the two that
/// its source names, with the mapping of the roughness, or else of the metalness; the roughness is
/// turned over if the source gives gloss.
pub proof fn law_surface_packs_both_textures(
    source: EntryView,
    units: Seq<(u32, u32)>,
    files: Seq<StoredView>,
    s: StudioView,
)
    ensures
        variant_added(source, units, files, s) matches Ok((after, index)) ==> {
            let m = after.document.materials.last();
            let usage = if source.roughness_texture is Some {
                source.roughness_texture
            } else {
                source.metallic_texture
            };
            &&& source.roughness_texture is None && source.metallic_texture is None
                ==> m.metallic_roughness_texture is None
            &&& m.metallic_roughness_texture matches Some(i) ==> (usage matches Some(u)
                && refers_to(
                i,
                after.made,
                KeyView::Packed {
                    metallic: match source.metallic_texture {
                        Some(t) => Some(t.uid),
                        None => None,
                    },
                    roughness: match source.roughness_texture {
                        Some(t) => Some(t.uid),
                        None => None,
                    },
                    invert: source.roughness_invert,
                    sampler: u.sampler,
                },
                u,
                units,
            ))
            &&& usage is Some && (surface_file(
                file_of(files, source.metallic_texture),
                file_of(files, source.roughness_texture),
                source.roughness_invert,
            ) matches Ok(Some(_))) ==> m.metallic_roughness_texture is Some
        },
{
    match variant_added(source, units, files, s) {
        Ok((after, _)) => {
            let s1 = masked_base(source, files, s).0;
            let s2 = normal_info(source, files, units, s1).0;
            let usage = if source.roughness_texture is Some {
                source.roughness_texture
            } else {
                source.metallic_texture
            };
            match usage {
                Some(u) => {
                    let file = surface_file(
                        file_of(files, source.metallic_texture),
                        file_of(files, source.roughness_texture),
                        source.roughness_invert,
                    );
                    let bytes = match file {
                        Ok(b) => b,
                        Err(_) => None,
                    };
                    lemma_made_stays(
                        s2,
                        KeyView::Packed {
                            metallic: uid_opt(source.metallic_texture),
                            roughness: uid_opt(source.roughness_texture),
                            invert: source.roughness_invert,
                            sampler: u.sampler,
                        },
                        bytes,
                        u.sampler,
                    );
                },
                None => {},
            }
        },
        Err(_) => {},
    }
}

/// The color of a material shows its mask, or else its opacity, where there is one that is mapped
/// as the color is and can be packed with it; otherwise it shows the color's own texture.
pub proof fn law_color_shows_its_mask(
    source: EntryView,
    units: Seq<(u32, u32)>,
    files: Seq<StoredView>,
    s: StudioView,
)
    ensures
        variant_added(source, units, files, s) matches Ok((after, index)) ==> {
            let m = after.document.materials.last();
            let base = source.base_color_texture;
            let alpha = if source.alpha_mask_texture is Some {
                source.alpha_mask_texture
            } else {
                source.opacity_texture
            };
            let packs = alpha is Some && (base is Some ==> same_mapping(base->0, alpha->0));
            &&& base is None && alpha is None ==> m.base_color_texture is None
            &&& m.base_color_texture matches Some(i) ==> {
                ||| base is Some && refers_to(
                    i,
                    after.made,
                    KeyView::Plain { uid: base->0.uid, sampler: base->0.sampler },
                    base->0,
                    units,
                )
                ||| packs && refers_to(
                    i,
                    after.made,
                    KeyView::Masked {
                        base: match base {
                            Some(b) => Some(b.uid),
                            None => None,
                        },
                        alpha: alpha->0.uid,
                        invert: source.alpha_invert,
                        own_alpha: alpha->0.alpha_channel,
                        sampler: if base is Some {
                            base->0.sampler
                        } else {
                            alpha->0.sampler
                        },
                    },
                    if base is Some {
                        base->0
                    } else {
                        alpha->0
                    },
                    units,
                )
            }
            &&& packs && masked_file(
                file_of(files, base),
                stored_file(files, alpha->0.uid, 0),
                source.alpha_invert,
                alpha->0.alpha_channel,
            ) is Some ==> (m.base_color_texture matches Some(i) && exists|k: int|
                0 <= k < after.made.len() && (#[trigger] after.made[k]).1 == i.index
                    && after.made[k].0 is Masked)
        },
{
    match variant_added(source, units, files, s) {
        Ok((after, _)) => {
            lemma_variant_keeps_made(source, units, files, s);
            let base = source.base_color_texture;
            let s1 = masked_base(source, files, s).0;
            match alpha_use(source) {
                Some(alpha) => {
                    if !(base is Some && !same_mapping(base->0, alpha)) {
                        let sampler = match base {
                            Some(b) => b.sampler,
                            None => alpha.sampler,
                        };
                        let key = KeyView::Masked {
                            base: uid_opt(base),
                            alpha: alpha.uid,
                            invert: source.alpha_invert,
                            own_alpha: alpha.alpha_channel,
                            sampler,
                        };
                        let file = masked_file(
                            file_of(files, base),
                            stored_file(files, alpha.uid, 0),
                            source.alpha_invert,
                            alpha.alpha_channel,
                        );
                        lemma_made_stays(s, key, file, sampler);
                        let (then, index) = s.obtain(key, file, sampler);
                        if index is Some {
                            let k = choose|k: int|
                                0 <= k < then.made.len() && then.made[k] == (key, index->0);
                            assert(after.made[k] == (key, index->0));
                            assert(after.made.contains((key, index->0)));
                        }
                    }
                },
                None => {},
            }
            if base is Some {
                let key = KeyView::Plain { uid: base->0.uid, sampler: base->0.sampler };
                lemma_plain_is_made(s1.made, after.made, key);
            }
        },
        Err(_) => {},
    }
}

/// A texture that is found is found in a longer list, and so is the one that was added.
pub proof fn lemma_made_index_grows(
    made: Seq<(KeyView, usize)>,
    entry: (KeyView, usize),
    key: KeyView,
    from: int,
)
    requires
        0 <= from,
    ensures
        made_index(made, key, from) is Some ==> made_index(made.push(entry), key, from) is Some,
        entry.0 == key && from <= made.len() ==> made_index(made.push(entry), key, from) is Some,
    decreases made.len() - from,
{
    let more = made.push(entry);
    lemma_made_index(made, key, from);
    lemma_made_index(more, key, from);
    if made_index(made, key, from) is Some {
        let index = made_index(made, key, from)->0;
        let k = choose|k: int| from <= k < made.len() && made[k] == (key, index);
        assert(more[k].0 == key);
    }
    if entry.0 == key && from <= made.len() {
        assert(more[made.len() as int].0 == key);
    }
}

/// Adding a material adds one.
pub proof fn lemma_variant_adds_one(
    source: EntryView,
    units: Seq<(u32, u32)>,
    files: Seq<StoredView>,
    s: StudioView,
)
    ensures
        variant_added(source, units, files, s) matches Ok((after, index)) ==> {
            &&& after.document.materials == s.document.materials.push(
                after.document.materials.last(),
            )
            &&& index == s.document.materials.len() as usize
        },
{
    match variant_added(source, units, files, s) {
        Ok((after, _)) => {
            let s1 = masked_base(source, files, s).0;
            let s2 = normal_info(source, files, units, s1).0;
            assert(s1.document.materials == s.document.materials);
            assert(s2.document.materials == s.document.materials);
            assert(after.document.materials =~= s.document.materials.push(
                after.document.materials.last(),
            ));
        },
        Err(_) => {},
    }
}

} // verus!
