//! Building the document from decoded geometries.

use crate::animation::{MorphTargetBinding, NamedBinding};
use crate::attributes::own;
use crate::buffers::{AttrData, Components};
use crate::float_bits::{
    is_nan, lt, lt_of, max_of, maximum, min_of, minimum, INFINITY, NEG_INFINITY, ONE,
};
use crate::geometry::text_opt;
use crate::gltf::{
    accessor_bytes, bounds_of, bytes32, bytes_of, image_bytes, law_accessor_bytes_stay,
    law_image_bytes_stay,
    lemma_appending_joins, lemma_views_push, lemma_views_update, named_ok, only_appended, views,
    AccessorKind, Attribute, AttributeView, Document, DocumentView, Material, MaterialView, Matrix,
    Mesh, MeshView, Mime, NamedAccessor, Node, NodeView, Placement, PlacementView, Skin, SkinView,
    Target, TargetView,
};
use crate::images::ImageError;
use crate::model::{
    entry_index, extension, extension_of, find_material, EntryView, MaterialEntry, TextureUse,
    UseView,
};
use crate::palette::{
    add_material_variant, all_in_use, has_clearcoat, has_specular, lemma_in_use_grows, made_index,
    stored_file, use_ref, uses_noted, uses_transform, variant_added, Extensions, KeyView,
    StoredTexture, StoredView, Studio, StudioView, TextureKey,
};
use crate::primitives::copy_u32;
use crate::scene::{
    identity_of, lemma_to_matrix, matrix16, path_copy, to_matrix, Gathered, GatheredView,
};
use crate::text::{
    ascending, chars_of, contains, contains_of, decimal, decimal_of, join, lemma_text_lt_at,
    lemma_text_lt_transitive, lower_of, lowercase, part_of, same_text, sort_unique, starts_of,
    starts_with, string_of, texts,
};
use vstd::hash_map::StringHashMap;
use vstd::prelude::*;

verus! {

/// A decoded attribute under its name.
#[derive(Debug)]
pub struct NamedAttribute {
    pub name: String,
    pub attribute: Attribute,
}

impl View for NamedAttribute {
    type V = (Seq<char>, AttributeView);

    open spec fn view(&self) -> (Seq<char>, AttributeView) {
        (self.name@, self.attribute@)
    }
}

/// A decoded morph target: differences to the geometry's attributes.
#[derive(Debug)]
pub struct MorphTarget {
    pub name: String,
    pub attributes: Vec<NamedAttribute>,
}

/// The mathematical counterpart of [`MorphTarget`].
#[verifier::ext_equal]
pub ghost struct MorphTargetView {
    pub name: Seq<char>,
    pub attributes: Seq<(Seq<char>, AttributeView)>,
}

impl View for MorphTarget {
    type V = MorphTargetView;

    open spec fn view(&self) -> MorphTargetView {
        MorphTargetView { name: self.name@, attributes: views(self.attributes@) }
    }
}

/// A decoded geometry.
#[derive(Debug)]
pub struct Geometry {
    pub indices: Vec<u32>,
    pub mode: u32,
    pub attributes: Vec<NamedAttribute>,
    pub morph_targets: Vec<MorphTarget>,
    pub texcoord_units: Vec<(u32, u32)>,
    pub material_name: Option<String>,
    pub joint_names: Vec<String>,
    /// The inverse bind matrices of the joints, one after the other.
    pub inverse_bind: Vec<u32>,
    /// The matrices that place the geometry, from the outermost inward.
    pub path: Vec<Matrix>,
    pub animation_target: Option<String>,
}

/// The mathematical counterpart of [`Geometry`].
#[verifier::ext_equal]
pub ghost struct GeometryView {
    pub indices: Seq<u32>,
    pub mode: u32,
    pub attributes: Seq<(Seq<char>, AttributeView)>,
    pub morph_targets: Seq<MorphTargetView>,
    pub texcoord_units: Seq<(u32, u32)>,
    pub material_name: Option<Seq<char>>,
    pub joint_names: Seq<Seq<char>>,
    pub inverse_bind: Seq<u32>,
    pub path: Seq<Matrix>,
    pub animation_target: Option<Seq<char>>,
}

impl View for Geometry {
    type V = GeometryView;

    open spec fn view(&self) -> GeometryView {
        GeometryView {
            indices: self.indices@,
            mode: self.mode,
            attributes: views(self.attributes@),
            morph_targets: views(self.morph_targets@),
            texcoord_units: self.texcoord_units@,
            material_name: text_opt(self.material_name),
            joint_names: texts(self.joint_names@),
            inverse_bind: self.inverse_bind@,
            path: self.path@,
            animation_target: text_opt(self.animation_target),
        }
    }
}

impl GeometryView {
    /// Whether there is an inverse bind matrix for each joint.
    pub open spec fn wf(self) -> bool {
        self.inverse_bind.len() == 16 * self.joint_names.len()
    }
}

/// The attribute of that name.
pub open spec fn attribute_index(
    list: Seq<(Seq<char>, AttributeView)>,
    name: Seq<char>,
    from: int,
) -> Option<int>
    decreases list.len() - from,
{
    if from < 0 || from >= list.len() {
        None
    } else if list[from].0 == name {
        Some(from)
    } else {
        attribute_index(list, name, from + 1)
    }
}

/// The attribute of that name.
pub fn find_attribute(list: &Vec<NamedAttribute>, name: &str) -> (r: Option<usize>)
    ensures
        match r {
            Some(i) => attribute_index(views(list@), name@, 0) == Some(i as int) && i < list@.len(),
            None => attribute_index(views(list@), name@, 0) is None,
        },
{
    let mut i: usize = 0;
    while i < list.len()
        invariant
            i <= list@.len(),
            attribute_index(views(list@), name@, 0) == attribute_index(
                views(list@),
                name@,
                i as int,
            ),
        decreases list@.len() - i,
    {
        assert(views(list@)[i as int] == list@[i as int]@);
        if same_text(list[i].name.as_str(), name) {
            return Some(i);
        }
        i += 1;
    }
    None
}

/// What stands behind the last of the separators of a name.
pub open spec fn leaf_from(name: Seq<char>, end: int) -> Seq<char>
    decreases end,
{
    if end <= 0 || end > name.len() {
        name
    } else if name[end - 1] == ':' || name[end - 1] == '/' || name[end - 1] == '\\' {
        name.skip(end)
    } else {
        leaf_from(name, end - 1)
    }
}

/// Whether a number is at most a hundredth.
pub open spec fn is_dark(v: u32) -> bool {
    !is_nan(v) && !lt_of(0x3c23_d70a, v)
}

/// Whether a material is one of black lines: its name, without what stands before a separator,
/// starts with `line`, and it is dark and without textures.
pub open spec fn is_line(name: Seq<char>, material: Option<EntryView>) -> bool {
    let lower = lower_of(name);
    starts_of(leaf_from(lower, lower.len() as int), "line"@) && (material matches Some(m)
        && m.base_color_texture is None && m.emissive_texture is None && is_dark(m.base_color[0])
        && is_dark(m.base_color[1]) && is_dark(m.base_color[2]))
}

/// What stands behind the last of the separators of a name.
fn leaf_of(name: &str) -> (r: String)
    ensures
        r@ == leaf_from(name@, name@.len() as int),
{
    let s = chars_of(name);
    let mut end: usize = s.len();
    while end > 0
        invariant
            end <= s@.len(),
            s@ == name@,
            leaf_from(name@, name@.len() as int) == leaf_from(name@, end as int),
        decreases end,
    {
        let c: char = s[end - 1];
        if c == ':' || c == '/' || c == '\\' {
            assert(s@.subrange(end as int, s@.len() as int) =~= s@.skip(end as int));
            return string_of(part_of(s.as_slice(), end, s.len()).as_slice());
        }
        end -= 1;
    }
    string_of(s.as_slice())
}

/// Whether a number is at most a hundredth.
fn dark(v: u32) -> (r: bool)
    ensures
        r == is_dark(v),
{
    v % 0x8000_0000 <= 0x7f80_0000 && !lt(0x3c23_d70a, v)
}

/// A reference seen as a material.
pub open spec fn entry_ref(m: Option<&MaterialEntry>) -> Option<EntryView> {
    match m {
        Some(e) => Some(e@),
        None => None,
    }
}

/// Whether a material is one of black lines.
pub fn is_black_line_material(name: &str, material: Option<&MaterialEntry>) -> (r: bool)
    ensures
        r == is_line(name@, entry_ref(material)),
{
    let leaf = leaf_of(lowercase(name).as_str());
    if !starts_with(leaf.as_str(), "line") {
        return false;
    }
    match material {
        Some(m) => m.base_color_texture.is_none() && m.emissive_texture.is_none() && dark(
            m.base_color[0],
        ) && dark(m.base_color[1]) && dark(m.base_color[2]),
        None => false,
    }
}

/// The material of a geometry.
pub open spec fn geometry_material(g: GeometryView, materials: Seq<EntryView>) -> Option<
    EntryView,
> {
    match g.material_name {
        None => None,
        Some(name) => match entry_index(materials, name, 0) {
            Some(i) => Some(materials[i]),
            None => None,
        },
    }
}

/// The material of a geometry.
fn find_geometry_material<'a>(g: &Geometry, materials: &'a Vec<MaterialEntry>) -> (r: Option<
    &'a MaterialEntry,
>)
    ensures
        entry_ref(r) == geometry_material(g@, views(materials@)),
{
    match &g.material_name {
        None => None,
        Some(name) => match find_material(materials, name.as_str()) {
            Some(i) => {
                assert(views(materials@)[i as int] == materials@[i as int]@);
                Some(&materials[i])
            },
            None => None,
        },
    }
}

/// The positions of a geometry that may be a backdrop: few, of at least three coordinates, on an
/// unrigged geometry whose material has no picture.
pub open spec fn backdrop_positions(g: GeometryView, materials: Seq<EntryView>) -> Option<
    (Seq<u32>, usize),
> {
    match attribute_index(g.attributes, "POSITION"@, 0) {
        None => None,
        Some(i) => {
            let a = g.attributes[i].1;
            match (geometry_material(g, materials), a.data) {
                (Some(m), Components::F32(values)) => if g.joint_names.len() == 0 && a.count <= 128
                    && a.item_size >= 3 && m.base_color_texture is None
                    && m.emissive_texture is None {
                    Some((values, a.item_size))
                } else {
                    None
                },
                _ => None,
            }
        },
    }
}

/// The least (or greatest) value of coordinate `j` among the first `n` whole items.
pub open spec fn coordinate_extreme(
    values: Seq<u32>,
    item_size: int,
    j: int,
    n: int,
    low: bool,
) -> u32
    decreases n,
{
    if n <= 0 {
        if low {
            INFINITY
        } else {
            NEG_INFINITY
        }
    } else {
        let rest = coordinate_extreme(values, item_size, j, n - 1, low);
        let v = values[(n - 1) * item_size + j];
        if low {
            min_of(rest, v)
        } else {
            max_of(rest, v)
        }
    }
}

/// The corners of the box around the whole items of a list of positions.
pub open spec fn is_box(values: Seq<u32>, item_size: int, low: Seq<u32>, high: Seq<u32>) -> bool {
    let n = values.len() as int / item_size;
    &&& low.len() == 3
    &&& high.len() == 3
    &&& forall|j: int|
        0 <= j < 3 ==> #[trigger] low[j] == coordinate_extreme(values, item_size, j, n, true)
            && high[j] == coordinate_extreme(values, item_size, j, n, false)
}

/// The least and the greatest value of a coordinate.
fn coordinate_range(values: &Vec<u32>, item_size: usize, j: usize) -> (r: (u32, u32))
    requires
        j < 3 <= item_size,
    ensures
        r.0 == coordinate_extreme(
            values@,
            item_size as int,
            j as int,
            values@.len() as int / item_size as int,
            true,
        ),
        r.1 == coordinate_extreme(
            values@,
            item_size as int,
            j as int,
            values@.len() as int / item_size as int,
            false,
        ),
{
    let length: usize = values.len();
    let n: usize = length / item_size;
    proof {
        vstd::arithmetic::div_mod::lemma_fundamental_div_mod(length as int, item_size as int);
        assert(n * item_size <= length) by (nonlinear_arith)
            requires
                length == item_size * n + length as int % item_size as int,
                length as int % item_size as int >= 0,
        ;
    }
    let mut low: u32 = INFINITY;
    let mut high: u32 = NEG_INFINITY;
    let mut i: usize = 0;
    while i < n
        invariant
            i <= n,
            j < 3 <= item_size,
            length == values@.len(),
            n * item_size <= length,
            low == coordinate_extreme(values@, item_size as int, j as int, i as int, true),
            high == coordinate_extreme(values@, item_size as int, j as int, i as int, false),
        decreases n - i,
    {
        proof {
            assert(0 <= i * item_size && i * item_size + item_size <= n * item_size)
                by (nonlinear_arith)
                requires
                    0 <= i < n,
                    item_size >= 3,
            ;
        }
        let v: u32 = values[i * item_size + j];
        low = minimum(low, v);
        high = maximum(high, v);
        i += 1;
    }
    (low, high)
}

/// The corners of the box around a geometry that may be a backdrop.
pub fn backdrop_box(g: &Geometry, materials: &Vec<MaterialEntry>) -> (r: Option<
    ([u32; 3], [u32; 3]),
>)
    ensures
        match r {
            Some((low, high)) => backdrop_positions(g@, views(materials@)) matches Some(
                (values, size),
            ) && is_box(values, size as int, low@, high@),
            None => backdrop_positions(g@, views(materials@)) is None,
        },
{
    let at: usize = match find_attribute(&g.attributes, "POSITION") {
        Some(i) => i,
        None => {
            return None;
        },
    };
    assert(views(g.attributes@)[at as int] == g.attributes@[at as int]@);
    let position = &g.attributes[at].attribute;
    let material = match find_geometry_material(g, materials) {
        Some(m) => m,
        None => {
            return None;
        },
    };
    let values = match &position.data {
        AttrData::F32(v) => v,
        _ => {
            return None;
        },
    };
    assert(texts(g.joint_names@).len() == g.joint_names@.len());
    if g.joint_names.len() > 0 || position.count > 128 || position.item_size < 3
        || material.base_color_texture.is_some() || material.emissive_texture.is_some() {
        return None;
    }
    let (x0, x1) = coordinate_range(values, position.item_size, 0);
    let (y0, y1) = coordinate_range(values, position.item_size, 1);
    let (z0, z1) = coordinate_range(values, position.item_size, 2);
    let low: [u32; 3] = [x0, y0, z0];
    let high: [u32; 3] = [x1, y1, z1];
    assert(low@ =~= seq![x0, y0, z0]);
    assert(high@ =~= seq![x1, y1, z1]);
    Some((low, high))
}

/// Whether a geometry is written: not if it is a backdrop, an outline, or made of black lines.
pub open spec fn is_kept(g: GeometryView, materials: Seq<EntryView>, backdrop: bool) -> bool {
    !backdrop && (g.material_name matches Some(name) ==> !contains_of(
        lower_of(name),
        "outline"@,
    ) && !is_line(name, geometry_material(g, materials)))
}

/// Whether a geometry is written.
pub fn keep_geometry(g: &Geometry, materials: &Vec<MaterialEntry>, backdrop: bool) -> (r: bool)
    ensures
        r == is_kept(g@, views(materials@), backdrop),
{
    if backdrop {
        return false;
    }
    match &g.material_name {
        None => true,
        Some(name) => {
            if contains(lowercase(name.as_str()).as_str(), "outline") {
                return false;
            }
            !is_black_line_material(name.as_str(), find_geometry_material(g, materials))
        },
    }
}

/// The geometries from `from` on that are written, in order.
pub open spec fn kept_from(
    list: Seq<GeometryView>,
    from: int,
    materials: Seq<EntryView>,
    backdrops: Seq<bool>,
) -> Seq<GeometryView>
    decreases list.len() - from,
{
    if from < 0 || from >= list.len() {
        Seq::empty()
    } else if is_kept(list[from], materials, backdrops[from]) {
        seq![list[from]] + kept_from(list, from + 1, materials, backdrops)
    } else {
        kept_from(list, from + 1, materials, backdrops)
    }
}

/// Leaves out the geometries that are not written.
pub fn keep_geometries(
    list: Vec<Geometry>,
    materials: &Vec<MaterialEntry>,
    backdrops: &Vec<bool>,
) -> (r: Vec<Geometry>)
    requires
        backdrops@.len() == list@.len(),
    ensures
        views(r@) == kept_from(views(list@), 0, views(materials@), backdrops@),
        all_wf(views(list@)) ==> all_wf(views(r@)),
{
    let ghost all = views(list@);
    let ghost goal = kept_from(all, 0, views(materials@), backdrops@);
    let total: usize = list.len();
    let mut rest = list;
    let mut out: Vec<Geometry> = Vec::new();
    let mut i: usize = 0;
    assert(views(out@) + goal =~= goal);
    while i < total
        invariant
            i <= total,
            total == list@.len() == backdrops@.len(),
            all == views(list@),
            rest@ == list@.skip(i as int),
            goal == views(out@) + kept_from(all, i as int, views(materials@), backdrops@),
            all_wf(all) ==> all_wf(views(out@)),
        decreases total - i,
    {
        let g = rest.remove(0);
        assert(rest@ =~= list@.skip(i + 1));
        assert(all[i as int] == g@);
        let ghost before = views(out@);
        let ghost later = kept_from(all, i + 1, views(materials@), backdrops@);
        if keep_geometry(&g, materials, backdrops[i]) {
            proof {
                lemma_views_push(out@, g);
                assert(before + (seq![g@] + later) =~= before.push(g@) + later);
            }
            out.push(g);
        }
        i += 1;
    }
    assert(goal =~= views(out@));
    out
}

/// Whether an attribute of that name holds texture coordinates.
pub fn is_texcoord(name: &str) -> (r: bool)
    ensures
        r == starts_of(name@, "TEXCOORD_"@),
{
    starts_with(name, "TEXCOORD_")
}

/// The first components of each item: `keep` out of `size`, of the first `count` whole items.
pub open spec fn leading<T>(v: Seq<T>, size: int, count: int, keep: int) -> Seq<T> {
    let whole = v.len() as int / size;
    let n = if count <= whole {
        count
    } else {
        whole
    };
    Seq::new((n * keep) as nat, |i: int| v[(i / keep) * size + i % keep])
}

/// The first components of each item.
pub open spec fn leading_of(c: Components, size: int, count: int, keep: int) -> Components {
    match c {
        Components::F32(v) => Components::F32(leading(v, size, count, keep)),
        Components::I32(v) => Components::I32(leading(v, size, count, keep)),
        Components::U32(v) => Components::U32(leading(v, size, count, keep)),
        Components::U16(v) => Components::U16(leading(v, size, count, keep)),
        Components::U8(v) => Components::U8(leading(v, size, count, keep)),
        Components::I16(v) => Components::I16(leading(v, size, count, keep)),
    }
}

/// The first components of each item.
fn take_leading<T: Copy>(v: &Vec<T>, size: usize, count: usize, keep: usize) -> (r: Vec<T>)
    requires
        0 < keep <= size,
    ensures
        r@ == leading(v@, size as int, count as int, keep as int),
{
    let length: usize = v.len();
    let whole: usize = length / size;
    let n: usize = if count <= whole {
        count
    } else {
        whole
    };
    proof {
        vstd::arithmetic::div_mod::lemma_fundamental_div_mod(length as int, size as int);
        assert(whole * size <= length) by (nonlinear_arith)
            requires
                length == size * whole + length as int % size as int,
                length as int % size as int >= 0,
        ;
    }
    let ghost goal = leading(v@, size as int, count as int, keep as int);
    let mut out: Vec<T> = Vec::new();
    let mut k: usize = 0;
    assert(0 * keep == 0) by (nonlinear_arith);
    while k < n
        invariant
            k <= n <= whole,
            0 < keep <= size,
            length == v@.len(),
            whole * size <= length,
            goal.len() == n * keep,
            goal == leading(v@, size as int, count as int, keep as int),
            out@.len() == k * keep,
            forall|i: int| 0 <= i < k * keep ==> #[trigger] out@[i] == goal[i],
        decreases n - k,
    {
        proof {
            assert(0 <= k * size && k * size + size <= whole * size) by (nonlinear_arith)
                requires
                    0 <= k < whole,
                    size > 0,
            ;
            assert((k + 1) * keep == k * keep + keep) by (nonlinear_arith);
            assert((k + 1) * keep <= n * keep) by (nonlinear_arith)
                requires
                    k < n,
                    keep > 0,
            ;
        }
        let start: usize = k * size;
        let mut j: usize = 0;
        while j < keep
            invariant
                j <= keep <= size,
                0 < keep,
                k < n,
                start == k * size,
                start + size <= length == v@.len(),
                goal.len() == n * keep,
                (k + 1) * keep == k * keep + keep,
                (k + 1) * keep <= n * keep,
                goal == leading(v@, size as int, count as int, keep as int),
                out@.len() == k * keep + j,
                forall|i: int| 0 <= i < k * keep + j ==> #[trigger] out@[i] == goal[i],
            decreases keep - j,
        {
            proof {
                vstd::arithmetic::div_mod::lemma_fundamental_div_mod_converse(
                    k * keep + j,
                    keep as int,
                    k as int,
                    j as int,
                );
            }
            out.push(v[start + j]);
            j += 1;
        }
        k += 1;
    }
    assert(out@ =~= goal);
    out
}

/// The colors of a geometry's vertices, still to be brought to the result's range.
#[derive(Debug)]
pub struct ColorPlan {
    /// Three or four components for each vertex.
    pub data: AttrData,
    pub item_size: usize,
    pub count: usize,
    /// The number that stands for full intensity.
    pub full: u32,
}

/// The mathematical counterpart of [`ColorPlan`].
#[verifier::ext_equal]
pub ghost struct ColorView {
    pub data: Components,
    pub item_size: int,
    pub count: usize,
    pub full: u32,
}

impl View for ColorPlan {
    type V = ColorView;

    open spec fn view(&self) -> ColorView {
        ColorView {
            data: self.data@,
            item_size: self.item_size as int,
            count: self.count,
            full: self.full,
        }
    }
}

/// The interim name of vertex colors.
pub const COLOR_NAME: &'static str = "_SKETCHFAB_COLOR_0";

/// The vertex colors of a geometry, if they are to be written and there are three components:
/// with alpha if that is asked for and there is a fourth.
pub open spec fn colors_of(
    list: Seq<(Seq<char>, AttributeView)>,
    enabled: bool,
    use_alpha: bool,
) -> Option<ColorView> {
    match attribute_index(list, COLOR_NAME@, 0) {
        None => None,
        Some(i) => {
            let a = list[i].1;
            let keep = if use_alpha && a.item_size >= 4 {
                4int
            } else {
                3int
            };
            if !enabled || a.item_size < 3 {
                None
            } else {
                Some(
                    ColorView {
                        data: leading_of(a.data, a.item_size as int, a.count as int, keep),
                        item_size: keep,
                        count: a.count,
                        full: if !a.normalized {
                            1
                        } else if a.component_type == 5121 {
                            255
                        } else if a.component_type == 5123 {
                            65535
                        } else {
                            1
                        },
                    },
                )
            }
        },
    }
}

/// The attributes without the interim vertex colors.
pub open spec fn without_colors(list: Seq<(Seq<char>, AttributeView)>) -> Seq<
    (Seq<char>, AttributeView),
> {
    match attribute_index(list, COLOR_NAME@, 0) {
        None => list,
        Some(i) => list.remove(i),
    }
}

/// Takes the vertex colors out of a geometry. Returns what is to be written in their place.
pub fn configure_vertex_colors(g: &mut Geometry, enabled: bool, use_alpha: bool) -> (r: Option<
    ColorPlan,
>)
    ensures
        match r {
            Some(c) => colors_of(old(g)@.attributes, enabled, use_alpha) == Some(c@),
            None => colors_of(old(g)@.attributes, enabled, use_alpha) is None,
        },
        final(g)@ == (GeometryView {
            attributes: without_colors(old(g)@.attributes),
            ..old(g)@
        }),
{
    let at: usize = match find_attribute(&g.attributes, COLOR_NAME) {
        Some(i) => i,
        None => {
            return None;
        },
    };
    let ghost before = g.attributes@;
    assert(views(before)[at as int] == before[at as int]@);
    let source = g.attributes.remove(at).attribute;
    assert(views(g.attributes@) =~= views(before).remove(at as int));
    if !enabled || source.item_size < 3 {
        return None;
    }
    let keep: usize = if use_alpha && source.item_size >= 4 {
        4
    } else {
        3
    };
    let full: u32 = if !source.normalized {
        1
    } else if source.component_type == 5121 {
        255
    } else if source.component_type == 5123 {
        65535
    } else {
        1
    };
    let size: usize = source.item_size;
    let count: usize = source.count;
    let data = match source.data {
        AttrData::F32(v) => AttrData::F32(take_leading(&v, size, count, keep)),
        AttrData::I32(v) => AttrData::I32(take_leading(&v, size, count, keep)),
        AttrData::U32(v) => AttrData::U32(take_leading(&v, size, count, keep)),
        AttrData::U16(v) => AttrData::U16(take_leading(&v, size, count, keep)),
        AttrData::U8(v) => AttrData::U8(take_leading(&v, size, count, keep)),
        AttrData::I16(v) => AttrData::I16(take_leading(&v, size, count, keep)),
    };
    Some(ColorPlan { data, item_size: keep, count, full })
}

/// The attributes with the final vertex colors, in place of earlier ones of that name.
pub open spec fn with_colors(list: Seq<(Seq<char>, AttributeView)>, colors: AttributeView) -> Seq<
    (Seq<char>, AttributeView),
> {
    match attribute_index(list, "COLOR_0"@, 0) {
        Some(i) => list.update(i, ("COLOR_0"@, colors)),
        None => list.push(("COLOR_0"@, colors)),
    }
}

/// Gives a geometry its final vertex colors.
pub fn set_colors(g: &mut Geometry, colors: Attribute)
    ensures
        final(g)@ == (GeometryView {
            attributes: with_colors(old(g)@.attributes, colors@),
            ..old(g)@
        }),
{
    let one = NamedAttribute { name: own("COLOR_0"), attribute: colors };
    match find_attribute(&g.attributes, "COLOR_0") {
        Some(i) => {
            proof {
                lemma_views_update(g.attributes@, i as int, one);
            }
            g.attributes.set(i, one);
        },
        None => {
            proof {
                lemma_views_push(g.attributes@, one);
            }
            g.attributes.push(one);
        },
    }
}

/// Whether a list holds the numbers of the stored textures, each once, in dictionary order.
pub open spec fn is_order(order: Seq<Seq<char>>, files: Seq<StoredView>) -> bool {
    &&& ascending(order)
    &&& forall|t: Seq<char>|
        order.contains(t) <==> exists|i: int| 0 <= i < files.len() && (#[trigger] files[i]).uid == t
}

/// The numbers of the stored textures, each once, in dictionary order.
pub fn image_order(files: &Vec<StoredTexture>) -> (r: Vec<String>)
    ensures
        is_order(texts(r@), views(files@)),
{
    let mut all: Vec<String> = Vec::new();
    let mut i: usize = 0;
    while i < files.len()
        invariant
            i <= files@.len(),
            all@.len() == i,
            forall|k: int| 0 <= k < i ==> (#[trigger] all@[k])@ == views(files@)[k].uid,
        decreases files@.len() - i,
    {
        assert(views(files@)[i as int] == files@[i as int]@);
        all.push(files[i].uid.clone());
        i += 1;
    }
    let r = sort_unique(&all);
    proof {
        assert forall|t: Seq<char>|
            texts(r@).contains(t) <==> exists|k: int|
                0 <= k < files@.len() && (#[trigger] views(files@)[k]).uid == t by {
            if texts(all@).contains(t) {
                let k = choose|k: int| 0 <= k < texts(all@).len() && texts(all@)[k] == t;
                assert(all@[k]@ == views(files@)[k].uid);
            }
            if exists|k: int| 0 <= k < files@.len() && (#[trigger] views(files@)[k]).uid == t {
                let k = choose|k: int|
                    0 <= k < files@.len() && (#[trigger] views(files@)[k]).uid == t;
                assert(all@[k]@ == t);
                assert(texts(all@)[k] == t);
            }
        }
    }
    r
}

/// The format of an image file, by its name.
pub open spec fn mime_of(name: Seq<char>) -> Mime {
    match extension_of(name) {
        Some(e) => if lower_of(e) == "png"@ {
            Mime::Png
        } else {
            Mime::Jpeg
        },
        None => Mime::Jpeg,
    }
}

/// The format of an image file, by its name.
pub fn image_mime(name: &str) -> (r: Mime)
    ensures
        r == mime_of(name@),
{
    match extension(name) {
        Some(e) => if same_text(lowercase(e.as_str()).as_str(), "png") {
            Mime::Png
        } else {
            Mime::Jpeg
        },
        None => Mime::Jpeg,
    }
}

/// The images of the stored textures.
#[derive(Debug)]
pub struct StoredImage {
    pub uid: String,
    pub image: usize,
}

impl View for StoredImage {
    type V = (Seq<char>, usize);

    open spec fn view(&self) -> (Seq<char>, usize) {
        (self.uid@, self.image)
    }
}

/// The document with the images of the first `n` textures of an order, and these images. A
/// texture without a file has none.
pub open spec fn with_images(
    d: DocumentView,
    files: Seq<StoredView>,
    order: Seq<Seq<char>>,
    n: int,
) -> (DocumentView, Seq<(Seq<char>, usize)>)
    decreases n,
{
    if n <= 0 {
        (d, Seq::empty())
    } else {
        let (before, list) = with_images(d, files, order, n - 1);
        match stored_file(files, order[n - 1], 0) {
            None => (before, list),
            Some(f) => (
                before.with_image(f.bytes, mime_of(f.name)),
                list.push((order[n - 1], before.images.len() as usize)),
            ),
        }
    }
}

/// Adds the image of a texture, if it has a file.
pub fn add_image(document: &mut Document, files: &Vec<StoredTexture>, uid: &str) -> (r: Option<
    usize,
>)
    ensures
        match stored_file(views(files@), uid@, 0) {
            None => r is None && final(document)@ == old(document)@,
            Some(f) => r == Some(old(document)@.images.len() as usize) && final(document)@ == old(
                document,
            )@.with_image(f.bytes, mime_of(f.name)),
        },
        old(document)@.wf() ==> final(document)@.wf(),
        only_appended(old(document)@, final(document)@),
        r matches Some(image) ==> image < final(document)@.images.len(),
        old(document)@.wf() ==> (r matches Some(image) ==> stored_file(views(files@), uid@, 0)
            matches Some(f) && image_bytes(final(document)@, image as int) == f.bytes),
{
    proof {
        lemma_appending_joins(document@, document@, document@);
    }
    let mut i: usize = 0;
    while i < files.len()
        invariant
            i <= files@.len(),
            document@ == old(document)@,
            only_appended(document@, document@),
            stored_file(views(files@), uid@, 0) == stored_file(
                views(files@),
                uid@,
                i as int,
            ),
        decreases files@.len() - i,
    {
        assert(views(files@)[i as int] == files@[i as int]@);
        if same_text(files[i].uid.as_str(), uid) {
            return match &files[i].file {
                Some(f) => {
                    let mime = image_mime(f.name.as_str());
                    Some(document.add_image_bytes(f.bytes.as_slice(), mime))
                },
                None => None,
            };
        }
        i += 1;
    }
    None
}

/// Whether the images of a list exist.
pub open spec fn images_ok(list: Seq<(Seq<char>, usize)>, images: int) -> bool {
    forall|i: int| 0 <= i < list.len() ==> (#[trigger] list[i]).1 < images
}

/// Whether the images of a list are the files of the textures that they are listed for.
pub open spec fn embedded(
    d: DocumentView,
    list: Seq<(Seq<char>, usize)>,
    files: Seq<StoredView>,
) -> bool {
    forall|i: int|
        0 <= i < list.len() ==> is_file_of(d, files, (#[trigger] list[i]).0, list[i].1 as int)
}

/// Whether an image is the file of a texture.
pub open spec fn is_file_of(
    d: DocumentView,
    files: Seq<StoredView>,
    uid: Seq<char>,
    image: int,
) -> bool {
    &&& 0 <= image < d.images.len()
    &&& stored_file(files, uid, 0) matches Some(f) && image_bytes(d, image) == f.bytes
}

/// Every texture of the order that has a file is listed.
pub proof fn law_textures_with_files_are_listed(
    d: DocumentView,
    files: Seq<StoredView>,
    order: Seq<Seq<char>>,
    n: int,
    k: int,
)
    requires
        0 <= k < n <= order.len(),
        stored_file(files, order[k], 0) is Some,
    ensures
        exists|i: int|
            0 <= i < with_images(d, files, order, n).1.len() && (#[trigger] with_images(
                d,
                files,
                order,
                n,
            ).1[i]).0 == order[k],
    decreases n,
{
    let (before, list) = with_images(d, files, order, n - 1);
    let after = with_images(d, files, order, n).1;
    if k < n - 1 {
        law_textures_with_files_are_listed(d, files, order, n - 1, k);
        let i = choose|i: int| 0 <= i < list.len() && (#[trigger] list[i]).0 == order[k];
        assert(after[i].0 == order[k]);
    } else {
        assert(after[list.len() as int].0 == order[k]);
    }
}

/// Adds the images of the stored textures, in the given order.
pub fn add_images(document: &mut Document, files: &Vec<StoredTexture>, order: &Vec<String>) -> (r:
    Vec<StoredImage>)
    ensures
        (final(document)@, views(r@)) == with_images(
            old(document)@,
            views(files@),
            texts(order@),
            order@.len() as int,
        ),
        old(document)@.wf() ==> final(document)@.wf(),
        only_appended(old(document)@, final(document)@),
        images_ok(views(r@), final(document)@.images.len() as int),
        old(document)@.wf() ==> embedded(final(document)@, views(r@), views(files@)),
        final(document)@.materials == old(document)@.materials,
        final(document)@.nodes == old(document)@.nodes,
        final(document)@.textures == old(document)@.textures,
{
    let ghost start = document@;
    proof {
        lemma_appending_joins(start, start, start);
    }
    let mut list: Vec<StoredImage> = Vec::new();
    assert(views(list@) =~= Seq::<(Seq<char>, usize)>::empty());
    let mut i: usize = 0;
    while i < order.len()
        invariant
            i <= order@.len(),
            (document@, views(list@)) == with_images(
                start,
                views(files@),
                texts(order@),
                i as int,
            ),
            start.wf() ==> document@.wf(),
            only_appended(start, document@),
            images_ok(views(list@), document@.images.len() as int),
            start.wf() ==> embedded(document@, views(list@), views(files@)),
            document@.materials == start.materials,
            document@.nodes == start.nodes,
            document@.textures == start.textures,
        decreases order@.len() - i,
    {
        assert(texts(order@)[i as int] == order@[i as int]@);
        let ghost before = document@;
        let ghost earlier = views(list@);
        match add_image(document, files, order[i].as_str()) {
            Some(image) => {
                let one = StoredImage { uid: order[i].clone(), image };
                proof {
                    lemma_views_push(list@, one);
                }
                list.push(one);
            },
            None => {},
        }
        proof {
            lemma_appending_joins(start, before, document@);
            if start.wf() {
                assert forall|k: int| 0 <= k < views(list@).len() implies is_file_of(
                    document@,
                    views(files@),
                    (#[trigger] views(list@)[k]).0,
                    views(list@)[k].1 as int,
                ) by {
                    if k < earlier.len() {
                        assert(views(list@)[k] == earlier[k]);
                        law_image_bytes_stay(before, document@, earlier[k].1 as int);
                    }
                }
            }
        }
        i += 1;
    }
    list
}

/// The image of a texture.
pub open spec fn image_of(list: Seq<(Seq<char>, usize)>, uid: Seq<char>, from: int) -> Option<usize>
    decreases list.len() - from,
{
    if from < 0 || from >= list.len() {
        None
    } else if list[from].0 == uid {
        Some(list[from].1)
    } else {
        image_of(list, uid, from + 1)
    }
}

/// The studio with the texture of a use, if it has an image and was not made before.
pub open spec fn with_plain(
    s: StudioView,
    usage: Option<UseView>,
    images: Seq<(Seq<char>, usize)>,
) -> StudioView {
    match usage {
        None => s,
        Some(u) => {
            let key = KeyView::Plain { uid: u.uid, sampler: u.sampler };
            if made_index(s.made, key, 0) is Some {
                s
            } else {
                match image_of(images, u.uid, 0) {
                    None => s,
                    Some(image) => s.with_made(key, image, u.sampler).0,
                }
            }
        },
    }
}

/// The studio with the textures of the first `n` of a list of uses.
pub open spec fn with_uses(
    s: StudioView,
    uses: Seq<Option<UseView>>,
    n: int,
    images: Seq<(Seq<char>, usize)>,
) -> StudioView
    decreases n,
{
    if n <= 0 {
        s
    } else {
        with_plain(with_uses(s, uses, n - 1, images), uses[n - 1], images)
    }
}

/// The studio with the textures of the first `n` materials.
pub open spec fn with_textures(
    s: StudioView,
    materials: Seq<EntryView>,
    n: int,
    images: Seq<(Seq<char>, usize)>,
) -> StudioView
    decreases n,
{
    if n <= 0 {
        s
    } else {
        with_uses(
            with_textures(s, materials, n - 1, images),
            materials[n - 1].uses(),
            8,
            images,
        )
    }
}

/// The image of a texture.
fn find_image(list: &Vec<StoredImage>, uid: &str) -> (r: Option<usize>)
    ensures
        r == image_of(views(list@), uid@, 0),
        r matches Some(image) ==> exists|i: int|
            0 <= i < list@.len() && (#[trigger] views(list@)[i]).1 == image,
{
    let mut i: usize = 0;
    while i < list.len()
        invariant
            i <= list@.len(),
            image_of(views(list@), uid@, 0) == image_of(views(list@), uid@, i as int),
        decreases list@.len() - i,
    {
        assert(views(list@)[i as int] == list@[i as int]@);
        if same_text(list[i].uid.as_str(), uid) {
            return Some(list[i].image);
        }
        i += 1;
    }
    None
}

/// Makes the texture of a use, if it has an image and was not made before.
fn add_plain(studio: &mut Studio, usage: Option<&TextureUse>, images: &Vec<StoredImage>)
    ensures
        final(studio)@ == with_plain(
            old(studio)@,
            use_ref(usage),
            views(images@),
        ),
        images_ok(views(images@), old(studio)@.document.images.len() as int)
            ==> old(studio)@.leads_to(final(studio)@),
        final(studio)@.document.images == old(studio)@.document.images,
{
    proof {
        lemma_appending_joins(studio@.document, studio@.document, studio@.document);
    }
    match usage {
        None => {},
        Some(u) => {
            let key = TextureKey::Plain { uid: u.uid.clone(), sampler: u.sampler };
            if studio.find_made(&key).is_none() {
                match find_image(images, u.uid.as_str()) {
                    Some(image) => {
                        let _ = studio.make(key, image, u.sampler);
                    },
                    None => {},
                }
            }
        },
    }
}

/// Makes the textures of all materials.
pub fn add_textures(studio: &mut Studio, materials: &Vec<MaterialEntry>, images: &Vec<StoredImage>)
    ensures
        final(studio)@ == with_textures(
            old(studio)@,
            views(materials@),
            materials@.len() as int,
            views(images@),
        ),
        images_ok(views(images@), old(studio)@.document.images.len() as int)
            ==> old(studio)@.leads_to(final(studio)@),
{
    let ghost start = studio@;
    let ghost ok = images_ok(views(images@), studio@.document.images.len() as int);
    proof {
        lemma_appending_joins(start.document, start.document, start.document);
    }
    let mut i: usize = 0;
    while i < materials.len()
        invariant
            i <= materials@.len(),
            studio@ == with_textures(start, views(materials@), i as int, views(images@)),
            studio@.document.images == start.document.images,
            ok == images_ok(views(images@), start.document.images.len() as int),
            ok ==> start.leads_to(studio@),
        decreases materials@.len() - i,
    {
        let ghost before = studio@;
        assert(views(materials@)[i as int] == materials@[i as int]@);
        let mut k: usize = 0;
        while k < 8
            invariant
                k <= 8,
                i < materials@.len(),
                studio@ == with_uses(
                    before,
                    materials@[i as int]@.uses(),
                    k as int,
                    views(images@),
                ),
                studio@.document.images == start.document.images,
                ok == images_ok(views(images@), start.document.images.len() as int),
                ok ==> start.leads_to(studio@),
            decreases 8 - k,
        {
            let ghost earlier = studio@.document;
            add_plain(studio, materials[i].usage(k), images);
            proof {
                lemma_appending_joins(start.document, earlier, studio@.document);
            }
            k += 1;
        }
        i += 1;
    }
}

/// The material of geometries without one: white, rough, and seen from both sides.
pub open spec fn fallback_of() -> MaterialView {
    MaterialView {
        name: "fallback"@,
        double_sided: true,
        alpha_mode: None,
        base_color: [ONE, ONE, ONE, ONE],
        metallic: 0,
        roughness: ONE,
        base_color_texture: None,
        metallic_roughness_texture: None,
        emissive_factor: None,
        emissive_strength: None,
        emissive_texture: None,
        occlusion_texture: None,
        normal_texture: None,
        normal_scale: ONE,
        alpha_cutoff: None,
        extensions: Seq::empty(),
        unlit: false,
    }
}

/// Adds the material of geometries without one.
pub fn add_fallback(document: &mut Document) -> (r: usize)
    ensures
        final(document)@ == old(document)@.with_material(fallback_of()),
        r == old(document)@.materials.len(),
        old(document)@.wf() ==> final(document)@.wf(),
        only_appended(old(document)@, final(document)@),
{
    let material = Material {
        name: own("fallback"),
        double_sided: true,
        alpha_mode: None,
        base_color: [ONE, ONE, ONE, ONE],
        metallic: 0,
        roughness: ONE,
        base_color_texture: None,
        metallic_roughness_texture: None,
        emissive_factor: None,
        emissive_strength: None,
        emissive_texture: None,
        occlusion_texture: None,
        normal_texture: None,
        normal_scale: ONE,
        alpha_cutoff: None,
        extensions: Vec::new(),
        unlit: false,
    };
    assert(material@ =~= fallback_of());
    document.add_material(material)
}

/// A material that was added for geometries with certain units.
#[derive(Debug)]
pub struct Variant {
    pub name: String,
    pub units: Vec<(u32, u32)>,
    pub index: usize,
}

/// The mathematical counterpart of [`Variant`].
#[verifier::ext_equal]
pub ghost struct VariantView {
    pub name: Seq<char>,
    pub units: Seq<(u32, u32)>,
    pub index: usize,
}

impl View for Variant {
    type V = VariantView;

    open spec fn view(&self) -> VariantView {
        VariantView { name: self.name@, units: self.units@, index: self.index }
    }
}

/// The document under construction, with what is known of its materials and nodes.
pub struct Builder {
    pub studio: Studio,
    pub variants: Vec<Variant>,
    pub fallback: usize,
    /// The node of each name.
    pub names: StringHashMap<usize>,
    pub bindings: Vec<NamedBinding>,
}

/// The mathematical counterpart of [`Builder`].
#[verifier::ext_equal]
pub ghost struct BuilderView {
    pub studio: StudioView,
    pub variants: Seq<VariantView>,
    pub fallback: usize,
    pub names: Map<Seq<char>, usize>,
    pub bindings: Seq<(Seq<char>, MorphTargetBinding)>,
}

impl View for Builder {
    type V = BuilderView;

    open spec fn view(&self) -> BuilderView {
        BuilderView {
            studio: self.studio@,
            variants: views(self.variants@),
            fallback: self.fallback,
            names: self.names@,
            bindings: views(self.bindings@),
        }
    }
}

impl BuilderView {
    /// Whether every reference is to something that exists.
    pub open spec fn wf(self) -> bool {
        &&& self.studio.wf()
        &&& self.fallback < self.studio.document.materials.len()
        &&& forall|i: int|
            0 <= i < self.variants.len() ==> (#[trigger] self.variants[i]).index
                < self.studio.document.materials.len()
        &&& forall|name: Seq<char>| #[trigger]
            self.names.contains_key(name) ==> self.names[name] < self.studio.document.nodes.len()
        &&& forall|i: int|
            0 <= i < self.bindings.len() ==> (#[trigger] self.bindings[i]).1.node
                < self.studio.document.nodes.len()
    }

    /// The same with another document.
    pub open spec fn with_document(self, document: DocumentView) -> BuilderView {
        BuilderView { studio: StudioView { document, ..self.studio }, ..self }
    }
}

/// The material that was added for that name and those units.
pub open spec fn variant_index(
    list: Seq<VariantView>,
    name: Seq<char>,
    units: Seq<(u32, u32)>,
    from: int,
) -> Option<usize>
    decreases list.len() - from,
{
    if from < 0 || from >= list.len() {
        None
    } else if list[from].name == name && list[from].units == units {
        Some(list[from].index)
    } else {
        variant_index(list, name, units, from + 1)
    }
}

/// The builder with a geometry's material, and the material: one for each name and set of units,
/// or the fallback if the model has none of the name.
pub open spec fn with_variant(
    b: BuilderView,
    g: GeometryView,
    materials: Seq<EntryView>,
    files: Seq<StoredView>,
) -> Result<(BuilderView, usize), ImageError> {
    match geometry_material(g, materials) {
        None => Ok((b, b.fallback)),
        Some(source) => {
            let name = g.material_name->0;
            match variant_index(b.variants, name, g.texcoord_units, 0) {
                Some(index) => Ok((b, index)),
                None => match variant_added(source, g.texcoord_units, files, b.studio) {
                    Err(e) => Err(e),
                    Ok((studio, index)) => Ok(
                        (
                            BuilderView {
                                studio,
                                variants: b.variants.push(
                                    VariantView { name, units: g.texcoord_units, index },
                                ),
                                ..b
                            },
                            index,
                        ),
                    ),
                },
            }
        },
    }
}

/// Whether two lists of units are the same.
fn same_units(a: &Vec<(u32, u32)>, b: &Vec<(u32, u32)>) -> (r: bool)
    ensures
        r == (a@ == b@),
{
    if a.len() != b.len() {
        return false;
    }
    let mut i: usize = 0;
    while i < a.len()
        invariant
            i <= a@.len(),
            a@.len() == b@.len(),
            forall|k: int| 0 <= k < i ==> a@[k] == b@[k],
        decreases a@.len() - i,
    {
        if a[i].0 != b[i].0 || a[i].1 != b[i].1 {
            assert(a@[i as int] != b@[i as int]);
            return false;
        }
        i += 1;
    }
    assert(a@ =~= b@);
    true
}

/// The same units again.
fn copy_units(list: &Vec<(u32, u32)>) -> (r: Vec<(u32, u32)>)
    ensures
        r@ == list@,
{
    let mut out: Vec<(u32, u32)> = Vec::new();
    let mut i: usize = 0;
    while i < list.len()
        invariant
            i <= list@.len(),
            out@ == list@.take(i as int),
        decreases list@.len() - i,
    {
        out.push(list[i]);
        i += 1;
        assert(out@ =~= list@.take(i as int));
    }
    assert(out@ =~= list@);
    out
}

/// The document with the first `n` attributes of a list, and their accessors.
pub open spec fn with_attributes(
    d: DocumentView,
    list: Seq<(Seq<char>, AttributeView)>,
    n: int,
) -> (DocumentView, Seq<(Seq<char>, usize)>)
    decreases n,
{
    if n <= 0 {
        (d, Seq::empty())
    } else {
        let (before, named) = with_attributes(d, list, n - 1);
        (
            before.with_vertex_accessor(list[n - 1].1, 34962),
            named.push((list[n - 1].0, before.accessors.len() as usize)),
        )
    }
}

/// Whether `e` holds what `d` does, at the same places, and perhaps more numbers.
pub open spec fn only_more_data(d: DocumentView, e: DocumentView) -> bool {
    &&& d.accessors.len() <= e.accessors.len()
    &&& d.images == e.images
    &&& d.textures == e.textures
    &&& d.materials == e.materials
    &&& d.meshes == e.meshes
    &&& d.skins == e.skins
    &&& d.nodes == e.nodes
    &&& only_appended(d, e)
    &&& d.wf() ==> e.wf()
}

/// Whether named accessors hold the attributes of a list.
pub open spec fn attributes_held(
    d: DocumentView,
    named: Seq<(Seq<char>, usize)>,
    list: Seq<(Seq<char>, AttributeView)>,
) -> bool {
    &&& named.len() == list.len()
    &&& forall|i: int|
        0 <= i < named.len() ==> (#[trigger] named[i]).0 == list[i].0 && named[i].1
            < d.accessors.len() && accessor_bytes(d, named[i].1 as int) == bytes_of(
            list[i].1.data,
        )
}

/// Whether targets hold morph targets.
pub open spec fn targets_held(
    d: DocumentView,
    targets: Seq<TargetView>,
    list: Seq<MorphTargetView>,
) -> bool {
    &&& targets.len() == list.len()
    &&& forall|i: int|
        0 <= i < targets.len() ==> (#[trigger] targets[i]).name == list[i].name
            && attributes_held(d, targets[i].attributes, list[i].attributes)
}

/// Whether a mesh holds a geometry: its indices, its attributes and its morph targets.
pub open spec fn mesh_held(d: DocumentView, mesh: int, g: GeometryView) -> bool {
    let m = d.meshes[mesh];
    &&& 0 <= mesh < d.meshes.len()
    &&& m.mode == g.mode
    &&& m.indices < d.accessors.len()
    &&& accessor_bytes(d, m.indices as int) == bytes32(g.indices)
    &&& attributes_held(d, m.attributes, g.attributes)
    &&& targets_held(d, m.targets, g.morph_targets)
}

/// Attributes stay as they are while things are appended.
proof fn lemma_attributes_stay(
    d: DocumentView,
    e: DocumentView,
    named: Seq<(Seq<char>, usize)>,
    list: Seq<(Seq<char>, AttributeView)>,
)
    requires
        d.wf(),
        only_appended(d, e),
        attributes_held(d, named, list),
    ensures
        attributes_held(e, named, list),
{
    assert forall|i: int| 0 <= i < named.len() implies (#[trigger] named[i]).0 == list[i].0
        && named[i].1 < e.accessors.len() && accessor_bytes(e, named[i].1 as int) == bytes_of(
        list[i].1.data,
    ) by {
        law_accessor_bytes_stay(d, e, named[i].1 as int);
    }
}

/// Morph targets stay as they are while things are appended.
proof fn lemma_targets_stay(
    d: DocumentView,
    e: DocumentView,
    targets: Seq<TargetView>,
    list: Seq<MorphTargetView>,
)
    requires
        d.wf(),
        only_appended(d, e),
        targets_held(d, targets, list),
    ensures
        targets_held(e, targets, list),
{
    assert forall|i: int| 0 <= i < targets.len() implies (#[trigger] targets[i]).name
        == list[i].name && attributes_held(e, targets[i].attributes, list[i].attributes) by {
        lemma_attributes_stay(d, e, targets[i].attributes, list[i].attributes);
    }
}

/// A mesh holds its geometry while things are appended.
pub proof fn law_mesh_stays(d: DocumentView, e: DocumentView, mesh: int, g: GeometryView)
    requires
        d.wf(),
        only_appended(d, e),
        mesh_held(d, mesh, g),
    ensures
        mesh_held(e, mesh, g),
{
    assert(e.meshes.len() > mesh && e.meshes[mesh] == d.meshes[mesh]) by {
        reveal(only_appended);
    }
    let m = d.meshes[mesh];
    law_accessor_bytes_stay(d, e, m.indices as int);
    lemma_attributes_stay(d, e, m.attributes, g.attributes);
    lemma_targets_stay(d, e, m.targets, g.morph_targets);
}

/// Adds a list of attributes.
fn add_attributes(document: &mut Document, list: &Vec<NamedAttribute>) -> (r: Vec<NamedAccessor>)
    ensures
        (final(document)@, views(r@)) == with_attributes(
            old(document)@,
            views(list@),
            list@.len() as int,
        ),
        only_more_data(old(document)@, final(document)@),
        named_ok(views(r@), final(document)@.accessors.len() as int),
        old(document)@.wf() ==> attributes_held(final(document)@, views(r@), views(list@)),
{
    let ghost start = document@;
    proof {
        lemma_appending_joins(start, start, start);
    }
    let mut out: Vec<NamedAccessor> = Vec::new();
    assert(views(out@) =~= Seq::<(Seq<char>, usize)>::empty());
    let mut i: usize = 0;
    while i < list.len()
        invariant
            i <= list@.len(),
            (document@, views(out@)) == with_attributes(start, views(list@), i as int),
            only_more_data(start, document@),
            named_ok(views(out@), document@.accessors.len() as int),
            start.wf() ==> attributes_held(
                document@,
                views(out@),
                views(list@).take(i as int),
            ),
        decreases list@.len() - i,
    {
        assert(views(list@)[i as int] == list@[i as int]@);
        let ghost before = document@;
        let accessor: usize = document.add_vertex_accessor(&list[i].attribute, 34962);
        let ghost earlier = views(out@);
        proof {
            lemma_appending_joins(start, before, document@);
        }
        let one = NamedAccessor { name: list[i].name.clone(), accessor };
        proof {
            lemma_views_push(out@, one);
        }
        out.push(one);
        proof {
            if start.wf() {
                let done = views(list@).take(i as int);
                lemma_attributes_stay(before, document@, earlier, done);
                let more = views(list@).take(i + 1);
                assert forall|k: int| 0 <= k < views(out@).len() implies (#[trigger] views(
                    out@,
                )[k]).0 == more[k].0 && views(out@)[k].1 < document@.accessors.len()
                    && accessor_bytes(document@, views(out@)[k].1 as int) == bytes_of(
                    more[k].1.data,
                ) by {
                    if k < earlier.len() {
                        assert(views(out@)[k] == earlier[k]);
                        assert(done[k] == more[k]);
                    }
                }
            }
        }
        i += 1;
    }
    assert(views(list@).take(i as int) =~= views(list@));
    out
}

/// The document with the attributes of the first `n` morph targets, and these targets.
pub open spec fn with_targets(d: DocumentView, list: Seq<MorphTargetView>, n: int) -> (
    DocumentView,
    Seq<TargetView>,
)
    decreases n,
{
    if n <= 0 {
        (d, Seq::empty())
    } else {
        let (before, targets) = with_targets(d, list, n - 1);
        let m = list[n - 1];
        let (after, attributes) = with_attributes(
            before,
            m.attributes,
            m.attributes.len() as int,
        );
        (after, targets.push(TargetView { name: m.name, attributes }))
    }
}

/// Whether the accessors of targets exist.
pub open spec fn targets_ok(list: Seq<TargetView>, accessors: int) -> bool {
    forall|i: int| 0 <= i < list.len() ==> named_ok((#[trigger] list[i]).attributes, accessors)
}

/// Adds the attributes of morph targets.
fn add_targets(document: &mut Document, list: &Vec<MorphTarget>) -> (r: Vec<Target>)
    ensures
        (final(document)@, views(r@)) == with_targets(
            old(document)@,
            views(list@),
            list@.len() as int,
        ),
        only_more_data(old(document)@, final(document)@),
        targets_ok(views(r@), final(document)@.accessors.len() as int),
        old(document)@.wf() ==> targets_held(final(document)@, views(r@), views(list@)),
{
    let ghost start = document@;
    proof {
        lemma_appending_joins(start, start, start);
    }
    let mut out: Vec<Target> = Vec::new();
    assert(views(out@) =~= Seq::<TargetView>::empty());
    let mut i: usize = 0;
    while i < list.len()
        invariant
            i <= list@.len(),
            (document@, views(out@)) == with_targets(start, views(list@), i as int),
            only_more_data(start, document@),
            targets_ok(views(out@), document@.accessors.len() as int),
            start.wf() ==> targets_held(document@, views(out@), views(list@).take(i as int)),
        decreases list@.len() - i,
    {
        assert(views(list@)[i as int] == list@[i as int]@);
        let ghost then = document@;
        let ghost before = document@.accessors.len() as int;
        let ghost earlier = views(out@);
        let attributes = add_attributes(document, &list[i].attributes);
        proof {
            lemma_appending_joins(start, then, document@);
        }
        let one = Target { name: list[i].name.clone(), attributes };
        proof {
            lemma_views_push(out@, one);
        }
        out.push(one);
        proof {
            let now = document@.accessors.len() as int;
            assert forall|k: int| 0 <= k < views(out@).len() implies named_ok(
                (#[trigger] views(out@)[k]).attributes,
                now,
            ) by {
                if k < earlier.len() {
                    assert(views(out@)[k] == earlier[k]);
                    assert(named_ok(earlier[k].attributes, before));
                }
            }
            if start.wf() {
                let done = views(list@).take(i as int);
                lemma_targets_stay(then, document@, earlier, done);
                let more = views(list@).take(i + 1);
                assert forall|k: int| 0 <= k < views(out@).len() implies (#[trigger] views(
                    out@,
                )[k]).name == more[k].name && attributes_held(
                    document@,
                    views(out@)[k].attributes,
                    more[k].attributes,
                ) by {
                    if k < earlier.len() {
                        assert(views(out@)[k] == earlier[k]);
                        assert(done[k] == more[k]);
                    }
                }
            }
        }
        i += 1;
    }
    assert(views(list@).take(i as int) =~= views(list@));
    out
}

/// The nodes of the first `n` joint names, nothing if one of them has none.
pub open spec fn joints_upto(
    joint_names: Seq<Seq<char>>,
    names: Map<Seq<char>, usize>,
    n: int,
) -> Option<Seq<usize>>
    decreases n,
{
    if n <= 0 {
        Some(Seq::empty())
    } else {
        match joints_upto(joint_names, names, n - 1) {
            None => None,
            Some(list) => if names.contains_key(joint_names[n - 1]) {
                Some(list.push(names[joint_names[n - 1]]))
            } else {
                None
            },
        }
    }
}

/// The joints of a geometry: nothing if it has none, or if one of them has no node.
pub open spec fn joints_of(g: GeometryView, names: Map<Seq<char>, usize>) -> Option<Seq<usize>> {
    if g.joint_names.len() == 0 {
        None
    } else {
        joints_upto(g.joint_names, names, g.joint_names.len() as int)
    }
}

/// A joint name without a node spoils the list.
proof fn lemma_joints_missing(
    joint_names: Seq<Seq<char>>,
    names: Map<Seq<char>, usize>,
    k: int,
    n: int,
)
    requires
        0 <= k < n <= joint_names.len(),
        !names.contains_key(joint_names[k]),
    ensures
        joints_upto(joint_names, names, n) is None,
    decreases n,
{
    if k < n - 1 {
        lemma_joints_missing(joint_names, names, k, n - 1);
    }
}

/// The joints of a geometry.
fn find_joints(g: &Geometry, names: &StringHashMap<usize>) -> (r: Option<Vec<usize>>)
    ensures
        match r {
            Some(list) => joints_of(g@, names@) == Some(list@),
            None => joints_of(g@, names@) is None,
        },
        r matches Some(list) ==> 0 < list@.len() == g@.joint_names.len(),
        r matches Some(list) ==> forall|i: int|
            0 <= i < list@.len() ==> exists|name: Seq<char>| #[trigger]
                names@.contains_key(name) && names@[name] == #[trigger] list@[i],
{
    let ghost all = texts(g.joint_names@);
    if g.joint_names.len() == 0 {
        return None;
    }
    let mut out: Vec<usize> = Vec::new();
    let mut i: usize = 0;
    while i < g.joint_names.len()
        invariant
            i <= g.joint_names@.len(),
            g.joint_names@.len() > 0,
            all == texts(g.joint_names@),
            out@.len() == i,
            joints_upto(all, names@, i as int) == Some(out@),
            forall|k: int|
                0 <= k < out@.len() ==> exists|name: Seq<char>| #[trigger]
                    names@.contains_key(name) && names@[name] == #[trigger] out@[k],
        decreases g.joint_names@.len() - i,
    {
        assert(all[i as int] == g.joint_names@[i as int]@);
        match names.get(g.joint_names[i].as_str()) {
            Some(node) => {
                out.push(*node);
            },
            None => {
                proof {
                    lemma_joints_missing(all, names@, i as int, all.len() as int);
                }
                return None;
            },
        }
        i += 1;
    }
    Some(out)
}

/// The inverse bind matrices of joints: the identity for a joint that has none.
pub open spec fn binds_of(names: Seq<Seq<char>>, binds: Map<Seq<char>, Matrix>) -> Seq<Matrix> {
    Seq::new(
        names.len(),
        |i: int|
            if binds.contains_key(names[i]) {
                binds[names[i]]
            } else {
                to_matrix(identity_of())
            },
    )
}

/// The inverse bind matrices of joints.
pub fn joint_binds(names: &Vec<String>, binds: &StringHashMap<Matrix>) -> (r: Vec<Matrix>)
    ensures
        r@ == binds_of(texts(names@), binds@),
{
    let identity = matrix16(None);
    proof {
        lemma_to_matrix(identity);
    }
    let mut out: Vec<Matrix> = Vec::new();
    let mut i: usize = 0;
    while i < names.len()
        invariant
            i <= names@.len(),
            identity == to_matrix(identity_of()),
            out@ == binds_of(texts(names@), binds@).take(i as int),
        decreases names@.len() - i,
    {
        assert(texts(names@)[i as int] == names@[i as int]@);
        match binds.get(names[i].as_str()) {
            Some(m) => {
                out.push(*m);
            },
            None => {
                out.push(identity);
            },
        }
        i += 1;
        assert(out@ =~= binds_of(texts(names@), binds@).take(i as int));
    }
    assert(out@ =~= binds_of(texts(names@), binds@));
    out
}

/// The bindings of the first `n` morph targets of a node.
pub open spec fn with_bindings(
    list: Seq<(Seq<char>, MorphTargetBinding)>,
    targets: Seq<MorphTargetView>,
    node: usize,
    n: int,
) -> Seq<(Seq<char>, MorphTargetBinding)>
    decreases n,
{
    if n <= 0 {
        list
    } else {
        with_bindings(list, targets, node, n - 1).push(
            (
                targets[n - 1].name,
                MorphTargetBinding {
                    node,
                    target_index: (n - 1) as usize,
                    target_count: targets.len() as usize,
                },
            ),
        )
    }
}

/// Adds the bindings of a node's morph targets.
fn add_bindings(list: &mut Vec<NamedBinding>, targets: &Vec<MorphTarget>, node: usize)
    ensures
        views(final(list)@) == with_bindings(
            views(old(list)@),
            views(targets@),
            node,
            targets@.len() as int,
        ),
        forall|i: int|
            0 <= i < final(list)@.len() ==> (i < old(list)@.len() && (#[trigger] views(
                final(list)@,
            )[i]) == views(old(list)@)[i]) || views(final(list)@)[i].1.node == node,
{
    let ghost start = views(list@);
    let target_count: usize = targets.len();
    let mut i: usize = 0;
    while i < targets.len()
        invariant
            i <= targets@.len(),
            target_count == targets@.len(),
            views(list@) == with_bindings(start, views(targets@), node, i as int),
            start.len() <= list@.len(),
            forall|k: int|
                0 <= k < list@.len() ==> (k < start.len() && (#[trigger] views(list@)[k])
                    == start[k]) || views(list@)[k].1.node == node,
        decreases targets@.len() - i,
    {
        assert(views(targets@)[i as int] == targets@[i as int]@);
        let one = NamedBinding {
            name: targets[i].name.clone(),
            binding: MorphTargetBinding { node, target_index: i, target_count },
        };
        proof {
            lemma_views_push(list@, one);
        }
        list.push(one);
        i += 1;
    }
}

/// The attribute of a geometry's indices.
pub open spec fn index_attribute(indices: Seq<u32>) -> AttributeView {
    AttributeView {
        data: Components::U32(indices),
        item_size: 1,
        count: indices.len() as usize,
        component_type: 5125,
        normalized: false,
    }
}

/// The document with a geometry's mesh.
pub open spec fn with_mesh_of(d: DocumentView, g: GeometryView, material: usize) -> DocumentView {
    let d1 = d.with_vertex_accessor(index_attribute(g.indices), 34963);
    let (d2, attributes) = with_attributes(d1, g.attributes, g.attributes.len() as int);
    let (d3, targets) = with_targets(d2, g.morph_targets, g.morph_targets.len() as int);
    d3.with_mesh(
        MeshView {
            name: match g.material_name {
                Some(n) => n,
                None => "mesh"@,
            },
            attributes,
            indices: d.accessors.len() as usize,
            material,
            mode: g.mode,
            targets,
        },
    )
}

/// The document with a geometry's skin, if all its joints have nodes, and the skin.
pub open spec fn with_skin_of(
    d: DocumentView,
    g: GeometryView,
    mesh: usize,
    names: Map<Seq<char>, usize>,
) -> (DocumentView, Option<usize>) {
    match joints_of(g, names) {
        None => (d, None),
        Some(joints) => (
            d.with_matrices(g.inverse_bind).with_skin(
                SkinView {
                    name: "skin_"@ + decimal_of(mesh as nat),
                    joints,
                    inverse_bind: d.accessors.len() as usize,
                },
            ),
            Some(d.skins.len() as usize),
        ),
    }
}

/// The first joints of a list are found if they all have nodes: these nodes, in order.
proof fn lemma_joints_found(joint_names: Seq<Seq<char>>, names: Map<Seq<char>, usize>, n: int)
    requires
        0 <= n <= joint_names.len(),
    ensures
        joints_upto(joint_names, names, n) is Some <==> forall|k: int|
            0 <= k < n ==> names.contains_key(#[trigger] joint_names[k]),
        joints_upto(joint_names, names, n) matches Some(list) ==> list == Seq::new(
            n as nat,
            |k: int| names[joint_names[k]],
        ),
    decreases n,
{
    if n > 0 {
        lemma_joints_found(joint_names, names, n - 1);
        match joints_upto(joint_names, names, n) {
            Some(list) => {
                assert(list =~= Seq::new(n as nat, |k: int| names[joint_names[k]]));
            },
            None => {},
        }
    } else {
        assert(Seq::<usize>::empty() =~= Seq::new(0, |k: int| names[joint_names[k]]));
    }
}

/// A geometry is skinned if it has joints and all of them have nodes. The skin then has these nodes
/// as its joints, in order, and a matrix for each.
pub proof fn law_skin_has_every_joint(
    d: DocumentView,
    g: GeometryView,
    mesh: usize,
    names: Map<Seq<char>, usize>,
)
    requires
        g.wf(),
        g.inverse_bind.len() <= usize::MAX,
        d.accessors.len() <= usize::MAX,
    ensures
        ({
            let (e, skin) = with_skin_of(d, g, mesh, names);
            &&& skin is Some <==> g.joint_names.len() > 0 && forall|k: int|
                0 <= k < g.joint_names.len() ==> names.contains_key(#[trigger] g.joint_names[k])
            &&& skin is None ==> e == d
            &&& skin is Some ==> {
                let s = e.skins.last();
                &&& e.skins == d.skins.push(s)
                &&& s.joints == Seq::new(
                    g.joint_names.len(),
                    |k: int| names[g.joint_names[k]],
                )
                &&& e.accessors[s.inverse_bind as int].kind == AccessorKind::Mat4
                &&& e.accessors[s.inverse_bind as int].count == s.joints.len()
            }
        }),
{
    lemma_joints_found(g.joint_names, names, g.joint_names.len() as int);
    let (e, skin) = with_skin_of(d, g, mesh, names);
    if skin is Some {
        assert(e.skins =~= d.skins.push(e.skins.last()));
    }
}

/// Where a geometry's node stands: a skinned one where its skeleton does, an animated one by
/// translation, rotation and scale, and any other by its matrix.
pub open spec fn placement_of(g: GeometryView, skinned: bool) -> PlacementView {
    if skinned {
        PlacementView::Unplaced
    } else if g.animation_target is Some {
        PlacementView::Decomposed(g.path)
    } else {
        PlacementView::Product(g.path)
    }
}

/// The builder with a geometry: its material, mesh, skin and node.
pub open spec fn geometry_added(
    b: BuilderView,
    g: GeometryView,
    materials: Seq<EntryView>,
    files: Seq<StoredView>,
) -> Result<BuilderView, ImageError> {
    match with_variant(b, g, materials, files) {
        Err(e) => Err(e),
        Ok((b1, material)) => {
            let d1 = with_mesh_of(b1.studio.document, g, material);
            let mesh = b1.studio.document.meshes.len() as usize;
            let (d2, skin) = with_skin_of(d1, g, mesh, b1.names);
            let node = d2.nodes.len() as usize;
            let d3 = d2.with_root(
                NodeView {
                    name: "mesh_"@ + decimal_of(mesh as nat),
                    children: Seq::empty(),
                    placement: placement_of(g, skin is Some),
                    mesh: Some(mesh),
                    skin,
                },
            );
            let b2 = b1.with_document(d3);
            Ok(
                BuilderView {
                    names: match g.animation_target {
                        Some(t) => if skin is None {
                            b1.names.insert(t, node)
                        } else {
                            b1.names
                        },
                        None => b1.names,
                    },
                    bindings: with_bindings(
                        b1.bindings,
                        g.morph_targets,
                        node,
                        g.morph_targets.len() as int,
                    ),
                    ..b2
                },
            )
        },
    }
}

/// Adds the material of a geometry.
fn add_variant(
    builder: &mut Builder,
    g: &Geometry,
    materials: &Vec<MaterialEntry>,
    files: &Vec<StoredTexture>,
) -> (r: Result<usize, ImageError>)
    ensures
        match r {
            Ok(index) => with_variant(old(builder)@, g@, views(materials@), views(files@)) == Ok::<
                (BuilderView, usize),
                ImageError,
            >((final(builder)@, index)),
            Err(e) => with_variant(old(builder)@, g@, views(materials@), views(files@)) == Err::<
                (BuilderView, usize),
                ImageError,
            >(e),
        },
        old(builder)@.wf() ==> final(builder)@.wf(),
        old(builder)@.wf() ==> (r matches Ok(index) ==> index
            < final(builder)@.studio.document.materials.len()),
        final(builder)@.studio.document.nodes == old(builder)@.studio.document.nodes,
        final(builder)@.studio.document.meshes == old(builder)@.studio.document.meshes,
        only_appended(old(builder)@.studio.document, final(builder)@.studio.document),
{
    proof {
        let d = builder@.studio.document;
        lemma_appending_joins(d, d, d);
    }
    let source = match find_geometry_material(g, materials) {
        Some(m) => m,
        None => {
            return Ok(builder.fallback);
        },
    };
    let name = match &g.material_name {
        Some(n) => n.clone(),
        None => {
            return Ok(builder.fallback);
        },
    };
    let mut i: usize = 0;
    while i < builder.variants.len()
        invariant
            i <= builder.variants@.len(),
            builder@ == old(builder)@,
            only_appended(builder@.studio.document, builder@.studio.document),
            variant_index(builder@.variants, name@, g.texcoord_units@, 0) == variant_index(
                builder@.variants,
                name@,
                g.texcoord_units@,
                i as int,
            ),
            geometry_material(g@, views(materials@)) is Some,
            g@.material_name == Some(name@),
        decreases builder.variants@.len() - i,
    {
        assert(builder@.variants[i as int] == builder.variants@[i as int]@);
        if same_text(builder.variants[i].name.as_str(), name.as_str()) && same_units(
            &builder.variants[i].units,
            &g.texcoord_units,
        ) {
            return Ok(builder.variants[i].index);
        }
        i += 1;
    }
    match add_material_variant(source, &g.texcoord_units, files, &mut builder.studio) {
        Ok(index) => {
            let one = Variant { name, units: copy_units(&g.texcoord_units), index };
            proof {
                lemma_views_push(builder.variants@, one);
            }
            builder.variants.push(one);
            Ok(index)
        },
        Err(e) => Err(e),
    }
}

/// Adds the mesh of a geometry.
fn add_mesh_of(document: &mut Document, g: &Geometry, material: usize) -> (r: usize)
    ensures
        final(document)@ == with_mesh_of(old(document)@, g@, material),
        r == old(document)@.meshes.len(),
        final(document)@.meshes.len() == old(document)@.meshes.len() + 1,
        final(document)@.materials == old(document)@.materials,
        final(document)@.textures == old(document)@.textures,
        final(document)@.nodes == old(document)@.nodes,
        old(document)@.wf() && material < old(document)@.materials.len() ==> final(document)@.wf(),
        only_appended(old(document)@, final(document)@),
        old(document)@.wf() ==> mesh_held(final(document)@, r as int, g@),
{
    let ghost start = document@;
    let count: usize = g.indices.len();
    let list = Attribute {
        data: AttrData::U32(copy_u32(&g.indices)),
        item_size: 1,
        count,
        component_type: 5125,
        normalized: false,
    };
    assert(list@ =~= index_attribute(g.indices@));
    let indices: usize = document.add_vertex_accessor(&list, 34963);
    let ghost indexed = document@;
    let attributes = add_attributes(document, &g.attributes);
    let ghost attributed = document@;
    let ghost before = document@.accessors.len() as int;
    let targets = add_targets(document, &g.morph_targets);
    proof {
        assert(before <= document@.accessors.len());
        assert(named_ok(views(attributes@), document@.accessors.len() as int));
        lemma_appending_joins(start, indexed, attributed);
        lemma_appending_joins(start, attributed, document@);
        lemma_appending_joins(indexed, attributed, document@);
    }
    let ghost filled = document@;
    let name = match &g.material_name {
        Some(n) => n.clone(),
        None => own("mesh"),
    };
    let mesh = Mesh { name, attributes, indices, material, mode: g.mode, targets };
    let index: usize = document.add_mesh(mesh);
    proof {
        lemma_appending_joins(start, filled, document@);
        lemma_appending_joins(indexed, filled, document@);
        lemma_appending_joins(attributed, filled, document@);
        if start.wf() {
            law_accessor_bytes_stay(indexed, document@, indices as int);
            lemma_attributes_stay(attributed, document@, views(attributes@), g@.attributes);
            lemma_targets_stay(filled, document@, views(targets@), g@.morph_targets);
        }
    }
    index
}

/// Adds the skin of a geometry.
fn add_skin_of(document: &mut Document, g: &Geometry, mesh: usize, names: &StringHashMap<usize>) -> (
r: Option<usize>)
    ensures
        (final(document)@, r) == with_skin_of(old(document)@, g@, mesh, names@),
        old(document)@.wf() && g@.wf() && (forall|name: Seq<char>| #[trigger]
            names@.contains_key(name) ==> names@[name] < old(document)@.nodes.len())
            ==> final(document)@.wf(),
        r matches Some(skin) ==> skin < final(document)@.skins.len(),
        final(document)@.materials == old(document)@.materials,
        final(document)@.textures == old(document)@.textures,
        final(document)@.meshes == old(document)@.meshes,
        final(document)@.nodes == old(document)@.nodes,
        only_appended(old(document)@, final(document)@),
{
    let ghost start = document@;
    proof {
        lemma_appending_joins(start, start, start);
    }
    match find_joints(g, names) {
        None => None,
        Some(joints) => {
            let inverse_bind: usize = document.add_mat4_accessor(g.inverse_bind.as_slice());
            let ghost bound = document@;
            let name = join("skin_", decimal(mesh).as_str());
            let skin: usize = document.add_skin(Skin { name, joints, inverse_bind });
            proof {
                lemma_appending_joins(start, bound, document@);
            }
            Some(skin)
        },
    }
}

/// Adds a geometry.
#[verifier::rlimit(40)]
pub fn add_geometry(
    builder: &mut Builder,
    g: &Geometry,
    materials: &Vec<MaterialEntry>,
    files: &Vec<StoredTexture>,
) -> (r: Result<(), ImageError>)
    ensures
        match r {
            Ok(_) => geometry_added(old(builder)@, g@, views(materials@), views(files@)) == Ok::<
                BuilderView,
                ImageError,
            >(final(builder)@),
            Err(e) => geometry_added(old(builder)@, g@, views(materials@), views(files@)) == Err::<
                BuilderView,
                ImageError,
            >(e),
        },
        old(builder)@.wf() && g@.wf() ==> final(builder)@.wf(),
        only_appended(old(builder)@.studio.document, final(builder)@.studio.document),
        old(builder)@.wf() && g@.wf() && r is Ok ==> mesh_held(
            final(builder)@.studio.document,
            old(builder)@.studio.document.meshes.len() as int,
            g@,
        ) && final(builder)@.studio.document.meshes.len()
            == old(builder)@.studio.document.meshes.len() + 1,
{
    let ghost start = builder@.studio.document;
    let material: usize = match add_variant(builder, g, materials, files) {
        Ok(m) => m,
        Err(e) => {
            return Err(e);
        },
    };
    let ghost varied = builder@.studio.document;
    let mesh: usize = add_mesh_of(&mut builder.studio.document, g, material);
    let ghost meshed = builder@.studio.document;
    let skin = add_skin_of(&mut builder.studio.document, g, mesh, &builder.names);
    let ghost skinned = builder@.studio.document;
    proof {
        lemma_appending_joins(start, varied, meshed);
        lemma_appending_joins(start, meshed, skinned);
    }
    let node_index: usize = builder.studio.document.nodes.len();
    add_bindings(&mut builder.bindings, &g.morph_targets, node_index);
    let placement = if skin.is_some() {
        Placement::Unplaced
    } else {
        match &g.animation_target {
            Some(t) => {
                builder.names.insert(t.clone(), node_index);
                Placement::Decomposed(path_copy(&g.path))
            },
            None => Placement::Product(path_copy(&g.path)),
        }
    };
    let node = Node {
        name: join("mesh_", decimal(mesh).as_str()),
        children: Vec::new(),
        placement,
        mesh: Some(mesh),
        skin,
    };
    assert(node@.children =~= Seq::<usize>::empty());
    let _ = builder.studio.document.add_root(node);
    proof {
        lemma_appending_joins(start, skinned, builder@.studio.document);
        lemma_appending_joins(meshed, skinned, builder@.studio.document);
        if old(builder)@.wf() && g@.wf() {
            law_mesh_stays(meshed, builder@.studio.document, mesh as int, g@);
        }
    }
    Ok(())
}

/// The builder before the first geometry: the skeletons, the images in the given order, the
/// textures of all materials, and the fallback material.
pub open spec fn started(
    g: GatheredView,
    materials: Seq<EntryView>,
    files: Seq<StoredView>,
    order: Seq<Seq<char>>,
) -> BuilderView {
    let empty = DocumentView {
        bin: Seq::empty(),
        buffer_views: Seq::empty(),
        accessors: Seq::empty(),
        images: Seq::empty(),
        samplers: Seq::empty(),
        textures: Seq::empty(),
        materials: Seq::empty(),
        meshes: Seq::empty(),
        skins: Seq::empty(),
        nodes: g.skeleton.nodes,
        roots: g.roots,
        animations: Seq::empty(),
    };
    let (document, images) = with_images(empty, files, order, order.len() as int);
    let studio = with_textures(
        StudioView {
            document,
            made: Seq::empty(),
            extensions: Extensions {
                texture_transform: false,
                unlit: false,
                emissive_strength: false,
                clearcoat: false,
                specular: false,
            },
        },
        materials,
        materials.len() as int,
        images,
    );
    BuilderView {
        studio: StudioView { document: studio.document.with_material(fallback_of()), ..studio },
        variants: Seq::empty(),
        fallback: studio.document.materials.len() as usize,
        names: g.skeleton.names,
        bindings: Seq::empty(),
    }
}

/// Whether the file of every stored texture is one of the images.
pub open spec fn holds_textures(d: DocumentView, files: Seq<StoredView>) -> bool {
    forall|i: int|
        0 <= i < files.len() ==> holds_texture(d, files, (#[trigger] files[i]).uid)
}

/// Whether the file of a texture, if it has one, is one of the images.
pub open spec fn holds_texture(d: DocumentView, files: Seq<StoredView>, uid: Seq<char>) -> bool {
    stored_file(files, uid, 0) is Some ==> exists|image: int| #[trigger]
        is_file_of(d, files, uid, image)
}

/// The stored textures stay in the document while things are appended.
pub proof fn law_textures_stay(d: DocumentView, e: DocumentView, files: Seq<StoredView>)
    requires
        d.wf(),
        only_appended(d, e),
        holds_textures(d, files),
    ensures
        holds_textures(e, files),
{
    assert forall|i: int| 0 <= i < files.len() implies holds_texture(
        e,
        files,
        (#[trigger] files[i]).uid,
    ) by {
        let uid = files[i].uid;
        assert(holds_texture(d, files, uid));
        if stored_file(files, uid, 0) is Some {
            let image = choose|image: int| #[trigger] is_file_of(d, files, uid, image);
            law_image_bytes_stay(d, e, image);
            assert(is_file_of(e, files, uid, image));
        }
    }
}

/// Where all textures of an order are listed, the document holds all stored textures.
proof fn lemma_order_is_held(
    empty: DocumentView,
    d: DocumentView,
    list: Seq<(Seq<char>, usize)>,
    files: Seq<StoredView>,
    order: Seq<Seq<char>>,
)
    requires
        (d, list) == with_images(empty, files, order, order.len() as int),
        embedded(d, list, files),
        is_order(order, files),
    ensures
        holds_textures(d, files),
{
    assert forall|i: int| 0 <= i < files.len() implies holds_texture(
        d,
        files,
        (#[trigger] files[i]).uid,
    ) by {
        let uid = files[i].uid;
        if stored_file(files, uid, 0) is Some {
            assert(order.contains(uid));
            let k = choose|k: int| 0 <= k < order.len() && order[k] == uid;
            law_textures_with_files_are_listed(empty, files, order, order.len() as int, k);
            let j = choose|j: int| 0 <= j < list.len() && (#[trigger] list[j]).0 == uid;
            assert(is_file_of(d, files, uid, list[j].1 as int));
        }
    }
}

/// A builder before the first geometry.
pub fn start(g: Gathered, materials: &Vec<MaterialEntry>, files: &Vec<StoredTexture>) -> (r:
    Builder)
    ensures
        exists|order: Seq<Seq<char>>|
            is_order(order, views(files@)) && r@ == #[trigger] started(
                g@,
                views(materials@),
                views(files@),
                order,
            ),
        g@.wf() ==> r@.wf() && holds_textures(r@.studio.document, views(files@)),
{
    let order = image_order(files);
    let ghost gathered = g@;
    let mut document = Document::new();
    document.nodes = g.skeleton.nodes;
    document.roots = g.roots;
    let ghost empty = document@;
    let images = add_images(&mut document, files, &order);
    let ghost filled = document@;
    proof {
        if gathered.wf() {
            assert(empty.wf());
            lemma_order_is_held(empty, filled, views(images@), views(files@), texts(order@));
        }
    }
    let mut studio = Studio {
        document,
        made: Vec::new(),
        extensions: Extensions {
            texture_transform: false,
            unlit: false,
            emissive_strength: false,
            clearcoat: false,
            specular: false,
        },
    };
    assert(studio@.made =~= Seq::empty());
    assert(all_in_use(studio@.document.materials, studio@.extensions)) by {
        reveal(all_in_use);
    }
    add_textures(&mut studio, materials, &images);
    let ghost textured = studio@.document;
    let fallback: usize = add_fallback(&mut studio.document);
    proof {
        lemma_appending_joins(filled, textured, studio@.document);
        if gathered.wf() {
            law_textures_stay(filled, studio@.document, views(files@));
            lemma_in_use_grows(
                textured.materials,
                fallback_of(),
                studio@.extensions,
                studio@.extensions,
            );
        }
    }
    let r = Builder {
        studio,
        variants: Vec::new(),
        fallback,
        names: g.skeleton.names,
        bindings: Vec::new(),
    };
    assert(r@ =~= started(gathered, views(materials@), views(files@), texts(order@)));
    r
}

/// The builder with the geometries from `from` on.
pub open spec fn geometries_added(
    b: BuilderView,
    list: Seq<GeometryView>,
    from: int,
    materials: Seq<EntryView>,
    files: Seq<StoredView>,
) -> Result<BuilderView, ImageError>
    decreases list.len() - from,
{
    if from < 0 || from >= list.len() {
        Ok(b)
    } else {
        match geometry_added(b, list[from], materials, files) {
            Err(e) => Err(e),
            Ok(next) => geometries_added(next, list, from + 1, materials, files),
        }
    }
}

/// Whether the meshes from `first` on are those of a list of geometries, in order.
pub open spec fn all_held(d: DocumentView, first: int, list: Seq<GeometryView>) -> bool {
    &&& d.meshes.len() == first + list.len()
    &&& forall|k: int| 0 <= k < list.len() ==> mesh_held(d, first + k, #[trigger] list[k])
}

/// With the mesh of the next geometry, the meshes are those of one more geometry.
proof fn lemma_one_more_held(
    d: DocumentView,
    e: DocumentView,
    first: int,
    list: Seq<GeometryView>,
    i: int,
)
    requires
        d.wf(),
        only_appended(d, e),
        0 <= i < list.len(),
        all_held(d, first, list.take(i)),
        e.meshes.len() == d.meshes.len() + 1,
        mesh_held(e, d.meshes.len() as int, list[i]),
    ensures
        all_held(e, first, list.take(i + 1)),
{
    let done = list.take(i);
    let more = list.take(i + 1);
    assert forall|k: int| 0 <= k < more.len() implies mesh_held(e, first + k, #[trigger] more[k]) by {
        if k < i {
            assert(more[k] == done[k]);
            law_mesh_stays(d, e, first + k, done[k]);
        }
    }
}

/// Whether every geometry has an inverse bind matrix for each of its joints.
pub open spec fn all_wf(list: Seq<GeometryView>) -> bool {
    forall|k: int| 0 <= k < list.len() ==> (#[trigger] list[k]).wf()
}

/// Adds all geometries.
pub fn add_geometries(
    builder: &mut Builder,
    list: &Vec<Geometry>,
    materials: &Vec<MaterialEntry>,
    files: &Vec<StoredTexture>,
) -> (r: Result<(), ImageError>)
    ensures
        match r {
            Ok(_) => geometries_added(
                old(builder)@,
                views(list@),
                0,
                views(materials@),
                views(files@),
            ) == Ok::<BuilderView, ImageError>(final(builder)@),
            Err(e) => geometries_added(
                old(builder)@,
                views(list@),
                0,
                views(materials@),
                views(files@),
            ) == Err::<BuilderView, ImageError>(e),
        },
        old(builder)@.wf() && all_wf(views(list@)) ==> final(builder)@.wf(),
        only_appended(old(builder)@.studio.document, final(builder)@.studio.document),
        old(builder)@.wf() && all_wf(views(list@)) && r is Ok ==> all_held(
            final(builder)@.studio.document,
            old(builder)@.studio.document.meshes.len() as int,
            views(list@),
        ),
{
    let ghost start = builder@.studio.document;
    proof {
        lemma_appending_joins(start, start, start);
    }
    let ghost all = views(list@);
    let ghost goal = geometries_added(builder@, all, 0, views(materials@), views(files@));
    let mut i: usize = 0;
    while i < list.len()
        invariant
            i <= list@.len(),
            all == views(list@),
            old(builder)@.wf() && all_wf(all) ==> builder@.wf(),
            start == old(builder)@.studio.document,
            only_appended(start, builder@.studio.document),
            old(builder)@.wf() && all_wf(all) ==> all_held(
                builder@.studio.document,
                start.meshes.len() as int,
                all.take(i as int),
            ),
            goal == geometries_added(
                old(builder)@,
                all,
                0,
                views(materials@),
                views(files@),
            ),
            goal == geometries_added(
                builder@,
                all,
                i as int,
                views(materials@),
                views(files@),
            ),
        decreases list@.len() - i,
    {
        assert(all[i as int] == list@[i as int]@);
        let ghost before = builder@.studio.document;
        let added = add_geometry(builder, &list[i], materials, files);
        proof {
            lemma_appending_joins(start, before, builder@.studio.document);
            if old(builder)@.wf() && all_wf(all) && added is Ok {
                lemma_one_more_held(
                    before,
                    builder@.studio.document,
                    start.meshes.len() as int,
                    all,
                    i as int,
                );
            }
        }
        match added {
            Ok(_) => {},
            Err(e) => {
                return Err(e);
            },
        }
        i += 1;
    }
    assert(all.take(i as int) =~= all);
    Ok(())
}

/// The names of the extensions that the result uses.
pub open spec fn extension_names(e: Extensions) -> Seq<Seq<char>> {
    let a = if e.clearcoat {
        seq!["KHR_materials_clearcoat"@]
    } else {
        Seq::empty()
    };
    let b = if e.emissive_strength {
        a.push("KHR_materials_emissive_strength"@)
    } else {
        a
    };
    let c = if e.specular {
        b.push("KHR_materials_specular"@)
    } else {
        b
    };
    let d = if e.unlit {
        c.push("KHR_materials_unlit"@)
    } else {
        c
    };
    if e.texture_transform {
        d.push("KHR_texture_transform"@)
    } else {
        d
    }
}

/// Whether a material, or a reference to a texture in it, uses the extension of a name.
pub open spec fn uses_extension(m: MaterialView, name: Seq<char>) -> bool {
    ||| name == "KHR_materials_clearcoat"@ && has_clearcoat(m.extensions)
    ||| name == "KHR_materials_emissive_strength"@ && m.emissive_strength is Some
    ||| name == "KHR_materials_specular"@ && has_specular(m.extensions)
    ||| name == "KHR_materials_unlit"@ && m.unlit
    ||| name == "KHR_texture_transform"@ && uses_transform(m)
}

/// A longer list holds what was added and what it held.
proof fn lemma_longer_list(list: Seq<Seq<char>>, x: Seq<char>, name: Seq<char>)
    ensures
        list.push(x).contains(name) <==> list.contains(name) || name == x,
{
    assert(list.push(x)[list.len() as int] == x);
    if list.contains(name) {
        let i = choose|i: int| 0 <= i < list.len() && list[i] == name;
        assert(list.push(x)[i] == name);
    }
}

/// An extension is listed if a material uses it, and no other is.
pub proof fn law_listed_extensions_are_those_used(s: StudioView, name: Seq<char>)
    requires
        s.wf(),
    ensures
        extension_names(s.extensions).contains(name) <==> exists|i: int|
            0 <= i < s.document.materials.len() && uses_extension(
                #[trigger] s.document.materials[i],
                name,
            ),
{
    reveal(all_in_use);
    let e = s.extensions;
    let none = Seq::<Seq<char>>::empty();
    lemma_longer_list(none, "KHR_materials_clearcoat"@, name);
    assert(none.push("KHR_materials_clearcoat"@) =~= seq!["KHR_materials_clearcoat"@]);
    let a = if e.clearcoat {
        seq!["KHR_materials_clearcoat"@]
    } else {
        none
    };
    lemma_longer_list(a, "KHR_materials_emissive_strength"@, name);
    let b = if e.emissive_strength {
        a.push("KHR_materials_emissive_strength"@)
    } else {
        a
    };
    lemma_longer_list(b, "KHR_materials_specular"@, name);
    let c = if e.specular {
        b.push("KHR_materials_specular"@)
    } else {
        b
    };
    lemma_longer_list(c, "KHR_materials_unlit"@, name);
    let d = if e.unlit {
        c.push("KHR_materials_unlit"@)
    } else {
        c
    };
    lemma_longer_list(d, "KHR_texture_transform"@, name);
    assert forall|i: int| 0 <= i < s.document.materials.len() && uses_extension(
        #[trigger] s.document.materials[i],
        name,
    ) implies extension_names(e).contains(name) by {
        assert(uses_noted(s.document.materials[i], e));
    }
}

/// The extensions are listed in dictionary order, each once.
pub proof fn law_extensions_ascend(e: Extensions)
    ensures
        ascending(extension_names(e)),
{
    reveal_strlit("KHR_materials_clearcoat");
    reveal_strlit("KHR_materials_emissive_strength");
    reveal_strlit("KHR_materials_specular");
    reveal_strlit("KHR_materials_unlit");
    reveal_strlit("KHR_texture_transform");
    let a = "KHR_materials_clearcoat"@;
    let b = "KHR_materials_emissive_strength"@;
    let c = "KHR_materials_specular"@;
    let d = "KHR_materials_unlit"@;
    let f = "KHR_texture_transform"@;
    lemma_text_lt_at(a, b, 14);
    lemma_text_lt_at(b, c, 14);
    lemma_text_lt_at(c, d, 14);
    lemma_text_lt_at(d, f, 4);
    lemma_text_lt_transitive(a, b, c);
    lemma_text_lt_transitive(a, c, d);
    lemma_text_lt_transitive(a, d, f);
    lemma_text_lt_transitive(b, c, d);
    lemma_text_lt_transitive(b, d, f);
    lemma_text_lt_transitive(c, d, f);
}

/// Adds a name to a list of names.
fn push_name(list: &mut Vec<String>, name: &str)
    ensures
        texts(final(list)@) == texts(old(list)@).push(name@),
{
    let ghost before = list@;
    list.push(own(name));
    assert(texts(list@) =~= texts(before).push(name@));
}

/// The names of the extensions that the result uses.
pub fn extensions_used(e: Extensions) -> (r: Vec<String>)
    ensures
        texts(r@) == extension_names(e),
{
    let mut out: Vec<String> = Vec::new();
    assert(texts(out@) =~= Seq::<Seq<char>>::empty());
    if e.clearcoat {
        push_name(&mut out, "KHR_materials_clearcoat");
        assert(texts(out@) =~= seq!["KHR_materials_clearcoat"@]);
    }
    if e.emissive_strength {
        push_name(&mut out, "KHR_materials_emissive_strength");
    }
    if e.specular {
        push_name(&mut out, "KHR_materials_specular");
    }
    if e.unlit {
        push_name(&mut out, "KHR_materials_unlit");
    }
    if e.texture_transform {
        push_name(&mut out, "KHR_texture_transform");
    }
    out
}

/// Whether a character separates the parts of a name.
pub open spec fn separates(c: char) -> bool {
    c == ':' || c == '/' || c == '\\'
}

/// The last part of a name stands behind its last separator.
proof fn lemma_leaf(name: Seq<char>, at: int, end: int)
    requires
        0 <= at <= end <= name.len(),
        at == 0 || separates(name[at - 1]),
        forall|k: int| at <= k < end ==> !separates(#[trigger] name[k]),
    ensures
        leaf_from(name, end) == name.skip(at),
    decreases end,
{
    if end > at {
        assert(!separates(name[end - 1]));
        lemma_leaf(name, at, end - 1);
    } else if at == 0 {
        assert(name.skip(0) =~= name);
    }
}

/// A material draws black lines if the last part of its name, behind any colon or slash, starts
/// with `line`, in whatever case, and it is all but black and has neither a color nor an emissive
/// texture.
pub proof fn law_lines_are_told_by_name_and_color(
    prefix: Seq<char>,
    separator: char,
    name: Seq<char>,
    material: EntryView,
)
    requires
        separates(separator),
        forall|k: int| 0 <= k < name.len() ==> !separates(#[trigger] name[k]),
    ensures
        ({
            let black = material.base_color_texture is None && material.emissive_texture is None
                && forall|j: int|
                0 <= j < 3 ==> !is_nan(#[trigger] material.base_color@[j]) && !lt_of(
                    0x3c23_d70a,
                    material.base_color@[j],
                );
            &&& is_line(name, Some(material)) <==> black && starts_of(lower_of(name), "line"@)
            &&& is_line(prefix + seq![separator] + name, Some(material)) <==> is_line(
                name,
                Some(material),
            )
        }),
        is_line(name, None) == false,
{
    let lower = lower_of(name);
    assert forall|k: int| 0 <= k < lower.len() implies !separates(#[trigger] lower[k]) by {
        assert(!separates(name[k]));
    }
    lemma_leaf(lower, 0, lower.len() as int);
    assert(lower.skip(0) =~= lower);
    let whole = prefix + seq![separator] + name;
    let low = lower_of(whole);
    let at = prefix.len() as int + 1;
    assert(low[at - 1] == separator);
    assert forall|k: int| at <= k < low.len() implies !separates(#[trigger] low[k]) by {
        assert(whole[k] == name[k - at]);
        assert(!separates(name[k - at]));
    }
    lemma_leaf(low, at, low.len() as int);
    assert(low.skip(at) =~= lower);
    assert(is_dark(material.base_color[0]) == (!is_nan(material.base_color@[0]) && !lt_of(
        0x3c23_d70a,
        material.base_color@[0],
    )));
    assert(is_dark(material.base_color[1]) == (!is_nan(material.base_color@[1]) && !lt_of(
        0x3c23_d70a,
        material.base_color@[1],
    )));
    assert(is_dark(material.base_color[2]) == (!is_nan(material.base_color@[2]) && !lt_of(
        0x3c23_d70a,
        material.base_color@[2],
    )));
}

/// The material of a geometry is the first of its name.
proof fn lemma_geometry_material(g: GeometryView, materials: Seq<EntryView>)
    ensures
        geometry_material(g, materials) matches Some(m) ==> g.material_name == Some(m.name)
            && materials.contains(m),
        g.material_name is None ==> geometry_material(g, materials) is None,
        g.material_name matches Some(n) ==> (geometry_material(g, materials) is None ==> forall|
            k: int,
        |
            0 <= k < materials.len() ==> (#[trigger] materials[k]).name != n),
{
    match g.material_name {
        Some(name) => {
            crate::model::lemma_entry_index(materials, name, 0);
            match entry_index(materials, name, 0) {
                Some(i) => {
                    assert(materials[i].name == name);
                },
                None => {},
            }
        },
        None => {},
    }
}

/// A geometry is left out if it is a backdrop, if its material's name speaks of an outline, in
/// whatever case, or if its material draws black lines; and no other is.
pub proof fn law_geometries_are_left_out(
    g: GeometryView,
    materials: Seq<EntryView>,
    backdrop: bool,
)
    ensures
        backdrop ==> !is_kept(g, materials, backdrop),
        g.material_name is None && !backdrop ==> is_kept(g, materials, backdrop),
        g.material_name matches Some(name) ==> (!backdrop ==> (is_kept(g, materials, backdrop)
            <==> !contains_of(lower_of(name), "outline"@) && !is_line(
            name,
            geometry_material(g, materials),
        ))),
{
}

/// What is kept of a list is what is kept of its parts, in order: a geometry that is kept stands in
/// its place, and one that is not is missing.
pub proof fn law_keeping_goes_one_by_one(
    list: Seq<GeometryView>,
    from: int,
    materials: Seq<EntryView>,
    backdrops: Seq<bool>,
    g: GeometryView,
)
    requires
        0 <= from <= list.len() == backdrops.len(),
    ensures
        kept_from(list, from, materials, backdrops).contains(g) <==> exists|k: int|
            from <= k < list.len() && #[trigger] list[k] == g && is_kept(
                list[k],
                materials,
                backdrops[k],
            ),
        kept_from(list, from, materials, backdrops).len() <= list.len() - from,
    decreases list.len() - from,
{
    if from < list.len() {
        law_keeping_goes_one_by_one(list, from + 1, materials, backdrops, g);
        let rest = kept_from(list, from + 1, materials, backdrops);
        if is_kept(list[from], materials, backdrops[from]) {
            let all = seq![list[from]] + rest;
            assert(all[0] == list[from]);
            if rest.contains(g) {
                let k = choose|k: int| 0 <= k < rest.len() && rest[k] == g;
                assert(all[k + 1] == g);
            }
            if all.contains(g) {
                let k = choose|k: int| 0 <= k < all.len() && all[k] == g;
                if k > 0 {
                    assert(rest[k - 1] == g);
                }
            }
        }
    }
}

/// An extreme coordinate is at least as far out as every one.
proof fn lemma_coordinate_extreme(values: Seq<u32>, size: int, j: int, n: int, k: int)
    requires
        0 <= k < n,
        !is_nan(values[k * size + j]),
    ensures
        !is_nan(coordinate_extreme(values, size, j, n, true)),
        !is_nan(coordinate_extreme(values, size, j, n, false)),
        !lt_of(values[k * size + j], coordinate_extreme(values, size, j, n, true)),
        !lt_of(coordinate_extreme(values, size, j, n, false), values[k * size + j]),
    decreases n,
{
    lemma_coordinate_is_a_number(values, size, j, n - 1);
    if k < n - 1 {
        lemma_coordinate_extreme(values, size, j, n - 1, k);
    }
}

/// Extreme coordinates are numbers.
proof fn lemma_coordinate_is_a_number(values: Seq<u32>, size: int, j: int, n: int)
    ensures
        !is_nan(coordinate_extreme(values, size, j, n, true)),
        !is_nan(coordinate_extreme(values, size, j, n, false)),
    decreases n,
{
    if n > 0 {
        lemma_coordinate_is_a_number(values, size, j, n - 1);
    }
}

/// The box around a geometry holds every vertex, and the box is asked for only of geometries
/// without joints, with up to 128 vertices of at least three components, whose material has neither
/// a color nor an emissive texture.
pub proof fn law_backdrop_box_holds_every_vertex(
    g: GeometryView,
    materials: Seq<EntryView>,
    low: Seq<u32>,
    high: Seq<u32>,
    k: int,
    j: int,
)
    requires
        0 <= j < 3,
        0 <= k,
    ensures
        backdrop_positions(g, materials) matches Some((values, size)) ==> {
            &&& g.joint_names.len() == 0
            &&& size >= 3
            &&& exists|i: int|
                0 <= i < g.attributes.len() && (#[trigger] g.attributes[i]).0 == "POSITION"@
                    && g.attributes[i].1.data == Components::F32(values)
                    && g.attributes[i].1.item_size == size && g.attributes[i].1.count <= 128
            &&& geometry_material(g, materials) matches Some(m) && m.base_color_texture is None
                && m.emissive_texture is None
            &&& is_box(values, size as int, low, high) && k < values.len() as int / size as int
                && !is_nan(values[k * size + j]) ==> !lt_of(values[k * size + j], low[j]) && !lt_of(
                high[j],
                values[k * size + j],
            )
        },
{
    match backdrop_positions(g, materials) {
        Some((values, size)) => {
            lemma_attribute_index(g.attributes, "POSITION"@, 0);
            let n = values.len() as int / size as int;
            if is_box(values, size as int, low, high) && k < n && !is_nan(values[k * size + j]) {
                lemma_coordinate_extreme(values, size as int, j, n, k);
                assert(low[j] == coordinate_extreme(values, size as int, j, n, true));
            }
        },
        None => {},
    }
}

/// An attribute of a name is found where it is.
proof fn lemma_attribute_index(list: Seq<(Seq<char>, AttributeView)>, name: Seq<char>, from: int)
    requires
        0 <= from,
    ensures
        match attribute_index(list, name, from) {
            Some(i) => from <= i < list.len() && list[i].0 == name,
            None => forall|k: int| from <= k < list.len() ==> (#[trigger] list[k]).0 != name,
        },
    decreases list.len() - from,
{
    if from < list.len() && list[from].0 != name {
        lemma_attribute_index(list, name, from + 1);
    }
}

/// Vertex colors are taken over if they are wanted and have at least three components: three of
/// each vertex, or four if alpha is wanted and there is one, as shares of the largest number of
/// their type.
pub proof fn law_colors_are_taken_over(
    list: Seq<(Seq<char>, AttributeView)>,
    enabled: bool,
    use_alpha: bool,
    at: int,
    vertex: int,
    j: int,
)
    requires
        0 <= at < list.len(),
        list[at].0 == "_SKETCHFAB_COLOR_0"@,
        forall|k: int| 0 <= k < at ==> (#[trigger] list[k]).0 != "_SKETCHFAB_COLOR_0"@,
        0 <= vertex,
        0 <= j,
    ensures
        ({
            let a = list[at].1;
            let r = colors_of(list, enabled, use_alpha);
            &&& r is Some <==> enabled && a.item_size >= 3
            &&& r matches Some(c) ==> {
                &&& c.count == a.count
                &&& c.item_size == 4 <==> use_alpha && a.item_size >= 4
                &&& c.item_size == 3 <==> !(use_alpha && a.item_size >= 4)
                &&& a.normalized && a.component_type == 5121 ==> c.full == 255
                &&& a.normalized && a.component_type == 5123 ==> c.full == 65535
                &&& !a.normalized ==> c.full == 1
                &&& a.data matches Components::U8(v) ==> (vertex < a.count && vertex < v.len()
                    as int / a.item_size as int && j < c.item_size ==> (c.data matches
                    Components::U8(w) && w[vertex * c.item_size + j] == v[vertex * a.item_size + j]))
                &&& a.data matches Components::F32(v) ==> (vertex < a.count && vertex < v.len()
                    as int / a.item_size as int && j < c.item_size ==> (c.data matches
                    Components::F32(w) && w[vertex * c.item_size + j] == v[vertex * a.item_size
                    + j]))
            }
        }),
        without_colors(list) == list.remove(at),
{
    lemma_attribute_is_at(list, "_SKETCHFAB_COLOR_0"@, 0, at);
    assert(COLOR_NAME@ == "_SKETCHFAB_COLOR_0"@);
    let a = list[at].1;
    match colors_of(list, enabled, use_alpha) {
        Some(c) => {
            let keep = c.item_size;
            let size = a.item_size as int;
            if j < keep {
                let i = vertex * keep + j;
                vstd::arithmetic::div_mod::lemma_fundamental_div_mod_converse(i, keep, vertex, j);
                let n = if a.count as int <= a.data.len() as int / size {
                    a.count as int
                } else {
                    a.data.len() as int / size
                };
                if vertex < n {
                    assert(0 <= i < n * keep) by (nonlinear_arith)
                        requires
                            i == vertex * keep + j,
                            0 <= vertex < n,
                            0 <= j < keep,
                    ;
                }
            }
        },
        None => {},
    }
}

/// The first attribute of a name is found.
proof fn lemma_attribute_is_at(
    list: Seq<(Seq<char>, AttributeView)>,
    name: Seq<char>,
    from: int,
    at: int,
)
    requires
        0 <= from <= at < list.len(),
        list[at].0 == name,
        forall|k: int| 0 <= k < at ==> (#[trigger] list[k]).0 != name,
    ensures
        attribute_index(list, name, from) == Some(at),
    decreases at - from,
{
    if from < at {
        assert(list[from].0 != name);
        lemma_attribute_is_at(list, name, from + 1, at);
    }
}

/// Colors are written as `COLOR_0`, and nothing else changes.
pub proof fn law_colors_are_set(list: Seq<(Seq<char>, AttributeView)>, colors: AttributeView)
    ensures
        with_colors(list, colors).contains(("COLOR_0"@, colors)),
        forall|x: (Seq<char>, AttributeView)|
            x.0 != "COLOR_0"@ ==> (list.contains(x) <==> #[trigger] with_colors(
                list,
                colors,
            ).contains(x)),
{
    lemma_attribute_index(list, "COLOR_0"@, 0);
    let after = with_colors(list, colors);
    match attribute_index(list, "COLOR_0"@, 0) {
        Some(i) => {
            assert(after[i] == ("COLOR_0"@, colors));
        },
        None => {
            assert(after[list.len() as int] == ("COLOR_0"@, colors));
        },
    }
    assert forall|x: (Seq<char>, AttributeView)| x.0 != "COLOR_0"@ implies (list.contains(x)
        <==> #[trigger] after.contains(x)) by {
        if list.contains(x) {
            let k = choose|k: int| 0 <= k < list.len() && list[k] == x;
            assert(after[k] == x);
        }
        if after.contains(x) {
            let k = choose|k: int| 0 <= k < after.len() && after[k] == x;
            assert(k < list.len());
            assert(list[k] == x);
        }
    }
}

/// An image is a PNG if the ending of its name says so, in whatever case, and a JPEG otherwise.
pub proof fn law_image_kind_follows_the_ending(name: Seq<char>)
    ensures
        mime_of(name) == Mime::Png <==> (extension_of(name) matches Some(e) && lower_of(e)
            == "png"@),
        mime_of(name) == Mime::Jpeg <==> !(extension_of(name) matches Some(e) && lower_of(e)
            == "png"@),
{
}

/// Whether an accessor is the stored form of a vertex attribute, with a purpose.
pub open spec fn stores(d: DocumentView, accessor: int, a: AttributeView, target: u32) -> bool {
    let x = d.accessors[accessor];
    &&& 0 <= accessor < d.accessors.len()
    &&& x.component_type == a.component_type
    &&& x.count == a.count
    &&& x.normalized == a.normalized
    &&& a.item_size == 1 ==> x.kind == AccessorKind::Scalar
    &&& a.item_size == 2 ==> x.kind == AccessorKind::Vec2
    &&& a.item_size == 3 ==> x.kind == AccessorKind::Vec3
    &&& a.item_size == 4 ==> x.kind == AccessorKind::Vec4
    &&& x.bounds == Some(bounds_of(a))
    &&& x.buffer_view < d.buffer_views.len()
    &&& d.buffer_views[x.buffer_view as int].target == Some(target)
}

/// A new vertex accessor stores its attribute, and those before it go on doing so.
proof fn lemma_vertex_accessor_stores(
    d: DocumentView,
    a: AttributeView,
    target: u32,
    k: int,
    b: AttributeView,
    other: u32,
)
    requires
        d.accessors.len() < usize::MAX,
        d.buffer_views.len() < usize::MAX,
    ensures
        stores(d.with_vertex_accessor(a, target), d.accessors.len() as int, a, target),
        0 <= k < d.accessors.len() && stores(d, k, b, other) ==> stores(
            d.with_vertex_accessor(a, target),
            k,
            b,
            other,
        ),
{
    let e = d.with_vertex_accessor(a, target);
    assert(e.accessors[d.accessors.len() as int].buffer_view == d.buffer_views.len());
    if 0 <= k < d.accessors.len() && stores(d, k, b, other) {
        assert(e.accessors[k] == d.accessors[k]);
    }
}

/// The attributes of a list are stored one after the other, for vertices, under their names; what
/// was stored before stays.
proof fn lemma_attributes_are_stored(
    d: DocumentView,
    list: Seq<(Seq<char>, AttributeView)>,
    n: int,
    i: int,
    k: int,
    b: AttributeView,
    other: u32,
)
    requires
        0 <= n <= list.len(),
        d.accessors.len() + n <= usize::MAX,
        d.buffer_views.len() + n <= usize::MAX,
    ensures
        ({
            let (e, named) = with_attributes(d, list, n);
            &&& named.len() == n
            &&& e.accessors.len() == d.accessors.len() + n
            &&& e.buffer_views.len() == d.buffer_views.len() + n
            &&& 0 <= i < n ==> named[i].0 == list[i].0 && stores(
                e,
                named[i].1 as int,
                list[i].1,
                34962,
            )
            &&& 0 <= k < d.accessors.len() && stores(d, k, b, other) ==> stores(e, k, b, other)
        }),
    decreases n,
{
    if n > 0 {
        lemma_attributes_are_stored(d, list, n - 1, i, k, b, other);
        let (before, named) = with_attributes(d, list, n - 1);
        lemma_vertex_accessor_stores(before, list[n - 1].1, 34962, k, b, other);
        if 0 <= i < n - 1 {
            lemma_vertex_accessor_stores(
                before,
                list[n - 1].1,
                34962,
                named[i].1 as int,
                list[i].1,
                34962,
            );
        }
    }
}

/// Storing attributes and morph targets leaves meshes and nodes as they are.
proof fn lemma_attributes_keep_meshes(
    d: DocumentView,
    list: Seq<(Seq<char>, AttributeView)>,
    n: int,
)
    ensures
        with_attributes(d, list, n).0.meshes == d.meshes,
        with_attributes(d, list, n).0.nodes == d.nodes,
    decreases n,
{
    if n > 0 {
        lemma_attributes_keep_meshes(d, list, n - 1);
    }
}

/// The same of morph targets.
proof fn lemma_targets_keep_meshes(d: DocumentView, list: Seq<MorphTargetView>, n: int)
    ensures
        with_targets(d, list, n).0.meshes == d.meshes,
        with_targets(d, list, n).0.nodes == d.nodes,
    decreases n,
{
    if n > 0 {
        lemma_targets_keep_meshes(d, list, n - 1);
        let m = list[n - 1];
        lemma_attributes_keep_meshes(
            with_targets(d, list, n - 1).0,
            m.attributes,
            m.attributes.len() as int,
        );
    }
}

/// A geometry adds one mesh.
proof fn lemma_mesh_is_one_more(d: DocumentView, g: GeometryView, material: usize)
    ensures
        with_mesh_of(d, g, material).meshes == d.meshes.push(
            with_mesh_of(d, g, material).meshes.last(),
        ),
        with_mesh_of(d, g, material).nodes == d.nodes,
{
    let d1 = d.with_vertex_accessor(index_attribute(g.indices), 34963);
    let n = g.attributes.len() as int;
    lemma_attributes_keep_meshes(d1, g.attributes, n);
    let d2 = with_attributes(d1, g.attributes, n).0;
    lemma_targets_keep_meshes(d2, g.morph_targets, g.morph_targets.len() as int);
    let e = with_mesh_of(d, g, material);
    assert(e.meshes =~= d.meshes.push(e.meshes.last()));
}

/// A geometry without morph targets becomes a mesh of its material's name, or `mesh`: its indices
/// are stored as whole words for drawing, each of its attributes for vertices, under its name, with
/// its own type, shape and count.
pub proof fn law_geometry_becomes_a_mesh(d: DocumentView, g: GeometryView, material: usize, i: int)
    requires
        g.morph_targets.len() == 0,
        g.indices.len() <= usize::MAX,
        d.accessors.len() + g.attributes.len() + 1 <= usize::MAX,
        d.buffer_views.len() + g.attributes.len() + 1 <= usize::MAX,
        0 <= i,
    ensures
        ({
            let e = with_mesh_of(d, g, material);
            let m = e.meshes.last();
            let words = e.accessors[m.indices as int];
            &&& e.meshes == d.meshes.push(m)
            &&& m.mode == g.mode
            &&& m.material == material
            &&& m.targets.len() == 0
            &&& g.material_name matches Some(n) ==> m.name == n
            &&& g.material_name is None ==> m.name == "mesh"@
            &&& words.component_type == 5125
            &&& words.kind == AccessorKind::Scalar
            &&& words.count == g.indices.len()
            &&& e.buffer_views[words.buffer_view as int].target == Some(34963u32)
            &&& m.attributes.len() == g.attributes.len()
            &&& i < g.attributes.len() ==> m.attributes[i].0 == g.attributes[i].0 && stores(
                e,
                m.attributes[i].1 as int,
                g.attributes[i].1,
                34962,
            )
        }),
{
    let list = index_attribute(g.indices);
    let d1 = d.with_vertex_accessor(list, 34963);
    lemma_vertex_accessor_stores(d, list, 34963, 0, list, 0);
    let n = g.attributes.len() as int;
    lemma_attributes_are_stored(
        d1,
        g.attributes,
        n,
        i,
        d.accessors.len() as int,
        list,
        34963,
    );
    let (d2, attributes) = with_attributes(d1, g.attributes, n);
    assert(with_targets(d2, g.morph_targets, 0) == (d2, Seq::<TargetView>::empty()));
    let e = with_mesh_of(d, g, material);
    lemma_mesh_is_one_more(d, g, material);
    assert(e.accessors == d2.accessors && e.buffer_views == d2.buffer_views);
    if i < n {
        assert(stores(d2, attributes[i].1 as int, g.attributes[i].1, 34962));
        assert(stores(e, attributes[i].1 as int, g.attributes[i].1, 34962));
    }
    assert(stores(d2, d.accessors.len() as int, list, 34963));
}

/// The morph targets of a node are bound to it under their names, each with its place among them.
pub proof fn law_morph_targets_are_bound(
    list: Seq<(Seq<char>, MorphTargetBinding)>,
    targets: Seq<MorphTargetView>,
    node: usize,
    n: int,
    i: int,
)
    requires
        0 <= i < n <= targets.len() <= usize::MAX,
    ensures
        with_bindings(list, targets, node, n).len() == list.len() + n,
        with_bindings(list, targets, node, n)[list.len() + i].0 == targets[i].name,
        with_bindings(list, targets, node, n)[list.len() + i].1.node == node,
        with_bindings(list, targets, node, n)[list.len() + i].1.target_index == i,
        with_bindings(list, targets, node, n)[list.len() + i].1.target_count == targets.len(),
    decreases n,
{
    lemma_bindings_len(list, targets, node, n - 1);
    if i < n - 1 {
        law_morph_targets_are_bound(list, targets, node, n - 1, i);
    }
}

/// There is a binding for each morph target.
proof fn lemma_bindings_len(
    list: Seq<(Seq<char>, MorphTargetBinding)>,
    targets: Seq<MorphTargetView>,
    node: usize,
    n: int,
)
    requires
        0 <= n,
    ensures
        with_bindings(list, targets, node, n).len() == list.len() + n,
    decreases n,
{
    if n > 0 {
        lemma_bindings_len(list, targets, node, n - 1);
    }
}

/// A geometry's node shows its mesh, at the top of the scene. A skinned one stands where its
/// skeleton does; any other where its matrices put it, and one that is animated is found under the
/// name of what animates it.
pub proof fn law_geometry_gets_a_node(
    b: BuilderView,
    g: GeometryView,
    materials: Seq<EntryView>,
    files: Seq<StoredView>,
)
    ensures
        geometry_added(b, g, materials, files) matches Ok(after) ==> {
            let d = after.studio.document;
            let node = d.nodes.last();
            &&& d.nodes.len() > 0
            &&& d.roots.len() > 0
            &&& d.roots.last() == (d.nodes.len() - 1) as usize
            &&& d.meshes.len() > 0
            &&& node.mesh == Some((d.meshes.len() - 1) as usize)
            &&& node.name == "mesh_"@ + decimal_of(((d.meshes.len() - 1) as usize) as nat)
            &&& node.children.len() == 0
            &&& node.skin is Some ==> node.placement == PlacementView::Unplaced
            &&& node.skin is None && g.animation_target is Some ==> node.placement
                == PlacementView::Decomposed(g.path)
            &&& node.skin is None && g.animation_target is None ==> node.placement
                == PlacementView::Product(g.path)
            &&& g.animation_target matches Some(t) ==> (node.skin is None
                ==> after.names.contains_key(t) && after.names[t] == (d.nodes.len() - 1) as usize)
            &&& g.joint_names.len() == 0 ==> node.skin is None
        },
{
    match with_variant(b, g, materials, files) {
        Ok((b1, material)) => {
            lemma_mesh_is_one_more(b1.studio.document, g, material);
        },
        Err(_) => {},
    }
}

/// A geometry is drawn with the material of its name, made for its texture coordinates; one without
/// a material of the model is drawn with the plain one.
pub proof fn law_geometry_is_drawn_with_its_material(
    b: BuilderView,
    g: GeometryView,
    materials: Seq<EntryView>,
    files: Seq<StoredView>,
)
    requires
        b.studio.document.materials.len() < usize::MAX,
    ensures
        with_variant(b, g, materials, files) matches Ok((after, index)) ==> {
            &&& geometry_material(g, materials) is None ==> index == b.fallback && after == b
            &&& geometry_material(g, materials) matches Some(m) ==> {
                &&& g.material_name == Some(m.name)
                &&& variant_index(b.variants, m.name, g.texcoord_units, 0) is None ==> {
                    &&& after.studio.document.materials[index as int].name == m.name
                    &&& after.variants == b.variants.push(
                        VariantView { name: m.name, units: g.texcoord_units, index },
                    )
                }
                &&& variant_index(b.variants, m.name, g.texcoord_units, 0) matches Some(i) ==> index
                    == i && after == b
            }
        },
{
    lemma_geometry_material(g, materials);
    match geometry_material(g, materials) {
        Some(m) => {
            crate::palette::law_material_keeps_its_source(
                m,
                g.texcoord_units,
                files,
                b.studio,
            );
            crate::palette::lemma_variant_adds_one(m, g.texcoord_units, files, b.studio);
        },
        None => {},
    }
}

/// The plain material is white, rough and no metal, seen from both sides, without textures.
pub proof fn law_plain_material()
    ensures
        ({
            let m = fallback_of();
            &&& m.name == "fallback"@
            &&& m.double_sided
            &&& m.alpha_mode is None
            &&& forall|i: int| 0 <= i < 4 ==> #[trigger] m.base_color@[i] == 0x3f80_0000
            &&& m.metallic == 0
            &&& m.roughness == 0x3f80_0000
            &&& m.base_color_texture is None && m.emissive_texture is None && m.normal_texture
                is None && m.occlusion_texture is None && m.metallic_roughness_texture is None
            &&& !m.unlit
            &&& m.extensions.len() == 0
        }),
{
    let m = fallback_of();
    assert(m.base_color@ =~= seq![ONE, ONE, ONE, ONE]);
}

/// A texture that is used and has an image is made.
proof fn lemma_use_is_made(
    s: StudioView,
    usage: Option<UseView>,
    images: Seq<(Seq<char>, usize)>,
    key: KeyView,
)
    ensures
        made_index(s.made, key, 0) is Some ==> made_index(with_plain(s, usage, images).made, key, 0)
            is Some,
        usage matches Some(u) ==> (image_of(images, u.uid, 0) is Some && key == (KeyView::Plain {
            uid: u.uid,
            sampler: u.sampler,
        }) ==> made_index(with_plain(s, usage, images).made, key, 0) is Some),
{
    let after = with_plain(s, usage, images).made;
    if after != s.made {
        let u = usage->0;
        let own = KeyView::Plain { uid: u.uid, sampler: u.sampler };
        assert(after == s.made.push((own, after.last().1)));
        crate::palette::lemma_made_index_grows(s.made, after.last(), key, 0);
    }
}

/// The same of the first `n` uses of a material.
proof fn lemma_uses_are_made(
    s: StudioView,
    uses: Seq<Option<UseView>>,
    n: int,
    images: Seq<(Seq<char>, usize)>,
    key: KeyView,
    k: int,
)
    requires
        0 <= n <= uses.len(),
    ensures
        made_index(s.made, key, 0) is Some ==> made_index(
            with_uses(s, uses, n, images).made,
            key,
            0,
        ) is Some,
        0 <= k < n ==> (uses[k] matches Some(u) ==> (image_of(images, u.uid, 0) is Some && key == (
        KeyView::Plain { uid: u.uid, sampler: u.sampler }) ==> made_index(
            with_uses(s, uses, n, images).made,
            key,
            0,
        ) is Some)),
    decreases n,
{
    if n > 0 {
        lemma_uses_are_made(s, uses, n - 1, images, key, k);
        lemma_use_is_made(with_uses(s, uses, n - 1, images), uses[n - 1], images, key);
    }
}

/// Every texture that a material uses, and whose image is there, is made with the sampler that the
/// material asks for.
pub proof fn law_used_textures_are_made(
    s: StudioView,
    materials: Seq<EntryView>,
    n: int,
    images: Seq<(Seq<char>, usize)>,
    i: int,
    usage: UseView,
)
    requires
        0 <= i < n <= materials.len(),
        ({
            let m = materials[i];
            m.base_color_texture == Some(usage) || m.emissive_texture == Some(usage)
                || m.occlusion_texture == Some(usage) || m.normal_texture == Some(usage)
                || m.metallic_texture == Some(usage) || m.roughness_texture == Some(usage)
                || m.opacity_texture == Some(usage) || m.alpha_mask_texture == Some(usage)
        }),
        image_of(images, usage.uid, 0) is Some,
    ensures
        made_index(
            with_textures(s, materials, n, images).made,
            KeyView::Plain { uid: usage.uid, sampler: usage.sampler },
            0,
        ) is Some,
    decreases n,
{
    let key = KeyView::Plain { uid: usage.uid, sampler: usage.sampler };
    let before = with_textures(s, materials, n - 1, images);
    let uses = materials[n - 1].uses();
    if i < n - 1 {
        law_used_textures_are_made(s, materials, n - 1, images, i, usage);
        lemma_uses_are_made(before, uses, 8, images, key, 0);
    } else {
        let k = choose|k: int| 0 <= k < 8 && #[trigger] uses[k] == Some(usage);
        assert(exists|k: int| 0 <= k < 8 && #[trigger] uses[k] == Some(usage)) by {
            let m = materials[i];
            assert(uses[0] == m.base_color_texture && uses[1] == m.emissive_texture && uses[2]
                == m.occlusion_texture && uses[3] == m.normal_texture && uses[4]
                == m.metallic_texture && uses[5] == m.roughness_texture && uses[6]
                == m.opacity_texture && uses[7] == m.alpha_mask_texture);
        }
        lemma_uses_are_made(before, uses, 8, images, key, k);
    }
}

/// Each image that is listed for a texture is of the kind that the texture's file has.
pub proof fn law_images_are_of_their_files_kind(
    d: DocumentView,
    files: Seq<StoredView>,
    order: Seq<Seq<char>>,
    n: int,
    i: int,
)
    requires
        0 <= n <= order.len(),
        d.images.len() + n <= usize::MAX,
        0 <= i < with_images(d, files, order, n).1.len(),
    ensures
        ({
            let (e, list) = with_images(d, files, order, n);
            &&& list[i].1 < e.images.len()
            &&& stored_file(files, list[i].0, 0) matches Some(f) && e.images[list[i].1 as int].mime
                == mime_of(f.name)
        }),
        with_images(d, files, order, n).0.images.len() <= d.images.len() + n,
    decreases n,
{
    lemma_images_count(d, files, order, n);
    if n > 0 {
        lemma_images_count(d, files, order, n - 1);
        let list = with_images(d, files, order, n - 1).1;
        if i < list.len() {
            law_images_are_of_their_files_kind(d, files, order, n - 1, i);
        }
    }
}

/// At most one image is added for each texture.
proof fn lemma_images_count(
    d: DocumentView,
    files: Seq<StoredView>,
    order: Seq<Seq<char>>,
    n: int,
)
    ensures
        n >= 0 ==> with_images(d, files, order, n).0.images.len() <= d.images.len() + n,
    decreases n,
{
    if n > 0 {
        lemma_images_count(d, files, order, n - 1);
    }
}

/// The inverse bind matrix of a joint is that of its name, and one that changes nothing for a joint
/// that has none.
pub proof fn law_joints_have_their_own_matrices(
    names: Seq<Seq<char>>,
    binds: Map<Seq<char>, Matrix>,
    identity: Matrix,
    i: int,
)
    requires
        0 <= i < names.len(),
        forall|column: int, row: int|
            #![trigger identity@[4 * column + row]]
            0 <= column < 4 && 0 <= row < 4 ==> identity@[4 * column + row] == if column == row {
                ONE
            } else {
                0u32
            },
    ensures
        binds_of(names, binds).len() == names.len(),
        binds.contains_key(names[i]) ==> binds_of(names, binds)[i] == binds[names[i]],
        !binds.contains_key(names[i]) ==> binds_of(names, binds)[i] == identity,
{
    assert(identity@ =~= identity_of()) by {
        assert forall|k: int| 0 <= k < 16 implies identity@[k] == #[trigger] identity_of()[k] by {
            let column = k / 4;
            let row = k % 4;
            assert(identity@[4 * column + row] == identity@[k]);
        }
    }
    lemma_to_matrix(identity);
}

/// A morph target is stored under its name, each of its attributes for vertices under its own; what
/// was stored before stays.
proof fn lemma_targets_are_stored(
    d: DocumentView,
    list: Seq<MorphTargetView>,
    n: int,
    t: int,
    i: int,
    k: int,
    b: AttributeView,
    other: u32,
)
    requires
        0 <= n <= list.len(),
        d.accessors.len() + attributes_in(list, n) <= usize::MAX,
        d.buffer_views.len() + attributes_in(list, n) <= usize::MAX,
    ensures
        ({
            let (e, targets) = with_targets(d, list, n);
            &&& targets.len() == n
            &&& e.accessors.len() == d.accessors.len() + attributes_in(list, n)
            &&& e.buffer_views.len() == d.buffer_views.len() + attributes_in(list, n)
            &&& 0 <= t < n ==> {
                &&& targets[t].name == list[t].name
                &&& targets[t].attributes.len() == list[t].attributes.len()
                &&& 0 <= i < list[t].attributes.len() ==> targets[t].attributes[i].0
                    == list[t].attributes[i].0 && stores(
                    e,
                    targets[t].attributes[i].1 as int,
                    list[t].attributes[i].1,
                    34962,
                )
            }
            &&& 0 <= k < d.accessors.len() && stores(d, k, b, other) ==> stores(e, k, b, other)
        }),
    decreases n,
{
    if n > 0 {
        lemma_targets_are_stored(d, list, n - 1, t, i, k, b, other);
        let (before, targets) = with_targets(d, list, n - 1);
        let m = list[n - 1];
        let count = m.attributes.len() as int;
        lemma_attributes_are_stored(before, m.attributes, count, i, k, b, other);
        if 0 <= t < n - 1 && 0 <= i < list[t].attributes.len() {
            lemma_attributes_are_stored(
                before,
                m.attributes,
                count,
                i,
                targets[t].attributes[i].1 as int,
                list[t].attributes[i].1,
                34962,
            );
        }
    }
}

/// How many attributes the first `n` morph targets have.
pub open spec fn attributes_in(list: Seq<MorphTargetView>, n: int) -> int
    decreases n,
{
    if n <= 0 {
        0
    } else {
        attributes_in(list, n - 1) + list[n - 1].attributes.len()
    }
}

/// The morph targets of a geometry become those of its mesh, in order, under their names, each
/// attribute stored for vertices with its own type, shape and count.
pub proof fn law_mesh_has_its_morph_targets(
    d: DocumentView,
    g: GeometryView,
    material: usize,
    t: int,
    i: int,
)
    requires
        0 <= t < g.morph_targets.len(),
        0 <= i < g.morph_targets[t].attributes.len(),
        d.accessors.len() + g.attributes.len() + 1 + attributes_in(
            g.morph_targets,
            g.morph_targets.len() as int,
        ) <= usize::MAX,
        d.buffer_views.len() + g.attributes.len() + 1 + attributes_in(
            g.morph_targets,
            g.morph_targets.len() as int,
        ) <= usize::MAX,
    ensures
        ({
            let e = with_mesh_of(d, g, material);
            let m = e.meshes.last();
            &&& m.targets.len() == g.morph_targets.len()
            &&& m.targets[t].name == g.morph_targets[t].name
            &&& m.targets[t].attributes.len() == g.morph_targets[t].attributes.len()
            &&& m.targets[t].attributes[i].0 == g.morph_targets[t].attributes[i].0
            &&& stores(
                e,
                m.targets[t].attributes[i].1 as int,
                g.morph_targets[t].attributes[i].1,
                34962,
            )
        }),
{
    lemma_attributes_in(g.morph_targets, g.morph_targets.len() as int);
    let list = index_attribute(g.indices);
    let d1 = d.with_vertex_accessor(list, 34963);
    let n = g.attributes.len() as int;
    lemma_attributes_are_stored(d1, g.attributes, n, 0, 0, list, 0);
    let d2 = with_attributes(d1, g.attributes, n).0;
    let count = g.morph_targets.len() as int;
    lemma_targets_are_stored(d2, g.morph_targets, count, t, i, 0, list, 0);
    let (d3, targets) = with_targets(d2, g.morph_targets, count);
    let e = with_mesh_of(d, g, material);
    assert(e.accessors == d3.accessors && e.buffer_views == d3.buffer_views);
    assert(e.meshes.last().targets == targets);
}

/// There are no fewer than none.
proof fn lemma_attributes_in(list: Seq<MorphTargetView>, n: int)
    ensures
        attributes_in(list, n) >= 0,
    decreases n,
{
    if n > 0 {
        lemma_attributes_in(list, n - 1);
    }
}

} // verus!
