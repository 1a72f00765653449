//! Geometries: what a scene's geometry nodes describe, still to be decoded.

use crate::attributes::{
    all_renamed, attribute_members, attributes_of, bytes_opt, cannot_decode, find_plan,
    float_attribute, float_plan, number_texcoords, own, plan_index, position_range, read_attributes,
    read_position_range, read_resolution, resolution, size_of, size_or, undecodable, unit_order,
    units_of, AttributePlan, Decoding, DecodingView, ModelFiles, PlanView,
};
use crate::buffers::{buffer_array_of, read_buffer_array, BufferError, Components};
use crate::gltf::{lemma_views_push, views, Matrix};
use crate::json::{
    array, first_key_value, first_key_value_of, get, get_of, items_of, object, object_of, text,
    text_of, tree_of, trees, unsigned, unsigned_of, Json, Tree,
};
use crate::metadata::{user_data_of, user_data_values, Figure};
use crate::primitives::{
    draw_primitives, geometry_drawn, law_idle_sets_change_nothing, nothing_drawn, primitives_of,
    sets_in_mode,
};
use crate::text::texts;
use vstd::hash_map::StringHashMap;
use vstd::prelude::*;

verus! {

/// A morph target, still to be decoded: its attributes are given in full, and become differences
/// to the geometry's attributes of the same names.
#[derive(Debug)]
pub struct MorphPlan {
    pub name: String,
    pub attributes: Vec<AttributePlan>,
}

/// The mathematical counterpart of [`MorphPlan`].
#[verifier::ext_equal]
pub ghost struct MorphView {
    pub name: Seq<char>,
    pub attributes: Seq<PlanView>,
}

impl View for MorphPlan {
    type V = MorphView;

    open spec fn view(&self) -> MorphView {
        MorphView { name: self.name@, attributes: views(self.attributes@) }
    }
}

/// A geometry, still to be decoded.
#[derive(Debug)]
pub struct GeometryPlan {
    pub indices: Vec<u32>,
    pub mode: u32,
    pub attributes: Vec<AttributePlan>,
    pub morph_targets: Vec<MorphPlan>,
    /// Why morph targets were left out.
    pub morph_errors: Vec<BufferError>,
    pub texcoord_units: Vec<(u32, u32)>,
    pub material_name: Option<String>,
    pub joint_names: Vec<String>,
    /// The matrices that place the geometry, from the outermost inward.
    pub path: Vec<Matrix>,
    /// The matrices that place the skeleton above the geometry.
    pub skeleton_path: Option<Vec<Matrix>>,
    /// The name under which animations move the geometry.
    pub animation_target: Option<String>,
}

/// The mathematical counterpart of [`GeometryPlan`].
#[verifier::ext_equal]
pub ghost struct GeometryView {
    pub indices: Seq<u32>,
    pub mode: u32,
    pub attributes: Seq<PlanView>,
    pub morph_targets: Seq<MorphView>,
    pub morph_errors: Seq<BufferError>,
    pub texcoord_units: Seq<(u32, u32)>,
    pub material_name: Option<Seq<char>>,
    pub joint_names: Seq<Seq<char>>,
    pub path: Seq<Matrix>,
    pub skeleton_path: Option<Seq<Matrix>>,
    pub animation_target: Option<Seq<char>>,
}

/// The characters of an optional string.
pub open spec fn text_opt(v: Option<String>) -> Option<Seq<char>> {
    match v {
        Some(s) => Some(s@),
        None => None,
    }
}

/// The matrices of an optional list.
pub open spec fn path_opt(v: Option<Vec<Matrix>>) -> Option<Seq<Matrix>> {
    match v {
        Some(p) => Some(p@),
        None => None,
    }
}

impl View for GeometryPlan {
    type V = GeometryView;

    open spec fn view(&self) -> GeometryView {
        GeometryView {
            indices: self.indices@,
            mode: self.mode,
            attributes: views(self.attributes@),
            morph_targets: views(self.morph_targets@),
            morph_errors: self.morph_errors@,
            texcoord_units: self.texcoord_units@,
            material_name: text_opt(self.material_name),
            joint_names: texts(self.joint_names@),
            path: self.path@,
            skeleton_path: path_opt(self.skeleton_path),
            animation_target: text_opt(self.animation_target),
        }
    }
}

/// The name in the first of a list of state attributes that holds a named material.
pub open spec fn first_material(list: Seq<Tree>, from: int) -> Option<Seq<char>>
    decreases list.len() - from,
{
    if from < 0 || from >= list.len() {
        None
    } else {
        match text_of(get_of(get_of(Some(list[from]), "osg.Material"@), "Name"@)) {
            Some(name) => Some(name),
            None => first_material(list, from + 1),
        }
    }
}

/// The name of a geometry's material: that of its state's first material, or else that of its
/// state.
pub open spec fn material_of(geom: Tree) -> Option<Seq<char>> {
    let state = get_of(get_of(Some(geom), "StateSet"@), "osg.StateSet"@);
    match first_material(items_of(get_of(state, "AttributeList"@)), 0) {
        Some(name) => Some(name),
        None => text_of(get_of(state, "Name"@)),
    }
}

/// The name of a geometry's material.
pub fn material_name(geom: &Json) -> (r: Option<String>)
    ensures
        text_opt(r) == material_of(geom@),
{
    let state = get(get(Some(geom), "StateSet"), "osg.StateSet");
    match array(get(state, "AttributeList")) {
        Some(items) => {
            let ghost list = trees(items@);
            let mut i: usize = 0;
            while i < items.len()
                invariant
                    i <= items@.len(),
                    list == trees(items@),
                    first_material(list, 0) == first_material(list, i as int),
                    list == items_of(get_of(tree_of(state), "AttributeList"@)),
                    tree_of(state) == get_of(get_of(Some(geom@), "StateSet"@), "osg.StateSet"@),
                decreases items@.len() - i,
            {
                assert(list[i as int] == items@[i as int]@);
                match text(get(get(Some(&items[i]), "osg.Material"), "Name")) {
                    Some(name) => {
                        return Some(name.clone());
                    },
                    None => {},
                }
                i += 1;
            }
        },
        None => {},
    }
    match text(get(state, "Name")) {
        Some(name) => Some(name.clone()),
        None => None,
    }
}

/// Whether a morph target's attribute fits the geometry's attribute of the same name: as many
/// items of as many components, and as many numbers in all.
pub open spec fn morph_fits(base: Seq<PlanView>, plan: PlanView) -> bool {
    plan_index(base, plan.name, 0) matches Some(i) && base[i].attribute.item_size
        == plan.attribute.item_size && base[i].attribute.count == plan.attribute.count
        && base[i].decoded_len() == plan.decoded_len()
}

/// The attributes of a morph target with one more, if it fits.
pub open spec fn morph_with(
    list: Seq<PlanView>,
    base: Seq<PlanView>,
    plan: PlanView,
) -> Seq<PlanView> {
    if morph_fits(base, plan) {
        list.push(plan)
    } else {
        list
    }
}

/// How many components an attribute has once it is decoded, if that can be counted.
fn decoded_len(plan: &AttributePlan) -> (r: Option<usize>)
    ensures
        match r {
            Some(n) => n == plan@.decoded_len(),
            None => plan@.decoded_len() > usize::MAX,
        },
{
    let stored: usize = plan.attribute.data.len();
    match plan.decoding {
        Decoding::Normals { .. } => {
            let half: usize = stored / 2;
            crate::buffers::checked_product(half as u64, plan.attribute.item_size)
        },
        _ => Some(stored),
    }
}

/// Whether a morph target's attribute fits the geometry's attribute of the same name.
fn fits(base: &Vec<AttributePlan>, plan: &AttributePlan) -> (r: bool)
    requires
        plan@.decoded_len() <= usize::MAX,
    ensures
        r == morph_fits(views(base@), plan@),
{
    match find_plan(base, plan.name.as_str()) {
        Some(i) => {
            assert(views(base@)[i as int] == base@[i as int]@);
            base[i].attribute.item_size == plan.attribute.item_size && base[i].attribute.count
                == plan.attribute.count && match (decoded_len(&base[i]), decoded_len(plan)) {
                (Some(a), Some(b)) => a == b,
                _ => false,
            }
        },
        None => false,
    }
}

/// What a morph target says of the positions: a plan if there is an array.
pub open spec fn morph_positions(def: Option<Tree>, meta: Map<Seq<char>, Figure>, bin: Seq<u8>) -> Result<
    Option<PlanView>,
    BufferError,
> {
    match first_key_value_of(get_of(def, "Array"@)) {
        None => Ok(None),
        Some((array_type, array_def)) => {
            let item_size = size_of(unsigned_of(get_of(def, "ItemSize"@)), 3);
            let count = size_of(unsigned_of(get_of(Some(array_def), "Size"@)), 0);
            if item_size > usize::MAX || count > usize::MAX {
                Err(BufferError::OutOfRange)
            } else {
                match buffer_array_of(bin, array_def, item_size, array_type) {
                    Err(e) => Err(e),
                    Ok(data) => if undecodable(
                        data.len() as int,
                        item_size,
                        position_range(meta, item_size),
                        false,
                    ) {
                        Err(BufferError::OutOfRange)
                    } else {
                        Ok(
                            Some(
                                PlanView {
                                    name: "POSITION"@,
                                    attribute: float_attribute(data, item_size, count),
                                    decoding: DecodingView::Floats {
                                        predict: None,
                                        range: position_range(meta, item_size),
                                        flip: false,
                                    },
                                },
                            ),
                        )
                    },
                }
            }
        },
    }
}

/// What a morph target says of the normals: a plan if there is an array.
pub open spec fn morph_normals(def: Option<Tree>, meta: Map<Seq<char>, Figure>, bin: Seq<u8>) -> Result<
    Option<PlanView>,
    BufferError,
> {
    match first_key_value_of(get_of(def, "Array"@)) {
        None => Ok(None),
        Some((array_type, array_def)) => {
            let count = size_of(unsigned_of(get_of(Some(array_def), "Size"@)), 0);
            if count > usize::MAX {
                Err(BufferError::OutOfRange)
            } else {
                match buffer_array_of(bin, array_def, 2, array_type) {
                    Err(e) => Err(e),
                    Ok(data) => if (data.len() / 2) * 3 > usize::MAX {
                        Err(BufferError::OutOfRange)
                    } else {
                        Ok(
                            Some(
                                PlanView {
                                    name: "NORMAL"@,
                                    attribute: float_attribute(data, 3, count),
                                    decoding: resolution(meta),
                                },
                            ),
                        )
                    },
                }
            }
        },
    }
}

/// A morph target: those of its positions and normals that fit the geometry's, nothing if neither
/// does.
pub open spec fn morph_target_of(target: Tree, bin: Seq<u8>, base: Seq<PlanView>) -> Result<
    Option<MorphView>,
    BufferError,
> {
    let attributes = get_of(Some(target), "VertexAttributeList"@);
    let meta = user_data_of(target);
    if object_of(attributes) is None {
        Ok(None)
    } else {
        match morph_positions(get_of(attributes, "Vertex"@), meta, bin) {
            Err(e) => Err(e),
            Ok(positions) => {
                let first = match positions {
                    Some(plan) => morph_with(Seq::empty(), base, plan),
                    None => Seq::empty(),
                };
                match morph_normals(get_of(attributes, "Normal"@), meta, bin) {
                    Err(e) => Err(e),
                    Ok(normals) => {
                        let both = match normals {
                            Some(plan) => morph_with(first, base, plan),
                            None => first,
                        };
                        if both.len() == 0 {
                            Ok(None)
                        } else {
                            Ok(
                                Some(
                                    MorphView {
                                        name: match text_of(get_of(Some(target), "Name"@)) {
                                            Some(n) => n,
                                            None => "morph"@,
                                        },
                                        attributes: both,
                                    },
                                ),
                            )
                        }
                    },
                }
            },
        }
    }
}

/// Reads what a morph target says of the positions.
fn read_morph_positions(def: Option<&Json>, meta: &StringHashMap<Figure>, bin: &[u8]) -> (r: Result<
    Option<AttributePlan>,
    BufferError,
>)
    ensures
        crate::attributes::plan_view(r) == morph_positions(tree_of(def), meta@, bin@),
        r matches Ok(Some(p)) ==> p@.decoded_len() <= usize::MAX,
{
    let (array_type, array_def) = match first_key_value(get(def, "Array")) {
        Some(pair) => pair,
        None => {
            return Ok(None);
        },
    };
    let item_size: usize = match size_or(unsigned(get(def, "ItemSize")), 3) {
        Some(n) => n,
        None => {
            return Err(BufferError::OutOfRange);
        },
    };
    let count: usize = match size_or(unsigned(get(Some(array_def), "Size")), 0) {
        Some(n) => n,
        None => {
            return Err(BufferError::OutOfRange);
        },
    };
    let data = match read_buffer_array(bin, array_def, item_size, array_type.as_str()) {
        Ok(d) => d,
        Err(e) => {
            return Err(e);
        },
    };
    let length: usize = data.len();
    let range = read_position_range(meta, item_size);
    if cannot_decode(length, item_size, &range, false) {
        return Err(BufferError::OutOfRange);
    }
    let plan = float_plan(
        own("POSITION"),
        data,
        item_size,
        count,
        Decoding::Floats { predict: None, range, flip: false },
    );
    assert(plan@.decoded_len() == length);
    Ok(Some(plan))
}

/// Reads what a morph target says of the normals.
fn read_morph_normals(def: Option<&Json>, meta: &StringHashMap<Figure>, bin: &[u8]) -> (r: Result<
    Option<AttributePlan>,
    BufferError,
>)
    ensures
        crate::attributes::plan_view(r) == morph_normals(tree_of(def), meta@, bin@),
        r matches Ok(Some(p)) ==> p@.decoded_len() <= usize::MAX,
{
    let (array_type, array_def) = match first_key_value(get(def, "Array")) {
        Some(pair) => pair,
        None => {
            return Ok(None);
        },
    };
    let count: usize = match size_or(unsigned(get(Some(array_def), "Size")), 0) {
        Some(n) => n,
        None => {
            return Err(BufferError::OutOfRange);
        },
    };
    let data = match read_buffer_array(bin, array_def, 2, array_type.as_str()) {
        Ok(d) => d,
        Err(e) => {
            return Err(e);
        },
    };
    let half: usize = data.len() / 2;
    if half > usize::MAX / 3 {
        return Err(BufferError::OutOfRange);
    }
    let plan = float_plan(own("NORMAL"), data, 3, count, read_resolution(meta));
    Ok(Some(plan))
}

/// Adds a morph target's attribute, if it fits.
fn add_fitting(list: &mut Vec<AttributePlan>, base: &Vec<AttributePlan>, plan: AttributePlan)
    requires
        plan@.decoded_len() <= usize::MAX,
    ensures
        views(final(list)@) == morph_with(views(old(list)@), views(base@), plan@),
{
    if fits(base, &plan) {
        proof {
            lemma_views_push(list@, plan);
        }
        list.push(plan);
    }
}

/// A result with its morph target seen as a mathematical value.
pub open spec fn morph_view(r: Result<Option<MorphPlan>, BufferError>) -> Result<
    Option<MorphView>,
    BufferError,
> {
    match r {
        Ok(Some(m)) => Ok(Some(m@)),
        Ok(None) => Ok(None),
        Err(e) => Err(e),
    }
}

/// Reads a morph target.
pub fn decode_morph_target(target: &Json, poly_bin: &[u8], base: &Vec<AttributePlan>) -> (r: Result<
    Option<MorphPlan>,
    BufferError,
>)
    ensures
        morph_view(r) == morph_target_of(target@, poly_bin@, views(base@)),
{
    let meta = user_data_values(target);
    let attributes = get(Some(target), "VertexAttributeList");
    if object(attributes).is_none() {
        return Ok(None);
    }
    let mut output: Vec<AttributePlan> = Vec::new();
    assert(views(output@) =~= Seq::<PlanView>::empty());
    match read_morph_positions(get(attributes, "Vertex"), &meta, poly_bin) {
        Ok(Some(plan)) => {
            add_fitting(&mut output, base, plan);
        },
        Ok(None) => {},
        Err(e) => {
            return Err(e);
        },
    }
    match read_morph_normals(get(attributes, "Normal"), &meta, poly_bin) {
        Ok(Some(plan)) => {
            add_fitting(&mut output, base, plan);
        },
        Ok(None) => {},
        Err(e) => {
            return Err(e);
        },
    }
    if output.len() == 0 {
        return Ok(None);
    }
    let name = match text(get(Some(target), "Name")) {
        Some(n) => n.clone(),
        None => own("morph"),
    };
    let plan = MorphPlan { name, attributes: output };
    Ok(Some(plan))
}

/// The morph targets from `from` on, behind those found so far; targets that cannot be read are
/// left out, with the reason.
pub open spec fn morphs_from(
    list: Seq<Tree>,
    from: int,
    bin: Seq<u8>,
    base: Seq<PlanView>,
    found: Seq<MorphView>,
    errors: Seq<BufferError>,
) -> (Seq<MorphView>, Seq<BufferError>)
    decreases list.len() - from,
{
    if from < 0 || from >= list.len() {
        (found, errors)
    } else {
        match first_key_value_of(Some(list[from])) {
            None => morphs_from(list, from + 1, bin, base, found, errors),
            Some((_, target)) => match morph_target_of(target, bin, base) {
                Ok(Some(m)) => morphs_from(list, from + 1, bin, base, found.push(m), errors),
                Ok(None) => morphs_from(list, from + 1, bin, base, found, errors),
                Err(e) => morphs_from(list, from + 1, bin, base, found, errors.push(e)),
            },
        }
    }
}

/// Reads the morph targets of a geometry.
fn read_morphs(geom: &Json, poly_bin: &[u8], base: &Vec<AttributePlan>) -> (r: (
    Vec<MorphPlan>,
    Vec<BufferError>,
))
    ensures
        (views(r.0@), r.1@) == morphs_from(
            items_of(get_of(Some(geom@), "MorphTargets"@)),
            0,
            poly_bin@,
            views(base@),
            Seq::empty(),
            Seq::empty(),
        ),
{
    let mut found: Vec<MorphPlan> = Vec::new();
    let mut errors: Vec<BufferError> = Vec::new();
    assert(views(found@) =~= Seq::<MorphView>::empty());
    let ghost goal = morphs_from(
        items_of(get_of(Some(geom@), "MorphTargets"@)),
        0,
        poly_bin@,
        views(base@),
        Seq::empty(),
        Seq::empty(),
    );
    match array(get(Some(geom), "MorphTargets")) {
        Some(items) => {
            let ghost list = trees(items@);
            let mut i: usize = 0;
            while i < items.len()
                invariant
                    i <= items@.len(),
                    list == trees(items@),
                    goal == morphs_from(
                        list,
                        i as int,
                        poly_bin@,
                        views(base@),
                        views(found@),
                        errors@,
                    ),
                decreases items@.len() - i,
            {
                assert(list[i as int] == items@[i as int]@);
                match first_key_value(Some(&items[i])) {
                    Some((_, target)) => match decode_morph_target(target, poly_bin, base) {
                        Ok(Some(m)) => {
                            proof {
                                lemma_views_push(found@, m);
                            }
                            found.push(m);
                        },
                        Ok(None) => {},
                        Err(e) => {
                            errors.push(e);
                        },
                    },
                    None => {},
                }
                i += 1;
            }
        },
        None => {},
    }
    (found, errors)
}

/// A geometry: nothing if it has no indices or no positions.
pub open spec fn geometry_of(geom: Tree, poly: Seq<u8>, wire: Option<Seq<u8>>) -> Result<
    Option<GeometryView>,
    BufferError,
> {
    let meta = user_data_of(geom);
    match geometry_drawn(geom, meta, poly) {
        Err(e) => Err(e),
        Ok(drawn) => if drawn.indices.len() == 0 {
            Ok(None)
        } else {
            match attributes_of(geom, meta, drawn.strip, poly, wire) {
                Err(e) => Err(e),
                Ok(list) => if unit_order(list, list.len() as int).len() > u32::MAX {
                    Err(BufferError::OutOfRange)
                } else {
                    let named = all_renamed(list);
                    if plan_index(named, "POSITION"@, 0) is None {
                        Ok(None)
                    } else {
                        let (morph_targets, morph_errors) = morphs_from(
                            items_of(get_of(Some(geom), "MorphTargets"@)),
                            0,
                            poly,
                            named,
                            Seq::empty(),
                            Seq::empty(),
                        );
                        Ok(
                            Some(
                                GeometryView {
                                    indices: drawn.indices,
                                    mode: match drawn.mode {
                                        Some(m) => m,
                                        None => 4,
                                    },
                                    attributes: named,
                                    morph_targets,
                                    morph_errors,
                                    texcoord_units: units_of(list),
                                    material_name: material_of(geom),
                                    joint_names: Seq::empty(),
                                    path: Seq::empty(),
                                    skeleton_path: None,
                                    animation_target: None,
                                },
                            ),
                        )
                    }
                },
            }
        },
    }
}

/// A result with its geometry seen as a mathematical value.
pub open spec fn geometry_view(r: Result<Option<GeometryPlan>, BufferError>) -> Result<
    Option<GeometryView>,
    BufferError,
> {
    match r {
        Ok(Some(g)) => Ok(Some(g@)),
        Ok(None) => Ok(None),
        Err(e) => Err(e),
    }
}

/// Reads a geometry.
pub fn process_geometry(geom: &Json, files: &ModelFiles) -> (r: Result<
    Option<GeometryPlan>,
    BufferError,
>)
    ensures
        geometry_view(r) == geometry_of(geom@, files.poly@, bytes_opt(files.wire)),
{
    let meta = user_data_values(geom);
    let drawn = match draw_primitives(geom, &meta, files.poly) {
        Ok(d) => d,
        Err(e) => {
            return Err(e);
        },
    };
    if drawn.indices.len() == 0 {
        return Ok(None);
    }
    let mut attributes = match read_attributes(geom, &meta, &drawn.strip, files) {
        Ok(list) => list,
        Err(e) => {
            return Err(e);
        },
    };
    let texcoord_units = match number_texcoords(&mut attributes) {
        Some(units) => units,
        None => {
            return Err(BufferError::OutOfRange);
        },
    };
    if find_plan(&attributes, "POSITION").is_none() {
        return Ok(None);
    }
    let (morph_targets, morph_errors) = read_morphs(geom, files.poly, &attributes);
    let joint_names: Vec<String> = Vec::new();
    let path: Vec<Matrix> = Vec::new();
    assert(texts(joint_names@) =~= Seq::<Seq<char>>::empty());
    let plan = GeometryPlan {
        indices: drawn.indices,
        mode: match drawn.mode {
            Some(m) => m,
            None => 4,
        },
        attributes,
        morph_targets,
        morph_errors,
        texcoord_units,
        material_name: material_name(geom),
        joint_names,
        path,
        skeleton_path: None,
        animation_target: None,
    };
    Ok(Some(plan))
}

/// Every morph target of a geometry has at least one attribute, and each of its attributes is
/// one of the geometry's, with the same shape.
pub proof fn law_morph_attributes_fit(
    target: Tree,
    bin: Seq<u8>,
    base: Seq<PlanView>,
    i: int,
)
    requires
        morph_target_of(target, bin, base) matches Ok(Some(m)) && 0 <= i < m.attributes.len(),
    ensures
        morph_target_of(target, bin, base) matches Ok(Some(m)) && m.attributes.len() > 0
            && morph_fits(base, m.attributes[i]),
{
}

/// A geometry stays the same without the primitive sets that are not drawn: those without indices,
/// those in the wireframe file, those of an unknown mode, and those of another mode than the first
/// one drawn.
pub proof fn law_idle_sets_can_go(
    geom: Tree,
    without: Tree,
    poly: Seq<u8>,
    wire: Option<Seq<u8>>,
)
    requires
        primitives_of(without) == sets_in_mode(primitives_of(geom), 0, None),
        forall|key: Seq<char>|
            key != "PrimitiveSetList"@ ==> #[trigger] get_of(Some(without), key) == get_of(
                Some(geom),
                key,
            ),
    ensures
        geometry_of(without, poly, wire) == geometry_of(geom, poly, wire),
{
    assert("UserDataContainer"@ != "PrimitiveSetList"@ && "VertexAttributeList"@
        != "PrimitiveSetList"@ && "MorphTargets"@ != "PrimitiveSetList"@ && "StateSet"@
        != "PrimitiveSetList"@) by {
        reveal_strlit("PrimitiveSetList");
        reveal_strlit("UserDataContainer");
        reveal_strlit("VertexAttributeList");
        reveal_strlit("MorphTargets");
        reveal_strlit("StateSet");
        assert("PrimitiveSetList"@.len() == 16);
        assert("UserDataContainer"@.len() == 17);
        assert("VertexAttributeList"@.len() == 19);
        assert("MorphTargets"@.len() == 12);
        assert("StateSet"@.len() == 8);
    }
    let meta = user_data_of(geom);
    law_idle_sets_change_nothing(primitives_of(geom), 0, meta, poly, nothing_drawn());
    assert(get_of(Some(without), "UserDataContainer"@) == get_of(
        Some(geom),
        "UserDataContainer"@,
    ));
    assert(get_of(Some(without), "VertexAttributeList"@) == get_of(
        Some(geom),
        "VertexAttributeList"@,
    ));
    assert(get_of(Some(without), "MorphTargets"@) == get_of(Some(geom), "MorphTargets"@));
    assert(get_of(Some(without), "StateSet"@) == get_of(Some(geom), "StateSet"@));
    assert(user_data_of(without) == meta);
    assert(geometry_drawn(without, meta, poly) == geometry_drawn(geom, meta, poly));
    assert(attribute_members(without) == attribute_members(geom));
    assert(material_of(without) == material_of(geom));
}

/// The name that an attribute of a state gives to a material.
pub open spec fn names_material(attribute: Tree) -> Option<Seq<char>> {
    match get_of(get_of(Some(attribute), "osg.Material"@), "Name"@) {
        Some(Tree::Text(name, _)) => Some(name),
        _ => None,
    }
}

/// The first material with a name counts.
proof fn lemma_first_material(list: Seq<Tree>, from: int, k: int)
    requires
        0 <= from <= k < list.len(),
        names_material(list[k]) is Some,
        forall|j: int| 0 <= j < k ==> names_material(#[trigger] list[j]) is None,
    ensures
        first_material(list, from) == names_material(list[k]),
    decreases k - from,
{
    if from < k {
        assert(names_material(list[from]) is None);
        lemma_first_material(list, from + 1, k);
    }
}

/// Without materials that have a name there is none.
proof fn lemma_no_material(list: Seq<Tree>, from: int)
    requires
        0 <= from,
        forall|j: int| 0 <= j < list.len() ==> names_material(#[trigger] list[j]) is None,
    ensures
        first_material(list, from) is None,
    decreases list.len() - from,
{
    if from < list.len() {
        assert(names_material(list[from]) is None);
        lemma_no_material(list, from + 1);
    }
}

/// A geometry's material is the first one with a name among the attributes of its state, or else
/// the one that its state is named after.
pub proof fn law_material_is_named_by_the_state(geom: Tree, state: Tree, list: Seq<Tree>, k: int)
    requires
        get_of(get_of(Some(geom), "StateSet"@), "osg.StateSet"@) == Some(state),
        get_of(Some(state), "AttributeList"@) == Some(Tree::Array(list)),
    ensures
        0 <= k < list.len() && names_material(list[k]) is Some && (forall|j: int|
            0 <= j < k ==> names_material(#[trigger] list[j]) is None) ==> material_of(geom)
            == names_material(list[k]),
        (forall|j: int| 0 <= j < list.len() ==> names_material(#[trigger] list[j]) is None) ==> (
        get_of(Some(state), "Name"@) matches Some(Tree::Text(name, _)) ==> material_of(geom)
            == Some(name)),
{
    if 0 <= k < list.len() && names_material(list[k]) is Some && (forall|j: int|
        0 <= j < k ==> names_material(#[trigger] list[j]) is None) {
        lemma_first_material(list, 0, k);
    }
    if forall|j: int| 0 <= j < list.len() ==> names_material(#[trigger] list[j]) is None {
        lemma_no_material(list, 0);
    }
}

/// A morph target is named after itself, or `morph`, and has the positions of its `Vertex` array
/// and the normals of its `Normal` array, where these fit the geometry; it needs one of them.
pub proof fn law_morph_target_has_its_arrays(
    target: Tree,
    members: Seq<(Seq<char>, Tree)>,
    bin: Seq<u8>,
    base: Seq<PlanView>,
)
    requires
        get_of(Some(target), "VertexAttributeList"@) == Some(Tree::Object(members)),
    ensures
        ({
            let attributes = Some(Tree::Object(members));
            let positions = morph_positions(
                get_of(attributes, "Vertex"@),
                user_data_of(target),
                bin,
            );
            let normals = morph_normals(
                get_of(attributes, "Normal"@),
                user_data_of(target),
                bin,
            );
            &&& morph_target_of(target, bin, base) matches Ok(Some(m)) ==> {
                &&& text_of(get_of(Some(target), "Name"@)) matches Some(n) ==> m.name == n
                &&& text_of(get_of(Some(target), "Name"@)) is None ==> m.name == "morph"@
                &&& positions matches Ok(Some(p)) ==> (morph_fits(base, p) ==> m.attributes.contains(
                    p,
                ))
                &&& normals matches Ok(Some(p)) ==> (morph_fits(base, p) ==> m.attributes.contains(
                    p,
                ))
                &&& forall|i: int|
                    0 <= i < m.attributes.len() ==> positions == Ok::<Option<PlanView>, BufferError>(
                        Some(#[trigger] m.attributes[i]),
                    ) || normals == Ok::<Option<PlanView>, BufferError>(Some(m.attributes[i]))
            }
            &&& morph_target_of(target, bin, base) matches Ok(None) ==> {
                &&& positions matches Ok(Some(p)) ==> !morph_fits(base, p)
                &&& normals matches Ok(Some(p)) ==> !morph_fits(base, p)
            }
        }),
{
    let attributes = Some(Tree::Object(members));
    let positions = morph_positions(get_of(attributes, "Vertex"@), user_data_of(target), bin);
    let normals = morph_normals(get_of(attributes, "Normal"@), user_data_of(target), bin);
    match (positions, normals) {
        (Ok(a), Ok(b)) => {
            let first = match a {
                Some(plan) => morph_with(Seq::empty(), base, plan),
                None => Seq::empty(),
            };
            let both = match b {
                Some(plan) => morph_with(first, base, plan),
                None => first,
            };
            if a is Some && morph_fits(base, a->0) {
                assert(both[0] == a->0);
            }
            if b is Some && morph_fits(base, b->0) {
                assert(both[both.len() - 1] == b->0);
            }
        },
        _ => {},
    }
}

/// The positions of a morph target are read like those of a geometry, three numbers each where
/// nothing is said, and its normals as encoded directions of three numbers.
pub proof fn law_morph_arrays_are_read(
    def: Tree,
    arrays: Seq<(Seq<char>, Tree)>,
    meta: Map<Seq<char>, Figure>,
    bin: Seq<u8>,
)
    requires
        get_of(Some(def), "Array"@) == Some(Tree::Object(arrays)),
        arrays.len() > 0,
    ensures
        morph_positions(Some(def), meta, bin) matches Ok(r) ==> (r matches Some(p) && {
            let size = p.attribute.item_size as int;
            &&& p.name == "POSITION"@
            &&& unsigned_of(get_of(Some(def), "ItemSize"@)) matches Some(n) ==> size == n
            &&& unsigned_of(get_of(Some(def), "ItemSize"@)) is None ==> size == 3
            &&& unsigned_of(get_of(Some(arrays[0].1), "Size"@)) matches Some(n)
                ==> p.attribute.count == n
            &&& buffer_array_of(bin, arrays[0].1, size, arrays[0].0) == Ok::<Components, BufferError>(
                p.attribute.data,
            )
            &&& p.attribute.component_type == 5126
            &&& p.decoding matches DecodingView::Floats { predict, range, flip } && predict is None
                && range == position_range(meta, size) && !flip
        }),
        morph_normals(Some(def), meta, bin) matches Ok(r) ==> (r matches Some(p) && {
            &&& p.name == "NORMAL"@
            &&& p.attribute.item_size == 3
            &&& unsigned_of(get_of(Some(arrays[0].1), "Size"@)) matches Some(n)
                ==> p.attribute.count == n
            &&& buffer_array_of(bin, arrays[0].1, 2, arrays[0].0) == Ok::<Components, BufferError>(
                p.attribute.data,
            )
            &&& p.decoding == resolution(meta)
        }),
{
}

/// A geometry that is read has indices and positions; it has a mode, the material of its state, and
/// the attributes and morph targets that its lists give.
pub proof fn law_geometry_has_what_it_needs(geom: Tree, poly: Seq<u8>, wire: Option<Seq<u8>>)
    ensures
        geometry_of(geom, poly, wire) matches Ok(Some(g)) ==> {
            &&& g.indices.len() > 0
            &&& plan_index(g.attributes, "POSITION"@, 0) is Some
            &&& g.material_name == material_of(geom)
            &&& g.joint_names.len() == 0
            &&& geometry_drawn(geom, user_data_of(geom), poly) matches Ok(drawn) && g.indices
                == drawn.indices && (drawn.mode matches Some(m) ==> g.mode == m) && (
            attributes_of(geom, user_data_of(geom), drawn.strip, poly, wire) matches Ok(list)
                && g.attributes == all_renamed(list) && g.texcoord_units == units_of(list))
        },
        geometry_drawn(geom, user_data_of(geom), poly) matches Ok(drawn) ==> (drawn.indices.len() == 0
            ==> geometry_of(geom, poly, wire) == Ok::<Option<GeometryView>, BufferError>(None)),
{
}

/// What was found stays.
proof fn lemma_morphs_grow(
    list: Seq<Tree>,
    from: int,
    bin: Seq<u8>,
    base: Seq<PlanView>,
    found: Seq<MorphView>,
    errors: Seq<BufferError>,
    m: MorphView,
    k: int,
)
    requires
        0 <= from,
    ensures
        found.contains(m) ==> morphs_from(list, from, bin, base, found, errors).0.contains(m),
        from <= k < list.len() && (list[k] matches Tree::Object(members) && members.len() > 0
            && morph_target_of(members[0].1, bin, base) == Ok::<Option<MorphView>, BufferError>(
            Some(m),
        )) ==> morphs_from(list, from, bin, base, found, errors).0.contains(m),
    decreases list.len() - from,
{
    if from < list.len() {
        match first_key_value_of(Some(list[from])) {
            None => {
                lemma_morphs_grow(list, from + 1, bin, base, found, errors, m, k);
            },
            Some((_, target)) => match morph_target_of(target, bin, base) {
                Ok(Some(x)) => {
                    let next = found.push(x);
                    assert(next[found.len() as int] == x);
                    if found.contains(m) {
                        let i = choose|i: int| 0 <= i < found.len() && found[i] == m;
                        assert(next[i] == m);
                    }
                    lemma_morphs_grow(list, from + 1, bin, base, next, errors, m, k);
                },
                Ok(None) => {
                    lemma_morphs_grow(list, from + 1, bin, base, found, errors, m, k);
                },
                Err(e) => {
                    lemma_morphs_grow(list, from + 1, bin, base, found, errors.push(e), m, k);
                },
            },
        }
    }
}

/// A geometry has every morph target of its list that can be read and fits.
pub proof fn law_geometry_has_its_morph_targets(
    geom: Tree,
    poly: Seq<u8>,
    wire: Option<Seq<u8>>,
    list: Seq<Tree>,
    k: int,
    members: Seq<(Seq<char>, Tree)>,
    m: MorphView,
)
    requires
        get_of(Some(geom), "MorphTargets"@) == Some(Tree::Array(list)),
        0 <= k < list.len(),
        list[k] == Tree::Object(members),
        members.len() > 0,
    ensures
        geometry_of(geom, poly, wire) matches Ok(Some(g)) ==> (morph_target_of(
            members[0].1,
            poly,
            g.attributes,
        ) == Ok::<Option<MorphView>, BufferError>(Some(m)) ==> g.morph_targets.contains(m)),
{
    match geometry_of(geom, poly, wire) {
        Ok(Some(g)) => {
            lemma_morphs_grow(
                list,
                0,
                poly,
                g.attributes,
                Seq::empty(),
                Seq::empty(),
                m,
                k,
            );
        },
        _ => {},
    }
}

} // verus!
