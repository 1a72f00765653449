//! Finding the geometries of a scene, with what places and animates them.

use crate::attributes::{
    bytes_opt, find_plan, own, plan_index, put_plan, size_of, size_or, with_plan, AttributePlan,
    Decoding, DecodingView, ModelFiles, PlanView,
};
use crate::buffers::{
    all_low16, buffer_array_of, lows16, read_buffer_array, AttrData, BufferError, Components,
};
use crate::float_bits::{is_zero, is_zero_of};
use crate::geometry::{
    geometry_of, path_opt, process_geometry, text_opt, GeometryPlan, GeometryView,
};
use crate::gltf::{lemma_views_push, starts, views, Attribute, AttributeView, Matrix};
use crate::json::{
    array, first_key_value, first_key_value_of, get, get_of, items_of, items_under,
    lemma_get_descends, lemma_get_item_descends, member_trees, object, object_of, text, text_of,
    tree_of, trees, unsigned, unsigned_of, Json, Tree,
};
use crate::scene::{
    child_path, lemma_to_matrix, path_below, path_copy, resolved_scene, scene_coordinate_matrix,
    scene_matrix_of, scene_of, to_matrix, unique_id,
};
use crate::text::texts;
use std::collections::HashSet;
use vstd::prelude::*;

verus! {

broadcast use vstd::std_specs::hash::group_hash_axioms;

/// Whether component `i` is zero.
pub open spec fn zero_at(c: Components, i: int) -> bool {
    match c {
        Components::F32(v) => is_zero_of(v[i]),
        _ => c.integer(i) == 0,
    }
}

/// Joints with those of no weight set to zero.
pub open spec fn without_idle(joints: Seq<u16>, weights: Components) -> Seq<u16> {
    Seq::new(
        joints.len(),
        |i: int|
            if i < weights.len() && zero_at(weights, i) {
                0
            } else {
                joints[i]
            },
    )
}

/// Sets the joints of no weight to zero.
fn drop_idle(joints: &Vec<u16>, weights: &AttrData) -> (r: Vec<u16>)
    ensures
        r@ == without_idle(joints@, weights@),
{
    let mut out: Vec<u16> = Vec::new();
    let n: usize = weights.len();
    let mut i: usize = 0;
    while i < joints.len()
        invariant
            i <= joints@.len(),
            n == weights@.len(),
            out@ == without_idle(joints@, weights@).take(i as int),
        decreases joints@.len() - i,
    {
        let idle = i < n && match weights {
            AttrData::F32(v) => is_zero(v[i]),
            _ => weights.integer(i) == 0,
        };
        out.push(
            if idle {
                0
            } else {
                joints[i]
            },
        );
        i += 1;
        assert(out@ =~= without_idle(joints@, weights@).take(i as int));
    }
    assert(out@ =~= without_idle(joints@, weights@));
    out
}

/// The stored array of a rig's attribute: components, components per vertex, and vertices.
pub open spec fn rig_array(def: Option<Tree>, bin: Seq<u8>) -> Result<
    Option<(Components, int, int)>,
    BufferError,
> {
    match first_key_value_of(get_of(def, "Array"@)) {
        None => Ok(None),
        Some((array_type, array_def)) => {
            let item_size = size_of(unsigned_of(get_of(def, "ItemSize"@)), 4);
            let count = size_of(unsigned_of(get_of(Some(array_def), "Size"@)), 0);
            if item_size > usize::MAX || count > usize::MAX {
                Err(BufferError::OutOfRange)
            } else {
                match buffer_array_of(bin, array_def, item_size, array_type) {
                    Err(e) => Err(e),
                    Ok(data) => Ok(Some((data, item_size, count))),
                }
            }
        },
    }
}

/// The plan for the joints that move each vertex.
pub open spec fn joints_plan(data: Components, item_size: int, count: int) -> PlanView {
    PlanView {
        name: "JOINTS_0"@,
        attribute: AttributeView {
            data: Components::U16(lows16(data.integers())),
            item_size: item_size as usize,
            count: count as usize,
            component_type: 5123,
            normalized: false,
        },
        decoding: DecodingView::Keep,
    }
}

/// The plan for the weights of these joints.
pub open spec fn weights_plan(data: Components, item_size: int, count: int) -> PlanView {
    PlanView {
        name: "WEIGHTS_0"@,
        attribute: AttributeView {
            data,
            item_size: item_size as usize,
            count: count as usize,
            component_type: 5126,
            normalized: false,
        },
        decoding: DecodingView::Floats { predict: None, range: None, flip: false },
    }
}

/// The attributes in which joints of no weight are zero.
pub open spec fn idle_dropped(list: Seq<PlanView>) -> Seq<PlanView> {
    match (plan_index(list, "WEIGHTS_0"@, 0), plan_index(list, "JOINTS_0"@, 0)) {
        (Some(w), Some(j)) => match list[j].attribute.data {
            Components::U16(joints) => list.update(
                j,
                PlanView {
                    attribute: AttributeView {
                        data: Components::U16(without_idle(joints, list[w].attribute.data)),
                        ..list[j].attribute
                    },
                    ..list[j]
                },
            ),
            _ => list,
        },
        _ => list,
    }
}

/// The greatest number among the first `n` members, zero if there is none.
pub open spec fn greatest_index(members: Seq<(Seq<char>, Tree)>, n: int) -> u64
    decreases n,
{
    if n <= 0 {
        0
    } else {
        let before = greatest_index(members, n - 1);
        match unsigned_of(Some(members[n - 1].1)) {
            Some(i) => if i > before {
                i
            } else {
                before
            },
            None => before,
        }
    }
}

/// The joint names after the first `n` members: each name at its number.
pub open spec fn joints_named(
    members: Seq<(Seq<char>, Tree)>,
    n: int,
    blank: Seq<Seq<char>>,
) -> Seq<Seq<char>>
    decreases n,
{
    if n <= 0 {
        blank
    } else {
        let before = joints_named(members, n - 1, blank);
        match unsigned_of(Some(members[n - 1].1)) {
            Some(i) => if i < before.len() {
                before.update(i as int, members[n - 1].0)
            } else {
                before
            },
            None => before,
        }
    }
}

/// The joint names of a rig: as many as the greatest number asks for, empty where no name has the
/// number.
pub open spec fn joint_names_of(members: Seq<(Seq<char>, Tree)>) -> Seq<Seq<char>> {
    let n = members.len() as int;
    joints_named(
        members,
        n,
        Seq::new(
            (greatest_index(members, n) + 1) as nat,
            |i: int| Seq::empty(),
        ),
    )
}

/// The geometry with a rig's joints, weights and joint names.
pub open spec fn rigged(g: GeometryView, rig: Tree, bin: Seq<u8>) -> Result<
    GeometryView,
    BufferError,
> {
    let attributes = get_of(Some(rig), "VertexAttributeList"@);
    if object_of(attributes) is None {
        Ok(g)
    } else {
        match rig_array(get_of(attributes, "Bones"@), bin) {
            Err(e) => Err(e),
            Ok(bones) => {
                let first = match bones {
                    Some((data, size, count)) => with_plan(
                        g.attributes,
                        joints_plan(data, size, count),
                    ),
                    None => g.attributes,
                };
                match rig_array(get_of(attributes, "Weights"@), bin) {
                    Err(e) => Err(e),
                    Ok(weights) => {
                        let second = match weights {
                            Some((data, size, count)) => with_plan(
                                first,
                                weights_plan(data, size, count),
                            ),
                            None => first,
                        };
                        let done = GeometryView { attributes: idle_dropped(second), ..g };
                        match object_of(get_of(Some(rig), "BoneMap"@)) {
                            None => Ok(done),
                            Some(members) => if greatest_index(members, members.len() as int)
                                >= usize::MAX {
                                Err(BufferError::OutOfRange)
                            } else {
                                Ok(GeometryView { joint_names: joint_names_of(members), ..done })
                            },
                        }
                    },
                }
            },
        }
    }
}

/// Reads the stored array of a rig's attribute.
fn read_rig_array(def: Option<&Json>, bin: &[u8]) -> (r: Result<
    Option<(AttrData, usize, usize)>,
    BufferError,
>)
    ensures
        match r {
            Ok(Some((data, size, count))) => rig_array(tree_of(def), bin@) == Ok::<
                Option<(Components, int, int)>,
                BufferError,
            >(Some((data@, size as int, count as int))),
            Ok(None) => rig_array(tree_of(def), bin@) == Ok::<
                Option<(Components, int, int)>,
                BufferError,
            >(None),
            Err(e) => rig_array(tree_of(def), bin@) == Err::<
                Option<(Components, int, int)>,
                BufferError,
            >(e),
        },
{
    let (array_type, array_def) = match first_key_value(get(def, "Array")) {
        Some(pair) => pair,
        None => {
            return Ok(None);
        },
    };
    let item_size: usize = match size_or(unsigned(get(def, "ItemSize")), 4) {
        Some(n) => n,
        None => {
            return Err(BufferError::OutOfRange);
        },
    };
    let count: usize = match size_or(unsigned(get(Some(array_def), "Size")), 0) {
        Some(n) => n,
        None => {
            return Err(BufferError::OutOfRange);
        },
    };
    match read_buffer_array(bin, array_def, item_size, array_type.as_str()) {
        Ok(data) => Ok(Some((data, item_size, count))),
        Err(e) => Err(e),
    }
}

/// Sets the joints of no weight to zero, among a geometry's attributes.
fn drop_idle_joints(list: &mut Vec<AttributePlan>)
    ensures
        views(final(list)@) == idle_dropped(views(old(list)@)),
{
    let ghost start = list@;
    let w: usize = match find_plan(list, "WEIGHTS_0") {
        Some(i) => i,
        None => {
            return;
        },
    };
    let j: usize = match find_plan(list, "JOINTS_0") {
        Some(i) => i,
        None => {
            return;
        },
    };
    let kept = match &list[j].attribute.data {
        AttrData::U16(joints) => drop_idle(joints, &list[w].attribute.data),
        _ => {
            return;
        },
    };
    assert(views(start)[j as int] == start[j as int]@);
    assert(views(start)[w as int] == start[w as int]@);
    list[j].attribute.data = AttrData::U16(kept);
    assert(views(list@) =~= idle_dropped(views(start)));
}

/// Reads the joint names of a rig, nothing if they are too many.
fn read_joint_names(members: &Vec<(String, Json)>) -> (r: Option<Vec<String>>)
    ensures
        match r {
            Some(names) => texts(names@) == joint_names_of(member_trees(members@))
                && greatest_index(member_trees(members@), members@.len() as int) < usize::MAX,
            None => greatest_index(member_trees(members@), members@.len() as int) >= usize::MAX,
        },
{
    let ghost list = member_trees(members@);
    let mut greatest: u64 = 0;
    let mut i: usize = 0;
    while i < members.len()
        invariant
            i <= members@.len(),
            list == member_trees(members@),
            greatest == greatest_index(list, i as int),
        decreases members@.len() - i,
    {
        assert(list[i as int].1 == members@[i as int].1@);
        match unsigned(Some(&members[i].1)) {
            Some(n) => {
                if n > greatest {
                    greatest = n;
                }
            },
            None => {},
        }
        i += 1;
    }
    if greatest >= usize::MAX as u64 {
        return None;
    }
    let total: usize = greatest as usize + 1;
    let mut names: Vec<String> = Vec::new();
    while names.len() < total
        invariant
            names@.len() <= total,
            forall|k: int| 0 <= k < names@.len() ==> (#[trigger] names@[k])@.len() == 0,
        decreases total - names@.len(),
    {
        names.push(String::new());
    }
    let ghost blank = Seq::new(total as nat, |i: int| Seq::<char>::empty());
    assert(texts(names@) =~= blank) by {
        assert forall|k: int| 0 <= k < total implies texts(names@)[k] == blank[k] by {
            assert(names@[k]@ =~= Seq::<char>::empty());
        }
    }
    let mut j: usize = 0;
    while j < members.len()
        invariant
            j <= members@.len(),
            list == member_trees(members@),
            blank.len() == total == names@.len(),
            texts(names@) == joints_named(list, j as int, blank),
        decreases members@.len() - j,
    {
        assert(list[j as int] == (members@[j as int].0@, members@[j as int].1@));
        let ghost before = names@;
        match unsigned(Some(&members[j].1)) {
            Some(n) => {
                if n < total as u64 {
                    names.set(n as usize, members[j].0.clone());
                    assert(texts(names@) =~= texts(before).update(n as int, members@[j as int].0@));
                }
            },
            None => {},
        }
        j += 1;
    }
    assert(blank =~= Seq::new(
        (greatest_index(list, list.len() as int) + 1) as nat,
        |i: int| Seq::<char>::empty(),
    ));
    Some(names)
}

/// Adds a rig's joints, weights and joint names to a geometry.
pub fn add_rig_attributes(geometry: &mut GeometryPlan, rig: &Json, poly_bin: &[u8]) -> (r: Result<
    (),
    BufferError,
>)
    ensures
        match r {
            Ok(_) => rigged(old(geometry)@, rig@, poly_bin@) == Ok::<GeometryView, BufferError>(
                final(geometry)@,
            ),
            Err(e) => rigged(old(geometry)@, rig@, poly_bin@) == Err::<GeometryView, BufferError>(
                e,
            ),
        },
{
    let attributes = get(Some(rig), "VertexAttributeList");
    if object(attributes).is_none() {
        return Ok(());
    }
    match read_rig_array(get(attributes, "Bones"), poly_bin) {
        Ok(Some((data, item_size, count))) => {
            let joints = all_low16(data.as_i64_vec().as_slice());
            let plan = AttributePlan {
                name: own("JOINTS_0"),
                attribute: Attribute {
                    data: AttrData::U16(joints),
                    item_size,
                    count,
                    component_type: 5123,
                    normalized: false,
                },
                decoding: Decoding::Keep,
            };
            put_plan(&mut geometry.attributes, plan);
        },
        Ok(None) => {},
        Err(e) => {
            return Err(e);
        },
    }
    match read_rig_array(get(attributes, "Weights"), poly_bin) {
        Ok(Some((data, item_size, count))) => {
            let plan = AttributePlan {
                name: own("WEIGHTS_0"),
                attribute: Attribute {
                    data,
                    item_size,
                    count,
                    component_type: 5126,
                    normalized: false,
                },
                decoding: Decoding::Floats { predict: None, range: None, flip: false },
            };
            put_plan(&mut geometry.attributes, plan);
        },
        Ok(None) => {},
        Err(e) => {
            return Err(e);
        },
    }
    drop_idle_joints(&mut geometry.attributes);
    match object(get(Some(rig), "BoneMap")) {
        Some(members) => match read_joint_names(members) {
            Some(names) => {
                geometry.joint_names = names;
            },
            None => {
                return Err(BufferError::OutOfRange);
            },
        },
        None => {},
    }
    Ok(())
}

/// A vertex is never moved by a joint of no weight other than the first, and every joint with a
/// weight is kept.
pub proof fn law_idle_joints_are_zero(joints: Seq<u16>, weights: Components, i: int)
    requires
        0 <= i < joints.len(),
    ensures
        without_idle(joints, weights).len() == joints.len(),
        i < weights.len() && zero_at(weights, i) ==> without_idle(joints, weights)[i] == 0,
        i >= weights.len() || !zero_at(weights, i) ==> without_idle(joints, weights)[i]
            == joints[i],
{
}

/// A geometry that was left out.
#[derive(Clone, Copy, Debug, PartialEq, Eq, Structural)]
pub struct Skipped {
    /// Whether it belongs to a rig.
    pub rigged: bool,
    /// Why it was left out.
    pub error: BufferError,
}

/// What is found in a scene.
#[derive(Debug)]
pub struct Found {
    pub geometries: Vec<GeometryPlan>,
    pub skipped: Vec<Skipped>,
    /// The numbers of the geometries that were met.
    pub seen: HashSet<u64>,
}

/// The mathematical counterpart of [`Found`].
#[verifier::ext_equal]
pub ghost struct FoundView {
    pub geometries: Seq<GeometryView>,
    pub skipped: Seq<Skipped>,
    pub seen: Set<u64>,
}

impl View for Found {
    type V = FoundView;

    open spec fn view(&self) -> FoundView {
        FoundView {
            geometries: views(self.geometries@),
            skipped: self.skipped@,
            seen: self.seen@,
        }
    }
}

/// Where in the scene a value stands.
#[derive(Debug)]
pub struct Place {
    pub path: Vec<Matrix>,
    pub skeleton: Option<Vec<Matrix>>,
    pub target: Option<String>,
}

/// The mathematical counterpart of [`Place`].
#[verifier::ext_equal]
pub ghost struct PlaceView {
    pub path: Seq<Matrix>,
    pub skeleton: Option<Seq<Matrix>>,
    pub target: Option<Seq<char>>,
}

impl View for Place {
    type V = PlaceView;

    open spec fn view(&self) -> PlaceView {
        PlaceView {
            path: self.path@,
            skeleton: path_opt(self.skeleton),
            target: text_opt(self.target),
        }
    }
}

/// The name in the first of a list of callbacks that animates a transform.
pub open spec fn first_target(list: Seq<Tree>, from: int) -> Option<Seq<char>>
    decreases list.len() - from,
{
    if from < 0 || from >= list.len() {
        None
    } else {
        match text_of(
            get_of(get_of(Some(list[from]), "osgAnimation.UpdateMatrixTransform"@), "Name"@),
        ) {
            Some(name) => Some(name),
            None => first_target(list, from + 1),
        }
    }
}

/// Where the children of a value stand: below a transform there is one more matrix, and perhaps
/// another name; below a skeleton the skeleton's place is noted.
pub open spec fn place_below(t: Tree, place: PlaceView) -> PlaceView {
    match get_of(Some(t), "osg.MatrixTransform"@) {
        Some(transform) => PlaceView {
            path: path_below(transform, place.path),
            target: match first_target(items_of(get_of(Some(transform), "UpdateCallbacks"@)), 0) {
                Some(name) => Some(name),
                None => place.target,
            },
            ..place
        },
        None => match get_of(Some(t), "osgAnimation.Skeleton"@) {
            Some(_) => PlaceView { skeleton: Some(place.path), ..place },
            None => place,
        },
    }
}

/// The children of a value.
pub open spec fn branches(t: Tree) -> Seq<Tree> {
    match get_of(Some(t), "osg.MatrixTransform"@) {
        Some(transform) => items_of(get_of(Some(transform), "Children"@)),
        None => match get_of(Some(t), "osgAnimation.Skeleton"@) {
            Some(skeleton) => items_of(get_of(Some(skeleton), "Children"@)),
            None => match get_of(Some(t), "osgAnimation.RigGeometry"@) {
                Some(_) => Seq::empty(),
                None => items_of(get_of(get_of(Some(t), "osg.Node"@), "Children"@)) + items_of(
                    get_of(Some(t), "Children"@),
                ),
            },
        },
    }
}

/// The children of a value stand below it.
pub proof fn lemma_branch_descends(t: Tree, i: int)
    requires
        0 <= i < branches(t).len(),
    ensures
        decreases_to!(t => branches(t)[i]),
{
    match get_of(Some(t), "osg.MatrixTransform"@) {
        Some(transform) => {
            lemma_get_descends(t, "osg.MatrixTransform"@);
            lemma_get_item_descends(transform, "Children"@, i);
        },
        None => match get_of(Some(t), "osgAnimation.Skeleton"@) {
            Some(skeleton) => {
                lemma_get_descends(t, "osgAnimation.Skeleton"@);
                lemma_get_item_descends(skeleton, "Children"@, i);
            },
            None => {
                let first = items_of(get_of(get_of(Some(t), "osg.Node"@), "Children"@));
                if i < first.len() {
                    lemma_get_descends(t, "osg.Node"@);
                    lemma_get_item_descends(get_of(Some(t), "osg.Node"@)->0, "Children"@, i);
                } else {
                    lemma_get_item_descends(t, "Children"@, i - first.len());
                }
            },
        },
    }
}

/// Whether a number was met before.
pub open spec fn met(id: Option<u64>, seen: Set<u64>) -> bool {
    id is Some && seen.contains(id->0)
}

/// The numbers met after one more.
pub open spec fn meeting(id: Option<u64>, seen: Set<u64>) -> Set<u64> {
    match id {
        Some(i) => seen.insert(i),
        None => seen,
    }
}

/// The geometry that a rig moves.
pub open spec fn rig_source(rig: Tree) -> Option<Tree> {
    let source = get_of(Some(rig), "SourceGeometry"@);
    match get_of(source, "osg.Geometry"@) {
        Some(g) => Some(g),
        None => get_of(source, "osgAnimation.MorphGeometry"@),
    }
}

/// What is found after a rig. Only the rig's own arrays can stop the search.
pub open spec fn rig_found(
    rig: Tree,
    place: PlaceView,
    poly: Seq<u8>,
    wire: Option<Seq<u8>>,
    found: FoundView,
) -> Result<FoundView, BufferError> {
    match rig_source(rig) {
        None => Ok(found),
        Some(source) => {
            let id = unique_id(source);
            let now = FoundView { seen: meeting(id, found.seen), ..found };
            if met(id, found.seen) {
                Ok(found)
            } else {
                match geometry_of(source, poly, wire) {
                    Ok(Some(g)) => match rigged(g, rig, poly) {
                        Err(e) => Err(e),
                        Ok(moved) => Ok(
                            FoundView {
                                geometries: now.geometries.push(
                                    GeometryView {
                                        path: place.path,
                                        skeleton_path: place.skeleton,
                                        animation_target: place.target,
                                        ..moved
                                    },
                                ),
                                ..now
                            },
                        ),
                    },
                    Ok(None) => Ok(now),
                    Err(error) => Ok(
                        FoundView {
                            skipped: now.skipped.push(Skipped { rigged: true, error }),
                            ..now
                        },
                    ),
                }
            }
        },
    }
}

/// What is found after a geometry that was not met before.
pub open spec fn geometry_found(
    geom: Tree,
    place: PlaceView,
    poly: Seq<u8>,
    wire: Option<Seq<u8>>,
    found: FoundView,
) -> FoundView {
    let now = FoundView { seen: meeting(unique_id(geom), found.seen), ..found };
    match geometry_of(geom, poly, wire) {
        Ok(Some(g)) => FoundView {
            geometries: now.geometries.push(
                GeometryView { path: place.path, animation_target: place.target, ..g },
            ),
            ..now
        },
        Ok(None) => now,
        Err(error) => FoundView {
            skipped: now.skipped.push(Skipped { rigged: false, error }),
            ..now
        },
    }
}

/// Whether a value is neither a transform nor a skeleton, so that it can be a geometry.
pub open spec fn is_leaf(t: Tree) -> bool {
    get_of(Some(t), "osg.MatrixTransform"@) is None && get_of(
        Some(t),
        "osgAnimation.Skeleton"@,
    ) is None
}

/// What is found in a value and below it. A geometry that was met before ends the search below
/// it.
pub open spec fn traversed(
    t: Tree,
    place: PlaceView,
    poly: Seq<u8>,
    wire: Option<Seq<u8>>,
    found: FoundView,
) -> Result<FoundView, BufferError>
    decreases t, branches(t).len() + 1,
{
    let rig = get_of(Some(t), "osgAnimation.RigGeometry"@);
    let geom = get_of(Some(t), "osg.Geometry"@);
    if is_leaf(t) && rig is Some {
        rig_found(rig->0, place, poly, wire, found)
    } else if is_leaf(t) && geom is Some && met(unique_id(geom->0), found.seen) {
        Ok(found)
    } else if is_leaf(t) && geom is Some {
        traversed_below(
            t,
            0,
            place,
            poly,
            wire,
            geometry_found(geom->0, place, poly, wire, found),
        )
    } else {
        traversed_below(t, 0, place_below(t, place), poly, wire, found)
    }
}

/// What is found in the children of a value from `from` on.
pub open spec fn traversed_below(
    t: Tree,
    from: nat,
    place: PlaceView,
    poly: Seq<u8>,
    wire: Option<Seq<u8>>,
    found: FoundView,
) -> Result<FoundView, BufferError>
    decreases t, branches(t).len() - from,
{
    if from >= branches(t).len() {
        Ok(found)
    } else {
        proof {
            lemma_branch_descends(t, from as int);
        }
        match traversed(branches(t)[from as int], place, poly, wire, found) {
            Err(e) => Err(e),
            Ok(next) => traversed_below(t, from + 1, place, poly, wire, next),
        }
    }
}

/// The name in the first of a list of callbacks that animates a transform.
fn find_target(transform: &Json) -> (r: Option<String>)
    ensures
        text_opt(r) == first_target(
            items_of(get_of(Some(transform@), "UpdateCallbacks"@)),
            0,
        ),
{
    match array(get(Some(transform), "UpdateCallbacks")) {
        Some(items) => {
            let ghost list = trees(items@);
            let mut i: usize = 0;
            while i < items.len()
                invariant
                    i <= items@.len(),
                    list == trees(items@),
                    list == items_of(get_of(Some(transform@), "UpdateCallbacks"@)),
                    first_target(list, 0) == first_target(list, i as int),
                decreases items@.len() - i,
            {
                assert(list[i as int] == items@[i as int]@);
                match text(
                    get(get(Some(&items[i]), "osgAnimation.UpdateMatrixTransform"), "Name"),
                ) {
                    Some(name) => {
                        return Some(name.clone());
                    },
                    None => {},
                }
                i += 1;
            }
            None
        },
        None => None,
    }
}

/// The same optional text again.
pub fn copy_text(v: &Option<String>) -> (r: Option<String>)
    ensures
        text_opt(r) == text_opt(*v),
{
    match v {
        Some(s) => Some(s.clone()),
        None => None,
    }
}

/// The same optional list of matrices again.
fn copy_path(v: &Option<Vec<Matrix>>) -> (r: Option<Vec<Matrix>>)
    ensures
        path_opt(r) == path_opt(*v),
{
    match v {
        Some(p) => Some(path_copy(p)),
        None => None,
    }
}

/// Notes a number. Returns whether it was met before.
fn meet(seen: &mut HashSet<u64>, id: Option<u64>) -> (r: bool)
    ensures
        r == met(id, old(seen)@),
        final(seen)@ == if r {
            old(seen)@
        } else {
            meeting(id, old(seen)@)
        },
{
    match id {
        Some(i) => {
            if seen.contains(&i) {
                return true;
            }
            seen.insert(i);
            false
        },
        None => false,
    }
}

/// Adds a rig's geometry.
fn add_rig(rig: &Json, files: &ModelFiles, place: &Place, found: &mut Found) -> (r: Result<
    (),
    BufferError,
>)
    ensures
        match r {
            Ok(_) => rig_found(rig@, place@, files.poly@, bytes_opt(files.wire), old(found)@)
                == Ok::<FoundView, BufferError>(final(found)@),
            Err(e) => rig_found(rig@, place@, files.poly@, bytes_opt(files.wire), old(found)@)
                == Err::<FoundView, BufferError>(e),
        },
{
    let origin = get(Some(rig), "SourceGeometry");
    let source = match get(origin, "osg.Geometry") {
        Some(g) => g,
        None => match get(origin, "osgAnimation.MorphGeometry") {
            Some(g) => g,
            None => {
                return Ok(());
            },
        },
    };
    if meet(&mut found.seen, unsigned(get(Some(source), "UniqueID"))) {
        return Ok(());
    }
    match process_geometry(source, files) {
        Ok(Some(plan)) => {
            let mut geometry = plan;
            match add_rig_attributes(&mut geometry, rig, files.poly) {
                Ok(_) => {},
                Err(e) => {
                    return Err(e);
                },
            }
            geometry.path = path_copy(&place.path);
            geometry.skeleton_path = copy_path(&place.skeleton);
            geometry.animation_target = copy_text(&place.target);
            proof {
                lemma_views_push(found.geometries@, geometry);
            }
            found.geometries.push(geometry);
        },
        Ok(None) => {},
        Err(error) => {
            found.skipped.push(Skipped { rigged: true, error });
        },
    }
    Ok(())
}

/// Adds a geometry that was not met before.
fn add_geometry(geom: &Json, files: &ModelFiles, place: &Place, found: &mut Found)
    requires
        old(found)@.seen == meeting(unique_id(geom@), old(found)@.seen),
    ensures
        final(found)@ == geometry_found(
            geom@,
            place@,
            files.poly@,
            bytes_opt(files.wire),
            old(found)@,
        ),
{
    match process_geometry(geom, files) {
        Ok(Some(plan)) => {
            let mut geometry = plan;
            geometry.path = path_copy(&place.path);
            geometry.animation_target = copy_text(&place.target);
            assert(geometry@ =~= (GeometryView {
                path: place@.path,
                animation_target: place@.target,
                ..plan@
            }));
            proof {
                lemma_views_push(found.geometries@, geometry);
            }
            found.geometries.push(geometry);
        },
        Ok(None) => {},
        Err(error) => {
            found.skipped.push(Skipped { rigged: false, error });
        },
    }
}

/// Searches a value and what is below it for geometries.
#[verifier::rlimit(40)]
pub fn traverse_geometries(
    v: &Json,
    files: &ModelFiles,
    place: &Place,
    found: &mut Found,
) -> (r: Result<(), BufferError>)
    ensures
        match r {
            Ok(_) => traversed(v@, place@, files.poly@, bytes_opt(files.wire), old(found)@)
                == Ok::<FoundView, BufferError>(final(found)@),
            Err(e) => traversed(v@, place@, files.poly@, bytes_opt(files.wire), old(found)@)
                == Err::<FoundView, BufferError>(e),
        },
    decreases v, 1nat,
{
    match get(Some(v), "osg.MatrixTransform") {
        Some(transform) => {
            let target = match find_target(transform) {
                Some(name) => Some(name),
                None => copy_text(&place.target),
            };
            let below = Place {
                path: child_path(transform, &place.path),
                skeleton: copy_path(&place.skeleton),
                target,
            };
            assert(below@ =~= place_below(v@, place@));
            return search(v, transform, 0, files, &below, found);
        },
        None => {},
    }
    match get(Some(v), "osgAnimation.Skeleton") {
        Some(skeleton) => {
            let below = Place {
                path: path_copy(&place.path),
                skeleton: Some(path_copy(&place.path)),
                target: copy_text(&place.target),
            };
            assert(below@ =~= place_below(v@, place@));
            return search(v, skeleton, 0, files, &below, found);
        },
        None => {},
    }
    match get(Some(v), "osgAnimation.RigGeometry") {
        Some(rig) => {
            return add_rig(rig, files, place, found);
        },
        None => {},
    }
    match get(Some(v), "osg.Geometry") {
        Some(geom) => {
            if meet(&mut found.seen, unsigned(get(Some(geom), "UniqueID"))) {
                return Ok(());
            }
            let ghost noted = found@;
            proof {
                assert(noted.seen =~= meeting(unique_id(geom@), noted.seen));
            }
            add_geometry(geom, files, place, found);
            assert(found@ =~= geometry_found(
                geom@,
                place@,
                files.poly@,
                bytes_opt(files.wire),
                old(found)@,
            ));
        },
        None => {},
    }
    assert(place_below(v@, place@) == place@);
    let mut done: usize = 0;
    match get(Some(v), "osg.Node") {
        Some(node) => {
            match search(v, node, 0, files, place, found) {
                Ok(_) => {},
                Err(e) => {
                    return Err(e);
                },
            }
            done = match array(get(Some(node), "Children")) {
                Some(items) => items.len(),
                None => 0,
            };
        },
        None => {},
    }
    search(v, v, done, files, place, found)
}

/// Searches the children under `holder`, which are the children of `v` from `from` on.
#[verifier::rlimit(40)]
fn search(
    v: &Json,
    holder: &Json,
    from: usize,
    files: &ModelFiles,
    place: &Place,
    found: &mut Found,
) -> (r: Result<(), BufferError>)
    requires
        holder == v || decreases_to!(*v => *holder),
        from + items_of(get_of(Some(holder@), "Children"@)).len() <= branches(v@).len(),
        forall|k: int|
            0 <= k < items_of(get_of(Some(holder@), "Children"@)).len()
                ==> #[trigger] items_of(get_of(Some(holder@), "Children"@))[k] == branches(v@)[from
                + k],
    ensures
        ({
            let goal = traversed_below(
                v@,
                from as nat,
                place@,
                files.poly@,
                bytes_opt(files.wire),
                old(found)@,
            );
            match r {
                Ok(_) => goal == traversed_below(
                    v@,
                    (from + items_of(get_of(Some(holder@), "Children"@)).len()) as nat,
                    place@,
                    files.poly@,
                    bytes_opt(files.wire),
                    final(found)@,
                ),
                Err(e) => goal == Err::<FoundView, BufferError>(e),
            }
        }),
    decreases v, 0nat,
{
    let ghost goal = traversed_below(
        v@,
        from as nat,
        place@,
        files.poly@,
        bytes_opt(files.wire),
        found@,
    );
    match items_under(holder, "Children") {
        Some(items) => {
            let ghost list = trees(items@);
            let mut i: usize = 0;
            while i < items.len()
                invariant
                    i <= items@.len(),
                    list == trees(items@),
                    list == items_of(get_of(Some(holder@), "Children"@)),
                    from + list.len() <= branches(v@).len(),
                    forall|k: int|
                        0 <= k < list.len() ==> #[trigger] list[k] == branches(v@)[from + k],
                    holder == v || decreases_to!(*v => *holder),
                    forall|k: int|
                        #![trigger items@[k]]
                        0 <= k < items@.len() ==> decreases_to!(*holder => items@[k]),
                    goal == traversed_below(
                        v@,
                        from as nat,
                        place@,
                        files.poly@,
                        bytes_opt(files.wire),
                        old(found)@,
                    ),
                    goal == traversed_below(
                        v@,
                        (from + i) as nat,
                        place@,
                        files.poly@,
                        bytes_opt(files.wire),
                        found@,
                    ),
                decreases items@.len() - i,
            {
                let child = &items[i];
                assert(list[i as int] == child@);
                assert(branches(v@)[from + i] == child@);
                match traverse_geometries(child, files, place, found) {
                    Ok(_) => {},
                    Err(e) => {
                        return Err(e);
                    },
                }
                i += 1;
            }
        },
        None => {},
    }
    Ok(())
}

/// Whether `after` is what a search from a place adds to: nothing found before is lost or changed,
/// and new geometries are placed below the place.
pub open spec fn search_adds(before: FoundView, after: FoundView, place: PlaceView) -> bool {
    &&& starts(before.geometries, after.geometries)
    &&& starts(before.skipped, after.skipped)
    &&& before.seen.subset_of(after.seen)
    &&& forall|k: int|
        before.geometries.len() <= k < after.geometries.len() ==> starts(
            place.path,
            (#[trigger] after.geometries[k]).path,
        )
}

/// A search below a place and then another one add as one search does.
proof fn lemma_searches_join(
    a: FoundView,
    b: FoundView,
    c: FoundView,
    place: PlaceView,
    below: PlaceView,
)
    requires
        search_adds(a, b, place),
        search_adds(b, c, below),
        starts(place.path, below.path),
    ensures
        search_adds(a, c, place),
{
    assert forall|k: int| a.geometries.len() <= k < c.geometries.len() implies starts(
        place.path,
        (#[trigger] c.geometries[k]).path,
    ) by {
        if k < b.geometries.len() {
            assert(c.geometries[k] == b.geometries[k]);
        }
    }
}

/// A search never loses or changes what was found before it, and what it finds is placed below
/// where it started.
pub proof fn law_search_only_adds(
    t: Tree,
    place: PlaceView,
    poly: Seq<u8>,
    wire: Option<Seq<u8>>,
    found: FoundView,
)
    ensures
        traversed(t, place, poly, wire, found) matches Ok(after) ==> search_adds(
            found,
            after,
            place,
        ),
    decreases t, branches(t).len() + 1,
{
    let geom = get_of(Some(t), "osg.Geometry"@);
    if is_leaf(t) && get_of(Some(t), "osgAnimation.RigGeometry"@) is Some {
    } else if is_leaf(t) && geom is Some {
        if !met(unique_id(geom->0), found.seen) {
            let next = geometry_found(geom->0, place, poly, wire, found);
            assert(search_adds(found, next, place));
            lemma_search_below_adds(t, 0, place, poly, wire, next);
            match traversed(t, place, poly, wire, found) {
                Ok(after) => {
                    lemma_searches_join(found, next, after, place, place);
                },
                Err(_) => {},
            }
        }
    } else {
        let below = place_below(t, place);
        lemma_search_below_adds(t, 0, below, poly, wire, found);
        match traversed(t, place, poly, wire, found) {
            Ok(after) => {
                assert(search_adds(found, found, place));
                lemma_searches_join(found, found, after, place, below);
            },
            Err(_) => {},
        }
    }
}

/// The same of the children of a value.
proof fn lemma_search_below_adds(
    t: Tree,
    from: nat,
    place: PlaceView,
    poly: Seq<u8>,
    wire: Option<Seq<u8>>,
    found: FoundView,
)
    ensures
        traversed_below(t, from, place, poly, wire, found) matches Ok(after) ==> search_adds(
            found,
            after,
            place,
        ),
    decreases t, branches(t).len() - from,
{
    if from < branches(t).len() {
        lemma_branch_descends(t, from as int);
        law_search_only_adds(branches(t)[from as int], place, poly, wire, found);
        match traversed(branches(t)[from as int], place, poly, wire, found) {
            Err(_) => {},
            Ok(next) => {
                lemma_search_below_adds(t, from + 1, place, poly, wire, next);
                match traversed_below(t, from, place, poly, wire, found) {
                    Ok(after) => {
                        lemma_searches_join(found, next, after, place, place);
                    },
                    Err(_) => {},
                }
            },
        }
    }
}

/// Whether every geometry that a search of a value can reach has a number.
pub open spec fn all_numbered(t: Tree) -> bool
    decreases t, branches(t).len() + 1,
{
    let rig = get_of(Some(t), "osgAnimation.RigGeometry"@);
    let geom = get_of(Some(t), "osg.Geometry"@);
    if is_leaf(t) && rig is Some {
        rig_source(rig->0) matches Some(source) ==> unique_id(source) is Some
    } else {
        (is_leaf(t) && geom is Some ==> unique_id(geom->0) is Some) && all_numbered_below(t, 0)
    }
}

/// The same of the children of a value from `from` on.
pub open spec fn all_numbered_below(t: Tree, from: nat) -> bool
    decreases t, branches(t).len() - from,
{
    if from >= branches(t).len() {
        true
    } else {
        proof {
            lemma_branch_descends(t, from as int);
        }
        all_numbered(branches(t)[from as int]) && all_numbered_below(t, from + 1)
    }
}

/// Where everything that a search met was met before, another search of the same value changes
/// nothing, from whatever place.
proof fn lemma_known_value_adds_nothing(
    t: Tree,
    place: PlaceView,
    poly: Seq<u8>,
    wire: Option<Seq<u8>>,
    found: FoundView,
    later_place: PlaceView,
    later: FoundView,
)
    requires
        all_numbered(t),
        traversed(t, place, poly, wire, found) matches Ok(after) && after.seen.subset_of(
            later.seen,
        ),
    ensures
        traversed(t, later_place, poly, wire, later) == Ok::<FoundView, BufferError>(later),
    decreases t, branches(t).len() + 1,
{
    let after = traversed(t, place, poly, wire, found)->Ok_0;
    let geom = get_of(Some(t), "osg.Geometry"@);
    if is_leaf(t) && get_of(Some(t), "osgAnimation.RigGeometry"@) is Some {
    } else if is_leaf(t) && geom is Some {
        if !met(unique_id(geom->0), found.seen) {
            let next = geometry_found(geom->0, place, poly, wire, found);
            lemma_search_below_adds(t, 0, place, poly, wire, next);
            assert(next.seen.contains(unique_id(geom->0)->0));
        }
    } else {
        lemma_known_children_add_nothing(
            t,
            0,
            place_below(t, place),
            poly,
            wire,
            found,
            place_below(t, later_place),
            later,
        );
    }
}

/// The same of the children of a value.
proof fn lemma_known_children_add_nothing(
    t: Tree,
    from: nat,
    place: PlaceView,
    poly: Seq<u8>,
    wire: Option<Seq<u8>>,
    found: FoundView,
    later_place: PlaceView,
    later: FoundView,
)
    requires
        all_numbered_below(t, from),
        traversed_below(t, from, place, poly, wire, found) matches Ok(after)
            && after.seen.subset_of(later.seen),
    ensures
        traversed_below(t, from, later_place, poly, wire, later) == Ok::<FoundView, BufferError>(
            later,
        ),
    decreases t, branches(t).len() - from,
{
    if from < branches(t).len() {
        lemma_branch_descends(t, from as int);
        let child = branches(t)[from as int];
        let next = traversed(child, place, poly, wire, found)->Ok_0;
        lemma_search_below_adds(t, from + 1, place, poly, wire, next);
        lemma_known_value_adds_nothing(child, place, poly, wire, found, later_place, later);
        lemma_known_children_add_nothing(
            t,
            from + 1,
            place,
            poly,
            wire,
            next,
            later_place,
            later,
        );
    }
}

/// Searching the same value again changes nothing: every geometry in it was met before.
pub proof fn law_second_search_adds_nothing(
    t: Tree,
    place: PlaceView,
    poly: Seq<u8>,
    wire: Option<Seq<u8>>,
    found: FoundView,
)
    requires
        all_numbered(t),
        traversed(t, place, poly, wire, found) is Ok,
    ensures
        traversed(t, place, poly, wire, found) matches Ok(after) && traversed(
            t,
            place,
            poly,
            wire,
            after,
        ) == Ok::<FoundView, BufferError>(after),
{
    let after = traversed(t, place, poly, wire, found)->Ok_0;
    lemma_known_value_adds_nothing(t, place, poly, wire, found, place, after);
}

/// A geometry that cannot be read, or that draws nothing, adds no geometry and does not stop the
/// search, whether it stands alone or in a rig.
pub proof fn law_unreadable_geometries_add_nothing(
    geom: Tree,
    rig: Tree,
    place: PlaceView,
    poly: Seq<u8>,
    wire: Option<Seq<u8>>,
    found: FoundView,
)
    requires
        !(geometry_of(geom, poly, wire) matches Ok(Some(_))),
        rig_source(rig) == Some(geom),
    ensures
        geometry_found(geom, place, poly, wire, found).geometries == found.geometries,
        rig_found(rig, place, poly, wire, found) matches Ok(after) && after.geometries
            == found.geometries,
{
}

/// What is found in a scene before it is searched.
pub open spec fn nothing_found() -> FoundView {
    FoundView { geometries: Seq::empty(), skipped: Seq::empty(), seen: Set::empty() }
}

/// The geometries of a scene.
pub open spec fn geometries_of(scene: Tree, poly: Seq<u8>, wire: Option<Seq<u8>>) -> Result<
    FoundView,
    BufferError,
> {
    traversed(
        scene,
        PlaceView {
            path: seq![to_matrix(scene_matrix_of(scene))],
            skeleton: None,
            target: None,
        },
        poly,
        wire,
        nothing_found(),
    )
}

/// Finds the geometries of a scene whose references are still to be replaced.
pub fn collect_geometries(osgjs: &Json, files: &ModelFiles) -> (r: Result<Found, BufferError>)
    ensures
        match r {
            Ok(found) => geometries_of(scene_of(osgjs@), files.poly@, bytes_opt(files.wire))
                == Ok::<FoundView, BufferError>(found@),
            Err(e) => geometries_of(scene_of(osgjs@), files.poly@, bytes_opt(files.wire)) == Err::<
                FoundView,
                BufferError,
            >(e),
        },
{
    let root = resolved_scene(osgjs);
    let m = scene_coordinate_matrix(&root);
    proof {
        lemma_to_matrix(m);
    }
    let mut path: Vec<Matrix> = Vec::new();
    path.push(m);
    assert(path@ =~= seq![m]);
    let place = Place { path, skeleton: None, target: None };
    let mut found = Found {
        geometries: Vec::new(),
        skipped: Vec::new(),
        seen: HashSet::new(),
    };
    assert(found@ =~= nothing_found());
    match traverse_geometries(&root, files, &place, &mut found) {
        Ok(_) => Ok(found),
        Err(e) => Err(e),
    }
}

/// The number that a member of a bone map gives.
pub open spec fn index_said(t: Tree) -> Option<u64> {
    match t {
        Tree::Number(n) => n.unsigned,
        _ => None,
    }
}

/// The greatest of the numbers is one of them, or zero.
proof fn lemma_greatest(members: Seq<(Seq<char>, Tree)>, n: int, k: int)
    requires
        0 <= n <= members.len(),
    ensures
        0 <= k < n ==> (index_said(members[k].1) matches Some(i) ==> i <= greatest_index(members, n)),
        greatest_index(members, n) == 0 || exists|j: int|
            0 <= j < n && index_said((#[trigger] members[j]).1) == Some(greatest_index(members, n)),
    decreases n,
{
    if n > 0 {
        lemma_greatest(members, n - 1, k);
        let most = greatest_index(members, n);
        if most == greatest_index(members, n - 1) && most != 0 {
            let j = choose|j: int|
                0 <= j < n - 1 && index_said((#[trigger] members[j]).1) == Some(
                    greatest_index(members, n - 1),
                );
            assert(index_said(members[j].1) == Some(most));
        } else if most != 0 {
            assert(index_said(members[n - 1].1) == Some(most));
        }
    }
}

/// A joint is named by the last member with its number.
proof fn lemma_joint_is_named(
    members: Seq<(Seq<char>, Tree)>,
    n: int,
    blank: Seq<Seq<char>>,
    k: int,
    i: u64,
)
    requires
        0 <= k < n <= members.len(),
        index_said(members[k].1) == Some(i),
        i < blank.len(),
        forall|j: int| k < j < n ==> index_said((#[trigger] members[j]).1) != Some(i),
    ensures
        joints_named(members, n, blank).len() == blank.len(),
        joints_named(members, n, blank)[i as int] == members[k].0,
    decreases n,
{
    lemma_names_len(members, n - 1, blank);
    if k < n - 1 {
        lemma_joint_is_named(members, n - 1, blank, k, i);
        assert(index_said(members[n - 1].1) != Some(i));
    }
}

/// Naming joints keeps their number.
proof fn lemma_names_len(members: Seq<(Seq<char>, Tree)>, n: int, blank: Seq<Seq<char>>)
    ensures
        joints_named(members, n, blank).len() == blank.len(),
    decreases n,
{
    if n > 0 {
        lemma_names_len(members, n - 1, blank);
    }
}

/// The joints of a rig are those of its bone map, each at the place that the map gives it, and
/// there are as many as the greatest place asks for.
pub proof fn law_joints_stand_where_the_bone_map_puts_them(
    members: Seq<(Seq<char>, Tree)>,
    k: int,
    i: u64,
)
    requires
        0 <= k < members.len(),
        index_said(members[k].1) == Some(i),
        forall|j: int| k < j < members.len() ==> index_said((#[trigger] members[j]).1) != Some(i),
        forall|j: int|
            0 <= j < members.len() ==> (index_said((#[trigger] members[j]).1) matches Some(x) ==> x
                < u64::MAX),
    ensures
        i < joint_names_of(members).len(),
        joint_names_of(members)[i as int] == members[k].0,
        exists|j: int|
            0 <= j < members.len() && (index_said((#[trigger] members[j]).1) matches Some(x) && x + 1
                == joint_names_of(members).len()),
{
    let n = members.len() as int;
    lemma_greatest(members, n, k);
    let most = greatest_index(members, n);
    let blank = Seq::new((most + 1) as nat, |x: int| Seq::<char>::empty());
    lemma_joint_is_named(members, n, blank, k, i);
    if most == 0 {
        assert(index_said(members[k].1) == Some(0u64));
    } else {
        let j = choose|j: int| 0 <= j < n && index_said((#[trigger] members[j]).1) == Some(most);
        assert(index_said(members[j].1) == Some(most));
    }
}

/// A rig's `Bones` become the joints of its vertices, as whole numbers of two bytes, and its
/// `Weights` their weights, as floating-point numbers, four for each vertex where nothing is said.
/// A joint that weighs nothing is none.
pub proof fn law_rig_gives_joints_and_weights(
    g: GeometryView,
    rig: Tree,
    bin: Seq<u8>,
    members: Seq<(Seq<char>, Tree)>,
)
    requires
        get_of(Some(rig), "VertexAttributeList"@) == Some(Tree::Object(members)),
    ensures
        rigged(g, rig, bin) matches Ok(after) ==> {
            let bones = rig_array(get_of(Some(Tree::Object(members)), "Bones"@), bin);
            let weights = rig_array(get_of(Some(Tree::Object(members)), "Weights"@), bin);
            &&& after.indices == g.indices
            &&& after.mode == g.mode
            &&& after.morph_targets == g.morph_targets
            &&& after.material_name == g.material_name
            &&& weights matches Ok(Some((data, size, count))) ==> (plan_index(
                after.attributes,
                "WEIGHTS_0"@,
                0,
            ) matches Some(i) && {
                let p = after.attributes[i];
                &&& p.attribute.data == data
                &&& p.attribute.item_size == size as usize
                &&& p.attribute.count == count as usize
                &&& p.attribute.component_type == 5126
                &&& !p.attribute.normalized
            })
            &&& bones matches Ok(Some((data, size, count))) ==> (plan_index(
                after.attributes,
                "JOINTS_0"@,
                0,
            ) matches Some(i) && {
                let p = after.attributes[i];
                &&& p.attribute.data matches Components::U16(joints) && joints.len() == data.len()
                    && forall|k: int|
                    0 <= k < joints.len() ==> #[trigger] joints[k] == if (plan_index(
                        after.attributes,
                        "WEIGHTS_0"@,
                        0,
                    ) matches Some(w) && k < after.attributes[w].attribute.data.len() && zero_at(
                        after.attributes[w].attribute.data,
                        k,
                    )) {
                        0
                    } else {
                        data.integer(k) as int % 0x1_0000
                    }
                &&& p.attribute.item_size == size as usize
                &&& p.attribute.count == count as usize
                &&& p.attribute.component_type == 5123
                &&& !p.attribute.normalized
            })
        },
        get_of(Some(rig), "BoneMap"@) matches Some(Tree::Object(map)) ==> (rigged(
            g,
            rig,
            bin,
        ) matches Ok(after) ==> after.joint_names == joint_names_of(map)),
{
    reveal_strlit("JOINTS_0");
    reveal_strlit("WEIGHTS_0");
    assert("JOINTS_0"@.len() == 8 && "WEIGHTS_0"@.len() == 9);
    let attributes = Some(Tree::Object(members));
    match (rig_array(get_of(attributes, "Bones"@), bin), rig_array(
        get_of(attributes, "Weights"@),
        bin,
    )) {
        (Ok(bones), Ok(weights)) => {
            let first = match bones {
                Some((data, size, count)) => with_plan(
                    g.attributes,
                    joints_plan(data, size, count),
                ),
                None => g.attributes,
            };
            let second = match weights {
                Some((data, size, count)) => with_plan(first, weights_plan(data, size, count)),
                None => first,
            };
            let done = idle_dropped(second);
            match bones {
                Some((data, size, count)) => {
                    let p = joints_plan(data, size, count);
                    lemma_plan_is_found(g.attributes, p);
                    match weights {
                        Some((d, s, c)) => {
                            let q = weights_plan(d, s, c);
                            lemma_plan_is_found(first, q);
                            lemma_plan_elsewhere(first, q, "JOINTS_0"@);
                        },
                        None => {},
                    }
                },
                None => {},
            }
            match weights {
                Some((d, s, c)) => {
                    lemma_plan_is_found(first, weights_plan(d, s, c));
                },
                None => {},
            }
            match (plan_index(second, "WEIGHTS_0"@, 0), plan_index(second, "JOINTS_0"@, 0)) {
                (Some(w), Some(j)) => {
                    lemma_found_name(second, "JOINTS_0"@, 0);
                    lemma_found_name(second, "WEIGHTS_0"@, 0);
                    match second[j].attribute.data {
                        Components::U16(joints) => {
                            lemma_renaming_nothing(second, done, j, "WEIGHTS_0"@, 0);
                            lemma_renaming_nothing(second, done, j, "JOINTS_0"@, 0);
                        },
                        _ => {},
                    }
                },
                _ => {},
            }
        },
        _ => {},
    }
}

/// A plan is found under its name.
proof fn lemma_found_name(list: Seq<PlanView>, name: Seq<char>, from: int)
    requires
        0 <= from,
    ensures
        match plan_index(list, name, from) {
            Some(i) => from <= i < list.len() && list[i].name == name && forall|k: int|
                from <= k < i ==> (#[trigger] list[k]).name != name,
            None => forall|k: int| from <= k < list.len() ==> (#[trigger] list[k]).name != name,
        },
    decreases list.len() - from,
{
    if from < list.len() && list[from].name != name {
        lemma_found_name(list, name, from + 1);
    }
}

/// A plan that was added is found.
proof fn lemma_plan_is_found(list: Seq<PlanView>, plan: PlanView)
    ensures
        plan_index(with_plan(list, plan), plan.name, 0) matches Some(i) && with_plan(list, plan)[i]
            == plan,
{
    lemma_found_name(list, plan.name, 0);
    let after = with_plan(list, plan);
    lemma_found_name(after, plan.name, 0);
    match plan_index(list, plan.name, 0) {
        Some(i) => {
            assert(after[i] == plan);
            assert forall|k: int| 0 <= k < i implies (#[trigger] after[k]).name != plan.name by {
                assert(after[k] == list[k]);
            }
        },
        None => {
            assert(after[list.len() as int] == plan);
            assert forall|k: int| 0 <= k < list.len() implies (#[trigger] after[k]).name
                != plan.name by {
                assert(after[k] == list[k]);
            }
        },
    }
}

/// A plan of another name is found as before.
proof fn lemma_plan_elsewhere(list: Seq<PlanView>, plan: PlanView, name: Seq<char>)
    requires
        plan.name != name,
    ensures
        plan_index(list, name, 0) matches Some(i) ==> (plan_index(
            with_plan(list, plan),
            name,
            0,
        ) matches Some(j) && with_plan(list, plan)[j] == list[i]),
{
    lemma_found_name(list, name, 0);
    lemma_found_name(list, plan.name, 0);
    let after = with_plan(list, plan);
    lemma_found_name(after, name, 0);
    match plan_index(list, name, 0) {
        Some(i) => {
            assert(after[i] == list[i]);
            assert forall|k: int| 0 <= k < i implies (#[trigger] after[k]).name != name by {
                if plan_index(list, plan.name, 0) != Some(k) {
                    assert(after[k] == list[k]);
                }
            }
        },
        None => {},
    }
}

/// A list whose names are the same is searched the same way.
proof fn lemma_renaming_nothing(
    list: Seq<PlanView>,
    after: Seq<PlanView>,
    at: int,
    name: Seq<char>,
    from: int,
)
    requires
        0 <= from,
        after.len() == list.len(),
        forall|k: int| 0 <= k < list.len() ==> (#[trigger] after[k]).name == list[k].name,
    ensures
        plan_index(after, name, from) == plan_index(list, name, from),
    decreases list.len() - from,
{
    if from < list.len() {
        assert(after[from].name == list[from].name);
        lemma_renaming_nothing(list, after, at, name, from + 1);
    }
}

/// Below a transform the place has the transform's matrix and the name of what animates it, or the
/// name from above; below a skeleton the skeleton's place is remembered; below anything else the
/// place is the same.
pub proof fn law_places_below(t: Tree, place: PlaceView, transform: Tree, callbacks: Seq<Tree>, k: int)
    ensures
        get_of(Some(t), "osg.MatrixTransform"@) == Some(transform) ==> {
            let below = place_below(t, place);
            &&& below.path == path_below(transform, place.path)
            &&& below.skeleton == place.skeleton
            &&& get_of(Some(transform), "UpdateCallbacks"@) == Some(Tree::Array(callbacks)) ==> {
                &&& 0 <= k < callbacks.len() && names_target(callbacks[k]) is Some && (forall|j: int|
                    0 <= j < k ==> names_target(#[trigger] callbacks[j]) is None) ==> below.target
                    == names_target(callbacks[k])
                &&& (forall|j: int|
                    0 <= j < callbacks.len() ==> names_target(#[trigger] callbacks[j]) is None)
                    ==> below.target == place.target
            }
        },
        get_of(Some(t), "osg.MatrixTransform"@) is None && get_of(
            Some(t),
            "osgAnimation.Skeleton"@,
        ) is Some ==> place_below(t, place) == (PlaceView { skeleton: Some(place.path), ..place }),
        get_of(Some(t), "osg.MatrixTransform"@) is None && get_of(
            Some(t),
            "osgAnimation.Skeleton"@,
        ) is None ==> place_below(t, place) == place,
{
    if 0 <= k < callbacks.len() && names_target(callbacks[k]) is Some && (forall|j: int|
        0 <= j < k ==> names_target(#[trigger] callbacks[j]) is None) {
        lemma_first_target(callbacks, 0, k);
    }
    if forall|j: int| 0 <= j < callbacks.len() ==> names_target(#[trigger] callbacks[j]) is None {
        lemma_no_target(callbacks, 0);
    }
}

/// The name of what a callback animates.
pub open spec fn names_target(callback: Tree) -> Option<Seq<char>> {
    match get_of(get_of(Some(callback), "osgAnimation.UpdateMatrixTransform"@), "Name"@) {
        Some(Tree::Text(name, _)) => Some(name),
        _ => None,
    }
}

/// The first callback with a name counts.
proof fn lemma_first_target(list: Seq<Tree>, from: int, k: int)
    requires
        0 <= from <= k < list.len(),
        names_target(list[k]) is Some,
        forall|j: int| 0 <= j < k ==> names_target(#[trigger] list[j]) is None,
    ensures
        first_target(list, from) == names_target(list[k]),
    decreases k - from,
{
    if from < k {
        assert(names_target(list[from]) is None);
        lemma_first_target(list, from + 1, k);
    }
}

/// Without callbacks that have a name there is none.
proof fn lemma_no_target(list: Seq<Tree>, from: int)
    requires
        0 <= from,
        forall|j: int| 0 <= j < list.len() ==> names_target(#[trigger] list[j]) is None,
    ensures
        first_target(list, from) is None,
    decreases list.len() - from,
{
    if from < list.len() {
        assert(names_target(list[from]) is None);
        lemma_no_target(list, from + 1);
    }
}

/// The children of a transform, of a skeleton and of a node are searched, and those that stand
/// beside a geometry; below a rig nothing is.
pub proof fn law_children_are_searched(t: Tree, inner: Tree, children: Seq<Tree>)
    requires
        get_of(Some(inner), "Children"@) == Some(Tree::Array(children)),
    ensures
        get_of(Some(t), "osg.MatrixTransform"@) == Some(inner) ==> branches(t) == children,
        get_of(Some(t), "osg.MatrixTransform"@) is None && get_of(
            Some(t),
            "osgAnimation.Skeleton"@,
        ) == Some(inner) ==> branches(t) == children,
        is_leaf(t) && get_of(Some(t), "osgAnimation.RigGeometry"@) is None && get_of(
            Some(t),
            "osg.Node"@,
        ) == Some(inner) ==> (forall|k: int|
            0 <= k < children.len() ==> branches(t).contains(#[trigger] children[k])),
        is_leaf(t) && get_of(Some(t), "osgAnimation.RigGeometry"@) is None && t == inner ==> (forall|
            k: int,
        |
            0 <= k < children.len() ==> branches(t).contains(#[trigger] children[k])),
{
    if is_leaf(t) && get_of(Some(t), "osgAnimation.RigGeometry"@) is None {
        let first = items_of(get_of(get_of(Some(t), "osg.Node"@), "Children"@));
        let all = branches(t);
        if get_of(Some(t), "osg.Node"@) == Some(inner) {
            assert forall|k: int| 0 <= k < children.len() implies all.contains(
                #[trigger] children[k],
            ) by {
                assert(all[k] == children[k]);
            }
        }
        if t == inner {
            assert forall|k: int| 0 <= k < children.len() implies all.contains(
                #[trigger] children[k],
            ) by {
                assert(all[first.len() + k] == children[k]);
            }
        }
    }
}

/// A geometry that was not met before, and can be read, is found where it stands, with the name of
/// what animates it; the search goes on below it.
pub proof fn law_geometry_is_found_in_its_place(
    t: Tree,
    geom: Tree,
    place: PlaceView,
    poly: Seq<u8>,
    wire: Option<Seq<u8>>,
    found: FoundView,
    g: GeometryView,
)
    requires
        is_leaf(t),
        get_of(Some(t), "osgAnimation.RigGeometry"@) is None,
        get_of(Some(t), "osg.Geometry"@) == Some(geom),
        !met(unique_id(geom), found.seen),
        geometry_of(geom, poly, wire) == Ok::<Option<GeometryView>, BufferError>(Some(g)),
        branches(t).len() == 0,
    ensures
        traversed(t, place, poly, wire, found) matches Ok(after) && {
            let last = after.geometries.last();
            &&& after.geometries == found.geometries.push(last)
            &&& last.indices == g.indices
            &&& last.attributes == g.attributes
            &&& last.material_name == g.material_name
            &&& last.morph_targets == g.morph_targets
            &&& last.path == place.path
            &&& last.animation_target == place.target
            &&& after.skipped == found.skipped
            &&& unique_id(geom) matches Some(id) ==> after.seen.contains(id)
        },
{
}

/// A rig moves the geometry that it names as its source, or else the morph geometry; it is found
/// where the rig stands, with the place of the skeleton around it.
pub proof fn law_rig_is_found_in_its_place(
    rig: Tree,
    source: Tree,
    place: PlaceView,
    poly: Seq<u8>,
    wire: Option<Seq<u8>>,
    found: FoundView,
    g: GeometryView,
    moved: GeometryView,
)
    requires
        get_of(get_of(Some(rig), "SourceGeometry"@), "osg.Geometry"@) == Some(source) || (get_of(
            get_of(Some(rig), "SourceGeometry"@),
            "osg.Geometry"@,
        ) is None && get_of(
            get_of(Some(rig), "SourceGeometry"@),
            "osgAnimation.MorphGeometry"@,
        ) == Some(source)),
        !met(unique_id(source), found.seen),
        geometry_of(source, poly, wire) == Ok::<Option<GeometryView>, BufferError>(Some(g)),
        rigged(g, rig, poly) == Ok::<GeometryView, BufferError>(moved),
    ensures
        rig_found(rig, place, poly, wire, found) matches Ok(after) && {
            let last = after.geometries.last();
            &&& after.geometries == found.geometries.push(last)
            &&& last.indices == moved.indices
            &&& last.attributes == moved.attributes
            &&& last.joint_names == moved.joint_names
            &&& last.path == place.path
            &&& last.skeleton_path == place.skeleton
            &&& last.animation_target == place.target
        },
{
}

/// An array of a rig is read from the model file with as many numbers for each item as it says,
/// four if it does not say, and as many items as its size.
pub proof fn law_rig_array_is_read(def: Tree, bin: Seq<u8>, arrays: Seq<(Seq<char>, Tree)>)
    requires
        get_of(Some(def), "Array"@) == Some(Tree::Object(arrays)),
        arrays.len() > 0,
    ensures
        rig_array(Some(def), bin) matches Ok(r) ==> (r matches Some((data, size, count)) && {
            &&& buffer_array_of(bin, arrays[0].1, size, arrays[0].0) == Ok::<Components, BufferError>(
                data,
            )
            &&& unsigned_of(get_of(Some(def), "ItemSize"@)) matches Some(n) ==> size == n
            &&& unsigned_of(get_of(Some(def), "ItemSize"@)) is None ==> size == 4
            &&& unsigned_of(get_of(Some(arrays[0].1), "Size"@)) matches Some(n) ==> count == n
        }),
{
}

/// Every geometry of a scene stands below the matrix that sets the scene upright.
pub proof fn law_geometries_stand_in_the_scene(
    scene: Tree,
    poly: Seq<u8>,
    wire: Option<Seq<u8>>,
    upright: Matrix,
    k: int,
)
    requires
        upright@ == scene_matrix_of(scene),
    ensures
        geometries_of(scene, poly, wire) matches Ok(found) ==> (0 <= k < found.geometries.len() ==> {
            let path = found.geometries[k].path;
            path.len() > 0 && path[0] == upright
        }),
{
    lemma_to_matrix(upright);
    let place = PlaceView { path: seq![upright], skeleton: None, target: None };
    law_search_only_adds(scene, place, poly, wire, nothing_found());
    match geometries_of(scene, poly, wire) {
        Ok(found) => {
            if 0 <= k < found.geometries.len() {
                assert(starts(place.path, found.geometries[k].path));
                assert(place.path[0] == upright);
            }
        },
        Err(_) => {},
    }
}

} // verus!
