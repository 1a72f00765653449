//! The scene graph: references, coordinates, and skeletons.

use crate::float_bits::{MINUS_ONE, ONE};
use crate::gltf::{
    child, has_child, is_forest, lemma_leaf_keeps_forest, lemma_views_push, lemma_views_update,
    node_ok, unclaimed, views, Matrix, Node, NodeView, Placement,
    PlacementView,
};
use crate::json::{
    get, get_of, get_or_item, get_or_item_of, item_of, items_of, items_under, kid, kid_count, kids,
    lemma_array_descends, lemma_array_view, lemma_get_descends, lemma_get_item_descends,
    lemma_kid_descends, lemma_object_descends, lemma_object_view, member_trees, single_or,
    single_or_of, text, text_is, text_of, tree_of, trees, unsigned, unsigned_of, Json, Tree,
};
use crate::text::{chars_of, part_of, rfind_char, rfind_of, string_of};
use std::collections::{HashMap, HashSet};
use vstd::hash_map::StringHashMap;
use vstd::prelude::*;

verus! {

broadcast use vstd::std_specs::hash::group_hash_axioms;

/// The number under `UniqueID`.
pub open spec fn unique_id(t: Tree) -> Option<u64> {
    unsigned_of(get_of(Some(t), "UniqueID"@))
}

/// Whether a value is an object that defines what its `UniqueID` stands for: one with more in it
/// than the number.
pub open spec fn defines_id(t: Tree) -> bool {
    t is Object && kids(t).len() > 1 && unique_id(t) is Some
}

/// What the numbers in a value stand for, after `known`. A later definition wins.
pub open spec fn definitions(t: Tree, known: Map<u64, Tree>) -> Map<u64, Tree>
    decreases t, kids(t).len() + 1,
{
    definitions_within(
        t,
        kids(t).len(),
        if defines_id(t) {
            known.insert(unique_id(t)->0, t)
        } else {
            known
        },
    )
}

/// What the numbers in the first `n` values inside a value stand for, after `known`.
pub open spec fn definitions_within(t: Tree, n: nat, known: Map<u64, Tree>) -> Map<u64, Tree>
    decreases t, n,
{
    if n == 0 || n > kids(t).len() {
        known
    } else {
        proof {
            lemma_kid_descends(t, n - 1);
        }
        definitions(kids(t)[n - 1], definitions_within(t, (n - 1) as nat, known))
    }
}

/// Whether a table of references agrees with a map of trees.
pub open spec fn same_table(table: Map<u64, &Json>, map: Map<u64, Tree>) -> bool {
    &&& forall|k: u64| #[trigger] table.contains_key(k) <==> map.contains_key(k)
    &&& forall|k: u64| #[trigger] table.contains_key(k) ==> table[k]@ == map[k]
}

/// Notes what every `UniqueID` in a value stands for.
pub fn build_uid_map<'a>(v: &'a Json, map: &mut HashMap<u64, &'a Json>)
    ensures
        forall|known: Map<u64, Tree>|
            #![trigger definitions(v@, known)]
            same_table(old(map)@, known) ==> same_table(final(map)@, definitions(v@, known)),
    decreases v,
{
    let ghost start = map@;
    let n: usize = kid_count(v);
    let is_object = match v {
        Json::Object(_) => true,
        _ => false,
    };
    if is_object && n > 1 {
        match unsigned(get(Some(v), "UniqueID")) {
            Some(id) => {
                map.insert(id, v);
            },
            None => {},
        }
    }
    let ghost noted = map@;
    let mut i: usize = 0;
    while i < n
        invariant
            i <= n == kids(v@).len(),
            forall|known: Map<u64, Tree>|
                #![trigger definitions_within(v@, i as nat, known)]
                same_table(noted, known) ==> same_table(
                    map@,
                    definitions_within(v@, i as nat, known),
                ),
        decreases n - i,
    {
        let child = kid(v, i);
        let ghost before = map@;
        build_uid_map(child, map);
        i += 1;
        assert forall|known: Map<u64, Tree>|
            #![trigger definitions_within(v@, i as nat, known)]
            same_table(noted, known) implies same_table(
            map@,
            definitions_within(v@, i as nat, known),
        ) by {
            let earlier = definitions_within(v@, (i - 1) as nat, known);
            assert(same_table(before, earlier));
            assert(same_table(map@, definitions(child@, earlier)));
        }
    }
    assert forall|known: Map<u64, Tree>|
        #![trigger definitions(v@, known)]
        same_table(start, known) implies same_table(map@, definitions(v@, known)) by {
        let first = if defines_id(v@) {
            known.insert(unique_id(v@)->0, v@)
        } else {
            known
        };
        assert(v is Object <==> v@ is Object);
        assert(same_table(noted, first));
        assert(same_table(map@, definitions_within(v@, n as nat, first)));
    }
}

/// Whether a value only refers to another one: an object with nothing but a number that has a
/// definition.
pub open spec fn refers(t: Tree, map: Map<u64, Tree>) -> bool {
    t is Object && kids(t).len() == 1 && unique_id(t) is Some && map.contains_key(unique_id(t)->0)
}

/// A value with references replaced by what they stand for. What is put in is not searched again.
pub open spec fn resolved_of(t: Tree, map: Map<u64, Tree>) -> Tree
    decreases t,
{
    if refers(t, map) {
        map[unique_id(t)->0]
    } else {
        match t {
            Tree::Array(items) => Tree::Array(
                Seq::new(
                    items.len(),
                    |i: int|
                        if 0 <= i < items.len() {
                            resolved_of(items[i], map)
                        } else {
                            Tree::Null
                        },
                ),
            ),
            Tree::Object(members) => Tree::Object(
                Seq::new(
                    members.len(),
                    |i: int|
                        if 0 <= i < members.len() {
                            (members[i].0, resolved_of(members[i].1, map))
                        } else {
                            (Seq::empty(), Tree::Null)
                        },
                ),
            ),
            _ => t,
        }
    }
}

/// A value with references replaced by what they stand for.
pub fn resolve_refs(v: &Json, map: &HashMap<u64, &Json>) -> (r: Json)
    ensures
        forall|known: Map<u64, Tree>|
            #![trigger resolved_of(v@, known)]
            same_table(map@, known) ==> r@ == resolved_of(v@, known),
    decreases v,
{
    let is_object = match v {
        Json::Object(_) => true,
        _ => false,
    };
    if is_object && kid_count(v) == 1 {
        match unsigned(get(Some(v), "UniqueID")) {
            Some(id) => match map.get(&id) {
                Some(target) => {
                    assert(map@.contains_key(id));
                    return target.duplicate();
                },
                None => {
                    assert(!map@.contains_key(id));
                },
            },
            None => {},
        }
    }
    assert forall|known: Map<u64, Tree>| same_table(map@, known) implies !refers(v@, known) by {}
    match v {
        Json::Array(items) => {
            let mut copy: Vec<Json> = Vec::new();
            let mut i: usize = 0;
            while i < items.len()
                invariant
                    i <= items@.len(),
                    *v == Json::Array(*items),
                    copy@.len() == i,
                    forall|known: Map<u64, Tree>, k: int|
                        0 <= k < i && same_table(map@, known) ==> #[trigger] copy@[k]@
                            == #[trigger] resolved_of(items@[k]@, known),
                decreases items@.len() - i,
            {
                proof {
                    lemma_array_descends(*items, i as int);
                }
                let one = resolve_refs(&items[i], map);
                copy.push(one);
                i += 1;
            }
            proof {
                lemma_array_view(*items);
                lemma_array_view(copy);
                assert forall|known: Map<u64, Tree>|
                    #![trigger resolved_of(v@, known)]
                    same_table(map@, known) implies Json::Array(copy)@ == resolved_of(
                    v@,
                    known,
                ) by {
                    lemma_resolved_unfolds(v@, known);
                    assert forall|k: int| 0 <= k < items@.len() implies resolved_of(
                        trees(items@)[k],
                        known,
                    ) == trees(copy@)[k] by {
                        assert(copy@[k]@ == resolved_of(items@[k]@, known));
                    }
                    assert(resolved_of(v@, known)->Array_0 =~= trees(copy@));
                }
            }
            Json::Array(copy)
        },
        Json::Object(members) => {
            let mut copy: Vec<(String, Json)> = Vec::new();
            let mut i: usize = 0;
            while i < members.len()
                invariant
                    i <= members@.len(),
                    *v == Json::Object(*members),
                    copy@.len() == i,
                    forall|k: int| 0 <= k < i ==> (#[trigger] copy@[k]).0@ == members@[k].0@,
                    forall|known: Map<u64, Tree>, k: int|
                        0 <= k < i && same_table(map@, known) ==> #[trigger] copy@[k].1@
                            == #[trigger] resolved_of(members@[k].1@, known),
                decreases members@.len() - i,
            {
                proof {
                    lemma_object_descends(*members, i as int);
                }
                let one = resolve_refs(&members[i].1, map);
                copy.push((members[i].0.clone(), one));
                i += 1;
            }
            proof {
                lemma_object_view(*members);
                lemma_object_view(copy);
                assert forall|known: Map<u64, Tree>|
                    #![trigger resolved_of(v@, known)]
                    same_table(map@, known) implies Json::Object(copy)@ == resolved_of(
                    v@,
                    known,
                ) by {
                    lemma_resolved_unfolds(v@, known);
                    assert forall|k: int| 0 <= k < members@.len() implies resolved_of(
                        member_trees(members@)[k].1,
                        known,
                    ) == member_trees(copy@)[k].1 by {
                        assert(copy@[k].1@ == resolved_of(members@[k].1@, known));
                    }
                    assert(resolved_of(v@, known)->Object_0 =~= member_trees(copy@));
                }
            }
            Json::Object(copy)
        },
        _ => v.duplicate(),
    }
}

/// The scene with its references replaced by what they stand for.
pub open spec fn scene_of(t: Tree) -> Tree {
    resolved_of(t, definitions(t, Map::empty()))
}

/// Replaces the references of a scene by what they stand for.
pub fn resolved_scene(osgjs: &Json) -> (r: Json)
    ensures
        r@ == scene_of(osgjs@),
{
    let mut map: HashMap<u64, &Json> = HashMap::new();
    assert(same_table(map@, Map::<u64, Tree>::empty()));
    build_uid_map(osgjs, &mut map);
    assert(same_table(map@, definitions(osgjs@, Map::<u64, Tree>::empty())));
    resolve_refs(osgjs, &map)
}

/// Whether no value inside a value refers to another one.
pub open spec fn reference_free(t: Tree, map: Map<u64, Tree>) -> bool
    decreases t, kids(t).len() + 1,
{
    !refers(t, map) && reference_free_among(t, kids(t).len(), map)
}

/// Whether the first `n` values inside a value are free of references.
pub open spec fn reference_free_among(t: Tree, n: nat, map: Map<u64, Tree>) -> bool
    decreases t, n,
{
    if n == 0 || n > kids(t).len() {
        true
    } else {
        proof {
            lemma_kid_descends(t, n - 1);
        }
        reference_free_among(t, (n - 1) as nat, map) && reference_free(kids(t)[n - 1], map)
    }
}

/// Each of the first `n` values is free of references.
proof fn lemma_reference_free_among(t: Tree, n: nat, map: Map<u64, Tree>, i: int)
    requires
        n <= kids(t).len(),
        reference_free_among(t, n, map),
        0 <= i < n,
    ensures
        reference_free(kids(t)[i], map),
    decreases n,
{
    if i < n - 1 {
        lemma_reference_free_among(t, (n - 1) as nat, map, i);
    }
}

/// How references are replaced in an array or an object.
proof fn lemma_resolved_unfolds(t: Tree, map: Map<u64, Tree>)
    requires
        !refers(t, map),
    ensures
        t matches Tree::Array(items) ==> resolved_of(t, map) == Tree::Array(
            Seq::new(items.len(), |i: int| resolved_of(items[i], map)),
        ),
        t matches Tree::Object(members) ==> resolved_of(t, map) == Tree::Object(
            Seq::new(
                members.len(),
                |i: int| (members[i].0, resolved_of(members[i].1, map)),
            ),
        ),
{
    reveal_with_fuel(resolved_of, 2);
    match t {
        Tree::Array(items) => {
            assert(resolved_of(t, map)->Array_0 =~= Seq::new(
                items.len(),
                |i: int| resolved_of(items[i], map),
            ));
        },
        Tree::Object(members) => {
            assert(resolved_of(t, map)->Object_0 =~= Seq::new(
                members.len(),
                |i: int| (members[i].0, resolved_of(members[i].1, map)),
            ));
        },
        _ => {},
    }
}

/// A value without references stays as it is.
pub proof fn law_reference_free_is_unchanged(t: Tree, map: Map<u64, Tree>)
    requires
        reference_free(t, map),
    ensures
        resolved_of(t, map) == t,
    decreases t,
{
    lemma_resolved_unfolds(t, map);
    assert forall|i: int| 0 <= i < kids(t).len() implies resolved_of(#[trigger] kids(t)[i], map)
        == kids(t)[i] by {
        lemma_reference_free_among(t, kids(t).len(), map, i);
        lemma_kid_descends(t, i);
        law_reference_free_is_unchanged(kids(t)[i], map);
    }
    match t {
        Tree::Array(items) => {
            assert(resolved_of(t, map)->Array_0 =~= items) by {
                assert forall|i: int| 0 <= i < items.len() implies resolved_of(items[i], map)
                    == items[i] by {
                    assert(kids(t)[i] == items[i]);
                }
            }
        },
        Tree::Object(members) => {
            assert(resolved_of(t, map)->Object_0 =~= members) by {
                assert forall|i: int| 0 <= i < members.len() implies resolved_of(
                    members[i].1,
                    map,
                ) == members[i].1 by {
                    assert(kids(t)[i] == members[i].1);
                }
            }
        },
        _ => {},
    }
}

/// Whether a value is the wrapper of a glTF scene's root.
pub open spec fn is_gltf_root(t: Tree) -> bool {
    text_of(get_of(get_of(Some(t), "osg.MatrixTransform"@), "Name"@)) == Some(
        "GLTF_SceneRootNode"@,
    )
}

/// Whether a value is, or holds somewhere inside, the root of a glTF scene.
pub open spec fn has_gltf_root(t: Tree) -> bool
    decreases t, kids(t).len() + 1,
{
    is_gltf_root(t) || gltf_root_among(t, kids(t).len())
}

/// Whether that holds of one of the first `n` values inside a value.
pub open spec fn gltf_root_among(t: Tree, n: nat) -> bool
    decreases t, n,
{
    if n == 0 || n > kids(t).len() {
        false
    } else {
        proof {
            lemma_kid_descends(t, n - 1);
        }
        gltf_root_among(t, (n - 1) as nat) || has_gltf_root(kids(t)[n - 1])
    }
}

/// What is found early is found.
proof fn lemma_gltf_root_among(t: Tree, n: nat, m: nat)
    requires
        n <= m <= kids(t).len(),
        gltf_root_among(t, n),
    ensures
        gltf_root_among(t, m),
    decreases m - n,
{
    if n < m {
        lemma_gltf_root_among(t, n, (m - 1) as nat);
    }
}

/// Whether a value is, or holds somewhere inside, the root of a glTF scene.
pub fn contains_gltf_scene_root(value: &Json) -> (r: bool)
    ensures
        r == has_gltf_root(value@),
    decreases value,
{
    if text_is(get(get(Some(value), "osg.MatrixTransform"), "Name"), "GLTF_SceneRootNode") {
        return true;
    }
    let n: usize = kid_count(value);
    let mut i: usize = 0;
    while i < n
        invariant
            i <= n == kids(value@).len(),
            !is_gltf_root(value@),
            !gltf_root_among(value@, i as nat),
        decreases n - i,
    {
        let child = kid(value, i);
        if contains_gltf_scene_root(child) {
            proof {
                lemma_gltf_root_among(value@, (i + 1) as nat, kids(value@).len());
            }
            return true;
        }
        i += 1;
    }
    false
}

/// Whether a value has, or holds somewhere inside, a list of texture bindings.
pub open spec fn has_texture_attributes(t: Tree) -> bool
    decreases t, kids(t).len() + 1,
{
    get_of(Some(t), "TextureAttributeList"@) is Some || texture_attributes_among(t, kids(t).len())
}

/// Whether that holds of one of the first `n` values inside a value.
pub open spec fn texture_attributes_among(t: Tree, n: nat) -> bool
    decreases t, n,
{
    if n == 0 || n > kids(t).len() {
        false
    } else {
        proof {
            lemma_kid_descends(t, n - 1);
        }
        texture_attributes_among(t, (n - 1) as nat) || has_texture_attributes(kids(t)[n - 1])
    }
}

/// What is found early is found.
proof fn lemma_texture_attributes_among(t: Tree, n: nat, m: nat)
    requires
        n <= m <= kids(t).len(),
        texture_attributes_among(t, n),
    ensures
        texture_attributes_among(t, m),
    decreases m - n,
{
    if n < m {
        lemma_texture_attributes_among(t, n, (m - 1) as nat);
    }
}

/// Whether texture coordinates stay flipped, as they were decoded: if the model's description asks
/// for it, or the scene binds textures itself.
pub fn keeps_flip(flag: bool, osgjs: &Json) -> (r: bool)
    ensures
        r == (flag || has_texture_attributes(osgjs@)),
{
    flag || contains_texture_attributes(osgjs)
}

/// Whether a value has, or holds somewhere inside, a list of texture bindings.
pub fn contains_texture_attributes(value: &Json) -> (r: bool)
    ensures
        r == has_texture_attributes(value@),
    decreases value,
{
    if get(Some(value), "TextureAttributeList").is_some() {
        return true;
    }
    let n: usize = kid_count(value);
    let mut i: usize = 0;
    while i < n
        invariant
            i <= n == kids(value@).len(),
            get_of(Some(value@), "TextureAttributeList"@) is None,
            !texture_attributes_among(value@, i as nat),
        decreases n - i,
    {
        let child = kid(value, i);
        if contains_texture_attributes(child) {
            proof {
                lemma_texture_attributes_among(value@, (i + 1) as nat, kids(value@).len());
            }
            return true;
        }
        i += 1;
    }
    false
}

/// The numbers of an array, as binary32 patterns: as many as `fallback` has, with `fallback`'s
/// where the array has no number, and `fallback` itself where there is no array.
pub open spec fn singles_of(v: Option<Tree>, fallback: Seq<u32>) -> Seq<u32> {
    if v matches Some(Tree::Array(_)) {
        Seq::new(fallback.len(), |i: int| single_or_of(item_of(v, i), fallback[i]))
    } else {
        fallback
    }
}

/// The numbers of an array, with a fallback for each.
pub fn vec_from(value: Option<&Json>, fallback: &[u32]) -> (r: Vec<u32>)
    ensures
        r@ == singles_of(tree_of(value), fallback@),
{
    let is_array = match value {
        Some(Json::Array(_)) => true,
        _ => false,
    };
    let mut out: Vec<u32> = Vec::new();
    let mut i: usize = 0;
    while i < fallback.len()
        invariant
            i <= fallback@.len(),
            is_array == (tree_of(value) matches Some(Tree::Array(_))),
            out@ == singles_of(tree_of(value), fallback@).take(i as int),
        decreases fallback@.len() - i,
    {
        let one: u32 = if is_array {
            single_or(crate::json::item(value, i), fallback[i])
        } else {
            fallback[i]
        };
        out.push(one);
        i += 1;
        assert(out@ =~= singles_of(tree_of(value), fallback@).take(i as int));
    }
    assert(out@ =~= singles_of(tree_of(value), fallback@));
    out
}

/// The identity matrix.
pub open spec fn identity_of() -> Seq<u32> {
    seq![ONE, 0, 0, 0, 0, ONE, 0, 0, 0, 0, ONE, 0, 0, 0, 0, ONE]
}

/// The matrix that takes native coordinates, in which the third axis points up, to those of glTF,
/// in which the second one does.
pub open spec fn upright_of() -> Seq<u32> {
    seq![ONE, 0, 0, 0, 0, 0, MINUS_ONE, 0, 0, ONE, 0, 0, 0, 0, 0, ONE]
}

/// The matrix that a value describes, the identity where it describes none.
pub fn matrix16(value: Option<&Json>) -> (r: Matrix)
    ensures
        r@ == singles_of(tree_of(value), identity_of()),
{
    let fallback: [u32; 16] = [ONE, 0, 0, 0, 0, ONE, 0, 0, 0, 0, ONE, 0, 0, 0, 0, ONE];
    assert(fallback@ =~= identity_of());
    let v = vec_from(value, &fallback);
    let r: [u32; 16] = [
        v[0],
        v[1],
        v[2],
        v[3],
        v[4],
        v[5],
        v[6],
        v[7],
        v[8],
        v[9],
        v[10],
        v[11],
        v[12],
        v[13],
        v[14],
        v[15],
    ];
    assert(r@ =~= v@);
    r
}

/// The matrix that takes a scene's coordinates to those of glTF: the identity if the scene comes
/// from a glTF file.
pub open spec fn scene_matrix_of(scene: Tree) -> Seq<u32> {
    if has_gltf_root(scene) {
        identity_of()
    } else {
        upright_of()
    }
}

/// The matrix that takes a scene's coordinates to those of glTF.
pub fn scene_coordinate_matrix(scene: &Json) -> (r: Matrix)
    ensures
        r@ == scene_matrix_of(scene@),
{
    if contains_gltf_scene_root(scene) {
        matrix16(None)
    } else {
        let r: [u32; 16] = [ONE, 0, 0, 0, 0, 0, MINUS_ONE, 0, 0, ONE, 0, 0, 0, 0, 0, ONE];
        assert(r@ =~= upright_of());
        r
    }
}

/// Translation, rotation and scale, as binary32 patterns.
#[verifier::ext_equal]
pub ghost struct TrsView {
    pub translation: Seq<u32>,
    pub rotation: Seq<u32>,
    pub scale: Seq<u32>,
}

/// The bone transforms that are stacked on a bone.
pub open spec fn stacked_of(bone: Tree) -> Seq<Tree> {
    items_of(
        get_of(
            get_of(
                get_or_item_of(get_of(Some(bone), "UpdateCallbacks"@), "0"@, 0),
                "osgAnimation.UpdateBone"@,
            ),
            "StackedTransforms"@,
        ),
    )
}

/// The placement after the first `n` stacked transforms: of each kind the last one counts.
pub open spec fn stacked_trs(transforms: Seq<Tree>, n: int) -> TrsView
    decreases n,
{
    if n <= 0 {
        TrsView {
            translation: seq![0, 0, 0],
            rotation: seq![0, 0, 0, ONE],
            scale: seq![ONE, ONE, ONE],
        }
    } else {
        let before = stacked_trs(transforms, n - 1);
        let t = Some(transforms[n - 1]);
        let moved = get_of(get_of(t, "osgAnimation.StackedTranslate"@), "Translate"@);
        let turned = get_of(get_of(t, "osgAnimation.StackedQuaternion"@), "Quaternion"@);
        let sized = get_of(get_of(t, "osgAnimation.StackedScale"@), "Scale"@);
        if moved is Some {
            TrsView { translation: singles_of(moved, seq![0, 0, 0]), ..before }
        } else if turned is Some {
            TrsView { rotation: singles_of(turned, seq![0, 0, 0, ONE]), ..before }
        } else if sized is Some {
            TrsView { scale: singles_of(sized, seq![ONE, ONE, ONE]), ..before }
        } else {
            before
        }
    }
}

/// Where a bone stands.
pub open spec fn bone_trs_of(bone: Tree) -> TrsView {
    stacked_trs(stacked_of(bone), stacked_of(bone).len() as int)
}

/// Where a bone stands: translation, rotation and scale.
pub fn bone_trs(bone: &Json) -> (r: (Vec<u32>, Vec<u32>, Vec<u32>))
    ensures
        (TrsView { translation: r.0@, rotation: r.1@, scale: r.2@ }) == bone_trs_of(bone@),
{
    let zeros: [u32; 3] = [0, 0, 0];
    let turn: [u32; 4] = [0, 0, 0, ONE];
    let ones: [u32; 3] = [ONE, ONE, ONE];
    assert(zeros@ =~= seq![0, 0, 0]);
    assert(turn@ =~= seq![0, 0, 0, ONE]);
    assert(ones@ =~= seq![ONE, ONE, ONE]);
    let mut translation = vec_from(None, &zeros);
    let mut rotation = vec_from(None, &turn);
    let mut scale = vec_from(None, &ones);
    let callbacks = get(Some(bone), "UpdateCallbacks");
    let stack = get(
        get(get_or_item(callbacks, "0", 0), "osgAnimation.UpdateBone"),
        "StackedTransforms",
    );
    match crate::json::array(stack) {
        Some(transforms) => {
            let ghost list = trees(transforms@);
            let mut i: usize = 0;
            while i < transforms.len()
                invariant
                    i <= transforms@.len(),
                    list == trees(transforms@),
                    zeros@ == seq![0u32, 0, 0],
                    turn@ == seq![0, 0, 0, ONE],
                    ones@ == seq![ONE, ONE, ONE],
                    (TrsView { translation: translation@, rotation: rotation@, scale: scale@ })
                        == stacked_trs(list, i as int),
                decreases transforms@.len() - i,
            {
                let t = Some(&transforms[i]);
                let moved = get(get(t, "osgAnimation.StackedTranslate"), "Translate");
                let turned = get(get(t, "osgAnimation.StackedQuaternion"), "Quaternion");
                let sized = get(get(t, "osgAnimation.StackedScale"), "Scale");
                assert(list[i as int] == transforms@[i as int]@);
                if moved.is_some() {
                    translation = vec_from(moved, &zeros);
                } else if turned.is_some() {
                    rotation = vec_from(turned, &turn);
                } else if sized.is_some() {
                    scale = vec_from(sized, &ones);
                }
                i += 1;
            }
        },
        None => {},
    }
    (translation, rotation, scale)
}

/// Whether a text consists of decimal digits.
pub open spec fn all_digits(s: Seq<char>) -> bool {
    forall|i: int| 0 <= i < s.len() ==> '0' <= #[trigger] s[i] <= '9'
}

/// A name without the number behind its last underscore.
pub open spec fn base_name(name: Seq<char>) -> Seq<char> {
    match rfind_of(name, '_', name.len() as int) {
        Some(i) => if i + 1 < name.len() && all_digits(name.skip(i + 1)) {
            name.take(i)
        } else {
            name
        },
        None => name,
    }
}

/// A name without the number behind its last underscore.
pub fn without_numeric_suffix(name: &str) -> (r: String)
    ensures
        r@ == base_name(name@),
{
    let s = chars_of(name);
    match rfind_char(s.as_slice(), '_', s.len()) {
        Some(at) => {
            let mut digits = at + 1 < s.len();
            let mut i: usize = at + 1;
            while i < s.len()
                invariant
                    at + 1 <= i <= s@.len(),
                    digits <==> at + 1 < s@.len() && forall|k: int|
                        at + 1 <= k < i ==> '0' <= #[trigger] s@[k] <= '9',
                decreases s@.len() - i,
            {
                if s[i] < '0' || s[i] > '9' {
                    digits = false;
                }
                i += 1;
            }
            proof {
                let tail = s@.skip(at + 1);
                if digits {
                    assert forall|k: int| 0 <= k < tail.len() implies '0' <= #[trigger] tail[k]
                        <= '9' by {
                        assert(tail[k] == s@[at + 1 + k]);
                    }
                } else if at + 1 < s@.len() && all_digits(tail) {
                    assert forall|k: int| at + 1 <= k < s@.len() implies '0' <= #[trigger] s@[k]
                        <= '9' by {
                        assert(tail[k - at - 1] == s@[k]);
                    }
                }
                assert(s@.subrange(0, at as int) =~= s@.take(at as int));
            }
            if digits {
                return string_of(part_of(s.as_slice(), 0, at).as_slice());
            }
            string_of(s.as_slice())
        },
        None => string_of(s.as_slice()),
    }
}

/// Taking the number off a name's end leaves a name that starts the old one, and a name without
/// such a number stays as it is.
pub proof fn law_base_name_is_prefix(name: Seq<char>)
    ensures
        base_name(name).is_prefix_of(name),
        !name.contains('_') ==> base_name(name) == name,
{
    lemma_rfind(name, '_', name.len() as int);
    match rfind_of(name, '_', name.len() as int) {
        Some(i) => {
            assert(name[i] == '_');
            assert(name.take(i) =~= name.take(name.take(i).len() as int));
        },
        None => {},
    }
    assert(name =~= name.take(name.len() as int));
}

/// Where the last occurrence of a character is.
pub proof fn lemma_rfind(s: Seq<char>, c: char, end: int)
    ensures
        rfind_of(s, c, end) matches Some(i) ==> 0 <= i < end && i < s.len() && s[i] == c,
    decreases end,
{
    if 0 < end <= s.len() && s[end - 1] != c {
        lemma_rfind(s, c, end - 1);
    }
}

/// The nodes of the skeletons found so far.
pub struct Skeleton {
    pub nodes: Vec<Node>,
    /// The node of each name.
    pub names: StringHashMap<usize>,
    /// The inverse bind matrix of each bone that has one.
    pub binds: StringHashMap<Matrix>,
}

/// The mathematical counterpart of [`Skeleton`].
#[verifier::ext_equal]
pub ghost struct SkeletonView {
    pub nodes: Seq<NodeView>,
    pub names: Map<Seq<char>, usize>,
    pub binds: Map<Seq<char>, Matrix>,
}

impl View for Skeleton {
    type V = SkeletonView;

    open spec fn view(&self) -> SkeletonView {
        SkeletonView { nodes: views(self.nodes@), names: self.names@, binds: self.binds@ }
    }
}

impl SkeletonView {
    /// Whether children and names are those of nodes that exist, and nodes form trees.
    pub open spec fn wf(self) -> bool {
        &&& is_forest(self.nodes)
        &&& forall|i: int|
            0 <= i < self.nodes.len() ==> node_ok(
                #[trigger] self.nodes[i],
                self.nodes.len() as int,
                0,
                0,
            )
        &&& forall|name: Seq<char>| #[trigger]
            self.names.contains_key(name) ==> self.names[name] < self.nodes.len()
    }
}

/// Whether `after` holds the nodes that `before` does, and perhaps more behind them, whose children
/// stand behind them.
pub open spec fn nodes_grow(before: Seq<NodeView>, after: Seq<NodeView>) -> bool {
    &&& before.len() <= after.len()
    &&& forall|p: int| 0 <= p < before.len() ==> #[trigger] after[p] == before[p]
    &&& forall|p: int, i: int| #[trigger]
        has_child(after, p, i) && p >= before.len() ==> child(after, p, i) > p
}

/// Whether the nodes of a list stand in ascending order behind the first `from` nodes, and are
/// nobody's children.
pub open spec fn free_nodes(nodes: Seq<NodeView>, list: Seq<usize>, from: int) -> bool {
    &&& forall|k: int|
        0 <= k < list.len() ==> from <= #[trigger] list[k] < nodes.len() && unclaimed(
            nodes,
            list[k] as int,
        )
    &&& forall|j: int, k: int| 0 <= j < k < list.len() ==> #[trigger] list[j] < #[trigger] list[k]
}

/// New nodes claim none of the nodes before them.
proof fn lemma_growth_claims_nothing(before: Seq<NodeView>, after: Seq<NodeView>, k: int)
    requires
        nodes_grow(before, after),
        k < before.len(),
        unclaimed(before, k),
    ensures
        unclaimed(after, k),
{
    assert forall|p: int, i: int| #[trigger] has_child(after, p, i) implies child(after, p, i)
        != k by {
        if p < before.len() {
            assert(after[p] == before[p]);
            assert(has_child(before, p, i));
        }
    }
}

/// Growth upon growth is growth.
proof fn lemma_growth_joins(a: Seq<NodeView>, b: Seq<NodeView>, c: Seq<NodeView>)
    requires
        nodes_grow(a, b),
        nodes_grow(b, c),
    ensures
        nodes_grow(a, c),
{
    assert forall|p: int| 0 <= p < a.len() implies #[trigger] c[p] == a[p] by {
        assert(b[p] == a[p]);
    }
    assert forall|p: int, i: int| #[trigger] has_child(c, p, i) && p >= a.len() implies child(
        c,
        p,
        i,
    ) > p by {
        if p < b.len() {
            assert(c[p] == b[p]);
            assert(has_child(b, p, i));
        }
    }
}

/// Free nodes stay free when nodes are added.
proof fn lemma_free_nodes_stay(
    before: Seq<NodeView>,
    after: Seq<NodeView>,
    list: Seq<usize>,
    from: int,
)
    requires
        nodes_grow(before, after),
        free_nodes(before, list, from),
    ensures
        free_nodes(after, list, from),
{
    assert forall|k: int| 0 <= k < list.len() implies from <= #[trigger] list[k] < after.len()
        && unclaimed(after, list[k] as int) by {
        lemma_growth_claims_nothing(before, after, list[k] as int);
    }
}

/// A childless node that stands at `at` can be given free nodes behind it as children.
proof fn lemma_adopting(nodes: Seq<NodeView>, at: int, node: NodeView)
    requires
        is_forest(nodes),
        0 <= at < nodes.len(),
        nodes[at].children.len() == 0,
        free_nodes(nodes, node.children, at + 1),
        forall|p: int, i: int| #[trigger]
            has_child(nodes, p, i) && p > at ==> child(nodes, p, i) > p,
    ensures
        is_forest(nodes.update(at, node)),
        forall|k: int|
            k <= at && unclaimed(nodes, k) ==> #[trigger] unclaimed(nodes.update(at, node), k),
{
    let after = nodes.update(at, node);
    assert forall|p: int, i: int| #[trigger] has_child(after, p, i) && p != at implies has_child(
        nodes,
        p,
        i,
    ) && child(after, p, i) == child(nodes, p, i) by {}
    assert forall|k: int| k <= at && unclaimed(nodes, k) implies #[trigger] unclaimed(
        after,
        k,
    ) by {
        assert forall|p: int, i: int| #[trigger] has_child(after, p, i) implies child(after, p, i)
            != k by {
            if p == at {
                assert(node.children[i] >= at + 1);
            } else {
                assert(has_child(nodes, p, i));
            }
        }
    }
    assert forall|p: int, i: int| #[trigger] has_child(after, p, i) implies child(after, p, i)
        < after.len() && (child(after, p, i) > p || unclaimed(after, p)) by {
        if p == at {
            assert(node.children[i] >= at + 1);
        } else {
            assert(has_child(nodes, p, i));
            if child(nodes, p, i) <= p {
                assert(unclaimed(nodes, p));
                assert forall|q: int, j: int| #[trigger] has_child(after, q, j) implies child(
                    after,
                    q,
                    j,
                ) != p by {
                    if q != at {
                        assert(has_child(nodes, q, j));
                    } else {
                        assert(node.children[j] >= at + 1);
                    }
                }
            }
        }
    }
    assert forall|p: int, i: int, q: int, j: int| #[trigger]
        has_child(after, p, i) && #[trigger] has_child(after, q, j) && child(after, p, i) == child(
            after,
            q,
            j,
        ) implies p == q && i == j by {
        if p == at && q == at {
            if i < j {
                assert(node.children[i] < node.children[j]);
            } else if j < i {
                assert(node.children[j] < node.children[i]);
            }
        } else if p == at {
            assert(has_child(nodes, q, j));
            assert(unclaimed(nodes, node.children[i] as int));
        } else if q == at {
            assert(has_child(nodes, p, i));
            assert(unclaimed(nodes, node.children[j] as int));
        } else {
            assert(has_child(nodes, p, i) && has_child(nodes, q, j));
        }
    }
}

/// A node that is added, followed by others, and then given children from among these, is growth.
proof fn lemma_adoption_grows(
    start: Seq<NodeView>,
    placed: Seq<NodeView>,
    grown: Seq<NodeView>,
    node: NodeView,
)
    requires
        placed.len() == start.len() + 1,
        placed.take(start.len() as int) == start,
        nodes_grow(placed, grown),
        free_nodes(grown, node.children, start.len() as int + 1),
    ensures
        nodes_grow(start, grown.update(start.len() as int, node)),
{
    let at = start.len() as int;
    let after = grown.update(at, node);
    assert forall|p: int| 0 <= p < start.len() implies #[trigger] after[p] == start[p] by {
        assert(grown[p] == placed[p]);
        assert(placed.take(at)[p] == placed[p]);
    }
    assert forall|p: int, i: int| #[trigger] has_child(after, p, i) && p >= at implies child(
        after,
        p,
        i,
    ) > p by {
        if p == at {
            assert(node.children[i] >= at + 1);
        } else {
            assert(has_child(grown, p, i));
        }
    }
}

/// A node behind all others can be given free nodes as children, if the children of these stand
/// behind them.
proof fn lemma_topping(nodes: Seq<NodeView>, from: int, node: NodeView)
    requires
        is_forest(nodes),
        free_nodes(nodes, node.children, from),
        forall|p: int, i: int| #[trigger]
            has_child(nodes, p, i) && p >= from ==> child(nodes, p, i) > p,
    ensures
        is_forest(nodes.push(node)),
        unclaimed(nodes.push(node), nodes.len() as int),
        forall|k: int|
            k < from && unclaimed(nodes, k) ==> #[trigger] unclaimed(nodes.push(node), k),
{
    let after = nodes.push(node);
    let at = nodes.len() as int;
    assert forall|p: int, i: int| #[trigger] has_child(after, p, i) && p != at implies has_child(
        nodes,
        p,
        i,
    ) && child(after, p, i) == child(nodes, p, i) by {}
    assert forall|p: int, i: int| #[trigger] has_child(after, p, i) implies child(after, p, i)
        < at by {
        if p == at {
            assert(node.children[i] < nodes.len());
        } else {
            assert(has_child(nodes, p, i));
        }
    }
    assert forall|k: int| k < from && unclaimed(nodes, k) implies #[trigger] unclaimed(
        after,
        k,
    ) by {
        assert forall|p: int, i: int| #[trigger] has_child(after, p, i) implies child(after, p, i)
            != k by {
            if p == at {
                assert(node.children[i] >= from);
            } else {
                assert(has_child(nodes, p, i));
            }
        }
    }
    assert forall|p: int, i: int| #[trigger] has_child(after, p, i) implies child(after, p, i)
        < after.len() && (child(after, p, i) > p || unclaimed(after, p)) by {
        if p != at {
            assert(has_child(nodes, p, i));
            if child(nodes, p, i) <= p {
                assert(p < from);
                assert(unclaimed(nodes, p));
            }
        }
    }
    assert forall|p: int, i: int, q: int, j: int| #[trigger]
        has_child(after, p, i) && #[trigger] has_child(after, q, j) && child(after, p, i) == child(
            after,
            q,
            j,
        ) implies p == q && i == j by {
        if p == at && q == at {
            if i < j {
                assert(node.children[i] < node.children[j]);
            } else if j < i {
                assert(node.children[j] < node.children[i]);
            }
        } else if p == at {
            assert(has_child(nodes, q, j));
            assert(unclaimed(nodes, node.children[i] as int));
        } else if q == at {
            assert(has_child(nodes, p, i));
            assert(unclaimed(nodes, node.children[j] as int));
        } else {
            assert(has_child(nodes, p, i) && has_child(nodes, q, j));
        }
    }
}

/// A map with one more entry, unless the key has one.
pub open spec fn or_insert<V>(map: Map<Seq<char>, V>, key: Seq<char>, value: V) -> Map<
    Seq<char>,
    V,
> {
    if map.contains_key(key) {
        map
    } else {
        map.insert(key, value)
    }
}

/// The matrix of a list of sixteen numbers.
pub open spec fn to_matrix(s: Seq<u32>) -> Matrix {
    choose|m: Matrix| m@ == s
}

/// The matrix of a list is the one with those numbers.
pub proof fn lemma_to_matrix(m: Matrix)
    ensures
        to_matrix(m@) == m,
{
    let c = to_matrix(m@);
    assert(c@ == m@);
    assert(c =~= m);
}

/// The node of a bone before its children are known.
pub open spec fn bone_node(bone: Tree, name: Seq<char>, children: Seq<usize>) -> NodeView {
    let trs = bone_trs_of(bone);
    NodeView {
        name,
        children,
        placement: PlacementView::Trs(trs.translation, trs.rotation, trs.scale),
        mesh: None,
        skin: None,
    }
}

/// The skeleton after a bone and all bones below it, and the bone's node. A value that is no
/// named bone adds nothing.
pub open spec fn bone_added(wrapper: Tree, s: SkeletonView) -> (SkeletonView, Option<usize>)
    decreases wrapper, 0nat,
{
    match get_of(Some(wrapper), "osgAnimation.Bone"@) {
        None => (s, None),
        Some(bone) => match text_of(get_of(Some(bone), "Name"@)) {
            None => (s, None),
            Some(name) => {
                proof {
                    lemma_get_descends(wrapper, "osgAnimation.Bone"@);
                }
                let index = s.nodes.len() as usize;
                let placed = SkeletonView {
                    nodes: s.nodes.push(bone_node(bone, name, Seq::empty())),
                    ..s
                };
                let count = items_of(get_of(Some(bone), "Children"@)).len();
                let (after, children) = bones_added(bone, count, placed);
                let inverse = get_of(Some(bone), "InvBindMatrixInSkeletonSpace"@);
                let done = SkeletonView {
                    nodes: after.nodes.update(index as int, bone_node(bone, name, children)),
                    names: or_insert(after.names.insert(name, index), base_name(name), index),
                    binds: if inverse is Some {
                        after.binds.insert(name, to_matrix(singles_of(inverse, identity_of())))
                    } else {
                        after.binds
                    },
                };
                (done, Some(index))
            },
        },
    }
}

/// The skeleton after the first `n` children of a bone or skeleton, and the nodes of those that
/// are bones.
pub open spec fn bones_added(parent: Tree, n: nat, s: SkeletonView) -> (SkeletonView, Seq<usize>)
    decreases parent, n,
{
    let items = items_of(get_of(Some(parent), "Children"@));
    if n == 0 || n > items.len() {
        (s, Seq::empty())
    } else {
        proof {
            lemma_get_item_descends(parent, "Children"@, n - 1);
        }
        let (before, list) = bones_added(parent, (n - 1) as nat, s);
        let (after, node) = bone_added(items[n - 1], before);
        (
            after,
            match node {
                Some(index) => list.push(index),
                None => list,
            },
        )
    }
}

/// Bones only ever add nodes.
pub proof fn lemma_bone_grows(wrapper: Tree, s: SkeletonView)
    ensures
        bone_added(wrapper, s).0.nodes.len() >= s.nodes.len(),
        bone_added(wrapper, s).1 is Some ==> bone_added(wrapper, s).0.nodes.len() > s.nodes.len(),
    decreases wrapper, 0nat,
{
    match get_of(Some(wrapper), "osgAnimation.Bone"@) {
        None => {},
        Some(bone) => match text_of(get_of(Some(bone), "Name"@)) {
            None => {},
            Some(name) => {
                lemma_get_descends(wrapper, "osgAnimation.Bone"@);
                let placed = SkeletonView {
                    nodes: s.nodes.push(bone_node(bone, name, Seq::empty())),
                    ..s
                };
                lemma_bones_grow(
                    bone,
                    items_of(get_of(Some(bone), "Children"@)).len(),
                    placed,
                );
            },
        },
    }
}

/// Bones only ever add nodes.
pub proof fn lemma_bones_grow(parent: Tree, n: nat, s: SkeletonView)
    ensures
        bones_added(parent, n, s).0.nodes.len() >= s.nodes.len(),
    decreases parent, n,
{
    let items = items_of(get_of(Some(parent), "Children"@));
    if n == 0 || n > items.len() {
    } else {
        lemma_bones_grow(parent, (n - 1) as nat, s);
        lemma_get_item_descends(parent, "Children"@, n - 1);
        lemma_bone_grows(items[n - 1], bones_added(parent, (n - 1) as nat, s).0);
    }
}

/// Adds the bones among the children of a bone or skeleton.
fn add_bones(parent: &Json, skeleton: &mut Skeleton) -> (r: Vec<usize>)
    ensures
        (final(skeleton)@, r@) == bones_added(
            parent@,
            items_of(get_of(Some(parent@), "Children"@)).len(),
            old(skeleton)@,
        ),
        old(skeleton)@.wf() ==> {
            &&& final(skeleton)@.wf()
            &&& nodes_grow(old(skeleton)@.nodes, final(skeleton)@.nodes)
            &&& free_nodes(final(skeleton)@.nodes, r@, old(skeleton)@.nodes.len() as int)
        },
    decreases parent,
{
    let ghost start = skeleton@;
    let mut list: Vec<usize> = Vec::new();
    match items_under(parent, "Children") {
        Some(items) => {
            let mut i: usize = 0;
            while i < items.len()
                invariant
                    i <= items@.len(),
                    items_of(get_of(Some(parent@), "Children"@)) == trees(items@),
                    forall|k: int|
                        #![trigger items@[k]]
                        0 <= k < items@.len() ==> decreases_to!(*parent => items@[k]),
                    (skeleton@, list@) == bones_added(parent@, i as nat, start),
                    start.wf() ==> {
                        &&& skeleton@.wf()
                        &&& nodes_grow(start.nodes, skeleton@.nodes)
                        &&& free_nodes(skeleton@.nodes, list@, start.nodes.len() as int)
                    },
                decreases items@.len() - i,
            {
                let one = &items[i];
                assert(trees(items@)[i as int] == one@);
                let ghost before = skeleton@;
                let ghost earlier = list@;
                match add_bone_node(one, skeleton) {
                    Some(index) => {
                        list.push(index);
                    },
                    None => {},
                }
                proof {
                    if start.wf() {
                        lemma_growth_joins(start.nodes, before.nodes, skeleton@.nodes);
                        lemma_free_nodes_stay(
                            before.nodes,
                            skeleton@.nodes,
                            earlier,
                            start.nodes.len() as int,
                        );
                        assert forall|k: int| 0 <= k < list@.len() implies start.nodes.len()
                            <= #[trigger] list@[k] < skeleton@.nodes.len() && unclaimed(
                            skeleton@.nodes,
                            list@[k] as int,
                        ) by {
                            if k < earlier.len() {
                                assert(list@[k] == earlier[k]);
                            }
                        }
                        assert forall|j: int, k: int| 0 <= j < k < list@.len() implies #[trigger]
                            list@[j] < #[trigger] list@[k] by {
                            assert(list@[j] == earlier[j]);
                            assert(earlier[j] < before.nodes.len());
                            if k < earlier.len() {
                                assert(list@[k] == earlier[k]);
                            }
                        }
                    }
                }
                i += 1;
            }
        },
        None => {},
    }
    list
}

/// Adds a bone and all bones below it. Returns the bone's node, nothing if the value is no named
/// bone.
pub fn add_bone_node(wrapper: &Json, skeleton: &mut Skeleton) -> (r: Option<usize>)
    ensures
        (final(skeleton)@, r) == bone_added(wrapper@, old(skeleton)@),
        old(skeleton)@.wf() ==> {
            &&& final(skeleton)@.wf()
            &&& nodes_grow(old(skeleton)@.nodes, final(skeleton)@.nodes)
            &&& r matches Some(index) ==> index == old(skeleton)@.nodes.len() && index
                < final(skeleton)@.nodes.len() && unclaimed(
                final(skeleton)@.nodes,
                index as int,
            )
        },
    decreases wrapper,
{
    let bone = match get(Some(wrapper), "osgAnimation.Bone") {
        Some(b) => b,
        None => {
            return None;
        },
    };
    let name = match text(get(Some(bone), "Name")) {
        Some(n) => n,
        None => {
            return None;
        },
    };
    let (translation, rotation, scale) = bone_trs(bone);
    let index: usize = skeleton.nodes.len();
    let node = Node {
        name: name.clone(),
        children: Vec::new(),
        placement: Placement::Trs(translation, rotation, scale),
        mesh: None,
        skin: None,
    };
    proof {
        lemma_views_push(skeleton.nodes@, node);
        assert(node@ =~= bone_node(bone@, name@, Seq::empty()));
    }
    let ghost start = skeleton@;
    skeleton.nodes.push(node);
    let ghost placed = skeleton@;
    proof {
        assert(placed.nodes =~= start.nodes.push(node@));
        if start.wf() {
            lemma_leaf_keeps_forest(start.nodes, node@);
            assert forall|i: int| 0 <= i < placed.nodes.len() implies node_ok(
                #[trigger] placed.nodes[i],
                placed.nodes.len() as int,
                0,
                0,
            ) by {
                if i < start.nodes.len() {
                    assert(placed.nodes[i] == start.nodes[i]);
                    assert(node_ok(start.nodes[i], start.nodes.len() as int, 0, 0));
                }
            }
            assert(placed.names == start.names);
            assert(placed.wf());
        }
    }
    let children = add_bones(bone, skeleton);
    proof {
        lemma_bones_grow(bone@, items_of(get_of(Some(bone@), "Children"@)).len(), placed);
    }
    let (translation, rotation, scale) = bone_trs(bone);
    let node = Node {
        name: name.clone(),
        children,
        placement: Placement::Trs(translation, rotation, scale),
        mesh: None,
        skin: None,
    };
    proof {
        lemma_views_update(skeleton.nodes@, index as int, node);
        assert(node@ =~= bone_node(bone@, name@, children@));
    }
    let ghost grown = skeleton@;
    skeleton.nodes.set(index, node);
    proof {
        assert(skeleton@.nodes =~= grown.nodes.update(index as int, node@));
        if start.wf() {
            lemma_growth_claims_nothing(placed.nodes, grown.nodes, index as int);
            assert(grown.nodes[index as int] == placed.nodes[index as int]);
            lemma_adopting(grown.nodes, index as int, node@);
            assert(placed.nodes.take(start.nodes.len() as int) =~= start.nodes);
            lemma_adoption_grows(start.nodes, placed.nodes, grown.nodes, node@);
            assert forall|i: int| 0 <= i < skeleton@.nodes.len() implies node_ok(
                #[trigger] skeleton@.nodes[i],
                skeleton@.nodes.len() as int,
                0,
                0,
            ) by {
                if i != index {
                    assert(skeleton@.nodes[i] == grown.nodes[i]);
                }
            }
        }
    }
    let ghost nodes = skeleton@.nodes;
    skeleton.names.insert(name.clone(), index);
    let base = without_numeric_suffix(name.as_str());
    if !skeleton.names.contains_key(base.as_str()) {
        skeleton.names.insert(base, index);
    }
    let inverse = get(Some(bone), "InvBindMatrixInSkeletonSpace");
    if inverse.is_some() {
        let m = matrix16(inverse);
        proof {
            lemma_to_matrix(m);
        }
        skeleton.binds.insert(name.clone(), m);
    }
    proof {
        assert(skeleton@.nodes == nodes);
        if start.wf() {
            assert(is_forest(nodes));
            assert(unclaimed(nodes, index as int));
            assert(nodes_grow(start.nodes, nodes));
            assert forall|k: Seq<char>| #[trigger] skeleton@.names.contains_key(k) implies
                skeleton@.names[k] < nodes.len() by {
                if k != name@ && k != base_name(name@) {
                    assert(grown.names.contains_key(k));
                }
            }
            assert(skeleton@.wf());
        }
    }
    Some(index)
}

/// What is gathered while a scene is searched for skeletons.
pub struct Gathered {
    pub skeleton: Skeleton,
    pub roots: Vec<usize>,
    pub seen: HashSet<u64>,
}

/// The mathematical counterpart of [`Gathered`].
#[verifier::ext_equal]
pub ghost struct GatheredView {
    pub skeleton: SkeletonView,
    pub roots: Seq<usize>,
    pub seen: Set<u64>,
}

impl View for Gathered {
    type V = GatheredView;

    open spec fn view(&self) -> GatheredView {
        GatheredView { skeleton: self.skeleton@, roots: self.roots@, seen: self.seen@ }
    }
}

impl GatheredView {
    /// Whether children, names and roots are those of nodes that exist, and nodes form trees under
    /// the roots.
    pub open spec fn wf(self) -> bool {
        &&& self.skeleton.wf()
        &&& forall|i: int|
            0 <= i < self.roots.len() ==> #[trigger] self.roots[i] < self.skeleton.nodes.len()
                && unclaimed(self.skeleton.nodes, self.roots[i] as int)
    }
}

/// The list of matrices below a transform: one more, unless the transform is the root of a glTF
/// scene.
pub open spec fn path_below(transform: Tree, path: Seq<Matrix>) -> Seq<Matrix> {
    if text_of(get_of(Some(transform), "Name"@)) == Some("GLTF_SceneRootNode"@) {
        path
    } else {
        path.push(
            to_matrix(singles_of(get_of(Some(transform), "Matrix"@), identity_of())),
        )
    }
}

/// What a skeleton adds: its bones, and a node above them. A skeleton whose number was met before
/// adds nothing.
pub open spec fn skeleton_added(
    skeleton: Tree,
    path: Seq<Matrix>,
    g: GatheredView,
) -> GatheredView {
    let id = unique_id(skeleton);
    if id is Some && g.seen.contains(id->0) {
        g
    } else {
        let count = items_of(get_of(Some(skeleton), "Children"@)).len();
        let (after, children) = bones_added(skeleton, count, g.skeleton);
        let node = NodeView {
            name: match text_of(get_of(Some(skeleton), "Name"@)) {
                Some(n) => n,
                None => "Skeleton"@,
            },
            children,
            placement: PlacementView::Product(path),
            mesh: None,
            skin: None,
        };
        GatheredView {
            skeleton: SkeletonView { nodes: after.nodes.push(node), ..after },
            roots: g.roots.push(after.nodes.len() as usize),
            seen: match id {
                Some(i) => g.seen.insert(i),
                None => g.seen,
            },
        }
    }
}

/// The values to search below a value: a transform's children, or all that is inside any other.
pub open spec fn searched(t: Tree) -> Seq<Tree> {
    match get_of(Some(t), "osg.MatrixTransform"@) {
        Some(transform) => items_of(get_of(Some(transform), "Children"@)),
        None => kids(t),
    }
}

/// What is searched below a value stands below it.
pub proof fn lemma_searched_descends(t: Tree, i: int)
    requires
        0 <= i < searched(t).len(),
    ensures
        decreases_to!(t => searched(t)[i]),
{
    match get_of(Some(t), "osg.MatrixTransform"@) {
        Some(transform) => {
            lemma_get_descends(t, "osg.MatrixTransform"@);
            lemma_get_item_descends(transform, "Children"@, i);
        },
        None => {
            lemma_kid_descends(t, i);
        },
    }
}

/// What is gathered from a value whose coordinates are placed by the matrices of `path`.
pub open spec fn gathered(t: Tree, path: Seq<Matrix>, g: GatheredView) -> GatheredView
    decreases t, searched(t).len() + 1,
{
    match get_of(Some(t), "osgAnimation.Skeleton"@) {
        Some(skeleton) => skeleton_added(skeleton, path, g),
        None => gathered_below(
            t,
            searched(t).len(),
            match get_of(Some(t), "osg.MatrixTransform"@) {
                Some(transform) => path_below(transform, path),
                None => path,
            },
            g,
        ),
    }
}

/// What is gathered from the first `n` values below a value.
pub open spec fn gathered_below(
    t: Tree,
    n: nat,
    path: Seq<Matrix>,
    g: GatheredView,
) -> GatheredView
    decreases t, n,
{
    if n == 0 || n > searched(t).len() {
        g
    } else {
        proof {
            lemma_searched_descends(t, n - 1);
        }
        gathered(searched(t)[n - 1], path, gathered_below(t, (n - 1) as nat, path, g))
    }
}

/// A list of matrices with one more.
pub fn extended(path: &Vec<Matrix>, m: Matrix) -> (r: Vec<Matrix>)
    ensures
        r@ == path@.push(m),
{
    let mut r = path_copy(path);
    r.push(m);
    r
}

/// The same list of matrices again.
pub fn path_copy(path: &Vec<Matrix>) -> (r: Vec<Matrix>)
    ensures
        r@ == path@,
{
    let mut r: Vec<Matrix> = Vec::new();
    let mut i: usize = 0;
    while i < path.len()
        invariant
            i <= path@.len(),
            r@ == path@.take(i as int),
        decreases path@.len() - i,
    {
        r.push(path[i]);
        i += 1;
        assert(r@ =~= path@.take(i as int));
    }
    assert(r@ =~= path@);
    r
}

/// The list of matrices below a transform.
pub fn child_path(transform: &Json, path: &Vec<Matrix>) -> (r: Vec<Matrix>)
    ensures
        r@ == path_below(transform@, path@),
{
    if text_is(get(Some(transform), "Name"), "GLTF_SceneRootNode") {
        path_copy(path)
    } else {
        let m = matrix16(get(Some(transform), "Matrix"));
        proof {
            lemma_to_matrix(m);
        }
        extended(path, m)
    }
}

/// Adds a skeleton.
fn add_skeleton(skeleton: &Json, path: &Vec<Matrix>, g: &mut Gathered)
    ensures
        final(g)@ == skeleton_added(skeleton@, path@, old(g)@),
        old(g)@.wf() ==> final(g)@.wf(),
{
    let ghost start = g@;
    match unsigned(get(Some(skeleton), "UniqueID")) {
        Some(id) => {
            if g.seen.contains(&id) {
                return;
            }
            g.seen.insert(id);
        },
        None => {},
    }
    let children = add_bones(skeleton, &mut g.skeleton);
    let index: usize = g.skeleton.nodes.len();
    let name = match text(get(Some(skeleton), "Name")) {
        Some(n) => n.clone(),
        None => string_of(chars_of("Skeleton").as_slice()),
    };
    let node = Node {
        name,
        children,
        placement: Placement::Product(path_copy(path)),
        mesh: None,
        skin: None,
    };
    proof {
        lemma_views_push(g.skeleton.nodes@, node);
    }
    let ghost grown = g@;
    g.skeleton.nodes.push(node);
    g.roots.push(index);
    proof {
        assert(g@.skeleton.nodes =~= grown.skeleton.nodes.push(node@));
        if start.wf() {
            lemma_topping(grown.skeleton.nodes, start.skeleton.nodes.len() as int, node@);
            assert forall|i: int| 0 <= i < g@.roots.len() implies #[trigger] g@.roots[i]
                < g@.skeleton.nodes.len() && unclaimed(g@.skeleton.nodes, g@.roots[i] as int) by {
                if i < start.roots.len() {
                    assert(g@.roots[i] == start.roots[i]);
                    lemma_growth_claims_nothing(
                        start.skeleton.nodes,
                        grown.skeleton.nodes,
                        start.roots[i] as int,
                    );
                }
            }
        }
    }
}

/// Searches a scene for skeletons.
pub fn collect_skeleton_nodes(value: &Json, path: &Vec<Matrix>, g: &mut Gathered)
    ensures
        final(g)@ == gathered(value@, path@, old(g)@),
        old(g)@.wf() ==> final(g)@.wf(),
    decreases value,
{
    let ghost start = g@;
    match get(Some(value), "osgAnimation.Skeleton") {
        Some(skeleton) => {
            add_skeleton(skeleton, path, g);
            return;
        },
        None => {},
    }
    match get(Some(value), "osg.MatrixTransform") {
        Some(transform) => {
            let below = child_path(transform, path);
            match items_under(transform, "Children") {
                Some(items) => {
                    let mut i: usize = 0;
                    while i < items.len()
                        invariant
                            i <= items@.len(),
                            searched(value@) == trees(items@),
                            decreases_to!(*value => *transform),
                            forall|k: int|
                                #![trigger items@[k]]
                                0 <= k < items@.len() ==> decreases_to!(*transform => items@[k]),
                            g@ == gathered_below(value@, i as nat, below@, start),
                            start.wf() ==> g@.wf(),
                        decreases items@.len() - i,
                    {
                        let one = &items[i];
                        assert(trees(items@)[i as int] == one@);
                        collect_skeleton_nodes(one, &below, g);
                        i += 1;
                    }
                },
                None => {},
            }
        },
        None => {
            let n: usize = kid_count(value);
            let mut i: usize = 0;
            while i < n
                invariant
                    i <= n == kids(value@).len(),
                    searched(value@) == kids(value@),
                    g@ == gathered_below(value@, i as nat, path@, start),
                    start.wf() ==> g@.wf(),
                decreases n - i,
            {
                let one = kid(value, i);
                collect_skeleton_nodes(one, path, g);
                i += 1;
            }
        },
    }
}

/// The skeletons of a resolved scene.
pub fn collect_skeletons(scene: &Json) -> (r: Gathered)
    ensures
        r@ == gathered(
            scene@,
            seq![to_matrix(scene_matrix_of(scene@))],
            (GatheredView {
                skeleton: SkeletonView {
                    nodes: Seq::empty(),
                    names: Map::empty(),
                    binds: Map::empty(),
                },
                roots: Seq::empty(),
                seen: Set::empty(),
            }),
        ),
        r@.wf(),
{
    let m = scene_coordinate_matrix(scene);
    proof {
        lemma_to_matrix(m);
    }
    let mut path: Vec<Matrix> = Vec::new();
    path.push(m);
    assert(path@ =~= seq![m]);
    let mut g = Gathered {
        skeleton: Skeleton {
            nodes: Vec::new(),
            names: StringHashMap::new(),
            binds: StringHashMap::new(),
        },
        roots: Vec::new(),
        seen: HashSet::new(),
    };
    assert(g@ =~= (GatheredView {
        skeleton: SkeletonView { nodes: Seq::empty(), names: Map::empty(), binds: Map::empty() },
        roots: Seq::empty(),
        seen: Set::empty(),
    }));
    collect_skeleton_nodes(scene, &path, &mut g);
    g
}

/// The value of a stacked transform of a kind.
pub open spec fn stacked_value(t: Tree, kind: Seq<char>, value: Seq<char>) -> Option<Tree> {
    get_of(get_of(Some(t), kind), value)
}

/// Whether a stacked transform moves a bone.
pub open spec fn is_move(t: Tree) -> bool {
    stacked_value(t, "osgAnimation.StackedTranslate"@, "Translate"@) is Some
}

/// Whether a stacked transform turns a bone.
pub open spec fn is_turn(t: Tree) -> bool {
    !is_move(t) && stacked_value(t, "osgAnimation.StackedQuaternion"@, "Quaternion"@) is Some
}

/// Whether a stacked transform sizes a bone.
pub open spec fn is_sizing(t: Tree) -> bool {
    !is_move(t) && !is_turn(t) && stacked_value(t, "osgAnimation.StackedScale"@, "Scale"@) is Some
}

/// Whether numbers are those of a list, with a default for what is missing or no number.
pub open spec fn numbers_are(numbers: Seq<u32>, list: Seq<Tree>, defaults: Seq<u32>) -> bool {
    &&& numbers.len() == defaults.len()
    &&& forall|j: int|
        0 <= j < defaults.len() ==> #[trigger] numbers[j] == if j < list.len() && list[j] is Number {
            list[j]->Number_0.single
        } else {
            defaults[j]
        }
}

/// A transform that comes after another of its kind counts, and one of another kind does not
/// matter.
proof fn lemma_last_transform_counts(list: Seq<Tree>, n: int, k: int)
    requires
        0 <= k < n <= list.len(),
    ensures
        ({
            let trs = stacked_trs(list, n);
            let moved = stacked_value(list[k], "osgAnimation.StackedTranslate"@, "Translate"@);
            let turned = stacked_value(list[k], "osgAnimation.StackedQuaternion"@, "Quaternion"@);
            let sized = stacked_value(list[k], "osgAnimation.StackedScale"@, "Scale"@);
            &&& is_move(list[k]) && (forall|j: int| k < j < n ==> !is_move(#[trigger] list[j]))
                ==> trs.translation == singles_of(moved, seq![0, 0, 0])
            &&& is_turn(list[k]) && (forall|j: int| k < j < n ==> !is_turn(#[trigger] list[j]))
                ==> trs.rotation == singles_of(turned, seq![0, 0, 0, ONE])
            &&& is_sizing(list[k]) && (forall|j: int| k < j < n ==> !is_sizing(#[trigger] list[j]))
                ==> trs.scale == singles_of(sized, seq![ONE, ONE, ONE])
        }),
    decreases n,
{
    if k < n - 1 {
        lemma_last_transform_counts(list, n - 1, k);
        assert(list[n - 1] == list[n - 1]);
    }
}

/// Where there is no transform of a kind, the bone is as if it had none.
proof fn lemma_absent_transforms(list: Seq<Tree>, n: int)
    requires
        0 <= n <= list.len(),
    ensures
        ({
            let trs = stacked_trs(list, n);
            &&& (forall|j: int| 0 <= j < n ==> !is_move(#[trigger] list[j])) ==> trs.translation
                == seq![0u32, 0, 0]
            &&& (forall|j: int| 0 <= j < n ==> !is_turn(#[trigger] list[j])) ==> trs.rotation
                == seq![0u32, 0, 0, ONE]
            &&& (forall|j: int| 0 <= j < n ==> !is_sizing(#[trigger] list[j])) ==> trs.scale
                == seq![ONE, ONE, ONE]
        }),
    decreases n,
{
    if n > 0 {
        lemma_absent_transforms(list, n - 1);
        assert(list[n - 1] == list[n - 1]);
    }
}

/// The stacked transforms of a bone are those of its first callback.
pub open spec fn has_stack(bone: Tree, list: Seq<Tree>) -> bool {
    get_of(Some(bone), "UpdateCallbacks"@) matches Some(Tree::Array(callbacks)) && callbacks.len()
        > 0 && get_of(
        get_of(Some(callbacks[0]), "osgAnimation.UpdateBone"@),
        "StackedTransforms"@,
    ) == Some(Tree::Array(list))
}

/// The last of a bone's stacked transforms of a kind says where the bone stands: the numbers of a
/// `StackedTranslate` are its translation, those of a `StackedQuaternion` its rotation, and those
/// of a `StackedScale` its scale.
pub proof fn law_bone_stands_by_its_last_transforms(
    bone: Tree,
    list: Seq<Tree>,
    k: int,
    numbers: Seq<Tree>,
)
    requires
        has_stack(bone, list),
        0 <= k < list.len(),
    ensures
        is_move(list[k]) && (forall|j: int| k < j < list.len() ==> !is_move(#[trigger] list[j]))
            && stacked_value(list[k], "osgAnimation.StackedTranslate"@, "Translate"@) == Some(
            Tree::Array(numbers),
        ) ==> numbers_are(bone_trs_of(bone).translation, numbers, seq![0, 0, 0]),
        is_turn(list[k]) && (forall|j: int| k < j < list.len() ==> !is_turn(#[trigger] list[j]))
            && stacked_value(list[k], "osgAnimation.StackedQuaternion"@, "Quaternion"@) == Some(
            Tree::Array(numbers),
        ) ==> numbers_are(bone_trs_of(bone).rotation, numbers, seq![0, 0, 0, ONE]),
        is_sizing(list[k]) && (forall|j: int| k < j < list.len() ==> !is_sizing(#[trigger] list[j]))
            && stacked_value(list[k], "osgAnimation.StackedScale"@, "Scale"@) == Some(
            Tree::Array(numbers),
        ) ==> numbers_are(bone_trs_of(bone).scale, numbers, seq![ONE, ONE, ONE]),
{
    lemma_last_transform_counts(list, list.len() as int, k);
    assert(stacked_of(bone) == list);
}

/// A bone without transforms of a kind is not moved, not turned and of its own size.
pub proof fn law_bone_rests_without_transforms(bone: Tree, list: Seq<Tree>)
    requires
        has_stack(bone, list),
    ensures
        (forall|j: int| 0 <= j < list.len() ==> !is_move(#[trigger] list[j])) ==> bone_trs_of(
            bone,
        ).translation == seq![0u32, 0, 0],
        (forall|j: int| 0 <= j < list.len() ==> !is_turn(#[trigger] list[j])) ==> bone_trs_of(
            bone,
        ).rotation == seq![0u32, 0, 0, ONE],
        (forall|j: int| 0 <= j < list.len() ==> !is_sizing(#[trigger] list[j])) ==> bone_trs_of(
            bone,
        ).scale == seq![ONE, ONE, ONE],
{
    lemma_absent_transforms(list, list.len() as int);
    assert(stacked_of(bone) == list);
}

/// The name of a bone.
pub open spec fn bone_name_of(wrapper: Tree) -> Option<Seq<char>> {
    text_of(get_of(get_of(Some(wrapper), "osgAnimation.Bone"@), "Name"@))
}

/// Bones keep the nodes that are there.
proof fn lemma_bone_keeps_nodes(wrapper: Tree, s: SkeletonView, p: int)
    requires
        0 <= p < s.nodes.len() < usize::MAX,
        bone_added(wrapper, s).0.nodes.len() <= usize::MAX,
    ensures
        bone_added(wrapper, s).0.nodes[p] == s.nodes[p],
        bone_added(wrapper, s).0.nodes.len() >= s.nodes.len(),
    decreases wrapper, 0nat,
{
    lemma_bone_grows(wrapper, s);
    match get_of(Some(wrapper), "osgAnimation.Bone"@) {
        None => {},
        Some(bone) => match text_of(get_of(Some(bone), "Name"@)) {
            None => {},
            Some(name) => {
                lemma_get_descends(wrapper, "osgAnimation.Bone"@);
                let placed = SkeletonView {
                    nodes: s.nodes.push(bone_node(bone, name, Seq::empty())),
                    ..s
                };
                let count = items_of(get_of(Some(bone), "Children"@)).len();
                lemma_bones_grow(bone, count, placed);
                lemma_bones_keep_nodes(bone, count, placed, p);
            },
        },
    }
}

/// Bones keep the nodes that are there.
proof fn lemma_bones_keep_nodes(parent: Tree, n: nat, s: SkeletonView, p: int)
    requires
        0 <= p < s.nodes.len(),
        bones_added(parent, n, s).0.nodes.len() <= usize::MAX,
    ensures
        bones_added(parent, n, s).0.nodes[p] == s.nodes[p],
    decreases parent, n,
{
    let items = items_of(get_of(Some(parent), "Children"@));
    if n == 0 || n > items.len() {
    } else {
        let before = bones_added(parent, (n - 1) as nat, s).0;
        lemma_get_item_descends(parent, "Children"@, n - 1);
        lemma_bone_grows(items[n - 1], before);
        lemma_bones_grow(parent, (n - 1) as nat, s);
        lemma_bones_keep_nodes(parent, (n - 1) as nat, s, p);
        if before.nodes.len() < usize::MAX {
            lemma_bone_keeps_nodes(items[n - 1], before, p);
        } else if bone_name_of(items[n - 1]) is Some {
            assert(bone_added(items[n - 1], before).1 is Some);
        }
    }
}

/// A bone with a name becomes the next node: of that name, where its stacked transforms put it. The
/// node is found under the name, and its inverse bind matrix is the bone's own.
pub proof fn law_bone_becomes_a_node(wrapper: Tree, s: SkeletonView, bone: Tree, name: Seq<char>)
    requires
        get_of(Some(wrapper), "osgAnimation.Bone"@) == Some(bone),
        text_of(get_of(Some(bone), "Name"@)) == Some(name),
        bone_added(wrapper, s).0.nodes.len() <= usize::MAX,
    ensures
        ({
            let (after, index) = bone_added(wrapper, s);
            let at = s.nodes.len() as int;
            &&& index == Some(at as usize)
            &&& at < after.nodes.len()
            &&& after.nodes[at].name == name
            &&& after.nodes[at].placement == PlacementView::Trs(
                bone_trs_of(bone).translation,
                bone_trs_of(bone).rotation,
                bone_trs_of(bone).scale,
            )
            &&& after.nodes[at].mesh is None
            &&& after.names.contains_key(name)
            &&& after.names[name] == at
            &&& after.names.contains_key(base_name(name))
            &&& get_of(Some(bone), "InvBindMatrixInSkeletonSpace"@) matches Some(
                Tree::Array(list),
            ) ==> forall|m: Matrix|
                numbers_are(#[trigger] m@, list, identity_of()) ==> after.binds.contains_key(name)
                    && after.binds[name] == m
            &&& forall|k: int|
                #![trigger items_of(get_of(Some(bone), "Children"@))[k]]
                0 <= k < items_of(get_of(Some(bone), "Children"@)).len() && bone_name_of(
                    items_of(get_of(Some(bone), "Children"@))[k],
                ) is Some ==> exists|c: int| #[trigger]
                    is_child_named(
                        after.nodes,
                        at,
                        c,
                        bone_name_of(items_of(get_of(Some(bone), "Children"@))[k])->0,
                    )
        }),
{
    lemma_bone_grows(wrapper, s);
    lemma_get_descends(wrapper, "osgAnimation.Bone"@);
    let at = s.nodes.len() as int;
    let placed = SkeletonView { nodes: s.nodes.push(bone_node(bone, name, Seq::empty())), ..s };
    let items = items_of(get_of(Some(bone), "Children"@));
    lemma_bones_grow(bone, items.len(), placed);
    let (grown, children) = bones_added(bone, items.len(), placed);
    let after = bone_added(wrapper, s).0;
    let inverse = get_of(Some(bone), "InvBindMatrixInSkeletonSpace"@);
    match inverse {
        Some(Tree::Array(list)) => {
            assert forall|m: Matrix| numbers_are(#[trigger] m@, list, identity_of()) implies
                after.binds.contains_key(name) && after.binds[name] == m by {
                assert(singles_of(inverse, identity_of()) =~= m@);
                lemma_to_matrix(m);
            }
        },
        _ => {},
    }
    assert forall|k: int|
        #![trigger items[k]]
        0 <= k < items.len() && bone_name_of(items[k]) is Some implies exists|c: int| #[trigger]
        is_child_named(after.nodes, at, c, bone_name_of(items[k])->0) by {
        lemma_children_are_named(bone, items.len(), placed, k);
        let c = choose|c: int|
            0 <= c < children.len() && at < #[trigger] children[c] < grown.nodes.len()
                && grown.nodes[children[c] as int].name == bone_name_of(items[k])->0;
        assert(after.nodes[at].children == children);
        assert(is_child_named(after.nodes, at, c, bone_name_of(items[k])->0));
    }
}

/// Whether child number `c` of a node has a name.
pub open spec fn is_child_named(nodes: Seq<NodeView>, p: int, c: int, name: Seq<char>) -> bool {
    &&& 0 <= c < nodes[p].children.len()
    &&& nodes[p].children[c] < nodes.len()
    &&& nodes[nodes[p].children[c] as int].name == name
}

/// Among the children of a bone or skeleton is each bone with a name.
proof fn lemma_children_are_named(parent: Tree, n: nat, s: SkeletonView, k: int)
    requires
        0 <= k < n <= items_of(get_of(Some(parent), "Children"@)).len(),
        bone_name_of(items_of(get_of(Some(parent), "Children"@))[k]) is Some,
        bones_added(parent, n, s).0.nodes.len() <= usize::MAX,
    ensures
        ({
            let items = items_of(get_of(Some(parent), "Children"@));
            let (after, list) = bones_added(parent, n, s);
            exists|c: int|
                0 <= c < list.len() && s.nodes.len() <= #[trigger] list[c] < after.nodes.len()
                    && after.nodes[list[c] as int].name == bone_name_of(items[k])->0
        }),
    decreases n,
{
    let items = items_of(get_of(Some(parent), "Children"@));
    let (before, list) = bones_added(parent, (n - 1) as nat, s);
    let (after, node) = bone_added(items[n - 1], before);
    let whole = bones_added(parent, n, s).1;
    lemma_bone_grows(items[n - 1], before);
    lemma_bones_grow(parent, (n - 1) as nat, s);
    lemma_get_item_descends(parent, "Children"@, n - 1);
    if k == n - 1 {
        let bone = get_of(Some(items[k]), "osgAnimation.Bone"@)->0;
        let at = before.nodes.len() as int;
        let placed = SkeletonView {
            nodes: before.nodes.push(bone_node(bone, bone_name_of(items[k])->0, Seq::empty())),
            ..before
        };
        lemma_bones_grow(bone, items_of(get_of(Some(bone), "Children"@)).len(), placed);
        assert(node == Some(at as usize));
        assert(whole[list.len() as int] == at);
    } else {
        lemma_children_are_named(parent, (n - 1) as nat, s, k);
        let c = choose|c: int|
            0 <= c < list.len() && s.nodes.len() <= #[trigger] list[c] < before.nodes.len()
                && before.nodes[list[c] as int].name == bone_name_of(items[k])->0;
        if before.nodes.len() < usize::MAX {
            lemma_bone_keeps_nodes(items[n - 1], before, list[c] as int);
        } else if bone_name_of(items[n - 1]) is Some {
            assert(node is Some);
        }
        assert(whole[c] == list[c]);
    }
}

/// A skeleton that was not met before becomes a node at the top, of its own name or `Skeleton`,
/// placed by the transforms around it, behind the nodes of its bones.
pub proof fn law_skeleton_becomes_a_root(skeleton: Tree, path: Seq<Matrix>, g: GatheredView)
    requires
        !(unique_id(skeleton) is Some && g.seen.contains(unique_id(skeleton)->0)),
        skeleton_added(skeleton, path, g).skeleton.nodes.len() <= usize::MAX,
    ensures
        ({
            let after = skeleton_added(skeleton, path, g);
            let root = after.skeleton.nodes.last();
            &&& after.skeleton.nodes.len() > g.skeleton.nodes.len()
            &&& after.roots == g.roots.push((after.skeleton.nodes.len() - 1) as usize)
            &&& root.placement == PlacementView::Product(path)
            &&& root.mesh is None
            &&& text_of(get_of(Some(skeleton), "Name"@)) matches Some(n) ==> root.name == n
            &&& text_of(get_of(Some(skeleton), "Name"@)) is None ==> root.name == "Skeleton"@
            &&& unique_id(skeleton) matches Some(id) ==> after.seen.contains(id)
            &&& forall|k: int|
                #![trigger items_of(get_of(Some(skeleton), "Children"@))[k]]
                0 <= k < items_of(get_of(Some(skeleton), "Children"@)).len() && bone_name_of(
                    items_of(get_of(Some(skeleton), "Children"@))[k],
                ) is Some ==> exists|c: int| #[trigger]
                    is_child_named(
                        after.skeleton.nodes,
                        after.skeleton.nodes.len() - 1,
                        c,
                        bone_name_of(items_of(get_of(Some(skeleton), "Children"@))[k])->0,
                    )
        }),
        unique_id(skeleton) matches Some(id) ==> skeleton_added(
            skeleton,
            path,
            skeleton_added(skeleton, path, g),
        ) == skeleton_added(skeleton, path, g),
{
    let items = items_of(get_of(Some(skeleton), "Children"@));
    lemma_bones_grow(skeleton, items.len(), g.skeleton);
    let (grown, children) = bones_added(skeleton, items.len(), g.skeleton);
    let after = skeleton_added(skeleton, path, g);
    let last = after.skeleton.nodes.len() - 1;
    assert forall|k: int|
        #![trigger items[k]]
        0 <= k < items.len() && bone_name_of(items[k]) is Some implies exists|c: int| #[trigger]
        is_child_named(after.skeleton.nodes, last, c, bone_name_of(items[k])->0) by {
        lemma_children_are_named(skeleton, items.len(), g.skeleton, k);
        let c = choose|c: int|
            0 <= c < children.len() && g.skeleton.nodes.len() <= #[trigger] children[c]
                < grown.nodes.len() && grown.nodes[children[c] as int].name == bone_name_of(
                items[k],
            )->0;
        assert(is_child_named(after.skeleton.nodes, last, c, bone_name_of(items[k])->0));
    }
}

/// The numbers of a transform's `Matrix` are what it places by, column by column, with those of the
/// matrix that changes nothing for what is missing. The root of a glTF scene places nothing.
pub proof fn law_transform_places_by_its_matrix(
    transform: Tree,
    list: Seq<Tree>,
    path: Seq<Matrix>,
    m: Matrix,
)
    requires
        get_of(Some(transform), "Matrix"@) == Some(Tree::Array(list)),
        numbers_are(m@, list, identity_of()),
    ensures
        text_of(get_of(Some(transform), "Name"@)) == Some("GLTF_SceneRootNode"@) ==> path_below(
            transform,
            path,
        ) == path,
        text_of(get_of(Some(transform), "Name"@)) != Some("GLTF_SceneRootNode"@) ==> path_below(
            transform,
            path,
        ) == path.push(m),
{
    assert(singles_of(get_of(Some(transform), "Matrix"@), identity_of()) =~= m@);
    lemma_to_matrix(m);
}

/// The matrix that changes nothing has ones on its diagonal; the one that sets a scene upright
/// keeps the first axis, and sends the second to the third, backwards, and the third to the second.
pub proof fn law_scene_is_set_upright(scene: Tree, column: int, row: int)
    requires
        0 <= column < 4,
        0 <= row < 4,
    ensures
        identity_of().len() == 16,
        identity_of()[4 * column + row] == if column == row {
            ONE
        } else {
            0u32
        },
        scene_matrix_of(scene).len() == 16,
        has_gltf_root(scene) ==> scene_matrix_of(scene)[4 * column + row]
            == identity_of()[4 * column + row],
        !has_gltf_root(scene) ==> scene_matrix_of(scene)[4 * column + row] == if (column == 0 && row
            == 0) || (column == 2 && row == 1) || (column == 3 && row == 3) {
            ONE
        } else if column == 1 && row == 2 {
            MINUS_ONE
        } else {
            0u32
        },
{
}

/// A value holds the root of a glTF scene if it is a transform of that name, or one of the values
/// inside it holds one.
pub proof fn law_gltf_root_is_found_anywhere(t: Tree)
    ensures
        has_gltf_root(t) <==> (text_of(
            get_of(get_of(Some(t), "osg.MatrixTransform"@), "Name"@),
        ) == Some("GLTF_SceneRootNode"@) || exists|i: int|
            0 <= i < kids(t).len() && has_gltf_root(#[trigger] kids(t)[i])),
{
    lemma_root_among_is_any(t, kids(t).len());
}

/// Some of the first `n` values inside a value.
proof fn lemma_root_among_is_any(t: Tree, n: nat)
    requires
        n <= kids(t).len(),
    ensures
        gltf_root_among(t, n) <==> exists|i: int| 0 <= i < n && has_gltf_root(#[trigger] kids(t)[i]),
    decreases n,
{
    if n > 0 {
        lemma_root_among_is_any(t, (n - 1) as nat);
        assert(kids(t)[n - 1] == kids(t)[n - 1]);
    }
}

/// A value binds textures if it has a list of them, or one of the values inside it binds some.
pub proof fn law_texture_bindings_are_found_anywhere(t: Tree)
    ensures
        has_texture_attributes(t) <==> (get_of(Some(t), "TextureAttributeList"@) is Some || exists|
            i: int,
        |
            0 <= i < kids(t).len() && has_texture_attributes(#[trigger] kids(t)[i])),
{
    lemma_bindings_among_is_any(t, kids(t).len());
}

/// Some of the first `n` values inside a value.
proof fn lemma_bindings_among_is_any(t: Tree, n: nat)
    requires
        n <= kids(t).len(),
    ensures
        texture_attributes_among(t, n) <==> exists|i: int|
            0 <= i < n && has_texture_attributes(#[trigger] kids(t)[i]),
    decreases n,
{
    if n > 0 {
        lemma_bindings_among_is_any(t, (n - 1) as nat);
        assert(kids(t)[n - 1] == kids(t)[n - 1]);
    }
}

/// A name loses an underscore with the digits behind it, and no other ending.
pub proof fn law_number_is_dropped_from_a_name(name: Seq<char>, digits: Seq<char>)
    requires
        all_digits(digits),
    ensures
        digits.len() > 0 ==> base_name(name + seq!['_'] + digits) == name,
        base_name(name + seq!['_']) == name + seq!['_'],
        name.len() > 0 && !('0' <= name.last() <= '9') && name.last() != '_' ==> base_name(name)
            == name,
{
    let whole = name + seq!['_'] + digits;
    lemma_last_underscore(whole, name.len() as int, whole.len() as int);
    assert(whole.skip(name.len() as int + 1) =~= digits);
    assert(whole.take(name.len() as int) =~= name);
    let bare = name + seq!['_'];
    lemma_last_underscore(bare, name.len() as int, bare.len() as int);
    lemma_rfind(name, '_', name.len() as int);
    match rfind_of(name, '_', name.len() as int) {
        Some(i) => {
            if i + 1 < name.len() && all_digits(name.skip(i + 1)) {
                let rest = name.skip(i + 1);
                assert('0' <= rest[rest.len() - 1] <= '9');
            }
        },
        None => {},
    }
}

/// The last underscore stands before digits only.
proof fn lemma_last_underscore(s: Seq<char>, at: int, end: int)
    requires
        0 <= at < end <= s.len(),
        s[at] == '_',
        forall|k: int| at < k < end ==> '0' <= #[trigger] s[k] <= '9',
    ensures
        rfind_of(s, '_', end) == Some(at),
    decreases end,
{
    if end - 1 > at {
        assert('0' <= s[end - 1] <= '9');
        lemma_last_underscore(s, at, end - 1);
    }
}

/// An object of nothing but a number is replaced by what the number stands for.
pub proof fn law_reference_is_replaced(
    members: Seq<(Seq<char>, Tree)>,
    id: u64,
    map: Map<u64, Tree>,
)
    requires
        members.len() == 1,
        get_of(Some(Tree::Object(members)), "UniqueID"@) matches Some(Tree::Number(n))
            && n.unsigned == Some(id),
        map.contains_key(id),
    ensures
        resolved_of(Tree::Object(members), map) == map[id],
{
    assert(kids(Tree::Object(members)).len() == 1);
}

/// What a value is made of is replaced inside it, in place: lists keep their length, and objects
/// the names of their members.
pub proof fn law_references_are_replaced_in_place(
    items: Seq<Tree>,
    members: Seq<(Seq<char>, Tree)>,
    map: Map<u64, Tree>,
    i: int,
)
    requires
        0 <= i,
    ensures
        i < items.len() ==> (resolved_of(Tree::Array(items), map) matches Tree::Array(after)
            && after.len() == items.len() && after[i] == resolved_of(items[i], map)),
        i < members.len() && members.len() > 1 ==> (resolved_of(
            Tree::Object(members),
            map,
        ) matches Tree::Object(after) && after.len() == members.len() && after[i].0 == members[i].0
            && after[i].1 == resolved_of(members[i].1, map)),
{
    lemma_resolved_unfolds(Tree::Array(items), map);
    assert(kids(Tree::Object(members)).len() == members.len());
    if members.len() > 1 {
        lemma_resolved_unfolds(Tree::Object(members), map);
    }
}

/// Numbers that are known stay known, and a value that has a number and more is one that its
/// number, or that of a value inside it, stands for.
pub proof fn law_definitions_are_noted(t: Tree, known: Map<u64, Tree>, id: u64)
    ensures
        known.contains_key(id) ==> definitions(t, known).contains_key(id),
        t is Object && kids(t).len() > 1 && (get_of(Some(t), "UniqueID"@) matches Some(
            Tree::Number(n),
        ) && n.unsigned == Some(id)) ==> definitions(t, known).contains_key(id),
    decreases t, kids(t).len() + 1,
{
    let now = if defines_id(t) {
        known.insert(unique_id(t)->0, t)
    } else {
        known
    };
    if now.contains_key(id) {
        lemma_known_stays(t, kids(t).len(), now, id);
    }
}

/// The same of the first `n` values inside a value.
proof fn lemma_known_stays(t: Tree, n: nat, known: Map<u64, Tree>, id: u64)
    requires
        known.contains_key(id),
        n <= kids(t).len(),
    ensures
        definitions_within(t, n, known).contains_key(id),
    decreases t, n,
{
    if n > 0 {
        lemma_kid_descends(t, n - 1);
        lemma_known_stays(t, (n - 1) as nat, known, id);
        law_definitions_are_noted(
            kids(t)[n - 1],
            definitions_within(t, (n - 1) as nat, known),
            id,
        );
    }
}

/// A skeleton ends the search; below a transform its children are searched from its place, and a
/// single child finds what it finds from there.
pub proof fn law_skeletons_are_searched_below_transforms(
    t: Tree,
    path: Seq<Matrix>,
    g: GatheredView,
    child: Tree,
)
    ensures
        get_of(Some(t), "osgAnimation.Skeleton"@) matches Some(skeleton) ==> gathered(t, path, g)
            == skeleton_added(skeleton, path, g),
        get_of(Some(t), "osgAnimation.Skeleton"@) is None ==> (get_of(
            Some(t),
            "osg.MatrixTransform"@,
        ) matches Some(transform) ==> (get_of(Some(transform), "Children"@) matches Some(
            Tree::Array(items),
        ) ==> (items =~= seq![child] ==> gathered(t, path, g) == gathered(
            child,
            path_below(transform, path),
            g,
        )))),
{
    if get_of(Some(t), "osgAnimation.Skeleton"@) is None && searched(t).len() == 1 {
        let below = match get_of(Some(t), "osg.MatrixTransform"@) {
            Some(transform) => path_below(transform, path),
            None => path,
        };
        assert(gathered_below(t, 0, below, g) == g);
        assert(gathered_below(t, 1, below, g) == gathered(searched(t)[0], below, g));
    }
}

/// The values of a list are searched one after the other: what the last one has is found behind
/// what the others have.
pub proof fn law_skeletons_are_searched_in_order(
    items: Seq<Tree>,
    last: Tree,
    path: Seq<Matrix>,
    g: GatheredView,
)
    ensures
        gathered(Tree::Array(items.push(last)), path, g) == gathered(
            last,
            path,
            gathered(Tree::Array(items), path, g),
        ),
{
    let t = Tree::Array(items);
    let more = Tree::Array(items.push(last));
    assert(searched(t) == items);
    assert(searched(more) == items.push(last));
    lemma_prefix_is_gathered(items, last, items.len(), path, g);
}

/// The first values of a longer list are those of the list.
proof fn lemma_prefix_is_gathered(
    items: Seq<Tree>,
    last: Tree,
    n: nat,
    path: Seq<Matrix>,
    g: GatheredView,
)
    requires
        n <= items.len(),
    ensures
        gathered_below(Tree::Array(items.push(last)), n, path, g) == gathered_below(
            Tree::Array(items),
            n,
            path,
            g,
        ),
    decreases n,
{
    if n > 0 {
        lemma_prefix_is_gathered(items, last, (n - 1) as nat, path, g);
        assert(searched(Tree::Array(items.push(last)))[n - 1] == items[n - 1]);
        assert(searched(Tree::Array(items))[n - 1] == items[n - 1]);
    }
}

} // verus!
