use sketchfab_downloader::attributes::{Decoding, ModelFiles};
use sketchfab_downloader::buffers::{AttrData, BufferError};
use sketchfab_downloader::geometry::{material_name, process_geometry};
use sketchfab_downloader::gltf::Placement;
use sketchfab_downloader::json::{
    array, boolean, first_key_value, get, get_or_item, item, items_under, kid, kid_count, number,
    object, single_or, text, text_is, unsigned, Json, Number,
};
use sketchfab_downloader::metadata::{flags, meta_value, user_data_values};
use sketchfab_downloader::primitives::{decode_indices, draw_primitives, primitive_mode};
use sketchfab_downloader::scene::{
    bone_trs, collect_skeletons, contains_texture_attributes, keeps_flip, matrix16,
    resolved_scene, scene_coordinate_matrix, without_numeric_suffix,
};
use sketchfab_downloader::traversal::{collect_geometries, traverse_geometries, Found, Place};
use std::collections::HashSet;

fn figure(x: f64) -> Number {
    Number {
        unsigned: if x >= 0.0 && x.fract() == 0.0 { Some(x as u64) } else { None },
        double: x.to_bits(),
        single: (x as f32).to_bits(),
    }
}

fn num(x: f64) -> Json {
    Json::Number(figure(x))
}

fn txt(s: &str) -> Json {
    Json::Text(s.to_owned(), s.parse::<f64>().ok().map(figure))
}

fn obj(list: Vec<(&str, Json)>) -> Json {
    Json::Object(list.into_iter().map(|(k, v)| (k.to_owned(), v)).collect())
}

fn arr(list: Vec<Json>) -> Json {
    Json::Array(list)
}

fn bits(list: &[f32]) -> Vec<u32> {
    list.iter().map(|x| x.to_bits()).collect()
}

fn values(list: Vec<(&str, Json)>) -> Json {
    let entries = list
        .into_iter()
        .map(|(name, value)| obj(vec![("Name", txt(name)), ("Value", value)]))
        .collect();
    obj(vec![("Values", arr(entries))])
}

fn array_of(kind: &str, offset: u64, size: u64) -> Json {
    obj(vec![(
        kind,
        obj(vec![("Offset", num(offset as f64)), ("Size", num(size as f64))]),
    )])
}

fn attribute(kind: &str, item_size: u64, offset: u64, size: u64) -> Json {
    obj(vec![
        ("Array", array_of(kind, offset, size)),
        ("ItemSize", num(item_size as f64)),
    ])
}

fn draw(mode: &str, kind: &str, offset: u64, size: u64) -> Json {
    obj(vec![(
        "DrawElements",
        obj(vec![
            ("Indices", obj(vec![("Array", array_of(kind, offset, size))])),
            ("Mode", txt(mode)),
        ]),
    )])
}

fn triangle_bytes() -> Vec<u8> {
    let mut bin = Vec::new();
    for i in [0u16, 1, 2, 0] {
        bin.extend(i.to_le_bytes());
    }
    for x in [0.0f32, 0.0, 0.0, 1.0, 0.0, 0.0, 0.0, 1.0, 0.0] {
        bin.extend(x.to_le_bytes());
    }
    for x in [0.0f32, 0.0, 1.0, 0.0, 0.0, 1.0] {
        bin.extend(x.to_le_bytes());
    }
    bin
}

fn triangle(id: u64) -> Json {
    obj(vec![
        ("PrimitiveSetList", arr(vec![draw("TRIANGLES", "Uint16Array", 0, 3)])),
        ("UniqueID", num(id as f64)),
        (
            "VertexAttributeList",
            obj(vec![
                ("TexCoord3", attribute("Float32Array", 2, 44, 3)),
                ("Vertex", attribute("Float32Array", 3, 8, 3)),
            ]),
        ),
    ])
}

#[test]
fn preserves_gltf_scene_root_coordinates() {
    let scene = obj(vec![(
        "osg.MatrixTransform",
        obj(vec![("Children", arr(vec![])), ("Name", txt("GLTF_SceneRootNode"))]),
    )]);
    assert_eq!(scene_coordinate_matrix(&scene), matrix16(None));
}

#[test]
fn converts_native_osg_coordinates() {
    let matrix =
        scene_coordinate_matrix(&obj(vec![("osg.Node", obj(vec![("Children", arr(vec![]))]))]));
    assert_eq!(
        matrix.to_vec(),
        bits(&[
            1.0, 0.0, 0.0, 0.0, 0.0, 0.0, -1.0, 0.0, 0.0, 1.0, 0.0, 0.0, 0.0, 0.0, 0.0, 1.0
        ])
    );
}

#[test]
fn detects_scene_texture_bindings() {
    assert!(contains_texture_attributes(&obj(vec![(
        "osg.StateSet",
        obj(vec![("TextureAttributeList", arr(vec![arr(vec![]), arr(vec![])]))])
    )])));
    assert!(!contains_texture_attributes(&obj(vec![(
        "osg.Node",
        obj(vec![("Children", arr(vec![]))])
    )])));
}

#[test]
fn values_are_looked_up() {
    let v = obj(vec![
        ("a", arr(vec![num(3.0), txt("x")])),
        ("b", Json::Bool(true)),
        ("c", num(-1.5)),
    ]);
    assert!(get(Some(&v), "missing").is_none());
    assert_eq!(boolean(get(Some(&v), "b")), Some(true));
    assert_eq!(unsigned(get_or_item(get(Some(&v), "a"), "0", 0)), Some(3));
    assert_eq!(text(item(get(Some(&v), "a"), 1)), Some(&"x".to_owned()));
    assert!(text_is(item(get(Some(&v), "a"), 1), "x"));
    assert_eq!(array(get(Some(&v), "a")).map(|l| l.len()), Some(2));
    assert_eq!(object(Some(&v)).map(|l| l.len()), Some(3));
    assert_eq!(items_under(&v, "a").map(|l| l.len()), Some(2));
    assert_eq!(single_or(get(Some(&v), "c"), 7), (-1.5f32).to_bits());
    assert_eq!(single_or(get(Some(&v), "b"), 7), 7);
    assert_eq!(number(get(Some(&v), "c")).map(|n| n.double), Some((-1.5f64).to_bits()));
    assert_eq!(first_key_value(Some(&v)).map(|(k, _)| k.as_str()), Some("a"));
    assert_eq!(kid_count(&v), 3);
    assert!(matches!(kid(&v, 1), Json::Bool(true)));
    assert!(matches!(v.duplicate(), Json::Object(list) if list.len() == 3));
}

#[test]
fn metadata_numbers_may_be_text() {
    let node = obj(vec![(
        "UserDataContainer",
        values(vec![("a", txt("2.5")), ("b", num(6.0)), ("c", txt("none")), ("b", num(7.0))]),
    )]);
    let meta = user_data_values(&node);
    assert_eq!(meta_value(&meta, "a"), 2.5f32.to_bits());
    assert_eq!(flags(&meta, "b"), 7);
    assert_eq!(flags(&meta, "c"), 0);
    assert_eq!(meta_value(&meta, "d"), 0);
}

#[test]
fn references_are_resolved() {
    let full = obj(vec![("Name", txt("bone")), ("UniqueID", num(9.0))]);
    let scene = arr(vec![full, obj(vec![("UniqueID", num(9.0))]), obj(vec![("UniqueID", num(8.0))])]);
    let resolved = resolved_scene(&scene);
    let second = item(Some(&resolved), 1);
    assert_eq!(text(get(second, "Name")), Some(&"bone".to_owned()));
    let third = item(Some(&resolved), 2);
    assert_eq!(unsigned(get(third, "UniqueID")), Some(8));
    assert!(get(third, "Name").is_none());
}

#[test]
fn scene_without_references_stays() {
    let scene = obj(vec![("a", arr(vec![num(1.0), obj(vec![("b", txt("c"))])]))]);
    let resolved = resolved_scene(&scene);
    assert_eq!(format!("{:?}", resolved), format!("{:?}", scene));
}

#[test]
fn numeric_suffixes_are_dropped() {
    assert_eq!(without_numeric_suffix("bone_12"), "bone");
    assert_eq!(without_numeric_suffix("bone_"), "bone_");
    assert_eq!(without_numeric_suffix("bone_1a"), "bone_1a");
    assert_eq!(without_numeric_suffix("a_b_3"), "a_b");
    assert_eq!(without_numeric_suffix("plain"), "plain");
}

fn bone(name: &str, children: Vec<Json>) -> Json {
    obj(vec![(
        "osgAnimation.Bone",
        obj(vec![
            ("Children", arr(children)),
            ("InvBindMatrixInSkeletonSpace", arr(vec![num(2.0)])),
            ("Name", txt(name)),
        ]),
    )])
}

#[test]
fn skeletons_become_nodes() {
    let scene = obj(vec![(
        "osgAnimation.Skeleton",
        obj(vec![
            ("Children", arr(vec![bone("root_1", vec![bone("tip", vec![])])])),
            ("UniqueID", num(4.0)),
        ]),
    )]);
    let twice = arr(vec![scene.duplicate(), scene]);
    let found = collect_skeletons(&twice);
    assert_eq!(found.skeleton.nodes.len(), 3);
    assert_eq!(found.roots, vec![2]);
    assert_eq!(found.skeleton.nodes[0].children, vec![1]);
    assert_eq!(found.skeleton.nodes[2].name, "Skeleton");
    assert_eq!(found.skeleton.nodes[2].children, vec![0]);
    assert!(matches!(&found.skeleton.nodes[2].placement, Placement::Product(p) if p.len() == 1));
    assert_eq!(found.skeleton.names.get("root_1"), Some(&0));
    assert_eq!(found.skeleton.names.get("root"), Some(&0));
    assert_eq!(found.skeleton.names.get("tip"), Some(&1));
    let bind = found.skeleton.binds.get("tip").unwrap();
    assert_eq!(bind[0], 2.0f32.to_bits());
    assert_eq!(bind[5], 1.0f32.to_bits());
}

#[test]
fn bones_have_stacked_transforms() {
    let bone = obj(vec![(
        "UpdateCallbacks",
        arr(vec![obj(vec![(
            "osgAnimation.UpdateBone",
            obj(vec![(
                "StackedTransforms",
                arr(vec![
                    obj(vec![(
                        "osgAnimation.StackedTranslate",
                        obj(vec![("Translate", arr(vec![num(1.0), num(2.0)]))]),
                    )]),
                    obj(vec![(
                        "osgAnimation.StackedScale",
                        obj(vec![("Scale", arr(vec![num(3.0), num(3.0), num(3.0)]))]),
                    )]),
                ]),
            )]),
        )])]),
    )]);
    let (translation, rotation, scale) = bone_trs(&bone);
    assert_eq!(translation, bits(&[1.0, 2.0, 0.0]));
    assert_eq!(rotation, bits(&[0.0, 0.0, 0.0, 1.0]));
    assert_eq!(scale, bits(&[3.0, 3.0, 3.0]));
}

#[test]
fn primitive_modes_are_known() {
    let mode = |name: &str| primitive_mode(&obj(vec![("Mode", txt(name))]));
    assert_eq!(mode("POINTS"), Some(0));
    assert_eq!(mode("LINES"), Some(1));
    assert_eq!(mode("LINE_LOOP"), Some(2));
    assert_eq!(mode("LINE_STRIP"), Some(3));
    assert_eq!(mode("TRIANGLES"), Some(4));
    assert_eq!(mode("TRIANGLE_STRIP"), Some(4));
    assert_eq!(mode("QUADS"), None);
}

#[test]
fn indices_are_decoded_by_mode() {
    assert_eq!(decode_indices(vec![5, 2], 1, false, 32), Some((vec![5, 6], 32)));
    assert_eq!(decode_indices(vec![5, 2], 0, false, 16), Some((vec![5, 2], 16)));
    assert_eq!(
        decode_indices(vec![4, 1, 7, 0], 4, true, 16),
        Some((vec![7, 8, 9, 10], 16))
    );
    assert_eq!(
        decode_indices(vec![40, 1, 7, 0], 4, true, 16),
        Some((vec![0; 40], 16))
    );
}

#[test]
fn primitives_of_one_mode_are_joined() {
    let geom = obj(vec![(
        "PrimitiveSetList",
        arr(vec![
            draw("TRIANGLE_STRIP", "Uint16Array", 0, 4),
            draw("LINES", "Uint16Array", 0, 2),
            draw("TRIANGLES", "Uint16Array", 8, 3),
        ]),
    )]);
    let mut bin = Vec::new();
    for i in [0u16, 1, 2, 3, 7, 8, 9] {
        bin.extend(i.to_le_bytes());
    }
    match draw_primitives(&geom, &user_data_values(&geom), &bin) {
        Ok(drawn) => {
            assert_eq!(drawn.indices, vec![0, 1, 2, 2, 1, 3, 7, 8, 9]);
            assert_eq!(drawn.mode, Some(4));
            assert_eq!(drawn.strip, Some(vec![0, 1, 2, 3]));
        }
        Err(_) => panic!("all indices lie in the file"),
    }
}

#[test]
fn geometries_are_collected_once() {
    let scene = obj(vec![(
        "osg.Node",
        obj(vec![(
            "Children",
            arr(vec![
                obj(vec![("osg.Geometry", triangle(5))]),
                obj(vec![("osg.Geometry", triangle(5))]),
            ]),
        )]),
    )]);
    let bin = triangle_bytes();
    let files = ModelFiles { poly: &bin, wire: None };
    match collect_geometries(&scene, &files) {
        Ok(found) => {
            assert_eq!(found.geometries.len(), 1);
            assert!(found.skipped.is_empty());
            let g = &found.geometries[0];
            assert_eq!(g.indices, vec![0, 1, 2]);
            assert_eq!(g.mode, 4);
            assert_eq!(g.texcoord_units, vec![(3, 0)]);
            assert_eq!(g.path.len(), 1);
            let mut names: Vec<&str> = g.attributes.iter().map(|a| a.name.as_str()).collect();
            names.sort();
            assert_eq!(names, vec!["POSITION", "TEXCOORD_0"]);
            for a in &g.attributes {
                match &a.decoding {
                    Decoding::Floats { predict, range, flip } => {
                        assert!(predict.is_none() && range.is_none());
                        assert_eq!(*flip, a.name == "TEXCOORD_0");
                    }
                    _ => panic!("coordinates are floating-point numbers"),
                }
                assert!(matches!(&a.attribute.data, AttrData::F32(v) if !v.is_empty()));
            }
        }
        Err(_) => panic!("the scene has no rig"),
    }
}

#[test]
fn single_texture_coordinates_are_out_of_range() {
    let geom = obj(vec![
        ("PrimitiveSetList", arr(vec![draw("TRIANGLES", "Uint16Array", 0, 3)])),
        (
            "VertexAttributeList",
            obj(vec![("TexCoord0", attribute("Float32Array", 1, 8, 3))]),
        ),
    ]);
    let bin = triangle_bytes();
    let files = ModelFiles { poly: &bin, wire: None };
    assert!(matches!(process_geometry(&geom, &files), Err(BufferError::OutOfRange)));
}

#[test]
fn transforms_place_geometries() {
    let moved = obj(vec![(
        "osg.MatrixTransform",
        obj(vec![
            ("Children", arr(vec![obj(vec![("osg.Geometry", triangle(1))])])),
            ("Matrix", arr(vec![num(5.0)])),
            (
                "UpdateCallbacks",
                arr(vec![obj(vec![(
                    "osgAnimation.UpdateMatrixTransform",
                    obj(vec![("Name", txt("door"))]),
                )])]),
            ),
        ]),
    )]);
    let bin = triangle_bytes();
    let files = ModelFiles { poly: &bin, wire: None };
    match collect_geometries(&moved, &files) {
        Ok(found) => {
            let g = &found.geometries[0];
            assert_eq!(g.path.len(), 2);
            assert_eq!(g.path[1][0], 5.0f32.to_bits());
            assert_eq!(g.animation_target.as_deref(), Some("door"));
            assert!(g.skeleton_path.is_none());
        }
        Err(_) => panic!("the scene has no rig"),
    }
}

#[test]
fn found_geometries_stay_in_order() {
    let moved = |children: Vec<Json>| {
        obj(vec![(
            "osg.MatrixTransform",
            obj(vec![("Children", arr(children)), ("Matrix", arr(vec![num(2.0)]))]),
        )])
    };
    let leaf = |id: u64| obj(vec![("osg.Geometry", triangle(id))]);
    let scene = moved(vec![leaf(1), moved(vec![leaf(2)]), leaf(1), leaf(3)]);
    let bin = triangle_bytes();
    let files = ModelFiles { poly: &bin, wire: None };
    match collect_geometries(&scene, &files) {
        Ok(found) => {
            let depths: Vec<usize> = found.geometries.iter().map(|g| g.path.len()).collect();
            assert_eq!(depths, vec![2, 3, 2]);
            for g in &found.geometries {
                assert_eq!(g.path[..2], found.geometries[0].path[..2]);
            }
            assert!(found.seen.contains(&1) && found.seen.contains(&2) && found.seen.contains(&3));
        }
        Err(_) => panic!("the scene has no rig"),
    }
}

#[test]
fn broken_geometries_are_skipped() {
    let scene = obj(vec![("osg.Geometry", triangle(1))]);
    let bin = triangle_bytes();
    let files = ModelFiles { poly: &bin[..10], wire: None };
    match collect_geometries(&scene, &files) {
        Ok(found) => {
            assert!(found.geometries.is_empty());
            assert_eq!(found.skipped.len(), 1);
            assert!(!found.skipped[0].rigged);
            assert!(matches!(found.skipped[0].error, BufferError::OutOfRange));
        }
        Err(_) => panic!("a geometry without a rig is skipped"),
    }
}

#[test]
fn rigs_name_their_joints() {
    let mut bin = triangle_bytes();
    let joints_at = bin.len() as u64;
    for j in [1u16, 1, 1] {
        bin.extend(j.to_le_bytes());
    }
    bin.extend([0, 0]);
    let weights_at = bin.len() as u64;
    for w in [1.0f32, 0.0, 0.5] {
        bin.extend(w.to_le_bytes());
    }
    let rig = obj(vec![(
        "osgAnimation.RigGeometry",
        obj(vec![
            ("BoneMap", obj(vec![("hip", num(0.0)), ("leg", num(1.0))])),
            ("SourceGeometry", obj(vec![("osg.Geometry", triangle(3))])),
            (
                "VertexAttributeList",
                obj(vec![
                    ("Bones", attribute("Uint16Array", 1, joints_at, 3)),
                    ("Weights", attribute("Float32Array", 1, weights_at, 3)),
                ]),
            ),
        ]),
    )]);
    let scene = obj(vec![("osgAnimation.Skeleton", obj(vec![("Children", arr(vec![rig]))]))]);
    let files = ModelFiles { poly: &bin, wire: None };
    match collect_geometries(&scene, &files) {
        Ok(found) => {
            let g = &found.geometries[0];
            assert_eq!(g.joint_names, vec!["hip".to_owned(), "leg".to_owned()]);
            assert!(g.skeleton_path.is_some());
            let joints = g.attributes.iter().find(|a| a.name == "JOINTS_0").unwrap();
            assert!(matches!(&joints.attribute.data, AttrData::U16(v) if *v == vec![1, 0, 1]));
        }
        Err(_) => panic!("the rig lies in the file"),
    }
}

#[test]
fn materials_are_named_by_attribute_or_state() {
    let by_state = obj(vec![(
        "StateSet",
        obj(vec![("osg.StateSet", obj(vec![("Name", txt("wood"))]))]),
    )]);
    assert_eq!(material_name(&by_state), Some("wood".to_owned()));
    let by_attribute = obj(vec![(
        "StateSet",
        obj(vec![(
            "osg.StateSet",
            obj(vec![
                (
                    "AttributeList",
                    arr(vec![
                        obj(vec![]),
                        obj(vec![("osg.Material", obj(vec![("Name", txt("steel"))]))]),
                    ]),
                ),
                ("Name", txt("wood")),
            ]),
        )]),
    )]);
    assert_eq!(material_name(&by_attribute), Some("steel".to_owned()));
    assert_eq!(material_name(&obj(vec![])), None);
}

#[test]
fn morph_targets_fit_the_geometry() {
    let bin = triangle_bytes();
    let files = ModelFiles { poly: &bin, wire: None };
    let target = |size: u64| {
        obj(vec![(
            "osg.Geometry",
            obj(vec![
                ("Name", txt("smile")),
                (
                    "VertexAttributeList",
                    obj(vec![("Vertex", attribute("Float32Array", 3, 8, size))]),
                ),
            ]),
        )])
    };
    let mut list = match triangle(1) {
        Json::Object(list) => list,
        _ => unreachable!(),
    };
    list.push(("MorphTargets".to_owned(), arr(vec![target(3), target(2)])));
    match process_geometry(&Json::Object(list), &files) {
        Ok(Some(g)) => {
            assert_eq!(g.morph_targets.len(), 1);
            assert_eq!(g.morph_targets[0].name, "smile");
            assert_eq!(g.morph_targets[0].attributes.len(), 1);
            assert!(g.morph_errors.is_empty());
        }
        _ => panic!("the geometry lies in the file"),
    }
}

#[test]
fn idle_primitive_sets_can_go() {
    let hidden = obj(vec![(
        "DrawElements",
        obj(vec![
            (
                "Indices",
                obj(vec![(
                    "Array",
                    obj(vec![("Uint16Array", obj(vec![("File", txt("model_file_wireframe.bin"))]))]),
                )]),
            ),
            ("Mode", txt("TRIANGLES")),
        ]),
    )]);
    let bin = triangle_bytes();
    let files = ModelFiles { poly: &bin, wire: None };
    let with = |sets: Vec<Json>| match triangle(1) {
        Json::Object(mut list) => {
            list[0].1 = arr(sets);
            process_geometry(&Json::Object(list), &files)
        }
        _ => unreachable!(),
    };
    let busy = vec![
        hidden,
        draw("POLYGON", "Uint16Array", 9999, 3),
        draw("TRIANGLES", "Uint16Array", 0, 3),
        obj(vec![("DrawArrays", obj(vec![("Mode", txt("TRIANGLES"))]))]),
        draw("LINES", "Uint16Array", 9999, 2),
        draw("TRIANGLE_STRIP", "Uint16Array", 0, 3),
    ];
    let calm = vec![
        draw("TRIANGLES", "Uint16Array", 0, 3),
        draw("TRIANGLE_STRIP", "Uint16Array", 0, 3),
    ];
    match (with(busy), with(calm)) {
        (Ok(Some(a)), Ok(Some(b))) => {
            assert_eq!(a.indices, vec![0, 1, 2, 0, 1, 2]);
            assert_eq!(a.indices, b.indices);
            assert_eq!(a.mode, b.mode);
            assert_eq!(a.attributes.len(), b.attributes.len());
        }
        _ => panic!("the geometry lies in the file"),
    }
}

#[test]
fn second_search_adds_nothing() {
    let geometry = |id: u64| obj(vec![("osg.Geometry", triangle(id))]);
    let broken = obj(vec![("osg.Geometry", obj(vec![("UniqueID", num(9.0))]))]);
    let scene = obj(vec![
        ("Children", arr(vec![geometry(1), broken, geometry(2), geometry(1)])),
    ]);
    let bin = triangle_bytes();
    let files = ModelFiles { poly: &bin, wire: None };
    let place = Place { path: vec![matrix16(None)], skeleton: None, target: None };
    let mut found =
        Found { geometries: Vec::new(), skipped: Vec::new(), seen: HashSet::new() };
    assert_eq!(traverse_geometries(&scene, &files, &place, &mut found), Ok(()));
    let first = (found.geometries.len(), found.skipped.len(), found.seen.clone());
    assert_eq!(first, (2, 0, HashSet::from([1, 2, 9])));
    assert_eq!(traverse_geometries(&scene, &files, &place, &mut found), Ok(()));
    assert_eq!((found.geometries.len(), found.skipped.len(), found.seen.clone()), first);
}

#[test]
fn flip_is_kept_for_the_model_or_its_scene() {
    let bound = obj(vec![("StateSet", obj(vec![("TextureAttributeList", arr(vec![]))]))]);
    assert!(keeps_flip(true, &Json::Null));
    assert!(keeps_flip(false, &bound));
    assert!(!keeps_flip(false, &obj(vec![("StateSet", Json::Null)])));
}
