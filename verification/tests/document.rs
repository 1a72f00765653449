use sketchfab_downloader::buffers::AttrData;
use sketchfab_downloader::convert::{
    add_geometries, add_geometry, backdrop_box, configure_vertex_colors, extensions_used,
    find_attribute, image_mime, image_order, is_black_line_material, is_texcoord, joint_binds,
    keep_geometries, keep_geometry, set_colors, start, Geometry, MorphTarget, NamedAttribute,
};
use sketchfab_downloader::gltf::{
    attribute_bounds, bytes_for_attr, push_padded, write_glb, AccessorKind, AlphaMode, Animation,
    Attribute, Bounds, Channel, ChannelPath, Document, ExportedTransform, Material,
    MaterialExtension, Mime, Placement, SamplerSettings, TextureInfo,
};
use sketchfab_downloader::images::{ImageError, ImageFile};
use sketchfab_downloader::json::Json;
use sketchfab_downloader::layout::{document_json, Place, Written};
use sketchfab_downloader::model::{Derived, MaterialEntry, TextureTransform, TextureUse};
use sketchfab_downloader::palette::{
    add_material_variant, same_texture_mapping, texcoord_for, texture_info,
    texture_info_for_index, Extensions, StoredTexture, Studio, TextureKey,
};
use sketchfab_downloader::scene::{collect_skeletons, matrix16};

fn bits(list: &[f32]) -> Vec<u32> {
    list.iter().map(|x| x.to_bits()).collect()
}

fn one() -> u32 {
    1.0f32.to_bits()
}

fn test_texture_use() -> TextureUse {
    TextureUse {
        uid: "texture".to_owned(),
        texcoord_unit: 3,
        transform: TextureTransform { offset: [0, 0], scale: [one(), one()], rotation: 0 },
        sampler: SamplerSettings {
            mag_filter: 9729,
            min_filter: 9987,
            wrap_s: 10497,
            wrap_t: 10497,
        },
        alpha_channel: false,
        exported: None,
    }
}

fn black_material() -> MaterialEntry {
    MaterialEntry {
        name: "line".to_owned(),
        base_color: [0, 0, 0, one()],
        base_color_texture: None,
        emissive_color: [0, 0, 0],
        emissive_factor: one(),
        emissive_enabled: false,
        emissive_texture: None,
        occlusion_texture: None,
        normal_texture: None,
        metallic_texture: None,
        roughness_texture: None,
        roughness_invert: false,
        opacity_texture: None,
        alpha_mask_texture: None,
        alpha_invert: false,
        normal_scale: one(),
        normal_flip_y: false,
        metallic_factor: 0,
        roughness_factor: None,
        alpha_mode: AlphaMode::Opaque,
        alpha_cutoff: 0.5f32.to_bits(),
        double_sided: true,
        unlit: false,
        extensions: Vec::new(),
        derived: Derived { roughness: one(), emissive: [0, 0, 0], emissive_strength: one() },
    }
}

fn no_extensions() -> Extensions {
    Extensions {
        texture_transform: false,
        unlit: false,
        emissive_strength: false,
        clearcoat: false,
        specular: false,
    }
}

fn empty_studio() -> Studio {
    Studio { document: Document::new(), made: Vec::new(), extensions: no_extensions() }
}

fn png(rgba: Vec<u8>) -> ImageFile {
    let image = image::RgbaImage::from_raw(1, 1, rgba).unwrap();
    let mut out = std::io::Cursor::new(Vec::new());
    image::DynamicImage::ImageRgba8(image).write_to(&mut out, image::ImageFormat::Png).unwrap();
    ImageFile { name: "picture.png".to_owned(), bytes: out.into_inner() }
}

fn floats(values: &[f32], item_size: usize) -> Attribute {
    Attribute {
        data: AttrData::F32(bits(values)),
        item_size,
        count: values.len() / item_size,
        component_type: 5126,
        normalized: false,
    }
}

fn triangle(material: Option<&str>) -> Geometry {
    Geometry {
        indices: vec![0, 1, 2],
        mode: 4,
        attributes: vec![NamedAttribute {
            name: "POSITION".to_owned(),
            attribute: floats(&[0.0, 0.0, 0.0, 1.0, 0.0, 0.0, 0.0, 1.0, 0.0], 3),
        }],
        morph_targets: Vec::new(),
        texcoord_units: vec![(3, 0)],
        material_name: material.map(|m| m.to_owned()),
        joint_names: Vec::new(),
        inverse_bind: Vec::new(),
        path: vec![matrix16(None)],
        animation_target: None,
    }
}

fn text(s: &str) -> Json {
    Json::Text(s.to_owned(), None)
}

fn skeleton_scene() -> Json {
    let bone = Json::Object(vec![(
        "osgAnimation.Bone".to_owned(),
        Json::Object(vec![("Name".to_owned(), text("hip"))]),
    )]);
    Json::Object(vec![(
        "osgAnimation.Skeleton".to_owned(),
        Json::Object(vec![("Children".to_owned(), Json::Array(vec![bone]))]),
    )])
}

fn at<'a>(value: &'a Written, path: &[&str]) -> Option<&'a Written> {
    let Some((first, rest)) = path.split_first() else {
        return Some(value);
    };
    let next = match value {
        Written::Members(members) => members.iter().find(|(n, _)| n == first).map(|(_, v)| v)?,
        Written::List(items) => items.get(first.parse::<usize>().ok()?)?,
        _ => return None,
    };
    at(next, rest)
}

fn number(value: &Written, path: &[&str]) -> Option<u64> {
    match at(value, path) {
        Some(Written::Whole(n)) => Some(*n),
        _ => None,
    }
}

fn string<'a>(value: &'a Written, path: &[&str]) -> Option<&'a str> {
    match at(value, path) {
        Some(Written::Text(t)) => Some(t.as_str()),
        _ => None,
    }
}

fn places(d: &Document) -> Vec<Place> {
    let place = |p: &Placement| match p {
        Placement::Unplaced => Place::Unplaced,
        Placement::Trs(t, r, s) => Place::Trs(t.clone(), r.clone(), s.clone()),
        Placement::Product(path) => Place::Whole(path[0]),
        Placement::Decomposed(_) => Place::Trs(vec![0; 3], vec![0; 4], vec![one(); 3]),
    };
    d.nodes.iter().map(|n| place(&n.placement)).collect()
}

#[test]
fn filters_namespaced_black_line_materials() {
    let material = black_material();
    assert!(is_black_line_material("model:model:Linea", Some(&material)));
}

#[test]
fn preserves_textured_line_materials() {
    let mut material = black_material();
    material.base_color_texture = Some(test_texture_use());
    assert!(!is_black_line_material("LineArt", Some(&material)));
}

#[test]
fn maps_sparse_source_uv_units_to_dense_gltf_units() {
    let usage = test_texture_use();
    let mut studio = empty_studio();
    for _ in 0..4 {
        studio.document.add_texture(0, 0);
    }
    let key = TextureKey::Plain { uid: usage.uid.clone(), sampler: usage.sampler };
    assert_eq!(studio.make(key, 0, usage.sampler), 4);
    let units = vec![(3, 0)];
    let info = texture_info(&studio, Some(&usage), &units).unwrap();
    assert_eq!(info.index, 4);
    assert_eq!(info.texcoord, 0);
    assert!(info.transform.is_none());
}

#[test]
fn converts_texture_transform_after_uv_flip() {
    let mut usage = test_texture_use();
    let (offset, scale, rotation) = ([0.1f32, 0.2], [2.0f32, 3.0], 0.0f32);
    usage.transform.offset = offset.map(f32::to_bits);
    usage.transform.scale = scale.map(f32::to_bits);
    let moved = [
        offset[0] - rotation.sin() * scale[1],
        1.0 - offset[1] - rotation.cos() * scale[1],
    ];
    usage.exported = Some(ExportedTransform {
        offset: moved.map(f32::to_bits),
        scale: usage.transform.scale,
        rotation: None,
    });
    let info = texture_info_for_index(0, &usage, &vec![(3, 0)]);
    let offset = info.transform.unwrap().offset.map(f32::from_bits);
    assert!((offset[0] as f64 - 0.1).abs() < 1e-6);
    assert!((offset[1] as f64 + 2.2).abs() < 1e-6);

    let mut source = black_material();
    let mut studio = empty_studio();
    let key = TextureKey::Plain { uid: usage.uid.clone(), sampler: usage.sampler };
    assert_eq!(studio.make(key, 0, usage.sampler), 0);
    source.base_color_texture = Some(usage);
    assert_eq!(add_material_variant(&source, &vec![(3, 0)], &vec![], &mut studio), Ok(0));
    assert!(studio.extensions.texture_transform);
    let written =
        document_json(&studio.document, &extensions_used(studio.extensions), &vec![]);
    let offset = at(
        &written,
        &[
            "materials",
            "0",
            "pbrMetallicRoughness",
            "baseColorTexture",
            "extensions",
            "KHR_texture_transform",
            "offset",
        ],
    );
    match offset {
        Some(Written::List(list)) => {
            assert_eq!(list.len(), 2);
            assert!(matches!(list[0], Written::Single(b) if (f32::from_bits(b) as f64 - 0.1).abs() < 1e-6));
            assert!(matches!(list[1], Written::Single(b) if (f32::from_bits(b) as f64 + 2.2).abs() < 1e-6));
        }
        _ => panic!("an offset"),
    }
}

#[test]
fn bright_or_other_materials_are_no_lines() {
    let mut material = black_material();
    assert!(!is_black_line_material("outline", Some(&material)));
    assert!(!is_black_line_material("line", None));
    assert!(is_black_line_material("a/b\\LINE", Some(&material)));
    material.base_color[1] = 0.5f32.to_bits();
    assert!(!is_black_line_material("line", Some(&material)));
}

#[test]
fn texture_infos_carry_transforms() {
    let mut usage = test_texture_use();
    let moved = ExportedTransform {
        offset: [0.1f32.to_bits(), 0.2f32.to_bits()],
        scale: [one(), one()],
        rotation: None,
    };
    usage.exported = Some(moved);
    let info = texture_info_for_index(7, &usage, &vec![(1, 2), (5, 1)]);
    assert_eq!((info.index, info.texcoord), (7, 1));
    assert_eq!(info.transform.unwrap().offset, moved.offset);
    assert!(texture_info(&empty_studio(), Some(&usage), &vec![]).is_none());
    assert!(texture_info(&empty_studio(), None, &vec![]).is_none());
}

#[test]
fn texcoords_fall_back_to_the_least() {
    assert_eq!(texcoord_for(&vec![(1, 4), (2, 3)], 1), 4);
    assert_eq!(texcoord_for(&vec![(1, 4), (2, 3)], 9), 3);
    assert_eq!(texcoord_for(&vec![], 9), 0);
}

#[test]
fn mappings_compare_as_numbers() {
    let a = test_texture_use();
    let mut b = test_texture_use();
    b.transform.rotation = (-0.0f32).to_bits();
    b.uid = "other".to_owned();
    assert!(same_texture_mapping(&a, &b));
    b.texcoord_unit = 4;
    assert!(!same_texture_mapping(&a, &b));
}

#[test]
fn bytes_are_padded() {
    let mut bin = vec![1];
    assert_eq!(push_padded(&mut bin, &[2, 3]), (1, 2));
    assert_eq!(bin, vec![1, 2, 3, 0]);
    assert_eq!(push_padded(&mut bin, &[]), (4, 0));
    assert_eq!(bin.len(), 4);
}

#[test]
fn attributes_become_bytes() {
    let attr = |data: AttrData| Attribute {
        data,
        item_size: 1,
        count: 2,
        component_type: 0,
        normalized: false,
    };
    assert_eq!(bytes_for_attr(&attr(AttrData::U16(vec![1, 0x0203]))), vec![1, 0, 3, 2]);
    assert_eq!(bytes_for_attr(&attr(AttrData::I16(vec![-1, 2]))), vec![255, 255, 2, 0]);
    assert_eq!(bytes_for_attr(&attr(AttrData::I32(vec![-2]))), vec![254, 255, 255, 255]);
    assert_eq!(bytes_for_attr(&attr(AttrData::U8(vec![9, 8]))), vec![9, 8]);
    assert_eq!(bytes_for_attr(&attr(AttrData::F32(vec![one()]))), 1.0f32.to_le_bytes().to_vec());
}

#[test]
fn bounds_hold_every_item() {
    match attribute_bounds(&floats(&[1.0, -2.0, 0.5, 3.0], 2)) {
        Bounds::Singles(low, high) => {
            assert_eq!(low, bits(&[0.5, -2.0]));
            assert_eq!(high, bits(&[1.0, 3.0]));
        }
        _ => panic!("floating-point bounds"),
    }
    let indices = Attribute {
        data: AttrData::U32(vec![4, 2, 9]),
        item_size: 1,
        count: 3,
        component_type: 5125,
        normalized: false,
    };
    match attribute_bounds(&indices) {
        Bounds::Integers(low, high) => {
            assert_eq!(low, vec![Some(2)]);
            assert_eq!(high, vec![Some(9)]);
        }
        _ => panic!("integer bounds"),
    }
}

#[test]
fn accessors_refer_to_their_bytes() {
    let mut d = Document::new();
    let first = d.add_accessor(&floats(&[1.0, 2.0, 3.0], 3));
    let second = d.add_vertex_accessor(&floats(&[1.0], 1), 34962);
    assert_eq!((first, second), (0, 1));
    assert!(matches!(d.accessors[0].kind, AccessorKind::Vec3));
    assert_eq!(d.accessors[1].buffer_view, 1);
    assert_eq!((d.buffer_views[1].offset, d.buffer_views[1].length), (12, 4));
    assert_eq!(d.buffer_views[0].target, None);
    assert_eq!(d.buffer_views[1].target, Some(34962));
    d.set_accessor_target(9, 1);
    d.set_accessor_target(0, 34963);
    assert_eq!(d.buffer_views[0].target, Some(34963));
    let third = d.add_mat4_accessor(&[0; 32]);
    assert_eq!(d.accessors[third].count, 2);
    assert!(d.accessors[third].bounds.is_none());
}

#[test]
fn container_has_two_chunks() {
    let out = write_glb(b"{}", &[1, 2, 3]);
    assert_eq!(out.len(), 12 + 8 + 4 + 8 + 4);
    assert_eq!(&out[0..4], b"glTF");
    assert_eq!(out[4..8], 2u32.to_le_bytes());
    assert_eq!(out[8..12], 36u32.to_le_bytes());
    assert_eq!(out[12..16], 4u32.to_le_bytes());
    assert_eq!(&out[16..20], b"JSON");
    assert_eq!(&out[20..24], b"{}  ");
    assert_eq!(out[24..28], 4u32.to_le_bytes());
    assert_eq!(&out[28..32], b"BIN\0");
    assert_eq!(&out[32..36], &[1, 2, 3, 0]);
}

#[test]
fn samplers_are_shared() {
    let usage = test_texture_use();
    let mut studio = empty_studio();
    let key = |uid: &str| TextureKey::Plain { uid: uid.to_owned(), sampler: usage.sampler };
    assert_eq!(studio.make(key("a"), 0, usage.sampler), 0);
    assert_eq!(studio.make(key("b"), 1, usage.sampler), 1);
    assert_eq!(studio.document.samplers.len(), 1);
    assert_eq!(studio.find_made(&key("b")), Some(1));
    assert_eq!(studio.find_made(&key("c")), None);
}

#[test]
fn masked_base_is_made_once() {
    let mut source = black_material();
    source.alpha_mode = AlphaMode::Mask;
    source.alpha_mask_texture = Some(test_texture_use());
    let files =
        vec![StoredTexture { uid: "texture".to_owned(), file: Some(png(vec![9, 9, 9, 255])) }];
    let mut studio = empty_studio();
    let units = vec![(3, 0)];
    assert_eq!(add_material_variant(&source, &units, &files, &mut studio), Ok(0));
    assert_eq!(add_material_variant(&source, &units, &files, &mut studio), Ok(1));
    assert_eq!(studio.document.images.len(), 1);
    assert_eq!(studio.document.textures.len(), 1);
    let m = &studio.document.materials[1];
    assert_eq!(m.base_color_texture.map(|t| t.index), Some(0));
    assert_eq!(m.alpha_cutoff, Some(0.5f32.to_bits()));
}

#[test]
fn broken_surface_is_an_error() {
    let mut source = black_material();
    source.roughness_texture = Some(test_texture_use());
    let broken = ImageFile { name: "picture.png".to_owned(), bytes: vec![1] };
    let files = vec![StoredTexture { uid: "texture".to_owned(), file: Some(broken) }];
    assert_eq!(
        add_material_variant(&source, &vec![], &files, &mut empty_studio()),
        Err(ImageError::Unreadable)
    );
}

#[test]
fn used_features_are_noted() {
    let mut source = black_material();
    source.emissive_enabled = true;
    source.derived.emissive_strength = 3.0f32.to_bits();
    source.unlit = true;
    let mut studio = empty_studio();
    assert_eq!(add_material_variant(&source, &vec![], &vec![], &mut studio), Ok(0));
    assert!(studio.extensions.unlit && studio.extensions.emissive_strength);
    assert_eq!(
        extensions_used(studio.extensions),
        vec!["KHR_materials_emissive_strength".to_owned(), "KHR_materials_unlit".to_owned()]
    );
}

#[test]
fn extensions_are_sorted() {
    let all = Extensions {
        texture_transform: true,
        unlit: true,
        emissive_strength: true,
        clearcoat: true,
        specular: true,
    };
    let names = extensions_used(all);
    let mut sorted = names.clone();
    sorted.sort();
    sorted.dedup();
    assert_eq!(names, sorted);
    assert_eq!(names.len(), 5);
    assert!(extensions_used(no_extensions()).is_empty());
}

#[test]
fn backdrops_are_measured() {
    let materials = vec![black_material()];
    let g = triangle(Some("line"));
    let (low, high) = backdrop_box(&g, &materials).unwrap();
    assert_eq!(low.to_vec(), bits(&[0.0, 0.0, 0.0]));
    assert_eq!(high.to_vec(), bits(&[1.0, 1.0, 0.0]));
    assert!(backdrop_box(&triangle(None), &materials).is_none());
    let mut rigged = triangle(Some("line"));
    rigged.joint_names.push("hip".to_owned());
    assert!(backdrop_box(&rigged, &materials).is_none());
}

#[test]
fn outlines_and_lines_are_left_out() {
    let materials = vec![black_material()];
    assert!(!keep_geometry(&triangle(Some("line")), &materials, false));
    assert!(!keep_geometry(&triangle(Some("My OutLine")), &materials, false));
    assert!(keep_geometry(&triangle(Some("skin")), &materials, false));
    assert!(keep_geometry(&triangle(None), &materials, false));
    assert!(!keep_geometry(&triangle(None), &materials, true));
}

#[test]
fn vertex_colors_are_cut_out() {
    let colors = Attribute {
        data: AttrData::U8(vec![1, 2, 3, 4, 5, 6, 7, 8]),
        item_size: 4,
        count: 2,
        component_type: 5121,
        normalized: true,
    };
    let mut g = triangle(None);
    g.attributes
        .insert(0, NamedAttribute { name: "_SKETCHFAB_COLOR_0".to_owned(), attribute: colors });
    let plan = configure_vertex_colors(&mut g, true, false).unwrap();
    assert!(matches!(&plan.data, AttrData::U8(v) if *v == vec![1, 2, 3, 5, 6, 7]));
    assert_eq!((plan.item_size, plan.count, plan.full), (3, 2, 255));
    assert_eq!(g.attributes.len(), 1);
    assert!(configure_vertex_colors(&mut g, true, true).is_none());
    set_colors(&mut g, floats(&[0.0, 0.0, 0.0], 3));
    set_colors(&mut g, floats(&[1.0, 1.0, 1.0], 3));
    assert_eq!(g.attributes.len(), 2);
    let at = find_attribute(&g.attributes, "COLOR_0").unwrap();
    assert!(matches!(&g.attributes[at].attribute.data, AttrData::F32(v) if v[0] == one()));
}

#[test]
fn images_have_an_order_and_a_kind() {
    let file = |uid: &str| StoredTexture { uid: uid.to_owned(), file: None };
    let order = image_order(&vec![file("b"), file("a"), file("b")]);
    assert_eq!(order, vec!["a".to_owned(), "b".to_owned()]);
    assert!(matches!(image_mime("x.PNG"), Mime::Png));
    assert!(matches!(image_mime("x.jpeg"), Mime::Jpeg));
    assert!(matches!(image_mime("png"), Mime::Jpeg));
}

#[test]
fn geometries_become_meshes() {
    let mut skin_material = black_material();
    skin_material.name = "skin".to_owned();
    skin_material.base_color_texture = Some(test_texture_use());
    let materials = vec![skin_material];
    let files =
        vec![StoredTexture { uid: "texture".to_owned(), file: Some(png(vec![1, 2, 3, 255])) }];
    let mut b = start(collect_skeletons(&skeleton_scene()), &materials, &files);
    assert_eq!(b.studio.document.nodes.len(), 2);
    assert_eq!(b.studio.document.images.len(), 1);
    assert_eq!(b.studio.document.textures.len(), 1);
    assert_eq!(b.fallback, 0);

    let mut rigged = triangle(Some("skin"));
    rigged.joint_names = vec!["hip".to_owned()];
    rigged.inverse_bind = vec![0; 16];
    let mut moved = triangle(Some("skin"));
    moved.animation_target = Some("door".to_owned());
    moved.morph_targets.push(MorphTarget {
        name: "smile".to_owned(),
        attributes: vec![NamedAttribute {
            name: "POSITION".to_owned(),
            attribute: floats(&[0.0; 9], 3),
        }],
    });
    let plain = triangle(None);
    assert_eq!(add_geometries(&mut b, &vec![rigged, moved, plain], &materials, &files), Ok(()));

    let d = &b.studio.document;
    assert_eq!(d.meshes.len(), 3);
    assert_eq!(d.materials.len(), 2);
    assert_eq!(d.meshes[0].material, 1);
    assert_eq!(d.meshes[1].material, 1);
    assert_eq!(d.meshes[2].material, 0);
    assert_eq!(d.meshes[2].name, "mesh");
    assert_eq!(d.meshes[1].targets.len(), 1);
    assert_eq!(d.skins.len(), 1);
    assert_eq!(d.skins[0].joints, vec![0]);
    assert_eq!(d.skins[0].name, "skin_0");
    assert_eq!(d.nodes[2].skin, Some(0));
    assert_eq!(d.nodes[2].name, "mesh_0");
    assert!(matches!(d.nodes[2].placement, Placement::Unplaced));
    assert!(matches!(d.nodes[3].placement, Placement::Decomposed(_)));
    assert!(matches!(d.nodes[4].placement, Placement::Product(_)));
    assert_eq!(d.roots, vec![1, 2, 3, 4]);
    assert_eq!(b.names.get("door"), Some(&3));
    assert_eq!(b.bindings.len(), 1);
    assert_eq!(b.bindings[0].name, "smile");
    assert_eq!(b.bindings[0].binding.node, 3);
    assert_eq!(b.bindings[0].binding.target_count, 1);
    for accessor in &d.accessors {
        let view = &d.buffer_views[accessor.buffer_view];
        assert!(view.offset + view.length <= d.bin.len());
    }
    let mut claimed = vec![false; d.nodes.len()];
    for node in &d.nodes {
        for child in &node.children {
            assert!(!claimed[*child]);
            claimed[*child] = true;
        }
    }
    for root in &d.roots {
        assert!(!claimed[*root]);
    }
    let stored = |view: usize| {
        let b = &d.buffer_views[view];
        &d.bin[b.offset..b.offset + b.length]
    };
    let file = files[0].file.as_ref().unwrap();
    assert_eq!(stored(d.images[0].buffer_view), file.bytes.as_slice());
    let indices: Vec<u8> = [0u32, 1, 2].iter().flat_map(|i| i.to_le_bytes()).collect();
    for mesh in &d.meshes {
        assert_eq!(stored(d.accessors[mesh.indices].buffer_view), indices.as_slice());
        assert_eq!(mesh.attributes[0].name, "POSITION");
        let position = stored(d.accessors[mesh.attributes[0].accessor].buffer_view);
        assert_eq!(position, bytes_for_attr(&triangle(None).attributes[0].attribute).as_slice());
    }
}

#[test]
fn earlier_entries_stay() {
    let mut d = Document::new();
    d.add_image_bytes(&[1, 2, 3], Mime::Png);
    let first = d.add_vertex_accessor(&floats(&[4.0], 1), 34962);
    let before = d.bin.clone();
    let range = (d.buffer_views[0].offset, d.buffer_views[0].length);
    d.add_mat4_accessor(&[7; 16]);
    d.add_image_bytes(&[9; 5], Mime::Jpeg);
    assert_eq!(d.bin[..before.len()], before[..]);
    assert_eq!((d.buffer_views[0].offset, d.buffer_views[0].length), range);
    assert_eq!(d.accessors[first].buffer_view, 1);
    assert_eq!(d.bin.len() % 4, 0);
}

#[test]
fn joints_without_a_bind_get_the_identity() {
    let found = collect_skeletons(&skeleton_scene());
    let binds = joint_binds(&vec!["hip".to_owned()], &found.skeleton.binds);
    assert_eq!(binds, vec![matrix16(None)]);
    assert!(joint_binds(&vec![], &found.skeleton.binds).is_empty());
}

#[test]
fn unknown_joints_make_no_skin() {
    let mut b = start(collect_skeletons(&Json::Null), &vec![], &vec![]);
    let mut rigged = triangle(None);
    rigged.joint_names = vec!["nowhere".to_owned()];
    assert_eq!(add_geometry(&mut b, &rigged, &vec![], &vec![]), Ok(()));
    assert!(b.studio.document.skins.is_empty());
    assert!(matches!(b.studio.document.nodes[0].placement, Placement::Product(_)));
}

#[test]
fn material_variants_depend_on_units() {
    let materials = vec![black_material()];
    let mut b = start(collect_skeletons(&Json::Null), &materials, &vec![]);
    let mut other = triangle(Some("line"));
    other.texcoord_units = vec![(1, 0)];
    let list = vec![triangle(Some("line")), other, triangle(Some("line"))];
    assert_eq!(add_geometries(&mut b, &list, &materials, &vec![]), Ok(()));
    assert_eq!(b.variants.len(), 2);
    let d = &b.studio.document;
    assert_eq!(d.meshes[0].material, d.meshes[2].material);
    assert_ne!(d.meshes[0].material, d.meshes[1].material);
}

#[test]
fn ranges_follow_each_other() {
    let mut d = Document::new();
    d.add_image_bytes(&[1, 2, 3], Mime::Png);
    d.add_accessor(&floats(&[1.0, 2.0], 1));
    d.add_image_bytes(&[], Mime::Png);
    d.add_mat4_accessor(&[7; 16]);
    for pair in d.buffer_views.windows(2) {
        assert!(pair[0].offset + pair[0].length <= pair[1].offset);
    }
    let ends: Vec<(usize, usize)> = d.buffer_views.iter().map(|b| (b.offset, b.length)).collect();
    assert_eq!(ends, vec![(0, 3), (4, 8), (12, 0), (12, 64)]);
}

#[test]
fn empty_document_is_written_without_empty_lists() {
    let written = document_json(&Document::new(), &vec![], &vec![]);
    assert_eq!(string(&written, &["asset", "version"]), Some("2.0"));
    assert_eq!(string(&written, &["asset", "generator"]), Some("sketchfab-downloader-rust"));
    assert_eq!(number(&written, &["scene"]), Some(0));
    assert_eq!(number(&written, &["buffers", "0", "byteLength"]), Some(0));
    for name in ["nodes", "meshes", "accessors", "bufferViews", "materials"] {
        assert!(matches!(at(&written, &[name]), Some(Written::List(l)) if l.is_empty()));
    }
    for name in ["skins", "animations", "textures", "images", "samplers", "extensionsUsed"] {
        assert!(at(&written, &[name]).is_none());
    }
}

#[test]
fn geometries_are_written() {
    let mut skin_material = black_material();
    skin_material.name = "skin".to_owned();
    skin_material.unlit = true;
    skin_material.base_color_texture = Some(test_texture_use());
    let materials = vec![skin_material];
    let files =
        vec![StoredTexture { uid: "texture".to_owned(), file: Some(png(vec![1, 2, 3, 255])) }];
    let mut b = start(collect_skeletons(&skeleton_scene()), &materials, &files);
    let mut rigged = triangle(Some("skin"));
    rigged.joint_names = vec!["hip".to_owned()];
    rigged.inverse_bind = vec![0; 16];
    let mut moved = triangle(Some("skin"));
    moved.animation_target = Some("door".to_owned());
    moved.morph_targets.push(MorphTarget {
        name: "smile".to_owned(),
        attributes: vec![NamedAttribute {
            name: "POSITION".to_owned(),
            attribute: floats(&[0.0; 9], 3),
        }],
    });
    let list = vec![rigged, moved, triangle(None)];
    assert_eq!(add_geometries(&mut b, &list, &materials, &files), Ok(()));
    b.studio.document.add_animation(Animation {
        name: "wave".to_owned(),
        channels: vec![Channel { input: 0, output: 1, node: 3, path: ChannelPath::Weights }],
    });
    let d = &b.studio.document;
    let used = extensions_used(b.studio.extensions);
    assert_eq!(used, vec!["KHR_materials_unlit".to_owned()]);
    let w = document_json(d, &used, &places(d));

    assert_eq!(number(&w, &["buffers", "0", "byteLength"]), Some(d.bin.len() as u64));
    assert_eq!(string(&w, &["extensionsUsed", "0"]), Some("KHR_materials_unlit"));
    assert_eq!(number(&w, &["scenes", "0", "nodes", "0"]), Some(d.roots[0] as u64));
    for (i, view) in d.buffer_views.iter().enumerate() {
        let i = i.to_string();
        assert_eq!(number(&w, &["bufferViews", &i, "buffer"]), Some(0));
        assert_eq!(number(&w, &["bufferViews", &i, "byteOffset"]), Some(view.offset as u64));
        assert_eq!(number(&w, &["bufferViews", &i, "byteLength"]), Some(view.length as u64));
        assert_eq!(number(&w, &["bufferViews", &i, "target"]), view.target.map(|t| t as u64));
    }
    assert_eq!(string(&w, &["images", "0", "mimeType"]), Some("image/png"));
    assert!(at(&w, &["images", "0", "uri"]).is_none());
    assert_eq!(number(&w, &["textures", "0", "source"]), Some(0));
    assert_eq!(number(&w, &["samplers", "0", "magFilter"]), Some(9729));

    assert_eq!(string(&w, &["materials", "0", "name"]), Some("fallback"));
    assert!(at(&w, &["materials", "0", "alphaMode"]).is_none());
    let fallback = ["materials", "0", "pbrMetallicRoughness"];
    assert_eq!(number(&w, &[&fallback[..], &["baseColorFactor", "3"]].concat()), Some(1));
    assert_eq!(number(&w, &[&fallback[..], &["metallicFactor"]].concat()), Some(0));
    assert_eq!(number(&w, &[&fallback[..], &["roughnessFactor"]].concat()), Some(1));
    assert!(matches!(
        at(&w, &["materials", "1", "extensions", "KHR_materials_unlit"]),
        Some(Written::Members(m)) if m.is_empty()
    ));
    assert!(matches!(
        at(&w, &["materials", "1", "pbrMetallicRoughness", "baseColorFactor", "0"]),
        Some(Written::Single(0))
    ));

    let skin = number(&w, &["nodes", "2", "skin"]).unwrap().to_string();
    let matrices = number(&w, &["skins", &skin, "inverseBindMatrices"]).unwrap().to_string();
    assert_eq!(string(&w, &["accessors", &matrices, "type"]), Some("MAT4"));
    assert_eq!(number(&w, &["accessors", &matrices, "count"]), Some(1));
    assert!(at(&w, &["accessors", &matrices, "min"]).is_none());
    assert_eq!(number(&w, &["skins", &skin, "joints", "0"]), Some(0));
    for node in ["2", "3", "4"] {
        let has = |name: &str| at(&w, &["nodes", node, name]).is_some();
        let forms = [has("skin"), has("matrix"), has("translation") && has("rotation") && has("scale")];
        assert_eq!(forms.iter().filter(|f| **f).count(), 1);
    }
    assert!(matches!(at(&w, &["nodes", "4", "matrix"]), Some(Written::List(m)) if m.len() == 16));

    assert_eq!(string(&w, &["meshes", "2", "name"]), Some("mesh"));
    assert_eq!(number(&w, &["meshes", "2", "primitives", "0", "mode"]), Some(4));
    assert!(at(&w, &["meshes", "2", "weights"]).is_none());
    assert_eq!(string(&w, &["meshes", "1", "extras", "targetNames", "0"]), Some("smile"));
    assert!(matches!(at(&w, &["meshes", "1", "weights", "0"]), Some(Written::Double(0))));
    let target = ["meshes", "1", "primitives", "0", "targets", "0", "POSITION"];
    assert_eq!(number(&w, &target), Some(d.meshes[1].targets[0].attributes[0].accessor as u64));

    assert_eq!(string(&w, &["animations", "0", "name"]), Some("wave"));
    assert_eq!(string(&w, &["animations", "0", "samplers", "0", "interpolation"]), Some("LINEAR"));
    assert_eq!(number(&w, &["animations", "0", "channels", "0", "sampler"]), Some(0));
    assert_eq!(
        string(&w, &["animations", "0", "channels", "0", "target", "path"]),
        Some("weights")
    );
}

#[test]
fn materials_are_written_with_what_they_use() {
    let mut d = Document::new();
    let info = TextureInfo {
        index: 2,
        texcoord: 1,
        transform: Some(ExportedTransform {
            offset: [0, one()],
            scale: [one(), one()],
            rotation: Some(one()),
        }),
    };
    d.add_material(Material {
        name: "coat".to_owned(),
        double_sided: true,
        alpha_mode: Some(AlphaMode::Mask),
        base_color: [one(); 4],
        metallic: 0,
        roughness: one(),
        base_color_texture: None,
        metallic_roughness_texture: Some(info),
        emissive_factor: Some([0, 0, one()]),
        emissive_strength: Some(2.0f32.to_bits()),
        emissive_texture: None,
        occlusion_texture: Some(info),
        normal_texture: Some(info),
        normal_scale: 0.5f32.to_bits(),
        alpha_cutoff: Some(0.25f32.to_bits()),
        extensions: vec![
            MaterialExtension::Clearcoat(one(), 0),
            MaterialExtension::Specular(0.5f64.to_bits()),
        ],
        unlit: false,
    });
    let w = document_json(&d, &vec![], &vec![]);
    let single = |path: &[&str]| match at(&w, &[&["materials", "0"][..], path].concat()) {
        Some(Written::Single(b)) => Some(f32::from_bits(*b)),
        _ => None,
    };
    assert_eq!(string(&w, &["materials", "0", "alphaMode"]), Some("MASK"));
    assert_eq!(single(&["pbrMetallicRoughness", "metallicFactor"]), Some(0.0));
    assert_eq!(single(&["emissiveFactor", "2"]), Some(1.0));
    assert_eq!(single(&["alphaCutoff"]), Some(0.25));
    assert_eq!(single(&["normalTexture", "scale"]), Some(0.5));
    assert!(matches!(
        at(&w, &["materials", "0", "occlusionTexture", "strength"]),
        Some(Written::Double(b)) if f64::from_bits(*b) == 1.0
    ));
    let extension = |path: &[&str]| single(&[&["extensions"][..], path].concat());
    assert_eq!(
        extension(&["KHR_materials_emissive_strength", "emissiveStrength"]),
        Some(2.0)
    );
    assert_eq!(extension(&["KHR_materials_clearcoat", "clearcoatFactor"]), Some(1.0));
    assert_eq!(extension(&["KHR_materials_clearcoat", "clearcoatRoughnessFactor"]), Some(0.0));
    assert!(matches!(
        at(&w, &["materials", "0", "extensions", "KHR_materials_specular", "specularFactor"]),
        Some(Written::Double(b)) if f64::from_bits(*b) == 0.5
    ));
    let moved = ["pbrMetallicRoughness", "metallicRoughnessTexture", "extensions"];
    let rotation = [&moved[..], &["KHR_texture_transform", "rotation"]].concat();
    assert_eq!(single(&rotation), Some(1.0));
    assert!(at(&w, &["materials", "0", "emissiveTexture"]).is_none());
}

#[test]
fn bounds_are_written_as_numbers() {
    let mut d = Document::new();
    d.add_accessor(&floats(&[1.0, 2.0, 3.0], 3));
    d.add_accessor(&Attribute {
        data: AttrData::U8(vec![4, 2]),
        item_size: 1,
        count: 2,
        component_type: 5121,
        normalized: true,
    });
    let w = document_json(&d, &vec![], &vec![]);
    assert_eq!(string(&w, &["accessors", "0", "type"]), Some("VEC3"));
    assert!(matches!(at(&w, &["accessors", "0", "max", "2"]), Some(Written::Single(b)) if f32::from_bits(*b) == 3.0));
    assert!(at(&w, &["accessors", "0", "normalized"]).is_none());
    assert_eq!(string(&w, &["accessors", "1", "type"]), Some("SCALAR"));
    assert!(matches!(at(&w, &["accessors", "1", "min", "0"]), Some(Written::Rounded(2))));
    assert!(matches!(at(&w, &["accessors", "1", "normalized"]), Some(Written::Bool(true))));
    assert_eq!(number(&w, &["accessors", "1", "componentType"]), Some(5121));
}

#[test]
fn kept_geometries_stay_in_order() {
    let materials = vec![black_material()];
    let list = vec![
        triangle(Some("first")),
        triangle(Some("line")),
        triangle(Some("Outline 2")),
        triangle(None),
        triangle(Some("wall")),
        triangle(Some("last")),
    ];
    let backdrops = vec![false, false, false, false, true, false];
    let kept = keep_geometries(list, &materials, &backdrops);
    let names: Vec<Option<&str>> = kept.iter().map(|g| g.material_name.as_deref()).collect();
    assert_eq!(names, vec![Some("first"), None, Some("last")]);
    assert!(keep_geometries(Vec::new(), &materials, &vec![]).is_empty());
}

#[test]
fn texture_coordinates_are_known_by_name() {
    assert!(is_texcoord("TEXCOORD_0"));
    assert!(is_texcoord("TEXCOORD_"));
    assert!(!is_texcoord("TEXCOORD"));
    assert!(!is_texcoord("_TEXCOORD_0"));
}
