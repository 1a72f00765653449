use sketchfab_downloader::animation::{
    add_morph_tracks, add_node_channel, add_weights_channel, bindings_of, choose_data,
    decode_animation_array, export_animation, find_animations, name_of, put_data, read_channels,
    times_of, unpack_components, weight_samples, AnimationData, ArrayShape, ChannelTarget, MorphGroup,
    MorphTargetBinding, NamedBinding,
};
use sketchfab_downloader::buffers::{AttrData, BufferError};
use sketchfab_downloader::gltf::{ChannelPath, Document};
use sketchfab_downloader::json::{Json, Number};
use sketchfab_downloader::keyframes::{
    deduplicate_keyframes, merge_times, sample_scalar_track, settle, Sample,
};
use sketchfab_downloader::metadata::user_data_values;
use sketchfab_downloader::scene::collect_skeletons;

fn bits(list: &[f32]) -> Vec<u32> {
    list.iter().map(|x| x.to_bits()).collect()
}

fn num(x: f64) -> Json {
    Json::Number(Number {
        unsigned: if x >= 0.0 && x.fract() == 0.0 { Some(x as u64) } else { None },
        double: x.to_bits(),
        single: (x as f32).to_bits(),
    })
}

fn txt(s: &str) -> Json {
    Json::Text(s.to_owned(), None)
}

fn obj(list: Vec<(&str, Json)>) -> Json {
    Json::Object(list.into_iter().map(|(k, v)| (k.to_owned(), v)).collect())
}

fn arr(list: Vec<Json>) -> Json {
    Json::Array(list)
}

fn floats_at(offset: u64, size: u64, item_size: u64) -> Json {
    obj(vec![
        (
            "Array",
            obj(vec![(
                "Float32Array",
                obj(vec![("Offset", num(offset as f64)), ("Size", num(size as f64))]),
            )]),
        ),
        ("ItemSize", num(item_size as f64)),
    ])
}

fn bytes(list: &[f32]) -> Vec<u8> {
    list.iter().flat_map(|x| x.to_le_bytes()).collect()
}

#[test]
fn samples_morph_tracks_linearly() {
    let times = bits(&[0.0, 2.0]);
    let values = [0.0f32, 1.0];
    let sample = |time: f32| match sample_scalar_track(&times, time.to_bits()) {
        Sample::Zero => 0.0,
        Sample::At(i) => values[i],
        Sample::Between(i, j) => {
            let (start, end) = (f32::from_bits(times[i]), f32::from_bits(times[j]));
            values[i] + (values[j] - values[i]) * ((time - start) / (end - start))
        }
    };
    assert_eq!(sample(-1.0), 0.0);
    assert_eq!(sample(1.0), 0.5);
    assert_eq!(sample(3.0), 1.0);
}

#[test]
fn deduplicates_animation_times_using_last_value() {
    let (times, values) =
        deduplicate_keyframes(bits(&[0.0, 1.0, 1.0, 2.0]), bits(&[0.0, 1.0, 2.0, 3.0]), 1);
    assert_eq!(times, bits(&[0.0, 1.0, 2.0]));
    assert_eq!(values, bits(&[0.0, 2.0, 3.0]));
}

#[test]
fn times_that_go_back_are_dropped() {
    let (times, values) =
        deduplicate_keyframes(bits(&[1.0, 0.5, 2.0]), bits(&[1.0, 2.0, 3.0, 4.0, 5.0, 6.0]), 2);
    assert_eq!(times, bits(&[1.0, 2.0]));
    assert_eq!(values, bits(&[1.0, 2.0, 5.0, 6.0]));
    let (times, values) = deduplicate_keyframes(bits(&[1.0]), bits(&[]), 1);
    assert_eq!((times.len(), values.len()), (1, 0));
}

#[test]
fn tracks_settle_when_they_match() {
    assert_eq!(
        settle(bits(&[0.0, 0.0]), bits(&[1.0, 2.0]), 1),
        Some((bits(&[0.0]), bits(&[2.0])))
    );
    assert_eq!(settle(vec![], vec![], 1), None);
    assert_eq!(settle(bits(&[0.0]), vec![], 3), None);
}

#[test]
fn samples_hit_keyframes() {
    let times = bits(&[0.0, 2.0]);
    assert!(matches!(sample_scalar_track(&times, 2.0f32.to_bits()), Sample::At(1)));
    assert!(matches!(sample_scalar_track(&times, 1.0f32.to_bits()), Sample::Between(0, 1)));
    assert!(matches!(sample_scalar_track(&vec![], 0), Sample::Zero));
}

#[test]
fn times_are_merged_in_order() {
    let merged = merge_times(&bits(&[2.0, 0.0, 1.0, 0.0]));
    assert_eq!(merged, bits(&[0.0, 1.0, 2.0]));
}

#[test]
fn packed_components_are_transposed() {
    match unpack_components(AttrData::F32(vec![1, 2, 3, 4, 5, 6]), 2) {
        AttrData::F32(v) => assert_eq!(v, vec![1, 4, 2, 5, 3, 6]),
        _ => panic!("the type stays"),
    }
}

#[test]
fn arrays_say_how_they_are_decoded() {
    let bin = bytes(&[1.0, 2.0, 3.0]);
    let channel = obj(vec![(
        "UserDataContainer",
        obj(vec![(
            "Values",
            arr(vec![
                obj(vec![("Name", txt("channel_mode")), ("Value", num(5.0))]),
                obj(vec![("Name", txt("ox")), ("Value", num(9.0))]),
            ]),
        )]),
    )]);
    let meta = user_data_values(&channel);
    let definition = floats_at(0, 1, 3);
    match decode_animation_array(&bin, Some(&definition), &meta, true, false, 3) {
        Ok(plan) => match plan.shape {
            ArrayShape::Numbers { range: Some((low, _)), origin: Some(origin) } => {
                assert_eq!(low, vec![0, 0, 0]);
                assert_eq!(origin, bits(&[9.0, 0.0, 0.0]));
            }
            _ => panic!("scaled and relative numbers"),
        },
        Err(_) => panic!("the array lies in the file"),
    }
    match decode_animation_array(&bin, Some(&definition), &meta, false, false, 3) {
        Ok(plan) => assert!(matches!(
            plan.shape,
            ArrayShape::Numbers { range: None, origin: None }
        )),
        Err(_) => panic!("the array lies in the file"),
    }
    assert!(matches!(
        decode_animation_array(&bin, None, &meta, true, false, 3),
        Err(BufferError::MissingAnimationArray)
    ));
}

fn binding(node: usize, target_index: usize, target_count: usize) -> MorphTargetBinding {
    MorphTargetBinding { node, target_index, target_count }
}

fn channel(kind: &str, target: &str, name: &str, item_size: u64) -> Json {
    obj(vec![(
        kind,
        obj(vec![
            (
                "KeyFrames",
                obj(vec![("Key", floats_at(8, 2, item_size)), ("Time", floats_at(0, 2, 1))]),
            ),
            ("Name", txt(name)),
            ("TargetName", txt(target)),
        ]),
    )])
}

#[test]
fn channels_find_their_targets() {
    let bone = obj(vec![("osgAnimation.Bone", obj(vec![("Name", txt("hip"))]))]);
    let scene = obj(vec![(
        "osgAnimation.Skeleton",
        obj(vec![("Children", arr(vec![bone]))]),
    )]);
    let found = collect_skeletons(&scene);
    let bindings =
        vec![NamedBinding { name: "smile".to_owned(), binding: binding(3, 0, 1) }];
    let animation = obj(vec![(
        "Channels",
        arr(vec![
            channel("osgAnimation.Vec3LinearChannel", "hip_7", "translate", 3),
            channel("osgAnimation.FloatLinearChannel", "smile", "weight", 1),
            channel("osgAnimation.Vec3LinearChannel", "nobody", "translate", 3),
            channel("osgAnimation.Vec3LinearChannel", "hip", "twist", 3),
        ]),
    )]);
    let bin = bytes(&[0.0, 1.0, 1.0, 2.0, 3.0, 4.0, 5.0, 6.0]);
    match read_channels(&animation, &bin, &found.skeleton.names, &bindings) {
        Ok(plans) => {
            assert_eq!(plans.len(), 2);
            assert!(matches!(
                plans[0].target,
                ChannelTarget::Node(0, ChannelPath::Translation)
            ));
            assert_eq!(plans[0].components, 3);
            assert!(matches!(&plans[0].values.data, AttrData::F32(v) if v.len() == 6));
            assert!(matches!(&plans[1].target, ChannelTarget::Weights(list) if list.len() == 1));
        }
        Err(_) => panic!("all arrays lie in the file"),
    }
}

#[test]
fn bindings_are_found_by_name() {
    let list = vec![
        NamedBinding { name: "a".to_owned(), binding: binding(1, 0, 2) },
        NamedBinding { name: "b".to_owned(), binding: binding(1, 1, 2) },
        NamedBinding { name: "a".to_owned(), binding: binding(2, 0, 1) },
    ];
    let found = bindings_of(&list, "a");
    assert_eq!(found.len(), 2);
    assert_eq!(found[1].node, 2);
}

#[test]
fn groups_are_ordered_by_node() {
    let mut groups: Vec<MorphGroup> = Vec::new();
    add_morph_tracks(
        &mut groups,
        &vec![binding(5, 1, 2), binding(2, 0, 1)],
        bits(&[0.0, 1.0]),
        bits(&[0.0, 8.0]),
    );
    add_morph_tracks(&mut groups, &vec![binding(5, 0, 2)], bits(&[0.5]), bits(&[4.0]));
    assert_eq!(groups.len(), 2);
    assert_eq!((groups[0].node, groups[1].node), (2, 5));
    assert_eq!(groups[1].tracks.len(), 2);
    assert_eq!(times_of(&groups[1]), bits(&[0.0, 0.5, 1.0]));
    let samples = weight_samples(&groups[1], &times_of(&groups[1]));
    assert_eq!(samples.len(), 6);
    assert!(matches!(samples[2], Sample::At(0)));
    assert!(matches!(samples[3], Sample::Between(0, 1)));
    assert!(matches!(samples[5], Sample::At(1)));
}

#[test]
fn channels_are_written() {
    let mut document = Document::new();
    let mut channels = Vec::new();
    add_node_channel(
        &mut document,
        &mut channels,
        4,
        ChannelPath::Rotation,
        4,
        bits(&[0.0]),
        bits(&[0.0, 0.0, 0.0, 1.0]),
    );
    add_weights_channel(&mut document, &mut channels, 6, bits(&[0.0, 1.0]), bits(&[0.0; 4]));
    assert_eq!(document.accessors.len(), 4);
    assert_eq!(document.accessors[3].count, 4);
    assert_eq!((channels[0].input, channels[0].output, channels[0].node), (0, 1, 4));
    assert!(matches!(channels[1].path, ChannelPath::Weights));
    assert_eq!(export_animation(&mut document, "walk".to_owned(), channels), 2);
    assert_eq!(document.animations.len(), 1);
    assert_eq!(export_animation(&mut document, "idle".to_owned(), Vec::new()), 0);
    assert_eq!(document.animations.len(), 1);
}

#[test]
fn animations_are_found_and_matched() {
    let named = |name: &str| obj(vec![("osgAnimation.Animation", obj(vec![("Name", txt(name))]))]);
    let scene = arr(vec![named("Walk"), obj(vec![("inner", named("Run"))])]);
    let mut found: Vec<&Json> = Vec::new();
    find_animations(&scene, &mut found);
    assert_eq!(found.len(), 2);
    assert_eq!(name_of(found[1]), "Run");
    assert_eq!(name_of(&obj(vec![])), "Animation");

    let mut data: Vec<AnimationData> = Vec::new();
    put_data(&mut data, "WALK", vec![1]);
    put_data(&mut data, "walk", vec![2]);
    assert_eq!(data.len(), 1);
    assert_eq!(choose_data(&data, found[0]), Some(&vec![2]));
    assert_eq!(choose_data(&data, found[1]), Some(&vec![2]));
    put_data(&mut data, "jump", vec![3]);
    assert_eq!(choose_data(&data, found[1]), None);
}

#[test]
fn deduplicating_twice_changes_nothing_more() {
    let times = bits(&[0.0, 1.0, 1.0, 0.5, 2.0, 2.0]);
    let values = bits(&[0.0, 1.0, 2.0, 3.0, 4.0, 5.0]);
    let (t, v) = deduplicate_keyframes(times, values, 1);
    assert_eq!(t, bits(&[0.0, 1.0, 2.0]));
    assert_eq!(v, bits(&[0.0, 2.0, 5.0]));
    assert_eq!(deduplicate_keyframes(t.clone(), v.clone(), 1), (t, v));
    let odd = (bits(&[1.0, 1.0]), bits(&[3.0]));
    assert_eq!(deduplicate_keyframes(odd.0.clone(), odd.1.clone(), 1), odd);
}

#[test]
fn kept_times_are_later_than_all_before() {
    let times = [3.0f32, 1.0, 4.0, 4.0, 2.0, 5.0];
    let (t, _) = deduplicate_keyframes(bits(&times), bits(&[0.0; 6]), 1);
    let mut kept: Vec<f32> = Vec::new();
    for (i, time) in times.iter().enumerate() {
        if times[..i].iter().all(|earlier| earlier < time) {
            kept.push(*time);
        }
    }
    assert_eq!(t, bits(&kept));
    assert_eq!(kept, vec![3.0, 4.0, 5.0]);
}
