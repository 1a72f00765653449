use sketchfab_downloader::gltf::{AlphaMode, MaterialExtension};
use sketchfab_downloader::json::{Json, Number};
use sketchfab_downloader::model::{
    clean_name, color3, enabled_channel, extension, find_material, find_texture, note_in_order,
    read_material, read_model, texture_file, texture_filter, texture_task, texture_use,
    texture_wrap, vec2, TextureEntry, TextureTask,
};
use sketchfab_downloader::page::{
    accept_module, choose_key, directory_of, fetch_text, file_address, find_module_text,
    key_in_script, model_key, model_number, module_in_script, need, prefetched_data,
    script_addresses, unescape, unquote, KeyStep, ModuleStep, PageError, ScriptSearch, STATIC_KEY,
};
use sketchfab_downloader::text::{
    after_last, comes_before, decimal, lowercase, parse_u32, replace_text, sort_unique, trim_end,
    trim_start,
};

fn figure(x: f64) -> Number {
    Number {
        unsigned: if x >= 0.0 && x.fract() == 0.0 { Some(x as u64) } else { None },
        double: x.to_bits(),
        single: (x as f32).to_bits(),
    }
}

fn num(x: f64) -> Json {
    Json::Number(figure(x))
}

fn txt(s: &str) -> Json {
    Json::Text(s.to_owned(), s.parse::<f64>().ok().map(figure))
}

fn obj(list: Vec<(&str, Json)>) -> Json {
    Json::Object(list.into_iter().map(|(k, v)| (k.to_owned(), v)).collect())
}

fn arr(list: Vec<Json>) -> Json {
    Json::Array(list)
}

#[test]
fn texts_are_taken_apart() {
    assert_eq!(replace_text("aXbXXc", "X", "--"), "a--b----c");
    assert_eq!(trim_start("__a_", "_"), "a_");
    assert_eq!(trim_end("file.x.x", ".x"), "file");
    assert_eq!(after_last("a/b/c.png", '/'), "c.png");
    assert_eq!(after_last("c.png", '/'), "c.png");
    assert_eq!(lowercase("AbÄ1"), "abÄ1");
    assert_eq!(decimal(0), "0");
    assert_eq!(decimal(90210), "90210");
    assert_eq!(parse_u32("+42"), Some(42));
    assert_eq!(parse_u32("4294967296"), None);
    assert_eq!(parse_u32(""), None);
    assert!(comes_before("a", "ab"));
    assert!(!comes_before("b", "ab"));
    let list = vec!["b".to_owned(), "a".to_owned(), "b".to_owned()];
    assert_eq!(sort_unique(&list), vec!["a".to_owned(), "b".to_owned()]);
}

#[test]
fn pages_are_text() {
    assert_eq!(fetch_text("häuser".as_bytes().to_vec()), Ok("häuser".to_owned()));
    assert_eq!(fetch_text(vec![0xff]), Err(PageError::NotText));
}

#[test]
fn model_numbers_are_found_in_addresses() {
    let uid = "0123456789abcdef0123456789abcdef";
    assert_eq!(
        model_number(&format!("https://sketchfab.com/3d-models/thing-{uid}")),
        Ok(uid.to_owned())
    );
    assert_eq!(model_number("nothing"), Err(PageError::NoModelNumber));
}

#[test]
fn captures_may_be_needed() {
    assert_eq!(need(None, PageError::NoModel), Err(PageError::Pattern));
    assert_eq!(need(Some(None), PageError::NoModel), Err(PageError::NoModel));
    assert_eq!(need(Some(Some("x".to_owned())), PageError::NoModel), Ok("x".to_owned()));
}

#[test]
fn quotation_marks_are_written_out() {
    assert_eq!(unquote("&#34;a&quot; &amp;"), "\"a\" &amp;");
    assert_eq!(unescape("&lt;a&gt; &#39;b&#39; &amp;lt;"), "<a> 'b' <");
}

#[test]
fn scripts_are_listed_once() {
    let page = "<a href=\"https://static.sketchfab.com/static/builds/web/dist/z.js\">\
        https://static.sketchfab.com/static/builds/web/dist/a.js& \
        \"https://static.sketchfab.com/static/builds/web/dist/z.js\"";
    assert_eq!(
        script_addresses(page),
        Ok(vec![
            "https://static.sketchfab.com/static/builds/web/dist/a.js".to_owned(),
            "https://static.sketchfab.com/static/builds/web/dist/z.js".to_owned(),
        ])
    );
    assert_eq!(script_addresses(""), Ok(vec![]));
}

#[test]
fn modules_are_found_in_scripts() {
    assert_eq!(find_module_text("var a = 1;"), Ok(None));
    assert_eq!(find_module_text("x AGFzbQ"), Err(PageError::MalformedScript));
    assert_eq!(find_module_text("\"AGFzbQ"), Ok(None));
    assert_eq!(
        find_module_text("e=\"AGFzbQ\\nEA\\\"AA\";"),
        Ok(Some("AGFzbQEA\\\"AA".to_owned()))
    );
    assert_eq!(module_in_script("e=\"AGFzbQEAAAA=\";"), Ok(Some(b"\0asm\x01\0\0\0".to_vec())));
    assert_eq!(module_in_script("e=\"AGFzbQ\";"), Err(PageError::MalformedModule));
    assert_eq!(accept_module(None), Err(PageError::MalformedModule));
    assert_eq!(accept_module(Some(vec![1, 2, 3, 4])), Ok(None));
}

#[test]
fn keys_are_found_in_scripts() {
    let key = "0123456789abcdef0123456789abcdef01234567";
    let member = format!("x={{k:()=>q}};const q=\"{key}\"");
    assert_eq!(key_in_script(&member), Ok(Some(key.to_owned())));
    let module = format!("C04p:e=>{{\"use strict\";e.exports=\"{key}\\n\"");
    assert_eq!(key_in_script(&module), Ok(Some(key.to_owned())));
    assert_eq!(key_in_script("nothing"), Ok(None));
    let one = || Some(Some("AB".to_owned()));
    assert_eq!(choose_key(Some(None), one(), Some(None)), Ok(Some("ab".to_owned())));
    assert_eq!(choose_key(None, one(), one()), Err(PageError::Pattern));
}

#[test]
fn searches_ask_for_every_script() {
    let list = || vec!["a".to_owned(), "b".to_owned()];
    let mut s = ScriptSearch::new(list());
    assert!(matches!(s.next_for_module(Ok(None)), ModuleStep::Fetch(a) if a == "a"));
    assert!(matches!(s.next_for_module(Ok(None)), ModuleStep::Fetch(a) if a == "b"));
    assert!(matches!(s.next_for_module(Ok(None)), ModuleStep::Fail(PageError::NoModule)));
    assert!(matches!(s.next_for_module(Ok(Some(vec![7]))), ModuleStep::Found(m) if m == vec![7]));
    assert!(matches!(
        s.next_for_module(Err(PageError::MalformedModule)),
        ModuleStep::Fail(PageError::MalformedModule)
    ));
    let mut none = ScriptSearch::new(vec![]);
    assert!(matches!(none.next_for_module(Ok(None)), ModuleStep::Fail(PageError::NoScripts)));
    assert!(matches!(none.next_for_key(Ok(None)), KeyStep::Found(k) if k == STATIC_KEY));
    let mut t = ScriptSearch::new(list());
    assert!(matches!(t.next_for_key(Ok(None)), KeyStep::Fetch(a) if a == "a"));
    assert!(matches!(t.next_for_key(Ok(Some("k".to_owned()))), KeyStep::Found(k) if k == "k"));
    assert!(matches!(
        t.next_for_key(Err(PageError::Pattern)),
        KeyStep::Fail(PageError::Pattern)
    ));
}

#[test]
fn page_names_files_and_key() {
    let page = "\"p\":[{\"v\":1,\"b\":\"QUJD\\n\"}] \
        \"https://media.sketchfab.com/models/m/files/f/file.binz\"";
    assert_eq!(
        file_address(page),
        Ok("https://media.sketchfab.com/models/m/files/f".to_owned())
    );
    assert_eq!(directory_of("x/file.binz/file.binz"), "x");
    assert_eq!(model_key(page), Ok("QUJD\\n".to_owned()));
    assert_eq!(file_address("none"), Err(PageError::NoFileAddress));
    assert_eq!(model_key("none"), Err(PageError::NoModelKey));
}

#[test]
fn description_is_cut_out() {
    let page = "<div id=\"js-dom-data-prefetched-data\"><!--{&lt;&amp;}--></div>";
    assert_eq!(prefetched_data(page), Ok("{<&}".to_owned()));
    assert_eq!(prefetched_data("<div>"), Err(PageError::NoDescription));
    assert_eq!(
        prefetched_data("id=\"js-dom-data-prefetched-data\"><!--{}"),
        Err(PageError::OpenDescription)
    );
}

#[test]
fn sampler_settings_have_defaults() {
    assert_eq!(texture_filter(Some(&txt("NEAREST")), 1), 9728);
    assert_eq!(texture_filter(Some(&txt("LINEAR")), 1), 9729);
    assert_eq!(texture_filter(Some(&txt("NEAREST_MIPMAP_NEAREST")), 1), 9984);
    assert_eq!(texture_filter(Some(&txt("LINEAR_MIPMAP_NEAREST")), 1), 9985);
    assert_eq!(texture_filter(Some(&txt("NEAREST_MIPMAP_LINEAR")), 1), 9986);
    assert_eq!(texture_filter(Some(&txt("LINEAR_MIPMAP_LINEAR")), 1), 9987);
    assert_eq!(texture_filter(None, 9729), 9729);
    assert_eq!(texture_wrap(Some(&txt("CLAMP_TO_EDGE"))), 33071);
    assert_eq!(texture_wrap(Some(&txt("MIRRORED_REPEAT"))), 33648);
    assert_eq!(texture_wrap(Some(&num(1.0))), 10497);
}

#[test]
fn vectors_have_defaults() {
    let one = 1.0f32.to_bits();
    assert_eq!(vec2(Some(&arr(vec![num(0.5)])), one), [0.5f32.to_bits(), one]);
    assert_eq!(vec2(None, one), [one, one]);
    let channel = obj(vec![("color", arr(vec![num(0.25), txt("x")]))]);
    assert_eq!(color3(Some(&channel)), [0.25f32.to_bits(), one, one]);
}

#[test]
fn channels_are_enabled() {
    let material = obj(vec![(
        "channels",
        obj(vec![
            ("Off", obj(vec![("enable", Json::Bool(false))])),
            ("On", obj(vec![("enable", Json::Bool(true))])),
        ]),
    )]);
    assert!(enabled_channel(&material, "On").is_some());
    assert!(enabled_channel(&material, "Off").is_none());
    assert!(enabled_channel(&material, "None").is_none());
}

fn channel(list: Vec<(&str, Json)>) -> Json {
    let mut all = vec![("enable", Json::Bool(true))];
    all.extend(list);
    obj(all)
}

fn material() -> Json {
    obj(vec![
        (
            "channels",
            obj(vec![
                (
                    "AlbedoPBR",
                    channel(vec![
                        ("color", arr(vec![num(0.5), num(0.25), num(1.0)])),
                        (
                            "texture",
                            obj(vec![
                                ("texCoordUnit", num(2.0)),
                                ("uid", txt("t1")),
                                ("wrapS", txt("CLAMP_TO_EDGE")),
                            ]),
                        ),
                    ]),
                ),
                ("AlphaMask", channel(vec![("factor", num(0.75))])),
                ("ClearCoat", channel(vec![("factor", num(0.5))])),
                ("GlossinessPBR", channel(vec![("factor", num(0.25))])),
                ("SpecularF0", channel(vec![])),
            ]),
        ),
        ("cullFace", txt("DISABLE")),
        ("name", txt("wood")),
    ])
}

#[test]
fn materials_are_read() {
    let m = read_material(&material(), false).unwrap();
    assert_eq!(m.name, "wood");
    assert_eq!(m.base_color[0], 0.5f32.to_bits());
    assert_eq!(m.base_color[3], 1.0f32.to_bits());
    let t = m.base_color_texture.as_ref().unwrap();
    assert_eq!((t.uid.as_str(), t.texcoord_unit), ("t1", 2));
    assert_eq!((t.sampler.wrap_s, t.sampler.wrap_t), (33071, 10497));
    assert!(matches!(m.alpha_mode, AlphaMode::Mask));
    assert_eq!(m.alpha_cutoff, 0.75f32.to_bits());
    assert!(m.roughness_invert && m.double_sided && !m.unlit && !m.emissive_enabled);
    assert_eq!(m.roughness_factor.map(|n| n.double), Some(0.25f64.to_bits()));
    assert_eq!(m.extensions.len(), 2);
    assert!(matches!(m.extensions[0], MaterialExtension::Clearcoat(f, 0) if f == 0.5f32.to_bits()));
    assert!(matches!(m.extensions[1], MaterialExtension::Specular(f) if f == 1.0f64.to_bits()));
    assert!(read_material(&obj(vec![]), false).is_none());
    assert!(read_material(&material(), true).unwrap().unlit);
}

#[test]
fn texture_uses_need_a_number() {
    assert!(texture_use(None).is_none());
    assert!(texture_use(Some(&obj(vec![("texture", obj(vec![]))]))).is_none());
    let alpha = obj(vec![(
        "texture",
        obj(vec![("internalFormat", txt("ALPHA")), ("uid", txt("a"))]),
    )]);
    let t = texture_use(Some(&alpha)).unwrap();
    assert!(t.alpha_channel);
    assert_eq!((t.sampler.mag_filter, t.sampler.min_filter), (9729, 9987));
}

#[test]
fn texture_files_have_names() {
    let mut t = TextureEntry {
        uid: "u".to_owned(),
        url: "".to_owned(),
        pk: None,
        filename: "u.jpg".to_owned(),
        clean_file: None,
    };
    assert_eq!(texture_file(&t), "u.jpg");
    assert_eq!(texture_task(&t, true), TextureTask::Keep);
    t.pk = Some(9);
    assert_eq!(texture_task(&t, false), TextureTask::Clean(9));
    assert_eq!(texture_task(&t, true), TextureTask::Reuse);
    note_in_order(&mut t);
    assert_eq!(texture_file(&t), "u_clean.png");
    assert_eq!(clean_name("u"), "u_clean.png");
    assert_eq!(extension("a.b.PNG"), Some("PNG".to_owned()));
    assert_eq!(extension("plain"), None);
}

fn description() -> Json {
    let image = |width: f64, url: &str, pk: Option<f64>| {
        let mut list = vec![("url", txt(url)), ("width", num(width))];
        if let Some(n) = pk {
            list.push(("pk", num(n)));
        }
        obj(list)
    };
    obj(vec![
        (
            "/i/models/m",
            obj(vec![(
                "options",
                obj(vec![
                    ("materials", obj(vec![("a", material()), ("b", txt("no"))])),
                    (
                        "shading",
                        obj(vec![
                            ("type", txt("lit")),
                            (
                                "vertexColor",
                                obj(vec![("colorSpace", txt("srgb")), ("enable", Json::Bool(true))]),
                            ),
                        ]),
                    ),
                ]),
            )]),
        ),
        (
            "/i/models/m/animations?optimized=1",
            obj(vec![(
                "results",
                arr(vec![
                    obj(vec![("name", txt("Walk")), ("uid", txt("w")), ("url", txt("http://w"))]),
                    obj(vec![("name", txt("Run"))]),
                ]),
            )]),
        ),
        (
            "/i/models/m/textures?optimized=1",
            obj(vec![(
                "results",
                arr(vec![
                    obj(vec![
                        (
                            "images",
                            arr(vec![
                                image(64.0, "http://x/small.png", None),
                                image(512.0, "http://x/large.jpeg", Some(12.0)),
                            ]),
                        ),
                        ("uid", txt("t1")),
                    ]),
                    obj(vec![("images", arr(vec![image(1.0, "http://y", None)])), ("uid", txt("t2"))]),
                ]),
            )]),
        ),
    ])
}

#[test]
fn models_are_read() {
    match read_model(&description(), "m") {
        Ok(model) => {
            assert_eq!(model.materials.len(), 1);
            assert_eq!(find_material(&model.materials, "wood"), Some(0));
            assert_eq!(find_material(&model.materials, "stone"), None);
            assert_eq!(model.textures.len(), 1);
            assert_eq!(find_texture(&model.textures, "t1"), Some(0));
            let t = &model.textures[0];
            assert_eq!((t.url.as_str(), t.pk), ("http://x/large.jpeg", Some(12)));
            assert_eq!(t.filename, "t1.jpeg");
            assert_eq!(model.animations.len(), 1);
            assert_eq!(model.animations[0].name, "Walk");
            assert!(model.vertex_colors && model.vertex_color_srgb && !model.vertex_color_alpha);
            assert!(model.flip_uvs);
        }
        Err(_) => panic!("the description speaks of the model"),
    }
    assert!(matches!(read_model(&obj(vec![]), "m"), Err(PageError::NoModel)));
}
