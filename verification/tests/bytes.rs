use sketchfab_downloader::buffers::{
    all_low16, all_low32, checked_product, decode_varint, low16, low32, read_buffer_array,
    read_f32, read_i16, read_i32, read_u16, read_u32, AttrData, BufferError,
};
use sketchfab_downloader::decrypt::{
    clean_model_key, decode_model_key, draw_seed, key_schedule, unpack, unpack_animation, Action,
    Answer, DecryptError, Session,
};
use sketchfab_downloader::float_bits::{
    double_to_u32, equal, is_zero, lt, maximum, minimum, single_to_i64, total,
};
use sketchfab_downloader::json::{Json, Number};
use sketchfab_downloader::mesh::{
    delta_decode, expected_renumber, implicit_decode, parallelogram_predict, strip_to_tris,
    typed_u32, PredictStep,
};
use sketchfab_downloader::wasm::{initial_pages, parse_wasm_data_size, read_leb, sbrk};
use std::io::Write;

fn whole(n: u64) -> Json {
    Json::Number(Number {
        unsigned: Some(n),
        double: (n as f64).to_bits(),
        single: (n as f32).to_bits(),
    })
}

fn definition(offset: u64, size: u64, encoding: Option<&str>) -> Json {
    let mut list = vec![
        ("Offset".to_owned(), whole(offset)),
        ("Size".to_owned(), whole(size)),
    ];
    if let Some(e) = encoding {
        list.push(("Encoding".to_owned(), Json::Text(e.to_owned(), None)));
    }
    Json::Object(list)
}

fn gzip(bytes: &[u8]) -> Vec<u8> {
    let mut e = flate2::write::GzEncoder::new(Vec::new(), flate2::Compression::fast());
    e.write_all(bytes).unwrap();
    e.finish().unwrap()
}

#[test]
fn words_are_little_endian() {
    let bytes = [1, 2, 3, 4, 255, 255, 255, 255, 9];
    assert_eq!(read_u32(&bytes, 5), Ok(vec![0x0403_0201, 0xffff_ffff]));
    assert_eq!(read_i32(&bytes, 2), Ok(vec![0x0403_0201, -1]));
    assert_eq!(read_u16(&bytes, 2), Ok(vec![0x0201, 0x0403]));
    assert_eq!(read_i16(&bytes, 3), Ok(vec![0x0201, 0x0403, -1]));
    assert_eq!(read_f32(&1.5f32.to_le_bytes(), 1), Ok(vec![1.5f32.to_bits()]));
}

#[test]
fn varints_carry_signs_in_the_last_bit() {
    assert_eq!(decode_varint(&[0xac, 0x02, 5], 2, false), Ok(vec![300, 5]));
    assert_eq!(decode_varint(&[0, 1, 2, 3], 4, true), Ok(vec![0, -1, 1, -2]));
    assert_eq!(decode_varint(&[0x80], 1, false), Err(BufferError::VarintEndedEarly));
    assert_eq!(decode_varint(&[], 0, false), Ok(vec![]));
}

#[test]
fn numbers_are_truncated() {
    assert_eq!(low32(-1), 0xffff_ffff);
    assert_eq!(low32(0x1_0000_0005), 5);
    assert_eq!(low16(0x1_0007), 7);
    assert_eq!(all_low32(&[-2, 3]), vec![0xffff_fffe, 3]);
    assert_eq!(all_low16(&[-1, 65536]), vec![65535, 0]);
    assert_eq!(checked_product(3, 4), Some(12));
    assert_eq!(checked_product(u64::MAX, 2), None);
}

#[test]
fn arrays_are_read_by_type() {
    let bin = [9, 1, 0, 2, 0, 3, 0, 4, 0];
    match read_buffer_array(&bin, &definition(1, 2, None), 2, "Uint16Array") {
        Ok(AttrData::U16(v)) => assert_eq!(v, vec![1, 2, 3, 4]),
        _ => panic!("two items of two numbers"),
    }
    match read_buffer_array(&bin, &definition(1, 3, None), 1, "Uint8Array") {
        Ok(AttrData::U8(v)) => assert_eq!(v, vec![1, 0, 2]),
        _ => panic!("three bytes"),
    }
    match read_buffer_array(&bin, &definition(1, 3, Some("varint")), 1, "Int32Array") {
        Ok(AttrData::I32(v)) => assert_eq!(v, vec![-1, 0, 1]),
        _ => panic!("signed variable-length integers"),
    }
    match read_buffer_array(&bin, &definition(1, 3, Some("varint")), 1, "Uint32Array") {
        Ok(AttrData::U32(v)) => assert_eq!(v, vec![1, 0, 2]),
        _ => panic!("unsigned variable-length integers"),
    }
}

#[test]
fn array_errors_are_told_apart() {
    let empty = Json::Object(vec![]);
    assert!(matches!(
        read_buffer_array(&[], &empty, 1, "Uint8Array"),
        Err(BufferError::MissingSize)
    ));
    assert!(matches!(
        read_buffer_array(&[1], &definition(0, 1, None), 1, "Array"),
        Err(BufferError::UnknownArrayType)
    ));
    assert!(matches!(
        read_buffer_array(&[1], &definition(2, 1, None), 1, "Uint16Array"),
        Err(BufferError::OutOfRange)
    ));
    assert!(matches!(
        read_buffer_array(&[1], &definition(0, 2, None), 1, "Uint8Array"),
        Err(BufferError::OutOfRange)
    ));
    assert!(matches!(
        read_buffer_array(&[0x80], &definition(0, 1, Some("varint")), 1, "Uint8Array"),
        Err(BufferError::VarintEndedEarly)
    ));
}

#[test]
fn bit_patterns_compare_as_numbers() {
    let bits = |x: f32| x.to_bits();
    assert!(lt(bits(-1.0), bits(0.5)));
    assert!(!lt(bits(0.0), bits(-0.0)));
    assert!(!lt(bits(f32::NAN), bits(1.0)));
    assert!(equal(bits(0.0), bits(-0.0)));
    assert!(!equal(bits(f32::NAN), bits(f32::NAN)));
    assert!(is_zero(bits(-0.0)));
    assert_eq!(maximum(bits(2.0), bits(-3.0)), bits(2.0));
    assert_eq!(minimum(bits(f32::NAN), bits(4.0)), bits(4.0));
    assert!(total(bits(-0.0)) < total(bits(0.0)));
    assert!(total(bits(-2.0)) < total(bits(-1.0)));
}

#[test]
fn bit_patterns_convert_to_integers() {
    for x in [0.0f64, 0.9, 1.0, 2.5, 65535.75, 4294967295.0, 5e9, -3.0, f64::NAN, f64::INFINITY] {
        assert_eq!(double_to_u32(x.to_bits()), x as u32);
    }
    for x in [0.0f32, -0.7, 1.0, -2.5, 16777216.0, -1e10, 1e30, -1e30, f32::NAN] {
        assert_eq!(single_to_i64(x.to_bits()), x as i64);
    }
}

#[test]
fn typed_numbers_have_a_width() {
    assert_eq!(typed_u32(65537, 16), 1);
    assert_eq!(typed_u32(-1, 16), 65535);
    assert_eq!(typed_u32(-1, 32), 0xffff_ffff);
}

#[test]
fn deltas_are_summed() {
    let mut arr = vec![10, 2, 1, 4];
    delta_decode(&mut arr, 0, 32);
    assert_eq!(arr, vec![10, 11, 10, 12]);
    let mut tail = vec![7, 10, 3];
    delta_decode(&mut tail, 1, 16);
    assert_eq!(tail, vec![7, 10, 8]);
    let mut short = vec![1];
    delta_decode(&mut short, 1, 32);
    assert_eq!(short, vec![1]);
}

#[test]
fn implicit_indices_are_filled_in() {
    let mask = 0b0100u32 << 28;
    let enc = vec![0, 1, 100, mask >> 28];
    assert_eq!(implicit_decode(&enc, 4, 4, false), vec![100, 0, 101, 102]);
    let full = vec![0, 1, 100, 0b0100, 77];
    assert_eq!(implicit_decode(&full, 4, 4, false), vec![100, 77, 101, 102]);
    assert_eq!(implicit_decode(&full, 4, 4, true), vec![100, 77, 100, 100]);
}

#[test]
fn expected_numbers_count_up() {
    let mut arr = vec![0, 0, 2, 1];
    let mut state = 0i64;
    expected_renumber(&mut arr, &mut state, 32);
    assert_eq!(arr, vec![0, 1, 0, 1]);
    assert_eq!(state, 2);
}

#[test]
fn strips_become_triangles() {
    assert_eq!(strip_to_tris(&[0, 1, 2, 3]), vec![0, 1, 2, 2, 1, 3]);
    assert_eq!(strip_to_tris(&[0, 1, 1, 2]), Vec::<u32>::new());
    assert_eq!(strip_to_tris(&[5]), Vec::<u32>::new());
}

#[test]
fn vertices_are_predicted_once() {
    let steps = parallelogram_predict(5, &[0, 1, 2, 3, 3, 4]).unwrap();
    assert_eq!(steps.len(), 2);
    assert!(matches!(steps[0], PredictStep { a: 0, b: 1, c: 2, d: 3 }));
    assert!(matches!(steps[1], PredictStep { a: 2, b: 3, c: 3, d: 4 }));
    assert!(parallelogram_predict(5, &[0, 1]).unwrap().is_empty());
}

#[test]
fn leb_numbers_are_read() {
    let mut at = 1usize;
    assert_eq!(read_leb(&[0, 0xe5, 0x8e, 0x26, 1], &mut at), 624485);
    assert_eq!(at, 4);
    assert_eq!(read_leb(&[1], &mut at), 0);
    assert_eq!(at, 4);
}

#[test]
fn module_sections_are_walked() {
    let header = [0, 0x61, 0x73, 0x6d, 1, 0, 0, 0];
    let mut module = header.to_vec();
    module.extend([6, 7, 1, 0x7f, 1, 0x41, 0x90, 0x4e, 0x0b]);
    assert_eq!(parse_wasm_data_size(&module), 10000);
    assert_eq!(parse_wasm_data_size(&header), 65536);
}

#[test]
fn pages_hold_the_data() {
    assert_eq!(initial_pages(65536), 5);
    assert_eq!(initial_pages(65537), 6);
    assert_eq!(sbrk(100, 10, 65536), (110, 0));
    assert_eq!(sbrk(65530, 10, 65536), (65540, 1));
    assert_eq!(sbrk(100, -50, 65536), (50, 0));
}

#[test]
fn written_key_is_the_key() {
    let key = "77d92dd656ac3fdde472d5ba59747f42ac0ce217";
    for seed in [0, 1314, 11312] {
        assert_eq!(key_schedule(key, seed), Ok(key.as_bytes().to_vec()));
    }
    assert_eq!(key_schedule("77D9", 1), Err(DecryptError::MalformedKey));
    let spoiled = "xyz92dd656ac3fdde472d5ba59747f42ac0ce217";
    assert_eq!(key_schedule(spoiled, 1), Err(DecryptError::MalformedKey));
}

#[test]
fn seeds_lie_in_their_range() {
    for _ in 0..50 {
        let seed = draw_seed();
        assert!((1314..11313).contains(&seed));
    }
}

#[test]
fn model_keys_are_cleaned_and_decoded() {
    assert_eq!(clean_model_key("ab\\ncd\nef"), "abcdef");
    assert_eq!(decode_model_key("aGVs\\nbG8="), Ok(b"hello".to_vec()));
    assert_eq!(decode_model_key("!"), Err(DecryptError::MalformedModelKey));
}

#[test]
fn archives_are_unpacked() {
    let packed = gzip(b"scene");
    assert_eq!(unpack(packed.clone()), Ok(b"scene".to_vec()));
    assert_eq!(unpack(b"plain".to_vec()), Ok(b"plain".to_vec()));
    assert_eq!(unpack(vec![0x1f, 0x8b, 0]), Err(DecryptError::CorruptArchive));
    assert_eq!(unpack_animation(&packed), Ok(b"scene".to_vec()));
    assert_eq!(unpack_animation(b"plain"), Err(DecryptError::CorruptArchive));
}

#[test]
fn session_asks_in_order() {
    let key = "77d92dd656ac3fdde472d5ba59747f42ac0ce217";
    let file = vec![3u8; 10241];
    let mut s = Session::new("aGVsbG8=", key, file, 2000).unwrap();
    assert!(matches!(s.step(Answer::Done), Action::ReserveKey(2000, 40)));
    match s.step(Answer::Value(64)) {
        Action::Write(64, bytes) => assert_eq!(bytes, key.as_bytes()),
        _ => panic!("the key is written"),
    }
    assert!(matches!(s.step(Answer::Done), Action::Reset));
    assert!(matches!(s.step(Answer::Done), Action::ReserveModelKey(5)));
    match s.step(Answer::Value(128)) {
        Action::Write(128, bytes) => assert_eq!(bytes, b"hello"),
        _ => panic!("the model's key is written"),
    }
    assert!(matches!(s.step(Answer::Done), Action::Process));
    assert!(matches!(s.step(Answer::Value(0)), Action::ReserveInput(10240)));
    match s.step(Answer::Value(200)) {
        Action::Write(200, bytes) => assert_eq!(bytes.len(), 10240),
        _ => panic!("a piece of the file is written"),
    }
    assert!(matches!(s.step(Answer::Done), Action::Process));
    assert!(matches!(s.step(Answer::Value(1)), Action::AskStart));
    assert!(matches!(s.step(Answer::Value(300)), Action::AskLength));
    assert!(matches!(s.step(Answer::Value(2)), Action::Read(300, 2)));
    assert!(matches!(s.step(Answer::Bytes(vec![7, 8])), Action::Advance));
    assert!(matches!(s.step(Answer::Done), Action::Process));
    assert!(matches!(s.step(Answer::Value(0)), Action::ReserveInput(1)));
    match s.step(Answer::Value(200)) {
        Action::Write(200, bytes) => assert_eq!(bytes, vec![3]),
        _ => panic!("the last piece of the file is written"),
    }
    assert!(matches!(s.step(Answer::Done), Action::Process));
    assert!(matches!(s.step(Answer::Value(0)), Action::Finish));
    assert_eq!(s.finish(), Ok(vec![7, 8]));
}

#[test]
fn session_refuses_wrong_answers() {
    let key = "77d92dd656ac3fdde472d5ba59747f42ac0ce217";
    let mut s = Session::new("aGVsbG8=", key, vec![], 1).unwrap();
    assert!(matches!(s.step(Answer::Done), Action::ReserveKey(1, 40)));
    assert!(matches!(
        s.step(Answer::Bytes(vec![])),
        Action::Fail(DecryptError::UnexpectedAnswer)
    ));
    assert!(matches!(Session::new("aGVsbG8=", "", vec![], 1), Err(DecryptError::MalformedKey)));
    let mut t = Session::new("?", key, vec![], 1).unwrap();
    t.step(Answer::Done);
    t.step(Answer::Value(0));
    assert!(matches!(
        t.step(Answer::Done),
        Action::Fail(DecryptError::MalformedModelKey)
    ));
}

#[test]
fn varints_read_back() {
    let values: Vec<i32> = vec![0, -1, 1, 63, -64, 64, 300, -70000, i32::MAX, i32::MIN];
    let zigzag = |x: i32| if x >= 0 { 2 * x as i64 } else { -2 * (x as i64) - 1 };
    let mut encoded: Vec<u8> = Vec::new();
    for v in &values {
        let mut rest = zigzag(*v);
        while rest >= 128 {
            encoded.push((rest % 128 + 128) as u8);
            rest /= 128;
        }
        encoded.push(rest as u8);
    }
    encoded.extend([255, 255]);
    let signed: Vec<i64> = values.iter().map(|v| *v as i64).collect();
    let unsigned: Vec<i64> = values.iter().map(|v| zigzag(*v)).collect();
    assert_eq!(decode_varint(&encoded, values.len(), true), Ok(signed));
    assert_eq!(decode_varint(&encoded, values.len(), false), Ok(unsigned));
    assert_eq!(
        decode_varint(&encoded, values.len() + 1, true),
        Err(BufferError::VarintEndedEarly)
    );
}

#[test]
fn renumbering_can_be_split() {
    let (first, second) = (vec![0u32, 1, 0], vec![2u32, 0, 0, 3]);
    let mut whole_list: Vec<u32> = first.iter().chain(&second).copied().collect();
    let mut state = 5;
    expected_renumber(&mut whole_list, &mut state, 16);
    assert_eq!(state, 9);
    let (mut a, mut b) = (first, second);
    let mut next = 5;
    expected_renumber(&mut a, &mut next, 16);
    assert_eq!(next, 7);
    expected_renumber(&mut b, &mut next, 16);
    assert_eq!(next, state);
    assert_eq!([a, b].concat(), whole_list);
}

#[test]
fn digits_are_written_in_lower_case() {
    let key = "0123456789ABCDEFabcdef9876543210DEADbeef";
    assert_eq!(key.len(), 40);
    for seed in [0, 1314, -1] {
        assert_eq!(
            key_schedule(key, seed),
            Ok(b"0123456789abcdefabcdef9876543210deadbeef".to_vec())
        );
    }
}
