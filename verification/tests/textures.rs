use sketchfab_downloader::images::{
    alpha_plane, apply_alpha, base_alpha_image, clean_texture, combine_mask, combine_surface,
    flip_green, flipped_normal_image, metallic_roughness_image, pack_surface, reorder, Cleaned,
    ImageError, ImageFile, Pixels,
};
use sketchfab_downloader::texture::descramble;
use sketchfab_downloader::zigzag::{mod_i, pixel_to_block_idx, tri_sum, xy_to_zigzag};

fn png(width: u32, height: u32, rgba: Vec<u8>) -> ImageFile {
    let image = image::RgbaImage::from_raw(width, height, rgba).unwrap();
    let mut out = std::io::Cursor::new(Vec::new());
    image::DynamicImage::ImageRgba8(image).write_to(&mut out, image::ImageFormat::Png).unwrap();
    ImageFile { name: "picture.png".to_owned(), bytes: out.into_inner() }
}

fn grey(width: u32, height: u32, values: Vec<u8>) -> ImageFile {
    let image = image::GrayImage::from_raw(width, height, values).unwrap();
    let mut out = std::io::Cursor::new(Vec::new());
    image::DynamicImage::ImageLuma8(image).write_to(&mut out, image::ImageFormat::Png).unwrap();
    ImageFile { name: "plane.png".to_owned(), bytes: out.into_inner() }
}

fn read(bytes: &[u8]) -> (u32, u32, Vec<u8>) {
    let image = image::load_from_memory(bytes).unwrap().to_rgba8();
    let (width, height) = image.dimensions();
    (width, height, image.into_raw())
}

#[test]
fn remainder_keeps_the_sign() {
    assert_eq!(mod_i(-7, 3), -1);
    assert_eq!(mod_i(7, 3), 1);
    assert_eq!(mod_i(8, 8), 0);
}

#[test]
fn diagonals_are_counted() {
    assert_eq!(tri_sum(3, 5, 1), 1);
    assert_eq!(tri_sum(3, 5, 4), 9);
    assert_eq!(tri_sum(3, 5, 6), 14);
}

#[test]
fn zigzag_runs_along_diagonals() {
    assert_eq!(xy_to_zigzag(2, 2, 0, 0), 0);
    assert_eq!(xy_to_zigzag(2, 2, 1, 0), 1);
    assert_eq!(xy_to_zigzag(2, 2, 0, 1), 2);
    assert_eq!(xy_to_zigzag(2, 2, 1, 1), 3);
    assert_eq!(xy_to_zigzag(2, 1, 1, 0), 1);
}

#[test]
fn zigzag_visits_every_cell_once() {
    for gw in 1..9i64 {
        for gh in 1..9i64 {
            let mut seen = vec![false; (gw * gh) as usize];
            for py in 0..gh {
                for px in 0..gw {
                    let z = xy_to_zigzag(gw, gh, px, py) as usize;
                    assert!(!seen[z]);
                    seen[z] = true;
                }
            }
        }
    }
}

#[test]
fn blocks_are_turned() {
    assert_eq!(pixel_to_block_idx(1, 0, 2, 2), 1);
    assert_eq!(pixel_to_block_idx(9, 0, 2, 2), 70);
    assert_eq!(pixel_to_block_idx(0, 9, 2, 2), 129);
    assert_eq!(pixel_to_block_idx(9, 8, 2, 2), 207);
}

#[test]
fn two_blocks_are_swapped() {
    let mut pixels: Vec<u8> = Vec::new();
    for i in 0..128u32 {
        pixels.extend([i as u8, 1, 2, 3]);
    }
    let out = descramble(&pixels, 16, 8, 1).unwrap();
    for y in 0..8usize {
        for x in 0..16usize {
            assert_eq!(out[4 * (16 * y + x)], (16 * y + 15 - x) as u8);
        }
    }
}

#[test]
fn one_block_stays() {
    let pixels: Vec<u8> = (0..256u32).map(|i| i as u8).collect();
    assert_eq!(descramble(&pixels, 8, 8, 7).unwrap(), pixels);
}

#[test]
fn descrambling_moves_pixels_only() {
    let mut pixels: Vec<u8> = Vec::new();
    for i in 0..(24 * 16) as u32 {
        pixels.extend(i.to_le_bytes());
    }
    let out = descramble(&pixels, 24, 16, 5).unwrap();
    let mut before: Vec<&[u8]> = pixels.chunks(4).collect();
    let mut after: Vec<&[u8]> = out.chunks(4).collect();
    assert_ne!(before, after);
    before.sort();
    after.sort();
    assert_eq!(before, after);
}

#[test]
fn odd_sides_are_kept() {
    assert!(descramble(&[1, 2, 3, 4], 1, 1, 3).is_none());
}

#[test]
fn clean_texture_writes_png() {
    let mut pixels: Vec<u8> = Vec::new();
    for i in 0..128u32 {
        pixels.extend([i as u8, 0, 0, 255]);
    }
    match clean_texture(&png(16, 8, pixels.clone()), 1) {
        Ok(Cleaned::Png(bytes)) => {
            let (width, height, data) = read(&bytes);
            assert_eq!((width, height), (16, 8));
            assert_eq!(data[0], 15);
            assert_eq!(data[4 * 15], 0);
        }
        _ => panic!("a texture of whole blocks is put in order"),
    }
    assert!(matches!(
        clean_texture(&png(1, 1, vec![1, 2, 3, 4]), 1),
        Ok(Cleaned::Kept(1, 1))
    ));
    let broken = ImageFile { name: "x.png".to_owned(), bytes: vec![1, 2] };
    assert!(matches!(clean_texture(&broken, 1), Err(ImageError::Unreadable)));
    assert!(matches!(
        reorder(Pixels { width: 3, height: 1, data: vec![0; 12] }, 0),
        Ok(Cleaned::Kept(3, 1))
    ));
}

#[test]
fn alpha_is_multiplied() {
    let pixels = vec![10, 20, 30, 200, 1, 2, 3, 255];
    assert_eq!(apply_alpha(&pixels, &vec![128, 0], false), vec![10, 20, 30, 100, 1, 2, 3, 0]);
    assert_eq!(apply_alpha(&pixels, &vec![255], true), vec![10, 20, 30, 0, 1, 2, 3, 255]);
}

#[test]
fn surface_holds_roughness_and_metalness() {
    let out = pack_surface(2, &Some(vec![7, 8]), &Some(vec![100, 200]), true);
    assert_eq!(out, vec![255, 155, 7, 255, 255, 55, 8, 255]);
    assert_eq!(pack_surface(1, &None, &None, false), vec![255, 255, 255, 255]);
}

#[test]
fn green_flips_back() {
    let pixels = vec![1, 2, 3, 4, 5, 255, 7, 8];
    let once = flip_green(&pixels);
    assert_eq!(once, vec![1, 253, 3, 4, 5, 0, 7, 8]);
    assert_eq!(flip_green(&once), pixels);
}

#[test]
fn alpha_of_pixels() {
    assert_eq!(alpha_plane(&vec![1, 2, 3, 4, 5, 6, 7, 8, 9]), vec![4, 8]);
}

#[test]
fn surface_takes_the_size_of_the_metalness() {
    let metallic = Pixels { width: 2, height: 2, data: vec![9, 9, 9, 9] };
    let roughness = Pixels { width: 1, height: 1, data: vec![40] };
    match combine_surface(Some(metallic), Some(roughness), false) {
        Ok(Some(p)) => {
            assert_eq!((p.width, p.height), (2, 2));
            assert_eq!(&p.data[0..4], &[255, 40, 9, 255]);
        }
        _ => panic!("two planes make a surface"),
    }
    assert!(matches!(combine_surface(None, None, false), Ok(None)));
}

#[test]
fn surface_file_is_a_png() {
    let metallic = grey(1, 1, vec![12]);
    let roughness = grey(1, 1, vec![34]);
    match metallic_roughness_image(Some(&metallic), Some(&roughness), true) {
        Ok(Some(bytes)) => assert_eq!(read(&bytes), (1, 1, vec![255, 221, 12, 255])),
        _ => panic!("two files make a surface"),
    }
    assert!(matches!(metallic_roughness_image(None, None, false), Ok(None)));
    let broken = ImageFile { name: "x.png".to_owned(), bytes: vec![] };
    assert!(matches!(
        metallic_roughness_image(Some(&broken), None, false),
        Err(ImageError::Unreadable)
    ));
}

#[test]
fn mask_without_base_fades_white() {
    let mask = Pixels { width: 2, height: 1, data: vec![0, 77] };
    match combine_mask(None, mask, false) {
        Ok(p) => assert_eq!(p.data, vec![255, 255, 255, 0, 255, 255, 255, 77]),
        Err(_) => panic!("a small mask is in reach"),
    }
}

#[test]
fn masked_file_is_a_png() {
    let base = png(1, 1, vec![10, 20, 30, 255]);
    let mask = grey(1, 1, vec![64]);
    let bytes = base_alpha_image(Some(&base), Some(&mask), false, false).unwrap();
    assert_eq!(read(&bytes), (1, 1, vec![10, 20, 30, 64]));
    assert!(base_alpha_image(Some(&base), None, false, false).is_none());
}

#[test]
fn own_alpha_of_a_mask_is_used() {
    let mask = png(1, 1, vec![200, 200, 200, 50]);
    let bytes = base_alpha_image(None, Some(&mask), false, true).unwrap();
    assert_eq!(read(&bytes), (1, 1, vec![255, 255, 255, 50]));
}

#[test]
fn mask_without_alpha_is_used_by_brightness() {
    let mask = grey(1, 1, vec![64]);
    let bytes = base_alpha_image(None, Some(&mask), true, true).unwrap();
    assert_eq!(read(&bytes), (1, 1, vec![255, 255, 255, 191]));
}

#[test]
fn small_mask_is_resized() {
    let base = png(2, 1, vec![1, 2, 3, 255, 4, 5, 6, 255]);
    let mask = grey(1, 1, vec![100]);
    let bytes = base_alpha_image(Some(&base), Some(&mask), false, false).unwrap();
    assert_eq!(read(&bytes), (2, 1, vec![1, 2, 3, 100, 4, 5, 6, 100]));
}

#[test]
fn flipped_normal_file_is_a_png() {
    let normal = png(1, 1, vec![128, 100, 255, 255]);
    let bytes = flipped_normal_image(Some(&normal)).unwrap();
    assert_eq!(read(&bytes), (1, 1, vec![128, 155, 255, 255]));
    assert!(flipped_normal_image(None).is_none());
}

#[test]
fn zigzag_steps_to_neighbors() {
    for (gw, gh) in [(1i64, 1i64), (1, 5), (4, 3), (3, 6), (5, 5)] {
        let mut cells = vec![(0i64, 0i64); (gw * gh) as usize];
        for y in 0..gh {
            for x in 0..gw {
                cells[xy_to_zigzag(gw, gh, x, y) as usize] = (x, y);
            }
        }
        for pair in cells.windows(2) {
            let ((x, y), (u, v)) = (pair[0], pair[1]);
            assert!((x - u).abs() <= 1 && (y - v).abs() <= 1);
            assert!(x + y <= u + v);
        }
    }
}

#[test]
fn places_name_their_block() {
    let (bw, bh) = (3i64, 2i64);
    for y in 0..8 * bh {
        for x in 0..8 * bw {
            let place = pixel_to_block_idx(x, y, bw, bh) as i64;
            assert_eq!(place / 64, xy_to_zigzag(bw, bh, x / 8, y / 8));
            assert!(place < 64 * bw * bh);
        }
    }
    assert_eq!(pixel_to_block_idx(8, 0, 2, 1), 64 + 7);
}

fn line(width: u32) -> Pixels {
    Pixels { width, height: 1, data: vec![7; width as usize] }
}

#[test]
fn long_images_are_resized() {
    let long = 0x20_0001;
    match combine_surface(Some(line(3)), Some(line(long)), false) {
        Ok(Some(p)) => assert_eq!(p.data, [[255, 7, 7, 255]; 3].concat()),
        _ => panic!("an image that can be resized"),
    }
    match combine_surface(Some(line(long)), Some(line(3)), false) {
        Ok(Some(p)) => {
            assert_eq!(p.data.len(), 4 * long as usize);
            assert!(p.data.chunks(4).all(|c| c[1] == 7 && c[2] == 7));
        }
        _ => panic!("an image that can be resized"),
    }
}

#[test]
fn pixels_without_weights_are_an_error() {
    assert_eq!(
        combine_surface(Some(line(8_602_528)), Some(line(4_685_456)), false).err(),
        Some(ImageError::TooLarge)
    );
    assert!(combine_surface(Some(line(8_602_528)), Some(line(8_602_528)), false).is_ok());
}

#[test]
fn empty_images_are_resized() {
    let nothing = || Pixels { width: 0, height: 2, data: Vec::new() };
    match combine_surface(Some(line(2)), Some(nothing()), false) {
        Ok(Some(p)) => assert_eq!(p.data, vec![255, 0, 7, 255, 255, 0, 7, 255]),
        _ => panic!("an image that can be resized"),
    }
    match combine_surface(Some(nothing()), Some(line(2)), false) {
        Ok(Some(p)) => assert!(p.data.is_empty()),
        _ => panic!("an image that can be resized"),
    }
}
