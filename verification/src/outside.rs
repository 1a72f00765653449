//! Calls into other crates and into parts of the standard library that carry no contract.

use crate::float_bits::nan_places;
use crate::images::{can_resize, Pixels, PixelsView};
use base64::Engine;
use rand::Rng;
use std::io::Read;
use vstd::prelude::*;

verus! {

/// `String::from_utf8`: the text that the bytes encode, nothing if they are not valid UTF-8.
#[verifier::external_body]
pub(crate) fn text_from_utf8(bytes: Vec<u8>) -> (r: Option<String>)
    ensures
        match r {
            Some(s) => vstd::utf8::valid_utf8(bytes@) && s@ == vstd::utf8::decode_utf8(bytes@),
            None => !vstd::utf8::valid_utf8(bytes@),
        },
{
    String::from_utf8(bytes).ok()
}

/// What `regex::Regex::captures` finds for a capture group: the pattern's first match in the text
/// and, in it, the text of the group. The inner option is empty if there is no match or the group
/// took no part in it; the outer one is empty if the pattern does not compile.
pub uninterp spec fn regex_capture(pattern: Seq<char>, text: Seq<char>, group: int) -> Option<
    Option<Seq<char>>,
>;

/// The outcome of a capture with its string seen as characters.
pub open spec fn capture_view(r: Option<Option<String>>) -> Option<Option<Seq<char>>> {
    match r {
        Some(Some(s)) => Some(Some(s@)),
        Some(None) => Some(None),
        None => None,
    }
}

/// `Regex::captures` on the compiled pattern, then `Captures::get`. Both are functions of the
/// pattern, the text and the group's number.
#[verifier::external_body]
pub(crate) fn capture(pattern: &str, text: &str, group: usize) -> (r: Option<Option<String>>)
    ensures
        capture_view(r) == regex_capture(pattern@, text@, group as int),
{
    let compiled = regex::Regex::new(pattern).ok()?;
    let captures = compiled.captures(text);
    Some(captures.and_then(|c| c.get(group).map(|m| m.as_str().to_owned())))
}

/// All successive matches that `regex::Regex::find_iter` yields, nothing if the pattern does not
/// compile.
pub uninterp spec fn regex_matches(pattern: Seq<char>, text: Seq<char>) -> Option<Seq<Seq<char>>>;

/// `Regex::find_iter` on the compiled pattern, a function of the pattern and the text.
#[verifier::external_body]
pub(crate) fn matches_of(pattern: &str, text: &str) -> (r: Option<Vec<String>>)
    ensures
        match r {
            Some(list) => regex_matches(pattern@, text@) == Some(crate::text::texts(list@)),
            None => regex_matches(pattern@, text@) is None,
        },
{
    let compiled = regex::Regex::new(pattern).ok()?;
    Some(compiled.find_iter(text).map(|m| m.as_str().to_owned()).collect())
}

/// What the standard alphabet of the base64 crate decodes a text to, nothing if the text is not
/// base64 with its padding.
pub uninterp spec fn base64_of(text: Seq<char>) -> Option<Seq<u8>>;

/// `base64::Engine::decode` of the `STANDARD` engine, a function of the text.
#[verifier::external_body]
pub(crate) fn base64_decode(text: &str) -> (r: Option<Vec<u8>>)
    ensures
        match r {
            Some(bytes) => base64_of(text@) == Some(bytes@),
            None => base64_of(text@) is None,
        },
{
    base64::engine::general_purpose::STANDARD.decode(text).ok()
}

/// What flate2 unpacks from a gzip member, nothing if the bytes are not one.
pub uninterp spec fn gunzip_of(bytes: Seq<u8>) -> Option<Seq<u8>>;

/// `flate2::read::GzDecoder` read to its end, a function of the bytes.
#[verifier::external_body]
pub(crate) fn gunzip(bytes: &[u8]) -> (r: Option<Vec<u8>>)
    ensures
        match r {
            Some(out) => gunzip_of(bytes@) == Some(out@),
            None => gunzip_of(bytes@) is None,
        },
{
    let mut out = Vec::new();
    match flate2::read::GzDecoder::new(bytes).read_to_end(&mut out) {
        Ok(_) => Some(out),
        Err(_) => None,
    }
}

/// `rand::Rng::gen_range` of the thread's generator: some number of the range. Which one is left
/// to chance.
#[verifier::external_body]
pub(crate) fn draw(low: i32, high: i32) -> (r: i32)
    requires
        low < high,
    ensures
        low <= r < high,
{
    rand::thread_rng().gen_range(low..high)
}

/// The pixels, of four bytes each, that the image crate decodes a file to, nothing if the file is
/// not an image of the kind that its name says.
pub uninterp spec fn image_rgba(name: Seq<char>, bytes: Seq<u8>) -> Option<PixelsView>;

/// `image::load_from_memory_with_format` with the format of the file's name, then
/// `DynamicImage::to_rgba8`, a function of name and bytes. The buffer holds four bytes for each
/// pixel.
#[verifier::external_body]
pub(crate) fn decode_rgba(name: &str, bytes: &[u8]) -> (r: Option<Pixels>)
    ensures
        match r {
            Some(p) => image_rgba(name@, bytes@) == Some(p@) && p@.wf(4),
            None => image_rgba(name@, bytes@) is None,
        },
{
    let format = image::ImageFormat::from_path(name).ok()?;
    let rgba = image::load_from_memory_with_format(bytes, format).ok()?.to_rgba8();
    let (width, height) = rgba.dimensions();
    Some(Pixels { width, height, data: rgba.into_raw() })
}

/// The brightness of each pixel that the image crate decodes a file to, nothing if the file is
/// not an image of the kind that its name says.
pub uninterp spec fn image_luma(name: Seq<char>, bytes: Seq<u8>) -> Option<PixelsView>;

/// `image::load_from_memory_with_format` with the format of the file's name, then
/// `DynamicImage::to_luma8`, a function of name and bytes. The buffer holds one byte for each
/// pixel. How colors are rounded to grey is settled when the image crate is built: the name stands
/// for the result of one build.
#[verifier::external_body]
pub(crate) fn decode_luma(name: &str, bytes: &[u8]) -> (r: Option<Pixels>)
    ensures
        match r {
            Some(p) => image_luma(name@, bytes@) == Some(p@) && p@.wf(1),
            None => image_luma(name@, bytes@) is None,
        },
{
    let format = image::ImageFormat::from_path(name).ok()?;
    let luma = image::load_from_memory_with_format(bytes, format).ok()?.to_luma8();
    let (width, height) = luma.dimensions();
    Some(Pixels { width, height, data: luma.into_raw() })
}

/// Whether the pixels that the image crate decodes a file to can be transparent, nothing if the
/// file is not an image of the kind that its name says.
pub uninterp spec fn image_has_alpha(name: Seq<char>, bytes: Seq<u8>) -> Option<bool>;

/// `image::load_from_memory_with_format` with the format of the file's name, then
/// `ColorType::has_alpha` of its color type, a function of name and bytes.
#[verifier::external_body]
pub(crate) fn decode_alpha_flag(name: &str, bytes: &[u8]) -> (r: Option<bool>)
    ensures
        r == image_has_alpha(name@, bytes@),
{
    let format = image::ImageFormat::from_path(name).ok()?;
    let image = image::load_from_memory_with_format(bytes, format).ok()?;
    Some(image.color().has_alpha())
}

/// Which components stand for no number in what the image crate's triangle filter makes of a black
/// image of floating-point numbers, four for each pixel, in another size.
pub uninterp spec fn black_gaps(
    width: u32,
    height: u32,
    new_width: u32,
    new_height: u32,
) -> Seq<bool>;

/// `image::imageops::resize` of a black image of floating-point numbers with
/// `FilterType::Triangle`, as binary32 patterns. Which of them stand for no number is a function
/// of the sizes; the patterns themselves are left open. Sizes for which its buffers would exceed a
/// vector are left out.
#[verifier::external_body]
pub(crate) fn resize_black(width: u32, height: u32, new_width: u32, new_height: u32) -> (r: Vec<
    u32,
>)
    requires
        16 * width * height <= isize::MAX,
        16 * width * new_height <= isize::MAX,
        16 * new_width * new_height <= isize::MAX,
    ensures
        nan_places(r@) == black_gaps(width, height, new_width, new_height),
        r@.len() == 4 * new_width * new_height,
{
    let source = image::Rgba32FImage::new(width, height);
    let filter = image::imageops::FilterType::Triangle;
    let resized = image::imageops::resize(&source, new_width, new_height, filter);
    resized.into_raw().into_iter().map(|x| x.to_bits()).collect()
}

/// What the image crate's triangle filter makes of grey pixels in another size.
pub uninterp spec fn resized_luma(
    width: u32,
    height: u32,
    data: Seq<u8>,
    new_width: u32,
    new_height: u32,
) -> Seq<u8>;

/// `image::imageops::resize` of a grey image with `FilterType::Triangle`, a function of the image
/// and the new size. The result holds one byte for each pixel. Sizes for which its buffers would
/// exceed a vector are left out. So are those for which the filter has a pixel without weights:
/// it divides by their sum, and cannot make a byte of the result. The weights depend on nothing
/// but the two lengths of a side, so that a black image of floating-point numbers shows them.
#[verifier::external_body]
pub(crate) fn resize_luma(from: Pixels, width: u32, height: u32) -> (r: Vec<u8>)
    requires
        from@.wf(1),
        can_resize(from@, width, height),
    ensures
        r@ == resized_luma(from.width, from.height, from.data@, width, height),
        r@.len() == width * height,
{
    let source = image::GrayImage::from_raw(from.width, from.height, from.data).unwrap();
    let filter = image::imageops::FilterType::Triangle;
    image::imageops::resize(&source, width, height, filter).into_raw()
}

/// The PNG file that the image crate writes for pixels of four bytes, nothing if it fails.
pub uninterp spec fn png_of(width: u32, height: u32, data: Seq<u8>) -> Option<Seq<u8>>;

/// `DynamicImage::write_to` with `ImageFormat::Png`, a function of the pixels.
#[verifier::external_body]
pub(crate) fn encode_png(p: Pixels) -> (r: Option<Vec<u8>>)
    requires
        p@.wf(4),
    ensures
        match r {
            Some(bytes) => png_of(p.width, p.height, p.data@) == Some(bytes@),
            None => png_of(p.width, p.height, p.data@) is None,
        },
{
    let rgba = image::RgbaImage::from_raw(p.width, p.height, p.data)?;
    let mut bytes = std::io::Cursor::new(Vec::new());
    let image = image::DynamicImage::ImageRgba8(rgba);
    image.write_to(&mut bytes, image::ImageFormat::Png).ok()?;
    Some(bytes.into_inner())
}

} // verus!
