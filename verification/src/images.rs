//! Images: packing several textures into one.

use crate::float_bits::all_numbers;
use crate::outside::{
    black_gaps, decode_alpha_flag, decode_luma, decode_rgba, encode_png, image_has_alpha,
    image_luma, image_rgba, png_of, resize_black, resize_luma, resized_luma,
};
use crate::texture::{descramble, is_shifted, shift_of};
use vstd::prelude::*;

verus! {

/// Why an image could not be made.
#[derive(Clone, Copy, Debug, PartialEq, Eq, Structural)]
pub enum ImageError {
    /// A file does not hold an image of the kind that its name says.
    Unreadable,
    /// An image is too large to be held or to be resized.
    TooLarge,
    /// The result could not be written.
    Unwritable,
}

/// An image of one or four bytes per pixel, row by row.
#[derive(Debug)]
pub struct Pixels {
    pub width: u32,
    pub height: u32,
    pub data: Vec<u8>,
}

/// The mathematical counterpart of [`Pixels`].
#[verifier::ext_equal]
pub ghost struct PixelsView {
    pub width: u32,
    pub height: u32,
    pub data: Seq<u8>,
}

impl View for Pixels {
    type V = PixelsView;

    open spec fn view(&self) -> PixelsView {
        PixelsView { width: self.width, height: self.height, data: self.data@ }
    }
}

impl PixelsView {
    /// Whether there are as many bytes as pixels ask for.
    pub open spec fn wf(self, channels: int) -> bool {
        self.data.len() == channels * self.width * self.height
    }
}

/// An image file: its name, which says of what kind it is, and its bytes.
#[derive(Debug)]
pub struct ImageFile {
    pub name: String,
    pub bytes: Vec<u8>,
}

/// The mathematical counterpart of [`ImageFile`].
#[verifier::ext_equal]
pub ghost struct FileView {
    pub name: Seq<char>,
    pub bytes: Seq<u8>,
}

impl View for ImageFile {
    type V = FileView;

    open spec fn view(&self) -> FileView {
        FileView { name: self.name@, bytes: self.bytes@ }
    }
}

/// A product with the opposite taken first: 255 minus the value, if so asked.
pub open spec fn opposite(v: u8, invert: bool) -> u8 {
    if invert {
        (255 - v) as u8
    } else {
        v
    }
}

/// Pixels of four bytes with their alpha multiplied by another image's values.
pub open spec fn faded(pixels: Seq<u8>, alpha: Seq<u8>, invert: bool) -> Seq<u8> {
    Seq::new(
        pixels.len(),
        |i: int|
            if i % 4 == 3 && i / 4 < alpha.len() {
                ((pixels[i] * opposite(alpha[i / 4], invert)) / 255) as u8
            } else {
                pixels[i]
            },
    )
}

/// Multiplies the alpha of pixels by another image's values.
pub fn apply_alpha(pixels: &Vec<u8>, alpha: &Vec<u8>, invert: bool) -> (r: Vec<u8>)
    ensures
        r@ == faded(pixels@, alpha@, invert),
{
    let mut out: Vec<u8> = Vec::new();
    let mut i: usize = 0;
    while i < pixels.len()
        invariant
            i <= pixels@.len(),
            out@ == faded(pixels@, alpha@, invert).take(i as int),
        decreases pixels@.len() - i,
    {
        let p: u8 = pixels[i];
        let value: u8 = if i % 4 == 3 && i / 4 < alpha.len() {
            let a: u8 = if invert {
                255 - alpha[i / 4]
            } else {
                alpha[i / 4]
            };
            proof {
                assert(0 <= p * a <= 255 * 255) by (nonlinear_arith)
                    requires
                        0 <= p <= 255,
                        0 <= a <= 255,
                ;
            }
            ((p as u16 * a as u16) / 255) as u8
        } else {
            p
        };
        out.push(value);
        i += 1;
        assert(out@ =~= faded(pixels@, alpha@, invert).take(i as int));
    }
    assert(out@ =~= faded(pixels@, alpha@, invert));
    out
}

/// Alpha never grows, full alpha keeps what it meets, and colors stay as they are.
pub proof fn law_alpha_only_fades(pixels: Seq<u8>, alpha: Seq<u8>, invert: bool, i: int)
    requires
        0 <= i < pixels.len(),
    ensures
        faded(pixels, alpha, invert).len() == pixels.len(),
        i % 4 != 3 ==> faded(pixels, alpha, invert)[i] == pixels[i],
        faded(pixels, alpha, invert)[i] <= pixels[i],
        i / 4 < alpha.len() && opposite(alpha[i / 4], invert) == 255 ==> faded(
            pixels,
            alpha,
            invert,
        )[i] == pixels[i],
{
    if i % 4 == 3 && i / 4 < alpha.len() {
        let p = pixels[i] as int;
        let a = opposite(alpha[i / 4], invert) as int;
        assert(p * a <= p * 255) by (nonlinear_arith)
            requires
                0 <= p,
                0 <= a <= 255,
        ;
        assert(0 <= p * a) by (nonlinear_arith)
            requires
                0 <= p,
                0 <= a,
        ;
        assert((p * a) / 255 <= p);
        if a == 255 {
            assert((p * 255) / 255 == p);
        }
    }
}

/// The value of a plane at a pixel, full where there is no plane.
pub open spec fn plane_at(plane: Option<Seq<u8>>, i: int) -> u8 {
    match plane {
        Some(p) => p[i],
        None => 255,
    }
}

/// Pixels that hold roughness in green and metalness in blue.
pub open spec fn surface(
    count: nat,
    metallic: Option<Seq<u8>>,
    roughness: Option<Seq<u8>>,
    invert: bool,
) -> Seq<u8> {
    Seq::new(
        4 * count,
        |i: int|
            if i % 4 == 1 {
                opposite(plane_at(roughness, i / 4), invert)
            } else if i % 4 == 2 {
                plane_at(metallic, i / 4)
            } else {
                255u8
            },
    )
}

/// The bytes of an optional plane.
pub open spec fn plane_opt(p: Option<Vec<u8>>) -> Option<Seq<u8>> {
    match p {
        Some(v) => Some(v@),
        None => None,
    }
}

/// Packs roughness and metalness into one image.
pub fn pack_surface(
    count: usize,
    metallic: &Option<Vec<u8>>,
    roughness: &Option<Vec<u8>>,
    invert: bool,
) -> (r: Vec<u8>)
    requires
        metallic matches Some(m) ==> m@.len() == count,
        roughness matches Some(p) ==> p@.len() == count,
    ensures
        r@ == surface(count as nat, plane_opt(*metallic), plane_opt(*roughness), invert),
{
    let mut out: Vec<u8> = Vec::new();
    let ghost goal = surface(count as nat, plane_opt(*metallic), plane_opt(*roughness), invert);
    let mut i: usize = 0;
    while i < count
        invariant
            i <= count,
            metallic matches Some(m) ==> m@.len() == count,
            roughness matches Some(p) ==> p@.len() == count,
            goal == surface(count as nat, plane_opt(*metallic), plane_opt(*roughness), invert),
            out@ == goal.take(4 * i),
        decreases count - i,
    {
        let metal: u8 = match metallic {
            Some(m) => m[i],
            None => 255,
        };
        let rough: u8 = match roughness {
            Some(p) => p[i],
            None => 255,
        };
        let ghost before = out@;
        out.push(255);
        out.push(
            if invert {
                255 - rough
            } else {
                rough
            },
        );
        out.push(metal);
        out.push(255);
        i += 1;
        proof {
            assert(out@.len() == 4 * i);
            assert forall|k: int| 0 <= k < 4 * i implies out@[k] == goal[k] by {
                if k < 4 * (i - 1) {
                    assert(before[k] == goal.take(4 * (i - 1))[k]);
                } else {
                    assert(k / 4 == i - 1);
                }
            }
            assert(out@ =~= goal.take(4 * i));
        }
    }
    assert(out@ =~= goal);
    out
}

/// Pixels of four bytes with the second inverted.
pub open spec fn flipped(pixels: Seq<u8>) -> Seq<u8> {
    Seq::new(
        pixels.len(),
        |i: int|
            if i % 4 == 1 {
                (255 - pixels[i]) as u8
            } else {
                pixels[i]
            },
    )
}

/// Inverts the green of pixels.
pub fn flip_green(pixels: &Vec<u8>) -> (r: Vec<u8>)
    ensures
        r@ == flipped(pixels@),
{
    let mut out: Vec<u8> = Vec::new();
    let mut i: usize = 0;
    while i < pixels.len()
        invariant
            i <= pixels@.len(),
            out@ == flipped(pixels@).take(i as int),
        decreases pixels@.len() - i,
    {
        out.push(
            if i % 4 == 1 {
                255 - pixels[i]
            } else {
                pixels[i]
            },
        );
        i += 1;
        assert(out@ =~= flipped(pixels@).take(i as int));
    }
    assert(out@ =~= flipped(pixels@));
    out
}

/// Flipping twice changes nothing.
pub proof fn law_flip_undoes_itself(pixels: Seq<u8>)
    ensures
        flipped(flipped(pixels)) == pixels,
{
    assert(flipped(flipped(pixels)) =~= pixels);
}

/// Every fourth byte, starting with the fourth.
pub open spec fn fourth(pixels: Seq<u8>) -> Seq<u8> {
    Seq::new(pixels.len() / 4, |i: int| pixels[4 * i + 3])
}

/// The alpha of pixels.
pub fn alpha_plane(pixels: &Vec<u8>) -> (r: Vec<u8>)
    ensures
        r@ == fourth(pixels@),
{
    let mut out: Vec<u8> = Vec::new();
    let length: usize = pixels.len();
    let n: usize = length / 4;
    let mut i: usize = 0;
    while i < n
        invariant
            i <= n,
            length == pixels@.len(),
            4 * n <= length,
            n == length / 4,
            out@ == fourth(pixels@).take(i as int),
        decreases n - i,
    {
        out.push(pixels[4 * i + 3]);
        i += 1;
        assert(out@ =~= fourth(pixels@).take(i as int));
    }
    assert(out@ =~= fourth(pixels@));
    out
}

/// White pixels without transparency.
pub open spec fn white(count: nat) -> Seq<u8> {
    Seq::new(4 * count, |i: int| 255u8)
}

/// White pixels without transparency.
fn white_pixels(count: usize) -> (r: Option<Vec<u8>>)
    ensures
        match r {
            Some(v) => v@ == white(count as nat) && 4 * count <= usize::MAX,
            None => 4 * count > usize::MAX,
        },
{
    if count > usize::MAX / 4 {
        return None;
    }
    let mut out: Vec<u8> = Vec::new();
    let total: usize = 4 * count;
    while out.len() < total
        invariant
            out@.len() <= total,
            forall|k: int| 0 <= k < out@.len() ==> out@[k] == 255,
        decreases total - out@.len(),
    {
        out.push(255);
    }
    assert(out@ =~= white(count as nat));
    Some(out)
}

/// Whether the filter finds weights for every pixel of a new size, along both sides of an image:
/// strips of two pixels' width show it.
pub open spec fn is_weighed(from: PixelsView, width: u32, height: u32) -> bool {
    !black_gaps(from.width, 2, width, 1).contains(true) && !black_gaps(
        2,
        from.height,
        1,
        height,
    ).contains(true)
}

/// Whether strips along both sides of an image fit in memory.
pub open spec fn strips_fit(from: PixelsView, width: u32, height: u32) -> bool {
    &&& 32 * from.width <= isize::MAX
    &&& 32 * from.height <= isize::MAX
    &&& 32 * width <= isize::MAX
    &&& 32 * height <= isize::MAX
}

/// Whether an image of one byte per pixel can be brought to a size: the pixels fit in memory, and
/// where there are pixels on both sides, the filter weighs them.
pub open spec fn can_resize(from: PixelsView, width: u32, height: u32) -> bool {
    &&& width * height <= isize::MAX
    &&& from.width == 0 || from.height == 0 || {
        &&& 16 * from.width * height <= isize::MAX
        &&& width == 0 || height == 0 || (strips_fit(from, width, height) && is_weighed(
            from,
            width,
            height,
        ))
    }
}

/// An image of one byte per pixel in a size: itself if it has that size.
pub open spec fn in_size(from: PixelsView, width: u32, height: u32) -> Result<
    Seq<u8>,
    ImageError,
> {
    if from.width == width && from.height == height {
        Ok(from.data)
    } else if can_resize(from, width, height) {
        Ok(resized_luma(from.width, from.height, from.data, width, height))
    } else {
        Err(ImageError::TooLarge)
    }
}

/// A result with its bytes seen as a sequence.
pub open spec fn bytes_result(r: Result<Vec<u8>, ImageError>) -> Result<Seq<u8>, ImageError> {
    match r {
        Ok(v) => Ok(v@),
        Err(e) => Err(e),
    }
}

/// The product of two sizes, when it stays below a limit.
fn product_within(a: u32, b: u32, factor: u64, limit: u64) -> (r: bool)
    requires
        1 <= factor <= 16,
    ensures
        r == (factor * a * b <= limit),
{
    proof {
        assert(0 <= factor * a * b <= 16 * 0xffff_ffff * 0xffff_ffff) by (nonlinear_arith)
            requires
                1 <= factor <= 16,
                0 <= a <= 0xffff_ffff,
                0 <= b <= 0xffff_ffff,
        ;
        assert(0 <= factor * a <= 16 * 0xffff_ffff) by (nonlinear_arith)
            requires
                1 <= factor <= 16,
                0 <= a <= 0xffff_ffff,
        ;
    }
    let wide: u128 = factor as u128 * a as u128 * b as u128;
    wide <= limit as u128
}

/// Whether strips along both sides of an image fit in memory and the filter finds weights for every
/// pixel.
fn weighed(from: &Pixels, width: u32, height: u32) -> (r: bool)
    ensures
        r == (strips_fit(from@, width, height) && is_weighed(from@, width, height)),
{
    let limit: u64 = isize::MAX as u64;
    if product_within(from.width, 2, 16, limit) && product_within(from.height, 2, 16, limit)
        && product_within(width, 2, 16, limit) && product_within(height, 2, 16, limit) {
        let row = resize_black(from.width, 2, width, 1);
        let column = resize_black(2, from.height, 1, height);
        all_numbers(&row) && all_numbers(&column)
    } else {
        false
    }
}

/// Whether an image of one byte per pixel can be brought to a size.
fn resizable(from: &Pixels, width: u32, height: u32) -> (r: bool)
    ensures
        r == can_resize(from@, width, height),
{
    let limit: u64 = isize::MAX as u64;
    product_within(width, height, 1, limit) && (from.width == 0 || from.height == 0 || (
    product_within(from.width, height, 16, limit) && (width == 0 || height == 0 || weighed(
        from,
        width,
        height,
    ))))
}

/// Brings an image of one byte per pixel to a size.
fn to_size(from: Pixels, width: u32, height: u32) -> (r: Result<Vec<u8>, ImageError>)
    requires
        from@.wf(1),
    ensures
        bytes_result(r) == in_size(from@, width, height),
        r matches Ok(v) ==> v@.len() == width * height,
{
    if from.width == width && from.height == height {
        return Ok(from.data);
    }
    if resizable(&from, width, height) {
        Ok(resize_luma(from, width, height))
    } else {
        Err(ImageError::TooLarge)
    }
}

/// What a texture file means for an image: nothing if there is no file.
pub open spec fn luma_of(file: Option<FileView>) -> Result<Option<PixelsView>, ImageError> {
    match file {
        None => Ok(None),
        Some(f) => match image_luma(f.name, f.bytes) {
            Some(p) => Ok(Some(p)),
            None => Err(ImageError::Unreadable),
        },
    }
}

/// An optional file.
pub open spec fn file_opt(f: Option<&ImageFile>) -> Option<FileView> {
    match f {
        Some(v) => Some(v@),
        None => None,
    }
}

/// The grey image of a texture file.
fn load_luma(file: Option<&ImageFile>) -> (r: Result<Option<Pixels>, ImageError>)
    ensures
        match r {
            Ok(Some(p)) => luma_of(file_opt(file)) == Ok::<Option<PixelsView>, ImageError>(Some(p@))
                && p@.wf(1),
            Ok(None) => luma_of(file_opt(file)) == Ok::<Option<PixelsView>, ImageError>(None),
            Err(e) => luma_of(file_opt(file)) == Err::<Option<PixelsView>, ImageError>(e),
        },
{
    match file {
        None => Ok(None),
        Some(f) => match decode_luma(f.name.as_str(), f.bytes.as_slice()) {
            Some(p) => Ok(Some(p)),
            None => Err(ImageError::Unreadable),
        },
    }
}

/// The image that holds roughness and metalness, from two grey images: nothing if there is
/// neither. It has the size of the metalness, or else of the roughness.
pub open spec fn surface_of(
    metallic: Option<PixelsView>,
    roughness: Option<PixelsView>,
    invert: bool,
) -> Result<Option<PixelsView>, ImageError> {
    match (metallic, roughness) {
        (None, None) => Ok(None),
        (Some(m), None) => Ok(
            Some(
                PixelsView {
                    data: surface(m.data.len(), Some(m.data), None, invert),
                    ..m
                },
            ),
        ),
        (None, Some(p)) => Ok(
            Some(
                PixelsView {
                    data: surface(p.data.len(), None, Some(p.data), invert),
                    ..p
                },
            ),
        ),
        (Some(m), Some(p)) => match in_size(p, m.width, m.height) {
            Err(e) => Err(e),
            Ok(fit) => Ok(
                Some(
                    PixelsView {
                        data: surface(m.data.len(), Some(m.data), Some(fit), invert),
                        ..m
                    },
                ),
            ),
        },
    }
}

/// Packs two grey images into one that holds roughness and metalness.
pub fn combine_surface(metallic: Option<Pixels>, roughness: Option<Pixels>, invert: bool) -> (r:
    Result<Option<Pixels>, ImageError>)
    requires
        metallic matches Some(m) ==> m@.wf(1),
        roughness matches Some(p) ==> p@.wf(1),
    ensures
        match r {
            Ok(Some(p)) => surface_of(pixels_opt(metallic), pixels_opt(roughness), invert) == Ok::<
                Option<PixelsView>,
                ImageError,
            >(Some(p@)) && p@.wf(4),
            Ok(None) => surface_of(pixels_opt(metallic), pixels_opt(roughness), invert) == Ok::<
                Option<PixelsView>,
                ImageError,
            >(None),
            Err(e) => surface_of(pixels_opt(metallic), pixels_opt(roughness), invert) == Err::<
                Option<PixelsView>,
                ImageError,
            >(e),
        },
{
    let (width, height, count) = match (&metallic, &roughness) {
        (Some(m), _) => (m.width, m.height, m.data.len()),
        (None, Some(p)) => (p.width, p.height, p.data.len()),
        (None, None) => {
            return Ok(None);
        },
    };
    proof {
        assert(1 * width * height == width * height);
        assert(4 * (width * height) == 4 * width * height) by (nonlinear_arith);
    }
    let rough = match roughness {
        Some(p) => match to_size(p, width, height) {
            Ok(fit) => Some(fit),
            Err(e) => {
                return Err(e);
            },
        },
        None => None,
    };
    let metal = match metallic {
        Some(m) => Some(m.data),
        None => None,
    };
    let data = pack_surface(count, &metal, &rough, invert);
    let packed = Pixels { width, height, data };
    Ok(Some(packed))
}

/// An optional image.
pub open spec fn pixels_opt(p: Option<Pixels>) -> Option<PixelsView> {
    match p {
        Some(v) => Some(v@),
        None => None,
    }
}

/// A written image, where there is one.
pub open spec fn written(p: Result<Option<PixelsView>, ImageError>) -> Result<
    Option<Seq<u8>>,
    ImageError,
> {
    match p {
        Err(e) => Err(e),
        Ok(None) => Ok(None),
        Ok(Some(v)) => match png_of(v.width, v.height, v.data) {
            Some(bytes) => Ok(Some(bytes)),
            None => Err(ImageError::Unwritable),
        },
    }
}

/// The PNG file that holds roughness and metalness.
pub open spec fn surface_file(
    metallic: Option<FileView>,
    roughness: Option<FileView>,
    invert: bool,
) -> Result<Option<Seq<u8>>, ImageError> {
    match luma_of(metallic) {
        Err(e) => Err(e),
        Ok(m) => match luma_of(roughness) {
            Err(e) => Err(e),
            Ok(p) => written(surface_of(m, p, invert)),
        },
    }
}

/// A result with its optional bytes seen as a sequence.
pub open spec fn file_result(r: Result<Option<Vec<u8>>, ImageError>) -> Result<
    Option<Seq<u8>>,
    ImageError,
> {
    match r {
        Ok(Some(v)) => Ok(Some(v@)),
        Ok(None) => Ok(None),
        Err(e) => Err(e),
    }
}

/// Writes an image as PNG.
fn write_png(p: Pixels) -> (r: Result<Option<Vec<u8>>, ImageError>)
    requires
        p@.wf(4),
    ensures
        file_result(r) == written(Ok(Some(p@))),
{
    match encode_png(p) {
        Some(bytes) => Ok(Some(bytes)),
        None => Err(ImageError::Unwritable),
    }
}

/// Makes the PNG file that holds roughness and metalness.
pub fn metallic_roughness_image(
    metallic: Option<&ImageFile>,
    roughness: Option<&ImageFile>,
    invert: bool,
) -> (r: Result<Option<Vec<u8>>, ImageError>)
    ensures
        file_result(r) == surface_file(file_opt(metallic), file_opt(roughness), invert),
{
    let m = match load_luma(metallic) {
        Ok(p) => p,
        Err(e) => {
            return Err(e);
        },
    };
    let p = match load_luma(roughness) {
        Ok(p) => p,
        Err(e) => {
            return Err(e);
        },
    };
    match combine_surface(m, p, invert) {
        Ok(Some(packed)) => write_png(packed),
        Ok(None) => Ok(None),
        Err(e) => Err(e),
    }
}

/// The grey image of a file that is meant as alpha: its own alpha if that is asked for and it has
/// one, or else its brightness.
pub open spec fn mask_of(file: FileView, own_alpha: bool) -> Option<PixelsView> {
    match image_has_alpha(file.name, file.bytes) {
        None => None,
        Some(has) => if own_alpha && has {
            match image_rgba(file.name, file.bytes) {
                Some(p) => Some(PixelsView { data: fourth(p.data), ..p }),
                None => None,
            }
        } else {
            image_luma(file.name, file.bytes)
        },
    }
}

/// The grey image of a file that is meant as alpha.
fn load_mask(file: &ImageFile, own_alpha: bool) -> (r: Option<Pixels>)
    ensures
        pixels_opt(r) == mask_of(file@, own_alpha),
        r matches Some(p) ==> p@.wf(1),
{
    match decode_alpha_flag(file.name.as_str(), file.bytes.as_slice()) {
        None => None,
        Some(has) => {
            if own_alpha && has {
                match decode_rgba(file.name.as_str(), file.bytes.as_slice()) {
                    Some(p) => {
                        let data = alpha_plane(&p.data);
                        proof {
                            let n = p.width * p.height;
                            assert(4 * p.width * p.height == 4 * n) by (nonlinear_arith)
                                requires
                                    n == p.width * p.height,
                            ;
                            assert(1 * p.width * p.height == n);
                        }
                        Some(Pixels { width: p.width, height: p.height, data })
                    },
                    None => None,
                }
            } else {
                decode_luma(file.name.as_str(), file.bytes.as_slice())
            }
        },
    }
}

/// A base image with the alpha of a mask: white where there is no base image. It has the size of
/// the base image, or else of the mask.
pub open spec fn masked(base: Option<PixelsView>, mask: PixelsView, invert: bool) -> Result<
    PixelsView,
    ImageError,
> {
    match base {
        None => if 4 * mask.data.len() > usize::MAX {
            Err(ImageError::TooLarge)
        } else {
            Ok(PixelsView { data: faded(white(mask.data.len()), mask.data, invert), ..mask })
        },
        Some(b) => match in_size(mask, b.width, b.height) {
            Err(e) => Err(e),
            Ok(fit) => Ok(PixelsView { data: faded(b.data, fit, invert), ..b }),
        },
    }
}

/// Gives a base image the alpha of a mask.
pub fn combine_mask(base: Option<Pixels>, mask: Pixels, invert: bool) -> (r: Result<
    Pixels,
    ImageError,
>)
    requires
        mask@.wf(1),
        base matches Some(b) ==> b@.wf(4),
    ensures
        match r {
            Ok(p) => masked(pixels_opt(base), mask@, invert) == Ok::<PixelsView, ImageError>(p@)
                && p@.wf(4),
            Err(e) => masked(pixels_opt(base), mask@, invert) == Err::<PixelsView, ImageError>(e),
        },
{
    match base {
        None => {
            proof {
                let n = mask.width * mask.height;
                assert(4 * mask.width * mask.height == 4 * n) by (nonlinear_arith)
                    requires
                        n == mask.width * mask.height,
                ;
                assert(1 * mask.width * mask.height == n);
            }
            match white_pixels(mask.data.len()) {
                Some(blank) => {
                    let data = apply_alpha(&blank, &mask.data, invert);
                    Ok(Pixels { width: mask.width, height: mask.height, data })
                },
                None => Err(ImageError::TooLarge),
            }
        },
        Some(b) => match to_size(mask, b.width, b.height) {
            Ok(fit) => {
                let data = apply_alpha(&b.data, &fit, invert);
                Ok(Pixels { width: b.width, height: b.height, data })
            },
            Err(e) => Err(e),
        },
    }
}

/// The PNG file of a base texture with the alpha of another, nothing if it cannot be made.
pub open spec fn masked_file(
    base: Option<FileView>,
    alpha: Option<FileView>,
    invert: bool,
    own_alpha: bool,
) -> Option<Seq<u8>> {
    match alpha {
        None => None,
        Some(a) => match mask_of(a, own_alpha) {
            None => None,
            Some(mask) => {
                let below = match base {
                    None => Some(None),
                    Some(b) => match image_rgba(b.name, b.bytes) {
                        Some(p) => Some(Some(p)),
                        None => None,
                    },
                };
                match below {
                    None => None,
                    Some(under) => match masked(under, mask, invert) {
                        Err(_) => None,
                        Ok(p) => png_of(p.width, p.height, p.data),
                    },
                }
            },
        },
    }
}

/// Makes the PNG file of a base texture with the alpha of another.
pub fn base_alpha_image(
    base: Option<&ImageFile>,
    alpha: Option<&ImageFile>,
    invert: bool,
    own_alpha: bool,
) -> (r: Option<Vec<u8>>)
    ensures
        plane_opt(r) == masked_file(file_opt(base), file_opt(alpha), invert, own_alpha),
{
    let file = match alpha {
        Some(a) => a,
        None => {
            return None;
        },
    };
    let mask = match load_mask(file, own_alpha) {
        Some(m) => m,
        None => {
            return None;
        },
    };
    let under = match base {
        Some(b) => match decode_rgba(b.name.as_str(), b.bytes.as_slice()) {
            Some(p) => Some(p),
            None => {
                return None;
            },
        },
        None => None,
    };
    match combine_mask(under, mask, invert) {
        Ok(p) => encode_png(p),
        Err(_) => None,
    }
}

/// The PNG file of a normal map with its green inverted, nothing if it cannot be made.
pub open spec fn flipped_file(file: Option<FileView>) -> Option<Seq<u8>> {
    match file {
        None => None,
        Some(f) => match image_rgba(f.name, f.bytes) {
            None => None,
            Some(p) => png_of(p.width, p.height, flipped(p.data)),
        },
    }
}

/// Makes the PNG file of a normal map with its green inverted.
pub fn flipped_normal_image(file: Option<&ImageFile>) -> (r: Option<Vec<u8>>)
    ensures
        plane_opt(r) == flipped_file(file_opt(file)),
{
    match file {
        None => None,
        Some(f) => match decode_rgba(f.name.as_str(), f.bytes.as_slice()) {
            None => None,
            Some(p) => {
                let data = flip_green(&p.data);
                encode_png(Pixels { width: p.width, height: p.height, data })
            },
        },
    }
}

/// The outcome of putting a scrambled texture in order.
#[derive(Debug)]
pub enum Cleaned {
    /// The texture in order, as PNG.
    Png(Vec<u8>),
    /// The texture stays as it is, since its sides are not multiples of eight.
    Kept(u32, u32),
}

/// Whether the pixels of a texture can be counted, and there are some.
pub open spec fn countable(p: PixelsView) -> bool {
    0 < p.width * p.height <= u32::MAX
}

/// Whether `bytes` is what a texture in order is written as, nothing if it cannot be written.
pub open spec fn in_order(p: PixelsView, pk: u32, bytes: Option<Seq<u8>>) -> bool {
    exists|out: Seq<u8>|
        is_shifted(
            out,
            p.data,
            p.width as int,
            p.height as int,
            shift_of(pk as int, p.width * p.height),
        ) && #[trigger] png_of(p.width, p.height, out) == bytes
}

/// Puts a scrambled texture in order.
pub fn clean_texture(file: &ImageFile, pk: u32) -> (r: Result<Cleaned, ImageError>)
    ensures
        match image_rgba(file@.name, file@.bytes) {
            None => r == Err::<Cleaned, ImageError>(ImageError::Unreadable),
            Some(p) => if p.width % 8 != 0 || p.height % 8 != 0 {
                r == Ok::<Cleaned, ImageError>(Cleaned::Kept(p.width, p.height))
            } else if !countable(p) {
                r == Err::<Cleaned, ImageError>(ImageError::TooLarge)
            } else {
                match r {
                    Ok(Cleaned::Png(bytes)) => in_order(p, pk, Some(bytes@)),
                    Ok(Cleaned::Kept(_, _)) => false,
                    Err(e) => e == ImageError::Unwritable && in_order(p, pk, None),
                }
            },
        },
{
    let p = match decode_rgba(file.name.as_str(), file.bytes.as_slice()) {
        Some(p) => p,
        None => {
            return Err(ImageError::Unreadable);
        },
    };
    reorder(p, pk)
}

/// Puts the pixels of a scrambled texture in order.
pub fn reorder(p: Pixels, pk: u32) -> (r: Result<Cleaned, ImageError>)
    requires
        p@.wf(4),
    ensures
        if p.width % 8 != 0 || p.height % 8 != 0 {
            r == Ok::<Cleaned, ImageError>(Cleaned::Kept(p.width, p.height))
        } else if !countable(p@) {
            r == Err::<Cleaned, ImageError>(ImageError::TooLarge)
        } else {
            match r {
                Ok(Cleaned::Png(bytes)) => in_order(p@, pk, Some(bytes@)),
                Ok(Cleaned::Kept(_, _)) => false,
                Err(e) => e == ImageError::Unwritable && in_order(p@, pk, None),
            }
        },
{
    if p.width % 8 != 0 || p.height % 8 != 0 {
        return Ok(Cleaned::Kept(p.width, p.height));
    }
    if p.width == 0 || p.height == 0 || !product_within(p.width, p.height, 1, 0xffff_ffff) {
        proof {
            assert(p.width == 0 || p.height == 0 ==> p.width * p.height == 0) by (nonlinear_arith);
            assert(1 * p.width * p.height == p.width * p.height);
        }
        return Err(ImageError::TooLarge);
    }
    proof {
        assert(p.width * p.height > 0) by (nonlinear_arith)
            requires
                p.width > 0,
                p.height > 0,
        ;
        assert(1 * p.width * p.height == p.width * p.height);
        let n = p.width * p.height;
        assert(4 * p.width * p.height == 4 * n) by (nonlinear_arith)
            requires
                n == p.width * p.height,
        ;
    }
    match descramble(p.data.as_slice(), p.width, p.height, pk) {
        Some(out) => {
            let ghost data = out@;
            match encode_png(Pixels { width: p.width, height: p.height, data: out }) {
                Some(bytes) => {
                    assert(png_of(p.width, p.height, data) == Some(bytes@));
                    Ok(Cleaned::Png(bytes))
                },
                None => {
                    assert(png_of(p.width, p.height, data) == None::<Seq<u8>>);
                    Err(ImageError::Unwritable)
                },
            }
        },
        None => Ok(Cleaned::Kept(p.width, p.height)),
    }
}

/// A packed pixel holds the roughness in its green part, turned over if it was given as gloss, and
/// the metalness in its blue part; what is missing is full, and so are red and alpha.
pub proof fn law_surface_parts(
    count: nat,
    metallic: Option<Seq<u8>>,
    roughness: Option<Seq<u8>>,
    invert: bool,
    i: int,
)
    requires
        0 <= i < count,
    ensures
        ({
            let s = surface(count, metallic, roughness, invert);
            &&& s.len() == 4 * count
            &&& s[4 * i] == 255
            &&& s[4 * i + 3] == 255
            &&& metallic matches Some(m) ==> s[4 * i + 2] == m[i]
            &&& metallic is None ==> s[4 * i + 2] == 255
            &&& roughness matches Some(r) ==> (!invert ==> s[4 * i + 1] == r[i]) && (invert ==> s[4 * i
                + 1] + r[i] == 255)
            &&& roughness is None ==> (!invert ==> s[4 * i + 1] == 255) && (invert ==> s[4 * i + 1] == 0)
        }),
{
}

/// A pixel is faded by its mask: its alpha becomes the share of the mask, or of what the mask
/// leaves over if it is turned over, and its colors stay.
pub proof fn law_pixels_fade_by_their_mask(pixels: Seq<u8>, mask: Seq<u8>, invert: bool, i: int)
    requires
        0 <= i < mask.len(),
        4 * i + 3 < pixels.len(),
    ensures
        ({
            let f = faded(pixels, mask, invert);
            let alpha = pixels[4 * i + 3] as int;
            let share = if invert {
                255 - mask[i]
            } else {
                mask[i] as int
            };
            &&& f[4 * i] == pixels[4 * i]
            &&& f[4 * i + 1] == pixels[4 * i + 1]
            &&& f[4 * i + 2] == pixels[4 * i + 2]
            &&& 255 * f[4 * i + 3] <= alpha * share < 255 * (f[4 * i + 3] + 1)
        }),
{
    let alpha = pixels[4 * i + 3] as int;
    let share = opposite(mask[i], invert) as int;
    assert(0 <= alpha * share <= 255 * 255) by (nonlinear_arith)
        requires
            0 <= alpha <= 255,
            0 <= share <= 255,
    ;
    assert((4 * i + 3) / 4 == i && (4 * i + 3) % 4 == 3);
}

/// Flipping turns the green part of each pixel over and leaves the others.
pub proof fn law_flip_turns_green_over(pixels: Seq<u8>, i: int)
    requires
        0 <= i,
        4 * i + 3 < pixels.len(),
    ensures
        flipped(pixels).len() == pixels.len(),
        flipped(pixels)[4 * i] == pixels[4 * i],
        flipped(pixels)[4 * i + 1] + pixels[4 * i + 1] == 255,
        flipped(pixels)[4 * i + 2] == pixels[4 * i + 2],
        flipped(pixels)[4 * i + 3] == pixels[4 * i + 3],
{
}

/// The packed surface has the size of the metalness, or of the roughness if there is no metalness;
/// a roughness of another size is brought to it.
pub proof fn law_surface_has_the_size_of_the_metalness(m: PixelsView, r: PixelsView, invert: bool)
    ensures
        surface_of(Some(m), None, invert) matches Ok(Some(p)) && p.width == m.width && p.height
            == m.height && p.data == surface(m.data.len(), Some(m.data), None, invert),
        surface_of(None, Some(r), invert) matches Ok(Some(p)) && p.width == r.width && p.height
            == r.height && p.data == surface(r.data.len(), None, Some(r.data), invert),
        m.width == r.width && m.height == r.height ==> (surface_of(Some(m), Some(r), invert) matches
            Ok(Some(p)) && p.width == m.width && p.height == m.height && p.data == surface(
            m.data.len(),
            Some(m.data),
            Some(r.data),
            invert,
        )),
        (m.width != r.width || m.height != r.height) && can_resize(r, m.width, m.height) ==> (
        surface_of(Some(m), Some(r), invert) matches Ok(Some(p)) && p.width == m.width && p.height
            == m.height && p.data == surface(
            m.data.len(),
            Some(m.data),
            Some(resized_luma(r.width, r.height, r.data, m.width, m.height)),
            invert,
        )),
        surface_of(None, None, invert) == Ok::<Option<PixelsView>, ImageError>(None),
{
}

/// A masked image is the base with its alpha faded by the mask in the base's size; without a base
/// it is white with the mask's own size and alpha.
pub proof fn law_masked_image(base: PixelsView, mask: PixelsView, invert: bool, i: int)
    requires
        4 * mask.data.len() <= usize::MAX,
    ensures
        masked(None, mask, invert) matches Ok(p) && {
            &&& p.width == mask.width
            &&& p.height == mask.height
            &&& p.data.len() == 4 * mask.data.len()
            &&& 0 <= i < mask.data.len() ==> p.data[4 * i] == 255 && p.data[4 * i + 1] == 255
                && p.data[4 * i + 2] == 255 && (!invert ==> p.data[4 * i + 3] == mask.data[i]) && (
            invert ==> p.data[4 * i + 3] + mask.data[i] == 255)
        },
        base.width == mask.width && base.height == mask.height ==> (masked(
            Some(base),
            mask,
            invert,
        ) matches Ok(p) && p.width == base.width && p.height == base.height && p.data == faded(
            base.data,
            mask.data,
            invert,
        )),
{
    if 0 <= i < mask.data.len() {
        let w = white(mask.data.len());
        assert(w.len() == 4 * mask.data.len());
        assert((4 * i + 3) / 4 == i && (4 * i + 3) % 4 == 3);
        let share = opposite(mask.data[i], invert) as int;
        assert((255 * share) / 255 == share) by (nonlinear_arith)
            requires
                0 <= share <= 255,
        ;
    }
}

/// A mask is the alpha of its file if it is said to be and the file has any, and its brightness
/// otherwise.
pub proof fn law_mask_is_alpha_or_brightness(file: FileView, own_alpha: bool, p: PixelsView, i: int)
    requires
        image_has_alpha(file.name, file.bytes) is Some,
    ensures
        own_alpha && image_has_alpha(file.name, file.bytes) == Some(true) && image_rgba(
            file.name,
            file.bytes,
        ) == Some(p) ==> (mask_of(file, own_alpha) matches Some(m) && m.width == p.width && m.height
            == p.height && m.data.len() == p.data.len() / 4 && (0 <= i < m.data.len() ==> m.data[i]
            == p.data[4 * i + 3])),
        !own_alpha || image_has_alpha(file.name, file.bytes) == Some(false) ==> mask_of(
            file,
            own_alpha,
        ) == image_luma(file.name, file.bytes),
{
}

/// The files of packed textures are PNG files of the packed pixels of the files that they are made
/// of.
pub proof fn law_packed_files(
    metallic: FileView,
    roughness: FileView,
    m: PixelsView,
    r: PixelsView,
    invert: bool,
    packed: PixelsView,
)
    requires
        image_luma(metallic.name, metallic.bytes) == Some(m),
        image_luma(roughness.name, roughness.bytes) == Some(r),
    ensures
        surface_of(Some(m), Some(r), invert) == Ok::<Option<PixelsView>, ImageError>(Some(packed)) ==> (
        png_of(packed.width, packed.height, packed.data) matches Some(bytes) ==> surface_file(
            Some(metallic),
            Some(roughness),
            invert,
        ) == Ok::<Option<Seq<u8>>, ImageError>(Some(bytes))),
        surface_of(Some(m), None, invert) == Ok::<Option<PixelsView>, ImageError>(Some(packed)) ==> (
        png_of(packed.width, packed.height, packed.data) matches Some(bytes) ==> surface_file(
            Some(metallic),
            None,
            invert,
        ) == Ok::<Option<Seq<u8>>, ImageError>(Some(bytes))),
        surface_of(None, Some(r), invert) == Ok::<Option<PixelsView>, ImageError>(Some(packed)) ==> (
        png_of(packed.width, packed.height, packed.data) matches Some(bytes) ==> surface_file(
            None,
            Some(roughness),
            invert,
        ) == Ok::<Option<Seq<u8>>, ImageError>(Some(bytes))),
        surface_file(None, None, invert) == Ok::<Option<Seq<u8>>, ImageError>(None),
{
}

/// The file of a turned over texture is the PNG file of its flipped pixels, and that of a masked
/// one of its masked pixels.
pub proof fn law_flipped_and_masked_files(
    file: FileView,
    p: PixelsView,
    alpha: FileView,
    mask: PixelsView,
    invert: bool,
    own_alpha: bool,
    done: PixelsView,
)
    requires
        image_rgba(file.name, file.bytes) == Some(p),
        mask_of(alpha, own_alpha) == Some(mask),
    ensures
        flipped_file(Some(file)) == png_of(p.width, p.height, flipped(p.data)),
        flipped_file(None) is None,
        masked(Some(p), mask, invert) == Ok::<PixelsView, ImageError>(done) ==> masked_file(
            Some(file),
            Some(alpha),
            invert,
            own_alpha,
        ) == png_of(done.width, done.height, done.data),
        masked(None, mask, invert) == Ok::<PixelsView, ImageError>(done) ==> masked_file(
            None,
            Some(alpha),
            invert,
            own_alpha,
        ) == png_of(done.width, done.height, done.data),
        masked_file(Some(file), None, invert, own_alpha) is None,
{
}

} // verus!
