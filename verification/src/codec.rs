//! Pictures: what the gallery has from the `image` and `egui` crates.

use vstd::prelude::*;

use crate::media::Kind;
use crate::path::{extension, extension_of};
use crate::text::{lossy, text_lossy};

verus! {

/// The longest side of a thumbnail, in pixels.
pub const THUMB: usize = 192;

/// The most pixels that a decoded image has.
pub const MOST_PIXELS: u64 = 0x2000_0000;

/// A decoded image, carried from one call of the `image` crate to the next.
#[verifier::external_type_specification]
#[verifier::external_body]
pub struct ExDynamicImage(image::DynamicImage);

/// A file format that the `image` crate knows.
#[verifier::external_type_specification]
#[verifier::external_body]
pub struct ExImageFormat(image::ImageFormat);

/// Why the `image` crate could not decode something.
#[verifier::external_type_specification]
#[verifier::external_body]
pub struct ExImageError(image::ImageError);

/// One pixel: red, green and blue, multiplied by alpha, and alpha.
pub type Pixel = (u8, u8, u8, u8);

/// A picture to be shown, row by row from the top.
#[derive(Debug)]
pub struct Picture {
    pub width: usize,
    pub height: usize,
    pub pixels: Vec<Pixel>,
}

/// A picture, as mathematics.
pub struct PictureModel {
    pub width: nat,
    pub height: nat,
    pub pixels: Seq<Pixel>,
}

impl View for Picture {
    type V = PictureModel;

    open spec fn view(&self) -> PictureModel {
        PictureModel {
            width: self.width as nat,
            height: self.height as nat,
            pixels: self.pixels@,
        }
    }
}

impl PictureModel {
    /// There is one pixel for each place.
    pub open spec fn wf(self) -> bool {
        self.pixels.len() == self.width * self.height
    }
}

/// The model of an optional picture.
pub open spec fn opt_picture(v: Option<Picture>) -> Option<PictureModel> {
    match v {
        Some(p) => Some(p@),
        None => None,
    }
}

/// The format that a file extension stands for, as
/// `image::ImageFormat::from_extension` gives it.
pub uninterp spec fn format_of(ext: Seq<char>) -> Option<image::ImageFormat>;

/// Calls `image::ImageFormat::from_extension`. Trusted: the format is a
/// function of the extension.
#[verifier::external_body]
fn format_from_extension(ext: &str) -> (r: Option<image::ImageFormat>)
    ensures
        r == format_of(ext@),
{
    image::ImageFormat::from_extension(ext)
}

/// The image that some bytes hold in a format, as
/// `image::load_from_memory_with_format` decodes it, or nothing where it fails.
pub uninterp spec fn decoded(
    data: Seq<u8>,
    format: image::ImageFormat,
) -> Option<image::DynamicImage>;

/// An image scaled to fit into `width` by `height`, as
/// `image::DynamicImage::thumbnail` gives it.
pub uninterp spec fn thumbnail_of(
    img: image::DynamicImage,
    width: u32,
    height: u32,
) -> image::DynamicImage;

/// The width and the height of an image, and its pixels row by row as red,
/// green, blue and alpha, as `image::DynamicImage::to_rgba8` gives them.
pub uninterp spec fn rgba_of(img: image::DynamicImage) -> (u32, u32, Seq<u8>);

/// How many pixels an image has.
pub open spec fn pixels_of(img: image::DynamicImage) -> int {
    rgba_of(img).0 * rgba_of(img).1
}

/// Specifies `image::load_from_memory_with_format`. Trusted: whether the bytes
/// can be decoded, and what comes out, is a function of the bytes and the
/// format; and as no more than 512 MiB are decoded, an image has at most that
/// many pixels. Nothing is said of the error.
pub assume_specification[ image::load_from_memory_with_format ](
    buf: &[u8],
    format: image::ImageFormat,
) -> (r: image::ImageResult<image::DynamicImage>)
    ensures
        match r {
            Ok(img) => decoded(buf@, format) == Some(img) && pixels_of(img) <= MOST_PIXELS,
            Err(_) => decoded(buf@, format) is None,
        },
;

/// Specifies `image::DynamicImage::width`. Trusted: it is the width that
/// `image::DynamicImage::to_rgba8` keeps.
pub assume_specification[ image::DynamicImage::width ](img: &image::DynamicImage) -> (r: u32)
    ensures
        r == rgba_of(*img).0,
;

/// Specifies `image::DynamicImage::height`. Trusted: it is the height that
/// `image::DynamicImage::to_rgba8` keeps.
pub assume_specification[ image::DynamicImage::height ](img: &image::DynamicImage) -> (r: u32)
    ensures
        r == rgba_of(*img).1,
;

/// Whether the samples of an image have 16 bits, as
/// `image::DynamicImage::as_flat_samples_u16` tells by giving them out.
pub uninterp spec fn sixteen_bit(img: image::DynamicImage) -> bool;

/// Calls `image::DynamicImage::as_flat_samples_u16`. Trusted: whether it gives
/// out samples is a function of the image.
#[verifier::external_body]
fn has_sixteen_bits(img: &image::DynamicImage) -> (r: bool)
    ensures
        r == sixteen_bit(*img),
{
    img.as_flat_samples_u16().is_some()
}

/// Whether `part` is the fraction `num / den` rounded to a whole number, but at
/// least one. A half may be rounded either way.
pub open spec fn rounds_to(num: int, den: int, part: int) -> bool {
    ||| part == 1 && 2 * num <= den
    ||| part >= 1 && 2 * num - den <= 2 * (part * den) <= 2 * num + den
}

/// The least whole number that `num / den` rounds to, but at least one.
pub open spec fn least_rounded(num: int, den: int) -> int {
    let r = (2 * num + den - 1) / (2 * den);
    if r < 1 {
        1
    } else {
        r
    }
}

/// Whether a picture of `rw` by `rh` pixels is one of `w` by `h` pixels scaled
/// to the largest size within `nw` by `nh`: the side that is longer by that
/// measure takes up its bound, and the other is scaled by the same factor and
/// rounded.
pub open spec fn fitted(w: int, h: int, nw: int, nh: int, rw: int, rh: int) -> bool {
    if w * nh >= h * nw {
        rw == nw && rounds_to(h * nw, w, rh)
    } else {
        rh == nh && rounds_to(w * nh, h, rw)
    }
}

/// A bound on how many of `side` pixels in a row come together in one of
/// `parts` parts: their quotient, rounded up, with room for what computing with
/// `f32` loses where there are no more than 256 parts.
pub open spec fn part_len(side: int, parts: int) -> int {
    let len = (60001 * side + 60000 * parts - 1) / (60000 * parts);
    if len < side {
        len
    } else {
        side
    }
}

/// A bound on how many pixels of an image of `w` by `h` come together in one
/// pixel of its thumbnail within `nw` by `nh`.
pub open spec fn block_len(w: int, h: int, nw: int, nh: int) -> int {
    if w * nh >= h * nw {
        part_len(w, nw) * part_len(h, least_rounded(h * nw, w))
    } else {
        part_len(w, least_rounded(w * nh, h)) * part_len(h, nh)
    }
}

/// How many samples can be added up in 32 bits.
pub open spec fn most_samples(sixteen_bits: bool) -> int {
    if sixteen_bits {
        0x1_0000
    } else {
        0x100_0000
    }
}

/// Whether the samples that come together in one pixel of a thumbnail within
/// `nw` by `nh` can be added up in 32 bits.
pub open spec fn can_shrink(img: image::DynamicImage, nw: int, nh: int) -> bool {
    let (w, h, _) = rgba_of(img);
    w == 0 || h == 0 || block_len(w as int, h as int, nw, nh) <= most_samples(sixteen_bit(img))
}

/// Specifies `image::DynamicImage::thumbnail`, which adds up the samples that
/// come together in one pixel of the result in 32 bits; where they do not fit,
/// the sum wraps, or the call panics in a build with overflow checks. Trusted: the result is a function of the image and of the
/// bounds, has at least one pixel, and keeps to the bounds; of an image that is
/// not empty it has the largest size with the same aspect ratio, up to rounding.
pub assume_specification[ image::DynamicImage::thumbnail ](
    img: &image::DynamicImage,
    nwidth: u32,
    nheight: u32,
) -> (r: image::DynamicImage)
    requires
        1 <= nwidth <= 256,
        1 <= nheight <= 256,
        can_shrink(*img, nwidth as int, nheight as int),
    ensures
        r == thumbnail_of(*img, nwidth, nheight),
        1 <= rgba_of(r).0 <= nwidth,
        1 <= rgba_of(r).1 <= nheight,
        rgba_of(*img).0 > 0 && rgba_of(*img).1 > 0 ==> fitted(
            rgba_of(*img).0 as int,
            rgba_of(*img).1 as int,
            nwidth as int,
            nheight as int,
            rgba_of(r).0 as int,
            rgba_of(r).1 as int,
        ),
;

/// Calls `image::DynamicImage::to_rgba8`. Trusted: size and bytes are a
/// function of the image, and there are four bytes for each pixel.
#[verifier::external_body]
fn to_rgba8(img: &image::DynamicImage) -> (r: (u32, u32, Vec<u8>))
    ensures
        (r.0, r.1, r.2@) == rgba_of(*img),
        r.2@.len() == 4 * (r.0 * r.1),
{
    let rgba = img.to_rgba8();
    (rgba.width(), rgba.height(), rgba.pixels().flat_map(|p| p.0).collect())
}

/// The image of the given size and of the given red, green, blue and alpha of
/// each pixel, in 8 bits each, as `image::RgbaImage::from_raw` gives it.
pub uninterp spec fn rgba_image(width: u32, height: u32, rgba: Seq<u8>) -> image::DynamicImage;

/// Calls `image::RgbaImage::from_raw`. Trusted: where there are four bytes for
/// each pixel it succeeds, and the image is a function of size and bytes, has
/// that size and those bytes, and has samples of 8 bits.
#[verifier::external_body]
fn image_from_rgba(width: u32, height: u32, rgba: Vec<u8>) -> (r: Option<image::DynamicImage>)
    requires
        rgba@.len() == 4 * (width * height),
    ensures
        r == Some(rgba_image(width, height, rgba@)),
        r matches Some(img) ==> rgba_of(img) == (width, height, rgba@) && !sixteen_bit(img),
{
    image::RgbaImage::from_raw(width, height, rgba).map(image::DynamicImage::ImageRgba8)
}

/// A partly transparent color multiplied by its alpha, as
/// `egui::Color32::from_rgba_unmultiplied` does it.
pub uninterp spec fn blended(r: u8, g: u8, b: u8, a: u8) -> (u8, u8, u8);

/// A pixel from red, green, blue and alpha: nothing where it is transparent,
/// the color itself where it is opaque.
pub open spec fn pixel_of(r: u8, g: u8, b: u8, a: u8) -> Pixel {
    if a == 0 {
        (0, 0, 0, 0)
    } else if a == 255 {
        (r, g, b, 255)
    } else {
        (blended(r, g, b, a).0, blended(r, g, b, a).1, blended(r, g, b, a).2, a)
    }
}

/// The picture that `width` times `height` pixels of red, green, blue and alpha
/// make.
pub open spec fn picture_of(width: nat, height: nat, rgba: Seq<u8>) -> PictureModel {
    PictureModel {
        width,
        height,
        pixels: Seq::new(
            width * height,
            |i: int| pixel_of(rgba[4 * i], rgba[4 * i + 1], rgba[4 * i + 2], rgba[4 * i + 3]),
        ),
    }
}

/// Calls `egui::ColorImage::from_rgba_unmultiplied`, which panics where there
/// are not four bytes for each pixel. Trusted: it makes one pixel of each four
/// bytes, in their order, with the alpha that they give; a pixel without alpha
/// is all zero, an opaque one keeps its color, and the color of any other is a
/// function of its four bytes.
#[verifier::external_body]
fn color_image_pixels(width: usize, height: usize, rgba: &[u8]) -> (r: Vec<Pixel>)
    requires
        rgba@.len() == 4 * (width * height),
    ensures
        r@.len() == width * height,
        forall|i: int|
            0 <= i < width * height && 0 < rgba@[4 * i + 3] < 255 ==> {
                let p = #[trigger] r@[i];
                (p.0, p.1, p.2) == blended(
                    rgba@[4 * i],
                    rgba@[4 * i + 1],
                    rgba@[4 * i + 2],
                    rgba@[4 * i + 3],
                )
            },
        forall|i: int|
            0 <= i < width * height ==> #[trigger] r@[i] == pixel_of(
                rgba@[4 * i],
                rgba@[4 * i + 1],
                rgba@[4 * i + 2],
                rgba@[4 * i + 3],
            ),
{
    let image = egui::ColorImage::from_rgba_unmultiplied([width, height], rgba);
    image.pixels.iter().map(|p| p.to_tuple()).collect()
}

/// Calls `egui::ColorImage::new` with a gray of `egui::Color32::from_gray`,
/// which panics where the pixels do not fit in memory. Trusted: every pixel is
/// that gray, opaque.
#[verifier::external_body]
fn gray_image_pixels(width: usize, height: usize, gray: u8) -> (r: Vec<Pixel>)
    requires
        4 * (width * height) <= isize::MAX,
    ensures
        r@.len() == width * height,
        forall|i: int| 0 <= i < width * height ==> #[trigger] r@[i] == (gray, gray, gray, 255u8),
{
    let image = egui::ColorImage::new([width, height], egui::Color32::from_gray(gray));
    image.pixels.iter().map(|p| p.to_tuple()).collect()
}

/// The picture that `width` times `height` pixels of red, green, blue and alpha
/// make.
pub fn color_image(width: usize, height: usize, rgba: &[u8]) -> (r: Picture)
    requires
        rgba@.len() == 4 * (width * height),
    ensures
        r@ == picture_of(width as nat, height as nat, rgba@),
        r@.wf(),
{
    let r = Picture { width, height, pixels: color_image_pixels(width, height, rgba) };
    assert(r@.pixels =~= picture_of(width as nat, height as nat, rgba@).pixels);
    r
}

/// The picture of a decoded image.
pub open spec fn image_picture(img: image::DynamicImage) -> PictureModel {
    picture_of(rgba_of(img).0 as nat, rgba_of(img).1 as nat, rgba_of(img).2)
}

/// The picture of a decoded image.
pub fn to_color_image(img: &image::DynamicImage) -> (r: Picture)
    ensures
        r@ == image_picture(*img),
        r@.wf(),
{
    let (w, h, rgba) = to_rgba8(img);
    color_image(w as usize, h as usize, rgba.as_slice())
}

/// The image that a thumbnail is made of: the image itself where its samples can
/// be added up, and elsewhere the same in 8 bits.
pub open spec fn thumb_source(img: image::DynamicImage) -> image::DynamicImage {
    if can_shrink(img, THUMB as int, THUMB as int) {
        img
    } else {
        rgba_image(rgba_of(img).0, rgba_of(img).1, rgba_of(img).2)
    }
}

/// The thumbnail of a decoded image.
pub open spec fn thumb_picture(img: image::DynamicImage) -> PictureModel {
    image_picture(thumbnail_of(thumb_source(img), THUMB as u32, THUMB as u32))
}

/// The shape of a thumbnail: it fits into a square of `THUMB` pixels and, unless
/// the image is empty, takes up one of its sides and keeps the aspect ratio of
/// the image.
pub open spec fn thumb_shape(img: image::DynamicImage, p: PictureModel) -> bool {
    let (w, h, _) = rgba_of(img);
    &&& p.wf()
    &&& 1 <= p.width <= THUMB
    &&& 1 <= p.height <= THUMB
    &&& w > 0 && h > 0 ==> {
        &&& p.width == THUMB || p.height == THUMB
        &&& fitted(
            w as int,
            h as int,
            THUMB as int,
            THUMB as int,
            p.width as int,
            p.height as int,
        )
    }
}

/// Computes `least_rounded` of `num / den`.
fn least_part(num: u64, den: u64) -> (r: u64)
    requires
        0 < den <= 0xffff_ffff,
        num <= 0xff_ffff_ffff,
    ensures
        r == least_rounded(num as int, den as int),
        r >= 1,
{
    let r: u64 = (2 * num + den - 1) / (2 * den);
    if r < 1 {
        1
    } else {
        r
    }
}

/// Computes `part_len`.
fn part_bound(side: u64, parts: u64) -> (r: u64)
    requires
        1 <= parts,
        side <= 0xffff_ffff,
    ensures
        r == part_len(side as int, parts as int),
        r <= 0xffff_ffff,
{
    let side_wide: u128 = side as u128;
    let parts_wide: u128 = parts as u128;
    let len: u128 = (60001 * side_wide + 60000 * parts_wide - 1) / (60000 * parts_wide);
    if len < side_wide {
        len as u64
    } else {
        side
    }
}

/// Of an image that is no larger than what can be decoded, no more pixels come
/// together in one than can be added up in 8 bits each.
proof fn lemma_eight_bits_suffice(w: int, h: int)
    requires
        1 <= w,
        1 <= h,
        w * h <= MOST_PIXELS,
    ensures
        block_len(w, h, THUMB as int, THUMB as int) <= most_samples(false),
{
    let n = THUMB as int;
    assert(h * w == w * h) by (nonlinear_arith);
    if w * n >= h * n {
        lemma_block(w, h, part_len(w, n), part_len(h, least_rounded(h * n, w)));
    } else {
        let a = part_len(h, n);
        let b = part_len(w, least_rounded(w * n, h));
        lemma_block(h, w, a, b);
        assert(b * a == a * b) by (nonlinear_arith);
    }
}

/// What `a` of the long side and `b` of the short side make together.
proof fn lemma_block(long: int, short: int, a: int, b: int)
    requires
        1 <= short <= long,
        long * short <= MOST_PIXELS,
        0 <= a,
        100 * a <= long + 100,
        b <= short,
    ensures
        a * b <= most_samples(false),
{
    assert(short <= 23171) by (nonlinear_arith)
        requires
            1 <= short <= long,
            long * short <= 0x2000_0000,
    ;
    assert(100 * (a * b) <= long * short + 100 * short) by (nonlinear_arith)
        requires
            0 <= a,
            100 * a <= long + 100,
            b <= short,
            1 <= short,
    ;
}

/// Tells whether the samples of an image can be added up for its thumbnail.
fn shrinkable(img: &image::DynamicImage) -> (r: bool)
    ensures
        r == can_shrink(*img, THUMB as int, THUMB as int),
{
    let w: u64 = img.width() as u64;
    let h: u64 = img.height() as u64;
    if w == 0 || h == 0 {
        return true;
    }
    let n: u64 = THUMB as u64;
    let (a, b) = if w * n >= h * n {
        (part_bound(w, n), part_bound(h, least_part(h * n, w)))
    } else {
        (part_bound(w, least_part(w * n, h)), part_bound(h, n))
    };
    assert(0 <= a * b <= 0xffff_ffff * 0xffff_ffff) by (nonlinear_arith)
        requires
            0 <= a <= 0xffff_ffff,
            0 <= b <= 0xffff_ffff,
    ;
    let most: u64 = if has_sixteen_bits(img) {
        0x1_0000
    } else {
        0x100_0000
    };
    a * b <= most
}

/// The thumbnail of an image that is no larger than what can be decoded.
pub fn shrink(img: &image::DynamicImage) -> (r: Picture)
    requires
        pixels_of(*img) <= MOST_PIXELS,
    ensures
        r@ == thumb_picture(*img),
        thumb_shape(*img, r@),
{
    if shrinkable(img) {
        to_color_image(&img.thumbnail(THUMB as u32, THUMB as u32))
    } else {
        let (w, h, rgba) = to_rgba8(img);
        proof {
            lemma_eight_bits_suffice(w as int, h as int);
        }
        let narrow = image_from_rgba(w, h, rgba).unwrap();
        to_color_image(&narrow.thumbnail(THUMB as u32, THUMB as u32))
    }
}

/// The gray that stands for an entry without a thumbnail.
pub open spec fn placeholder_gray(kind: Kind) -> u8 {
    match kind {
        Kind::Image => 45,
        Kind::Video => 30,
    }
}

/// What is shown for an entry without a thumbnail.
pub open spec fn placeholder_picture(kind: Kind) -> PictureModel {
    let gray = placeholder_gray(kind);
    PictureModel {
        width: THUMB as nat,
        height: THUMB as nat,
        pixels: Seq::new((THUMB * THUMB) as nat, |i: int| (gray, gray, gray, 255u8)),
    }
}

/// What is shown for an entry of which no thumbnail can be made.
pub fn placeholder(kind: Kind) -> (r: Picture)
    ensures
        r@ == placeholder_picture(kind),
        r@.wf(),
{
    let shade: u8 = match kind {
        Kind::Image => 45,
        Kind::Video => 30,
    };
    let r = Picture {
        width: THUMB,
        height: THUMB,
        pixels: gray_image_pixels(THUMB, THUMB, shade),
    };
    assert(r@.pixels =~= placeholder_picture(kind).pixels);
    r
}

/// The image in a file of the given path and content. The extension of the path
/// alone tells the format.
pub open spec fn image_in(path: Seq<u8>, data: Seq<u8>) -> Option<image::DynamicImage> {
    match extension_of(path) {
        Some(ext) => match format_of(lossy(ext)) {
            Some(format) => decoded(data, format),
            None => None,
        },
        None => None,
    }
}

/// Decodes the image in a file of the given path and content. The extension of
/// the path alone tells the format.
pub fn open_image(path: &[u8], data: &[u8]) -> (r: Option<image::DynamicImage>)
    ensures
        r == image_in(path@, data@),
        r matches Some(img) ==> pixels_of(img) <= MOST_PIXELS,
{
    match extension(path) {
        Some(ext) => match format_from_extension(text_lossy(ext.as_slice()).as_str()) {
            Some(format) => match image::load_from_memory_with_format(data, format) {
                Ok(img) => Some(img),
                Err(_) => None,
            },
            None => None,
        },
        None => None,
    }
}

/// The picture in an image file, at full size.
pub open spec fn full_in(path: Seq<u8>, data: Seq<u8>) -> Option<PictureModel> {
    match image_in(path, data) {
        Some(img) => Some(image_picture(img)),
        None => None,
    }
}

/// The pixels of an image file for the clipboard.
pub open spec fn clipboard_in(path: Seq<u8>, data: Seq<u8>) -> Option<(u32, u32, Seq<u8>)> {
    match image_in(path, data) {
        Some(img) => Some(rgba_of(img)),
        None => None,
    }
}

/// The picture in an image file, at full size.
pub fn full_picture(path: &[u8], data: &[u8]) -> (r: Option<Picture>)
    ensures
        opt_picture(r) == full_in(path@, data@),
        opt_picture(r) == match image_in(path@, data@) {
            Some(img) => Some(image_picture(img)),
            None => None,
        },
{
    match open_image(path, data) {
        Some(img) => Some(to_color_image(&img)),
        None => None,
    }
}

/// The pixels of an image file for the clipboard: width, height, and red,
/// green, blue and alpha of each pixel.
pub fn clipboard_image(path: &[u8], data: &[u8]) -> (r: Option<(u32, u32, Vec<u8>)>)
    ensures
        clipboard_in(path@, data@) == match r {
            Some((w, h, rgba)) => Some((w, h, rgba@)),
            None => None,
        },
        match (r, image_in(path@, data@)) {
            (Some((w, h, rgba)), Some(img)) => (w, h, rgba@) == rgba_of(img) && rgba@.len() == 4 * (
            w * h),
            (None, None) => true,
            _ => false,
        },
{
    match open_image(path, data) {
        Some(img) => Some(to_rgba8(&img)),
        None => None,
    }
}

/// A picture has the size that was asked for and one pixel for each four bytes,
/// in their order. A pixel keeps its alpha; an opaque one keeps its color, and
/// one without alpha has none.
pub proof fn law_pixels_follow_the_bytes(width: nat, height: nat, rgba: Seq<u8>, i: int)
    requires
        rgba.len() == 4 * (width * height),
        0 <= i < width * height,
    ensures
        ({
            let picture = picture_of(width, height, rgba);
            let p = picture.pixels[i];
            &&& picture.width == width
            &&& picture.height == height
            &&& picture.pixels.len() == width * height
            &&& p.3 == rgba[4 * i + 3]
            &&& p.3 == 255 ==> (p.0, p.1, p.2) == (rgba[4 * i], rgba[4 * i + 1], rgba[4 * i + 2])
            &&& p.3 == 0 ==> (p.0, p.1, p.2) == (0u8, 0u8, 0u8)
            &&& 0 < p.3 < 255 ==> (p.0, p.1, p.2) == blended(
                rgba[4 * i],
                rgba[4 * i + 1],
                rgba[4 * i + 2],
                p.3,
            )
        }),
{
}

/// What stands for an entry without a thumbnail is a square of one dark gray,
/// lighter for images than for videos.
pub proof fn law_placeholders(kind: Kind, i: int)
    requires
        0 <= i < 192 * 192,
    ensures
        ({
            let picture = placeholder_picture(kind);
            let gray: u8 = if kind == Kind::Image {
                45
            } else {
                30
            };
            &&& picture.width == 192
            &&& picture.height == 192
            &&& picture.pixels.len() == 192 * 192
            &&& picture.pixels[i] == (gray, gray, gray, 255u8)
        }),
{
}

/// An image file is decoded in the format that its extension stands for; with
/// an extension that stands for none, or without one, it holds no image.
pub proof fn law_format_goes_by_extension(path: Seq<u8>, data: Seq<u8>, ext: Seq<u8>)
    ensures
        extension_of(path) == Some(ext) ==> {
            &&& format_of(lossy(ext)) matches Some(format) ==> image_in(path, data) == decoded(
                data,
                format,
            )
            &&& format_of(lossy(ext)) is None ==> image_in(path, data) is None
        },
        extension_of(path) is None ==> image_in(path, data) is None,
{
}

/// The picture of an image has its size and its pixels.
pub proof fn law_picture_of_image(img: image::DynamicImage)
    ensures
        image_picture(img).width == rgba_of(img).0,
        image_picture(img).height == rgba_of(img).1,
        image_picture(img) == picture_of(
            rgba_of(img).0 as nat,
            rgba_of(img).1 as nat,
            rgba_of(img).2,
        ),
{
}

proof fn lemma_wide_block(long: int, short: int)
    requires
        1 <= short <= long <= 38400,
    ensures
        0 <= part_len(long, 192) <= 201,
        0 <= part_len(short, least_rounded(short * 192, long)) <= 301,
{
    let num = short * 192;
    let l = least_rounded(num, long);
    let r = (2 * num + long - 1) / (2 * long);
    assert(2 * long * r >= 2 * num - long) by (nonlinear_arith)
        requires
            r == (2 * num + long - 1) / (2 * long),
            1 <= long,
    ;
    assert(384 * short <= 3 * (long * l)) by (nonlinear_arith)
        requires
            2 * long * r >= 384 * short - long,
            l >= r,
            l >= 1,
            1 <= long,
    ;
    assert(long * l <= 38400 * l) by (nonlinear_arith)
        requires
            1 <= long <= 38400,
            l >= 1,
    ;
    assert(short <= 300 * l);
    let top = 60001 * short + 60000 * l - 1;
    assert(0 <= top / (60000 * l) <= 301) by (nonlinear_arith)
        requires
            0 <= top < 302 * (60000 * l),
            l >= 1,
    ;
}

/// A thumbnail is the image itself, scaled to fit a square of 192 pixels,
/// wherever its samples are not of 16 bits, and wherever it is no longer than
/// 38400 pixels on either side. What is scaled is never
/// anything but the image or the same in 8 bits.
pub proof fn law_thumbnail_is_the_scaled_image(img: image::DynamicImage)
    requires
        pixels_of(img) <= MOST_PIXELS,
    ensures
        !sixteen_bit(img) || (rgba_of(img).0 <= 38400 && rgba_of(img).1 <= 38400)
            ==> thumb_picture(img) == image_picture(thumbnail_of(img, 192, 192)),
        thumb_picture(img) == image_picture(thumbnail_of(img, 192, 192)) || thumb_picture(img)
            == image_picture(
            thumbnail_of(
                rgba_image(rgba_of(img).0, rgba_of(img).1, rgba_of(img).2),
                192,
                192,
            ),
        ),
{
    let w = rgba_of(img).0 as int;
    let h = rgba_of(img).1 as int;
    if w > 0 && h > 0 {
        lemma_eight_bits_suffice(w, h);
        if w <= 38400 && h <= 38400 {
            if w * 192 >= h * 192 {
                lemma_wide_block(w, h);
                let a = part_len(w, 192);
                let b = part_len(h, least_rounded(h * 192, w));
                assert(a * b <= 201 * 301) by (nonlinear_arith)
                    requires
                        0 <= a <= 201,
                        0 <= b <= 301,
                ;
            } else {
                lemma_wide_block(h, w);
                let a = part_len(h, 192);
                let b = part_len(w, least_rounded(w * 192, h));
                assert(b * a <= 201 * 301) by (nonlinear_arith)
                    requires
                        0 <= a <= 201,
                        0 <= b <= 301,
                ;
            }
        }
    }
}

/// The viewer and the clipboard get the image that a file holds, in its full
/// size: the viewer as a picture, the clipboard with the very bytes of its
/// pixels. A file without an image gives neither.
pub proof fn law_viewer_and_clipboard_get_the_image(path: Seq<u8>, data: Seq<u8>)
    ensures
        image_in(path, data) matches Some(img) ==> {
            &&& full_in(path, data) matches Some(p) && p.width == rgba_of(img).0 && p.height
                == rgba_of(img).1 && p == picture_of(
                rgba_of(img).0 as nat,
                rgba_of(img).1 as nat,
                rgba_of(img).2,
            )
            &&& clipboard_in(path, data) == Some(rgba_of(img))
        },
        image_in(path, data) is None ==> full_in(path, data) is None && clipboard_in(
            path,
            data,
        ) is None,
{
}

/// A thumbnail fits into a square of 192 pixels. Of an image that is not empty
/// the longer side becomes 192 pixels long, and the other side is off the aspect
/// ratio of the image by no more than half a pixel, or is one pixel long.
pub proof fn law_thumbnail_keeps_the_aspect_ratio(img: image::DynamicImage, p: PictureModel)
    requires
        thumb_shape(img, p),
    ensures
        1 <= p.width <= 192,
        1 <= p.height <= 192,
        p.pixels.len() == p.width * p.height,
        ({
            let w = rgba_of(img).0 as int;
            let h = rgba_of(img).1 as int;
            let pw = p.width as int;
            let ph = p.height as int;
            &&& w > 0 && h > 0 && w >= h ==> pw == 192 && (ph == 1 || -w <= 2 * (ph * w - 192 * h)
                <= w)
            &&& w > 0 && h > 0 && w < h ==> ph == 192 && (pw == 1 || -h <= 2 * (pw * h - 192 * w)
                <= h)
        }),
{
}

} // verus!
