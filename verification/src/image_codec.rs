//! Pixel buffers ready for the resizer and the WebP encoder, and the
//! arithmetic and settings around them.
//!
//! A decoded image that already holds RGB8 or RGBA8 pixels lends its buffer
//! as it is; other layouts are converted once, keeping alpha where the source
//! has it. Resizing runs Lanczos3 through `fast_image_resize`.

use vstd::prelude::*;

use fast_image_resize::images::{Image, ImageRef};
use fast_image_resize::{FilterType, PixelType, ResizeAlg, ResizeOptions, Resizer};
use image::DynamicImage;

use crate::text::{push_str, str_chars, string_from_chars};

verus! {

broadcast use vstd::string::group_string_axioms;

#[verifier::external_type_specification]
#[verifier::external_body]
pub struct ExDynamicImage(DynamicImage);

/// Why a resize or encode could not produce output.
#[derive(Debug)]
pub enum ImageCodecError {
    InvalidBuffer(String),
    Resize(String),
    Encode(String),
}

pub open spec fn codec_message(e: ImageCodecError) -> Seq<char> {
    match e {
        ImageCodecError::InvalidBuffer(d) => "invalid pixel buffer: "@ + d@,
        ImageCodecError::Resize(d) => "image resize failed: "@ + d@,
        ImageCodecError::Encode(d) => "WebP encoding failed: "@ + d@,
    }
}

impl ImageCodecError {
    /// The error as text, as its `Display` reads.
    pub fn message(&self) -> (r: String)
        ensures
            r@ == codec_message(*self),
    {
        let (head, detail) = match self {
            ImageCodecError::InvalidBuffer(d) => ("invalid pixel buffer: ", d),
            ImageCodecError::Resize(d) => ("image resize failed: ", d),
            ImageCodecError::Encode(d) => ("WebP encoding failed: ", d),
        };
        let mut out = str_chars(head);
        push_str(&mut out, detail.as_str());
        string_from_chars(out.as_slice())
    }
}

/// Pixels in a layout both the resizer and the WebP encoder accept directly.
#[derive(Debug, Clone, Copy, PartialEq, Eq, Structural)]
pub enum PixelLayout {
    Rgb8,
    Rgba8,
}

pub open spec fn layout_bytes(layout: PixelLayout) -> nat {
    match layout {
        PixelLayout::Rgb8 => 3,
        PixelLayout::Rgba8 => 4,
    }
}

impl PixelLayout {
    /// Bytes per pixel.
    pub fn bytes_per_pixel(self) -> (r: usize)
        ensures
            r == layout_bytes(self),
    {
        match self {
            PixelLayout::Rgb8 => 3,
            PixelLayout::Rgba8 => 4,
        }
    }
}

/// Where a buffer of pixels lives: lent by a decoded image, or owned.
pub enum PixelData<'a> {
    Borrowed(&'a [u8]),
    Owned(Vec<u8>),
}

/// A decoded image whose pixels are ready to use without another conversion.
pub struct Pixels<'a> {
    pub data: PixelData<'a>,
    pub width: u32,
    pub height: u32,
    pub layout: PixelLayout,
}

// The calls into `image` that read a decoded image, and names for what they
// give. A `DynamicImage` is a container of pixels; these names are what it
// holds as seen through each call.

/// `GenericImageView::dimensions`: the image's width and height.
pub uninterp spec fn image_size(image: DynamicImage) -> (u32, u32);

/// `DynamicImage::as_rgb8` finds RGB8 pixels: the image is `ImageRgb8`.
pub uninterp spec fn holds_rgb8(image: DynamicImage) -> bool;

/// `DynamicImage::as_rgba8` finds RGBA8 pixels: the image is `ImageRgba8`.
pub uninterp spec fn holds_rgba8(image: DynamicImage) -> bool;

/// `DynamicImage::has_alpha`: its pixel type can express transparency.
pub uninterp spec fn image_alpha(image: DynamicImage) -> bool;

/// `DynamicImage::to_rgb8`: its pixels as RGB8 samples, row by row (the
/// raw container of the copy).
pub uninterp spec fn rgb8_samples(image: DynamicImage) -> Seq<u8>;

/// `DynamicImage::to_rgba8`: its pixels as RGBA8 samples, row by row (the
/// raw container of the copy).
pub uninterp spec fn rgba8_samples(image: DynamicImage) -> Seq<u8>;

// Every `ImageBuffer` of `image` holds at least width x height pixels: its
// constructors refuse a shorter container, and a converted copy is allocated
// at exactly that size. `to_rgb8` of an RGB8 image (and `to_rgba8` of an
// RGBA8 one) is a clone of its buffer, container and all.

/// `DynamicImage::as_rgb8`: its buffer and dimensions, when it holds RGB8
/// pixels.
#[verifier::external_body]
fn rgb8_buffer(decoded: &DynamicImage) -> (r: Option<(&[u8], u32, u32)>)
    ensures
        r is Some <==> holds_rgb8(*decoded),
        r matches Some(t) ==> (t.1, t.2) == image_size(*decoded) && t.0@.len() >= t.1 * t.2 * 3
            && t.0@ == rgb8_samples(*decoded),
{
    match decoded.as_rgb8() {
        Some(buffer) => Some((buffer.as_raw().as_slice(), buffer.width(), buffer.height())),
        None => None,
    }
}

/// `DynamicImage::as_rgba8`: its buffer and dimensions, when it holds RGBA8
/// pixels.
#[verifier::external_body]
fn rgba8_buffer(decoded: &DynamicImage) -> (r: Option<(&[u8], u32, u32)>)
    ensures
        r is Some <==> holds_rgba8(*decoded),
        r matches Some(t) ==> (t.1, t.2) == image_size(*decoded) && t.0@.len() >= t.1 * t.2 * 4
            && t.0@ == rgba8_samples(*decoded),
{
    match decoded.as_rgba8() {
        Some(buffer) => Some((buffer.as_raw().as_slice(), buffer.width(), buffer.height())),
        None => None,
    }
}

/// `DynamicImage::has_alpha`: its pixel type can express transparency.
#[verifier::external_body]
fn image_has_alpha(decoded: &DynamicImage) -> (r: bool)
    ensures
        r == image_alpha(*decoded),
{
    decoded.has_alpha()
}

/// `DynamicImage::to_rgba8`: its pixels converted to RGBA8, with their
/// dimensions.
#[verifier::external_body]
fn rgba8_copy(decoded: &DynamicImage) -> (r: (Vec<u8>, u32, u32))
    ensures
        (r.1, r.2) == image_size(*decoded) && r.0@.len() >= r.1 * r.2 * 4 && r.0@ == rgba8_samples(
            *decoded,
        ),
{
    let converted = decoded.to_rgba8();
    let (width, height) = converted.dimensions();
    (converted.into_raw(), width, height)
}

/// `DynamicImage::to_rgb8`: its pixels converted to RGB8, with their
/// dimensions.
#[verifier::external_body]
fn rgb8_copy(decoded: &DynamicImage) -> (r: (Vec<u8>, u32, u32))
    ensures
        (r.1, r.2) == image_size(*decoded) && r.0@.len() >= r.1 * r.2 * 3 && r.0@ == rgb8_samples(
            *decoded,
        ),
{
    let converted = decoded.to_rgb8();
    let (width, height) = converted.dimensions();
    (converted.into_raw(), width, height)
}

/// The layout a decoded image's pixels are taken in: as held when RGB8 or
/// RGBA8, else RGBA8 exactly when its pixel type can express transparency.
pub open spec fn layout_for(image: DynamicImage) -> PixelLayout {
    if holds_rgb8(image) {
        PixelLayout::Rgb8
    } else if holds_rgba8(image) {
        PixelLayout::Rgba8
    } else if image_alpha(image) {
        PixelLayout::Rgba8
    } else {
        PixelLayout::Rgb8
    }
}

/// A decoded image's samples in `layout`.
pub open spec fn samples_in(image: DynamicImage, layout: PixelLayout) -> Seq<u8> {
    match layout {
        PixelLayout::Rgb8 => rgb8_samples(image),
        PixelLayout::Rgba8 => rgba8_samples(image),
    }
}

/// What `fast_image_resize` makes of `source`, `width` x `height` pixels of
/// `layout`, resampled with Lanczos3 to `target_width` x `target_height`.
pub uninterp spec fn lanczos3_resampled(
    source: Seq<u8>,
    width: u32,
    height: u32,
    layout: PixelLayout,
    target_width: u32,
    target_height: u32,
) -> Seq<u8>;

/// Lanczos3 resampling of `source`, `width` x `height` pixels of `layout`,
/// to `target_width` x `target_height` through `fast_image_resize`
/// (`ImageRef::new`, `Image::new`, `Resizer::resize`, `Image::into_vec`).
/// The source is refused as an invalid buffer exactly when it is shorter
/// than its dimensions ask (an 8-bit layout is always aligned); the resizer
/// itself fails only on mismatched pixel types or a crop box outside the
/// source, neither of which this call sets up. The output fills the target.
#[verifier::external_body]
fn lanczos3_resize(
    source: &[u8],
    width: u32,
    height: u32,
    layout: PixelLayout,
    target_width: u32,
    target_height: u32,
) -> (r: Result<Vec<u8>, ImageCodecError>)
    requires
        width * height * layout_bytes(layout) <= usize::MAX,
        target_width * target_height * layout_bytes(layout) <= usize::MAX,
    ensures
        r is Err <==> source@.len() < width * height * layout_bytes(layout),
        r matches Err(e) ==> e is InvalidBuffer,
        r matches Ok(v) ==> v@.len() == target_width * target_height * layout_bytes(layout) && v@
            == lanczos3_resampled(source@, width, height, layout, target_width, target_height),
{
    let pixel_type = match layout {
        PixelLayout::Rgb8 => PixelType::U8x3,
        PixelLayout::Rgba8 => PixelType::U8x4,
    };
    let source = ImageRef::new(width, height, source, pixel_type)
        .map_err(|error| ImageCodecError::InvalidBuffer(error.to_string()))?;
    let mut target = Image::new(target_width, target_height, pixel_type);
    let options = ResizeOptions::new().resize_alg(ResizeAlg::Convolution(FilterType::Lanczos3));
    Resizer::new().resize(&source, &mut target, &options).map_err(
        |error| ImageCodecError::Resize(error.to_string()),
    )?;
    Ok(target.into_vec())
}

impl<'a> Pixels<'a> {
    pub open spec fn width_of(&self) -> u32 {
        self.width
    }

    pub open spec fn height_of(&self) -> u32 {
        self.height
    }

    pub open spec fn layout_of(&self) -> PixelLayout {
        self.layout
    }

    pub open spec fn bytes(&self) -> Seq<u8> {
        match self.data {
            PixelData::Borrowed(s) => s@,
            PixelData::Owned(v) => v@,
        }
    }

    /// Borrows a decoded image's pixels, converting only when its layout is
    /// neither RGB8 nor RGBA8, and then to RGBA8 exactly when its pixel type
    /// can express transparency. The pixels always cover the dimensions.
    pub fn from_image(decoded: &'a DynamicImage) -> (r: Pixels<'a>)
        ensures
            (r.width_of(), r.height_of()) == image_size(*decoded),
            r.layout_of() == layout_for(*decoded),
            r.bytes().len() >= r.width_of() * r.height_of() * layout_bytes(r.layout_of()),
            r.bytes() == samples_in(*decoded, r.layout_of()),
    {
        if let Some((buffer, width, height)) = rgb8_buffer(decoded) {
            return Pixels { data: PixelData::Borrowed(buffer), width, height, layout: PixelLayout::Rgb8 };
        }
        if let Some((buffer, width, height)) = rgba8_buffer(decoded) {
            return Pixels {
                data: PixelData::Borrowed(buffer),
                width,
                height,
                layout: PixelLayout::Rgba8,
            };
        }
        if image_has_alpha(decoded) {
            let (data, width, height) = rgba8_copy(decoded);
            Pixels { data: PixelData::Owned(data), width, height, layout: PixelLayout::Rgba8 }
        } else {
            let (data, width, height) = rgb8_copy(decoded);
            Pixels { data: PixelData::Owned(data), width, height, layout: PixelLayout::Rgb8 }
        }
    }

    /// Takes ownership of an already-materialized buffer.
    pub fn from_owned(data: Vec<u8>, width: u32, height: u32, layout: PixelLayout) -> (r: Pixels<'static>)
        ensures
            r.bytes() == data@,
            r.width_of() == width,
            r.height_of() == height,
            r.layout_of() == layout,
    {
        Pixels { data: PixelData::Owned(data), width, height, layout }
    }

    pub fn as_slice(&self) -> (r: &[u8])
        ensures
            r@ == self.bytes(),
    {
        match &self.data {
            PixelData::Borrowed(slice) => slice,
            PixelData::Owned(vec) => vec.as_slice(),
        }
    }

    /// Downscales to `width` x `height`, keeping the layout; every target is
    /// produced from these pixels, never from an earlier smaller variant.
    pub fn resize(&self, width: u32, height: u32) -> (r: Result<Pixels<'static>, ImageCodecError>)
        requires
            self.width_of() * self.height_of() * layout_bytes(self.layout_of()) <= usize::MAX,
            width * height * layout_bytes(self.layout_of()) <= usize::MAX,
        ensures
            r is Err <==> self.bytes().len() < self.width_of() * self.height_of() * layout_bytes(
                self.layout_of(),
            ),
            r matches Err(e) ==> e is InvalidBuffer,
            r matches Ok(p) ==> p.width_of() == width && p.height_of() == height && p.layout_of()
                == self.layout_of() && p.bytes().len() == width * height * layout_bytes(self.layout_of())
                && p.bytes() == lanczos3_resampled(
                self.bytes(),
                self.width_of(),
                self.height_of(),
                self.layout_of(),
                width,
                height,
            ),
    {
        let data = lanczos3_resize(self.as_slice(), self.width, self.height, self.layout, width, height)?;
        Ok(Pixels::from_owned(data, width, height, self.layout))
    }
}

/// WebP encoder settings.
#[derive(Debug, Clone, Copy)]
pub struct WebpSettings {
    pub quality: u8,
    pub lossless: bool,
    /// libwebp's `method`: 0 is fastest and largest, 6 is slowest and smallest.
    pub effort: u8,
}

/// The libwebp configuration values for `settings`: lossless and alpha
/// compression as flags, the quality kept within 1..=100, and the method no
/// higher than 6.
#[derive(Debug, Clone, Copy, PartialEq, Eq, Structural)]
pub struct WebpParameters {
    pub lossless: i32,
    pub alpha_compression: i32,
    pub quality: u8,
    pub method: i32,
}

pub open spec fn webp_parameters_of(settings: WebpSettings) -> WebpParameters {
    WebpParameters {
        lossless: if settings.lossless { 1 } else { 0 },
        alpha_compression: if settings.lossless { 0 } else { 1 },
        quality: if settings.quality < 1 {
            1
        } else if settings.quality > 100 {
            100
        } else {
            settings.quality
        },
        method: if settings.effort < 6 { settings.effort as i32 } else { 6 },
    }
}

pub fn webp_parameters(settings: WebpSettings) -> (r: WebpParameters)
    ensures
        r == webp_parameters_of(settings),
{
    WebpParameters {
        lossless: if settings.lossless { 1 } else { 0 },
        alpha_compression: if settings.lossless { 0 } else { 1 },
        quality: if settings.quality < 1 {
            1
        } else if settings.quality > 100 {
            100
        } else {
            settings.quality
        },
        method: if settings.effort < 6 { settings.effort as i32 } else { 6 },
    }
}

/// The height that keeps the aspect ratio at `target_width`, rounded down,
/// and never zero; a zero source width counts as one.
pub open spec fn scaled(source_width: u32, source_height: u32, target_width: u32) -> int {
    let w = if source_width < 1 { 1 } else { source_width as int };
    let h = (target_width as int * source_height as int) / w;
    if h < 1 { 1 } else { h }
}

pub fn scaled_height(source_width: u32, source_height: u32, target_width: u32) -> (r: u32)
    requires
        scaled(source_width, source_height, target_width) <= u32::MAX,
    ensures
        r == scaled(source_width, source_height, target_width),
{
    let w: u64 = if source_width < 1 { 1 } else { source_width as u64 };
    assert((target_width as int) * (source_height as int) <= 0xffff_ffff_ffff_ffff) by (nonlinear_arith)
        requires
            target_width <= 0xffff_ffff,
            source_height <= 0xffff_ffff,
    ;
    let h = (target_width as u64) * (source_height as u64) / w;
    if h < 1 {
        1
    } else {
        h as u32
    }
}

/// A scaled height is never zero.
pub proof fn law_a_scaled_height_is_never_zero(source_width: u32, source_height: u32, target_width: u32)
    ensures
        scaled(source_width, source_height, target_width) >= 1,
{
}

/// Scaling down never makes an image taller than its source.
pub proof fn law_scaling_down_never_grows_the_height(source_width: u32, source_height: u32, target_width: u32)
    requires
        target_width <= source_width,
        source_height >= 1,
    ensures
        scaled(source_width, source_height, target_width) <= source_height,
{
    let w = if source_width < 1 { 1 } else { source_width as int };
    assert((target_width as int * source_height as int) / w <= source_height as int) by (nonlinear_arith)
        requires
            0 <= target_width <= w,
            w >= 1,
            source_height >= 0,
    {
        assert(target_width as int * source_height as int <= w * source_height as int);
        vstd::arithmetic::div_mod::lemma_div_is_ordered(target_width as int * source_height as int, w * source_height as int, w);
        vstd::arithmetic::div_mod::lemma_div_by_multiple(source_height as int, w);
    }
}

} // verus!
