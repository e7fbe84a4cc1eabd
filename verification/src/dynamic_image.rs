//! Runtime image optimization for public images: which requests are served,
//! how the output is keyed, and the bounded, least-recently-used cache of
//! encoded results.

use std::sync::Arc;

use vstd::prelude::*;

use image::DynamicImage;

use crate::image_codec::image_size;
use crate::static_assets::{blake3_hex, blake3_hex_digest, lower_extension, safe_relative_path};
use crate::text::{contains_char, has_char, str_chars, starts_with};

verus! {

broadcast use vstd::string::group_string_axioms;

/// Largest source file, in bytes, that is decoded.
pub const MAX_SOURCE_BYTES: u64 = 20971520;

/// Largest source image, in pixels, that is decoded.
pub const MAX_SOURCE_PIXELS: u64 = 50000000;

/// Most encoded images the cache keeps.
pub const MAX_CACHE_ENTRIES: usize = 128;

/// Most encoded bytes the cache keeps, in all.
pub const MAX_CACHE_BYTES: usize = 67108864;

/// Widest output ever produced, whatever the configuration allows.
pub const MAX_OUTPUT_WIDTH: u32 = 8192;

/// The `images.dynamic` configuration.
#[derive(Debug, Clone, Copy)]
pub struct DynamicImageConfig {
    pub enabled: bool,
    pub max_width: u32,
    pub default_quality: u8,
}

impl Default for DynamicImageConfig {
    fn default() -> (r: DynamicImageConfig)
        ensures
            !r.enabled,
            r.max_width == 3840,
            r.default_quality == 82,
    {
        DynamicImageConfig { enabled: false, max_width: 3840, default_quality: 82 }
    }
}

/// Why an image request is not answered with an optimized image.
#[derive(Debug, Clone, Copy, PartialEq, Eq)]
pub enum DynamicImageError {
    InvalidRequest(&'static str),
    NotFound,
    TooLarge,
    Decode,
}

/// What the checks make of a request: the public path of its source, or why
/// it is refused, by the refusal's message where it has one.
pub enum RequestVerdict {
    Source(Seq<char>),
    Invalid(Seq<char>),
    NotFound,
}

pub open spec fn image_request(config: DynamicImageConfig, src: Seq<char>, width: u32) -> RequestVerdict {
    let limit = if config.max_width < MAX_OUTPUT_WIDTH {
        config.max_width
    } else {
        MAX_OUTPUT_WIDTH
    };
    let relative = src.subrange(1, src.len() as int);
    if !config.enabled {
        RequestVerdict::NotFound
    } else if width < 16 || width > limit {
        RequestVerdict::Invalid("invalid image width"@)
    } else if !(starts_with(src, "/"@) && !starts_with(src, "//"@) && safe_relative_path(relative)) {
        RequestVerdict::Invalid("image src must be a root-relative public path"@)
    } else if contains_char(src, '?') || contains_char(src, '#') {
        RequestVerdict::Invalid("image src must not contain a query or fragment"@)
    } else {
        RequestVerdict::Source(relative)
    }
}

/// A request is served only when the feature is on, the width is from 16 up
/// to both the configured maximum and 8192, and `src` is `/` followed by a
/// safe public path without a query or fragment, which names the source;
/// with the feature off every request is unknown, and a width out of range is
/// refused as such.
pub proof fn law_only_well_formed_requests_are_served(config: DynamicImageConfig, src: Seq<char>, width: u32)
    ensures
        image_request(config, src, width) matches RequestVerdict::Source(relative) ==> {
            &&& config.enabled
            &&& 16 <= width
            &&& width <= config.max_width
            &&& width <= 8192
            &&& src == seq!['/'] + relative
            &&& safe_relative_path(relative)
            &&& !contains_char(relative, '?') && !contains_char(relative, '#')
        },
        !config.enabled ==> image_request(config, src, width) is NotFound,
        config.enabled && (width < 16 || width > config.max_width || width > 8192) ==> image_request(
            config,
            src,
            width,
        ) == RequestVerdict::Invalid("invalid image width"@),
{
    reveal_strlit("/");
    if image_request(config, src, width) is Source {
        let relative = src.subrange(1, src.len() as int);
        assert(src[0] == '/') by {
            assert(src.subrange(0, 1)[0] == src[0]);
        }
        assert(src =~= seq!['/'] + relative);
        if contains_char(relative, '?') {
            let k = choose|k: int| 0 <= k < relative.len() && relative[k] == '?';
            assert(src[k + 1] == '?');
        }
        if contains_char(relative, '#') {
            let k = choose|k: int| 0 <= k < relative.len() && relative[k] == '#';
            assert(src[k + 1] == '#');
        }
    }
}

pub open spec fn verdict_of(r: Result<String, DynamicImageError>) -> RequestVerdict {
    match r {
        Ok(path) => RequestVerdict::Source(path@),
        Err(DynamicImageError::InvalidRequest(message)) => RequestVerdict::Invalid(message@),
        Err(_) => RequestVerdict::NotFound,
    }
}

/// Checks an optimization request before any file is touched, and gives the
/// source's path inside the public directory: the feature must be on, the
/// width within 16 and the configured maximum (never above 8192), and `src` a
/// root-relative public path with no query or fragment.
pub fn image_request_path(config: &DynamicImageConfig, src: &str, width: u32) -> (r: Result<
    String,
    DynamicImageError,
>)
    ensures
        verdict_of(r) == image_request(*config, src@, width),
        r matches Err(e) ==> e is InvalidRequest || e is NotFound,
{
    proof {
        reveal_strlit("/");
        reveal_strlit("//");
    }
    if !config.enabled {
        return Err(DynamicImageError::NotFound);
    }
    let limit = if config.max_width < MAX_OUTPUT_WIDTH {
        config.max_width
    } else {
        MAX_OUTPUT_WIDTH
    };
    if width < 16 || width > limit {
        return Err(DynamicImageError::InvalidRequest("invalid image width"));
    }
    let v = str_chars(src);
    let rooted = v.len() >= 1 && v[0] == '/';
    let doubled = v.len() >= 2 && v[0] == '/' && v[1] == '/';
    proof {
        assert(rooted == starts_with(src@, "/"@)) by {
            if v.len() >= 1 {
                assert(src@.subrange(0, 1)[0] == v@[0]);
                if v[0] == '/' {
                    assert(src@.subrange(0, 1) =~= "/"@);
                }
            }
        }
        assert(doubled == starts_with(src@, "//"@)) by {
            if v.len() >= 2 {
                assert(src@.subrange(0, 2)[0] == v@[0]);
                assert(src@.subrange(0, 2)[1] == v@[1]);
                if v[0] == '/' && v[1] == '/' {
                    assert(src@.subrange(0, 2) =~= "//"@);
                }
            }
        }
    }
    if !rooted || doubled {
        return Err(DynamicImageError::InvalidRequest("image src must be a root-relative public path"));
    }
    let relative = crate::text::chars_to_string(&v, 1, v.len());
    if !crate::static_assets::is_safe_relative_path(relative.as_str()) {
        return Err(DynamicImageError::InvalidRequest("image src must be a root-relative public path"));
    }
    if has_char(v.as_slice(), '?') || has_char(v.as_slice(), '#') {
        return Err(DynamicImageError::InvalidRequest("image src must not contain a query or fragment"));
    }
    Ok(relative)
}

/// A source of one of the formats optimized at runtime, no larger than the
/// source limit.
pub open spec fn source_check(file: Seq<char>, len: u64) -> Result<(), DynamicImageError> {
    match lower_extension(file) {
        Some(e) => if !(e == "png"@ || e == "jpg"@ || e == "jpeg"@ || e == "webp"@) {
            Err(DynamicImageError::InvalidRequest("runtime optimization supports PNG, JPEG, and WebP"))
        } else if len > MAX_SOURCE_BYTES {
            Err(DynamicImageError::TooLarge)
        } else {
            Ok(())
        },
        None => Err(DynamicImageError::InvalidRequest("runtime optimization supports PNG, JPEG, and WebP")),
    }
}

/// The formats optimized at runtime are PNG, JPEG (as `jpg` or `jpeg`) and
/// WebP, in any case: a source of one of them within the size limit is
/// accepted, a larger one is refused as too large, and a source of any other
/// extension, or none, is refused as a request the optimizer does not serve.
pub proof fn law_png_jpeg_and_webp_sources_are_accepted(file: Seq<char>, len: u64)
    ensures
        ({
            let ext = lower_extension(file);
            let known = ext == Some("png"@) || ext == Some("jpg"@) || ext == Some("jpeg"@) || ext == Some(
                "webp"@,
            );
            &&& known && len <= MAX_SOURCE_BYTES ==> source_check(file, len) == Ok::<(), DynamicImageError>(())
            &&& known && len > MAX_SOURCE_BYTES ==> source_check(file, len) == Err::<(), DynamicImageError>(
                DynamicImageError::TooLarge,
            )
            &&& !known ==> source_check(file, len) == Err::<(), DynamicImageError>(
                DynamicImageError::InvalidRequest("runtime optimization supports PNG, JPEG, and WebP"),
            )
        }),
{
}

/// The quality used is always within 1..=100: a requested quality in that
/// range is used as it is, an unset one falls back to the configured
/// default, and anything outside is clamped to the nearer bound.
pub proof fn law_the_quality_is_kept_within_range(quality: Option<u8>, default_quality: u8)
    ensures
        1 <= quality_for(quality, default_quality) <= 100,
        quality is Some && 1 <= quality->Some_0 <= 100 ==> quality_for(quality, default_quality)
            == quality->Some_0,
        quality is None ==> quality_for(quality, default_quality) == quality_for(Some(default_quality), 0),
        quality is Some && quality->Some_0 > 100 ==> quality_for(quality, default_quality) == 100,
        quality == Some(0u8) ==> quality_for(quality, default_quality) == 1,
{
}

/// An image is never widened: the width encoded is the request's, capped at
/// the source's width and at least one pixel; a source with more pixels than
/// are ever decoded is refused as too large, and only then.
pub proof fn law_an_image_is_never_widened(width: u32, source_width: u32, source_height: u32)
    ensures
        fitted_width(width, source_width, source_height) is Err <==> source_width * source_height
            > MAX_SOURCE_PIXELS,
        fitted_width(width, source_width, source_height) is Err ==> fitted_width(
            width,
            source_width,
            source_height,
        ) == Err::<u32, DynamicImageError>(DynamicImageError::TooLarge),
        fitted_width(width, source_width, source_height) matches Ok(t) ==> 1 <= t && (t <= width
            || t == 1) && (t <= source_width || t == 1) && (t == width || t == source_width || t == 1),
{
}

/// Checks the resolved source file, by its path and its length in bytes.
pub fn check_source(file: &str, len: u64) -> (r: Result<(), DynamicImageError>)
    ensures
        r == source_check(file@, len),
{
    let ext = crate::static_assets::lowered_extension(file);
    let known = match &ext {
        Some(e) => crate::static_assets::is(e, "png") || crate::static_assets::is(e, "jpg")
            || crate::static_assets::is(e, "jpeg") || crate::static_assets::is(e, "webp"),
        None => false,
    };
    if !known {
        return Err(DynamicImageError::InvalidRequest("runtime optimization supports PNG, JPEG, and WebP"));
    }
    if len > MAX_SOURCE_BYTES {
        return Err(DynamicImageError::TooLarge);
    }
    Ok(())
}

/// The requested quality, or the configured default, kept within 1..=100.
pub open spec fn quality_for(quality: Option<u8>, default_quality: u8) -> u8 {
    let q = match quality {
        Some(q) => q,
        None => default_quality,
    };
    if q < 1 {
        1
    } else if q > 100 {
        100
    } else {
        q
    }
}

pub fn effective_quality(quality: Option<u8>, default_quality: u8) -> (r: u8)
    ensures
        r == quality_for(quality, default_quality),
        1 <= r <= 100,
{
    let q = match quality {
        Some(q) => q,
        None => default_quality,
    };
    if q < 1 {
        1
    } else if q > 100 {
        100
    } else {
        q
    }
}

/// `u32::to_le_bytes`.
pub open spec fn le_bytes(w: u32) -> Seq<u8> {
    seq![
        (w % 256) as u8,
        ((w / 256) % 256) as u8,
        ((w / 65536) % 256) as u8,
        (w / 16777216) as u8,
    ]
}

/// What an optimized image is cached under: the BLAKE3 hash, in lowercase
/// hexadecimal, of the source bytes followed by the width in little-endian
/// order and the quality.
pub open spec fn cache_key(source: Seq<u8>, width: u32, quality: u8) -> Seq<char> {
    blake3_hex_digest(source + le_bytes(width) + seq![quality])
}

pub fn image_cache_key(source: &[u8], width: u32, quality: u8) -> (r: String)
    ensures
        r@ == cache_key(source@, width, quality),
{
    let mut input: Vec<u8> = Vec::new();
    let mut i: usize = 0;
    while i < source.len()
        invariant
            i <= source.len(),
            input@ == source@.subrange(0, i as int),
        decreases source.len() - i,
    {
        input.push(source[i]);
        i += 1;
        assert(input@ =~= source@.subrange(0, i as int));
    }
    input.push((width % 256) as u8);
    input.push(((width / 256) % 256) as u8);
    input.push(((width / 65536) % 256) as u8);
    input.push((width / 16777216) as u8);
    input.push(quality);
    assert(input@ =~= source@ + le_bytes(width) + seq![quality]);
    blake3_hex(input.as_slice())
}

/// The width to encode at: the requested width, no wider than the source,
/// and at least one pixel; refused when the source has more pixels than are
/// ever decoded.
pub open spec fn fitted_width(width: u32, source_width: u32, source_height: u32) -> Result<u32, DynamicImageError> {
    if source_width * source_height > MAX_SOURCE_PIXELS {
        Err(DynamicImageError::TooLarge)
    } else {
        let w = if width < source_width {
            width
        } else {
            source_width
        };
        Ok(if w < 1 { 1 } else { w })
    }
}

pub fn fit_width(width: u32, source_width: u32, source_height: u32) -> (r: Result<u32, DynamicImageError>)
    ensures
        r == fitted_width(width, source_width, source_height),
{
    assert((source_width as int) * (source_height as int) <= 0xffff_ffff_ffff_ffff) by (nonlinear_arith)
        requires
            source_width <= 0xffff_ffff,
            source_height <= 0xffff_ffff,
    ;
    let pixels = (source_width as u64) * (source_height as u64);
    if pixels > MAX_SOURCE_PIXELS {
        return Err(DynamicImageError::TooLarge);
    }
    let w = if width < source_width {
        width
    } else {
        source_width
    };
    Ok(if w < 1 { 1 } else { w })
}

/// What `image::load_from_memory` makes of these bytes: the decoded image's
/// width and height, or `None` where it cannot decode them.
pub uninterp spec fn decoded_size(bytes: Seq<u8>) -> Option<(u32, u32)>;

/// Calls `image::load_from_memory` and reads the decoded image's
/// dimensions. What it decodes depends on the bytes alone; which bytes it
/// accepts is the crate's decoders' business, left unstated here.
#[verifier::external_body]
fn decode_image(bytes: &[u8]) -> (r: Option<(DynamicImage, u32, u32)>)
    ensures
        match r {
            Some(t) => decoded_size(bytes@) == Some((t.1, t.2)) && image_size(t.0) == (t.1, t.2),
            None => decoded_size(bytes@) is None,
        },
{
    match image::load_from_memory(bytes) {
        Ok(decoded) => {
            let (width, height) = image::GenericImageView::dimensions(&decoded);
            Some((decoded, width, height))
        },
        Err(_) => None,
    }
}

/// The size `DynamicImage::resize` gives an image of `width` x `height`
/// asked to fit within `bound_width` x `bound_height`.
pub uninterp spec fn resize_fit(width: u32, height: u32, bound_width: u32, bound_height: u32) -> (u32, u32);

/// A height that keeps the aspect ratio of `source_width` x `source_height`
/// at `width`: the exact height rounded down or up, at least one pixel and
/// no taller than the source.
pub open spec fn keeps_aspect(source_width: u32, source_height: u32, width: u32, height: u32) -> bool {
    let exact = (source_height as int * width as int) / source_width as int;
    &&& 1 <= height <= source_height
    &&& exact <= height <= exact + 1
}

/// Calls `DynamicImage::resize` with the Lanczos3 filter: the image scaled
/// to the largest size that fits within `width` x `height`, keeping its
/// aspect ratio. Its size comes from the source size and the bounds alone,
/// computed in `f64` and rounded to the nearest pixel; so narrowing to a
/// smaller width at the same height gives exactly that width and a height
/// within one pixel of the exact one. Which pixels the filter computes is not
/// stated.
#[verifier::external_body]
fn resize_lanczos3(decoded: &DynamicImage, width: u32, height: u32) -> (r: DynamicImage)
    ensures
        image_size(r) == resize_fit(image_size(*decoded).0, image_size(*decoded).1, width, height),
        (1 <= width < image_size(*decoded).0 && 1 <= height && height == image_size(*decoded).1)
            ==> image_size(r).0 == width && keeps_aspect(
            image_size(*decoded).0,
            image_size(*decoded).1,
            width,
            image_size(r).1,
        ),
{
    decoded.resize(width, height, image::imageops::FilterType::Lanczos3)
}

/// The source decoded and resized to the width the request gets: refused
/// as undecodable, or as too large when it has more pixels than are ever
/// decoded; kept as decoded when it is already that wide, else narrowed to
/// that width at the height that keeps its aspect ratio.
pub fn decode_for_width(source: &[u8], width: u32) -> (r: Result<DynamicImage, DynamicImageError>)
    ensures
        match decoded_size(source@) {
            None => r == Err::<DynamicImage, DynamicImageError>(DynamicImageError::Decode),
            Some(size) => match fitted_width(width, size.0, size.1) {
                Err(e) => r == Err::<DynamicImage, DynamicImageError>(e),
                Ok(w) => r matches Ok(img) && (w == size.0 ==> image_size(img) == size) && (w
                    != size.0 ==> image_size(img) == resize_fit(size.0, size.1, w, size.1)) && (1
                    <= size.0 && 1 <= size.1 ==> image_size(img).0 == w && keeps_aspect(
                    size.0,
                    size.1,
                    w,
                    image_size(img).1,
                )),
            },
        },
{
    let (decoded, source_width, source_height) = match decode_image(source) {
        Some(t) => t,
        None => return Err(DynamicImageError::Decode),
    };
    let target_width = fit_width(width, source_width, source_height)?;
    if target_width == source_width {
        proof {
            if source_height >= 1 {
                assert((source_height as int * source_width as int) / source_width as int
                    == source_height) by (nonlinear_arith)
                    requires
                        source_width >= 1,
                ;
            }
        }
        Ok(decoded)
    } else {
        Ok(resize_lanczos3(&decoded, target_width, source_height))
    }
}

// ─── The cache of encoded images ─────────────────────────────────────────────

/// `Arc::clone`: another handle on the same bytes.
#[verifier::external_body]
fn share(bytes: &Arc<Vec<u8>>) -> (r: Arc<Vec<u8>>)
    ensures
        r == *bytes,
{
    Arc::clone(bytes)
}

/// One cached image.
pub struct CachedImage {
    pub key: String,
    pub bytes: Arc<Vec<u8>>,
}

pub ghost struct CachedImageView {
    pub key: Seq<char>,
    pub bytes: Seq<u8>,
}

impl View for CachedImage {
    type V = CachedImageView;

    open spec fn view(&self) -> CachedImageView {
        CachedImageView { key: self.key@, bytes: self.bytes@ }
    }
}

/// The bytes all of `entries` hold.
pub open spec fn total_bytes(entries: Seq<CachedImageView>) -> nat
    decreases entries.len(),
{
    if entries.len() == 0 {
        0
    } else {
        total_bytes(entries.drop_last()) + entries.last().bytes.len()
    }
}

/// Where `key` stands in `entries`.
pub open spec fn image_position(entries: Seq<CachedImageView>, key: Seq<char>) -> Option<int> {
    if exists|i: int| 0 <= i < entries.len() && (#[trigger] entries[i]).key == key {
        Some(choose|i: int| 0 <= i < entries.len() && (#[trigger] entries[i]).key == key)
    } else {
        None
    }
}

/// No key twice, and within both limits.
pub open spec fn image_cache_wf(entries: Seq<CachedImageView>) -> bool {
    &&& entries.len() <= MAX_CACHE_ENTRIES
    &&& total_bytes(entries) <= MAX_CACHE_BYTES
    &&& forall|i: int, j: int|
        0 <= i < j < entries.len() ==> (#[trigger] entries[i]).key != (#[trigger] entries[j]).key
}

/// `entries` after dropping the least recently used until both limits hold.
pub open spec fn evict(entries: Seq<CachedImageView>) -> Seq<CachedImageView>
    decreases entries.len(),
{
    if entries.len() > 0 && (entries.len() > MAX_CACHE_ENTRIES || total_bytes(entries)
        > MAX_CACHE_BYTES) {
        evict(entries.drop_first())
    } else {
        entries
    }
}

/// `entries` with `key` taken out, wherever it stands.
pub open spec fn without(entries: Seq<CachedImageView>, key: Seq<char>) -> Seq<CachedImageView> {
    match image_position(entries, key) {
        Some(i) => entries.remove(i),
        None => entries,
    }
}

/// The cache after inserting `bytes` under `key`: the newest entry, unless
/// the bytes alone exceed the cache.
pub open spec fn inserted(entries: Seq<CachedImageView>, key: Seq<char>, bytes: Seq<u8>) -> Seq<
    CachedImageView,
> {
    if bytes.len() > MAX_CACHE_BYTES {
        entries
    } else {
        evict(without(entries, key).push(CachedImageView { key, bytes }))
    }
}

/// The cache after a hit on `key`: the entry becomes the most recently used.
pub open spec fn touched(entries: Seq<CachedImageView>, key: Seq<char>) -> Seq<CachedImageView> {
    match image_position(entries, key) {
        Some(i) => entries.remove(i).push(entries[i]),
        None => entries,
    }
}

proof fn lemma_total_push(entries: Seq<CachedImageView>, e: CachedImageView)
    ensures
        total_bytes(entries.push(e)) == total_bytes(entries) + e.bytes.len(),
{
    assert(entries.push(e).drop_last() =~= entries);
}

proof fn lemma_total_drop_first(entries: Seq<CachedImageView>)
    requires
        entries.len() > 0,
    ensures
        total_bytes(entries) == entries[0].bytes.len() + total_bytes(entries.drop_first()),
    decreases entries.len(),
{
    if entries.len() > 1 {
        lemma_total_drop_first(entries.drop_last());
        assert(entries.drop_last().drop_first() =~= entries.drop_first().drop_last());
        assert(entries.drop_first().last() == entries.last());
        assert(entries.drop_last()[0] == entries[0]);
    } else {
        assert(entries.drop_first() =~= Seq::<CachedImageView>::empty());
        assert(entries.drop_last() =~= Seq::<CachedImageView>::empty());
        assert(entries.last() == entries[0]);
    }
}

proof fn lemma_total_remove(entries: Seq<CachedImageView>, i: int)
    requires
        0 <= i < entries.len(),
    ensures
        total_bytes(entries) == entries[i].bytes.len() + total_bytes(entries.remove(i)),
    decreases entries.len(),
{
    if i == entries.len() - 1 {
        assert(entries.remove(i) =~= entries.drop_last());
    } else {
        lemma_total_remove(entries.drop_last(), i);
        assert(entries.remove(i).drop_last() =~= entries.drop_last().remove(i));
        assert(entries.remove(i).last() == entries.last());
    }
}

proof fn lemma_position(entries: Seq<CachedImageView>, key: Seq<char>, i: int)
    requires
        forall|a: int, b: int|
            0 <= a < b < entries.len() ==> (#[trigger] entries[a]).key != (#[trigger] entries[b]).key,
        0 <= i < entries.len(),
        entries[i].key == key,
    ensures
        image_position(entries, key) == Some(i),
{
    let c = choose|k: int| 0 <= k < entries.len() && (#[trigger] entries[k]).key == key;
    assert(entries[i].key == key);
    if c < i {
        assert(entries[c].key != entries[i].key);
    } else if c > i {
        assert(entries[i].key != entries[c].key);
    }
}

proof fn lemma_absent(entries: Seq<CachedImageView>, key: Seq<char>)
    requires
        image_position(entries, key) is None,
    ensures
        forall|k: int| 0 <= k < entries.len() ==> (#[trigger] entries[k]).key != key,
{
    assert forall|k: int| 0 <= k < entries.len() implies (#[trigger] entries[k]).key != key by {
        if entries[k].key == key {
            assert(exists|j: int| 0 <= j < entries.len() && (#[trigger] entries[j]).key == key);
        }
    }
}

/// Encoded images keyed by source, width and quality, at most
/// `MAX_CACHE_ENTRIES` of them and `MAX_CACHE_BYTES` in all; the least
/// recently used give way first.
pub struct DynamicImageCache {
    entries: Vec<CachedImage>,
    bytes: usize,
}

impl DynamicImageCache {
    pub closed spec fn view(&self) -> Seq<CachedImageView> {
        self.entries@.map_values(|e: CachedImage| e@)
    }

    pub closed spec fn wf(&self) -> bool {
        &&& image_cache_wf(self.view())
        &&& self.bytes == total_bytes(self.view())
    }

    pub fn new() -> (r: DynamicImageCache)
        ensures
            r.wf(),
            r.view() == Seq::<CachedImageView>::empty(),
    {
        let r = DynamicImageCache { entries: Vec::new(), bytes: 0 };
        assert(r.view() =~= Seq::<CachedImageView>::empty());
        r
    }

    fn find(&self, key: &str) -> (r: Option<usize>)
        requires
            self.wf(),
        ensures
            match r {
                Some(i) => image_position(self.view(), key@) == Some(i as int),
                None => image_position(self.view(), key@) is None,
            },
    {
        let ghost v = self.view();
        let target = str_chars(key);
        let mut i: usize = 0;
        while i < self.entries.len()
            invariant
                i <= self.entries.len(),
                v == self.view(),
                image_cache_wf(v),
                v.len() == self.entries.len(),
                target@ == key@,
                forall|k: int| 0 <= k < i ==> (#[trigger] v[k]).key != key@,
            decreases self.entries.len() - i,
        {
            if crate::text::chars_eq(str_chars(self.entries[i].key.as_str()).as_slice(), target.as_slice()) {
                assert(v[i as int].key == key@);
                proof {
                    lemma_position(v, key@, i as int);
                }
                return Some(i);
            }
            i += 1;
        }
        None
    }

    /// The image cached under `key`, which becomes the most recently used.
    pub fn get(&mut self, key: &str) -> (r: Option<Arc<Vec<u8>>>)
        requires
            old(self).wf(),
        ensures
            final(self).wf(),
            final(self).view() == touched(old(self).view(), key@),
            match image_position(old(self).view(), key@) {
                Some(i) => r matches Some(b) && b@ == old(self).view()[i].bytes,
                None => r is None,
            },
    {
        let ghost before = self.view();
        match self.find(key) {
            None => None,
            Some(i) => {
                let entry = self.entries.remove(i);
                let value = share(&entry.bytes);
                self.entries.push(entry);
                proof {
                    assert(self.view() =~= before.remove(i as int).push(before[i as int]));
                    lemma_total_remove(before, i as int);
                    lemma_total_push(before.remove(i as int), before[i as int]);
                    let after = self.view();
                    assert forall|a: int, b: int|
                        0 <= a < b < after.len() implies (#[trigger] after[a]).key != (
                        #[trigger] after[b]).key by {
                        let sa = if a < i { a } else { a + 1 };
                        let sb = if b == after.len() - 1 { i as int } else if b < i { b } else { b + 1 };
                        assert(after[a] == before[sa]);
                        assert(after[b] == before[sb]);
                        if sa < sb {
                            assert(before[sa].key != before[sb].key);
                        } else {
                            assert(before[sb].key != before[sa].key);
                        }
                    }
                }
                Some(value)
            },
        }
    }

    /// Caches `value` under `key` as the most recently used image, dropping
    /// the least recently used until the cache is within both limits; an
    /// image larger than the whole cache is not kept. Gives `value` back.
    pub fn insert(&mut self, key: String, value: Arc<Vec<u8>>) -> (r: Arc<Vec<u8>>)
        requires
            old(self).wf(),
        ensures
            final(self).wf(),
            final(self).view() == inserted(old(self).view(), key@, value@),
            r == value,
    {
        if value.len() > MAX_CACHE_BYTES {
            return value;
        }
        let ghost before = self.view();
        let ghost k = key@;
        match self.find(key.as_str()) {
            Some(i) => {
                let previous = self.entries.remove(i);
                proof {
                    lemma_total_remove(before, i as int);
                }
                self.bytes = self.bytes - previous.bytes.len();
                assert(self.view() =~= before.remove(i as int));
            },
            None => {},
        }
        let ghost removed = self.view();
        proof {
            assert(removed == without(before, k));
            let after = removed;
            assert forall|a: int, b: int|
                0 <= a < b < after.len() implies (#[trigger] after[a]).key != (#[trigger] after[b]).key by {
                if let Some(i) = image_position(before, k) {
                    let sa = if a < i { a } else { a + 1 };
                    let sb = if b < i { b } else { b + 1 };
                    assert(after[a] == before[sa]);
                    assert(after[b] == before[sb]);
                }
            }
            assert forall|j: int| 0 <= j < after.len() implies (#[trigger] after[j]).key != k by {
                if let Some(i) = image_position(before, k) {
                    let sj = if j < i { j } else { j + 1 };
                    assert(after[j] == before[sj]);
                    if before[sj].key == k {
                        lemma_position(before, k, sj);
                    }
                } else {
                    lemma_absent(before, k);
                }
            }
            lemma_total_push(removed, CachedImageView { key: k, bytes: value@ });
        }
        self.bytes = self.bytes + value.len();
        let shared = share(&value);
        self.entries.push(CachedImage { key, bytes: shared });
        assert(self.view() =~= removed.push(CachedImageView { key: k, bytes: value@ }));
        let ghost pushed = self.view();
        while self.entries.len() > MAX_CACHE_ENTRIES || self.bytes > MAX_CACHE_BYTES
            invariant
                evict(self.view()) == evict(pushed),
                self.bytes == total_bytes(self.view()),
                self.bytes <= 2 * MAX_CACHE_BYTES,
                self.entries.len() <= MAX_CACHE_ENTRIES + 1,
                forall|a: int, b: int|
                    0 <= a < b < self.view().len() ==> (#[trigger] self.view()[a]).key != (
                    #[trigger] self.view()[b]).key,
            decreases self.entries.len(),
        {
            proof {
                if self.view().len() == 0 {
                    assert(total_bytes(self.view()) == 0);
                }
            }
            let ghost current = self.view();
            let oldest = self.entries.remove(0);
            proof {
                lemma_total_drop_first(current);
                assert(self.view() =~= current.drop_first());
            }
            self.bytes = self.bytes - oldest.bytes.len();
        }
        assert(evict(self.view()) == self.view());
        value
    }
}

pub open spec fn distinct_keys(entries: Seq<CachedImageView>) -> bool {
    forall|i: int, j: int|
        0 <= i < j < entries.len() ==> (#[trigger] entries[i]).key != (#[trigger] entries[j]).key
}

proof fn lemma_total_one(entries: Seq<CachedImageView>)
    requires
        entries.len() == 1,
    ensures
        total_bytes(entries) == entries[0].bytes.len(),
{
    assert(entries.drop_last() =~= Seq::<CachedImageView>::empty());
    assert(total_bytes(entries.drop_last()) == 0);
    assert(entries.last() == entries[0]);
}

proof fn lemma_evict(s: Seq<CachedImageView>)
    requires
        distinct_keys(s),
    ensures
        image_cache_wf(evict(s)),
        s.len() > 0 && s.last().bytes.len() <= MAX_CACHE_BYTES ==> evict(s).len() > 0 && evict(
            s,
        ).last() == s.last(),
    decreases s.len(),
{
    if s.len() > 0 && (s.len() > MAX_CACHE_ENTRIES || total_bytes(s) > MAX_CACHE_BYTES) {
        let t = s.drop_first();
        assert(distinct_keys(t)) by {
            assert forall|i: int, j: int| 0 <= i < j < t.len() implies (#[trigger] t[i]).key != (
            #[trigger] t[j]).key by {
                assert(t[i] == s[i + 1] && t[j] == s[j + 1]);
            }
        }
        lemma_evict(t);
        if s.len() == 1 && s.last().bytes.len() <= MAX_CACHE_BYTES {
            lemma_total_one(s);
            assert(s.last() == s[0]);
        }
        if s.len() > 1 {
            assert(t.last() == s.last());
        }
    } else if s.len() == 0 {
        assert(total_bytes(s) == 0);
    }
}

proof fn lemma_without(e: Seq<CachedImageView>, k: Seq<char>)
    requires
        distinct_keys(e),
    ensures
        distinct_keys(without(e, k)),
        forall|j: int| 0 <= j < without(e, k).len() ==> (#[trigger] without(e, k)[j]).key != k,
        forall|j: int|
            0 <= j < without(e, k).len() ==> e.contains(#[trigger] without(e, k)[j]),
{
    let w = without(e, k);
    if let Some(i) = image_position(e, k) {
        assert forall|a: int, b: int| 0 <= a < b < w.len() implies (#[trigger] w[a]).key != (
        #[trigger] w[b]).key by {
            let sa = if a < i { a } else { a + 1 };
            let sb = if b < i { b } else { b + 1 };
            assert(w[a] == e[sa]);
            assert(w[b] == e[sb]);
        }
        assert forall|j: int| 0 <= j < w.len() implies (#[trigger] w[j]).key != k && e.contains(
            w[j],
        ) by {
            let sj = if j < i { j } else { j + 1 };
            assert(w[j] == e[sj]);
            if e[sj].key == k {
                lemma_position(e, k, sj);
            }
        }
    } else {
        lemma_absent(e, k);
        assert forall|j: int| 0 <= j < w.len() implies e.contains(#[trigger] w[j]) by {
            assert(w[j] == e[j]);
        }
    }
}

/// The cache never holds more than `MAX_CACHE_ENTRIES` images or
/// `MAX_CACHE_BYTES` bytes, nor one key twice, whatever is inserted or hit.
pub proof fn law_the_image_cache_stays_within_its_limits(
    entries: Seq<CachedImageView>,
    key: Seq<char>,
    bytes: Seq<u8>,
)
    requires
        image_cache_wf(entries),
    ensures
        image_cache_wf(inserted(entries, key, bytes)),
        image_cache_wf(touched(entries, key)),
{
    if bytes.len() <= MAX_CACHE_BYTES {
        lemma_without(entries, key);
        let w = without(entries, key);
        let p = w.push(CachedImageView { key, bytes });
        assert(distinct_keys(p)) by {
            assert forall|a: int, b: int| 0 <= a < b < p.len() implies (#[trigger] p[a]).key != (
            #[trigger] p[b]).key by {
                assert(p[a] == w[a]);
                if b < w.len() {
                    assert(p[b] == w[b]);
                }
            }
        }
        lemma_evict(p);
    }
    if let Some(i) = image_position(entries, key) {
        let t = touched(entries, key);
        lemma_total_remove(entries, i);
        lemma_total_push(entries.remove(i), entries[i]);
        assert forall|a: int, b: int| 0 <= a < b < t.len() implies (#[trigger] t[a]).key != (
        #[trigger] t[b]).key by {
            let sa = if a < i { a } else { a + 1 };
            let sb = if b == t.len() - 1 { i } else if b < i { b } else { b + 1 };
            assert(t[a] == entries[sa]);
            assert(t[b] == entries[sb]);
            if sa < sb {
                assert(entries[sa].key != entries[sb].key);
            } else {
                assert(entries[sb].key != entries[sa].key);
            }
        }
    }
}

/// An image no larger than the cache is found under its key right after it
/// is inserted, whatever the cache held before.
pub proof fn law_an_inserted_image_is_found(entries: Seq<CachedImageView>, key: Seq<char>, bytes: Seq<u8>)
    requires
        image_cache_wf(entries),
        bytes.len() <= MAX_CACHE_BYTES,
    ensures
        image_position(inserted(entries, key, bytes), key) matches Some(i) && inserted(
            entries,
            key,
            bytes,
        )[i].bytes == bytes,
{
    lemma_without(entries, key);
    let w = without(entries, key);
    let p = w.push(CachedImageView { key, bytes });
    assert(distinct_keys(p)) by {
        assert forall|a: int, b: int| 0 <= a < b < p.len() implies (#[trigger] p[a]).key != (
        #[trigger] p[b]).key by {
            assert(p[a] == w[a]);
            if b < w.len() {
                assert(p[b] == w[b]);
            }
        }
    }
    lemma_evict(p);
    let r = evict(p);
    assert(r.last() == p.last());
    lemma_position(r, key, r.len() - 1);
}

/// An image larger than the whole cache is never kept.
pub proof fn law_an_oversized_image_is_not_kept(entries: Seq<CachedImageView>, key: Seq<char>, bytes: Seq<u8>)
    requires
        bytes.len() > MAX_CACHE_BYTES,
    ensures
        inserted(entries, key, bytes) == entries,
{
}

/// A hit changes only the order of the cache, never what it holds.
pub proof fn law_a_hit_keeps_the_cached_images(entries: Seq<CachedImageView>, key: Seq<char>)
    ensures
        touched(entries, key).len() == entries.len(),
        forall|x: CachedImageView| touched(entries, key).contains(x) <==> entries.contains(x),
{
    if let Some(i) = image_position(entries, key) {
        let t = touched(entries, key);
        assert forall|x: CachedImageView| t.contains(x) <==> entries.contains(x) by {
            if t.contains(x) {
                let j = choose|j: int| 0 <= j < t.len() && t[j] == x;
                let sj = if j == t.len() - 1 { i } else if j < i { j } else { j + 1 };
                assert(t[j] == entries[sj]);
            }
            if entries.contains(x) {
                let j = choose|j: int| 0 <= j < entries.len() && entries[j] == x;
                let tj = if j == i { t.len() - 1 } else if j < i { j } else { j - 1 };
                assert(t[tj] == entries[j]);
            }
        }
    }
}

} // verus!
