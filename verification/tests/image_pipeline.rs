use std::sync::Arc;

use image::{DynamicImage, GenericImageView, ImageBuffer, Rgb, Rgba};
use ruvyxa::dynamic_image::{
    decode_for_width,
    check_source, effective_quality, fit_width, image_cache_key, image_request_path,
    DynamicImageCache, DynamicImageConfig, DynamicImageError, MAX_CACHE_BYTES, MAX_CACHE_ENTRIES,
};
use ruvyxa::image_codec::{
    scaled_height, webp_parameters, ImageCodecError, PixelLayout, Pixels, WebpSettings,
};

#[test]
fn scaled_height_never_returns_zero() {
    assert_eq!(scaled_height(10_000, 1, 16), 1);
    assert_eq!(scaled_height(1000, 500, 640), 320);
}

#[test]
fn scaled_height_treats_a_zero_width_as_one() {
    assert_eq!(scaled_height(0, 3, 4), 12);
}

#[test]
fn borrows_rgb_and_rgba_buffers_without_converting() {
    let rgb = DynamicImage::ImageRgb8(ImageBuffer::from_pixel(4, 3, Rgb([1u8, 2, 3])));
    let pixels = Pixels::from_image(&rgb);
    assert!(matches!(pixels.layout, PixelLayout::Rgb8));
    assert!(std::ptr::eq(pixels.as_slice().as_ptr(), rgb.as_rgb8().unwrap().as_raw().as_ptr()));

    let rgba = DynamicImage::ImageRgba8(ImageBuffer::from_pixel(4, 3, Rgba([1u8, 2, 3, 4])));
    let pixels = Pixels::from_image(&rgba);
    assert!(matches!(pixels.layout, PixelLayout::Rgba8));
    assert!(std::ptr::eq(pixels.as_slice().as_ptr(), rgba.as_rgba8().unwrap().as_raw().as_ptr()));
}

#[test]
fn converts_other_layouts_once_and_keeps_alpha() {
    let luma = DynamicImage::ImageLuma8(ImageBuffer::from_pixel(2, 2, image::Luma([9u8])));
    assert!(matches!(Pixels::from_image(&luma).layout, PixelLayout::Rgb8));

    let luma_alpha =
        DynamicImage::ImageLumaA8(ImageBuffer::from_pixel(2, 2, image::LumaA([9u8, 128])));
    assert!(matches!(Pixels::from_image(&luma_alpha).layout, PixelLayout::Rgba8));
}

#[test]
fn resize_preserves_layout_and_target_size() {
    let source = DynamicImage::ImageRgba8(ImageBuffer::from_pixel(100, 40, Rgba([7u8; 4])));
    let pixels = Pixels::from_image(&source);
    let resized = pixels.resize(50, scaled_height(100, 40, 50)).unwrap();
    assert_eq!((resized.width, resized.height), (50, 20));
    assert!(matches!(resized.layout, PixelLayout::Rgba8));
    assert_eq!(resized.as_slice().len(), 50 * 20 * 4);
}

#[test]
fn a_short_buffer_is_refused_before_resizing() {
    let pixels = Pixels::from_owned(vec![0u8; 10], 4, 4, PixelLayout::Rgb8);
    match pixels.resize(2, 2) {
        Err(ImageCodecError::InvalidBuffer(_)) => {}
        Err(other) => panic!("expected an invalid buffer, got {}", other.message()),
        Ok(_) => panic!("a short buffer must be refused"),
    }
}

#[test]
fn owned_pixels_are_handed_back_as_they_are() {
    let pixels = Pixels::from_owned(vec![1, 2, 3], 1, 1, PixelLayout::Rgb8);
    assert_eq!(pixels.as_slice(), &[1, 2, 3]);
    assert_eq!(PixelLayout::Rgba8.bytes_per_pixel(), 4);
}

#[test]
fn codec_errors_read_as_their_display() {
    assert_eq!(
        ImageCodecError::InvalidBuffer("short".to_string()).message(),
        "invalid pixel buffer: short"
    );
    assert_eq!(ImageCodecError::Resize("x".to_string()).message(), "image resize failed: x");
    assert_eq!(ImageCodecError::Encode("y".to_string()).message(), "WebP encoding failed: y");
}

#[test]
fn webp_settings_are_clamped_into_libwebp_ranges() {
    let p = webp_parameters(WebpSettings { quality: 0, lossless: false, effort: 9 });
    assert_eq!((p.lossless, p.alpha_compression, p.quality, p.method), (0, 1, 1, 6));
    let p = webp_parameters(WebpSettings { quality: 200, lossless: true, effort: 4 });
    assert_eq!((p.lossless, p.alpha_compression, p.quality, p.method), (1, 0, 100, 4));
}

fn enabled() -> DynamicImageConfig {
    DynamicImageConfig { enabled: true, ..Default::default() }
}

#[test]
fn rejects_external_and_traversing_sources_before_io() {
    for source in ["https://example.com/a.png", "/../a.png", "//host/a.png"] {
        assert!(matches!(
            image_request_path(&enabled(), source, 640),
            Err(DynamicImageError::InvalidRequest(_))
        ));
    }
}

#[test]
fn image_requests_are_checked_in_order() {
    assert_eq!(image_request_path(&DynamicImageConfig::default(), "/a.png", 640), Err(DynamicImageError::NotFound));
    assert_eq!(
        image_request_path(&enabled(), "/a.png", 15),
        Err(DynamicImageError::InvalidRequest("invalid image width"))
    );
    assert_eq!(
        image_request_path(&enabled(), "/a.png", 3841),
        Err(DynamicImageError::InvalidRequest("invalid image width"))
    );
    let wide = DynamicImageConfig { max_width: 10_000, ..enabled() };
    assert!(image_request_path(&wide, "/a.png", 8192).is_ok());
    assert!(image_request_path(&wide, "/a.png", 8193).is_err());
    assert_eq!(
        image_request_path(&enabled(), "/a.png?x=1", 640),
        Err(DynamicImageError::InvalidRequest("image src must not contain a query or fragment"))
    );
    assert_eq!(image_request_path(&enabled(), "/img/a.png", 640), Ok("img/a.png".to_string()));
}

#[test]
fn sources_are_checked_by_format_and_size() {
    assert_eq!(check_source("/pub/a.PNG", 10), Ok(()));
    assert_eq!(check_source("/pub/a.webp", 10), Ok(()));
    assert_eq!(
        check_source("/pub/a.gif", 10),
        Err(DynamicImageError::InvalidRequest("runtime optimization supports PNG, JPEG, and WebP"))
    );
    assert_eq!(check_source("/pub/a.jpg", 20 * 1024 * 1024 + 1), Err(DynamicImageError::TooLarge));
}

#[test]
fn quality_and_width_are_fitted() {
    assert_eq!(effective_quality(None, 82), 82);
    assert_eq!(effective_quality(Some(0), 82), 1);
    assert_eq!(effective_quality(Some(101), 82), 100);
    assert_eq!(fit_width(640, 100, 50), Ok(100));
    assert_eq!(fit_width(40, 100, 50), Ok(40));
    assert_eq!(fit_width(40, 0, 50), Ok(1));
    assert_eq!(fit_width(40, 10_000, 10_000), Err(DynamicImageError::TooLarge));
}

#[test]
fn cache_keys_hash_source_width_and_quality() {
    let mut input = b"pixels".to_vec();
    input.extend_from_slice(&640u32.to_le_bytes());
    input.push(80);
    assert_eq!(image_cache_key(b"pixels", 640, 80), blake3::hash(&input).to_hex().to_string());
    assert_ne!(image_cache_key(b"pixels", 640, 80), image_cache_key(b"pixels", 641, 80));
}

#[test]
fn resizes_public_images_and_reuses_the_bounded_cache() {
    let mut cache = DynamicImageCache::new();
    let first = cache.insert("k".to_string(), Arc::new(vec![1, 2, 3]));
    let second = cache.get("k").unwrap();
    assert!(Arc::ptr_eq(&first, &second));
    assert_eq!(cache.get("missing"), None);
}

#[test]
fn the_image_cache_drops_the_least_recently_used() {
    let mut cache = DynamicImageCache::new();
    for index in 0..MAX_CACHE_ENTRIES {
        cache.insert(format!("k{index}"), Arc::new(vec![0u8; 1]));
    }
    // A hit keeps the first entry in.
    assert!(cache.get("k0").is_some());
    cache.insert("new".to_string(), Arc::new(vec![0u8; 1]));
    assert!(cache.get("k0").is_some());
    assert!(cache.get("k1").is_none());
    assert!(cache.get("new").is_some());

    // An image larger than the whole cache is handed back but not kept.
    let huge = cache.insert("huge".to_string(), Arc::new(vec![0u8; MAX_CACHE_BYTES + 1]));
    assert_eq!(huge.len(), MAX_CACHE_BYTES + 1);
    assert!(cache.get("huge").is_none());

    // Filling the byte budget evicts until it fits.
    cache.insert("half".to_string(), Arc::new(vec![0u8; MAX_CACHE_BYTES / 2]));
    cache.insert("more".to_string(), Arc::new(vec![0u8; MAX_CACHE_BYTES / 2 + 1]));
    assert!(cache.get("half").is_none());
    assert!(cache.get("more").is_some());
}

#[test]
fn decoded_images_report_their_size() {
    let source = DynamicImage::ImageRgb8(ImageBuffer::from_pixel(3, 2, Rgb([0u8; 3])));
    assert_eq!(source.dimensions(), (3, 2));
}

fn png_bytes(width: u32, height: u32) -> Vec<u8> {
    let image = DynamicImage::ImageRgb8(ImageBuffer::from_pixel(width, height, Rgb([200u8, 30, 30])));
    let mut bytes = std::io::Cursor::new(Vec::new());
    image.write_to(&mut bytes, image::ImageFormat::Png).unwrap();
    bytes.into_inner()
}

#[test]
fn a_source_is_decoded_and_narrowed_to_the_requested_width() {
    let source = png_bytes(40, 20);
    let narrowed = decode_for_width(&source, 16).unwrap();
    assert_eq!(narrowed.dimensions(), (16, 8));

    let kept = decode_for_width(&source, 640).unwrap();
    assert_eq!(kept.dimensions(), (40, 20));

    assert_eq!(decode_for_width(b"not an image", 16).err(), Some(DynamicImageError::Decode));
}

#[test]
fn converted_pixels_are_the_images_own_samples() {
    let luma = DynamicImage::ImageLuma8(ImageBuffer::from_fn(3, 2, |x, y| image::Luma([(x * 10 + y) as u8])));
    let pixels = Pixels::from_image(&luma);
    assert_eq!((pixels.width, pixels.height), (3, 2));
    assert_eq!(pixels.as_slice(), luma.to_rgb8().as_raw().as_slice());
}

#[test]
fn resampling_computes_new_pixels_at_the_target_size() {
    let source = DynamicImage::ImageRgb8(ImageBuffer::from_fn(8, 2, |x, _| {
        if x < 4 { Rgb([0u8, 0, 0]) } else { Rgb([255u8, 255, 255]) }
    }));
    let pixels = Pixels::from_image(&source);
    let resized = pixels.resize(2, 1).unwrap();
    assert_eq!(resized.as_slice().len(), 2 * 1 * 3);
    assert!(resized.as_slice()[0] < 128);
    assert!(resized.as_slice()[3] > 128);
}
