use ruvyxa::static_assets::{
    client_file_name, compute_etag, content_type_for, etag_matches, is_convertible_image_url,
    is_safe_relative_path, is_settled, is_static_asset_request, public_request_path,
    request_matches_etag, resolve_public_asset, AssetEtagCache, AssetIdentity, PublicFile,
    ASSET_ETAG_CACHE_LIMIT, ASSET_ETAG_SETTLE_NANOS,
};

fn now_nanos() -> i128 {
    std::time::SystemTime::now()
        .duration_since(std::time::UNIX_EPOCH)
        .unwrap()
        .as_nanos() as i128
}

#[test]
fn only_files_that_stopped_changing_are_fingerprinted() {
    let now = now_nanos();
    let settled = AssetIdentity { len: 10, modified: now - ASSET_ETAG_SETTLE_NANOS };
    let fresh = AssetIdentity { len: 10, modified: now };
    let borderline = AssetIdentity { len: 10, modified: now - 1_500_000_000 };
    let future = AssetIdentity { len: 10, modified: now + 60_000_000_000 };

    assert!(is_settled(&settled, now));
    assert!(!is_settled(&fresh, now));
    assert!(!is_settled(&borderline, now));
    assert!(!is_settled(&future, now));
}

#[test]
fn fingerprint_index_stays_bounded() {
    let now = now_nanos();
    let identity = AssetIdentity { len: 1, modified: now - ASSET_ETAG_SETTLE_NANOS * 2 };
    let mut cache = AssetEtagCache::new();
    for index in 0..(ASSET_ETAG_CACHE_LIMIT + 64) {
        let file = format!("/bounded-test/{index}.bin");
        cache.store_asset_etag(file.as_bytes(), &identity, "\"deadbeefdeadbeef\"", now);
    }

    assert!(cache.len() <= ASSET_ETAG_CACHE_LIMIT);
    assert_eq!(cache.len(), ASSET_ETAG_CACHE_LIMIT);
    // The oldest entries gave way; the newest are still there.
    assert_eq!(cache.cached_asset_etag(b"/bounded-test/0.bin", &identity), None);
    assert_eq!(
        cache.cached_asset_etag(format!("/bounded-test/{}.bin", ASSET_ETAG_CACHE_LIMIT + 63).as_bytes(), &identity)
            .as_deref(),
        Some("\"deadbeefdeadbeef\"")
    );
}

#[test]
fn a_changed_length_or_mtime_invalidates_the_fingerprint() {
    let now = now_nanos();
    let file = b"/fingerprint-test/asset.bin";
    let modified = now - ASSET_ETAG_SETTLE_NANOS * 2;
    let identity = AssetIdentity { len: 32, modified };
    let mut cache = AssetEtagCache::new();
    cache.store_asset_etag(file, &identity, "\"0123456789abcdef\"", now);

    assert_eq!(cache.cached_asset_etag(file, &identity).as_deref(), Some("\"0123456789abcdef\""));
    assert_eq!(
        cache.cached_asset_etag(file, &AssetIdentity { len: 33, modified }),
        None,
        "a different length must miss"
    );
    assert_eq!(
        cache.cached_asset_etag(file, &AssetIdentity { len: 32, modified: modified + 1_000_000_000 }),
        None,
        "a different mtime must miss"
    );
}

#[test]
fn a_fresh_file_is_not_recorded_and_a_refresh_keeps_one_entry() {
    let now = now_nanos();
    let mut cache = AssetEtagCache::new();
    let fresh = AssetIdentity { len: 4, modified: now };
    cache.store_asset_etag(b"/a", &fresh, "\"1\"", now);
    assert_eq!(cache.len(), 0);

    let old = AssetIdentity { len: 4, modified: now - 10 * ASSET_ETAG_SETTLE_NANOS };
    cache.store_asset_etag(b"/a", &old, "\"1\"", now);
    let newer = AssetIdentity { len: 5, modified: now - 5 * ASSET_ETAG_SETTLE_NANOS };
    cache.store_asset_etag(b"/a", &newer, "\"2\"", now);
    assert_eq!(cache.len(), 1);
    assert_eq!(cache.cached_asset_etag(b"/a", &newer).as_deref(), Some("\"2\""));
    assert_eq!(cache.cached_asset_etag(b"/a", &old), None);
}

#[test]
fn served_etag_always_describes_the_bytes_in_the_response() {
    let body = b"ruvyxa";
    let hex = blake3::hash(body).to_hex().to_string();
    assert_eq!(compute_etag(body), format!("\"{}\"", &hex[..16]));
    assert_ne!(compute_etag(b"a{color:red}"), compute_etag(b"a{color:blue}"));
    assert_eq!(compute_etag(body).len(), 18);
}

#[test]
fn conditional_requests_name_the_current_tag() {
    let etag = compute_etag(b"logo");
    assert!(etag_matches(etag.as_bytes(), &etag));
    assert!(etag_matches(format!("W/{etag}").as_bytes(), &etag));
    assert!(etag_matches(format!("\"other\", {etag}").as_bytes(), &etag));
    assert!(etag_matches(b"*", &etag));
    assert!(etag_matches(etag.trim_matches('"').as_bytes(), &etag));
    assert!(!etag_matches(b"\"stale\"", &etag));
    assert!(!etag_matches(b"", &etag));
    // A value that is not header text never matches.
    let mut binary = etag.clone().into_bytes();
    binary.push(0xff);
    assert!(!etag_matches(&binary, &etag));
    assert!(!etag_matches(b"*\n", &etag));
    assert!(request_matches_etag(Some(b"*"), &etag));
    assert!(!request_matches_etag(None, &etag));
}

#[test]
fn content_types_follow_the_extension_in_any_case() {
    assert_eq!(content_type_for("/public/hero.PNG"), "image/png");
    assert_eq!(content_type_for("/public/app.css"), "text/css; charset=utf-8");
    assert_eq!(content_type_for("/public/app.mjs"), "text/javascript; charset=utf-8");
    assert_eq!(content_type_for("/public/robots.txt"), "text/plain; charset=utf-8");
    assert_eq!(content_type_for("/public/sitemap.xml"), "application/xml; charset=utf-8");
    assert_eq!(content_type_for("/public/photo.JPEG"), "image/jpeg");
    assert_eq!(content_type_for("/public/site.webmanifest"), "application/manifest+json; charset=utf-8");
    assert_eq!(content_type_for("/public/.env"), "application/octet-stream");
    assert_eq!(content_type_for("/public/archive"), "application/octet-stream");
    assert_eq!(content_type_for("/public/logo.svg/"), "image/svg+xml");
}

#[test]
fn convertible_images_are_png_and_jpeg() {
    assert!(is_convertible_image_url("/hero.png"));
    assert!(is_convertible_image_url("/hero.JPG"));
    assert!(is_convertible_image_url("/hero.jpeg"));
    assert!(!is_convertible_image_url("/hero.webp"));
    assert!(!is_convertible_image_url("/png"));
}

#[test]
fn asset_shaped_requests_are_never_pages() {
    assert!(is_static_asset_request("/robots.txt"));
    assert!(is_static_asset_request("/sitemap.xml/"));
    assert!(is_static_asset_request("/sitemap_index.xml"));
    assert!(is_static_asset_request("/assets/app.JS"));
    assert!(is_static_asset_request("/fonts/inter.woff2"));
    assert!(!is_static_asset_request("/docs/feed.xml"));
    assert!(!is_static_asset_request("/blog/post"));
    assert!(!is_static_asset_request("/.png"));
    assert!(!is_static_asset_request("/image."));
    assert!(!is_static_asset_request("/v1.2/readme"));
}

#[test]
fn only_safe_relative_paths_are_served() {
    assert!(is_safe_relative_path("logo.png"));
    assert!(is_safe_relative_path("./images/logo.png"));
    assert!(is_safe_relative_path("a//b"));
    assert!(!is_safe_relative_path(""));
    assert!(!is_safe_relative_path("/etc/passwd"));
    assert!(!is_safe_relative_path("../secret"));
    assert!(!is_safe_relative_path("a/../../b"));
    assert!(!is_safe_relative_path("a\\b"));
    assert_eq!(public_request_path("//logo.png").as_deref(), Some("logo.png"));
    assert_eq!(public_request_path("/../x"), None);
    assert_eq!(public_request_path("/"), None);
}

#[test]
fn client_bundle_requests_name_one_file() {
    assert_eq!(client_file_name("/__ruvyxa/client/app-1234.js").as_deref(), Some("app-1234.js"));
    assert_eq!(client_file_name("/__ruvyxa/client/"), None);
    assert_eq!(client_file_name("/__ruvyxa/client/a/b.js"), None);
    assert_eq!(client_file_name("/__ruvyxa/client/a\\b.js"), None);
    assert_eq!(client_file_name("/__ruvyxa/client/..js"), None);
    assert_eq!(client_file_name("/public/app.js"), None);
}

fn files(present: &'static [(&'static str, &'static str)]) -> impl Fn(&str) -> PublicFile {
    move |path: &str| match present.iter().find(|(candidate, _)| *candidate == path) {
        Some((_, "")) => PublicFile::Outside,
        Some((_, canonical)) => PublicFile::Inside(canonical.to_string()),
        None => PublicFile::Missing,
    }
}

#[test]
fn a_public_url_is_answered_by_the_file_or_its_image_twin() {
    let direct = files(&[("/pub/logo.svg", "/real/pub/logo.svg")]);
    assert_eq!(resolve_public_asset("/pub", "logo.svg", direct), Some("/real/pub/logo.svg".to_string()));

    let source = files(&[("/pub/hero.png", "/real/pub/hero.png")]);
    assert_eq!(resolve_public_asset("/pub", "hero.webp", source), Some("/real/pub/hero.png".to_string()));

    let same_file_twice = files(&[
        ("/pub/hero.png", "/real/pub/hero.png"),
        ("/pub/hero.PNG", "/real/pub/hero.png"),
    ]);
    assert_eq!(
        resolve_public_asset("/pub", "hero.webp", same_file_twice),
        Some("/real/pub/hero.png".to_string())
    );

    let ambiguous = files(&[("/pub/hero.png", "/real/pub/hero.png"), ("/pub/hero.jpg", "/real/pub/hero.jpg")]);
    assert_eq!(resolve_public_asset("/pub", "hero.webp", ambiguous), None);

    let twin = files(&[("/pub/photo.webp", "/real/pub/photo.webp")]);
    assert_eq!(resolve_public_asset("/pub", "photo.JPG", twin), Some("/real/pub/photo.webp".to_string()));

    let escaped = files(&[("/pub/link.png", ""), ("/pub/link.webp", "/real/pub/link.webp")]);
    assert_eq!(resolve_public_asset("/pub", "link.png", escaped), None);

    assert_eq!(resolve_public_asset("/pub", "missing.css", files(&[])), None);
}
