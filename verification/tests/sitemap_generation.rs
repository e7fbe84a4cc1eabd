use ruvyxa::discovery::{
    plan_discovery_files, DiscoveryPlan, DiscoveryReport, DiscoveryStep,
    SitemapSetting,
};
use ruvyxa::site_discovery::{OneOrManyStrings, RobotsSetting};
use ruvyxa::sitemap::{
    escape_xml, percent_encode_path,
    sitemap_documents, sitemap_documents_with_limits, sitemap_entries, sitemap_index_xml,
    ManifestRoute, SitemapChangeFrequency, SitemapEntry, SitemapEntryMetadata,
    SitemapEntryOptions, SitemapGenerationOptions, SitemapRelationship, SitemapVideo,
    SitemapVideoRelationship, YesNo,
};

/// A page route, or an API route when `page` is false.
fn manifest(routes: &[(&str, bool)]) -> Vec<ManifestRoute> {
    routes
        .iter()
        .map(|(path, page)| ManifestRoute { path: path.to_string(), page: *page })
        .collect()
}

fn plan(
    routes: &[(&str, bool)],
    site_url: Option<&str>,
    sitemap: SitemapSetting,
    robots: RobotsSetting,
    existing: &[&str],
) -> DiscoveryPlan {
    plan_discovery_files(&manifest(routes), &[], site_url, &sitemap, &robots, |name: &str| {
        existing.contains(&name)
    })
}

/// The files a plan writes, in order, with their contents.
fn writes(plan: &DiscoveryPlan) -> Vec<(String, String)> {
    plan.steps
        .iter()
        .filter_map(|step| match step {
            DiscoveryStep::Write { name, contents } => Some((name.clone(), contents.clone())),
            DiscoveryStep::CreateAssetsDir => None,
        })
        .collect()
}

#[test]
fn sitemap_lists_prerendered_and_additional_paths_with_encoding_and_exclusions() {
    let manifest = manifest(&[
        ("/", true),
        ("/about", true),
        ("/[lang]/docs/[slug]", true),
        ("/drafts/secret", true),
    ]);
    let setting = SitemapGenerationOptions {
        exclude: vec!["/drafts/*".to_string()],
        additional_paths: vec!["/products/ชาไทย".to_string()],
        ..SitemapGenerationOptions::default()
    };
    let entries = sitemap_entries(
        &manifest,
        &["/en/docs/routing & metadata".to_string(), "/".to_string()],
        "https://ruvyxa.dev",
        Some(&setting),
    )
    .unwrap();
    let xml = &sitemap_documents(&entries).unwrap()[0];

    assert_eq!(xml.matches("<loc>").count(), 4, "{xml}");
    assert!(xml.contains("https://ruvyxa.dev/en/docs/routing%20%26%20metadata"), "{xml}");
    assert!(xml.contains("/products/%E0%B8%8A%E0%B8%B2%E0%B9%84%E0%B8%97%E0%B8%A2"));
    assert!(!xml.contains("drafts"), "{xml}");
    assert!(!xml.contains('['), "{xml}");
}

#[test]
fn sitemap_lists_static_pages_only() {
    let manifest = manifest(&[
        ("/", true),
        ("/blog", true),
        ("/blog/[slug]", true),
        ("/api/health", false),
    ]);
    let entries = sitemap_entries(&manifest, &[], "https://ruvyxa.dev", None).unwrap();
    let xml = &sitemap_documents(&entries).unwrap()[0];
    assert!(xml.contains("<loc>https://ruvyxa.dev/</loc>"), "{xml}");
    assert!(xml.contains("<loc>https://ruvyxa.dev/blog</loc>"), "{xml}");
    assert!(!xml.contains("[slug]"), "{xml}");
    assert!(!xml.contains("/api/health"), "{xml}");
}

#[test]
fn sitemap_shards_by_protocol_limits_and_writes_an_index() {
    let entries = ["/a", "/b", "/c"]
        .into_iter()
        .map(|path| SitemapEntry {
            location: format!("https://ruvyxa.dev{path}"),
            ..SitemapEntry::default()
        })
        .collect::<Vec<_>>();
    let documents = sitemap_documents_with_limits(&entries, 2, 10_000).unwrap();
    assert_eq!(documents.len(), 2);
    assert_eq!(documents[0].matches("<url>").count(), 2);
    assert_eq!(documents[1].matches("<url>").count(), 1);
    let index = sitemap_index_xml("https://ruvyxa.dev", documents.len()).unwrap();
    assert!(index.contains("https://ruvyxa.dev/sitemap-0.xml"));
    assert!(index.contains("https://ruvyxa.dev/sitemap-1.xml"));
}

#[test]
fn sitemap_renders_next_style_metadata_and_extension_namespaces() {
    let options = SitemapGenerationOptions {
        defaults: SitemapEntryMetadata {
            last_modified: Some("2026-07-29".to_string()),
            change_frequency: Some(SitemapChangeFrequency::Weekly),
            priority: Some("0.5".to_string()),
        },
        entries: vec![SitemapEntryOptions {
            url: "/about".to_string(),
            last_modified: Some("2026-07-29T04:30:00.000Z".to_string()),
            change_frequency: Some(SitemapChangeFrequency::Monthly),
            priority: Some("0.8".to_string()),
            alternates: vec![
                ("de".to_string(), "https://ruvyxa.dev/de/about".to_string()),
                ("th".to_string(), "https://ruvyxa.dev/th/about".to_string()),
            ],
            images: vec!["https://cdn.ruvyxa.dev/about.jpg".to_string()],
            videos: vec![SitemapVideo {
                title: "Ruvyxa & Next-style XML".to_string(),
                thumbnail_loc: "https://cdn.ruvyxa.dev/thumb.jpg".to_string(),
                description: "A <production> sitemap example".to_string(),
                content_loc: Some("https://cdn.ruvyxa.dev/video.mp4".to_string()),
                duration: Some(120),
                rating: Some("4.5".to_string()),
                family_friendly: Some(YesNo::Yes),
                restriction: Some(SitemapVideoRelationship {
                    relationship: SitemapRelationship::Allow,
                    content: "TH US".to_string(),
                }),
                tag: Some(OneOrManyStrings::Many(vec![
                    "framework".to_string(),
                    "sitemap".to_string(),
                ])),
                ..SitemapVideo::default()
            }],
        }],
        ..SitemapGenerationOptions::default()
    };
    let entries = sitemap_entries(
        &manifest(&[("/", true), ("/about", true)]),
        &[],
        "https://ruvyxa.dev",
        Some(&options),
    )
    .unwrap();
    let xml = &sitemap_documents(&entries).unwrap()[0];

    assert!(xml.contains("xmlns:xhtml=\"http://www.w3.org/1999/xhtml\""));
    assert!(xml.contains("xmlns:image=\"http://www.google.com/schemas/sitemap-image/1.1\""));
    assert!(xml.contains("xmlns:video=\"http://www.google.com/schemas/sitemap-video/1.1\""));
    assert!(xml.contains("  <url>\n    <loc>https://ruvyxa.dev/about</loc>"));
    assert!(xml.contains("<lastmod>2026-07-29T04:30:00.000Z</lastmod>"));
    assert!(xml.contains("<changefreq>monthly</changefreq>"));
    assert!(xml.contains("<priority>0.8</priority>"));
    assert!(xml.contains("hreflang=\"th\" href=\"https://ruvyxa.dev/th/about\""));
    assert!(xml.contains("<image:loc>https://cdn.ruvyxa.dev/about.jpg</image:loc>"));
    assert!(xml.contains("<video:title>Ruvyxa &amp; Next-style XML</video:title>"));
    assert!(xml.contains("<video:description>A &lt;production&gt; sitemap example</video:description>"));
    assert_eq!(xml.matches("<url>").count(), 2);
}

#[test]
fn sitemap_rejects_invalid_rich_entry_values() {
    let about = |entry: SitemapEntryOptions| SitemapGenerationOptions {
        entries: vec![entry],
        ..SitemapGenerationOptions::default()
    };
    let cases = [
        about(SitemapEntryOptions {
            url: "https://evil.example/about".to_string(),
            ..SitemapEntryOptions::default()
        }),
        about(SitemapEntryOptions {
            url: "/about".to_string(),
            priority: Some("1.1".to_string()),
            ..SitemapEntryOptions::default()
        }),
        about(SitemapEntryOptions {
            url: "/about".to_string(),
            last_modified: Some("yesterday".to_string()),
            ..SitemapEntryOptions::default()
        }),
        about(SitemapEntryOptions {
            url: "/about".to_string(),
            videos: vec![SitemapVideo {
                title: "video".to_string(),
                thumbnail_loc: "javascript:alert(1)".to_string(),
                description: "bad URL".to_string(),
                ..SitemapVideo::default()
            }],
            ..SitemapEntryOptions::default()
        }),
    ];
    for options in cases {
        assert!(sitemap_entries(
            &manifest(&[("/about", true)]),
            &[],
            "https://ruvyxa.dev",
            Some(&options)
        )
        .is_err());
    }
}

#[test]
fn generated_files_never_overwrite_project_files() {
    let plan = plan(
        &[("/", true)],
        Some("https://ruvyxa.dev"),
        SitemapSetting::Enabled(true),
        RobotsSetting::Enabled(true),
        &["robots.txt", "sitemap.xml"],
    );
    assert_eq!(plan.outcome.unwrap(), DiscoveryReport::default());
    assert!(plan.steps.is_empty());
}

#[test]
fn explicit_metadata_routes_prevent_static_generation() {
    let plan = plan(
        &[("/", true), ("/sitemap.xml", false), ("/robots.txt", false)],
        Some("https://ruvyxa.dev"),
        SitemapSetting::Enabled(true),
        RobotsSetting::Enabled(true),
        &[],
    );
    assert!(writes(&plan).is_empty());
    assert_eq!(plan.outcome.unwrap(), DiscoveryReport::default());
}

#[test]
fn robots_is_written_without_a_site_url_and_omits_the_sitemap_line() {
    let plan = plan(
        &[("/", true)],
        None,
        SitemapSetting::Enabled(true),
        RobotsSetting::Enabled(true),
        &[],
    );
    let written = writes(&plan);
    let report = plan.outcome.unwrap();
    assert!(report.robots_written);
    assert!(!report.sitemap_written);
    assert!(report.sitemap_needs_site_url);
    assert_eq!(
        written,
        vec![("robots.txt".to_string(), "User-agent: *\nAllow: /\n".to_string())]
    );
}

#[test]
fn a_full_run_links_robots_to_the_generated_sitemap() {
    let plan = plan(
        &[("/", true), ("/about", true)],
        Some("https://ruvyxa.dev"),
        SitemapSetting::Enabled(true),
        RobotsSetting::Enabled(true),
        &[],
    );
    let written = writes(&plan);
    let report = plan.outcome.unwrap();
    assert!(report.robots_written && report.sitemap_written);
    assert_eq!(report.sitemap_files_written, 1);
    assert_eq!(written.len(), 2);
    assert_eq!(written[0].0, "sitemap.xml");
    assert_eq!(written[1].0, "robots.txt");
    assert!(written[1].1.contains("Sitemap: https://ruvyxa.dev/sitemap.xml"));
}

#[test]
fn each_file_can_be_disabled_independently() {
    let plan = plan(
        &[("/", true)],
        Some("https://ruvyxa.dev"),
        SitemapSetting::Enabled(false),
        RobotsSetting::Enabled(false),
        &[],
    );
    assert_eq!(plan.outcome.unwrap(), DiscoveryReport::default());
    assert!(plan.steps.is_empty());
}

#[test]
fn a_project_sitemap_is_still_named_in_the_generated_robots_file() {
    let plan = plan(
        &[("/", true)],
        Some("https://ruvyxa.dev"),
        SitemapSetting::Enabled(false),
        RobotsSetting::Enabled(true),
        &["sitemap.xml"],
    );
    let written = writes(&plan);
    assert_eq!(written.len(), 1);
    assert_eq!(
        written[0].1,
        "User-agent: *\nAllow: /\n\nSitemap: https://ruvyxa.dev/sitemap.xml\n"
    );
}

#[test]
fn escaping_keeps_markup_out_and_loses_nothing() {
    let escaped = escape_xml("Tom & \"Jerry\" <3 'em>");
    assert_eq!(escaped, "Tom &amp; &quot;Jerry&quot; &lt;3 &apos;em&gt;");
    let restored = escaped
        .replace("&lt;", "<")
        .replace("&gt;", ">")
        .replace("&quot;", "\"")
        .replace("&apos;", "'")
        .replace("&amp;", "&");
    assert_eq!(restored, "Tom & \"Jerry\" <3 'em>");
    assert_eq!(escape_xml("&amp;"), "&amp;amp;");
}

#[test]
fn percent_encoding_is_ascii_and_decodes_back() {
    let encoded = percent_encode_path("/en/docs/routing & metadata");
    assert_eq!(encoded, "/en/docs/routing%20%26%20metadata");
    let accented = percent_encode_path("/caf\u{e9}");
    assert_eq!(accented, "/caf%C3%A9");
    assert!(accented.is_ascii());
}

#[test]
fn documents_fail_exactly_when_one_entry_cannot_fit() {
    let entries = vec![SitemapEntry {
        location: "https://ruvyxa.dev/a-rather-long-path-for-one-document".to_string(),
        ..SitemapEntry::default()
    }];
    assert!(sitemap_documents_with_limits(&entries, 0, 10_000).is_err());
    assert!(sitemap_documents_with_limits(&entries, 1, 150).is_err());
    assert!(sitemap_documents_with_limits(&entries, 1, 10_000).is_ok());
    assert_eq!(sitemap_documents_with_limits(&[], 1, 10_000).unwrap().len(), 1);
}
