use axum::http::{HeaderMap, HeaderName, HeaderValue};
use ruvyxa::devtools::DevToolsMetrics;
use ruvyxa::plugin_head::{render_plugin_head, HeadAttributeValue, PluginHeadEntry};
use ruvyxa::process::{wait_action, ProcessError, WaitAction};
use ruvyxa::response::{
    has_room_for_defaults,
    html_response_headers, json_response_headers,
    apply_security_headers, default_security_headers, finalize_security_headers,
    is_uncacheable_status,
};

#[test]
fn metrics_aggregate_bundle_builds_and_action_timings() {
    let mut metrics = DevToolsMetrics::new();
    metrics.record_bundle("/", 10);
    metrics.record_bundle("/", 14);
    metrics.record_action("/todos", "save", 2_000, false);
    metrics.record_action("/todos", "save", 5_000, true);
    let bundles = metrics.bundle_metrics();
    let actions = metrics.action_metrics();
    assert_eq!(bundles[0].bytes, 14);
    assert_eq!(bundles[0].builds, 2);
    assert_eq!(actions[0].calls, 2);
    assert_eq!(actions[0].errors, 1);
    assert_eq!(actions[0].max_micros, 5_000);
    assert_eq!(actions[0].total_micros, 7_000);
    assert_eq!(actions[0].last_micros, 5_000);
    assert_eq!(actions[0].action, "/todos#save");
}

#[test]
fn metrics_are_listed_in_key_order() {
    let mut metrics = DevToolsMetrics::new();
    for path in ["/zeta", "/alpha", "/mid", "/alpha"] {
        metrics.record_bundle(path, 1);
    }
    let paths: Vec<String> = metrics.bundle_metrics().into_iter().map(|m| m.path).collect();
    assert_eq!(paths, vec!["/alpha", "/mid", "/zeta"]);
    assert_eq!(metrics.bundle_metrics()[0].builds, 2);
}

fn entry(tag: &str, attrs: &[(&str, HeadAttributeValue)], children: Option<&str>) -> PluginHeadEntry {
    PluginHeadEntry::new(
        tag.to_string(),
        attrs.iter().map(|(name, value)| (name.to_string(), value.clone())).collect(),
        children.map(str::to_string),
    )
}

fn text(value: &str) -> HeadAttributeValue {
    HeadAttributeValue::Text(value.to_string())
}

#[test]
fn renders_void_and_raw_text_elements() {
    let html = render_plugin_head(&[
        entry("link", &[("rel", text("preconnect")), ("href", text("https://cdn.example"))], None),
        entry("script", &[("async", HeadAttributeValue::Flag(true))], Some("console.log('hi')")),
    ]);

    assert_eq!(
        html,
        "<link href=\"https://cdn.example\" rel=\"preconnect\">\
<script async=\"true\">console.log('hi')</script>"
    );
}

#[test]
fn escapes_attribute_values_so_a_quote_cannot_close_the_tag() {
    let html = render_plugin_head(&[entry(
        "meta",
        &[("name", text("description")), ("content", text("\"><script>alert(1)</script>"))],
        None,
    )]);

    assert!(!html.contains("<script>"), "{html}");
    assert!(html.contains("&quot;&gt;&lt;script&gt;"), "{html}");
}

#[test]
fn drops_entries_and_attributes_that_could_break_out_of_the_head() {
    let html = render_plugin_head(&[
        entry("div", &[], None),
        entry("meta", &[("onload=x y", text("1"))], None),
        entry("meta", &[("content", HeadAttributeValue::Structured)], None),
        entry("style", &[], Some("a{}</style><script>alert(1)</script>")),
    ]);

    assert!(!html.contains("<div"), "{html}");
    assert!(!html.contains("onload"), "{html}");
    assert!(!html.contains("<script>"), "{html}");
    assert_eq!(html, "<meta><meta><style></style>");
}

#[test]
fn omits_a_false_attribute_and_keeps_numbers() {
    let html = render_plugin_head(&[entry(
        "meta",
        &[
            ("charset", HeadAttributeValue::Flag(false)),
            ("content", HeadAttributeValue::Number("30".to_string())),
        ],
        None,
    )]);
    assert_eq!(html, "<meta content=\"30\">");
}

#[test]
fn a_void_element_never_gets_a_closing_tag() {
    let html = render_plugin_head(&[entry("link", &[], Some("ignored"))]);
    assert_eq!(html, "<link>");
}

#[test]
fn head_tags_are_matched_in_any_case_and_later_attributes_win() {
    let html = render_plugin_head(&[entry(
        "META",
        &[("name", text("a")), ("name", text("b"))],
        None,
    )]);
    assert_eq!(html, "<meta name=\"b\">");
    let html = render_plugin_head(&[entry("Script", &[], Some("x</SCRIPT>"))]);
    assert_eq!(html, "<script></script>");
}

fn plain_headers() -> HeaderMap {
    HeaderMap::new()
}

#[test]
fn disabling_security_removes_exactly_what_enabling_adds() {
    let mut headers = plain_headers();
    apply_security_headers(&mut headers);
    assert_eq!(headers.len(), default_security_headers().len(), "every default must be applied");

    finalize_security_headers(&mut headers, false);
    assert!(headers.is_empty(), "disabling security must leave no default behind: {headers:?}");
}

#[test]
fn an_application_header_survives_both_directions() {
    let mut headers = plain_headers();
    headers.insert(
        HeaderName::from_static("x-frame-options"),
        HeaderValue::from_static("SAMEORIGIN"),
    );

    apply_security_headers(&mut headers);
    assert_eq!(headers["x-frame-options"], "SAMEORIGIN");

    finalize_security_headers(&mut headers, false);
    assert_eq!(
        headers["x-frame-options"], "SAMEORIGIN",
        "a deliberate application header is not a default to strip"
    );
}

#[test]
fn enabling_through_finalize_applies_every_default() {
    let mut headers = plain_headers();
    finalize_security_headers(&mut headers, true);
    for (name, value) in default_security_headers() {
        assert_eq!(headers[name], value);
    }
}

#[test]
fn error_documents_are_not_cacheable() {
    assert!(is_uncacheable_status(500));
    assert!(is_uncacheable_status(404));
    assert!(!is_uncacheable_status(200));
    assert!(!is_uncacheable_status(304));
    assert!(!is_uncacheable_status(600));
}

#[test]
fn a_timeout_is_reported_in_whole_seconds() {
    assert_eq!(
        ProcessError::TimedOut { after_secs: 0 }.message(),
        "the process did not finish within 1 seconds and was stopped"
    );
    assert_eq!(
        ProcessError::TimedOut { after_secs: 60 }.message(),
        "the process did not finish within 60 seconds and was stopped"
    );
    assert_eq!(ProcessError::Io("no such file".to_string()).message(), "no such file");
}

#[test]
fn error_pages_are_never_cached_and_every_page_is_secured() {
    let mut failed = HeaderMap::new();
    html_response_headers(&mut failed, 500);
    assert_eq!(failed.get("cache-control").unwrap(), "no-store, max-age=0");
    assert_eq!(failed.get("x-frame-options").unwrap(), "DENY");

    let mut missing = HeaderMap::new();
    html_response_headers(&mut missing, 404);
    assert_eq!(missing.get("cache-control").unwrap(), "no-store, max-age=0");

    let mut ok = HeaderMap::new();
    html_response_headers(&mut ok, 200);
    assert!(ok.get("cache-control").is_none());
    assert_eq!(ok.get("x-content-type-options").unwrap(), "nosniff");
    assert_eq!(ok.len(), 7);

    let mut json = HeaderMap::new();
    json_response_headers(&mut json);
    assert_eq!(json.get("content-type").unwrap(), "application/json; charset=utf-8");
    assert_eq!(json.len(), 8);
}

#[test]
fn a_bounded_wait_kills_the_child_once_its_budget_is_spent() {
    assert_eq!(wait_action(true, 5_000, 1_000), WaitAction::Collect);
    assert_eq!(wait_action(false, 999, 1_000), WaitAction::Sleep);
    assert_eq!(wait_action(false, 1_000, 1_000), WaitAction::KillAndReap);
    assert_eq!(wait_action(false, 0, 0), WaitAction::KillAndReap);
}

#[test]
fn room_for_the_defaults_counts_distinct_header_names() {
    let mut headers = HeaderMap::new();
    assert!(has_room_for_defaults(&headers));
    headers.insert("x-one", HeaderValue::from_static("1"));
    headers.append("x-one", HeaderValue::from_static("2"));
    assert!(has_room_for_defaults(&headers));
    let mut crowded = HeaderMap::new();
    for i in 0..4090 {
        let name = HeaderName::from_bytes(format!("x-h{i}").as_bytes()).unwrap();
        crowded.insert(name, HeaderValue::from_static("v"));
    }
    assert!(!has_room_for_defaults(&crowded));
}
