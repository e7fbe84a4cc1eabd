use ruvyxa::build_output::{layout_file_candidates, resolve_layout_file};
use ruvyxa::config::{
    ActionRateLimitOptions, BuildPluginConfig, BuildTarget, CacheConfigOptions, DebugConfigOptions,
    ProjectConfig, SecurityCeilings, SecurityConfigOptions, ServerConfigOptions,
};
use ruvyxa::runtime_config::{
    dev_server_config, invalid_output_message, production_server_config,
    required_config_dependency_hash, resolve_build_cache_dir, runtime_override,
    script_failure_message, JavaScriptRuntime, ServerArgs, ServerDefaults,
};

fn detect_node() -> JavaScriptRuntime {
    JavaScriptRuntime::Node
}

fn current_dir_args() -> ServerArgs {
    ServerArgs { root: ".".to_string(), host: None, port: None }
}

#[test]
fn dev_config_respects_overlay_and_trace_flags() {
    let args = current_dir_args();
    let enabled = ProjectConfig {
        debug: DebugConfigOptions { overlay: Some(true), traces: Some(true) },
        ..Default::default()
    };
    let disabled = ProjectConfig {
        debug: DebugConfigOptions { overlay: Some(false), traces: Some(false) },
        ..Default::default()
    };

    let enabled = dev_server_config(&args, &enabled, &ServerDefaults::default(), detect_node);
    let disabled = dev_server_config(&args, &disabled, &ServerDefaults::default(), detect_node);
    assert!(enabled.error_overlay);
    assert!(enabled.debug_traces);
    assert!(!disabled.error_overlay);
    assert!(!disabled.debug_traces);
}

#[test]
fn server_configs_apply_action_security_options() {
    let args = current_dir_args();
    let config = ProjectConfig {
        security: SecurityConfigOptions {
            action_body_limit_bytes: Some(8192),
            api_body_limit_bytes: Some(16384),
            plugin_response_body_limit_bytes: Some(32768),
            action_rate_limit: Some(ActionRateLimitOptions { max: Some(240), window: Some(30) }),
            same_origin_actions: Some(false),
            fetch_metadata_actions: Some(false),
            security_headers: Some(false),
        },
        ..Default::default()
    };
    let defaults = ServerDefaults {
        same_origin_actions: true,
        fetch_metadata_actions: true,
        security_headers: true,
        ..Default::default()
    };

    for server in [
        dev_server_config(&args, &config, &defaults, detect_node),
        production_server_config(&args, &config, &defaults, detect_node),
    ] {
        assert_eq!(server.action_body_limit_bytes, 8192);
        assert_eq!(server.api_body_limit_bytes, 16384);
        assert_eq!(server.plugin_response_body_limit_bytes, 32768);
        assert_eq!(server.action_rate_limit_max, 240);
        assert_eq!(server.action_rate_limit_window_secs, 30);
        assert!(!server.same_origin_actions);
        assert!(!server.fetch_metadata_actions);
        assert!(!server.security_headers);
    }
}

#[test]
fn resolves_shared_build_cache_directory() {
    let temp = tempfile::tempdir().unwrap();
    let root = temp.path().join("project");
    let shared = temp.path().join("shared-cache");
    let root_text = root.to_str().unwrap();

    assert_eq!(
        resolve_build_cache_dir(root_text, Some(".cache/build"), None),
        root.join(".cache/build").to_str().unwrap()
    );
    assert_eq!(
        resolve_build_cache_dir(root_text, Some("ignored"), Some(shared.to_str().unwrap())),
        shared.to_str().unwrap()
    );
    assert_eq!(
        resolve_build_cache_dir(root_text, None, None),
        root.join(".ruvyxa/cache/bundler").to_str().unwrap()
    );
}

#[test]
fn flags_beat_the_config_file_which_beats_the_built_in_address() {
    let config = ProjectConfig {
        server: ServerConfigOptions { host: Some("0.0.0.0".to_string()), port: Some(8080) },
        ..Default::default()
    };
    let flagged = ServerArgs {
        root: "/site".to_string(),
        host: Some("127.0.0.1".to_string()),
        port: Some(4000),
    };
    for server in [
        dev_server_config(&flagged, &config, &ServerDefaults::default(), detect_node),
        production_server_config(&flagged, &config, &ServerDefaults::default(), detect_node),
    ] {
        assert_eq!(server.host, "127.0.0.1");
        assert_eq!(server.port, 4000);
    }

    let bare = ServerArgs { root: "/site".to_string(), host: None, port: None };
    let configured = dev_server_config(&bare, &config, &ServerDefaults::default(), detect_node);
    assert_eq!(configured.host, "0.0.0.0");
    assert_eq!(configured.port, 8080);

    let plain = dev_server_config(&bare, &ProjectConfig::default(), &ServerDefaults::default(), detect_node);
    assert_eq!(plain.host, "localhost");
    assert_eq!(plain.port, 3000);
}

#[test]
fn dev_serves_the_project_and_start_serves_the_build_output() {
    let args = ServerArgs { root: "/site".to_string(), host: None, port: None };
    let config = ProjectConfig {
        app_dir: Some("src/app".to_string()),
        out_dir: Some("dist".to_string()),
        cache: CacheConfigOptions { route_manifest: Some(false), css: None, build_dir: None },
        plugins: vec![BuildPluginConfig { name: "banner".to_string(), head: Vec::new() }],
        default_revalidate: Some(90),
        css_entries: vec!["styles/site.css".to_string()],
        runtime: Some(BuildTarget::Bun),
        ..Default::default()
    };
    let defaults = ServerDefaults {
        prebundle_dependencies: false,
        error_overlay: false,
        debug_traces: true,
        action_body_limit_bytes: 1024,
        ..Default::default()
    };

    let dev = dev_server_config(&args, &config, &defaults, detect_node);
    assert_eq!(dev.app_dir, "/site/src/app");
    assert_eq!(dev.public_dir, "/site/public");
    assert_eq!(dev.client_dir, "/site/dist/client");
    assert_eq!(dev.prerender_dir, "/site/dist/prerender");
    assert!(dev.prebundle_dependencies);
    assert!(dev.error_overlay);
    assert!(!dev.debug_traces);
    assert_eq!(dev.style_entries, vec!["/site/styles/site.css".to_string()]);

    let start = production_server_config(&args, &config, &defaults, detect_node);
    assert_eq!(start.app_dir, "/site/dist/server/src/app");
    assert_eq!(start.public_dir, "/site/dist/assets");
    assert_eq!(start.client_dir, "/site/dist/client");
    assert_eq!(start.prerender_dir, "/site/dist/prerender");
    assert!(!start.prebundle_dependencies);
    assert!(!start.error_overlay);
    assert!(start.debug_traces);
    assert_eq!(start.style_entries, vec!["/site/dist/server/styles/site.css".to_string()]);

    for server in [dev, start] {
        assert_eq!(server.root, "/site");
        assert!(!server.cache_route_manifest);
        assert!(server.cache_css);
        assert!(server.plugins_enabled);
        assert_eq!(server.default_revalidate, Some(90));
        assert_eq!(server.action_body_limit_bytes, 1024);
        assert_eq!(server.runtime, JavaScriptRuntime::Bun);
    }

    let defaults_only = ProjectConfig::default();
    assert_eq!(defaults_only.app_dir(), "app");
    assert_eq!(defaults_only.out_dir(), ".ruvyxa");
}

fn ceilings() -> SecurityCeilings {
    SecurityCeilings {
        action_body_limit_bytes: 1_048_576,
        api_body_limit_bytes: 4_194_304,
        plugin_response_body_limit_bytes: 8_388_608,
        action_rate_limit_requests: 10_000,
        action_rate_limit_window_secs: 86_400,
    }
}

#[test]
fn rejects_zero_security_limits() {
    let config = ProjectConfig {
        security: SecurityConfigOptions { plugin_response_body_limit_bytes: Some(0), ..Default::default() },
        ..Default::default()
    };

    let error = config.validate_paths(&ceilings()).unwrap_err();
    assert!(error.contains("security.pluginLimit"));
}

#[test]
fn rejects_security_limits_above_hard_ceiling() {
    let limits = ceilings();
    let config = ProjectConfig {
        security: SecurityConfigOptions {
            action_body_limit_bytes: Some(limits.action_body_limit_bytes as usize + 1),
            api_body_limit_bytes: Some(limits.api_body_limit_bytes as usize + 1),
            action_rate_limit: Some(ActionRateLimitOptions {
                max: Some(limits.action_rate_limit_requests as usize + 1),
                window: Some(limits.action_rate_limit_window_secs + 1),
            }),
            ..Default::default()
        },
        ..Default::default()
    };

    let error = config.validate_paths(&limits).unwrap_err();
    assert!(error.contains("security.actionLimit"));
}

#[test]
fn rejects_excessive_plugin_response_limit() {
    let limits = ceilings();
    let accepted = ProjectConfig {
        security: SecurityConfigOptions {
            plugin_response_body_limit_bytes: Some(limits.plugin_response_body_limit_bytes as usize),
            ..Default::default()
        },
        ..Default::default()
    };
    assert!(accepted.validate_paths(&limits).is_ok());

    let config = ProjectConfig {
        security: SecurityConfigOptions {
            plugin_response_body_limit_bytes: Some(limits.plugin_response_body_limit_bytes as usize + 1),
            ..Default::default()
        },
        ..Default::default()
    };

    let error = config.validate_paths(&limits).unwrap_err();
    assert!(error.contains("must not exceed"));
    assert_eq!(
        error,
        "RUV1602 config field `security.pluginLimit` must not exceed 8388608 bytes"
    );
}

#[test]
fn configured_paths_are_checked_before_limits_and_in_order() {
    let escaping = ProjectConfig {
        app_dir: Some("../outside".to_string()),
        security: SecurityConfigOptions { action_body_limit_bytes: Some(0), ..Default::default() },
        ..Default::default()
    };
    assert_eq!(
        escaping.validate_paths(&ceilings()).unwrap_err(),
        "RUV1601 config field `appDir` must be a project-relative path inside the project root"
    );

    let blank_style = ProjectConfig {
        css_entries: vec!["styles/app.css".to_string(), "  ".to_string()],
        ..Default::default()
    };
    assert_eq!(
        blank_style.validate_paths(&ceilings()).unwrap_err(),
        "RUV1601 config field `css.entries` must not be empty"
    );

    let window = ProjectConfig {
        security: SecurityConfigOptions {
            action_rate_limit: Some(ActionRateLimitOptions { max: Some(5), window: Some(0) }),
            ..Default::default()
        },
        ..Default::default()
    };
    assert_eq!(
        window.validate_paths(&ceilings()).unwrap_err(),
        "RUV1601 config field `security.actionRateLimit.window` must be greater than zero"
    );

    assert!(ProjectConfig::default().validate_paths(&ceilings()).is_ok());
}

#[test]
fn a_layout_is_found_under_the_root_or_the_app_directory() {
    assert_eq!(
        layout_file_candidates("/site", "/site/src/app", "app/blog/layout"),
        vec![
            "/site/app/blog/layout",
            "/site/app/blog/layout.tsx",
            "/site/app/blog/layout.jsx",
            "/site/app/blog/layout.ts",
            "/site/app/blog/layout.js",
            "/site/src/app/blog/layout",
            "/site/src/app/blog/layout.tsx",
            "/site/src/app/blog/layout.jsx",
            "/site/src/app/blog/layout.ts",
            "/site/src/app/blog/layout.js",
        ]
    );
    assert_eq!(
        layout_file_candidates("/site", "/site/app", "/abs/layout.tsx"),
        vec!["/abs/layout.tsx"]
    );

    let on_disk = |path: &str| path == "/site/src/app/blog/layout.tsx" || path == "/site/src/app/blog/layout.js";
    assert_eq!(
        resolve_layout_file("/site", "/site/src/app", "app/blog/layout", on_disk),
        Some("/site/src/app/blog/layout.tsx".to_string())
    );
    assert_eq!(resolve_layout_file("/site", "/site/app", "missing", |_: &str| false), None);
}

#[test]
fn renderer_output_errors_quote_both_streams() {
    let error = invalid_output_message(
        "config renderer",
        ".",
        "exit status: 1",
        "",
        "SyntaxError: Unexpected token",
    );

    assert!(error.contains("config renderer returned invalid output for ."));
    assert!(error.contains("status: exit status: 1"));
    assert!(error.contains("stdout:\n(empty)"));
    assert!(error.contains("stderr:\nSyntaxError: Unexpected token"));
}

#[test]
fn rejects_successful_config_renderer_output_without_dependency_hash() {
    let error = required_config_dependency_hash(None).unwrap_err();
    assert!(error.contains("without dependencyHash"));
    assert!(required_config_dependency_hash(Some("")).is_err());
    assert_eq!(required_config_dependency_hash(Some("abc123")).unwrap(), "abc123");
}

#[test]
fn the_runtime_flag_beats_the_environment() {
    assert_eq!(
        runtime_override(Some(JavaScriptRuntime::Bun), Some("node")),
        Ok(Some(JavaScriptRuntime::Bun))
    );
    assert_eq!(runtime_override(None, Some(" Node ")), Ok(Some(JavaScriptRuntime::Node)));
    assert_eq!(runtime_override(None, Some("BUN")), Ok(Some(JavaScriptRuntime::Bun)));
    assert_eq!(runtime_override(None, None), Ok(None));
    assert_eq!(
        runtime_override(None, Some("deno")),
        Err("RUVYXA_RUNTIME must be either 'node' or 'bun'".to_string())
    );
}

#[test]
fn a_failed_script_report_names_its_code_and_message() {
    assert_eq!(
        script_failure_message("config load failed", None, "RUV1600", None, Some("at line 1"), "unknown config error"),
        "config load failed: RUV1600 at line 1"
    );
    assert_eq!(
        script_failure_message("adapter build hook failed", Some("RUV2201"), "RUV2200", Some("boom"), Some("stack"), "unknown adapter error"),
        "adapter build hook failed: RUV2201 boom"
    );
    assert_eq!(
        script_failure_message("adapter inspection failed", None, "RUV2200", None, None, "unknown adapter error"),
        "adapter inspection failed: RUV2200 unknown adapter error"
    );
}

#[test]
fn uses_config_runtime_when_the_cli_target_is_omitted() {
    let config = ProjectConfig { runtime: Some(BuildTarget::Static), ..ProjectConfig::default() };
    let detect = || JavaScriptRuntime::Bun;

    assert_eq!(config.build_target(None), BuildTarget::Static);
    assert_eq!(config.javascript_runtime(detect), JavaScriptRuntime::Node);
    assert_eq!(config.build_target(Some(BuildTarget::Edge)), BuildTarget::Edge);
    assert_eq!(ProjectConfig::default().build_target(None), BuildTarget::Node);
    assert_eq!(ProjectConfig::default().javascript_runtime(detect), detect());
}

#[test]
fn parses_bun_runtime_as_build_and_javascript_runtime() {
    let config = ProjectConfig { runtime: Some(BuildTarget::Bun), ..ProjectConfig::default() };

    assert_eq!(config.build_target(None), BuildTarget::Bun);
    assert_eq!(config.javascript_runtime(|| JavaScriptRuntime::Node), JavaScriptRuntime::Bun);
}

#[test]
fn a_runtime_override_beats_the_build_target_and_style_entries_sit_under_the_root() {
    let config = ProjectConfig {
        runtime: Some(BuildTarget::Bun),
        javascript_runtime_override: Some(JavaScriptRuntime::Node),
        css_entries: vec!["styles/app.css".to_string(), "/abs/theme.css".to_string()],
        ..ProjectConfig::default()
    };
    assert_eq!(config.javascript_runtime(|| JavaScriptRuntime::Bun), JavaScriptRuntime::Node);
    assert_eq!(config.style_entries("/site"), vec!["/site/styles/app.css", "/abs/theme.css"]);
}

#[test]
fn the_server_runtime_is_detected_only_when_nothing_names_one() {
    let args = current_dir_args();
    let detect_bun = || JavaScriptRuntime::Bun;
    let unset = dev_server_config(&args, &ProjectConfig::default(), &ServerDefaults::default(), detect_bun);
    assert_eq!(unset.runtime, JavaScriptRuntime::Bun);
    let node_target = ProjectConfig { runtime: Some(BuildTarget::Node), ..Default::default() };
    let start = production_server_config(&args, &node_target, &ServerDefaults::default(), detect_bun);
    assert_eq!(start.runtime, JavaScriptRuntime::Node);
    let overridden = ProjectConfig {
        runtime: Some(BuildTarget::Node),
        javascript_runtime_override: Some(JavaScriptRuntime::Bun),
        ..Default::default()
    };
    assert_eq!(dev_server_config(&args, &overridden, &ServerDefaults::default(), detect_node).runtime, JavaScriptRuntime::Bun);
}
