//! Turning command-line arguments plus the project's configuration into the
//! settings a server runs with, and the pieces of the runnable configuration
//! that are decided from text alone: where the shared build cache lives, and
//! how a child's output stream is quoted in a diagnostic.
//!
//! Two server configurations are produced here, `dev` and `start`, and they
//! resolve the same settings from the same sources, with an explicit flag
//! always beating the configuration file.

use vstd::prelude::*;

use crate::config::{or_default, text_or, BuildTarget, ProjectConfig, SecurityConfigOptions};
use crate::text::{
    texts_of,
    chars_eq, lower_all, push_str, str_chars, string_from_chars, to_ascii_lowercase, trim, trim_chars,
};

verus! {

broadcast use vstd::string::group_string_axioms;

/// `root.join(path)` by the rules of a Unix path: an absolute `path`
/// replaces `root`; otherwise a separator goes between them unless `root` is
/// empty or already ends in one.
pub open spec fn join_path(root: Seq<char>, path: Seq<char>) -> Seq<char> {
    if path.len() > 0 && path[0] == '/' {
        path
    } else if root.len() == 0 || root.last() == '/' {
        root + path
    } else {
        root + seq!['/'] + path
    }
}

pub fn join(root: &str, path: &str) -> (r: String)
    ensures
        r@ == join_path(root@, path@),
{
    let p = str_chars(path);
    if p.len() > 0 && p[0] == '/' {
        return string_from_chars(p.as_slice());
    }
    let mut out = str_chars(root);
    if !(out.len() == 0 || out[out.len() - 1] == '/') {
        out.push('/');
    }
    push_str(&mut out, path);
    string_from_chars(out.as_slice())
}

/// The build cache directory: `RUVYXA_BUILD_CACHE_DIR` when set and not
/// empty, else the configured directory when not blank, joined to the project
/// root unless absolute; else `.ruvyxa/cache/bundler` under the root.
pub open spec fn build_cache_dir(
    root: Seq<char>,
    configured: Option<Seq<char>>,
    environment: Option<Seq<char>>,
) -> Seq<char> {
    let selected = match environment {
        Some(e) if e.len() > 0 => Some(e),
        _ => match configured {
            Some(c) if trim(c).len() > 0 => Some(c),
            _ => None,
        },
    };
    match selected {
        Some(p) => join_path(root, p),
        None => join_path(join_path(join_path(root, ".ruvyxa"@), "cache"@), "bundler"@),
    }
}

pub open spec fn opt_chars(v: Option<&str>) -> Option<Seq<char>> {
    match v {
        Some(s) => Some(s@),
        None => None,
    }
}

pub fn resolve_build_cache_dir(root: &str, configured: Option<&str>, environment: Option<&str>) -> (r: String)
    ensures
        r@ == build_cache_dir(root@, opt_chars(configured), opt_chars(environment)),
{
    let selected: Option<&str> = match environment {
        Some(e) if str_chars(e).len() > 0 => Some(e),
        _ => match configured {
            Some(c) if trim_chars(&str_chars(c)).len() > 0 => Some(c),
            _ => None,
        },
    };
    match selected {
        Some(p) => join(root, p),
        None => {
            let a = join(root, ".ruvyxa");
            let b = join(a.as_str(), "cache");
            join(b.as_str(), "bundler")
        },
    }
}

/// A child's output stream as a diagnostic quotes it: `(empty)` when it
/// holds nothing but whitespace.
pub open spec fn stream_text(value: Seq<char>) -> Seq<char> {
    if trim(value).len() == 0 {
        "(empty)"@
    } else {
        value
    }
}

pub fn diagnostic_stream(value: &str) -> (r: String)
    ensures
        r@ == stream_text(value@),
{
    let v = str_chars(value);
    if trim_chars(&v).len() == 0 {
        "(empty)".to_string()
    } else {
        string_from_chars(v.as_slice())
    }
}

/// The arguments of `dev` and `start` that decide the server.
#[derive(Debug, Clone, Default)]
pub struct ServerArgs {
    pub root: String,
    pub host: Option<String>,
    pub port: Option<u16>,
}

/// What the server starts from in a mode before the project's settings
/// apply: the limits and switches the server chooses on its own.
#[derive(Debug, Clone, Copy, Default)]
pub struct ServerDefaults {
    pub prebundle_dependencies: bool,
    pub error_overlay: bool,
    pub debug_traces: bool,
    pub action_body_limit_bytes: usize,
    pub api_body_limit_bytes: usize,
    pub plugin_response_body_limit_bytes: usize,
    pub action_rate_limit_max: usize,
    pub action_rate_limit_window_secs: u64,
    pub same_origin_actions: bool,
    pub fetch_metadata_actions: bool,
    pub security_headers: bool,
}

/// The settings a server runs with.
#[derive(Debug, Clone)]
pub struct ServerConfig {
    pub root: String,
    pub host: String,
    pub port: u16,
    pub app_dir: String,
    pub public_dir: String,
    pub client_dir: String,
    pub prerender_dir: String,
    pub cache_route_manifest: bool,
    pub cache_css: bool,
    pub style_entries: Vec<String>,
    pub prebundle_dependencies: bool,
    pub runtime: JavaScriptRuntime,
    pub error_overlay: bool,
    pub debug_traces: bool,
    pub action_body_limit_bytes: usize,
    pub api_body_limit_bytes: usize,
    pub plugin_response_body_limit_bytes: usize,
    pub action_rate_limit_max: usize,
    pub action_rate_limit_window_secs: u64,
    pub same_origin_actions: bool,
    pub fetch_metadata_actions: bool,
    pub security_headers: bool,
    pub plugins_enabled: bool,
    pub default_revalidate: Option<u64>,
}

pub ghost struct ServerConfigView {
    pub root: Seq<char>,
    pub host: Seq<char>,
    pub port: u16,
    pub app_dir: Seq<char>,
    pub public_dir: Seq<char>,
    pub client_dir: Seq<char>,
    pub prerender_dir: Seq<char>,
    pub cache_route_manifest: bool,
    pub cache_css: bool,
    pub style_entries: Seq<Seq<char>>,
    pub prebundle_dependencies: bool,
    pub runtime: JavaScriptRuntime,
    pub error_overlay: bool,
    pub debug_traces: bool,
    pub action_body_limit_bytes: usize,
    pub api_body_limit_bytes: usize,
    pub plugin_response_body_limit_bytes: usize,
    pub action_rate_limit_max: usize,
    pub action_rate_limit_window_secs: u64,
    pub same_origin_actions: bool,
    pub fetch_metadata_actions: bool,
    pub security_headers: bool,
    pub plugins_enabled: bool,
    pub default_revalidate: Option<u64>,
}

impl View for ServerConfig {
    type V = ServerConfigView;

    open spec fn view(&self) -> ServerConfigView {
        ServerConfigView {
            root: self.root@,
            host: self.host@,
            port: self.port,
            app_dir: self.app_dir@,
            public_dir: self.public_dir@,
            client_dir: self.client_dir@,
            prerender_dir: self.prerender_dir@,
            cache_route_manifest: self.cache_route_manifest,
            cache_css: self.cache_css,
            style_entries: texts_of(self.style_entries@),
            prebundle_dependencies: self.prebundle_dependencies,
            runtime: self.runtime,
            error_overlay: self.error_overlay,
            debug_traces: self.debug_traces,
            action_body_limit_bytes: self.action_body_limit_bytes,
            api_body_limit_bytes: self.api_body_limit_bytes,
            plugin_response_body_limit_bytes: self.plugin_response_body_limit_bytes,
            action_rate_limit_max: self.action_rate_limit_max,
            action_rate_limit_window_secs: self.action_rate_limit_window_secs,
            same_origin_actions: self.same_origin_actions,
            fetch_metadata_actions: self.fetch_metadata_actions,
            security_headers: self.security_headers,
            plugins_enabled: self.plugins_enabled,
            default_revalidate: self.default_revalidate,
        }
    }
}

/// The host to listen on: the `--host` flag, else `server.host`, else
/// `localhost`.
pub open spec fn listen_host(args: ServerArgs, config: ProjectConfig) -> Seq<char> {
    match args.host {
        Some(h) => h@,
        None => text_or(config.server.host, "localhost"@),
    }
}

/// The port to listen on: the `--port` flag, else `server.port`, else 3000.
pub open spec fn listen_port(args: ServerArgs, config: ProjectConfig) -> u16 {
    match args.port {
        Some(p) => p,
        None => or_default(config.server.port, 3000u16),
    }
}

/// The build output directory under the project root.
pub open spec fn out_path(args: ServerArgs, config: ProjectConfig) -> Seq<char> {
    join_path(args.root@, config.out_dir_name())
}

/// A rate-limit setting: the configured value when the rate limit is
/// configured and names it, else the server's own.
pub open spec fn rate_max(security: SecurityConfigOptions, default: usize) -> usize {
    match security.action_rate_limit {
        Some(limit) => or_default(limit.max, default),
        None => default,
    }
}

pub open spec fn rate_window(security: SecurityConfigOptions, default: u64) -> u64 {
    match security.action_rate_limit {
        Some(limit) => or_default(limit.window, default),
        None => default,
    }
}

/// The settings `dev` and `start` share, resolved from the arguments, the
/// configuration and the server's own defaults; the directories of the
/// application, the public files, and the switches only `dev` reads are
/// given by the mode.
pub open spec fn resolved_server(
    args: ServerArgs,
    config: ProjectConfig,
    defaults: ServerDefaults,
    app_dir: Seq<char>,
    public_dir: Seq<char>,
    style_root: Seq<char>,
    runtime: JavaScriptRuntime,
    prebundle_dependencies: bool,
    error_overlay: bool,
    debug_traces: bool,
) -> ServerConfigView {
    let security = config.security;
    ServerConfigView {
        root: args.root@,
        host: listen_host(args, config),
        port: listen_port(args, config),
        app_dir,
        public_dir,
        client_dir: join_path(out_path(args, config), "client"@),
        prerender_dir: join_path(out_path(args, config), "prerender"@),
        cache_route_manifest: or_default(config.cache.route_manifest, true),
        cache_css: or_default(config.cache.css, true),
        style_entries: styles_under(style_root, config),
        prebundle_dependencies,
        runtime,
        error_overlay,
        debug_traces,
        action_body_limit_bytes: or_default(
            security.action_body_limit_bytes,
            defaults.action_body_limit_bytes,
        ),
        api_body_limit_bytes: or_default(security.api_body_limit_bytes, defaults.api_body_limit_bytes),
        plugin_response_body_limit_bytes: or_default(
            security.plugin_response_body_limit_bytes,
            defaults.plugin_response_body_limit_bytes,
        ),
        action_rate_limit_max: rate_max(security, defaults.action_rate_limit_max),
        action_rate_limit_window_secs: rate_window(security, defaults.action_rate_limit_window_secs),
        same_origin_actions: or_default(security.same_origin_actions, defaults.same_origin_actions),
        fetch_metadata_actions: or_default(
            security.fetch_metadata_actions,
            defaults.fetch_metadata_actions,
        ),
        security_headers: or_default(security.security_headers, defaults.security_headers),
        plugins_enabled: config.plugins.len() > 0,
        default_revalidate: config.default_revalidate,
    }
}

/// The stylesheet entries of the configuration, each under `root`.
pub open spec fn styles_under(root: Seq<char>, config: ProjectConfig) -> Seq<Seq<char>> {
    config.css_entries@.map_values(|e: String| join_path(root, e@))
}

/// The runtime a server runs the helper scripts on: the override, else the
/// one the configured target implies, else whatever `detect` finds.
pub open spec fn runtime_chosen(
    config: ProjectConfig,
    detect: impl Fn() -> JavaScriptRuntime,
    runtime: JavaScriptRuntime,
) -> bool {
    match config.javascript_runtime_override {
        Some(r) => runtime == r,
        None => match config.runtime {
            Some(BuildTarget::Bun) => runtime == JavaScriptRuntime::Bun,
            Some(_) => runtime == JavaScriptRuntime::Node,
            None => detect.ensures((), runtime),
        },
    }
}

/// The `dev` server: the application, public files and stylesheets straight
/// from the project, dependencies prebundled and the error overlay on unless
/// turned off, traces off unless turned on.
pub open spec fn dev_server(
    args: ServerArgs,
    config: ProjectConfig,
    defaults: ServerDefaults,
    runtime: JavaScriptRuntime,
) -> ServerConfigView {
    resolved_server(
        args,
        config,
        defaults,
        join_path(args.root@, config.app_dir_name()),
        join_path(args.root@, "public"@),
        args.root@,
        runtime,
        or_default(config.prebundle_dependencies, true),
        or_default(config.debug.overlay, true),
        or_default(config.debug.traces, false),
    )
}

/// The `start` server: the application, public files and stylesheets from
/// the build output, the development switches left as the server chooses
/// them.
pub open spec fn production_server(
    args: ServerArgs,
    config: ProjectConfig,
    defaults: ServerDefaults,
    runtime: JavaScriptRuntime,
) -> ServerConfigView {
    let out = out_path(args, config);
    resolved_server(
        args,
        config,
        defaults,
        join_path(join_path(out, "server"@), config.app_dir_name()),
        join_path(out, "assets"@),
        join_path(out, "server"@),
        runtime,
        defaults.prebundle_dependencies,
        defaults.error_overlay,
        defaults.debug_traces,
    )
}

fn copy_string(s: &String) -> (r: String)
    ensures
        r@ == s@,
{
    string_from_chars(str_chars(s.as_str()).as_slice())
}

fn flag_or(value: Option<bool>, default: bool) -> (r: bool)
    ensures
        r == or_default(value, default),
{
    match value {
        Some(v) => v,
        None => default,
    }
}

fn limit_or(value: Option<usize>, default: usize) -> (r: usize)
    ensures
        r == or_default(value, default),
{
    match value {
        Some(v) => v,
        None => default,
    }
}

fn resolve_server(
    args: &ServerArgs,
    config: &ProjectConfig,
    defaults: &ServerDefaults,
    app_dir: String,
    public_dir: String,
    style_root: &str,
    runtime: JavaScriptRuntime,
    prebundle_dependencies: bool,
    error_overlay: bool,
    debug_traces: bool,
) -> (r: ServerConfig)
    ensures
        r@ == resolved_server(
            *args,
            *config,
            *defaults,
            app_dir@,
            public_dir@,
            style_root@,
            runtime,
            prebundle_dependencies,
            error_overlay,
            debug_traces,
        ),
{
    let host = match &args.host {
        Some(h) => copy_string(h),
        None => match &config.server.host {
            Some(h) => copy_string(h),
            None => "localhost".to_string(),
        },
    };
    let port: u16 = match args.port {
        Some(p) => p,
        None => match config.server.port {
            Some(p) => p,
            None => 3000,
        },
    };
    let out = join(args.root.as_str(), config.out_dir());
    let security = &config.security;
    let (rate_max, rate_window) = match &security.action_rate_limit {
        Some(limit) => (
            limit_or(limit.max, defaults.action_rate_limit_max),
            match limit.window {
                Some(w) => w,
                None => defaults.action_rate_limit_window_secs,
            },
        ),
        None => (defaults.action_rate_limit_max, defaults.action_rate_limit_window_secs),
    };
    let style_entries = config.style_entries(style_root);
    assert(texts_of(style_entries@) =~= styles_under(style_root@, *config));
    ServerConfig {
        root: copy_string(&args.root),
        host,
        port,
        app_dir,
        public_dir,
        client_dir: join(out.as_str(), "client"),
        prerender_dir: join(out.as_str(), "prerender"),
        cache_route_manifest: flag_or(config.cache.route_manifest, true),
        cache_css: flag_or(config.cache.css, true),
        style_entries,
        prebundle_dependencies,
        runtime,
        error_overlay,
        debug_traces,
        action_body_limit_bytes: limit_or(
            security.action_body_limit_bytes,
            defaults.action_body_limit_bytes,
        ),
        api_body_limit_bytes: limit_or(security.api_body_limit_bytes, defaults.api_body_limit_bytes),
        plugin_response_body_limit_bytes: limit_or(
            security.plugin_response_body_limit_bytes,
            defaults.plugin_response_body_limit_bytes,
        ),
        action_rate_limit_max: rate_max,
        action_rate_limit_window_secs: rate_window,
        same_origin_actions: flag_or(security.same_origin_actions, defaults.same_origin_actions),
        fetch_metadata_actions: flag_or(
            security.fetch_metadata_actions,
            defaults.fetch_metadata_actions,
        ),
        security_headers: flag_or(security.security_headers, defaults.security_headers),
        plugins_enabled: config.plugins.len() > 0,
        default_revalidate: config.default_revalidate,
    }
}

/// The settings of the `dev` server.
pub fn dev_server_config(
    args: &ServerArgs,
    config: &ProjectConfig,
    defaults: &ServerDefaults,
    detect: impl Fn() -> JavaScriptRuntime,
) -> (r: ServerConfig)
    requires
        detect.requires(()),
    ensures
        runtime_chosen(*config, detect, r.runtime),
        r@ == dev_server(*args, *config, *defaults, r.runtime),
{
    let app_dir = join(args.root.as_str(), config.app_dir());
    let public_dir = join(args.root.as_str(), "public");
    let runtime = config.javascript_runtime(detect);
    resolve_server(
        args,
        config,
        defaults,
        app_dir,
        public_dir,
        args.root.as_str(),
        runtime,
        flag_or(config.prebundle_dependencies, true),
        flag_or(config.debug.overlay, true),
        flag_or(config.debug.traces, false),
    )
}

/// The settings of the `start` server.
pub fn production_server_config(
    args: &ServerArgs,
    config: &ProjectConfig,
    defaults: &ServerDefaults,
    detect: impl Fn() -> JavaScriptRuntime,
) -> (r: ServerConfig)
    requires
        detect.requires(()),
    ensures
        runtime_chosen(*config, detect, r.runtime),
        r@ == production_server(*args, *config, *defaults, r.runtime),
{
    let out = join(args.root.as_str(), config.out_dir());
    let server_dir = join(out.as_str(), "server");
    let app_dir = join(server_dir.as_str(), config.app_dir());
    let public_dir = join(out.as_str(), "assets");
    let runtime = config.javascript_runtime(detect);
    resolve_server(
        args,
        config,
        defaults,
        app_dir,
        public_dir,
        server_dir.as_str(),
        runtime,
        defaults.prebundle_dependencies,
        defaults.error_overlay,
        defaults.debug_traces,
    )
}

/// An explicit `--host` or `--port` always beats the configuration file, and
/// the configuration file beats the built-in `localhost:3000`, in `dev` and
/// in `start` alike.
pub proof fn law_an_explicit_flag_beats_the_config_file(
    args: ServerArgs,
    config: ProjectConfig,
    defaults: ServerDefaults,
    runtime: JavaScriptRuntime,
)
    ensures
        args.host matches Some(h) ==> dev_server(args, config, defaults, runtime).host == h@
            && production_server(args, config, defaults, runtime).host == h@,
        args.port matches Some(p) ==> dev_server(args, config, defaults, runtime).port == p
            && production_server(args, config, defaults, runtime).port == p,
        args.host is None ==> dev_server(args, config, defaults, runtime).host == text_or(
            config.server.host,
            "localhost"@,
        ) && production_server(args, config, defaults, runtime).host == text_or(
            config.server.host,
            "localhost"@,
        ),
        args.port is None ==> dev_server(args, config, defaults, runtime).port == or_default(
            config.server.port,
            3000u16,
        ) && production_server(args, config, defaults, runtime).port == or_default(
            config.server.port,
            3000u16,
        ),
{
}

/// `dev` and `start` resolve every shared setting (address, output
/// directories, caches, security limits and switches, plugins, rendering
/// defaults, the script runtime) the same way from the same sources; they
/// differ only in where the application, public files and stylesheets come
/// from and in the development switches.
pub proof fn law_dev_and_start_share_their_settings(
    args: ServerArgs,
    config: ProjectConfig,
    defaults: ServerDefaults,
    runtime: JavaScriptRuntime,
)
    ensures
        ({
            let d = dev_server(args, config, defaults, runtime);
            let p = production_server(args, config, defaults, runtime);
            &&& d.root == p.root
            &&& d.host == p.host
            &&& d.port == p.port
            &&& d.client_dir == p.client_dir
            &&& d.prerender_dir == p.prerender_dir
            &&& d.cache_route_manifest == p.cache_route_manifest
            &&& d.cache_css == p.cache_css
            &&& d.action_body_limit_bytes == p.action_body_limit_bytes
            &&& d.api_body_limit_bytes == p.api_body_limit_bytes
            &&& d.plugin_response_body_limit_bytes == p.plugin_response_body_limit_bytes
            &&& d.action_rate_limit_max == p.action_rate_limit_max
            &&& d.action_rate_limit_window_secs == p.action_rate_limit_window_secs
            &&& d.same_origin_actions == p.same_origin_actions
            &&& d.fetch_metadata_actions == p.fetch_metadata_actions
            &&& d.security_headers == p.security_headers
            &&& d.plugins_enabled == p.plugins_enabled
            &&& d.default_revalidate == p.default_revalidate
            &&& d.runtime == p.runtime
        }),
{
}

// ─── The JavaScript runtime and the helper scripts ───────────────────────────

/// The JavaScript runtime the helper scripts run on.
#[derive(Debug, Clone, Copy, PartialEq, Eq, Structural)]
pub enum JavaScriptRuntime {
    Node,
    Bun,
}

/// The runtime a `RUVYXA_RUNTIME` value names: `node` or `bun`, in any case,
/// around any whitespace.
pub open spec fn runtime_named(value: Seq<char>) -> Option<JavaScriptRuntime> {
    let v = lower_all(trim(value));
    if v == "node"@ {
        Some(JavaScriptRuntime::Node)
    } else if v == "bun"@ {
        Some(JavaScriptRuntime::Bun)
    } else {
        None
    }
}

/// The runtime chosen ahead of the configuration: the `--runtime` flag, else
/// `RUVYXA_RUNTIME`, which must name `node` or `bun`.
pub fn runtime_override(cli: Option<JavaScriptRuntime>, environment: Option<&str>) -> (r: Result<
    Option<JavaScriptRuntime>,
    String,
>)
    ensures
        cli is Some ==> r == Ok::<Option<JavaScriptRuntime>, String>(cli),
        cli is None ==> match environment {
            None => r == Ok::<Option<JavaScriptRuntime>, String>(None),
            Some(v) => match runtime_named(v@) {
                Some(runtime) => r == Ok::<Option<JavaScriptRuntime>, String>(Some(runtime)),
                None => r matches Err(m) && m@ == "RUVYXA_RUNTIME must be either 'node' or 'bun'"@,
            },
        },
{
    if let Some(runtime) = cli {
        return Ok(Some(runtime));
    }
    let value = match environment {
        Some(value) => value,
        None => return Ok(None),
    };
    let lowered = to_ascii_lowercase(&trim_chars(&str_chars(value)));
    if chars_eq(lowered.as_slice(), str_chars("node").as_slice()) {
        Ok(Some(JavaScriptRuntime::Node))
    } else if chars_eq(lowered.as_slice(), str_chars("bun").as_slice()) {
        Ok(Some(JavaScriptRuntime::Bun))
    } else {
        Err("RUVYXA_RUNTIME must be either 'node' or 'bun'".to_string())
    }
}

/// The text reporting that a helper script printed something other than its
/// JSON report: what printed it, for which project, its exit status and both
/// of its streams.
pub open spec fn invalid_output_text(
    program: Seq<char>,
    root: Seq<char>,
    status: Seq<char>,
    stdout: Seq<char>,
    stderr: Seq<char>,
) -> Seq<char> {
    program + " returned invalid output for "@ + root + "\nstatus: "@ + status + "\nstdout:\n"@
        + stream_text(stdout) + "\nstderr:\n"@ + stream_text(stderr)
}

pub fn invalid_output_message(program: &str, root: &str, status: &str, stdout: &str, stderr: &str) -> (r: String)
    ensures
        r@ == invalid_output_text(program@, root@, status@, stdout@, stderr@),
{
    let mut out: Vec<char> = Vec::new();
    push_str(&mut out, program);
    push_str(&mut out, " returned invalid output for ");
    push_str(&mut out, root);
    push_str(&mut out, "\nstatus: ");
    push_str(&mut out, status);
    push_str(&mut out, "\nstdout:\n");
    let out_stream = diagnostic_stream(stdout);
    push_str(&mut out, out_stream.as_str());
    push_str(&mut out, "\nstderr:\n");
    let err_stream = diagnostic_stream(stderr);
    push_str(&mut out, err_stream.as_str());
    assert(out@ =~= invalid_output_text(program@, root@, status@, stdout@, stderr@));
    string_from_chars(out.as_slice())
}

pub open spec fn first_text(a: Option<&str>, b: Option<&str>, default: Seq<char>) -> Seq<char> {
    match a {
        Some(t) => t@,
        None => match b {
            Some(t) => t@,
            None => default,
        },
    }
}

/// The text reporting that a helper script reported a failure: `what`, the
/// code it gave or `default_code`, then its message, else its stack, else
/// `default_message`.
pub open spec fn script_failure_text(
    what: Seq<char>,
    code: Option<&str>,
    default_code: Seq<char>,
    message: Option<&str>,
    stack: Option<&str>,
    default_message: Seq<char>,
) -> Seq<char> {
    what + ": "@ + first_text(code, None, default_code) + " "@ + first_text(message, stack, default_message)
}

pub fn script_failure_message(
    what: &str,
    code: Option<&str>,
    default_code: &str,
    message: Option<&str>,
    stack: Option<&str>,
    default_message: &str,
) -> (r: String)
    ensures
        r@ == script_failure_text(what@, code, default_code@, message, stack, default_message@),
{
    let mut out: Vec<char> = Vec::new();
    push_str(&mut out, what);
    push_str(&mut out, ": ");
    push_str(&mut out, match code {
        Some(c) => c,
        None => default_code,
    });
    push_str(&mut out, " ");
    push_str(&mut out, match message {
        Some(m) => m,
        None => match stack {
            Some(s) => s,
            None => default_message,
        },
    });
    assert(out@ =~= script_failure_text(what@, code, default_code@, message, stack, default_message@));
    string_from_chars(out.as_slice())
}

/// The dependency hash a successful configuration report must carry.
pub fn required_config_dependency_hash(dependency_hash: Option<&str>) -> (r: Result<String, String>)
    ensures
        match dependency_hash {
            Some(h) if h@.len() > 0 => r matches Ok(v) && v@ == h@,
            _ => r matches Err(m) && m@ == "config renderer returned success without dependencyHash"@,
        },
{
    match dependency_hash {
        Some(hash) if str_chars(hash).len() > 0 => Ok(string_from_chars(str_chars(hash).as_slice())),
        _ => Err("config renderer returned success without dependencyHash".to_string()),
    }
}

} // verus!
