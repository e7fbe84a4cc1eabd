//! Validation of `ruvyxa.config.*` fields.
//!
//! Every field is validated before anything downstream sees it: a limit that is
//! merely wrong — a body cap of zero, a rate-limit window of a billion seconds,
//! a project path that escapes the root — fails as a config error the user can
//! fix, not as surprising behavior at request time.

use vstd::prelude::*;

use crate::plugin_head::PluginHeadEntry;
use crate::runtime_config::{join, join_path, JavaScriptRuntime};
use crate::text::{decimal, push_decimal, push_str, str_chars, string_from_chars, trim, trim_chars};

verus! {

broadcast use vstd::string::group_string_axioms;

/// `s[i..j]` is a whole `/`-separated segment of `s`.
pub open spec fn is_segment(s: Seq<char>, i: int, j: int) -> bool {
    &&& 0 <= i <= j <= s.len()
    &&& (i == 0 || s[i - 1] == '/')
    &&& (j == s.len() || s[j] == '/')
    &&& forall|k: int| i <= k < j ==> s[k] != '/'
}

/// Some segment of the path `s` is `..`.
pub open spec fn has_parent_segment(s: Seq<char>) -> bool {
    exists|i: int| #[trigger] is_segment(s, i, i + 2) && s[i] == '.' && s[i + 1] == '.'
}

/// A path that stays inside the project root, by the rules of a Unix path: not
/// absolute, and never stepping up through `..`.
pub open spec fn is_project_relative(s: Seq<char>) -> bool {
    &&& s.len() > 0
    &&& s[0] != '/'
    &&& !has_parent_segment(s)
}

pub open spec fn field_message(code: Seq<char>, field: Seq<char>, rest: Seq<char>) -> Seq<char> {
    code + " config field `"@ + field + "` "@ + rest
}

fn field_error(code: &str, field: &str, rest: &str) -> (r: String)
    ensures
        r@ == field_message(code@, field@, rest@),
{
    let mut out: Vec<char> = Vec::new();
    push_str(&mut out, code);
    push_str(&mut out, " config field `");
    push_str(&mut out, field);
    push_str(&mut out, "` ");
    push_str(&mut out, rest);
    assert(out@ =~= field_message(code@, field@, rest@));
    string_from_chars(out.as_slice())
}

pub fn parent_segment_in(v: &Vec<char>) -> (r: bool)
    ensures
        r == has_parent_segment(v@),
{
    let mut start: usize = 0;
    let mut i: usize = 0;
    while i < v.len()
        invariant
            start <= i <= v.len(),
            start == 0 || v@[start - 1] == '/',
            forall|k: int| start <= k < i ==> v@[k] != '/',
            forall|a: int|
                0 <= a && a + 2 <= start && #[trigger] is_segment(v@, a, a + 2) ==> !(v@[a] == '.'
                    && v@[a + 1] == '.'),
        decreases v.len() - i,
    {
        if v[i] == '/' {
            if i - start == 2 && v[start] == '.' && v[start + 1] == '.' {
                assert(is_segment(v@, start as int, start + 2));
                return true;
            }
            proof {
                assert forall|a: int|
                    0 <= a && a + 2 <= i + 1 && #[trigger] is_segment(v@, a, a + 2) implies !(v@[a]
                        == '.' && v@[a + 1] == '.') by {
                    if a + 2 > start {
                        // A segment ending after `start` begins at `start`:
                        // the characters between are not separators.
                        if a < start {
                            assert(v@[start - 1] == '/');
                        }
                        if a > start {
                            assert(v@[a - 1] != '/');
                        }
                    }
                }
            }
            start = i + 1;
        }
        i += 1;
    }
    if i - start == 2 && v[start] == '.' && v[start + 1] == '.' {
        assert(is_segment(v@, start as int, start + 2));
        return true;
    }
    proof {
        assert forall|a: int| #[trigger] is_segment(v@, a, a + 2) implies !(v@[a] == '.' && v@[a
            + 1] == '.') by {
            if a + 2 > start {
                if a < start {
                    assert(v@[start - 1] == '/');
                }
                if a > start {
                    assert(v@[a - 1] != '/');
                }
            }
        }
    }
    false
}

/// What a validation reports: `None` when it passed, else its message.
pub open spec fn problem_of(r: Result<(), String>) -> Option<Seq<char>> {
    match r {
        Ok(()) => None,
        Err(message) => Some(message@),
    }
}

/// The problem with a configured path: empty once trimmed, or reaching
/// outside the project root.
pub open spec fn relative_path_problem(field: Seq<char>, value: Seq<char>) -> Option<Seq<char>> {
    if trim(value).len() == 0 {
        Some(field_message("RUV1601"@, field, "must not be empty"@))
    } else if !is_project_relative(trim(value)) {
        Some(field_message("RUV1601"@, field, "must be a project-relative path inside the project root"@))
    } else {
        None
    }
}

/// The problem with a configured limit that must be positive.
pub open spec fn positive_problem(field: Seq<char>, value: Option<u64>) -> Option<Seq<char>> {
    if value == Some(0u64) {
        Some(field_message("RUV1601"@, field, "must be greater than zero"@))
    } else {
        None
    }
}

/// The problem with a configured limit that must be positive and at most
/// `maximum`.
pub open spec fn bounded_problem(field: Seq<char>, value: Option<u64>, maximum: u64) -> Option<Seq<char>> {
    match value {
        Some(v) => if v == 0 {
            Some(field_message("RUV1601"@, field, "must be greater than zero"@))
        } else if v > maximum {
            Some(field_message("RUV1602"@, field, "must not exceed "@ + decimal(maximum as nat)))
        } else {
            None
        },
        None => None,
    }
}

/// Accepts a configured path only when, once trimmed, it is non-empty and
/// stays inside the project root.
pub fn validate_project_relative_path(field: &str, value: &str) -> (r: Result<(), String>)
    ensures
        problem_of(r) == relative_path_problem(field@, value@),
{
    let trimmed = trim_chars(&str_chars(value));
    if trimmed.len() == 0 {
        return Err(field_error("RUV1601", field, "must not be empty"));
    }
    if trimmed[0] == '/' || parent_segment_in(&trimmed) {
        return Err(
            field_error(
                "RUV1601",
                field,
                "must be a project-relative path inside the project root",
            ),
        );
    }
    Ok(())
}

/// Rejects a configured limit of zero.
pub fn validate_positive_limit(field: &str, value: Option<u64>) -> (r: Result<(), String>)
    ensures
        problem_of(r) == positive_problem(field@, value),
{
    if value == Some(0u64) {
        return Err(field_error("RUV1601", field, "must be greater than zero"));
    }
    Ok(())
}

/// Rejects a configured limit of zero or one above `maximum`.
pub fn validate_bounded_limit(field: &str, value: Option<u64>, maximum: u64) -> (r: Result<
    (),
    String,
>)
    ensures
        problem_of(r) == bounded_problem(field@, value, maximum),
{
    if let Some(v) = value {
        if v == 0 {
            return Err(field_error("RUV1601", field, "must be greater than zero"));
        }
        if v > maximum {
            let mut rest: Vec<char> = Vec::new();
            push_str(&mut rest, "must not exceed ");
            push_decimal(&mut rest, maximum);
            let rest = string_from_chars(rest.as_slice());
            return Err(field_error("RUV1602", field, rest.as_str()));
        }
    }
    Ok(())
}

// ─── The configuration file ──────────────────────────────────────────────────

/// `server` in the configuration file.
#[derive(Debug, Clone, Default)]
pub struct ServerConfigOptions {
    pub host: Option<String>,
    pub port: Option<u16>,
}

/// `cache` in the configuration file.
#[derive(Debug, Clone, Default)]
pub struct CacheConfigOptions {
    pub route_manifest: Option<bool>,
    pub css: Option<bool>,
    pub build_dir: Option<String>,
}

/// `debug` in the configuration file.
#[derive(Debug, Clone, Default)]
pub struct DebugConfigOptions {
    pub overlay: Option<bool>,
    pub traces: Option<bool>,
}

/// `security.actionRateLimit` in the configuration file.
#[derive(Debug, Clone, Default)]
pub struct ActionRateLimitOptions {
    pub max: Option<usize>,
    pub window: Option<u64>,
}

/// `security` in the configuration file.
#[derive(Debug, Clone, Default)]
pub struct SecurityConfigOptions {
    pub action_body_limit_bytes: Option<usize>,
    pub api_body_limit_bytes: Option<usize>,
    pub plugin_response_body_limit_bytes: Option<usize>,
    pub action_rate_limit: Option<ActionRateLimitOptions>,
    pub same_origin_actions: Option<bool>,
    pub fetch_metadata_actions: Option<bool>,
    pub security_headers: Option<bool>,
}

/// A build plugin the configuration declares.
#[derive(Default)]
pub struct BuildPluginConfig {
    pub name: String,
    /// Elements this plugin contributes to every rendered document's `<head>`.
    pub head: Vec<PluginHeadEntry>,
}

/// What a build produces output for.
#[derive(Debug, Clone, Copy, PartialEq, Eq, Structural)]
pub enum BuildTarget {
    Node,
    Edge,
    Static,
    Bun,
}

/// The settings of the configuration file that decide where a project's
/// files are and how its server runs.
#[derive(Default)]
pub struct ProjectConfig {
    pub app_dir: Option<String>,
    pub out_dir: Option<String>,
    /// `runtime`: the build target the project asks for.
    pub runtime: Option<BuildTarget>,
    /// The JavaScript runtime chosen ahead of the configuration, by the
    /// `--runtime` flag or `RUVYXA_RUNTIME`.
    pub javascript_runtime_override: Option<JavaScriptRuntime>,
    /// `css.entries`: global style sheets, relative to the project root.
    pub css_entries: Vec<String>,
    pub server: ServerConfigOptions,
    pub cache: CacheConfigOptions,
    /// `build.warm`: bundle dependencies ahead of the first request.
    pub prebundle_dependencies: Option<bool>,
    pub debug: DebugConfigOptions,
    pub security: SecurityConfigOptions,
    pub plugins: Vec<BuildPluginConfig>,
    /// `render.revalidate`: the default revalidation interval in seconds.
    pub default_revalidate: Option<u64>,
}

pub open spec fn or_default<T>(value: Option<T>, default: T) -> T {
    match value {
        Some(v) => v,
        None => default,
    }
}

pub open spec fn text_or(value: Option<String>, default: Seq<char>) -> Seq<char> {
    match value {
        Some(v) => v@,
        None => default,
    }
}

impl ProjectConfig {
    pub open spec fn app_dir_name(self) -> Seq<char> {
        text_or(self.app_dir, "app"@)
    }

    pub open spec fn out_dir_name(self) -> Seq<char> {
        text_or(self.out_dir, ".ruvyxa"@)
    }

    /// The application directory, `app` unless configured.
    pub fn app_dir(&self) -> (r: &str)
        ensures
            r@ == self.app_dir_name(),
    {
        match &self.app_dir {
            Some(dir) => dir.as_str(),
            None => "app",
        }
    }

    /// The build target: the command line's, else the configured one, else
    /// Node.
    pub fn build_target(&self, cli_target: Option<BuildTarget>) -> (r: BuildTarget)
        ensures
            r == match cli_target {
                Some(t) => t,
                None => or_default(self.runtime, BuildTarget::Node),
            },
    {
        match cli_target {
            Some(target) => target,
            None => match self.runtime {
                Some(target) => target,
                None => BuildTarget::Node,
            },
        }
    }

    /// The JavaScript runtime the helper scripts run on: the override, else
    /// Bun for a Bun target and Node for any other target, else what `detect`
    /// finds on this machine; `detect` is asked only then.
    pub fn javascript_runtime(&self, detect: impl Fn() -> JavaScriptRuntime) -> (r: JavaScriptRuntime)
        requires
            detect.requires(()),
        ensures
            match self.javascript_runtime_override {
                Some(runtime) => r == runtime,
                None => match self.runtime {
                    Some(BuildTarget::Bun) => r == JavaScriptRuntime::Bun,
                    Some(_) => r == JavaScriptRuntime::Node,
                    None => detect.ensures((), r),
                },
            },
    {
        match self.javascript_runtime_override {
            Some(runtime) => runtime,
            None => match self.runtime {
                Some(BuildTarget::Bun) => JavaScriptRuntime::Bun,
                Some(_) => JavaScriptRuntime::Node,
                None => detect(),
            },
        }
    }

    /// The configured style sheets, under the project root.
    pub fn style_entries(&self, root: &str) -> (r: Vec<String>)
        ensures
            r@.len() == self.css_entries@.len(),
            forall|i: int|
                0 <= i < r@.len() ==> #[trigger] r@[i]@ == join_path(root@, self.css_entries@[i]@),
    {
        let mut out: Vec<String> = Vec::new();
        let mut i: usize = 0;
        while i < self.css_entries.len()
            invariant
                i <= self.css_entries.len(),
                out@.len() == i,
                forall|j: int| 0 <= j < i ==> #[trigger] out@[j]@ == join_path(root@, self.css_entries@[j]@),
            decreases self.css_entries.len() - i,
        {
            out.push(join(root, self.css_entries[i].as_str()));
            i += 1;
        }
        out
    }

    /// The build output directory, `.ruvyxa` unless configured.
    pub fn out_dir(&self) -> (r: &str)
        ensures
            r@ == self.out_dir_name(),
    {
        match &self.out_dir {
            Some(dir) => dir.as_str(),
            None => ".ruvyxa",
        }
    }
}

/// The hard ceilings the server puts on the limits a project may configure.
#[derive(Debug, Clone, Copy, Default)]
pub struct SecurityCeilings {
    pub action_body_limit_bytes: u64,
    pub api_body_limit_bytes: u64,
    pub plugin_response_body_limit_bytes: u64,
    pub action_rate_limit_requests: u64,
    pub action_rate_limit_window_secs: u64,
}

/// The problem with `security.pluginLimit`: zero, or above `maximum` bytes.
pub open spec fn plugin_limit_problem(value: Option<u64>, maximum: u64) -> Option<Seq<char>> {
    match value {
        Some(v) => if v == 0 {
            Some(field_message("RUV1601"@, "security.pluginLimit"@, "must be greater than zero"@))
        } else if v > maximum {
            Some(
                field_message(
                    "RUV1602"@,
                    "security.pluginLimit"@,
                    "must not exceed "@ + decimal(maximum as nat) + " bytes"@,
                ),
            )
        } else {
            None
        },
        None => None,
    }
}

/// Rejects a plugin response limit of zero or one above `maximum` bytes.
pub fn validate_plugin_response_limit(value: Option<u64>, maximum: u64) -> (r: Result<(), String>)
    ensures
        problem_of(r) == plugin_limit_problem(value, maximum),
{
    validate_positive_limit("security.pluginLimit", value)?;
    if let Some(v) = value {
        if v > maximum {
            let mut rest: Vec<char> = Vec::new();
            push_str(&mut rest, "must not exceed ");
            push_decimal(&mut rest, maximum);
            push_str(&mut rest, " bytes");
            let rest = string_from_chars(rest.as_slice());
            return Err(field_error("RUV1602", "security.pluginLimit", rest.as_str()));
        }
    }
    Ok(())
}

/// The first problem in `a` then `b`.
pub open spec fn first_problem(a: Option<Seq<char>>, b: Option<Seq<char>>) -> Option<Seq<char>> {
    if a is Some {
        a
    } else {
        b
    }
}

/// The first of the `css.entries` from `i` on that is not project-relative.
pub open spec fn css_entries_problem(entries: Seq<String>, i: int) -> Option<Seq<char>>
    decreases entries.len() - i,
{
    if i < 0 || i >= entries.len() {
        None
    } else {
        first_problem(
            relative_path_problem("css.entries"@, entries[i]@),
            css_entries_problem(entries, i + 1),
        )
    }
}

pub open spec fn opt_u64(value: Option<usize>) -> Option<u64> {
    match value {
        Some(v) => Some(v as u64),
        None => None,
    }
}

/// The first problem of a rate limit: its request count, then its window.
pub open spec fn rate_limit_problem(
    rate_limit: Option<ActionRateLimitOptions>,
    ceilings: SecurityCeilings,
) -> Option<Seq<char>> {
    match rate_limit {
        Some(limit) => first_problem(
            bounded_problem(
                "security.actionRateLimit.max"@,
                opt_u64(limit.max),
                ceilings.action_rate_limit_requests,
            ),
            bounded_problem(
                "security.actionRateLimit.window"@,
                limit.window,
                ceilings.action_rate_limit_window_secs,
            ),
        ),
        None => None,
    }
}

/// The first problem of a configuration, in the order its fields are
/// checked: the application and output directories, the style entries, then
/// the security limits.
pub open spec fn config_problem(config: ProjectConfig, ceilings: SecurityCeilings) -> Option<Seq<char>> {
    let security = config.security;
    first_problem(
        relative_path_problem("appDir"@, config.app_dir_name()),
        first_problem(
            relative_path_problem("outDir"@, config.out_dir_name()),
            first_problem(
                css_entries_problem(config.css_entries@, 0),
                first_problem(
                    bounded_problem(
                        "security.actionLimit"@,
                        opt_u64(security.action_body_limit_bytes),
                        ceilings.action_body_limit_bytes,
                    ),
                    first_problem(
                        bounded_problem(
                            "security.apiLimit"@,
                            opt_u64(security.api_body_limit_bytes),
                            ceilings.api_body_limit_bytes,
                        ),
                        first_problem(
                            plugin_limit_problem(
                                opt_u64(security.plugin_response_body_limit_bytes),
                                ceilings.plugin_response_body_limit_bytes,
                            ),
                            rate_limit_problem(security.action_rate_limit, ceilings),
                        ),
                    ),
                ),
            ),
        ),
    )
}

/// A configured limit that is in range: unset, or from one up to `maximum`.
pub open spec fn limit_in_range(value: Option<u64>, maximum: u64) -> bool {
    value matches Some(v) ==> 1 <= v && v <= maximum
}

proof fn lemma_bounded_problem(field: Seq<char>, value: Option<u64>, maximum: u64)
    ensures
        bounded_problem(field, value, maximum) is None <==> limit_in_range(value, maximum),
{
}

proof fn lemma_css_entries_problem(entries: Seq<String>, i: int)
    requires
        0 <= i,
    ensures
        css_entries_problem(entries, i) is None <==> forall|k: int|
            i <= k < entries.len() ==> (#[trigger] relative_path_problem("css.entries"@, entries[k]@)) is None,
    decreases entries.len() - i,
{
    if i < entries.len() {
        lemma_css_entries_problem(entries, i + 1);
    }
}

/// A configuration is accepted exactly when its directories and style
/// entries stay inside the project and every configured security limit (the
/// action, API and plugin response limits, and the rate limit's count and
/// window) is at least one and at most its ceiling.
pub proof fn law_a_configuration_is_accepted_exactly_when_its_limits_are_in_range(
    config: ProjectConfig,
    ceilings: SecurityCeilings,
)
    ensures
        config_problem(config, ceilings) is None <==> ({
            let security = config.security;
            &&& relative_path_problem("appDir"@, config.app_dir_name()) is None
            &&& relative_path_problem("outDir"@, config.out_dir_name()) is None
            &&& forall|k: int|
                0 <= k < config.css_entries@.len() ==> (#[trigger] relative_path_problem(
                    "css.entries"@,
                    config.css_entries@[k]@,
                )) is None
            &&& limit_in_range(opt_u64(security.action_body_limit_bytes), ceilings.action_body_limit_bytes)
            &&& limit_in_range(opt_u64(security.api_body_limit_bytes), ceilings.api_body_limit_bytes)
            &&& limit_in_range(
                opt_u64(security.plugin_response_body_limit_bytes),
                ceilings.plugin_response_body_limit_bytes,
            )
            &&& security.action_rate_limit matches Some(limit) ==> limit_in_range(
                opt_u64(limit.max),
                ceilings.action_rate_limit_requests,
            ) && limit_in_range(limit.window, ceilings.action_rate_limit_window_secs)
        }),
{
    lemma_css_entries_problem(config.css_entries@, 0);
}

fn to_u64(value: Option<usize>) -> (r: Option<u64>)
    ensures
        r == opt_u64(value),
{
    match value {
        Some(v) => Some(v as u64),
        None => None,
    }
}

fn validate_css_entries(entries: &Vec<String>) -> (r: Result<(), String>)
    ensures
        problem_of(r) == css_entries_problem(entries@, 0),
{
    let mut i: usize = 0;
    while i < entries.len()
        invariant
            i <= entries.len(),
            css_entries_problem(entries@, 0) == css_entries_problem(entries@, i as int),
        decreases entries.len() - i,
    {
        validate_project_relative_path("css.entries", entries[i].as_str())?;
        i += 1;
    }
    Ok(())
}

impl ProjectConfig {
    /// Rejects a configuration whose paths leave the project root or whose
    /// security limits are zero or above the server's ceilings, reporting the
    /// first problem found.
    pub fn validate_paths(&self, ceilings: &SecurityCeilings) -> (r: Result<(), String>)
        ensures
            problem_of(r) == config_problem(*self, *ceilings),
    {
        validate_project_relative_path("appDir", self.app_dir())?;
        validate_project_relative_path("outDir", self.out_dir())?;
        validate_css_entries(&self.css_entries)?;
        let security = &self.security;
        validate_bounded_limit(
            "security.actionLimit",
            to_u64(security.action_body_limit_bytes),
            ceilings.action_body_limit_bytes,
        )?;
        validate_bounded_limit(
            "security.apiLimit",
            to_u64(security.api_body_limit_bytes),
            ceilings.api_body_limit_bytes,
        )?;
        validate_plugin_response_limit(
            to_u64(security.plugin_response_body_limit_bytes),
            ceilings.plugin_response_body_limit_bytes,
        )?;
        if let Some(rate_limit) = &security.action_rate_limit {
            validate_bounded_limit(
                "security.actionRateLimit.max",
                to_u64(rate_limit.max),
                ceilings.action_rate_limit_requests,
            )?;
            validate_bounded_limit(
                "security.actionRateLimit.window",
                rate_limit.window,
                ceilings.action_rate_limit_window_secs,
            )?;
        }
        Ok(())
    }
}

} // verus!
