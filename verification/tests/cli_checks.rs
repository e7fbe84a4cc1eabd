use ruvyxa::config::validate_project_relative_path;
use ruvyxa::environment::{cli_version_match, detect_package_manager, major_version, probed_version};
use ruvyxa::mascot::tui_header_title;

#[test]
fn parses_dependency_major_versions() {
    assert_eq!(major_version("^19.0.0"), Some(19));
    assert_eq!(major_version("~18.3.1"), Some(18));
    assert_eq!(major_version("workspace:*"), None);
}

#[test]
fn tui_headers_use_the_shared_fox_branding() {
    assert_eq!(tui_header_title("Build"), "🦊 Ruvyxa Build");
    assert_eq!(tui_header_title("Check"), "🦊 Ruvyxa Check");
    assert_eq!(tui_header_title("Benchmark (3 sample(s))"), "🦊 Ruvyxa Benchmark (3 sample(s))");
}

#[test]
fn config_paths_must_stay_project_relative() {
    assert!(validate_project_relative_path("outDir", ".ruvyxa").is_ok());
    assert!(validate_project_relative_path("appDir", "src/app").is_ok());
    assert!(validate_project_relative_path("css.entries", "styles/theme.css").is_ok());
    assert!(validate_project_relative_path("outDir", "../outside").is_err());
    assert!(validate_project_relative_path("css.entries", "../outside.css").is_err());
    assert!(validate_project_relative_path("outDir", "/tmp/out").is_err());
    assert!(validate_project_relative_path("appDir", "").is_err());
}

#[test]
fn a_project_path_error_names_the_field() {
    let error = validate_project_relative_path("outDir", "../outside").unwrap_err();
    assert!(error.contains("`outDir`"), "{error}");
    assert!(validate_project_relative_path("outDir", "  a/b  ").is_ok());
    assert!(validate_project_relative_path("outDir", "a/../b").is_err());
    assert!(validate_project_relative_path("outDir", "a/..b").is_ok());
}

#[test]
fn major_versions_skip_leading_operators() {
    assert_eq!(major_version(">=20.1"), Some(20));
    assert_eq!(major_version("19"), Some(19));
    assert_eq!(major_version(""), None);
}

#[test]
fn the_first_lockfile_decides_the_package_manager() {
    let with = |files: &'static [&'static str]| move |name: &str| files.contains(&name);
    assert_eq!(detect_package_manager(with(&["yarn.lock", "pnpm-lock.yaml"])), "pnpm");
    assert_eq!(detect_package_manager(with(&["package-lock.json", "yarn.lock"])), "npm");
    assert_eq!(detect_package_manager(with(&["yarn.lock"])), "yarn");
    assert_eq!(detect_package_manager(with(&["bun.lockb"])), "bun");
    assert_eq!(detect_package_manager(with(&[])), "unknown");
}

#[test]
fn cli_version_match_compares_the_declared_version_with_the_cli() {
    assert_eq!(cli_version_match(None, "1.2.3"), "missing");
    assert_eq!(cli_version_match(Some("workspace:*"), "1.2.3"), "ok (workspace:*)");
    assert_eq!(cli_version_match(Some("^latest"), "1.2.3"), "ok (unpinned, cli 1.2.3)");
    assert_eq!(cli_version_match(Some("^1.2.3"), "1.2.3"), "ok (1.2.3)");
    assert_eq!(cli_version_match(Some("~1.0.0"), "1.2.3"), "ok (package 1.0.0, cli 1.2.3)");
    assert_eq!(cli_version_match(Some("2.0.0"), "1.2.3"), "drift: package 2.0.0, cli 1.2.3");
}

#[test]
fn a_probe_reports_the_trimmed_version_or_missing() {
    assert_eq!(probed_version(true, "v22.3.0\n"), "v22.3.0");
    assert_eq!(probed_version(false, "v22.3.0\n"), "missing");
}
