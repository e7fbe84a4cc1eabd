use ruvyxa::layout::{
    box_row, compatibility_status, display_path_relative, exists_status, path_text, table_separator, tool_status,
};
use ruvyxa::runtime_config::{diagnostic_stream, join, resolve_build_cache_dir};

#[test]
fn tables_pad_cells_to_their_columns() {
    assert_eq!(table_separator(false, &[3, 1]), "  +-----+---+");
    assert_eq!(
        box_row(false, &["ab", "7"], &["ab".to_string(), "7".to_string()], &[4, 3], 1),
        "  | ab   |   7 |"
    );
    assert_eq!(
        table_separator(true, &[0]),
        "  \x1b[90m+\x1b[0m\x1b[90m--\x1b[0m\x1b[90m+\x1b[0m"
    );
}

#[test]
fn statuses_pick_their_colours() {
    assert_eq!(exists_status(false, true), "ok");
    assert_eq!(exists_status(true, false), "\x1b[33mmissing\x1b[0m");
    assert_eq!(tool_status(true, "missing"), "\x1b[33mmissing\x1b[0m");
    assert_eq!(tool_status(true, "v20.1.0"), "\x1b[32mv20.1.0\x1b[0m");
    assert_eq!(compatibility_status(true, "ok (major 19)"), "\x1b[32mok (major 19)\x1b[0m");
    assert_eq!(compatibility_status(true, "okay"), "\x1b[33mokay\x1b[0m");
    assert_eq!(path_text(true, "/srv/app"), "\x1b[34m/srv/app\x1b[0m");
}

#[test]
fn the_build_cache_directory_prefers_the_environment() {
    assert_eq!(resolve_build_cache_dir("/p", Some("cache"), Some("/ci/cache")), "/ci/cache");
    assert_eq!(resolve_build_cache_dir("/p", Some("cache"), Some("")), "/p/cache");
    assert_eq!(resolve_build_cache_dir("/p", Some("  "), None), "/p/.ruvyxa/cache/bundler");
    assert_eq!(resolve_build_cache_dir("/p/", Some("/abs"), None), "/abs");
    assert_eq!(resolve_build_cache_dir("/p", None, Some("rel")), "/p/rel");
    assert_eq!(join("", "a"), "a");
}

#[test]
fn empty_streams_are_named_in_diagnostics() {
    assert_eq!(diagnostic_stream("  \n"), "(empty)");
    assert_eq!(diagnostic_stream("boom"), "boom");
}

#[test]
fn paths_inside_the_root_are_shown_relative_to_it() {
    assert_eq!(display_path_relative("/project", "/project/app/page.tsx"), "app/page.tsx");
    assert_eq!(display_path_relative("/project", "/other/page.tsx"), "/other/page.tsx");
    assert_eq!(display_path_relative("/project", "/projects/page.tsx"), "/projects/page.tsx");
    assert_eq!(display_path_relative("/project", "/project"), "");
}
