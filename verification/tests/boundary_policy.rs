use ruvyxa::ast::parse_module;
use ruvyxa::boundary::{
    check, BoundaryModule, Finding, Violation,
    imports_marker, is_inside_server_dir, is_server_only_specifier, private_env_reads,
};

fn find_private_env_reads(source: &str) -> Vec<String> {
    private_env_reads(&parse_module(source))
}

#[test]
fn regex_literals_do_not_hide_later_env_reads() {
    let source = "const re = /[\"']/g; const db = process.env.DATABASE_URL;";
    assert_eq!(find_private_env_reads(source), vec!["DATABASE_URL"]);

    let source = r#"if (/^a\/b$/.test(x)) {} const key = process.env['API_KEY'];"#;
    assert_eq!(find_private_env_reads(source), vec!["API_KEY"]);
}

#[test]
fn boundary_division_is_not_mistaken_for_a_regex_literal() {
    let source = "const ratio = total / count; const db = process.env.DATABASE_URL;";
    assert_eq!(find_private_env_reads(source), vec!["DATABASE_URL"]);

    let source = "const ratio = (a + b) / 2 / 4; const key = process.env.API_KEY;";
    assert_eq!(find_private_env_reads(source), vec!["API_KEY"]);
}

#[test]
fn boundary_regex_after_a_keyword_is_still_a_regex() {
    let source = "function f() { return /['\"]/.source } const db = process.env.DATABASE_URL;";
    assert_eq!(find_private_env_reads(source), vec!["DATABASE_URL"]);
}

#[test]
fn detects_private_env_reads() {
    let source = "const db = process.env.DATABASE_URL; const pub = process.env.RUVYXA_PUBLIC_API; const key = process.env['API_KEY'];";
    let names = find_private_env_reads(source);
    assert_eq!(names, vec!["DATABASE_URL", "API_KEY"]);
}

#[test]
fn allows_public_env_and_node_env() {
    let source = "if (process.env.NODE_ENV === 'production') {}";
    assert!(find_private_env_reads(source).is_empty());
}

#[test]
fn ignores_env_text_in_comments_and_strings_but_keeps_template_expressions() {
    let source = r#"
            const docs = "process.env.DATABASE_URL";
            // process.env.API_KEY
            const rendered = `${process.env.DATABASE_URL}`;
        "#;

    assert_eq!(find_private_env_reads(source), vec!["DATABASE_URL"]);
}

#[test]
fn reserves_only_the_project_level_server_directory() {
    let root = "/project";
    assert!(is_inside_server_dir("/project/server/secret.ts", root));
    assert!(!is_inside_server_dir("/project/app/server/page.tsx", root));
}

#[test]
fn only_treats_actual_imports_as_boundary_markers() {
    assert!(!imports_marker(
        &parse_module("export const documentation = 'Use server-only modules for secrets.';"),
        "server-only"
    ));
    assert!(imports_marker(&parse_module("import 'server-only';"), "server-only"));
    assert!(is_server_only_specifier("@ruvyxa/auth"));
    assert!(is_server_only_specifier("@ruvyxa/database"));
    assert!(!is_server_only_specifier("@ruvyxa/auth/client"));
}

#[test]
fn paths_are_compared_by_whole_components() {
    assert!(is_inside_server_dir("/project/./server/secret.ts", "/project/"));
    assert!(is_inside_server_dir("/project//server", "/project"));
    assert!(!is_inside_server_dir("/projects/server/a.ts", "/project"));
    assert!(!is_inside_server_dir("/project/server-side/a.ts", "/project"));
    assert!(!is_inside_server_dir("/project", "/project"));
    assert!(!is_inside_server_dir("project/server/a.ts", "/project"));
}

#[test]
fn a_client_bundle_fails_on_its_first_forbidden_module_and_still_reports_later_reads() {
    let module = |source: &str, inside_server_dir: bool| BoundaryModule {
        is_external: false,
        inside_server_dir,
        ast: parse_module(source),
    };
    let modules = vec![
        module("const a = process.env.FIRST_SECRET;", false),
        module("import 'server-only';", false),
        module("export const x = 1;", true),
        module("const b = process.env.LATER_SECRET;", false),
    ];
    let (findings, first) = check(&modules, false);
    assert!(matches!(first, Some((1, Violation::ServerOnlyImport))));
    let names: Vec<(usize, String)> = findings
        .into_iter()
        .filter_map(|f| match f {
            Finding::PrivateEnvRead { module, name } => Some((module, name)),
            Finding::ClientOnlyImport { .. } => None,
        })
        .collect();
    assert_eq!(names, vec![(0, "FIRST_SECRET".to_string()), (3, "LATER_SECRET".to_string())]);
    let (_, none) = check(&modules, true);
    assert!(none.is_none());
}
