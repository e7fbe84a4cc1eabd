use ruvyxa::ast::{has_default_export, parse_module, ImportKind};

#[test]
fn parses_static_dynamic_and_re_export_imports() {
    let ast = parse_module(
        r#"
import React from "react"
import "./global.css"
export { helper } from "./helper"
const lazy = import("./lazy")
const data = require("./data")
"#,
    );

    assert!(ast
        .imports
        .iter()
        .any(|edge| { edge.specifier == "react" && edge.kind == ImportKind::Static }));
    assert!(ast
        .imports
        .iter()
        .any(|edge| { edge.specifier == "./global.css" && edge.kind == ImportKind::SideEffect }));
    assert!(ast
        .imports
        .iter()
        .any(|edge| { edge.specifier == "./helper" && edge.kind == ImportKind::ReExport }));
    assert_eq!(ast.dynamic_import_specifiers(), vec!["./lazy"]);
    assert!(ast.import_specifiers().contains(&"./data".to_string()));
}

#[test]
fn records_transform_features() {
    let ast = parse_module(
        r#"
@sealed
const enum Mode { A }
export default function Page(props: Props) { return <main /> }
"#,
    );

    assert!(ast.has_decorators);
    assert!(ast.has_enums);
    assert!(ast.has_typescript);
    assert!(ast.has_jsx);
    assert!(ast.exports.contains(&"Page".to_string()));
}

#[test]
fn ignores_type_only_imports() {
    let ast = parse_module(
        r#"
import type { PageProps } from "ruvyxa/config";
import { createElement } from "react";
"#,
    );

    assert_eq!(ast.import_specifiers(), vec!["react"]);
}

#[test]
fn recognizes_every_runtime_default_export_form() {
    for source in [
        "export default function Page() { return <main /> }",
        "export default class Page {}",
        "export default () => <main />",
        "const Page = () => <main />;\nexport default Page",
        "function Page() {}\nexport { Page as default }",
        "function Page() {}\nexport { Page as default, Page as Other }",
        "export { default } from \"./page\"",
        "export * as default from \"./page\"",
        "export {\n  // the page component\n  Page as default,\n}",
        "export { Page as Other, Page as default }",
    ] {
        assert!(has_default_export(source), "should detect a default export in: {source}");
    }
}

#[test]
fn rejects_sources_without_a_runtime_default_export() {
    for source in [
        "export const title = 'Missing'",
        "export function Page() {}",
        "// export default function Page() {}",
        "/* export default function Page() {} */",
        "const help = \"export default function Page() {}\"",
        "export const defaultTitle = 'Missing'",
        "export { Page }",
        "export { default as Page } from \"./page\"",
        "export type { Page as default } from \"./page\"",
        "export * from \"./page\"",
    ] {
        assert!(!has_default_export(source), "should not detect a default export in: {source}");
    }
}

#[test]
fn regex_literals_do_not_hide_later_imports() {
    let ast = parse_module(
        r#"
const QUOTED = /["']/g
const CLASS_SLASH = /[/"]/
import { helper } from "./helper"
export { shared } from "./shared"
const lazy = import("./lazy")
"#,
    );

    assert_eq!(
        ast.import_specifiers(),
        vec!["./helper", "./shared", "./lazy"],
        "a regex literal must not swallow the rest of the module"
    );
}

#[test]
fn regex_literals_do_not_hide_a_later_default_export() {
    for source in [
        "const RE = /[\"']/;\nexport default function Page() { return <main /> }",
        "const RE = /don't/;\nexport default function Page() {}",
        "const RE = /[/\"]/g;\nfunction Page() {}\nexport { Page as default }",
    ] {
        assert!(has_default_export(source), "should detect: {source}");
    }
}

#[test]
fn template_interpolations_are_scanned_as_code() {
    let ast = parse_module(
        r#"
const loader = `${require("server-only")}`
const nested = `outer ${cond ? `inner ${import("./lazy")}` : ""} tail`
const text = `import "not-an-import" and require("not-either")`
"#,
    );

    let specifiers = ast.import_specifiers();
    assert!(specifiers.contains(&"server-only".to_string()), "{specifiers:?}");
    assert!(specifiers.contains(&"./lazy".to_string()), "{specifiers:?}");
    assert!(
        !specifiers.contains(&"not-an-import".to_string()),
        "literal template text is not code: {specifiers:?}"
    );
    assert!(
        !specifiers.contains(&"not-either".to_string()),
        "literal template text is not code: {specifiers:?}"
    );
}

#[test]
fn interpolation_scans_do_not_read_past_their_own_range() {
    let ast = parse_module(r#"const trap = `${import}` from "./not-an-import"`"#);
    assert!(
        ast.import_specifiers().is_empty(),
        "text after an interpolation is not its specifier: {:?}",
        ast.import_specifiers()
    );

    let ast = parse_module(r#"const trap = `${require} ("./nope")`"#);
    assert!(ast.import_specifiers().is_empty(), "{:?}", ast.imports);

    let ast = parse_module(r#"const trap = `${export} * from "./nope"`"#);
    assert!(ast.import_specifiers().is_empty(), "{:?}", ast.imports);

    let ast = parse_module(r#"const real = `${import("./lazy")}`"#);
    assert_eq!(ast.import_specifiers(), vec!["./lazy"]);
}

#[test]
fn braces_inside_interpolated_strings_do_not_end_the_interpolation() {
    let ast = parse_module(
        r#"
const label = `${obj["}"]} tail`
import { helper } from "./helper"
"#,
    );

    assert_eq!(ast.import_specifiers(), vec!["./helper"]);
}

#[test]
fn ast_division_is_not_mistaken_for_a_regex_literal() {
    let ast = parse_module(
        r#"
const ratio = total / count
const scaled = (a + b) / 2
const indexed = list[0] / 2
import { helper } from "./helper"
"#,
    );

    assert_eq!(ast.import_specifiers(), vec!["./helper"]);
}

#[test]
fn ast_regex_after_a_keyword_is_still_a_regex() {
    let ast = parse_module(
        r#"
function pattern() { return /["']/ }
import { helper } from "./helper"
"#,
    );

    assert_eq!(ast.import_specifiers(), vec!["./helper"]);
}

#[test]
fn default_export_detection_survives_unterminated_clauses() {
    for source in ["export {", "export { Page as", "export *", "export"] {
        assert!(!has_default_export(source), "{source}");
    }
}

#[test]
fn specifiers_and_export_names_are_source_text_even_when_truncated() {
    let source = "import a from './a'; export { b } from \"./b\"; export function named() {} import('./c";
    let ast = parse_module(source);
    for specifier in ast.import_specifiers() {
        assert!(source.contains(specifier.as_str()));
    }
    for name in ast.exports.iter() {
        assert!(source.contains(name.as_str()));
    }
    assert!(ast.exports.iter().any(|name| name == "named"));
}
