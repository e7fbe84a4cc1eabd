use ruvyxa::package_deps::{
    dependency_version, duplicate_dependencies, react_compatibility, ruvyxa_dependencies,
    PackageDependencies,
};

fn section(entries: &[(&str, Option<&str>)]) -> Option<Vec<(String, Option<String>)>> {
    Some(entries.iter().map(|(name, version)| (name.to_string(), version.map(str::to_string))).collect())
}

#[test]
fn detects_react_version_compatibility() {
    let package = PackageDependencies {
        dependencies: section(&[("react", Some("^19.0.0")), ("react-dom", Some("^19.1.0"))]),
        dev_dependencies: None,
        peer_dependencies: None,
    };

    assert_eq!(react_compatibility(&package), "ok (major 19)");
}

#[test]
fn detects_duplicate_dependency_versions() {
    let package = PackageDependencies {
        dependencies: section(&[("react", Some("^19.0.0"))]),
        dev_dependencies: section(&[("react", Some("^18.0.0"))]),
        peer_dependencies: None,
    };

    assert_eq!(duplicate_dependencies(&package), vec!["react (^19.0.0, ^18.0.0)"]);
}

#[test]
fn react_compatibility_names_what_is_missing_or_mismatched() {
    let only_react = PackageDependencies {
        dependencies: section(&[("react", Some("18.2.0"))]),
        dev_dependencies: None,
        peer_dependencies: None,
    };
    assert_eq!(react_compatibility(&only_react), "missing react-dom");
    let mismatch = PackageDependencies {
        dependencies: section(&[("react", Some("18.2.0"))]),
        dev_dependencies: section(&[("react-dom", Some("~19.0.0"))]),
        peer_dependencies: None,
    };
    assert_eq!(react_compatibility(&mismatch), "mismatch react 18 vs react-dom 19");
    let unknown = PackageDependencies {
        dependencies: section(&[("react", Some("latest")), ("react-dom", Some("19"))]),
        dev_dependencies: None,
        peer_dependencies: None,
    };
    assert_eq!(react_compatibility(&unknown), "unknown version format");
    let none = PackageDependencies { dependencies: None, dev_dependencies: None, peer_dependencies: None };
    assert_eq!(react_compatibility(&none), "missing react");
}

#[test]
fn a_dependency_version_comes_from_the_first_section_that_gives_text() {
    let package = PackageDependencies {
        dependencies: section(&[("ruvyxa", None)]),
        dev_dependencies: section(&[("ruvyxa", Some("1.0.0"))]),
        peer_dependencies: section(&[("ruvyxa", Some("2.0.0"))]),
    };
    assert_eq!(dependency_version(&package, "ruvyxa").as_deref(), Some("1.0.0"));
    assert_eq!(dependency_version(&package, "react"), None);
}

#[test]
fn ruvyxa_packages_are_listed_by_name_with_their_last_version() {
    let package = PackageDependencies {
        dependencies: section(&[("ruvyxa", Some("1.0.0")), ("@ruvyxa/auth", None), ("react", Some("19"))]),
        dev_dependencies: section(&[("@ruvyxa/adapter-node", Some("1.1.0")), ("ruvyxa", Some("1.2.0"))]),
        peer_dependencies: None,
    };
    assert_eq!(
        ruvyxa_dependencies(&package),
        vec![
            ("@ruvyxa/adapter-node".to_string(), "1.1.0".to_string()),
            ("@ruvyxa/auth".to_string(), "unknown".to_string()),
            ("ruvyxa".to_string(), "1.2.0".to_string()),
        ]
    );
}

#[test]
fn duplicates_are_reported_in_order_once_per_change() {
    let package = PackageDependencies {
        dependencies: section(&[("zod", Some("3")), ("axios", Some("1"))]),
        dev_dependencies: section(&[("zod", Some("3")), ("axios", Some("0.27"))]),
        peer_dependencies: section(&[("zod", None)]),
    };
    assert_eq!(
        duplicate_dependencies(&package),
        vec!["axios (1, 0.27)", "zod (3, unknown)"]
    );
}
