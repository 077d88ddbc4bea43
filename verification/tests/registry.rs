use std::collections::HashSet;

use moss::dependency::{Kind, Provider, TargetSet};
use moss::package::{self, Flags, Meta, Package};
use moss::registry::plugin::{Plugin, Test};
use moss::registry::Registry;

fn meta(name: &str, source_release: u64) -> Meta {
    Meta {
        name: package::Name::from(name.to_string()),
        version_identifier: String::new(),
        source_release,
        build_release: 0,
        architecture: String::new(),
        summary: String::new(),
        description: String::new(),
        source_id: String::new(),
        homepage: String::new(),
        licenses: Vec::new(),
        dependencies: TargetSet::new(),
        providers: TargetSet::new(),
        conflicts: TargetSet::new(),
        uri: None,
        hash: None,
        download_size: None,
    }
}

fn release_package(id: &str, release: u64) -> Package {
    Package {
        id: package::Id::from(id.to_string()),
        meta: meta(id, release),
        flags: Flags::new(),
    }
}

fn flagged_package(id: &str, flags: Flags) -> Package {
    Package {
        id: package::Id::from(id.to_string()),
        meta: meta(id, 0),
        flags,
    }
}

fn id(id: &str) -> package::Id {
    package::Id::from(id.to_string())
}

fn names(actual: Vec<Package>) -> HashSet<String> {
    actual.into_iter().map(|p| p.meta.name.0).collect()
}

fn expected(names: &[&str]) -> HashSet<String> {
    names.iter().map(|s| s.to_string()).collect()
}

fn ordering_registry() -> Registry {
    let mut registry = Registry::default();
    registry.add_plugin(Plugin::Test(Test::new(
        1,
        vec![release_package("a", 0), release_package("b", 100)],
    )));
    registry.add_plugin(Plugin::Test(Test::new(
        50,
        vec![release_package("c", 50), release_package("d", 1)],
    )));
    registry
}

fn flags_registry() -> Registry {
    let mut registry = Registry::default();
    registry.add_plugin(Plugin::Test(Test::new(
        1,
        vec![
            flagged_package("a", Flags::new().with_installed()),
            flagged_package("b", Flags::new().with_available()),
            flagged_package("c", Flags::new().with_source()),
            flagged_package("d", Flags::new().with_source().with_installed()),
            flagged_package("e", Flags::new().with_source().with_available()),
        ],
    )));
    registry
}

#[test]
fn registry_test_ordering() {
    let registry = ordering_registry();

    // Packages are sorted by plugin priority, desc -> release number, desc
    for (idx, package) in registry.list(Flags::new()).into_iter().enumerate() {
        match idx {
            0 => assert_eq!(package.id, id("c")),
            1 => assert_eq!(package.id, id("d")),
            2 => assert_eq!(package.id, id("b")),
            3 => assert_eq!(package.id, id("a")),
            _ => {}
        }
    }
}

#[test]
fn registry_test_flags() {
    let registry = flags_registry();

    let installed = registry.list_installed(Flags::new());
    let available = registry.list_available(Flags::new());
    let installed_source = registry.list_installed(Flags::new().with_source());
    let available_source = registry.list_available(Flags::new().with_source());

    assert!(names(installed) == expected(&["a", "d"]));
    assert!(names(available) == expected(&["b", "e"]));
    assert!(names(installed_source) == expected(&["d"]));
    assert!(names(available_source) == expected(&["e"]));
}

#[test]
fn mod_test_ordering() {
    let registry = ordering_registry();

    let query = registry.list(Flags::default());

    // Packages are sorted by plugin priority, desc -> release number, desc
    for (idx, package) in query.into_iter().enumerate() {
        match idx {
            0 => assert_eq!(package.id, id("c")),
            1 => assert_eq!(package.id, id("d")),
            2 => assert_eq!(package.id, id("b")),
            3 => assert_eq!(package.id, id("a")),
            _ => {}
        }
    }
}

#[test]
fn mod_test_flags() {
    let registry = flags_registry();

    let installed = registry.list_installed(Flags::default());
    let available = registry.list_available(Flags::default());
    let installed_source = registry.list_installed(Flags::new().with_source());
    let available_source = registry.list_available(Flags::new().with_source());

    assert!(names(installed) == expected(&["a", "d"]));
    assert!(names(available) == expected(&["b", "e"]));
    assert!(names(installed_source) == expected(&["d"]));
    assert!(names(available_source) == expected(&["e"]));
}

#[test]
fn list_yields_every_package_once_in_order() {
    let registry = ordering_registry();
    let ids: Vec<String> = registry.list(Flags::new()).into_iter().map(|p| p.id.0).collect();
    assert_eq!(ids, vec!["c", "d", "b", "a"]);
}

#[test]
fn plugin_added_with_lower_priority_comes_later() {
    let mut registry = Registry::new();
    registry.add_plugin(Plugin::Test(Test::new(5, vec![release_package("low", 9)])));
    registry.add_plugin(Plugin::Test(Test::new(10, vec![release_package("high", 1)])));
    registry.add_plugin(Plugin::Test(Test::new(5, vec![release_package("low2", 9)])));
    let ids: Vec<String> = registry.list(Flags::new()).into_iter().map(|p| p.id.0).collect();
    assert_eq!(ids, vec!["high", "low", "low2"]);
}

#[test]
fn by_id_finds_one_package_per_plugin() {
    let mut registry = Registry::new();
    registry.add_plugin(Plugin::Test(Test::new(1, vec![release_package("x", 1)])));
    registry.add_plugin(Plugin::Test(Test::new(2, vec![release_package("x", 2), release_package("y", 1)])));
    let found = registry.by_id(&id("x"));
    let releases: Vec<u64> = found.iter().map(|p| p.meta.source_release).collect();
    assert_eq!(releases, vec![2, 1]);
    assert!(registry.by_id(&id("zz")).is_empty());
}

#[test]
fn by_provider_and_id_only_agree() {
    let mut with_provider = meta("lib", 3);
    with_provider.providers.insert(Provider { kind: Kind::SharedLibrary, name: "libz.so.1".to_string() });
    let mut other = meta("app", 1);
    other.providers.insert(Provider { kind: Kind::PackageName, name: "app".to_string() });

    let mut registry = Registry::new();
    registry.add_plugin(Plugin::Test(Test::new(
        1,
        vec![
            Package { id: id("zlib"), meta: with_provider.clone(), flags: Flags::new().with_available() },
            Package { id: id("app"), meta: other, flags: Flags::new().with_available() },
            Package { id: id("alib"), meta: with_provider, flags: Flags::new().with_available() },
        ],
    )));

    let provider = Provider { kind: Kind::SharedLibrary, name: "libz.so.1".to_string() };
    let packages: Vec<String> = registry.by_provider(&provider, Flags::new()).into_iter().map(|p| p.id.0).collect();
    assert_eq!(packages, vec!["zlib", "alib"]);

    // The identifiers of each plugin come in lexicographic order.
    let ids: Vec<String> = registry.by_provider_id_only(&provider, Flags::new()).into_iter().map(|i| i.0).collect();
    assert_eq!(ids, vec!["alib", "zlib"]);
}

#[test]
fn by_keyword_matches_name_or_summary() {
    let mut described = meta("editor", 1);
    described.summary = "A Text Editor".to_string();
    let mut registry = Registry::new();
    registry.add_plugin(Plugin::Test(Test::new(
        1,
        vec![
            Package { id: id("editor"), meta: described, flags: Flags::new() },
            Package { id: id("shell"), meta: meta("shell", 1), flags: Flags::new() },
        ],
    )));
    let found: Vec<String> = registry.by_keyword("Text", Flags::new()).into_iter().map(|p| p.id.0).collect();
    assert_eq!(found, vec!["editor"]);
    let found: Vec<String> = registry.by_keyword("ell", Flags::new()).into_iter().map(|p| p.id.0).collect();
    assert_eq!(found, vec!["shell"]);
}
