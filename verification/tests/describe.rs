use moss::dependency::{Kind, Provider, TargetSet};
use moss::info::{info_candidates, unique_by_id, Error as InfoError};
use moss::package::{self, Flags, Meta, Package};
use moss::paragraph::wrap_paragraphs;
use moss::registry::plugin::{Plugin, Test};
use moss::registry::Registry;

fn lines(text: &str, limit: usize) -> Vec<Vec<String>> {
    wrap_paragraphs(text, limit)
}

fn owned(paragraphs: &[&[&str]]) -> Vec<Vec<String>> {
    paragraphs.iter().map(|p| p.iter().map(|l| l.to_string()).collect()).collect()
}

#[test]
fn paragraphs_are_filled_below_the_limit() {
    let text = "First line\nsecond\n\n  \nNext para here";
    assert_eq!(lines(text, 12), owned(&[&["First line", "second"], &["Next para", "here"]]));
    // A wider limit joins the lines of a paragraph.
    assert_eq!(lines(text, 80), owned(&[&["First line second"], &["Next para here"]]));
    // The space between words is not counted: a line may reach the limit.
    assert_eq!(lines("abcd efghi j", 10), owned(&[&["abcd efghi", "j"]]));
}

#[test]
fn a_long_first_word_follows_an_empty_line() {
    assert_eq!(lines("abcdefghijklmnop x", 5), owned(&[&["", "abcdefghijklmnop", "x"]]));
}

#[test]
fn widths_count_utf8_bytes_and_line_endings_are_white_space() {
    // "é" takes two bytes: "é é" is five bytes wide.
    assert_eq!(lines("é é é", 6), owned(&[&["é é", "é"]]));
    assert_eq!(lines("a\r\nb\r\n", 10), owned(&[&["a b"]]));
    assert_eq!(lines("", 10), owned(&[]));
    assert_eq!(lines(" \n\t\n", 10), owned(&[]));
    // Only line feeds break paragraphs; tabs and other spaces split words.
    assert_eq!(lines("one\ttwo\u{a0}three", 80), owned(&[&["one two three"]]));
}

fn meta(name: &str) -> Meta {
    let mut providers = TargetSet::new();
    providers.insert(Provider { kind: Kind::PackageName, name: name.to_string() });
    Meta {
        name: package::Name::from(name.to_string()),
        version_identifier: "1".to_string(),
        source_release: 1,
        build_release: 1,
        architecture: "x86_64".to_string(),
        summary: String::new(),
        description: String::new(),
        source_id: name.to_string(),
        homepage: String::new(),
        licenses: Vec::new(),
        dependencies: TargetSet::new(),
        providers,
        conflicts: TargetSet::new(),
        uri: None,
        hash: None,
        download_size: None,
    }
}

fn package(id: &str, name: &str, flags: Flags) -> Package {
    Package { id: package::Id::from(id.to_string()), meta: meta(name), flags }
}

#[test]
fn the_first_package_of_each_identifier_is_kept() {
    let packages = vec![
        package("a", "nano", Flags::new().with_installed()),
        package("b", "nano", Flags::new()),
        package("a", "nano", Flags::new().with_available()),
    ];
    let kept = unique_by_id(&packages);
    assert_eq!(kept.len(), 2);
    assert_eq!(kept[0].id, package::Id::from("a".to_string()));
    assert!(kept[0].flags.installed);
    assert_eq!(kept[1].id, package::Id::from("b".to_string()));
}

#[test]
fn info_finds_providers_once_each() {
    let mut registry = Registry::new();
    registry.add_plugin(Plugin::Test(Test::new(1, vec![package("nano-1", "nano", Flags::new().with_installed())])));
    registry.add_plugin(Plugin::Test(Test::new(
        0,
        vec![
            package("nano-1", "nano", Flags::new().with_available()),
            package("nano-2", "nano", Flags::new().with_available()),
        ],
    )));
    let found = info_candidates(&registry, "nano").unwrap();
    let ids: Vec<String> = found.iter().map(|p| p.id.0.clone()).collect();
    assert_eq!(ids, vec!["nano-1".to_string(), "nano-2".to_string()]);
    assert!(found[0].flags.installed);
    match info_candidates(&registry, "vim") {
        Err(InfoError::NotFound(name)) => assert_eq!(name, "vim"),
        Ok(_) => panic!("nothing provides vim"),
    }
}
