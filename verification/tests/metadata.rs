use moss::db::layout::{decode_entry, decode_row, encode_entry, encode_row};
use moss::db::meta::{encode_metas, passes_filter, read_metas, Filter, MetaRow};
use moss::dependency::{parse, Dependency, Kind, Provider, TargetSet};
use moss::index::{index_metas, Error as IndexError};
use moss::package::{self, Meta};
use moss::stone::{Layout, LayoutEntry, MetaBody, MetaDependency, MetaKind, MetaTag};

fn meta(name: &str, source_release: u64, architecture: &str) -> Meta {
    Meta {
        name: package::Name::from(name.to_string()),
        version_identifier: "1.0".to_string(),
        source_release,
        build_release: 1,
        architecture: architecture.to_string(),
        summary: format!("{name} summary"),
        description: format!("{name} description"),
        source_id: name.to_string(),
        homepage: "https://example.org".to_string(),
        licenses: vec!["MIT".to_string()],
        dependencies: TargetSet::new(),
        providers: TargetSet::new(),
        conflicts: TargetSet::new(),
        uri: None,
        hash: None,
        download_size: None,
    }
}

fn full_meta() -> Meta {
    let mut m = meta("bash-completion", 1, "x86_64");
    m.licenses = vec!["GPL-2.0-or-later".to_string(), "MIT".to_string()];
    m.dependencies.insert(Dependency { kind: Kind::SharedLibrary, name: "libc.so.6(x86_64)".to_string() });
    m.dependencies.insert(Dependency { kind: Kind::PackageName, name: "bash".to_string() });
    m.providers.insert(Provider { kind: Kind::PackageName, name: "bash-completion".to_string() });
    m.providers.insert(Provider { kind: Kind::PkgConfig, name: "bash-completion".to_string() });
    m.conflicts.insert(Provider { kind: Kind::PackageName, name: "pineapple".to_string() });
    m.uri = Some("b/bash-completion.stone".to_string());
    m.hash = Some("abcdef0123456789".to_string());
    m.download_size = Some(4096);
    m
}

#[test]
fn stone_payload_roundtrip() {
    let m = full_meta();
    let payload = m.clone().to_stone_payload();
    let back = Meta::from_stone_payload(&payload).unwrap();
    assert_eq!(back, m);
}

#[test]
fn stone_payload_adds_own_name_as_provider() {
    let mut m = meta("zsh", 3, "x86_64");
    m.providers.insert(Provider { kind: Kind::Binary, name: "zsh".to_string() });
    let back = Meta::from_stone_payload(&m.clone().to_stone_payload()).unwrap();
    let rendered: Vec<String> = (0..back.providers.len()).map(|i| back.providers.get(i).to_string()).collect();
    assert_eq!(rendered, vec!["binary(zsh)", "name(zsh)"]);
}

#[test]
fn stone_payload_missing_field_is_reported() {
    let payload = vec![MetaBody { tag: MetaTag::Name, kind: MetaKind::String("only-a-name".to_string()) }];
    match Meta::from_stone_payload(&payload) {
        Err(e) => assert_eq!(e.0, MetaTag::Version),
        Ok(_) => panic!("metadata without a version must be refused"),
    }
}

#[test]
fn stone_payload_reads_dependency_records() {
    let payload = vec![
        MetaBody { tag: MetaTag::Name, kind: MetaKind::String("nano".to_string()) },
        MetaBody { tag: MetaTag::Version, kind: MetaKind::String("8.0".to_string()) },
        MetaBody { tag: MetaTag::Release, kind: MetaKind::Uint64(4) },
        MetaBody { tag: MetaTag::BuildRelease, kind: MetaKind::Uint64(1) },
        MetaBody { tag: MetaTag::Architecture, kind: MetaKind::String("x86_64".to_string()) },
        MetaBody { tag: MetaTag::Summary, kind: MetaKind::String("editor".to_string()) },
        MetaBody { tag: MetaTag::Description, kind: MetaKind::String("small editor".to_string()) },
        MetaBody { tag: MetaTag::SourceID, kind: MetaKind::String("nano".to_string()) },
        MetaBody { tag: MetaTag::Homepage, kind: MetaKind::String("https://nano-editor.org".to_string()) },
        MetaBody {
            tag: MetaTag::Depends,
            kind: MetaKind::Dependency(MetaDependency::SharedLibrary, "libncursesw.so.6(x86_64)".to_string()),
        },
    ];
    let m = Meta::from_stone_payload(&payload).unwrap();
    assert_eq!(m.name.0, "nano");
    assert_eq!(m.source_release, 4);
    assert_eq!(m.dependencies.len(), 1);
    assert_eq!(m.dependencies.get(0).to_string(), "soname(libncursesw.so.6(x86_64))");
    assert_eq!(m.id().0, "nano-8.0-4.x86_64");
}

#[test]
fn dependency_parse_and_render() {
    let (kind, name) = parse("pkgconfig(zlib)").unwrap();
    assert_eq!(kind, Kind::PkgConfig);
    assert_eq!(name, "zlib");
    let (kind, name) = parse("soname(libz.so.1(x86_64))").unwrap();
    assert_eq!(kind, Kind::SharedLibrary);
    assert_eq!(name, "libz.so.1(x86_64)");
    assert!(parse("nothing").is_err());
    assert!(parse("bogus(x)").is_err());
    assert_eq!(Dependency::from_name("bash").unwrap().to_string(), "name(bash)");
    assert_eq!(Provider::from_str("binary(ls)").unwrap().to_string(), "binary(ls)");
}

#[test]
fn index_keeps_latest_release_per_name() {
    let list = vec![
        meta("b", 1, "x86_64"),
        meta("a", 2, "x86_64"),
        meta("b", 3, "x86_64"),
        meta("a", 1, "x86_64"),
    ];
    let index = index_metas(list).unwrap();
    let kept: Vec<(String, u64)> = index.iter().map(|m| (m.name.0.clone(), m.source_release)).collect();
    assert_eq!(kept, vec![("a".to_string(), 2), ("b".to_string(), 3)]);
}

#[test]
fn index_refuses_duplicate_release() {
    let list = vec![meta("a", 1, "x86_64"), meta("c", 1, "x86_64"), meta("a", 1, "x86_64")];
    match index_metas(list) {
        Err(IndexError::DuplicateRelease(name, release)) => {
            assert_eq!(name.0, "a");
            assert_eq!(release, 1);
        }
        Ok(_) => panic!("duplicate release must be refused"),
    }
}

#[test]
fn index_same_release_other_architecture_keeps_first() {
    let list = vec![meta("a", 1, "x86_64"), meta("a", 1, "aarch64")];
    let index = index_metas(list).unwrap();
    assert_eq!(index.len(), 1);
    assert_eq!(index[0].architecture, "x86_64");
}

#[test]
fn meta_rows_read_back_what_was_stored() {
    let first = full_meta();
    let second = meta("zlib", 7, "x86_64");
    let packages = vec![
        (package::Id::from("test".to_string()), first.clone()),
        (package::Id::from("alpha".to_string()), second.clone()),
    ];
    let rows = encode_metas(&packages);
    assert_eq!(rows.metas.len(), 2);
    assert_eq!(rows.licenses.len(), 3);
    assert_eq!(rows.conflicts, vec![("test".to_string(), "name(pineapple)".to_string())]);
    let read = read_metas(&rows.metas, &rows.licenses, &rows.dependencies, &rows.providers, &rows.conflicts).unwrap();
    assert_eq!(read.len(), 2);
    assert_eq!(read[0].0.0, "alpha");
    assert_eq!(read[0].1, second);
    assert_eq!(read[1].0.0, "test");
    assert_eq!(read[1].1, first);
}

#[test]
fn meta_rows_store_releases_as_signed() {
    let big = meta("big", (i32::MAX as u64) + 1, "x86_64");
    let rows = encode_metas(&vec![(package::Id::from("big".to_string()), big)]);
    assert_eq!(rows.metas[0].source_release, i32::MIN);
}

#[test]
fn meta_rows_with_bad_dependency_are_refused() {
    let row = MetaRow {
        package: "p".to_string(),
        name: "p".to_string(),
        version_identifier: "1".to_string(),
        source_release: 1,
        build_release: 1,
        architecture: "x86_64".to_string(),
        summary: String::new(),
        description: String::new(),
        source_id: "p".to_string(),
        homepage: String::new(),
        uri: None,
        hash: None,
        download_size: Some(-1),
    };
    let deps = vec![("p".to_string(), "no-parens".to_string())];
    let err = read_metas(&vec![row.clone()], &vec![], &deps, &vec![], &vec![]).unwrap_err();
    assert_eq!(err.0, "no-parens");
    let ok = read_metas(&vec![row], &vec![], &vec![], &vec![], &vec![]).unwrap();
    assert_eq!(ok[0].1.download_size, Some(u64::MAX));
}

#[test]
fn filters_select_metadata() {
    let m = full_meta();
    assert!(moss::db::meta::matches(&m, &Filter::Provider(Provider { kind: Kind::PackageName, name: "bash-completion".to_string() })));
    assert!(!moss::db::meta::matches(&m, &Filter::Provider(Provider { kind: Kind::PackageName, name: "bash".to_string() })));
    assert!(moss::db::meta::matches(&m, &Filter::Dependency(Dependency { kind: Kind::PackageName, name: "bash".to_string() })));
    assert!(moss::db::meta::matches(&m, &Filter::Name(package::Name::from("bash-completion".to_string()))));
    assert!(moss::db::meta::matches(&m, &Filter::Keyword("COMPLETION".to_string())));
    assert!(!moss::db::meta::matches(&m, &Filter::Keyword("zsh".to_string())));
    assert!(passes_filter(&m, None));
}

#[test]
fn keyword_filter_follows_like_patterns() {
    let m = full_meta();
    let keyword = |k: &str| moss::db::meta::matches(&m, &Filter::Keyword(k.to_string()));
    // `_` stands for one character, `%` for any run of them.
    assert!(keyword("bash_completion"));
    assert!(keyword("b%n"));
    assert!(keyword("%"));
    assert!(keyword(""));
    assert!(keyword("BaSh-C"));
    assert!(!keyword("bash__completion"));
    assert!(!keyword("n%b"));
    // Only ASCII letters are folded.
    assert!(!keyword("BASH-COMPLETIÖN"));
}

#[test]
fn layout_entries_roundtrip() {
    let entries = vec![
        LayoutEntry::Regular(0x1234, "usr/bin/ls".to_string()),
        LayoutEntry::Symlink("ls".to_string(), "usr/bin/dir".to_string()),
        LayoutEntry::Directory("usr/share".to_string()),
        LayoutEntry::CharacterDevice("dev/null".to_string()),
        LayoutEntry::BlockDevice("dev/sda".to_string()),
        LayoutEntry::Fifo("run/fifo".to_string()),
        LayoutEntry::Socket("run/sock".to_string()),
    ];
    for entry in entries {
        let (t, a, b) = encode_entry(entry.clone());
        assert_eq!(decode_entry(t, a, b), Some(entry));
    }
    let (t, a, _) = encode_entry(LayoutEntry::Regular(255, "f".to_string()));
    assert_eq!(t, "regular");
    assert_eq!(a.as_deref(), Some("255"));
    assert_eq!(decode_entry("unknown", None, None), None);
}

#[test]
fn layout_rows_roundtrip() {
    let layout = Layout {
        uid: u32::MAX,
        gid: 100,
        mode: 0o100644,
        tag: 0,
        entry: LayoutEntry::Regular(42, "usr/lib/libz.so".to_string()),
    };
    let row = encode_row(package::Id::from("zlib".to_string()), layout.clone());
    assert_eq!(row.uid, -1);
    let (id, back) = decode_row(row).unwrap();
    assert_eq!(id.0, "zlib");
    assert_eq!(back, layout);
}

#[test]
fn test_conflict_is_recognized() {
    // The metadata records of a package whose recipe conflicts with
    // `name(pineapple)`.
    let text = |tag: MetaTag, value: &str| MetaBody { tag, kind: MetaKind::String(value.to_string()) };
    let payload = vec![
        text(MetaTag::Name, "italian-pizza"),
        text(MetaTag::Version, "1"),
        MetaBody { tag: MetaTag::Release, kind: MetaKind::Uint64(1) },
        MetaBody { tag: MetaTag::BuildRelease, kind: MetaKind::Uint64(1) },
        text(MetaTag::Architecture, "x86_64"),
        text(MetaTag::Summary, "Italian pizza"),
        text(MetaTag::Description, "Pizza without pineapple"),
        text(MetaTag::SourceID, "italian-pizza"),
        text(MetaTag::Homepage, "https://example.org"),
        MetaBody { tag: MetaTag::Conflicts, kind: MetaKind::Provider(MetaDependency::PackageName, "pineapple".to_string()) },
    ];
    let pineapple_provider = Provider { kind: Kind::PackageName, name: "pineapple".to_string() };
    let meta = Meta::from_stone_payload(&payload).unwrap();

    // Store it, then read it back.
    let rows = encode_metas(&vec![(package::Id::from_meta(meta.id()), meta.clone())]);
    let stored = read_metas(&rows.metas, &rows.licenses, &rows.dependencies, &rows.providers, &rows.conflicts).unwrap();

    // Ensure we're parsing the correct package!
    assert_eq!(&meta.name, &package::Name::from("italian-pizza".to_string()));
    // Ensure that the conflict info already exists in the binary package.
    assert_eq!((0..meta.conflicts.len()).map(|i| meta.conflicts.get(i).clone()).collect::<Vec<Provider>>(), vec![pineapple_provider.clone()]);

    // Now retrieve by provider.
    let lookup = Filter::Provider(Provider { kind: Kind::PackageName, name: "italian-pizza".to_string() });
    let fetched: Vec<_> = stored.into_iter().filter(|(_, m)| passes_filter(m, Some(&lookup))).collect();
    assert_eq!(fetched.len(), 1);

    let (_, retrieved_pkg) = fetched.first().unwrap();
    let retrieved_conflicts: Vec<Provider> =
        (0..retrieved_pkg.conflicts.len()).map(|i| retrieved_pkg.conflicts.get(i).clone()).collect();
    // Ensure that the conflicts field is inserted into and can be queried
    // correctly.
    assert_eq!(retrieved_conflicts, vec![pineapple_provider]);
}

#[test]
fn content_digest_is_hex_sha256_of_the_bytes() {
    assert_eq!(
        moss::digest::content_digest(b"abc"),
        "ba7816bf8f01cfea414140de5dae2223b00361a396177a9cb410ff61f20015ad"
    );
}

#[test]
fn local_packages_record_location_digest_and_size() {
    let m = full_meta();
    let payload = m.clone().to_stone_payload();
    let mut cobble = moss::registry::plugin::Cobble::new();
    let id = cobble.add_package("pkg.stone".to_string(), "/tmp/pkg.stone", &payload, b"abc").unwrap();
    assert_eq!(id.0, moss::registry::plugin::cobble::path_hash("pkg.stone").0);
    let p = cobble.package(&id).unwrap();
    assert_eq!(p.meta.uri.as_deref(), Some("file:///tmp/pkg.stone"));
    assert_eq!(
        p.meta.hash.as_deref(),
        Some("ba7816bf8f01cfea414140de5dae2223b00361a396177a9cb410ff61f20015ad")
    );
    assert_eq!(p.meta.download_size, Some(3));
    assert_eq!(p.meta.name, m.name);
}

#[test]
fn from_name_refuses_broken_targets() {
    assert!(Dependency::from_name("pkgconfig(zlib").is_err());
    assert!(Dependency::from_name("foo(bar)").is_err());
    assert!(Provider::from_name("soname(").is_err());
    let d = Dependency { kind: Kind::PkgConfig, name: "zlib".to_string() };
    assert_eq!(Dependency::from_name(&d.to_string()).unwrap(), d);
}

#[test]
fn indexed_meta_records_digest_size_and_path() {
    let m = full_meta();
    let r = moss::index::indexed_meta(m.clone(), "b/bash.stone".to_string(), b"abc");
    assert_eq!(r.uri.as_deref(), Some("b/bash.stone"));
    assert_eq!(r.hash.as_deref(), Some("ba7816bf8f01cfea414140de5dae2223b00361a396177a9cb410ff61f20015ad"));
    assert_eq!(r.download_size, Some(3));
    assert_eq!(r.name, m.name);
}
