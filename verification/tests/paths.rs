use moss::client::cache::{
    asset_path, digest_asset_path, download_path, download_target, Error as CacheError, Progress, UnpackingInProgress,
};
use moss::dependency::TargetSet;
use moss::package::{Meta, Name};
use moss::client::postblit::{Scope, TriggerScope};
use moss::config::{domain_dir, domain_file, Base, EXTENSION};
use moss::installation::{lock_paths, parse_state_id, read_legacy_state_id, Installation, Mutability};
use moss::path::{join, split_components};
use moss::registry::plugin::cobble::path_hash;
use moss::repository::{Id as RepoId, Priority, Repository, RepositoryMap};
use moss::state;
use moss::text::{parse_i32, u128_to_hex};

fn installation(root: &str) -> Installation {
    Installation {
        root: root.to_string(),
        mutability: Mutability::ReadWrite,
        active_state: None,
        cache_dir: None,
    }
}

#[test]
fn paths_join_like_unix_paths() {
    assert_eq!(join("/usr", "bin"), "/usr/bin");
    assert_eq!(join("/usr/", "bin"), "/usr/bin");
    assert_eq!(join("", "bin"), "bin");
    assert_eq!(join("/usr", "/etc"), "/etc");
    assert_eq!(split_components("/usr//lib/./x"), vec!["usr", "lib", "x"]);
}

#[test]
fn installation_paths() {
    let i = installation("/");
    assert_eq!(i.moss_path("x"), "/.moss/x");
    assert_eq!(i.db_path("state"), "/.moss/db/state");
    assert_eq!(i.cache_path("downloads"), "/.moss/cache/downloads");
    assert_eq!(i.assets_path("v2"), "/.moss/assets/v2");
    assert_eq!(i.repo_path("volatile"), "/.moss/repo/volatile");
    assert_eq!(i.root_path("5"), "/.moss/root/5");
    assert_eq!(i.staging_dir(), "/.moss/root/staging");
    assert_eq!(i.staging_path("usr"), "/.moss/root/staging/usr");
    assert_eq!(i.isolation_dir(), "/.moss/root/isolation");
    assert_eq!(i.isolation_path("etc"), "/.moss/root/isolation/etc");
    assert!(!i.read_only());

    let mut custom = installation("/tmp/root");
    custom.cache_dir = Some("/var/cache/moss".to_string());
    custom.mutability = Mutability::ReadOnly;
    assert_eq!(custom.cache_path("downloads"), "/var/cache/moss/downloads");
    assert!(custom.read_only());
    assert_eq!(Mutability::ReadOnly.name(), "read-only");
}

#[test]
fn lock_files() {
    assert_eq!(lock_paths("/.moss", None), vec!["/.moss/.moss-lockfile"]);
    assert_eq!(
        lock_paths("/.moss", Some("/cache")),
        vec!["/.moss/.moss-lockfile", "/cache/.moss-lockfile"]
    );
}

#[test]
fn legacy_state_links() {
    assert_eq!(read_legacy_state_id(".moss/root/12/usr"), Some(state::Id(12)));
    assert_eq!(read_legacy_state_id("/.moss/root/-3/usr/"), Some(state::Id(-3)));
    assert_eq!(read_legacy_state_id(".moss/root/x/usr"), None);
    assert_eq!(read_legacy_state_id("usr"), None);
    assert_eq!(parse_state_id("42"), Some(state::Id(42)));
    assert_eq!(parse_state_id("4x"), None);
}

#[test]
fn integers_parse_as_rust_does() {
    assert_eq!(parse_i32("0"), Some(0));
    assert_eq!(parse_i32("+7"), Some(7));
    assert_eq!(parse_i32("-2147483648"), Some(i32::MIN));
    assert_eq!(parse_i32("2147483647"), Some(i32::MAX));
    assert_eq!(parse_i32("2147483648"), None);
    assert_eq!(parse_i32(""), None);
    assert_eq!(parse_i32("-"), None);
    assert_eq!(u128_to_hex(0), "00");
    assert_eq!(u128_to_hex(0xabc), "abc");
}

#[test]
fn cache_locations() {
    let i = installation("/");
    let hash = "0123456789abcdef";
    assert_eq!(
        download_path(&i, hash).unwrap(),
        "/.moss/cache/downloads/v1/01234/bcdef/0123456789abcdef"
    );
    match download_path(&i, "abc") {
        Err(CacheError::MalformedHash(h)) => assert_eq!(h, "abc"),
        other => panic!("short digests have no download path: {other:?}"),
    }
    assert_eq!(asset_path(&i, hash), "/.moss/assets/v2/01/23/45/0123456789abcdef");
    assert_eq!(asset_path(&i, "abc"), "/.moss/assets/v2/abc");
    assert_eq!(digest_asset_path(&i, 0x0123456789abcdef), "/.moss/assets/v2/12/34/56/123456789abcdef");
    assert_eq!(digest_asset_path(&i, 5), "/.moss/assets/v2/05");
}

#[test]
fn unpacking_set_refuses_second_claim() {
    let mut set = UnpackingInProgress::new();
    assert!(set.add("/a".to_string()));
    assert!(!set.add("/a".to_string()));
    assert!(set.add("/b".to_string()));
    set.remove("/a");
    assert!(set.add("/a".to_string()));
}

#[test]
fn config_locations() {
    assert_eq!(EXTENSION, "conf");
    assert_eq!(domain_file("/", Base::Admin, "repo"), "/etc/moss/repo.conf");
    assert_eq!(domain_dir("/", Base::Vendor, "repo"), "/usr/share/moss/repo.conf.d");
}

#[test]
fn trigger_scope_paths() {
    let i = installation("/sys");
    let stateful = Scope::Stateful;
    let ephemeral = Scope::Ephemeral { blit_root: "/blit".to_string() };
    assert_eq!(TriggerScope::Transaction(&i, &stateful).root_dir(), "/sys/.moss/root/staging");
    assert_eq!(TriggerScope::System(&i, &stateful).root_dir(), "/sys");
    assert_eq!(TriggerScope::Transaction(&i, &ephemeral).root_dir(), "/blit");
    assert_eq!(TriggerScope::Transaction(&i, &stateful).host_path("etc"), "/sys/etc");
    assert_eq!(TriggerScope::Transaction(&i, &ephemeral).host_path("etc"), "/blit/etc");
    assert_eq!(TriggerScope::Transaction(&i, &stateful).guest_path("etc"), "/sys/.moss/root/staging/etc");
    assert_eq!(TriggerScope::System(&i, &stateful).guest_path("etc"), "/sys/etc");
}

#[test]
fn repository_ids_keep_alphanumerics() {
    assert_eq!(RepoId::new("Volatile Repo_1".to_string()).as_str(), "Volatile_Repo_1");
    assert_eq!(RepoId::new("a-b.c".to_string()).as_str(), "a-b_c");
}

#[test]
fn repository_map_later_addition_wins() {
    let repo = |uri: &str, p: u64| Repository {
        description: String::new(),
        uri: uri.to_string(),
        priority: Priority::new(p),
    };
    let mut map = RepositoryMap::new();
    map.add(RepoId::new("one".to_string()), repo("https://a/", 1));
    map.add(RepoId::new("two".to_string()), repo("https://b/", 2));
    map.add(RepoId::new("one".to_string()), repo("https://c/", 3));
    assert_eq!(map.get(&RepoId::new("one".to_string())).unwrap().uri, "https://c/");
    assert_eq!(map.get(&RepoId::new("two".to_string())).unwrap().priority.value(), 2);
    assert!(map.get(&RepoId::new("three".to_string())).is_none());
    assert_eq!(map.iter().len(), 2);
    assert!(Priority::new(5).comes_before(&Priority::new(1)));
}

#[test]
fn repositories_are_listed_by_priority() {
    let repo = |p: u64| Repository { description: String::new(), uri: "https://r/".to_string(), priority: Priority::new(p) };
    let mut map = RepositoryMap::new();
    map.add(RepoId::new("low".to_string()), repo(0));
    map.add(RepoId::new("high".to_string()), repo(10));
    map.add(RepoId::new("also-low".to_string()), repo(0));
    let order: Vec<String> = map.by_priority().iter().map(|(id, _)| id.as_str().to_string()).collect();
    assert_eq!(order, vec!["high", "low", "also-low"]);
    assert!(RepositoryMap::new().by_priority().is_empty());
}

#[test]
fn cobble_identifiers_are_sha256_of_path() {
    // SHA-256 of "abc", as hexadecimal.
    assert_eq!(
        path_hash("abc").as_str(),
        "ba7816bf8f01cfea414140de5dae2223b00361a396177a9cb410ff61f20015ad"
    );
    assert_eq!(path_hash("").as_str().len(), 64);
}

fn located_meta(uri: Option<&str>, hash: Option<&str>) -> Meta {
    Meta {
        name: Name::from("pkg".to_string()),
        version_identifier: "1".to_string(),
        source_release: 1,
        build_release: 1,
        architecture: "x86_64".to_string(),
        summary: String::new(),
        description: String::new(),
        source_id: "pkg".to_string(),
        homepage: String::new(),
        licenses: vec![],
        dependencies: TargetSet::new(),
        providers: TargetSet::new(),
        conflicts: TargetSet::new(),
        uri: uri.map(str::to_string),
        hash: hash.map(str::to_string),
        download_size: None,
    }
}

#[test]
fn download_targets() {
    let i = installation("/");
    let (url, path) =
        download_target(&i, &located_meta(Some("https://example.org/p/pkg.stone"), Some("0123456789"))).unwrap();
    assert_eq!(url, "https://example.org/p/pkg.stone");
    assert_eq!(path, "/.moss/cache/downloads/v1/01234/56789/0123456789");
    assert!(matches!(download_target(&i, &located_meta(None, Some("0123456789"))), Err(CacheError::MissingUri)));
    match download_target(&i, &located_meta(Some("not a url"), Some("0123456789"))) {
        Err(CacheError::InvalidUri(u)) => assert_eq!(u, "not a url"),
        other => panic!("unexpected: {other:?}"),
    }
    assert!(matches!(
        download_target(&i, &located_meta(Some("https://example.org/x"), None)),
        Err(CacheError::MissingHash)
    ));
    assert!(matches!(
        download_target(&i, &located_meta(Some("https://example.org/x"), Some("ab"))),
        Err(CacheError::MalformedHash(_))
    ));
}

#[test]
fn progress_accumulates() {
    let p = Progress::after(100, 50, Some(1000));
    assert_eq!((p.delta, p.completed, p.total), (50, 150, 1000));
    let p = Progress::after(100, 50, None);
    assert_eq!((p.delta, p.completed, p.total), (50, 150, 150));
}

#[test]
fn unpacking_claims_and_skips() {
    let mut set = UnpackingInProgress::new();
    assert!(set.claim("/a".to_string(), false));
    assert!(!set.claim("/a".to_string(), false));
    assert!(!set.claim("/b".to_string(), true));
    // A refused claim for an existing file leaves nothing in progress.
    assert!(set.add("/b".to_string()));
    assert!(moss::client::cache::unpack_skipped(false, &vec![]));
    assert!(moss::client::cache::unpack_skipped(true, &vec![true, true]));
    assert!(!moss::client::cache::unpack_skipped(true, &vec![true, false]));
    assert!(!moss::client::cache::unpack_skipped(false, &vec![true]));
}
