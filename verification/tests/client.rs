use moss::client::boot::{
    boot_files_from_new_state, entry_sysroot, fstx_snippet, is_native, kernel_files_from_state, states_except_new,
};
use moss::client::install::{
    already_installed, get_metadata, missing_packages, new_state_selections, resolve_input, Error as InstallError,
};
use moss::client::prune::{orphaned_hashes, plan, removal_ids, Error as PruneError, Stamp, Strategy};
use moss::client::remove::{partition_providers, removed_ids, selections_after_removal};
use moss::client::upgrade::{upgrade_candidates, Error as UpgradeError};
use moss::client::verify::{asset_issue, group_assets, issue_packages, issue_states, Asset, Issue, PackageLayout};
use moss::dependency::{Dependency, Kind, Provider, TargetSet};
use moss::installation::{Installation, Mutability};
use moss::list::{list_formats, SyncMode};
use moss::package::set::{sort_ids, IdSet};
use moss::package::{self, Flags, Meta, Package};
use moss::registry::graph::Dag;
use moss::registry::plugin::{Plugin, Test};
use moss::registry::transaction;
use moss::registry::Registry;
use moss::state::{self, read_states, selection_rows, Kind as StateKind, Selection, SelectionRow, State, StateRow};
use moss::stone::{Layout, LayoutEntry};

fn id(s: &str) -> package::Id {
    package::Id::from(s.to_string())
}

fn meta(name: &str) -> Meta {
    let mut providers = TargetSet::new();
    providers.insert(Provider { kind: Kind::PackageName, name: name.to_string() });
    Meta {
        name: package::Name::from(name.to_string()),
        version_identifier: "1".to_string(),
        source_release: 1,
        build_release: 1,
        architecture: "x86_64".to_string(),
        summary: String::new(),
        description: String::new(),
        source_id: name.to_string(),
        homepage: String::new(),
        licenses: Vec::new(),
        dependencies: TargetSet::new(),
        providers,
        conflicts: TargetSet::new(),
        uri: None,
        hash: None,
        download_size: None,
    }
}

fn depending(name: &str, deps: &[&str]) -> Meta {
    let mut m = meta(name);
    for d in deps {
        m.dependencies.insert(Dependency { kind: Kind::PackageName, name: d.to_string() });
    }
    m
}

fn package(name: &str, m: Meta, flags: Flags) -> Package {
    Package { id: id(name), meta: m, flags }
}

fn state_with(idn: i32, created: i64, packages: &[&str]) -> State {
    State {
        id: state::Id(idn),
        summary: None,
        description: None,
        selections: packages.iter().map(|p| Selection::explicit(id(p))).collect(),
        created,
        kind: StateKind::Transaction,
    }
}

fn ids(v: Vec<package::Id>) -> Vec<String> {
    v.into_iter().map(|i| i.0).collect()
}

#[test]
fn transaction_orders_dependents_first() {
    let mut registry = Registry::new();
    let available = Flags::new().with_available();
    registry.add_plugin(Plugin::Test(Test::new(
        1,
        vec![
            package("app", depending("app", &["lib"]), available),
            package("lib", depending("lib", &["base"]), available),
            package("base", meta("base"), available),
            package("unrelated", meta("unrelated"), available),
        ],
    )));
    let mut tx = registry.transaction().unwrap();
    tx.add(vec![id("app")]).unwrap();
    let order = ids(tx.finalize());
    assert_eq!(order.len(), 3);
    let pos = |x: &str| order.iter().position(|o| o == x).unwrap();
    assert!(pos("app") < pos("lib"));
    assert!(pos("lib") < pos("base"));

    tx.remove(vec![id("lib")]);
    assert_eq!(ids(tx.finalize()), vec!["base"]);
}

#[test]
fn transaction_prefers_chosen_then_installed_providers() {
    let mut registry = Registry::new();
    registry.add_plugin(Plugin::Test(Test::new(
        1,
        vec![
            package("app", depending("app", &["lib"]), Flags::new().with_available()),
            package("lib-avail", meta("lib"), Flags::new().with_available()),
            package("lib-inst", meta("lib"), Flags::new().with_installed()),
        ],
    )));
    // An installed provider comes before an available one.
    let mut tx = registry.transaction().unwrap();
    tx.add(vec![id("app")]).unwrap();
    let mut chosen = ids(tx.finalize());
    chosen.sort();
    assert_eq!(chosen, vec!["app", "lib-inst"]);
    // A provider already chosen comes before both.
    let mut tx = registry.transaction().unwrap();
    tx.add(vec![id("lib-avail")]).unwrap();
    tx.add(vec![id("app")]).unwrap();
    let mut chosen = ids(tx.finalize());
    chosen.sort();
    assert_eq!(chosen, vec!["app", "lib-avail"]);
    // A package that no plugin has is reported by its identifier.
    let mut tx = registry.transaction().unwrap();
    match tx.add(vec![id("nothing")]) {
        Err(transaction::Error::NoCandidate(what)) => assert_eq!(what, "nothing"),
        other => panic!("unexpected outcome: {other:?}"),
    }
}

#[test]
fn transaction_reports_missing_dependency() {
    let mut registry = Registry::new();
    registry.add_plugin(Plugin::Test(Test::new(
        1,
        vec![package("app", depending("app", &["ghost"]), Flags::new().with_available())],
    )));
    let mut tx = registry.transaction().unwrap();
    match tx.add(vec![id("app")]) {
        Err(transaction::Error::NoCandidate(what)) => assert_eq!(what, "name(ghost)"),
        other => panic!("unexpected outcome: {other:?}"),
    }
}

#[test]
fn dag_refuses_cycles() {
    let mut dag = Dag::new();
    assert!(dag.add_node(id("a")));
    assert!(dag.add_node(id("b")));
    assert!(!dag.add_node(id("a")));
    assert!(dag.add_edge(&id("a"), &id("b")));
    assert!(!dag.add_edge(&id("a"), &id("b")));
    assert!(!dag.add_edge(&id("b"), &id("a")));
    assert!(dag.node_exists(&id("b")));
    assert_eq!(ids(dag.topo()), vec!["a", "b"]);
}

#[test]
fn install_input_resolves_by_provider() {
    let mut registry = Registry::new();
    registry.add_plugin(Plugin::Test(Test::new(
        1,
        vec![package("nano-id", meta("nano"), Flags::new().with_available())],
    )));
    let resolved = resolve_input(&vec!["nano".to_string()], &registry).unwrap();
    assert_eq!(ids(resolved), vec!["nano-id"]);
    assert!(resolve_input(&vec!["vim".to_string()], &registry).is_err());
}

#[test]
fn install_splits_missing_and_installed() {
    let available = Flags::new().with_available();
    let resolved = vec![
        package("a", meta("a"), available),
        package("b", meta("b"), available),
    ];
    let installed = vec![package("b", meta("b"), Flags::new().with_installed())];
    let missing = missing_packages(&resolved, &installed, false);
    assert_eq!(missing.iter().map(|p| p.id.0.clone()).collect::<Vec<_>>(), vec!["a"]);
    let all = missing_packages(&resolved, &installed, true);
    assert_eq!(all.len(), 2);
    let already = already_installed(&resolved, &installed, &vec![id("b")]);
    assert_eq!(already.iter().map(|p| p.id.0.clone()).collect::<Vec<_>>(), vec!["b"]);

    let previous = vec![Selection::explicit(id("old"))];
    let selections = new_state_selections(&missing, &vec![id("a")], previous);
    assert!(selections.iter().any(|s| s.package == id("a") && s.explicit));
    assert!(selections.iter().any(|s| s.package == id("old")));
}

#[test]
fn removal_plan() {
    let installed = vec![
        package("a", meta("a"), Flags::new().with_installed()),
        package("b", meta("b"), Flags::new().with_installed()),
    ];
    let providers = vec![
        Provider { kind: Kind::PackageName, name: "b".to_string() },
        Provider { kind: Kind::PackageName, name: "zz".to_string() },
    ];
    let (found, missing) = partition_providers(&providers, &installed);
    assert_eq!(ids(found), vec!["b"]);
    assert_eq!(missing.len(), 1);
    assert_eq!(missing[0].name, "zz");

    let mut all = IdSet::new();
    all.insert(id("a"));
    all.insert(id("b"));
    all.insert(id("c"));
    let mut kept = IdSet::new();
    kept.insert(id("b"));
    assert_eq!(ids(removed_ids(&all, &kept).into_vec()), vec!["a", "c"]);

    let previous = vec![Selection::explicit(id("a")), Selection::explicit(id("c"))];
    let after = selections_after_removal(&vec![id("a"), id("d")], &previous);
    assert_eq!(after.len(), 2);
    assert_eq!(after[0].package, id("a"));
    assert!(after[0].explicit);
    assert_eq!(after[1].package, id("d"));
    assert!(!after[1].explicit);
}

#[test]
fn id_sets_are_ordered_and_unique() {
    let mut set = IdSet::new();
    for s in ["m", "a", "z", "a"] {
        set.insert(id(s));
    }
    assert_eq!(set.len(), 3);
    assert!(set.contains(&id("z")));
    assert!(!set.contains(&id("q")));
    assert_eq!(ids(set.into_vec()), vec!["a", "m", "z"]);
    assert_eq!(ids(sort_ids(vec![id("b"), id("a"), id("b")])), vec!["a", "b", "b"]);
}

#[test]
fn prune_keeps_recent_states() {
    let states = vec![
        state_with(1, 100, &["a", "shared"]),
        state_with(2, 200, &["b", "shared"]),
        state_with(3, 300, &["c", "shared"]),
    ];
    let stamps: Vec<Stamp> = states.iter().map(|s| Stamp { id: s.id, created: s.created }).collect();
    let remove = removal_ids(Strategy::KeepRecent { keep: 2, include_newer: false }, state::Id(3), &stamps);
    assert_eq!(remove, vec![state::Id(1)]);

    let p = plan(Strategy::KeepRecent { keep: 2, include_newer: false }, Some(state::Id(3)), &states)
        .unwrap()
        .unwrap();
    assert_eq!(p.states, vec![state::Id(1)]);
    assert_eq!(ids(p.packages.into_vec()), vec!["a"]);

    assert!(plan(Strategy::KeepRecent { keep: 5, include_newer: false }, Some(state::Id(3)), &states)
        .unwrap()
        .is_none());
    assert!(matches!(
        plan(Strategy::Remove(state::Id(3)), Some(state::Id(3)), &states),
        Err(PruneError::PruneCurrent)
    ));
    assert!(matches!(plan(Strategy::Remove(state::Id(1)), None, &states), Err(PruneError::NoActiveState)));
    let p = plan(Strategy::Remove(state::Id(2)), Some(state::Id(3)), &states).unwrap().unwrap();
    assert_eq!(p.states, vec![state::Id(2)]);
    assert_eq!(ids(p.packages.into_vec()), vec!["b"]);
}

#[test]
fn orphaned_hashes_are_the_unused_ones() {
    let installed = vec!["aa".to_string(), "bb".to_string(), "cc".to_string()];
    let kept = vec!["bb".to_string()];
    assert_eq!(orphaned_hashes(&installed, &kept), vec!["aa", "cc"]);
}

#[test]
fn boot_entries_for_older_states() {
    let stamps = vec![
        Stamp { id: state::Id(1), created: 10 },
        Stamp { id: state::Id(2), created: 20 },
        Stamp { id: state::Id(3), created: 30 },
        Stamp { id: state::Id(4), created: 40 },
        Stamp { id: state::Id(5), created: 50 },
        Stamp { id: state::Id(6), created: 60 },
        Stamp { id: state::Id(7), created: 70 },
    ];
    let older = states_except_new(state::Id(6), &stamps);
    assert_eq!(older, vec![state::Id(5), state::Id(4), state::Id(3), state::Id(2)]);

    let install = Installation {
        root: "/".to_string(),
        mutability: Mutability::ReadWrite,
        active_state: None,
        cache_dir: None,
    };
    assert_eq!(entry_sysroot(&install, state::Id(6), state::Id(6)), "/");
    assert_eq!(entry_sysroot(&install, state::Id(6), state::Id(2)), "/.moss/root/2");
    assert_eq!(fstx_snippet(state::Id(12)), "moss.fstx=12");
    assert!(is_native("/"));
    assert!(!is_native("/mnt"));
}

#[test]
fn boot_files_follow_pattern_matches() {
    let layout = |entry: LayoutEntry| (id("k"), Layout { uid: 0, gid: 0, mode: 0o644, tag: 0, entry });
    let layouts = vec![
        layout(LayoutEntry::Regular(1, "lib/kernel/6.1/vmlinuz".to_string())),
        layout(LayoutEntry::Symlink("vmlinuz".to_string(), "lib/kernel/6.1/default".to_string())),
        layout(LayoutEntry::Directory("lib/kernel/6.1".to_string())),
        layout(LayoutEntry::Regular(2, "lib/systemd/boot/efi/systemd-bootx64.efi".to_string())),
    ];
    let kernels = kernel_files_from_state(&layouts, &vec![true, true, true, false]);
    assert_eq!(kernels, vec!["usr/lib/kernel/6.1/vmlinuz", "usr/lib/kernel/6.1/default"]);
    let boot = boot_files_from_new_state("/", &layouts, &vec![false, true, false, true]);
    assert_eq!(boot, vec!["/usr/lib/systemd/boot/efi/systemd-bootx64.efi"]);
}

#[test]
fn verify_groups_assets_by_digest() {
    let record = |pkg: &str, entry: LayoutEntry| PackageLayout {
        package: id(pkg),
        layout: Layout { uid: 0, gid: 0, mode: 0o644, tag: 0, entry },
    };
    let layouts = vec![
        record("a", LayoutEntry::Regular(9, "usr/bin/x".to_string())),
        record("b", LayoutEntry::Regular(3, "usr/bin/y".to_string())),
        record("a", LayoutEntry::Directory("usr/bin".to_string())),
        record("c", LayoutEntry::Regular(9, "usr/bin/z".to_string())),
    ];
    let assets = group_assets(&layouts);
    assert_eq!(assets.iter().map(|a| a.hash).collect::<Vec<_>>(), vec![3, 9]);
    assert_eq!(
        assets[1].users.iter().map(|(p, f)| (p.0.clone(), f.clone())).collect::<Vec<_>>(),
        vec![("a".to_string(), "usr/bin/x".to_string()), ("c".to_string(), "usr/bin/z".to_string())]
    );

    let mut broken = IdSet::new();
    broken.insert(id("c"));
    let issues = vec![
        Issue::MissingAsset { hash: "09".to_string(), files: vec!["usr/bin/z".to_string()], packages: broken },
        Issue::MissingVFSPath { path: "usr/bin/q".to_string(), state: state::Id(2) },
    ];
    let packages = issue_packages(&issues);
    let states = vec![state_with(1, 1, &["a"]), state_with(3, 3, &["c"])];
    assert_eq!(issue_states(&states, &packages, &issues), vec![state::Id(2), state::Id(3)]);
    assert_eq!(ids(packages.into_vec()), vec!["c"]);
    assert!(issues[0].corrupt_hash().is_none());
    assert_eq!(issues[1].state(), Some(state::Id(2)));
}

#[test]
fn state_rows_read_back_selections() {
    let selections = vec![
        Selection::explicit(id("pkg a")),
        Selection::explicit(id("pkg b")),
        Selection::explicit(id("pkg c")),
    ];
    let mut rows: Vec<SelectionRow> = selection_rows(state::Id(1), &selections);
    rows.push(SelectionRow { state_id: 2, package_id: "other".to_string(), explicit: false, reason: None });
    let states = vec![
        StateRow { id: 1, created: 5, summary: Some("test".to_string()), description: Some("test".to_string()), kind: "transaction".to_string() },
        StateRow { id: 2, created: 6, summary: None, description: None, kind: "transaction".to_string() },
    ];
    let read = read_states(&states, &rows).unwrap();
    assert_eq!(read[0].id, state::Id(1));
    assert_eq!(read[0].summary.as_deref(), Some("test"));
    assert_eq!(read[0].description.as_deref(), Some("test"));
    assert_eq!(read[0].selections, selections);
    assert_eq!(read[1].selections.len(), 1);

    let bad = vec![StateRow { id: 3, created: 0, summary: None, description: None, kind: "bogus".to_string() }];
    assert_eq!(read_states(&bad, &rows).unwrap_err().0, "bogus");
    assert_eq!(StateKind::Transaction.to_string(), "transaction");
    assert!(StateKind::decode("transaction").is_ok());
}

#[test]
fn metadata_sorted_by_name_once_each() {
    let available = Flags::new().with_available();
    let mut registry = Registry::new();
    registry.add_plugin(Plugin::Test(Test::new(
        1,
        vec![package("z-1", meta("zed"), available), package("a-1", meta("alpha"), available)],
    )));
    registry.add_plugin(Plugin::Test(Test::new(
        9,
        vec![package("a-2", meta("alpha"), available), package("z-1", depending("zed", &["alpha"]), available)],
    )));
    let found = get_metadata(&registry, &vec![id("z-1"), id("a-2"), id("a-1")]).unwrap();
    let names: Vec<(String, String)> = found.iter().map(|p| (p.meta.name.0.clone(), p.id.0.clone())).collect();
    assert_eq!(names, vec![("alpha".to_string(), "a-2".to_string()), ("zed".to_string(), "z-1".to_string())]);
    // The higher priority plugin's metadata wins.
    assert_eq!(found[1].meta.dependencies.len(), 1);

    match get_metadata(&registry, &vec![id("a-1"), id("nope"), id("also-nope")]) {
        Err(InstallError::MissingMetadata(missing)) => assert_eq!(missing, id("nope")),
        other => panic!("unexpected: {other:?}"),
    }
}

#[test]
fn listing_shows_synchronizations() {
    let installed = Flags::new().with_installed();
    let mut old_vim = meta("vim");
    old_vim.source_release = 3;
    let mut new_vim = meta("vim");
    new_vim.source_release = 5;
    new_vim.version_identifier = "9.1".to_string();
    let mut older_nano = meta("nano");
    older_nano.source_release = 0;
    let packages = vec![
        package("vim-3", old_vim, Flags::new().with_installed().with_explicit()),
        package("nano-1", meta("nano"), installed),
    ];
    let available = vec![
        package("vim-5", new_vim, Flags::new().with_available()),
        package("nano-0", older_nano, Flags::new().with_available()),
    ];

    let lines = list_formats(&packages, installed, &available, None);
    assert_eq!(lines.iter().map(|l| l.name.clone()).collect::<Vec<_>>(), vec!["nano", "vim"]);
    assert!(!lines[0].explicit);
    assert!(lines[1].explicit);
    assert_eq!(lines[1].revision.release, "3");
    assert!(lines[1].sync.is_none());

    let all = list_formats(&packages, installed, &available, Some(SyncMode::All));
    assert_eq!(all.len(), 2);
    assert_eq!(all[1].sync.as_ref().unwrap().version, "9.1");
    assert_eq!(all[1].sync.as_ref().unwrap().release, "5");

    let upgrades = list_formats(&packages, installed, &available, Some(SyncMode::Upgrades));
    assert_eq!(upgrades.iter().map(|l| l.name.clone()).collect::<Vec<_>>(), vec!["vim"]);
    assert_eq!(upgrades[0].size(), "vim".len() + "1".len() + "3".len() + "9.1".len() + "5".len());

    let everything = list_formats(&packages, Flags::new().with_available(), &available, None);
    assert!(everything.iter().all(|l| l.explicit));
}

#[test]
fn upgrades_are_available_packages_not_installed() {
    let installed = Flags::new().with_installed();
    let available = Flags::new().with_available();
    let mut registry = Registry::new();
    registry.add_plugin(Plugin::Test(Test::new(
        10,
        vec![package("vim-3", meta("vim"), installed), package("nano-1", meta("nano"), installed)],
    )));
    let mut newer = meta("vim");
    newer.source_release = 5;
    registry.add_plugin(Plugin::Test(Test::new(
        1,
        vec![
            package("vim-5", newer, available),
            package("nano-1", meta("nano"), available),
            package("vim-3", meta("vim"), available),
        ],
    )));
    let upgrades = upgrade_candidates(&registry).unwrap();
    assert_eq!(ids(upgrades.into_iter().map(|p| p.id).collect()), vec!["vim-5"]);

    let empty = Registry::new();
    assert!(matches!(upgrade_candidates(&empty), Err(UpgradeError::NoInstall)));

    let mut orphaned = Registry::new();
    orphaned.add_plugin(Plugin::Test(Test::new(1, vec![package("gone-1", meta("gone"), installed)])));
    match upgrade_candidates(&orphaned) {
        Err(UpgradeError::NameNotFound(name)) => assert_eq!(name.0, "gone"),
        other => panic!("unexpected: {other:?}"),
    }
}

#[test]
fn asset_issues_list_files_once_in_order() {
    let asset = Asset {
        hash: 0xabc,
        users: vec![
            (id("b"), "usr/bin/z".to_string()),
            (id("a"), "usr/bin/x".to_string()),
            (id("b"), "usr/bin/x".to_string()),
        ],
    };
    match asset_issue(&asset, true) {
        Issue::CorruptAsset { hash, files, packages } => {
            assert_eq!(hash, "00000000000000000000000000000abc");
            assert_eq!(files, vec!["usr/bin/x", "usr/bin/z"]);
            assert_eq!(ids(packages.into_vec()), vec!["a", "b"]);
        }
        other => panic!("unexpected: {other:?}"),
    }
    assert!(matches!(asset_issue(&asset, false), Issue::MissingAsset { .. }));
    assert_eq!(moss::text::u128_to_hex32(u128::MAX), "ffffffffffffffffffffffffffffffff");
}

#[test]
fn package_column_width() {
    let mut m = meta("vim");
    m.version_identifier = "9.1".to_string();
    m.source_release = 15;
    let p = package("vim-15", m, Flags::new());
    assert_eq!(p.display_width(), 3 + 3 + 2 + moss::list::COLUMN_PADDING);
}

#[test]
fn states_are_listed_newest_first() {
    let states = vec![state_with(1, 10, &["a"]), state_with(2, 20, &["b"]), state_with(3, 30, &[])];
    let ids: Vec<i32> = state::newest_first(states).iter().map(|s| s.id.0).collect();
    assert_eq!(ids, vec![3, 2, 1]);
}
