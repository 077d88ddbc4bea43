//! Verification planning: which assets the installed layouts need, and
//! which packages and states the problems found affect.

use vstd::prelude::*;

use crate::package::set::{
    dedup_named, lemma_dedup_members, lemma_dedup_sorted, lemma_sort_lex_by, sort_named, strictly_increasing, IdSet, Named,
};
use crate::text::{hexadecimal, pad_left};
use crate::package;
use crate::state::{self, State};
use crate::stone::{Layout, LayoutEntry};

verus! {

/// A layout record of a package, as the layout database holds it.
#[derive(Debug, Clone)]
pub struct PackageLayout {
    pub package: package::Id,
    pub layout: Layout,
}

/// The regular file a layout record describes, if it is one: its digest
/// and target path.
pub open spec fn regular_file(l: PackageLayout) -> Option<(u128, (Seq<char>, Seq<char>))> {
    match l.layout.entry {
        LayoutEntry::Regular(hash, file) => Some((hash, (l.package@, file@))),
        _ => None,
    }
}

/// Integers of a fixed width, ordered as numbers.
pub trait Ordinal: Copy + Sized {
    /// The number.
    spec fn ord(self) -> int;

    /// Whether `self` is below `other`.
    fn below(&self, other: &Self) -> (r: bool)
        ensures
            r == (self.ord() < other.ord()),
    ;

    /// Equal numbers are equal values.
    proof fn lemma_ord_injective(a: Self, b: Self)
        ensures
            a.ord() == b.ord() ==> a == b,
    ;
}

impl Ordinal for u128 {
    open spec fn ord(self) -> int {
        self as int
    }

    fn below(&self, other: &Self) -> (r: bool) {
        *self < *other
    }

    proof fn lemma_ord_injective(a: Self, b: Self) {
    }
}

impl Ordinal for i32 {
    open spec fn ord(self) -> int {
        self as int
    }

    fn below(&self, other: &Self) -> (r: bool) {
        *self < *other
    }

    proof fn lemma_ord_injective(a: Self, b: Self) {
    }
}

/// `s` is strictly increasing.
pub open spec fn increasing<K: Ordinal>(s: Seq<K>) -> bool {
    forall|i: int, j: int| #![trigger s[i], s[j]] 0 <= i < j < s.len() ==> s[i].ord() < s[j].ord()
}

/// `s` is strictly increasing.
pub open spec fn increasing_u128(s: Seq<u128>) -> bool {
    increasing(s)
}

/// The records of `layouts` that are regular files with digest `hash`:
/// their packages and files, in order.
pub open spec fn users_of(layouts: Seq<PackageLayout>, hash: u128) -> Seq<(Seq<char>, Seq<char>)> {
    layouts.filter_map(user_of(hash))
}

/// The package file of record `l` if it is a regular file with digest
/// `hash`.
pub open spec fn user_of(hash: u128) -> spec_fn(PackageLayout) -> Option<(Seq<char>, Seq<char>)> {
    |l: PackageLayout|
        match regular_file(l) {
            Some(r) => if r.0 == hash {
                Some(r.1)
            } else {
                None
            },
            None => None,
        }
}

/// Record `l` is a regular file with digest `hash`.
pub open spec fn regular_with(l: PackageLayout, hash: u128) -> bool {
    regular_file(l) matches Some(r) && r.0 == hash
}

/// Some record of `layouts` is a regular file with digest `hash`.
pub open spec fn has_regular(layouts: Seq<PackageLayout>, hash: u128) -> bool {
    exists|i: int| 0 <= i < layouts.len() && #[trigger] regular_with(layouts[i], hash)
}

/// An asset and the package files that use it.
#[derive(Debug, Clone)]
pub struct Asset {
    pub hash: u128,
    pub users: Vec<(package::Id, String)>,
}

/// The digests of a list of assets.
pub open spec fn asset_hashes(s: Seq<Asset>) -> Seq<u128> {
    s.map_values(|a: Asset| a.hash)
}

/// The package files of an asset, as views.
pub open spec fn users_view(s: Seq<(package::Id, String)>) -> Seq<(Seq<char>, Seq<char>)> {
    s.map_values(|u: (package::Id, String)| (u.0@, u.1@))
}

/// Inserts `x` into the strictly increasing `v`, unless present.
fn insert_sorted<K: Ordinal>(v: &mut Vec<K>, x: K)
    requires
        increasing(old(v)@),
    ensures
        increasing(final(v)@),
        forall|y: K| #[trigger] final(v)@.contains(y) <==> (old(v)@.contains(y) || y == x),
{
    let mut i: usize = 0;
    while i < v.len() && v[i].below(&x)
        invariant
            i <= v.len(),
            v@ == old(v)@,
            increasing(v@),
            forall|j: int| 0 <= j < i ==> v@[j].ord() < x.ord(),
        decreases v.len() - i,
    {
        i = i + 1;
    }
    if i < v.len() && !x.below(&v[i]) {
        proof {
            K::lemma_ord_injective(v@[i as int], x);
            assert(v@[i as int] == x);
        }
        return;
    }
    let ghost before = v@;
    v.insert(i, x);
    proof {
        assert(v@ =~= before.insert(i as int, x));
        assert forall|y: K| #[trigger] v@.contains(y) <==> (before.contains(y) || y == x) by {
            if v@.contains(y) {
                let k = choose|k: int| 0 <= k < v@.len() && v@[k] == y;
                if k < i {
                    assert(before[k] == y);
                } else if k > i {
                    assert(before[k - 1] == y);
                }
            }
            if before.contains(y) {
                let k = choose|k: int| 0 <= k < before.len() && before[k] == y;
                if k < i {
                    assert(v@[k] == y);
                } else {
                    assert(v@[k + 1] == y);
                }
            }
            if y == x {
                assert(v@[i as int] == x);
            }
        }
    }
}

/// The users of asset `hash` among `layouts`.
fn collect_users(layouts: &Vec<PackageLayout>, hash: u128) -> (r: Vec<(package::Id, String)>)
    ensures
        users_view(r@) == users_of(layouts@, hash),
{
    let ghost f = user_of(hash);
    let mut out: Vec<(package::Id, String)> = Vec::new();
    let mut i: usize = 0;
    while i < layouts.len()
        invariant
            i <= layouts.len(),
            f == user_of(hash),
            users_view(out@) == layouts@.take(i as int).filter_map(f),
        decreases layouts.len() - i,
    {
        proof {
            layouts@.lemma_filter_map_take_succ(f, i as int);
        }
        match &layouts[i].layout.entry {
            LayoutEntry::Regular(h, file) => {
                if *h == hash {
                    out.push((layouts[i].package.duplicate(), file.clone()));
                }
            },
            _ => {},
        }
        assert(users_view(out@) =~= layouts@.take(i + 1).filter_map(f));
        i = i + 1;
    }
    assert(layouts@.take(i as int) =~= layouts@);
    out
}

/// Groups the regular files of `layouts` by asset: one group per distinct
/// digest, in increasing order of digest (the order of their hexadecimal
/// forms padded to equal length), each with its package files in order.
pub fn group_assets(layouts: &Vec<PackageLayout>) -> (r: Vec<Asset>)
    ensures
        increasing_u128(asset_hashes(r@)),
        forall|h: u128| #[trigger] asset_hashes(r@).contains(h) <==> has_regular(layouts@, h),
        forall|i: int| 0 <= i < r.len() ==> users_view(#[trigger] r@[i].users@) == users_of(layouts@, r@[i].hash),
{
    let mut hashes: Vec<u128> = Vec::new();
    let mut i: usize = 0;
    while i < layouts.len()
        invariant
            i <= layouts.len(),
            increasing_u128(hashes@),
            forall|h: u128| #[trigger] hashes@.contains(h) <==> has_regular(layouts@.take(i as int), h),
        decreases layouts.len() - i,
    {
        let ghost before = hashes@;
        let ghost li = layouts@[i as int];
        match &layouts[i].layout.entry {
            LayoutEntry::Regular(h, _) => {
                insert_sorted(&mut hashes, *h);
                assert(forall|y: u128| regular_with(li, y) <==> y == *h);
            },
            _ => {
                assert(forall|y: u128| !regular_with(li, y));
                assert(hashes@ == before);
            },
        }
        proof {
            let t = layouts@.take(i + 1);
            assert(t[i as int] == li);
            assert forall|h: u128| #[trigger] hashes@.contains(h) <==> has_regular(t, h) by {
                if has_regular(layouts@.take(i as int), h) {
                    let k = choose|k: int| 0 <= k < i && #[trigger] regular_with(layouts@.take(i as int)[k], h);
                    assert(t[k] == layouts@.take(i as int)[k]);
                }
                if has_regular(t, h) {
                    let k = choose|k: int| 0 <= k < i + 1 && #[trigger] regular_with(t[k], h);
                    if k < i {
                        assert(layouts@.take(i as int)[k] == t[k]);
                    }
                }
                if regular_with(li, h) {
                    assert(regular_with(t[i as int], h));
                }
            }
        }
        i = i + 1;
    }
    assert(layouts@.take(i as int) =~= layouts@);
    let mut out: Vec<Asset> = Vec::new();
    let mut k: usize = 0;
    while k < hashes.len()
        invariant
            k <= hashes.len(),
            out.len() == k,
            increasing_u128(hashes@),
            forall|h: u128| #[trigger] hashes@.contains(h) <==> has_regular(layouts@, h),
            asset_hashes(out@) == hashes@.take(k as int),
            forall|j: int| 0 <= j < k ==> users_view(#[trigger] out@[j].users@) == users_of(layouts@, out@[j].hash),
        decreases hashes.len() - k,
    {
        let users = collect_users(layouts, hashes[k]);
        out.push(Asset { hash: hashes[k], users });
        assert(asset_hashes(out@) =~= hashes@.take(k + 1));
        k = k + 1;
    }
    assert(hashes@.take(k as int) =~= hashes@);
    out
}

/// A problem found while verifying an installation.
#[derive(Debug)]
pub enum Issue {
    /// An asset whose content does not match its digest
    CorruptAsset { hash: String, files: Vec<String>, packages: IdSet },
    /// An asset missing from the store
    MissingAsset { hash: String, files: Vec<String>, packages: IdSet },
    /// A path missing from a state's tree
    MissingVFSPath { path: String, state: state::Id },
}

impl Issue {
    /// The digest of a corrupt asset.
    pub fn corrupt_hash(&self) -> (r: Option<&str>)
        ensures
            match self {
                Issue::CorruptAsset { hash, .. } => r matches Some(h) && h@ == hash@,
                _ => r is None,
            },
    {
        match self {
            Issue::CorruptAsset { hash, .. } => Some(hash.as_str()),
            Issue::MissingAsset { .. } => None,
            Issue::MissingVFSPath { .. } => None,
        }
    }

    /// The packages an asset problem affects.
    pub fn packages(&self) -> (r: Option<&IdSet>)
        ensures
            match self {
                Issue::CorruptAsset { packages, .. } => r == Some(packages),
                Issue::MissingAsset { packages, .. } => r == Some(packages),
                Issue::MissingVFSPath { .. } => r is None,
            },
    {
        match self {
            Issue::CorruptAsset { packages, .. } => Some(packages),
            Issue::MissingAsset { packages, .. } => Some(packages),
            Issue::MissingVFSPath { .. } => None,
        }
    }

    /// The state a missing path belongs to.
    pub fn state(&self) -> (r: Option<state::Id>)
        ensures
            match self {
                Issue::MissingVFSPath { state, .. } => r == Some(*state),
                _ => r is None,
            },
    {
        match self {
            Issue::CorruptAsset { .. } => None,
            Issue::MissingAsset { .. } => None,
            Issue::MissingVFSPath { state, .. } => Some(*state),
        }
    }
}

/// Package `x` is affected by some asset problem of `issues`.
pub open spec fn issue_package(issues: Seq<Issue>, x: Seq<char>) -> bool {
    exists|i: int|
        0 <= i < issues.len() && match #[trigger] issues[i] {
            Issue::CorruptAsset { packages, .. } => packages.members().contains(x),
            Issue::MissingAsset { packages, .. } => packages.members().contains(x),
            Issue::MissingVFSPath { .. } => false,
        }
}

/// The packages that the asset problems of `issues` affect.
pub fn issue_packages(issues: &Vec<Issue>) -> (r: IdSet)
    ensures
        r.wf(),
        forall|x: Seq<char>| #[trigger] r.members().contains(x) <==> issue_package(issues@, x),
{
    let mut out = IdSet::new();
    let mut i: usize = 0;
    while i < issues.len()
        invariant
            i <= issues.len(),
            out.wf(),
            forall|x: Seq<char>| #[trigger] out.members().contains(x) <==> issue_package(issues@.take(i as int), x),
        decreases issues.len() - i,
    {
        let ghost before = out.members();
        match issues[i].packages() {
            Some(set) => {
                let mut k: usize = 0;
                while k < set.len()
                    invariant
                        k <= set.members().len(),
                        out.wf(),
                        forall|x: Seq<char>|
                            #[trigger] out.members().contains(x) <==> (before.contains(x) || exists|b: int|
                                0 <= b < k && set.members()[b] == x),
                    decreases set.members().len() - k,
                {
                    let ghost prev = out.members();
                    out.insert(set.get(k).duplicate());
                    proof {
                        assert forall|x: Seq<char>|
                            #[trigger] out.members().contains(x) <==> (before.contains(x) || exists|b: int|
                                0 <= b < k + 1 && set.members()[b] == x) by {
                            assert(out.members().to_set().contains(x) == out.members().contains(x));
                            assert(prev.to_set().contains(x) == prev.contains(x));
                        }
                    }
                    k = k + 1;
                }
                proof {
                    assert forall|x: Seq<char>| #[trigger] out.members().contains(x) <==> (before.contains(x) || set.members().contains(x)) by {
                        if set.members().contains(x) {
                            let b = choose|b: int| 0 <= b < set.members().len() && set.members()[b] == x;
                        }
                    }
                }
            },
            None => {},
        }
        proof {
            let t = issues@.take(i + 1);
            let u = issues@.take(i as int);
            assert(t[i as int] == issues@[i as int]);
            assert forall|x: Seq<char>| #[trigger] out.members().contains(x) <==> issue_package(t, x) by {
                if issue_package(u, x) {
                    let a = choose|a: int|
                        0 <= a < u.len() && match #[trigger] u[a] {
                            Issue::CorruptAsset { packages, .. } => packages.members().contains(x),
                            Issue::MissingAsset { packages, .. } => packages.members().contains(x),
                            Issue::MissingVFSPath { .. } => false,
                        };
                    assert(t[a] == u[a]);
                }
                if issue_package(t, x) {
                    let a = choose|a: int|
                        0 <= a < t.len() && match #[trigger] t[a] {
                            Issue::CorruptAsset { packages, .. } => packages.members().contains(x),
                            Issue::MissingAsset { packages, .. } => packages.members().contains(x),
                            Issue::MissingVFSPath { .. } => false,
                        };
                    if a < i {
                        assert(u[a] == t[a]);
                    }
                }
            }
        }
        i = i + 1;
    }
    assert(issues@.take(i as int) =~= issues@);
    out
}

/// `s` is strictly increasing.
pub open spec fn increasing_i32(s: Seq<i32>) -> bool {
    increasing(s)
}


/// State `s` must be rebuilt: it selects a package with an asset problem,
/// or a path of its tree is missing.
pub open spec fn issue_state(states: Seq<State>, packages: Seq<Seq<char>>, issues: Seq<Issue>, id: i32) -> bool {
    ||| exists|i: int|
        0 <= i < states.len() && #[trigger] states[i].id.0 == id && exists|p: Seq<char>|
            packages.contains(p) && #[trigger] states[i].selects(p)
    ||| exists|i: int| 0 <= i < issues.len() && #[trigger] missing_in(issues[i], id)
}

/// Issue `i` is a path missing from state `id`.
pub open spec fn missing_in(i: Issue, id: i32) -> bool {
    i matches Issue::MissingVFSPath { state, .. } && state.0 == id
}

/// Whether `state` selects a member of `packages`.
fn selects_any(state: &State, packages: &IdSet) -> (r: bool)
    ensures
        r == exists|p: Seq<char>| packages.members().contains(p) && #[trigger] state.selects(p),
{
    let mut k: usize = 0;
    while k < state.selections.len()
        invariant
            k <= state.selections.len(),
            forall|b: int| 0 <= b < k ==> !packages.members().contains(#[trigger] state.selections@[b]@.package),
        decreases state.selections.len() - k,
    {
        if packages.contains(&state.selections[k].package) {
            assert(state.selects(state.selections@[k as int]@.package));
            return true;
        }
        k = k + 1;
    }
    false
}

/// The states to rebuild, in increasing order of identifier.
pub fn issue_states(states: &Vec<State>, packages: &IdSet, issues: &Vec<Issue>) -> (r: Vec<state::Id>)
    ensures
        increasing_i32(crate::client::prune::state_ids(r@)),
        forall|id: i32|
            #[trigger] crate::client::prune::state_ids(r@).contains(id) <==> issue_state(
                states@,
                packages.members(),
                issues@,
                id,
            ),
{
    let mut ids: Vec<i32> = Vec::new();
    let mut i: usize = 0;
    while i < states.len()
        invariant
            i <= states.len(),
            increasing_i32(ids@),
            forall|id: i32|
                #[trigger] ids@.contains(id) <==> exists|a: int|
                    0 <= a < i && #[trigger] states@[a].id.0 == id && exists|p: Seq<char>|
                        packages.members().contains(p) && #[trigger] states@[a].selects(p),
        decreases states.len() - i,
    {
        if selects_any(&states[i], packages) {
            insert_sorted(&mut ids, states[i].id.0);
        }
        i = i + 1;
    }
    let mut k: usize = 0;
    while k < issues.len()
        invariant
            k <= issues.len(),
            increasing_i32(ids@),
            forall|id: i32|
                #[trigger] ids@.contains(id) <==> ((exists|a: int|
                    0 <= a < states.len() && #[trigger] states@[a].id.0 == id && exists|p: Seq<char>|
                        packages.members().contains(p) && #[trigger] states@[a].selects(p)) || exists|b: int|
                    0 <= b < k && #[trigger] missing_in(issues@[b], id)),
        decreases issues.len() - k,
    {
        let ghost before = ids@;
        match issues[k].state() {
            Some(s) => {
                insert_sorted(&mut ids, s.0);
                assert(forall|y: i32| missing_in(issues@[k as int], y) <==> y == s.0);
            },
            None => {
                assert(forall|y: i32| !missing_in(issues@[k as int], y));
            },
        }
        proof {
            assert forall|id: i32|
                #[trigger] ids@.contains(id) <==> ((exists|a: int|
                    0 <= a < states.len() && #[trigger] states@[a].id.0 == id && exists|p: Seq<char>|
                        packages.members().contains(p) && #[trigger] states@[a].selects(p)) || exists|b: int|
                    0 <= b < k + 1 && #[trigger] missing_in(issues@[b], id)) by {
                if missing_in(issues@[k as int], id) {
                    assert(exists|b: int| 0 <= b < k + 1 && #[trigger] missing_in(issues@[b], id));
                }
                if exists|b: int| 0 <= b < k + 1 && #[trigger] missing_in(issues@[b], id) {
                    let b = choose|b: int| 0 <= b < k + 1 && #[trigger] missing_in(issues@[b], id);
                    if b < k {
                        assert(exists|c: int| 0 <= c < k && #[trigger] missing_in(issues@[c], id));
                    }
                }
            }
        }
        k = k + 1;
    }
    let mut out: Vec<state::Id> = Vec::new();
    let mut j: usize = 0;
    while j < ids.len()
        invariant
            j <= ids.len(),
            out.len() == j,
            crate::client::prune::state_ids(out@) == ids@.take(j as int),
        decreases ids.len() - j,
    {
        out.push(state::Id(ids[j]));
        assert(crate::client::prune::state_ids(out@) =~= ids@.take(j + 1));
        j = j + 1;
    }
    assert(ids@.take(j as int) =~= ids@);
    out
}

/// The names of a list of files.
pub open spec fn files_view(v: Seq<String>) -> Seq<Seq<char>> {
    v.map_values(|s: String| s@)
}

/// The issue of an asset that is missing, or, if `corrupt`, whose content
/// does not match its digest: its digest as thirty-two hexadecimal digits,
/// the names of its files in order, once each, and the packages using it.
pub fn asset_issue(asset: &Asset, corrupt: bool) -> (r: Issue)
    ensures
        match r {
            Issue::CorruptAsset { hash, files, packages } => corrupt && hash@ == pad_left(
                hexadecimal(asset.hash as nat),
                32,
                '0',
            ) && strictly_increasing(files_view(files@)) && (forall|f: Seq<char>|
                #[trigger] files_view(files@).contains(f) <==> exists|i: int|
                    0 <= i < asset.users.len() && users_view(asset.users@)[i].1 == f) && packages.wf() && (forall|
                x: Seq<char>,
            |
                #[trigger] packages.members().contains(x) <==> exists|i: int|
                    0 <= i < asset.users.len() && users_view(asset.users@)[i].0 == x),
            Issue::MissingAsset { hash, files, packages } => !corrupt && hash@ == pad_left(
                hexadecimal(asset.hash as nat),
                32,
                '0',
            ) && strictly_increasing(files_view(files@)) && (forall|f: Seq<char>|
                #[trigger] files_view(files@).contains(f) <==> exists|i: int|
                    0 <= i < asset.users.len() && users_view(asset.users@)[i].1 == f) && packages.wf() && (forall|
                x: Seq<char>,
            |
                #[trigger] packages.members().contains(x) <==> exists|i: int|
                    0 <= i < asset.users.len() && users_view(asset.users@)[i].0 == x),
            Issue::MissingVFSPath { .. } => false,
        },
{
    let uv = Ghost(users_view(asset.users@));
    let mut names: Vec<String> = Vec::new();
    let mut packages = IdSet::new();
    let mut i: usize = 0;
    while i < asset.users.len()
        invariant
            i <= asset.users.len(),
            uv@ == users_view(asset.users@),
            packages.wf(),
            files_view(names@) == uv@.take(i as int).map_values(|u: (Seq<char>, Seq<char>)| u.1),
            forall|x: Seq<char>|
                #[trigger] packages.members().contains(x) <==> exists|j: int| 0 <= j < i && uv@[j].0 == x,
        decreases asset.users.len() - i,
    {
        let (id, file) = &asset.users[i];
        assert(uv@[i as int] == (id@, file@));
        let ghost before = packages.members();
        packages.insert(id.duplicate());
        proof {
            assert forall|x: Seq<char>|
                #[trigger] packages.members().contains(x) <==> exists|j: int| 0 <= j < i + 1 && uv@[j].0 == x by {
                assert(packages.members().to_set().contains(x) == packages.members().contains(x));
                assert(before.to_set().contains(x) == before.contains(x));
                if exists|j: int| 0 <= j < i + 1 && uv@[j].0 == x {
                    let j = choose|j: int| 0 <= j < i + 1 && uv@[j].0 == x;
                    if j < i {
                        assert(before.contains(x));
                    }
                }
            }
        }
        let ghost prev = files_view(names@);
        names.push(file.clone());
        assert(files_view(names@) =~= prev.push(file@));
        assert(uv@.take(i + 1).map_values(|u: (Seq<char>, Seq<char>)| u.1) =~= uv@.take(i as int).map_values(
            |u: (Seq<char>, Seq<char>)| u.1,
        ).push(uv@[i as int].1));
        i = i + 1;
    }
    assert(uv@.take(i as int) =~= uv@);
    let ghost all = files_view(names@);
    let sorted = sort_named(names);
    let files = dedup_named(sorted);
    proof {
        broadcast use vstd::seq_lib::group_to_multiset_ensures;

        let key = |v: Seq<char>| String::key_of(v);
        let s = crate::package::set::sort_lex_by(all, key);
        lemma_sort_lex_by(all, key);
        lemma_dedup_sorted(s, key);
        let d = crate::select::dedup_by(s, key);
        assert(files_view(files@) == d);
        assert forall|a: int, b: int| 0 <= a < b < d.len() implies crate::text::lex_lt(#[trigger] d[a], #[trigger] d[b]) by {
            assert(crate::text::lex_lt(key(d[a]), key(d[b])));
        }
        lemma_dedup_members(s, key);
        assert forall|f: Seq<char>| #[trigger] d.contains(f) <==> exists|k: int|
            0 <= k < asset.users.len() && users_view(asset.users@)[k].1 == f by {
            assert(s.to_multiset().count(f) == all.to_multiset().count(f));
            if d.contains(f) {
                assert(s.contains(f));
                assert(s.to_multiset().count(f) > 0);
                assert(all.contains(f));
                let k = choose|k: int| 0 <= k < all.len() && all[k] == f;
                assert(uv@[k].1 == f);
            }
            if exists|k: int| 0 <= k < asset.users.len() && users_view(asset.users@)[k].1 == f {
                let k = choose|k: int| 0 <= k < asset.users.len() && users_view(asset.users@)[k].1 == f;
                assert(all[k] == f);
                assert(all.to_multiset().count(f) > 0);
                assert(s.contains(f));
            }
        }
    }
    let hash = crate::text::u128_to_hex32(asset.hash);
    if corrupt {
        Issue::CorruptAsset { hash, files, packages }
    } else {
        Issue::MissingAsset { hash, files, packages }
    }
}

} // verus!
