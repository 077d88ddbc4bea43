//! The plugin for local `.stone` files handed over for installation.

use vstd::prelude::*;

use crate::db::meta::{passes, passes_filter, Filter, FilterView};
use crate::dependency::{Provider, Target};
use crate::digest::{content_digest, hex_encode, hex_text, sha256_of_bytes, sha256_of_text, sha256_text};
use crate::package::{self, package_views, Flags, Meta, MetaView, MissingMetaFieldError, Name, Package, PackageView};
use crate::package::meta::{first_missing, meta_of_records};
use crate::registry::plugin::test::filter_view;
use crate::select::{
    first_where, is_first, lemma_first_index, lemma_first_index_none, lemma_first_where_push,
    lemma_first_where_update,
};
use crate::stone::{records_view, MetaBody};

verus! {

/// A local package: the file it was read from and its metadata.
#[derive(Debug, Clone, PartialEq, Eq)]
pub struct State {
    path: String,
    meta: Meta,
}

/// Mathematical form of a cobbled package: its identifier, file and
/// metadata.
pub struct CobbleView {
    pub id: Seq<char>,
    pub path: Seq<char>,
    pub meta: MetaView,
}

/// The key of an entry is `k`.
pub open spec fn id_is(k: Seq<char>) -> spec_fn(CobbleView) -> bool {
    |e: CobbleView| e.id == k
}

/// The flags of every cobbled package.
pub open spec fn available() -> Flags {
    Flags { available: true, installed: false, source: false, explicit: false }
}

/// The package of entry `e`.
pub open spec fn cobble_package(e: CobbleView) -> PackageView {
    PackageView { id: e.id, meta: e.meta, flags: available() }
}

/// The identifier of a local package: the hexadecimal SHA-256 digest of its
/// path.
pub open spec fn path_id(path: Seq<char>) -> Seq<char> {
    hex_text(sha256_of_text(path))
}

/// `m` is `meta` with the location, digest and size of the file recorded.
pub open spec fn located(meta: MetaView, m: MetaView, canonical: Seq<char>, hash: Seq<char>, size: u64) -> bool {
    &&& m == MetaView {
        uri: Some(seq!['f', 'i', 'l', 'e', ':', '/', '/'] + canonical),
        hash: Some(hash),
        download_size: Some(size),
        ..meta
    }
}

/// Errors of adding a local package.
#[derive(Debug)]
pub enum Error {
    /// The file has no metadata payload
    MissingMetaPayload,
    /// The metadata lacks a required field
    Metadata(MissingMetaFieldError),
}

/// Local packages by identifier.
#[derive(Debug, Clone, PartialEq, Eq)]
pub struct Cobble {
    packages: Vec<(package::Id, State)>,
}

/// The identifier of a local package read from `path`.
pub fn path_hash(path: &str) -> (r: package::Id)
    ensures
        r@ == path_id(path@),
{
    let digest = sha256_text(path);
    package::Id::from(hex_encode(digest.as_slice()))
}

impl Cobble {
    /// The local packages, in order of first addition.
    pub closed spec fn entries_view(&self) -> Seq<CobbleView> {
        self.packages@.map_values(|e: (package::Id, State)| CobbleView { id: e.0@, path: e.1.path@, meta: e.1.meta@ })
    }

    /// Each identifier occurs once.
    pub open spec fn wf(&self) -> bool {
        forall|i: int, j: int|
            0 <= i < j < self.entries_view().len() ==> #[trigger] self.entries_view()[i].id != #[trigger] self.entries_view()[j].id
    }

    /// The local package stored under `id`.
    pub open spec fn lookup(&self, id: Seq<char>) -> Option<CobbleView> {
        first_where(self.entries_view(), id_is(id))
    }

    /// The package `id`, if present.
    pub open spec fn package_spec(&self, id: Seq<char>) -> Option<PackageView> {
        match self.lookup(id) {
            Some(e) => Some(cobble_package(e)),
            None => None,
        }
    }

    /// The local packages that pass `flags` and `filter`.
    pub open spec fn query_spec(&self, flags: Flags, filter: Option<FilterView>) -> Seq<PackageView> {
        if flags.available {
            self.entries_view().filter_map(
                |e: CobbleView|
                    if passes(e.meta, filter) {
                        Some(cobble_package(e))
                    } else {
                        None
                    },
            )
        } else {
            Seq::empty()
        }
    }

    /// No local packages.
    pub fn new() -> (r: Self)
        ensures
            r.wf(),
            r.entries_view().len() == 0,
    {
        let r = Cobble { packages: Vec::new() };
        assert(r.entries_view() =~= Seq::<CobbleView>::empty());
        r
    }

    fn position(&self, id: &package::Id) -> (r: Option<usize>)
        ensures
            match r {
                Some(i) => is_first(self.entries_view(), id_is(id@), i as int),
                None => forall|i: int| 0 <= i < self.entries_view().len() ==> #[trigger] self.entries_view()[i].id != id@,
            },
    {
        let mut i: usize = 0;
        while i < self.packages.len()
            invariant
                i <= self.packages.len(),
                self.entries_view().len() == self.packages.len(),
                forall|j: int| 0 <= j < i ==> #[trigger] self.entries_view()[j].id != id@,
            decreases self.packages.len() - i,
        {
            assert(self.entries_view()[i as int].id == self.packages@[i as int].0@);
            if self.packages[i].0.same(id) {
                return Some(i);
            }
            i = i + 1;
        }
        None
    }

    /// Stores `state` under `id`, replacing what was there.
    fn insert(&mut self, id: package::Id, state: State)
        requires
            old(self).wf(),
        ensures
            final(self).wf(),
            final(self).lookup(id@) == Some(CobbleView { id: id@, path: state.path@, meta: state.meta@ }),
            forall|k: Seq<char>| k != id@ ==> #[trigger] final(self).lookup(k) == old(self).lookup(k),
    {
        let ghost before = self.entries_view();
        let ghost v = CobbleView { id: id@, path: state.path@, meta: state.meta@ };
        let ghost idv = id@;
        match self.position(&id) {
            Some(i) => {
                self.packages.set(i, (id, state));
                assert(self.entries_view() =~= before.update(i as int, v));
                proof {
                    assert(is_first(self.entries_view(), id_is(idv), i as int)) by {
                        assert forall|j: int| 0 <= j < i implies !id_is(idv)(#[trigger] self.entries_view()[j]) by {
                            assert(self.entries_view()[j] == before[j]);
                        }
                    }
                    lemma_first_index(self.entries_view(), id_is(idv), i as int);
                    assert forall|k: Seq<char>| k != idv implies #[trigger] self.lookup(k) == old(self).lookup(k) by {
                        lemma_first_where_update(before, id_is(k), i as int, v);
                    }
                    assert forall|a: int, b: int|
                        0 <= a < b < self.entries_view().len() implies #[trigger] self.entries_view()[a].id
                            != #[trigger] self.entries_view()[b].id by {
                        assert(self.entries_view()[a].id == before[a].id);
                        assert(self.entries_view()[b].id == before[b].id);
                    }
                }
            },
            None => {
                self.packages.push((id, state));
                assert(self.entries_view() =~= before.push(v));
                proof {
                    lemma_first_where_push(before, id_is(idv), v);
                    lemma_first_index_none(before, id_is(idv));
                    assert forall|k: Seq<char>| k != idv implies #[trigger] self.lookup(k) == old(self).lookup(k) by {
                        lemma_first_where_push(before, id_is(k), v);
                    }
                    assert forall|a: int, b: int|
                        0 <= a < b < self.entries_view().len() implies #[trigger] self.entries_view()[a].id
                            != #[trigger] self.entries_view()[b].id by {
                        assert(self.entries_view()[a] == before[a]);
                        if b < before.len() {
                            assert(self.entries_view()[b] == before[b]);
                        }
                    }
                }
            },
        }
    }

    /// Adds the package read from the file at `path`, whose canonical form
    /// is `canonical`, whose metadata records are `metadata`, and whose
    /// contents are `content`. The package is known by the digest of its
    /// path, and its metadata records the file's location, the hexadecimal
    /// SHA-256 digest of its contents and their size. Fails when a required
    /// metadata field is missing.
    pub fn add_package(
        &mut self,
        path: String,
        canonical: &str,
        metadata: &[MetaBody],
        content: &[u8],
    ) -> (r: Result<package::Id, Error>)
        requires
            old(self).wf(),
        ensures
            final(self).wf(),
            match r {
                Ok(id) => {
                    &&& first_missing(records_view(metadata@)) is None
                    &&& id@ == path_id(path@)
                    &&& final(self).lookup(id@) matches Some(e) && e.path == path@ && e.id == id@
                        && exists|m: MetaView| meta_of_records(m, records_view(metadata@))
                        && located(m, e.meta, canonical@, hex_text(sha256_of_bytes(content@)), content@.len() as u64)
                    &&& forall|k: Seq<char>| k != id@ ==> #[trigger] final(self).lookup(k) == old(self).lookup(k)
                },
                Err(e) => {
                    &&& e matches Error::Metadata(missing) && first_missing(records_view(metadata@)) == Some(missing.0)
                    &&& final(self).entries_view() == old(self).entries_view()
                },
            },
    {
        let file_size = content.len() as u64;
        let file_hash = content_digest(content);
        let mut meta = match Meta::from_stone_payload(metadata) {
            Ok(m) => m,
            Err(e) => return Err(Error::Metadata(e)),
        };
        let ghost parsed = meta@;
        let mut uri = String::from_str("file://");
        proof {
            reveal_strlit("file://");
            assert(uri@ =~= seq!['f', 'i', 'l', 'e', ':', '/', '/']);
        }
        uri.append(canonical);
        assert(uri@ =~= seq!['f', 'i', 'l', 'e', ':', '/', '/'] + canonical@);
        meta.uri = Some(uri);
        meta.hash = Some(file_hash);
        meta.download_size = Some(file_size);
        assert(located(parsed, meta@, canonical@, file_hash@, file_size));
        let id = path_hash(path.as_str());
        let ghost idv = id@;
        let ghost pv = path@;
        self.insert(id.duplicate(), State { path, meta });
        assert(self.lookup(idv) matches Some(e) && e.path == pv);
        Ok(id)
    }

    /// The local package `id`, if present.
    pub fn package(&self, id: &package::Id) -> (r: Option<Package>)
        ensures
            match r {
                Some(p) => self.package_spec(id@) == Some(p@),
                None => self.package_spec(id@) is None,
            },
    {
        match self.position(id) {
            Some(i) => {
                proof {
                    lemma_first_index(self.entries_view(), id_is(id@), i as int);
                }
                let e = &self.packages[i];
                Some(Package { id: e.0.duplicate(), meta: e.1.meta.duplicate(), flags: Flags::new().with_available() })
            },
            None => {
                proof {
                    lemma_first_index_none(self.entries_view(), id_is(id@));
                }
                None
            },
        }
    }

    /// The local packages that pass `flags` and `filter`.
    pub fn query(&self, flags: Flags, filter: Option<&Filter>) -> (r: Vec<Package>)
        ensures
            package_views(r@) == self.query_spec(flags, filter_view(filter)),
    {
        let mut out: Vec<Package> = Vec::new();
        if !flags.available {
            assert(package_views(out@) =~= Seq::<PackageView>::empty());
            return out;
        }
        let ghost f = filter_view(filter);
        let ghost s = self.entries_view();
        let ghost g = |e: CobbleView|
            if passes(e.meta, f) {
                Some(cobble_package(e))
            } else {
                None
            };
        let mut i: usize = 0;
        while i < self.packages.len()
            invariant
                i <= self.packages.len(),
                s == self.entries_view(),
                f == filter_view(filter),
                g == (|e: CobbleView|
                    if passes(e.meta, f) {
                        Some(cobble_package(e))
                    } else {
                        None
                    }),
                package_views(out@) == s.take(i as int).filter_map(g),
            decreases self.packages.len() - i,
        {
            proof {
                s.lemma_filter_map_take_succ(g, i as int);
            }
            let e = &self.packages[i];
            if passes_filter(&e.1.meta, filter) {
                out.push(Package { id: e.0.duplicate(), meta: e.1.meta.duplicate(), flags: Flags::new().with_available() });
            }
            assert(package_views(out@) =~= s.take(i + 1).filter_map(g));
            i = i + 1;
        }
        assert(s.take(i as int) =~= s);
        out
    }

    /// List the local packages, if `flags` ask for available ones.
    pub fn list(&self, flags: Flags) -> (r: Vec<Package>)
        ensures
            package_views(r@) == self.query_spec(flags, None),
    {
        self.query(flags, None)
    }

    /// The local packages whose name or summary holds `keyword`.
    pub fn query_keyword(&self, keyword: &str, flags: Flags) -> (r: Vec<Package>)
        ensures
            package_views(r@) == self.query_spec(flags, Some(FilterView::Keyword(keyword@))),
    {
        let filter = Filter::Keyword(String::from_str(keyword));
        self.query(flags, Some(&filter))
    }

    /// The local packages that provide `provider`.
    pub fn query_provider(&self, provider: &Provider, flags: Flags) -> (r: Vec<Package>)
        ensures
            package_views(r@) == self.query_spec(flags, Some(FilterView::Provider(provider@))),
    {
        let filter = Filter::Provider(provider.duplicate());
        self.query(flags, Some(&filter))
    }

    /// The local packages named `package_name`.
    pub fn query_name(&self, package_name: &Name, flags: Flags) -> (r: Vec<Package>)
        ensures
            package_views(r@) == self.query_spec(flags, Some(FilterView::Name(package_name@))),
    {
        let filter = Filter::Name(package_name.duplicate());
        self.query(flags, Some(&filter))
    }

    /// Local packages come right after the active state.
    pub fn priority(&self) -> (r: u64)
        ensures
            r == u64::MAX - 1,
    {
        u64::MAX - 1
    }
}

} // verus!
