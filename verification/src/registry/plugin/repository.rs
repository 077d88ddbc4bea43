//! The plugin for the package index of a repository.

use vstd::prelude::*;

use crate::db::meta::{entry_views, passes, passes_filter, EntryView, Filter, FilterView};
use crate::dependency::{Provider, Target};
use crate::package::{self, package_views, Flags, MetaView, Name, Package, PackageView};
use crate::registry::plugin::cobble::available;
use crate::registry::plugin::test::filter_view;
use crate::repository::{self, join_uri, url_join};
use crate::select::{first_where, is_first, lemma_first_index, lemma_first_index_none};

verus! {

/// A plugin serving the packages of a repository's index.
#[derive(Debug)]
pub struct Repository {
    active: repository::Active,
}

/// Queries with `flags` reach available packages: the flags ask for them,
/// or ask for nothing.
pub open spec fn wants_available(flags: Flags) -> bool {
    flags.available || flags == Flags { available: false, installed: false, source: false, explicit: false }
}

/// The package of index entry `e`, as listed.
pub open spec fn listed_package(e: EntryView) -> PackageView {
    PackageView { id: e.id, meta: e.meta, flags: available() }
}

impl Repository {
    /// The entries of the index.
    pub closed spec fn entries_view(&self) -> Seq<EntryView> {
        entry_views(self.active.entries@)
    }

    /// The repository's URL.
    pub closed spec fn base_uri(&self) -> Seq<char> {
        self.active.repository.uri@
    }

    /// The repository's priority.
    pub closed spec fn priority_spec(&self) -> u64 {
        self.active.repository.priority.value_spec()
    }

    /// The package `id` as fetched: its download location resolved against
    /// the repository's URL.
    pub open spec fn package_spec(&self, id: Seq<char>) -> Option<PackageView> {
        match first_where(self.entries_view(), |e: EntryView| e.id == id) {
            Some(e) => Some(
                PackageView {
                    id,
                    meta: MetaView {
                        uri: match e.meta.uri {
                            Some(rel) => url_join(self.base_uri(), rel),
                            None => None,
                        },
                        ..e.meta
                    },
                    flags: available(),
                },
            ),
            None => None,
        }
    }

    /// The packages of the index that pass `flags` and `filter`.
    pub open spec fn query_spec(&self, flags: Flags, filter: Option<FilterView>) -> Seq<PackageView> {
        if wants_available(flags) {
            self.entries_view().filter_map(
                |e: EntryView|
                    if passes(e.meta, filter) {
                        Some(listed_package(e))
                    } else {
                        None
                    },
            )
        } else {
            Seq::empty()
        }
    }

    /// A plugin for the repository `active`.
    pub fn new(active: repository::Active) -> (r: Self)
        ensures
            r.entries_view() == entry_views(active.entries@),
            r.base_uri() == active.repository.uri@,
            r.priority_spec() == active.repository.priority.value_spec(),
    {
        Repository { active }
    }

    /// The repository's priority.
    pub fn priority(&self) -> (r: u64)
        ensures
            r == self.priority_spec(),
    {
        self.active.repository.priority.value()
    }

    /// The package `id`, its download location resolved against the
    /// repository's URL.
    pub fn package(&self, id: &package::Id) -> (r: Option<Package>)
        ensures
            match r {
                Some(p) => self.package_spec(id@) == Some(p@),
                None => self.package_spec(id@) is None,
            },
    {
        let ghost s = self.entries_view();
        let ghost pred = |e: EntryView| e.id == id@;
        let entries = &self.active.entries;
        let mut i: usize = 0;
        while i < entries.len()
            invariant
                i <= entries.len(),
                entries == &self.active.entries,
                s == self.entries_view(),
                pred == (|e: EntryView| e.id == id@),
                forall|j: int| 0 <= j < i ==> !pred(#[trigger] s[j]),
            decreases entries.len() - i,
        {
            assert(s[i as int] == entries@[i as int]@);
            if entries[i].id.same(id) {
                proof {
                    assert(is_first(s, pred, i as int));
                    lemma_first_index(s, pred, i as int);
                }
                let mut meta = entries[i].meta.duplicate();
                let uri = match &entries[i].meta.uri {
                    Some(relative) => join_uri(self.active.repository.uri.as_str(), relative.as_str()),
                    None => None,
                };
                meta.uri = uri;
                return Some(Package { id: id.duplicate(), meta, flags: Flags::new().with_available() });
            }
            i = i + 1;
        }
        proof {
            lemma_first_index_none(s, pred);
        }
        None
    }

    /// The packages of the index that pass `flags` and `filter`.
    pub fn query(&self, flags: Flags, filter: Option<&Filter>) -> (r: Vec<Package>)
        ensures
            package_views(r@) == self.query_spec(flags, filter_view(filter)),
    {
        let mut out: Vec<Package> = Vec::new();
        if !(flags.available || flags == Flags::new()) {
            assert(package_views(out@) =~= Seq::<PackageView>::empty());
            return out;
        }
        let ghost f = filter_view(filter);
        let ghost s = self.entries_view();
        let ghost g = |e: EntryView|
            if passes(e.meta, f) {
                Some(listed_package(e))
            } else {
                None
            };
        let entries = &self.active.entries;
        let mut i: usize = 0;
        while i < entries.len()
            invariant
                i <= entries.len(),
                entries == &self.active.entries,
                s == self.entries_view(),
                f == filter_view(filter),
                g == (|e: EntryView|
                    if passes(e.meta, f) {
                        Some(listed_package(e))
                    } else {
                        None
                    }),
                package_views(out@) == s.take(i as int).filter_map(g),
            decreases entries.len() - i,
        {
            proof {
                s.lemma_filter_map_take_succ(g, i as int);
            }
            let e = &entries[i];
            assert(s[i as int] == e@);
            if passes_filter(&e.meta, filter) {
                out.push(Package { id: e.id.duplicate(), meta: e.meta.duplicate(), flags: Flags::new().with_available() });
            }
            assert(package_views(out@) =~= s.take(i + 1).filter_map(g));
            i = i + 1;
        }
        assert(s.take(i as int) =~= s);
        out
    }

    /// List the packages of the index, if `flags` allow available ones.
    pub fn list(&self, flags: Flags) -> (r: Vec<Package>)
        ensures
            package_views(r@) == self.query_spec(flags, None),
    {
        self.query(flags, None)
    }

    /// The packages whose name or summary holds `keyword`.
    pub fn query_keyword(&self, keyword: &str, flags: Flags) -> (r: Vec<Package>)
        ensures
            package_views(r@) == self.query_spec(flags, Some(FilterView::Keyword(keyword@))),
    {
        let filter = Filter::Keyword(String::from_str(keyword));
        self.query(flags, Some(&filter))
    }

    /// Query all packages that match the given provider identity
    pub fn query_provider(&self, provider: &Provider, flags: Flags) -> (r: Vec<Package>)
        ensures
            package_views(r@) == self.query_spec(flags, Some(FilterView::Provider(provider@))),
    {
        let filter = Filter::Provider(provider.duplicate());
        self.query(flags, Some(&filter))
    }

    /// The packages named `package_name`.
    pub fn query_name(&self, package_name: &Name, flags: Flags) -> (r: Vec<Package>)
        ensures
            package_views(r@) == self.query_spec(flags, Some(FilterView::Name(package_name@))),
    {
        let filter = Filter::Name(package_name.duplicate());
        self.query(flags, Some(&filter))
    }

    /// The identifiers of the packages that provide `provider`.
    pub fn query_provider_id_only(&self, provider: &Provider, flags: Flags) -> (r: Vec<package::Id>)
        ensures
            r@.map_values(|i: package::Id| i@) == self.query_spec(
                flags,
                Some(FilterView::Provider(provider@)),
            ).map_values(|p: PackageView| p.id),
    {
        let found = self.query_provider(provider, flags);
        crate::registry::plugin::test::ids_of(&found)
    }
}

} // verus!
