//! Registry plugins: the sources of package information that a
//! [`super::Registry`] consults.

pub mod active;
pub mod cobble;
pub mod repository;
pub mod test;

use vstd::prelude::*;

use crate::db::meta::{Filter, FilterView};
use crate::dependency::{Provider, Target};
use crate::order::{sort_desc, Ranked};
use crate::package::set::{sort_ids, sort_lex};
use crate::package::{self, ids_view, package_views, Flags, Name, Package, PackageView, Sorted};

pub use self::active::Active;
pub use self::cobble::Cobble;
pub use self::repository::Repository;
pub use self::test::Test;
use self::test::{ids_of, select_keyword, select_packages};

verus! {

/// Packages ordered highest source release first, then highest build
/// release.
pub open spec fn by_release() -> spec_fn(PackageView) -> (u64, u64) {
    |v: PackageView| Package::rank_of_view(v)
}

/// Packages sorted by release come newest first: of two packages, the one
/// listed first has the higher source release, or the same source release
/// and a build release at least as high. Sorting keeps every package.
pub proof fn lemma_release_order(s: Seq<PackageView>)
    ensures
        sort_desc(s, by_release()).len() == s.len(),
        sort_desc(s, by_release()).to_multiset() == s.to_multiset(),
        forall|i: int, j: int|
            #![trigger sort_desc(s, by_release())[i], sort_desc(s, by_release())[j]]
            0 <= i < j < s.len() ==> sort_desc(s, by_release())[i].meta.source_release > sort_desc(
                s,
                by_release(),
            )[j].meta.source_release || (sort_desc(s, by_release())[i].meta.source_release == sort_desc(
                s,
                by_release(),
            )[j].meta.source_release && sort_desc(s, by_release())[i].meta.build_release >= sort_desc(
                s,
                by_release(),
            )[j].meta.build_release),
{
    let t = sort_desc(s, by_release());
    crate::order::lemma_sort_desc(s, by_release());
    assert forall|i: int, j: int| 0 <= i < j < s.len() implies #[trigger] t[i].meta.source_release > #[trigger] t[j].meta.source_release
        || (t[i].meta.source_release == t[j].meta.source_release && t[i].meta.build_release
        >= t[j].meta.build_release) by {
        assert(!crate::order::ranks_above(by_release()(t[j]), by_release()(t[i])));
    }
}

/// A [`super::Registry`] plugin that enables querying [`Package`]
/// information.
#[derive(Debug)]
pub enum Plugin {
    Active(Active),
    Cobble(Cobble),
    Repository(Repository),
    Test(Test),
}

impl Plugin {
    /// Plugin priority: higher priority, better chance of selection.
    pub open spec fn priority_spec(&self) -> u64 {
        match self {
            Plugin::Active(_) => u64::MAX,
            Plugin::Cobble(_) => (u64::MAX - 1) as u64,
            Plugin::Repository(p) => p.priority_spec(),
            Plugin::Test(p) => p.priority_of(),
        }
    }

    /// The identifiers of every package this plugin holds.
    pub open spec fn ids_spec(&self) -> Seq<Seq<char>> {
        match self {
            Plugin::Active(p) => p.entries_view().map_values(|e: crate::db::meta::EntryView| e.id),
            Plugin::Cobble(p) => p.entries_view().map_values(|e: cobble::CobbleView| e.id),
            Plugin::Repository(p) => p.entries_view().map_values(|e: crate::db::meta::EntryView| e.id),
            Plugin::Test(p) => p.packages_view().map_values(|v: PackageView| v.id),
        }
    }

    /// The package `id`, if this plugin has it.
    pub open spec fn package_spec(&self, id: Seq<char>) -> Option<PackageView> {
        match self {
            Plugin::Active(p) => p.package_spec(id),
            Plugin::Cobble(p) => p.package_spec(id),
            Plugin::Repository(p) => p.package_spec(id),
            Plugin::Test(p) => p.package_spec(id),
        }
    }

    /// The packages that pass `flags` and `filter`, before sorting.
    pub open spec fn query_spec(&self, flags: Flags, filter: Option<FilterView>) -> Seq<PackageView> {
        match self {
            Plugin::Active(p) => p.query_spec(flags, filter),
            Plugin::Cobble(p) => p.query_spec(flags, filter),
            Plugin::Repository(p) => p.query_spec(flags, filter),
            Plugin::Test(p) => select_packages(p.packages_view(), flags, filter),
        }
    }

    /// The packages whose name or summary holds `keyword`, before sorting.
    pub open spec fn keyword_spec(&self, keyword: Seq<char>, flags: Flags) -> Seq<PackageView> {
        match self {
            Plugin::Test(p) => select_keyword(p.packages_view(), keyword),
            _ => self.query_spec(flags, Some(FilterView::Keyword(keyword))),
        }
    }

    /// Return a package for the given [`package::Id`]. Returns `None` if
    /// the `package` cannot be located.
    pub fn package(&self, id: &package::Id) -> (r: Option<Package>)
        ensures
            match r {
                Some(p) => self.package_spec(id@) == Some(p@),
                None => self.package_spec(id@) is None,
            },
    {
        match self {
            Plugin::Active(plugin) => plugin.package(id),
            Plugin::Cobble(plugin) => plugin.package(id),
            Plugin::Repository(plugin) => plugin.package(id),
            Plugin::Test(plugin) => plugin.package(id),
        }
    }

    /// The packages that pass `flags` and `filter`, sorted.
    pub fn query_sorted(&self, flags: Flags, filter: Option<&Filter>) -> (r: Sorted<Package>)
        ensures
            package_views(r.items()) == sort_desc(
                self.query_spec(flags, test::filter_view(filter)),
                by_release(),
            ),
    {
        let found = match self {
            Plugin::Active(plugin) => plugin.query(flags, filter),
            Plugin::Cobble(plugin) => plugin.query(flags, filter),
            Plugin::Repository(plugin) => plugin.query(flags, filter),
            Plugin::Test(plugin) => plugin.query(flags, filter),
        };
        let r = Sorted::new(found);
        assert(package_views(r.items()) == r.items().map_values(|t: Package| t@));
        r
    }

    /// List all packages with matching `flags`
    pub fn list(&self, flags: Flags) -> (r: Sorted<Package>)
        ensures
            package_views(r.items()) == sort_desc(self.query_spec(flags, None), by_release()),
    {
        self.query_sorted(flags, None)
    }

    /// The packages whose name or summary holds `keyword`, sorted.
    pub fn query_keyword(&self, keyword: &str, flags: Flags) -> (r: Sorted<Package>)
        ensures
            package_views(r.items()) == sort_desc(self.keyword_spec(keyword@, flags), by_release()),
    {
        let found = match self {
            Plugin::Active(plugin) => plugin.query_keyword(keyword, flags),
            Plugin::Cobble(plugin) => plugin.query_keyword(keyword, flags),
            Plugin::Repository(plugin) => plugin.query_keyword(keyword, flags),
            Plugin::Test(plugin) => plugin.query_keyword(keyword, flags),
        };
        let r = Sorted::new(found);
        assert(package_views(r.items()) == r.items().map_values(|t: Package| t@));
        r
    }

    /// Returns a list of packages with matching `provider` and `flags`
    pub fn query_provider(&self, provider: &Provider, flags: Flags) -> (r: Sorted<Package>)
        ensures
            package_views(r.items()) == sort_desc(
                self.query_spec(flags, Some(FilterView::Provider(provider@))),
                by_release(),
            ),
    {
        let filter = Filter::Provider(provider.duplicate());
        self.query_sorted(flags, Some(&filter))
    }

    /// Returns a list of packages with matching `package_name` and `flags`
    pub fn query_name(&self, package_name: &Name, flags: Flags) -> (r: Sorted<Package>)
        ensures
            package_views(r.items()) == sort_desc(
                self.query_spec(flags, Some(FilterView::Name(package_name@))),
                by_release(),
            ),
    {
        let filter = Filter::Name(package_name.duplicate());
        self.query_sorted(flags, Some(&filter))
    }

    /// The identifiers of the packages that provide `provider`, in the
    /// order in which the plugin yields them.
    pub open spec fn provider_ids_spec(&self, provider: (crate::dependency::Kind, Seq<char>), flags: Flags) -> Seq<
        Seq<char>,
    > {
        self.query_spec(flags, Some(FilterView::Provider(provider))).map_values(|p: PackageView| p.id)
    }

    /// The identifiers of the packages that provide `provider`, in
    /// lexicographic order.
    pub fn query_provider_id_only(&self, provider: &Provider, flags: Flags) -> (r: Vec<package::Id>)
        ensures
            ids_view(r@) == sort_lex(self.provider_ids_spec(provider@, flags)),
    {
        let ids = match self {
            Plugin::Active(plugin) => plugin.query_provider_id_only(provider, flags),
            Plugin::Cobble(plugin) => {
                let found = plugin.query_provider(provider, flags);
                ids_of(&found)
            },
            Plugin::Repository(plugin) => plugin.query_provider_id_only(provider, flags),
            Plugin::Test(plugin) => plugin.query_provider_id_only(provider, flags),
        };
        assert(ids_view(ids@) == self.provider_ids_spec(provider@, flags));
        sort_ids(ids)
    }

    /// Plugin priority
    ///
    /// Higher priority = better chance of selection
    pub fn priority(&self) -> (r: u64)
        ensures
            r == self.priority_spec(),
    {
        match self {
            Plugin::Active(plugin) => plugin.priority(),
            Plugin::Cobble(plugin) => plugin.priority(),
            Plugin::Repository(plugin) => plugin.priority(),
            Plugin::Test(plugin) => plugin.priority(),
        }
    }
}

/// Every package a query of `p` yields is one that `p` holds.
pub proof fn lemma_query_ids(p: Plugin, flags: Flags, filter: Option<FilterView>, x: PackageView)
    requires
        p.query_spec(flags, filter).contains(x),
    ensures
        p.ids_spec().contains(x.id),
{
    match p {
        Plugin::Active(a) => {
            let s = a.entries_view();
            let f = |e: crate::db::meta::EntryView| a.entry_result(e, flags, filter);
            s.lemma_filter_map_contains(f, x);
            let t = choose|t: crate::db::meta::EntryView| #[trigger] s.contains(t) && f(t) == Some(x);
            let i = choose|i: int| 0 <= i < s.len() && s[i] == t;
            assert(p.ids_spec()[i] == x.id);
        },
        Plugin::Cobble(c) => {
            let s = c.entries_view();
            let f = |e: cobble::CobbleView|
                if crate::db::meta::passes(e.meta, filter) {
                    Some(cobble::cobble_package(e))
                } else {
                    None
                };
            s.lemma_filter_map_contains(f, x);
            let t = choose|t: cobble::CobbleView| #[trigger] s.contains(t) && f(t) == Some(x);
            let i = choose|i: int| 0 <= i < s.len() && s[i] == t;
            assert(p.ids_spec()[i] == x.id);
        },
        Plugin::Repository(r) => {
            let s = r.entries_view();
            let f = |e: crate::db::meta::EntryView|
                if crate::db::meta::passes(e.meta, filter) {
                    Some(repository::listed_package(e))
                } else {
                    None
                };
            s.lemma_filter_map_contains(f, x);
            let t = choose|t: crate::db::meta::EntryView| #[trigger] s.contains(t) && f(t) == Some(x);
            let i = choose|i: int| 0 <= i < s.len() && s[i] == t;
            assert(p.ids_spec()[i] == x.id);
        },
        Plugin::Test(t) => {
            let s = t.packages_view();
            let f = |v: PackageView|
                if crate::package::flags_contain(v.flags, flags) && crate::db::meta::passes(v.meta, filter) {
                    Some(v)
                } else {
                    None
                };
            s.lemma_filter_map_contains(f, x);
            let u = choose|u: PackageView| #[trigger] s.contains(u) && f(u) == Some(x);
            let i = choose|i: int| 0 <= i < s.len() && s[i] == u;
            assert(p.ids_spec()[i] == x.id);
        },
    }
}

} // verus!
