//! A plugin that serves a fixed list of packages.

use vstd::prelude::*;

use crate::db::meta::{passes, passes_filter, Filter, FilterView};
use crate::dependency::{Provider, Target};
use crate::package::{self, flags_contain, package_views, Flags, Name, Package, PackageView};
use crate::select::{first_where, is_first, lemma_first_index, lemma_first_index_none};
use crate::text::{contains_seq, str_contains};

verus! {

/// A plugin holding its packages in a list.
#[derive(Debug, Clone, PartialEq, Eq)]
pub struct Test {
    pub priority: u64,
    packages: Vec<Package>,
}

/// The packages of `s` that carry `flags` and pass `filter`, in order.
pub open spec fn select_packages(s: Seq<PackageView>, flags: Flags, filter: Option<FilterView>) -> Seq<PackageView> {
    s.filter_map(
        |p: PackageView|
            if flags_contain(p.flags, flags) && passes(p.meta, filter) {
                Some(p)
            } else {
                None
            },
    )
}

/// The packages of `s` whose name or summary holds `keyword`, in order.
pub open spec fn select_keyword(s: Seq<PackageView>, keyword: Seq<char>) -> Seq<PackageView> {
    s.filter_map(
        |p: PackageView|
            if contains_seq(p.meta.name, keyword) || contains_seq(p.meta.summary, keyword) {
                Some(p)
            } else {
                None
            },
    )
}

/// The optional filter view of an optional filter.
pub open spec fn filter_view(f: Option<&Filter>) -> Option<FilterView> {
    match f {
        Some(f) => Some(f@),
        None => None,
    }
}

impl Test {
    /// The packages, as views.
    pub closed spec fn packages_view(&self) -> Seq<PackageView> {
        package_views(self.packages@)
    }

    /// The priority.
    pub closed spec fn priority_of(&self) -> u64 {
        self.priority
    }

    /// The package with identifier `id`, if any.
    pub open spec fn package_spec(&self, id: Seq<char>) -> Option<PackageView> {
        first_where(self.packages_view(), |p: PackageView| p.id == id)
    }

    /// A plugin of the given priority serving `packages`.
    pub fn new(priority: u64, packages: Vec<Package>) -> (r: Self)
        ensures
            r.priority_of() == priority,
            r.packages_view() == package_views(packages@),
    {
        Test { priority, packages }
    }

    /// The priority.
    pub fn priority(&self) -> (r: u64)
        ensures
            r == self.priority_of(),
    {
        self.priority
    }

    /// The first package with identifier `id`.
    pub fn package(&self, id: &package::Id) -> (r: Option<Package>)
        ensures
            match r {
                Some(p) => self.package_spec(id@) == Some(p@),
                None => self.package_spec(id@) is None,
            },
    {
        let ghost pred = |p: PackageView| p.id == id@;
        let mut i: usize = 0;
        while i < self.packages.len()
            invariant
                i <= self.packages.len(),
                pred == (|p: PackageView| p.id == id@),
                forall|j: int| 0 <= j < i ==> !pred(#[trigger] self.packages_view()[j]),
            decreases self.packages.len() - i,
        {
            if self.packages[i].id.same(id) {
                proof {
                    assert(is_first(self.packages_view(), pred, i as int));
                    lemma_first_index(self.packages_view(), pred, i as int);
                }
                return Some(self.packages[i].duplicate());
            }
            i = i + 1;
        }
        proof {
            lemma_first_index_none(self.packages_view(), pred);
        }
        None
    }

    /// The packages that carry `flags` and pass `filter`, in order.
    pub fn query(&self, flags: Flags, filter: Option<&Filter>) -> (r: Vec<Package>)
        ensures
            package_views(r@) == select_packages(self.packages_view(), flags, filter_view(filter)),
    {
        let ghost f = filter_view(filter);
        let ghost s = self.packages_view();
        let mut out: Vec<Package> = Vec::new();
        let mut i: usize = 0;
        while i < self.packages.len()
            invariant
                i <= self.packages.len(),
                s == self.packages_view(),
                f == filter_view(filter),
                package_views(out@) == select_packages(s.take(i as int), flags, f),
            decreases self.packages.len() - i,
        {
            proof {
                s.lemma_filter_map_take_succ(
                    |p: PackageView|
                        if flags_contain(p.flags, flags) && passes(p.meta, f) {
                            Some(p)
                        } else {
                            None
                        },
                    i as int,
                );
            }
            let p = &self.packages[i];
            if p.flags.contains(flags) && passes_filter(&p.meta, filter) {
                out.push(p.duplicate());
            }
            assert(package_views(out@) =~= select_packages(s.take(i + 1), flags, f));
            i = i + 1;
        }
        assert(s.take(i as int) =~= s);
        out
    }

    /// List all packages that carry `flags`.
    pub fn list(&self, flags: Flags) -> (r: Vec<Package>)
        ensures
            package_views(r@) == select_packages(self.packages_view(), flags, None),
    {
        self.query(flags, None)
    }

    /// The packages whose name or summary holds `keyword`.
    pub fn query_keyword(&self, keyword: &str, _flags: Flags) -> (r: Vec<Package>)
        ensures
            package_views(r@) == select_keyword(self.packages_view(), keyword@),
    {
        let ghost s = self.packages_view();
        let mut out: Vec<Package> = Vec::new();
        let mut i: usize = 0;
        while i < self.packages.len()
            invariant
                i <= self.packages.len(),
                s == self.packages_view(),
                package_views(out@) == select_keyword(s.take(i as int), keyword@),
            decreases self.packages.len() - i,
        {
            proof {
                s.lemma_filter_map_take_succ(
                    |p: PackageView|
                        if contains_seq(p.meta.name, keyword@) || contains_seq(p.meta.summary, keyword@) {
                            Some(p)
                        } else {
                            None
                        },
                    i as int,
                );
            }
            let p = &self.packages[i];
            if p.meta.name.contains(keyword) || str_contains(p.meta.summary.as_str(), keyword) {
                out.push(p.duplicate());
            }
            assert(package_views(out@) =~= select_keyword(s.take(i + 1), keyword@));
            i = i + 1;
        }
        assert(s.take(i as int) =~= s);
        out
    }

    /// The packages that provide `provider` and carry `flags`.
    pub fn query_provider(&self, provider: &Provider, flags: Flags) -> (r: Vec<Package>)
        ensures
            package_views(r@) == select_packages(
                self.packages_view(),
                flags,
                Some(FilterView::Provider(provider@)),
            ),
    {
        let filter = Filter::Provider(provider.duplicate());
        self.query(flags, Some(&filter))
    }

    /// The identifiers of the packages that provide `provider` and carry
    /// `flags`.
    pub fn query_provider_id_only(&self, provider: &Provider, flags: Flags) -> (r: Vec<package::Id>)
        ensures
            r@.map_values(|i: package::Id| i@) == select_packages(
                self.packages_view(),
                flags,
                Some(FilterView::Provider(provider@)),
            ).map_values(|p: PackageView| p.id),
    {
        let found = self.query_provider(provider, flags);
        ids_of(&found)
    }

    /// The packages named `package_name` that carry `flags`.
    pub fn query_name(&self, package_name: &Name, flags: Flags) -> (r: Vec<Package>)
        ensures
            package_views(r@) == select_packages(
                self.packages_view(),
                flags,
                Some(FilterView::Name(package_name@)),
            ),
    {
        let filter = Filter::Name(package_name.duplicate());
        self.query(flags, Some(&filter))
    }
}

/// The identifiers of `packages`, in order.
pub fn ids_of(packages: &Vec<Package>) -> (r: Vec<package::Id>)
    ensures
        r@.map_values(|i: package::Id| i@) == package_views(packages@).map_values(|p: PackageView| p.id),
{
    let mut out: Vec<package::Id> = Vec::new();
    let mut i: usize = 0;
    while i < packages.len()
        invariant
            i <= packages.len(),
            out.len() == i,
            out@.map_values(|i: package::Id| i@) == package_views(packages@).map_values(|p: PackageView| p.id).take(
                i as int,
            ),
        decreases packages.len() - i,
    {
        out.push(packages[i].id.duplicate());
        assert(out@.map_values(|i: package::Id| i@) =~= package_views(packages@).map_values(|p: PackageView| p.id).take(
            i + 1,
        ));
        i = i + 1;
    }
    assert(package_views(packages@).map_values(|p: PackageView| p.id).take(i as int) =~= package_views(
        packages@,
    ).map_values(|p: PackageView| p.id));
    out
}

} // verus!
