//! Defines an encapsulation of "query plugins", including an interface
//! for managing and using them.

pub mod graph;
pub mod plugin;
pub mod transaction;

use vstd::prelude::*;

use crate::db::meta::{Filter, FilterView};
use crate::dependency::{Provider, Target};
use crate::order::{entry_point, is_entry_point, lemma_entry_point, rank_above, ranks_above, sort_desc, sorted_desc};
use crate::package::set::sort_lex;
use crate::package::{self, ids_view, package_views, Flags, Name, Package, PackageView};
use crate::select::{concat_map, lemma_concat_map_contains, lemma_concat_map_includes, lemma_concat_map_step, opt_seq};

pub use self::plugin::Plugin;
pub use self::transaction::Transaction;
use self::plugin::{by_release, test::filter_view};

verus! {

/// Plugins are consulted highest priority first.
pub open spec fn plugin_rank() -> spec_fn(Plugin) -> (u64, u64) {
    |p: Plugin| (p.priority_spec(), 0u64)
}

/// A registry is composed of multiple "query plugins" that
/// provide [`Package`] information
#[derive(Debug)]
pub struct Registry {
    /// Ordered set of plugins
    plugins: Vec<Plugin>,
}

impl Default for Registry {
    fn default() -> (r: Self)
        ensures
            r.plugins_view().len() == 0,
    {
        Registry::new()
    }
}

impl Registry {
    /// The plugins, in the order in which they are consulted.
    pub closed spec fn plugins_view(&self) -> Seq<Plugin> {
        self.plugins@
    }

    /// Plugins are ordered highest priority first.
    pub open spec fn wf(&self) -> bool {
        sorted_desc(self.plugins_view(), plugin_rank())
    }

    /// The packages of every plugin that pass `flags` and `filter`: plugins
    /// by priority, the packages of each sorted by release.
    pub open spec fn query_spec(&self, flags: Flags, filter: Option<FilterView>) -> Seq<PackageView> {
        concat_map(self.plugins_view(), |p: Plugin| sort_desc(p.query_spec(flags, filter), by_release()))
    }

    /// The identifiers of every package any plugin holds.
    pub open spec fn universe(&self) -> Seq<Seq<char>> {
        concat_map(self.plugins_view(), |p: Plugin| p.ids_spec())
    }

    /// An empty registry.
    pub fn new() -> (r: Self)
        ensures
            r.plugins_view().len() == 0,
            r.wf(),
    {
        Registry { plugins: Vec::new() }
    }

    /// Add a [`Plugin`] to the [`Registry`]: it comes after the plugins of
    /// the same or higher priority, before those of lower priority.
    pub fn add_plugin(&mut self, plugin: Plugin)
        requires
            old(self).wf(),
        ensures
            final(self).wf(),
            final(self).plugins_view() == old(self).plugins_view().insert(
                entry_point(old(self).plugins_view(), plugin_rank(), (plugin.priority_spec(), 0u64)),
                plugin,
            ),
    {
        let ghost before = self.plugins@;
        let ghost rank = plugin_rank();
        let r = (plugin.priority(), 0u64);
        let mut i: usize = 0;
        while i < self.plugins.len() && !rank_above(r, (self.plugins[i].priority(), 0u64))
            invariant
                i <= self.plugins.len(),
                self.plugins@ == before,
                rank == plugin_rank(),
                r == (plugin.priority_spec(), 0u64),
                forall|q: int| 0 <= q < i ==> !ranks_above(r, #[trigger] rank(before[q])),
            decreases self.plugins.len() - i,
        {
            i = i + 1;
        }
        proof {
            assert(is_entry_point(before, rank, r, i as int));
            lemma_entry_point(before, rank, r);
        }
        let ghost p = plugin;
        self.plugins.insert(i, plugin);
        proof {
            let out = self.plugins@;
            assert(out == before.insert(i as int, p));
            assert forall|a: int, b: int| 0 <= a < b < out.len() implies !ranks_above(
                #[trigger] rank(out[b]),
                #[trigger] rank(out[a]),
            ) by {
                if b < i {
                    assert(out[a] == before[a] && out[b] == before[b]);
                } else if b == i {
                    assert(out[a] == before[a]);
                } else if a == i {
                    assert(out[b] == before[b - 1]);
                    assert(!ranks_above(rank(before[b - 1]), rank(before[i as int])) || i == b - 1);
                } else if a < i {
                    assert(out[a] == before[a] && out[b] == before[b - 1]);
                } else {
                    assert(out[a] == before[a - 1] && out[b] == before[b - 1]);
                }
            }
        }
    }

    /// The packages of every plugin that pass `flags` and `filter`.
    fn query(&self, flags: Flags, filter: Option<&Filter>) -> (r: Vec<Package>)
        ensures
            package_views(r@) == self.query_spec(flags, filter_view(filter)),
    {
        let ghost f = |p: Plugin| sort_desc(p.query_spec(flags, filter_view(filter)), by_release());
        let mut out: Vec<Package> = Vec::new();
        let mut i: usize = 0;
        while i < self.plugins.len()
            invariant
                i <= self.plugins.len(),
                f == (|p: Plugin| sort_desc(p.query_spec(flags, filter_view(filter)), by_release())),
                package_views(out@) == concat_map(self.plugins@.take(i as int), f),
            decreases self.plugins.len() - i,
        {
            proof {
                lemma_concat_map_step(self.plugins@, f, i as int);
            }
            let ghost before = out@;
            let found = self.plugins[i].query_sorted(flags, filter);
            let mut items = found.into_vec();
            let ghost added = items@;
            out.append(&mut items);
            assert(package_views(out@) =~= package_views(before) + package_views(added));
            i = i + 1;
        }
        assert(self.plugins@.take(i as int) =~= self.plugins@);
        out
    }

    /// Return a sorted list of [`Package`] by provider
    pub fn by_provider(&self, provider: &Provider, flags: Flags) -> (r: Vec<Package>)
        ensures
            package_views(r@) == self.query_spec(flags, Some(FilterView::Provider(provider@))),
    {
        let filter = Filter::Provider(provider.duplicate());
        self.query(flags, Some(&filter))
    }

    /// The identifiers of the packages that provide `provider`: plugins by
    /// priority, the identifiers of each in lexicographic order.
    pub fn by_provider_id_only(&self, provider: &Provider, flags: Flags) -> (r: Vec<package::Id>)
        ensures
            ids_view(r@) == concat_map(
                self.plugins_view(),
                |p: Plugin| sort_lex(p.provider_ids_spec(provider@, flags)),
            ),
    {
        let ghost f = |p: Plugin| sort_lex(p.provider_ids_spec(provider@, flags));
        let mut out: Vec<package::Id> = Vec::new();
        let mut i: usize = 0;
        while i < self.plugins.len()
            invariant
                i <= self.plugins.len(),
                f == (|p: Plugin| sort_lex(p.provider_ids_spec(provider@, flags))),
                ids_view(out@) == concat_map(self.plugins@.take(i as int), f),
            decreases self.plugins.len() - i,
        {
            proof {
                lemma_concat_map_step(self.plugins@, f, i as int);
            }
            let ghost before = out@;
            let mut ids = self.plugins[i].query_provider_id_only(provider, flags);
            let ghost added = ids@;
            out.append(&mut ids);
            assert(ids_view(out@) =~= ids_view(before) + ids_view(added));
            i = i + 1;
        }
        assert(self.plugins@.take(i as int) =~= self.plugins@);
        out
    }

    /// Return a sorted list of [`Package`] by name
    pub fn by_name(&self, package_name: &Name, flags: Flags) -> (r: Vec<Package>)
        ensures
            package_views(r@) == self.query_spec(flags, Some(FilterView::Name(package_name@))),
    {
        let filter = Filter::Name(package_name.duplicate());
        self.query(flags, Some(&filter))
    }

    /// Return the packages with identifier `id`, one per plugin that has it,
    /// plugins by priority.
    pub fn by_id(&self, id: &package::Id) -> (r: Vec<Package>)
        ensures
            package_views(r@) == concat_map(self.plugins_view(), |p: Plugin| opt_seq(p.package_spec(id@))),
    {
        let ghost f = |p: Plugin| opt_seq(p.package_spec(id@));
        let mut out: Vec<Package> = Vec::new();
        let mut i: usize = 0;
        while i < self.plugins.len()
            invariant
                i <= self.plugins.len(),
                f == (|p: Plugin| opt_seq(p.package_spec(id@))),
                package_views(out@) == concat_map(self.plugins@.take(i as int), f),
            decreases self.plugins.len() - i,
        {
            proof {
                lemma_concat_map_step(self.plugins@, f, i as int);
            }
            let ghost before = out@;
            match self.plugins[i].package(id) {
                Some(p) => {
                    out.push(p);
                },
                None => {},
            }
            assert(package_views(out@) =~= package_views(before) + f(self.plugins@[i as int]));
            i = i + 1;
        }
        assert(self.plugins@.take(i as int) =~= self.plugins@);
        out
    }

    /// The packages whose name or summary holds `keyword`, plugins by
    /// priority, the packages of each sorted by release.
    pub fn by_keyword(&self, keyword: &str, flags: Flags) -> (r: Vec<Package>)
        ensures
            package_views(r@) == concat_map(
                self.plugins_view(),
                |p: Plugin| sort_desc(p.keyword_spec(keyword@, flags), by_release()),
            ),
    {
        let ghost f = |p: Plugin| sort_desc(p.keyword_spec(keyword@, flags), by_release());
        let mut out: Vec<Package> = Vec::new();
        let mut i: usize = 0;
        while i < self.plugins.len()
            invariant
                i <= self.plugins.len(),
                f == (|p: Plugin| sort_desc(p.keyword_spec(keyword@, flags), by_release())),
                package_views(out@) == concat_map(self.plugins@.take(i as int), f),
            decreases self.plugins.len() - i,
        {
            proof {
                lemma_concat_map_step(self.plugins@, f, i as int);
            }
            let ghost before = out@;
            let found = self.plugins[i].query_keyword(keyword, flags);
            let mut items = found.into_vec();
            let ghost added = items@;
            out.append(&mut items);
            assert(package_views(out@) =~= package_views(before) + package_views(added));
            i = i + 1;
        }
        assert(self.plugins@.take(i as int) =~= self.plugins@);
        out
    }

    /// Return a sorted list of [`Package`] matching the given [`Flags`]
    pub fn list(&self, flags: Flags) -> (r: Vec<Package>)
        ensures
            package_views(r@) == self.query_spec(flags, None),
    {
        self.query(flags, None)
    }

    /// Return a new, empty transaction for this registry
    pub fn transaction(&self) -> (r: Result<Transaction<'_>, transaction::Error>)
        ensures
            r matches Ok(t) && t.registry_view() == self && t.graph().wf() && t.graph().nodes_view().len() == 0
                && t.graph().edges_view().len() == 0,
    {
        transaction::new(self)
    }

    /// Return a new transaction for this registry initialised with the
    /// incoming package set as installed
    pub fn transaction_with_installed(&self, incoming: Vec<package::Id>) -> (r: Result<
        Transaction<'_>,
        transaction::Error,
    >)
        ensures
            match r {
                Ok(t) => {
                    &&& t.registry_view() == self
                    &&& t.graph().wf()
                    &&& forall|i: int|
                        0 <= i < incoming.len() ==> t.graph().has_node(#[trigger] incoming@[i]@)
                            && transaction::resolved(self, t.graph(), transaction::Lookup::InstalledOnly, incoming@[i]@)
                    &&& forall|x: Seq<char>|
                        #[trigger] t.graph().has_node(x) ==> transaction::resolved(
                            self,
                            t.graph(),
                            transaction::Lookup::InstalledOnly,
                            x,
                        )
                    &&& transaction::building_from(
                        self,
                        transaction::empty_model(),
                        0,
                        ids_view(incoming@),
                        transaction::Lookup::InstalledOnly,
                    ) == Ok::<transaction::Model, Seq<char>>(transaction::model(t.graph()))
                },
                Err(e) => e matches transaction::Error::NoCandidate(s) && transaction::building_from(
                    self,
                    transaction::empty_model(),
                    0,
                    ids_view(incoming@),
                    transaction::Lookup::InstalledOnly,
                ) == Err::<transaction::Model, Seq<char>>(s@),
            },
    {
        transaction::new_with_installed(self, incoming)
    }

    /// Return a sorted list of installed [`Package`]
    pub fn list_installed(&self, flags: Flags) -> (r: Vec<Package>)
        ensures
            package_views(r@) == self.query_spec(Flags { installed: true, ..flags }, None),
    {
        self.list(flags.with_installed())
    }

    /// Return a sorted list of available [`Package`]
    pub fn list_available(&self, flags: Flags) -> (r: Vec<Package>)
        ensures
            package_views(r@) == self.query_spec(Flags { available: true, ..flags }, None),
    {
        self.list(flags.with_available())
    }
}

/// Every package a query of the registry yields is held by one of its
/// plugins.
pub proof fn lemma_query_in_universe(reg: &Registry, flags: Flags, filter: Option<FilterView>, x: PackageView)
    requires
        reg.query_spec(flags, filter).contains(x),
    ensures
        reg.universe().contains(x.id),
{
    let f = |p: Plugin| sort_desc(p.query_spec(flags, filter), by_release());
    lemma_concat_map_contains(reg.plugins_view(), f, x);
    let i = choose|i: int| 0 <= i < reg.plugins_view().len() && #[trigger] f(reg.plugins_view()[i]).contains(x);
    let p = reg.plugins_view()[i];
    crate::order::lemma_sort_desc(p.query_spec(flags, filter), by_release());
    assert(p.query_spec(flags, filter).contains(x)) by {
        broadcast use vstd::seq_lib::group_to_multiset_ensures;
        assert(sort_desc(p.query_spec(flags, filter), by_release()).to_multiset().count(x) > 0);
    }
    plugin::lemma_query_ids(p, flags, filter, x);
    lemma_concat_map_includes(reg.plugins_view(), |p: Plugin| p.ids_spec(), i, x.id);
}

/// A registry built by adding the plugins `ps` in turn, from an empty one,
/// holds them highest priority first, plugins of equal priority in the
/// order they were added: the empty registry holds `sort_desc` of no
/// plugins, and adding `p` to a registry that holds `sort_desc(ps)` gives
/// one that holds `sort_desc(ps.push(p))`. Its listing and queries go
/// through the plugins in that order.
pub proof fn lemma_plugin_order(before: Registry, after: Registry, ps: Seq<Plugin>, p: Plugin)
    requires
        before.plugins_view() == sort_desc(ps, plugin_rank()),
        after.plugins_view() == before.plugins_view().insert(
            entry_point(before.plugins_view(), plugin_rank(), (p.priority_spec(), 0u64)),
            p,
        ),
    ensures
        after.plugins_view() == sort_desc(ps.push(p), plugin_rank()),
        sorted_desc(after.plugins_view(), plugin_rank()),
        after.plugins_view().to_multiset() == ps.push(p).to_multiset(),
        forall|flags: Flags, filter: Option<FilterView>|
            #[trigger] after.query_spec(flags, filter) == concat_map(
                sort_desc(ps.push(p), plugin_rank()),
                |q: Plugin| sort_desc(q.query_spec(flags, filter), by_release()),
            ),
{
    assert(ps.push(p).drop_last() =~= ps);
    assert(plugin_rank()(p) == (p.priority_spec(), 0u64));
    crate::order::lemma_sort_desc(ps.push(p), plugin_rank());
}

/// The empty registry holds the plugins of no addition.
pub proof fn lemma_plugin_order_empty(r: Registry)
    requires
        r.plugins_view().len() == 0,
    ensures
        r.plugins_view() == sort_desc(Seq::<Plugin>::empty(), plugin_rank()),
{
    assert(r.plugins_view() =~= Seq::<Plugin>::empty());
}

/// The listing law: a registry that holds the plugins added to it, `ps`,
/// in the order `add_plugin` leaves them (see [`lemma_plugin_order`]) lists
/// the packages of each plugin in turn, plugins by priority from highest
/// and plugins of equal priority in the order they were added, the packages
/// of each plugin from the highest release down.
pub proof fn lemma_list_order(r: Registry, ps: Seq<Plugin>, flags: Flags)
    requires
        r.plugins_view() == sort_desc(ps, plugin_rank()),
    ensures
        r.query_spec(flags, None) == concat_map(
            r.plugins_view(),
            |q: Plugin| sort_desc(q.query_spec(flags, None), by_release()),
        ),
        sorted_desc(r.plugins_view(), plugin_rank()),
        r.plugins_view().to_multiset() == ps.to_multiset(),
        forall|k: (u64, u64)|
            #[trigger] r.plugins_view().filter(crate::order::has_rank(plugin_rank(), k)) == ps.filter(
                crate::order::has_rank(plugin_rank(), k),
            ),
        forall|i: int|
            0 <= i < r.plugins_view().len() ==> sorted_desc(
                sort_desc(#[trigger] r.plugins_view()[i].query_spec(flags, None), by_release()),
                by_release(),
            ),
{
    crate::order::lemma_sort_desc(ps, plugin_rank());
    assert forall|k: (u64, u64)|
        #[trigger] r.plugins_view().filter(crate::order::has_rank(plugin_rank(), k)) == ps.filter(
            crate::order::has_rank(plugin_rank(), k),
        ) by {
        crate::order::lemma_sort_desc_stable(ps, plugin_rank(), k);
    }
    assert forall|i: int| 0 <= i < r.plugins_view().len() implies sorted_desc(
        sort_desc(#[trigger] r.plugins_view()[i].query_spec(flags, None), by_release()),
        by_release(),
    ) by {
        crate::order::lemma_sort_desc(r.plugins_view()[i].query_spec(flags, None), by_release());
    }
}

} // verus!
