//! The plugin for the packages of the active state.

use vstd::prelude::*;

use crate::db::meta::{entry_views, passes, passes_filter, Entry, EntryView, Filter, FilterView};
use crate::dependency::{Provider, Target};
use crate::package::{self, package_views, Flags, Name, Package, PackageView};
use crate::registry::plugin::test::filter_view;
use crate::select::{first_where, is_first, lemma_first_index, lemma_first_index_none};
use crate::state::{selection_views, SelectionView, State};

verus! {

/// A plugin serving the installed packages that the active state selects.
#[derive(Debug, Clone)]
pub struct Active {
    state: Option<State>,
    entries: Vec<Entry>,
}

/// The flags of an installed package, from its selection.
pub open spec fn selection_flags(s: SelectionView) -> Flags {
    Flags { available: false, installed: true, source: false, explicit: s.explicit }
}

/// Queries with `flags` reach installed packages: the flags ask for them,
/// or ask for nothing.
pub open spec fn wants_installed(flags: Flags) -> bool {
    flags.installed || flags == Flags { available: false, installed: false, source: false, explicit: false }
}

/// A package with status `f` passes the explicit-only restriction of `flags`.
pub open spec fn explicit_ok(flags: Flags, f: Flags) -> bool {
    flags.explicit ==> f.explicit
}

impl Active {
    /// The selections of the active state, if there is one.
    pub closed spec fn selections_spec(&self) -> Option<Seq<SelectionView>> {
        match self.state {
            Some(s) => Some(selection_views(s.selections@)),
            None => None,
        }
    }

    /// The installed metadata entries.
    pub closed spec fn entries_view(&self) -> Seq<EntryView> {
        entry_views(self.entries@)
    }

    /// The status of package `id` if the active state selects it.
    pub open spec fn installed_spec(&self, id: Seq<char>) -> Option<Flags> {
        match self.selections_spec() {
            Some(sel) => match first_where(sel, |s: SelectionView| s.package == id) {
                Some(s) => Some(selection_flags(s)),
                None => None,
            },
            None => None,
        }
    }

    /// The package built from entry `e` if it is selected and passes
    /// `flags` and `filter`.
    pub open spec fn entry_result(&self, e: EntryView, flags: Flags, filter: Option<FilterView>) -> Option<PackageView> {
        if passes(e.meta, filter) {
            match self.installed_spec(e.id) {
                Some(f) => if explicit_ok(flags, f) {
                    Some(PackageView { id: e.id, meta: e.meta, flags: f })
                } else {
                    None
                },
                None => None,
            }
        } else {
            None
        }
    }

    /// The installed packages that pass `flags` and `filter`, in entry order.
    pub open spec fn query_spec(&self, flags: Flags, filter: Option<FilterView>) -> Seq<PackageView> {
        if wants_installed(flags) {
            self.entries_view().filter_map(|e: EntryView| self.entry_result(e, flags, filter))
        } else {
            Seq::empty()
        }
    }

    /// The installed package `id`, if the active state selects it.
    pub open spec fn package_spec(&self, id: Seq<char>) -> Option<PackageView> {
        match first_where(self.entries_view(), |e: EntryView| e.id == id) {
            Some(e) => match self.installed_spec(id) {
                Some(f) => Some(PackageView { id, meta: e.meta, flags: f }),
                None => None,
            },
            None => None,
        }
    }

    /// A plugin for the active `state` and the installed metadata `entries`.
    pub fn new(state: Option<State>, entries: Vec<Entry>) -> (r: Self)
        ensures
            r.entries_view() == entry_views(entries@),
            r.selections_spec() == match state {
                Some(s) => Some(selection_views(s.selections@)),
                None => None,
            },
    {
        Active { state, entries }
    }

    /// The status of package `id` if the active state selects it.
    fn installed_package(&self, id: &package::Id) -> (r: Option<Flags>)
        ensures
            r == self.installed_spec(id@),
    {
        match &self.state {
            Some(st) => {
                let ghost sel = selection_views(st.selections@);
                let ghost pred = |s: SelectionView| s.package == id@;
                let mut i: usize = 0;
                while i < st.selections.len()
                    invariant
                        i <= st.selections.len(),
                        sel == selection_views(st.selections@),
                        self.selections_spec() == Some(sel),
                        pred == (|s: SelectionView| s.package == id@),
                        forall|j: int| 0 <= j < i ==> !pred(#[trigger] sel[j]),
                    decreases st.selections.len() - i,
                {
                    assert(sel[i as int] == st.selections@[i as int]@);
                    if st.selections[i].package.same(id) {
                        proof {
                            assert(self.selections_spec() == Some(sel));
                            assert(is_first(sel, pred, i as int));
                            lemma_first_index(sel, pred, i as int);
                        }
                        let f = Flags { available: false, installed: true, source: false, explicit: st.selections[i].explicit };
                        return Some(f);
                    }
                    i = i + 1;
                }
                proof {
                    assert(self.selections_spec() == Some(sel));
                    lemma_first_index_none(sel, pred);
                }
                None
            },
            None => None,
        }
    }

    /// The installed package `id`, if the active state selects it.
    pub fn package(&self, id: &package::Id) -> (r: Option<Package>)
        ensures
            match r {
                Some(p) => self.package_spec(id@) == Some(p@),
                None => self.package_spec(id@) is None,
            },
    {
        let ghost s = self.entries_view();
        let ghost pred = |e: EntryView| e.id == id@;
        let mut i: usize = 0;
        while i < self.entries.len()
            invariant
                i <= self.entries.len(),
                s == self.entries_view(),
                pred == (|e: EntryView| e.id == id@),
                forall|j: int| 0 <= j < i ==> !pred(#[trigger] s[j]),
            decreases self.entries.len() - i,
        {
            if self.entries[i].id.same(id) {
                proof {
                    assert(is_first(s, pred, i as int));
                    lemma_first_index(s, pred, i as int);
                }
                return match self.installed_package(id) {
                    Some(flags) => Some(Package { id: id.duplicate(), meta: self.entries[i].meta.duplicate(), flags }),
                    None => None,
                };
            }
            i = i + 1;
        }
        proof {
            lemma_first_index_none(s, pred);
        }
        None
    }

    /// The installed packages that pass `flags` and `filter`.
    pub fn query(&self, flags: Flags, filter: Option<&Filter>) -> (r: Vec<Package>)
        ensures
            package_views(r@) == self.query_spec(flags, filter_view(filter)),
            forall|i: int|
                0 <= i < package_views(r@).len() ==> #[trigger] package_views(r@)[i].flags.installed && (
                flags.explicit ==> package_views(r@)[i].flags.explicit),
    {
        let r = self.query_entries(flags, filter);
        proof {
            self.lemma_query_flags(flags, filter_view(filter), package_views(r@));
        }
        r
    }

    /// The installed packages that pass `flags` and `filter`, in entry order.
    fn query_entries(&self, flags: Flags, filter: Option<&Filter>) -> (r: Vec<Package>)
        ensures
            package_views(r@) == self.query_spec(flags, filter_view(filter)),
    {
        let mut out: Vec<Package> = Vec::new();
        if !(flags.installed || flags == Flags::new()) {
            assert(package_views(out@) =~= Seq::<PackageView>::empty());
            return out;
        }
        let ghost f = filter_view(filter);
        let ghost s = self.entries_view();
        let ghost g = |e: EntryView| self.entry_result(e, flags, f);
        let mut i: usize = 0;
        while i < self.entries.len()
            invariant
                i <= self.entries.len(),
                s == self.entries_view(),
                f == filter_view(filter),
                g == (|e: EntryView| self.entry_result(e, flags, f)),
                package_views(out@) == s.take(i as int).filter_map(g),
            decreases self.entries.len() - i,
        {
            proof {
                s.lemma_filter_map_take_succ(g, i as int);
            }
            let e = &self.entries[i];
            assert(s[i as int] == e@);
            if passes_filter(&e.meta, filter) {
                match self.installed_package(&e.id) {
                    Some(pf) => {
                        if !flags.explicit || pf.explicit {
                            out.push(Package { id: e.id.duplicate(), meta: e.meta.duplicate(), flags: pf });
                        }
                    },
                    None => {},
                }
            }
            assert(package_views(out@) =~= s.take(i + 1).filter_map(g));
            i = i + 1;
        }
        assert(s.take(i as int) =~= s);
        out
    }

    /// Every package the active plugin answers is installed, and when the
    /// query asks for explicitly chosen packages only, every package it
    /// answers was chosen explicitly.
    pub proof fn lemma_query_flags(&self, flags: Flags, filter: Option<FilterView>, q: Seq<PackageView>)
        requires
            q == self.query_spec(flags, filter),
        ensures
            forall|i: int| 0 <= i < q.len() ==> #[trigger] q[i].flags.installed && (flags.explicit ==> q[i].flags.explicit),
    {
        if wants_installed(flags) {
            let g = |e: EntryView| self.entry_result(e, flags, filter);
            assert forall|i: int| 0 <= i < q.len() implies #[trigger] q[i].flags.installed && (flags.explicit
                ==> q[i].flags.explicit) by {
                assert(q.contains(q[i]));
                self.entries_view().lemma_filter_map_contains(g, q[i]);
                let e = choose|e: EntryView| #[trigger] self.entries_view().contains(e) && g(e) == Some(q[i]);
                let sel = self.selections_spec()->Some_0;
                let s0 = first_where(sel, |s: SelectionView| s.package == e.id)->Some_0;
                assert(self.installed_spec(e.id) == Some(selection_flags(s0)));
            }
        }
    }

    /// List the installed packages that pass `flags`.
    pub fn list(&self, flags: Flags) -> (r: Vec<Package>)
        ensures
            package_views(r@) == self.query_spec(flags, None),
    {
        self.query(flags, None)
    }

    /// The installed packages whose name or summary holds `keyword`.
    pub fn query_keyword(&self, keyword: &str, flags: Flags) -> (r: Vec<Package>)
        ensures
            package_views(r@) == self.query_spec(flags, Some(FilterView::Keyword(keyword@))),
    {
        let filter = Filter::Keyword(String::from_str(keyword));
        self.query(flags, Some(&filter))
    }

    /// The installed packages that provide `provider`.
    pub fn query_provider(&self, provider: &Provider, flags: Flags) -> (r: Vec<Package>)
        ensures
            package_views(r@) == self.query_spec(flags, Some(FilterView::Provider(provider@))),
    {
        let filter = Filter::Provider(provider.duplicate());
        self.query(flags, Some(&filter))
    }

    /// The installed packages named `package_name`.
    pub fn query_name(&self, package_name: &Name, flags: Flags) -> (r: Vec<Package>)
        ensures
            package_views(r@) == self.query_spec(flags, Some(FilterView::Name(package_name@))),
    {
        let filter = Filter::Name(package_name.duplicate());
        self.query(flags, Some(&filter))
    }

    /// The identifiers of the installed packages that provide `provider`.
    pub fn query_provider_id_only(&self, provider: &Provider, flags: Flags) -> (r: Vec<package::Id>)
        ensures
            r@.map_values(|i: package::Id| i@) == self.query_spec(
                flags,
                Some(FilterView::Provider(provider@)),
            ).map_values(|p: PackageView| p.id),
    {
        let found = self.query_provider(provider, flags);
        crate::registry::plugin::test::ids_of(&found)
    }

    /// The active state is consulted before any other source.
    pub fn priority(&self) -> (r: u64)
        ensures
            r == u64::MAX,
    {
        u64::MAX
    }
}

} // verus!
