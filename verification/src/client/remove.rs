//! Removal planning: which installed packages the user's providers name,
//! and the selections of the state left after removal.

use vstd::prelude::*;

use crate::dependency::{Kind, Provider, Target};
use crate::package::set::IdSet;
use crate::package::{self, ids_view, package_views, Package, PackageView};
use crate::select::{first_where, is_first, lemma_first_index, lemma_first_index_none};
use crate::state::{selection_views, Selection, SelectionView};

verus! {

/// The installed package that provides `p`, if any: the first one.
pub open spec fn provider_match(installed: Seq<PackageView>, p: (Kind, Seq<char>)) -> Option<PackageView> {
    first_where(installed, |i: PackageView| i.meta.providers.contains(p))
}

/// The first installed package that provides `p`.
fn find_installed(installed: &Vec<Package>, p: &Provider) -> (r: Option<usize>)
    ensures
        match r {
            Some(i) => i < installed.len() && provider_match(package_views(installed@), p@) == Some(
                installed@[i as int]@,
            ),
            None => provider_match(package_views(installed@), p@) is None,
        },
{
    let ghost s = package_views(installed@);
    let ghost pred = |i: PackageView| i.meta.providers.contains(p@);
    let mut i: usize = 0;
    while i < installed.len()
        invariant
            i <= installed.len(),
            s == package_views(installed@),
            pred == (|i: PackageView| i.meta.providers.contains(p@)),
            forall|j: int| 0 <= j < i ==> !pred(#[trigger] s[j]),
        decreases installed.len() - i,
    {
        assert(s[i as int] == installed@[i as int]@);
        if installed[i].meta.providers.contains(p) {
            proof {
                assert(is_first(s, pred, i as int));
                lemma_first_index(s, pred, i as int);
            }
            return Some(i);
        }
        i = i + 1;
    }
    proof {
        lemma_first_index_none(s, pred);
    }
    None
}

/// Splits `providers` into the installed packages that provide them (the
/// first that does, for each) and those no installed package provides,
/// each in order.
pub fn partition_providers(providers: &Vec<Provider>, installed: &Vec<Package>) -> (r: (
    Vec<package::Id>,
    Vec<Provider>,
))
    ensures
        ids_view(r.0@) == providers@.map_values(|p: Provider| p@).filter_map(
            |p: (Kind, Seq<char>)|
                match provider_match(package_views(installed@), p) {
                    Some(i) => Some(i.id),
                    None => None,
                },
        ),
        r.1@.map_values(|p: Provider| p@) == providers@.map_values(|p: Provider| p@).filter_map(
            |p: (Kind, Seq<char>)|
                match provider_match(package_views(installed@), p) {
                    Some(i) => None,
                    None => Some(p),
                },
        ),
{
    let ghost s = providers@.map_values(|p: Provider| p@);
    let ghost f = |p: (Kind, Seq<char>)|
        match provider_match(package_views(installed@), p) {
            Some(i) => Some(i.id),
            None => None,
        };
    let ghost g = |p: (Kind, Seq<char>)|
        match provider_match(package_views(installed@), p) {
            Some(i) => None,
            None => Some(p),
        };
    let mut found: Vec<package::Id> = Vec::new();
    let mut missing: Vec<Provider> = Vec::new();
    let mut i: usize = 0;
    while i < providers.len()
        invariant
            i <= providers.len(),
            s == providers@.map_values(|p: Provider| p@),
            f == (|p: (Kind, Seq<char>)|
                match provider_match(package_views(installed@), p) {
                    Some(i) => Some(i.id),
                    None => None,
                }),
            g == (|p: (Kind, Seq<char>)|
                match provider_match(package_views(installed@), p) {
                    Some(i) => None,
                    None => Some(p),
                }),
            ids_view(found@) == s.take(i as int).filter_map(f),
            missing@.map_values(|p: Provider| p@) == s.take(i as int).filter_map(g),
        decreases providers.len() - i,
    {
        proof {
            s.lemma_filter_map_take_succ(f, i as int);
            s.lemma_filter_map_take_succ(g, i as int);
        }
        assert(s[i as int] == providers@[i as int]@);
        match find_installed(installed, &providers[i]) {
            Some(k) => {
                found.push(installed[k].id.duplicate());
            },
            None => {
                missing.push(providers[i].duplicate());
            },
        }
        assert(ids_view(found@) =~= s.take(i + 1).filter_map(f));
        assert(missing@.map_values(|p: Provider| p@) =~= s.take(i + 1).filter_map(g));
        i = i + 1;
    }
    assert(s.take(i as int) =~= s);
    (found, missing)
}

/// The packages of `installed` that `kept` lacks: those a removal takes
/// away.
pub fn removed_ids(installed: &IdSet, kept: &IdSet) -> (r: IdSet)
    requires
        installed.wf(),
    ensures
        r.wf(),
        forall|x: Seq<char>|
            #[trigger] r.members().contains(x) <==> installed.members().contains(x) && !kept.members().contains(x),
{
    let mut out = IdSet::new();
    let mut k: usize = 0;
    while k < installed.len()
        invariant
            k <= installed.members().len(),
            out.wf(),
            forall|x: Seq<char>|
                #[trigger] out.members().contains(x) <==> (exists|b: int|
                    0 <= b < k && installed.members()[b] == x) && !kept.members().contains(x),
        decreases installed.members().len() - k,
    {
        let x = installed.get(k);
        if !kept.contains(x) {
            let ghost before = out.members();
            out.insert(x.duplicate());
            proof {
                assert forall|y: Seq<char>|
                    #[trigger] out.members().contains(y) <==> (exists|b: int|
                        0 <= b < k + 1 && installed.members()[b] == y) && !kept.members().contains(y) by {
                    assert(out.members().to_set().contains(y) == out.members().contains(y));
                    assert(before.to_set().contains(y) == before.contains(y));
                }
            }
        }
        k = k + 1;
    }
    proof {
        assert forall|x: Seq<char>|
            #[trigger] out.members().contains(x) <==> installed.members().contains(x) && !kept.members().contains(x) by {
            if installed.members().contains(x) {
                let b = choose|b: int| 0 <= b < installed.members().len() && installed.members()[b] == x;
            }
        }
    }
    out
}

/// The selection a package keeps after a removal: its previous one, or a
/// dependency selection if it had none.
pub open spec fn kept_selection(previous: Seq<SelectionView>, id: Seq<char>) -> SelectionView {
    match first_where(previous, |s: SelectionView| s.package == id) {
        Some(s) => s,
        None => SelectionView { package: id, explicit: false, reason: None },
    }
}

/// The first selection of `id` in `previous`.
fn find_selection(previous: &Vec<Selection>, id: &package::Id) -> (r: Option<usize>)
    ensures
        match r {
            Some(k) => k < previous.len() && first_where(
                selection_views(previous@),
                |s: SelectionView| s.package == id@,
            ) == Some(previous@[k as int]@),
            None => first_where(selection_views(previous@), |s: SelectionView| s.package == id@) is None,
        },
{
    let ghost s = selection_views(previous@);
    let ghost pred = |x: SelectionView| x.package == id@;
    let mut k: usize = 0;
    while k < previous.len()
        invariant
            k <= previous.len(),
            s == selection_views(previous@),
            pred == (|x: SelectionView| x.package == id@),
            forall|j: int| 0 <= j < k ==> !pred(#[trigger] s[j]),
        decreases previous.len() - k,
    {
        assert(s[k as int] == previous@[k as int]@);
        if previous[k].package.same(id) {
            proof {
                assert(is_first(s, pred, k as int));
                lemma_first_index(s, pred, k as int);
            }
            return Some(k);
        }
        k = k + 1;
    }
    proof {
        lemma_first_index_none(s, pred);
    }
    None
}

/// The selections of the state left after a removal: one per remaining
/// package, in order.
pub fn selections_after_removal(remaining: &Vec<package::Id>, previous: &Vec<Selection>) -> (r: Vec<Selection>)
    ensures
        selection_views(r@) == ids_view(remaining@).map_values(
            |id: Seq<char>| kept_selection(selection_views(previous@), id),
        ),
{
    let ghost target = ids_view(remaining@).map_values(|id: Seq<char>| kept_selection(selection_views(previous@), id));
    let mut out: Vec<Selection> = Vec::new();
    let mut i: usize = 0;
    while i < remaining.len()
        invariant
            i <= remaining.len(),
            out.len() == i,
            target == ids_view(remaining@).map_values(|id: Seq<char>| kept_selection(selection_views(previous@), id)),
            selection_views(out@) == target.take(i as int),
        decreases remaining.len() - i,
    {
        let id = &remaining[i];
        let sel = match find_selection(previous, id) {
            Some(k) => previous[k].duplicate(),
            None => Selection { package: id.duplicate(), explicit: false, reason: None },
        };
        assert(sel@ == target[i as int]);
        out.push(sel);
        assert(selection_views(out@) =~= target.take(i + 1));
        i = i + 1;
    }
    assert(target.take(i as int) =~= target);
    out
}

} // verus!
