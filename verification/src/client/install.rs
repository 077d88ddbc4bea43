//! Installation planning: which packages the user's names stand for, which
//! of the resolved packages still need installing, and the selections of
//! the new state.

use vstd::prelude::*;

use crate::dependency::{from_name_spec, Provider, Target};
use crate::package::{self, ids_view, package_views, Flags, Package, PackageView};
use crate::registry::transaction::{self, available_flags, candidates};
use crate::package::set::{dedup_named, lemma_dedup_sorted, lemma_sort_lex_by, sort_lex_by, sort_named, Named};
use crate::registry::plugin::Plugin;
use crate::registry::Registry;
use crate::select::{concat_map, dedup_by, opt_seq};
use crate::text::lex_lt;
use crate::state::{selection_views, Selection, SelectionView};

verus! {

/// Errors of planning an installation.
#[derive(Debug)]
pub enum Error {
    /// The operation was explicitly cancelled at the user's request
    Cancelled,
    /// The given package couldn't be found
    NoPackage(String),
    /// A transaction specific error occurred
    Transaction(transaction::Error),
    /// No source has metadata for this package
    MissingMetadata(package::Id),
}

/// The package that `name` stands for: the first available package that
/// provides it.
pub open spec fn chosen_for(reg: &Registry, name: Seq<char>) -> Option<Seq<char>> {
    match from_name_spec(name) {
        Ok(p) => {
            let c = candidates(reg, available_flags(), p);
            if c.len() > 0 {
                Some(c[0].id)
            } else {
                None
            }
        },
        Err(_) => None,
    }
}

/// The first available package that provides `name`.
pub fn find_package(name: &str, registry: &Registry) -> (r: Option<Package>)
    requires
        from_name_spec(name@) is Ok,
    ensures
        match r {
            Some(p) => chosen_for(registry, name@) == Some(p@.id),
            None => chosen_for(registry, name@) is None,
        },
{
    let provider = match Provider::from_name(name) {
        Ok(p) => p,
        Err(_) => {
            assert(false);
            return None;
        },
    };
    let mut found = registry.by_provider(&provider, Flags::new().with_available());
    if found.len() > 0 {
        assert(package_views(found@)[0] == found@[0]@);
        let first = found.remove(0);
        Some(first)
    } else {
        None
    }
}

/// The packages the user's `names` stand for, in order; fails with the
/// first name that no available package provides.
pub fn resolve_input(names: &Vec<String>, registry: &Registry) -> (r: Result<Vec<package::Id>, Error>)
    requires
        forall|i: int| 0 <= i < names.len() ==> from_name_spec(#[trigger] names@[i]@) is Ok,
    ensures
        match r {
            Ok(ids) => ids.len() == names.len() && forall|i: int|
                0 <= i < names.len() ==> chosen_for(registry, #[trigger] names@[i]@) == Some(ids@[i]@),
            Err(e) => exists|i: int|
                0 <= i < names.len() && chosen_for(registry, #[trigger] names@[i]@) is None && (forall|j: int|
                    0 <= j < i ==> chosen_for(registry, #[trigger] names@[j]@) is Some) && (e matches Error::NoPackage(
                    n,
                ) && n@ == names@[i]@),
        },
{
    let mut results: Vec<package::Id> = Vec::new();
    let mut i: usize = 0;
    while i < names.len()
        invariant
            i <= names.len(),
            results.len() == i,
            forall|j: int| 0 <= j < names.len() ==> from_name_spec(#[trigger] names@[j]@) is Ok,
            forall|j: int| 0 <= j < i ==> chosen_for(registry, #[trigger] names@[j]@) == Some(results@[j]@),
        decreases names.len() - i,
    {
        assert(from_name_spec(names@[i as int]@) is Ok);
        match find_package(names[i].as_str(), registry) {
            Some(p) => {
                results.push(p.id);
            },
            None => {
                return Err(Error::NoPackage(names[i].clone()));
            },
        }
        i = i + 1;
    }
    Ok(results)
}

/// Some package of `installed` has the name of `p`.
pub open spec fn is_installed(installed: Seq<PackageView>, p: PackageView) -> bool {
    exists|i: int| 0 <= i < installed.len() && #[trigger] installed[i].meta.name == p.meta.name
}

/// Whether some package of `installed` has the name of `p`.
fn installed_by_name(installed: &Vec<Package>, p: &Package) -> (r: bool)
    ensures
        r == is_installed(package_views(installed@), p@),
{
    let mut i: usize = 0;
    while i < installed.len()
        invariant
            i <= installed.len(),
            forall|j: int| 0 <= j < i ==> package_views(installed@)[j].meta.name != p@.meta.name,
        decreases installed.len() - i,
    {
        assert(package_views(installed@)[i as int] == installed@[i as int]@);
        if installed[i].meta.name.same(&p.meta.name) {
            assert(package_views(installed@)[i as int].meta.name == p@.meta.name);
            return true;
        }
        i = i + 1;
    }
    false
}

/// The resolved packages that need installing: all of them for an
/// ephemeral root, otherwise those whose name no installed package has.
pub fn missing_packages(resolved: &Vec<Package>, installed: &Vec<Package>, ephemeral: bool) -> (r: Vec<Package>)
    ensures
        package_views(r@) == package_views(resolved@).filter_map(
            |p: PackageView|
                if ephemeral || !is_installed(package_views(installed@), p) {
                    Some(p)
                } else {
                    None
                },
        ),
{
    let ghost s = package_views(resolved@);
    let ghost f = |p: PackageView|
        if ephemeral || !is_installed(package_views(installed@), p) {
            Some(p)
        } else {
            None
        };
    let mut out: Vec<Package> = Vec::new();
    let mut i: usize = 0;
    while i < resolved.len()
        invariant
            i <= resolved.len(),
            s == package_views(resolved@),
            f == (|p: PackageView|
                if ephemeral || !is_installed(package_views(installed@), p) {
                    Some(p)
                } else {
                    None
                }),
            package_views(out@) == s.take(i as int).filter_map(f),
        decreases resolved.len() - i,
    {
        proof {
            s.lemma_filter_map_take_succ(f, i as int);
        }
        assert(s[i as int] == resolved@[i as int]@);
        if ephemeral || !installed_by_name(installed, &resolved[i]) {
            out.push(resolved[i].duplicate());
        }
        assert(package_views(out@) =~= s.take(i + 1).filter_map(f));
        i = i + 1;
    }
    assert(s.take(i as int) =~= s);
    out
}

/// The resolved packages that are installed already and were asked for.
pub fn already_installed(resolved: &Vec<Package>, installed: &Vec<Package>, input: &Vec<package::Id>) -> (r: Vec<Package>)
    ensures
        package_views(r@) == package_views(resolved@).filter_map(
            |p: PackageView|
                if is_installed(package_views(installed@), p) && ids_view(input@).contains(p.id) {
                    Some(p)
                } else {
                    None
                },
        ),
{
    let ghost s = package_views(resolved@);
    let ghost f = |p: PackageView|
        if is_installed(package_views(installed@), p) && ids_view(input@).contains(p.id) {
            Some(p)
        } else {
            None
        };
    let mut out: Vec<Package> = Vec::new();
    let mut i: usize = 0;
    while i < resolved.len()
        invariant
            i <= resolved.len(),
            s == package_views(resolved@),
            f == (|p: PackageView|
                if is_installed(package_views(installed@), p) && ids_view(input@).contains(p.id) {
                    Some(p)
                } else {
                    None
                }),
            package_views(out@) == s.take(i as int).filter_map(f),
        decreases resolved.len() - i,
    {
        proof {
            s.lemma_filter_map_take_succ(f, i as int);
        }
        assert(s[i as int] == resolved@[i as int]@);
        if installed_by_name(installed, &resolved[i]) && contains_id(input, &resolved[i].id) {
            out.push(resolved[i].duplicate());
        }
        assert(package_views(out@) =~= s.take(i + 1).filter_map(f));
        i = i + 1;
    }
    assert(s.take(i as int) =~= s);
    out
}

/// Whether `id` is among `ids`.
pub fn contains_id(ids: &Vec<package::Id>, id: &package::Id) -> (r: bool)
    ensures
        r == ids_view(ids@).contains(id@),
{
    let mut i: usize = 0;
    while i < ids.len()
        invariant
            i <= ids.len(),
            forall|j: int| 0 <= j < i ==> ids_view(ids@)[j] != id@,
        decreases ids.len() - i,
    {
        if ids[i].same(id) {
            assert(ids_view(ids@)[i as int] == id@);
            return true;
        }
        i = i + 1;
    }
    false
}

/// The selection of a newly installed package: explicit when the user
/// asked for it.
pub open spec fn new_selection(p: PackageView, input: Seq<Seq<char>>) -> SelectionView {
    SelectionView { package: p.id, explicit: input.contains(p.id), reason: None }
}

/// The selections recorded for a new state: one for each newly installed
/// package, in order, naming it, explicit exactly when the user asked for
/// that package, and with no reason; then the previous selections as they
/// were.
pub proof fn lemma_new_selections(
    missing: Seq<PackageView>,
    input: Seq<Seq<char>>,
    previous: Seq<SelectionView>,
    r: Seq<SelectionView>,
)
    requires
        r == missing.map_values(|p: PackageView| new_selection(p, input)) + previous,
    ensures
        r.len() == missing.len() + previous.len(),
        forall|i: int|
            0 <= i < missing.len() ==> {
                &&& #[trigger] r[i].package == missing[i].id
                &&& r[i].explicit <==> input.contains(missing[i].id)
                &&& r[i].reason is None
            },
        forall|i: int| 0 <= i < previous.len() ==> #[trigger] r[missing.len() + i] == previous[i],
{
    assert forall|i: int| 0 <= i < missing.len() implies {
        &&& #[trigger] r[i].package == missing[i].id
        &&& r[i].explicit <==> input.contains(missing[i].id)
        &&& r[i].reason is None
    } by {
        assert(r[i] == new_selection(missing[i], input));
    }
}

/// The selections of the state after installing `missing`: the new
/// packages first, then the previous selections.
pub fn new_state_selections(missing: &Vec<Package>, input: &Vec<package::Id>, previous: Vec<Selection>) -> (r: Vec<
    Selection,
>)
    ensures
        selection_views(r@) == package_views(missing@).map_values(
            |p: PackageView| new_selection(p, ids_view(input@)),
        ) + selection_views(previous@),
        selection_views(r@).len() == package_views(missing@).len() + selection_views(previous@).len(),
        forall|i: int|
            0 <= i < package_views(missing@).len() ==> {
                &&& #[trigger] selection_views(r@)[i].package == package_views(missing@)[i].id
                &&& selection_views(r@)[i].explicit <==> ids_view(input@).contains(package_views(missing@)[i].id)
                &&& selection_views(r@)[i].reason is None
            },
        forall|i: int|
            0 <= i < selection_views(previous@).len() ==> #[trigger] selection_views(r@)[package_views(
                missing@,
            ).len() + i] == selection_views(previous@)[i],
{
    let ghost m = package_views(missing@).map_values(|p: PackageView| new_selection(p, ids_view(input@)));
    let mut out: Vec<Selection> = Vec::new();
    let mut i: usize = 0;
    while i < missing.len()
        invariant
            i <= missing.len(),
            out.len() == i,
            m == package_views(missing@).map_values(|p: PackageView| new_selection(p, ids_view(input@))),
            selection_views(out@) == m.take(i as int),
        decreases missing.len() - i,
    {
        let explicit = contains_id(input, &missing[i].id);
        out.push(Selection { package: missing[i].id.duplicate(), explicit, reason: None });
        assert(selection_views(out@) =~= m.take(i + 1));
        i = i + 1;
    }
    assert(m.take(i as int) =~= m);
    let mut previous = previous;
    let ghost prev = selection_views(previous@);
    out.append(&mut previous);
    assert(selection_views(out@) =~= m + prev);
    proof {
        lemma_new_selections(package_views(missing@), ids_view(input@), prev, selection_views(out@));
    }
    out
}

/// The metadata of package `id`: that of the first plugin, by priority,
/// that has it.
pub open spec fn first_metadata(reg: &Registry, id: Seq<char>) -> Option<PackageView> {
    let found = concat_map(reg.plugins_view(), |p: Plugin| opt_seq(p.package_spec(id)));
    if found.len() > 0 {
        Some(found[0])
    } else {
        None
    }
}

/// Package `id` has no metadata.
pub open spec fn lacks_metadata(reg: &Registry, id: Seq<char>) -> bool {
    first_metadata(reg, id) is None
}

/// Packages are ordered and told apart by name.
pub open spec fn name_key() -> spec_fn(PackageView) -> Seq<char> {
    |v: PackageView| Package::key_of(v)
}

/// The metadata of `packages`, each from the first plugin that has it,
/// ordered by name, keeping one package of each name. Fails at the first
/// package no plugin has.
pub fn get_metadata(registry: &Registry, packages: &Vec<package::Id>) -> (r: Result<Vec<Package>, Error>)
    ensures
        match r {
            Ok(v) => {
                &&& forall|i: int| 0 <= i < packages.len() ==> !lacks_metadata(registry, #[trigger] packages@[i]@)
                &&& package_views(v@) == dedup_by(
                    sort_lex_by(
                        ids_view(packages@).map_values(|id: Seq<char>| first_metadata(registry, id)->Some_0),
                        name_key(),
                    ),
                    name_key(),
                )
                &&& forall|i: int, j: int|
                    0 <= i < j < v.len() ==> lex_lt(#[trigger] v@[i]@.meta.name, #[trigger] v@[j]@.meta.name)
            },
            Err(Error::MissingMetadata(id)) => exists|i: int|
                0 <= i < packages.len() && id@ == packages@[i]@ && lacks_metadata(registry, #[trigger] packages@[i]@)
                    && forall|j: int| 0 <= j < i ==> !lacks_metadata(registry, #[trigger] packages@[j]@),
            Err(_) => false,
        },
{
    let ghost found = ids_view(packages@).map_values(|id: Seq<char>| first_metadata(registry, id)->Some_0);
    let mut out: Vec<Package> = Vec::new();
    let mut i: usize = 0;
    while i < packages.len()
        invariant
            i <= packages.len(),
            found == ids_view(packages@).map_values(|id: Seq<char>| first_metadata(registry, id)->Some_0),
            forall|j: int| 0 <= j < i ==> !lacks_metadata(registry, #[trigger] packages@[j]@),
            package_views(out@) == found.take(i as int),
        decreases packages.len() - i,
    {
        let mut candidates = registry.by_id(&packages[i]);
        if candidates.len() == 0 {
            assert(lacks_metadata(registry, packages@[i as int]@));
            return Err(Error::MissingMetadata(packages[i].duplicate()));
        }
        let first = candidates.remove(0);
        let ghost prev = package_views(out@);
        out.push(first);
        assert(package_views(out@) =~= found.take(i + 1)) by {
            assert(package_views(out@) =~= prev.push(found[i as int]));
        }
        i = i + 1;
    }
    assert(found.take(i as int) =~= found);
    let sorted = sort_named(out);
    proof {
        lemma_sort_lex_by(found, name_key());
    }
    let unique = dedup_named(sorted);
    proof {
        let d = dedup_by(sort_lex_by(found, name_key()), name_key());
        lemma_dedup_sorted(sort_lex_by(found, name_key()), name_key());
        assert forall|i: int, j: int| 0 <= i < j < unique.len() implies lex_lt(
            #[trigger] unique@[i]@.meta.name,
            #[trigger] unique@[j]@.meta.name,
        ) by {
            assert(package_views(unique@)[i] == unique@[i]@ && package_views(unique@)[j] == unique@[j]@);
            assert(unique@[i]@ == d[i] && unique@[j]@ == d[j]);
            assert(lex_lt(name_key()(d[i]), name_key()(d[j])));
            assert(name_key()(d[i]) == d[i].meta.name && name_key()(d[j]) == d[j].meta.name);
        }
    }
    Ok(unique)
}

} // verus!
