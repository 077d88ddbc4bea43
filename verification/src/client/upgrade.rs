//! Upgrade planning: for each installed package, the first available
//! package of its name, and those of them not installed yet.

use vstd::prelude::*;

use crate::client::install::{self, first_metadata, get_metadata, lacks_metadata, name_key};
use crate::db::meta::FilterView;
use crate::package::set::sort_lex_by;
use crate::package::{self, ids_view, package_views, Flags, Name, Package, PackageView};
use crate::registry::transaction::{available_flags, installed_flags};
use crate::registry::Registry;
use crate::select::{dedup_by, is_first};

verus! {

/// Why an upgrade cannot be planned.
#[derive(Debug)]
pub enum Error {
    /// Nothing is installed
    NoInstall,
    /// No package of an installed package's name is available
    NameNotFound(Name),
    /// The metadata of an upgrade could not be found
    Metadata(install::Error),
}

/// The installed packages.
pub open spec fn installed_spec(reg: &Registry) -> Seq<PackageView> {
    reg.query_spec(installed_flags(), None)
}

/// The available packages named `name`, best first.
pub open spec fn available_named(reg: &Registry, name: Seq<char>) -> Seq<PackageView> {
    reg.query_spec(available_flags(), Some(FilterView::Name(name)))
}

/// No package of the name of `p` is available.
pub open spec fn unavailable(reg: &Registry, p: PackageView) -> bool {
    available_named(reg, p.meta.name).len() == 0
}

/// The identifier of the best available package of `p`'s name, if it is
/// not installed.
pub open spec fn upgrade_of(reg: &Registry) -> spec_fn(PackageView) -> Option<Seq<char>> {
    |p: PackageView|
        {
            let id = available_named(reg, p.meta.name)[0].id;
            if installed_spec(reg).map_values(|q: PackageView| q.id).contains(id) {
                None
            } else {
                Some(id)
            }
        }
}

/// Whether `id` is the identifier of one of `packages`.
fn has_id(packages: &Vec<Package>, id: &package::Id) -> (r: bool)
    ensures
        r == package_views(packages@).map_values(|q: PackageView| q.id).contains(id@),
{
    let ghost ids = package_views(packages@).map_values(|q: PackageView| q.id);
    let mut i: usize = 0;
    while i < packages.len()
        invariant
            i <= packages.len(),
            ids == package_views(packages@).map_values(|q: PackageView| q.id),
            forall|j: int| 0 <= j < i ==> ids[j] != id@,
        decreases packages.len() - i,
    {
        assert(ids[i as int] == packages@[i as int].id@);
        if packages[i].id.same(id) {
            return true;
        }
        i = i + 1;
    }
    false
}

/// The packages an upgrade would install: for every installed package, the
/// first available package of its name that is not installed, with its
/// metadata, ordered by name and one per name. Fails when nothing is
/// installed, at the first installed package whose name no available
/// package has, or when an upgrade's metadata cannot be found.
pub fn upgrade_candidates(registry: &Registry) -> (r: Result<Vec<Package>, Error>)
    ensures
        match r {
            Ok(v) => {
                &&& installed_spec(registry).len() > 0
                &&& forall|i: int|
                    0 <= i < installed_spec(registry).len() ==> !unavailable(
                        registry,
                        #[trigger] installed_spec(registry)[i],
                    )
                &&& {
                    let ups = installed_spec(registry).filter_map(upgrade_of(registry));
                    &&& forall|i: int| 0 <= i < ups.len() ==> !lacks_metadata(registry, #[trigger] ups[i])
                    &&& package_views(v@) == dedup_by(
                        sort_lex_by(
                            ups.map_values(|id: Seq<char>| first_metadata(registry, id)->Some_0),
                            name_key(),
                        ),
                        name_key(),
                    )
                }
            },
            Err(Error::NoInstall) => installed_spec(registry).len() == 0,
            Err(Error::NameNotFound(n)) => exists|i: int|
                is_first(installed_spec(registry), |p: PackageView| unavailable(registry, p), i) && n@
                    == installed_spec(registry)[i].meta.name,
            Err(Error::Metadata(install::Error::MissingMetadata(id))) => {
                let ups = installed_spec(registry).filter_map(upgrade_of(registry));
                &&& forall|i: int|
                    0 <= i < installed_spec(registry).len() ==> !unavailable(
                        registry,
                        #[trigger] installed_spec(registry)[i],
                    )
                &&& exists|i: int|
                    is_first(ups, |u: Seq<char>| lacks_metadata(registry, u), i) && id@ == ups[i]
            },
            Err(Error::Metadata(_)) => false,
        },
{
    let installed = registry.list_installed(Flags::new());
    let ghost iv = package_views(installed@);
    assert(iv == installed_spec(registry)) by {
        assert(Flags { installed: true, ..Flags { available: false, installed: false, source: false, explicit: false } }
            == installed_flags());
    }
    if installed.len() == 0 {
        return Err(Error::NoInstall);
    }
    let ghost f = upgrade_of(registry);
    let mut upgrades: Vec<package::Id> = Vec::new();
    let mut i: usize = 0;
    while i < installed.len()
        invariant
            i <= installed.len(),
            iv == package_views(installed@),
            iv == installed_spec(registry),
            f == upgrade_of(registry),
            forall|j: int| 0 <= j < i ==> !unavailable(registry, #[trigger] iv[j]),
            ids_view(upgrades@) == iv.take(i as int).filter_map(f),
        decreases installed.len() - i,
    {
        proof {
            iv.lemma_filter_map_take_succ(f, i as int);
        }
        let p = &installed[i];
        assert(iv[i as int] == p@);
        let found = registry.by_name(&p.meta.name, Flags::new().with_available());
        assert(package_views(found@) == available_named(registry, p@.meta.name));
        if found.len() == 0 {
            assert(is_first(iv, |q: PackageView| unavailable(registry, q), i as int));
            return Err(Error::NameNotFound(p.meta.name.duplicate()));
        }
        let ghost prev = ids_view(upgrades@);
        assert(package_views(found@)[0] == found@[0]@);
        if !has_id(&installed, &found[0].id) {
            upgrades.push(found[0].id.duplicate());
            assert(ids_view(upgrades@) =~= prev.push(found@[0]@.id));
        }
        assert(ids_view(upgrades@) =~= iv.take(i + 1).filter_map(f));
        i = i + 1;
    }
    assert(iv.take(i as int) =~= iv);
    match get_metadata(registry, &upgrades) {
        Ok(v) => Ok(v),
        Err(install::Error::MissingMetadata(id)) => {
            proof {
                let ups = ids_view(upgrades@);
                let k = choose|k: int|
                    0 <= k < upgrades.len() && id@ == upgrades@[k]@ && lacks_metadata(registry, #[trigger] upgrades@[k]@)
                        && forall|j: int| 0 <= j < k ==> !lacks_metadata(registry, #[trigger] upgrades@[j]@);
                assert(ups[k] == upgrades@[k]@);
                assert forall|j: int| 0 <= j < k implies !(|u: Seq<char>| lacks_metadata(registry, u))(#[trigger] ups[j]) by {
                    assert(ups[j] == upgrades@[j]@);
                }
                assert(is_first(ups, |u: Seq<char>| lacks_metadata(registry, u), k));
            }
            Err(Error::Metadata(install::Error::MissingMetadata(id)))
        },
        Err(e) => Err(Error::Metadata(e)),
    }
}

} // verus!
