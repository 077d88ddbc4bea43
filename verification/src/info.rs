//! Looking up the packages to describe for a name.

use vstd::prelude::*;

use crate::db::meta::FilterView;
use crate::dependency::{from_name_spec, Provider};
use crate::package::{package_views, Flags, Package, PackageView};
use crate::registry::Registry;

verus! {

/// Why no package can be described.
#[derive(Debug)]
pub enum Error {
    /// Nothing provides the name
    NotFound(String),
}

/// Some package before position `i` of `s` has identifier `id`.
pub open spec fn seen_before(s: Seq<PackageView>, i: int, id: Seq<char>) -> bool {
    exists|k: int| 0 <= k < i && (#[trigger] s[k]).id == id
}

/// `s` with only the first package of each identifier kept, in order.
pub open spec fn unique_ids(s: Seq<PackageView>) -> Seq<PackageView>
    decreases s.len(),
{
    if s.len() == 0 {
        Seq::empty()
    } else {
        let r = unique_ids(s.drop_last());
        if seen_before(s, s.len() - 1, s.last().id) {
            r
        } else {
            r.push(s.last())
        }
    }
}

/// An identifier occurs among the kept packages exactly when it occurs in
/// `s`.
proof fn lemma_unique_ids_members(s: Seq<PackageView>, id: Seq<char>)
    ensures
        seen_before(unique_ids(s), unique_ids(s).len() as int, id) <==> seen_before(s, s.len() as int, id),
    decreases s.len(),
{
    if s.len() > 0 {
        let p = s.drop_last();
        lemma_unique_ids_members(p, id);
        let r = unique_ids(p);
        let u = unique_ids(s);
        if seen_before(s, s.len() as int, id) {
            let k = choose|k: int| 0 <= k < s.len() && (#[trigger] s[k]).id == id;
            if k < s.len() - 1 {
                assert(p[k] == s[k]);
                assert(seen_before(p, p.len() as int, id));
                let j = choose|j: int| 0 <= j < r.len() && (#[trigger] r[j]).id == id;
                assert(u[j] == r[j]);
            } else if seen_before(s, s.len() - 1, s.last().id) {
                let m = choose|m: int| 0 <= m < s.len() - 1 && (#[trigger] s[m]).id == s.last().id;
                assert(p[m] == s[m]);
                assert(seen_before(p, p.len() as int, id));
                let j = choose|j: int| 0 <= j < r.len() && (#[trigger] r[j]).id == id;
                assert(u[j] == r[j]);
            } else {
                assert(u[r.len() as int] == s.last());
            }
        }
        if seen_before(u, u.len() as int, id) {
            let j = choose|j: int| 0 <= j < u.len() && (#[trigger] u[j]).id == id;
            if j < r.len() {
                assert(u[j] == r[j]);
                assert(seen_before(r, r.len() as int, id));
                let k = choose|k: int| 0 <= k < p.len() && (#[trigger] p[k]).id == id;
                assert(s[k] == p[k]);
            } else {
                assert(s[s.len() - 1] == s.last());
            }
        }
    }
}

/// Nothing is kept only from nothing.
proof fn lemma_unique_ids_empty(s: Seq<PackageView>)
    ensures
        unique_ids(s).len() == 0 <==> s.len() == 0,
    decreases s.len(),
{
    if s.len() > 0 {
        lemma_unique_ids_empty(s.drop_last());
        if unique_ids(s).len() == 0 {
            assert(unique_ids(s.drop_last()).len() == 0);
            assert(s.drop_last().len() == 0);
            assert(!seen_before(s, s.len() - 1, s.last().id));
        }
    }
}

/// Keeps the first package of each identifier, in order.
pub fn unique_by_id(packages: &Vec<Package>) -> (r: Vec<Package>)
    ensures
        package_views(r@) == unique_ids(package_views(packages@)),
{
    let ghost s = package_views(packages@);
    let mut out: Vec<Package> = Vec::new();
    let mut i: usize = 0;
    assert(s.take(0) =~= Seq::<PackageView>::empty());
    assert(package_views(out@) =~= Seq::<PackageView>::empty());
    while i < packages.len()
        invariant
            i <= packages.len(),
            s == package_views(packages@),
            package_views(out@) == unique_ids(s.take(i as int)),
        decreases packages.len() - i,
    {
        let p = &packages[i];
        let ghost before = package_views(out@);
        let ghost pre = s.take(i as int);
        let ghost now = s.take(i + 1);
        proof {
            assert(now.drop_last() =~= pre);
            assert(now.last() == p@);
            assert(s[i as int] == p@);
            lemma_unique_ids_members(pre, p@.id);
        }
        let mut found = false;
        let mut j: usize = 0;
        while j < out.len()
            invariant
                j <= out.len(),
                package_views(out@) == before,
                found <==> seen_before(before, j as int, p@.id),
            decreases out.len() - j,
        {
            assert(before[j as int] == out@[j as int]@);
            if out[j].id.same(&p.id) {
                found = true;
            }
            proof {
                if found {
                    if !seen_before(before, j as int, p@.id) {
                        assert(before[j as int].id == p@.id);
                    }
                }
                if seen_before(before, j + 1, p@.id) && !seen_before(before, j as int, p@.id) {
                    let k = choose|k: int| 0 <= k < j + 1 && (#[trigger] before[k]).id == p@.id;
                    assert(k == j);
                }
            }
            j = j + 1;
        }
        proof {
            assert(seen_before(now, now.len() - 1, now.last().id) <==> seen_before(pre, pre.len() as int, p@.id)) by {
                if seen_before(now, now.len() - 1, now.last().id) {
                    let k = choose|k: int| 0 <= k < now.len() - 1 && (#[trigger] now[k]).id == now.last().id;
                    assert(pre[k] == now[k]);
                }
                if seen_before(pre, pre.len() as int, p@.id) {
                    let k = choose|k: int| 0 <= k < pre.len() && (#[trigger] pre[k]).id == p@.id;
                    assert(now[k] == pre[k]);
                }
            }
        }
        if !found {
            out.push(p.duplicate());
            assert(package_views(out@) =~= before.push(p@));
        }
        i = i + 1;
    }
    assert(s.take(i as int) =~= s);
    out
}

/// The packages that provide `p`, with whatever flags, first of each
/// identifier.
pub open spec fn info_spec(registry: &Registry, p: (crate::dependency::Kind, Seq<char>)) -> Seq<PackageView> {
    unique_ids(
        registry.query_spec(
            Flags { available: false, installed: false, source: false, explicit: false },
            Some(FilterView::Provider(p)),
        ),
    )
}

/// The packages to describe for `name`, read as a provider: those that
/// provide it, first of each identifier; fails when there is none.
pub fn info_candidates(registry: &Registry, name: &str) -> (r: Result<Vec<Package>, Error>)
    requires
        from_name_spec(name@) is Ok,
    ensures
        match r {
            Ok(v) => package_views(v@) == info_spec(registry, from_name_spec(name@)->Ok_0) && v.len() > 0,
            Err(Error::NotFound(n)) => n@ == name@ && info_spec(registry, from_name_spec(name@)->Ok_0).len() == 0,
        },
{
    let lookup = match Provider::from_name(name) {
        Ok(p) => p,
        Err(_) => {
            assert(false);
            return Err(Error::NotFound(String::from_str(name)));
        },
    };
    let found = registry.by_provider(&lookup, Flags::new());
    let resolved = unique_by_id(&found);
    proof {
        lemma_unique_ids_empty(package_views(found@));
    }
    if resolved.len() == 0 {
        return Err(Error::NotFound(String::from_str(name)));
    }
    Ok(resolved)
}

} // verus!
