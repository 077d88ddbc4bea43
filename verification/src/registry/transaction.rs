//! Transactions: the packages an operation will leave selected, closed
//! under their dependencies, in dependency order.

use vstd::prelude::*;

use crate::db::meta::FilterView;
use crate::dependency::{rendered, Dependency, Kind, Provider, Target};
use crate::package::{self, ids_view, package_views, Flags, PackageView};
use crate::registry::graph::{lemma_reaches_mono, reaches, Dag};
use crate::registry::{lemma_query_in_universe, Plugin, Registry};
use crate::select::{concat_map, first_where, is_first, lemma_first_index, lemma_first_index_none, opt_seq};

verus! {

/// Identifier of a committed transaction.
#[derive(Debug, Clone, PartialEq, Eq, Hash)]
pub struct Id(pub u64);

/// Where dependencies may be found.
#[derive(Debug, Clone, Copy, PartialEq, Eq, Structural)]
pub enum Lookup {
    /// Among installed packages only
    InstalledOnly,
    /// Among the packages already chosen, then installed ones, then
    /// available ones
    Global,
}

/// A provider lookup restricted to some packages.
enum ProviderFilter {
    /// Must be installed
    InstalledOnly(Provider),
    /// Filter the lookup to current selection scope
    Selections(Provider),
    /// Look beyond installed/selections
    All(Provider),
}

/// Errors of building a transaction.
#[derive(Debug)]
pub enum Error {
    /// No package has this identifier, or provides this dependency
    NoCandidate(String),
    NotImplemented,
}

/// No flag set.
pub open spec fn no_flags() -> Flags {
    Flags { available: false, installed: false, source: false, explicit: false }
}

/// Installed packages only.
pub open spec fn installed_flags() -> Flags {
    Flags { available: false, installed: true, source: false, explicit: false }
}

/// Available packages only.
pub open spec fn available_flags() -> Flags {
    Flags { available: true, installed: false, source: false, explicit: false }
}

/// The packages of `reg` with `flags` that provide `d`, in registry order.
pub open spec fn candidates(reg: &Registry, flags: Flags, d: (Kind, Seq<char>)) -> Seq<PackageView> {
    reg.query_spec(flags, Some(FilterView::Provider(d)))
}

/// Package `y` is among the packages of `reg` with `flags` that provide `d`.
pub open spec fn offers(reg: &Registry, flags: Flags, d: (Kind, Seq<char>), y: Seq<char>) -> bool {
    exists|k: int| 0 <= k < candidates(reg, flags, d).len() && (#[trigger] candidates(reg, flags, d)[k]).id == y
}

/// Package `y` may satisfy dependency `d` under `lookup`.
pub open spec fn provider_for(reg: &Registry, lookup: Lookup, d: (Kind, Seq<char>), y: Seq<char>) -> bool {
    match lookup {
        Lookup::InstalledOnly => offers(reg, installed_flags(), d, y),
        Lookup::Global => offers(reg, no_flags(), d, y) || offers(reg, installed_flags(), d, y) || offers(
            reg,
            available_flags(),
            d,
            y,
        ),
    }
}

/// No package that `lookup` may use provides `d`.
pub open spec fn unprovided(reg: &Registry, lookup: Lookup, d: (Kind, Seq<char>)) -> bool {
    match lookup {
        Lookup::InstalledOnly => candidates(reg, installed_flags(), d).len() == 0,
        Lookup::Global => candidates(reg, installed_flags(), d).len() == 0 && candidates(
            reg,
            available_flags(),
            d,
        ).len() == 0,
    }
}

/// The package `id` as the registry yields it first.
pub open spec fn package_of(reg: &Registry, id: Seq<char>) -> Option<PackageView> {
    let s = concat_map(reg.plugins_view(), |p: Plugin| opt_seq(p.package_spec(id)));
    if s.len() > 0 {
        Some(s[0])
    } else {
        None
    }
}

/// Dependency `d` of `x` is met in `g`: some node that may satisfy it is
/// joined to `x` by an edge, or depends on `x` already (an edge would close
/// a cycle).
pub open spec fn dependency_met(reg: &Registry, g: Dag, lookup: Lookup, x: Seq<char>, d: (Kind, Seq<char>)) -> bool {
    exists|y: Seq<char>|
        #[trigger] g.has_node(y) && provider_for(reg, lookup, d, y) && (g.has_edge(x, y) || reaches(
            g.edges_view(),
            y,
            x,
        ))
}

/// The registry has package `x`, and every dependency of it is met in `g`.
pub open spec fn resolved(reg: &Registry, g: Dag, lookup: Lookup, x: Seq<char>) -> bool {
    match package_of(reg, x) {
        Some(p) => forall|k: int|
            0 <= k < p.meta.dependencies.len() ==> dependency_met(reg, g, lookup, x, #[trigger] p.meta.dependencies[k]),
        None => false,
    }
}

/// `h` holds every node and edge of `g`.
pub open spec fn grows(g: Dag, h: Dag) -> bool {
    &&& forall|x: Seq<char>| g.has_node(x) ==> #[trigger] h.has_node(x)
    &&& forall|k: int| 0 <= k < g.edges_view().len() ==> h.edges_view().contains(#[trigger] g.edges_view()[k])
}

/// Node `x` can be reached in `g` from one of `roots`, or is one of them.
pub open spec fn linked(g: Dag, roots: Seq<Seq<char>>, x: Seq<char>) -> bool {
    exists|i: int| 0 <= i < roots.len() && #[trigger] reaches(g.edges_view(), roots[i], x)
}

/// The nodes and the edges of a package graph: what building a transaction
/// reads and changes.
pub type Model = (Set<Seq<char>>, Seq<(Seq<char>, Seq<char>)>);

/// The nodes and the edges of `g`.
pub open spec fn model(g: Dag) -> Model {
    (g.nodes_view().to_set(), g.edges_view())
}

/// `m` with node `x`.
pub open spec fn with_node(m: Model, x: Seq<char>) -> Model {
    (m.0.insert(x), m.1)
}

/// `m` with an edge from `a` to `b`, unless it has one or the edge would
/// close a cycle.
pub open spec fn with_edge(m: Model, a: Seq<char>, b: Seq<char>) -> Model {
    if m.1.contains((a, b)) || reaches(m.1, b, a) {
        m
    } else {
        (m.0, m.1.push((a, b)))
    }
}

/// The package that `lookup` picks to satisfy `d` when `nodes` are already
/// chosen. Among installed packages only: the first installed provider.
/// Otherwise: the first provider already chosen, else the first installed
/// one, else the first available one (each first in registry order).
pub open spec fn choice(reg: &Registry, nodes: Set<Seq<char>>, lookup: Lookup, d: (Kind, Seq<char>)) -> Option<
    Seq<char>,
> {
    let installed = candidates(reg, installed_flags(), d);
    let available = candidates(reg, available_flags(), d);
    match lookup {
        Lookup::InstalledOnly => if installed.len() > 0 {
            Some(installed[0].id)
        } else {
            None
        },
        Lookup::Global => match first_where(candidates(reg, no_flags(), d), |v: PackageView| nodes.contains(v.id)) {
            Some(v) => Some(v.id),
            None => if installed.len() > 0 {
                Some(installed[0].id)
            } else if available.len() > 0 {
                Some(available[0].id)
            } else {
                None
            },
        },
    }
}

/// Resolving the dependencies `deps` of `x` in turn, from graph `m` with the
/// nodes `next` still to visit: each dependency's choice becomes a node (to
/// visit when it is new) with an edge from `x`. The result is the graph and
/// the nodes to visit, or the text of the first dependency that nothing
/// provides.
pub open spec fn resolve_deps(
    reg: &Registry,
    lookup: Lookup,
    x: Seq<char>,
    deps: Seq<(Kind, Seq<char>)>,
    m: Model,
    next: Seq<Seq<char>>,
) -> Result<(Model, Seq<Seq<char>>), Seq<char>>
    decreases deps.len(),
{
    if deps.len() == 0 {
        Ok((m, next))
    } else {
        match resolve_deps(reg, lookup, x, deps.drop_last(), m, next) {
            Err(e) => Err(e),
            Ok((m1, n1)) => {
                let d = deps.last();
                match choice(reg, m1.0, lookup, d) {
                    None => Err(rendered(d)),
                    Some(y) => Ok(
                        (
                            with_edge(with_node(m1, y), x, y),
                            if m1.0.contains(y) {
                                n1
                            } else {
                                n1.push(y)
                            },
                        ),
                    ),
                }
            },
        }
    }
}

/// Visiting `x`: it becomes a node and its dependencies are resolved; fails
/// with `x` itself when the registry has no package `x`.
pub open spec fn visit(reg: &Registry, lookup: Lookup, x: Seq<char>, m: Model, next: Seq<Seq<char>>) -> Result<
    (Model, Seq<Seq<char>>),
    Seq<char>,
> {
    match package_of(reg, x) {
        None => Err(x),
        Some(p) => resolve_deps(reg, lookup, x, p.meta.dependencies, with_node(m, x), next),
    }
}

/// Visiting `items` in turn from graph `m`: the graph and the new nodes to
/// visit next, or the first failure.
pub open spec fn visit_all(reg: &Registry, lookup: Lookup, items: Seq<Seq<char>>, m: Model) -> Result<
    (Model, Seq<Seq<char>>),
    Seq<char>,
>
    decreases items.len(),
{
    if items.len() == 0 {
        Ok((m, Seq::empty()))
    } else {
        match visit_all(reg, lookup, items.drop_last(), m) {
            Err(e) => Err(e),
            Ok((m1, n1)) => visit(reg, lookup, items.last(), m1, n1),
        }
    }
}

/// Visiting `items`, then the nodes they add, round after round, for at
/// most `rounds` rounds.
pub open spec fn visit_rounds(reg: &Registry, lookup: Lookup, items: Seq<Seq<char>>, m: Model, rounds: nat) -> Result<
    Model,
    Seq<char>,
>
    decreases rounds,
{
    if items.len() == 0 || rounds == 0 {
        Ok(m)
    } else {
        match visit_all(reg, lookup, items, m) {
            Err(e) => Err(e),
            Ok((m1, next)) => visit_rounds(reg, lookup, next, m1, (rounds - 1) as nat),
        }
    }
}

/// The graph that building a transaction gives, from the graph `m` of
/// `size` nodes with the packages `incoming`, or the text of the first
/// identifier without a package or dependency without a provider. Every
/// round but the last adds a node, and nodes come from the graph,
/// `incoming` and the registry, so the rounds allowed are always enough.
pub open spec fn building_from(reg: &Registry, m: Model, size: nat, incoming: Seq<Seq<char>>, lookup: Lookup) -> Result<
    Model,
    Seq<char>,
> {
    visit_rounds(reg, lookup, incoming, m, (size + incoming.len() + reg.universe().len() + 1) as nat)
}

/// The outcome of building a transaction from `g` with `incoming`.
pub open spec fn building(reg: &Registry, g: Dag, incoming: Seq<Seq<char>>, lookup: Lookup) -> Result<
    Model,
    Seq<char>,
> {
    building_from(reg, model(g), g.nodes_view().len(), incoming, lookup)
}

/// A graph without nodes or edges.
pub open spec fn empty_model() -> Model {
    (Set::empty(), Seq::empty())
}

/// A failed dependency fails the whole list.
proof fn lemma_deps_err(
    reg: &Registry,
    lookup: Lookup,
    x: Seq<char>,
    deps: Seq<(Kind, Seq<char>)>,
    m: Model,
    next: Seq<Seq<char>>,
    k: int,
)
    requires
        0 <= k <= deps.len(),
        resolve_deps(reg, lookup, x, deps.take(k), m, next) is Err,
    ensures
        resolve_deps(reg, lookup, x, deps, m, next) == resolve_deps(reg, lookup, x, deps.take(k), m, next),
    decreases deps.len(),
{
    if k == deps.len() {
        assert(deps.take(k) =~= deps);
    } else {
        assert(deps.drop_last().take(k) =~= deps.take(k));
        lemma_deps_err(reg, lookup, x, deps.drop_last(), m, next, k);
    }
}

/// A failed visit fails the whole round.
proof fn lemma_visit_all_err(reg: &Registry, lookup: Lookup, items: Seq<Seq<char>>, m: Model, j: int)
    requires
        0 <= j <= items.len(),
        visit_all(reg, lookup, items.take(j), m) is Err,
    ensures
        visit_all(reg, lookup, items, m) == visit_all(reg, lookup, items.take(j), m),
    decreases items.len(),
{
    if j == items.len() {
        assert(items.take(j) =~= items);
    } else {
        assert(items.drop_last().take(j) =~= items.take(j));
        lemma_visit_all_err(reg, lookup, items.drop_last(), m, j);
    }
}

/// When visiting item `j` of a round fails, building fails with it.
proof fn lemma_round_fails(
    reg: &Registry,
    lookup: Lookup,
    items: Seq<Seq<char>>,
    m: Model,
    j: int,
    before: (Model, Seq<Seq<char>>),
    e: Seq<char>,
    rounds: nat,
)
    requires
        0 <= j < items.len(),
        rounds >= 1,
        visit_all(reg, lookup, items.take(j), m) == Ok::<(Model, Seq<Seq<char>>), Seq<char>>(before),
        visit(reg, lookup, items[j], before.0, before.1) == Err::<(Model, Seq<Seq<char>>), Seq<char>>(e),
    ensures
        visit_rounds(reg, lookup, items, m, rounds) == Err::<Model, Seq<char>>(e),
{
    assert(items.take(j + 1).drop_last() =~= items.take(j));
    assert(items.take(j + 1).last() == items[j]);
    lemma_visit_all_err(reg, lookup, items, m, j + 1);
}

/// Adding a node adds it to the model.
proof fn lemma_model_node(before: Dag, after: Dag, x: Seq<char>)
    requires
        after.nodes_view() == if before.has_node(x) {
            before.nodes_view()
        } else {
            before.nodes_view().push(x)
        },
        after.edges_view() == before.edges_view(),
    ensures
        model(after) == with_node(model(before), x),
{
    assert forall|y: Seq<char>| #[trigger] after.nodes_view().contains(y) <==> (before.nodes_view().contains(y) || y == x) by {
        if !before.has_node(x) {
            let s = before.nodes_view();
            if after.nodes_view().contains(y) {
                let i = choose|i: int| 0 <= i < s.push(x).len() && s.push(x)[i] == y;
                if i < s.len() {
                    assert(s[i] == y);
                }
            }
            if s.contains(y) {
                let i = choose|i: int| 0 <= i < s.len() && s[i] == y;
                assert(s.push(x)[i] == y);
            }
            if y == x {
                assert(s.push(x)[s.len() as int] == x);
            }
        }
    }
    assert(after.nodes_view().to_set() =~= before.nodes_view().to_set().insert(x));
}

/// Adding an edge adds it to the model, as `with_edge` says.
proof fn lemma_model_edge(before: Dag, after: Dag, a: Seq<char>, b: Seq<char>, added: bool)
    requires
        forall|x: Seq<char>| #[trigger] after.has_node(x) <==> before.has_node(x),
        added == !(before.has_edge(a, b) || reaches(before.edges_view(), b, a)),
        added ==> after.edges_view() == before.edges_view().push((a, b)),
        !added ==> after.edges_view() == before.edges_view(),
    ensures
        model(after) == with_edge(model(before), a, b),
{
    assert forall|y: Seq<char>| #[trigger] after.nodes_view().to_set().contains(y) <==> before.nodes_view().to_set().contains(y) by {
        assert(after.has_node(y) <==> before.has_node(y));
    }
    assert(after.nodes_view().to_set() =~= before.nodes_view().to_set());
}

/// A met dependency stays met as the graph grows.
proof fn lemma_met_grows(reg: &Registry, g: Dag, h: Dag, lookup: Lookup, x: Seq<char>, d: (Kind, Seq<char>))
    requires
        dependency_met(reg, g, lookup, x, d),
        grows(g, h),
    ensures
        dependency_met(reg, h, lookup, x, d),
{
    let y = choose|y: Seq<char>|
        #[trigger] g.has_node(y) && provider_for(reg, lookup, d, y) && (g.has_edge(x, y) || reaches(
            g.edges_view(),
            y,
            x,
        ));
    assert(h.has_node(y));
    if g.has_edge(x, y) {
        let k = choose|k: int| 0 <= k < g.edges_view().len() && g.edges_view()[k] == (x, y);
        assert(h.edges_view().contains(g.edges_view()[k]));
    } else {
        lemma_reaches_mono(g.edges_view(), h.edges_view(), y, x);
    }
}

/// A resolved package stays resolved as the graph grows.
proof fn lemma_resolved_grows(reg: &Registry, g: Dag, h: Dag, lookup: Lookup, x: Seq<char>)
    requires
        resolved(reg, g, lookup, x),
        grows(g, h),
    ensures
        resolved(reg, h, lookup, x),
{
    let p = package_of(reg, x)->0;
    assert forall|k: int| 0 <= k < p.meta.dependencies.len() implies dependency_met(
        reg,
        h,
        lookup,
        x,
        #[trigger] p.meta.dependencies[k],
    ) by {
        lemma_met_grows(reg, g, h, lookup, x, p.meta.dependencies[k]);
    }
}

/// A node reached from the roots stays reached as the graph grows.
proof fn lemma_linked_grows(g: Dag, h: Dag, roots: Seq<Seq<char>>, x: Seq<char>)
    requires
        linked(g, roots, x),
        grows(g, h),
    ensures
        linked(h, roots, x),
{
    let i = choose|i: int| 0 <= i < roots.len() && #[trigger] reaches(g.edges_view(), roots[i], x);
    lemma_reaches_mono(g.edges_view(), h.edges_view(), roots[i], x);
}

/// Every root is linked.
proof fn lemma_root_linked(g: Dag, roots: Seq<Seq<char>>, i: int)
    requires
        0 <= i < roots.len(),
    ensures
        linked(g, roots, roots[i]),
{
    crate::registry::graph::lemma_reaches_self(g.edges_view(), roots[i]);
}

/// In a well-formed graph, a walk from a node that is not in it goes nowhere.
proof fn lemma_no_walk_from_outside(g: Dag, x: Seq<char>, y: Seq<char>)
    requires
        g.wf(),
        !g.has_node(x),
        x != y,
    ensures
        !reaches(g.edges_view(), x, y),
{
    if reaches(g.edges_view(), x, y) {
        crate::registry::graph::lemma_reaches_first_edge(g.edges_view(), x, y);
        let z = choose|z: Seq<char>| #[trigger] g.edges_view().contains((x, z)) && reaches(g.edges_view(), z, y);
        let k = choose|k: int| 0 <= k < g.edges_view().len() && g.edges_view()[k] == (x, z);
        assert(crate::registry::graph::before(g.nodes_view(), g.edges_view()[k].0, g.edges_view()[k].1));
        let (i, j) = choose|i: int, j: int|
            0 <= i < j < g.nodes_view().len() && #[trigger] g.nodes_view()[i] == x && #[trigger] g.nodes_view()[j] == z;
        assert(g.has_node(g.nodes_view()[i]));
    }
}

/// An edge from a node of a well-formed graph to a node that was not in it
/// before the node was added is neither there nor closes a cycle.
proof fn lemma_edge_from_outside(g: Dag, x: Seq<char>, y: Seq<char>)
    requires
        g.wf(),
        g.has_node(x),
        !g.has_node(y),
    ensures
        !g.has_edge(x, y),
        !reaches(g.edges_view(), y, x),
{
    if g.has_edge(x, y) {
        let k = choose|k: int| 0 <= k < g.edges_view().len() && g.edges_view()[k] == (x, y);
        assert(crate::registry::graph::before(g.nodes_view(), g.edges_view()[k].0, g.edges_view()[k].1));
        let (i, j) = choose|i: int, j: int|
            0 <= i < j < g.nodes_view().len() && #[trigger] g.nodes_view()[i] == x && #[trigger] g.nodes_view()[j] == y;
        assert(g.has_node(g.nodes_view()[j]));
    }
    lemma_no_walk_from_outside(g, y, x);
}

/// Growth is transitive.
proof fn lemma_grows_trans(g: Dag, h: Dag, i: Dag)
    requires
        grows(g, h),
        grows(h, i),
    ensures
        grows(g, i),
{
    assert forall|k: int| 0 <= k < g.edges_view().len() implies i.edges_view().contains(#[trigger] g.edges_view()[k]) by {
        let m = choose|m: int| 0 <= m < h.edges_view().len() && h.edges_view()[m] == g.edges_view()[k];
        assert(i.edges_view().contains(h.edges_view()[m]));
    }
}

/// A graph grows from itself.
proof fn lemma_grows_refl(g: Dag)
    ensures
        grows(g, g),
{
    assert forall|k: int| 0 <= k < g.edges_view().len() implies g.edges_view().contains(#[trigger] g.edges_view()[k]) by {
    }
}

/// A package that a query offers is held by some plugin of the registry.
proof fn lemma_offers_universe(reg: &Registry, flags: Flags, d: (Kind, Seq<char>), y: Seq<char>)
    requires
        offers(reg, flags, d, y),
    ensures
        reg.universe().contains(y),
{
    let k = choose|k: int| 0 <= k < candidates(reg, flags, d).len() && (#[trigger] candidates(reg, flags, d)[k]).id == y;
    let x = candidates(reg, flags, d)[k];
    lemma_query_in_universe(reg, flags, Some(FilterView::Provider(d)), x);
}

/// Distinct identifiers drawn from `bound` are no more than its length.
proof fn lemma_distinct_within(a: Seq<Seq<char>>, bound: Seq<Seq<char>>)
    requires
        crate::registry::graph::distinct(a),
        forall|x: Seq<char>| a.contains(x) ==> #[trigger] bound.contains(x),
    ensures
        a.len() <= bound.len(),
{
    assert(a.no_duplicates());
    a.unique_seq_to_set();
    bound.lemma_cardinality_of_set();
    vstd::seq_lib::seq_to_set_is_finite(bound);
    assert(a.to_set().subset_of(bound.to_set()));
    vstd::set_lib::lemma_len_subset(a.to_set(), bound.to_set());
}

/// A distinct sequence holding every member of another distinct sequence
/// is at least as long.
proof fn lemma_distinct_mono(a: Seq<Seq<char>>, b: Seq<Seq<char>>)
    requires
        crate::registry::graph::distinct(a),
        forall|y: Seq<char>| a.contains(y) ==> #[trigger] b.contains(y),
    ensures
        a.len() <= b.len(),
{
    lemma_distinct_within(a, b);
}

/// A distinct sequence holding every member of another distinct sequence
/// and one more is longer.
proof fn lemma_distinct_grow(a: Seq<Seq<char>>, b: Seq<Seq<char>>, x: Seq<char>)
    requires
        crate::registry::graph::distinct(a),
        crate::registry::graph::distinct(b),
        forall|y: Seq<char>| a.contains(y) ==> #[trigger] b.contains(y),
        b.contains(x),
        !a.contains(x),
    ensures
        a.len() < b.len(),
{
    assert(a.no_duplicates());
    assert(b.no_duplicates());
    a.unique_seq_to_set();
    b.unique_seq_to_set();
    vstd::seq_lib::seq_to_set_is_finite(b);
    assert(a.to_set().insert(x).subset_of(b.to_set()));
    vstd::set_lib::lemma_len_subset(a.to_set().insert(x), b.to_set());
}

/// A set of packages being prepared for installation, bound to the registry
/// its packages come from.
#[derive(Debug)]
pub struct Transaction<'a> {
    // Unique identifier - baked only for commited transactions
    id: Option<Id>,
    // Bound to a registry
    registry: &'a Registry,
    // unique set of package ids
    packages: Dag,
}

/// A new, empty transaction for `registry`.
pub fn new<'a>(registry: &'a Registry) -> (r: Result<Transaction<'a>, Error>)
    ensures
        r matches Ok(t) && t.registry_view() == registry && t.graph().wf() && t.graph().nodes_view().len() == 0
            && t.graph().edges_view().len() == 0,
{
    Ok(Transaction { id: None, registry, packages: Dag::new() })
}

/// A new transaction for `registry` holding `incoming`, installed
/// packages, with their dependencies among installed packages.
pub fn new_with_installed<'a>(registry: &'a Registry, incoming: Vec<package::Id>) -> (r: Result<
    Transaction<'a>,
    Error,
>)
    ensures
        match r {
            Ok(t) => {
                &&& t.registry_view() == registry
                &&& t.graph().wf()
                &&& forall|i: int|
                    0 <= i < incoming.len() ==> t.graph().has_node(#[trigger] incoming@[i]@) && resolved(
                        registry,
                        t.graph(),
                        Lookup::InstalledOnly,
                        incoming@[i]@,
                    )
                &&& forall|x: Seq<char>| #[trigger] t.graph().has_node(x) ==> resolved(
                    registry,
                    t.graph(),
                    Lookup::InstalledOnly,
                    x,
                )
                &&& forall|x: Seq<char>| #[trigger] t.graph().has_node(x) ==> linked(t.graph(), ids_view(incoming@), x)
                &&& building_from(registry, empty_model(), 0, ids_view(incoming@), Lookup::InstalledOnly) == Ok::<
                    Model,
                    Seq<char>,
                >(model(t.graph()))
            },
            Err(e) => e matches Error::NoCandidate(s) && building_from(
                registry,
                empty_model(),
                0,
                ids_view(incoming@),
                Lookup::InstalledOnly,
            ) == Err::<Model, Seq<char>>(s@),
        },
{
    let mut tx = match new(registry) {
        Ok(t) => t,
        Err(e) => return Err(e),
    };
    proof {
        assert(tx.packages.nodes_view().to_set() =~= Set::<Seq<char>>::empty());
        assert(tx.packages.edges_view() =~= Seq::<(Seq<char>, Seq<char>)>::empty());
        assert(model(tx.packages) == empty_model());
    }
    match tx.update(incoming, Lookup::InstalledOnly) {
        Ok(()) => Ok(tx),
        Err(e) => Err(e),
    }
}

impl<'a> Transaction<'a> {
    /// The registry the packages come from.
    pub closed spec fn registry_view(&self) -> &'a Registry {
        self.registry
    }

    /// The package graph.
    pub closed spec fn graph(&self) -> Dag {
        self.packages
    }

    /// Add packages to this transaction, with their dependencies, looked up
    /// among the packages already chosen, then installed ones, then
    /// available ones. Every package it adds is one of `incoming` or a
    /// dependency reached from one.
    pub fn add(&mut self, incoming: Vec<package::Id>) -> (r: Result<(), Error>)
        requires
            old(self).graph().wf(),
        ensures
            final(self).graph().wf(),
            final(self).registry_view() == old(self).registry_view(),
            grows(old(self).graph(), final(self).graph()),
            forall|x: Seq<char>|
                #[trigger] final(self).graph().has_node(x) && !old(self).graph().has_node(x) ==> linked(
                    final(self).graph(),
                    ids_view(incoming@),
                    x,
                ),
            match r {
                Ok(()) => {
                    &&& forall|i: int|
                        0 <= i < incoming.len() ==> final(self).graph().has_node(#[trigger] incoming@[i]@) && resolved(
                            final(self).registry_view(),
                            final(self).graph(),
                            Lookup::Global,
                            incoming@[i]@,
                        )
                    &&& forall|x: Seq<char>|
                        #[trigger] final(self).graph().has_node(x) && !old(self).graph().has_node(x) ==> resolved(
                            final(self).registry_view(),
                            final(self).graph(),
                            Lookup::Global,
                            x,
                        )
                    &&& building(old(self).registry_view(), old(self).graph(), ids_view(incoming@), Lookup::Global)
                        == Ok::<Model, Seq<char>>(model(final(self).graph()))
                },
                Err(e) => e matches Error::NoCandidate(s) && building(
                    old(self).registry_view(),
                    old(self).graph(),
                    ids_view(incoming@),
                    Lookup::Global,
                ) == Err::<Model, Seq<char>>(s@),
            },
    {
        self.update(incoming, Lookup::Global)
    }

    /// Remove a set of packages and their reverse dependencies
    pub fn remove(&mut self, packages: Vec<package::Id>)
        requires
            old(self).graph().wf(),
        ensures
            final(self).graph().wf(),
            final(self).registry_view() == old(self).registry_view(),
            forall|x: Seq<char>|
                #[trigger] final(self).graph().has_node(x) <==> (old(self).graph().has_node(x)
                    && !crate::registry::graph::reaches_any(old(self).graph().edges_view(), x, ids_view(packages@))),
            forall|x: Seq<char>, y: Seq<char>|
                #[trigger] final(self).graph().has_edge(x, y) <==> (old(self).graph().has_edge(x, y)
                    && final(self).graph().has_node(x) && final(self).graph().has_node(y)),
    {
        self.packages.remove_dependents(&packages);
    }

    /// Return the package IDs in the fully baked configuration: every
    /// package comes before the packages it depends on.
    pub fn finalize(&self) -> (r: Vec<package::Id>)
        requires
            self.graph().wf(),
        ensures
            ids_view(r@) == self.graph().nodes_view(),
            forall|x: Seq<char>, y: Seq<char>|
                #[trigger] self.graph().has_edge(x, y) ==> crate::registry::graph::before(ids_view(r@), x, y),
    {
        let r = self.packages.topo();
        proof {
            assert forall|x: Seq<char>, y: Seq<char>| #[trigger] self.graph().has_edge(x, y) implies crate::registry::graph::before(
                ids_view(r@),
                x,
                y,
            ) by {
                let k = choose|k: int| 0 <= k < self.packages.edges_view().len() && self.packages.edges_view()[k] == (x, y);
            }
        }
        r
    }

    /// Update internal package graph with all incoming packages & their deps
    #[verifier::spinoff_prover]
    #[verifier::rlimit(40)]
    fn update(&mut self, incoming: Vec<package::Id>, lookup: Lookup) -> (r: Result<(), Error>)
        requires
            old(self).graph().wf(),
        ensures
            final(self).graph().wf(),
            final(self).registry_view() == old(self).registry_view(),
            grows(old(self).graph(), final(self).graph()),
            forall|x: Seq<char>|
                #[trigger] final(self).graph().has_node(x) && !old(self).graph().has_node(x) ==> linked(
                    final(self).graph(),
                    ids_view(incoming@),
                    x,
                ),
            match r {
                Ok(()) => {
                    &&& forall|i: int|
                        0 <= i < incoming.len() ==> final(self).graph().has_node(#[trigger] incoming@[i]@) && resolved(
                            final(self).registry_view(),
                            final(self).graph(),
                            lookup,
                            incoming@[i]@,
                        )
                    &&& forall|x: Seq<char>|
                        #[trigger] final(self).graph().has_node(x) && !old(self).graph().has_node(x) ==> resolved(
                            final(self).registry_view(),
                            final(self).graph(),
                            lookup,
                            x,
                        )
                    &&& building(old(self).registry_view(), old(self).graph(), ids_view(incoming@), lookup) == Ok::<
                        Model,
                        Seq<char>,
                    >(model(final(self).graph()))
                },
                Err(e) => e matches Error::NoCandidate(s) && building(
                    old(self).registry_view(),
                    old(self).graph(),
                    ids_view(incoming@),
                    lookup,
                ) == Err::<Model, Seq<char>>(s@),
            },
    {
        let ghost reg = self.registry;
        let ghost g0 = self.packages;
        let ghost inc = ids_view(incoming@);
        let ghost bound = g0.nodes_view() + inc + reg.universe();
        let ghost mut done: Seq<Seq<char>> = Seq::empty();
        let ghost mut first = true;
        let ghost target = building(reg, g0, inc, lookup);
        let ghost mut fuel: nat = (bound.len() + 1) as nat;
        let mut items = incoming;
        proof {
            lemma_grows_refl(g0);
            assert forall|x: Seq<char>| self.packages.has_node(x) implies #[trigger] bound.contains(x) by {
                let i = choose|i: int| 0 <= i < g0.nodes_view().len() && g0.nodes_view()[i] == x;
                assert(bound[i] == x);
            }
            assert forall|x: Seq<char>| ids_view(items@).contains(x) implies #[trigger] bound.contains(x) by {
                let i = choose|i: int| 0 <= i < inc.len() && inc[i] == x;
                assert(bound[g0.nodes_view().len() + i] == x);
            }
            assert forall|x: Seq<char>| #[trigger] ids_view(items@).contains(x) implies linked(self.packages, inc, x) by {
                let i = choose|i: int| 0 <= i < inc.len() && inc[i] == x;
                lemma_root_linked(self.packages, inc, i);
            }
        }
        while items.len() > 0
            invariant
                self.registry == reg,
                reg == old(self).registry,
                g0 == old(self).packages,
                self.packages.wf(),
                grows(g0, self.packages),
                bound == g0.nodes_view() + inc + reg.universe(),
                inc == ids_view(incoming@),
                forall|x: Seq<char>|
                    #[trigger] done.contains(x) ==> self.packages.has_node(x) && resolved(reg, self.packages, lookup, x),
                forall|x: Seq<char>|
                    #[trigger] self.packages.has_node(x) && !g0.has_node(x) ==> done.contains(x) || ids_view(
                        items@,
                    ).contains(x),
                first ==> ids_view(items@) == inc,
                !first ==> forall|i: int| 0 <= i < inc.len() ==> done.contains(#[trigger] inc[i]),
                forall|x: Seq<char>| ids_view(items@).contains(x) ==> #[trigger] bound.contains(x),
                forall|x: Seq<char>| self.packages.has_node(x) ==> #[trigger] bound.contains(x),
                forall|x: Seq<char>|
                    #[trigger] self.packages.has_node(x) && !g0.has_node(x) ==> linked(self.packages, inc, x),
                forall|x: Seq<char>| #[trigger] ids_view(items@).contains(x) ==> linked(self.packages, inc, x),
                target == building(reg, g0, inc, lookup),
                target == visit_rounds(reg, lookup, ids_view(items@), model(self.packages), fuel),
                items.len() > 0 ==> fuel >= bound.len() - self.packages.nodes_view().len() + 1,
            decreases bound.len() - self.packages.nodes_view().len(), items.len(),
        {
            let ghost round = self.packages;
            let ghost round_items = items@;
            proof {
                lemma_distinct_within(self.packages.nodes_view(), bound);
                lemma_grows_refl(round);
            }
            let mut next: Vec<package::Id> = Vec::new();
            let mut j: usize = 0;
            proof {
                assert(ids_view(items@).take(0) =~= Seq::<Seq<char>>::empty());
                assert(ids_view(next@) =~= Seq::<Seq<char>>::empty());
                assert(fuel >= 1);
            }
            while j < items.len()
                invariant
                    j <= items.len(),
                    items@ == round_items,
                    self.registry == reg,
                    reg == old(self).registry,
                    g0 == old(self).packages,
                    self.packages.wf(),
                    grows(g0, self.packages),
                    grows(round, self.packages),
                    bound == g0.nodes_view() + inc + reg.universe(),
                    inc == ids_view(incoming@),
                    forall|x: Seq<char>|
                        #[trigger] done.contains(x) ==> self.packages.has_node(x) && resolved(reg, self.packages, lookup, x),
                    forall|x: Seq<char>|
                        #[trigger] self.packages.has_node(x) && !g0.has_node(x) ==> done.contains(x) || ids_view(
                            items@,
                        ).contains(x) || ids_view(next@).contains(x),
                    forall|q: int| 0 <= q < j ==> done.contains(#[trigger] ids_view(items@)[q]),
                    forall|x: Seq<char>|
                        #[trigger] ids_view(next@).contains(x) ==> self.packages.has_node(x) && !round.has_node(x)
                            && bound.contains(x),
                    first ==> ids_view(items@) == inc,
                    !first ==> forall|i: int| 0 <= i < inc.len() ==> done.contains(#[trigger] inc[i]),
                    forall|x: Seq<char>| ids_view(items@).contains(x) ==> #[trigger] bound.contains(x),
                    forall|x: Seq<char>| self.packages.has_node(x) ==> #[trigger] bound.contains(x),
                    forall|x: Seq<char>|
                        #[trigger] self.packages.has_node(x) && !g0.has_node(x) ==> linked(self.packages, inc, x),
                    forall|x: Seq<char>| #[trigger] ids_view(items@).contains(x) ==> linked(self.packages, inc, x),
                    forall|x: Seq<char>| #[trigger] ids_view(next@).contains(x) ==> linked(self.packages, inc, x),
                    target == building(reg, g0, inc, lookup),
                    target == visit_rounds(reg, lookup, ids_view(round_items), model(round), fuel),
                    fuel >= 1,
                    visit_all(reg, lookup, ids_view(items@).take(j as int), model(round)) == Ok::<
                        (Model, Seq<Seq<char>>),
                        Seq<char>,
                    >((model(self.packages), ids_view(next@))),
                decreases items.len() - j,
            {
                let check = &items[j];
                assert(ids_view(items@)[j as int] == check@);
                let ghost n_item = ids_view(next@);
                let ghost before_add = self.packages;
                self.packages.add_node(check.duplicate());
                proof {
                    assert(ids_view(items@).contains(check@));
                    assert forall|k: int|
                        0 <= k < before_add.edges_view().len() implies self.packages.edges_view().contains(
                            #[trigger] before_add.edges_view()[k],
                        ) by {
                        assert(self.packages.edges_view()[k] == before_add.edges_view()[k]);
                    }
                    assert forall|x: Seq<char>| before_add.has_node(x) implies #[trigger] self.packages.has_node(x) by {
                        let i = choose|i: int| 0 <= i < before_add.nodes_view().len() && before_add.nodes_view()[i] == x;
                        assert(self.packages.nodes_view()[i] == x);
                    }
                    assert(self.packages.has_node(check@)) by {
                        if before_add.has_node(check@) {
                        } else {
                            assert(self.packages.nodes_view()[before_add.nodes_view().len() as int] == check@);
                        }
                    }
                    assert(grows(before_add, self.packages));
                    lemma_grows_trans(g0, before_add, self.packages);
                    lemma_grows_trans(round, before_add, self.packages);
                    assert forall|x: Seq<char>| #[trigger] done.contains(x) implies self.packages.has_node(x) && resolved(
                        reg,
                        self.packages,
                        lookup,
                        x,
                    ) by {
                        lemma_resolved_grows(reg, before_add, self.packages, lookup, x);
                    }
                    assert forall|x: Seq<char>| self.packages.has_node(x) implies #[trigger] bound.contains(x) by {
                        if !before_add.has_node(x) {
                            assert(x == check@);
                        }
                    }
                    assert forall|x: Seq<char>| #[trigger] self.packages.has_node(x) && !g0.has_node(x) implies done.contains(x)
                        || ids_view(items@).contains(x) || ids_view(next@).contains(x) by {
                        if !before_add.has_node(x) {
                            assert(x == check@);
                        }
                    }
                    lemma_linked_grows(before_add, self.packages, inc, check@);
                    lemma_model_node(before_add, self.packages, check@);
                    assert forall|x: Seq<char>| #[trigger] self.packages.has_node(x) && !g0.has_node(x) implies linked(
                        self.packages,
                        inc,
                        x,
                    ) by {
                        if before_add.has_node(x) {
                            lemma_linked_grows(before_add, self.packages, inc, x);
                        }
                    }
                    assert forall|x: Seq<char>| #[trigger] ids_view(items@).contains(x) implies linked(self.packages, inc, x) by {
                        lemma_linked_grows(before_add, self.packages, inc, x);
                    }
                    assert forall|x: Seq<char>| #[trigger] ids_view(next@).contains(x) implies linked(self.packages, inc, x) by {
                        lemma_linked_grows(before_add, self.packages, inc, x);
                    }
                }
                let found = self.registry.by_id(check);
                if found.len() == 0 {
                    assert(package_of(reg, check@) is None);
                    proof {
                        lemma_round_fails(
                            reg,
                            lookup,
                            ids_view(round_items),
                            model(round),
                            j as int,
                            (model(before_add), n_item),
                            check@,
                            fuel,
                        );
                    }
                    return Err(Error::NoCandidate(String::from_str(check.as_str())));
                }
                let package = &found[0];
                assert(package_views(found@)[0] == package@);
                assert(package_of(reg, check@) == Some(package@));
                let deps = &package.meta.dependencies;
                let ghost dv = package@.meta.dependencies;
                assert(dv == deps.members());
                let mut k: usize = 0;
                assert(dv.take(0) =~= Seq::<(Kind, Seq<char>)>::empty());
                while k < deps.len()
                    invariant
                        k <= deps.members().len(),
                        dv == deps.members(),
                        package_of(reg, check@) == Some(package@),
                        package@.meta.dependencies == dv,
                        j < items.len(),
                        check@ == ids_view(items@)[j as int],
                        items@ == round_items,
                        self.registry == reg,
                        reg == old(self).registry,
                        g0 == old(self).packages,
                        self.packages.wf(),
                        self.packages.has_node(check@),
                        grows(g0, self.packages),
                        grows(round, self.packages),
                        bound == g0.nodes_view() + inc + reg.universe(),
                        inc == ids_view(incoming@),
                        forall|m: int| 0 <= m < k ==> dependency_met(reg, self.packages, lookup, check@, #[trigger] dv[m]),
                        forall|x: Seq<char>|
                            #[trigger] done.contains(x) ==> self.packages.has_node(x) && resolved(
                                reg,
                                self.packages,
                                lookup,
                                x,
                            ),
                        forall|x: Seq<char>|
                            #[trigger] self.packages.has_node(x) && !g0.has_node(x) ==> done.contains(x) || ids_view(
                                items@,
                            ).contains(x) || ids_view(next@).contains(x),
                        forall|q: int| 0 <= q < j ==> done.contains(#[trigger] ids_view(items@)[q]),
                        forall|x: Seq<char>|
                            #[trigger] ids_view(next@).contains(x) ==> self.packages.has_node(x) && !round.has_node(x)
                                && bound.contains(x),
                        first ==> ids_view(items@) == inc,
                        !first ==> forall|i: int| 0 <= i < inc.len() ==> done.contains(#[trigger] inc[i]),
                        forall|x: Seq<char>| ids_view(items@).contains(x) ==> #[trigger] bound.contains(x),
                        forall|x: Seq<char>| self.packages.has_node(x) ==> #[trigger] bound.contains(x),
                        forall|x: Seq<char>|
                            #[trigger] self.packages.has_node(x) && !g0.has_node(x) ==> linked(self.packages, inc, x),
                        forall|x: Seq<char>| #[trigger] ids_view(items@).contains(x) ==> linked(self.packages, inc, x),
                        forall|x: Seq<char>| #[trigger] ids_view(next@).contains(x) ==> linked(self.packages, inc, x),
                        linked(self.packages, inc, check@),
                        target == building(reg, g0, inc, lookup),
                        target == visit_rounds(reg, lookup, ids_view(round_items), model(round), fuel),
                        fuel >= 1,
                        visit_all(reg, lookup, ids_view(items@).take(j as int), model(round)) == Ok::<
                            (Model, Seq<Seq<char>>),
                            Seq<char>,
                        >((model(before_add), n_item)),
                        resolve_deps(reg, lookup, check@, dv.take(k as int), with_node(model(before_add), check@), n_item)
                            == Ok::<(Model, Seq<Seq<char>>), Seq<char>>((model(self.packages), ids_view(next@))),
                    decreases deps.members().len() - k,
                {
                    let d = deps.get(k);
                    let provider = Provider { kind: d.kind_of(), name: d.name_of() };
                    assert(provider@ == dv[k as int]);
                    let resolution = match lookup {
                        Lookup::Global => self.resolve_installation_provider(provider),
                        Lookup::InstalledOnly => self.resolve_provider(ProviderFilter::InstalledOnly(provider)),
                    };
                    let search = match resolution {
                        Ok(s) => s,
                        Err(e) => {
                            proof {
                                assert(unprovided(reg, lookup, dv[k as int]));
                                let m_item = with_node(model(before_add), check@);
                                assert(choice(reg, model(self.packages).0, lookup, dv[k as int]) is None);
                                assert(dv.take(k + 1).drop_last() =~= dv.take(k as int));
                                assert(dv.take(k + 1).last() == dv[k as int]);
                                lemma_deps_err(reg, lookup, check@, dv, m_item, n_item, k + 1);
                                lemma_round_fails(
                                    reg,
                                    lookup,
                                    ids_view(round_items),
                                    model(round),
                                    j as int,
                                    (model(before_add), n_item),
                                    rendered(dv[k as int]),
                                    fuel,
                                );
                            }
                            return Err(e);
                        },
                    };
                    proof {
                        assert(provider_for(reg, lookup, dv[k as int], search@));
                        if offers(reg, no_flags(), dv[k as int], search@) {
                            lemma_offers_universe(reg, no_flags(), dv[k as int], search@);
                        } else if offers(reg, installed_flags(), dv[k as int], search@) {
                            lemma_offers_universe(reg, installed_flags(), dv[k as int], search@);
                        } else {
                            lemma_offers_universe(reg, available_flags(), dv[k as int], search@);
                        }
                        assert(bound[g0.nodes_view().len() + inc.len() + (choose|i: int| 0 <= i < reg.universe().len() && reg.universe()[i] == search@)] == search@);
                    }
                    proof {
                        assert(choice(reg, model(self.packages).0, lookup, dv[k as int]) == Some(search@));
                    }
                    let need = !self.packages.node_exists(&search);
                    let ghost before_node = self.packages;
                    self.packages.add_node(search.duplicate());
                    proof {
                        lemma_model_node(before_node, self.packages, search@);
                    }
                    proof {
                        assert forall|m: int|
                            0 <= m < before_node.edges_view().len() implies self.packages.edges_view().contains(
                                #[trigger] before_node.edges_view()[m],
                            ) by {
                            assert(self.packages.edges_view()[m] == before_node.edges_view()[m]);
                        }
                        assert forall|x: Seq<char>| before_node.has_node(x) implies #[trigger] self.packages.has_node(x) by {
                            let i = choose|i: int| 0 <= i < before_node.nodes_view().len() && before_node.nodes_view()[i] == x;
                            assert(self.packages.nodes_view()[i] == x);
                        }
                        assert(self.packages.has_node(search@)) by {
                            if !before_node.has_node(search@) {
                                assert(self.packages.nodes_view()[before_node.nodes_view().len() as int] == search@);
                            }
                        }
                        assert(grows(before_node, self.packages));
                    }
                    let ghost before_next = ids_view(next@);
                    if need {
                        next.push(search.duplicate());
                        assert(ids_view(next@) =~= before_next.push(search@));
                    }
                    let ghost before_edge = self.packages;
                    proof {
                        if need {
                            lemma_edge_from_outside(before_node, check@, search@);
                        }
                    }
                    let added = self.packages.add_edge(check, &search);
                    proof {
                        lemma_model_edge(before_edge, self.packages, check@, search@, added);
                        assert(dv.take(k + 1).drop_last() =~= dv.take(k as int));
                        assert(dv.take(k + 1).last() == dv[k as int]);
                        assert(ids_view(next@) == if model(before_node).0.contains(search@) {
                            before_next
                        } else {
                            before_next.push(search@)
                        });
                        if added {
                            assert(self.packages.edges_view() == before_edge.edges_view().push((check@, search@)));
                            assert forall|m: int|
                                0 <= m < before_edge.edges_view().len() implies self.packages.edges_view().contains(
                                    #[trigger] before_edge.edges_view()[m],
                                ) by {
                                assert(self.packages.edges_view()[m] == before_edge.edges_view()[m]);
                            }
                            assert(self.packages.edges_view()[before_edge.edges_view().len() as int] == (check@, search@));
                            assert(self.packages.has_edge(check@, search@));
                        } else {
                            lemma_grows_refl(before_edge);
                            if before_edge.has_edge(check@, search@) {
                            } else {
                                assert(reaches(before_edge.edges_view(), search@, check@));
                            }
                        }
                        assert(grows(before_edge, self.packages));
                        lemma_grows_trans(before_node, before_edge, self.packages);
                        let now = self.packages;
                        lemma_grows_trans(g0, before_node, now);
                        lemma_grows_trans(round, before_node, now);
                        assert(now.has_node(search@));
                        if !added {
                            assert(now.edges_view() == before_edge.edges_view());
                        }
                        assert(now.has_edge(check@, search@) || reaches(now.edges_view(), search@, check@));
                        assert(dependency_met(reg, now, lookup, check@, dv[k as int]));
                        assert forall|m: int| 0 <= m < k + 1 implies dependency_met(
                            reg,
                            now,
                            lookup,
                            check@,
                            #[trigger] dv[m],
                        ) by {
                            if m < k {
                                lemma_met_grows(reg, before_node, now, lookup, check@, dv[m]);
                            }
                        }
                        assert forall|x: Seq<char>| #[trigger] done.contains(x) implies now.has_node(x) && resolved(
                            reg,
                            now,
                            lookup,
                            x,
                        ) by {
                            lemma_resolved_grows(reg, before_node, now, lookup, x);
                        }
                        assert forall|x: Seq<char>|
                            #[trigger] ids_view(next@).contains(x) implies now.has_node(x) && !round.has_node(x)
                                && bound.contains(x) by {
                            if before_next.contains(x) {
                            } else {
                                assert(x == search@);
                                assert(!before_node.has_node(search@));
                            }
                        }
                        assert forall|x: Seq<char>| #[trigger] now.has_node(x) && !g0.has_node(x) implies done.contains(x)
                            || ids_view(items@).contains(x) || ids_view(next@).contains(x) by {
                            if !before_node.has_node(x) {
                                assert(x == search@);
                                assert(need);
                                assert(ids_view(next@)[before_next.len() as int] == x);
                                assert(ids_view(next@).contains(x));
                            } else if before_next.contains(x) {
                                let i = choose|i: int| 0 <= i < before_next.len() && before_next[i] == x;
                                assert(ids_view(next@)[i] == x);
                            }
                        }
                        assert forall|x: Seq<char>| now.has_node(x) implies #[trigger] bound.contains(x) by {
                            if !before_node.has_node(x) {
                                assert(x == search@);
                            }
                        }
                        lemma_linked_grows(before_node, now, inc, check@);
                        if need {
                            assert(added);
                            let i = choose|i: int| 0 <= i < inc.len() && #[trigger] reaches(now.edges_view(), inc[i], check@);
                            crate::registry::graph::lemma_reaches_extend(now.edges_view(), inc[i], check@, search@);
                            assert(linked(now, inc, search@));
                        }
                        assert forall|x: Seq<char>| #[trigger] now.has_node(x) && !g0.has_node(x) implies linked(now, inc, x) by {
                            if before_node.has_node(x) {
                                lemma_linked_grows(before_node, now, inc, x);
                            } else {
                                assert(x == search@);
                            }
                        }
                        assert forall|x: Seq<char>| #[trigger] ids_view(items@).contains(x) implies linked(now, inc, x) by {
                            lemma_linked_grows(before_node, now, inc, x);
                        }
                        assert forall|x: Seq<char>| #[trigger] ids_view(next@).contains(x) implies linked(now, inc, x) by {
                            if before_next.contains(x) {
                                lemma_linked_grows(before_node, now, inc, x);
                            } else {
                                assert(x == search@);
                            }
                        }
                    }
                    k = k + 1;
                }
                proof {
                    assert(dv.take(k as int) =~= dv);
                    assert(ids_view(items@).take(j + 1).drop_last() =~= ids_view(items@).take(j as int));
                    assert(ids_view(items@).take(j + 1).last() == check@);
                    assert(resolved(reg, self.packages, lookup, check@));
                    let before_done = done;
                    done = done.push(check@);
                    assert forall|x: Seq<char>| #[trigger] done.contains(x) implies self.packages.has_node(x) && resolved(
                        reg,
                        self.packages,
                        lookup,
                        x,
                    ) by {
                        if x != check@ {
                            let i = choose|i: int| 0 <= i < done.len() && done[i] == x;
                            assert(before_done[i] == x);
                            assert(before_done.contains(x));
                        }
                    }
                    assert forall|q: int| 0 <= q < j + 1 implies done.contains(#[trigger] ids_view(items@)[q]) by {
                        if q < j {
                            let i = choose|i: int| 0 <= i < before_done.len() && before_done[i] == ids_view(items@)[q];
                            assert(done[i] == ids_view(items@)[q]);
                        } else {
                            assert(done[before_done.len() as int] == check@);
                        }
                    }
                    assert forall|x: Seq<char>| #[trigger] self.packages.has_node(x) && !g0.has_node(x) implies done.contains(x)
                        || ids_view(items@).contains(x) || ids_view(next@).contains(x) by {
                        if before_done.contains(x) {
                            let i = choose|i: int| 0 <= i < before_done.len() && before_done[i] == x;
                            assert(done[i] == x);
                        }
                    }
                    if !first {
                        assert forall|i: int| 0 <= i < inc.len() implies done.contains(#[trigger] inc[i]) by {
                            let q = choose|q: int| 0 <= q < before_done.len() && before_done[q] == inc[i];
                            assert(done[q] == inc[i]);
                        }
                    }
                }
                j = j + 1;
            }
            proof {
                // Every item of this round is done, so what is left pending is `next`.
                assert forall|x: Seq<char>| #[trigger] self.packages.has_node(x) && !g0.has_node(x) implies done.contains(x)
                    || ids_view(next@).contains(x) by {
                    if ids_view(items@).contains(x) && !done.contains(x) {
                        let q = choose|q: int| 0 <= q < ids_view(items@).len() && ids_view(items@)[q] == x;
                        assert(done.contains(ids_view(items@)[q]));
                    }
                }
                if first {
                    assert forall|i: int| 0 <= i < inc.len() implies done.contains(#[trigger] inc[i]) by {
                        assert(ids_view(items@)[i] == inc[i]);
                    }
                }
                assert forall|x: Seq<char>| round.nodes_view().contains(x) implies #[trigger] self.packages.nodes_view().contains(x) by {
                    assert(round.has_node(x));
                    assert(self.packages.has_node(x));
                }
                lemma_distinct_within(self.packages.nodes_view(), bound);
                if next.len() > 0 {
                    let x = ids_view(next@)[0];
                    assert(ids_view(next@).contains(x));
                    lemma_distinct_grow(round.nodes_view(), self.packages.nodes_view(), x);
                } else {
                    crate::registry::transaction::lemma_distinct_mono(round.nodes_view(), self.packages.nodes_view());
                }
                first = false;
                assert(ids_view(items@).take(j as int) =~= ids_view(items@));
                fuel = (fuel - 1) as nat;
            }
            items = next;
        }
        proof {
            assert forall|i: int| 0 <= i < incoming.len() implies self.packages.has_node(#[trigger] incoming@[i]@) && resolved(
                reg,
                self.packages,
                lookup,
                incoming@[i]@,
            ) by {
                assert(inc[i] == incoming@[i]@);
                if first {
                    assert(ids_view(items@) == inc);
                    assert(inc.len() == 0);
                } else {
                    assert(done.contains(inc[i]));
                }
            }
            assert forall|x: Seq<char>| #[trigger] self.packages.has_node(x) && !g0.has_node(x) implies resolved(
                reg,
                self.packages,
                lookup,
                x,
            ) by {
                assert(done.contains(x) || ids_view(items@).contains(x));
            }
            assert(ids_view(items@).len() == 0);
        }
        Ok(())
    }

    /// Attempt to resolve the filterered provider
    fn resolve_provider(&self, filter: ProviderFilter) -> (r: Result<package::Id, Error>)
        ensures
            match filter {
                ProviderFilter::All(p) => match r {
                    Ok(id) => candidates(self.registry, available_flags(), p@).len() > 0 && id@ == candidates(
                        self.registry,
                        available_flags(),
                        p@,
                    )[0].id,
                    Err(e) => candidates(self.registry, available_flags(), p@).len() == 0 && (e matches Error::NoCandidate(s)
                        && s@ == rendered(p@)),
                },
                ProviderFilter::InstalledOnly(p) => match r {
                    Ok(id) => candidates(self.registry, installed_flags(), p@).len() > 0 && id@ == candidates(
                        self.registry,
                        installed_flags(),
                        p@,
                    )[0].id,
                    Err(e) => candidates(self.registry, installed_flags(), p@).len() == 0 && (e matches Error::NoCandidate(s)
                        && s@ == rendered(p@)),
                },
                ProviderFilter::Selections(p) => match r {
                    Ok(id) => first_where(
                        candidates(self.registry, no_flags(), p@),
                        |v: PackageView| self.packages.has_node(v.id),
                    ) matches Some(v) && v.id == id@,
                    Err(e) => first_where(
                        candidates(self.registry, no_flags(), p@),
                        |v: PackageView| self.packages.has_node(v.id),
                    ) is None && (e matches Error::NoCandidate(s) && s@ == rendered(p@)),
                },
            },
    {
        match filter {
            ProviderFilter::All(provider) => {
                let found = self.registry.by_provider(&provider, Flags::new().with_available());
                if found.len() > 0 {
                    assert(package_views(found@)[0] == found@[0]@);
                    Ok(found[0].id.duplicate())
                } else {
                    Err(Error::NoCandidate(provider.to_string()))
                }
            },
            ProviderFilter::InstalledOnly(provider) => {
                let found = self.registry.by_provider(&provider, Flags::new().with_installed());
                if found.len() > 0 {
                    assert(package_views(found@)[0] == found@[0]@);
                    Ok(found[0].id.duplicate())
                } else {
                    Err(Error::NoCandidate(provider.to_string()))
                }
            },
            ProviderFilter::Selections(provider) => {
                let found = self.registry.by_provider(&provider, Flags::new());
                let ghost s = package_views(found@);
                let ghost pred = |v: PackageView| self.packages.has_node(v.id);
                assert(s == candidates(self.registry, no_flags(), provider@));
                let mut i: usize = 0;
                while i < found.len()
                    invariant
                        i <= found.len(),
                        s == candidates(self.registry, no_flags(), provider@),
                        filter matches ProviderFilter::Selections(p) && p@ == provider@,
                        s == package_views(found@),
                        pred == (|v: PackageView| self.packages.has_node(v.id)),
                        forall|j: int| 0 <= j < i ==> !pred(#[trigger] s[j]),
                    decreases found.len() - i,
                {
                    assert(s[i as int] == found@[i as int]@);
                    if self.packages.node_exists(&found[i].id) {
                        proof {
                            assert(is_first(s, pred, i as int));
                            lemma_first_index(s, pred, i as int);
                        }
                        return Ok(found[i].id.duplicate());
                    }
                    i = i + 1;
                }
                proof {
                    lemma_first_index_none(s, pred);
                }
                Err(Error::NoCandidate(provider.to_string()))
            },
        }
    }

    /// Try all strategies to resolve a provider for installation
    fn resolve_installation_provider(&self, provider: Provider) -> (r: Result<package::Id, Error>)
        ensures
            match r {
                Ok(id) => choice(self.registry, self.packages.nodes_view().to_set(), Lookup::Global, provider@) == Some(
                    id@,
                ),
                Err(_) => choice(self.registry, self.packages.nodes_view().to_set(), Lookup::Global, provider@) is None,
            },
            match r {
                Ok(id) => provider_for(self.registry, Lookup::Global, provider@, id@),
                Err(e) => unprovided(self.registry, Lookup::Global, provider@) && (e matches Error::NoCandidate(s)
                    && s@ == rendered(provider@)),
            },
    {
        let ghost pv = provider@;
        let ghost nodes = self.packages.nodes_view().to_set();
        assert((|v: PackageView| self.packages.has_node(v.id)) =~= (|v: PackageView| nodes.contains(v.id)));
        match self.resolve_provider(ProviderFilter::Selections(provider.duplicate())) {
            Ok(id) => {
                proof {
                    let c = candidates(self.registry, no_flags(), pv);
                    let pred = |v: PackageView| self.packages.has_node(v.id);
                    let i = choose|i: int| is_first(c, pred, i);
                    lemma_first_index(c, pred, i);
                    assert(c[i].id == id@);
                }
                return Ok(id);
            },
            Err(_) => {},
        }
        match self.resolve_provider(ProviderFilter::InstalledOnly(provider.duplicate())) {
            Ok(id) => {
                proof {
                    let c = candidates(self.registry, installed_flags(), pv);
                    assert(c[0].id == id@);
                }
                return Ok(id);
            },
            Err(_) => {},
        }
        let r = self.resolve_provider(ProviderFilter::All(provider));
        proof {
            if r is Ok {
                let c = candidates(self.registry, available_flags(), pv);
                assert(c[0].id == r->Ok_0@);
            }
        }
        r
    }
}

} // verus!
