//! A directed acyclic graph of package identifiers. Its nodes are kept in
//! an order in which every edge points forward, so the graph can never hold
//! a cycle and that order is a topological order.

use vstd::prelude::*;

use crate::package::{self, ids_view};

verus! {

/// The identifiers joined by an edge.
pub open spec fn edge_view(e: (package::Id, package::Id)) -> (Seq<char>, Seq<char>) {
    (e.0@, e.1@)
}

/// The identifiers of `s` are pairwise distinct.
pub open spec fn distinct(s: Seq<Seq<char>>) -> bool {
    forall|i: int, j: int| 0 <= i < j < s.len() ==> #[trigger] s[i] != #[trigger] s[j]
}

/// `x` comes before `y` in `s`.
pub open spec fn before(s: Seq<Seq<char>>, x: Seq<char>, y: Seq<char>) -> bool {
    exists|i: int, j: int| 0 <= i < j < s.len() && #[trigger] s[i] == x && #[trigger] s[j] == y
}

/// `p` is a walk along the edges `e`.
pub open spec fn is_path(e: Seq<(Seq<char>, Seq<char>)>, p: Seq<Seq<char>>) -> bool {
    &&& p.len() >= 1
    &&& forall|k: int| 0 <= k < p.len() - 1 ==> e.contains((#[trigger] p[k], p[k + 1]))
}

/// `y` can be reached from `x` along the edges `e` (every node reaches
/// itself).
pub open spec fn reaches(e: Seq<(Seq<char>, Seq<char>)>, x: Seq<char>, y: Seq<char>) -> bool {
    exists|p: Seq<Seq<char>>| #[trigger] is_path(e, p) && p[0] == x && p.last() == y
}

/// Some member of `targets` can be reached from `x`.
pub open spec fn reaches_any(e: Seq<(Seq<char>, Seq<char>)>, x: Seq<char>, targets: Seq<Seq<char>>) -> bool {
    exists|t: Seq<char>| #[trigger] targets.contains(t) && reaches(e, x, t)
}

/// Every node reaches itself.
pub proof fn lemma_reaches_self(e: Seq<(Seq<char>, Seq<char>)>, x: Seq<char>)
    ensures
        reaches(e, x, x),
{
    assert(is_path(e, seq![x]));
}

/// A walk can be extended by an edge at its end.
pub proof fn lemma_reaches_extend(e: Seq<(Seq<char>, Seq<char>)>, x: Seq<char>, y: Seq<char>, z: Seq<char>)
    requires
        reaches(e, x, y),
        e.contains((y, z)),
    ensures
        reaches(e, x, z),
{
    let p = choose|p: Seq<Seq<char>>| #[trigger] is_path(e, p) && p[0] == x && p.last() == y;
    let q = p.push(z);
    assert forall|k: int| 0 <= k < q.len() - 1 implies e.contains((#[trigger] q[k], q[k + 1])) by {
        if k < p.len() - 1 {
            assert(q[k] == p[k] && q[k + 1] == p[k + 1]);
        } else {
            assert(q[k] == y && q[k + 1] == z);
        }
    }
    assert(is_path(e, q));
}

/// A walk can be extended by an edge at its start.
pub proof fn lemma_reaches_prepend(e: Seq<(Seq<char>, Seq<char>)>, x: Seq<char>, y: Seq<char>, z: Seq<char>)
    requires
        e.contains((x, y)),
        reaches(e, y, z),
    ensures
        reaches(e, x, z),
{
    let p = choose|p: Seq<Seq<char>>| #[trigger] is_path(e, p) && p[0] == y && p.last() == z;
    let q = seq![x] + p;
    assert forall|k: int| 0 <= k < q.len() - 1 implies e.contains((#[trigger] q[k], q[k + 1])) by {
        if k == 0 {
            assert(q[0] == x && q[1] == p[0]);
        } else {
            assert(q[k] == p[k - 1] && q[k + 1] == p[k]);
        }
    }
    assert(is_path(e, q));
    assert(q.last() == p.last());
}

/// A walk that is more than one node long ends with an edge.
pub proof fn lemma_reaches_last_edge(e: Seq<(Seq<char>, Seq<char>)>, x: Seq<char>, z: Seq<char>)
    requires
        reaches(e, x, z),
        x != z,
    ensures
        exists|y: Seq<char>| #[trigger] e.contains((y, z)) && reaches(e, x, y),
{
    let p = choose|p: Seq<Seq<char>>| #[trigger] is_path(e, p) && p[0] == x && p.last() == z;
    let q = p.drop_last();
    let y = q.last();
    assert(e.contains((p[p.len() - 2], p[p.len() - 1])));
    assert forall|k: int| 0 <= k < q.len() - 1 implies e.contains((#[trigger] q[k], q[k + 1])) by {
        assert(q[k] == p[k] && q[k + 1] == p[k + 1]);
    }
    assert(is_path(e, q));
    assert(e.contains((y, z)) && reaches(e, x, y));
}

/// A walk that is more than one node long starts with an edge.
pub proof fn lemma_reaches_first_edge(e: Seq<(Seq<char>, Seq<char>)>, x: Seq<char>, z: Seq<char>)
    requires
        reaches(e, x, z),
        x != z,
    ensures
        exists|y: Seq<char>| #[trigger] e.contains((x, y)) && reaches(e, y, z),
{
    let p = choose|p: Seq<Seq<char>>| #[trigger] is_path(e, p) && p[0] == x && p.last() == z;
    let q = p.skip(1);
    let y = q[0];
    assert(e.contains((p[0], p[1])));
    assert forall|k: int| 0 <= k < q.len() - 1 implies e.contains((#[trigger] q[k], q[k + 1])) by {
        assert(q[k] == p[k + 1] && q[k + 1] == p[k + 2]);
    }
    assert(is_path(e, q));
    assert(q.last() == p.last());
    assert(e.contains((x, y)) && reaches(e, y, z));
}

/// More edges reach at least as far.
pub proof fn lemma_reaches_mono(e: Seq<(Seq<char>, Seq<char>)>, f: Seq<(Seq<char>, Seq<char>)>, x: Seq<char>, y: Seq<char>)
    requires
        reaches(e, x, y),
        forall|k: int| 0 <= k < e.len() ==> f.contains(#[trigger] e[k]),
    ensures
        reaches(f, x, y),
{
    let p = choose|p: Seq<Seq<char>>| #[trigger] is_path(e, p) && p[0] == x && p.last() == y;
    assert forall|k: int| 0 <= k < p.len() - 1 implies f.contains((#[trigger] p[k], p[k + 1])) by {
        assert(e.contains((p[k], p[k + 1])));
        let m = choose|m: int| 0 <= m < e.len() && e[m] == (p[k], p[k + 1]);
        assert(f.contains(e[m]));
    }
    assert(is_path(f, p));
}

/// In a graph whose edges all point forward in `s`, a walk of more than one
/// node ends later in `s` than it starts; in particular no node reaches
/// itself through an edge.
pub proof fn lemma_forward_walk(s: Seq<Seq<char>>, e: Seq<(Seq<char>, Seq<char>)>, x: Seq<char>, y: Seq<char>)
    requires
        distinct(s),
        forall|k: int| 0 <= k < e.len() ==> before(s, (#[trigger] e[k]).0, e[k].1),
        reaches(e, x, y),
        x != y,
    ensures
        before(s, x, y),
{
    let p = choose|p: Seq<Seq<char>>| #[trigger] is_path(e, p) && p[0] == x && p.last() == y;
    lemma_forward_path(s, e, p);
}

proof fn lemma_forward_path(s: Seq<Seq<char>>, e: Seq<(Seq<char>, Seq<char>)>, p: Seq<Seq<char>>)
    requires
        distinct(s),
        forall|k: int| 0 <= k < e.len() ==> before(s, (#[trigger] e[k]).0, e[k].1),
        is_path(e, p),
        p.len() >= 2,
    ensures
        before(s, p[0], p.last()),
    decreases p.len(),
{
    assert(e.contains((p[0], p[1])));
    let m = choose|m: int| 0 <= m < e.len() && e[m] == (p[0], p[1]);
    assert(before(s, e[m].0, e[m].1));
    if p.len() > 2 {
        let q = p.skip(1);
        assert forall|k: int| 0 <= k < q.len() - 1 implies e.contains((#[trigger] q[k], q[k + 1])) by {
            assert(q[k] == p[k + 1] && q[k + 1] == p[k + 2]);
        }
        assert(is_path(e, q));
        lemma_forward_path(s, e, q);
        assert(q.last() == p.last());
        let (i, j) = choose|i: int, j: int| 0 <= i < j < s.len() && #[trigger] s[i] == p[0] && #[trigger] s[j] == p[1];
        let (a, b) = choose|a: int, b: int| 0 <= a < b < s.len() && #[trigger] s[a] == q[0] && #[trigger] s[b] == q.last();
        assert(a == j) by {
            if a != j {
                if a < j {
                    assert(s[a] != s[j]);
                } else {
                    assert(s[j] != s[a]);
                }
            }
        }
        assert(s[i] == p[0] && s[b] == p.last());
    }
}

/// After the nodes are reordered so that those reachable from `b` come
/// last (keeping the order within each part), every old edge still points
/// forward.
proof fn lemma_edges_stay_forward(
    s: Seq<Seq<char>>,
    s2: Seq<Seq<char>>,
    e: Seq<(Seq<char>, Seq<char>)>,
    rset: Seq<Seq<char>>,
    b: Seq<char>,
)
    requires
        forall|k: int| 0 <= k < e.len() ==> before(s, (#[trigger] e[k]).0, e[k].1),
        forall|x: Seq<char>| #[trigger] rset.contains(x) <==> (s.contains(x) && reaches(e, b, x)),
        forall|x: Seq<char>, y: Seq<char>|
            #[trigger] before(s, x, y) && rset.contains(x) == rset.contains(y) ==> #[trigger] before(s2, x, y),
        forall|x: Seq<char>, y: Seq<char>|
            #[trigger] s.contains(x) && #[trigger] s.contains(y) && !rset.contains(x) && rset.contains(y)
                ==> before(s2, x, y),
    ensures
        forall|k: int| 0 <= k < e.len() ==> before(s2, (#[trigger] e[k]).0, e[k].1),
{
    assert forall|k: int| 0 <= k < e.len() implies before(s2, (#[trigger] e[k]).0, e[k].1) by {
        let x = e[k].0;
        let y = e[k].1;
        assert(before(s, x, y));
        let (i, j) = choose|i: int, j: int| 0 <= i < j < s.len() && #[trigger] s[i] == x && #[trigger] s[j] == y;
        assert(s.contains(x) && s.contains(y));
        if rset.contains(x) == rset.contains(y) {
            assert(before(s2, x, y));
        } else if !rset.contains(x) {
            assert(before(s2, x, y));
        } else {
            assert(e.contains((x, y)));
            lemma_reaches_extend(e, b, x, y);
            assert(false);
        }
    }
}

/// A graph of package identifiers with no cycle.
#[derive(Debug, Clone)]
pub struct Dag {
    nodes: Vec<package::Id>,
    edges: Vec<(package::Id, package::Id)>,
}

impl Dag {
    /// The nodes, in an order in which every edge points forward.
    pub closed spec fn nodes_view(&self) -> Seq<Seq<char>> {
        ids_view(self.nodes@)
    }

    /// The edges, as pairs of identifiers.
    pub closed spec fn edges_view(&self) -> Seq<(Seq<char>, Seq<char>)> {
        self.edges@.map_values(|e: (package::Id, package::Id)| edge_view(e))
    }

    /// `x` is a node.
    pub open spec fn has_node(&self, x: Seq<char>) -> bool {
        self.nodes_view().contains(x)
    }

    /// There is an edge from `x` to `y`.
    pub open spec fn has_edge(&self, x: Seq<char>, y: Seq<char>) -> bool {
        self.edges_view().contains((x, y))
    }

    /// Nodes are distinct and every edge points forward in their order.
    pub open spec fn wf(&self) -> bool {
        &&& distinct(self.nodes_view())
        &&& forall|k: int|
            0 <= k < self.edges_view().len() ==> before(
                self.nodes_view(),
                (#[trigger] self.edges_view()[k]).0,
                self.edges_view()[k].1,
            )
    }

    /// An empty graph.
    pub fn new() -> (r: Self)
        ensures
            r.wf(),
            r.nodes_view().len() == 0,
            r.edges_view().len() == 0,
    {
        let r = Dag { nodes: Vec::new(), edges: Vec::new() };
        assert(r.nodes_view() =~= Seq::<Seq<char>>::empty());
        assert(r.edges_view() =~= Seq::<(Seq<char>, Seq<char>)>::empty());
        r
    }

    /// Position of node `x`.
    fn position(&self, x: &package::Id) -> (r: Option<usize>)
        ensures
            match r {
                Some(i) => i < self.nodes_view().len() && self.nodes_view()[i as int] == x@,
                None => !self.has_node(x@),
            },
    {
        let mut i: usize = 0;
        while i < self.nodes.len()
            invariant
                i <= self.nodes.len(),
                self.nodes_view().len() == self.nodes.len(),
                forall|j: int| 0 <= j < i ==> #[trigger] self.nodes_view()[j] != x@,
            decreases self.nodes.len() - i,
        {
            assert(self.nodes_view()[i as int] == self.nodes@[i as int]@);
            if self.nodes[i].same(x) {
                return Some(i);
            }
            i = i + 1;
        }
        None
    }

    /// Whether `x` is a node.
    pub fn node_exists(&self, x: &package::Id) -> (r: bool)
        ensures
            r == self.has_node(x@),
    {
        self.position(x).is_some()
    }

    /// Adds `x` as a node unless it is one already; says whether it was
    /// added.
    pub fn add_node(&mut self, x: package::Id) -> (added: bool)
        requires
            old(self).wf(),
        ensures
            final(self).wf(),
            added == !old(self).has_node(x@),
            final(self).nodes_view() == if added {
                old(self).nodes_view().push(x@)
            } else {
                old(self).nodes_view()
            },
            final(self).edges_view() == old(self).edges_view(),
    {
        if self.node_exists(&x) {
            return false;
        }
        let ghost before_nodes = self.nodes_view();
        let ghost xv = x@;
        self.nodes.push(x);
        assert(self.nodes_view() =~= before_nodes.push(xv));
        assert(self.edges_view() == old(self).edges_view());
        assert forall|k: int|
            0 <= k < self.edges_view().len() implies before(
                self.nodes_view(),
                (#[trigger] self.edges_view()[k]).0,
                self.edges_view()[k].1,
            ) by {
            assert(old(self).edges_view()[k] == self.edges_view()[k]);
            let (i, j) = choose|i: int, j: int|
                0 <= i < j < before_nodes.len() && #[trigger] before_nodes[i] == self.edges_view()[k].0
                    && #[trigger] before_nodes[j] == self.edges_view()[k].1;
            assert(self.nodes_view()[i] == before_nodes[i] && self.nodes_view()[j] == before_nodes[j]);
        }
        assert forall|i: int, j: int| 0 <= i < j < self.nodes_view().len() implies #[trigger] self.nodes_view()[i]
            != #[trigger] self.nodes_view()[j] by {
            if j == before_nodes.len() {
                assert(self.nodes_view()[i] == before_nodes[i]);
                assert(before_nodes.contains(before_nodes[i]));
            } else {
                assert(self.nodes_view()[i] == before_nodes[i] && self.nodes_view()[j] == before_nodes[j]);
            }
        }
        true
    }

    /// Whether there is an edge from `x` to `y`.
    fn edge_exists(&self, x: &package::Id, y: &package::Id) -> (r: bool)
        ensures
            r == self.has_edge(x@, y@),
    {
        let mut k: usize = 0;
        while k < self.edges.len()
            invariant
                k <= self.edges.len(),
                self.edges_view().len() == self.edges.len(),
                forall|j: int| 0 <= j < k ==> #[trigger] self.edges_view()[j] != (x@, y@),
            decreases self.edges.len() - k,
        {
            assert(self.edges_view()[k as int] == (self.edges@[k as int].0@, self.edges@[k as int].1@));
            if self.edges[k].0.same(x) && self.edges[k].1.same(y) {
                assert(self.edges_view()[k as int] == (x@, y@));
                return true;
            }
            k = k + 1;
        }
        false
    }

    /// Whether `x` is a member of `set`.
    fn member(set: &Vec<package::Id>, x: &package::Id) -> (r: bool)
        ensures
            r == ids_view(set@).contains(x@),
    {
        let ghost v = ids_view(set@);
        let mut k: usize = 0;
        while k < set.len()
            invariant
                k <= set.len(),
                v == ids_view(set@),
                forall|j: int| 0 <= j < k ==> #[trigger] v[j] != x@,
            decreases set.len() - k,
        {
            if set[k].same(x) {
                assert(v[k as int] == x@);
                return true;
            }
            k = k + 1;
        }
        false
    }

    /// The nodes reachable from `start`.
    fn reachable_from(&self, start: &package::Id) -> (r: Vec<package::Id>)
        requires
            self.wf(),
        ensures
            forall|x: Seq<char>|
                #[trigger] ids_view(r@).contains(x) <==> (self.has_node(x) && reaches(self.edges_view(), start@, x)),
    {
        let ghost e = self.edges_view();
        let ghost s = self.nodes_view();
        let mut found: Vec<package::Id> = Vec::new();
        let mut j: usize = 0;
        while j < self.nodes.len()
            invariant
                j <= self.nodes.len(),
                self.wf(),
                e == self.edges_view(),
                s == self.nodes_view(),
                s.len() == self.nodes.len(),
                forall|x: Seq<char>| #[trigger] ids_view(found@).contains(x) <==> reached_before(s, e, start@, j as int, x),
            decreases self.nodes.len() - j,
        {
            let z = &self.nodes[j];
            assert(s[j as int] == z@);
            let mut hit = z.same(start);
            proof {
                if hit {
                    lemma_reaches_self(e, z@);
                }
            }
            let mut k: usize = 0;
            while k < self.edges.len() && !hit
                invariant
                    k <= self.edges.len(),
                    e == self.edges_view(),
                    e.len() == self.edges.len(),
                    hit ==> reaches(e, start@, z@),
                    !hit ==> z@ != start@,
                    !hit ==> forall|m: int|
                        0 <= m < k ==> !((#[trigger] e[m]).1 == z@ && ids_view(found@).contains(e[m].0)),
                    forall|x: Seq<char>| #[trigger] ids_view(found@).contains(x) ==> reaches(e, start@, x),
                decreases self.edges.len() - k,
            {
                assert(e[k as int] == (self.edges@[k as int].0@, self.edges@[k as int].1@));
                if self.edges[k].1.same(z) && Self::member(&found, &self.edges[k].0) {
                    proof {
                        lemma_reaches_extend(e, start@, e[k as int].0, z@);
                    }
                    hit = true;
                }
                k = k + 1;
            }
            proof {
                if !hit {
                    lemma_no_edge_in(s, e, start@, ids_view(found@), j as int);
                }
            }
            let ghost prev = ids_view(found@);
            if hit {
                found.push(z.duplicate());
                assert(ids_view(found@) =~= prev.push(z@));
            } else {
                assert(ids_view(found@) == prev);
            }
            proof {
                lemma_reached_step(s, e, start@, prev, ids_view(found@), j as int, hit);
            }
            j = j + 1;
        }
        proof {
            assert forall|x: Seq<char>|
                #[trigger] ids_view(found@).contains(x) <==> (self.has_node(x) && reaches(e, start@, x)) by {
                if self.has_node(x) && reaches(e, start@, x) {
                    let i = choose|i: int| 0 <= i < s.len() && s[i] == x;
                    assert(reached_before(s, e, start@, j as int, x));
                }
            }
        }
        found
    }
}

impl Dag {
    /// Appends to `out`, in order, the nodes whose membership in `set` is
    /// `members`; the ghost results map each such node's position to its
    /// position in `out`, and each appended position back to its node.
    fn select_nodes(&self, set: &Vec<package::Id>, members: bool, out: &mut Vec<package::Id>) -> (r: (
        Ghost<Seq<int>>,
        Ghost<Seq<int>>,
    ))
        ensures
            final(out)@.len() >= old(out)@.len(),
            forall|q: int| 0 <= q < old(out)@.len() ==> #[trigger] final(out)@[q] == old(out)@[q],
            r.0@.len() == self.nodes_view().len(),
            r.1@.len() == final(out)@.len() - old(out)@.len(),
            forall|a: int|
                0 <= a < self.nodes_view().len() && (ids_view(set@).contains(#[trigger] self.nodes_view()[a]) == members)
                    ==> old(out)@.len() <= r.0@[a] < final(out)@.len() && ids_view(final(out)@)[r.0@[a]]
                    == self.nodes_view()[a],
            forall|a: int, b: int|
                0 <= a < b < self.nodes_view().len() && ids_view(set@).contains(#[trigger] self.nodes_view()[a]) == members
                    && ids_view(set@).contains(#[trigger] self.nodes_view()[b]) == members ==> r.0@[a] < r.0@[b],
            forall|q: int|
                0 <= q < r.1@.len() ==> 0 <= #[trigger] r.1@[q] < self.nodes_view().len() && ids_view(set@).contains(
                    self.nodes_view()[r.1@[q]],
                ) == members && r.0@[r.1@[q]] == old(out)@.len() + q,
    {
        let ghost s = self.nodes_view();
        let ghost start = out@.len();
        let ghost o = out@;
        let ghost mut m: Seq<int> = Seq::empty();
        let ghost mut inv: Seq<int> = Seq::empty();
        let mut i: usize = 0;
        while i < self.nodes.len()
            invariant
                i <= self.nodes.len(),
                s == self.nodes_view(),
                s.len() == self.nodes.len(),
                m.len() == i,
                out@.len() >= start,
                start == o.len(),
                inv.len() == out@.len() - start,
                forall|q: int| 0 <= q < start ==> #[trigger] out@[q] == o[q],
                forall|a: int|
                    0 <= a < i && (ids_view(set@).contains(#[trigger] s[a]) == members) ==> start <= m[a] < out@.len()
                        && ids_view(out@)[m[a]] == s[a],
                forall|a: int, b: int|
                    0 <= a < b < i && ids_view(set@).contains(#[trigger] s[a]) == members && ids_view(set@).contains(
                        #[trigger] s[b],
                    ) == members ==> m[a] < m[b],
                forall|q: int|
                    0 <= q < inv.len() ==> 0 <= #[trigger] inv[q] < i && ids_view(set@).contains(s[inv[q]]) == members
                        && m[inv[q]] == start + q,
            decreases self.nodes.len() - i,
        {
            assert(s[i as int] == self.nodes@[i as int]@);
            let inside = Self::member(set, &self.nodes[i]);
            let ghost before_out = out@;
            let ghost old_m = m;
            let ghost old_inv = inv;
            if inside == members {
                let ghost pos = out@.len() as int;
                out.push(self.nodes[i].duplicate());
                proof {
                    m = m.push(pos);
                    inv = inv.push(i as int);
                    assert forall|q: int| 0 <= q < start implies #[trigger] out@[q] == o[q] by {
                        assert(out@[q] == before_out[q]);
                    }
                    assert forall|a: int|
                        0 <= a < i + 1 && (ids_view(set@).contains(#[trigger] s[a]) == members) implies start <= m[a]
                            < out@.len() && ids_view(out@)[m[a]] == s[a] by {
                        if a < i {
                            assert(m[a] == old_m[a]);
                            assert(out@[m[a]] == before_out[m[a]]);
                        } else {
                            assert(ids_view(out@)[pos] == out@[pos]@);
                        }
                    }
                    assert forall|q: int| 0 <= q < inv.len() implies 0 <= #[trigger] inv[q] < i + 1 && ids_view(
                        set@,
                    ).contains(s[inv[q]]) == members && m[inv[q]] == start + q by {
                        if q < old_inv.len() {
                            assert(inv[q] == old_inv[q]);
                            assert(m[old_inv[q]] == old_m[old_inv[q]]);
                        }
                    }
                }
            } else {
                proof {
                    m = m.push(-1);
                    assert forall|q: int| 0 <= q < inv.len() implies 0 <= #[trigger] inv[q] < i + 1 && ids_view(
                        set@,
                    ).contains(s[inv[q]]) == members && m[inv[q]] == start + q by {
                        assert(m[old_inv[q]] == old_m[old_inv[q]]);
                    }
                }
            }
            i = i + 1;
        }
        (Ghost(m), Ghost(inv))
    }

    /// The nodes outside `set`, then those inside, each group in order.
    fn partition(&self, set: &Vec<package::Id>) -> (r: Vec<package::Id>)
        requires
            self.wf(),
        ensures
            distinct(ids_view(r@)),
            forall|x: Seq<char>| #[trigger] ids_view(r@).contains(x) <==> self.has_node(x),
            forall|x: Seq<char>, y: Seq<char>|
                #[trigger] before(self.nodes_view(), x, y) && ids_view(set@).contains(x) == ids_view(set@).contains(y)
                    ==> #[trigger] before(ids_view(r@), x, y),
            forall|x: Seq<char>, y: Seq<char>|
                #[trigger] self.has_node(x) && #[trigger] self.has_node(y) && !ids_view(set@).contains(x) && ids_view(
                    set@,
                ).contains(y) ==> before(ids_view(r@), x, y),
    {
        let ghost s = self.nodes_view();
        let mut out: Vec<package::Id> = Vec::new();
        let (m1, inv1) = self.select_nodes(set, false, &mut out);
        let ghost mid = out@;
        let (m2, inv2) = self.select_nodes(set, true, &mut out);
        let ghost r = ids_view(out@);
        let ghost inset = |x: Seq<char>| ids_view(set@).contains(x);
        proof {
            // Where each node went.
            let pos = |a: int| if inset(s[a]) { m2@[a] } else { m1@[a] };
            assert forall|a: int| 0 <= a < s.len() implies 0 <= #[trigger] pos(a) < r.len() && r[pos(a)] == s[a] by {
                if inset(s[a]) {
                } else {
                    assert(out@[m1@[a]] == mid[m1@[a]]);
                }
            }
            // Every position is filled by exactly one node.
            assert forall|q: int| #![trigger r[q]] 0 <= q < r.len() implies exists|a: int| 0 <= a < s.len() && #[trigger] pos(a) == q && r[q] == s[a] by {
                if q < mid.len() {
                    let a = inv1@[q];
                    assert(pos(a) == q);
                    assert(out@[q] == mid[q]);
                } else {
                    let a = inv2@[q - mid.len()];
                    assert(pos(a) == q);
                }
            }
            assert forall|a: int, b: int| 0 <= a < b < s.len() implies #[trigger] pos(a) != #[trigger] pos(b) by {
                if inset(s[a]) && inset(s[b]) {
                    assert(m2@[a] < m2@[b]);
                } else if !inset(s[a]) && !inset(s[b]) {
                    assert(m1@[a] < m1@[b]);
                }
            }
            assert forall|i: int, j: int| 0 <= i < j < r.len() implies #[trigger] r[i] != #[trigger] r[j] by {
                assert(r[i] == r[i] && r[j] == r[j]);
                let a = choose|a: int| 0 <= a < s.len() && #[trigger] pos(a) == i && r[i] == s[a];
                let b = choose|b: int| 0 <= b < s.len() && #[trigger] pos(b) == j && r[j] == s[b];
                assert(a != b);
                if a < b {
                    assert(s[a] != s[b]);
                } else {
                    assert(s[b] != s[a]);
                }
            }
            assert forall|x: Seq<char>| #[trigger] r.contains(x) <==> self.has_node(x) by {
                if r.contains(x) {
                    let q = choose|q: int| 0 <= q < r.len() && r[q] == x;
                    let a = choose|a: int| 0 <= a < s.len() && #[trigger] pos(a) == q && r[q] == s[a];
                    assert(s[a] == x);
                }
                if self.has_node(x) {
                    let a = choose|a: int| 0 <= a < s.len() && s[a] == x;
                    assert(r[pos(a)] == x);
                }
            }
            assert forall|x: Seq<char>, y: Seq<char>|
                #[trigger] before(s, x, y) && inset(x) == inset(y) implies #[trigger] before(r, x, y) by {
                let (a, b) = choose|a: int, b: int| 0 <= a < b < s.len() && #[trigger] s[a] == x && #[trigger] s[b] == y;
                if inset(x) {
                    assert(m2@[a] < m2@[b]);
                } else {
                    assert(m1@[a] < m1@[b]);
                }
                assert(r[pos(a)] == x && r[pos(b)] == y);
            }
            assert forall|x: Seq<char>, y: Seq<char>|
                #[trigger] self.has_node(x) && #[trigger] self.has_node(y) && !inset(x) && inset(y) implies before(r, x, y) by {
                let a = choose|a: int| 0 <= a < s.len() && s[a] == x;
                let b = choose|b: int| 0 <= b < s.len() && s[b] == y;
                assert(pos(a) < mid.len() && pos(b) >= mid.len());
                assert(r[pos(a)] == x && r[pos(b)] == y);
            }
        }
        out
    }
}

impl Dag {
    /// Adds an edge from `a` to `b` unless it is there already or would
    /// close a cycle (`a` can be reached from `b`); says whether it was
    /// added.
    pub fn add_edge(&mut self, a: &package::Id, b: &package::Id) -> (added: bool)
        requires
            old(self).wf(),
            old(self).has_node(a@),
            old(self).has_node(b@),
        ensures
            final(self).wf(),
            forall|x: Seq<char>| #[trigger] final(self).has_node(x) <==> old(self).has_node(x),
            added == !(old(self).has_edge(a@, b@) || reaches(old(self).edges_view(), b@, a@)),
            added ==> final(self).edges_view() == old(self).edges_view().push((a@, b@)),
            !added ==> final(self).edges_view() == old(self).edges_view(),
    {
        if self.edge_exists(a, b) {
            return false;
        }
        let reached = self.reachable_from(b);
        if Self::member(&reached, a) {
            return false;
        }
        let ghost e = self.edges_view();
        let ghost s = self.nodes_view();
        let ghost rset = ids_view(reached@);
        let order = self.partition(&reached);
        proof {
            lemma_reaches_self(e, b@);
            assert(rset.contains(b@));
            assert(!rset.contains(a@));
        }
        self.nodes = order;
        let ghost s2 = self.nodes_view();
        self.edges.push((a.duplicate(), b.duplicate()));
        proof {
            assert(self.edges_view() =~= e.push((a@, b@)));
            assert(before(s2, a@, b@));
            lemma_edges_stay_forward(s, s2, e, rset, b@);
        }
        true
    }

    /// The nodes, in an order in which every edge points forward.
    pub fn topo(&self) -> (r: Vec<package::Id>)
        ensures
            ids_view(r@) == self.nodes_view(),
    {
        let mut out: Vec<package::Id> = Vec::new();
        let mut i: usize = 0;
        while i < self.nodes.len()
            invariant
                i <= self.nodes.len(),
                out.len() == i,
                ids_view(out@) == self.nodes_view().take(i as int),
            decreases self.nodes.len() - i,
        {
            out.push(self.nodes[i].duplicate());
            assert(ids_view(out@) =~= self.nodes_view().take(i + 1));
            i = i + 1;
        }
        assert(self.nodes_view().take(i as int) =~= self.nodes_view());
        out
    }

    /// The nodes from which some member of `targets` can be reached.
    fn reaching(&self, targets: &Vec<package::Id>) -> (r: Vec<package::Id>)
        requires
            self.wf(),
        ensures
            forall|x: Seq<char>|
                #[trigger] ids_view(r@).contains(x) <==> (self.has_node(x) && reaches_any(
                    self.edges_view(),
                    x,
                    ids_view(targets@),
                )),
    {
        let ghost e = self.edges_view();
        let ghost s = self.nodes_view();
        let ghost t = ids_view(targets@);
        let mut found: Vec<package::Id> = Vec::new();
        let mut j: usize = self.nodes.len();
        while j > 0
            invariant
                j <= self.nodes.len(),
                self.wf(),
                e == self.edges_view(),
                s == self.nodes_view(),
                t == ids_view(targets@),
                s.len() == self.nodes.len(),
                forall|x: Seq<char>| #[trigger] ids_view(found@).contains(x) <==> reaching_after(s, e, t, j as int, x),
            decreases j,
        {
            let z = &self.nodes[j - 1];
            assert(s[j - 1] == z@);
            let mut hit = Self::member(targets, z);
            proof {
                if hit {
                    lemma_reaches_self(e, z@);
                }
            }
            let mut k: usize = 0;
            while k < self.edges.len() && !hit
                invariant
                    k <= self.edges.len(),
                    e == self.edges_view(),
                    t == ids_view(targets@),
                    e.len() == self.edges.len(),
                    hit ==> reaches_any(e, z@, t),
                    !hit ==> !t.contains(z@),
                    !hit ==> forall|m: int|
                        0 <= m < k ==> !((#[trigger] e[m]).0 == z@ && ids_view(found@).contains(e[m].1)),
                    forall|x: Seq<char>| #[trigger] ids_view(found@).contains(x) ==> reaches_any(e, x, t),
                decreases self.edges.len() - k,
            {
                assert(e[k as int] == (self.edges@[k as int].0@, self.edges@[k as int].1@));
                if self.edges[k].0.same(z) && Self::member(&found, &self.edges[k].1) {
                    proof {
                        let y = e[k as int].1;
                        let w = choose|w: Seq<char>| #[trigger] t.contains(w) && reaches(e, y, w);
                        lemma_reaches_prepend(e, z@, y, w);
                    }
                    hit = true;
                }
                k = k + 1;
            }
            proof {
                if !hit {
                    lemma_no_edge_out(s, e, t, ids_view(found@), j - 1);
                }
            }
            let ghost prev = ids_view(found@);
            if hit {
                found.push(z.duplicate());
                assert(ids_view(found@) =~= prev.push(z@));
            } else {
                assert(ids_view(found@) == prev);
            }
            proof {
                lemma_reaching_step(s, e, t, prev, ids_view(found@), j - 1, hit);
            }
            j = j - 1;
        }
        proof {
            assert forall|x: Seq<char>|
                #[trigger] ids_view(found@).contains(x) <==> (self.has_node(x) && reaches_any(e, x, t)) by {
                if self.has_node(x) && reaches_any(e, x, t) {
                    let i = choose|i: int| 0 <= i < s.len() && s[i] == x;
                    assert(reaching_after(s, e, t, 0, x));
                }
            }
        }
        found
    }

    /// Removes the members of `packages` and every node from which one of
    /// them can be reached (the packages that depend on them), with their
    /// edges.
    pub fn remove_dependents(&mut self, packages: &Vec<package::Id>)
        requires
            old(self).wf(),
        ensures
            final(self).wf(),
            forall|x: Seq<char>|
                #[trigger] final(self).has_node(x) <==> (old(self).has_node(x) && !reaches_any(
                    old(self).edges_view(),
                    x,
                    ids_view(packages@),
                )),
            forall|x: Seq<char>, y: Seq<char>|
                #[trigger] final(self).has_edge(x, y) <==> (old(self).has_edge(x, y) && final(self).has_node(x)
                    && final(self).has_node(y)),
    {
        let ghost e = self.edges_view();
        let ghost s = self.nodes_view();
        let ghost t = ids_view(packages@);
        let gone = self.reaching(packages);
        let ghost g = ids_view(gone@);
        let mut kept: Vec<package::Id> = Vec::new();
        let (m, inv) = self.select_nodes(&gone, false, &mut kept);
        let ghost k2 = ids_view(kept@);
        proof {
            assert forall|x: Seq<char>| #[trigger] k2.contains(x) <==> (s.contains(x) && !g.contains(x)) by {
                if k2.contains(x) {
                    let q = choose|q: int| 0 <= q < k2.len() && k2[q] == x;
                    let a = inv@[q];
                    assert(s[a] == x);
                }
                if s.contains(x) && !g.contains(x) {
                    let a = choose|a: int| 0 <= a < s.len() && s[a] == x;
                    assert(k2[m@[a]] == x);
                }
            }
            assert forall|i: int, j: int| 0 <= i < j < k2.len() implies #[trigger] k2[i] != #[trigger] k2[j] by {
                let a = inv@[i];
                let b = inv@[j];
                assert(m@[a] == i && m@[b] == j);
                if a < b {
                    assert(s[a] != s[b]);
                } else if b < a {
                    assert(s[b] != s[a]);
                }
                assert(k2[i] == s[a] && k2[j] == s[b]);
            }
        }
        let mut edges: Vec<(package::Id, package::Id)> = Vec::new();
        let mut k: usize = 0;
        while k < self.edges.len()
            invariant
                k <= self.edges.len(),
                e == self.edges_view(),
                e.len() == self.edges.len(),
                g == ids_view(gone@),
                forall|q: int|
                    0 <= q < edges@.len() ==> e.contains(
                        #[trigger] edge_view(edges@[q]),
                    ) && !g.contains(edges@[q].0@) && !g.contains(edges@[q].1@),
                forall|q: int|
                    0 <= q < k && !g.contains((#[trigger] e[q]).0) && !g.contains(e[q].1) ==> exists|p: int|
                        0 <= p < edges@.len() && edge_view(edges@[p]) == e[q],
            decreases self.edges.len() - k,
        {
            assert(e[k as int] == (self.edges@[k as int].0@, self.edges@[k as int].1@));
            if !Self::member(&gone, &self.edges[k].0) && !Self::member(&gone, &self.edges[k].1) {
                let ghost before_edges = edges@;
                edges.push((self.edges[k].0.duplicate(), self.edges[k].1.duplicate()));
                proof {
                    assert forall|q: int|
                        0 <= q < k + 1 && !g.contains((#[trigger] e[q]).0) && !g.contains(e[q].1) implies exists|p: int|
                            0 <= p < edges@.len() && edge_view(edges@[p]) == e[q] by {
                        if q == k {
                            assert((edges@[before_edges.len() as int].0@, edges@[before_edges.len() as int].1@) == e[q]);
                        } else {
                            let p = choose|p: int| 0 <= p < before_edges.len() && edge_view(before_edges[p]) == e[q];
                            assert(edges@[p] == before_edges[p]);
                        }
                    }
                    assert forall|q: int| 0 <= q < edges@.len() implies e.contains(
                        #[trigger] edge_view(edges@[q]),
                    ) && !g.contains(edges@[q].0@) && !g.contains(edges@[q].1@) by {
                        if q < before_edges.len() {
                            assert(edges@[q] == before_edges[q]);
                        } else {
                            assert(e[k as int] == edge_view(edges@[q]));
                        }
                    }
                }
            }
            k = k + 1;
        }
        let ghost old_self = *self;
        self.nodes = kept;
        self.edges = edges;
        proof {
            assert(self.nodes_view() == k2);
            assert forall|x: Seq<char>, y: Seq<char>|
                #[trigger] self.has_edge(x, y) <==> (old_self.has_edge(x, y) && self.has_node(x) && self.has_node(y)) by {
                if self.has_edge(x, y) {
                    let q = choose|q: int| 0 <= q < self.edges_view().len() && self.edges_view()[q] == (x, y);
                    assert(self.edges_view()[q] == (self.edges@[q].0@, self.edges@[q].1@));
                    assert(e.contains((x, y)));
                    let i = choose|i: int| 0 <= i < e.len() && e[i] == (x, y);
                    assert(before(s, e[i].0, e[i].1));
                }
                if old_self.has_edge(x, y) && self.has_node(x) && self.has_node(y) {
                    let q = choose|q: int| 0 <= q < e.len() && e[q] == (x, y);
                    let p = choose|p: int| 0 <= p < self.edges@.len() && (self.edges@[p].0@, self.edges@[p].1@) == e[q];
                    assert(self.edges_view()[p] == (x, y));
                }
            }
            assert forall|q: int|
                0 <= q < self.edges_view().len() implies before(
                    k2,
                    (#[trigger] self.edges_view()[q]).0,
                    self.edges_view()[q].1,
                ) by {
                let x = self.edges_view()[q].0;
                let y = self.edges_view()[q].1;
                assert(self.edges_view()[q] == (self.edges@[q].0@, self.edges@[q].1@));
                assert(e.contains((x, y)));
                let i = choose|i: int| 0 <= i < e.len() && e[i] == (x, y);
                assert(before(s, e[i].0, e[i].1));
                let (a, b) = choose|a: int, b: int| 0 <= a < b < s.len() && #[trigger] s[a] == x && #[trigger] s[b] == y;
                assert(!g.contains(x) && !g.contains(y));
                assert(m@[a] < m@[b]);
                assert(k2[m@[a]] == x && k2[m@[b]] == y);
            }
        }
    }
}

/// `x` is one of the nodes of `s` from position `j` on, and reaches a
/// member of `t`.
pub open spec fn reaching_after(
    s: Seq<Seq<char>>,
    e: Seq<(Seq<char>, Seq<char>)>,
    t: Seq<Seq<char>>,
    j: int,
    x: Seq<char>,
) -> bool {
    exists|i: int| j <= i < s.len() && s[i] == x && reaches_any(e, x, t)
}

/// When no edge from the node at `j` enters a node known to reach a
/// target, and that node is no target itself, it reaches no target.
proof fn lemma_no_edge_out(
    s: Seq<Seq<char>>,
    e: Seq<(Seq<char>, Seq<char>)>,
    t: Seq<Seq<char>>,
    found: Seq<Seq<char>>,
    j: int,
)
    requires
        distinct(s),
        forall|k: int| 0 <= k < e.len() ==> before(s, (#[trigger] e[k]).0, e[k].1),
        0 <= j < s.len(),
        !t.contains(s[j]),
        forall|m: int| 0 <= m < e.len() ==> !((#[trigger] e[m]).0 == s[j] && found.contains(e[m].1)),
        forall|x: Seq<char>| #[trigger] found.contains(x) <==> reaching_after(s, e, t, j + 1, x),
    ensures
        !reaches_any(e, s[j], t),
{
    let z = s[j];
    if reaches_any(e, z, t) {
        let w = choose|w: Seq<char>| #[trigger] t.contains(w) && reaches(e, z, w);
        assert(z != w);
        lemma_reaches_first_edge(e, z, w);
        let y = choose|y: Seq<char>| #[trigger] e.contains((z, y)) && reaches(e, y, w);
        let m = choose|m: int| 0 <= m < e.len() && e[m] == (z, y);
        assert(before(s, e[m].0, e[m].1));
        let (a, b) = choose|a: int, b: int| 0 <= a < b < s.len() && #[trigger] s[a] == z && #[trigger] s[b] == y;
        assert(a == j) by {
            if a < j {
                assert(s[a] != s[j]);
            } else if a > j {
                assert(s[j] != s[a]);
            }
        }
        assert(reaches_any(e, y, t));
        assert(reaching_after(s, e, t, j + 1, y));
        assert(found.contains(y));
        assert(false);
    }
}

/// One more node of the order, going backwards, is decided.
proof fn lemma_reaching_step(
    s: Seq<Seq<char>>,
    e: Seq<(Seq<char>, Seq<char>)>,
    t: Seq<Seq<char>>,
    prev: Seq<Seq<char>>,
    next: Seq<Seq<char>>,
    j: int,
    hit: bool,
)
    requires
        0 <= j < s.len(),
        forall|x: Seq<char>| #[trigger] prev.contains(x) <==> reaching_after(s, e, t, j + 1, x),
        hit <==> reaches_any(e, s[j], t),
        hit ==> next == prev.push(s[j]),
        !hit ==> next == prev,
    ensures
        forall|x: Seq<char>| #[trigger] next.contains(x) <==> reaching_after(s, e, t, j, x),
{
    assert forall|x: Seq<char>| #[trigger] next.contains(x) <==> reaching_after(s, e, t, j, x) by {
        if next.contains(x) {
            if prev.contains(x) {
                let i = choose|i: int| j + 1 <= i < s.len() && s[i] == x && reaches_any(e, x, t);
                assert(j <= i < s.len() && s[i] == x && reaches_any(e, x, t));
            } else {
                let q = choose|q: int| 0 <= q < next.len() && next[q] == x;
                assert(q == prev.len());
                assert(x == s[j]);
                assert(j <= j < s.len() && s[j] == x && reaches_any(e, x, t));
            }
        }
        if reaching_after(s, e, t, j, x) {
            let i = choose|i: int| j <= i < s.len() && s[i] == x && reaches_any(e, x, t);
            if i == j {
                assert(next[prev.len() as int] == x);
            } else {
                assert(reaching_after(s, e, t, j + 1, x));
                assert(prev.contains(x));
                let q = choose|q: int| 0 <= q < prev.len() && prev[q] == x;
                assert(next[q] == x);
            }
        }
    }
}

/// A well-formed graph has no cycle: no node can be reached back from a
/// node it has an edge to, and the order of its nodes puts every node
/// before each node reachable from it.
pub proof fn lemma_acyclic(g: Dag, x: Seq<char>, y: Seq<char>)
    requires
        g.wf(),
    ensures
        g.has_edge(x, y) ==> !reaches(g.edges_view(), y, x),
        reaches(g.edges_view(), x, y) && x != y ==> before(g.nodes_view(), x, y),
{
    let s = g.nodes_view();
    let e = g.edges_view();
    if reaches(e, x, y) && x != y {
        lemma_forward_walk(s, e, x, y);
    }
    if g.has_edge(x, y) && reaches(e, y, x) {
        let k = choose|k: int| 0 <= k < e.len() && e[k] == (x, y);
        assert(before(s, e[k].0, e[k].1));
        let (i, j) = choose|i: int, j: int| 0 <= i < j < s.len() && #[trigger] s[i] == x && #[trigger] s[j] == y;
        if x == y {
            assert(s[i] != s[j]);
        } else {
            lemma_forward_walk(s, e, y, x);
            let (a, b) = choose|a: int, b: int| 0 <= a < b < s.len() && #[trigger] s[a] == y && #[trigger] s[b] == x;
            assert(a == j) by {
                if a < j {
                    assert(s[a] != s[j]);
                } else if a > j {
                    assert(s[j] != s[a]);
                }
            }
            assert(b == i) by {
                if b < i {
                    assert(s[b] != s[i]);
                } else if b > i {
                    assert(s[i] != s[b]);
                }
            }
        }
    }
}

/// `x` is one of the first `j` nodes of `s` and is reached from `start`.
pub open spec fn reached_before(
    s: Seq<Seq<char>>,
    e: Seq<(Seq<char>, Seq<char>)>,
    start: Seq<char>,
    j: int,
    x: Seq<char>,
) -> bool {
    exists|i: int| 0 <= i < j && s[i] == x && reaches(e, start, x)
}

/// When no edge from a reached node enters the node at `j`, and the nodes
/// before `j` that are reached are known, that node is not reached.
proof fn lemma_no_edge_in(
    s: Seq<Seq<char>>,
    e: Seq<(Seq<char>, Seq<char>)>,
    start: Seq<char>,
    found: Seq<Seq<char>>,
    j: int,
)
    requires
        distinct(s),
        forall|k: int| 0 <= k < e.len() ==> before(s, (#[trigger] e[k]).0, e[k].1),
        0 <= j < s.len(),
        s[j] != start,
        forall|m: int| 0 <= m < e.len() ==> !((#[trigger] e[m]).1 == s[j] && found.contains(e[m].0)),
        forall|x: Seq<char>| #[trigger] found.contains(x) <==> reached_before(s, e, start, j, x),
    ensures
        !reaches(e, start, s[j]),
{
    let z = s[j];
    if reaches(e, start, z) {
        lemma_reaches_last_edge(e, start, z);
        let y = choose|y: Seq<char>| #[trigger] e.contains((y, z)) && reaches(e, start, y);
        let m = choose|m: int| 0 <= m < e.len() && e[m] == (y, z);
        assert(before(s, e[m].0, e[m].1));
        let (a, b) = choose|a: int, b: int| 0 <= a < b < s.len() && #[trigger] s[a] == y && #[trigger] s[b] == z;
        assert(b == j) by {
            if b < j {
                assert(s[b] != s[j]);
            } else if b > j {
                assert(s[j] != s[b]);
            }
        }
        assert(reached_before(s, e, start, j, y));
        assert(found.contains(y));
        assert(false);
    }
}

/// One more node of the order is decided.
proof fn lemma_reached_step(
    s: Seq<Seq<char>>,
    e: Seq<(Seq<char>, Seq<char>)>,
    start: Seq<char>,
    prev: Seq<Seq<char>>,
    next: Seq<Seq<char>>,
    j: int,
    hit: bool,
)
    requires
        0 <= j < s.len(),
        forall|x: Seq<char>| #[trigger] prev.contains(x) <==> reached_before(s, e, start, j, x),
        hit <==> reaches(e, start, s[j]),
        hit ==> next == prev.push(s[j]),
        !hit ==> next == prev,
    ensures
        forall|x: Seq<char>| #[trigger] next.contains(x) <==> reached_before(s, e, start, j + 1, x),
{
    assert forall|x: Seq<char>| #[trigger] next.contains(x) <==> reached_before(s, e, start, j + 1, x) by {
        if next.contains(x) {
            if prev.contains(x) {
                let i = choose|i: int| 0 <= i < j && s[i] == x && reaches(e, start, x);
                assert(0 <= i < j + 1 && s[i] == x && reaches(e, start, x));
            } else {
                let q = choose|q: int| 0 <= q < next.len() && next[q] == x;
                assert(q == prev.len());
                assert(x == s[j]);
                assert(0 <= j < j + 1 && s[j] == x && reaches(e, start, x));
            }
        }
        if reached_before(s, e, start, j + 1, x) {
            let i = choose|i: int| 0 <= i < j + 1 && s[i] == x && reaches(e, start, x);
            if i == j {
                assert(next[prev.len() as int] == x);
            } else {
                assert(reached_before(s, e, start, j, x));
                assert(prev.contains(x));
                let q = choose|q: int| 0 <= q < prev.len() && prev[q] == x;
                assert(next[q] == x);
            }
        }
    }
}

} // verus!
