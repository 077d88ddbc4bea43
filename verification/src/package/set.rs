//! Sets of package identifiers, kept in lexicographic order.

use vstd::prelude::*;

use crate::package::{ids_view, Id};
use crate::select::dedup_by;
use crate::text::{compare_str, lemma_lex_transitive, lemma_lex_trichotomy, lex_lt, Comparison};

verus! {

/// `s` is strictly increasing in lexicographic order (hence free of
/// duplicates).
pub open spec fn strictly_increasing(s: Seq<Seq<char>>) -> bool {
    forall|i: int, j: int| 0 <= i < j < s.len() ==> lex_lt(#[trigger] s[i], #[trigger] s[j])
}

/// A set of package identifiers, iterated in lexicographic order.
#[derive(Debug, Clone)]
pub struct IdSet {
    items: Vec<Id>,
}

impl IdSet {
    /// The members, in increasing order.
    pub closed spec fn members(&self) -> Seq<Seq<char>> {
        ids_view(self.items@)
    }

    /// Members are kept in increasing order.
    pub open spec fn wf(&self) -> bool {
        strictly_increasing(self.members())
    }

    /// The empty set.
    pub fn new() -> (r: Self)
        ensures
            r.wf(),
            r.members().len() == 0,
    {
        let r = IdSet { items: Vec::new() };
        assert(r.members() =~= Seq::<Seq<char>>::empty());
        r
    }

    /// Number of members.
    pub fn len(&self) -> (n: usize)
        ensures
            n == self.members().len(),
    {
        self.items.len()
    }

    /// The member at position `i`.
    pub fn get(&self, i: usize) -> (r: &Id)
        requires
            i < self.members().len(),
        ensures
            r@ == self.members()[i as int],
    {
        &self.items[i]
    }

    /// The members, in increasing order.
    pub fn into_vec(self) -> (r: Vec<Id>)
        ensures
            ids_view(r@) == self.members(),
    {
        self.items
    }

    /// Whether `x` is a member.
    pub fn contains(&self, x: &Id) -> (r: bool)
        ensures
            r == self.members().contains(x@),
    {
        let mut i: usize = 0;
        while i < self.items.len()
            invariant
                i <= self.items.len(),
                forall|j: int| 0 <= j < i ==> self.members()[j] != x@,
            decreases self.items.len() - i,
        {
            if self.items[i].same(x) {
                assert(self.members()[i as int] == x@);
                return true;
            }
            i = i + 1;
        }
        false
    }

    /// Adds `x`; adding a member already present changes nothing.
    pub fn insert(&mut self, x: Id)
        requires
            old(self).wf(),
        ensures
            final(self).wf(),
            final(self).members().to_set() == old(self).members().to_set().insert(x@),
    {
        let ghost m = self.members();
        let ghost t = x@;
        let mut i: usize = 0;
        while i < self.items.len()
            invariant
                i <= self.items.len(),
                self.members() == m,
                m == old(self).members(),
                strictly_increasing(m),
                t == x@,
                forall|j: int| 0 <= j < i ==> lex_lt(#[trigger] m[j], t),
            decreases self.items.len() - i,
        {
            let c = compare_str(self.items[i].as_str(), x.as_str());
            assert(m[i as int] == self.items@[i as int]@);
            match c {
                Comparison::Less => {},
                Comparison::Equal => {
                    proof {
                        assert(m[i as int] == t);
                        assert(m.contains(t));
                        assert(m.to_set().insert(t) =~= m.to_set());
                    }
                    return;
                },
                Comparison::Greater => {
                    proof {
                        lemma_lex_trichotomy(m[i as int], t);
                    }
                    self.items.insert(i, x);
                    proof {
                        let nm = self.members();
                        assert(nm =~= m.insert(i as int, t));
                        assert forall|a: int, b: int| 0 <= a < b < nm.len() implies lex_lt(
                            #[trigger] nm[a],
                            #[trigger] nm[b],
                        ) by {
                            if a == i && b > i {
                                if b - 1 > i {
                                    lemma_lex_transitive(t, m[i as int], m[b - 1]);
                                }
                            }
                        }
                        assert forall|e| #[trigger] nm.to_set().contains(e) <==> m.to_set().insert(t).contains(e) by {
                            if nm.contains(e) {
                                let k = choose|k: int| 0 <= k < nm.len() && nm[k] == e;
                                if k < i {
                                    assert(m[k] == e);
                                } else if k > i {
                                    assert(m[k - 1] == e);
                                }
                            }
                            if m.contains(e) {
                                let k = choose|k: int| 0 <= k < m.len() && m[k] == e;
                                if k < i {
                                    assert(nm[k] == e);
                                } else {
                                    assert(nm[k + 1] == e);
                                }
                            }
                            if e == t {
                                assert(nm[i as int] == t);
                            }
                        }
                        assert(nm.to_set() =~= m.to_set().insert(t));
                    }
                    return;
                },
            }
            i = i + 1;
        }
        self.items.push(x);
        proof {
            let nm = self.members();
            assert(nm =~= m.push(t));
            m.lemma_push_to_set_commute(t);
            assert(nm.to_set() =~= m.to_set().insert(t));
        }
    }
}

/// Two strictly increasing sequences with the same members are identical.
pub proof fn lemma_increasing_unique(a: Seq<Seq<char>>, b: Seq<Seq<char>>)
    requires
        strictly_increasing(a),
        strictly_increasing(b),
        a.to_set() == b.to_set(),
    ensures
        a == b,
    decreases a.len(),
{
    if a.len() == 0 {
        if b.len() > 0 {
            assert(b.to_set().contains(b[0]));
            assert(!a.to_set().contains(b[0]));
        }
        assert(a =~= b);
    } else {
        assert(a.to_set().contains(a[0]));
        assert(b.contains(a[0]));
        assert(b.len() > 0);
        assert(b.to_set().contains(b[0]));
        assert(a.contains(b[0]));
        // The least members agree.
        let i = choose|i: int| 0 <= i < b.len() && b[i] == a[0];
        let j = choose|j: int| 0 <= j < a.len() && a[j] == b[0];
        if i > 0 {
            if j > 0 {
                lemma_lex_transitive(a[0], a[j], a[0]);
                lemma_lex_trichotomy(a[0], a[0]);
            } else {
                lemma_lex_trichotomy(b[0], b[0]);
            }
        }
        assert(a[0] == b[0]);
        let ta = a.drop_first();
        let tb = b.drop_first();
        assert forall|x| #[trigger] ta.to_set().contains(x) <==> tb.to_set().contains(x) by {
            if ta.contains(x) {
                let k = choose|k: int| 0 <= k < ta.len() && ta[k] == x;
                assert(a[k + 1] == x);
                assert(a.to_set().contains(x));
                assert(b.contains(x));
                let q = choose|q: int| 0 <= q < b.len() && b[q] == x;
                if q == 0 {
                    lemma_lex_trichotomy(a[0], a[k + 1]);
                }
                assert(tb[q - 1] == x);
            }
            if tb.contains(x) {
                let k = choose|k: int| 0 <= k < tb.len() && tb[k] == x;
                assert(b[k + 1] == x);
                assert(b.to_set().contains(x));
                assert(a.contains(x));
                let q = choose|q: int| 0 <= q < a.len() && a[q] == x;
                if q == 0 {
                    lemma_lex_trichotomy(b[0], b[k + 1]);
                }
                assert(ta[q - 1] == x);
            }
        }
        assert(ta.to_set() =~= tb.to_set());
        lemma_increasing_unique(ta, tb);
        assert(a =~= seq![a[0]] + ta);
        assert(b =~= seq![b[0]] + tb);
    }
}

/// `p` is where an item of key `x` enters `s`, ordered by `key`: after
/// every item whose key is not greater, before the first greater one.
pub open spec fn is_lex_entry<A>(s: Seq<A>, key: spec_fn(A) -> Seq<char>, x: Seq<char>, p: int) -> bool {
    &&& 0 <= p <= s.len()
    &&& (p < s.len() ==> lex_lt(x, key(s[p])))
    &&& forall|q: int| 0 <= q < p ==> !lex_lt(x, #[trigger] key(s[q]))
}

/// The position at which an item of key `x` enters `s`.
pub open spec fn lex_entry<A>(s: Seq<A>, key: spec_fn(A) -> Seq<char>, x: Seq<char>) -> int {
    choose|p: int| is_lex_entry(s, key, x, p)
}

/// `s` ordered lexicographically by `key`, items of equal key keeping the
/// order in which they came.
pub open spec fn sort_lex_by<A>(s: Seq<A>, key: spec_fn(A) -> Seq<char>) -> Seq<A>
    decreases s.len(),
{
    if s.len() == 0 {
        s
    } else {
        let rest = sort_lex_by(s.drop_last(), key);
        rest.insert(lex_entry(rest, key, key(s.last())), s.last())
    }
}

/// The identity on texts, as a key.
pub open spec fn text_key() -> spec_fn(Seq<char>) -> Seq<char> {
    |x: Seq<char>| x
}

/// Texts in lexicographic order, equal texts keeping their order.
pub open spec fn sort_lex(s: Seq<Seq<char>>) -> Seq<Seq<char>> {
    sort_lex_by(s, text_key())
}

/// No item of `s` has a key greater than that of an item after it.
pub open spec fn lex_sorted_by<A>(s: Seq<A>, key: spec_fn(A) -> Seq<char>) -> bool {
    forall|i: int, j: int| 0 <= i < j < s.len() ==> !lex_lt(#[trigger] key(s[j]), #[trigger] key(s[i]))
}

proof fn lemma_lex_entry_below<A>(s: Seq<A>, key: spec_fn(A) -> Seq<char>, x: Seq<char>, j: int)
    requires
        0 <= j <= s.len(),
        j < s.len() ==> lex_lt(x, key(s[j])),
    ensures
        exists|p: int| is_lex_entry(s, key, x, p),
    decreases j,
{
    if forall|q: int| 0 <= q < j ==> !lex_lt(x, #[trigger] key(s[q])) {
        assert(is_lex_entry(s, key, x, j));
    } else {
        let q = choose|q: int| 0 <= q < j && lex_lt(x, #[trigger] key(s[q]));
        lemma_lex_entry_below(s, key, x, q);
    }
}

/// The entry point exists and is the only position with its property.
pub proof fn lemma_lex_entry<A>(s: Seq<A>, key: spec_fn(A) -> Seq<char>, x: Seq<char>)
    ensures
        is_lex_entry(s, key, x, lex_entry(s, key, x)),
        forall|p: int| #[trigger] is_lex_entry(s, key, x, p) ==> p == lex_entry(s, key, x),
{
    lemma_lex_entry_below(s, key, x, s.len() as int);
    let e = lex_entry(s, key, x);
    assert forall|p: int| #[trigger] is_lex_entry(s, key, x, p) implies p == e by {
        if p < e {
            assert(!lex_lt(x, key(s[p])));
        }
        if e < p {
            assert(!lex_lt(x, key(s[e])));
        }
    }
}

/// Sorting keeps the items and puts them in lexicographic order of their
/// keys.
pub proof fn lemma_sort_lex_by<A>(s: Seq<A>, key: spec_fn(A) -> Seq<char>)
    ensures
        lex_sorted_by(sort_lex_by(s, key), key),
        sort_lex_by(s, key).to_multiset() == s.to_multiset(),
        sort_lex_by(s, key).len() == s.len(),
    decreases s.len(),
{
    broadcast use vstd::multiset::group_multiset_axioms;
    if s.len() > 0 {
        let rest = sort_lex_by(s.drop_last(), key);
        lemma_sort_lex_by(s.drop_last(), key);
        let x = s.last();
        let kx = key(x);
        lemma_lex_entry(rest, key, kx);
        let p = lex_entry(rest, key, kx);
        let out = rest.insert(p, x);
        assert(out == sort_lex_by(s, key));
        assert forall|i: int, j: int| 0 <= i < j < out.len() implies !lex_lt(
            #[trigger] key(out[j]),
            #[trigger] key(out[i]),
        ) by {
            if j < p {
                assert(out[i] == rest[i] && out[j] == rest[j]);
            } else if j == p {
                assert(out[i] == rest[i]);
            } else if i == p {
                assert(out[j] == rest[j - 1]);
                if j - 1 > p {
                    assert(!lex_lt(key(rest[j - 1]), key(rest[p])));
                    lemma_lex_trichotomy(key(rest[p]), key(rest[j - 1]));
                    if key(rest[p]) != key(rest[j - 1]) {
                        lemma_lex_transitive(kx, key(rest[p]), key(rest[j - 1]));
                    }
                }
                lemma_lex_trichotomy(kx, key(rest[j - 1]));
            } else if i < p {
                assert(out[i] == rest[i] && out[j] == rest[j - 1]);
            } else {
                assert(out[i] == rest[i - 1] && out[j] == rest[j - 1]);
            }
        }
        assert(out =~= rest.subrange(0, p) + seq![x] + rest.subrange(p, rest.len() as int));
        assert(rest =~= rest.subrange(0, p) + rest.subrange(p, rest.len() as int));
        vstd::seq_lib::lemma_multiset_commutative(rest.subrange(0, p), rest.subrange(p, rest.len() as int));
        vstd::seq_lib::lemma_multiset_commutative(rest.subrange(0, p) + seq![x], rest.subrange(p, rest.len() as int));
        vstd::seq_lib::lemma_multiset_commutative(rest.subrange(0, p), seq![x]);
        assert(s =~= s.drop_last().push(x));
        vstd::seq_lib::lemma_multiset_commutative(s.drop_last(), seq![x]);
        assert(s.drop_last() + seq![x] =~= s);
        assert(seq![x].to_multiset() =~= vstd::multiset::Multiset::empty().insert(x)) by {
            broadcast use vstd::seq_lib::group_to_multiset_ensures;
            assert(seq![x] =~= Seq::<A>::empty().push(x));
        }
        assert(out.to_multiset() =~= s.to_multiset());
    }
}

/// The items `dedup_by` keeps are items of `s`.
pub proof fn lemma_dedup_items<A>(s: Seq<A>, key: spec_fn(A) -> Seq<char>)
    ensures
        forall|i: int| 0 <= i < dedup_by(s, key).len() ==> s.contains(#[trigger] dedup_by(s, key)[i]),
    decreases s.len(),
{
    if s.len() > 0 {
        let d = dedup_by(s.drop_last(), key);
        lemma_dedup_items(s.drop_last(), key);
        assert forall|i: int| 0 <= i < dedup_by(s, key).len() implies s.contains(#[trigger] dedup_by(s, key)[i]) by {
            if i < d.len() {
                let k = choose|k: int| 0 <= k < s.drop_last().len() && s.drop_last()[k] == d[i];
                assert(s[k] == d[i]);
            } else {
                assert(s[s.len() - 1] == s.last());
            }
        }
    }
}

/// Every key of `s` is the key of an item `dedup_by` keeps, and every kept
/// item is an item of `s`.
pub proof fn lemma_dedup_members<A>(s: Seq<A>, key: spec_fn(A) -> Seq<char>)
    ensures
        forall|i: int|
            0 <= i < s.len() ==> exists|j: int|
                0 <= j < dedup_by(s, key).len() && #[trigger] key(dedup_by(s, key)[j]) == key(#[trigger] s[i]),
        forall|j: int| 0 <= j < dedup_by(s, key).len() ==> s.contains(#[trigger] dedup_by(s, key)[j]),
    decreases s.len(),
{
    lemma_dedup_items(s, key);
    if s.len() > 0 {
        let p = s.drop_last();
        lemma_dedup_members(p, key);
        let d = dedup_by(p, key);
        let r = dedup_by(s, key);
        assert(r == if d.len() > 0 && key(d.last()) == key(s.last()) {
            d
        } else {
            d.push(s.last())
        });
        assert forall|i: int| 0 <= i < s.len() implies exists|j: int|
            0 <= j < r.len() && #[trigger] key(r[j]) == key(#[trigger] s[i]) by {
            if i < s.len() - 1 {
                assert(p[i] == s[i]);
                assert(exists|j: int| 0 <= j < d.len() && #[trigger] key(d[j]) == key(#[trigger] p[i]));
                let j = choose|j: int| 0 <= j < d.len() && #[trigger] key(d[j]) == key(#[trigger] p[i]);
                assert(r[j] == d[j]);
                assert(key(r[j]) == key(s[i]));
            } else if d.len() > 0 && key(d.last()) == key(s.last()) {
                let j = d.len() - 1;
                assert(r[j] == d.last());
                assert(s[i] == s.last());
                assert(key(r[j]) == key(s[i]));
            } else {
                let j = d.len() as int;
                assert(r[j] == s.last());
                assert(s[i] == s.last());
                assert(key(r[j]) == key(s[i]));
            }
        }
    }
}

/// Keeping the first of each run of equal keys in a sequence ordered by key
/// leaves keys in strictly increasing order.
pub proof fn lemma_dedup_sorted<A>(s: Seq<A>, key: spec_fn(A) -> Seq<char>)
    requires
        lex_sorted_by(s, key),
    ensures
        forall|i: int, j: int|
            0 <= i < j < dedup_by(s, key).len() ==> lex_lt(
                #[trigger] key(dedup_by(s, key)[i]),
                #[trigger] key(dedup_by(s, key)[j]),
            ),
    decreases s.len(),
{
    if s.len() > 0 {
        let p = s.drop_last();
        assert(lex_sorted_by(p, key)) by {
            assert forall|i: int, j: int| 0 <= i < j < p.len() implies !lex_lt(#[trigger] key(p[j]), #[trigger] key(p[i])) by {
                assert(p[i] == s[i] && p[j] == s[j]);
            }
        }
        lemma_dedup_sorted(p, key);
        lemma_dedup_items(p, key);
        let d = dedup_by(p, key);
        let x = s.last();
        let r = dedup_by(s, key);
        if !(d.len() > 0 && key(d.last()) == key(x)) {
            assert(r == d.push(x));
            assert forall|i: int, j: int| 0 <= i < j < r.len() implies lex_lt(#[trigger] key(r[i]), #[trigger] key(r[j])) by {
                if j == r.len() - 1 {
                    let last = d.len() - 1;
                    assert(p.contains(d[last]));
                    let k = choose|k: int| 0 <= k < p.len() && p[k] == d[last];
                    assert(!lex_lt(key(x), key(s[k])));
                    lemma_lex_trichotomy(key(d[last]), key(x));
                    if i < last {
                        assert(lex_lt(key(d[i]), key(d[last])));
                        lemma_lex_transitive(key(d[i]), key(d[last]), key(x));
                    }
                } else {
                    assert(r[i] == d[i] && r[j] == d[j]);
                }
            }
        }
    }
}

/// Something ordered and told apart by a text key.
pub trait Named: View + Sized {
    /// The key of a value, from its view.
    spec fn key_of(v: Self::V) -> Seq<char>;

    /// The key.
    fn key(&self) -> (r: &str)
        ensures
            r@ == Self::key_of(self@),
    ;
}

impl Named for String {
    open spec fn key_of(v: Seq<char>) -> Seq<char> {
        v
    }

    fn key(&self) -> (r: &str) {
        self.as_str()
    }
}

/// Whether `a`'s key sorts strictly before `b`'s.
fn key_lt<T: Named>(a: &T, b: &T) -> (r: bool)
    ensures
        r == lex_lt(T::key_of(a@), T::key_of(b@)),
{
    match compare_str(a.key(), b.key()) {
        Comparison::Less => true,
        _ => false,
    }
}

/// Sorts `items` lexicographically by key; items of equal key keep their
/// order.
pub fn sort_named<T: Named>(items: Vec<T>) -> (r: Vec<T>)
    ensures
        r@.map_values(|t: T| t@) == sort_lex_by(items@.map_values(|t: T| t@), |v: T::V| T::key_of(v)),
{
    let ghost key = |v: T::V| T::key_of(v);
    let ghost orig = items@.map_values(|t: T| t@);
    let mut rest = items;
    let mut out: Vec<T> = Vec::new();
    let ghost mut k: int = 0;
    assert(orig.take(0) =~= Seq::<T::V>::empty());
    assert(out@.map_values(|t: T| t@) =~= Seq::<T::V>::empty());
    while rest.len() > 0
        invariant
            0 <= k <= orig.len(),
            key == (|v: T::V| T::key_of(v)),
            rest@.map_values(|t: T| t@) == orig.skip(k),
            out@.map_values(|t: T| t@) == sort_lex_by(orig.take(k), key),
            orig.len() == k + rest.len(),
        decreases rest.len(),
    {
        let ghost before = out@.map_values(|t: T| t@);
        let ghost rest_before = rest@;
        let x = rest.remove(0);
        assert(x@ == orig[k]) by {
            assert(orig.skip(k)[0] == orig[k]);
        }
        let mut i: usize = 0;
        while i < out.len() && !key_lt(&x, &out[i])
            invariant
                i <= out.len(),
                key == (|v: T::V| T::key_of(v)),
                out@.map_values(|t: T| t@) == before,
                forall|q: int| 0 <= q < i ==> !lex_lt(T::key_of(x@), #[trigger] key(before[q])),
            decreases out.len() - i,
        {
            assert(before[i as int] == out@[i as int]@);
            i = i + 1;
        }
        proof {
            if i < out.len() {
                assert(before[i as int] == out@[i as int]@);
            }
            assert(is_lex_entry(before, key, key(x@), i as int));
            lemma_lex_entry(before, key, key(x@));
        }
        let ghost xv = x@;
        out.insert(i, x);
        proof {
            assert(orig.take(k + 1).drop_last() =~= orig.take(k));
            assert(orig.take(k + 1).last() == orig[k]);
            assert(out@.map_values(|t: T| t@) =~= before.insert(i as int, xv));
            assert forall|q: int| 0 <= q < rest@.len() implies rest@[q]@ == orig.skip(k + 1)[q] by {
                assert(rest@[q] == rest_before[q + 1]);
                assert(rest_before.map_values(|t: T| t@)[q + 1] == orig.skip(k)[q + 1]);
            }
            assert(rest@.map_values(|t: T| t@) =~= orig.skip(k + 1));
            k = k + 1;
        }
    }
    assert(orig.take(k) =~= orig);
    out
}

/// Keeps the first of each run of items with the same key.
pub fn dedup_named<T: Named>(items: Vec<T>) -> (r: Vec<T>)
    ensures
        r@.map_values(|t: T| t@) == dedup_by(items@.map_values(|t: T| t@), |v: T::V| T::key_of(v)),
{
    let ghost key = |v: T::V| T::key_of(v);
    let ghost orig = items@.map_values(|t: T| t@);
    let mut out: Vec<T> = Vec::new();
    let mut rest = items;
    let ghost mut k: int = 0;
    assert(orig.take(0) =~= Seq::<T::V>::empty());
    assert(out@.map_values(|t: T| t@) =~= Seq::<T::V>::empty());
    while rest.len() > 0
        invariant
            0 <= k <= orig.len(),
            key == (|v: T::V| T::key_of(v)),
            rest@.map_values(|t: T| t@) == orig.skip(k),
            out@.map_values(|t: T| t@) == dedup_by(orig.take(k), key),
            orig.len() == k + rest.len(),
        decreases rest.len(),
    {
        let ghost before = out@.map_values(|t: T| t@);
        let ghost rest_before = rest@;
        let x = rest.remove(0);
        assert(x@ == orig[k]) by {
            assert(orig.skip(k)[0] == orig[k]);
        }
        let keep = if out.len() == 0 {
            true
        } else {
            let last = out.len() - 1;
            assert(before[last as int] == out@[last as int]@);
            !crate::text::str_equal(out[last].key(), x.key())
        };
        let ghost xv = x@;
        if keep {
            out.push(x);
            assert(out@.map_values(|t: T| t@) =~= before.push(xv));
        }
        proof {
            assert(orig.take(k + 1).drop_last() =~= orig.take(k));
            assert(orig.take(k + 1).last() == orig[k]);
            assert forall|q: int| 0 <= q < rest@.len() implies rest@[q]@ == orig.skip(k + 1)[q] by {
                assert(rest@[q] == rest_before[q + 1]);
                assert(rest_before.map_values(|t: T| t@)[q + 1] == orig.skip(k)[q + 1]);
            }
            assert(rest@.map_values(|t: T| t@) =~= orig.skip(k + 1));
            k = k + 1;
        }
    }
    assert(orig.take(k) =~= orig);
    out
}

/// Whether identifier `a` sorts strictly before `b`.
fn id_lt(a: &Id, b: &Id) -> (r: bool)
    ensures
        r == lex_lt(a@, b@),
{
    match compare_str(a.as_str(), b.as_str()) {
        Comparison::Less => true,
        _ => false,
    }
}

/// Sorts identifiers lexicographically; equal identifiers keep their order.
pub fn sort_ids(ids: Vec<Id>) -> (r: Vec<Id>)
    ensures
        ids_view(r@) == sort_lex(ids_view(ids@)),
{
    let ghost orig = ids_view(ids@);
    let mut rest = ids;
    let mut out: Vec<Id> = Vec::new();
    let ghost mut k: int = 0;
    assert(orig.take(0) =~= Seq::<Seq<char>>::empty());
    assert(ids_view(out@) =~= Seq::<Seq<char>>::empty());
    while rest.len() > 0
        invariant
            0 <= k <= orig.len(),
            ids_view(rest@) == orig.skip(k),
            ids_view(out@) == sort_lex_by(orig.take(k), text_key()),
            orig.len() == k + rest.len(),
        decreases rest.len(),
    {
        let ghost before = ids_view(out@);
        let ghost rest_before = rest@;
        let x = rest.remove(0);
        assert(x@ == orig[k]) by {
            assert(orig.skip(k)[0] == orig[k]);
        }
        let mut i: usize = 0;
        while i < out.len() && !id_lt(&x, &out[i])
            invariant
                i <= out.len(),
                ids_view(out@) == before,
                forall|q: int| 0 <= q < i ==> !lex_lt(x@, #[trigger] text_key()(before[q])),
            decreases out.len() - i,
        {
            assert(before[i as int] == out@[i as int]@);
            i = i + 1;
        }
        proof {
            if i < out.len() {
                assert(before[i as int] == out@[i as int]@);
            }
            assert(is_lex_entry(before, text_key(), x@, i as int));
            lemma_lex_entry(before, text_key(), x@);
        }
        let ghost xv = x@;
        out.insert(i, x);
        proof {
            assert(orig.take(k + 1).drop_last() =~= orig.take(k));
            assert(orig.take(k + 1).last() == orig[k]);
            assert(ids_view(out@) =~= before.insert(i as int, xv));
            assert forall|q: int| 0 <= q < rest@.len() implies rest@[q]@ == orig.skip(k + 1)[q] by {
                assert(rest@[q] == rest_before[q + 1]);
                assert(ids_view(rest_before)[q + 1] == orig.skip(k)[q + 1]);
            }
            assert(ids_view(rest@) =~= orig.skip(k + 1));
            k = k + 1;
        }
    }
    assert(orig.take(k) =~= orig);
    out
}

} // verus!
