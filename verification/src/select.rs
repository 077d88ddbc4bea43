//! Selecting from sequences: the first item that satisfies a predicate, and
//! the concatenation of the lists that each item yields.

use vstd::prelude::*;

verus! {

/// `i` is the first position of `s` whose item satisfies `pred`.
pub open spec fn is_first<A>(s: Seq<A>, pred: spec_fn(A) -> bool, i: int) -> bool {
    &&& 0 <= i < s.len()
    &&& pred(s[i])
    &&& forall|j: int| 0 <= j < i ==> !pred(#[trigger] s[j])
}

/// The first position of `s` whose item satisfies `pred`, if any.
pub open spec fn first_index<A>(s: Seq<A>, pred: spec_fn(A) -> bool) -> Option<int> {
    if exists|i: int| is_first(s, pred, i) {
        Some(choose|i: int| is_first(s, pred, i))
    } else {
        None
    }
}

/// The first item of `s` that satisfies `pred`, if any.
pub open spec fn first_where<A>(s: Seq<A>, pred: spec_fn(A) -> bool) -> Option<A> {
    match first_index(s, pred) {
        Some(i) => Some(s[i]),
        None => None,
    }
}

/// The first position with the property is the one `first_index` gives.
pub proof fn lemma_first_index<A>(s: Seq<A>, pred: spec_fn(A) -> bool, i: int)
    requires
        is_first(s, pred, i),
    ensures
        first_index(s, pred) == Some(i),
{
    let k = choose|k: int| is_first(s, pred, k);
    assert(k == i) by {
        if k < i {
            assert(!pred(s[k]));
        }
        if i < k {
            assert(!pred(s[i]));
        }
    }
}

/// No item satisfies the predicate: there is no first one.
pub proof fn lemma_first_index_none<A>(s: Seq<A>, pred: spec_fn(A) -> bool)
    requires
        forall|j: int| 0 <= j < s.len() ==> !pred(#[trigger] s[j]),
    ensures
        first_index(s, pred) is None,
{
}

/// The list of an optional item.
pub open spec fn opt_seq<A>(o: Option<A>) -> Seq<A> {
    match o {
        Some(x) => seq![x],
        None => Seq::empty(),
    }
}

/// The lists that the items of `s` yield under `f`, one after another.
pub open spec fn concat_map<A, B>(s: Seq<A>, f: spec_fn(A) -> Seq<B>) -> Seq<B>
    decreases s.len(),
{
    if s.len() == 0 {
        Seq::empty()
    } else {
        concat_map(s.drop_last(), f) + f(s.last())
    }
}

/// One more item adds its list at the end.
pub proof fn lemma_concat_map_step<A, B>(s: Seq<A>, f: spec_fn(A) -> Seq<B>, i: int)
    requires
        0 <= i < s.len(),
    ensures
        concat_map(s.take(i + 1), f) == concat_map(s.take(i), f) + f(s[i]),
{
    assert(s.take(i + 1).drop_last() =~= s.take(i));
}

/// The first item of a concatenation comes from the first item of `s`
/// whose list is not empty.
pub proof fn lemma_concat_map_first<A, B>(s: Seq<A>, f: spec_fn(A) -> Seq<B>, i: int)
    requires
        is_first(s, |a: A| f(a).len() > 0, i),
    ensures
        concat_map(s, f).len() > 0,
        concat_map(s, f)[0] == f(s[i])[0],
    decreases s.len(),
{
    let last = s.len() - 1;
    if i < last {
        let d = s.drop_last();
        assert(is_first(d, |a: A| f(a).len() > 0, i)) by {
            assert forall|j: int| 0 <= j < i implies !(|a: A| f(a).len() > 0)(#[trigger] d[j]) by {
                assert(d[j] == s[j]);
            }
        }
        lemma_concat_map_first(d, f, i);
    } else {
        let d = s.drop_last();
        lemma_concat_map_empty(d, f);
    }
}

/// Items whose lists are all empty yield nothing.
pub proof fn lemma_concat_map_empty<A, B>(s: Seq<A>, f: spec_fn(A) -> Seq<B>)
    requires
        forall|j: int| 0 <= j < s.len() ==> f(#[trigger] s[j]).len() == 0,
    ensures
        concat_map(s, f).len() == 0,
    decreases s.len(),
{
    if s.len() > 0 {
        let d = s.drop_last();
        assert forall|j: int| 0 <= j < d.len() implies f(#[trigger] d[j]).len() == 0 by {
            assert(d[j] == s[j]);
        }
        lemma_concat_map_empty(d, f);
        assert(f(s[s.len() - 1]).len() == 0);
    }
}

/// Changing an item that does not satisfy the predicate into another that
/// does not keeps the first item that does.
pub proof fn lemma_first_where_update<A>(s: Seq<A>, pred: spec_fn(A) -> bool, i: int, x: A)
    requires
        0 <= i < s.len(),
        !pred(s[i]),
        !pred(x),
    ensures
        first_where(s.update(i, x), pred) == first_where(s, pred),
{
    let t = s.update(i, x);
    if exists|k: int| is_first(s, pred, k) {
        let k = choose|k: int| is_first(s, pred, k);
        lemma_first_index(s, pred, k);
        assert(is_first(t, pred, k)) by {
            assert forall|j: int| 0 <= j < k implies !pred(#[trigger] t[j]) by {
                if j != i {
                    assert(t[j] == s[j]);
                }
            }
        }
        lemma_first_index(t, pred, k);
    } else {
        assert forall|j: int| 0 <= j < t.len() implies !pred(#[trigger] t[j]) by {
            if j != i {
                assert(t[j] == s[j]);
                if pred(s[j]) {
                    lemma_first_exists(s, pred, j);
                }
            }
        }
        lemma_first_index_none(t, pred);
    }
}

/// An item satisfying the predicate implies a first one.
pub proof fn lemma_first_exists<A>(s: Seq<A>, pred: spec_fn(A) -> bool, j: int)
    requires
        0 <= j < s.len(),
        pred(s[j]),
    ensures
        exists|i: int| is_first(s, pred, i),
    decreases j,
{
    if forall|k: int| 0 <= k < j ==> !pred(#[trigger] s[k]) {
        assert(is_first(s, pred, j));
    } else {
        let k = choose|k: int| 0 <= k < j && pred(#[trigger] s[k]);
        lemma_first_exists(s, pred, k);
    }
}

/// Adding an item at the end changes the first match only when there was
/// none.
pub proof fn lemma_first_where_push<A>(s: Seq<A>, pred: spec_fn(A) -> bool, x: A)
    ensures
        first_where(s.push(x), pred) == (if first_where(s, pred) is Some {
            first_where(s, pred)
        } else if pred(x) {
            Some(x)
        } else {
            None
        }),
{
    let t = s.push(x);
    if exists|k: int| is_first(s, pred, k) {
        let k = choose|k: int| is_first(s, pred, k);
        lemma_first_index(s, pred, k);
        assert(is_first(t, pred, k)) by {
            assert forall|j: int| 0 <= j < k implies !pred(#[trigger] t[j]) by {
                assert(t[j] == s[j]);
            }
        }
        lemma_first_index(t, pred, k);
    } else {
        assert forall|j: int| 0 <= j < s.len() implies !pred(#[trigger] s[j]) by {
            if pred(s[j]) {
                lemma_first_exists(s, pred, j);
            }
        }
        if pred(x) {
            assert(is_first(t, pred, s.len() as int)) by {
                assert forall|j: int| 0 <= j < s.len() implies !pred(#[trigger] t[j]) by {
                    assert(t[j] == s[j]);
                }
            }
            lemma_first_index(t, pred, s.len() as int);
        } else {
            assert forall|j: int| 0 <= j < t.len() implies !pred(#[trigger] t[j]) by {
                if j < s.len() {
                    assert(t[j] == s[j]);
                }
            }
            lemma_first_index_none(t, pred);
        }
    }
}

/// An item of a concatenation comes from the list of some item.
pub proof fn lemma_concat_map_contains<A, B>(s: Seq<A>, f: spec_fn(A) -> Seq<B>, e: B)
    requires
        concat_map(s, f).contains(e),
    ensures
        exists|i: int| 0 <= i < s.len() && #[trigger] f(s[i]).contains(e),
    decreases s.len(),
{
    let d = s.drop_last();
    let c = concat_map(d, f);
    let l = f(s.last());
    let k = choose|k: int| 0 <= k < concat_map(s, f).len() && concat_map(s, f)[k] == e;
    if k < c.len() {
        assert(c[k] == e);
        lemma_concat_map_contains(d, f, e);
        let i = choose|i: int| 0 <= i < d.len() && #[trigger] f(d[i]).contains(e);
        assert(d[i] == s[i]);
    } else {
        assert(l[k - c.len()] == e);
        assert(f(s[s.len() - 1]).contains(e));
    }
}

/// The list of each item is part of the concatenation.
pub proof fn lemma_concat_map_includes<A, B>(s: Seq<A>, f: spec_fn(A) -> Seq<B>, i: int, e: B)
    requires
        0 <= i < s.len(),
        f(s[i]).contains(e),
    ensures
        concat_map(s, f).contains(e),
    decreases s.len(),
{
    let d = s.drop_last();
    let c = concat_map(d, f);
    if i < s.len() - 1 {
        assert(d[i] == s[i]);
        lemma_concat_map_includes(d, f, i, e);
        let k = choose|k: int| 0 <= k < c.len() && c[k] == e;
        assert(concat_map(s, f)[k] == e);
    } else {
        let l = f(s.last());
        let k = choose|k: int| 0 <= k < l.len() && l[k] == e;
        assert(concat_map(s, f)[c.len() + k] == e);
    }
}

/// Filtering a concatenation filters each part.
pub proof fn lemma_filter_map_add<A, B>(a: Seq<A>, b: Seq<A>, f: spec_fn(A) -> Option<B>)
    ensures
        (a + b).filter_map(f) == a.filter_map(f) + b.filter_map(f),
    decreases b.len(),
{
    if b.len() == 0 {
        assert(a + b =~= a);
        assert(a.filter_map(f) + b.filter_map(f) =~= a.filter_map(f));
    } else {
        let d = b.drop_last();
        lemma_filter_map_add(a, d, f);
        assert((a + b).drop_last() =~= a + d);
        assert((a + b).last() == b.last());
        match f(b.last()) {
            Some(x) => {
                assert((a + b).filter_map(f) =~= (a + d).filter_map(f) + seq![x]);
                assert(b.filter_map(f) =~= d.filter_map(f) + seq![x]);
                assert((a + b).filter_map(f) =~= a.filter_map(f) + b.filter_map(f));
            },
            None => {
                assert((a + b).filter_map(f) =~= (a + d).filter_map(f));
                assert(b.filter_map(f) =~= d.filter_map(f));
            },
        }
    }
}

/// `s` without the items whose key equals that of the last item kept
/// before them (consecutive items of equal key keep only the first).
pub open spec fn dedup_by<A>(s: Seq<A>, key: spec_fn(A) -> Seq<char>) -> Seq<A>
    decreases s.len(),
{
    if s.len() == 0 {
        s
    } else {
        let d = dedup_by(s.drop_last(), key);
        if d.len() > 0 && key(d.last()) == key(s.last()) {
            d
        } else {
            d.push(s.last())
        }
    }
}

} // verus!
