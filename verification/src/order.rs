//! Ordering of ranked items: highest rank first, items of equal rank in the
//! order in which they came.

use vstd::prelude::*;

verus! {

/// An item ordered by a pair of integers, compared lexicographically. The
/// rank is a function of the item's view.
pub trait Ranked: View + Sized {
    spec fn rank_of_view(v: Self::V) -> (u64, u64);

    fn rank(&self) -> (r: (u64, u64))
        ensures
            r == Self::rank_of_view(self@),
    ;
}

/// `a` ranks strictly above `b`.
pub open spec fn ranks_above(a: (u64, u64), b: (u64, u64)) -> bool {
    a.0 > b.0 || (a.0 == b.0 && a.1 > b.1)
}

/// Executable form of [`ranks_above`].
pub fn rank_above(a: (u64, u64), b: (u64, u64)) -> (r: bool)
    ensures
        r == ranks_above(a, b),
{
    a.0 > b.0 || (a.0 == b.0 && a.1 > b.1)
}

/// `p` is where an item of rank `x` enters `s`: after every item that does
/// not rank below it, before the first one that does.
pub open spec fn is_entry_point<A>(s: Seq<A>, rank: spec_fn(A) -> (u64, u64), x: (u64, u64), p: int) -> bool {
    &&& 0 <= p <= s.len()
    &&& (p < s.len() ==> ranks_above(x, rank(s[p])))
    &&& forall|q: int| 0 <= q < p ==> !ranks_above(x, #[trigger] rank(s[q]))
}

/// The position at which an item of rank `x` enters `s`.
pub open spec fn entry_point<A>(s: Seq<A>, rank: spec_fn(A) -> (u64, u64), x: (u64, u64)) -> int {
    choose|p: int| is_entry_point(s, rank, x, p)
}

/// `s` ordered highest rank first, items of equal rank keeping their order.
pub open spec fn sort_desc<A>(s: Seq<A>, rank: spec_fn(A) -> (u64, u64)) -> Seq<A>
    decreases s.len(),
{
    if s.len() == 0 {
        s
    } else {
        let rest = sort_desc(s.drop_last(), rank);
        rest.insert(entry_point(rest, rank, rank(s.last())), s.last())
    }
}

/// No item of `s` ranks above an item before it.
pub open spec fn sorted_desc<A>(s: Seq<A>, rank: spec_fn(A) -> (u64, u64)) -> bool {
    forall|i: int, j: int| 0 <= i < j < s.len() ==> !ranks_above(#[trigger] rank(s[j]), #[trigger] rank(s[i]))
}

proof fn lemma_entry_point_below<A>(s: Seq<A>, rank: spec_fn(A) -> (u64, u64), x: (u64, u64), j: int)
    requires
        0 <= j <= s.len(),
        j < s.len() ==> ranks_above(x, rank(s[j])),
    ensures
        exists|p: int| is_entry_point(s, rank, x, p),
    decreases j,
{
    if forall|q: int| 0 <= q < j ==> !ranks_above(x, #[trigger] rank(s[q])) {
        assert(is_entry_point(s, rank, x, j));
    } else {
        let q = choose|q: int| 0 <= q < j && ranks_above(x, #[trigger] rank(s[q]));
        lemma_entry_point_below(s, rank, x, q);
    }
}

/// The entry point exists and is the only position with its property.
pub proof fn lemma_entry_point<A>(s: Seq<A>, rank: spec_fn(A) -> (u64, u64), x: (u64, u64))
    ensures
        is_entry_point(s, rank, x, entry_point(s, rank, x)),
        forall|p: int| #[trigger] is_entry_point(s, rank, x, p) ==> p == entry_point(s, rank, x),
{
    lemma_entry_point_below(s, rank, x, s.len() as int);
    let e = entry_point(s, rank, x);
    assert forall|p: int| #[trigger] is_entry_point(s, rank, x, p) implies p == e by {
        if p < e {
            assert(!ranks_above(x, rank(s[p])));
        }
        if e < p {
            assert(!ranks_above(x, rank(s[e])));
        }
    }
}

/// Sorting keeps the items, orders them highest rank first, and keeps items
/// of equal rank in the order in which they came.
pub proof fn lemma_sort_desc<A>(s: Seq<A>, rank: spec_fn(A) -> (u64, u64))
    ensures
        sorted_desc(sort_desc(s, rank), rank),
        sort_desc(s, rank).to_multiset() == s.to_multiset(),
        sort_desc(s, rank).len() == s.len(),
    decreases s.len(),
{
    broadcast use vstd::multiset::group_multiset_axioms;
    if s.len() > 0 {
        let rest = sort_desc(s.drop_last(), rank);
        lemma_sort_desc(s.drop_last(), rank);
        let x = s.last();
        lemma_entry_point(rest, rank, rank(x));
        let p = entry_point(rest, rank, rank(x));
        let out = rest.insert(p, x);
        assert(out == sort_desc(s, rank));
        assert forall|i: int, j: int| 0 <= i < j < out.len() implies !ranks_above(
            #[trigger] rank(out[j]),
            #[trigger] rank(out[i]),
        ) by {
            if j < p {
                assert(out[i] == rest[i] && out[j] == rest[j]);
            } else if j == p {
                assert(out[i] == rest[i]);
            } else if i == p {
                assert(out[j] == rest[j - 1]);
                assert(!ranks_above(rank(rest[j - 1]), rank(rest[p])) || p == j - 1);
            } else if i < p {
                assert(out[i] == rest[i] && out[j] == rest[j - 1]);
            } else {
                assert(out[i] == rest[i - 1] && out[j] == rest[j - 1]);
            }
        }
        assert(out =~= rest.subrange(0, p) + seq![x] + rest.subrange(p, rest.len() as int));
        assert(rest =~= rest.subrange(0, p) + rest.subrange(p, rest.len() as int));
        vstd::seq_lib::lemma_multiset_commutative(rest.subrange(0, p), rest.subrange(p, rest.len() as int));
        vstd::seq_lib::lemma_multiset_commutative(rest.subrange(0, p) + seq![x], rest.subrange(p, rest.len() as int));
        vstd::seq_lib::lemma_multiset_commutative(rest.subrange(0, p), seq![x]);
        assert(s =~= s.drop_last().push(x));
        vstd::seq_lib::lemma_multiset_commutative(s.drop_last(), seq![x]);
        assert(s.drop_last() + seq![x] =~= s);
        assert(seq![x].to_multiset() =~= vstd::multiset::Multiset::empty().insert(x)) by {
            broadcast use vstd::seq_lib::group_to_multiset_ensures;
            assert(seq![x] =~= Seq::<A>::empty().push(x));
        }
        assert(out.to_multiset() =~= s.to_multiset());
    }
}

/// Sorts `items` highest rank first; items of equal rank keep their order.
pub fn sort_ranked<T: Ranked>(items: Vec<T>) -> (r: Vec<T>)
    ensures
        r@.map_values(|t: T| t@) == sort_desc(items@.map_values(|t: T| t@), |v: T::V| T::rank_of_view(v)),
{
    let ghost rank = |v: T::V| T::rank_of_view(v);
    let ghost orig = items@.map_values(|t: T| t@);
    let mut rest = items;
    let mut out: Vec<T> = Vec::new();
    let ghost mut k: int = 0;
    assert(orig.take(0) =~= Seq::<T::V>::empty());
    while rest.len() > 0
        invariant
            0 <= k <= orig.len(),
            rank == (|v: T::V| T::rank_of_view(v)),
            rest@.map_values(|t: T| t@) == orig.skip(k),
            out@.map_values(|t: T| t@) == sort_desc(orig.take(k), rank),
            orig.len() == k + rest.len(),
        decreases rest.len(),
    {
        let ghost before = out@.map_values(|t: T| t@);
        let ghost rest_before = rest@;
        let x = rest.remove(0);
        assert(rest@ =~= rest_before.subrange(1, rest_before.len() as int));
        assert(x@ == orig[k]) by {
            assert(orig.skip(k)[0] == orig[k]);
        }
        let xr = x.rank();
        let mut i: usize = 0;
        while i < out.len() && !rank_above(xr, out[i].rank())
            invariant
                i <= out.len(),
                rank == (|v: T::V| T::rank_of_view(v)),
                out@.map_values(|t: T| t@) == before,
                xr == rank(x@),
                forall|q: int| 0 <= q < i ==> !ranks_above(xr, #[trigger] rank(before[q])),
            decreases out.len() - i,
        {
            assert(before[i as int] == out@[i as int]@);
            i = i + 1;
        }
        proof {
            if i < out.len() {
                assert(before[i as int] == out@[i as int]@);
            }
            assert(is_entry_point(before, rank, xr, i as int));
            lemma_entry_point(before, rank, xr);
        }
        out.insert(i, x);
        proof {
            assert(orig.take(k + 1).drop_last() =~= orig.take(k));
            assert(orig.take(k + 1).last() == orig[k]);
            assert(out@.map_values(|t: T| t@) =~= before.insert(i as int, x@));
            assert forall|q: int| 0 <= q < rest@.len() implies rest@[q]@ == orig.skip(k + 1)[q] by {
                assert(rest@[q] == rest_before[q + 1]);
                assert(rest_before.map_values(|t: T| t@)[q + 1] == orig.skip(k)[q + 1]);
            }
            assert(rest@.map_values(|t: T| t@) =~= orig.skip(k + 1));
            k = k + 1;
        }
    }
    assert(orig.take(k) =~= orig);
    out
}

/// The items of rank `k`.
pub open spec fn has_rank<A>(rank: spec_fn(A) -> (u64, u64), k: (u64, u64)) -> spec_fn(A) -> bool {
    |a: A| rank(a) == k
}

/// Items none of which passes `pred` filter to nothing.
proof fn lemma_filter_none<A>(s: Seq<A>, pred: spec_fn(A) -> bool)
    requires
        forall|i: int| 0 <= i < s.len() ==> !pred(#[trigger] s[i]),
    ensures
        s.filter(pred) == Seq::<A>::empty(),
    decreases s.len(),
{
    reveal(Seq::filter);
    if s.len() > 0 {
        assert forall|i: int| 0 <= i < s.drop_last().len() implies !pred(#[trigger] s.drop_last()[i]) by {
            assert(s.drop_last()[i] == s[i]);
        }
        lemma_filter_none(s.drop_last(), pred);
        assert(!pred(s[s.len() - 1]));
    }
}

/// Sorting is stable: the items of each rank come out in the order in
/// which they came in.
pub proof fn lemma_sort_desc_stable<A>(s: Seq<A>, rank: spec_fn(A) -> (u64, u64), k: (u64, u64))
    ensures
        sort_desc(s, rank).filter(has_rank(rank, k)) == s.filter(has_rank(rank, k)),
    decreases s.len(),
{
    reveal(Seq::filter);
    let f = has_rank(rank, k);
    if s.len() > 0 {
        let rest = sort_desc(s.drop_last(), rank);
        lemma_sort_desc_stable(s.drop_last(), rank, k);
        lemma_sort_desc(s.drop_last(), rank);
        let x = s.last();
        lemma_entry_point(rest, rank, rank(x));
        let p = entry_point(rest, rank, rank(x));
        let out = rest.insert(p, x);
        assert(out == sort_desc(s, rank));
        let a = rest.take(p);
        let b = rest.skip(p);
        assert(rest =~= a + b);
        assert(out =~= a + seq![x] + b);
        Seq::filter_distributes_over_add(a, b, f);
        Seq::filter_distributes_over_add(a + seq![x], b, f);
        Seq::filter_distributes_over_add(a, seq![x], f);
        assert(seq![x].drop_last() =~= Seq::<A>::empty());
        assert(seq![x].last() == x);
        if f(x) {
            assert forall|i: int| 0 <= i < b.len() implies !f(#[trigger] b[i]) by {
                let q = p + i;
                assert(b[i] == rest[q]);
                assert(ranks_above(rank(x), rank(rest[p])));
                if q > p {
                    assert(!ranks_above(rank(rest[q]), rank(rest[p])));
                }
            }
            lemma_filter_none(b, f);
            assert(b.filter(f) =~= Seq::<A>::empty());
            assert(out.filter(f) =~= a.filter(f).push(x));
            assert(rest.filter(f) =~= a.filter(f));
        } else {
            assert(seq![x].drop_last().filter(f) =~= Seq::<A>::empty());
            assert(seq![x].filter(f) =~= Seq::<A>::empty());
            assert(out.filter(f) =~= a.filter(f) + b.filter(f));
        }
    }
}

} // verus!
