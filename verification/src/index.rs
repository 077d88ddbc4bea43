//! Building a repository index from the metadata of a collection of
//! packages: one entry per package name, the latest release winning, in
//! order of name.

use vstd::prelude::*;

use crate::digest::{content_digest, hex_text, sha256_of_bytes};
use crate::package::meta::{Meta, MetaView, Name};
use crate::text::{compare_str, lemma_lex_transitive, lemma_lex_trichotomy, lex_lt, str_equal, Comparison};

verus! {

/// Why a collection of packages cannot be indexed.
#[derive(Debug)]
pub enum Error {
    /// Two packages share a name, a release and an architecture.
    DuplicateRelease(Name, u64),
}

/// Adds `meta` to the entries `m` kept so far, by name: a new name is kept,
/// a later release replaces the one kept, an earlier one is dropped, and
/// `None` says that the kept entry has the same release and architecture.
pub open spec fn index_step(m: Map<Seq<char>, MetaView>, meta: MetaView) -> Option<Map<Seq<char>, MetaView>> {
    if !m.dom().contains(meta.name) {
        Some(m.insert(meta.name, meta))
    } else {
        let prev = m[meta.name];
        if prev.source_release == meta.source_release && prev.architecture == meta.architecture {
            None
        } else if prev.source_release < meta.source_release {
            Some(m.insert(meta.name, meta))
        } else {
            Some(m)
        }
    }
}

/// The entries kept from `s`, taken in order, by name; or the name and
/// release of the first package that duplicates a kept one.
pub open spec fn index_fold(s: Seq<MetaView>) -> Result<Map<Seq<char>, MetaView>, (Seq<char>, u64)>
    decreases s.len(),
{
    if s.len() == 0 {
        Ok(Map::empty())
    } else {
        match index_fold(s.drop_last()) {
            Err(e) => Err(e),
            Ok(m) => match index_step(m, s.last()) {
                Some(m2) => Ok(m2),
                None => Err((s.last().name, s.last().source_release)),
            },
        }
    }
}

/// `v` lists exactly the entries of `m`, strictly ordered by name.
pub open spec fn lists_index(v: Seq<MetaView>, m: Map<Seq<char>, MetaView>) -> bool {
    &&& forall|i: int, j: int| 0 <= i < j < v.len() ==> lex_lt(#[trigger] v[i].name, #[trigger] v[j].name)
    &&& forall|i: int| 0 <= i < v.len() ==> m.dom().contains(#[trigger] v[i].name) && m[v[i].name] == v[i]
    &&& forall|k: Seq<char>| #[trigger] m.dom().contains(k) ==> exists|i: int| 0 <= i < v.len() && v[i].name == k
}

/// The mathematical form of a list of metadata.
pub open spec fn metas_view(s: Seq<Meta>) -> Seq<MetaView> {
    s.map_values(|m: Meta| m@)
}

/// Once a prefix fails, every longer prefix fails the same way.
proof fn lemma_fold_error_stays(s: Seq<MetaView>, a: int, b: int)
    requires
        0 <= a <= b <= s.len(),
        index_fold(s.take(a)) is Err,
    ensures
        index_fold(s.take(b)) == index_fold(s.take(a)),
    decreases b - a,
{
    if b > a {
        lemma_fold_error_stays(s, a, b - 1);
        assert(s.take(b).drop_last() =~= s.take(b - 1));
    }
}

/// A name that sorts between the entries before `p` and the one at `p`
/// (or after all of them) is not listed.
proof fn lemma_absent(v: Seq<MetaView>, m: Map<Seq<char>, MetaView>, p: int, name: Seq<char>)
    requires
        lists_index(v, m),
        0 <= p <= v.len(),
        forall|q: int| 0 <= q < p ==> lex_lt(#[trigger] v[q].name, name),
        p < v.len() ==> !lex_lt(v[p].name, name) && v[p].name != name,
    ensures
        !m.dom().contains(name),
        p < v.len() ==> lex_lt(name, v[p].name),
{
    if p < v.len() {
        lemma_lex_trichotomy(name, v[p].name);
    }
    if m.dom().contains(name) {
        let j = choose|j: int| 0 <= j < v.len() && v[j].name == name;
        lemma_lex_trichotomy(name, name);
        if j < p {
            assert(lex_lt(v[j].name, name));
        } else if j > p {
            assert(lex_lt(v[p].name, v[j].name));
            lemma_lex_trichotomy(v[p].name, name);
        }
    }
}

/// Inserting a new name at its place keeps the listing.
proof fn lemma_insert_listing(v: Seq<MetaView>, m: Map<Seq<char>, MetaView>, p: int, x: MetaView)
    requires
        lists_index(v, m),
        0 <= p <= v.len(),
        !m.dom().contains(x.name),
        forall|q: int| 0 <= q < p ==> lex_lt(#[trigger] v[q].name, x.name),
        p < v.len() ==> lex_lt(x.name, v[p].name),
    ensures
        lists_index(v.insert(p, x), m.insert(x.name, x)),
{
    let w = v.insert(p, x);
    let m2 = m.insert(x.name, x);
    assert forall|i: int, j: int| 0 <= i < j < w.len() implies lex_lt(#[trigger] w[i].name, #[trigger] w[j].name) by {
        if j < p {
            assert(w[i] == v[i] && w[j] == v[j]);
        } else if j == p {
            assert(w[i] == v[i]);
        } else if i == p {
            assert(w[j] == v[j - 1]);
            if j - 1 > p {
                assert(lex_lt(v[p].name, v[j - 1].name));
                lemma_lex_transitive(x.name, v[p].name, v[j - 1].name);
            }
        } else if i < p {
            assert(w[i] == v[i] && w[j] == v[j - 1]);
            if j - 1 == p {
                lemma_lex_transitive(v[i].name, x.name, v[p].name);
            } else {
                assert(lex_lt(v[i].name, v[j - 1].name));
            }
        } else {
            assert(w[i] == v[i - 1] && w[j] == v[j - 1]);
            assert(lex_lt(v[i - 1].name, v[j - 1].name));
        }
    }
    assert forall|i: int| 0 <= i < w.len() implies m2.dom().contains(#[trigger] w[i].name) && m2[w[i].name] == w[i] by {
        if i < p {
            assert(w[i] == v[i]);
            assert(m.dom().contains(v[i].name));
        } else if i > p {
            assert(w[i] == v[i - 1]);
            assert(m.dom().contains(v[i - 1].name));
        }
    }
    assert forall|k: Seq<char>| #[trigger] m2.dom().contains(k) implies exists|i: int| 0 <= i < w.len() && w[i].name == k by {
        if k == x.name {
            assert(w[p].name == k);
        } else {
            let i = choose|i: int| 0 <= i < v.len() && v[i].name == k;
            if i < p {
                assert(w[i].name == k);
            } else {
                assert(w[i + 1].name == k);
            }
        }
    }
}

/// Replacing the entry of a listed name keeps the listing.
proof fn lemma_replace_listing(v: Seq<MetaView>, m: Map<Seq<char>, MetaView>, p: int, x: MetaView)
    requires
        lists_index(v, m),
        0 <= p < v.len(),
        v[p].name == x.name,
    ensures
        lists_index(v.update(p, x), m.insert(x.name, x)),
{
    let w = v.update(p, x);
    let m2 = m.insert(x.name, x);
    assert forall|i: int, j: int| 0 <= i < j < w.len() implies lex_lt(#[trigger] w[i].name, #[trigger] w[j].name) by {
        assert(lex_lt(v[i].name, v[j].name));
    }
    assert forall|i: int| 0 <= i < w.len() implies m2.dom().contains(#[trigger] w[i].name) && m2[w[i].name] == w[i] by {
        if i != p {
            assert(m.dom().contains(v[i].name));
            assert(lex_lt(v[i].name, v[p].name) || lex_lt(v[p].name, v[i].name));
            lemma_lex_trichotomy(v[i].name, v[i].name);
        }
    }
    assert forall|k: Seq<char>| #[trigger] m2.dom().contains(k) implies exists|i: int| 0 <= i < w.len() && w[i].name == k by {
        if k == x.name {
            assert(w[p].name == k);
        } else {
            let i = choose|i: int| 0 <= i < v.len() && v[i].name == k;
            assert(w[i].name == k);
        }
    }
}

/// Whether `a` sorts strictly before `b`.
fn name_before(a: &Name, b: &Name) -> (r: bool)
    ensures
        r == lex_lt(a@, b@),
{
    match compare_str(a.as_str(), b.as_str()) {
        Comparison::Less => true,
        _ => false,
    }
}

/// The index of a collection of packages, taken in the order given: for
/// each name, the package with the latest source release, ordered by name.
/// Fails at the first package whose name, release and architecture equal
/// those of the package kept for its name.
pub fn index_metas(list: Vec<Meta>) -> (r: Result<Vec<Meta>, Error>)
    ensures
        match r {
            Ok(v) => index_fold(metas_view(list@)) is Ok && lists_index(
                metas_view(v@),
                index_fold(metas_view(list@))->Ok_0,
            ),
            Err(Error::DuplicateRelease(name, release)) => index_fold(metas_view(list@)) == Err::<
                Map<Seq<char>, MetaView>,
                (Seq<char>, u64),
            >((name@, release)),
        },
{
    let ghost all = metas_view(list@);
    let mut rest = list;
    let mut out: Vec<Meta> = Vec::new();
    let ghost mut i: int = 0;
    assert(all.take(0) =~= Seq::<MetaView>::empty());
    assert(metas_view(rest@) =~= all.skip(0));
    while rest.len() > 0
        invariant
            all == metas_view(list@),
            0 <= i <= all.len(),
            i + rest.len() == all.len(),
            metas_view(rest@) == all.skip(i),
            index_fold(all.take(i)) is Ok,
            lists_index(metas_view(out@), index_fold(all.take(i))->Ok_0),
        decreases rest.len(),
    {
        let ghost m = index_fold(all.take(i))->Ok_0;
        let ghost v = metas_view(out@);
        let ghost rest_before = rest@;
        let meta = rest.remove(0);
        let ghost mv = meta@;
        proof {
            assert(all.skip(i)[0] == meta@);
            assert(all.take(i + 1).drop_last() =~= all.take(i));
            assert(all.take(i + 1).last() == meta@);
            assert(metas_view(rest@) =~= all.skip(i + 1)) by {
                assert forall|k: int| 0 <= k < rest@.len() implies #[trigger] rest@[k] == rest_before[k + 1] by {
                }
                assert forall|k: int| 0 <= k < rest@.len() implies metas_view(rest@)[k] == all.skip(i + 1)[k] by {
                    assert(metas_view(rest_before)[k + 1] == all.skip(i)[k + 1]);
                }
            }
        }
        let mut p: usize = 0;
        while p < out.len() && name_before(&out[p].name, &meta.name)
            invariant
                p <= out.len(),
                v == metas_view(out@),
                forall|q: int| 0 <= q < p ==> lex_lt(#[trigger] v[q].name, meta@.name),
            decreases out.len() - p,
        {
            assert(v[p as int].name == out@[p as int].name@);
            p = p + 1;
        }
        if p < out.len() && out[p].name.same(&meta.name) {
            assert(v[p as int].name == meta@.name);
            assert(m.dom().contains(meta@.name) && m[meta@.name] == v[p as int]);
            let same_arch = str_equal(out[p].architecture.as_str(), meta.architecture.as_str());
            if out[p].source_release == meta.source_release && same_arch {
                proof {
                    assert(index_fold(all.take(i + 1)) == Err::<Map<Seq<char>, MetaView>, (Seq<char>, u64)>(
                        (meta@.name, meta.source_release),
                    ));
                    lemma_fold_error_stays(all, i + 1, all.len() as int);
                    assert(all.take(all.len() as int) =~= all);
                }
                return Err(Error::DuplicateRelease(meta.name, meta.source_release));
            } else if out[p].source_release < meta.source_release {
                proof {
                    lemma_replace_listing(v, m, p as int, meta@);
                }
                out.set(p, meta);
                assert(metas_view(out@) =~= v.update(p as int, mv));
            }
        } else {
            proof {
                if p < out.len() {
                    assert(v[p as int].name == out@[p as int].name@);
                    assert(!lex_lt(v[p as int].name, meta@.name));
                }
                lemma_absent(v, m, p as int, meta@.name);
                lemma_insert_listing(v, m, p as int, meta@);
            }
            out.insert(p, meta);
            assert(metas_view(out@) =~= v.insert(p as int, mv));
        }
        proof {
            i = i + 1;
        }
    }
    assert(all.take(i) =~= all);
    Ok(out)
}

/// An index that could be built keeps, for every name in the list, a
/// package of that name from the list whose release is at least that of
/// every package of that name in the list; and it names nothing else.
pub proof fn lemma_index_keeps_latest(s: Seq<MetaView>)
    requires
        index_fold(s) is Ok,
    ensures
        forall|i: int|
            0 <= i < s.len() ==> index_fold(s)->Ok_0.dom().contains(#[trigger] s[i].name) && index_fold(
                s,
            )->Ok_0[s[i].name].source_release >= s[i].source_release,
        forall|n: Seq<char>|
            #[trigger] index_fold(s)->Ok_0.dom().contains(n) ==> exists|i: int|
                0 <= i < s.len() && s[i] == index_fold(s)->Ok_0[n] && s[i].name == n,
    decreases s.len(),
{
    if s.len() > 0 {
        let d = s.drop_last();
        let x = s.last();
        assert(index_fold(d) is Ok);
        lemma_index_keeps_latest(d);
        let m = index_fold(d)->Ok_0;
        let m2 = index_fold(s)->Ok_0;
        assert(index_step(m, x) == Some(m2));
        assert forall|i: int| 0 <= i < s.len() implies m2.dom().contains(#[trigger] s[i].name)
            && m2[s[i].name].source_release >= s[i].source_release by {
            if i < s.len() - 1 {
                assert(d[i] == s[i]);
                assert(m.dom().contains(d[i].name));
            }
        }
        assert forall|n: Seq<char>| #[trigger] m2.dom().contains(n) implies exists|i: int|
            0 <= i < s.len() && s[i] == m2[n] && s[i].name == n by {
            if n == x.name && m2[n] == x {
                assert(s[s.len() - 1] == x);
            } else {
                assert(m.dom().contains(n) && m2[n] == m[n]);
                let i = choose|i: int| 0 <= i < d.len() && d[i] == m[n] && d[i].name == n;
                assert(s[i] == d[i]);
            }
        }
    }
}

/// The metadata an index records for the package file at `relative`
/// (its path under the index directory) whose contents are `content`: the
/// hexadecimal SHA-256 digest and the size of the contents, and the
/// relative path as its URI; the rest as read from the file.
pub fn indexed_meta(meta: Meta, relative: String, content: &[u8]) -> (r: Meta)
    ensures
        r@ == (MetaView {
            uri: Some(relative@),
            hash: Some(hex_text(sha256_of_bytes(content@))),
            download_size: Some(content@.len() as u64),
            ..meta@
        }),
        meta.wf() ==> r.wf(),
{
    let mut m = meta;
    m.hash = Some(content_digest(content));
    m.download_size = Some(content.len() as u64);
    m.uri = Some(relative);
    m
}

} // verus!
