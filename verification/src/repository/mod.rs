//! Package repositories: their identifiers, priorities and configuration.

use vstd::prelude::*;

use crate::order::{sort_desc, sort_ranked, Ranked};
use crate::select::{
    first_where, is_first, lemma_first_exists, lemma_first_index, lemma_first_index_none,
    lemma_first_where_push, lemma_first_where_update,
};

verus! {

/// Whether `c` is alphanumeric, as `char::is_alphanumeric` decides.
pub uninterp spec fn alphanumeric(c: char) -> bool;

/// `c` is an ASCII letter or digit.
pub open spec fn ascii_alphanumeric(c: char) -> bool {
    ('a' <= c && c <= 'z') || ('A' <= c && c <= 'Z') || ('0' <= c && c <= '9')
}

/// Whether `c` is alphanumeric.
///
/// Trusted: calls `char::is_alphanumeric`, which is true of characters with
/// the Unicode `Alphabetic` or `Numeric` property. The contract names that
/// result and states the one fact its documentation gives for ASCII: an ASCII
/// character is alphanumeric exactly when it is a letter or a digit.
#[verifier::external_body]
fn is_alphanumeric(c: char) -> (r: bool)
    ensures
        r == alphanumeric(c),
        (c as u32) < 128 ==> (r == ascii_alphanumeric(c)),
{
    c.is_alphanumeric()
}

/// The character kept in a repository identifier: alphanumeric characters
/// and `-` stay, anything else becomes `_`.
pub open spec fn id_char(c: char) -> char {
    if alphanumeric(c) || c == '-' {
        c
    } else {
        '_'
    }
}

/// The character kept for an ASCII character `c`: ASCII letters, digits
/// and `-` stay, any other ASCII character becomes `_`.
pub open spec fn ascii_id_char(c: char) -> char {
    if ascii_alphanumeric(c) || c == '-' {
        c
    } else {
        '_'
    }
}

/// Unique identifier of a repository.
#[derive(Debug, Clone, PartialEq, Eq, Hash)]
pub struct Id(String);

impl View for Id {
    type V = Seq<char>;

    closed spec fn view(&self) -> Seq<char> {
        self.0@
    }
}

impl Id {
    /// An identifier made from `identifier`, with every character other
    /// than alphanumerics and `-` replaced by `_`; in particular every ASCII
    /// character other than letters, digits and `-` becomes `_`.
    pub fn new(identifier: String) -> (r: Self)
        ensures
            r@ == identifier@.map_values(|c: char| id_char(c)),
            r@.len() == identifier@.len(),
            forall|i: int|
                0 <= i < identifier@.len() && (identifier@[i] as u32) < 128 ==> #[trigger] r@[i] == ascii_id_char(
                    identifier@[i],
                ),
    {
        let chars = crate::text::chars_of(identifier.as_str());
        let mut out: Vec<char> = Vec::new();
        let mut i: usize = 0;
        while i < chars.len()
            invariant
                i <= chars.len(),
                chars@ == identifier@,
                out@ == identifier@.map_values(|c: char| id_char(c)).take(i as int),
                forall|k: int|
                    0 <= k < i && (identifier@[k] as u32) < 128 ==> #[trigger] out@[k] == ascii_id_char(identifier@[k]),
            decreases chars.len() - i,
        {
            let c = chars[i];
            let kept = if is_alphanumeric(c) || c == '-' {
                c
            } else {
                '_'
            };
            out.push(kept);
            assert(out@ =~= identifier@.map_values(|c: char| id_char(c)).take(i + 1));
            i = i + 1;
        }
        assert(identifier@.map_values(|c: char| id_char(c)).take(i as int) =~= identifier@.map_values(
            |c: char| id_char(c),
        ));
        let r = Id(crate::text::string_of(&out));
        assert(r@ == out@);
        r
    }

    /// An identifier holding `s` as it is.
    pub fn from(s: String) -> (r: Self)
        ensures
            r@ == s@,
    {
        Id(s)
    }

    /// The identifier's text.
    pub fn as_str(&self) -> (s: &str)
        ensures
            s@ == self@,
    {
        self.0.as_str()
    }

    /// A copy of this identifier.
    pub fn duplicate(&self) -> (r: Id)
        ensures
            r@ == self@,
    {
        Id(self.0.clone())
    }

    /// Whether two identifiers are equal.
    pub fn same(&self, other: &Id) -> (r: bool)
        ensures
            r == (self@ == other@),
    {
        crate::text::str_equal(self.0.as_str(), other.0.as_str())
    }
}

/// Priority of a repository: higher priorities are consulted first.
#[derive(Debug, Clone, Copy, PartialEq, Eq, Structural)]
pub struct Priority(u64);

impl Priority {
    /// A priority of `priority`.
    pub fn new(priority: u64) -> (r: Self)
        ensures
            r.value_spec() == priority,
    {
        Priority(priority)
    }

    /// The priority as a number.
    pub closed spec fn value_spec(&self) -> u64 {
        self.0
    }

    /// The priority as a number.
    pub fn value(&self) -> (r: u64)
        ensures
            r == self.value_spec(),
    {
        self.0
    }

    /// Whether `self` comes before `other`: priorities are ordered highest
    /// first.
    pub fn comes_before(&self, other: &Priority) -> (r: bool)
        ensures
            r == (self.value_spec() > other.value_spec()),
    {
        self.0 > other.0
    }
}

/// A configured repository.
#[derive(Debug, Clone)]
pub struct Repository {
    pub description: String,
    /// The location of the repository's index, as a URL
    pub uri: String,
    pub priority: Priority,
}

/// Mathematical form of a [`Repository`].
pub struct RepositoryView {
    pub description: Seq<char>,
    pub uri: Seq<char>,
    pub priority: u64,
}

impl View for Repository {
    type V = RepositoryView;

    open spec fn view(&self) -> RepositoryView {
        RepositoryView { description: self.description@, uri: self.uri@, priority: self.priority.value_spec() }
    }
}

impl Repository {
    /// A copy of this repository.
    pub fn duplicate(&self) -> (r: Repository)
        ensures
            r@ == self@,
    {
        Repository { description: self.description.clone(), uri: self.uri.clone(), priority: self.priority }
    }
}

/// Repositories by identifier.
#[derive(Debug, Clone)]
pub struct RepositoryMap {
    entries: Vec<(Id, Repository)>,
}

impl RepositoryMap {
    /// The entries, in order of first addition.
    pub closed spec fn entries_view(&self) -> Seq<(Seq<char>, RepositoryView)> {
        self.entries@.map_values(|e: (Id, Repository)| (e.0@, e.1@))
    }

    /// Each identifier occurs at most once.
    pub open spec fn wf(&self) -> bool {
        forall|i: int, j: int|
            0 <= i < j < self.entries_view().len() ==> #[trigger] self.entries_view()[i].0 != #[trigger] self.entries_view()[j].0
    }

    /// The repository stored under `k`.
    pub open spec fn lookup(&self, k: Seq<char>) -> Option<RepositoryView> {
        match first_where(self.entries_view(), key_is(k)) {
            Some(e) => Some(e.1),
            None => None,
        }
    }

    /// An empty map.
    pub fn new() -> (r: Self)
        ensures
            r.wf(),
            forall|k: Seq<char>| #[trigger] r.lookup(k) is None,
    {
        let r = RepositoryMap { entries: Vec::new() };
        assert forall|k: Seq<char>| #[trigger] r.lookup(k) is None by {
            lemma_first_index_none(r.entries_view(), key_is(k));
        }
        r
    }

    /// Position of `id`, if present.
    fn position(&self, id: &Id) -> (r: Option<usize>)
        ensures
            match r {
                Some(i) => is_first(self.entries_view(), key_is(id@), i as int),
                None => forall|i: int| 0 <= i < self.entries_view().len() ==> #[trigger] self.entries_view()[i].0 != id@,
            },
    {
        let mut i: usize = 0;
        while i < self.entries.len()
            invariant
                i <= self.entries.len(),
                self.entries_view().len() == self.entries.len(),
                forall|j: int| 0 <= j < i ==> #[trigger] self.entries_view()[j].0 != id@,
            decreases self.entries.len() - i,
        {
            assert(self.entries_view()[i as int].0 == self.entries@[i as int].0@);
            if self.entries[i].0.same(id) {
                return Some(i);
            }
            i = i + 1;
        }
        None
    }

    /// The repository stored under `id`.
    pub fn get(&self, id: &Id) -> (r: Option<&Repository>)
        ensures
            match r {
                Some(repo) => self.lookup(id@) == Some(repo@),
                None => self.lookup(id@) is None,
            },
    {
        match self.position(id) {
            Some(i) => {
                proof {
                    lemma_first_index(self.entries_view(), key_is(id@), i as int);
                }
                assert(self.entries_view()[i as int] == (self.entries@[i as int].0@, self.entries@[i as int].1@));
                Some(&self.entries[i].1)
            },
            None => {
                proof {
                    lemma_first_index_none(self.entries_view(), key_is(id@));
                }
                None
            },
        }
    }

    /// Stores `repo` under `id`, replacing what was stored there.
    pub fn add(&mut self, id: Id, repo: Repository)
        requires
            old(self).wf(),
        ensures
            final(self).wf(),
            final(self).lookup(id@) == Some(repo@),
            forall|k: Seq<char>| k != id@ ==> #[trigger] final(self).lookup(k) == old(self).lookup(k),
    {
        let ghost before = self.entries_view();
        let ghost idv = id@;
        let ghost rv = repo@;
        match self.position(&id) {
            Some(i) => {
                proof {
                    lemma_first_index(before, key_is(idv), i as int);
                }
                self.entries.set(i, (id, repo));
                assert(self.entries_view() =~= before.update(i as int, (idv, rv)));
                assert(before[i as int].0 == idv);
                proof {
                    let pred = key_is(idv);
                    assert(is_first(self.entries_view(), pred, i as int)) by {
                        assert forall|j: int| 0 <= j < i implies !pred(#[trigger] self.entries_view()[j]) by {
                            assert(self.entries_view()[j] == before[j]);
                        }
                    }
                    lemma_first_index(self.entries_view(), pred, i as int);
                    assert forall|k: Seq<char>| k != idv implies #[trigger] self.lookup(k) == old(self).lookup(k) by {
                        lemma_first_where_update(before, key_is(k), i as int, (idv, rv));
                    }
                }
            },
            None => {
                self.entries.push((id, repo));
                assert(self.entries_view() =~= before.push((idv, rv)));
                assert forall|a: int, b: int|
                    0 <= a < b < self.entries_view().len() implies #[trigger] self.entries_view()[a].0
                        != #[trigger] self.entries_view()[b].0 by {
                    if b == before.len() {
                        assert(self.entries_view()[a] == before[a]);
                    } else {
                        assert(self.entries_view()[a] == before[a] && self.entries_view()[b] == before[b]);
                    }
                }
                proof {
                    lemma_first_where_push(before, key_is(idv), (idv, rv));
                    lemma_first_index_none(before, key_is(idv));
                    assert forall|k: Seq<char>| k != idv implies #[trigger] self.lookup(k) == old(self).lookup(k) by {
                        lemma_first_where_push(before, key_is(k), (idv, rv));
                    }
                }
            },
        }
    }

    /// The entries, in order.
    pub fn iter(&self) -> (r: Vec<(Id, Repository)>)
        ensures
            r@.map_values(|e: (Id, Repository)| (e.0@, e.1@)) == self.entries_view(),
    {
        let mut out: Vec<(Id, Repository)> = Vec::new();
        let mut i: usize = 0;
        while i < self.entries.len()
            invariant
                i <= self.entries.len(),
                out.len() == i,
                out@.map_values(|e: (Id, Repository)| (e.0@, e.1@)) == self.entries_view().take(i as int),
            decreases self.entries.len() - i,
        {
            let e = &self.entries[i];
            out.push((e.0.duplicate(), e.1.duplicate()));
            assert(out@.map_values(|e: (Id, Repository)| (e.0@, e.1@)) =~= self.entries_view().take(i + 1));
            i = i + 1;
        }
        assert(self.entries_view().take(i as int) =~= self.entries_view());
        out
    }

    /// Adds each of `items` in turn.
    fn add_all(&mut self, items: Vec<(Id, Repository)>)
        requires
            old(self).wf(),
        ensures
            final(self).wf(),
            forall|k: Seq<char>|
                #[trigger] final(self).lookup(k) == (match first_where(
                    items@.map_values(|e: (Id, Repository)| (e.0@, e.1@)).reverse(),
                    key_is(k),
                ) {
                    Some(e) => Some(e.1),
                    None => old(self).lookup(k),
                }),
    {
        let ghost all = items@.map_values(|e: (Id, Repository)| (e.0@, e.1@));
        let mut items = items;
        let ghost mut n: int = 0;
        while items.len() > 0
            invariant
                0 <= n <= all.len(),
                self.wf(),
                items@.map_values(|e: (Id, Repository)| (e.0@, e.1@)) == all.skip(n),
                forall|k: Seq<char>|
                    #[trigger] self.lookup(k) == (match first_where(
                        all.take(n).reverse(),
                        key_is(k),
                    ) {
                        Some(e) => Some(e.1),
                        None => old(self).lookup(k),
                    }),
            decreases items.len(),
        {
            let ghost rest = items@;
            assert(all.skip(n).len() == rest.len());
            let (id, repo) = items.remove(0);
            assert((id@, repo@) == all[n]) by {
                assert(all.skip(n)[0] == all[n]);
            }
            let ghost prev = *self;
            self.add(id, repo);
            proof {
                assert(items@ =~= rest.subrange(1, rest.len() as int));
                assert forall|q: int| 0 <= q < items@.len() implies (#[trigger] items@[q]).0@ == all.skip(n + 1)[q].0
                    && items@[q].1@ == all.skip(n + 1)[q].1 by {
                    assert(items@[q] == rest[q + 1]);
                    assert(rest.map_values(|e: (Id, Repository)| (e.0@, e.1@))[q + 1] == all.skip(n)[q + 1]);
                }
                assert(items@.map_values(|e: (Id, Repository)| (e.0@, e.1@)) =~= all.skip(n + 1));
                assert(all.take(n + 1).reverse() =~= seq![all[n]] + all.take(n).reverse());
                assert forall|k: Seq<char>|
                    #[trigger] self.lookup(k) == (match first_where(
                        all.take(n + 1).reverse(),
                        key_is(k),
                    ) {
                        Some(e) => Some(e.1),
                        None => old(self).lookup(k),
                    }) by {
                    let pred = key_is(k);
                    let t = all.take(n + 1).reverse();
                    if all[n].0 == k {
                        assert(is_first(t, pred, 0));
                        lemma_first_index(t, pred, 0);
                    } else {
                        let u = all.take(n).reverse();
                        assert(prev.lookup(k) == self.lookup(k));
                        if exists|i: int| is_first(u, pred, i) {
                            let i = choose|i: int| is_first(u, pred, i);
                            lemma_first_index(u, pred, i);
                            assert(is_first(t, pred, i + 1)) by {
                                assert forall|j: int| 0 <= j < i + 1 implies !pred(#[trigger] t[j]) by {
                                    if j > 0 {
                                        assert(t[j] == u[j - 1]);
                                    }
                                }
                                assert(t[i + 1] == u[i]);
                            }
                            lemma_first_index(t, pred, i + 1);
                        } else {
                            assert forall|j: int| 0 <= j < t.len() implies !pred(#[trigger] t[j]) by {
                                if j > 0 {
                                    assert(t[j] == u[j - 1]);
                                    if pred(u[j - 1]) {
                                        lemma_first_exists(u, pred, j - 1);
                                    }
                                }
                            }
                            lemma_first_index_none(t, pred);
                        }
                    }
                }
                n = n + 1;
            }
        }
        assert(all.take(n) =~= all);
    }

    /// The entries, highest priority first; entries of equal priority keep
    /// their order.
    pub fn by_priority(&self) -> (r: Vec<(Id, Repository)>)
        ensures
            r@.map_values(|e: (Id, Repository)| (e.0@, e.1@)) == sort_desc(
                self.entries_view(),
                |e: (Seq<char>, RepositoryView)| priority_rank(e),
            ),
    {
        let items = self.iter();
        proof {
            assert(items@.map_values(|t: (Id, Repository)| t@) =~= self.entries_view());
            assert((|v: (Seq<char>, RepositoryView)| <(Id, Repository) as Ranked>::rank_of_view(v)) =~= (|
                e: (Seq<char>, RepositoryView),
            | priority_rank(e)));
        }
        let r = sort_ranked(items);
        assert(r@.map_values(|e: (Id, Repository)| (e.0@, e.1@)) =~= r@.map_values(|t: (Id, Repository)| t@));
        r
    }

    /// A map holding `items`; a later item replaces an earlier one with the
    /// same identifier.
    pub fn with(items: Vec<(Id, Repository)>) -> (r: Self)
        ensures
            r.wf(),
            forall|k: Seq<char>|
                #[trigger] r.lookup(k) == (match first_where(
                    items@.map_values(|e: (Id, Repository)| (e.0@, e.1@)).reverse(),
                    key_is(k),
                ) {
                    Some(e) => Some(e.1),
                    None => None,
                }),
    {
        let mut m = RepositoryMap::new();
        m.add_all(items);
        m
    }

    /// The entries of `self` and of `other`; those of `other` replace
    /// entries of `self` with the same identifier.
    pub fn merge(self, other: Self) -> (r: Self)
        requires
            self.wf(),
            other.wf(),
        ensures
            r.wf(),
            forall|k: Seq<char>|
                #[trigger] r.lookup(k) == (match other.lookup(k) {
                    Some(v) => Some(v),
                    None => self.lookup(k),
                }),
    {
        let mut m = self;
        let ghost o = other.entries_view();
        let items = other.entries;
        m.add_all(items);
        proof {
            assert forall|k: Seq<char>|
                #[trigger] m.lookup(k) == (match other.lookup(k) {
                    Some(v) => Some(v),
                    None => self.lookup(k),
                }) by {
                lemma_last_match(o, k);
            }
        }
        m
    }
}

/// The serialization of the URL that `text` parses as; `None` when it is not
/// a URL.
pub uninterp spec fn url_parse(text: Seq<char>) -> Option<Seq<char>>;

/// Parses `text` as a URL.
///
/// Trusted: calls `url::Url::parse` and returns the serialization of the
/// result. The contract names that result, which depends on the text alone.
#[verifier::external_body]
pub(crate) fn parse_url(text: &str) -> (r: Option<String>)
    ensures
        match r {
            Some(s) => url_parse(text@) == Some(s@),
            None => url_parse(text@) is None,
        },
{
    match url::Url::parse(text) {
        Ok(u) => Some(String::from(u)),
        Err(_) => None,
    }
}

/// The text of `relative` resolved against the URL `base`; `None` when
/// `base` is not a URL or `relative` cannot be resolved against it.
pub uninterp spec fn url_join(base: Seq<char>, relative: Seq<char>) -> Option<Seq<char>>;

/// Resolves `relative` against the URL `base`.
///
/// Trusted: parses `base` with `url::Url::parse` and calls `Url::join`,
/// returning the serialization of the result. The contract names that
/// result, which depends on the two texts alone.
#[verifier::external_body]
pub(crate) fn join_uri(base: &str, relative: &str) -> (r: Option<String>)
    ensures
        match r {
            Some(s) => url_join(base@, relative@) == Some(s@),
            None => url_join(base@, relative@) is None,
        },
{
    match url::Url::parse(base) {
        Ok(b) => match b.join(relative) {
            Ok(u) => Some(String::from(u)),
            Err(_) => None,
        },
        Err(_) => None,
    }
}

/// Repositories are listed by priority.
pub open spec fn priority_rank(e: (Seq<char>, RepositoryView)) -> (u64, u64) {
    (e.1.priority, 0u64)
}

impl Ranked for (Id, Repository) {
    open spec fn rank_of_view(v: (Seq<char>, RepositoryView)) -> (u64, u64) {
        priority_rank(v)
    }

    fn rank(&self) -> (r: (u64, u64)) {
        (self.1.priority.value(), 0)
    }
}

/// A repository in use: its identifier, configuration and the package
/// metadata of its index.
#[derive(Debug, Clone)]
pub struct Active {
    pub id: Id,
    pub repository: Repository,
    pub entries: Vec<crate::db::meta::Entry>,
}

/// The key of an entry is `k`.
pub open spec fn key_is(k: Seq<char>) -> spec_fn((Seq<char>, RepositoryView)) -> bool {
    |e: (Seq<char>, RepositoryView)| e.0 == k
}

/// In a list where each key occurs at most once, the entry under `k` is the
/// same found from either end.
proof fn lemma_last_match(o: Seq<(Seq<char>, RepositoryView)>, k: Seq<char>)
    requires
        forall|i: int, j: int| 0 <= i < j < o.len() ==> #[trigger] o[i].0 != #[trigger] o[j].0,
    ensures
        first_where(o.reverse(), key_is(k)) == first_where(o, key_is(k)),
{
    let pred = key_is(k);
    let r = o.reverse();
    if exists|i: int| is_first(o, pred, i) {
        let i = choose|i: int| is_first(o, pred, i);
        lemma_first_index(o, pred, i);
        let j = o.len() - 1 - i;
        assert(r[j] == o[i]);
        assert(is_first(r, pred, j)) by {
            assert forall|q: int| 0 <= q < j implies !pred(#[trigger] r[q]) by {
                assert(r[q] == o[o.len() - 1 - q]);
                assert(o.len() - 1 - q > i);
            }
        }
        lemma_first_index(r, pred, j);
    } else {
        assert forall|j: int| 0 <= j < r.len() implies !pred(#[trigger] r[j]) by {
            assert(r[j] == o[o.len() - 1 - j]);
            if pred(o[o.len() - 1 - j]) {
                lemma_first_exists(o, pred, o.len() - 1 - j);
            }
        }
        lemma_first_index_none(r, pred);
        assert forall|j: int| 0 <= j < o.len() implies !pred(#[trigger] o[j]) by {
            if pred(o[j]) {
                lemma_first_exists(o, pred, j);
            }
        }
        lemma_first_index_none(o, pred);
    }
}

} // verus!
