//! The package metadata database: entries and the filters of its queries.

use vstd::prelude::*;

use crate::dependency::{
    lemma_strictly_sorted_unique, lemma_target_roundtrip, parse, parse_spec, rendered, strictly_sorted, Dependency, Kind, ParseError,
    Provider, Target, TargetSet,
};
use crate::package::meta::{opt_view, strings_view};
use crate::package::{self, Meta, MetaView, Name};
use crate::select::{
    concat_map, is_first, lemma_concat_map_contains, lemma_concat_map_includes, lemma_concat_map_step,
    lemma_filter_map_add,
};
use crate::text::{
    chars_like, chars_of, compare_str, lemma_lex_transitive, lemma_lex_trichotomy, lex_lt, like_match, Comparison,
};

verus! {

/// A query filter on package metadata.
#[derive(Debug)]
pub enum Filter {
    /// Packages that provide this
    Provider(Provider),
    /// Packages that depend on this
    Dependency(Dependency),
    /// Packages with this name
    Name(Name),
    /// Packages whose name or summary matches the SQL `LIKE` pattern of this
    /// text between two `%`: `%` in it stands for any run of characters, `_`
    /// for any one character, and ASCII letters are compared without regard
    /// to case
    Keyword(String),
}

/// Mathematical form of a [`Filter`].
pub enum FilterView {
    Provider((Kind, Seq<char>)),
    Dependency((Kind, Seq<char>)),
    Name(Seq<char>),
    Keyword(Seq<char>),
}

impl View for Filter {
    type V = FilterView;

    open spec fn view(&self) -> FilterView {
        match self {
            Filter::Provider(p) => FilterView::Provider(p@),
            Filter::Dependency(d) => FilterView::Dependency(d@),
            Filter::Name(n) => FilterView::Name(n@),
            Filter::Keyword(k) => FilterView::Keyword(k@),
        }
    }
}

/// `hay` matches the SQL `LIKE` pattern `%needle%`.
pub open spec fn like(hay: Seq<char>, needle: Seq<char>) -> bool {
    like_match(hay, seq!['%'] + needle + seq!['%'])
}

/// Whether `hay` matches the SQL `LIKE` pattern `%needle%`.
fn like_keyword(hay: &str, needle: &str) -> (r: bool)
    ensures
        r == like(hay@, needle@),
{
    let h = chars_of(hay);
    let k = chars_of(needle);
    let mut pattern: Vec<char> = Vec::new();
    pattern.push('%');
    let mut i: usize = 0;
    while i < k.len()
        invariant
            i <= k.len(),
            pattern@ == seq!['%'] + k@.take(i as int),
        decreases k.len() - i,
    {
        pattern.push(k[i]);
        assert(pattern@ =~= seq!['%'] + k@.take(i + 1));
        i = i + 1;
    }
    pattern.push('%');
    assert(k@.take(k.len() as int) =~= k@);
    assert(pattern@ =~= seq!['%'] + needle@ + seq!['%']);
    chars_like(&h, &pattern)
}

/// Metadata `m` passes filter `f`.
pub open spec fn filter_matches(m: MetaView, f: FilterView) -> bool {
    match f {
        FilterView::Provider(p) => m.providers.contains(p),
        FilterView::Dependency(d) => m.dependencies.contains(d),
        FilterView::Name(n) => m.name == n,
        FilterView::Keyword(k) => like(m.name, k) || like(m.summary, k),
    }
}

/// Metadata `m` passes the optional filter `f`.
pub open spec fn passes(m: MetaView, f: Option<FilterView>) -> bool {
    match f {
        Some(f) => filter_matches(m, f),
        None => true,
    }
}

/// Whether `meta` passes `filter`.
pub fn matches(meta: &Meta, filter: &Filter) -> (r: bool)
    ensures
        r == filter_matches(meta@, filter@),
{
    match filter {
        Filter::Provider(p) => meta.providers.contains(p),
        Filter::Dependency(d) => meta.dependencies.contains(d),
        Filter::Name(n) => meta.name.same(n),
        Filter::Keyword(k) => like_keyword(meta.name.as_str(), k.as_str()) || like_keyword(
            meta.summary.as_str(),
            k.as_str(),
        ),
    }
}

/// Whether `meta` passes the optional `filter`.
pub fn passes_filter(meta: &Meta, filter: Option<&Filter>) -> (r: bool)
    ensures
        r == passes(
            meta@,
            match filter {
                Some(f) => Some(f@),
                None => None,
            },
        ),
{
    match filter {
        Some(f) => matches(meta, f),
        None => true,
    }
}

/// A row of the metadata database: a package and its metadata.
#[derive(Debug, Clone, PartialEq, Eq)]
pub struct Entry {
    pub id: package::Id,
    pub meta: Meta,
}

/// Mathematical form of an [`Entry`].
pub struct EntryView {
    pub id: Seq<char>,
    pub meta: MetaView,
}

impl View for Entry {
    type V = EntryView;

    open spec fn view(&self) -> EntryView {
        EntryView { id: self.id@, meta: self.meta@ }
    }
}

/// The views of a list of entries.
pub open spec fn entry_views(s: Seq<Entry>) -> Seq<EntryView> {
    s.map_values(|e: Entry| e@)
}

/// A row of the `meta` table: the scalar fields of a package's metadata,
/// with releases and the download size in the database's signed types.
#[derive(Debug, Clone)]
pub struct MetaRow {
    pub package: String,
    pub name: String,
    pub version_identifier: String,
    pub source_release: i32,
    pub build_release: i32,
    pub architecture: String,
    pub summary: String,
    pub description: String,
    pub source_id: String,
    pub homepage: String,
    pub uri: Option<String>,
    pub hash: Option<String>,
    pub download_size: Option<i64>,
}

/// Mathematical form of a [`MetaRow`].
pub struct MetaRowView {
    pub package: Seq<char>,
    pub name: Seq<char>,
    pub version_identifier: Seq<char>,
    pub source_release: i32,
    pub build_release: i32,
    pub architecture: Seq<char>,
    pub summary: Seq<char>,
    pub description: Seq<char>,
    pub source_id: Seq<char>,
    pub homepage: Seq<char>,
    pub uri: Option<Seq<char>>,
    pub hash: Option<Seq<char>>,
    pub download_size: Option<i64>,
}

impl View for MetaRow {
    type V = MetaRowView;

    open spec fn view(&self) -> MetaRowView {
        MetaRowView {
            package: self.package@,
            name: self.name@,
            version_identifier: self.version_identifier@,
            source_release: self.source_release,
            build_release: self.build_release,
            architecture: self.architecture@,
            summary: self.summary@,
            description: self.description@,
            source_id: self.source_id@,
            homepage: self.homepage@,
            uri: opt_view(self.uri),
            hash: opt_view(self.hash),
            download_size: self.download_size,
        }
    }
}

/// The row stored for package `id` with metadata `m`; releases and the
/// download size are converted as Rust's `as` does.
pub open spec fn row_of(id: Seq<char>, m: MetaView) -> MetaRowView {
    MetaRowView {
        package: id,
        name: m.name,
        version_identifier: m.version_identifier,
        source_release: m.source_release as i32,
        build_release: m.build_release as i32,
        architecture: m.architecture,
        summary: m.summary,
        description: m.description,
        source_id: m.source_id,
        homepage: m.homepage,
        uri: m.uri,
        hash: m.hash,
        download_size: match m.download_size {
            Some(s) => Some(s as i64),
            None => None,
        },
    }
}

/// `s` with only the first of equal texts kept, in order.
pub open spec fn first_texts(s: Seq<Seq<char>>) -> Seq<Seq<char>>
    decreases s.len(),
{
    if s.len() == 0 {
        s
    } else if s.drop_last().contains(s.last()) {
        first_texts(s.drop_last())
    } else {
        first_texts(s.drop_last()).push(s.last())
    }
}

/// Texts without repeats are kept as they are.
proof fn lemma_first_texts_distinct(s: Seq<Seq<char>>)
    requires
        s.no_duplicates(),
    ensures
        first_texts(s) == s,
    decreases s.len(),
{
    if s.len() > 0 {
        let d = s.drop_last();
        assert(d.no_duplicates()) by {
            assert forall|i: int, j: int| 0 <= i < d.len() && 0 <= j < d.len() && i != j implies d[i] != d[j] by {
                assert(d[i] == s[i] && d[j] == s[j]);
            }
        }
        lemma_first_texts_distinct(d);
        if d.contains(s.last()) {
            let i = choose|i: int| 0 <= i < d.len() && d[i] == s.last();
            assert(s[i] == s[s.len() - 1]);
        }
        assert(d.push(s.last()) =~= s);
    }
}

/// The rows of the license table stored for package `id`: one per license,
/// a repeated license stored once (the table keeps a package's license only
/// once).
pub open spec fn license_rows(id: Seq<char>, licenses: Seq<Seq<char>>) -> Seq<(Seq<char>, Seq<char>)> {
    pairs_of(id, first_texts(licenses))
}

/// Rows pairing `id` with each of `values`.
pub open spec fn pairs_of(id: Seq<char>, values: Seq<Seq<char>>) -> Seq<(Seq<char>, Seq<char>)> {
    values.map_values(|l: Seq<char>| (id, l))
}

/// The rows stored for package `id` in the dependency, provider or
/// conflict table: each member rendered as `kind(name)`.
pub open spec fn target_rows(id: Seq<char>, members: Seq<(Kind, Seq<char>)>) -> Seq<(Seq<char>, Seq<char>)> {
    members.map_values(|t: (Kind, Seq<char>)| (id, rendered(t)))
}

/// Mathematical form of a list of `(package, value)` rows.
pub open spec fn pairs_view(s: Seq<(String, String)>) -> Seq<(Seq<char>, Seq<char>)> {
    s.map_values(|p: (String, String)| (p.0@, p.1@))
}

/// Mathematical form of a list of `meta` rows.
pub open spec fn rows_view(s: Seq<MetaRow>) -> Seq<MetaRowView> {
    s.map_values(|r: MetaRow| r@)
}

/// The rows of all five tables for a batch of packages.
#[derive(Debug)]
pub struct MetaRows {
    pub metas: Vec<MetaRow>,
    pub licenses: Vec<(String, String)>,
    pub dependencies: Vec<(String, String)>,
    pub providers: Vec<(String, String)>,
    pub conflicts: Vec<(String, String)>,
}

/// Whether `licenses` holds `x` before position `end`.
fn holds_before(licenses: &Vec<String>, x: &String, end: usize) -> (r: bool)
    requires
        end <= licenses.len(),
    ensures
        r == strings_view(licenses@).take(end as int).contains(x@),
{
    let ghost t = strings_view(licenses@).take(end as int);
    let mut j: usize = 0;
    while j < end
        invariant
            j <= end <= licenses.len(),
            t == strings_view(licenses@).take(end as int),
            forall|q: int| 0 <= q < j ==> t[q] != x@,
        decreases end - j,
    {
        assert(t[j as int] == licenses@[j as int]@);
        if crate::text::str_equal(licenses[j].as_str(), x.as_str()) {
            return true;
        }
        j = j + 1;
    }
    false
}

/// Appends the license rows of package `id`.
fn push_license_rows(out: &mut Vec<(String, String)>, id: &package::Id, licenses: &Vec<String>)
    ensures
        pairs_view(final(out)@) == pairs_view(old(out)@) + license_rows(id@, strings_view(licenses@)),
{
    let ghost start = pairs_view(out@);
    let ghost l = strings_view(licenses@);
    let mut i: usize = 0;
    assert(l.take(0) =~= Seq::<Seq<char>>::empty());
    assert(pairs_of(id@, first_texts(l.take(0))) =~= Seq::<(Seq<char>, Seq<char>)>::empty());
    while i < licenses.len()
        invariant
            i <= licenses.len(),
            l == strings_view(licenses@),
            pairs_view(out@) == start + license_rows(id@, l.take(i as int)),
        decreases licenses.len() - i,
    {
        let ghost prev = pairs_view(out@);
        let seen = holds_before(licenses, &licenses[i], i);
        proof {
            assert(l.take(i + 1).drop_last() =~= l.take(i as int));
            assert(l.take(i + 1).last() == licenses@[i as int]@);
        }
        if !seen {
            out.push((id.0.clone(), licenses[i].clone()));
            assert(pairs_view(out@) =~= prev.push((id@, licenses@[i as int]@)));
            assert(license_rows(id@, l.take(i + 1)) =~= license_rows(id@, l.take(i as int)).push(
                (id@, licenses@[i as int]@),
            ));
        }
        i = i + 1;
    }
    assert(l.take(i as int) =~= l);
}

/// Appends the rows of package `id` for the members of `set`.
fn push_target_rows<T: Target>(out: &mut Vec<(String, String)>, id: &package::Id, set: &TargetSet<T>)
    ensures
        pairs_view(final(out)@) == pairs_view(old(out)@) + target_rows(id@, set.members()),
{
    let ghost start = pairs_view(out@);
    let ghost rows = target_rows(id@, set.members());
    let n = set.len();
    let mut i: usize = 0;
    while i < n
        invariant
            i <= n,
            n == set.members().len(),
            rows == target_rows(id@, set.members()),
            pairs_view(out@) == start + rows.take(i as int),
        decreases n - i,
    {
        let ghost prev = pairs_view(out@);
        let text = set.get(i).render_of();
        out.push((id.0.clone(), text));
        assert(pairs_view(out@) =~= prev.push(rows[i as int]));
        assert(rows.take(i + 1) =~= rows.take(i as int).push(rows[i as int]));
        i = i + 1;
    }
    assert(rows.take(i as int) =~= rows);
}

/// The `meta` row of package `id`.
fn meta_row(id: &package::Id, meta: &Meta) -> (r: MetaRow)
    ensures
        r@ == row_of(id@, meta@),
{
    MetaRow {
        package: id.0.clone(),
        name: meta.name.0.clone(),
        version_identifier: meta.version_identifier.clone(),
        source_release: meta.source_release as i32,
        build_release: meta.build_release as i32,
        architecture: meta.architecture.clone(),
        summary: meta.summary.clone(),
        description: meta.description.clone(),
        source_id: meta.source_id.clone(),
        homepage: meta.homepage.clone(),
        uri: meta.uri.clone(),
        hash: meta.hash.clone(),
        download_size: match meta.download_size {
            Some(s) => Some(s as i64),
            None => None,
        },
    }
}

/// The `meta` rows stored for packages `ps`, in order.
pub open spec fn stored_metas(ps: Seq<(Seq<char>, MetaView)>) -> Seq<MetaRowView> {
    ps.map_values(|p: (Seq<char>, MetaView)| row_of(p.0, p.1))
}

/// The license rows stored for packages `ps`, package after package.
pub open spec fn stored_licenses(ps: Seq<(Seq<char>, MetaView)>) -> Seq<(Seq<char>, Seq<char>)> {
    concat_map(ps, |p: (Seq<char>, MetaView)| license_rows(p.0, p.1.licenses))
}

/// The dependency rows stored for packages `ps`, package after package.
pub open spec fn stored_dependencies(ps: Seq<(Seq<char>, MetaView)>) -> Seq<(Seq<char>, Seq<char>)> {
    concat_map(ps, |p: (Seq<char>, MetaView)| target_rows(p.0, p.1.dependencies))
}

/// The provider rows stored for packages `ps`, package after package.
pub open spec fn stored_providers(ps: Seq<(Seq<char>, MetaView)>) -> Seq<(Seq<char>, Seq<char>)> {
    concat_map(ps, |p: (Seq<char>, MetaView)| target_rows(p.0, p.1.providers))
}

/// The conflict rows stored for packages `ps`, package after package.
pub open spec fn stored_conflicts(ps: Seq<(Seq<char>, MetaView)>) -> Seq<(Seq<char>, Seq<char>)> {
    concat_map(ps, |p: (Seq<char>, MetaView)| target_rows(p.0, p.1.conflicts))
}

/// Mathematical form of a list of packages and their metadata.
pub open spec fn entries_view(v: Seq<(package::Id, Meta)>) -> Seq<(Seq<char>, MetaView)> {
    v.map_values(|p: (package::Id, Meta)| (p.0@, p.1@))
}

/// The rows a batch of packages is stored as: one `meta` row each, in
/// order, and their licenses, dependencies, providers and conflicts, package
/// after package.
pub fn encode_metas(packages: &Vec<(package::Id, Meta)>) -> (r: MetaRows)
    ensures
        rows_view(r.metas@) == stored_metas(entries_view(packages@)),
        pairs_view(r.licenses@) == stored_licenses(entries_view(packages@)),
        pairs_view(r.dependencies@) == stored_dependencies(entries_view(packages@)),
        pairs_view(r.providers@) == stored_providers(entries_view(packages@)),
        pairs_view(r.conflicts@) == stored_conflicts(entries_view(packages@)),
{
    let ghost pv = entries_view(packages@);
    let ghost fl = |p: (Seq<char>, MetaView)| license_rows(p.0, p.1.licenses);
    let ghost fd = |p: (Seq<char>, MetaView)| target_rows(p.0, p.1.dependencies);
    let ghost fp = |p: (Seq<char>, MetaView)| target_rows(p.0, p.1.providers);
    let ghost fc = |p: (Seq<char>, MetaView)| target_rows(p.0, p.1.conflicts);
    let mut r = MetaRows {
        metas: Vec::new(),
        licenses: Vec::new(),
        dependencies: Vec::new(),
        providers: Vec::new(),
        conflicts: Vec::new(),
    };
    let mut i: usize = 0;
    while i < packages.len()
        invariant
            i <= packages.len(),
            pv == entries_view(packages@),
            fl == (|p: (Seq<char>, MetaView)| license_rows(p.0, p.1.licenses)),
            fd == (|p: (Seq<char>, MetaView)| target_rows(p.0, p.1.dependencies)),
            fp == (|p: (Seq<char>, MetaView)| target_rows(p.0, p.1.providers)),
            fc == (|p: (Seq<char>, MetaView)| target_rows(p.0, p.1.conflicts)),
            rows_view(r.metas@) == stored_metas(pv.take(i as int)),
            pairs_view(r.licenses@) == concat_map(pv.take(i as int), fl),
            pairs_view(r.dependencies@) == concat_map(pv.take(i as int), fd),
            pairs_view(r.providers@) == concat_map(pv.take(i as int), fp),
            pairs_view(r.conflicts@) == concat_map(pv.take(i as int), fc),
        decreases packages.len() - i,
    {
        let (id, meta) = &packages[i];
        proof {
            assert(pv[i as int] == (id@, meta@));
            lemma_concat_map_step(pv, fl, i as int);
            lemma_concat_map_step(pv, fd, i as int);
            lemma_concat_map_step(pv, fp, i as int);
            lemma_concat_map_step(pv, fc, i as int);
        }
        let ghost prev_metas = rows_view(r.metas@);
        r.metas.push(meta_row(id, meta));
        assert(rows_view(r.metas@) =~= stored_metas(pv.take(i + 1))) by {
            assert(rows_view(r.metas@) =~= prev_metas.push(row_of(id@, meta@)));
        }
        push_license_rows(&mut r.licenses, id, &meta.licenses);
        push_target_rows(&mut r.dependencies, id, &meta.dependencies);
        push_target_rows(&mut r.providers, id, &meta.providers);
        push_target_rows(&mut r.conflicts, id, &meta.conflicts);
        i = i + 1;
    }
    assert(pv.take(i as int) =~= pv);
    r
}

/// A row value fails to parse as `kind(name)`.
pub open spec fn row_fails(p: (Seq<char>, Seq<char>)) -> bool {
    parse_spec(p.1) is Err
}

/// Every row value parses as `kind(name)`.
pub open spec fn all_parse(rows: Seq<(Seq<char>, Seq<char>)>) -> bool {
    forall|j: int| 0 <= j < rows.len() ==> !row_fails(#[trigger] rows[j])
}

/// The error of the first row of `rows` that fails to parse is `msg`.
pub open spec fn first_failure(rows: Seq<(Seq<char>, Seq<char>)>, msg: Seq<char>) -> bool {
    exists|i: int|
        is_first(rows, |p: (Seq<char>, Seq<char>)| row_fails(p), i) && #[trigger] parse_spec(rows[i].1) == Err::<
            (Kind, Seq<char>),
            Seq<char>,
        >(msg)
}

/// Mathematical form of parsed rows.
pub open spec fn parsed_view<T: Target>(v: Seq<(package::Id, T)>) -> Seq<(Seq<char>, (Kind, Seq<char>))> {
    v.map_values(|p: (package::Id, T)| (p.0@, p.1.target()))
}

/// Parses the value of every row as `kind(name)`, stopping at the first
/// that fails.
fn parse_rows<T: Target>(rows: &Vec<(String, String)>) -> (r: Result<Vec<(package::Id, T)>, ParseError>)
    ensures
        match r {
            Ok(v) => all_parse(pairs_view(rows@)) && v.len() == rows.len() && forall|j: int|
                0 <= j < rows.len() ==> (#[trigger] parsed_view(v@)[j]).0 == rows@[j].0@ && parse_spec(rows@[j].1@)
                    == Ok::<(Kind, Seq<char>), Seq<char>>(parsed_view(v@)[j].1),
            Err(e) => first_failure(pairs_view(rows@), e.0@),
        },
{
    let ghost rv = pairs_view(rows@);
    let mut out: Vec<(package::Id, T)> = Vec::new();
    let mut i: usize = 0;
    while i < rows.len()
        invariant
            i <= rows.len(),
            rv == pairs_view(rows@),
            out.len() == i,
            forall|j: int| 0 <= j < i ==> !row_fails(#[trigger] rv[j]),
            forall|j: int|
                0 <= j < i ==> (#[trigger] parsed_view(out@)[j]).0 == rows@[j].0@ && parse_spec(rows@[j].1@) == Ok::<
                    (Kind, Seq<char>),
                    Seq<char>,
                >(parsed_view(out@)[j].1),
        decreases rows.len() - i,
    {
        assert(rv[i as int] == (rows@[i as int].0@, rows@[i as int].1@));
        match parse(rows[i].1.as_str()) {
            Ok((kind, name)) => {
                let ghost prev = out@;
                out.push((package::Id(rows[i].0.clone()), T::make(kind, name)));
                assert forall|j: int| 0 <= j < i + 1 implies (#[trigger] parsed_view(out@)[j]).0 == rows@[j].0@
                    && parse_spec(rows@[j].1@) == Ok::<(Kind, Seq<char>), Seq<char>>(parsed_view(out@)[j].1) by {
                    if j < i {
                        assert(out@[j] == prev[j]);
                        assert(parsed_view(prev)[j] == parsed_view(out@)[j]);
                    }
                }
            },
            Err(e) => {
                assert(is_first(rv, |p: (Seq<char>, Seq<char>)| row_fails(p), i as int));
                return Err(e);
            },
        }
        i = i + 1;
    }
    Ok(out)
}

/// The kinds and names that the rows of package `id` parse as.
pub open spec fn targets_for(rows: Seq<(Seq<char>, Seq<char>)>, id: Seq<char>) -> Set<(Kind, Seq<char>)> {
    Set::new(
        |t: (Kind, Seq<char>)|
            exists|j: int|
                0 <= j < rows.len() && #[trigger] rows[j].0 == id && parse_spec(rows[j].1) == Ok::<
                    (Kind, Seq<char>),
                    Seq<char>,
                >(t),
    )
}

/// The strictly ordered sequence holding the members of `s`.
pub open spec fn sorted_members(s: Set<(Kind, Seq<char>)>) -> Seq<(Kind, Seq<char>)> {
    choose|q: Seq<(Kind, Seq<char>)>| strictly_sorted(q) && q.to_set() == s
}

/// A strictly ordered sequence is the one `sorted_members` picks for its
/// members.
pub proof fn lemma_sorted_members(q: Seq<(Kind, Seq<char>)>)
    requires
        strictly_sorted(q),
    ensures
        sorted_members(q.to_set()) == q,
{
    let c = sorted_members(q.to_set());
    assert(strictly_sorted(c) && c.to_set() == q.to_set());
    lemma_strictly_sorted_unique(c, q);
}

/// Adds to `set` the targets of the parsed rows of package `id`.
fn add_targets<T: Target>(set: &mut TargetSet<T>, id: &package::Id, rows: &Vec<(package::Id, T)>)
    requires
        old(set).wf(),
    ensures
        final(set).wf(),
        forall|t: (Kind, Seq<char>)|
            #[trigger] final(set).members().to_set().contains(t) <==> (old(set).members().to_set().contains(t)
                || exists|j: int|
                0 <= j < rows.len() && (#[trigger] parsed_view(rows@)[j]).0 == id@ && parsed_view(rows@)[j].1 == t),
{
    let ghost pv = parsed_view(rows@);
    let mut i: usize = 0;
    while i < rows.len()
        invariant
            i <= rows.len(),
            pv == parsed_view(rows@),
            set.wf(),
            forall|t: (Kind, Seq<char>)|
                #[trigger] set.members().to_set().contains(t) <==> (old(set).members().to_set().contains(t)
                    || exists|j: int| 0 <= j < i && (#[trigger] pv[j]).0 == id@ && pv[j].1 == t),
        decreases rows.len() - i,
    {
        assert(pv[i as int] == (rows@[i as int].0@, rows@[i as int].1.target()));
        if rows[i].0.same(id) {
            let ghost before = set.members().to_set();
            set.insert(rows[i].1.duplicate());
            assert forall|t: (Kind, Seq<char>)|
                #[trigger] set.members().to_set().contains(t) <==> (old(set).members().to_set().contains(t)
                    || exists|j: int| 0 <= j < i + 1 && (#[trigger] pv[j]).0 == id@ && pv[j].1 == t) by {
                if t == pv[i as int].1 {
                    assert(pv[i as int].0 == id@);
                }
                if exists|j: int| 0 <= j < i + 1 && (#[trigger] pv[j]).0 == id@ && pv[j].1 == t {
                    let j = choose|j: int| 0 <= j < i + 1 && (#[trigger] pv[j]).0 == id@ && pv[j].1 == t;
                    if j < i {
                        assert(before.contains(t));
                    }
                }
            }
        } else {
            assert forall|t: (Kind, Seq<char>)|
                #[trigger] set.members().to_set().contains(t) <==> (old(set).members().to_set().contains(t)
                    || exists|j: int| 0 <= j < i + 1 && (#[trigger] pv[j]).0 == id@ && pv[j].1 == t) by {
                if exists|j: int| 0 <= j < i + 1 && (#[trigger] pv[j]).0 == id@ && pv[j].1 == t {
                    let j = choose|j: int| 0 <= j < i + 1 && (#[trigger] pv[j]).0 == id@ && pv[j].1 == t;
                    assert(j < i);
                }
            }
        }
        i = i + 1;
    }
}

/// The license of a row of package `id`.
pub open spec fn license_of(id: Seq<char>) -> spec_fn((Seq<char>, Seq<char>)) -> Option<Seq<char>> {
    |p: (Seq<char>, Seq<char>)|
        if p.0 == id {
            Some(p.1)
        } else {
            None
        }
}

/// Appends the licenses of the rows of package `id`, in row order.
fn add_licenses(licenses: &mut Vec<String>, id: &package::Id, rows: &Vec<(String, String)>)
    ensures
        strings_view(final(licenses)@) == strings_view(old(licenses)@) + pairs_view(rows@).filter_map(
            license_of(id@),
        ),
{
    let ghost rv = pairs_view(rows@);
    let ghost f = license_of(id@);
    let ghost start = strings_view(licenses@);
    let mut i: usize = 0;
    while i < rows.len()
        invariant
            i <= rows.len(),
            rv == pairs_view(rows@),
            f == license_of(id@),
            strings_view(licenses@) == start + rv.take(i as int).filter_map(f),
        decreases rows.len() - i,
    {
        proof {
            rv.lemma_filter_map_take_succ(f, i as int);
        }
        assert(rv[i as int] == (rows@[i as int].0@, rows@[i as int].1@));
        let ghost prev = strings_view(licenses@);
        if crate::text::str_equal(rows[i].0.as_str(), id.as_str()) {
            licenses.push(rows[i].1.clone());
            assert(strings_view(licenses@) =~= prev.push(rows@[i as int].1@));
        }
        assert(strings_view(licenses@) =~= start + rv.take(i + 1).filter_map(f));
        i = i + 1;
    }
    assert(rv.take(i as int) =~= rv);
}

/// What a `meta` row reads back as, given the license rows and the
/// dependency, provider and conflict rows: releases and the download size
/// converted back as Rust's `as` does, and the rows of its package attached.
pub open spec fn read_meta(
    row: MetaRowView,
    lic: Seq<(Seq<char>, Seq<char>)>,
    deps: Seq<(Seq<char>, Seq<char>)>,
    provs: Seq<(Seq<char>, Seq<char>)>,
    confs: Seq<(Seq<char>, Seq<char>)>,
) -> MetaView {
    MetaView {
        name: row.name,
        version_identifier: row.version_identifier,
        source_release: row.source_release as u64,
        build_release: row.build_release as u64,
        architecture: row.architecture,
        summary: row.summary,
        description: row.description,
        source_id: row.source_id,
        homepage: row.homepage,
        licenses: lic.filter_map(license_of(row.package)),
        dependencies: sorted_members(targets_for(deps, row.package)),
        providers: sorted_members(targets_for(provs, row.package)),
        conflicts: sorted_members(targets_for(confs, row.package)),
        uri: row.uri,
        hash: row.hash,
        download_size: match row.download_size {
            Some(s) => Some(s as u64),
            None => None,
        },
    }
}

/// The packages that `meta` rows read back as, by identifier; a later row
/// of the same package replaces an earlier one.
pub open spec fn read_map(
    rows: Seq<MetaRowView>,
    lic: Seq<(Seq<char>, Seq<char>)>,
    deps: Seq<(Seq<char>, Seq<char>)>,
    provs: Seq<(Seq<char>, Seq<char>)>,
    confs: Seq<(Seq<char>, Seq<char>)>,
) -> Map<Seq<char>, MetaView>
    decreases rows.len(),
{
    if rows.len() == 0 {
        Map::empty()
    } else {
        read_map(rows.drop_last(), lic, deps, provs, confs).insert(
            rows.last().package,
            read_meta(rows.last(), lic, deps, provs, confs),
        )
    }
}

/// `v` lists exactly the entries of `m`, strictly ordered by key.
pub open spec fn lists_entries<V>(v: Seq<(Seq<char>, V)>, m: Map<Seq<char>, V>) -> bool {
    &&& forall|i: int, j: int| 0 <= i < j < v.len() ==> lex_lt(#[trigger] v[i].0, #[trigger] v[j].0)
    &&& forall|i: int| 0 <= i < v.len() ==> m.dom().contains(#[trigger] v[i].0) && m[v[i].0] == v[i].1
    &&& forall|k: Seq<char>| #[trigger] m.dom().contains(k) ==> exists|i: int| 0 <= i < v.len() && v[i].0 == k
}


/// A key that sorts between the entries before `p` and the one at `p` (or
/// after all of them) is not listed.
proof fn lemma_key_absent<V>(v: Seq<(Seq<char>, V)>, m: Map<Seq<char>, V>, p: int, key: Seq<char>)
    requires
        lists_entries(v, m),
        0 <= p <= v.len(),
        forall|q: int| 0 <= q < p ==> lex_lt(#[trigger] v[q].0, key),
        p < v.len() ==> !lex_lt(v[p].0, key) && v[p].0 != key,
    ensures
        !m.dom().contains(key),
        p < v.len() ==> lex_lt(key, v[p].0),
{
    if p < v.len() {
        lemma_lex_trichotomy(key, v[p].0);
    }
    if m.dom().contains(key) {
        let j = choose|j: int| 0 <= j < v.len() && v[j].0 == key;
        lemma_lex_trichotomy(key, key);
        if j < p {
            assert(lex_lt(v[j].0, key));
        } else if j > p {
            assert(lex_lt(v[p].0, v[j].0));
            lemma_lex_trichotomy(v[p].0, key);
        }
    }
}

/// Inserting a new key at its place keeps the listing.
proof fn lemma_insert_entry<V>(v: Seq<(Seq<char>, V)>, m: Map<Seq<char>, V>, p: int, x: (Seq<char>, V))
    requires
        lists_entries(v, m),
        0 <= p <= v.len(),
        !m.dom().contains(x.0),
        forall|q: int| 0 <= q < p ==> lex_lt(#[trigger] v[q].0, x.0),
        p < v.len() ==> lex_lt(x.0, v[p].0),
    ensures
        lists_entries(v.insert(p, x), m.insert(x.0, x.1)),
{
    let w = v.insert(p, x);
    let m2 = m.insert(x.0, x.1);
    assert forall|i: int, j: int| 0 <= i < j < w.len() implies lex_lt(#[trigger] w[i].0, #[trigger] w[j].0) by {
        if j < p {
            assert(w[i] == v[i] && w[j] == v[j]);
        } else if j == p {
            assert(w[i] == v[i]);
        } else if i == p {
            assert(w[j] == v[j - 1]);
            if j - 1 > p {
                assert(lex_lt(v[p].0, v[j - 1].0));
                lemma_lex_transitive(x.0, v[p].0, v[j - 1].0);
            }
        } else if i < p {
            assert(w[i] == v[i] && w[j] == v[j - 1]);
            if j - 1 == p {
                lemma_lex_transitive(v[i].0, x.0, v[p].0);
            } else {
                assert(lex_lt(v[i].0, v[j - 1].0));
            }
        } else {
            assert(w[i] == v[i - 1] && w[j] == v[j - 1]);
            assert(lex_lt(v[i - 1].0, v[j - 1].0));
        }
    }
    assert forall|i: int| 0 <= i < w.len() implies m2.dom().contains(#[trigger] w[i].0) && m2[w[i].0] == w[i].1 by {
        if i < p {
            assert(w[i] == v[i]);
            assert(m.dom().contains(v[i].0));
        } else if i > p {
            assert(w[i] == v[i - 1]);
            assert(m.dom().contains(v[i - 1].0));
        }
    }
    assert forall|k: Seq<char>| #[trigger] m2.dom().contains(k) implies exists|i: int| 0 <= i < w.len() && w[i].0 == k by {
        if k == x.0 {
            assert(w[p].0 == k);
        } else {
            let i = choose|i: int| 0 <= i < v.len() && v[i].0 == k;
            if i < p {
                assert(w[i].0 == k);
            } else {
                assert(w[i + 1].0 == k);
            }
        }
    }
}

/// Replacing the value of a listed key keeps the listing.
proof fn lemma_replace_entry<V>(v: Seq<(Seq<char>, V)>, m: Map<Seq<char>, V>, p: int, x: (Seq<char>, V))
    requires
        lists_entries(v, m),
        0 <= p < v.len(),
        v[p].0 == x.0,
    ensures
        lists_entries(v.update(p, x), m.insert(x.0, x.1)),
{
    let w = v.update(p, x);
    let m2 = m.insert(x.0, x.1);
    assert forall|i: int, j: int| 0 <= i < j < w.len() implies lex_lt(#[trigger] w[i].0, #[trigger] w[j].0) by {
        assert(lex_lt(v[i].0, v[j].0));
    }
    assert forall|i: int| 0 <= i < w.len() implies m2.dom().contains(#[trigger] w[i].0) && m2[w[i].0] == w[i].1 by {
        if i != p {
            assert(m.dom().contains(v[i].0));
            assert(lex_lt(v[i].0, v[p].0) || lex_lt(v[p].0, v[i].0));
            lemma_lex_trichotomy(v[i].0, v[i].0);
        }
    }
    assert forall|k: Seq<char>| #[trigger] m2.dom().contains(k) implies exists|i: int| 0 <= i < w.len() && w[i].0 == k by {
        if k == x.0 {
            assert(w[p].0 == k);
        } else {
            let i = choose|i: int| 0 <= i < v.len() && v[i].0 == k;
            assert(w[i].0 == k);
        }
    }
}

/// Whether identifier `a` sorts strictly before `b`.
fn id_before(a: &package::Id, b: &package::Id) -> (r: bool)
    ensures
        r == lex_lt(a@, b@),
{
    match compare_str(a.as_str(), b.as_str()) {
        Comparison::Less => true,
        _ => false,
    }
}

/// Puts package `id` with metadata `meta` in its place in `out`, ordered by
/// identifier, replacing an entry of the same identifier.
fn put_entry(out: &mut Vec<(package::Id, Meta)>, id: package::Id, meta: Meta, Ghost(m): Ghost<Map<Seq<char>, MetaView>>)
    requires
        lists_entries(entries_view(old(out)@), m),
    ensures
        lists_entries(entries_view(final(out)@), m.insert(id@, meta@)),
{
    let ghost v = entries_view(out@);
    let ghost x = (id@, meta@);
    let mut p: usize = 0;
    while p < out.len() && id_before(&out[p].0, &id)
        invariant
            p <= out.len(),
            v == entries_view(out@),
            forall|q: int| 0 <= q < p ==> lex_lt(#[trigger] v[q].0, id@),
        decreases out.len() - p,
    {
        assert(v[p as int].0 == out@[p as int].0@);
        p = p + 1;
    }
    if p < out.len() && out[p].0.same(&id) {
        proof {
            lemma_replace_entry(v, m, p as int, x);
        }
        out.set(p, (id, meta));
        assert(entries_view(out@) =~= v.update(p as int, x));
    } else {
        proof {
            if p < out.len() {
                assert(v[p as int].0 == out@[p as int].0@);
            }
            lemma_key_absent(v, m, p as int, id@);
            lemma_insert_entry(v, m, p as int, x);
        }
        out.insert(p, (id, meta));
        assert(entries_view(out@) =~= v.insert(p as int, x));
    }
}

/// The metadata of a `meta` row alone, releases and the download size
/// converted back to unsigned as Rust's `as` does.
fn decode_meta_row(row: &MetaRow) -> (r: (package::Id, Meta))
    ensures
        r.0@ == row.package@,
        r.1.dependencies.wf(),
        r.1.providers.wf(),
        r.1.conflicts.wf(),
        r.1@ == (MetaView {
            licenses: Seq::empty(),
            dependencies: Seq::empty(),
            providers: Seq::empty(),
            conflicts: Seq::empty(),
            ..read_meta(row@, Seq::empty(), Seq::empty(), Seq::empty(), Seq::empty())
        }),
{
    let meta = Meta {
        name: Name(row.name.clone()),
        version_identifier: row.version_identifier.clone(),
        source_release: row.source_release as u64,
        build_release: row.build_release as u64,
        architecture: row.architecture.clone(),
        summary: row.summary.clone(),
        description: row.description.clone(),
        source_id: row.source_id.clone(),
        homepage: row.homepage.clone(),
        licenses: Vec::new(),
        dependencies: TargetSet::new(),
        providers: TargetSet::new(),
        conflicts: TargetSet::new(),
        uri: row.uri.clone(),
        hash: row.hash.clone(),
        download_size: match row.download_size {
            Some(s) => Some(s as u64),
            None => None,
        },
    };
    assert(strings_view(meta.licenses@) =~= Seq::<Seq<char>>::empty());
    (package::Id(row.package.clone()), meta)
}

/// The targets gathered for package `id` are those its rows parse as.
proof fn lemma_gathered_targets<T: Target>(
    set: Set<(Kind, Seq<char>)>,
    rows: Seq<(Seq<char>, Seq<char>)>,
    parsed: Seq<(package::Id, T)>,
    id: Seq<char>,
)
    requires
        parsed.len() == rows.len(),
        forall|j: int|
            0 <= j < rows.len() ==> (#[trigger] parsed_view(parsed)[j]).0 == rows[j].0 && parse_spec(rows[j].1)
                == Ok::<(Kind, Seq<char>), Seq<char>>(parsed_view(parsed)[j].1),
        forall|t: (Kind, Seq<char>)|
            #[trigger] set.contains(t) <==> exists|j: int|
                0 <= j < parsed.len() && (#[trigger] parsed_view(parsed)[j]).0 == id && parsed_view(parsed)[j].1 == t,
    ensures
        set == targets_for(rows, id),
{
    assert forall|t: (Kind, Seq<char>)| set.contains(t) <==> targets_for(rows, id).contains(t) by {
        if set.contains(t) {
            let j = choose|j: int|
                0 <= j < parsed.len() && (#[trigger] parsed_view(parsed)[j]).0 == id && parsed_view(parsed)[j].1 == t;
            assert(rows[j].0 == id);
        }
        if targets_for(rows, id).contains(t) {
            let j = choose|j: int|
                0 <= j < rows.len() && #[trigger] rows[j].0 == id && parse_spec(rows[j].1) == Ok::<
                    (Kind, Seq<char>),
                    Seq<char>,
                >(t);
            assert(parsed_view(parsed)[j].0 == id);
        }
    }
    assert(set =~= targets_for(rows, id));
}

/// The packages a query reads back from its rows: each `meta` row with the
/// licenses, dependencies, providers and conflicts of its package attached,
/// ordered by package identifier, a later row of a package replacing an
/// earlier one. Fails with the error of the first dependency, then provider,
/// then conflict row whose value does not parse as `kind(name)`.
pub fn read_metas(
    metas: &Vec<MetaRow>,
    licenses: &Vec<(String, String)>,
    dependencies: &Vec<(String, String)>,
    providers: &Vec<(String, String)>,
    conflicts: &Vec<(String, String)>,
) -> (r: Result<Vec<(package::Id, Meta)>, ParseError>)
    ensures
        match r {
            Ok(v) => all_parse(pairs_view(dependencies@)) && all_parse(pairs_view(providers@)) && all_parse(
                pairs_view(conflicts@),
            ) && lists_entries(
                entries_view(v@),
                read_map(
                    rows_view(metas@),
                    pairs_view(licenses@),
                    pairs_view(dependencies@),
                    pairs_view(providers@),
                    pairs_view(conflicts@),
                ),
            ),
            Err(e) => first_failure(pairs_view(dependencies@), e.0@) || (all_parse(pairs_view(dependencies@))
                && first_failure(pairs_view(providers@), e.0@)) || (all_parse(pairs_view(dependencies@))
                && all_parse(pairs_view(providers@)) && first_failure(pairs_view(conflicts@), e.0@)),
        },
{
    let deps = match parse_rows::<Dependency>(dependencies) {
        Ok(d) => d,
        Err(e) => return Err(e),
    };
    let provs = match parse_rows::<Provider>(providers) {
        Ok(p) => p,
        Err(e) => return Err(e),
    };
    let confs = match parse_rows::<Provider>(conflicts) {
        Ok(c) => c,
        Err(e) => return Err(e),
    };
    let ghost lic = pairs_view(licenses@);
    let ghost dv = pairs_view(dependencies@);
    let ghost prv = pairs_view(providers@);
    let ghost cv = pairs_view(conflicts@);
    let ghost rv = rows_view(metas@);
    let mut out: Vec<(package::Id, Meta)> = Vec::new();
    let mut i: usize = 0;
    assert(rv.take(0) =~= Seq::<MetaRowView>::empty());
    assert(entries_view(out@) =~= Seq::<(Seq<char>, MetaView)>::empty());
    while i < metas.len()
        invariant
            i <= metas.len(),
            lic == pairs_view(licenses@),
            dv == pairs_view(dependencies@),
            prv == pairs_view(providers@),
            cv == pairs_view(conflicts@),
            rv == rows_view(metas@),
            deps.len() == dependencies.len(),
            provs.len() == providers.len(),
            confs.len() == conflicts.len(),
            forall|j: int|
                0 <= j < dependencies.len() ==> (#[trigger] parsed_view(deps@)[j]).0 == dependencies@[j].0@
                    && parse_spec(dependencies@[j].1@) == Ok::<(Kind, Seq<char>), Seq<char>>(parsed_view(deps@)[j].1),
            forall|j: int|
                0 <= j < providers.len() ==> (#[trigger] parsed_view(provs@)[j]).0 == providers@[j].0@ && parse_spec(
                    providers@[j].1@,
                ) == Ok::<(Kind, Seq<char>), Seq<char>>(parsed_view(provs@)[j].1),
            forall|j: int|
                0 <= j < conflicts.len() ==> (#[trigger] parsed_view(confs@)[j]).0 == conflicts@[j].0@ && parse_spec(
                    conflicts@[j].1@,
                ) == Ok::<(Kind, Seq<char>), Seq<char>>(parsed_view(confs@)[j].1),
            lists_entries(entries_view(out@), read_map(rv.take(i as int), lic, dv, prv, cv)),
        decreases metas.len() - i,
    {
        let (id, mut meta) = decode_meta_row(&metas[i]);
        let ghost row = rv[i as int];
        assert(row == metas@[i as int]@);
        add_licenses(&mut meta.licenses, &id, licenses);
        add_targets(&mut meta.dependencies, &id, &deps);
        add_targets(&mut meta.providers, &id, &provs);
        add_targets(&mut meta.conflicts, &id, &confs);
        proof {
            assert(strings_view(meta.licenses@) =~= lic.filter_map(license_of(row.package)));
            lemma_gathered_targets(meta.dependencies.members().to_set(), dv, deps@, id@);
            lemma_gathered_targets(meta.providers.members().to_set(), prv, provs@, id@);
            lemma_gathered_targets(meta.conflicts.members().to_set(), cv, confs@, id@);
            lemma_sorted_members(meta.dependencies.members());
            lemma_sorted_members(meta.providers.members());
            lemma_sorted_members(meta.conflicts.members());
            assert(meta@ == read_meta(row, lic, dv, prv, cv));
            assert(rv.take(i + 1).drop_last() =~= rv.take(i as int));
            assert(rv.take(i + 1).last() == row);
        }
        put_entry(&mut out, id, meta, Ghost(read_map(rv.take(i as int), lic, dv, prv, cv)));
        i = i + 1;
    }
    assert(rv.take(i as int) =~= rv);
    Ok(out)
}

/// Metadata that the database stores without loss: releases that fit in
/// an `i32`, dependency, provider and conflict sets in their strict order,
/// and licenses without repeats (the license table keeps each license of a
/// package once). Any download size comes back: it is stored as the `i64`
/// of the same bits.
pub open spec fn fits_store(m: MetaView) -> bool {
    &&& m.source_release <= i32::MAX
    &&& m.build_release <= i32::MAX
    &&& strictly_sorted(m.dependencies)
    &&& strictly_sorted(m.providers)
    &&& strictly_sorted(m.conflicts)
    &&& m.licenses.no_duplicates()
}

/// The identifiers of `ps` are pairwise distinct.
pub open spec fn distinct_ids(ps: Seq<(Seq<char>, MetaView)>) -> bool {
    forall|i: int, j: int| 0 <= i < j < ps.len() ==> #[trigger] ps[i].0 != #[trigger] ps[j].0
}

/// The license rows of one package, filtered for package `id`.
proof fn lemma_pairs_filter(owner: Seq<char>, t: Seq<Seq<char>>, id: Seq<char>)
    ensures
        pairs_of(owner, t).filter_map(license_of(id)) == if owner == id {
            t
        } else {
            Seq::<Seq<char>>::empty()
        },
    decreases t.len(),
{
    let rows = pairs_of(owner, t);
    if t.len() > 0 {
        lemma_pairs_filter(owner, t.drop_last(), id);
        assert(rows.drop_last() =~= pairs_of(owner, t.drop_last()));
        if owner == id {
            assert(t =~= t.drop_last().push(t.last()));
        }
    } else {
        assert(rows.len() == 0);
        if owner == id {
            assert(t =~= Seq::<Seq<char>>::empty());
        }
    }
}

proof fn lemma_license_rows_filter(owner: Seq<char>, l: Seq<Seq<char>>, id: Seq<char>)
    ensures
        license_rows(owner, l).filter_map(license_of(id)) == if owner == id {
            first_texts(l)
        } else {
            Seq::<Seq<char>>::empty()
        },
{
    lemma_pairs_filter(owner, first_texts(l), id);
}

/// The stored licenses, filtered for the package at `k`, are its licenses.
proof fn lemma_licenses_read(ps: Seq<(Seq<char>, MetaView)>, k: int)
    requires
        distinct_ids(ps),
        0 <= k <= ps.len(),
    ensures
        k < ps.len() ==> stored_licenses(ps).filter_map(license_of(ps[k].0)) == first_texts(ps[k].1.licenses),
        forall|id: Seq<char>|
            (forall|j: int| 0 <= j < ps.len() ==> #[trigger] ps[j].0 != id) ==> stored_licenses(ps).filter_map(
                license_of(id),
            ) == Seq::<Seq<char>>::empty(),
    decreases ps.len(),
{
    let f = |p: (Seq<char>, MetaView)| license_rows(p.0, p.1.licenses);
    if ps.len() > 0 {
        let d = ps.drop_last();
        let last = ps.last();
        assert(distinct_ids(d)) by {
            assert forall|i: int, j: int| 0 <= i < j < d.len() implies #[trigger] d[i].0 != #[trigger] d[j].0 by {
                assert(d[i] == ps[i] && d[j] == ps[j]);
            }
        }
        lemma_licenses_read(d, if k < d.len() { k } else { d.len() as int });
        assert(stored_licenses(ps) == stored_licenses(d) + f(last));
        assert forall|id: Seq<char>|
            (forall|j: int| 0 <= j < ps.len() ==> #[trigger] ps[j].0 != id) implies stored_licenses(ps).filter_map(
                license_of(id),
            ) == Seq::<Seq<char>>::empty() by {
            assert forall|j: int| 0 <= j < d.len() implies #[trigger] d[j].0 != id by {
                assert(d[j] == ps[j]);
            }
            lemma_filter_map_add(stored_licenses(d), f(last), license_of(id));
            lemma_license_rows_filter(last.0, last.1.licenses, id);
            assert(ps[ps.len() - 1].0 != id);
        }
        if k < ps.len() {
            let id = ps[k].0;
            lemma_filter_map_add(stored_licenses(d), f(last), license_of(id));
            lemma_license_rows_filter(last.0, last.1.licenses, id);
            if k == ps.len() - 1 {
                assert forall|j: int| 0 <= j < d.len() implies #[trigger] d[j].0 != id by {
                    assert(d[j] == ps[j]);
                }
                assert(stored_licenses(ps).filter_map(license_of(id)) =~= first_texts(ps[k].1.licenses));
            } else {
                assert(d[k] == ps[k]);
                assert(ps[ps.len() - 1].0 != id);
                assert(stored_licenses(ps).filter_map(license_of(id)) =~= first_texts(ps[k].1.licenses));
            }
        }
    } else {
        assert forall|id: Seq<char>| true implies stored_licenses(ps).filter_map(license_of(id)) == Seq::<
            Seq<char>,
        >::empty() by {
            assert(stored_licenses(ps).len() == 0);
        }
    }
}

/// The rows stored for the targets that `sel` picks from each package
/// parse, and those of the package at `k` parse as its targets.
proof fn lemma_targets_read(
    ps: Seq<(Seq<char>, MetaView)>,
    f: spec_fn((Seq<char>, MetaView)) -> Seq<(Seq<char>, Seq<char>)>,
    sel: spec_fn(MetaView) -> Seq<(Kind, Seq<char>)>,
    k: int,
)
    requires
        distinct_ids(ps),
        0 <= k < ps.len(),
        forall|p: (Seq<char>, MetaView)| #[trigger] f(p) == target_rows(p.0, sel(p.1)),
    ensures
        all_parse(concat_map(ps, f)),
        targets_for(concat_map(ps, f), ps[k].0) == sel(ps[k].1).to_set(),
{
    let rows = concat_map(ps, f);
    let id = ps[k].0;
    assert forall|j: int| 0 <= j < rows.len() implies !row_fails(#[trigger] rows[j]) by {
        assert(rows.contains(rows[j]));
        lemma_concat_map_contains(ps, f, rows[j]);
        let i = choose|i: int| 0 <= i < ps.len() && #[trigger] f(ps[i]).contains(rows[j]);
        let q = choose|q: int| 0 <= q < f(ps[i]).len() && #[trigger] f(ps[i])[q] == rows[j];
        let u = sel(ps[i].1)[q];
        lemma_target_roundtrip(u.0, u.1);
    }
    assert forall|t: (Kind, Seq<char>)| #[trigger] targets_for(rows, id).contains(t) <==> sel(ps[k].1).to_set().contains(t) by {
        if targets_for(rows, id).contains(t) {
            let j = choose|j: int|
                0 <= j < rows.len() && #[trigger] rows[j].0 == id && parse_spec(rows[j].1) == Ok::<
                    (Kind, Seq<char>),
                    Seq<char>,
                >(t);
            assert(rows.contains(rows[j]));
            lemma_concat_map_contains(ps, f, rows[j]);
            let i = choose|i: int| 0 <= i < ps.len() && #[trigger] f(ps[i]).contains(rows[j]);
            let q = choose|q: int| 0 <= q < f(ps[i]).len() && #[trigger] f(ps[i])[q] == rows[j];
            let u = sel(ps[i].1)[q];
            lemma_target_roundtrip(u.0, u.1);
            if i != k {
                if i < k {
                    assert(ps[i].0 != ps[k].0);
                } else {
                    assert(ps[k].0 != ps[i].0);
                }
            }
            assert(sel(ps[k].1)[q] == t);
        }
        if sel(ps[k].1).to_set().contains(t) {
            let q = choose|q: int| 0 <= q < sel(ps[k].1).len() && #[trigger] sel(ps[k].1)[q] == t;
            let row = (id, rendered(t));
            assert(f(ps[k])[q] == row);
            lemma_concat_map_includes(ps, f, k, row);
            let j = choose|j: int| 0 <= j < rows.len() && #[trigger] rows[j] == row;
            lemma_target_roundtrip(t.0, t.1);
            assert(rows[j].0 == id);
        }
    }
    assert(targets_for(rows, id) =~= sel(ps[k].1).to_set());
}

/// Reading rows whose packages are distinct gives each package the
/// metadata of its own row.
proof fn lemma_read_map_distinct(
    rows: Seq<MetaRowView>,
    lic: Seq<(Seq<char>, Seq<char>)>,
    deps: Seq<(Seq<char>, Seq<char>)>,
    provs: Seq<(Seq<char>, Seq<char>)>,
    confs: Seq<(Seq<char>, Seq<char>)>,
)
    requires
        forall|i: int, j: int| 0 <= i < j < rows.len() ==> #[trigger] rows[i].package != #[trigger] rows[j].package,
    ensures
        forall|k: int|
            0 <= k < rows.len() ==> read_map(rows, lic, deps, provs, confs).dom().contains(#[trigger] rows[k].package)
                && read_map(rows, lic, deps, provs, confs)[rows[k].package] == read_meta(rows[k], lic, deps, provs, confs),
        forall|key: Seq<char>|
            #[trigger] read_map(rows, lic, deps, provs, confs).dom().contains(key) ==> exists|k: int|
                0 <= k < rows.len() && rows[k].package == key,
    decreases rows.len(),
{
    if rows.len() > 0 {
        let d = rows.drop_last();
        lemma_read_map_distinct(d, lic, deps, provs, confs);
        assert forall|k: int| 0 <= k < rows.len() implies read_map(rows, lic, deps, provs, confs).dom().contains(
            #[trigger] rows[k].package,
        ) && read_map(rows, lic, deps, provs, confs)[rows[k].package] == read_meta(rows[k], lic, deps, provs, confs) by {
            if k < rows.len() - 1 {
                assert(d[k] == rows[k]);
                assert(rows[k].package != rows[rows.len() - 1].package);
            }
        }
        assert forall|key: Seq<char>|
            #[trigger] read_map(rows, lic, deps, provs, confs).dom().contains(key) implies exists|k: int|
                0 <= k < rows.len() && rows[k].package == key by {
            if key != rows.last().package {
                assert(read_map(d, lic, deps, provs, confs).dom().contains(key));
                let k = choose|k: int| 0 <= k < d.len() && d[k].package == key;
                assert(rows[k].package == key);
            } else {
                assert(rows[rows.len() - 1].package == key);
            }
        }
    }
}

/// What the database stores for a batch of packages with distinct
/// identifiers reads back as exactly that batch: every stored dependency,
/// provider and conflict parses, and each identifier reads back as its
/// package's metadata, provided the metadata fits the store.
pub proof fn lemma_store_then_read(ps: Seq<(Seq<char>, MetaView)>)
    requires
        distinct_ids(ps),
        forall|i: int| 0 <= i < ps.len() ==> fits_store(#[trigger] ps[i].1),
    ensures
        all_parse(stored_dependencies(ps)),
        all_parse(stored_providers(ps)),
        all_parse(stored_conflicts(ps)),
        forall|i: int|
            0 <= i < ps.len() ==> read_map(
                stored_metas(ps),
                stored_licenses(ps),
                stored_dependencies(ps),
                stored_providers(ps),
                stored_conflicts(ps),
            ).dom().contains(#[trigger] ps[i].0) && read_map(
                stored_metas(ps),
                stored_licenses(ps),
                stored_dependencies(ps),
                stored_providers(ps),
                stored_conflicts(ps),
            )[ps[i].0] == ps[i].1,
        forall|key: Seq<char>|
            #[trigger] read_map(
                stored_metas(ps),
                stored_licenses(ps),
                stored_dependencies(ps),
                stored_providers(ps),
                stored_conflicts(ps),
            ).dom().contains(key) ==> exists|i: int| 0 <= i < ps.len() && ps[i].0 == key,
{
    let rows = stored_metas(ps);
    let lic = stored_licenses(ps);
    let deps = stored_dependencies(ps);
    let provs = stored_providers(ps);
    let confs = stored_conflicts(ps);
    let fd = |p: (Seq<char>, MetaView)| target_rows(p.0, p.1.dependencies);
    let fp = |p: (Seq<char>, MetaView)| target_rows(p.0, p.1.providers);
    let fc = |p: (Seq<char>, MetaView)| target_rows(p.0, p.1.conflicts);
    let sd = |m: MetaView| m.dependencies;
    let sp = |m: MetaView| m.providers;
    let sc = |m: MetaView| m.conflicts;
    assert forall|i: int, j: int| 0 <= i < j < rows.len() implies #[trigger] rows[i].package
        != #[trigger] rows[j].package by {
        assert(rows[i].package == ps[i].0 && rows[j].package == ps[j].0);
    }
    lemma_read_map_distinct(rows, lic, deps, provs, confs);
    if ps.len() > 0 {
        lemma_targets_read(ps, fd, sd, 0);
        lemma_targets_read(ps, fp, sp, 0);
        lemma_targets_read(ps, fc, sc, 0);
    } else {
        assert(deps.len() == 0 && provs.len() == 0 && confs.len() == 0);
    }
    assert forall|i: int| 0 <= i < ps.len() implies read_map(rows, lic, deps, provs, confs).dom().contains(
        #[trigger] ps[i].0,
    ) && read_map(rows, lic, deps, provs, confs)[ps[i].0] == ps[i].1 by {
        let m = ps[i].1;
        assert(rows[i] == row_of(ps[i].0, m));
        assert(rows[i].package == ps[i].0);
        lemma_licenses_read(ps, i);
        lemma_first_texts_distinct(m.licenses);
        lemma_targets_read(ps, fd, sd, i);
        lemma_targets_read(ps, fp, sp, i);
        lemma_targets_read(ps, fc, sc, i);
        assert(fits_store(m));
        lemma_sorted_members(m.dependencies);
        lemma_sorted_members(m.providers);
        lemma_sorted_members(m.conflicts);
        let sr = m.source_release;
        let br = m.build_release;
        assert(sr <= 0x7fff_ffff ==> ((sr as i32) as u64) == sr) by (bit_vector);
        assert(br <= 0x7fff_ffff ==> ((br as i32) as u64) == br) by (bit_vector);
        match m.download_size {
            Some(s) => {
                assert(((s as i64) as u64) == s) by (bit_vector);
            },
            None => {},
        }
        assert(read_meta(rows[i], lic, deps, provs, confs) == m);
    }
    assert forall|key: Seq<char>|
        #[trigger] read_map(rows, lic, deps, provs, confs).dom().contains(key) implies exists|i: int|
            0 <= i < ps.len() && ps[i].0 == key by {
        let k = choose|k: int| 0 <= k < rows.len() && rows[k].package == key;
        assert(ps[k].0 == key);
    }
}

} // verus!
