//! Package metadata and its conversion to and from `.stone` metadata records.

use vstd::prelude::*;

use crate::dependency::{
    self, kind_of_meta, lemma_kind_conversions, meta_of_kind, Dependency, Kind, Provider, Target, TargetSet,
};
use crate::stone::{records_view, MetaBody, MetaKind, MetaTag, MetaValue};
use crate::text::{contains_seq, decimal, push_char, str_contains, u64_to_decimal};

verus! {

/// A package identifier constructed from metadata fields
#[derive(Debug, Clone, PartialEq, Eq, Ord, PartialOrd)]
pub struct Id(pub String);

/// The name of a [`super::Package`]
#[derive(Debug, Clone, PartialEq, Eq, PartialOrd, Ord, Hash)]
pub struct Name(pub String);

impl View for Name {
    type V = Seq<char>;

    open spec fn view(&self) -> Seq<char> {
        self.0@
    }
}

impl Name {
    /// A name made of `s`.
    pub fn from(s: String) -> (r: Name)
        ensures
            r@ == s@,
    {
        Name(s)
    }

    /// Whether `text` occurs in the name.
    pub fn contains(&self, text: &str) -> (r: bool)
        ensures
            r == contains_seq(self@, text@),
    {
        str_contains(self.0.as_str(), text)
    }

    /// The name's text.
    pub fn as_str(&self) -> (s: &str)
        ensures
            s@ == self@,
    {
        self.0.as_str()
    }

    /// A copy of the name.
    pub fn duplicate(&self) -> (r: Name)
        ensures
            r@ == self@,
    {
        Name(self.0.clone())
    }

    /// Whether two names are equal.
    pub fn same(&self, other: &Name) -> (r: bool)
        ensures
            r == (self@ == other@),
    {
        self.0 == other.0
    }
}

/// The metadata of a [`super::Package`]
#[derive(Debug, Clone, PartialEq, Eq)]
pub struct Meta {
    /// Package name
    pub name: Name,
    /// Human readable version identifier
    pub version_identifier: String,
    /// Package release as set in stone.yml
    pub source_release: u64,
    /// Build machinery specific build release
    pub build_release: u64,
    /// Architecture this was built for
    pub architecture: String,
    /// Brief one line summary of the package
    pub summary: String,
    /// Description of the package
    pub description: String,
    /// The source-grouping ID
    pub source_id: String,
    /// Where'd we find this guy..
    pub homepage: String,
    /// Licenses this is available under
    pub licenses: Vec<String>,
    /// All dependencies
    pub dependencies: TargetSet<Dependency>,
    /// All providers, including name()
    pub providers: TargetSet<Provider>,
    /// All providers that conflict with this package
    pub conflicts: TargetSet<Provider>,
    /// If relevant: uri to fetch from
    pub uri: Option<String>,
    /// If relevant: hash for the download
    pub hash: Option<String>,
    /// How big is this package in the repo..?
    pub download_size: Option<u64>,
}

/// Mathematical form of [`Meta`].
pub struct MetaView {
    pub name: Seq<char>,
    pub version_identifier: Seq<char>,
    pub source_release: u64,
    pub build_release: u64,
    pub architecture: Seq<char>,
    pub summary: Seq<char>,
    pub description: Seq<char>,
    pub source_id: Seq<char>,
    pub homepage: Seq<char>,
    pub licenses: Seq<Seq<char>>,
    pub dependencies: Seq<(Kind, Seq<char>)>,
    pub providers: Seq<(Kind, Seq<char>)>,
    pub conflicts: Seq<(Kind, Seq<char>)>,
    pub uri: Option<Seq<char>>,
    pub hash: Option<Seq<char>>,
    pub download_size: Option<u64>,
}

/// The mathematical form of an optional string.
pub open spec fn opt_view(o: Option<String>) -> Option<Seq<char>> {
    match o {
        Some(s) => Some(s@),
        None => None,
    }
}

/// The mathematical form of a list of strings.
pub open spec fn strings_view(v: Seq<String>) -> Seq<Seq<char>> {
    v.map_values(|s: String| s@)
}

impl View for Meta {
    type V = MetaView;

    open spec fn view(&self) -> MetaView {
        MetaView {
            name: self.name@,
            version_identifier: self.version_identifier@,
            source_release: self.source_release,
            build_release: self.build_release,
            architecture: self.architecture@,
            summary: self.summary@,
            description: self.description@,
            source_id: self.source_id@,
            homepage: self.homepage@,
            licenses: strings_view(self.licenses@),
            dependencies: self.dependencies.members(),
            providers: self.providers.members(),
            conflicts: self.conflicts.members(),
            uri: opt_view(self.uri),
            hash: opt_view(self.hash),
            download_size: self.download_size,
        }
    }
}

/// The textual value of record `b` if it carries tag `tag` and a string.
pub open spec fn record_string(b: (MetaTag, MetaValue), tag: MetaTag) -> Option<Seq<char>> {
    if b.0 == tag {
        match b.1 {
            MetaValue::Text(v) => Some(v),
            _ => None,
        }
    } else {
        None
    }
}

/// The numeric value of record `b` if it carries tag `tag` and an integer,
/// converted to `u64` as Rust's `as` does (signed values wrap).
pub open spec fn record_u64(b: (MetaTag, MetaValue), tag: MetaTag) -> Option<u64> {
    if b.0 == tag {
        match b.1 {
            MetaValue::Int8(i) => Some(i as u64),
            MetaValue::Uint8(i) => Some(i as u64),
            MetaValue::Int16(i) => Some(i as u64),
            MetaValue::Uint16(i) => Some(i as u64),
            MetaValue::Int32(i) => Some(i as u64),
            MetaValue::Uint32(i) => Some(i as u64),
            MetaValue::Int64(i) => Some(i as u64),
            MetaValue::Uint64(i) => Some(i),
            _ => None,
        }
    } else {
        None
    }
}

/// The dependency carried by record `b`, whatever its tag.
pub open spec fn record_dependency(b: (MetaTag, MetaValue)) -> Option<(Kind, Seq<char>)> {
    match b.1 {
        MetaValue::Dependency(k, n) => Some((kind_of_meta(k), n)),
        _ => None,
    }
}

/// The provider carried by record `b` if it is tagged `tag`.
pub open spec fn record_provider(b: (MetaTag, MetaValue), tag: MetaTag) -> Option<(Kind, Seq<char>)> {
    if b.0 == tag {
        match b.1 {
            MetaValue::Provider(k, n) => Some((kind_of_meta(k), n)),
            _ => None,
        }
    } else {
        None
    }
}

/// `i` is the first record of `r` with a string under `tag`.
pub open spec fn first_string_at(r: Seq<(MetaTag, MetaValue)>, tag: MetaTag, i: int) -> bool {
    &&& 0 <= i < r.len()
    &&& record_string(r[i], tag) is Some
    &&& forall|j: int| 0 <= j < i ==> record_string(#[trigger] r[j], tag) is None
}

/// The string under `tag` in the first record that has one.
pub open spec fn find_string(r: Seq<(MetaTag, MetaValue)>, tag: MetaTag) -> Option<Seq<char>> {
    if exists|i: int| first_string_at(r, tag, i) {
        record_string(r[choose|i: int| first_string_at(r, tag, i)], tag)
    } else {
        None
    }
}

/// `i` is the first record of `r` with an integer under `tag`.
pub open spec fn first_u64_at(r: Seq<(MetaTag, MetaValue)>, tag: MetaTag, i: int) -> bool {
    &&& 0 <= i < r.len()
    &&& record_u64(r[i], tag) is Some
    &&& forall|j: int| 0 <= j < i ==> record_u64(#[trigger] r[j], tag) is None
}

/// The integer under `tag` in the first record that has one.
pub open spec fn find_u64(r: Seq<(MetaTag, MetaValue)>, tag: MetaTag) -> Option<u64> {
    if exists|i: int| first_u64_at(r, tag, i) {
        record_u64(r[choose|i: int| first_u64_at(r, tag, i)], tag)
    } else {
        None
    }
}

/// The license strings of `r`, in order.
pub open spec fn licenses_of(r: Seq<(MetaTag, MetaValue)>) -> Seq<Seq<char>>
    decreases r.len(),
{
    if r.len() == 0 {
        Seq::empty()
    } else {
        match record_string(r.last(), MetaTag::License) {
            Some(v) => licenses_of(r.drop_last()).push(v),
            None => licenses_of(r.drop_last()),
        }
    }
}

/// All dependencies carried by records of `r`.
pub open spec fn dependency_set(r: Seq<(MetaTag, MetaValue)>) -> Set<(Kind, Seq<char>)> {
    Set::new(|t: (Kind, Seq<char>)| exists|i: int| 0 <= i < r.len() && record_dependency(r[i]) == Some(t))
}

/// All providers carried by records of `r` tagged `tag`.
pub open spec fn provider_set(r: Seq<(MetaTag, MetaValue)>, tag: MetaTag) -> Set<(Kind, Seq<char>)> {
    Set::new(|t: (Kind, Seq<char>)| exists|i: int| 0 <= i < r.len() && record_provider(r[i], tag) == Some(t))
}

/// The first required field that `r` lacks, in the order in which they are
/// looked up, if any.
pub open spec fn first_missing(r: Seq<(MetaTag, MetaValue)>) -> Option<MetaTag> {
    if find_string(r, MetaTag::Name) is None {
        Some(MetaTag::Name)
    } else if find_string(r, MetaTag::Version) is None {
        Some(MetaTag::Version)
    } else if find_u64(r, MetaTag::Release) is None {
        Some(MetaTag::Release)
    } else if find_u64(r, MetaTag::BuildRelease) is None {
        Some(MetaTag::BuildRelease)
    } else if find_string(r, MetaTag::Architecture) is None {
        Some(MetaTag::Architecture)
    } else if find_string(r, MetaTag::Summary) is None {
        Some(MetaTag::Summary)
    } else if find_string(r, MetaTag::Description) is None {
        Some(MetaTag::Description)
    } else if find_string(r, MetaTag::SourceID) is None {
        Some(MetaTag::SourceID)
    } else if find_string(r, MetaTag::Homepage) is None {
        Some(MetaTag::Homepage)
    } else {
        None
    }
}

/// `m` is the metadata that the records `r` describe: each field comes from
/// the first record with its tag, licenses are all license records in order,
/// dependencies are all dependency records, providers are the `Provides`
/// records plus the package's own name, conflicts are the `Conflicts`
/// records.
pub open spec fn meta_of_records(m: MetaView, r: Seq<(MetaTag, MetaValue)>) -> bool {
    &&& Some(m.name) == find_string(r, MetaTag::Name)
    &&& Some(m.version_identifier) == find_string(r, MetaTag::Version)
    &&& Some(m.source_release) == find_u64(r, MetaTag::Release)
    &&& Some(m.build_release) == find_u64(r, MetaTag::BuildRelease)
    &&& Some(m.architecture) == find_string(r, MetaTag::Architecture)
    &&& Some(m.summary) == find_string(r, MetaTag::Summary)
    &&& Some(m.description) == find_string(r, MetaTag::Description)
    &&& Some(m.source_id) == find_string(r, MetaTag::SourceID)
    &&& Some(m.homepage) == find_string(r, MetaTag::Homepage)
    &&& m.uri == find_string(r, MetaTag::PackageURI)
    &&& m.hash == find_string(r, MetaTag::PackageHash)
    &&& m.download_size == find_u64(r, MetaTag::PackageSize)
    &&& m.licenses == licenses_of(r)
    &&& m.dependencies.to_set() == dependency_set(r)
    &&& m.providers.to_set() == provider_set(r, MetaTag::Provides).insert((Kind::PackageName, m.name))
    &&& m.conflicts.to_set() == provider_set(r, MetaTag::Conflicts)
}

/// Error for metadata records that lack a required field.
#[derive(Debug)]
pub struct MissingMetaFieldError(pub MetaTag);

/// The string value of `meta` if it has tag `tag` and holds a string.
pub fn meta_string(meta: &MetaBody, tag: MetaTag) -> (r: Option<String>)
    ensures
        opt_view(r) == record_string(meta@, tag),
{
    if meta.tag == tag {
        match &meta.kind {
            MetaKind::String(value) => Some(value.clone()),
            _ => None,
        }
    } else {
        None
    }
}

/// The integer value of `meta` as `u64` if it has tag `tag` and holds an
/// integer.
pub fn meta_u64(meta: &MetaBody, tag: MetaTag) -> (r: Option<u64>)
    ensures
        r == record_u64(meta@, tag),
{
    if meta.tag == tag {
        match &meta.kind {
            MetaKind::Int8(i) => Some(*i as u64),
            MetaKind::Uint8(i) => Some(*i as u64),
            MetaKind::Int16(i) => Some(*i as u64),
            MetaKind::Uint16(i) => Some(*i as u64),
            MetaKind::Int32(i) => Some(*i as u64),
            MetaKind::Uint32(i) => Some(*i as u64),
            MetaKind::Int64(i) => Some(*i as u64),
            MetaKind::Uint64(i) => Some(*i),
            _ => None,
        }
    } else {
        None
    }
}

/// The dependency held by `meta`, if any.
pub fn meta_dependency(meta: &MetaBody) -> (r: Option<Dependency>)
    ensures
        match r {
            Some(d) => record_dependency(meta@) == Some(d@),
            None => record_dependency(meta@) is None,
        },
{
    match &meta.kind {
        MetaKind::Dependency(kind, name) => Some(Dependency { kind: Kind::from_meta(*kind), name: name.clone() }),
        _ => None,
    }
}

/// The provider held by `meta`, if it is tagged `tag`.
fn meta_tagged_provider(meta: &MetaBody, tag: MetaTag) -> (r: Option<Provider>)
    ensures
        match r {
            Some(p) => record_provider(meta@, tag) == Some(p@),
            None => record_provider(meta@, tag) is None,
        },
{
    if meta.tag == tag {
        match &meta.kind {
            MetaKind::Provider(kind, name) => Some(Provider { kind: Kind::from_meta(*kind), name: name.clone() }),
            _ => None,
        }
    } else {
        None
    }
}

/// The provider held by `meta`, if it is a `Provides` record.
pub fn meta_provider(meta: &MetaBody) -> (r: Option<Provider>)
    ensures
        match r {
            Some(p) => record_provider(meta@, MetaTag::Provides) == Some(p@),
            None => record_provider(meta@, MetaTag::Provides) is None,
        },
{
    meta_tagged_provider(meta, MetaTag::Provides)
}

/// The provider held by `meta`, if it is a `Conflicts` record.
pub fn meta_conflict(meta: &MetaBody) -> (r: Option<Provider>)
    ensures
        match r {
            Some(p) => record_provider(meta@, MetaTag::Conflicts) == Some(p@),
            None => record_provider(meta@, MetaTag::Conflicts) is None,
        },
{
    meta_tagged_provider(meta, MetaTag::Conflicts)
}

/// The string of the first record of `meta` with tag `tag`.
pub fn find_meta_string(meta: &[MetaBody], tag: MetaTag) -> (r: Result<String, MissingMetaFieldError>)
    ensures
        match r {
            Ok(s) => find_string(records_view(meta@), tag) == Some(s@),
            Err(e) => find_string(records_view(meta@), tag) is None && e.0 == tag,
        },
{
    let ghost rv = records_view(meta@);
    let mut i: usize = 0;
    while i < meta.len()
        invariant
            i <= meta.len(),
            rv == records_view(meta@),
            forall|j: int| 0 <= j < i ==> record_string(#[trigger] rv[j], tag) is None,
        decreases meta.len() - i,
    {
        match meta_string(&meta[i], tag) {
            Some(s) => {
                assert(first_string_at(rv, tag, i as int));
                let ghost k = choose|k: int| first_string_at(rv, tag, k);
                assert(k == i) by {
                    if k < i {
                        assert(record_string(rv[k], tag) is None);
                    }
                    if k > i {
                        assert(record_string(rv[i as int], tag) is None);
                    }
                }
                return Ok(s);
            },
            None => {},
        }
        i = i + 1;
    }
    Err(MissingMetaFieldError(tag))
}

/// The integer of the first record of `meta` with tag `tag`.
pub fn find_meta_u64(meta: &[MetaBody], tag: MetaTag) -> (r: Result<u64, MissingMetaFieldError>)
    ensures
        match r {
            Ok(v) => find_u64(records_view(meta@), tag) == Some(v),
            Err(e) => find_u64(records_view(meta@), tag) is None && e.0 == tag,
        },
{
    let ghost rv = records_view(meta@);
    let mut i: usize = 0;
    while i < meta.len()
        invariant
            i <= meta.len(),
            rv == records_view(meta@),
            forall|j: int| 0 <= j < i ==> record_u64(#[trigger] rv[j], tag) is None,
        decreases meta.len() - i,
    {
        match meta_u64(&meta[i], tag) {
            Some(v) => {
                assert(first_u64_at(rv, tag, i as int));
                let ghost k = choose|k: int| first_u64_at(rv, tag, k);
                assert(k == i) by {
                    if k < i {
                        assert(record_u64(rv[k], tag) is None);
                    }
                    if k > i {
                        assert(record_u64(rv[i as int], tag) is None);
                    }
                }
                return Ok(v);
            },
            None => {},
        }
        i = i + 1;
    }
    Err(MissingMetaFieldError(tag))
}


/// Extending the records by one extends the license list by that record's
/// license, if any.
proof fn lemma_licenses_step(r: Seq<(MetaTag, MetaValue)>, i: int)
    requires
        0 <= i < r.len(),
    ensures
        licenses_of(r.take(i + 1)) == match record_string(r[i], MetaTag::License) {
            Some(v) => licenses_of(r.take(i)).push(v),
            None => licenses_of(r.take(i)),
        },
{
    assert(r.take(i + 1).drop_last() =~= r.take(i));
    assert(r.take(i + 1).last() == r[i]);
}

/// Extending the records by one adds that record's dependency, if any.
proof fn lemma_dependency_set_step(r: Seq<(MetaTag, MetaValue)>, i: int)
    requires
        0 <= i < r.len(),
    ensures
        dependency_set(r.take(i + 1)) == match record_dependency(r[i]) {
            Some(t) => dependency_set(r.take(i)).insert(t),
            None => dependency_set(r.take(i)),
        },
{
    let a = r.take(i + 1);
    let b = r.take(i);
    assert forall|t: (Kind, Seq<char>)| #[trigger] dependency_set(a).contains(t) <==> (match record_dependency(r[i]) {
        Some(u) => dependency_set(b).insert(u),
        None => dependency_set(b),
    }).contains(t) by {
        if dependency_set(a).contains(t) {
            let k = choose|k: int| 0 <= k < a.len() && record_dependency(a[k]) == Some(t);
            if k < i {
                assert(b[k] == a[k]);
            }
        }
        if dependency_set(b).contains(t) {
            let k = choose|k: int| 0 <= k < b.len() && record_dependency(b[k]) == Some(t);
            assert(a[k] == b[k]);
        }
        if record_dependency(r[i]) == Some(t) {
            assert(a[i] == r[i]);
        }
    }
    assert(dependency_set(a) =~= match record_dependency(r[i]) {
        Some(u) => dependency_set(b).insert(u),
        None => dependency_set(b),
    });
}

/// Extending the records by one adds that record's provider under `tag`, if
/// any.
proof fn lemma_provider_set_step(r: Seq<(MetaTag, MetaValue)>, tag: MetaTag, i: int)
    requires
        0 <= i < r.len(),
    ensures
        provider_set(r.take(i + 1), tag) == match record_provider(r[i], tag) {
            Some(t) => provider_set(r.take(i), tag).insert(t),
            None => provider_set(r.take(i), tag),
        },
{
    let a = r.take(i + 1);
    let b = r.take(i);
    assert forall|t: (Kind, Seq<char>)| #[trigger] provider_set(a, tag).contains(t) <==> (match record_provider(r[i], tag) {
        Some(u) => provider_set(b, tag).insert(u),
        None => provider_set(b, tag),
    }).contains(t) by {
        if provider_set(a, tag).contains(t) {
            let k = choose|k: int| 0 <= k < a.len() && record_provider(a[k], tag) == Some(t);
            if k < i {
                assert(b[k] == a[k]);
            }
        }
        if provider_set(b, tag).contains(t) {
            let k = choose|k: int| 0 <= k < b.len() && record_provider(b[k], tag) == Some(t);
            assert(a[k] == b[k]);
        }
        if record_provider(r[i], tag) == Some(t) {
            assert(a[i] == r[i]);
        }
    }
    assert(provider_set(a, tag) =~= match record_provider(r[i], tag) {
        Some(u) => provider_set(b, tag).insert(u),
        None => provider_set(b, tag),
    });
}

/// The licenses of `payload`, in order.
fn collect_licenses(payload: &[MetaBody]) -> (r: Vec<String>)
    ensures
        strings_view(r@) == licenses_of(records_view(payload@)),
{
    let ghost rv = records_view(payload@);
    let mut out: Vec<String> = Vec::new();
    let mut i: usize = 0;
    assert(rv.take(0) =~= Seq::<(MetaTag, MetaValue)>::empty());
    assert(strings_view(out@) =~= Seq::<Seq<char>>::empty());
    while i < payload.len()
        invariant
            i <= payload.len(),
            rv == records_view(payload@),
            strings_view(out@) == licenses_of(rv.take(i as int)),
        decreases payload.len() - i,
    {
        proof {
            lemma_licenses_step(rv, i as int);
        }
        match meta_string(&payload[i], MetaTag::License) {
            Some(v) => {
                out.push(v);
                assert(strings_view(out@) =~= licenses_of(rv.take(i as int)).push(v@));
            },
            None => {},
        }
        i = i + 1;
    }
    assert(rv.take(payload.len() as int) =~= rv);
    out
}

/// The set of dependencies of `payload`.
fn collect_dependencies(payload: &[MetaBody]) -> (r: TargetSet<Dependency>)
    ensures
        r.wf(),
        r.members().to_set() == dependency_set(records_view(payload@)),
{
    let ghost rv = records_view(payload@);
    let mut out: TargetSet<Dependency> = TargetSet::new();
    let mut i: usize = 0;
    assert(rv.take(0) =~= Seq::<(MetaTag, MetaValue)>::empty());
    assert(dependency_set(rv.take(0)) =~= Set::<(Kind, Seq<char>)>::empty());
    assert(out.members().to_set() =~= Set::<(Kind, Seq<char>)>::empty());
    while i < payload.len()
        invariant
            i <= payload.len(),
            rv == records_view(payload@),
            out.wf(),
            out.members().to_set() == dependency_set(rv.take(i as int)),
        decreases payload.len() - i,
    {
        proof {
            lemma_dependency_set_step(rv, i as int);
        }
        match meta_dependency(&payload[i]) {
            Some(d) => {
                out.insert(d);
            },
            None => {},
        }
        i = i + 1;
    }
    assert(rv.take(payload.len() as int) =~= rv);
    out
}

/// The set of providers of `payload` tagged `tag`.
fn collect_providers(payload: &[MetaBody], tag: MetaTag) -> (r: TargetSet<Provider>)
    ensures
        r.wf(),
        r.members().to_set() == provider_set(records_view(payload@), tag),
{
    let ghost rv = records_view(payload@);
    let mut out: TargetSet<Provider> = TargetSet::new();
    let mut i: usize = 0;
    assert(rv.take(0) =~= Seq::<(MetaTag, MetaValue)>::empty());
    assert(provider_set(rv.take(0), tag) =~= Set::<(Kind, Seq<char>)>::empty());
    assert(out.members().to_set() =~= Set::<(Kind, Seq<char>)>::empty());
    while i < payload.len()
        invariant
            i <= payload.len(),
            rv == records_view(payload@),
            out.wf(),
            out.members().to_set() == provider_set(rv.take(i as int), tag),
        decreases payload.len() - i,
    {
        proof {
            lemma_provider_set_step(rv, tag, i as int);
        }
        match meta_tagged_provider(&payload[i], tag) {
            Some(p) => {
                out.insert(p);
            },
            None => {},
        }
        i = i + 1;
    }
    assert(rv.take(payload.len() as int) =~= rv);
    out
}

impl Meta {
    /// The dependency, provider and conflict sets are well ordered.
    pub open spec fn wf(&self) -> bool {
        &&& self.dependencies.wf()
        &&& self.providers.wf()
        &&& self.conflicts.wf()
    }

    /// Reads package metadata from `.stone` metadata records.
    ///
    /// Fails with the first missing required field (name, version, release,
    /// build release, architecture, summary, description, source id,
    /// homepage, in that order).
    pub fn from_stone_payload(payload: &[MetaBody]) -> (r: Result<Meta, MissingMetaFieldError>)
        ensures
            match r {
                Ok(m) => first_missing(records_view(payload@)) is None && m.wf() && meta_of_records(
                    m@,
                    records_view(payload@),
                ),
                Err(e) => first_missing(records_view(payload@)) == Some(e.0),
            },
    {
        let name = match find_meta_string(payload, MetaTag::Name) {
            Ok(v) => v,
            Err(e) => return Err(e),
        };
        let version_identifier = match find_meta_string(payload, MetaTag::Version) {
            Ok(v) => v,
            Err(e) => return Err(e),
        };
        let source_release = match find_meta_u64(payload, MetaTag::Release) {
            Ok(v) => v,
            Err(e) => return Err(e),
        };
        let build_release = match find_meta_u64(payload, MetaTag::BuildRelease) {
            Ok(v) => v,
            Err(e) => return Err(e),
        };
        let architecture = match find_meta_string(payload, MetaTag::Architecture) {
            Ok(v) => v,
            Err(e) => return Err(e),
        };
        let summary = match find_meta_string(payload, MetaTag::Summary) {
            Ok(v) => v,
            Err(e) => return Err(e),
        };
        let description = match find_meta_string(payload, MetaTag::Description) {
            Ok(v) => v,
            Err(e) => return Err(e),
        };
        let source_id = match find_meta_string(payload, MetaTag::SourceID) {
            Ok(v) => v,
            Err(e) => return Err(e),
        };
        let homepage = match find_meta_string(payload, MetaTag::Homepage) {
            Ok(v) => v,
            Err(e) => return Err(e),
        };
        let uri = match find_meta_string(payload, MetaTag::PackageURI) {
            Ok(v) => Some(v),
            Err(_) => None,
        };
        let hash = match find_meta_string(payload, MetaTag::PackageHash) {
            Ok(v) => Some(v),
            Err(_) => None,
        };
        let download_size = match find_meta_u64(payload, MetaTag::PackageSize) {
            Ok(v) => Some(v),
            Err(_) => None,
        };
        let licenses = collect_licenses(payload);
        let dependencies = collect_dependencies(payload);
        let mut providers = collect_providers(payload, MetaTag::Provides);
        // The package name is always provided.
        providers.insert(Provider { kind: Kind::PackageName, name: name.clone() });
        let conflicts = collect_providers(payload, MetaTag::Conflicts);
        Ok(Meta {
            name: Name(name),
            version_identifier,
            source_release,
            build_release,
            architecture,
            summary,
            description,
            source_id,
            homepage,
            licenses,
            dependencies,
            providers,
            conflicts,
            uri,
            hash,
            download_size,
        })
    }
}


/// The record of an optional string field.
pub open spec fn optional_text_record(tag: MetaTag, v: Option<Seq<char>>) -> Seq<(MetaTag, MetaValue)> {
    match v {
        Some(s) => seq![(tag, MetaValue::Text(s))],
        None => Seq::empty(),
    }
}

/// The record of an optional size.
pub open spec fn optional_size_record(v: Option<u64>) -> Seq<(MetaTag, MetaValue)> {
    match v {
        Some(n) => seq![(MetaTag::PackageSize, MetaValue::Uint64(n))],
        None => Seq::empty(),
    }
}

/// License records, in order.
pub open spec fn license_records(ls: Seq<Seq<char>>) -> Seq<(MetaTag, MetaValue)> {
    ls.map_values(|l: Seq<char>| (MetaTag::License, MetaValue::Text(l)))
}

/// Dependency records, in order.
pub open spec fn dependency_records(ds: Seq<(Kind, Seq<char>)>) -> Seq<(MetaTag, MetaValue)> {
    ds.map_values(|d: (Kind, Seq<char>)| (MetaTag::Depends, MetaValue::Dependency(meta_of_kind(d.0), d.1)))
}

/// Records tagged `tag` for the providers `ps`, in order.
pub open spec fn provider_records(tag: MetaTag, ps: Seq<(Kind, Seq<char>)>) -> Seq<(MetaTag, MetaValue)> {
    ps.map_values(|p: (Kind, Seq<char>)| (tag, MetaValue::Provider(meta_of_kind(p.0), p.1)))
}

/// The providers of `ps` other than package names, in order.
pub open spec fn non_name_providers(ps: Seq<(Kind, Seq<char>)>) -> Seq<(Kind, Seq<char>)>
    decreases ps.len(),
{
    if ps.len() == 0 {
        Seq::empty()
    } else if ps.last().0 != Kind::PackageName {
        non_name_providers(ps.drop_last()).push(ps.last())
    } else {
        non_name_providers(ps.drop_last())
    }
}

/// The first nine records, holding the required fields.
pub open spec fn required_records(m: MetaView) -> Seq<(MetaTag, MetaValue)> {
    seq![
        (MetaTag::Name, MetaValue::Text(m.name)),
        (MetaTag::Version, MetaValue::Text(m.version_identifier)),
        (MetaTag::Release, MetaValue::Uint64(m.source_release)),
        (MetaTag::BuildRelease, MetaValue::Uint64(m.build_release)),
        (MetaTag::Architecture, MetaValue::Text(m.architecture)),
        (MetaTag::Summary, MetaValue::Text(m.summary)),
        (MetaTag::Description, MetaValue::Text(m.description)),
        (MetaTag::SourceID, MetaValue::Text(m.source_id)),
        (MetaTag::Homepage, MetaValue::Text(m.homepage)),
    ]
}

/// The records written for `m`: the required fields, then uri, hash and
/// size when present, then licenses, dependencies, providers other than
/// package names (the package's own name is implied), and conflicts.
pub open spec fn to_records(m: MetaView) -> Seq<(MetaTag, MetaValue)> {
    required_records(m) + optional_text_record(MetaTag::PackageURI, m.uri) + optional_text_record(
        MetaTag::PackageHash,
        m.hash,
    ) + optional_size_record(m.download_size) + license_records(m.licenses) + dependency_records(
        m.dependencies,
    ) + provider_records(MetaTag::Provides, non_name_providers(m.providers)) + provider_records(
        MetaTag::Conflicts,
        m.conflicts,
    )
}

/// A record holding `s` under `tag`.
fn text_record(tag: MetaTag, s: String) -> (b: MetaBody)
    ensures
        b@ == (tag, MetaValue::Text(s@)),
{
    MetaBody { tag, kind: MetaKind::String(s) }
}

impl Meta {
    /// Writes this metadata as `.stone` metadata records.
    pub fn to_stone_payload(self) -> (r: Vec<MetaBody>)
        ensures
            records_view(r@) == to_records(self@),
    {
        let ghost m = self@;
        let mut out: Vec<MetaBody> = Vec::new();
        out.push(text_record(MetaTag::Name, self.name.0));
        out.push(text_record(MetaTag::Version, self.version_identifier));
        out.push(MetaBody { tag: MetaTag::Release, kind: MetaKind::Uint64(self.source_release) });
        out.push(MetaBody { tag: MetaTag::BuildRelease, kind: MetaKind::Uint64(self.build_release) });
        out.push(text_record(MetaTag::Architecture, self.architecture));
        out.push(text_record(MetaTag::Summary, self.summary));
        out.push(text_record(MetaTag::Description, self.description));
        out.push(text_record(MetaTag::SourceID, self.source_id));
        out.push(text_record(MetaTag::Homepage, self.homepage));
        assert(records_view(out@) =~= required_records(m));
        match self.uri {
            Some(uri) => out.push(text_record(MetaTag::PackageURI, uri)),
            None => {},
        }
        match self.hash {
            Some(hash) => out.push(text_record(MetaTag::PackageHash, hash)),
            None => {},
        }
        match self.download_size {
            Some(size) => out.push(MetaBody { tag: MetaTag::PackageSize, kind: MetaKind::Uint64(size) }),
            None => {},
        }
        let ghost base = required_records(m) + optional_text_record(MetaTag::PackageURI, m.uri)
            + optional_text_record(MetaTag::PackageHash, m.hash) + optional_size_record(m.download_size);
        assert(records_view(out@) =~= base);
        let licenses = self.licenses;
        let mut i: usize = 0;
        while i < licenses.len()
            invariant
                i <= licenses.len(),
                strings_view(licenses@) == m.licenses,
                records_view(out@) == base + license_records(m.licenses.take(i as int)),
            decreases licenses.len() - i,
        {
            let ghost prev = out@;
            let b = text_record(MetaTag::License, licenses[i].clone());
            out.push(b);
            assert(records_view(out@) =~= records_view(prev).push(b@));
            assert(license_records(m.licenses.take(i + 1)) =~= license_records(m.licenses.take(i as int)).push(
                (MetaTag::License, MetaValue::Text(licenses@[i as int]@)),
            ));
            assert(records_view(out@) =~= base + license_records(m.licenses.take(i + 1)));
            i = i + 1;
        }
        assert(m.licenses.take(licenses.len() as int) =~= m.licenses);
        let ghost base2 = base + license_records(m.licenses);
        let deps = self.dependencies;
        let mut i: usize = 0;
        while i < deps.len()
            invariant
                i <= deps.members().len(),
                deps.members() == m.dependencies,
                records_view(out@) == base2 + dependency_records(m.dependencies.take(i as int)),
            decreases deps.members().len() - i,
        {
            let d = deps.get(i);
            let ghost prev = out@;
            let b = MetaBody { tag: MetaTag::Depends, kind: MetaKind::Dependency(d.kind_of().to_meta(), d.name_of()) };
            out.push(b);
            assert(records_view(out@) =~= records_view(prev).push(b@));
            assert(dependency_records(m.dependencies.take(i + 1)) =~= dependency_records(m.dependencies.take(i as int)).push(
                (MetaTag::Depends, MetaValue::Dependency(meta_of_kind(m.dependencies[i as int].0), m.dependencies[i as int].1)),
            ));
            assert(records_view(out@) =~= base2 + dependency_records(m.dependencies.take(i + 1)));
            i = i + 1;
        }
        assert(m.dependencies.take(deps.members().len() as int) =~= m.dependencies);
        let ghost base3 = base2 + dependency_records(m.dependencies);
        let providers = self.providers;
        let mut i: usize = 0;
        assert(m.providers.take(0) =~= Seq::<(Kind, Seq<char>)>::empty());
        while i < providers.len()
            invariant
                i <= providers.members().len(),
                providers.members() == m.providers,
                records_view(out@) == base3 + provider_records(MetaTag::Provides, non_name_providers(m.providers.take(i as int))),
            decreases providers.members().len() - i,
        {
            let p = providers.get(i);
            assert(m.providers.take(i + 1).drop_last() =~= m.providers.take(i as int));
            // We re-add this on ingestion / it's implied
            if p.kind_of() != Kind::PackageName {
                let ghost prev = out@;
                let b = MetaBody { tag: MetaTag::Provides, kind: MetaKind::Provider(p.kind_of().to_meta(), p.name_of()) };
                out.push(b);
                assert(records_view(out@) =~= records_view(prev).push(b@));
                assert(provider_records(MetaTag::Provides, non_name_providers(m.providers.take(i + 1))) =~= provider_records(
                    MetaTag::Provides,
                    non_name_providers(m.providers.take(i as int)),
                ).push((MetaTag::Provides, MetaValue::Provider(meta_of_kind(m.providers[i as int].0), m.providers[i as int].1))));
            }
            assert(records_view(out@) =~= base3 + provider_records(MetaTag::Provides, non_name_providers(m.providers.take(i + 1))));
            i = i + 1;
        }
        assert(m.providers.take(providers.members().len() as int) =~= m.providers);
        let ghost base4 = base3 + provider_records(MetaTag::Provides, non_name_providers(m.providers));
        let conflicts = self.conflicts;
        let mut i: usize = 0;
        while i < conflicts.len()
            invariant
                i <= conflicts.members().len(),
                conflicts.members() == m.conflicts,
                records_view(out@) == base4 + provider_records(MetaTag::Conflicts, m.conflicts.take(i as int)),
            decreases conflicts.members().len() - i,
        {
            let c = conflicts.get(i);
            let ghost prev = out@;
            let b = MetaBody { tag: MetaTag::Conflicts, kind: MetaKind::Provider(c.kind_of().to_meta(), c.name_of()) };
            out.push(b);
            assert(records_view(out@) =~= records_view(prev).push(b@));
            assert(provider_records(MetaTag::Conflicts, m.conflicts.take(i + 1)) =~= provider_records(
                MetaTag::Conflicts,
                m.conflicts.take(i as int),
            ).push((MetaTag::Conflicts, MetaValue::Provider(meta_of_kind(m.conflicts[i as int].0), m.conflicts[i as int].1))));
            assert(records_view(out@) =~= base4 + provider_records(MetaTag::Conflicts, m.conflicts.take(i + 1)));
            i = i + 1;
        }
        assert(m.conflicts.take(conflicts.members().len() as int) =~= m.conflicts);
        out
    }

    /// A copy of this metadata.
    pub fn duplicate(&self) -> (r: Meta)
        ensures
            r@ == self@,
            self.wf() ==> r.wf(),
    {
        let mut licenses: Vec<String> = Vec::new();
        let mut i: usize = 0;
        while i < self.licenses.len()
            invariant
                i <= self.licenses.len(),
                licenses@ == self.licenses@.take(i as int),
            decreases self.licenses.len() - i,
        {
            licenses.push(self.licenses[i].clone());
            assert(licenses@ =~= self.licenses@.take(i + 1));
            i = i + 1;
        }
        assert(self.licenses@.take(i as int) =~= self.licenses@);
        let r = Meta {
            name: self.name.duplicate(),
            version_identifier: self.version_identifier.clone(),
            source_release: self.source_release,
            build_release: self.build_release,
            architecture: self.architecture.clone(),
            summary: self.summary.clone(),
            description: self.description.clone(),
            source_id: self.source_id.clone(),
            homepage: self.homepage.clone(),
            licenses,
            dependencies: self.dependencies.duplicate(),
            providers: self.providers.duplicate(),
            conflicts: self.conflicts.duplicate(),
            uri: match &self.uri {
                Some(u) => Some(u.clone()),
                None => None,
            },
            hash: match &self.hash {
                Some(h) => Some(h.clone()),
                None => None,
            },
            download_size: self.download_size,
        };
        assert(r@.licenses =~= self@.licenses);
        r
    }

    /// A reusable identifier: `name-version-release.architecture`.
    pub fn id(&self) -> (r: Id)
        ensures
            r.0@ == self.name@ + seq!['-'] + self.version_identifier@ + seq!['-'] + decimal(
                self.source_release as nat,
            ) + seq!['.'] + self.architecture@,
    {
        let mut s = self.name.0.clone();
        push_char(&mut s, '-');
        s.append(self.version_identifier.as_str());
        push_char(&mut s, '-');
        let release = u64_to_decimal(self.source_release);
        s.append(release.as_str());
        push_char(&mut s, '.');
        s.append(self.architecture.as_str());
        Id(s)
    }
}


/// The first record with a string under `tag` determines `find_string`.
proof fn lemma_find_string_first(r: Seq<(MetaTag, MetaValue)>, tag: MetaTag, i: int)
    requires
        first_string_at(r, tag, i),
    ensures
        find_string(r, tag) == record_string(r[i], tag),
{
    let k = choose|k: int| first_string_at(r, tag, k);
    assert(k == i) by {
        if k < i {
            assert(record_string(r[k], tag) is None);
        }
        if k > i {
            assert(record_string(r[i], tag) is None);
        }
    }
}

/// The first record with an integer under `tag` determines `find_u64`.
proof fn lemma_find_u64_first(r: Seq<(MetaTag, MetaValue)>, tag: MetaTag, i: int)
    requires
        first_u64_at(r, tag, i),
    ensures
        find_u64(r, tag) == record_u64(r[i], tag),
{
    let k = choose|k: int| first_u64_at(r, tag, k);
    assert(k == i) by {
        if k < i {
            assert(record_u64(r[k], tag) is None);
        }
        if k > i {
            assert(record_u64(r[i], tag) is None);
        }
    }
}

/// Looking up a string in a concatenation looks in the first part, then in
/// the second.
proof fn lemma_find_string_concat(x: Seq<(MetaTag, MetaValue)>, y: Seq<(MetaTag, MetaValue)>, tag: MetaTag)
    ensures
        find_string(x + y, tag) == (if find_string(x, tag) is Some {
            find_string(x, tag)
        } else {
            find_string(y, tag)
        }),
{
    let z = x + y;
    if exists|i: int| first_string_at(x, tag, i) {
        let i = choose|i: int| first_string_at(x, tag, i);
        assert(first_string_at(z, tag, i)) by {
            assert forall|j: int| 0 <= j < i implies record_string(#[trigger] z[j], tag) is None by {
                assert(z[j] == x[j]);
            }
        }
        lemma_find_string_first(x, tag, i);
        lemma_find_string_first(z, tag, i);
    } else {
        assert forall|j: int| 0 <= j < x.len() implies record_string(#[trigger] x[j], tag) is None by {
            if record_string(x[j], tag) is Some {
                lemma_first_exists_string(x, tag, j);
            }
        }
        if exists|i: int| first_string_at(y, tag, i) {
            let i = choose|i: int| first_string_at(y, tag, i);
            assert(first_string_at(z, tag, x.len() + i)) by {
                assert forall|j: int| 0 <= j < x.len() + i implies record_string(#[trigger] z[j], tag) is None by {
                    if j < x.len() {
                        assert(z[j] == x[j]);
                    } else {
                        assert(z[j] == y[j - x.len()]);
                    }
                }
            }
            lemma_find_string_first(y, tag, i);
            lemma_find_string_first(z, tag, x.len() + i);
        } else {
            assert forall|j: int| 0 <= j < y.len() implies record_string(#[trigger] y[j], tag) is None by {
                if record_string(y[j], tag) is Some {
                    lemma_first_exists_string(y, tag, j);
                }
            }
            if exists|i: int| first_string_at(z, tag, i) {
                let i = choose|i: int| first_string_at(z, tag, i);
                if i < x.len() {
                    assert(z[i] == x[i]);
                } else {
                    assert(z[i] == y[i - x.len()]);
                }
            }
        }
    }
}

/// Some record with a string under `tag` implies a first such record.
proof fn lemma_first_exists_string(r: Seq<(MetaTag, MetaValue)>, tag: MetaTag, j: int)
    requires
        0 <= j < r.len(),
        record_string(r[j], tag) is Some,
    ensures
        exists|i: int| first_string_at(r, tag, i),
    decreases j,
{
    if forall|k: int| 0 <= k < j ==> record_string(#[trigger] r[k], tag) is None {
        assert(first_string_at(r, tag, j));
    } else {
        let k = choose|k: int| 0 <= k < j && record_string(#[trigger] r[k], tag) is Some;
        lemma_first_exists_string(r, tag, k);
    }
}

/// Some record with an integer under `tag` implies a first such record.
proof fn lemma_first_exists_u64(r: Seq<(MetaTag, MetaValue)>, tag: MetaTag, j: int)
    requires
        0 <= j < r.len(),
        record_u64(r[j], tag) is Some,
    ensures
        exists|i: int| first_u64_at(r, tag, i),
    decreases j,
{
    if forall|k: int| 0 <= k < j ==> record_u64(#[trigger] r[k], tag) is None {
        assert(first_u64_at(r, tag, j));
    } else {
        let k = choose|k: int| 0 <= k < j && record_u64(#[trigger] r[k], tag) is Some;
        lemma_first_exists_u64(r, tag, k);
    }
}

/// Looking up an integer in a concatenation looks in the first part, then in
/// the second.
proof fn lemma_find_u64_concat(x: Seq<(MetaTag, MetaValue)>, y: Seq<(MetaTag, MetaValue)>, tag: MetaTag)
    ensures
        find_u64(x + y, tag) == (if find_u64(x, tag) is Some {
            find_u64(x, tag)
        } else {
            find_u64(y, tag)
        }),
{
    let z = x + y;
    if exists|i: int| first_u64_at(x, tag, i) {
        let i = choose|i: int| first_u64_at(x, tag, i);
        assert(first_u64_at(z, tag, i)) by {
            assert forall|j: int| 0 <= j < i implies record_u64(#[trigger] z[j], tag) is None by {
                assert(z[j] == x[j]);
            }
        }
        lemma_find_u64_first(x, tag, i);
        lemma_find_u64_first(z, tag, i);
    } else {
        assert forall|j: int| 0 <= j < x.len() implies record_u64(#[trigger] x[j], tag) is None by {
            if record_u64(x[j], tag) is Some {
                lemma_first_exists_u64(x, tag, j);
            }
        }
        if exists|i: int| first_u64_at(y, tag, i) {
            let i = choose|i: int| first_u64_at(y, tag, i);
            assert(first_u64_at(z, tag, x.len() + i)) by {
                assert forall|j: int| 0 <= j < x.len() + i implies record_u64(#[trigger] z[j], tag) is None by {
                    if j < x.len() {
                        assert(z[j] == x[j]);
                    } else {
                        assert(z[j] == y[j - x.len()]);
                    }
                }
            }
            lemma_find_u64_first(y, tag, i);
            lemma_find_u64_first(z, tag, x.len() + i);
        } else {
            assert forall|j: int| 0 <= j < y.len() implies record_u64(#[trigger] y[j], tag) is None by {
                if record_u64(y[j], tag) is Some {
                    lemma_first_exists_u64(y, tag, j);
                }
            }
            if exists|i: int| first_u64_at(z, tag, i) {
                let i = choose|i: int| first_u64_at(z, tag, i);
                if i < x.len() {
                    assert(z[i] == x[i]);
                } else {
                    assert(z[i] == y[i - x.len()]);
                }
            }
        }
    }
}

/// The licenses of a concatenation are those of each part, in order.
proof fn lemma_licenses_concat(x: Seq<(MetaTag, MetaValue)>, y: Seq<(MetaTag, MetaValue)>)
    ensures
        licenses_of(x + y) == licenses_of(x) + licenses_of(y),
    decreases y.len(),
{
    if y.len() == 0 {
        assert(x + y =~= x);
        assert(licenses_of(x) + licenses_of(y) =~= licenses_of(x));
    } else {
        lemma_licenses_concat(x, y.drop_last());
        assert((x + y).drop_last() =~= x + y.drop_last());
        assert((x + y).last() == y.last());
        match record_string(y.last(), MetaTag::License) {
            Some(v) => {
                assert(licenses_of(x) + licenses_of(y) =~= (licenses_of(x) + licenses_of(y.drop_last())).push(v));
            },
            None => {},
        }
    }
}

/// The dependencies of a concatenation are those of both parts.
proof fn lemma_dependency_set_concat(x: Seq<(MetaTag, MetaValue)>, y: Seq<(MetaTag, MetaValue)>)
    ensures
        dependency_set(x + y) == dependency_set(x).union(dependency_set(y)),
{
    let z = x + y;
    assert forall|t| #[trigger] dependency_set(z).contains(t) <==> dependency_set(x).union(dependency_set(y)).contains(t) by {
        if dependency_set(z).contains(t) {
            let k = choose|k: int| 0 <= k < z.len() && record_dependency(z[k]) == Some(t);
            if k < x.len() {
                assert(z[k] == x[k]);
            } else {
                assert(z[k] == y[k - x.len()]);
            }
        }
        if dependency_set(x).contains(t) {
            let k = choose|k: int| 0 <= k < x.len() && record_dependency(x[k]) == Some(t);
            assert(z[k] == x[k]);
        }
        if dependency_set(y).contains(t) {
            let k = choose|k: int| 0 <= k < y.len() && record_dependency(y[k]) == Some(t);
            assert(z[x.len() + k] == y[k]);
        }
    }
    assert(dependency_set(z) =~= dependency_set(x).union(dependency_set(y)));
}

/// The providers of a concatenation are those of both parts.
proof fn lemma_provider_set_concat(x: Seq<(MetaTag, MetaValue)>, y: Seq<(MetaTag, MetaValue)>, tag: MetaTag)
    ensures
        provider_set(x + y, tag) == provider_set(x, tag).union(provider_set(y, tag)),
{
    let z = x + y;
    assert forall|t| #[trigger] provider_set(z, tag).contains(t) <==> provider_set(x, tag).union(provider_set(y, tag)).contains(t) by {
        if provider_set(z, tag).contains(t) {
            let k = choose|k: int| 0 <= k < z.len() && record_provider(z[k], tag) == Some(t);
            if k < x.len() {
                assert(z[k] == x[k]);
            } else {
                assert(z[k] == y[k - x.len()]);
            }
        }
        if provider_set(x, tag).contains(t) {
            let k = choose|k: int| 0 <= k < x.len() && record_provider(x[k], tag) == Some(t);
            assert(z[k] == x[k]);
        }
        if provider_set(y, tag).contains(t) {
            let k = choose|k: int| 0 <= k < y.len() && record_provider(y[k], tag) == Some(t);
            assert(z[x.len() + k] == y[k]);
        }
    }
    assert(provider_set(z, tag) =~= provider_set(x, tag).union(provider_set(y, tag)));
}


/// No record of `r` holds a string under `tag`.
proof fn lemma_find_string_absent(r: Seq<(MetaTag, MetaValue)>, tag: MetaTag)
    requires
        forall|j: int| 0 <= j < r.len() ==> record_string(#[trigger] r[j], tag) is None,
    ensures
        find_string(r, tag) is None,
{
}

/// No record of `r` holds an integer under `tag`.
proof fn lemma_find_u64_absent(r: Seq<(MetaTag, MetaValue)>, tag: MetaTag)
    requires
        forall|j: int| 0 <= j < r.len() ==> record_u64(#[trigger] r[j], tag) is None,
    ensures
        find_u64(r, tag) is None,
{
}

/// Records without a string under `tag` do not change its lookup.
proof fn lemma_find_string_skip(x: Seq<(MetaTag, MetaValue)>, y: Seq<(MetaTag, MetaValue)>, tag: MetaTag)
    requires
        forall|j: int| 0 <= j < y.len() ==> record_string(#[trigger] y[j], tag) is None,
    ensures
        find_string(x + y, tag) == find_string(x, tag),
{
    lemma_find_string_concat(x, y, tag);
    lemma_find_string_absent(y, tag);
}

/// Records without an integer under `tag` do not change its lookup.
proof fn lemma_find_u64_skip(x: Seq<(MetaTag, MetaValue)>, y: Seq<(MetaTag, MetaValue)>, tag: MetaTag)
    requires
        forall|j: int| 0 <= j < y.len() ==> record_u64(#[trigger] y[j], tag) is None,
    ensures
        find_u64(x + y, tag) == find_u64(x, tag),
{
    lemma_find_u64_concat(x, y, tag);
    lemma_find_u64_absent(y, tag);
}

/// Records without licenses have no licenses.
proof fn lemma_licenses_absent(r: Seq<(MetaTag, MetaValue)>)
    requires
        forall|j: int| 0 <= j < r.len() ==> record_string(#[trigger] r[j], MetaTag::License) is None,
    ensures
        licenses_of(r) == Seq::<Seq<char>>::empty(),
    decreases r.len(),
{
    if r.len() > 0 {
        let d = r.drop_last();
        assert forall|j: int| 0 <= j < d.len() implies record_string(#[trigger] d[j], MetaTag::License) is None by {
            assert(d[j] == r[j]);
        }
        lemma_licenses_absent(d);
        assert(record_string(r[r.len() - 1], MetaTag::License) is None);
    }
}

/// License records give back their licenses.
proof fn lemma_licenses_of_records(ls: Seq<Seq<char>>)
    ensures
        licenses_of(license_records(ls)) == ls,
    decreases ls.len(),
{
    if ls.len() > 0 {
        assert(license_records(ls).drop_last() =~= license_records(ls.drop_last()));
        lemma_licenses_of_records(ls.drop_last());
        assert(ls.drop_last().push(ls.last()) =~= ls);
    }
}

/// Dependency records give back their dependencies.
proof fn lemma_dependency_set_of_records(ds: Seq<(Kind, Seq<char>)>)
    ensures
        dependency_set(dependency_records(ds)) == ds.to_set(),
{
    let r = dependency_records(ds);
    assert forall|t: (Kind, Seq<char>)| #[trigger] dependency_set(r).contains(t) <==> ds.to_set().contains(t) by {
        if dependency_set(r).contains(t) {
            let k = choose|k: int| 0 <= k < r.len() && record_dependency(r[k]) == Some(t);
            lemma_kind_conversions(ds[k].0, meta_of_kind(ds[k].0));
            assert(ds[k] == t);
        }
        if ds.to_set().contains(t) {
            let k = choose|k: int| 0 <= k < ds.len() && ds[k] == t;
            lemma_kind_conversions(ds[k].0, meta_of_kind(ds[k].0));
            assert(record_dependency(r[k]) == Some(t));
        }
    }
    assert(dependency_set(r) =~= ds.to_set());
}

/// Provider records give back their providers under their own tag.
proof fn lemma_provider_set_of_records(tag: MetaTag, ps: Seq<(Kind, Seq<char>)>)
    ensures
        provider_set(provider_records(tag, ps), tag) == ps.to_set(),
{
    let r = provider_records(tag, ps);
    assert forall|t: (Kind, Seq<char>)| #[trigger] provider_set(r, tag).contains(t) <==> ps.to_set().contains(t) by {
        if provider_set(r, tag).contains(t) {
            let k = choose|k: int| 0 <= k < r.len() && record_provider(r[k], tag) == Some(t);
            lemma_kind_conversions(ps[k].0, meta_of_kind(ps[k].0));
            assert(ps[k] == t);
        }
        if ps.to_set().contains(t) {
            let k = choose|k: int| 0 <= k < ps.len() && ps[k] == t;
            lemma_kind_conversions(ps[k].0, meta_of_kind(ps[k].0));
            assert(record_provider(r[k], tag) == Some(t));
        }
    }
    assert(provider_set(r, tag) =~= ps.to_set());
}

/// Records without dependencies carry none.
proof fn lemma_dependency_set_absent(r: Seq<(MetaTag, MetaValue)>)
    requires
        forall|j: int| 0 <= j < r.len() ==> record_dependency(#[trigger] r[j]) is None,
    ensures
        dependency_set(r) == Set::<(Kind, Seq<char>)>::empty(),
{
    assert(dependency_set(r) =~= Set::<(Kind, Seq<char>)>::empty());
}

/// Records without providers under `tag` carry none.
proof fn lemma_provider_set_absent(r: Seq<(MetaTag, MetaValue)>, tag: MetaTag)
    requires
        forall|j: int| 0 <= j < r.len() ==> record_provider(#[trigger] r[j], tag) is None,
    ensures
        provider_set(r, tag) == Set::<(Kind, Seq<char>)>::empty(),
{
    assert(provider_set(r, tag) =~= Set::<(Kind, Seq<char>)>::empty());
}

/// The providers kept by `non_name_providers` are exactly those that are
/// not package names.
proof fn lemma_non_name_providers(ps: Seq<(Kind, Seq<char>)>)
    ensures
        non_name_providers(ps).to_set() == ps.to_set().filter(|t: (Kind, Seq<char>)| t.0 != Kind::PackageName),
    decreases ps.len(),
{
    if ps.len() == 0 {
        assert(non_name_providers(ps).to_set() =~= ps.to_set().filter(|t: (Kind, Seq<char>)| t.0 != Kind::PackageName));
    } else {
        let d = ps.drop_last();
        lemma_non_name_providers(d);
        assert(ps =~= d.push(ps.last()));
        assert(ps.to_set() =~= d.to_set().insert(ps.last())) by {
            d.lemma_push_to_set_commute(ps.last());
        }
        if ps.last().0 != Kind::PackageName {
            non_name_providers(d).lemma_push_to_set_commute(ps.last());
        }
        assert(non_name_providers(ps).to_set() =~= ps.to_set().filter(|t: (Kind, Seq<char>)| t.0 != Kind::PackageName));
    }
}

/// The segments of `to_records(m)` after the required fields.
spec fn uri_records(m: MetaView) -> Seq<(MetaTag, MetaValue)> {
    optional_text_record(MetaTag::PackageURI, m.uri)
}

spec fn hash_records(m: MetaView) -> Seq<(MetaTag, MetaValue)> {
    optional_text_record(MetaTag::PackageHash, m.hash)
}

spec fn own_provider_records(m: MetaView) -> Seq<(MetaTag, MetaValue)> {
    provider_records(MetaTag::Provides, non_name_providers(m.providers))
}

spec fn conflict_records(m: MetaView) -> Seq<(MetaTag, MetaValue)> {
    provider_records(MetaTag::Conflicts, m.conflicts)
}

/// Every string field is found in the records written for `m`.
proof fn lemma_to_records_strings(m: MetaView, tag: MetaTag)
    ensures
        tag == MetaTag::Name ==> find_string(to_records(m), tag) == Some(m.name),
        tag == MetaTag::Version ==> find_string(to_records(m), tag) == Some(m.version_identifier),
        tag == MetaTag::Architecture ==> find_string(to_records(m), tag) == Some(m.architecture),
        tag == MetaTag::Summary ==> find_string(to_records(m), tag) == Some(m.summary),
        tag == MetaTag::Description ==> find_string(to_records(m), tag) == Some(m.description),
        tag == MetaTag::SourceID ==> find_string(to_records(m), tag) == Some(m.source_id),
        tag == MetaTag::Homepage ==> find_string(to_records(m), tag) == Some(m.homepage),
        tag == MetaTag::PackageURI ==> find_string(to_records(m), tag) == m.uri,
        tag == MetaTag::PackageHash ==> find_string(to_records(m), tag) == m.hash,
{
    let a = required_records(m);
    let x2 = a + uri_records(m);
    let x3 = x2 + hash_records(m);
    let x4 = x3 + optional_size_record(m.download_size);
    let x5 = x4 + license_records(m.licenses);
    let x6 = x5 + dependency_records(m.dependencies);
    let x7 = x6 + own_provider_records(m);
    assert(to_records(m) == x7 + conflict_records(m));
    if tag != MetaTag::License {
        lemma_find_string_skip(x7, conflict_records(m), tag);
        lemma_find_string_skip(x6, own_provider_records(m), tag);
        lemma_find_string_skip(x5, dependency_records(m.dependencies), tag);
        lemma_find_string_skip(x4, license_records(m.licenses), tag);
        lemma_find_string_skip(x3, optional_size_record(m.download_size), tag);
        if tag != MetaTag::PackageHash {
            lemma_find_string_skip(x2, hash_records(m), tag);
            if tag != MetaTag::PackageURI {
                lemma_find_string_skip(a, uri_records(m), tag);
                if tag == MetaTag::Name {
                    assert(first_string_at(a, tag, 0));
                    lemma_find_string_first(a, tag, 0);
                } else if tag == MetaTag::Version {
                    assert(first_string_at(a, tag, 1));
                    lemma_find_string_first(a, tag, 1);
                } else if tag == MetaTag::Architecture {
                    assert(first_string_at(a, tag, 4));
                    lemma_find_string_first(a, tag, 4);
                } else if tag == MetaTag::Summary {
                    assert(first_string_at(a, tag, 5));
                    lemma_find_string_first(a, tag, 5);
                } else if tag == MetaTag::Description {
                    assert(first_string_at(a, tag, 6));
                    lemma_find_string_first(a, tag, 6);
                } else if tag == MetaTag::SourceID {
                    assert(first_string_at(a, tag, 7));
                    lemma_find_string_first(a, tag, 7);
                } else if tag == MetaTag::Homepage {
                    assert(first_string_at(a, tag, 8));
                    lemma_find_string_first(a, tag, 8);
                }
            } else {
                lemma_find_string_absent(a, tag);
                lemma_find_string_concat(a, uri_records(m), tag);
                if m.uri is Some {
                    assert(first_string_at(uri_records(m), tag, 0));
                    lemma_find_string_first(uri_records(m), tag, 0);
                } else {
                    lemma_find_string_absent(uri_records(m), tag);
                }
            }
        } else {
            lemma_find_string_absent(x2, tag);
            lemma_find_string_concat(x2, hash_records(m), tag);
            if m.hash is Some {
                assert(first_string_at(hash_records(m), tag, 0));
                lemma_find_string_first(hash_records(m), tag, 0);
            } else {
                lemma_find_string_absent(hash_records(m), tag);
            }
        }
    }
}

/// Every integer field is found in the records written for `m`.
proof fn lemma_to_records_integers(m: MetaView, tag: MetaTag)
    ensures
        tag == MetaTag::Release ==> find_u64(to_records(m), tag) == Some(m.source_release),
        tag == MetaTag::BuildRelease ==> find_u64(to_records(m), tag) == Some(m.build_release),
        tag == MetaTag::PackageSize ==> find_u64(to_records(m), tag) == m.download_size,
{
    let a = required_records(m);
    let x2 = a + uri_records(m);
    let x3 = x2 + hash_records(m);
    let x4 = x3 + optional_size_record(m.download_size);
    let x5 = x4 + license_records(m.licenses);
    let x6 = x5 + dependency_records(m.dependencies);
    let x7 = x6 + own_provider_records(m);
    assert(to_records(m) == x7 + conflict_records(m));
    lemma_find_u64_skip(x7, conflict_records(m), tag);
    lemma_find_u64_skip(x6, own_provider_records(m), tag);
    lemma_find_u64_skip(x5, dependency_records(m.dependencies), tag);
    lemma_find_u64_skip(x4, license_records(m.licenses), tag);
    if tag != MetaTag::PackageSize {
        lemma_find_u64_skip(x3, optional_size_record(m.download_size), tag);
        lemma_find_u64_skip(x2, hash_records(m), tag);
        lemma_find_u64_skip(a, uri_records(m), tag);
        if tag == MetaTag::Release {
            assert(first_u64_at(a, tag, 2));
            lemma_find_u64_first(a, tag, 2);
        } else if tag == MetaTag::BuildRelease {
            assert(first_u64_at(a, tag, 3));
            lemma_find_u64_first(a, tag, 3);
        }
    } else {
        lemma_find_u64_skip(a, uri_records(m), tag);
        lemma_find_u64_skip(x2, hash_records(m), tag);
        lemma_find_u64_absent(a, tag);
        lemma_find_u64_concat(x3, optional_size_record(m.download_size), tag);
        if m.download_size is Some {
            assert(first_u64_at(optional_size_record(m.download_size), tag, 0));
            lemma_find_u64_first(optional_size_record(m.download_size), tag, 0);
        } else {
            lemma_find_u64_absent(optional_size_record(m.download_size), tag);
        }
    }
}

/// The licenses, dependencies, providers and conflicts of the records
/// written for `m`.
proof fn lemma_to_records_collections(m: MetaView)
    ensures
        licenses_of(to_records(m)) == m.licenses,
        dependency_set(to_records(m)) == m.dependencies.to_set(),
        provider_set(to_records(m), MetaTag::Provides) == non_name_providers(m.providers).to_set(),
        provider_set(to_records(m), MetaTag::Conflicts) == m.conflicts.to_set(),
{
    let a = required_records(m);
    let x2 = a + uri_records(m);
    let x3 = x2 + hash_records(m);
    let x4 = x3 + optional_size_record(m.download_size);
    let x5 = x4 + license_records(m.licenses);
    let x6 = x5 + dependency_records(m.dependencies);
    let x7 = x6 + own_provider_records(m);
    assert(to_records(m) == x7 + conflict_records(m));
    // licenses
    lemma_licenses_concat(x7, conflict_records(m));
    lemma_licenses_concat(x6, own_provider_records(m));
    lemma_licenses_concat(x5, dependency_records(m.dependencies));
    lemma_licenses_concat(x4, license_records(m.licenses));
    lemma_licenses_absent(x4);
    lemma_licenses_absent(dependency_records(m.dependencies));
    lemma_licenses_absent(own_provider_records(m));
    lemma_licenses_absent(conflict_records(m));
    lemma_licenses_of_records(m.licenses);
    assert(licenses_of(to_records(m)) =~= m.licenses);
    // dependencies
    lemma_dependency_set_concat(x7, conflict_records(m));
    lemma_dependency_set_concat(x6, own_provider_records(m));
    lemma_dependency_set_concat(x5, dependency_records(m.dependencies));
    lemma_dependency_set_absent(x5);
    lemma_dependency_set_absent(own_provider_records(m));
    lemma_dependency_set_absent(conflict_records(m));
    lemma_dependency_set_of_records(m.dependencies);
    assert(dependency_set(to_records(m)) =~= m.dependencies.to_set());
    // providers and conflicts
    lemma_provider_set_concat(x7, conflict_records(m), MetaTag::Provides);
    lemma_provider_set_concat(x6, own_provider_records(m), MetaTag::Provides);
    lemma_provider_set_absent(x6, MetaTag::Provides);
    lemma_provider_set_absent(conflict_records(m), MetaTag::Provides);
    lemma_provider_set_of_records(MetaTag::Provides, non_name_providers(m.providers));
    assert(provider_set(to_records(m), MetaTag::Provides) =~= non_name_providers(m.providers).to_set());
    lemma_provider_set_concat(x7, conflict_records(m), MetaTag::Conflicts);
    lemma_provider_set_absent(x7, MetaTag::Conflicts);
    lemma_provider_set_of_records(MetaTag::Conflicts, m.conflicts);
    assert(provider_set(to_records(m), MetaTag::Conflicts) =~= m.conflicts.to_set());
}

/// Metadata written with `to_stone_payload` reads back with
/// `from_stone_payload`: no required field is missing, every field comes
/// back unchanged, and the providers come back as those that are not
/// package names plus the package's own name. When the package's own name
/// is its only package-name provider, the whole metadata comes back.
pub proof fn lemma_stone_payload_roundtrip(m: Meta, back: Meta)
    requires
        m.wf(),
        back.wf(),
        meta_of_records(back@, to_records(m@)),
    ensures
        first_missing(to_records(m@)) is None,
        back@.name == m@.name,
        back@.version_identifier == m@.version_identifier,
        back@.source_release == m@.source_release,
        back@.build_release == m@.build_release,
        back@.architecture == m@.architecture,
        back@.summary == m@.summary,
        back@.description == m@.description,
        back@.source_id == m@.source_id,
        back@.homepage == m@.homepage,
        back@.uri == m@.uri,
        back@.hash == m@.hash,
        back@.download_size == m@.download_size,
        back@.licenses == m@.licenses,
        back@.dependencies == m@.dependencies,
        back@.conflicts == m@.conflicts,
        back@.providers.to_set() == m@.providers.to_set().filter(
            |t: (Kind, Seq<char>)| t.0 != Kind::PackageName,
        ).insert((Kind::PackageName, m@.name)),
        (m@.providers.contains((Kind::PackageName, m@.name)) && forall|i: int|
            0 <= i < m@.providers.len() && (#[trigger] m@.providers[i]).0 == Kind::PackageName
                ==> m@.providers[i].1 == m@.name) ==> back@ == m@,
{
    let v = m@;
    lemma_first_missing_none(v);
    lemma_to_records_collections(v);
    lemma_non_name_providers(v.providers);
    dependency::lemma_strictly_sorted_unique(back@.dependencies, v.dependencies);
    dependency::lemma_strictly_sorted_unique(back@.conflicts, v.conflicts);
    if v.providers.contains((Kind::PackageName, v.name)) && forall|i: int|
        0 <= i < v.providers.len() && (#[trigger] v.providers[i]).0 == Kind::PackageName ==> v.providers[i].1
            == v.name {
        assert(back@.providers.to_set() =~= v.providers.to_set());
        dependency::lemma_strictly_sorted_unique(back@.providers, v.providers);
    }
}

/// The records `to_stone_payload` writes for any metadata `m` hold every
/// required field, each with the value of `m`: reading them back with
/// `from_stone_payload` succeeds.
pub proof fn lemma_first_missing_none(m: MetaView)
    ensures
        first_missing(to_records(m)) is None,
        find_string(to_records(m), MetaTag::Name) == Some(m.name),
        find_string(to_records(m), MetaTag::Version) == Some(m.version_identifier),
        find_u64(to_records(m), MetaTag::Release) == Some(m.source_release),
        find_u64(to_records(m), MetaTag::BuildRelease) == Some(m.build_release),
        find_string(to_records(m), MetaTag::Architecture) == Some(m.architecture),
        find_string(to_records(m), MetaTag::Summary) == Some(m.summary),
        find_string(to_records(m), MetaTag::Description) == Some(m.description),
        find_string(to_records(m), MetaTag::SourceID) == Some(m.source_id),
        find_string(to_records(m), MetaTag::Homepage) == Some(m.homepage),
        find_string(to_records(m), MetaTag::PackageURI) == m.uri,
        find_string(to_records(m), MetaTag::PackageHash) == m.hash,
        find_u64(to_records(m), MetaTag::PackageSize) == m.download_size,
{
    lemma_to_records_strings(m, MetaTag::Name);
    lemma_to_records_strings(m, MetaTag::Version);
    lemma_to_records_strings(m, MetaTag::Architecture);
    lemma_to_records_strings(m, MetaTag::Summary);
    lemma_to_records_strings(m, MetaTag::Description);
    lemma_to_records_strings(m, MetaTag::SourceID);
    lemma_to_records_strings(m, MetaTag::Homepage);
    lemma_to_records_strings(m, MetaTag::PackageURI);
    lemma_to_records_strings(m, MetaTag::PackageHash);
    lemma_to_records_integers(m, MetaTag::Release);
    lemma_to_records_integers(m, MetaTag::BuildRelease);
    lemma_to_records_integers(m, MetaTag::PackageSize);
}

} // verus!
