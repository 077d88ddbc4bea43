//! Dependency and provider strings.
//!
//! A dependency names what *kind* of thing a package depends on and what that
//! thing is, written as `kind(name)`, for instance `pkgconfig(zlib)` or
//! `soname(libz.so.1(x86_64))`. A provider is the inverse: a capability that
//! a package offers so that others may depend on it.

use vstd::prelude::*;

use crate::stone::MetaDependency;
use crate::text::{
    chars_of, first_index_of, lex_comparison, lex_lt, push_char, slice_chars, string_of,
    compare_chars, find_char, Comparison, lemma_lex_trichotomy, lemma_lex_transitive,
};

verus! {

/// Every kind of dependency.
#[derive(Debug, Clone, Copy, PartialEq, Eq, Hash, Structural)]
pub enum Kind {
    /// Name based dependency
    PackageName,
    /// Shared library (soname)
    SharedLibrary,
    /// Exported pkg-config provider
    PkgConfig,
    /// PT_INTERP, or specialist shell support
    Interpreter,
    /// CMake module dependency
    CMake,
    /// Python dependency
    Python,
    /// Executable in /usr/bin
    Binary,
    /// Executable in /usr/sbin
    SystemBinary,
    /// Exported 32-bit pkgconfig provider
    PkgConfig32,
}

/// The textual name of each kind, as used in `kind(name)` strings.
pub open spec fn kind_name(k: Kind) -> Seq<char> {
    match k {
        Kind::PackageName => "name"@,
        Kind::SharedLibrary => "soname"@,
        Kind::PkgConfig => "pkgconfig"@,
        Kind::Interpreter => "interpreter"@,
        Kind::CMake => "cmake"@,
        Kind::Python => "python"@,
        Kind::Binary => "binary"@,
        Kind::SystemBinary => "sysbinary"@,
        Kind::PkgConfig32 => "pkgconfig32"@,
    }
}

/// The kind whose name is exactly `s`, if any.
pub open spec fn parse_kind_spec(s: Seq<char>) -> Option<Kind> {
    if s == "name"@ {
        Some(Kind::PackageName)
    } else if s == "soname"@ {
        Some(Kind::SharedLibrary)
    } else if s == "pkgconfig"@ {
        Some(Kind::PkgConfig)
    } else if s == "interpreter"@ {
        Some(Kind::Interpreter)
    } else if s == "cmake"@ {
        Some(Kind::CMake)
    } else if s == "python"@ {
        Some(Kind::Python)
    } else if s == "binary"@ {
        Some(Kind::Binary)
    } else if s == "sysbinary"@ {
        Some(Kind::SystemBinary)
    } else if s == "pkgconfig32"@ {
        Some(Kind::PkgConfig32)
    } else {
        None
    }
}

/// The message carried by an error for an unknown kind.
pub open spec fn unknown_kind_message() -> Seq<char> {
    "Matching variant not found"@
}

/// `s` rendered as `kind(name)`.
pub open spec fn render(kind: Kind, name: Seq<char>) -> Seq<char> {
    kind_name(kind) + seq!['('] + name + seq![')']
}

/// What parsing `s` as `kind(name)` gives: the text before the first `(` must
/// be a kind name and the text after it must end with `)`; the name is what
/// lies in between. On failure the error carries the input, or, for an
/// unknown kind, [`unknown_kind_message`].
pub open spec fn parse_spec(s: Seq<char>) -> Result<(Kind, Seq<char>), Seq<char>> {
    match first_index_of(s, '(') {
        None => Err(s),
        Some(i) => {
            let rest = s.subrange(i + 1, s.len() as int);
            if rest.len() == 0 || rest.last() != ')' {
                Err(s)
            } else {
                match parse_kind_spec(s.subrange(0, i)) {
                    None => Err(unknown_kind_message()),
                    Some(k) => Ok((k, rest.drop_last())),
                }
            }
        }
    }
}

/// Whether `s` contains an opening parenthesis.
pub open spec fn has_paren(s: Seq<char>) -> bool {
    exists|i: int| 0 <= i < s.len() && s[i] == '('
}

/// What `from_name` gives: strings with a `(` are parsed as `kind(name)`,
/// anything else is a plain package name.
pub open spec fn from_name_spec(s: Seq<char>) -> Result<(Kind, Seq<char>), Seq<char>> {
    if has_paren(s) {
        parse_spec(s)
    } else {
        Ok((Kind::PackageName, s))
    }
}

impl Kind {
    /// The textual name of this kind.
    pub fn name(&self) -> (r: &'static str)
        ensures
            r@ == kind_name(*self),
    {
        match self {
            Kind::PackageName => "name",
            Kind::SharedLibrary => "soname",
            Kind::PkgConfig => "pkgconfig",
            Kind::Interpreter => "interpreter",
            Kind::CMake => "cmake",
            Kind::Python => "python",
            Kind::Binary => "binary",
            Kind::SystemBinary => "sysbinary",
            Kind::PkgConfig32 => "pkgconfig32",
        }
    }

    /// Parses a kind from its textual name.
    pub fn parse(s: &str) -> (r: Option<Kind>)
        ensures
            r == parse_kind_spec(s@),
    {
        let owned = s.to_owned();
        if owned == "name".to_owned() {
            Some(Kind::PackageName)
        } else if owned == "soname".to_owned() {
            Some(Kind::SharedLibrary)
        } else if owned == "pkgconfig".to_owned() {
            Some(Kind::PkgConfig)
        } else if owned == "interpreter".to_owned() {
            Some(Kind::Interpreter)
        } else if owned == "cmake".to_owned() {
            Some(Kind::CMake)
        } else if owned == "python".to_owned() {
            Some(Kind::Python)
        } else if owned == "binary".to_owned() {
            Some(Kind::Binary)
        } else if owned == "sysbinary".to_owned() {
            Some(Kind::SystemBinary)
        } else if owned == "pkgconfig32".to_owned() {
            Some(Kind::PkgConfig32)
        } else {
            None
        }
    }
}

/// The [`Kind`] of a dependency kind stored in a metadata record.
pub open spec fn kind_of_meta(d: MetaDependency) -> Kind {
    match d {
        MetaDependency::PackageName => Kind::PackageName,
        MetaDependency::SharedLibrary => Kind::SharedLibrary,
        MetaDependency::PkgConfig => Kind::PkgConfig,
        MetaDependency::Interpreter => Kind::Interpreter,
        MetaDependency::CMake => Kind::CMake,
        MetaDependency::Python => Kind::Python,
        MetaDependency::Binary => Kind::Binary,
        MetaDependency::SystemBinary => Kind::SystemBinary,
        MetaDependency::PkgConfig32 => Kind::PkgConfig32,
    }
}

/// The metadata-record form of a [`Kind`].
pub open spec fn meta_of_kind(k: Kind) -> MetaDependency {
    match k {
        Kind::PackageName => MetaDependency::PackageName,
        Kind::SharedLibrary => MetaDependency::SharedLibrary,
        Kind::PkgConfig => MetaDependency::PkgConfig,
        Kind::Interpreter => MetaDependency::Interpreter,
        Kind::CMake => MetaDependency::CMake,
        Kind::Python => MetaDependency::Python,
        Kind::Binary => MetaDependency::Binary,
        Kind::SystemBinary => MetaDependency::SystemBinary,
        Kind::PkgConfig32 => MetaDependency::PkgConfig32,
    }
}

/// Converting between the two forms of a kind loses nothing, both ways.
pub proof fn lemma_kind_conversions(k: Kind, d: MetaDependency)
    ensures
        kind_of_meta(meta_of_kind(k)) == k,
        meta_of_kind(kind_of_meta(d)) == d,
{
}

impl Kind {
    /// Convert a metadata-record dependency kind to our representation.
    pub fn from_meta(d: MetaDependency) -> (k: Kind)
        ensures
            k == kind_of_meta(d),
    {
        match d {
            MetaDependency::PackageName => Kind::PackageName,
            MetaDependency::SharedLibrary => Kind::SharedLibrary,
            MetaDependency::PkgConfig => Kind::PkgConfig,
            MetaDependency::Interpreter => Kind::Interpreter,
            MetaDependency::CMake => Kind::CMake,
            MetaDependency::Python => Kind::Python,
            MetaDependency::Binary => Kind::Binary,
            MetaDependency::SystemBinary => Kind::SystemBinary,
            MetaDependency::PkgConfig32 => Kind::PkgConfig32,
        }
    }

    /// Convert this kind to its metadata-record form.
    pub fn to_meta(&self) -> (d: MetaDependency)
        ensures
            d == meta_of_kind(*self),
    {
        match self {
            Kind::PackageName => MetaDependency::PackageName,
            Kind::SharedLibrary => MetaDependency::SharedLibrary,
            Kind::PkgConfig => MetaDependency::PkgConfig,
            Kind::Interpreter => MetaDependency::Interpreter,
            Kind::CMake => MetaDependency::CMake,
            Kind::Python => MetaDependency::Python,
            Kind::Binary => MetaDependency::Binary,
            Kind::SystemBinary => MetaDependency::SystemBinary,
            Kind::PkgConfig32 => MetaDependency::PkgConfig32,
        }
    }
}

/// Error for strings that are not valid `kind(name)` dependency strings.
#[derive(Debug)]
pub struct ParseError(pub String);

/// Renders `kind(name)`.
pub fn render_target(kind: Kind, name: &str) -> (s: String)
    ensures
        s@ == render(kind, name@),
{
    let mut s = kind.name().to_owned();
    push_char(&mut s, '(');
    let n = chars_of(name);
    let mut i: usize = 0;
    while i < n.len()
        invariant
            i <= n.len(),
            n@ == name@,
            s@ == kind_name(kind) + seq!['('] + n@.subrange(0, i as int),
        decreases n.len() - i,
    {
        push_char(&mut s, n[i]);
        assert(n@.subrange(0, i + 1) =~= n@.subrange(0, i as int).push(n@[i as int]));
        i = i + 1;
    }
    push_char(&mut s, ')');
    assert(n@.subrange(0, n.len() as int) =~= n@);
    assert(s@ =~= render(kind, name@));
    s
}

/// Parses a `kind(name)` string into its kind and name.
pub fn parse(s: &str) -> (r: Result<(Kind, String), ParseError>)
    ensures
        match r {
            Ok((k, n)) => parse_spec(s@) == Ok::<(Kind, Seq<char>), Seq<char>>((k, n@)),
            Err(e) => parse_spec(s@) == Err::<(Kind, Seq<char>), Seq<char>>(e.0@),
        },
{
    let v = chars_of(s);
    match find_char(&v, '(') {
        None => Err(ParseError(s.to_owned())),
        Some(i) => {
            let rest = slice_chars(&v, i + 1, v.len());
            if rest.len() == 0 || rest[rest.len() - 1] != ')' {
                return Err(ParseError(s.to_owned()));
            }
            let kind_chars = slice_chars(&v, 0, i);
            let kind_text = string_of(&kind_chars);
            match Kind::parse(kind_text.as_str()) {
                None => Err(ParseError("Matching variant not found".to_owned())),
                Some(k) => {
                    let name_chars = slice_chars(&rest, 0, rest.len() - 1);
                    assert(name_chars@ =~= rest@.drop_last());
                    Ok((k, string_of(&name_chars)))
                },
            }
        },
    }
}

/// Whether `s` contains a `(`.
fn contains_paren(s: &str) -> (r: bool)
    ensures
        r == has_paren(s@),
{
    let v = chars_of(s);
    match find_char(&v, '(') {
        Some(_) => true,
        None => false,
    }
}

/// Parsing a rendered `kind(name)` gives back the kind and the name, whatever
/// the name holds (parentheses included).
pub proof fn lemma_parse_render(kind: Kind, name: Seq<char>)
    ensures
        parse_spec(render(kind, name)) == Ok::<(Kind, Seq<char>), Seq<char>>((kind, name)),
        has_paren(render(kind, name)),
{
    reveal_strlit("name");
    reveal_strlit("soname");
    reveal_strlit("pkgconfig");
    reveal_strlit("interpreter");
    reveal_strlit("cmake");
    reveal_strlit("python");
    reveal_strlit("binary");
    reveal_strlit("sysbinary");
    reveal_strlit("pkgconfig32");
    let s = render(kind, name);
    let k = kind_name(kind);
    let i = k.len() as int;
    assert(forall|j: int| 0 <= j < i ==> s[j] == k[j]);
    assert(forall|j: int| 0 <= j < i ==> k[j] != '(');
    assert(s[i] == '(');
    assert(first_index_of(s, '(') == Some(i));
    assert(s.subrange(0, i) =~= k);
    let rest = s.subrange(i + 1, s.len() as int);
    assert(rest =~= name.push(')'));
    assert(rest.drop_last() =~= name);
    lemma_parse_kind_name(kind);
}

/// Each kind's name parses back to that kind.
pub proof fn lemma_parse_kind_name(kind: Kind)
    ensures
        parse_kind_spec(kind_name(kind)) == Some(kind),
{
    reveal_strlit("name");
    reveal_strlit("soname");
    reveal_strlit("pkgconfig");
    reveal_strlit("interpreter");
    reveal_strlit("cmake");
    reveal_strlit("python");
    reveal_strlit("binary");
    reveal_strlit("sysbinary");
    reveal_strlit("pkgconfig32");
    assert("name"@.len() == 4 && "name"@[0] == 'n');
    assert("soname"@.len() == 6 && "soname"@[0] == 's');
    assert("pkgconfig"@.len() == 9 && "pkgconfig"@[0] == 'p');
    assert("interpreter"@.len() == 11 && "interpreter"@[0] == 'i');
    assert("cmake"@.len() == 5 && "cmake"@[0] == 'c');
    assert("python"@.len() == 6 && "python"@[0] == 'p');
    assert("binary"@.len() == 6 && "binary"@[0] == 'b');
    assert("sysbinary"@.len() == 9 && "sysbinary"@[0] == 's');
    assert("pkgconfig32"@.len() == 11 && "pkgconfig32"@[0] == 'p');
}

/// Rendering is injective: distinct kinds or names render differently.
pub proof fn lemma_render_injective(k1: Kind, n1: Seq<char>, k2: Kind, n2: Seq<char>)
    requires
        render(k1, n1) == render(k2, n2),
    ensures
        k1 == k2,
        n1 == n2,
{
    lemma_parse_render(k1, n1);
    lemma_parse_render(k2, n2);
}


/// The rendered text of a `(kind, name)` pair.
pub open spec fn rendered(t: (Kind, Seq<char>)) -> Seq<char> {
    render(t.0, t.1)
}

/// Something that is written as `kind(name)`: a dependency or a provider.
pub trait Target: Sized {
    /// The kind and name.
    spec fn target(&self) -> (Kind, Seq<char>);

    /// Builds a value from its kind and name.
    fn make(kind: Kind, name: String) -> (r: Self)
        ensures
            r.target() == (kind, name@),
    ;

    /// The kind.
    fn kind_of(&self) -> (k: Kind)
        ensures
            k == self.target().0,
    ;

    /// A copy of the name.
    fn name_of(&self) -> (n: String)
        ensures
            n@ == self.target().1,
    ;

    /// The value rendered as `kind(name)`.
    fn render_of(&self) -> (s: String)
        ensures
            s@ == rendered(self.target()),
    ;

    /// A copy with the same kind and name.
    fn duplicate(&self) -> (r: Self)
        ensures
            r.target() == self.target(),
    ;
}

/// A Dependency only contains a target and a [`Kind`], ie. `pkgconfig(zlib)`.
#[derive(Debug, Clone, PartialEq, Eq, Hash)]
pub struct Dependency {
    /// Specific type of dependency
    pub kind: Kind,
    /// Bare target (i.e. `libz.so.1(x86_64)`)
    pub name: String,
}

/// A provider is the inverse of a [`Dependency`]: the capability that
/// satisfies a matching requirement.
#[derive(Debug, Clone, PartialEq, Eq, Hash)]
pub struct Provider {
    /// Specific type of capability
    pub kind: Kind,
    /// Bare target (i.e. `libz.so.1(x86_64)`)
    pub name: String,
}

impl View for Dependency {
    type V = (Kind, Seq<char>);

    open spec fn view(&self) -> (Kind, Seq<char>) {
        (self.kind, self.name@)
    }
}

impl View for Provider {
    type V = (Kind, Seq<char>);

    open spec fn view(&self) -> (Kind, Seq<char>) {
        (self.kind, self.name@)
    }
}

impl Target for Dependency {
    open spec fn target(&self) -> (Kind, Seq<char>) {
        self@
    }

    fn make(kind: Kind, name: String) -> (r: Self) {
        Dependency { kind, name }
    }

    fn kind_of(&self) -> (k: Kind) {
        self.kind
    }

    fn name_of(&self) -> (n: String) {
        self.name.clone()
    }

    fn render_of(&self) -> (s: String) {
        render_target(self.kind, self.name.as_str())
    }

    fn duplicate(&self) -> (r: Self) {
        Dependency { kind: self.kind, name: self.name.clone() }
    }
}

impl Target for Provider {
    open spec fn target(&self) -> (Kind, Seq<char>) {
        self@
    }

    fn make(kind: Kind, name: String) -> (r: Self) {
        Provider { kind, name }
    }

    fn kind_of(&self) -> (k: Kind) {
        self.kind
    }

    fn name_of(&self) -> (n: String) {
        self.name.clone()
    }

    fn render_of(&self) -> (s: String) {
        render_target(self.kind, self.name.as_str())
    }

    fn duplicate(&self) -> (r: Self) {
        Provider { kind: self.kind, name: self.name.clone() }
    }
}

/// Equality of two targets, decided by kind and name.
pub fn same_target<A: Target, B: Target>(a: &A, b: &B) -> (r: bool)
    ensures
        r == (a.target() == b.target()),
{
    let x = a.render_of();
    let y = b.render_of();
    let r = x == y;
    proof {
        if r {
            lemma_render_injective(a.target().0, a.target().1, b.target().0, b.target().1);
        }
    }
    r
}

/// Orders two targets by their rendered text (the order of `kind(name)`
/// strings).
pub fn compare_targets<A: Target, B: Target>(a: &A, b: &B) -> (r: Comparison)
    ensures
        r == lex_comparison(rendered(a.target()), rendered(b.target())),
{
    let x = chars_of(a.render_of().as_str());
    let y = chars_of(b.render_of().as_str());
    compare_chars(&x, &y)
}

impl Dependency {
    /// Construct a dependency from a specially formatted string: `kind(name)`
    /// when it holds a `(`, otherwise a plain package name.
    pub fn from_name(name: &str) -> (r: Result<Dependency, ParseError>)
        ensures
            match r {
                Ok(d) => from_name_spec(name@) == Ok::<(Kind, Seq<char>), Seq<char>>(d@),
                Err(e) => from_name_spec(name@) == Err::<(Kind, Seq<char>), Seq<char>>(e.0@),
            },
    {
        if contains_paren(name) {
            Dependency::from_str(name)
        } else {
            Ok(Dependency { kind: Kind::PackageName, name: name.to_owned() })
        }
    }

    /// Build a dependency from a `kind(name)` string.
    pub fn from_str(s: &str) -> (r: Result<Dependency, ParseError>)
        ensures
            match r {
                Ok(d) => parse_spec(s@) == Ok::<(Kind, Seq<char>), Seq<char>>(d@),
                Err(e) => parse_spec(s@) == Err::<(Kind, Seq<char>), Seq<char>>(e.0@),
            },
    {
        match parse(s) {
            Ok((kind, name)) => Ok(Dependency { kind, name }),
            Err(e) => Err(e),
        }
    }

    /// Build a dependency from an owned `kind(name)` string.
    pub fn try_from(value: String) -> (r: Result<Dependency, ParseError>)
        ensures
            match r {
                Ok(d) => parse_spec(value@) == Ok::<(Kind, Seq<char>), Seq<char>>(d@),
                Err(e) => parse_spec(value@) == Err::<(Kind, Seq<char>), Seq<char>>(e.0@),
            },
    {
        Dependency::from_str(value.as_str())
    }

    /// Renders the dependency as `kind(name)`.
    pub fn to_string(&self) -> (s: String)
        ensures
            s@ == render(self.kind, self.name@),
    {
        render_target(self.kind, self.name.as_str())
    }
}

impl Provider {
    /// Construct a provider from a specially formatted string; identical in
    /// behaviour to [`Dependency::from_name`].
    pub fn from_name(name: &str) -> (r: Result<Provider, ParseError>)
        ensures
            match r {
                Ok(p) => from_name_spec(name@) == Ok::<(Kind, Seq<char>), Seq<char>>(p@),
                Err(e) => from_name_spec(name@) == Err::<(Kind, Seq<char>), Seq<char>>(e.0@),
            },
    {
        if contains_paren(name) {
            Provider::from_str(name)
        } else {
            Ok(Provider { kind: Kind::PackageName, name: name.to_owned() })
        }
    }

    /// Build a provider from a `kind(name)` string.
    pub fn from_str(s: &str) -> (r: Result<Provider, ParseError>)
        ensures
            match r {
                Ok(p) => parse_spec(s@) == Ok::<(Kind, Seq<char>), Seq<char>>(p@),
                Err(e) => parse_spec(s@) == Err::<(Kind, Seq<char>), Seq<char>>(e.0@),
            },
    {
        match parse(s) {
            Ok((kind, name)) => Ok(Provider { kind, name }),
            Err(e) => Err(e),
        }
    }

    /// Build a provider from an owned `kind(name)` string.
    pub fn try_from(value: String) -> (r: Result<Provider, ParseError>)
        ensures
            match r {
                Ok(p) => parse_spec(value@) == Ok::<(Kind, Seq<char>), Seq<char>>(p@),
                Err(e) => parse_spec(value@) == Err::<(Kind, Seq<char>), Seq<char>>(e.0@),
            },
    {
        Provider::from_str(value.as_str())
    }

    /// Renders the provider as `kind(name)`.
    pub fn to_string(&self) -> (s: String)
        ensures
            s@ == render(self.kind, self.name@),
    {
        render_target(self.kind, self.name.as_str())
    }
}

/// A string rendered from a dependency or provider reads back as the same
/// value: `from_str(to_string(x)) == x`, and so does `from_name`.
pub proof fn lemma_target_roundtrip(kind: Kind, name: Seq<char>)
    ensures
        parse_spec(render(kind, name)) == Ok::<(Kind, Seq<char>), Seq<char>>((kind, name)),
        from_name_spec(render(kind, name)) == Ok::<(Kind, Seq<char>), Seq<char>>((kind, name)),
{
    lemma_parse_render(kind, name);
}

/// A name without a `(` is taken as a plain package name by `from_name`.
pub proof fn lemma_from_name_plain(name: Seq<char>)
    requires
        forall|i: int| 0 <= i < name.len() ==> name[i] != '(',
    ensures
        from_name_spec(name) == Ok::<(Kind, Seq<char>), Seq<char>>((Kind::PackageName, name)),
{
}

/// A text holding a `(` (its first at `i`) is refused by `from_name` when
/// it does not end with `)`, and when what stands before its first `(` is
/// no kind name.
pub proof fn lemma_from_name_refuses(s: Seq<char>, i: int)
    requires
        0 <= i < s.len(),
        s[i] == '(',
        forall|j: int| 0 <= j < i ==> s[j] != '(',
    ensures
        s.last() != ')' ==> from_name_spec(s) is Err,
        parse_kind_spec(s.subrange(0, i)) is None ==> from_name_spec(s) is Err,
{
    assert(has_paren(s));
    let k = choose|k: int| 0 <= k < s.len() && s[k] == '(' && (forall|j: int| 0 <= j < k ==> s[j] != '(');
    if k < i {
        assert(s[k] != '(');
    }
    if i < k {
        assert(s[i] != '(');
    }
    assert(first_index_of(s, '(') == Some(i));
    let rest = s.subrange(i + 1, s.len() as int);
    if rest.len() > 0 {
        assert(rest.last() == s.last());
    }
}

/// `items` is strictly increasing in rendered order (hence free of
/// duplicates).
pub open spec fn strictly_sorted(items: Seq<(Kind, Seq<char>)>) -> bool {
    forall|i: int, j: int|
        0 <= i < j < items.len() ==> lex_lt(#[trigger] rendered(items[i]), #[trigger] rendered(items[j]))
}

/// Two strictly sorted sequences with the same members are identical.
pub proof fn lemma_strictly_sorted_unique(a: Seq<(Kind, Seq<char>)>, b: Seq<(Kind, Seq<char>)>)
    requires
        strictly_sorted(a),
        strictly_sorted(b),
        a.to_set() == b.to_set(),
    ensures
        a == b,
    decreases a.len(),
{
    if a.len() == 0 {
        if b.len() > 0 {
            assert(b.to_set().contains(b[0]));
            assert(!a.to_set().contains(b[0]));
        }
        assert(a =~= b);
    } else {
        assert(a.to_set().contains(a[0]));
        if b.len() == 0 {
            assert(!b.to_set().contains(a[0]));
        }
        assert(b.to_set().contains(b[0]));
        let j = choose|j: int| 0 <= j < a.len() && a[j] == b[0];
        let k = choose|k: int| 0 <= k < b.len() && b[k] == a[0];
        if a[0] != b[0] {
            assert(j > 0 && k > 0);
            assert(lex_lt(rendered(a[0]), rendered(a[j])));
            assert(lex_lt(rendered(b[0]), rendered(b[k])));
            lemma_lex_trichotomy(rendered(a[0]), rendered(b[0]));
        }
        let a1 = a.drop_first();
        let b1 = b.drop_first();
        assert forall|e| #[trigger] a1.to_set().contains(e) implies b1.to_set().contains(e) by {
            let i = choose|i: int| 0 <= i < a1.len() && a1[i] == e;
            assert(a[i + 1] == e);
            assert(a.to_set().contains(e));
            let m = choose|m: int| 0 <= m < b.len() && b[m] == e;
            if m == 0 {
                assert(lex_lt(rendered(a[0]), rendered(a[i + 1])));
                lemma_lex_trichotomy(rendered(e), rendered(e));
            }
            assert(b1[m - 1] == e);
        }
        assert forall|e| #[trigger] b1.to_set().contains(e) implies a1.to_set().contains(e) by {
            let i = choose|i: int| 0 <= i < b1.len() && b1[i] == e;
            assert(b[i + 1] == e);
            assert(b.to_set().contains(e));
            let m = choose|m: int| 0 <= m < a.len() && a[m] == e;
            if m == 0 {
                assert(lex_lt(rendered(b[0]), rendered(b[i + 1])));
                lemma_lex_trichotomy(rendered(e), rendered(e));
            }
            assert(a1[m - 1] == e);
        }
        assert(a1.to_set() =~= b1.to_set());
        assert forall|x: int, y: int| 0 <= x < y < a1.len() implies lex_lt(
            #[trigger] rendered(a1[x]),
            #[trigger] rendered(a1[y]),
        ) by {
            assert(a1[x] == a[x + 1] && a1[y] == a[y + 1]);
        }
        assert forall|x: int, y: int| 0 <= x < y < b1.len() implies lex_lt(
            #[trigger] rendered(b1[x]),
            #[trigger] rendered(b1[y]),
        ) by {
            assert(b1[x] == b[x + 1] && b1[y] == b[y + 1]);
        }
        lemma_strictly_sorted_unique(a1, b1);
        assert(a =~= b) by {
            assert forall|i: int| 0 <= i < a.len() implies a[i] == b[i] by {
                if i > 0 {
                    assert(a[i] == a1[i - 1]);
                    assert(b[i] == b1[i - 1]);
                }
            }
        }
    }
}

/// An ordered set of dependencies or providers, iterated in the order of
/// their rendered `kind(name)` text.
#[derive(Debug, Clone, PartialEq, Eq)]
pub struct TargetSet<T> {
    items: Vec<T>,
}

impl<T: Target> TargetSet<T> {
    /// The members, in order.
    pub closed spec fn members(&self) -> Seq<(Kind, Seq<char>)> {
        self.items@.map_values(|t: T| t.target())
    }

    /// Members are kept in strictly increasing order.
    pub open spec fn wf(&self) -> bool {
        strictly_sorted(self.members())
    }

    /// The empty set.
    pub fn new() -> (r: Self)
        ensures
            r.wf(),
            r.members() == Seq::<(Kind, Seq<char>)>::empty(),
    {
        let r = TargetSet { items: Vec::new() };
        assert(r.members() =~= Seq::<(Kind, Seq<char>)>::empty());
        r
    }

    /// A copy with the same members.
    pub fn duplicate(&self) -> (r: Self)
        ensures
            r.members() == self.members(),
    {
        let mut items: Vec<T> = Vec::new();
        let mut i: usize = 0;
        while i < self.items.len()
            invariant
                i <= self.items.len(),
                items.len() == i,
                self.members().len() == self.items.len(),
                items@.map_values(|t: T| t.target()) == self.members().take(i as int),
            decreases self.items.len() - i,
        {
            let d = self.items[i].duplicate();
            assert(d.target() == self.members()[i as int]);
            let ghost prev = items@;
            items.push(d);
            assert forall|q: int| 0 <= q < i + 1 implies #[trigger] items@[q].target() == self.members()[q] by {
                if q < i {
                    assert(items@[q] == prev[q]);
                    assert(prev.map_values(|t: T| t.target())[q] == self.members().take(i as int)[q]);
                }
            }
            assert(items@.map_values(|t: T| t.target()) =~= self.members().take(i + 1));
            i = i + 1;
        }
        assert(self.members().take(i as int) =~= self.members());
        let r = TargetSet { items };
        assert(r.members() =~= self.members());
        r
    }

    /// Number of members.
    pub fn len(&self) -> (n: usize)
        ensures
            n == self.members().len(),
    {
        self.items.len()
    }

    /// Whether the set is empty.
    pub fn is_empty(&self) -> (b: bool)
        ensures
            b == (self.members().len() == 0),
    {
        self.items.len() == 0
    }

    /// The member at position `i`.
    pub fn get(&self, i: usize) -> (r: &T)
        requires
            i < self.members().len(),
        ensures
            r.target() == self.members()[i as int],
    {
        &self.items[i]
    }

    /// Whether `x` is a member.
    pub fn contains<U: Target>(&self, x: &U) -> (r: bool)
        ensures
            r == self.members().contains(x.target()),
    {
        let mut i: usize = 0;
        while i < self.items.len()
            invariant
                i <= self.items.len(),
                forall|j: int| 0 <= j < i ==> self.members()[j] != x.target(),
            decreases self.items.len() - i,
        {
            if same_target(&self.items[i], x) {
                assert(self.members()[i as int] == x.target());
                return true;
            }
            i = i + 1;
        }
        false
    }

    /// Adds `x`, keeping members ordered; adding a member already present
    /// changes nothing.
    pub fn insert(&mut self, x: T)
        requires
            old(self).wf(),
        ensures
            final(self).wf(),
            final(self).members().to_set() == old(self).members().to_set().insert(x.target()),
            old(self).members().contains(x.target()) ==> final(self).members() == old(self).members(),
            (forall|j: int|
                0 <= j < old(self).members().len() ==> lex_lt(
                    rendered(#[trigger] old(self).members()[j]),
                    rendered(x.target()),
                )) ==> final(self).members() == old(self).members().push(x.target()),
    {
        let ghost m = self.members();
        let ghost t = x.target();
        let mut i: usize = 0;
        while i < self.items.len()
            invariant
                i <= self.items.len(),
                self.members() == m,
                m == old(self).members(),
                strictly_sorted(m),
                t == x.target(),
                forall|j: int| 0 <= j < i ==> lex_lt(rendered(#[trigger] m[j]), rendered(t)),
            decreases self.items.len() - i,
        {
            let c = compare_targets(&self.items[i], &x);
            match c {
                Comparison::Less => {},
                Comparison::Equal => {
                    proof {
                        lemma_render_injective(m[i as int].0, m[i as int].1, t.0, t.1);
                        assert(m[i as int] == t);
                        assert(m.contains(t));
                        assert(m.to_set().contains(t));
                        assert(m.to_set().insert(t) =~= m.to_set());
                    }
                    return;
                },
                Comparison::Greater => {
                    proof {
                        lemma_lex_trichotomy(rendered(m[i as int]), rendered(t));
                    }
                    self.items.insert(i, x);
                    proof {
                        let nm = self.members();
                        assert(nm =~= m.insert(i as int, t));
                        assert forall|a: int, b: int| 0 <= a < b < nm.len() implies lex_lt(
                            #[trigger] rendered(nm[a]),
                            #[trigger] rendered(nm[b]),
                        ) by {
                            if a < i && b == i {
                            } else if a < i && b > i {
                            } else if a == i && b > i {
                                if b - 1 > i {
                                    lemma_lex_transitive(rendered(t), rendered(m[i as int]), rendered(m[b - 1]));
                                }
                            } else {
                            }
                        }
                        assert forall|e| #[trigger] nm.to_set().contains(e) <==> m.to_set().insert(t).contains(e) by {
                            if nm.contains(e) {
                                let k = choose|k: int| 0 <= k < nm.len() && nm[k] == e;
                                if k < i {
                                    assert(m[k] == e);
                                } else if k > i {
                                    assert(m[k - 1] == e);
                                }
                            }
                            if m.contains(e) {
                                let k = choose|k: int| 0 <= k < m.len() && m[k] == e;
                                if k < i {
                                    assert(nm[k] == e);
                                } else {
                                    assert(nm[k + 1] == e);
                                }
                            }
                            if e == t {
                                assert(nm[i as int] == t);
                            }
                        }
                        assert(nm.to_set() =~= m.to_set().insert(t));
                        if m.contains(t) {
                            let k = choose|k: int| 0 <= k < m.len() && m[k] == t;
                            if k < i {
                                lemma_lex_trichotomy(rendered(t), rendered(t));
                            } else if k == i {
                                lemma_lex_trichotomy(rendered(t), rendered(t));
                            } else {
                                lemma_lex_transitive(rendered(t), rendered(m[i as int]), rendered(m[k]));
                                lemma_lex_trichotomy(rendered(t), rendered(t));
                            }
                        }
                        if forall|j: int| 0 <= j < m.len() ==> lex_lt(rendered(#[trigger] m[j]), rendered(t)) {
                            lemma_lex_trichotomy(rendered(m[i as int]), rendered(t));
                        }
                    }
                    return;
                },
            }
            i = i + 1;
        }
        self.items.push(x);
        proof {
            let nm = self.members();
            assert(nm =~= m.push(t));
            m.lemma_push_to_set_commute(t);
            assert(nm.to_set() =~= m.to_set().insert(t));
            if m.contains(t) {
                let k = choose|k: int| 0 <= k < m.len() && m[k] == t;
                lemma_lex_trichotomy(rendered(t), rendered(t));
            }
        }
    }
}

} // verus!
