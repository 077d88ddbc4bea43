//! Packages: identity, status flags, ordering and metadata.

pub mod meta;
pub mod set;

use vstd::prelude::*;

use crate::order::Ranked;

pub use self::meta::{Meta, MetaView, MissingMetaFieldError, Name};

verus! {

/// Unique ID of a [`Package`]
#[derive(Debug, Default, Clone, PartialEq, Eq, PartialOrd, Ord, Hash)]
pub struct Id(pub String);

impl View for Id {
    type V = Seq<char>;

    open spec fn view(&self) -> Seq<char> {
        self.0@
    }
}

impl Id {
    /// An identifier made of `s`.
    pub fn from(s: String) -> (r: Id)
        ensures
            r@ == s@,
    {
        Id(s)
    }

    /// The identifier made from package metadata.
    pub fn from_meta(id: meta::Id) -> (r: Id)
        ensures
            r@ == id.0@,
    {
        Id(id.0)
    }

    /// The identifier's text.
    pub fn as_str(&self) -> (s: &str)
        ensures
            s@ == self@,
    {
        self.0.as_str()
    }

    /// A copy of this identifier.
    pub fn duplicate(&self) -> (r: Id)
        ensures
            r@ == self@,
    {
        Id(self.0.clone())
    }

    /// Whether two identifiers are equal.
    pub fn same(&self, other: &Id) -> (r: bool)
        ensures
            r == (self@ == other@),
    {
        self.0 == other.0
    }
}


/// Status flags of a [`Package`].
#[derive(Clone, Copy, Debug, Default, PartialEq, Eq, Structural)]
pub struct Flags {
    /// Package is available for installation.
    pub available: bool,
    /// Package is already installed.
    pub installed: bool,
    /// Available as from-source build.
    pub source: bool,
    /// Package is explicitly installed (use with [`Flags::installed`]).
    pub explicit: bool,
}

/// One bit for a flag that is set.
pub open spec fn bit(b: bool) -> u32 {
    if b {
        1
    } else {
        0
    }
}

/// The bit representation of `f`: available, installed, source and
/// explicit in the four lowest bits, in that order.
pub open spec fn flag_bits(f: Flags) -> u32 {
    (bit(f.available) + 2 * bit(f.installed) + 4 * bit(f.source) + 8 * bit(f.explicit)) as u32
}

/// Every flag set in `other` is set in `f`.
pub open spec fn flags_contain(f: Flags, other: Flags) -> bool {
    &&& other.available ==> f.available
    &&& other.installed ==> f.installed
    &&& other.source ==> f.source
    &&& other.explicit ==> f.explicit
}

fn bit_of(b: bool) -> (r: u32)
    ensures
        r == bit(b),
{
    if b {
        1
    } else {
        0
    }
}

impl Flags {
    /// No flag set.
    pub fn new() -> (r: Self)
        ensures
            !r.available && !r.installed && !r.source && !r.explicit,
    {
        Flags { available: false, installed: false, source: false, explicit: false }
    }

    /// Returns a copy of [`Flags`] with available set to true.
    pub fn with_available(&self) -> (r: Self)
        ensures
            r == (Flags { available: true, ..*self }),
    {
        Flags { available: true, ..*self }
    }

    /// Returns a copy of [`Flags`] with installed set to true.
    pub fn with_installed(&self) -> (r: Self)
        ensures
            r == (Flags { installed: true, ..*self }),
    {
        Flags { installed: true, ..*self }
    }

    /// Returns a copy of [`Flags`] with source set to true.
    pub fn with_source(&self) -> (r: Self)
        ensures
            r == (Flags { source: true, ..*self }),
    {
        Flags { source: true, ..*self }
    }

    /// Returns a copy of [`Flags`] with explicit set to true.
    pub fn with_explicit(&self) -> (r: Self)
        ensures
            r == (Flags { explicit: true, ..*self }),
    {
        Flags { explicit: true, ..*self }
    }

    /// Returns whether this flag set contains another flag set.
    pub fn contains(&self, other: Self) -> (r: bool)
        ensures
            r == flags_contain(*self, other),
    {
        let a = self.bits();
        let b = other.bits();
        let ghost (a1, a2, a3, a4) = (bit(self.available), bit(self.installed), bit(self.source), bit(self.explicit));
        let ghost (b1, b2, b3, b4) = (bit(other.available), bit(other.installed), bit(other.source), bit(other.explicit));
        let r = (a & b) == b;
        assert(r == ((b1 == 1 ==> a1 == 1) && (b2 == 1 ==> a2 == 1) && (b3 == 1 ==> a3 == 1) && (b4 == 1 ==> a4 == 1))) by (bit_vector)
            requires
                a1 <= 1 && a2 <= 1 && a3 <= 1 && a4 <= 1,
                b1 <= 1 && b2 <= 1 && b3 <= 1 && b4 <= 1,
                a == a1 + 2 * a2 + 4 * a3 + 8 * a4,
                b == b1 + 2 * b2 + 4 * b3 + 8 * b4,
                r == ((a & b) == b),
        ;
        r
    }

    /// The flags as bits: available, installed, source and explicit in the
    /// four lowest bits.
    pub fn bits(&self) -> (r: u32)
        ensures
            r == flag_bits(*self),
    {
        let a = bit_of(self.available);
        let i = bit_of(self.installed);
        let s = bit_of(self.source);
        let e = bit_of(self.explicit);
        let r = a | (i << 1u32) | (s << 2u32) | (e << 3u32);
        assert(r == a + 2 * i + 4 * s + 8 * e) by (bit_vector)
            requires
                a <= 1 && i <= 1 && s <= 1 && e <= 1,
                r == a | (i << 1u32) | (s << 2u32) | (e << 3u32),
        ;
        r
    }
}

/// A package: its identifier, metadata and status.
#[derive(Debug, Clone, PartialEq, Eq)]
pub struct Package {
    pub id: Id,
    pub meta: Meta,
    pub flags: Flags,
}

/// Mathematical form of a [`Package`].
pub struct PackageView {
    pub id: Seq<char>,
    pub meta: MetaView,
    pub flags: Flags,
}

impl View for Package {
    type V = PackageView;

    open spec fn view(&self) -> PackageView {
        PackageView { id: self.id@, meta: self.meta@, flags: self.flags }
    }
}

/// Packages come highest source release first, then highest build release.
pub open spec fn package_rank(p: PackageView) -> (u64, u64) {
    (p.meta.source_release, p.meta.build_release)
}

impl Ranked for Package {
    open spec fn rank_of_view(v: PackageView) -> (u64, u64) {
        package_rank(v)
    }

    fn rank(&self) -> (r: (u64, u64)) {
        (self.meta.source_release, self.meta.build_release)
    }
}

impl crate::package::set::Named for Package {
    open spec fn key_of(v: PackageView) -> Seq<char> {
        v.meta.name
    }

    fn key(&self) -> (r: &str) {
        self.meta.name.as_str()
    }
}

impl Package {
    /// A copy of this package.
    pub fn duplicate(&self) -> (r: Package)
        ensures
            r@ == self@,
            self.meta.wf() ==> r.meta.wf(),
    {
        Package { id: self.id.duplicate(), meta: self.meta.duplicate(), flags: self.flags }
    }
}

/// The views of a list of package identifiers.
pub open spec fn ids_view(s: Seq<Id>) -> Seq<Seq<char>> {
    s.map_values(|i: Id| i@)
}

/// The views of a list of packages.
pub open spec fn package_views(s: Seq<Package>) -> Seq<PackageView> {
    s.map_values(|p: Package| p@)
}

/// Packages in sorted order: highest source release first, then highest
/// build release; packages that tie keep their order.
pub struct Sorted<T> {
    items: Vec<T>,
}

impl<T: Ranked> Sorted<T> {
    /// The items, in sorted order.
    pub closed spec fn items(&self) -> Seq<T> {
        self.items@
    }

    /// Sorts `items`.
    pub fn new(items: Vec<T>) -> (r: Self)
        ensures
            r.items().map_values(|t: T| t@) == crate::order::sort_desc(items@.map_values(|t: T| t@), Self::rank_fn()),
    {
        Sorted { items: crate::order::sort_ranked(items) }
    }

    /// The order `new` sorts by.
    pub open spec fn rank_fn() -> spec_fn(T::V) -> (u64, u64) {
        |v: T::V| T::rank_of_view(v)
    }

    /// What `new` gives keeps every item, puts higher ranks first, and keeps
    /// items of equal rank in the order in which they came.
    pub proof fn lemma_sorted(input: Seq<T::V>, output: Seq<T::V>)
        requires
            output == crate::order::sort_desc(input, Self::rank_fn()),
        ensures
            crate::order::sorted_desc(output, Self::rank_fn()),
            output.to_multiset() == input.to_multiset(),
            forall|k: (u64, u64)|
                #[trigger] output.filter(crate::order::has_rank(Self::rank_fn(), k)) == input.filter(
                    crate::order::has_rank(Self::rank_fn(), k),
                ),
    {
        crate::order::lemma_sort_desc(input, Self::rank_fn());
        assert forall|k: (u64, u64)|
            #[trigger] output.filter(crate::order::has_rank(Self::rank_fn(), k)) == input.filter(
                crate::order::has_rank(Self::rank_fn(), k),
            ) by {
            crate::order::lemma_sort_desc_stable(input, Self::rank_fn(), k);
        }
    }

    /// The items, in sorted order.
    pub fn into_vec(self) -> (r: Vec<T>)
        ensures
            r@ == self.items(),
    {
        self.items
    }
}

} // verus!
