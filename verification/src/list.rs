//! Listing packages: the line each package is shown as, with the revision
//! that synchronizing with the available packages would bring.

use vstd::prelude::*;

use crate::package::set::{dedup_named, sort_lex_by, sort_named, Named};
use crate::package::{package_views, Flags, Package, PackageView};
use crate::select::{dedup_by, first_where};
use crate::text::{decimal, u64_to_decimal};

verus! {

/// Which listed packages have a synchronization to show.
#[derive(Debug, Clone, Copy, PartialEq, Eq, Structural)]
pub enum SyncMode {
    /// Any package whose available release differs
    All,
    /// Only packages with a later release available
    Upgrades,
}

/// A version and the release it was built from.
#[derive(Debug, Clone)]
pub struct Revision {
    pub version: String,
    pub release: String,
}

/// Mathematical form of a [`Revision`].
pub struct RevisionView {
    pub version: Seq<char>,
    pub release: Seq<char>,
}

impl View for Revision {
    type V = RevisionView;

    open spec fn view(&self) -> RevisionView {
        RevisionView { version: self.version@, release: self.release@ }
    }
}

/// How a listed package is shown.
#[derive(Debug, Clone)]
pub struct Format {
    pub name: String,
    pub summary: String,
    pub revision: Revision,
    /// Shown as chosen by the user
    pub explicit: bool,
    /// The revision a synchronization would bring
    pub sync: Option<Revision>,
}

/// Mathematical form of a [`Format`].
pub struct FormatView {
    pub name: Seq<char>,
    pub summary: Seq<char>,
    pub revision: RevisionView,
    pub explicit: bool,
    pub sync: Option<RevisionView>,
}

impl View for Format {
    type V = FormatView;

    open spec fn view(&self) -> FormatView {
        FormatView {
            name: self.name@,
            summary: self.summary@,
            revision: self.revision@,
            explicit: self.explicit,
            sync: match self.sync {
                Some(r) => Some(r@),
                None => None,
            },
        }
    }
}

impl Named for Format {
    open spec fn key_of(v: FormatView) -> Seq<char> {
        v.name
    }

    fn key(&self) -> (r: &str) {
        self.name.as_str()
    }
}

/// The width of a text on a terminal, as its number of UTF-8 bytes.
pub open spec fn width(s: Seq<char>) -> int {
    vstd::utf8::encode_utf8(s).len() as int
}

impl Revision {
    /// The width the revision takes.
    pub fn size(&self) -> (r: usize)
        requires
            width(self.version@) + width(self.release@) <= usize::MAX,
        ensures
            r == width(self.version@) + width(self.release@),
    {
        self.version.as_str().len() + self.release.as_str().len()
    }
}

impl Format {
    /// The width the name, the revision and the synchronized revision take.
    pub fn size(&self) -> (r: usize)
        requires
            width(self.name@) + width(self.revision.version@) + width(self.revision.release@) + match self.sync {
                Some(s) => width(s.version@) + width(s.release@),
                None => 0,
            } <= usize::MAX,
        ensures
            r == width(self.name@) + width(self.revision.version@) + width(self.revision.release@) + match self.sync {
                Some(s) => width(s.version@) + width(s.release@),
                None => 0,
            },
    {
        let sync = match &self.sync {
            Some(s) => s.size(),
            None => 0,
        };
        self.name.as_str().len() + self.revision.size() + sync
    }
}

/// Columns of a package listing are padded by this many spaces.
pub const COLUMN_PADDING: usize = 3;

impl Package {
    /// The width the package takes in a column listing: its name, version
    /// and release, and the padding between columns.
    pub fn display_width(&self) -> (r: usize)
        requires
            width(self.meta.name@) + width(self.meta.version_identifier@) + width(
                decimal(self.meta.source_release as nat),
            ) + COLUMN_PADDING <= usize::MAX,
        ensures
            r == width(self.meta.name@) + width(self.meta.version_identifier@) + width(
                decimal(self.meta.source_release as nat),
            ) + COLUMN_PADDING,
    {
        let release = u64_to_decimal(self.meta.source_release);
        self.meta.name.as_str().len() + self.meta.version_identifier.as_str().len() + release.as_str().len()
            + COLUMN_PADDING
    }
}

/// The revision of package `p`.
pub open spec fn revision_of(p: PackageView) -> RevisionView {
    RevisionView { version: p.meta.version_identifier, release: decimal(p.meta.source_release as nat) }
}

/// The revision a synchronization would bring to `p`: that of the first
/// available package of the same name, if its release differs (or, for
/// upgrades only, is later).
pub open spec fn sync_of(p: PackageView, available: Seq<PackageView>, mode: SyncMode) -> Option<RevisionView> {
    match first_where(available, |u: PackageView| u.meta.name == p.meta.name) {
        Some(u) => if (match mode {
            SyncMode::Upgrades => u.meta.source_release > p.meta.source_release,
            SyncMode::All => u.meta.source_release != p.meta.source_release,
        }) {
            Some(revision_of(u))
        } else {
            None
        },
        None => None,
    }
}

/// How package `p` is shown: as explicit when listing installed packages
/// alone, and then only if the user chose it; with its synchronization when
/// one is asked for.
pub open spec fn format_of(
    p: PackageView,
    filter: Flags,
    available: Seq<PackageView>,
    sync: Option<SyncMode>,
) -> FormatView {
    FormatView {
        name: p.meta.name,
        summary: p.meta.summary,
        revision: revision_of(p),
        explicit: if filter == (Flags { available: false, installed: true, source: false, explicit: false }) {
            p.flags.explicit
        } else {
            true
        },
        sync: match sync {
            Some(mode) => sync_of(p, available, mode),
            None => None,
        },
    }
}

/// The line of `p`, if it is listed: when a synchronization is asked for,
/// only packages that have one are.
pub open spec fn listed(filter: Flags, available: Seq<PackageView>, sync: Option<SyncMode>) -> spec_fn(
    PackageView,
) -> Option<FormatView> {
    |p: PackageView|
        {
            let f = format_of(p, filter, available, sync);
            if sync is Some && f.sync is None {
                None
            } else {
                Some(f)
            }
        }
}

/// The revision of `p`.
fn revision(p: &Package) -> (r: Revision)
    ensures
        r@ == revision_of(p@),
{
    Revision { version: p.meta.version_identifier.clone(), release: u64_to_decimal(p.meta.source_release) }
}

/// The synchronization of `p` against `available`.
fn sync_for(p: &Package, available: &Vec<Package>, mode: SyncMode) -> (r: Option<Revision>)
    ensures
        match r {
            Some(s) => sync_of(p@, package_views(available@), mode) == Some(s@),
            None => sync_of(p@, package_views(available@), mode) is None,
        },
{
    let ghost av = package_views(available@);
    let ghost pred = |u: PackageView| u.meta.name == p@.meta.name;
    let mut i: usize = 0;
    while i < available.len()
        invariant
            i <= available.len(),
            av == package_views(available@),
            pred == (|u: PackageView| u.meta.name == p@.meta.name),
            forall|j: int| 0 <= j < i ==> !pred(#[trigger] av[j]),
        decreases available.len() - i,
    {
        assert(av[i as int] == available@[i as int]@);
        if available[i].meta.name.same(&p.meta.name) {
            proof {
                crate::select::lemma_first_index(av, pred, i as int);
            }
            let u = &available[i];
            let wanted = match mode {
                SyncMode::Upgrades => u.meta.source_release > p.meta.source_release,
                SyncMode::All => u.meta.source_release != p.meta.source_release,
            };
            if wanted {
                return Some(revision(u));
            } else {
                return None;
            }
        }
        i = i + 1;
    }
    proof {
        crate::select::lemma_first_index_none(av, pred);
    }
    None
}

/// The lines of a package listing: every package of `packages` as shown
/// under `filter`, with its synchronization against `available` when `sync`
/// asks for one (and then only those that have one), ordered by name and
/// one per name, the first of each name winning.
pub fn list_formats(packages: &Vec<Package>, filter: Flags, available: &Vec<Package>, sync: Option<SyncMode>) -> (r:
    Vec<Format>)
    ensures
        r@.map_values(|f: Format| f@) == dedup_by(
            sort_lex_by(
                package_views(packages@).filter_map(listed(filter, package_views(available@), sync)),
                |v: FormatView| Format::key_of(v),
            ),
            |v: FormatView| Format::key_of(v),
        ),
{
    let ghost pv = package_views(packages@);
    let ghost f = listed(filter, package_views(available@), sync);
    let installed_only = filter == Flags::new().with_installed();
    let mut out: Vec<Format> = Vec::new();
    let mut i: usize = 0;
    while i < packages.len()
        invariant
            i <= packages.len(),
            pv == package_views(packages@),
            f == listed(filter, package_views(available@), sync),
            installed_only == (filter == (Flags { available: false, installed: true, source: false, explicit: false })),
            out@.map_values(|x: Format| x@) == pv.take(i as int).filter_map(f),
        decreases packages.len() - i,
    {
        proof {
            pv.lemma_filter_map_take_succ(f, i as int);
        }
        let p = &packages[i];
        assert(pv[i as int] == p@);
        let s = match sync {
            Some(mode) => sync_for(p, available, mode),
            None => None,
        };
        let ghost prev = out@.map_values(|x: Format| x@);
        let shown = match sync {
            Some(_) => s.is_some(),
            None => true,
        };
        if shown {
            let line = Format {
                name: p.meta.name.0.clone(),
                summary: p.meta.summary.clone(),
                revision: revision(p),
                explicit: if installed_only {
                    p.flags.explicit
                } else {
                    true
                },
                sync: s,
            };
            let ghost lv = line@;
            out.push(line);
            assert(out@.map_values(|x: Format| x@) =~= prev.push(lv));
        }
        assert(out@.map_values(|x: Format| x@) =~= pv.take(i + 1).filter_map(f));
        i = i + 1;
    }
    assert(pv.take(i as int) =~= pv);
    let sorted = sort_named(out);
    dedup_named(sorted)
}

} // verus!
