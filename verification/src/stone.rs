//! The records of `.stone` package archives that the library reads and
//! writes: metadata records, layout entries and content indices.

use vstd::prelude::*;

verus! {

/// Tag of a metadata record.
#[derive(Debug, Clone, Copy, PartialEq, Eq, Structural)]
pub enum MetaTag {
    Name,
    Architecture,
    Version,
    Summary,
    Description,
    Homepage,
    SourceID,
    Depends,
    Provides,
    Conflicts,
    Release,
    License,
    BuildRelease,
    PackageURI,
    PackageHash,
    PackageSize,
    BuildDepends,
    SourceURI,
    SourcePath,
    SourceRef,
}

/// Dependency kinds as stored in metadata records.
#[derive(Debug, Clone, Copy, PartialEq, Eq, Structural)]
pub enum MetaDependency {
    PackageName,
    SharedLibrary,
    PkgConfig,
    Interpreter,
    CMake,
    Python,
    Binary,
    SystemBinary,
    PkgConfig32,
}

/// Value of a metadata record.
#[derive(Debug, Clone, PartialEq, Eq)]
pub enum MetaKind {
    Int8(i8),
    Uint8(u8),
    Int16(i16),
    Uint16(u16),
    Int32(i32),
    Uint32(u32),
    Int64(i64),
    Uint64(u64),
    String(String),
    Dependency(MetaDependency, String),
    Provider(MetaDependency, String),
}

/// Mathematical form of [`MetaKind`].
pub enum MetaValue {
    Int8(i8),
    Uint8(u8),
    Int16(i16),
    Uint16(u16),
    Int32(i32),
    Uint32(u32),
    Int64(i64),
    Uint64(u64),
    Text(Seq<char>),
    Dependency(MetaDependency, Seq<char>),
    Provider(MetaDependency, Seq<char>),
}

impl View for MetaKind {
    type V = MetaValue;

    open spec fn view(&self) -> MetaValue {
        match self {
            MetaKind::Int8(i) => MetaValue::Int8(*i),
            MetaKind::Uint8(i) => MetaValue::Uint8(*i),
            MetaKind::Int16(i) => MetaValue::Int16(*i),
            MetaKind::Uint16(i) => MetaValue::Uint16(*i),
            MetaKind::Int32(i) => MetaValue::Int32(*i),
            MetaKind::Uint32(i) => MetaValue::Uint32(*i),
            MetaKind::Int64(i) => MetaValue::Int64(*i),
            MetaKind::Uint64(i) => MetaValue::Uint64(*i),
            MetaKind::String(s) => MetaValue::Text(s@),
            MetaKind::Dependency(k, s) => MetaValue::Dependency(*k, s@),
            MetaKind::Provider(k, s) => MetaValue::Provider(*k, s@),
        }
    }
}

/// A metadata record: a tag and its value.
#[derive(Debug, Clone, PartialEq, Eq)]
pub struct MetaBody {
    pub tag: MetaTag,
    pub kind: MetaKind,
}

impl View for MetaBody {
    type V = (MetaTag, MetaValue);

    open spec fn view(&self) -> (MetaTag, MetaValue) {
        (self.tag, self.kind@)
    }
}

/// The mathematical form of a sequence of metadata records.
pub open spec fn records_view(p: Seq<MetaBody>) -> Seq<(MetaTag, MetaValue)> {
    p.map_values(|b: MetaBody| b@)
}

/// A filesystem entry described by a layout record.
#[derive(Debug, Clone, PartialEq, Eq)]
pub enum LayoutEntry {
    /// A regular file: content digest and target path
    Regular(u128, String),
    /// A symlink: source and target path
    Symlink(String, String),
    Directory(String),
    CharacterDevice(String),
    BlockDevice(String),
    Fifo(String),
    Socket(String),
}

/// A layout record: ownership, mode, tag and the entry itself.
#[derive(Debug, Clone, PartialEq, Eq)]
pub struct Layout {
    pub uid: u32,
    pub gid: u32,
    pub mode: u32,
    pub tag: u32,
    pub entry: LayoutEntry,
}

/// A content index record: the byte range of one asset within the content
/// payload, and that asset's digest.
#[derive(Debug, Clone, Copy, PartialEq, Eq)]
pub struct Index {
    pub start: u64,
    pub end: u64,
    pub digest: u128,
}

} // verus!
