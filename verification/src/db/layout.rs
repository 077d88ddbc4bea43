//! The layout database: how layout records are stored as rows.

use vstd::prelude::*;

use crate::package;
use crate::stone::{Layout, LayoutEntry};
use crate::text::{decimal, lemma_parse_decimal, parse_u128, parse_u128_spec, str_equal, u128_to_decimal};

verus! {

/// Mathematical form of a [`LayoutEntry`].
pub enum EntryView {
    Regular(u128, Seq<char>),
    Symlink(Seq<char>, Seq<char>),
    Directory(Seq<char>),
    CharacterDevice(Seq<char>),
    BlockDevice(Seq<char>),
    Fifo(Seq<char>),
    Socket(Seq<char>),
}

impl View for LayoutEntry {
    type V = EntryView;

    open spec fn view(&self) -> EntryView {
        match self {
            LayoutEntry::Regular(h, n) => EntryView::Regular(*h, n@),
            LayoutEntry::Symlink(a, b) => EntryView::Symlink(a@, b@),
            LayoutEntry::Directory(n) => EntryView::Directory(n@),
            LayoutEntry::CharacterDevice(n) => EntryView::CharacterDevice(n@),
            LayoutEntry::BlockDevice(n) => EntryView::BlockDevice(n@),
            LayoutEntry::Fifo(n) => EntryView::Fifo(n@),
            LayoutEntry::Socket(n) => EntryView::Socket(n@),
        }
    }
}

/// The optional text of an optional string.
pub open spec fn opt_text(o: Option<String>) -> Option<Seq<char>> {
    match o {
        Some(s) => Some(s@),
        None => None,
    }
}

/// The columns an entry is stored in: its type, and up to two values.
pub open spec fn encode_spec(e: EntryView) -> (Seq<char>, Option<Seq<char>>, Option<Seq<char>>) {
    match e {
        EntryView::Regular(h, n) => ("regular"@, Some(decimal(h as nat)), Some(n)),
        EntryView::Symlink(a, b) => ("symlink"@, Some(a), Some(b)),
        EntryView::Directory(n) => ("directory"@, Some(n), None),
        EntryView::CharacterDevice(n) => ("character-device"@, Some(n), None),
        EntryView::BlockDevice(n) => ("block-device"@, Some(n), None),
        EntryView::Fifo(n) => ("fifo"@, Some(n), None),
        EntryView::Socket(n) => ("socket"@, Some(n), None),
    }
}

/// The entry stored in the given columns, if they hold one: a regular
/// file needs a decimal digest and a name, a symlink two values, the other
/// kinds one value.
pub open spec fn decode_spec(t: Seq<char>, v1: Option<Seq<char>>, v2: Option<Seq<char>>) -> Option<EntryView> {
    if t == "regular"@ {
        match (v1, v2) {
            (Some(h), Some(n)) => match parse_u128_spec(h) {
                Some(x) => Some(EntryView::Regular(x, n)),
                None => None,
            },
            _ => None,
        }
    } else if t == "symlink"@ {
        match (v1, v2) {
            (Some(a), Some(b)) => Some(EntryView::Symlink(a, b)),
            _ => None,
        }
    } else if t == "directory"@ {
        match v1 {
            Some(n) => Some(EntryView::Directory(n)),
            None => None,
        }
    } else if t == "character-device"@ {
        match v1 {
            Some(n) => Some(EntryView::CharacterDevice(n)),
            None => None,
        }
    } else if t == "block-device"@ {
        match v1 {
            Some(n) => Some(EntryView::BlockDevice(n)),
            None => None,
        }
    } else if t == "fifo"@ {
        match v1 {
            Some(n) => Some(EntryView::Fifo(n)),
            None => None,
        }
    } else if t == "socket"@ {
        match v1 {
            Some(n) => Some(EntryView::Socket(n)),
            None => None,
        }
    } else {
        None
    }
}

/// The columns that store `entry`.
pub fn encode_entry(entry: LayoutEntry) -> (r: (&'static str, Option<String>, Option<String>))
    ensures
        (r.0@, opt_text(r.1), opt_text(r.2)) == encode_spec(entry@),
{
    match entry {
        LayoutEntry::Regular(hash, name) => ("regular", Some(u128_to_decimal(hash)), Some(name)),
        LayoutEntry::Symlink(a, b) => ("symlink", Some(a), Some(b)),
        LayoutEntry::Directory(name) => ("directory", Some(name), None),
        LayoutEntry::CharacterDevice(name) => ("character-device", Some(name), None),
        LayoutEntry::BlockDevice(name) => ("block-device", Some(name), None),
        LayoutEntry::Fifo(name) => ("fifo", Some(name), None),
        LayoutEntry::Socket(name) => ("socket", Some(name), None),
    }
}

/// The entry stored in the given columns, if they hold one.
pub fn decode_entry(entry_type: &str, entry_value1: Option<String>, entry_value2: Option<String>) -> (r: Option<
    LayoutEntry,
>)
    ensures
        match r {
            Some(e) => decode_spec(entry_type@, opt_text(entry_value1), opt_text(entry_value2)) == Some(e@),
            None => decode_spec(entry_type@, opt_text(entry_value1), opt_text(entry_value2)) is None,
        },
{
    if str_equal(entry_type, "regular") {
        match (entry_value1, entry_value2) {
            (Some(h), Some(n)) => match parse_u128(h.as_str()) {
                Some(x) => Some(LayoutEntry::Regular(x, n)),
                None => None,
            },
            _ => None,
        }
    } else if str_equal(entry_type, "symlink") {
        match (entry_value1, entry_value2) {
            (Some(a), Some(b)) => Some(LayoutEntry::Symlink(a, b)),
            _ => None,
        }
    } else if str_equal(entry_type, "directory") {
        match entry_value1 {
            Some(n) => Some(LayoutEntry::Directory(n)),
            None => None,
        }
    } else if str_equal(entry_type, "character-device") {
        match entry_value1 {
            Some(n) => Some(LayoutEntry::CharacterDevice(n)),
            None => None,
        }
    } else if str_equal(entry_type, "block-device") {
        match entry_value1 {
            Some(n) => Some(LayoutEntry::BlockDevice(n)),
            None => None,
        }
    } else if str_equal(entry_type, "fifo") {
        match entry_value1 {
            Some(n) => Some(LayoutEntry::Fifo(n)),
            None => None,
        }
    } else if str_equal(entry_type, "socket") {
        match entry_value1 {
            Some(n) => Some(LayoutEntry::Socket(n)),
            None => None,
        }
    } else {
        None
    }
}

/// Decoding the columns an entry is stored in gives the entry back.
pub proof fn lemma_entry_roundtrip(e: EntryView)
    ensures
        ({
            let c = encode_spec(e);
            decode_spec(c.0, c.1, c.2) == Some(e)
        }),
{
    reveal_strlit("regular");
    reveal_strlit("symlink");
    reveal_strlit("directory");
    reveal_strlit("character-device");
    reveal_strlit("block-device");
    reveal_strlit("fifo");
    reveal_strlit("socket");
    assert("symlink"@[0] != "regular"@[0]);
    assert("regular"@.len() == 7 && "symlink"@.len() == 7 && "directory"@.len() == 9);
    assert("character-device"@.len() == 16 && "block-device"@.len() == 12);
    assert("fifo"@.len() == 4 && "socket"@.len() == 6);
    match e {
        EntryView::Regular(h, n) => {
            lemma_parse_decimal(h);
        },
        _ => {},
    }
}

/// A row of the layout database.
#[derive(Debug, Clone)]
pub struct Row {
    pub package_id: package::Id,
    pub uid: i32,
    pub gid: i32,
    pub mode: i32,
    pub tag: i32,
    pub entry_type: String,
    pub entry_value1: Option<String>,
    pub entry_value2: Option<String>,
}

/// The row that stores `layout` of package `id`; the numeric fields are
/// stored bit for bit as signed integers.
pub fn encode_row(id: package::Id, layout: Layout) -> (r: Row)
    ensures
        r.package_id@ == id@,
        r.uid as u32 == layout.uid && r.gid as u32 == layout.gid && r.mode as u32 == layout.mode && r.tag as u32
            == layout.tag,
        (r.entry_type@, opt_text(r.entry_value1), opt_text(r.entry_value2)) == encode_spec(layout.entry@),
{
    let (t, v1, v2) = encode_entry(layout.entry);
    let uid = layout.uid as i32;
    let gid = layout.gid as i32;
    let mode = layout.mode as i32;
    let tag = layout.tag as i32;
    let (a, b, c, d) = (layout.uid, layout.gid, layout.mode, layout.tag);
    assert(uid as u32 == a && gid as u32 == b && mode as u32 == c && tag as u32 == d) by (bit_vector)
        requires
            uid == a as i32,
            gid == b as i32,
            mode == c as i32,
            tag == d as i32,
    ;
    Row {
        package_id: id,
        uid,
        gid,
        mode,
        tag,
        entry_type: String::from_str(t),
        entry_value1: v1,
        entry_value2: v2,
    }
}

/// Errors of reading the layout database.
#[derive(Debug)]
pub enum Error {
    /// A row whose entry columns hold no entry
    LayoutEntryDecode,
}

/// The package and layout a row stores, if its entry columns hold an
/// entry.
pub fn decode_row(row: Row) -> (r: Result<(package::Id, Layout), Error>)
    ensures
        match r {
            Ok((id, l)) => {
                &&& id@ == row.package_id@
                &&& l.uid == row.uid as u32 && l.gid == row.gid as u32 && l.mode == row.mode as u32 && l.tag
                    == row.tag as u32
                &&& decode_spec(row.entry_type@, opt_text(row.entry_value1), opt_text(row.entry_value2)) == Some(
                    l.entry@,
                )
            },
            Err(_) => decode_spec(row.entry_type@, opt_text(row.entry_value1), opt_text(row.entry_value2)) is None,
        },
{
    let entry = match decode_entry(row.entry_type.as_str(), row.entry_value1, row.entry_value2) {
        Some(e) => e,
        None => return Err(Error::LayoutEntryDecode),
    };
    let layout = Layout {
        uid: row.uid as u32,
        gid: row.gid as u32,
        mode: row.mode as u32,
        tag: row.tag as u32,
        entry,
    };
    Ok((row.package_id, layout))
}

/// Storing a layout and reading it back gives the same layout.
pub proof fn lemma_row_roundtrip(l: Layout, r: Row)
    requires
        r.uid as u32 == l.uid && r.gid as u32 == l.gid && r.mode as u32 == l.mode && r.tag as u32 == l.tag,
        (r.entry_type@, opt_text(r.entry_value1), opt_text(r.entry_value2)) == encode_spec(l.entry@),
    ensures
        decode_spec(r.entry_type@, opt_text(r.entry_value1), opt_text(r.entry_value2)) == Some(l.entry@),
{
    lemma_entry_roundtrip(l.entry@);
}

} // verus!
