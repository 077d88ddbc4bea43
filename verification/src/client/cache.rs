//! Where downloads and unpacked assets live in the cache, and the set of
//! assets being unpacked.

use vstd::prelude::*;

use crate::installation::{moss_path_spec, Installation};
use crate::package::Meta;
use crate::repository::{parse_url, url_parse};
use crate::path::{join, join_path};
use crate::text::{
    chars_of, digit_alphabet, digit_char, hexadecimal, pad_left, slice_chars, string_of, u128_to_hex,
};

verus! {

/// Errors of locating cached files.
#[derive(Debug)]
pub enum Error {
    /// A digest too short to name a cache location
    MalformedHash(String),
    /// The package has no download location
    MissingUri,
    /// The package's download location is not a URL
    InvalidUri(String),
    /// The package has no digest
    MissingHash,
}

/// Every character of `s` is ASCII.
pub open spec fn is_ascii(s: Seq<char>) -> bool {
    forall|i: int| 0 <= i < s.len() ==> (#[trigger] s[i] as u32) < 128
}

/// The part of `s` from `a` to `b`, as a string.
fn part(v: &Vec<char>, a: usize, b: usize) -> (r: String)
    requires
        a <= b <= v.len(),
    ensures
        r@ == v@.subrange(a as int, b as int),
{
    let s = slice_chars(v, a, b);
    string_of(&s)
}

/// `cache/downloads/v1/AAAAA/ZZZZZ/hash`, where `AAAAA` are the first and
/// `ZZZZZ` the last five characters of `hash`.
pub open spec fn download_path_spec(cache_downloads: Seq<char>, hash: Seq<char>) -> Seq<char> {
    join_path(
        join_path(
            join_path(join_path(cache_downloads, seq!['v', '1']), hash.subrange(0, 5)),
            hash.subrange(hash.len() - 5, hash.len() as int),
        ),
        hash,
    )
}

/// Where the download with digest `hash` is kept; fails for digests
/// shorter than five characters.
pub fn download_path(installation: &Installation, hash: &str) -> (r: Result<String, Error>)
    requires
        is_ascii(hash@),
    ensures
        match r {
            Ok(p) => hash@.len() >= 5 && p@ == download_path_spec(
                match installation.cache_dir {
                    Some(dir) => join_path(dir@, "downloads"@),
                    None => join_path(moss_path_spec(installation.root@, seq!['c', 'a', 'c', 'h', 'e']), "downloads"@),
                },
                hash@,
            ),
            Err(Error::MalformedHash(h)) => hash@.len() < 5 && h@ == hash@,
            Err(_) => false,
        },
{
    let v = chars_of(hash);
    if v.len() < 5 {
        return Err(Error::MalformedHash(String::from_str(hash)));
    }
    let base = installation.cache_path("downloads");
    let d = join(base.as_str(), "v1");
    proof {
        reveal_strlit("v1");
        assert("v1"@ =~= seq!['v', '1']);
    }
    let first = part(&v, 0, 5);
    let last = part(&v, v.len() - 5, v.len());
    let d = join(d.as_str(), first.as_str());
    let d = join(d.as_str(), last.as_str());
    Ok(join(d.as_str(), hash))
}

/// `assets/v2/AA/BB/CC/hash` for digests of ten or more characters
/// (`AABBCC` being the first six), `assets/v2/hash` for shorter ones.
pub open spec fn asset_path_spec(assets_v2: Seq<char>, hash: Seq<char>) -> Seq<char> {
    let dir = if hash.len() >= 10 {
        join_path(
            join_path(join_path(assets_v2, hash.subrange(0, 2)), hash.subrange(2, 4)),
            hash.subrange(4, 6),
        )
    } else {
        assets_v2
    };
    join_path(dir, hash)
}

/// Where the unpacked asset with digest `hash` is kept.
pub fn asset_path(installation: &Installation, hash: &str) -> (r: String)
    requires
        is_ascii(hash@),
    ensures
        r@ == asset_path_spec(
            join_path(moss_path_spec(installation.root@, seq!['a', 's', 's', 'e', 't', 's']), "v2"@),
            hash@,
        ),
{
    let v = chars_of(hash);
    let base = installation.assets_path("v2");
    let dir = if v.len() >= 10 {
        let a = part(&v, 0, 2);
        let b = part(&v, 2, 4);
        let c = part(&v, 4, 6);
        let d = join(base.as_str(), a.as_str());
        let d = join(d.as_str(), b.as_str());
        join(d.as_str(), c.as_str())
    } else {
        base
    };
    join(dir.as_str(), hash)
}

/// `cache/downloads` of an installation.
pub open spec fn downloads_dir(installation: &Installation) -> Seq<char> {
    match installation.cache_dir {
        Some(dir) => join_path(dir@, "downloads"@),
        None => join_path(moss_path_spec(installation.root@, seq!['c', 'a', 'c', 'h', 'e']), "downloads"@),
    }
}

/// Where a package is downloaded from and to: the URL its metadata gives,
/// and the cache location of its digest. Fails when the metadata has no
/// URI, when the URI is not a URL, when it has no digest, or when the digest
/// is too short, checked in that order.
pub fn download_target(installation: &Installation, meta: &Meta) -> (r: Result<(String, String), Error>)
    requires
        meta.hash matches Some(h) ==> is_ascii(h@),
    ensures
        match r {
            Ok((url, path)) => {
                &&& meta.uri matches Some(u) && url_parse(u@) == Some(url@)
                &&& meta.hash matches Some(h) && h@.len() >= 5 && path@ == download_path_spec(
                    downloads_dir(installation),
                    h@,
                )
            },
            Err(Error::MissingUri) => meta.uri is None,
            Err(Error::InvalidUri(u)) => meta.uri matches Some(m) && m@ == u@ && url_parse(u@) is None,
            Err(Error::MissingHash) => meta.uri matches Some(u) && url_parse(u@) is Some && meta.hash is None,
            Err(Error::MalformedHash(h)) => {
                &&& meta.uri matches Some(u) && url_parse(u@) is Some
                &&& meta.hash matches Some(m) && m@ == h@ && h@.len() < 5
            },
        },
{
    let uri = match &meta.uri {
        Some(u) => u,
        None => return Err(Error::MissingUri),
    };
    let url = match parse_url(uri.as_str()) {
        Some(u) => u,
        None => return Err(Error::InvalidUri(uri.clone())),
    };
    let hash = match &meta.hash {
        Some(h) => h,
        None => return Err(Error::MissingHash),
    };
    match download_path(installation, hash.as_str()) {
        Ok(path) => Ok((url, path)),
        Err(e) => Err(e),
    }
}

impl Progress {
    /// The progress after `delta` more bytes arrived, `completed` having
    /// arrived before: the total is the expected size if known, else what
    /// has arrived.
    pub fn after(completed: u64, delta: u64, expected: Option<u64>) -> (r: Progress)
        requires
            completed + delta <= u64::MAX,
        ensures
            r.delta == delta,
            r.completed == completed + delta,
            r.total == match expected {
                Some(t) => t,
                None => (completed + delta) as u64,
            },
    {
        let done = completed + delta;
        Progress {
            delta,
            completed: done,
            total: match expected {
                Some(t) => t,
                None => done,
            },
        }
    }
}

/// The lowercase hexadecimal digits are ASCII.
proof fn lemma_hexadecimal_ascii(n: nat)
    ensures
        is_ascii(hexadecimal(n)),
    decreases n,
{
    assert forall|d: nat| d < 16 implies (#[trigger] digit_char(d) as u32) < 128 by {
        assert(digit_alphabet()[d as int] == digit_char(d));
    }
    if n >= 16 {
        lemma_hexadecimal_ascii(n / 16);
        assert((digit_char(n % 16) as u32) < 128);
    } else {
        assert((digit_char(n) as u32) < 128);
    }
}

/// The digest of an asset as it names the asset's file: lowercase
/// hexadecimal, at least two digits.
pub open spec fn digest_text(digest: u128) -> Seq<char> {
    pad_left(hexadecimal(digest as nat), 2, '0')
}

/// Where the unpacked asset with content digest `digest` is kept.
pub fn digest_asset_path(installation: &Installation, digest: u128) -> (r: String)
    ensures
        r@ == asset_path_spec(
            join_path(moss_path_spec(installation.root@, seq!['a', 's', 's', 'e', 't', 's']), "v2"@),
            digest_text(digest),
        ),
{
    let hash = u128_to_hex(digest);
    proof {
        lemma_hexadecimal_ascii(digest as nat);
        let h = hexadecimal(digest as nat);
        if h.len() < 2 {
            let pad = Seq::new((2 - h.len()) as nat, |i: int| '0');
            assert(pad_left(h, 2, '0') == pad + h);
            assert forall|i: int| 0 <= i < (pad + h).len() implies ((#[trigger] (pad + h)[i]) as u32) < 128 by {
                if i >= pad.len() {
                    assert((pad + h)[i] == h[i - pad.len()]);
                }
            }
        }
    }
    asset_path(installation, hash.as_str())
}

/// Progress of a transfer, in bytes: the bytes just moved, those moved so
/// far, and those to move in all.
#[derive(Debug, Clone, Copy)]
pub struct Progress {
    pub delta: u64,
    pub completed: u64,
    pub total: u64,
}

/// The assets being unpacked, so that no two tasks unpack the same one. A
/// value has one owner and is changed through `&mut`: tasks that unpack at
/// the same time share one value behind their own lock, so that `add`
/// tells each of them whether the asset is already being unpacked. (It is
/// not `Clone`: a copy would not share the set.)
#[derive(Debug, Default)]
pub struct UnpackingInProgress {
    paths: Vec<String>,
}

impl UnpackingInProgress {
    /// The paths being unpacked.
    pub closed spec fn paths_view(&self) -> Set<Seq<char>> {
        self.paths@.map_values(|p: String| p@).to_set()
    }

    /// Nothing in progress.
    pub fn new() -> (r: Self)
        ensures
            r.paths_view() == Set::<Seq<char>>::empty(),
    {
        let r = UnpackingInProgress { paths: Vec::new() };
        assert(r.paths@.map_values(|p: String| p@) =~= Seq::<Seq<char>>::empty());
        assert(r.paths_view() =~= Set::<Seq<char>>::empty());
        r
    }

    fn position(&self, path: &str) -> (r: Option<usize>)
        ensures
            match r {
                Some(i) => i < self.paths.len() && self.paths@[i as int]@ == path@,
                None => !self.paths_view().contains(path@),
            },
    {
        let mut i: usize = 0;
        while i < self.paths.len()
            invariant
                i <= self.paths.len(),
                forall|j: int| 0 <= j < i ==> self.paths@[j]@ != path@,
            decreases self.paths.len() - i,
        {
            if crate::text::str_equal(self.paths[i].as_str(), path) {
                return Some(i);
            }
            i = i + 1;
        }
        proof {
            if self.paths_view().contains(path@) {
                let v = self.paths@.map_values(|p: String| p@);
                assert(v.contains(path@));
                let k = choose|k: int| 0 <= k < v.len() && v[k] == path@;
                assert(self.paths@[k]@ == path@);
            }
        }
        None
    }

    /// Marks the provided path as "in-progress".
    ///
    /// Returns `true` if the path was added and
    /// `false` the file is already in progress
    pub fn add(&mut self, path: String) -> (r: bool)
        ensures
            r == !old(self).paths_view().contains(path@),
            final(self).paths_view() == old(self).paths_view().insert(path@),
    {
        match self.position(path.as_str()) {
            Some(i) => {
                proof {
                    let v = self.paths@.map_values(|p: String| p@);
                    assert(v[i as int] == path@);
                    assert(self.paths_view().contains(path@));
                    assert(self.paths_view().insert(path@) =~= self.paths_view());
                }
                false
            },
            None => {
                let ghost before = self.paths@.map_values(|p: String| p@);
                let ghost pv = path@;
                self.paths.push(path);
                proof {
                    assert(self.paths@.map_values(|p: String| p@) =~= before.push(pv));
                    before.lemma_push_to_set_commute(pv);
                }
                true
            },
        }
    }

    /// Marks the provided path as no longer in progress.
    /// Claims the asset at `path` for unpacking: succeeds when no task is
    /// unpacking it and it does not exist yet (`exists`), and then marks it
    /// in progress; otherwise the set is left as it was.
    pub fn claim(&mut self, path: String, exists: bool) -> (r: bool)
        ensures
            r == (!old(self).paths_view().contains(path@) && !exists),
            final(self).paths_view() == if r {
                old(self).paths_view().insert(path@)
            } else {
                old(self).paths_view()
            },
    {
        let ghost start = self.paths_view();
        let ghost p = path@;
        let key = path.clone();
        if !self.add(path) {
            assert(start.insert(p) =~= start);
            return false;
        }
        if exists {
            self.remove(key.as_str());
            assert(start.insert(p).remove(p) =~= start);
            return false;
        }
        true
    }

    pub fn remove(&mut self, path: &str)
        ensures
            final(self).paths_view() == old(self).paths_view().remove(path@),
    {
        let ghost start = self.paths_view();
        loop
            invariant
                self.paths_view() =~= start.remove(path@) || self.paths_view() =~= start,
                self.paths_view().remove(path@) =~= start.remove(path@),
            ensures
                self.paths_view() =~= start.remove(path@),
            decreases self.paths.len(),
        {
            match self.position(path) {
                Some(i) => {
                    let ghost before = self.paths@.map_values(|p: String| p@);
                    let ghost bset = self.paths_view();
                    self.paths.remove(i);
                    proof {
                        let after = self.paths@.map_values(|p: String| p@);
                        assert(after =~= before.remove(i as int));
                        assert forall|x: Seq<char>| x != path@ implies (#[trigger] after.to_set().contains(x) <==> bset.contains(x)) by {
                            if before.contains(x) {
                                let k = choose|k: int| 0 <= k < before.len() && before[k] == x;
                                assert(k != i);
                                if k < i {
                                    assert(after[k] == x);
                                } else {
                                    assert(after[k - 1] == x);
                                }
                            }
                            if after.contains(x) {
                                let k = choose|k: int| 0 <= k < after.len() && after[k] == x;
                                if k < i {
                                    assert(before[k] == x);
                                } else {
                                    assert(before[k + 1] == x);
                                }
                            }
                        }
                        assert(self.paths_view().remove(path@) =~= bset.remove(path@));
                    }
                },
                None => {
                    proof {
                        assert(self.paths_view() =~= self.paths_view().remove(path@));
                    }
                    break;
                },
            }
        }
    }
}

/// Whether unpacking a package can be skipped: it has no assets, or its
/// download was cached and every asset already exists (`exists` tells, for
/// each asset of the package, whether its file exists).
pub fn unpack_skipped(was_cached: bool, exists: &Vec<bool>) -> (r: bool)
    ensures
        r == (exists.len() == 0 || (was_cached && forall|i: int| 0 <= i < exists.len() ==> #[trigger] exists@[i])),
{
    if exists.len() == 0 {
        return true;
    }
    if !was_cached {
        return false;
    }
    let mut i: usize = 0;
    while i < exists.len()
        invariant
            i <= exists.len(),
            forall|j: int| 0 <= j < i ==> #[trigger] exists@[j],
        decreases exists.len() - i,
    {
        if !exists[i] {
            return false;
        }
        i = i + 1;
    }
    true
}

} // verus!
