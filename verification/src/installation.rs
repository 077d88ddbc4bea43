//! An installation: a system root managed by moss, and the paths of its
//! databases, caches, assets and state trees.

use vstd::prelude::*;

use crate::path::{components, join, join_path, split_components};
use crate::state;
use crate::text::{parse_i32, parse_i32_spec};

verus! {

/// Whether the installation may be changed.
#[derive(Debug, Clone, Copy, PartialEq, Eq, Structural)]
pub enum Mutability {
    /// We only have readonly access
    ReadOnly,
    /// We have read-write access
    ReadWrite,
}

/// The kebab-case name of a mutability.
pub open spec fn mutability_name(m: Mutability) -> Seq<char> {
    match m {
        Mutability::ReadOnly => "read-only"@,
        Mutability::ReadWrite => "read-write"@,
    }
}

impl Mutability {
    /// The kebab-case name of this mutability.
    pub fn name(&self) -> (r: &'static str)
        ensures
            r@ == mutability_name(*self),
    {
        match self {
            Mutability::ReadOnly => "read-only",
            Mutability::ReadWrite => "read-write",
        }
    }
}

/// A system root managed by moss.
#[derive(Debug, Clone)]
pub struct Installation {
    /// Fully qualified root filesystem path
    pub root: String,
    /// Filesystem mutability: Will it be mutable or just RO for queries?
    pub mutability: Mutability,
    /// If present, the currently active system state Id
    pub active_state: Option<state::Id>,
    /// Custom cache directory location,
    /// otherwise derived from root
    pub cache_dir: Option<String>,
}

/// `root/.moss/path`.
pub open spec fn moss_path_spec(root: Seq<char>, path: Seq<char>) -> Seq<char> {
    join_path(join_path(root, seq!['.', 'm', 'o', 's', 's']), path)
}

/// `root/.moss/root/path`.
pub open spec fn root_path_spec(root: Seq<char>, path: Seq<char>) -> Seq<char> {
    join_path(moss_path_spec(root, seq!['r', 'o', 'o', 't']), path)
}

impl Installation {
    /// Return true if we lack write access
    pub fn read_only(&self) -> (r: bool)
        ensures
            r == (self.mutability == Mutability::ReadOnly),
    {
        match self.mutability {
            Mutability::ReadOnly => true,
            Mutability::ReadWrite => false,
        }
    }

    /// Helper to form paths
    pub fn moss_path(&self, path: &str) -> (r: String)
        ensures
            r@ == moss_path_spec(self.root@, path@),
    {
        let base = join(self.root.as_str(), ".moss");
        proof {
            reveal_strlit(".moss");
        }
        join(base.as_str(), path)
    }

    /// Build a database path relative to the moss root
    pub fn db_path(&self, path: &str) -> (r: String)
        ensures
            r@ == join_path(moss_path_spec(self.root@, seq!['d', 'b']), path@),
    {
        let p = self.moss_path("db");
        proof {
            reveal_strlit("db");
        }
        join(p.as_str(), path)
    }

    /// Build a cache path relative to the moss root, or
    /// from the custom cache dir, if provided
    pub fn cache_path(&self, path: &str) -> (r: String)
        ensures
            r@ == match self.cache_dir {
                Some(dir) => join_path(dir@, path@),
                None => join_path(moss_path_spec(self.root@, seq!['c', 'a', 'c', 'h', 'e']), path@),
            },
    {
        match &self.cache_dir {
            Some(dir) => join(dir.as_str(), path),
            None => {
                let p = self.moss_path("cache");
                proof {
                    reveal_strlit("cache");
                }
                join(p.as_str(), path)
            },
        }
    }

    /// Build an asset path relative to the moss root
    pub fn assets_path(&self, path: &str) -> (r: String)
        ensures
            r@ == join_path(moss_path_spec(self.root@, seq!['a', 's', 's', 'e', 't', 's']), path@),
    {
        let p = self.moss_path("assets");
        proof {
            reveal_strlit("assets");
        }
        join(p.as_str(), path)
    }

    /// Build a repo path relative to the root
    pub fn repo_path(&self, path: &str) -> (r: String)
        ensures
            r@ == join_path(moss_path_spec(self.root@, seq!['r', 'e', 'p', 'o']), path@),
    {
        let p = self.moss_path("repo");
        proof {
            reveal_strlit("repo");
        }
        join(p.as_str(), path)
    }

    /// Build a path relative to the moss system roots tree
    pub fn root_path(&self, path: &str) -> (r: String)
        ensures
            r@ == root_path_spec(self.root@, path@),
    {
        let p = self.moss_path("root");
        proof {
            reveal_strlit("root");
        }
        join(p.as_str(), path)
    }

    /// Build a staging path for in-progress system root transactions
    pub fn staging_path(&self, path: &str) -> (r: String)
        ensures
            r@ == join_path(root_path_spec(self.root@, seq!['s', 't', 'a', 'g', 'i', 'n', 'g']), path@),
    {
        let p = self.staging_dir();
        join(p.as_str(), path)
    }

    /// Return the staging directory itself
    pub fn staging_dir(&self) -> (r: String)
        ensures
            r@ == root_path_spec(self.root@, seq!['s', 't', 'a', 'g', 'i', 'n', 'g']),
    {
        let r = self.root_path("staging");
        proof {
            reveal_strlit("staging");
        }
        r
    }

    /// Return the container dir itself
    pub fn isolation_dir(&self) -> (r: String)
        ensures
            r@ == root_path_spec(self.root@, seq!['i', 's', 'o', 'l', 'a', 't', 'i', 'o', 'n']),
    {
        let r = self.root_path("isolation");
        proof {
            reveal_strlit("isolation");
        }
        r
    }

    /// Build a container path for isolated triggers
    pub fn isolation_path(&self, path: &str) -> (r: String)
        ensures
            r@ == join_path(root_path_spec(self.root@, seq!['i', 's', 'o', 'l', 'a', 't', 'i', 'o', 'n']), path@),
    {
        let p = self.isolation_dir();
        join(p.as_str(), path)
    }
}

/// The lock files that guard a moss root and, if there is one, a custom
/// cache directory.
pub fn lock_paths(moss_path: &str, cache_dir: Option<&str>) -> (r: Vec<String>)
    ensures
        r.len() == if cache_dir is Some {
            2nat
        } else {
            1nat
        },
        r@[0]@ == join_path(moss_path@, ".moss-lockfile"@),
        cache_dir matches Some(d) ==> r@[1]@ == join_path(d@, ".moss-lockfile"@),
{
    let mut out: Vec<String> = Vec::new();
    out.push(join(moss_path, ".moss-lockfile"));
    match cache_dir {
        Some(d) => out.push(join(d, ".moss-lockfile")),
        None => {},
    }
    out
}

/// The state a legacy `/usr` link target names: a target `.../ID/usr` names
/// state `ID`.
pub open spec fn legacy_state_id(target: Seq<char>) -> Option<i32> {
    let c = components(target);
    if c.len() >= 2 && c.last() == seq!['u', 's', 'r'] && c[c.len() - 2] != seq!['.', '.'] {
        parse_i32_spec(c[c.len() - 2])
    } else {
        None
    }
}

/// Reads the state a legacy `/usr` symlink target points into.
pub fn read_legacy_state_id(usr_target: &str) -> (r: Option<state::Id>)
    ensures
        match r {
            Some(id) => legacy_state_id(usr_target@) == Some(id.0),
            None => legacy_state_id(usr_target@) is None,
        },
{
    let parts = split_components(usr_target);
    let ghost c = components(usr_target@);
    let n = parts.len();
    if n < 2 {
        return None;
    }
    assert(c[n - 1] == parts@[n - 1]@);
    assert(c[n - 2] == parts@[n - 2]@);
    let usr = "usr";
    let dots = "..";
    proof {
        reveal_strlit("usr");
        reveal_strlit("..");
        assert(usr@ =~= seq!['u', 's', 'r']);
        assert(dots@ =~= seq!['.', '.']);
    }
    if !crate::text::str_equal(parts[n - 1].as_str(), usr) || crate::text::str_equal(parts[n - 2].as_str(), dots) {
        return None;
    }
    match parse_i32(parts[n - 2].as_str()) {
        Some(id) => Some(state::Id(id)),
        None => None,
    }
}

/// The state named by the text of a `.stateID` file.
pub fn parse_state_id(content: &str) -> (r: Option<state::Id>)
    ensures
        match r {
            Some(id) => parse_i32_spec(content@) == Some(id.0),
            None => parse_i32_spec(content@) is None,
        },
{
    match parse_i32(content) {
        Some(id) => Some(state::Id(id)),
        None => None,
    }
}

} // verus!
