//! Boot management: which files of a state are kernels and bootloader
//! assets, which older states get boot entries, and what each entry points
//! at.

use vstd::prelude::*;

use crate::client::prune::{state_ids, Stamp};
use crate::installation::{root_path_spec, Installation};
use crate::order::{sort_desc, sort_ranked, Ranked};
use crate::package;
use crate::path::{join, join_path};
use crate::state::{self, id_text};
use crate::stone::{Layout, LayoutEntry};

verus! {

/// `usr`.
pub open spec fn usr() -> Seq<char> {
    seq!['u', 's', 'r']
}

/// The path under the root of a layout's file if it is a kernel
/// candidate: a regular file or a symlink whose target matched.
pub open spec fn kernel_candidate(l: Layout, matched: bool) -> Option<Seq<char>> {
    if matched {
        match l.entry {
            LayoutEntry::Regular(_, target) => Some(join_path(usr(), target@)),
            LayoutEntry::Symlink(_, target) => Some(join_path(usr(), target@)),
            _ => None,
        }
    } else {
        None
    }
}

/// The path of a layout's file under `root` if it is a bootloader asset: a
/// regular file whose target matched.
pub open spec fn boot_asset(root: Seq<char>, l: Layout, matched: bool) -> Option<Seq<char>> {
    if matched {
        match l.entry {
            LayoutEntry::Regular(_, target) => Some(join_path(join_path(root, usr()), target@)),
            _ => None,
        }
    } else {
        None
    }
}

/// The mathematical form of a list of paths.
pub open spec fn paths_view(v: Seq<String>) -> Seq<Seq<char>> {
    v.map_values(|s: String| s@)
}

/// The kernel candidates among `layouts`, in order, as paths under the
/// root; `matched[i]` says whether the target of `layouts[i]` matched the
/// kernel pattern.
pub fn kernel_files_from_state(layouts: &Vec<(package::Id, Layout)>, matched: &Vec<bool>) -> (r: Vec<String>)
    requires
        layouts.len() == matched.len(),
    ensures
        paths_view(r@) == Seq::new(layouts.len() as nat, |i: int| (layouts@[i].1, matched@[i])).filter_map(
            |p: (Layout, bool)| kernel_candidate(p.0, p.1),
        ),
{
    let ghost pairs = Seq::new(layouts.len() as nat, |i: int| (layouts@[i].1, matched@[i]));
    let ghost f = |p: (Layout, bool)| kernel_candidate(p.0, p.1);
    let mut out: Vec<String> = Vec::new();
    let mut i: usize = 0;
    while i < layouts.len()
        invariant
            i <= layouts.len(),
            layouts.len() == matched.len(),
            pairs == Seq::new(layouts.len() as nat, |i: int| (layouts@[i].1, matched@[i])),
            f == (|p: (Layout, bool)| kernel_candidate(p.0, p.1)),
            paths_view(out@) == pairs.take(i as int).filter_map(f),
        decreases layouts.len() - i,
    {
        proof {
            pairs.lemma_filter_map_take_succ(f, i as int);
        }
        let ghost prev = out@;
        assert(pairs[i as int] == (layouts@[i as int].1, matched@[i as int]));
        if matched[i] {
            let usr_dir = "usr";
            proof {
                reveal_strlit("usr");
                assert(usr_dir@ == usr());
            }
            match &layouts[i].1.entry {
                LayoutEntry::Regular(_, target) => {
                    out.push(join(usr_dir, target.as_str()));
                },
                LayoutEntry::Symlink(_, target) => {
                    out.push(join(usr_dir, target.as_str()));
                },
                _ => {},
            }
        }
        assert(paths_view(out@) =~= pairs.take(i + 1).filter_map(f)) by {
            assert(paths_view(prev) == pairs.take(i as int).filter_map(f));
        }
        i = i + 1;
    }
    assert(pairs.take(i as int) =~= pairs);
    out
}

/// The bootloader assets among `layouts`, in order, as paths under `root`;
/// `matched[i]` says whether the target of `layouts[i]` matched the
/// bootloader pattern.
pub fn boot_files_from_new_state(root: &str, layouts: &Vec<(package::Id, Layout)>, matched: &Vec<bool>) -> (r: Vec<
    String,
>)
    requires
        layouts.len() == matched.len(),
    ensures
        paths_view(r@) == Seq::new(layouts.len() as nat, |i: int| (layouts@[i].1, matched@[i])).filter_map(
            |p: (Layout, bool)| boot_asset(root@, p.0, p.1),
        ),
{
    let ghost pairs = Seq::new(layouts.len() as nat, |i: int| (layouts@[i].1, matched@[i]));
    let ghost f = |p: (Layout, bool)| boot_asset(root@, p.0, p.1);
    let base = join(root, "usr");
    proof {
        reveal_strlit("usr");
    }
    let mut out: Vec<String> = Vec::new();
    let mut i: usize = 0;
    while i < layouts.len()
        invariant
            i <= layouts.len(),
            layouts.len() == matched.len(),
            base@ == join_path(root@, usr()),
            pairs == Seq::new(layouts.len() as nat, |i: int| (layouts@[i].1, matched@[i])),
            f == (|p: (Layout, bool)| boot_asset(root@, p.0, p.1)),
            paths_view(out@) == pairs.take(i as int).filter_map(f),
        decreases layouts.len() - i,
    {
        proof {
            pairs.lemma_filter_map_take_succ(f, i as int);
        }
        let ghost prev = out@;
        if matched[i] {
            match &layouts[i].1.entry {
                LayoutEntry::Regular(_, target) => {
                    out.push(join(base.as_str(), target.as_str()));
                },
                _ => {},
            }
        }
        assert(paths_view(out@) =~= pairs.take(i + 1).filter_map(f)) by {
            assert(paths_view(prev) == pairs.take(i as int).filter_map(f));
        }
        i = i + 1;
    }
    assert(pairs.take(i as int) =~= pairs);
    out
}

/// The system root a boot entry of state `id` mounts: the installation's
/// root for the state being made, its archived tree for an older one.
pub fn entry_sysroot(installation: &Installation, current: state::Id, id: state::Id) -> (r: String)
    ensures
        r@ == if current.0 == id.0 {
            installation.root@
        } else {
            root_path_spec(installation.root@, id_text(id.0 as int))
        },
{
    if current.0 == id.0 {
        installation.root.clone()
    } else {
        let name = id.to_string();
        installation.root_path(name.as_str())
    }
}

/// The kernel command line snippet that tells the initrd which state a
/// boot entry belongs to: `moss.fstx=<id>`.
pub fn fstx_snippet(id: state::Id) -> (r: String)
    ensures
        r@ == seq!['m', 'o', 's', 's', '.', 'f', 's', 't', 'x', '='] + id_text(id.0 as int),
{
    let mut s = String::from_str("moss.fstx=");
    proof {
        reveal_strlit("moss.fstx=");
    }
    let digits = id.to_string();
    s.append(digits.as_str());
    s
}

/// Whether boot entries are made for the running system: its root is `/`.
pub fn is_native(root: &str) -> (r: bool)
    ensures
        r == (root@ == seq!['/']),
{
    let slash = "/";
    proof {
        reveal_strlit("/");
        assert(slash@ =~= seq!['/']);
    }
    crate::text::str_equal(root, slash)
}

/// The older states that keep boot entries: those with a smaller
/// identifier than `current`, newest first, at most four.
pub open spec fn boot_states_spec(current: i32, stamps: Seq<(i32, i64)>) -> Seq<i32> {
    let older = stamps.filter_map(older_than(current));
    let newest_first = sort_desc(older, |v: (i32, i64)| Stamp::rank_of_view(v)).reverse();
    newest_first.take(if newest_first.len() < 4 {
        newest_first.len() as int
    } else {
        4
    }).map_values(|s: (i32, i64)| s.0)
}

/// A state older than `current`, kept.
pub open spec fn older_than(current: i32) -> spec_fn((i32, i64)) -> Option<(i32, i64)> {
    |s: (i32, i64)|
        if s.0 != current && current > s.0 {
            Some(s)
        } else {
            None
        }
}

/// The states older than `current` that keep boot entries, newest first.
pub fn states_except_new(current: state::Id, stamps: &Vec<Stamp>) -> (r: Vec<state::Id>)
    ensures
        state_ids(r@) == boot_states_spec(current.0, stamps@.map_values(|s: Stamp| s@)),
{
    let ghost sv = stamps@.map_values(|s: Stamp| s@);
    let ghost f = older_than(current.0);
    let mut older: Vec<Stamp> = Vec::new();
    let mut i: usize = 0;
    while i < stamps.len()
        invariant
            i <= stamps.len(),
            sv == stamps@.map_values(|s: Stamp| s@),
            f == older_than(current.0),
            older@.map_values(|s: Stamp| s@) == sv.take(i as int).filter_map(f),
        decreases stamps.len() - i,
    {
        proof {
            sv.lemma_filter_map_take_succ(f, i as int);
        }
        let s = stamps[i];
        if s.id.0 != current.0 && current.0 > s.id.0 {
            older.push(s);
        }
        assert(older@.map_values(|s: Stamp| s@) =~= sv.take(i + 1).filter_map(f));
        i = i + 1;
    }
    assert(sv.take(i as int) =~= sv);
    let sorted = sort_ranked(older);
    let ghost sorted_view = sorted@.map_values(|s: Stamp| s@);
    let ghost rev = sorted_view.reverse();
    let n = sorted.len();
    let count: usize = if n < 4 {
        n
    } else {
        4
    };
    let mut out: Vec<state::Id> = Vec::new();
    let mut k: usize = 0;
    while k < count
        invariant
            k <= count,
            count <= n,
            n == sorted.len(),
            out.len() == k,
            sorted_view == sorted@.map_values(|s: Stamp| s@),
            rev == sorted_view.reverse(),
            state_ids(out@) == rev.take(k as int).map_values(|s: (i32, i64)| s.0),
        decreases count - k,
    {
        let ghost prev = out@;
        assert(rev[k as int] == sorted@[n - 1 - k]@);
        out.push(sorted[n - 1 - k].id);
        assert forall|q: int| 0 <= q < k + 1 implies state_ids(out@)[q] == rev.take(k + 1).map_values(
            |s: (i32, i64)| s.0,
        )[q] by {
            if q < k {
                assert(out@[q] == prev[q]);
                assert(state_ids(prev)[q] == rev.take(k as int).map_values(|s: (i32, i64)| s.0)[q]);
            }
        }
        assert(state_ids(out@) =~= rev.take(k + 1).map_values(|s: (i32, i64)| s.0));
        k = k + 1;
    }
    proof {
        let older_view = sv.filter_map(f);
        assert(sorted_view == sort_desc(older_view, |v: (i32, i64)| Stamp::rank_of_view(v)));
        assert(rev.len() == n);
    }
    out
}

} // verus!
