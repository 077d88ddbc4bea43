//! Pruning: which archived states to remove, and which packages no state
//! needs any more.

use vstd::prelude::*;

use crate::order::{sort_desc, sort_ranked, Ranked};
use crate::package::set::IdSet;
use crate::package;
use crate::state::{self, State};

verus! {

/// Which states to prune.
#[derive(Debug, Clone, Copy)]
pub enum Strategy {
    /// Keep the most recent N states, remove the rest
    KeepRecent { keep: u64, include_newer: bool },
    /// Removes a specific state
    Remove(state::Id),
}

/// Why pruning cannot go ahead.
#[derive(Debug)]
pub enum Error {
    Cancelled,
    /// No active state found
    NoActiveState,
    /// Cannot prune the currently active state
    PruneCurrent,
}

/// A state's identifier and creation time.
#[derive(Debug, Clone, Copy)]
pub struct Stamp {
    pub id: state::Id,
    pub created: i64,
}

impl View for Stamp {
    type V = (i32, i64);

    open spec fn view(&self) -> (i32, i64) {
        (self.id.0, self.created)
    }
}

/// Older states rank higher: sorting by rank puts them first.
pub open spec fn age_rank(v: (i32, i64)) -> (u64, u64) {
    ((i64::MAX - v.1) as u64, 0u64)
}

impl Ranked for Stamp {
    open spec fn rank_of_view(v: (i32, i64)) -> (u64, u64) {
        age_rank(v)
    }

    fn rank(&self) -> (r: (u64, u64)) {
        let d: i128 = (i64::MAX as i128) - (self.created as i128);
        assert(0 <= d <= u64::MAX);
        (d as u64, 0u64)
    }
}

/// `a` saturating minus `b`.
pub open spec fn saturating_sub(a: int, b: int) -> int {
    if a > b {
        a - b
    } else {
        0
    }
}

/// State `id` may be pruned under `KeepRecent`: it is older than the
/// current state, or, with `include_newer`, any state but the current one.
pub open spec fn is_candidate(include_newer: bool, current: i32, id: i32) -> bool {
    if include_newer {
        id != current
    } else {
        id < current
    }
}

/// The states that may be pruned, in the order given.
pub open spec fn candidates(stamps: Seq<(i32, i64)>, current: i32, include_newer: bool) -> Seq<(i32, i64)> {
    stamps.filter_map(
        |s: (i32, i64)|
            if is_candidate(include_newer, current, s.0) {
                Some(s)
            } else {
                None
            },
    )
}

/// The states to remove: under `KeepRecent { keep, .. }` the oldest
/// candidates beyond the `keep - 1` most recent ones (the current state
/// counts as kept); under `Remove(id)` that state, if it exists.
pub open spec fn removal_spec(strategy: Strategy, current: i32, stamps: Seq<(i32, i64)>) -> Seq<i32> {
    match strategy {
        Strategy::KeepRecent { keep, include_newer } => {
            let c = candidates(stamps, current, include_newer);
            let n = saturating_sub(c.len() as int, saturating_sub(keep as int, 1));
            sort_desc(c, |v: (i32, i64)| Stamp::rank_of_view(v)).take(n).map_values(|s: (i32, i64)| s.0)
        },
        Strategy::Remove(id) => if exists|i: int| 0 <= i < stamps.len() && #[trigger] stamps[i].0 == id.0 {
            seq![id.0]
        } else {
            Seq::empty()
        },
    }
}

/// The candidates are exactly the stamps that may be pruned.
proof fn lemma_candidates_members(stamps: Seq<(i32, i64)>, current: i32, include_newer: bool)
    ensures
        forall|x: (i32, i64)|
            #[trigger] candidates(stamps, current, include_newer).contains(x) <==> (stamps.contains(x) && (if include_newer {
                x.0 != current
            } else {
                x.0 < current
            })),
    decreases stamps.len(),
{
    let f = |s: (i32, i64)|
        if is_candidate(include_newer, current, s.0) {
            Some(s)
        } else {
            None
        };
    if stamps.len() > 0 {
        let d = stamps.drop_last();
        lemma_candidates_members(d, current, include_newer);
        assert(candidates(stamps, current, include_newer) == d.filter_map(f) + if is_candidate(
            include_newer,
            current,
            stamps.last().0,
        ) {
            seq![stamps.last()]
        } else {
            Seq::empty()
        }) by {
            if is_candidate(include_newer, current, stamps.last().0) {
            } else {
                assert(d.filter_map(f) + Seq::<(i32, i64)>::empty() =~= d.filter_map(f));
            }
        }
        assert forall|x: (i32, i64)|
            #[trigger] candidates(stamps, current, include_newer).contains(x) <==> (stamps.contains(x) && (
            if include_newer {
                x.0 != current
            } else {
                x.0 < current
            })) by {
            let c = candidates(stamps, current, include_newer);
            let cd = candidates(d, current, include_newer);
            if c.contains(x) {
                let i = choose|i: int| 0 <= i < c.len() && c[i] == x;
                if i < cd.len() {
                    assert(cd[i] == x);
                    assert(cd.contains(x));
                    let j = choose|j: int| 0 <= j < d.len() && d[j] == x;
                    assert(stamps[j] == x);
                } else {
                    assert(x == stamps.last());
                    assert(stamps[stamps.len() - 1] == x);
                }
            }
            if stamps.contains(x) && (if include_newer {
                x.0 != current
            } else {
                x.0 < current
            }) {
                let j = choose|j: int| 0 <= j < stamps.len() && stamps[j] == x;
                if j < d.len() {
                    assert(d[j] == x);
                    assert(d.contains(x));
                    assert(cd.contains(x));
                    let i = choose|i: int| 0 <= i < cd.len() && cd[i] == x;
                    assert(c[i] == x);
                } else {
                    assert(c[cd.len() as int] == x);
                }
            }
        }
    }
}

/// Keeping the most recent states prunes what it should: every state
/// removed exists, is older than the current state (or, with
/// `include_newer`, is any state but the current one), and was created no
/// later than any such state that is kept; and keeping at most one state
/// (the current one) removes every such state.
pub proof fn lemma_keep_recent(keep: u64, include_newer: bool, current: i32, stamps: Seq<(i32, i64)>, r: Seq<i32>)
    requires
        r == removal_spec(Strategy::KeepRecent { keep, include_newer }, current, stamps),
    ensures
        forall|k: int|
            0 <= k < r.len() ==> exists|j: int|
                0 <= j < stamps.len() && #[trigger] stamps[j].0 == #[trigger] r[k] && (if include_newer {
                    stamps[j].0 != current
                } else {
                    stamps[j].0 < current
                }) && forall|m: int|
                    0 <= m < stamps.len() && (if include_newer {
                        stamps[m].0 != current
                    } else {
                        stamps[m].0 < current
                    }) && !r.contains(#[trigger] stamps[m].0) ==> stamps[j].1 <= stamps[m].1,
        keep <= 1 ==> forall|j: int|
            0 <= j < stamps.len() && (if include_newer {
                stamps[j].0 != current
            } else {
                stamps[j].0 < current
            }) ==> r.contains(#[trigger] stamps[j].0),
{
    let rank = |v: (i32, i64)| Stamp::rank_of_view(v);
    let c = candidates(stamps, current, include_newer);
    let sd = sort_desc(c, rank);
    let n = saturating_sub(c.len() as int, saturating_sub(keep as int, 1));
    assert(r == sd.take(n).map_values(|s: (i32, i64)| s.0));
    crate::order::lemma_sort_desc(c, rank);
    lemma_candidates_members(stamps, current, include_newer);
    c.to_multiset_ensures();
    sd.to_multiset_ensures();
    assert forall|x: (i32, i64)| sd.contains(x) <==> c.contains(x) by {
        assert(sd.to_multiset().count(x) == c.to_multiset().count(x));
    }
    assert forall|k: int| 0 <= k < r.len() implies exists|j: int|
        0 <= j < stamps.len() && #[trigger] stamps[j].0 == #[trigger] r[k] && (if include_newer {
            stamps[j].0 != current
        } else {
            stamps[j].0 < current
        }) && forall|m: int|
            0 <= m < stamps.len() && (if include_newer {
                stamps[m].0 != current
            } else {
                stamps[m].0 < current
            }) && !r.contains(#[trigger] stamps[m].0) ==> stamps[j].1 <= stamps[m].1 by {
        let x = sd[k];
        assert(r[k] == x.0);
        assert(sd.contains(x));
        assert(c.contains(x));
        let j = choose|j: int| 0 <= j < stamps.len() && stamps[j] == x;
        assert forall|m: int|
            0 <= m < stamps.len() && (if include_newer {
                stamps[m].0 != current
            } else {
                stamps[m].0 < current
            }) && !r.contains(#[trigger] stamps[m].0) implies stamps[j].1 <= stamps[m].1 by {
            let y = stamps[m];
            assert(stamps.contains(y));
            assert(c.contains(y));
            assert(sd.contains(y));
            let p = choose|p: int| 0 <= p < sd.len() && sd[p] == y;
            if p < n {
                assert(r[p] == y.0);
                assert(r.contains(y.0));
            }
            assert(!crate::order::ranks_above(rank(sd[p]), rank(sd[k])));
        }
    }
    if keep <= 1 {
        assert forall|j: int|
            0 <= j < stamps.len() && (if include_newer {
                stamps[j].0 != current
            } else {
                stamps[j].0 < current
            }) implies r.contains(#[trigger] stamps[j].0) by {
            let y = stamps[j];
            assert(stamps.contains(y));
            assert(c.contains(y));
            assert(sd.contains(y));
            let p = choose|p: int| 0 <= p < sd.len() && sd[p] == y;
            assert(r[p] == y.0);
        }
    }
}

/// The identifier and creation time of each stamp.
pub open spec fn stamp_views(stamps: Seq<Stamp>) -> Seq<(i32, i64)> {
    stamps.map_values(|s: Stamp| s@)
}

/// The identifiers of a list of states.
pub open spec fn state_ids(s: Seq<state::Id>) -> Seq<i32> {
    s.map_values(|i: state::Id| i.0)
}

/// What pruning under `strategy` removes, stated over the stamps and the
/// identifiers removed (see [`removal_ids`]).
pub proof fn lemma_removal_laws(strategy: Strategy, current: i32, stamps: Seq<Stamp>, r: Seq<state::Id>)
    requires
        state_ids(r) == removal_spec(strategy, current, stamp_views(stamps)),
    ensures
        match strategy {
            Strategy::KeepRecent { keep, include_newer } => {
                let sv = stamp_views(stamps);
                let rs = state_ids(r);
                &&& forall|k: int|
                    0 <= k < rs.len() ==> exists|j: int|
                        0 <= j < sv.len() && #[trigger] sv[j].0 == #[trigger] rs[k] && (if include_newer {
                            sv[j].0 != current
                        } else {
                            sv[j].0 < current
                        }) && forall|m: int|
                            0 <= m < sv.len() && (if include_newer {
                                sv[m].0 != current
                            } else {
                                sv[m].0 < current
                            }) && !rs.contains(#[trigger] sv[m].0) ==> sv[j].1 <= sv[m].1
                &&& keep <= 1 ==> forall|j: int|
                    0 <= j < sv.len() && (if include_newer {
                        sv[j].0 != current
                    } else {
                        sv[j].0 < current
                    }) ==> rs.contains(#[trigger] sv[j].0)
            },
            Strategy::Remove(id) => {
                &&& (exists|j: int| 0 <= j < stamps.len() && #[trigger] stamp_views(stamps)[j].0 == id.0) ==> state_ids(r)
                    == seq![id.0]
                &&& !(exists|j: int| 0 <= j < stamps.len() && #[trigger] stamp_views(stamps)[j].0 == id.0) ==> r.len()
                    == 0
            },
        },
{
    match strategy {
        Strategy::KeepRecent { keep, include_newer } => {
            let sv = stamp_views(stamps);
            let rs = state_ids(r);
            assert(strategy == Strategy::KeepRecent { keep, include_newer });
            assert(rs == removal_spec(Strategy::KeepRecent { keep, include_newer }, current, sv));
            lemma_keep_recent(keep, include_newer, current, sv, rs);
            assert forall|k: int| 0 <= k < rs.len() implies exists|j: int|
                0 <= j < sv.len() && #[trigger] sv[j].0 == #[trigger] rs[k] && (if include_newer {
                    sv[j].0 != current
                } else {
                    sv[j].0 < current
                }) && forall|m: int|
                    0 <= m < sv.len() && (if include_newer {
                        sv[m].0 != current
                    } else {
                        sv[m].0 < current
                    }) && !rs.contains(#[trigger] sv[m].0) ==> sv[j].1 <= sv[m].1 by {
                let t = rs[k];
            }
            if keep <= 1 {
                assert forall|j: int|
                    0 <= j < sv.len() && (if include_newer {
                        sv[j].0 != current
                    } else {
                        sv[j].0 < current
                    }) implies rs.contains(#[trigger] sv[j].0) by {
                    let t = sv[j];
                }
            }
        },
        Strategy::Remove(id) => {
            let sv = stamp_views(stamps);
            assert(sv.len() == stamps.len());
            assert(state_ids(r).len() == r.len());
        },
    }
}

/// The states to remove under `strategy`, given the identifier and creation
/// time of every state and the current state.
/// The states to remove under `strategy`, as `removal_spec` gives them.
fn removal_ids_in_order(strategy: Strategy, current: state::Id, stamps: &Vec<Stamp>) -> (r: Vec<state::Id>)
    ensures
        state_ids(r@) == removal_spec(strategy, current.0, stamps@.map_values(|s: Stamp| s@)),
{
    let ghost sv = stamps@.map_values(|s: Stamp| s@);
    match strategy {
        Strategy::KeepRecent { keep, include_newer } => {
            let ghost f = |s: (i32, i64)|
                if is_candidate(include_newer, current.0, s.0) {
                    Some(s)
                } else {
                    None
                };
            let mut picked: Vec<Stamp> = Vec::new();
            let mut i: usize = 0;
            while i < stamps.len()
                invariant
                    i <= stamps.len(),
                    sv == stamps@.map_values(|s: Stamp| s@),
                    f == (|s: (i32, i64)|
                        if is_candidate(include_newer, current.0, s.0) {
                            Some(s)
                        } else {
                            None
                        }),
                    picked@.map_values(|s: Stamp| s@) == sv.take(i as int).filter_map(f),
                decreases stamps.len() - i,
            {
                proof {
                    sv.lemma_filter_map_take_succ(f, i as int);
                }
                let s = stamps[i];
                let take = if include_newer {
                    s.id.0 != current.0
                } else {
                    s.id.0 < current.0
                };
                if take {
                    picked.push(s);
                }
                assert(picked@.map_values(|s: Stamp| s@) =~= sv.take(i + 1).filter_map(f));
                i = i + 1;
            }
            assert(sv.take(i as int) =~= sv);
            let limit: u64 = if keep > 0 {
                keep - 1
            } else {
                0
            };
            let count: usize = if picked.len() as u64 > limit {
                picked.len() - (limit as usize)
            } else {
                0
            };
            let sorted = sort_ranked(picked);
            let ghost sorted_view = sorted@.map_values(|s: Stamp| s@);
            proof {
                crate::order::lemma_sort_desc(candidates(sv, current.0, include_newer), |v: (i32, i64)| Stamp::rank_of_view(v));
            }
            let mut out: Vec<state::Id> = Vec::new();
            let mut k: usize = 0;
            while k < count
                invariant
                    k <= count,
                    out.len() == k,
                    count <= sorted.len(),
                    sorted_view == sorted@.map_values(|s: Stamp| s@),
                    state_ids(out@) == sorted_view.take(k as int).map_values(|s: (i32, i64)| s.0),
                decreases count - k,
            {
                assert(sorted_view[k as int] == sorted@[k as int]@);
                let ghost prev = out@;
                out.push(sorted[k].id);
                assert forall|q: int| 0 <= q < k + 1 implies state_ids(out@)[q] == sorted_view.take(k + 1).map_values(
                    |s: (i32, i64)| s.0,
                )[q] by {
                    if q < k {
                        assert(out@[q] == prev[q]);
                        assert(state_ids(prev)[q] == sorted_view.take(k as int).map_values(|s: (i32, i64)| s.0)[q]);
                    }
                }
                assert(state_ids(out@) =~= sorted_view.take(k + 1).map_values(|s: (i32, i64)| s.0));
                k = k + 1;
            }
            out
        },
        Strategy::Remove(remove) => {
            let mut i: usize = 0;
            while i < stamps.len()
                invariant
                    i <= stamps.len(),
                    strategy == Strategy::Remove(remove),
                    sv == stamps@.map_values(|s: Stamp| s@),
                    forall|j: int| 0 <= j < i ==> sv[j].0 != remove.0,
                decreases stamps.len() - i,
            {
                if stamps[i].id.0 == remove.0 {
                    let mut out: Vec<state::Id> = Vec::new();
                    out.push(remove);
                    assert(sv[i as int].0 == remove.0);
                    assert(stamp_views(stamps@) == sv);
                    assert(stamp_views(stamps@)[i as int].0 == remove.0);
                    assert(state_ids(out@) =~= seq![remove.0]);
                    return out;
                }
                i = i + 1;
            }
            let out: Vec<state::Id> = Vec::new();
            assert(state_ids(out@) =~= Seq::<i32>::empty());
            assert(stamp_views(stamps@) == sv);
            assert forall|j: int| 0 <= j < stamps.len() implies #[trigger] stamp_views(stamps@)[j].0 != remove.0 by {
                assert(sv[j].0 != remove.0);
            }
            out
        },
    }
}

pub fn removal_ids(strategy: Strategy, current: state::Id, stamps: &Vec<Stamp>) -> (r: Vec<state::Id>)
    ensures
        state_ids(r@) == removal_spec(strategy, current.0, stamps@.map_values(|s: Stamp| s@)),
        match strategy {
            Strategy::KeepRecent { keep, include_newer } => {
                let sv = stamp_views(stamps@);
                let rs = state_ids(r@);
                &&& forall|k: int|
                    0 <= k < rs.len() ==> exists|j: int|
                        0 <= j < sv.len() && #[trigger] sv[j].0 == #[trigger] rs[k] && (if include_newer {
                            sv[j].0 != current.0
                        } else {
                            sv[j].0 < current.0
                        }) && forall|m: int|
                            0 <= m < sv.len() && (if include_newer {
                                sv[m].0 != current.0
                            } else {
                                sv[m].0 < current.0
                            }) && !rs.contains(#[trigger] sv[m].0) ==> sv[j].1 <= sv[m].1
                &&& keep <= 1 ==> forall|j: int|
                    0 <= j < sv.len() && (if include_newer {
                        sv[j].0 != current.0
                    } else {
                        sv[j].0 < current.0
                    }) ==> rs.contains(#[trigger] sv[j].0)
            },
            Strategy::Remove(id) => {
                &&& (exists|j: int| 0 <= j < stamps@.len() && #[trigger] stamp_views(stamps@)[j].0 == id.0) ==> state_ids(
                    r@,
                ) == seq![id.0]
                &&& !(exists|j: int| 0 <= j < stamps@.len() && #[trigger] stamp_views(stamps@)[j].0 == id.0) ==> r@.len()
                    == 0
            },
        },
{
    let r = removal_ids_in_order(strategy, current, stamps);
    proof {
        assert(stamp_views(stamps@) == stamps@.map_values(|s: Stamp| s@));
        lemma_removal_laws(strategy, current.0, stamps@, r@);
    }
    r
}

/// The identifier and creation time of each state.
pub open spec fn stamps_of(states: Seq<State>) -> Seq<(i32, i64)> {
    states.map_values(|s: State| (s.id.0, s.created))
}

/// Some state of `states` selects package `x`.
pub open spec fn selected_by(states: Seq<State>, x: Seq<char>) -> bool {
    exists|i: int| 0 <= i < states.len() && #[trigger] states[i].selects(x)
}

/// Some state of `states` that is not removed selects package `x`.
pub open spec fn kept_by(states: Seq<State>, removal: Seq<i32>, x: Seq<char>) -> bool {
    exists|i: int| 0 <= i < states.len() && !removal.contains(states[i].id.0) && #[trigger] states[i].selects(x)
}

/// What pruning will remove: states, and the packages that only those
/// states select.
#[derive(Debug)]
pub struct Plan {
    pub states: Vec<state::Id>,
    pub packages: IdSet,
}

/// Adds the packages that `state` selects to `set`.
fn add_selections(set: &mut IdSet, state: &State)
    requires
        old(set).wf(),
    ensures
        final(set).wf(),
        forall|x: Seq<char>|
            #[trigger] final(set).members().contains(x) <==> (old(set).members().contains(x) || state.selects(x)),
{
    let mut k: usize = 0;
    while k < state.selections.len()
        invariant
            k <= state.selections.len(),
            set.wf(),
            forall|x: Seq<char>|
                #[trigger] set.members().contains(x) <==> (old(set).members().contains(x) || exists|b: int|
                    0 <= b < k && #[trigger] state.selections@[b]@.package == x),
        decreases state.selections.len() - k,
    {
        let ghost before = set.members();
        set.insert(state.selections[k].package.duplicate());
        proof {
            assert forall|x: Seq<char>|
                #[trigger] set.members().contains(x) <==> (old(set).members().contains(x) || exists|b: int|
                    0 <= b < k + 1 && #[trigger] state.selections@[b]@.package == x) by {
                assert(set.members().to_set().contains(x) == set.members().contains(x));
                assert(before.to_set().contains(x) == before.contains(x));
                if x == state.selections@[k as int]@.package {
                }
            }
        }
        k = k + 1;
    }
}

/// Whether `id` is among `ids`.
fn contains_state(ids: &Vec<state::Id>, id: state::Id) -> (r: bool)
    ensures
        r == state_ids(ids@).contains(id.0),
{
    let mut i: usize = 0;
    while i < ids.len()
        invariant
            i <= ids.len(),
            forall|j: int| 0 <= j < i ==> state_ids(ids@)[j] != id.0,
        decreases ids.len() - i,
    {
        if ids[i].0 == id.0 {
            assert(state_ids(ids@)[i as int] == id.0);
            return true;
        }
        i = i + 1;
    }
    false
}

/// Plans pruning with `strategy`, given the active state and all states:
/// fails without an active state or when the active state would be
/// removed; plans nothing when no state is to be removed; otherwise removes
/// the states `strategy` picks and the packages that no remaining state
/// selects.
pub fn plan(strategy: Strategy, active: Option<state::Id>, states: &Vec<State>) -> (r: Result<Option<Plan>, Error>)
    ensures
        match r {
            Err(Error::NoActiveState) => active is None,
            Err(Error::PruneCurrent) => active matches Some(c) && removal_spec(strategy, c.0, stamps_of(states@)).contains(
                c.0,
            ),
            Err(Error::Cancelled) => false,
            Ok(None) => active matches Some(c) && removal_spec(strategy, c.0, stamps_of(states@)).len() == 0,
            Ok(Some(p)) => active matches Some(c) && {
                let removal = removal_spec(strategy, c.0, stamps_of(states@));
                &&& state_ids(p.states@) == removal
                &&& removal.len() > 0
                &&& !removal.contains(c.0)
                &&& p.packages.wf()
                &&& forall|x: Seq<char>|
                    #[trigger] p.packages.members().contains(x) <==> (selected_by(states@, x) && !kept_by(
                        states@,
                        removal,
                        x,
                    ))
            },
        },
{
    let current = match active {
        Some(c) => c,
        None => return Err(Error::NoActiveState),
    };
    let mut stamps: Vec<Stamp> = Vec::new();
    let mut i: usize = 0;
    while i < states.len()
        invariant
            i <= states.len(),
            stamps.len() == i,
            stamps@.map_values(|s: Stamp| s@) == stamps_of(states@).take(i as int),
        decreases states.len() - i,
    {
        stamps.push(Stamp { id: states[i].id, created: states[i].created });
        assert(stamps@.map_values(|s: Stamp| s@) =~= stamps_of(states@).take(i + 1));
        i = i + 1;
    }
    assert(stamps_of(states@).take(i as int) =~= stamps_of(states@));
    let removal = removal_ids(strategy, current, &stamps);
    let ghost rv = state_ids(removal@);
    if removal.len() == 0 {
        return Ok(None);
    }
    if contains_state(&removal, current) {
        return Err(Error::PruneCurrent);
    }
    let mut all = IdSet::new();
    let mut kept = IdSet::new();
    let mut i: usize = 0;
    while i < states.len()
        invariant
            i <= states.len(),
            rv == state_ids(removal@),
            all.wf(),
            kept.wf(),
            forall|x: Seq<char>|
                #[trigger] all.members().contains(x) <==> selected_by(states@.take(i as int), x),
            forall|x: Seq<char>|
                #[trigger] kept.members().contains(x) <==> kept_by(states@.take(i as int), rv, x),
        decreases states.len() - i,
    {
        let ghost all_before = all.members();
        let ghost kept_before = kept.members();
        let st = &states[i];
        add_selections(&mut all, st);
        let removed = contains_state(&removal, st.id);
        if !removed {
            add_selections(&mut kept, st);
        }
        proof {
            let t = states@.take(i + 1);
            assert forall|x: Seq<char>| #[trigger] all.members().contains(x) <==> selected_by(t, x) by {
                if selected_by(states@.take(i as int), x) {
                    let a = choose|a: int| 0 <= a < i && #[trigger] states@.take(i as int)[a].selects(x);
                    assert(t[a] == states@.take(i as int)[a]);
                }
                if selected_by(t, x) {
                    let a = choose|a: int| 0 <= a < i + 1 && #[trigger] t[a].selects(x);
                    if a < i {
                        assert(states@.take(i as int)[a] == t[a]);
                    }
                }
                assert(t[i as int] == *st);
            }
            assert forall|x: Seq<char>| #[trigger] kept.members().contains(x) <==> kept_by(t, rv, x) by {
                if kept_by(states@.take(i as int), rv, x) {
                    let a = choose|a: int|
                        0 <= a < i && !rv.contains(states@.take(i as int)[a].id.0) && #[trigger] states@.take(i as int)[a].selects(x);
                    assert(t[a] == states@.take(i as int)[a]);
                }
                if kept_by(t, rv, x) {
                    let a = choose|a: int| 0 <= a < i + 1 && !rv.contains(t[a].id.0) && #[trigger] t[a].selects(x);
                    if a < i {
                        assert(states@.take(i as int)[a] == t[a]);
                    }
                }
                assert(t[i as int] == *st);
            }
        }
        i = i + 1;
    }
    assert(states@.take(i as int) =~= states@);
    let mut packages = IdSet::new();
    let mut k: usize = 0;
    while k < all.len()
        invariant
            k <= all.members().len(),
            packages.wf(),
            forall|x: Seq<char>|
                #[trigger] packages.members().contains(x) <==> (exists|b: int|
                    0 <= b < k && all.members()[b] == x) && !kept.members().contains(x),
        decreases all.members().len() - k,
    {
        let x = all.get(k);
        if !kept.contains(x) {
            let ghost before = packages.members();
            packages.insert(x.duplicate());
            proof {
                assert forall|y: Seq<char>|
                    #[trigger] packages.members().contains(y) <==> (exists|b: int|
                        0 <= b < k + 1 && all.members()[b] == y) && !kept.members().contains(y) by {
                    assert(packages.members().to_set().contains(y) == packages.members().contains(y));
                    assert(before.to_set().contains(y) == before.contains(y));
                }
            }
        }
        k = k + 1;
    }
    proof {
        assert forall|x: Seq<char>|
            #[trigger] packages.members().contains(x) <==> (selected_by(states@, x) && !kept_by(states@, rv, x)) by {
            if all.members().contains(x) {
                let b = choose|b: int| 0 <= b < all.members().len() && all.members()[b] == x;
            }
        }
    }
    Ok(Some(Plan { states: removal, packages }))
}

/// A hash kept unless `kept` holds it.
pub open spec fn unless_kept(kept: Seq<Seq<char>>) -> spec_fn(Seq<char>) -> Option<Seq<char>> {
    |h: Seq<char>|
        if kept.contains(h) {
            None
        } else {
            Some(h)
        }
}

/// The mathematical form of a list of strings.
pub open spec fn texts_view(v: Seq<String>) -> Seq<Seq<char>> {
    v.map_values(|s: String| s@)
}

/// The hashes of the files on disk that no package still uses: those of
/// `installed` that `kept` does not hold, in the order of `installed`.
pub fn orphaned_hashes(installed: &Vec<String>, kept: &Vec<String>) -> (r: Vec<String>)
    ensures
        texts_view(r@) == texts_view(installed@).filter_map(unless_kept(texts_view(kept@))),
{
    let ghost iv = texts_view(installed@);
    let ghost kv = texts_view(kept@);
    let ghost f = unless_kept(kv);
    let mut out: Vec<String> = Vec::new();
    let mut i: usize = 0;
    while i < installed.len()
        invariant
            i <= installed.len(),
            iv == texts_view(installed@),
            kv == texts_view(kept@),
            f == unless_kept(kv),
            texts_view(out@) == iv.take(i as int).filter_map(f),
        decreases installed.len() - i,
    {
        proof {
            iv.lemma_filter_map_take_succ(f, i as int);
        }
        let ghost prev = texts_view(out@);
        let h = &installed[i];
        let mut found = false;
        let mut k: usize = 0;
        while k < kept.len() && !found
            invariant
                k <= kept.len(),
                kv == texts_view(kept@),
                found ==> kv.contains(h@),
                !found ==> forall|q: int| 0 <= q < k ==> #[trigger] kv[q] != h@,
            decreases kept.len() - k,
        {
            if crate::text::str_equal(kept[k].as_str(), h.as_str()) {
                assert(kv[k as int] == h@);
                found = true;
            }
            k = k + 1;
        }
        assert(iv[i as int] == h@);
        if !found {
            out.push(h.clone());
            assert(texts_view(out@) =~= prev.push(h@));
        }
        assert(texts_view(out@) =~= iv.take(i + 1).filter_map(f));
        i = i + 1;
    }
    assert(iv.take(i as int) =~= iv);
    out
}

} // verus!
