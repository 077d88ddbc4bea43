//! System states: the package selections that make up each installed
//! state of the system.

use vstd::prelude::*;

use crate::package;
use crate::text::{decimal, push_char, u64_to_decimal};

verus! {

/// Unique identifier of a [`State`].
#[derive(Debug, Clone, Copy, PartialEq, Eq, PartialOrd, Ord, Hash, Structural)]
pub struct Id(pub i32);

impl Id {
    /// An identifier made of `id`.
    pub fn from(id: i32) -> (r: Id)
        ensures
            r.0 == id,
    {
        Id(id)
    }

    /// The identifier as a number.
    pub fn value(&self) -> (r: i32)
        ensures
            r == self.0,
    {
        self.0
    }

    /// The identifier in decimal.
    pub fn to_string(&self) -> (s: String)
        ensures
            s@ == id_text(self.0 as int),
    {
        let mut s = String::new();
        let magnitude: u64 = if self.0 < 0 {
            push_char(&mut s, '-');
            (0 - (self.0 as i64)) as u64
        } else {
            self.0 as u64
        };
        let digits = u64_to_decimal(magnitude);
        s.append(digits.as_str());
        s
    }
}

/// The decimal text of a state identifier.
pub open spec fn id_text(id: int) -> Seq<char> {
    if id < 0 {
        seq!['-'] + decimal((-id) as nat)
    } else {
        decimal(id as nat)
    }
}

/// A package selected in a state.
#[derive(Debug, Clone, PartialEq, Eq)]
pub struct Selection {
    pub package: package::Id,
    /// Chosen by the user rather than pulled in as a dependency
    pub explicit: bool,
    pub reason: Option<String>,
}

/// Mathematical form of a [`Selection`].
pub struct SelectionView {
    pub package: Seq<char>,
    pub explicit: bool,
    pub reason: Option<Seq<char>>,
}

impl View for Selection {
    type V = SelectionView;

    open spec fn view(&self) -> SelectionView {
        SelectionView {
            package: self.package@,
            explicit: self.explicit,
            reason: match self.reason {
                Some(r) => Some(r@),
                None => None,
            },
        }
    }
}

impl Selection {
    /// A selection of `package`, with no reason given.
    pub fn explicit(package: package::Id) -> (r: Selection)
        ensures
            r@.package == package@,
            r.explicit,
            r.reason is None,
    {
        Selection { package, explicit: true, reason: None }
    }

    /// A selection of `package` pulled in as a dependency.
    pub fn transitive(package: package::Id) -> (r: Selection)
        ensures
            r@.package == package@,
            !r.explicit,
            r.reason is None,
    {
        Selection { package, explicit: false, reason: None }
    }

    /// A copy of this selection.
    pub fn duplicate(&self) -> (r: Selection)
        ensures
            r@ == self@,
    {
        Selection {
            package: self.package.duplicate(),
            explicit: self.explicit,
            reason: match &self.reason {
                Some(r) => Some(r.clone()),
                None => None,
            },
        }
    }
}

/// The views of a list of selections.
pub open spec fn selection_views(s: Seq<Selection>) -> Seq<SelectionView> {
    s.map_values(|x: Selection| x@)
}

/// The kind of a state.
#[derive(Debug, Clone, Copy, PartialEq, Eq, Structural)]
pub enum Kind {
    /// Automatically constructed state
    Transaction,
}

/// The text stored for a state kind.
pub open spec fn kind_text(k: Kind) -> Seq<char> {
    match k {
        Kind::Transaction => seq!['t', 'r', 'a', 'n', 's', 'a', 'c', 't', 'i', 'o', 'n'],
    }
}

/// A stored state kind that is not known.
#[derive(Debug)]
pub struct DecodeKindError(pub String);

impl Kind {
    /// The text stored for this kind.
    pub fn to_string(&self) -> (s: String)
        ensures
            s@ == kind_text(*self),
    {
        match self {
            Kind::Transaction => {
                let s = String::from_str("transaction");
                proof {
                    reveal_strlit("transaction");
                    assert(kind_text(Kind::Transaction) =~= s@);
                }
                s
            },
        }
    }

    /// The kind stored as `s`; fails on any other text.
    pub fn decode(s: &str) -> (r: Result<Kind, DecodeKindError>)
        ensures
            match r {
                Ok(k) => kind_text(k) == s@,
                Err(e) => e.0@ == s@ && forall|k: Kind| kind_text(k) != s@,
            },
    {
        let t = "transaction";
        proof {
            reveal_strlit("transaction");
            assert(kind_text(Kind::Transaction) =~= t@);
        }
        if crate::text::str_equal(s, t) {
            Ok(Kind::Transaction)
        } else {
            proof {
                assert forall|k: Kind| kind_text(k) != s@ by {
                    match k {
                        Kind::Transaction => {},
                    }
                }
            }
            Err(DecodeKindError(String::from_str(s)))
        }
    }
}

/// Decoding the stored text of a kind gives the kind back.
pub proof fn lemma_kind_text_injective(a: Kind, b: Kind)
    ensures
        kind_text(a) == kind_text(b) ==> a == b,
{
}

/// State of the system.
#[derive(Debug, Clone, PartialEq, Eq)]
pub struct State {
    /// Unique identifier for this state
    pub id: Id,
    /// Quick summary for the state (optional)
    pub summary: Option<String>,
    /// Description for the state (optional)
    pub description: Option<String>,
    /// Package IDs / selections in this state
    pub selections: Vec<Selection>,
    /// Creation time, in seconds since the Unix epoch
    pub created: i64,
    /// Relevant type for this State
    pub kind: Kind,
}

impl State {
    /// The selections of this state, as views.
    pub open spec fn selection_views(&self) -> Seq<SelectionView> {
        selection_views(self.selections@)
    }

    /// Whether `package` is selected in this state.
    pub open spec fn selects(&self, package: Seq<char>) -> bool {
        exists|i: int| 0 <= i < self.selections@.len() && #[trigger] self.selections@[i]@.package == package
    }
}

/// A row of the state table, as stored.
#[derive(Debug, Clone)]
pub struct StateRow {
    pub id: i32,
    pub created: i64,
    pub summary: Option<String>,
    pub description: Option<String>,
    pub kind: String,
}

/// A row of the state selections table, as stored.
#[derive(Debug, Clone)]
pub struct SelectionRow {
    pub state_id: i32,
    pub package_id: String,
    pub explicit: bool,
    pub reason: Option<String>,
}

/// Mathematical form of a [`SelectionRow`]: the state and the selection.
pub open spec fn selection_row_view(r: SelectionRow) -> (i32, SelectionView) {
    (
        r.state_id,
        SelectionView {
            package: r.package_id@,
            explicit: r.explicit,
            reason: match r.reason {
                Some(s) => Some(s@),
                None => None,
            },
        },
    )
}

/// The views of a list of selection rows.
pub open spec fn selection_rows_view(s: Seq<SelectionRow>) -> Seq<(i32, SelectionView)> {
    s.map_values(|r: SelectionRow| selection_row_view(r))
}

/// The selection of a row of state `id`.
pub open spec fn selection_of(id: i32) -> spec_fn((i32, SelectionView)) -> Option<SelectionView> {
    |p: (i32, SelectionView)|
        if p.0 == id {
            Some(p.1)
        } else {
            None
        }
}

/// The optional text as its view.
pub open spec fn opt_text(o: Option<String>) -> Option<Seq<char>> {
    match o {
        Some(s) => Some(s@),
        None => None,
    }
}

/// The rows stored for the selections of state `id`, in order.
pub fn selection_rows(id: Id, selections: &Vec<Selection>) -> (r: Vec<SelectionRow>)
    ensures
        selection_rows_view(r@) == selection_views(selections@).map_values(|s: SelectionView| (id.0, s)),
{
    let mut out: Vec<SelectionRow> = Vec::new();
    let mut i: usize = 0;
    while i < selections.len()
        invariant
            i <= selections.len(),
            selection_rows_view(out@) == selection_views(selections@).take(i as int).map_values(
                |s: SelectionView| (id.0, s),
            ),
        decreases selections.len() - i,
    {
        let s = &selections[i];
        let ghost prev = selection_rows_view(out@);
        out.push(
            SelectionRow {
                state_id: id.0,
                package_id: s.package.0.clone(),
                explicit: s.explicit,
                reason: match &s.reason {
                    Some(r) => Some(r.clone()),
                    None => None,
                },
            },
        );
        assert(selection_rows_view(out@) =~= selection_views(selections@).take(i + 1).map_values(
            |s: SelectionView| (id.0, s),
        )) by {
            assert(selection_rows_view(out@) =~= prev.push((id.0, selections@[i as int]@)));
        }
        i = i + 1;
    }
    assert(selection_views(selections@).take(i as int) =~= selection_views(selections@));
    out
}

/// The selections of the rows of state `id`, in row order.
fn selections_of(id: i32, rows: &Vec<SelectionRow>) -> (r: Vec<Selection>)
    ensures
        selection_views(r@) == selection_rows_view(rows@).filter_map(selection_of(id)),
{
    let ghost rv = selection_rows_view(rows@);
    let ghost f = selection_of(id);
    let mut out: Vec<Selection> = Vec::new();
    let mut i: usize = 0;
    while i < rows.len()
        invariant
            i <= rows.len(),
            rv == selection_rows_view(rows@),
            f == selection_of(id),
            selection_views(out@) == rv.take(i as int).filter_map(f),
        decreases rows.len() - i,
    {
        proof {
            rv.lemma_filter_map_take_succ(f, i as int);
        }
        let ghost prev = selection_views(out@);
        let row = &rows[i];
        if row.state_id == id {
            out.push(
                Selection {
                    package: package::Id(row.package_id.clone()),
                    explicit: row.explicit,
                    reason: match &row.reason {
                        Some(r) => Some(r.clone()),
                        None => None,
                    },
                },
            );
            assert(selection_views(out@) =~= prev.push(rv[i as int].1));
        }
        assert(selection_views(out@) =~= rv.take(i + 1).filter_map(f));
        i = i + 1;
    }
    assert(rv.take(i as int) =~= rv);
    out
}

/// State row `s` has a kind that is not known.
pub open spec fn unknown_kind(s: StateRow) -> bool {
    forall|k: Kind| kind_text(k) != s.kind@
}

/// The states that the stored rows read back as, in row order, each with
/// the selections of its rows in row order. Fails at the first state whose
/// kind is not known.
pub fn read_states(states: &Vec<StateRow>, selections: &Vec<SelectionRow>) -> (r: Result<Vec<State>, DecodeKindError>)
    ensures
        match r {
            Ok(v) => v.len() == states.len() && forall|i: int|
                #![trigger v@[i]]
                0 <= i < states.len() ==> {
                    &&& v@[i].id.0 == states@[i].id
                    &&& v@[i].created == states@[i].created
                    &&& opt_text(v@[i].summary) == opt_text(states@[i].summary)
                    &&& opt_text(v@[i].description) == opt_text(states@[i].description)
                    &&& kind_text(v@[i].kind) == states@[i].kind@
                    &&& selection_views(v@[i].selections@) == selection_rows_view(selections@).filter_map(
                        selection_of(states@[i].id),
                    )
                },
            Err(e) => exists|i: int|
                0 <= i < states.len() && unknown_kind(#[trigger] states@[i]) && e.0@ == states@[i].kind@ && forall|j: int|
                    0 <= j < i ==> !unknown_kind(#[trigger] states@[j]),
        },
{
    let mut out: Vec<State> = Vec::new();
    let mut i: usize = 0;
    while i < states.len()
        invariant
            i <= states.len(),
            out.len() == i,
            forall|j: int| 0 <= j < i ==> !unknown_kind(#[trigger] states@[j]),
            forall|j: int|
                #![trigger out@[j]]
                0 <= j < i ==> {
                    &&& out@[j].id.0 == states@[j].id
                    &&& out@[j].created == states@[j].created
                    &&& opt_text(out@[j].summary) == opt_text(states@[j].summary)
                    &&& opt_text(out@[j].description) == opt_text(states@[j].description)
                    &&& kind_text(out@[j].kind) == states@[j].kind@
                    &&& selection_views(out@[j].selections@) == selection_rows_view(selections@).filter_map(
                        selection_of(states@[j].id),
                    )
                },
        decreases states.len() - i,
    {
        let row = &states[i];
        let kind = match Kind::decode(row.kind.as_str()) {
            Ok(k) => k,
            Err(e) => {
                assert(unknown_kind(states@[i as int]));
                return Err(e);
            },
        };
        let state = State {
            id: Id(row.id),
            summary: match &row.summary {
                Some(s) => Some(s.clone()),
                None => None,
            },
            description: match &row.description {
                Some(s) => Some(s.clone()),
                None => None,
            },
            selections: selections_of(row.id, selections),
            created: row.created,
            kind,
        };
        let ghost prev = out@;
        out.push(state);
        assert forall|j: int| 0 <= j < i + 1 implies !unknown_kind(#[trigger] states@[j]) by {
            if j == i {
                assert(kind_text(kind) == states@[j].kind@);
            }
        }
        assert forall|j: int| #![trigger out@[j]] 0 <= j < i + 1 implies {
            &&& out@[j].id.0 == states@[j].id
            &&& out@[j].created == states@[j].created
            &&& opt_text(out@[j].summary) == opt_text(states@[j].summary)
            &&& opt_text(out@[j].description) == opt_text(states@[j].description)
            &&& kind_text(out@[j].kind) == states@[j].kind@
            &&& selection_views(out@[j].selections@) == selection_rows_view(selections@).filter_map(
                selection_of(states@[j].id),
            )
        } by {
            if j < i {
                assert(out@[j] == prev[j]);
            }
        }
        i = i + 1;
    }
    Ok(out)
}

/// Selections stored for a state read back as the same selections, in the
/// same order, whatever rows of other states are stored around them.
pub proof fn lemma_selections_roundtrip(
    id: i32,
    selections: Seq<SelectionView>,
    before: Seq<(i32, SelectionView)>,
    after: Seq<(i32, SelectionView)>,
)
    requires
        forall|j: int| 0 <= j < before.len() ==> (#[trigger] before[j]).0 != id,
        forall|j: int| 0 <= j < after.len() ==> (#[trigger] after[j]).0 != id,
    ensures
        (before + selections.map_values(|s: SelectionView| (id, s)) + after).filter_map(selection_of(id))
            == selections,
{
    let rows = selections.map_values(|s: SelectionView| (id, s));
    let f = selection_of(id);
    crate::select::lemma_filter_map_add(before + rows, after, f);
    crate::select::lemma_filter_map_add(before, rows, f);
    lemma_filter_map_none(before, f);
    lemma_filter_map_none(after, f);
    lemma_filter_map_all(id, selections);
    assert(Seq::<SelectionView>::empty() + selections + Seq::<SelectionView>::empty() =~= selections);
}

/// Rows of other states yield no selection of state `f` picks.
proof fn lemma_filter_map_none(s: Seq<(i32, SelectionView)>, f: spec_fn((i32, SelectionView)) -> Option<SelectionView>)
    requires
        forall|j: int| 0 <= j < s.len() ==> f(#[trigger] s[j]) is None,
    ensures
        s.filter_map(f) == Seq::<SelectionView>::empty(),
    decreases s.len(),
{
    if s.len() > 0 {
        let d = s.drop_last();
        assert forall|j: int| 0 <= j < d.len() implies f(#[trigger] d[j]) is None by {
            assert(d[j] == s[j]);
        }
        lemma_filter_map_none(d, f);
        assert(f(s[s.len() - 1]) is None);
    } else {
        assert(s.filter_map(f) =~= Seq::<SelectionView>::empty());
    }
}

/// The rows of state `id` yield their selections.
proof fn lemma_filter_map_all(id: i32, selections: Seq<SelectionView>)
    ensures
        selections.map_values(|s: SelectionView| (id, s)).filter_map(selection_of(id)) == selections,
    decreases selections.len(),
{
    let rows = selections.map_values(|s: SelectionView| (id, s));
    if selections.len() > 0 {
        let d = selections.drop_last();
        lemma_filter_map_all(id, d);
        assert(rows.drop_last() =~= d.map_values(|s: SelectionView| (id, s)));
        assert(selections =~= d.push(selections.last()));
    } else {
        assert(rows.filter_map(selection_of(id)) =~= selections);
    }
}

/// The states in the reverse of the order given: states listed oldest
/// first come out newest first.
pub fn newest_first(states: Vec<State>) -> (r: Vec<State>)
    ensures
        r@ == states@.reverse(),
{
    let mut rest = states;
    let ghost orig = rest@;
    let mut out: Vec<State> = Vec::new();
    while rest.len() > 0
        invariant
            orig.len() == rest.len() + out.len(),
            rest@ == orig.take(rest.len() as int),
            out@ == orig.skip(rest.len() as int).reverse(),
        decreases rest.len(),
    {
        let ghost n = rest.len() as int;
        let x = rest.pop().unwrap();
        assert(x == orig[n - 1]);
        out.push(x);
        assert(rest@ =~= orig.take(n - 1));
        assert(out@ =~= orig.skip(n - 1).reverse());
    }
    assert(orig.skip(0) =~= orig);
    out
}

} // verus!
