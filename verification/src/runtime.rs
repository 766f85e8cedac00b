//! Finite-prefix conformance of a runtime journal to a model graph: each
//! record is matched as one exact model step, with missing or unknown data
//! never taken as evidence of equality.

use vstd::prelude::*;
use crate::graph::{FiniteGraph, GraphV, KindV, StateId, TransitionKind, Value, ValueV, graph_wf, state_views, stutter_set, strictly_increasing};
use crate::observation::text_entries_view;
use crate::smap::{StrMap, entries_view, has_key, key_seq, last_lookup, lookup, map_entry_values, lemma_map_entry_values, sorted_keys};
use crate::text::{debug_text, decimal, seq_lt, str_eq};

verus! {

#[derive(Clone, Debug, PartialEq, Eq)]
pub enum JournalValue {
    Known(Value),
    Unknown,
}

pub enum JournalValueV {
    Known(ValueV),
    Unknown,
}

impl View for JournalValue {
    type V = JournalValueV;

    open spec fn view(&self) -> JournalValueV {
        match self {
            JournalValue::Known(v) => JournalValueV::Known(v@),
            JournalValue::Unknown => JournalValueV::Unknown,
        }
    }
}

impl JournalValue {
    /// A known value.
    pub fn known(value: Value) -> (r: JournalValue)
        ensures
            r@ == JournalValueV::Known(value@),
    {
        JournalValue::Known(value)
    }
}

#[derive(Clone, Debug, PartialEq, Eq)]
pub enum JournalAction {
    /// Required for the first snapshot, before any transition has occurred.
    Initial,
    Action(String),
    IdentityStutter,
    /// The journal did not reveal which transition occurred.
    Unknown,
}

pub enum JournalActionV {
    Initial,
    Action(Seq<char>),
    IdentityStutter,
    Unknown,
}

impl View for JournalAction {
    type V = JournalActionV;

    open spec fn view(&self) -> JournalActionV {
        match self {
            JournalAction::Initial => JournalActionV::Initial,
            JournalAction::Action(a) => JournalActionV::Action(a@),
            JournalAction::IdentityStutter => JournalActionV::IdentityStutter,
            JournalAction::Unknown => JournalActionV::Unknown,
        }
    }
}

#[derive(Clone, Debug, PartialEq, Eq)]
pub struct JournalRecord {
    pub sequence: u64,
    pub action: JournalAction,
    pub observations: StrMap<JournalValue>,
}

pub struct RecordV {
    pub sequence: u64,
    pub action: JournalActionV,
    pub observations: Seq<(Seq<char>, JournalValueV)>,
}

pub open spec fn journal_value_fn() -> spec_fn(JournalValue) -> JournalValueV {
    |v: JournalValue| v@
}

impl View for JournalRecord {
    type V = RecordV;

    open spec fn view(&self) -> RecordV {
        RecordV { sequence: self.sequence, action: self.action@, observations: map_entry_values(self.observations@, journal_value_fn()) }
    }
}

pub open spec fn record_views(s: Seq<JournalRecord>) -> Seq<RecordV> {
    s.map_values(|r: JournalRecord| r@)
}

/// Maps required model-state fields to concrete journal field names.
#[derive(Clone, Debug, PartialEq, Eq)]
pub struct RuntimeMapping {
    pub model_to_journal: StrMap<String>,
}

impl RuntimeMapping {
    /// The mapping of the (model, journal) pairs; a later pair for a model
    /// field replaces an earlier one.
    pub fn new(fields: Vec<(&str, &str)>) -> (r: RuntimeMapping)
        ensures
            sorted_keys(r.model_to_journal@),
            forall|k: Seq<char>| #[trigger] lookup(text_entries_view(r.model_to_journal@), k)
                == last_lookup(fields@.map_values(|p: (&str, &str)| (p.0@, p.1@)), k),
    {
        let ghost pv = fields@.map_values(|p: (&str, &str)| (p.0@, p.1@));
        let mut map: StrMap<String> = StrMap::new();
        proof {
            assert forall|k: Seq<char>| #[trigger] lookup(text_entries_view(map@), k) == last_lookup(pv.subrange(0, 0), k) by {
                crate::observation::lemma_lookup_text_view(map@, k);
                crate::smap::lemma_lookup_none(map@, k);
                assert(pv.subrange(0, 0) =~= Seq::<(Seq<char>, Seq<char>)>::empty());
                crate::smap::lemma_last_lookup_empty::<Seq<char>>(k);
            }
        }
        let mut i: usize = 0;
        while i < fields.len()
            invariant
                pv == fields@.map_values(|p: (&str, &str)| (p.0@, p.1@)),
                i <= fields@.len(),
                sorted_keys(map@),
                forall|k: Seq<char>| #[trigger] lookup(text_entries_view(map@), k) == last_lookup(pv.subrange(0, i as int), k),
            decreases fields@.len() - i,
        {
            let ghost old_map = map@;
            let (model, journal) = fields[i];
            map.insert(model.to_owned(), journal.to_owned());
            proof {
                assert(pv[i as int] == (model@, journal@));
                assert(pv.subrange(0, i + 1) =~= pv.subrange(0, i as int).push(pv[i as int]));
                assert forall|k: Seq<char>| #[trigger] lookup(text_entries_view(map@), k) == last_lookup(pv.subrange(0, i + 1), k) by {
                    assert(lookup(text_entries_view(old_map), k) == last_lookup(pv.subrange(0, i as int), k));
                    crate::observation::lemma_lookup_text_view(map@, k);
                    crate::observation::lemma_lookup_text_view(old_map, k);
                    crate::smap::lemma_last_lookup_push(pv.subrange(0, i as int), pv[i as int], k);
                }
            }
            i = i + 1;
        }
        proof {
            assert(pv.subrange(0, fields@.len() as int) =~= pv);
        }
        RuntimeMapping { model_to_journal: map }
    }

    /// Each field observed under its own name.
    pub fn identity(fields: Vec<&str>) -> (r: RuntimeMapping)
        ensures
            sorted_keys(r.model_to_journal@),
            forall|k: Seq<char>| #[trigger] lookup(text_entries_view(r.model_to_journal@), k)
                == if fields@.map_values(|f: &str| f@).contains(k) { Some(k) } else { None },
    {
        let mut pairs: Vec<(&str, &str)> = Vec::new();
        let mut i: usize = 0;
        while i < fields.len()
            invariant
                i <= fields@.len(),
                pairs@.len() == i,
                forall|j: int| 0 <= j < i ==> #[trigger] pairs@[j].0@ == fields@[j]@ && pairs@[j].1@ == fields@[j]@,
            decreases fields@.len() - i,
        {
            pairs.push((fields[i], fields[i]));
            i = i + 1;
        }
        let ghost pv = pairs@.map_values(|p: (&str, &str)| (p.0@, p.1@));
        let ghost fv = fields@.map_values(|f: &str| f@);
        let r = RuntimeMapping::new(pairs);
        proof {
            assert forall|k: Seq<char>| #[trigger] lookup(text_entries_view(r.model_to_journal@), k)
                == if fv.contains(k) { Some(k) } else { None } by {
                lemma_identity_last_lookup(pv, fv, k);
            }
        }
        r
    }
}

proof fn lemma_identity_last_lookup(pv: Seq<(Seq<char>, Seq<char>)>, fv: Seq<Seq<char>>, k: Seq<char>)
    requires
        pv.len() == fv.len(),
        forall|j: int| 0 <= j < pv.len() ==> #[trigger] pv[j] == (fv[j], fv[j]),
    ensures
        last_lookup(pv, k) == if fv.contains(k) { Some(k) } else { None },
    decreases pv.len(),
{
    if pv.len() == 0 {
        crate::smap::lemma_last_lookup_empty::<Seq<char>>(k);
        assert(!fv.contains(k));
    } else {
        let n = pv.len() - 1;
        assert(pv =~= pv.drop_last().push(pv[n]));
        assert forall|j: int| 0 <= j < pv.drop_last().len() implies #[trigger] pv.drop_last()[j] == (fv.drop_last()[j], fv.drop_last()[j]) by {
            assert(pv.drop_last()[j] == pv[j]);
        }
        lemma_identity_last_lookup(pv.drop_last(), fv.drop_last(), k);
        crate::smap::lemma_last_lookup_push(pv.drop_last(), pv[n], k);
        if fv.contains(k) && fv[n] != k {
            let w = choose|w: int| 0 <= w < fv.len() && fv[w] == k;
            assert(fv.drop_last()[w] == k);
        }
        if fv.drop_last().contains(k) {
            let w = choose|w: int| 0 <= w < fv.drop_last().len() && fv.drop_last()[w] == k;
            assert(fv[w] == k);
        }
        if fv[n] == k {
            assert(fv.contains(k));
        }
    }
}

#[derive(Clone, Copy, Debug, PartialEq, Eq, Structural)]
pub enum RuntimeVerdict {
    /// A fully observed finite trace has at least one matching model path.
    Accepted,
    /// Known journal data contradicts every matching model path.
    Rejected,
    /// The finite trace remains compatible, but omitted/unknown data prevents acceptance.
    Unknown,
}

#[derive(Clone, Copy, Debug, PartialEq, Eq, Structural)]
pub enum RuntimeIssueKind {
    EmptyJournal,
    MappingFieldMissing,
    FirstRecordIsNotInitial,
    UnexpectedInitialMarker,
    NonConsecutiveSequence,
    NoMatchingInitialState,
    NoMatchingTransition,
}

#[derive(Clone, Debug, PartialEq, Eq)]
pub struct RuntimeIssue {
    pub kind: RuntimeIssueKind,
    pub record_index: Option<usize>,
    pub sequence: Option<u64>,
    pub candidates_before: Vec<StateId>,
    pub message: String,
}

#[derive(Clone, Copy, Debug, PartialEq, Eq, PartialOrd, Ord, Structural)]
pub enum RuntimeUncertaintyKind {
    MissingObservation,
    UnknownObservation,
    UnknownAction,
}

#[derive(Clone, Debug, PartialEq, Eq, PartialOrd, Ord)]
pub struct RuntimeUncertainty {
    pub record_index: usize,
    pub kind: RuntimeUncertaintyKind,
    pub field: Option<String>,
}

pub struct UncertaintyV {
    pub record_index: usize,
    pub kind: RuntimeUncertaintyKind,
    pub field: Option<Seq<char>>,
}

impl View for RuntimeUncertainty {
    type V = UncertaintyV;

    open spec fn view(&self) -> UncertaintyV {
        UncertaintyV { record_index: self.record_index, kind: self.kind, field: crate::observation::opt_text(self.field) }
    }
}

pub open spec fn uncertainty_views(s: Seq<RuntimeUncertainty>) -> Seq<UncertaintyV> {
    s.map_values(|u: RuntimeUncertainty| u@)
}

#[derive(Clone, Debug, PartialEq, Eq)]
pub struct RuntimeReport {
    pub verdict: RuntimeVerdict,
    pub candidate_states: Vec<Vec<StateId>>,
    pub issue: Option<RuntimeIssue>,
    pub uncertainties: Vec<RuntimeUncertainty>,
}

/// Model field `mf`, observed as journal field `jf`, agrees with state `s`
/// unless the journal leaves it missing or unknown.
pub open spec fn field_matches(g: GraphV, s: int, obs: Seq<(Seq<char>, JournalValueV)>, mf: Seq<char>, jf: Seq<char>) -> bool {
    match lookup(obs, jf) {
        Some(JournalValueV::Known(v)) => lookup(g.states[s], mf) == Some(v),
        _ => true,
    }
}

/// Every known observation of `r` agrees with state `s`.
pub open spec fn observations_match(g: GraphV, m: Seq<(Seq<char>, Seq<char>)>, s: int, r: RecordV) -> bool {
    forall|j: int| 0 <= j < m.len() ==> #[trigger] field_matches(g, s, r.observations, m[j].0, m[j].1)
}

/// The journal action `a` may be a step of kind `k`.
pub open spec fn action_matches(a: JournalActionV, k: KindV) -> bool {
    match a {
        JournalActionV::Initial => false,
        JournalActionV::Action(x) => k == KindV::Action(x),
        JournalActionV::IdentityStutter => k == KindV::IdentityStutter,
        JournalActionV::Unknown => true,
    }
}

/// `t` is reached from a state of `cands` by a step that `r` may record.
pub open spec fn step_to(g: GraphV, m: Seq<(Seq<char>, Seq<char>)>, cands: Set<StateId>, r: RecordV, t: StateId) -> bool {
    exists|k: int| 0 <= k < g.transitions.len() && #[trigger] cands.contains(g.transitions[k].from) && g.transitions[k].to == t
        && action_matches(r.action, g.transitions[k].kind) && observations_match(g, m, t as int, r)
}

/// The model states that the records `0..=i` leave possible.
pub open spec fn candidates_at(g: GraphV, m: Seq<(Seq<char>, Seq<char>)>, rs: Seq<RecordV>, i: nat) -> Set<StateId>
    decreases i,
{
    if i == 0 {
        Set::new(|s: StateId| g.initial.contains(s) && observations_match(g, m, s as int, rs[0]))
    } else {
        Set::new(|t: StateId| step_to(g, m, candidates_at(g, m, rs, (i - 1) as nat), rs[i as int], t))
    }
}

/// `u` records missing or unknown data of record `r`, the record at `i`:
/// an unknown action after the first record, or a mapped journal field
/// that is missing or unknown.
pub open spec fn record_uncertain(m: Seq<(Seq<char>, Seq<char>)>, i: usize, r: RecordV, u: UncertaintyV) -> bool {
    &&& u.record_index == i
    &&& {
        ||| (u.kind == RuntimeUncertaintyKind::UnknownAction && u.field is None && i > 0 && r.action == JournalActionV::Unknown)
        ||| (u.kind == RuntimeUncertaintyKind::MissingObservation && exists|j: int| 0 <= j < m.len()
            && u.field == Some(m[j].1) && #[trigger] lookup(r.observations, m[j].1) is None)
        ||| (u.kind == RuntimeUncertaintyKind::UnknownObservation && exists|j: int| 0 <= j < m.len()
            && u.field == Some(m[j].1) && #[trigger] lookup(r.observations, m[j].1) == Some(JournalValueV::Unknown))
    }
}

/// `u` records missing or unknown data among the records before `n`.
pub open spec fn uncertain(m: Seq<(Seq<char>, Seq<char>)>, rs: Seq<RecordV>, n: int, u: UncertaintyV) -> bool {
    0 <= u.record_index < n && record_uncertain(m, u.record_index, rs[u.record_index as int], u)
}

pub open spec fn kind_rank(k: RuntimeUncertaintyKind) -> int {
    match k {
        RuntimeUncertaintyKind::MissingObservation => 0,
        RuntimeUncertaintyKind::UnknownObservation => 1,
        RuntimeUncertaintyKind::UnknownAction => 2,
    }
}

pub open spec fn field_lt(a: Option<Seq<char>>, b: Option<Seq<char>>) -> bool {
    match (a, b) {
        (None, Some(_)) => true,
        (Some(x), Some(y)) => seq_lt(x, y),
        _ => false,
    }
}

/// The order of uncertainties: by record, kind, then field.
pub open spec fn uncertainty_lt(a: UncertaintyV, b: UncertaintyV) -> bool {
    ||| a.record_index < b.record_index
    ||| (a.record_index == b.record_index && kind_rank(a.kind) < kind_rank(b.kind))
    ||| (a.record_index == b.record_index && a.kind == b.kind && field_lt(a.field, b.field))
}

/// `v` lists, in increasing order, the uncertainties among the records before `n`.
pub open spec fn uncertainties_upto(m: Seq<(Seq<char>, Seq<char>)>, rs: Seq<RecordV>, n: int, v: Seq<UncertaintyV>) -> bool {
    &&& forall|a: int, b: int| 0 <= a < b < v.len() ==> uncertainty_lt(v[a], v[b])
    &&& forall|u: UncertaintyV| v.contains(u) <==> uncertain(m, rs, n, u)
}

/// `v` lists the states of `s` in increasing order.
pub open spec fn lists(v: Seq<StateId>, s: Set<StateId>) -> bool {
    strictly_increasing(v) && forall|x: StateId| v.contains(x) <==> s.contains(x)
}

pub open spec fn id_views(s: Seq<Vec<StateId>>) -> Seq<Seq<StateId>> {
    s.map_values(|v: Vec<StateId>| v@)
}

/// The snapshots list the candidates after each of the records before `n`.
pub open spec fn snapshots_upto(g: GraphV, m: Seq<(Seq<char>, Seq<char>)>, rs: Seq<RecordV>, n: nat, v: Seq<Seq<StateId>>) -> bool {
    &&& v.len() == n
    &&& forall|i: int| 0 <= i < n ==> #[trigger] lists(v[i], candidates_at(g, m, rs, i as nat))
}

/// Record `i` breaks the trace: it repeats the initial marker, breaks the
/// sequence, or leaves no candidate.
pub open spec fn breaks_at(g: GraphV, m: Seq<(Seq<char>, Seq<char>)>, rs: Seq<RecordV>, i: int) -> bool {
    ||| (i == 0 && candidates_at(g, m, rs, 0) == Set::<StateId>::empty())
    ||| (i > 0 && rs[i].action == JournalActionV::Initial)
    ||| (i > 0 && rs[i].sequence != rs[i - 1].sequence + 1)
    ||| (i > 0 && candidates_at(g, m, rs, i as nat) == Set::<StateId>::empty())
}

/// Model field `m[a].0` is missing from state `s`.
pub open spec fn field_gap(g: GraphV, m: Seq<(Seq<char>, Seq<char>)>, a: int, s: int) -> bool {
    0 <= a < m.len() && 0 <= s < g.states.len() && !has_key(g.states[s], m[a].0)
}

/// The states of `v` written as a set: `{0, 1}`.
pub open spec fn set_text(v: Seq<StateId>) -> Seq<char>
    decreases v.len(),
{
    "{"@ + list_text(v) + "}"@
}

pub open spec fn list_text(v: Seq<StateId>) -> Seq<char>
    decreases v.len(),
{
    if v.len() == 0 {
        Seq::empty()
    } else if v.len() == 1 {
        decimal(v[0] as nat)
    } else {
        list_text(v.drop_last()) + ", "@ + decimal(v.last() as nat)
    }
}

/// The content of an adapter: the stutter closure of the model and the mapping.
pub struct AdapterV {
    pub graph: GraphV,
    pub mapping: Seq<(Seq<char>, Seq<char>)>,
}

/// Checks journals against the stutter closure of a model graph.
pub struct RuntimeTraceAdapter<'a> {
    graph: FiniteGraph,
    mapping: &'a RuntimeMapping,
}

impl<'a> View for RuntimeTraceAdapter<'a> {
    type V = AdapterV;

    closed spec fn view(&self) -> AdapterV {
        AdapterV { graph: self.graph@, mapping: text_entries_view(self.mapping.model_to_journal@) }
    }
}

fn copy_ids(v: &Vec<StateId>) -> (r: Vec<StateId>)
    ensures
        r@ == v@,
{
    let mut out: Vec<StateId> = Vec::new();
    let mut i: usize = 0;
    while i < v.len()
        invariant
            i <= v@.len(),
            out@ == v@.subrange(0, i as int),
        decreases v@.len() - i,
    {
        out.push(v[i]);
        proof {
            assert(out@ =~= v@.subrange(0, i + 1));
        }
        i = i + 1;
    }
    proof {
        assert(v@.subrange(0, v@.len() as int) =~= v@);
    }
    out
}

/// Whether the journal action may record a step of the given kind.
fn step_action_matches(observed: &JournalAction, model: &TransitionKind) -> (r: bool)
    ensures
        r == action_matches(observed@, model@),
{
    match observed {
        JournalAction::Initial => false,
        JournalAction::Action(action) => model.is_action(action.as_str()),
        JournalAction::IdentityStutter => match model {
            TransitionKind::IdentityStutter => true,
            TransitionKind::Action(_) => false,
        },
        JournalAction::Unknown => true,
    }
}

impl<'a> RuntimeTraceAdapter<'a> {
    /// An adapter for the stutter closure of `graph`.
    pub fn new(graph: &FiniteGraph, mapping: &'a RuntimeMapping) -> (r: RuntimeTraceAdapter<'a>)
        ensures
            r@.graph.states == graph@.states,
            r@.graph.initial == graph@.initial,
            r@.graph.transitions.to_set() == graph@.transitions.to_set() + stutter_set(graph@.states.len()),
            r@.mapping == text_entries_view(mapping.model_to_journal@),
    {
        RuntimeTraceAdapter { graph: graph.stutter_closed(), mapping }
    }

    /// Whether the known observations of `record` agree with `state`.
    fn observations_agree(&self, state: StateId, record: &JournalRecord) -> (r: bool)
        requires
            state < self@.graph.states.len(),
        ensures
            r == observations_match(self@.graph, self@.mapping, state as int, record@),
    {
        let ghost g = self@.graph;
        let ghost m = self@.mapping;
        let entries = self.mapping.model_to_journal.entries();
        proof {
            assert(m == text_entries_view(entries_view(entries@)));
        }
        let mut i: usize = 0;
        while i < entries.len()
            invariant
                g == self@.graph,
                m == self@.mapping,
                m == text_entries_view(entries_view(entries@)),
                state < g.states.len(),
                i <= entries@.len(),
                forall|j: int| 0 <= j < i ==> #[trigger] field_matches(g, state as int, record@.observations, m[j].0, m[j].1),
            decreases entries@.len() - i,
        {
            let mf = entries[i].0.as_str();
            let jf = entries[i].1.as_str();
            proof {
                assert(m[i as int] == (mf@, jf@));
                lemma_map_entry_values(record.observations@, journal_value_fn(), jf@);
            }
            match record.observations.get(jf) {
                Some(JournalValue::Known(observed)) => {
                    let here = self.graph.state(state).get(mf);
                    let agree = match here {
                        Some(v) => v.same(observed),
                        None => false,
                    };
                    if !agree {
                        proof {
                            assert(!field_matches(g, state as int, record@.observations, m[i as int].0, m[i as int].1));
                        }
                        return false;
                    }
                },
                _ => {},
            }
            i = i + 1;
        }
        true
    }

    /// The states that `record` may reach from `candidates`, in increasing order.
    fn successors(&self, candidates: &Vec<StateId>, record: &JournalRecord) -> (r: Vec<StateId>)
        requires
            strictly_increasing(candidates@),
            forall|i: int| 0 <= i < candidates@.len() ==> candidates@[i] < self@.graph.states.len(),
        ensures
            lists(r@, Set::new(|t: StateId| step_to(self@.graph, self@.mapping, candidates@.to_set(), record@, t))),
            forall|i: int| 0 <= i < r@.len() ==> r@[i] < self@.graph.states.len(),
    {
        proof {
            use_type_invariant(&self.graph);
        }
        let ghost g = self@.graph;
        let ghost m = self@.mapping;
        let ghost cs = candidates@.to_set();
        let mut next: Vec<StateId> = Vec::new();
        let mut c: usize = 0;
        while c < candidates.len()
            invariant
                g == self@.graph,
                m == self@.mapping,
                graph_wf(g),
                cs == candidates@.to_set(),
                forall|i: int| 0 <= i < candidates@.len() ==> candidates@[i] < g.states.len(),
                c <= candidates@.len(),
                strictly_increasing(next@),
                forall|i: int| 0 <= i < next@.len() ==> next@[i] < g.states.len(),
                forall|t: StateId| next@.contains(t) ==> step_to(g, m, cs, record@, t),
                forall|k: int| 0 <= k < g.transitions.len() && #[trigger] candidates@.subrange(0, c as int).contains(g.transitions[k].from)
                    && action_matches(record@.action, g.transitions[k].kind) && observations_match(g, m, g.transitions[k].to as int, record@)
                    ==> next@.contains(g.transitions[k].to),
            decreases candidates@.len() - c,
        {
            let from = candidates[c];
            let ids = self.graph.outgoing_ids(from);
            let ghost before_c = next@;
            let mut j: usize = 0;
            while j < ids.len()
                invariant
                    g == self@.graph,
                    m == self@.mapping,
                    graph_wf(g),
                    cs == candidates@.to_set(),
                    ids@ == g.outgoing[from as int],
                    from == candidates@[c as int],
                    c < candidates@.len(),
                    from < g.states.len(),
                    j <= ids@.len(),
                    strictly_increasing(next@),
                    forall|i: int| 0 <= i < next@.len() ==> next@[i] < g.states.len(),
                    forall|t: StateId| next@.contains(t) ==> step_to(g, m, cs, record@, t),
                    forall|t: StateId| before_c.contains(t) ==> next@.contains(t),
                    forall|jj: int| 0 <= jj < j && action_matches(record@.action, g.transitions[#[trigger] ids@[jj] as int].kind)
                        && observations_match(g, m, g.transitions[ids@[jj] as int].to as int, record@)
                        ==> next@.contains(g.transitions[ids@[jj] as int].to),
                decreases ids@.len() - j,
            {
                let id = ids[j];
                let edge = self.graph.transition(id);
                proof {
                    assert(g.transitions[id as int].from == from);
                    assert(crate::graph::transition_valid(g.transitions[id as int], g.states.len()));
                }
                if step_action_matches(&record.action, &edge.kind) && self.observations_agree(edge.to, record) {
                    let ghost before = next@;
                    crate::graph::insert_sorted_id(&mut next, edge.to);
                    proof {
                        assert(next@.to_set() == before.to_set().insert(edge.to));
                        assert(cs.contains(g.transitions[id as int].from)) by {
                            assert(candidates@[c as int] == from);
                        }
                        assert forall|t: StateId| next@.contains(t) implies step_to(g, m, cs, record@, t) by {
                            assert(next@.to_set().contains(t));
                            if t != edge.to {
                                assert(before.to_set().contains(t));
                            }
                        }
                        assert forall|i: int| 0 <= i < next@.len() implies next@[i] < g.states.len() by {
                            assert(next@.to_set().contains(next@[i]));
                            if next@[i] != edge.to {
                                assert(before.to_set().contains(next@[i]));
                            }
                        }
                        assert forall|t: StateId| before_c.contains(t) implies next@.contains(t) by {
                            assert(before.contains(t));
                            assert(before.to_set().contains(t));
                            assert(next@.to_set().contains(t));
                        }
                        assert forall|jj: int| 0 <= jj < j + 1 && action_matches(record@.action, g.transitions[#[trigger] ids@[jj] as int].kind)
                            && observations_match(g, m, g.transitions[ids@[jj] as int].to as int, record@)
                            implies next@.contains(g.transitions[ids@[jj] as int].to) by {
                            let t = g.transitions[ids@[jj] as int].to;
                            if jj < j {
                                assert(before.contains(t));
                                assert(before.to_set().contains(t));
                            }
                            assert(next@.to_set().contains(t));
                        }
                    }
                }
                j = j + 1;
            }
            proof {
                assert forall|k: int| 0 <= k < g.transitions.len() && #[trigger] candidates@.subrange(0, c + 1).contains(g.transitions[k].from)
                    && action_matches(record@.action, g.transitions[k].kind) && observations_match(g, m, g.transitions[k].to as int, record@)
                    implies next@.contains(g.transitions[k].to) by {
                    let w = choose|w: int| 0 <= w < c + 1 && #[trigger] candidates@.subrange(0, c + 1)[w] == g.transitions[k].from;
                    if w < c {
                        assert(candidates@.subrange(0, c as int)[w] == g.transitions[k].from);
                        assert(candidates@.subrange(0, c as int).contains(g.transitions[k].from));
                        assert(before_c.contains(g.transitions[k].to));
                    } else {
                        assert(g.transitions[k].from == from);
                        assert(g.outgoing[g.transitions[k].from as int].contains(k as usize));
                        let jj = choose|jj: int| 0 <= jj < ids@.len() && ids@[jj] == k as usize;
                        assert(action_matches(record@.action, g.transitions[ids@[jj] as int].kind));
                    }
                }
            }
            c = c + 1;
        }
        proof {
            assert(candidates@.subrange(0, candidates@.len() as int) =~= candidates@);
            assert forall|t: StateId| next@.contains(t) <==> Set::new(|t: StateId| step_to(g, m, cs, record@, t)).contains(t) by {
                if step_to(g, m, cs, record@, t) {
                    let k = choose|k: int| 0 <= k < g.transitions.len() && #[trigger] cs.contains(g.transitions[k].from) && g.transitions[k].to == t
                        && action_matches(record@.action, g.transitions[k].kind) && observations_match(g, m, t as int, record@);
                    assert(candidates@.contains(g.transitions[k].from));
                }
            }
        }
        next
    }
}

/// The uncertainties of one record, in increasing order.
pub open spec fn block_sorted(b: Seq<UncertaintyV>) -> bool {
    forall|x: int, y: int| 0 <= x < y < b.len() ==> uncertainty_lt(b[x], b[y])
}

impl<'a> RuntimeTraceAdapter<'a> {
    /// Appends the uncertainties of `record`, the record at `index`.
    fn collect_uncertainty(&self, out: &mut Vec<RuntimeUncertainty>, index: usize, record: &JournalRecord)
        requires
            block_sorted(uncertainty_views(old(out)@)),
            forall|x: int| 0 <= x < old(out)@.len() ==> old(out)@[x].record_index < index,
        ensures
            block_sorted(uncertainty_views(final(out)@)),
            forall|x: int| 0 <= x < final(out)@.len() ==> final(out)@[x].record_index <= index,
            forall|u: UncertaintyV| uncertainty_views(final(out)@).contains(u)
                <==> (uncertainty_views(old(out)@).contains(u) || record_uncertain(self@.mapping, index, record@, u)),
    {
        let ghost m = self@.mapping;
        let ghost obs = record@.observations;
        let entries = self.mapping.model_to_journal.entries();
        proof {
            assert(m == text_entries_view(entries_view(entries@)));
        }
        let mut missing: StrMap<()> = StrMap::new();
        let mut unknown: StrMap<()> = StrMap::new();
        let mut i: usize = 0;
        while i < entries.len()
            invariant
                m == self@.mapping,
                m == text_entries_view(entries_view(entries@)),
                obs == record@.observations,
                i <= entries@.len(),
                sorted_keys(missing@),
                sorted_keys(unknown@),
                forall|k: Seq<char>| #[trigger] has_key(missing@, k) <==> exists|j: int| 0 <= j < i && m[j].1 == k && #[trigger] lookup(obs, m[j].1) is None,
                forall|k: Seq<char>| #[trigger] has_key(unknown@, k) <==> exists|j: int| 0 <= j < i && m[j].1 == k
                    && #[trigger] lookup(obs, m[j].1) == Some(JournalValueV::Unknown),
            decreases entries@.len() - i,
        {
            let jf = entries[i].1.as_str();
            proof {
                assert(m[i as int].1 == jf@);
                lemma_map_entry_values(record.observations@, journal_value_fn(), jf@);
            }
            match record.observations.get(jf) {
                None => {
                    missing.insert(jf.to_owned(), ());
                },
                Some(JournalValue::Unknown) => {
                    unknown.insert(jf.to_owned(), ());
                },
                Some(JournalValue::Known(_)) => {},
            }
            proof {
                assert forall|k: Seq<char>| #[trigger] has_key(missing@, k) <==> exists|j: int| 0 <= j < i + 1 && m[j].1 == k && #[trigger] lookup(obs, m[j].1) is None by {
                    if exists|j: int| 0 <= j < i + 1 && m[j].1 == k && #[trigger] lookup(obs, m[j].1) is None {
                        let j = choose|j: int| 0 <= j < i + 1 && m[j].1 == k && #[trigger] lookup(obs, m[j].1) is None;
                        if j < i {
                            assert(exists|j2: int| 0 <= j2 < i && m[j2].1 == k && #[trigger] lookup(obs, m[j2].1) is None);
                        }
                    }
                }
                assert forall|k: Seq<char>| #[trigger] has_key(unknown@, k) <==> exists|j: int| 0 <= j < i + 1 && m[j].1 == k
                    && #[trigger] lookup(obs, m[j].1) == Some(JournalValueV::Unknown) by {
                    if exists|j: int| 0 <= j < i + 1 && m[j].1 == k && #[trigger] lookup(obs, m[j].1) == Some(JournalValueV::Unknown) {
                        let j = choose|j: int| 0 <= j < i + 1 && m[j].1 == k && #[trigger] lookup(obs, m[j].1) == Some(JournalValueV::Unknown);
                        if j < i {
                            assert(exists|j2: int| 0 <= j2 < i && m[j2].1 == k && #[trigger] lookup(obs, m[j2].1) == Some(JournalValueV::Unknown));
                        }
                    }
                }
            }
            i = i + 1;
        }
        let mut block: Vec<RuntimeUncertainty> = Vec::new();
        let me = missing.entries();
        let ue = unknown.entries();
        let ghost mk = key_seq(missing@);
        let ghost uk = key_seq(unknown@);
        proof {
            assert(missing@ == entries_view(me@));
            assert(unknown@ == entries_view(ue@));
        }
        let mut a: usize = 0;
        while a < me.len()
            invariant
                missing@ == entries_view(me@),
                mk == key_seq(missing@),
                a <= me@.len(),
                block@.len() == a,
                forall|t: int| 0 <= t < a ==> #[trigger] uncertainty_views(block@)[t] == (UncertaintyV {
                    record_index: index, kind: RuntimeUncertaintyKind::MissingObservation, field: Some(mk[t]) }),
            decreases me@.len() - a,
        {
            let ghost before = uncertainty_views(block@);
            block.push(RuntimeUncertainty { record_index: index, kind: RuntimeUncertaintyKind::MissingObservation, field: Some(me[a].0.clone()) });
            proof {
                assert(mk[a as int] == me@[a as int].0@);
                assert(uncertainty_views(block@) =~= before.push(UncertaintyV {
                    record_index: index, kind: RuntimeUncertaintyKind::MissingObservation, field: Some(mk[a as int]) }));
            }
            a = a + 1;
        }
        let mut b: usize = 0;
        while b < ue.len()
            invariant
                missing@ == entries_view(me@),
                unknown@ == entries_view(ue@),
                mk == key_seq(missing@),
                uk == key_seq(unknown@),
                b <= ue@.len(),
                block@.len() == me@.len() + b,
                forall|t: int| 0 <= t < me@.len() ==> #[trigger] uncertainty_views(block@)[t] == (UncertaintyV {
                    record_index: index, kind: RuntimeUncertaintyKind::MissingObservation, field: Some(mk[t]) }),
                forall|t: int| 0 <= t < b ==> #[trigger] uncertainty_views(block@)[me@.len() + t] == (UncertaintyV {
                    record_index: index, kind: RuntimeUncertaintyKind::UnknownObservation, field: Some(uk[t]) }),
            decreases ue@.len() - b,
        {
            let ghost before = uncertainty_views(block@);
            block.push(RuntimeUncertainty { record_index: index, kind: RuntimeUncertaintyKind::UnknownObservation, field: Some(ue[b].0.clone()) });
            proof {
                assert(uk[b as int] == ue@[b as int].0@);
                assert(uncertainty_views(block@) =~= before.push(UncertaintyV {
                    record_index: index, kind: RuntimeUncertaintyKind::UnknownObservation, field: Some(uk[b as int]) }));
                assert forall|t: int| 0 <= t < me@.len() implies #[trigger] uncertainty_views(block@)[t] == (UncertaintyV {
                    record_index: index, kind: RuntimeUncertaintyKind::MissingObservation, field: Some(mk[t]) }) by {
                    assert(uncertainty_views(block@)[t] == before[t]);
                }
                assert forall|t: int| 0 <= t < b + 1 implies #[trigger] uncertainty_views(block@)[me@.len() + t] == (UncertaintyV {
                    record_index: index, kind: RuntimeUncertaintyKind::UnknownObservation, field: Some(uk[t]) }) by {
                    if t < b {
                        assert(uncertainty_views(block@)[me@.len() + t] == before[me@.len() + t]);
                    }
                }
            }
            b = b + 1;
        }
        let action_unknown = match record.action {
            JournalAction::Unknown => true,
            _ => false,
        };
        let ghost with_action = index > 0 && action_unknown;
        if index > 0 && action_unknown {
            let ghost before = uncertainty_views(block@);
            block.push(RuntimeUncertainty { record_index: index, kind: RuntimeUncertaintyKind::UnknownAction, field: None });
            proof {
                assert(uncertainty_views(block@) =~= before.push(UncertaintyV {
                    record_index: index, kind: RuntimeUncertaintyKind::UnknownAction, field: None }));
                assert forall|t: int| 0 <= t < me@.len() implies #[trigger] uncertainty_views(block@)[t] == (UncertaintyV {
                    record_index: index, kind: RuntimeUncertaintyKind::MissingObservation, field: Some(mk[t]) }) by {
                    assert(uncertainty_views(block@)[t] == before[t]);
                }
                assert forall|t: int| 0 <= t < ue@.len() implies #[trigger] uncertainty_views(block@)[me@.len() + t] == (UncertaintyV {
                    record_index: index, kind: RuntimeUncertaintyKind::UnknownObservation, field: Some(uk[t]) }) by {
                    assert(uncertainty_views(block@)[me@.len() + t] == before[me@.len() + t]);
                }
            }
        }
        proof {
            lemma_block(uncertainty_views(block@), index, mk, uk, with_action, missing@, unknown@);
            assert forall|u: UncertaintyV| uncertainty_views(block@).contains(u) <==> record_uncertain(m, index, record@, u) by {
                if u.kind == RuntimeUncertaintyKind::MissingObservation && u.field is Some {
                    crate::open::lemma_key_seq_contains(missing@, u.field->0);
                }
                if u.kind == RuntimeUncertaintyKind::UnknownObservation && u.field is Some {
                    crate::open::lemma_key_seq_contains(unknown@, u.field->0);
                }
                if record_uncertain(m, index, record@, u) {
                    if u.kind == RuntimeUncertaintyKind::MissingObservation {
                        let j = choose|j: int| 0 <= j < m.len() && u.field == Some(m[j].1) && #[trigger] lookup(obs, m[j].1) is None;
                        assert(has_key(missing@, m[j].1));
                    }
                    if u.kind == RuntimeUncertaintyKind::UnknownObservation {
                        let j = choose|j: int| 0 <= j < m.len() && u.field == Some(m[j].1) && #[trigger] lookup(obs, m[j].1) == Some(JournalValueV::Unknown);
                        assert(has_key(unknown@, m[j].1));
                    }
                }
            }
        }
        let ghost old_view = uncertainty_views(out@);
        let ghost block_view = uncertainty_views(block@);
        let ghost old_out = out@;
        proof {
            assert(forall|u: UncertaintyV| #[trigger] block_view.contains(u) <==> record_uncertain(m, index, record@, u));
            assert(old_view == uncertainty_views(old(out)@));
        }
        out.append(&mut block);
        proof {
            assert(uncertainty_views(out@) =~= old_view + block_view);
            assert forall|x: int, y: int| 0 <= x < y < uncertainty_views(out@).len()
                implies uncertainty_lt(uncertainty_views(out@)[x], uncertainty_views(out@)[y]) by {
                if y < old_view.len() {
                    assert(uncertainty_views(out@)[x] == old_view[x]);
                    assert(uncertainty_views(out@)[y] == old_view[y]);
                } else if x < old_view.len() {
                    assert(uncertainty_views(out@)[x] == old_view[x]);
                    assert(old_view[x].record_index == old_out[x].record_index);
                    assert(uncertainty_views(out@)[y] == block_view[y - old_view.len()]);
                } else {
                    assert(uncertainty_views(out@)[x] == block_view[x - old_view.len()]);
                    assert(uncertainty_views(out@)[y] == block_view[y - old_view.len()]);
                }
            }
            assert forall|x: int| 0 <= x < out@.len() implies out@[x].record_index <= index by {
                if x < old_out.len() {
                    assert(out@[x] == old_out[x]);
                } else {
                    assert(uncertainty_views(out@)[x] == block_view[x - old_view.len()]);
                    assert(block_view[x - old_view.len()].record_index == index);
                    assert(uncertainty_views(out@)[x].record_index == out@[x].record_index);
                }
            }
            assert forall|u: UncertaintyV| uncertainty_views(out@).contains(u)
                <==> (old_view.contains(u) || record_uncertain(m, index, record@, u)) by {
                assert(block_view.contains(u) <==> record_uncertain(m, index, record@, u));
                if uncertainty_views(out@).contains(u) {
                    let w = choose|w: int| 0 <= w < uncertainty_views(out@).len() && uncertainty_views(out@)[w] == u;
                    if w < old_view.len() {
                        assert(old_view[w] == u);
                    } else {
                        assert(block_view[w - old_view.len()] == u);
                    }
                }
                if old_view.contains(u) {
                    let w = choose|w: int| 0 <= w < old_view.len() && old_view[w] == u;
                    assert(uncertainty_views(out@)[w] == u);
                }
                if block_view.contains(u) {
                    let w = choose|w: int| 0 <= w < block_view.len() && block_view[w] == u;
                    assert(uncertainty_views(out@)[old_view.len() + w] == u);
                }
            }
            assert(forall|u: UncertaintyV| uncertainty_views(out@).contains(u)
                <==> (uncertainty_views(old(out)@).contains(u) || record_uncertain(self@.mapping, index, record@, u)));
        }
    }
}

proof fn lemma_block(bv: Seq<UncertaintyV>, index: usize, mk: Seq<Seq<char>>, uk: Seq<Seq<char>>, with_action: bool,
    missing: Seq<(Seq<char>, ())>, unknown: Seq<(Seq<char>, ())>)
    requires
        mk == key_seq(missing),
        uk == key_seq(unknown),
        sorted_keys(missing),
        sorted_keys(unknown),
        bv.len() == mk.len() + uk.len() + if with_action { 1int } else { 0int },
        forall|t: int| 0 <= t < mk.len() ==> #[trigger] bv[t] == (UncertaintyV {
            record_index: index, kind: RuntimeUncertaintyKind::MissingObservation, field: Some(mk[t]) }),
        forall|t: int| 0 <= t < uk.len() ==> #[trigger] bv[mk.len() + t] == (UncertaintyV {
            record_index: index, kind: RuntimeUncertaintyKind::UnknownObservation, field: Some(uk[t]) }),
        with_action ==> bv[(mk.len() + uk.len()) as int] == (UncertaintyV { record_index: index, kind: RuntimeUncertaintyKind::UnknownAction, field: None }),
    ensures
        block_sorted(bv),
        forall|x: int| 0 <= x < bv.len() ==> #[trigger] bv[x].record_index == index,
        forall|u: UncertaintyV| bv.contains(u) <==> u.record_index == index && (
            (u.kind == RuntimeUncertaintyKind::MissingObservation && u.field is Some && mk.contains(u.field->0))
            || (u.kind == RuntimeUncertaintyKind::UnknownObservation && u.field is Some && uk.contains(u.field->0))
            || (with_action && u.kind == RuntimeUncertaintyKind::UnknownAction && u.field is None)),
{
    let n1 = mk.len() as int;
    let n2 = (mk.len() + uk.len()) as int;
    assert forall|x: int| 0 <= x < bv.len() implies #[trigger] bv[x].record_index == index by {
        if x < n1 {
            assert(bv[x] == bv[x]);
        } else if x < n2 {
            assert(bv[n1 + (x - n1)].record_index == index);
        }
    }
    assert forall|x: int, y: int| 0 <= x < y < bv.len() implies uncertainty_lt(bv[x], bv[y]) by {
        if y < n1 {
            assert(mk[x] == missing[x].0 && mk[y] == missing[y].0);
        } else if x < n1 {
            if y < n2 {
                assert(bv[n1 + (y - n1)].kind == RuntimeUncertaintyKind::UnknownObservation);
            }
        } else if y < n2 {
            assert(bv[n1 + (x - n1)].field == Some(uk[x - n1]));
            assert(bv[n1 + (y - n1)].field == Some(uk[y - n1]));
            assert(uk[x - n1] == unknown[x - n1].0 && uk[y - n1] == unknown[y - n1].0);
        } else {
            assert(bv[n1 + (x - n1)].kind == RuntimeUncertaintyKind::UnknownObservation);
        }
    }
    assert forall|u: UncertaintyV| bv.contains(u) <==> u.record_index == index && (
            (u.kind == RuntimeUncertaintyKind::MissingObservation && u.field is Some && mk.contains(u.field->0))
            || (u.kind == RuntimeUncertaintyKind::UnknownObservation && u.field is Some && uk.contains(u.field->0))
            || (with_action && u.kind == RuntimeUncertaintyKind::UnknownAction && u.field is None)) by {
        if bv.contains(u) {
            let w = choose|w: int| 0 <= w < bv.len() && bv[w] == u;
            if w < n1 {
                assert(mk[w] == u.field->0);
            } else if w < n2 {
                assert(bv[n1 + (w - n1)] == u);
                assert(uk[w - n1] == u.field->0);
            }
        }
        if u.record_index == index && u.kind == RuntimeUncertaintyKind::MissingObservation && u.field is Some && mk.contains(u.field->0) {
            let w = choose|w: int| 0 <= w < mk.len() && mk[w] == u.field->0;
            assert(bv[w] == u);
        }
        if u.record_index == index && u.kind == RuntimeUncertaintyKind::UnknownObservation && u.field is Some && uk.contains(u.field->0) {
            let w = choose|w: int| 0 <= w < uk.len() && uk[w] == u.field->0;
            assert(bv[n1 + w] == u);
        }
        if with_action && u.record_index == index && u.kind == RuntimeUncertaintyKind::UnknownAction && u.field is None {
            assert(bv[n2] == u);
        }
    }
}

/// Field `m[a].0` is the first mapped model field that some state lacks,
/// and `s` the first state that lacks it.
pub open spec fn first_missing_field(g: GraphV, m: Seq<(Seq<char>, Seq<char>)>, a: int, s: int) -> bool {
    &&& field_gap(g, m, a, s)
    &&& forall|a2: int, s2: int| 0 <= a2 < a ==> !#[trigger] field_gap(g, m, a2, s2)
    &&& forall|s2: int| 0 <= s2 < s ==> !#[trigger] field_gap(g, m, a, s2)
}

/// `r` rejects at once with an issue of `kind` and no candidates.
pub open spec fn rejected_with(r: RuntimeReport, kind: RuntimeIssueKind, index: Option<usize>, sequence: Option<u64>, message: Seq<char>) -> bool {
    &&& r.verdict == RuntimeVerdict::Rejected
    &&& r.candidate_states@.len() == 0
    &&& r.uncertainties@.len() == 0
    &&& r.issue matches Some(i) && i.kind == kind && i.record_index == index && i.sequence == sequence
        && i.candidates_before@.len() == 0 && i.message@ == message
}

/// The text of the expected successor of sequence number `previous`.
pub open spec fn expectation_text(previous: u64) -> Seq<char> {
    if previous == u64::MAX {
        "no successor because the previous sequence is u64::MAX"@
    } else {
        decimal((previous + 1) as nat)
    }
}

/// `r` reports the first break of the trace, at record `f`.
pub open spec fn broken_report(g: GraphV, m: Seq<(Seq<char>, Seq<char>)>, rs: Seq<RecordV>, f: int, r: RuntimeReport) -> bool {
    &&& r.verdict == RuntimeVerdict::Rejected
    &&& r.issue matches Some(i) && i.record_index == Some(f as usize) && i.sequence == Some(rs[f].sequence) && if f == 0 {
        &&& i.kind == RuntimeIssueKind::NoMatchingInitialState
        &&& id_views(r.candidate_states@) == seq![Seq::<StateId>::empty()]
        &&& i.candidates_before@ == g.initial
        &&& i.message@ == "known initial observations match no model initial state"@
        &&& uncertainties_upto(m, rs, 1, uncertainty_views(r.uncertainties@))
    } else {
        &&& snapshots_upto(g, m, rs, f as nat, id_views(r.candidate_states@))
        &&& lists(i.candidates_before@, candidates_at(g, m, rs, (f - 1) as nat))
        &&& if rs[f].action == JournalActionV::Initial {
            &&& i.kind == RuntimeIssueKind::UnexpectedInitialMarker
            &&& i.message@ == "the initial marker may appear only at record 0"@
            &&& uncertainties_upto(m, rs, f, uncertainty_views(r.uncertainties@))
        } else if rs[f].sequence != rs[f - 1].sequence + 1 {
            &&& i.kind == RuntimeIssueKind::NonConsecutiveSequence
            &&& i.message@ == "record "@ + decimal(f as nat) + " has sequence "@ + decimal(rs[f].sequence as nat) + ", expected "@
                + expectation_text(rs[f - 1].sequence) + " for exact-step conformance"@
            &&& uncertainties_upto(m, rs, f, uncertainty_views(r.uncertainties@))
        } else {
            &&& i.kind == RuntimeIssueKind::NoMatchingTransition
            &&& i.message@ == "record "@ + decimal(f as nat) + " action/observations match no transition from candidate states "@
                + set_text(i.candidates_before@)
            &&& uncertainties_upto(m, rs, f + 1, uncertainty_views(r.uncertainties@))
        }
    }
}

/// What checking the records `rs` against the adapter `ad` reports: the
/// journal and mapping faults in turn, then the first break of the trace,
/// or the candidates after each record, accepted where nothing was missing
/// or unknown.
pub open spec fn runtime_outcome(ad: AdapterV, rs: Seq<RecordV>, r: RuntimeReport) -> bool {
    let g = ad.graph;
    let m = ad.mapping;
    if rs.len() == 0 {
        rejected_with(r, RuntimeIssueKind::EmptyJournal, None, None, "a runtime journal must contain an initial snapshot"@)
    } else if exists|a: int, s: int| #[trigger] field_gap(g, m, a, s) {
        exists|a: int, s: int| #[trigger] first_missing_field(g, m, a, s) && rejected_with(r, RuntimeIssueKind::MappingFieldMissing, None, None,
            "runtime mapping requires model field "@ + debug_text(m[a].0) + ", missing at state "@ + decimal(s as nat))
    } else if rs[0].action != JournalActionV::Initial {
        rejected_with(r, RuntimeIssueKind::FirstRecordIsNotInitial, Some(0usize), Some(rs[0].sequence), "record 0 must use the initial marker"@)
    } else {
        trace_outcome(g, m, rs, r)
    }
}

/// What following the records `rs` through `g` reports: the first break of
/// the trace, or the candidates after each record, accepted where nothing
/// was missing or unknown.
pub open spec fn trace_outcome(g: GraphV, m: Seq<(Seq<char>, Seq<char>)>, rs: Seq<RecordV>, r: RuntimeReport) -> bool {
    if exists|i: int| 0 <= i < rs.len() && #[trigger] breaks_at(g, m, rs, i) {
        exists|f: int| 0 <= f < rs.len() && #[trigger] breaks_at(g, m, rs, f) && (forall|i: int| 0 <= i < f ==> !#[trigger] breaks_at(g, m, rs, i))
            && broken_report(g, m, rs, f, r)
    } else {
        &&& r.issue is None
        &&& snapshots_upto(g, m, rs, rs.len(), id_views(r.candidate_states@))
        &&& uncertainties_upto(m, rs, rs.len() as int, uncertainty_views(r.uncertainties@))
        &&& r.verdict == if r.uncertainties@.len() == 0 { RuntimeVerdict::Accepted } else { RuntimeVerdict::Unknown }
    }
}

/// Renders the states of `v` as a set: `{0, 1}`.
fn set_string(v: &Vec<StateId>) -> (r: String)
    ensures
        r@ == set_text(v@),
{
    let mut acc = String::new();
    let mut i: usize = 0;
    proof {
        assert(v@.subrange(0, 0) =~= Seq::<StateId>::empty());
        assert(acc@ == list_text(v@.subrange(0, 0)));
    }
    while i < v.len()
        invariant
            i <= v@.len(),
            acc@ == list_text(v@.subrange(0, i as int)),
        decreases v@.len() - i,
    {
        let digits = crate::text::usize_string(v[i]);
        proof {
            assert(v@.subrange(0, i + 1).drop_last() =~= v@.subrange(0, i as int));
            assert(v@.subrange(0, i + 1).last() == v@[i as int]);
            reveal_strlit(", ");
        }
        if i == 0 {
            acc = digits;
            proof {
                assert(v@.subrange(0, 1)[0] == v@[0]);
            }
        } else {
            acc = acc.concat(", ");
            acc = acc.concat(digits.as_str());
        }
        i = i + 1;
    }
    proof {
        assert(v@.subrange(0, v@.len() as int) =~= v@);
        reveal_strlit("{");
        reveal_strlit("}");
    }
    let open = String::from_str("{");
    open.concat(acc.as_str()).concat("}")
}

/// A report that rejects at once, with no candidates and no uncertainties.
fn rejected(kind: RuntimeIssueKind, record_index: Option<usize>, sequence: Option<u64>, message: String) -> (r: RuntimeReport)
    ensures
        rejected_with(r, kind, record_index, sequence, message@),
{
    RuntimeReport {
        verdict: RuntimeVerdict::Rejected,
        candidate_states: Vec::new(),
        issue: Some(RuntimeIssue { kind, record_index, sequence, candidates_before: Vec::new(), message }),
        uncertainties: Vec::new(),
    }
}

impl<'a> RuntimeTraceAdapter<'a> {
    /// The first mapped model field that some state lacks, with the first
    /// state that lacks it.
    fn missing_field(&self) -> (r: Option<(usize, usize)>)
        ensures
            r is None ==> forall|a: int, s: int| !#[trigger] field_gap(self@.graph, self@.mapping, a, s),
            r matches Some((a, s)) ==> first_missing_field(self@.graph, self@.mapping, a as int, s as int),
    {
        let ghost g = self@.graph;
        let ghost m = self@.mapping;
        let entries = self.mapping.model_to_journal.entries();
        let states = self.graph.states();
        proof {
            assert(m == text_entries_view(entries_view(entries@)));
        }
        let mut a: usize = 0;
        while a < entries.len()
            invariant
                g == self@.graph,
                m == self@.mapping,
                m == text_entries_view(entries_view(entries@)),
                state_views(states@) == g.states,
                a <= entries@.len(),
                forall|a2: int, s2: int| 0 <= a2 < a ==> !#[trigger] field_gap(g, m, a2, s2),
            decreases entries@.len() - a,
        {
            let mf = entries[a].0.as_str();
            proof {
                assert(m[a as int].0 == mf@);
            }
            let mut s: usize = 0;
            while s < states.len()
                invariant
                    g == self@.graph,
                    m == self@.mapping,
                    state_views(states@) == g.states,
                    a < m.len(),
                    m[a as int].0 == mf@,
                    s <= states@.len(),
                    forall|a2: int, s2: int| 0 <= a2 < a ==> !#[trigger] field_gap(g, m, a2, s2),
                    forall|s2: int| 0 <= s2 < s ==> !#[trigger] field_gap(g, m, a as int, s2),
                decreases states@.len() - s,
            {
                proof {
                    assert(state_views(states@)[s as int] == states@[s as int]@);
                }
                if !states[s].contains_key(mf) {
                    return Some((a, s));
                }
                s = s + 1;
            }
            proof {
                assert forall|a2: int, s2: int| 0 <= a2 < a + 1 implies !#[trigger] field_gap(g, m, a2, s2) by {
                    if a2 == a && 0 <= s2 < g.states.len() {
                        assert(!field_gap(g, m, a as int, s2));
                    }
                }
            }
            a = a + 1;
        }
        proof {
            assert forall|a2: int, s2: int| !#[trigger] field_gap(g, m, a2, s2) by {
                if 0 <= a2 < m.len() {
                    assert(!field_gap(g, m, a2, s2));
                }
            }
        }
        None
    }

    /// The initial states whose known observations agree with `record`, in
    /// increasing order.
    fn initial_candidates(&self, record: &JournalRecord) -> (r: Vec<StateId>)
        ensures
            lists(r@, Set::new(|s: StateId| self@.graph.initial.contains(s) && observations_match(self@.graph, self@.mapping, s as int, record@))),
            forall|i: int| 0 <= i < r@.len() ==> r@[i] < self@.graph.states.len(),
    {
        proof {
            use_type_invariant(&self.graph);
        }
        let ghost g = self@.graph;
        let ghost m = self@.mapping;
        let init = self.graph.initial_states();
        let mut out: Vec<StateId> = Vec::new();
        let mut i: usize = 0;
        while i < init.len()
            invariant
                g == self@.graph,
                m == self@.mapping,
                graph_wf(g),
                init@ == g.initial,
                i <= init@.len(),
                strictly_increasing(out@),
                forall|j: int| 0 <= j < out@.len() ==> out@[j] < g.states.len(),
                forall|j: int, k: int| 0 <= j < out@.len() && i <= k < init@.len() ==> #[trigger] out@[j] < #[trigger] init@[k],
                forall|x: StateId| out@.contains(x) <==> (exists|k: int| 0 <= k < i && #[trigger] init@[k] == x)
                    && observations_match(g, m, x as int, record@),
            decreases init@.len() - i,
        {
            let s = init[i];
            if self.observations_agree(s, record) {
                let ghost before = out@;
                out.push(s);
                proof {
                    assert forall|x: StateId| out@.contains(x) <==> (exists|k: int| 0 <= k < i + 1 && #[trigger] init@[k] == x)
                        && observations_match(g, m, x as int, record@) by {
                        if out@.contains(x) {
                            let w = choose|w: int| 0 <= w < out@.len() && out@[w] == x;
                            if w < before.len() {
                                assert(before.contains(x));
                            } else {
                                assert(init@[i as int] == x);
                            }
                        }
                        if (exists|k: int| 0 <= k < i + 1 && #[trigger] init@[k] == x) && observations_match(g, m, x as int, record@) {
                            let k = choose|k: int| 0 <= k < i + 1 && #[trigger] init@[k] == x;
                            if k < i {
                                assert(before.contains(x));
                                let w = choose|w: int| 0 <= w < before.len() && before[w] == x;
                                assert(out@[w] == x);
                            } else {
                                assert(out@[before.len() as int] == x);
                            }
                        }
                    }
                }
            } else {
                proof {
                    assert forall|x: StateId| out@.contains(x) <==> (exists|k: int| 0 <= k < i + 1 && #[trigger] init@[k] == x)
                        && observations_match(g, m, x as int, record@) by {
                        if (exists|k: int| 0 <= k < i + 1 && #[trigger] init@[k] == x) && observations_match(g, m, x as int, record@) {
                            let k = choose|k: int| 0 <= k < i + 1 && #[trigger] init@[k] == x;
                            assert(k < i);
                        }
                    }
                }
            }
            i = i + 1;
        }
        proof {
            assert forall|x: StateId| out@.contains(x) <==> Set::new(|s: StateId| g.initial.contains(s) && observations_match(g, m, s as int, record@)).contains(x) by {
                if g.initial.contains(x) {
                    let k = choose|k: int| 0 <= k < g.initial.len() && g.initial[k] == x;
                    assert(init@[k] == x);
                }
                if exists|k: int| 0 <= k < init@.len() && #[trigger] init@[k] == x {
                    let k = choose|k: int| 0 <= k < init@.len() && #[trigger] init@[k] == x;
                    assert(g.initial[k] == x);
                }
            }
        }
        out
    }
}

/// The message of a sequence number that does not follow `previous`.
fn sequence_message(index: usize, sequence: u64, previous: u64) -> (r: String)
    ensures
        r@ == "record "@ + decimal(index as nat) + " has sequence "@ + decimal(sequence as nat) + ", expected "@
            + expectation_text(previous) + " for exact-step conformance"@,
{
    let expectation = if previous == u64::MAX {
        String::from_str("no successor because the previous sequence is u64::MAX")
    } else {
        crate::text::decimal_string(previous + 1)
    };
    String::from_str("record ").concat(crate::text::usize_string(index).as_str()).concat(" has sequence ")
        .concat(crate::text::decimal_string(sequence).as_str()).concat(", expected ").concat(expectation.as_str())
        .concat(" for exact-step conformance")
}

proof fn lemma_lists_set(v: Seq<StateId>, s: Set<StateId>)
    requires
        lists(v, s),
    ensures
        v.to_set() == s,
        v.len() == 0 <==> s == Set::<StateId>::empty(),
{
    assert(v.to_set() =~= s);
    if v.len() > 0 {
        assert(s.contains(v[0]));
    }
    if v.len() == 0 {
        assert(s =~= Set::<StateId>::empty());
    }
}

impl<'a> RuntimeTraceAdapter<'a> {
    /// Follows the records after the first from `first`, the candidates
    /// after record 0.
    fn follow(&self, journal: &[JournalRecord], first: Vec<StateId>, uncertainties: Vec<RuntimeUncertainty>) -> (r: RuntimeReport)
        requires
            journal@.len() > 0,
            lists(first@, candidates_at(self@.graph, self@.mapping, record_views(journal@), 0)),
            first@.len() > 0,
            forall|i: int| 0 <= i < first@.len() ==> first@[i] < self@.graph.states.len(),
            uncertainties_upto(self@.mapping, record_views(journal@), 1, uncertainty_views(uncertainties@)),
            forall|x: int| 0 <= x < uncertainties@.len() ==> uncertainties@[x].record_index < 1,
        ensures
            trace_outcome(self@.graph, self@.mapping, record_views(journal@), r),
    {
        let ghost g = self@.graph;
        let ghost m = self@.mapping;
        let ghost rs = record_views(journal@);
        let mut uncertainties = uncertainties;
        let mut candidates = first;
        let mut snapshots: Vec<Vec<StateId>> = Vec::new();
        snapshots.push(copy_ids(&candidates));
        proof {
            lemma_lists_set(candidates@, candidates_at(g, m, rs, 0));
            assert(!breaks_at(g, m, rs, 0));
            assert(id_views(snapshots@)[0] == candidates@);
        }
        let mut index: usize = 1;
        while index < journal.len()
            invariant
                g == self@.graph,
                m == self@.mapping,
                rs == record_views(journal@),
                1 <= index <= journal@.len(),
                forall|i: int| 0 <= i < index ==> !#[trigger] breaks_at(g, m, rs, i),
                lists(candidates@, candidates_at(g, m, rs, (index - 1) as nat)),
                forall|i: int| 0 <= i < candidates@.len() ==> candidates@[i] < g.states.len(),
                snapshots_upto(g, m, rs, index as nat, id_views(snapshots@)),
                uncertainties_upto(m, rs, index as int, uncertainty_views(uncertainties@)),
                forall|x: int| 0 <= x < uncertainties@.len() ==> uncertainties@[x].record_index < index,
            decreases journal@.len() - index,
        {
            let record = &journal[index];
            proof {
                assert(rs[index as int] == record@);
                assert(rs[index - 1] == journal@[index - 1]@);
            }
            let initial = match record.action {
                JournalAction::Initial => true,
                _ => false,
            };
            if initial {
                let issue = RuntimeIssue {
                    kind: RuntimeIssueKind::UnexpectedInitialMarker,
                    record_index: Some(index),
                    sequence: Some(record.sequence),
                    candidates_before: copy_ids(&candidates),
                    message: String::from_str("the initial marker may appear only at record 0"),
                };
                let r = RuntimeReport { verdict: RuntimeVerdict::Rejected, candidate_states: snapshots, issue: Some(issue), uncertainties };
                proof {
                    assert(breaks_at(g, m, rs, index as int));
                    assert(broken_report(g, m, rs, index as int, r));
                }
                return r;
            }
            let previous = journal[index - 1].sequence;
            if previous == u64::MAX || previous + 1 != record.sequence {
                let issue = RuntimeIssue {
                    kind: RuntimeIssueKind::NonConsecutiveSequence,
                    record_index: Some(index),
                    sequence: Some(record.sequence),
                    candidates_before: copy_ids(&candidates),
                    message: sequence_message(index, record.sequence, previous),
                };
                let r = RuntimeReport { verdict: RuntimeVerdict::Rejected, candidate_states: snapshots, issue: Some(issue), uncertainties };
                proof {
                    assert(breaks_at(g, m, rs, index as int));
                    assert(broken_report(g, m, rs, index as int, r));
                }
                return r;
            }
            let ghost old_u = uncertainty_views(uncertainties@);
            self.collect_uncertainty(&mut uncertainties, index, record);
            proof {
                assert forall|u: UncertaintyV| uncertainty_views(uncertainties@).contains(u) <==> uncertain(m, rs, index + 1, u) by {
                    assert(old_u.contains(u) <==> uncertain(m, rs, index as int, u));
                }
            }
            let next = self.successors(&candidates, record);
            proof {
                lemma_lists_set(candidates@, candidates_at(g, m, rs, (index - 1) as nat));
                assert(candidates_at(g, m, rs, index as nat) == Set::new(|t: StateId| step_to(g, m, candidates@.to_set(), record@, t)));
                lemma_lists_set(next@, candidates_at(g, m, rs, index as nat));
            }
            if next.len() == 0 {
                let text = set_string(&candidates);
                let message = String::from_str("record ").concat(crate::text::usize_string(index).as_str())
                    .concat(" action/observations match no transition from candidate states ").concat(text.as_str());
                let issue = RuntimeIssue {
                    kind: RuntimeIssueKind::NoMatchingTransition,
                    record_index: Some(index),
                    sequence: Some(record.sequence),
                    candidates_before: copy_ids(&candidates),
                    message,
                };
                let r = RuntimeReport { verdict: RuntimeVerdict::Rejected, candidate_states: snapshots, issue: Some(issue), uncertainties };
                proof {
                    assert(breaks_at(g, m, rs, index as int));
                    assert(broken_report(g, m, rs, index as int, r));
                }
                return r;
            }
            candidates = next;
            let ghost before = id_views(snapshots@);
            snapshots.push(copy_ids(&candidates));
            proof {
                assert(!breaks_at(g, m, rs, index as int));
                assert(id_views(snapshots@) =~= before.push(candidates@));
                assert forall|i: int| 0 <= i < index + 1 implies #[trigger] lists(id_views(snapshots@)[i], candidates_at(g, m, rs, i as nat)) by {
                    if i < index {
                        assert(id_views(snapshots@)[i] == before[i]);
                    }
                }
            }
            index = index + 1;
        }
        let verdict = if uncertainties.len() == 0 { RuntimeVerdict::Accepted } else { RuntimeVerdict::Unknown };
        RuntimeReport { verdict, candidate_states: snapshots, issue: None, uncertainties }
    }

    /// Checks `journal` record by record: the first record must be the
    /// initial snapshot, each later one the next sequence number and one
    /// model step; missing or unknown data keeps the verdict from
    /// `Accepted` but never rejects.
    pub fn check(&self, journal: &[JournalRecord]) -> (r: RuntimeReport)
        ensures
            runtime_outcome(self@, record_views(journal@), r),
    {
        let ghost g = self@.graph;
        let ghost m = self@.mapping;
        let ghost rs = record_views(journal@);
        if journal.len() == 0 {
            return rejected(RuntimeIssueKind::EmptyJournal, None, None,
                String::from_str("a runtime journal must contain an initial snapshot"));
        }
        match self.missing_field() {
            Some((a, s)) => {
                let entries = self.mapping.model_to_journal.entries();
                proof {
                    assert(m == text_entries_view(entries_view(entries@)));
                    assert(m[a as int].0 == entries@[a as int].0@);
                }
                let field = entries[a].0.as_str();
                let message = String::from_str("runtime mapping requires model field ").concat(crate::text::debug_string(field).as_str())
                    .concat(", missing at state ").concat(crate::text::usize_string(s).as_str());
                let r = rejected(RuntimeIssueKind::MappingFieldMissing, None, None, message);
                proof {
                    assert(r.issue->0.message@ =~= "runtime mapping requires model field "@ + debug_text(m[a as int].0) + ", missing at state "@
                        + decimal(s as nat));
                    assert(field_gap(g, m, a as int, s as int));
                }
                return r;
            },
            None => {},
        }
        proof {
            assert(rs[0] == journal@[0]@);
        }
        let initial = match journal[0].action {
            JournalAction::Initial => true,
            _ => false,
        };
        if !initial {
            return rejected(RuntimeIssueKind::FirstRecordIsNotInitial, Some(0), Some(journal[0].sequence),
                String::from_str("record 0 must use the initial marker"));
        }
        let mut uncertainties: Vec<RuntimeUncertainty> = Vec::new();
        self.collect_uncertainty(&mut uncertainties, 0, &journal[0]);
        proof {
            assert forall|u: UncertaintyV| uncertainty_views(uncertainties@).contains(u) <==> uncertain(m, rs, 1, u) by {
                assert(!uncertainty_views(Seq::<RuntimeUncertainty>::empty()).contains(u));
            }
        }
        let first = self.initial_candidates(&journal[0]);
        proof {
            assert(candidates_at(g, m, rs, 0) == Set::new(|s: StateId| g.initial.contains(s) && observations_match(g, m, s as int, rs[0])));
            lemma_lists_set(first@, candidates_at(g, m, rs, 0));
        }
        if first.len() == 0 {
            let mut snapshots: Vec<Vec<StateId>> = Vec::new();
            snapshots.push(Vec::new());
            let issue = RuntimeIssue {
                kind: RuntimeIssueKind::NoMatchingInitialState,
                record_index: Some(0),
                sequence: Some(journal[0].sequence),
                candidates_before: copy_ids(self.graph.initial_states()),
                message: String::from_str("known initial observations match no model initial state"),
            };
            let r = RuntimeReport { verdict: RuntimeVerdict::Rejected, candidate_states: snapshots, issue: Some(issue), uncertainties };
            proof {
                assert(breaks_at(g, m, rs, 0));
                assert(id_views(r.candidate_states@) =~= seq![Seq::<StateId>::empty()]);
                assert(broken_report(g, m, rs, 0, r));
            }
            return r;
        }
        self.follow(journal, first, uncertainties)
    }
}


/// A record of a known action `x` moves the candidates only along model
/// transitions of exactly the action `x`, and a recorded identity stutter
/// only along identity stutters: in every report, each candidate after such
/// a record is the target of such a transition from a candidate after the
/// record before. Every candidate agrees with each known observation of its
/// record on the mapped fields.
pub proof fn recorded_actions_follow_their_label(ad: AdapterV, rs: Seq<RecordV>, r: RuntimeReport)
    requires
        runtime_outcome(ad, rs, r),
    ensures
        forall|i: int, t: StateId| 0 < i < r.candidate_states@.len() && #[trigger] r.candidate_states@[i]@.contains(t)
            ==> match rs[i].action {
            JournalActionV::Action(x) => exists|k: int| 0 <= k < ad.graph.transitions.len()
                && #[trigger] ad.graph.transitions[k].to == t && ad.graph.transitions[k].kind == KindV::Action(x)
                && r.candidate_states@[i - 1]@.contains(ad.graph.transitions[k].from),
            JournalActionV::IdentityStutter => exists|k: int| 0 <= k < ad.graph.transitions.len()
                && #[trigger] ad.graph.transitions[k].to == t && ad.graph.transitions[k].kind == KindV::IdentityStutter
                && r.candidate_states@[i - 1]@.contains(ad.graph.transitions[k].from),
            _ => true,
        },
        forall|i: int, t: StateId, j: int| 0 <= i < r.candidate_states@.len() && #[trigger] r.candidate_states@[i]@.contains(t)
            && 0 <= j < ad.mapping.len() ==> match #[trigger] lookup(rs[i].observations, ad.mapping[j].1) {
                Some(JournalValueV::Known(v)) => lookup(ad.graph.states[t as int], ad.mapping[j].0) == Some(v),
                _ => true,
            },
{
    let g = ad.graph;
    let m = ad.mapping;
    let n: nat = if rs.len() > 0 && !(exists|a: int, s: int| #[trigger] field_gap(g, m, a, s)) && rs[0].action == JournalActionV::Initial
        && exists|f: int| 0 <= f < rs.len() && #[trigger] breaks_at(g, m, rs, f) {
        (choose|f: int| 0 <= f < rs.len() && #[trigger] breaks_at(g, m, rs, f) && (forall|j: int| 0 <= j < f ==> !#[trigger] breaks_at(g, m, rs, j))
            && broken_report(g, m, rs, f, r)) as nat
    } else {
        rs.len()
    };
    let v = id_views(r.candidate_states@);
    // Where candidates are listed beyond the first record, the report follows the trace.
    assert forall|i: int| 0 < i < r.candidate_states@.len() implies #[trigger] lists(v[i], candidates_at(g, m, rs, i as nat))
        && v[i] == r.candidate_states@[i]@ by {
        assert(snapshots_upto(g, m, rs, n, v));
    }
    assert forall|i: int, t: StateId| 0 < i < r.candidate_states@.len() && #[trigger] r.candidate_states@[i]@.contains(t)
        implies match rs[i].action {
            JournalActionV::Action(x) => exists|k: int| 0 <= k < g.transitions.len()
                && #[trigger] g.transitions[k].to == t && g.transitions[k].kind == KindV::Action(x)
                && r.candidate_states@[i - 1]@.contains(g.transitions[k].from),
            JournalActionV::IdentityStutter => exists|k: int| 0 <= k < g.transitions.len()
                && #[trigger] g.transitions[k].to == t && g.transitions[k].kind == KindV::IdentityStutter
                && r.candidate_states@[i - 1]@.contains(g.transitions[k].from),
            _ => true,
        } by {
        if rs[i].action is Action || rs[i].action is IdentityStutter {
            assert(lists(v[i], candidates_at(g, m, rs, i as nat)));
            assert(snapshots_upto(g, m, rs, n, v));
            assert(v[i - 1] == r.candidate_states@[i - 1]@);
            assert(lists(v[i - 1], candidates_at(g, m, rs, (i - 1) as nat)));
            assert(candidates_at(g, m, rs, i as nat).contains(t));
            assert(step_to(g, m, candidates_at(g, m, rs, (i - 1) as nat), rs[i], t));
            let k = choose|k: int| 0 <= k < g.transitions.len() && #[trigger] candidates_at(g, m, rs, (i - 1) as nat).contains(g.transitions[k].from)
                && g.transitions[k].to == t && action_matches(rs[i].action, g.transitions[k].kind) && observations_match(g, m, t as int, rs[i]);
            assert(v[i - 1].contains(g.transitions[k].from));
        }
    }
    assert forall|i: int, t: StateId, j: int| 0 <= i < r.candidate_states@.len() && #[trigger] r.candidate_states@[i]@.contains(t)
        && 0 <= j < m.len() implies match #[trigger] lookup(rs[i].observations, m[j].1) {
            Some(JournalValueV::Known(w)) => lookup(g.states[t as int], m[j].0) == Some(w),
            _ => true,
        } by {
        assert(snapshots_upto(g, m, rs, n, v) || (id_views(r.candidate_states@) == seq![Seq::<StateId>::empty()]));
        if i > 0 || v[i].len() > 0 {
            assert(v[i] == r.candidate_states@[i]@);
            assert(v[i].contains(t));
            assert(snapshots_upto(g, m, rs, n, v));
            assert(lists(v[i], candidates_at(g, m, rs, i as nat)));
            assert(candidates_at(g, m, rs, i as nat).contains(t));
            if i == 0 {
                assert(observations_match(g, m, t as int, rs[0]));
            } else {
                let k = choose|k: int| 0 <= k < g.transitions.len() && #[trigger] candidates_at(g, m, rs, (i - 1) as nat).contains(g.transitions[k].from)
                    && g.transitions[k].to == t && action_matches(rs[i].action, g.transitions[k].kind) && observations_match(g, m, t as int, rs[i]);
            }
            assert(field_matches(g, t as int, rs[i].observations, m[j].0, m[j].1));
        } else {
            assert(v[i] == r.candidate_states@[i]@);
            assert(v[i].contains(t));
        }
    }
}

} // verus!
