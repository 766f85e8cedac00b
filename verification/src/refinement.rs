//! One-step forward simulation between finite graphs, and finite
//! observation-trace inclusion along concrete paths.

use vstd::prelude::*;
use crate::graph::{
    FiniteGraph, GraphV, KindV, ModelState, StateId, TransitionId, TransitionKind, TransitionV, ValueV, graph_wf,
};
use crate::observation::{
    ActionHiding, ObservationError, ObservationMap, is_observation, observable, observation_of, lemma_observation_of,
    opt_text, first_unobserved, lemma_first_unobserved,
};
use crate::graph::{state_debug, transition_valid};
use crate::smap::has_key;
use crate::text::{debug_text, decimal};
use crate::smap::lookup;
use crate::text::usize_string;

verus! {

/// A refinement witness: a total map from concrete to abstract states, the
/// observations compared on both sides, and the action hiding/renaming.
#[derive(Clone, Debug, PartialEq, Eq)]
pub struct RefinementSpec {
    /// Total concrete-state-indexed mapping into the abstract graph.
    pub state_map: Vec<StateId>,
    pub concrete_observation: ObservationMap,
    pub abstract_observation: ObservationMap,
    pub actions: ActionHiding,
}

/// The mathematical content of a refinement witness.
pub struct RefinementSpecV {
    pub state_map: Seq<StateId>,
    pub concrete_observation: Seq<(Seq<char>, Seq<char>)>,
    pub abstract_observation: Seq<(Seq<char>, Seq<char>)>,
    pub actions: Seq<(Seq<char>, Option<Seq<char>>)>,
}

impl View for RefinementSpec {
    type V = RefinementSpecV;

    open spec fn view(&self) -> RefinementSpecV {
        RefinementSpecV {
            state_map: self.state_map@,
            concrete_observation: self.concrete_observation@,
            abstract_observation: self.abstract_observation@,
            actions: self.actions@,
        }
    }
}

#[derive(Clone, Copy, Debug, PartialEq, Eq, Structural)]
pub enum RefinementMismatchKind {
    StateMapLength,
    AbstractStateOutOfRange,
    InitialStateNotPreserved,
    ObservationUndefined,
    ObservationMismatch,
    ActionUnmapped,
    HiddenStepChangesAbstractState,
    VisibleStepMissing,
}

#[derive(Clone, Debug, PartialEq, Eq)]
pub struct RefinementMismatch {
    pub kind: RefinementMismatchKind,
    pub concrete_state: Option<StateId>,
    pub concrete_transition: Option<TransitionId>,
    pub mapped_from: Option<StateId>,
    pub mapped_to: Option<StateId>,
    pub expected_abstract_action: Option<String>,
    pub message: String,
}

/// What a mismatch locates, and its message.
pub struct MismatchV {
    pub kind: RefinementMismatchKind,
    pub concrete_state: Option<StateId>,
    pub concrete_transition: Option<TransitionId>,
    pub mapped_from: Option<StateId>,
    pub mapped_to: Option<StateId>,
    pub expected_abstract_action: Option<Seq<char>>,
    pub message: Seq<char>,
}

impl View for RefinementMismatch {
    type V = MismatchV;

    open spec fn view(&self) -> MismatchV {
        MismatchV {
            kind: self.kind,
            concrete_state: self.concrete_state,
            concrete_transition: self.concrete_transition,
            mapped_from: self.mapped_from,
            mapped_to: self.mapped_to,
            expected_abstract_action: opt_text(self.expected_abstract_action),
            message: self.message@,
        }
    }
}

#[derive(Clone, Debug, PartialEq, Eq)]
pub struct RefinementReport {
    pub accepted: bool,
    pub checked_states: usize,
    pub checked_transitions: usize,
    pub mismatches: Vec<RefinementMismatch>,
}

pub open spec fn mismatch_views(s: Seq<RefinementMismatch>) -> Seq<MismatchV> {
    s.map_values(|m: RefinementMismatch| m@)
}

pub open spec fn mv(
    kind: RefinementMismatchKind,
    concrete_state: Option<StateId>,
    concrete_transition: Option<TransitionId>,
    mapped_from: Option<StateId>,
    mapped_to: Option<StateId>,
    expected_abstract_action: Option<Seq<char>>,
    message: Seq<char>,
) -> MismatchV {
    MismatchV { kind, concrete_state, concrete_transition, mapped_from, mapped_to, expected_abstract_action, message }
}

/// The message of a state mapped outside the abstract graph.
pub open spec fn out_of_range_text(s: nat, m: nat) -> Seq<char> {
    "concrete state "@ + decimal(s) + " maps to missing abstract state "@ + decimal(m)
}

/// The message of an observation that is undefined for lack of field `f`.
pub open spec fn undefined_text(s: nat, m: nat, f: Seq<char>) -> Seq<char> {
    "observation is undefined at concrete state "@ + decimal(s) + " / abstract state "@ + decimal(m)
        + ": "@ + "state does not contain observed source field "@ + debug_text(f)
}

/// The message of two differing observations.
pub open spec fn differs_text(s: nat, m: nat, x: Seq<(Seq<char>, ValueV)>, y: Seq<(Seq<char>, ValueV)>) -> Seq<char> {
    "observation of concrete state "@ + decimal(s) + " differs from mapped abstract state "@ + decimal(m) + ": "@
        + state_debug(x) + " != "@ + state_debug(y)
}

/// The field that makes an observation at `s` or at its image `m` undefined:
/// the concrete side's first missing source field, else the abstract side's.
pub open spec fn undefined_field(c: GraphV, a: GraphV, sp: RefinementSpecV, s: int, m: int) -> Seq<char> {
    if !observable(sp.concrete_observation, c.states[s]) {
        first_unobserved(sp.concrete_observation, c.states[s])
    } else {
        first_unobserved(sp.abstract_observation, a.states[m])
    }
}

/// The abstract graph has a step `from -[action]-> to`.
pub open spec fn abstract_step(a: GraphV, from: StateId, to: StateId, action: Seq<char>) -> bool {
    exists|j: int| 0 <= j < a.transitions.len() && #[trigger] a.transitions[j] == (TransitionV { from, to, kind: KindV::Action(action) })
}

/// What is wrong at concrete state `s`: its image is missing, or the two
/// observations are undefined or differ.
pub open spec fn state_mismatch(c: GraphV, a: GraphV, sp: RefinementSpecV, s: int) -> Seq<MismatchV> {
    if s >= sp.state_map.len() {
        Seq::empty()
    } else {
        let m = sp.state_map[s];
        if m >= a.states.len() {
            seq![mv(RefinementMismatchKind::AbstractStateOutOfRange, Some(s as StateId), None, Some(m), None, None,
                out_of_range_text(s as nat, m as nat))]
        } else if !observable(sp.concrete_observation, c.states[s]) || !observable(sp.abstract_observation, a.states[m as int]) {
            seq![mv(RefinementMismatchKind::ObservationUndefined, Some(s as StateId), None, Some(m), None, None,
                undefined_text(s as nat, m as nat, undefined_field(c, a, sp, s, m as int)))]
        } else if observation_of(sp.concrete_observation, c.states[s]) != observation_of(sp.abstract_observation, a.states[m as int]) {
            seq![mv(RefinementMismatchKind::ObservationMismatch, Some(s as StateId), None, Some(m), None, None,
                differs_text(s as nat, m as nat, observation_of(sp.concrete_observation, c.states[s]),
                    observation_of(sp.abstract_observation, a.states[m as int])))]
        } else {
            Seq::empty()
        }
    }
}

pub open spec fn state_mismatches(c: GraphV, a: GraphV, sp: RefinementSpecV, n: nat) -> Seq<MismatchV>
    decreases n,
{
    if n == 0 {
        Seq::empty()
    } else {
        state_mismatches(c, a, sp, (n - 1) as nat) + state_mismatch(c, a, sp, n - 1)
    }
}

/// The `i`-th concrete initial state maps to an abstract state that is not initial.
pub open spec fn initial_mismatch(c: GraphV, a: GraphV, sp: RefinementSpecV, i: int) -> Seq<MismatchV> {
    let ci = c.initial[i];
    if ci < sp.state_map.len() && sp.state_map[ci as int] < a.states.len() && !a.initial.contains(sp.state_map[ci as int]) {
        seq![mv(RefinementMismatchKind::InitialStateNotPreserved, Some(ci), None, Some(sp.state_map[ci as int]), None, None,
            "concrete initial state "@ + decimal(ci as nat) + " maps to non-initial abstract state "@ + decimal(sp.state_map[ci as int] as nat))]
    } else {
        Seq::empty()
    }
}

pub open spec fn initial_mismatches(c: GraphV, a: GraphV, sp: RefinementSpecV, n: nat) -> Seq<MismatchV>
    decreases n,
{
    if n == 0 {
        Seq::empty()
    } else {
        initial_mismatches(c, a, sp, (n - 1) as nat) + initial_mismatch(c, a, sp, n - 1)
    }
}

/// What is wrong with concrete transition `k`, once both endpoints have images.
pub open spec fn transition_mismatch(c: GraphV, a: GraphV, sp: RefinementSpecV, k: int) -> Seq<MismatchV> {
    let t = c.transitions[k];
    match t.kind {
        KindV::IdentityStutter => Seq::empty(),
        KindV::Action(act) => {
            if t.from >= sp.state_map.len() || t.to >= sp.state_map.len() {
                Seq::empty()
            } else {
                let mf = sp.state_map[t.from as int];
                let mt = sp.state_map[t.to as int];
                if mf >= a.states.len() || mt >= a.states.len() {
                    Seq::empty()
                } else {
                    match lookup(sp.actions, act) {
                        None => seq![mv(RefinementMismatchKind::ActionUnmapped, Some(t.from), Some(k as TransitionId), Some(mf), Some(mt), None,
                            "concrete transition "@ + decimal(k as nat) + " uses action "@ + debug_text(act) + ", which has no refinement mapping"@)],
                        Some(None) => if mf != mt {
                            seq![mv(RefinementMismatchKind::HiddenStepChangesAbstractState, Some(t.from), Some(k as TransitionId), Some(mf), Some(mt), None,
                                "hidden concrete transition "@ + decimal(k as nat) + " maps abstract state "@ + decimal(mf as nat)
                                    + " to distinct state "@ + decimal(mt as nat))]
                        } else {
                            Seq::empty()
                        },
                        Some(Some(aa)) => if abstract_step(a, mf, mt, aa) {
                            Seq::empty()
                        } else {
                            seq![mv(RefinementMismatchKind::VisibleStepMissing, Some(t.from), Some(k as TransitionId), Some(mf), Some(mt), Some(aa),
                                "concrete transition "@ + decimal(k as nat) + " requires abstract step "@ + decimal(mf as nat) + " -["@ + aa
                                    + "]-> "@ + decimal(mt as nat) + ", but none exists"@)]
                        },
                    }
                }
            }
        },
    }
}

pub open spec fn transition_mismatches(c: GraphV, a: GraphV, sp: RefinementSpecV, n: nat) -> Seq<MismatchV>
    decreases n,
{
    if n == 0 {
        Seq::empty()
    } else {
        transition_mismatches(c, a, sp, (n - 1) as nat) + transition_mismatch(c, a, sp, n - 1)
    }
}

/// Every mismatch of the witness `sp` between `c` and `a`, in report order:
/// the map length, then states, initial states, and transitions in order.
pub open spec fn refinement_mismatches(c: GraphV, a: GraphV, sp: RefinementSpecV) -> Seq<MismatchV> {
    (if sp.state_map.len() != c.states.len() {
        seq![mv(RefinementMismatchKind::StateMapLength, None, None, None, None, None,
            "state map has "@ + decimal(sp.state_map.len()) + " entries for "@ + decimal(c.states.len()) + " concrete states"@)]
    } else {
        Seq::empty()
    })
        + state_mismatches(c, a, sp, c.states.len())
        + initial_mismatches(c, a, sp, c.initial.len())
        + transition_mismatches(c, a, sp, c.transitions.len())
}

/// `sp` witnesses a one-step forward simulation from `c` to `a` that
/// preserves observations.
pub open spec fn simulates(c: GraphV, a: GraphV, sp: RefinementSpecV) -> bool {
    &&& sp.state_map.len() == c.states.len()
    &&& forall|s: int| 0 <= s < c.states.len() ==> {
        let m = #[trigger] sp.state_map[s];
        &&& m < a.states.len()
        &&& observable(sp.concrete_observation, c.states[s])
        &&& observable(sp.abstract_observation, a.states[m as int])
        &&& observation_of(sp.concrete_observation, c.states[s]) == observation_of(sp.abstract_observation, a.states[m as int])
    }
    &&& forall|i: int| 0 <= i < c.initial.len() ==> a.initial.contains(sp.state_map[#[trigger] c.initial[i] as int])
    &&& forall|k: int| 0 <= k < c.transitions.len() ==> match (#[trigger] c.transitions[k]).kind {
        KindV::IdentityStutter => true,
        KindV::Action(act) => {
            let mf = sp.state_map[c.transitions[k].from as int];
            let mt = sp.state_map[c.transitions[k].to as int];
            match lookup(sp.actions, act) {
                None => false,
                Some(None) => mf == mt,
                Some(Some(aa)) => abstract_step(a, mf, mt, aa),
            }
        },
    }
}

proof fn lemma_prefix_empty_state(c: GraphV, a: GraphV, sp: RefinementSpecV, n: nat)
    requires
        state_mismatches(c, a, sp, n).len() == 0,
    ensures
        forall|s: int| 0 <= s < n ==> #[trigger] state_mismatch(c, a, sp, s).len() == 0,
    decreases n,
{
    if n > 0 {
        lemma_prefix_empty_state(c, a, sp, (n - 1) as nat);
    }
}

proof fn lemma_prefix_empty_initial(c: GraphV, a: GraphV, sp: RefinementSpecV, n: nat)
    requires
        initial_mismatches(c, a, sp, n).len() == 0,
    ensures
        forall|i: int| 0 <= i < n ==> #[trigger] initial_mismatch(c, a, sp, i).len() == 0,
    decreases n,
{
    if n > 0 {
        lemma_prefix_empty_initial(c, a, sp, (n - 1) as nat);
    }
}

proof fn lemma_prefix_empty_transition(c: GraphV, a: GraphV, sp: RefinementSpecV, n: nat)
    requires
        transition_mismatches(c, a, sp, n).len() == 0,
    ensures
        forall|k: int| 0 <= k < n ==> #[trigger] transition_mismatch(c, a, sp, k).len() == 0,
    decreases n,
{
    if n > 0 {
        lemma_prefix_empty_transition(c, a, sp, (n - 1) as nat);
    }
}

/// A witness with no mismatch on a well-formed concrete graph is a
/// one-step, observation-preserving forward simulation.
pub proof fn accepted_refinement_simulates(c: GraphV, a: GraphV, sp: RefinementSpecV)
    requires
        graph_wf(c),
        refinement_mismatches(c, a, sp).len() == 0,
    ensures
        simulates(c, a, sp),
{
    let head = if sp.state_map.len() != c.states.len() {
        seq![mv(RefinementMismatchKind::StateMapLength, None, None, None, None, None,
            "state map has "@ + decimal(sp.state_map.len()) + " entries for "@ + decimal(c.states.len()) + " concrete states"@)]
    } else {
        Seq::empty()
    };
    lemma_prefix_empty_state(c, a, sp, c.states.len());
    lemma_prefix_empty_initial(c, a, sp, c.initial.len());
    lemma_prefix_empty_transition(c, a, sp, c.transitions.len());
    assert forall|s: int| 0 <= s < c.states.len() implies {
        let m = #[trigger] sp.state_map[s];
        &&& m < a.states.len()
        &&& observable(sp.concrete_observation, c.states[s])
        &&& observable(sp.abstract_observation, a.states[m as int])
        &&& observation_of(sp.concrete_observation, c.states[s]) == observation_of(sp.abstract_observation, a.states[m as int])
    } by {
        assert(state_mismatch(c, a, sp, s).len() == 0);
    }
    assert forall|i: int| 0 <= i < c.initial.len() implies a.initial.contains(sp.state_map[#[trigger] c.initial[i] as int]) by {
        assert(initial_mismatch(c, a, sp, i).len() == 0);
        let ci = c.initial[i];
        assert(state_mismatch(c, a, sp, ci as int).len() == 0);
    }
    assert forall|k: int| 0 <= k < c.transitions.len() implies match (#[trigger] c.transitions[k]).kind {
        KindV::IdentityStutter => true,
        KindV::Action(act) => {
            let mf = sp.state_map[c.transitions[k].from as int];
            let mt = sp.state_map[c.transitions[k].to as int];
            match lookup(sp.actions, act) {
                None => false,
                Some(None) => mf == mt,
                Some(Some(aa)) => abstract_step(a, mf, mt, aa),
            }
        },
    } by {
        assert(transition_mismatch(c, a, sp, k).len() == 0);
        let t = c.transitions[k];
        assert(crate::graph::transition_valid(t, c.states.len()));
        assert(state_mismatch(c, a, sp, t.from as int).len() == 0);
        assert(state_mismatch(c, a, sp, t.to as int).len() == 0);
    }
}

fn mismatch(
    kind: RefinementMismatchKind,
    concrete_state: Option<StateId>,
    concrete_transition: Option<TransitionId>,
    mapped_from: Option<StateId>,
    mapped_to: Option<StateId>,
    expected_abstract_action: Option<String>,
    message: String,
) -> (r: RefinementMismatch)
    ensures
        r@ == mv(kind, concrete_state, concrete_transition, mapped_from, mapped_to, opt_text(expected_abstract_action), message@),
{
    RefinementMismatch { kind, concrete_state, concrete_transition, mapped_from, mapped_to, expected_abstract_action, message }
}

/// Whether `a` has a step `from -[action]-> to`.
pub fn has_abstract_step(a: &FiniteGraph, from: StateId, to: StateId, action: &str) -> (r: bool)
    requires
        from < a@.states.len(),
    ensures
        r == abstract_step(a@, from, to, action@),
{
    proof {
        use_type_invariant(a);
    }
    let out = a.outgoing_ids(from);
    let mut k: usize = 0;
    while k < out.len()
        invariant
            graph_wf(a@),
            from < a@.states.len(),
            out@ == a@.outgoing[from as int],
            k <= out@.len(),
            forall|j: int| 0 <= j < k ==> a@.transitions[#[trigger] out@[j] as int] != (TransitionV { from, to, kind: KindV::Action(action@) }),
        decreases out@.len() - k,
    {
        let t = a.transition(out[k]);
        if t.to == to && t.kind.is_action(action) {
            proof {
                assert(a@.transitions[out@[k as int] as int].from == from);
            }
            return true;
        }
        k = k + 1;
    }
    proof {
        if abstract_step(a@, from, to, action@) {
            let i = choose|i: int| 0 <= i < a@.transitions.len() && #[trigger] a@.transitions[i] == (TransitionV { from, to, kind: KindV::Action(action@) });
            assert(a@.outgoing[a@.transitions[i].from as int].contains(i as usize));
            let j = choose|j: int| 0 <= j < out@.len() && out@[j] == i as usize;
            assert(a@.transitions[out@[j] as int] == a@.transitions[i]);
        }
    }
    false
}

/// The mismatch of an observation that is undefined because `state` lacks
/// a source field of `fields`, as reported by `e`.
fn undefined_mismatch(s: StateId, m: StateId, e: ObservationError, Ghost(fields): Ghost<Seq<(Seq<char>, Seq<char>)>>,
    Ghost(state): Ghost<Seq<(Seq<char>, ValueV)>>) -> (r: RefinementMismatch)
    requires
        e matches ObservationError::MissingSourceField(f) && exists|i: int| 0 <= i < fields.len()
            && fields[i].0 == f@ && !has_key(state, f@) && forall|j: int| 0 <= j < i ==> has_key(state, #[trigger] fields[j].0),
    ensures
        r@ == mv(RefinementMismatchKind::ObservationUndefined, Some(s), None, Some(m), None, None,
            undefined_text(s as nat, m as nat, first_unobserved(fields, state))),
{
    let head = crate::text::two_numbers("observation is undefined at concrete state ", s, " / abstract state ", m, ": ");
    let detail = e.message();
    let message = head.concat(detail.as_str());
    proof {
        reveal_strlit("");
        let f = e->MissingSourceField_0;
        let i = choose|i: int| 0 <= i < fields.len() && fields[i].0 == f@ && !has_key(state, f@)
            && forall|j: int| 0 <= j < i ==> has_key(state, #[trigger] fields[j].0);
        lemma_first_unobserved(fields, state, i);
        assert(message@ =~= undefined_text(s as nat, m as nat, first_unobserved(fields, state)));
    }
    mismatch(RefinementMismatchKind::ObservationUndefined, Some(s), None, Some(m), None, None, message)
}

fn check_state(c: &FiniteGraph, a: &FiniteGraph, spec: &RefinementSpec, s: StateId) -> (r: Option<RefinementMismatch>)
    requires
        s < c@.states.len(),
    ensures
        match r {
            Some(m) => seq![m@],
            None => Seq::<MismatchV>::empty(),
        } == state_mismatch(c@, a@, spec@, s as int),
{
    if s >= spec.state_map.len() {
        return None;
    }
    let m = spec.state_map[s];
    if m >= a.state_count() {
        let message = crate::text::two_numbers("concrete state ", s, " maps to missing abstract state ", m, "");
        proof {
            reveal_strlit("");
            assert(message@ =~= out_of_range_text(s as nat, m as nat));
        }
        return Some(mismatch(RefinementMismatchKind::AbstractStateOutOfRange, Some(s), None, Some(m), None, None, message));
    }
    let co = spec.concrete_observation.observe(c.state(s));
    let ao = spec.abstract_observation.observe(a.state(m));
    match co {
        Err(e) => Some(undefined_mismatch(s, m, e, Ghost(spec@.concrete_observation), Ghost(c@.states[s as int]))),
        Ok(x) => match ao {
            Err(e) => Some(undefined_mismatch(s, m, e, Ghost(spec@.abstract_observation), Ghost(a@.states[m as int]))),
            Ok(y) => {
                proof {
                    lemma_observation_of(spec@.concrete_observation, c@.states[s as int], x@);
                    lemma_observation_of(spec@.abstract_observation, a@.states[m as int], y@);
                }
                if x.same(&y) {
                    None
                } else {
                    let head = crate::text::two_numbers("observation of concrete state ", s, " differs from mapped abstract state ", m, ": ");
                    let message = head.concat(x.debug_string().as_str()).concat(" != ").concat(y.debug_string().as_str());
                    proof {
                        assert(message@ =~= differs_text(s as nat, m as nat, x@, y@));
                    }
                    Some(mismatch(RefinementMismatchKind::ObservationMismatch, Some(s), None, Some(m), None, None, message))
                }
            },
        },
    }
}

fn check_initial(c: &FiniteGraph, a: &FiniteGraph, spec: &RefinementSpec, i: usize) -> (r: Option<RefinementMismatch>)
    requires
        i < c@.initial.len(),
    ensures
        match r {
            Some(m) => seq![m@],
            None => Seq::<MismatchV>::empty(),
        } == initial_mismatch(c@, a@, spec@, i as int),
{
    let ci = c.initial_states()[i];
    if ci >= spec.state_map.len() {
        return None;
    }
    let m = spec.state_map[ci];
    if m >= a.state_count() {
        return None;
    }
    let inits = a.initial_states();
    let mut j: usize = 0;
    while j < inits.len()
        invariant
            j <= inits@.len(),
            inits@ == a@.initial,
            forall|x: int| 0 <= x < j ==> inits@[x] != m,
        decreases inits@.len() - j,
    {
        if inits[j] == m {
            proof {
                assert(a@.initial.contains(m));
            }
            return None;
        }
        j = j + 1;
    }
    let message = crate::text::two_numbers("concrete initial state ", ci, " maps to non-initial abstract state ", m, "");
    proof {
        reveal_strlit("");
        assert(message@ =~= "concrete initial state "@ + decimal(ci as nat) + " maps to non-initial abstract state "@ + decimal(m as nat));
    }
    Some(mismatch(RefinementMismatchKind::InitialStateNotPreserved, Some(ci), None, Some(m), None, None, message))
}

fn check_transition(c: &FiniteGraph, a: &FiniteGraph, spec: &RefinementSpec, k: TransitionId) -> (r: Option<RefinementMismatch>)
    requires
        k < c@.transitions.len(),
    ensures
        match r {
            Some(m) => seq![m@],
            None => Seq::<MismatchV>::empty(),
        } == transition_mismatch(c@, a@, spec@, k as int),
{
    let t = c.transition(k);
    let action = match &t.kind {
        TransitionKind::IdentityStutter => {
            return None;
        },
        TransitionKind::Action(action) => action,
    };
    if t.from >= spec.state_map.len() || t.to >= spec.state_map.len() {
        return None;
    }
    let mf = spec.state_map[t.from];
    let mt = spec.state_map[t.to];
    let n = a.state_count();
    if mf >= n || mt >= n {
        return None;
    }
    match spec.actions.get(action.as_str()) {
        None => {
            let message = crate::text::number_between("concrete transition ", k, " uses action ")
                .concat(crate::text::debug_string(action.as_str()).as_str()).concat(", which has no refinement mapping");
            assert(message@ =~= "concrete transition "@ + decimal(k as nat) + " uses action "@ + debug_text(action@)
                + ", which has no refinement mapping"@);
            Some(mismatch(RefinementMismatchKind::ActionUnmapped, Some(t.from), Some(k), Some(mf), Some(mt), None, message))
        },
        Some(None) => {
            if mf != mt {
                let message = crate::text::number_between("hidden concrete transition ", k, " maps abstract state ")
                    .concat(crate::text::usize_string(mf).as_str()).concat(" to distinct state ")
                    .concat(crate::text::usize_string(mt).as_str());
                assert(message@ =~= "hidden concrete transition "@ + decimal(k as nat) + " maps abstract state "@ + decimal(mf as nat)
                    + " to distinct state "@ + decimal(mt as nat));
                Some(mismatch(RefinementMismatchKind::HiddenStepChangesAbstractState, Some(t.from), Some(k), Some(mf), Some(mt), None, message))
            } else {
                None
            }
        },
        Some(Some(aa)) => {
            if has_abstract_step(a, mf, mt, aa) {
                None
            } else {
                let message = crate::text::two_numbers("concrete transition ", k, " requires abstract step ", mf, " -[")
                    .concat(aa).concat("]-> ").concat(crate::text::usize_string(mt).as_str()).concat(", but none exists");
                assert(message@ =~= "concrete transition "@ + decimal(k as nat) + " requires abstract step "@ + decimal(mf as nat) + " -["@
                    + aa@ + "]-> "@ + decimal(mt as nat) + ", but none exists"@);
                Some(mismatch(RefinementMismatchKind::VisibleStepMissing, Some(t.from), Some(k), Some(mf), Some(mt), Some(aa.to_owned()), message))
            }
        },
    }
}

pub struct RefinementChecker;

impl RefinementChecker {
    /// Checks a finite one-step forward simulation with observation
    /// preservation, reporting every mismatch. Acceptance says nothing of
    /// liveness: fairness transport, hidden divergence, resources, and
    /// environment assumptions are separate obligations.
    #[verifier::rlimit(80)]
    #[verifier::spinoff_prover]
    pub fn check(concrete: &FiniteGraph, abstract_graph: &FiniteGraph, spec: &RefinementSpec) -> (r: RefinementReport)
        ensures
            mismatch_views(r.mismatches@) == refinement_mismatches(concrete@, abstract_graph@, spec@),
            r.accepted == (refinement_mismatches(concrete@, abstract_graph@, spec@).len() == 0),
            r.checked_states == concrete@.states.len(),
            r.checked_transitions == concrete@.transitions.len(),
    {
        let ghost c = concrete@;
        let ghost a = abstract_graph@;
        let ghost sp = spec@;
        let mut mismatches: Vec<RefinementMismatch> = Vec::new();
        let n = concrete.state_count();
        if spec.state_map.len() != n {
            let message = crate::text::two_numbers("state map has ", spec.state_map.len(), " entries for ", n, " concrete states");
            assert(message@ =~= "state map has "@ + decimal(spec@.state_map.len()) + " entries for "@ + decimal(c.states.len())
                + " concrete states"@);
            mismatches.push(mismatch(RefinementMismatchKind::StateMapLength, None, None, None, None, None, message));
        }
        let ghost head = mismatch_views(mismatches@);
        proof {
            assert(state_mismatches(c, a, sp, 0) =~= Seq::<MismatchV>::empty());
            assert(mismatch_views(mismatches@) =~= head + state_mismatches(c, a, sp, 0));
        }
        let mut s: usize = 0;
        while s < n
            invariant
                n == c.states.len(),
                s <= n,
                mismatch_views(mismatches@) == head + state_mismatches(c, a, sp, s as nat),
            decreases n - s,
        {
            let ghost before = mismatch_views(mismatches@);
            let found = check_state(concrete, abstract_graph, spec, s);
            match found {
                Some(m) => {
                    mismatches.push(m);
                    proof {
                        assert(mismatch_views(mismatches@) =~= before.push(m@));
                    }
                },
                None => {},
            }
            proof {
                assert(state_mismatches(c, a, sp, (s + 1) as nat) == state_mismatches(c, a, sp, s as nat) + state_mismatch(c, a, sp, s as int));
                assert(mismatch_views(mismatches@) =~= head + state_mismatches(c, a, sp, (s + 1) as nat));
            }
            s = s + 1;
        }
        let ghost head2 = mismatch_views(mismatches@);
        let inits = concrete.initial_states();
        proof {
            assert(mismatch_views(mismatches@) =~= head2 + initial_mismatches(c, a, sp, 0));
        }
        let mut i: usize = 0;
        while i < inits.len()
            invariant
                inits@ == c.initial,
                i <= inits@.len(),
                mismatch_views(mismatches@) == head2 + initial_mismatches(c, a, sp, i as nat),
            decreases inits@.len() - i,
        {
            let ghost before = mismatch_views(mismatches@);
            let found = check_initial(concrete, abstract_graph, spec, i);
            match found {
                Some(m) => {
                    mismatches.push(m);
                    proof {
                        assert(mismatch_views(mismatches@) =~= before.push(m@));
                    }
                },
                None => {},
            }
            proof {
                assert(initial_mismatches(c, a, sp, (i + 1) as nat) == initial_mismatches(c, a, sp, i as nat) + initial_mismatch(c, a, sp, i as int));
                assert(mismatch_views(mismatches@) =~= head2 + initial_mismatches(c, a, sp, (i + 1) as nat));
            }
            i = i + 1;
        }
        let ghost head3 = mismatch_views(mismatches@);
        let tn = concrete.transitions().len();
        proof {
            assert(mismatch_views(mismatches@) =~= head3 + transition_mismatches(c, a, sp, 0));
        }
        let mut k: usize = 0;
        while k < tn
            invariant
                tn == c.transitions.len(),
                k <= tn,
                mismatch_views(mismatches@) == head3 + transition_mismatches(c, a, sp, k as nat),
            decreases tn - k,
        {
            let ghost before = mismatch_views(mismatches@);
            let found = check_transition(concrete, abstract_graph, spec, k);
            match found {
                Some(m) => {
                    mismatches.push(m);
                    proof {
                        assert(mismatch_views(mismatches@) =~= before.push(m@));
                    }
                },
                None => {},
            }
            proof {
                assert(transition_mismatches(c, a, sp, (k + 1) as nat) == transition_mismatches(c, a, sp, k as nat) + transition_mismatch(c, a, sp, k as int));
                assert(mismatch_views(mismatches@) =~= head3 + transition_mismatches(c, a, sp, (k + 1) as nat));
            }
            k = k + 1;
        }
        proof {
            assert(refinement_mismatches(c, a, sp) =~= mismatch_views(mismatches@));
        }
        RefinementReport {
            accepted: mismatches.len() == 0,
            checked_states: n,
            checked_transitions: tn,
            mismatches,
        }
    }
}


/// A finite concrete path, its mapped abstract path, and the two
/// observation words, of which the concrete one stutter-expands the
/// abstract one.
#[derive(Clone, Debug, PartialEq, Eq)]
pub struct ObservationTraceInclusion {
    pub concrete_path: Vec<StateId>,
    pub abstract_path: Vec<StateId>,
    pub concrete_observations: Vec<ModelState>,
    pub abstract_observations: Vec<ModelState>,
}

#[derive(Clone, Debug, PartialEq, Eq)]
pub enum ObservationTraceError {
    EmptyPath,
    ConcreteStateOutOfRange(StateId),
    StateMapTooShort { concrete: StateId, map_len: usize },
    AbstractStateOutOfRange { concrete: StateId, mapped: StateId },
    NoConcreteStep { from: StateId, to: StateId },
    ActionUnmapped { from: StateId, to: StateId, action: String },
    HiddenStepChangesAbstractState { from: StateId, to: StateId, mapped_from: StateId, mapped_to: StateId },
    VisibleStepMissing { from: StateId, to: StateId, mapped_from: StateId, mapped_to: StateId, abstract_action: String },
    ObservationUndefined { state: StateId, source: &'static str, error: ObservationError },
    ObservationMismatch { concrete_state: StateId, mapped: StateId, concrete_observation: ModelState, abstract_observation: ModelState },
    DoesNotStutterExpand { abstract_observations: Vec<ModelState>, concrete_observations: Vec<ModelState> },
}

impl ObservationTraceError {
    /// The description `to_string` gives.
    pub open spec fn text(&self) -> Seq<char> {
        match self {
            ObservationTraceError::EmptyPath => "observation-trace inclusion requires a non-empty concrete path"@,
            ObservationTraceError::ConcreteStateOutOfRange(s) => "concrete path refers to missing state "@ + decimal(*s as nat),
            ObservationTraceError::StateMapTooShort { concrete, map_len } => "state map of length "@ + decimal(*map_len as nat)
                + " has no entry for concrete state "@ + decimal(*concrete as nat),
            ObservationTraceError::AbstractStateOutOfRange { concrete, mapped } => "concrete state "@ + decimal(*concrete as nat)
                + " maps to missing abstract state "@ + decimal(*mapped as nat),
            ObservationTraceError::NoConcreteStep { from, to } => "no concrete step from "@ + decimal(*from as nat) + " to "@
                + decimal(*to as nat) + " on the given path"@,
            ObservationTraceError::ActionUnmapped { from, to, action } => "concrete step "@ + decimal(*from as nat) + " -["@ + action@
                + "]-> "@ + decimal(*to as nat) + " has no refinement mapping"@,
            ObservationTraceError::HiddenStepChangesAbstractState { from, to, mapped_from, mapped_to } => "hidden concrete step "@
                + decimal(*from as nat) + " -> "@ + decimal(*to as nat) + " maps abstract state "@ + decimal(*mapped_from as nat)
                + " to distinct state "@ + decimal(*mapped_to as nat),
            ObservationTraceError::VisibleStepMissing { from, to, mapped_from, mapped_to, abstract_action } => "visible concrete step "@
                + decimal(*from as nat) + " -> "@ + decimal(*to as nat) + " requires abstract step "@ + decimal(*mapped_from as nat)
                + " -["@ + abstract_action@ + "]-> "@ + decimal(*mapped_to as nat) + ", but none exists"@,
            ObservationTraceError::ObservationUndefined { state, source, error } => source@ + " observation is undefined at state "@
                + decimal(*state as nat) + ": "@ + error.text(),
            ObservationTraceError::ObservationMismatch { concrete_state, mapped, concrete_observation, abstract_observation } =>
                differs_text(*concrete_state as nat, *mapped as nat, concrete_observation@, abstract_observation@),
            ObservationTraceError::DoesNotStutterExpand { abstract_observations, concrete_observations } => "concrete observation word "@
                + crate::graph::states_debug(crate::graph::state_views(concrete_observations@)) + " is not a stutter-expansion of abstract word "@
                + crate::graph::states_debug(crate::graph::state_views(abstract_observations@)),
        }
    }

    /// A human-readable description.
    pub fn to_string(&self) -> (r: String)
        ensures
            r@ == self.text(),
    {
        match self {
            ObservationTraceError::EmptyPath => String::from_str("observation-trace inclusion requires a non-empty concrete path"),
            ObservationTraceError::ConcreteStateOutOfRange(s) => {
                String::from_str("concrete path refers to missing state ").concat(usize_string(*s).as_str())
            },
            ObservationTraceError::StateMapTooShort { concrete, map_len } => {
                let r = crate::text::two_numbers("state map of length ", *map_len, " has no entry for concrete state ", *concrete, "");
                proof {
                    reveal_strlit("");
                }
                assert(r@ =~= self.text());
                r
            },
            ObservationTraceError::AbstractStateOutOfRange { concrete, mapped } => {
                let r = crate::text::two_numbers("concrete state ", *concrete, " maps to missing abstract state ", *mapped, "");
                proof {
                    reveal_strlit("");
                }
                assert(r@ =~= self.text());
                r
            },
            ObservationTraceError::NoConcreteStep { from, to } => {
                crate::text::two_numbers("no concrete step from ", *from, " to ", *to, " on the given path")
            },
            ObservationTraceError::ActionUnmapped { from, to, action } => {
                let r = crate::text::number_between("concrete step ", *from, " -[").concat(action.as_str()).concat("]-> ")
                    .concat(usize_string(*to).as_str()).concat(" has no refinement mapping");
                assert(r@ =~= self.text());
                r
            },
            ObservationTraceError::HiddenStepChangesAbstractState { from, to, mapped_from, mapped_to } => {
                let r = crate::text::two_numbers("hidden concrete step ", *from, " -> ", *to, " maps abstract state ")
                    .concat(crate::text::number_between("", *mapped_from, " to distinct state ").as_str())
                    .concat(usize_string(*mapped_to).as_str());
                proof {
                    reveal_strlit("");
                }
                assert(r@ =~= self.text());
                r
            },
            ObservationTraceError::VisibleStepMissing { from, to, mapped_from, mapped_to, abstract_action } => {
                let r = crate::text::two_numbers("visible concrete step ", *from, " -> ", *to, " requires abstract step ")
                    .concat(crate::text::number_between("", *mapped_from, " -[").as_str()).concat(abstract_action.as_str())
                    .concat("]-> ").concat(usize_string(*mapped_to).as_str()).concat(", but none exists");
                proof {
                    reveal_strlit("");
                }
                assert(r@ =~= self.text());
                r
            },
            ObservationTraceError::ObservationUndefined { state, source, error } => {
                let r = String::from_str(source).concat(crate::text::number_between(" observation is undefined at state ", *state, ": ").as_str())
                    .concat(error.message().as_str());
                assert(r@ =~= self.text());
                r
            },
            ObservationTraceError::ObservationMismatch { concrete_state, mapped, concrete_observation, abstract_observation } => {
                let r = crate::text::two_numbers("observation of concrete state ", *concrete_state, " differs from mapped abstract state ",
                    *mapped, ": ").concat(concrete_observation.debug_string().as_str()).concat(" != ")
                    .concat(abstract_observation.debug_string().as_str());
                assert(r@ =~= self.text());
                r
            },
            ObservationTraceError::DoesNotStutterExpand { abstract_observations, concrete_observations } => {
                let r = String::from_str("concrete observation word ").concat(crate::graph::states_debug_string(concrete_observations).as_str())
                    .concat(" is not a stutter-expansion of abstract word ").concat(crate::graph::states_debug_string(abstract_observations).as_str());
                assert(r@ =~= self.text());
                r
            },
        }
    }
}

/// `sp` maps every state of `g` to itself, observes both sides alike, and
/// names every action of `g` as itself.
pub open spec fn identity_spec(g: GraphV, sp: RefinementSpecV) -> bool {
    &&& sp.state_map.len() == g.states.len()
    &&& forall|s: int| 0 <= s < g.states.len() ==> #[trigger] sp.state_map[s] == s
    &&& sp.concrete_observation == sp.abstract_observation
    &&& forall|k: int| 0 <= k < g.transitions.len() ==> match (#[trigger] g.transitions[k]).kind {
        KindV::Action(act) => lookup(sp.actions, act) == Some(Some(act)),
        KindV::IdentityStutter => true,
    }
}

proof fn lemma_identity_states(g: GraphV, sp: RefinementSpecV, n: nat)
    requires
        graph_wf(g),
        identity_spec(g, sp),
        n <= g.states.len(),
        forall|s: int| 0 <= s < g.states.len() ==> observable(sp.concrete_observation, #[trigger] g.states[s]),
    ensures
        state_mismatches(g, g, sp, n).len() == 0,
    decreases n,
{
    if n > 0 {
        lemma_identity_states(g, sp, (n - 1) as nat);
        let s = n - 1;
        assert(sp.state_map[s] == s);
        assert(observable(sp.concrete_observation, g.states[s]));
        assert(state_mismatch(g, g, sp, s).len() == 0);
    }
}

proof fn lemma_identity_initial(g: GraphV, sp: RefinementSpecV, n: nat)
    requires
        graph_wf(g),
        identity_spec(g, sp),
        n <= g.initial.len(),
    ensures
        initial_mismatches(g, g, sp, n).len() == 0,
    decreases n,
{
    if n > 0 {
        lemma_identity_initial(g, sp, (n - 1) as nat);
        let i = n - 1;
        let ci = g.initial[i];
        assert(sp.state_map[ci as int] == ci);
        assert(g.initial[i] == ci);
        assert(g.initial.contains(ci));
        assert(initial_mismatch(g, g, sp, i).len() == 0);
    }
}

proof fn lemma_identity_transitions(g: GraphV, sp: RefinementSpecV, n: nat)
    requires
        graph_wf(g),
        identity_spec(g, sp),
        n <= g.transitions.len(),
    ensures
        transition_mismatches(g, g, sp, n).len() == 0,
    decreases n,
{
    if n > 0 {
        lemma_identity_transitions(g, sp, (n - 1) as nat);
        let k = n - 1;
        let t = g.transitions[k];
        assert(transition_valid(t, g.states.len()));
        match t.kind {
            KindV::Action(act) => {
                assert(sp.state_map[t.from as int] == t.from);
                assert(sp.state_map[t.to as int] == t.to);
                assert(g.transitions[k] == (TransitionV { from: t.from, to: t.to, kind: KindV::Action(act) }));
                assert(abstract_step(g, t.from, t.to, act));
            },
            KindV::IdentityStutter => {},
        }
        assert(transition_mismatch(g, g, sp, k).len() == 0);
    }
}

/// A graph refines itself under the identity witness: every state mapped
/// to itself, the same observation on both sides, defined at every state,
/// and every action named as itself.
pub proof fn identity_refinement_is_accepted(g: GraphV, sp: RefinementSpecV)
    requires
        graph_wf(g),
        identity_spec(g, sp),
        forall|s: int| 0 <= s < g.states.len() ==> observable(sp.concrete_observation, #[trigger] g.states[s]),
    ensures
        refinement_mismatches(g, g, sp).len() == 0,
{
    lemma_identity_states(g, sp, g.states.len());
    lemma_identity_initial(g, sp, g.initial.len());
    lemma_identity_transitions(g, sp, g.transitions.len());
}

/// How a concrete path step is matched.
pub enum StepV {
    Visible,
    Hidden,
    Unmatched,
}

/// How one concrete edge between the two states is matched, given the
/// images `mf` and `mt` of its endpoints.
pub open spec fn edge_verdict(t: TransitionV, sp: RefinementSpecV, a: GraphV, mf: StateId, mt: StateId) -> StepV {
    match t.kind {
        KindV::IdentityStutter => if mf == mt { StepV::Hidden } else { StepV::Unmatched },
        KindV::Action(act) => match lookup(sp.actions, act) {
            None => StepV::Unmatched,
            Some(None) => if mf == mt { StepV::Hidden } else { StepV::Unmatched },
            Some(Some(aa)) => if abstract_step(a, mf, mt, aa) { StepV::Visible } else { StepV::Unmatched },
        },
    }
}

/// The verdict of the first matched edge to `to` among `ids`.
pub open spec fn classify_edges(c: GraphV, a: GraphV, sp: RefinementSpecV, ids: Seq<TransitionId>, to: StateId, mf: StateId, mt: StateId) -> StepV
    decreases ids.len(),
{
    if ids.len() == 0 {
        StepV::Unmatched
    } else {
        let t = c.transitions[ids[0] as int];
        let rest = classify_edges(c, a, sp, ids.drop_first(), to, mf, mt);
        if t.to != to {
            rest
        } else {
            match edge_verdict(t, sp, a, mf, mt) {
                StepV::Unmatched => rest,
                v => v,
            }
        }
    }
}

/// How the step `from -> to` of a concrete path is matched.
pub open spec fn classify_step(c: GraphV, a: GraphV, sp: RefinementSpecV, from: StateId, to: StateId) -> StepV {
    classify_edges(c, a, sp, c.outgoing[from as int], to, sp.state_map[from as int], sp.state_map[to as int])
}

/// State `s` lies in the concrete graph, has an abstract image, and both
/// observations are defined and equal.
pub open spec fn trace_state_ok(c: GraphV, a: GraphV, sp: RefinementSpecV, s: StateId) -> bool {
    &&& s < c.states.len()
    &&& s < sp.state_map.len()
    &&& sp.state_map[s as int] < a.states.len()
    &&& observable(sp.concrete_observation, c.states[s as int])
    &&& observable(sp.abstract_observation, a.states[sp.state_map[s as int] as int])
    &&& observation_of(sp.concrete_observation, c.states[s as int]) == observation_of(sp.abstract_observation, a.states[sp.state_map[s as int] as int])
}

/// Every state of the nonempty path `p` is fine and every step is matched.
pub open spec fn trace_ok(c: GraphV, a: GraphV, sp: RefinementSpecV, p: Seq<StateId>) -> bool {
    &&& p.len() > 0
    &&& forall|i: int| 0 <= i < p.len() ==> trace_state_ok(c, a, sp, #[trigger] p[i])
    &&& forall|i: int| 0 <= i < p.len() - 1 ==> !(#[trigger] classify_step(c, a, sp, p[i], p[i + 1]) is Unmatched)
}

/// The abstract path of the first `n` states of `p`: the image of the first
/// state, then the image of each state reached by a visible step.
pub open spec fn abstract_path_of(c: GraphV, a: GraphV, sp: RefinementSpecV, p: Seq<StateId>, n: nat) -> Seq<StateId>
    decreases n,
{
    if n <= 1 {
        seq![sp.state_map[p[0] as int]]
    } else {
        let prev = abstract_path_of(c, a, sp, p, (n - 1) as nat);
        if classify_step(c, a, sp, p[n - 2], p[n - 1]) is Visible {
            prev.push(sp.state_map[p[n - 1] as int])
        } else {
            prev
        }
    }
}

pub open spec fn observations_along(fields: Seq<(Seq<char>, Seq<char>)>, states: Seq<Seq<(Seq<char>, ValueV)>>, p: Seq<StateId>) -> Seq<Seq<(Seq<char>, ValueV)>> {
    p.map_values(|s: StateId| observation_of(fields, states[s as int]))
}

proof fn lemma_hidden_keeps_image(c: GraphV, a: GraphV, sp: RefinementSpecV, ids: Seq<TransitionId>, to: StateId, mf: StateId, mt: StateId)
    ensures
        classify_edges(c, a, sp, ids, to, mf, mt) is Hidden ==> mf == mt,
    decreases ids.len(),
{
    if ids.len() > 0 {
        lemma_hidden_keeps_image(c, a, sp, ids.drop_first(), to, mf, mt);
    }
}

/// Along a matched path the mapped abstract path ends at the image of the
/// last state, and the concrete observation word stutter-expands the
/// abstract one.
pub proof fn trace_inclusion_expands(c: GraphV, a: GraphV, sp: RefinementSpecV, p: Seq<StateId>, n: nat)
    requires
        trace_ok(c, a, sp, p),
        1 <= n <= p.len(),
    ensures
        abstract_path_of(c, a, sp, p, n).last() == sp.state_map[p[n - 1] as int],
        crate::observation::expands(
            observations_along(sp.abstract_observation, a.states, abstract_path_of(c, a, sp, p, n)),
            observations_along(sp.concrete_observation, c.states, p.subrange(0, n as int)),
        ),
    decreases n,
{
    let ap = abstract_path_of(c, a, sp, p, n);
    let aw = observations_along(sp.abstract_observation, a.states, ap);
    let cw = observations_along(sp.concrete_observation, c.states, p.subrange(0, n as int));
    assert(trace_state_ok(c, a, sp, p[n - 1]));
    if n == 1 {
        assert(aw.len() == 1 && cw.len() == 1);
        assert(cw.last() == aw.last());
    } else {
        trace_inclusion_expands(c, a, sp, p, (n - 1) as nat);
        let prev = abstract_path_of(c, a, sp, p, (n - 1) as nat);
        let pw = observations_along(sp.abstract_observation, a.states, prev);
        let pc = observations_along(sp.concrete_observation, c.states, p.subrange(0, n - 1));
        assert(cw.drop_last() =~= pc);
        let i: int = n - 2;
        assert(!(classify_step(c, a, sp, p[i], p[i + 1]) is Unmatched));
        assert(p[i + 1] == p[n - 1]);
        if classify_step(c, a, sp, p[n - 2], p[n - 1]) is Visible {
            assert(aw.drop_last() =~= pw);
            assert(aw.last() == cw.last());
        } else {
            lemma_hidden_keeps_image(c, a, sp, c.outgoing[p[n - 2] as int], p[n - 1], sp.state_map[p[n - 2] as int], sp.state_map[p[n - 1] as int]);
            assert(aw =~= pw);
            assert(aw.last() == cw.last());
        }
    }
}

fn mapped_state(spec: &RefinementSpec, abstract_graph: &FiniteGraph, concrete_state: StateId) -> (r: Result<StateId, ObservationTraceError>)
    ensures
        r matches Ok(m) ==> concrete_state < spec@.state_map.len() && m == spec@.state_map[concrete_state as int] && m < abstract_graph@.states.len(),
        r is Ok <==> concrete_state < spec@.state_map.len() && spec@.state_map[concrete_state as int] < abstract_graph@.states.len(),
        r matches Err(e) ==> match e {
            ObservationTraceError::StateMapTooShort { concrete, map_len } => concrete == concrete_state && map_len == spec@.state_map.len() && concrete_state >= map_len,
            ObservationTraceError::AbstractStateOutOfRange { concrete, mapped } => concrete == concrete_state && concrete_state < spec@.state_map.len()
                && mapped == spec@.state_map[concrete_state as int] && mapped >= abstract_graph@.states.len(),
            _ => false,
        },
{
    if concrete_state >= spec.state_map.len() {
        return Err(ObservationTraceError::StateMapTooShort { concrete: concrete_state, map_len: spec.state_map.len() });
    }
    let mapped = spec.state_map[concrete_state];
    if mapped >= abstract_graph.state_count() {
        return Err(ObservationTraceError::AbstractStateOutOfRange { concrete: concrete_state, mapped });
    }
    Ok(mapped)
}

/// A reason, shown by some concrete edge `from -> to`, why the step is unmatched.
/// `e` is an error about the path state `s` itself.
pub open spec fn names_state(sp: RefinementSpecV, e: ObservationTraceError, s: StateId) -> bool {
    match e {
        ObservationTraceError::ConcreteStateOutOfRange(x) => x == s,
        ObservationTraceError::StateMapTooShort { concrete, .. } => concrete == s,
        ObservationTraceError::AbstractStateOutOfRange { concrete, .. } => concrete == s,
        ObservationTraceError::ObservationUndefined { state, source, .. } => (source@ == "concrete"@ && state == s)
            || (source@ == "abstract"@ && s < sp.state_map.len() && state == sp.state_map[s as int]),
        ObservationTraceError::ObservationMismatch { concrete_state, .. } => concrete_state == s,
        _ => false,
    }
}

pub open spec fn step_error_witnessed(c: GraphV, a: GraphV, sp: RefinementSpecV, e: ObservationTraceError) -> bool {
    match e {
        ObservationTraceError::NoConcreteStep { from, to } => from < c.states.len()
            && forall|k: int| 0 <= k < c.transitions.len() && #[trigger] c.transitions[k].from == from ==> c.transitions[k].to != to,
        ObservationTraceError::ActionUnmapped { from, to, action } => exists|k: int| 0 <= k < c.transitions.len()
            && #[trigger] c.transitions[k] == (TransitionV { from, to, kind: KindV::Action(action@) }) && lookup(sp.actions, action@) is None,
        ObservationTraceError::HiddenStepChangesAbstractState { from, to, mapped_from, mapped_to } => mapped_from != mapped_to
            && from < sp.state_map.len() && to < sp.state_map.len()
            && mapped_from == sp.state_map[from as int] && mapped_to == sp.state_map[to as int]
            && exists|k: int| 0 <= k < c.transitions.len() && #[trigger] c.transitions[k].from == from && c.transitions[k].to == to
                && (c.transitions[k].kind is IdentityStutter || (c.transitions[k].kind matches KindV::Action(act) && lookup(sp.actions, act) == Some(None::<Seq<char>>))),
        ObservationTraceError::VisibleStepMissing { from, to, mapped_from, mapped_to, abstract_action } =>
            from < sp.state_map.len() && to < sp.state_map.len()
            && mapped_from == sp.state_map[from as int] && mapped_to == sp.state_map[to as int]
            && !abstract_step(a, mapped_from, mapped_to, abstract_action@)
            && exists|k: int| 0 <= k < c.transitions.len() && #[trigger] c.transitions[k].from == from && c.transitions[k].to == to
                && (c.transitions[k].kind matches KindV::Action(act) && lookup(sp.actions, act) == Some(Some(abstract_action@))),
        _ => false,
    }
}

#[verifier::rlimit(40)]
/// The step error `e` is about the concrete step from `from` to `to`.
pub open spec fn names_step(e: ObservationTraceError, from: StateId, to: StateId) -> bool {
    match e {
        ObservationTraceError::NoConcreteStep { from: f, to: t } => f == from && t == to,
        ObservationTraceError::ActionUnmapped { from: f, to: t, .. } => f == from && t == to,
        ObservationTraceError::HiddenStepChangesAbstractState { from: f, to: t, .. } => f == from && t == to,
        ObservationTraceError::VisibleStepMissing { from: f, to: t, .. } => f == from && t == to,
        _ => false,
    }
}

#[verifier::rlimit(40)]
#[verifier::spinoff_prover]
fn classify_path_step(
    concrete: &FiniteGraph,
    abstract_graph: &FiniteGraph,
    spec: &RefinementSpec,
    from: StateId,
    to: StateId,
    mapped_from: StateId,
    mapped_to: StateId,
) -> (r: Result<bool, ObservationTraceError>)
    requires
        from < concrete@.states.len(),
        from < spec@.state_map.len(),
        to < spec@.state_map.len(),
        mapped_from == spec@.state_map[from as int],
        mapped_to == spec@.state_map[to as int],
        mapped_from < abstract_graph@.states.len(),
    ensures
        match classify_step(concrete@, abstract_graph@, spec@, from, to) {
            StepV::Visible => r == Ok::<bool, ObservationTraceError>(true),
            StepV::Hidden => r == Ok::<bool, ObservationTraceError>(false),
            StepV::Unmatched => r is Err,
        },
        r matches Err(e) ==> step_error_witnessed(concrete@, abstract_graph@, spec@, e) && names_step(e, from, to),
{
    proof {
        use_type_invariant(concrete);
    }
    let ghost c = concrete@;
    let ghost a = abstract_graph@;
    let ghost sp = spec@;
    let out = concrete.outgoing_ids(from);
    let ghost ids = out@;
    let mut first_error: Option<ObservationTraceError> = None;
    proof {
        assert(ids.subrange(0, ids.len() as int) =~= ids);
    }
    let mut k: usize = 0;
    while k < out.len()
        invariant
            graph_wf(c),
            ids == c.outgoing[from as int],
            out@ == ids,
            k <= ids.len(),
            classify_step(c, a, sp, from, to) == classify_edges(c, a, sp, ids.subrange(k as int, ids.len() as int), to, mapped_from, mapped_to),
            first_error matches Some(e) ==> step_error_witnessed(c, a, sp, e) && names_step(e, from, to),
            first_error is None ==> forall|j: int| 0 <= j < k ==> c.transitions[#[trigger] ids[j] as int].to != to,
        decreases ids.len() - k,
    {
        let ghost rest = ids.subrange(k as int, ids.len() as int);
        proof {
            assert(rest.drop_first() =~= ids.subrange(k + 1, ids.len() as int));
            assert(rest[0] == ids[k as int]);
        }
        let id = out[k];
        let edge = concrete.transition(id);
        proof {
            assert(c.transitions[id as int].from == from);
        }
        if edge.to == to {
            match &edge.kind {
                TransitionKind::IdentityStutter => {
                    if mapped_from == mapped_to {
                        return Ok(false);
                    }
                    if first_error.is_none() {
                        first_error = Some(ObservationTraceError::HiddenStepChangesAbstractState { from, to, mapped_from, mapped_to });
                    }
                },
                TransitionKind::Action(action) => {
                    match spec.actions.get(action.as_str()) {
                        None => {
                            if first_error.is_none() {
                                first_error = Some(ObservationTraceError::ActionUnmapped { from, to, action: action.clone() });
                            }
                        },
                        Some(None) => {
                            if mapped_from == mapped_to {
                                return Ok(false);
                            }
                            if first_error.is_none() {
                                first_error = Some(ObservationTraceError::HiddenStepChangesAbstractState { from, to, mapped_from, mapped_to });
                            }
                        },
                        Some(Some(aa)) => {
                            if has_abstract_step(abstract_graph, mapped_from, mapped_to, aa) {
                                return Ok(true);
                            }
                            if first_error.is_none() {
                                first_error = Some(ObservationTraceError::VisibleStepMissing {
                                    from,
                                    to,
                                    mapped_from,
                                    mapped_to,
                                    abstract_action: aa.to_owned(),
                                });
                            }
                        },
                    }
                },
            }
        }
        k = k + 1;
    }
    proof {
        assert(ids.subrange(ids.len() as int, ids.len() as int).len() == 0);
    }
    match first_error {
        Some(e) => Err(e),
        None => {
            proof {
                assert forall|x: int| 0 <= x < c.transitions.len() && #[trigger] c.transitions[x].from == from implies c.transitions[x].to != to by {
                    assert(c.outgoing[c.transitions[x].from as int].contains(x as usize));
                    let j = choose|j: int| 0 <= j < ids.len() && ids[j] == x as usize;
                    assert(c.transitions[ids[j] as int].to != to);
                }
            }
            Err(ObservationTraceError::NoConcreteStep { from, to })
        },
    }
}

/// Finite observation-trace inclusion for a concrete path under a one-step
/// refinement map with stuttering: hidden steps stay on the current abstract
/// state, visible steps take exactly one abstract step, and the concrete
/// observation word stutter-expands the abstract one. This concerns finite
/// paths only, not infinite traces, fairness or liveness.
pub fn observation_trace_inclusion(
    concrete: &FiniteGraph,
    abstract_graph: &FiniteGraph,
    spec: &RefinementSpec,
    concrete_path: &[StateId],
) -> (r: Result<ObservationTraceInclusion, ObservationTraceError>)
    ensures
        concrete_path@.len() == 0 ==> r matches Err(ObservationTraceError::EmptyPath),
        r is Ok <==> trace_ok(concrete@, abstract_graph@, spec@, concrete_path@),
        r matches Ok(t) ==> {
            &&& t.concrete_path@ == concrete_path@
            &&& t.abstract_path@ == abstract_path_of(concrete@, abstract_graph@, spec@, concrete_path@, concrete_path@.len())
            &&& crate::observation::views(t.concrete_observations@) == observations_along(spec@.concrete_observation, concrete@.states, concrete_path@)
            &&& crate::observation::views(t.abstract_observations@) == observations_along(spec@.abstract_observation, abstract_graph@.states, t.abstract_path@)
            &&& crate::observation::expands(crate::observation::views(t.abstract_observations@), crate::observation::views(t.concrete_observations@))
        },
        r matches Err(e) ==> match e {
            ObservationTraceError::EmptyPath => concrete_path@.len() == 0,
            ObservationTraceError::ConcreteStateOutOfRange(s) => concrete_path@.contains(s) && s >= concrete@.states.len(),
            ObservationTraceError::StateMapTooShort { concrete: s, map_len } => concrete_path@.contains(s) && map_len == spec@.state_map.len() && s >= map_len,
            ObservationTraceError::AbstractStateOutOfRange { concrete: s, mapped } => concrete_path@.contains(s) && s < spec@.state_map.len()
                && mapped == spec@.state_map[s as int] && mapped >= abstract_graph@.states.len(),
            ObservationTraceError::ObservationUndefined { state, source, .. } =>
                (source@ == "concrete"@ && concrete_path@.contains(state) && state < concrete@.states.len() && !observable(spec@.concrete_observation, concrete@.states[state as int]))
                || (source@ == "abstract"@ && state < abstract_graph@.states.len() && !observable(spec@.abstract_observation, abstract_graph@.states[state as int])),
            ObservationTraceError::ObservationMismatch { concrete_state, mapped, .. } => concrete_path@.contains(concrete_state)
                && concrete_state < concrete@.states.len() && concrete_state < spec@.state_map.len() && mapped == spec@.state_map[concrete_state as int]
                && mapped < abstract_graph@.states.len()
                && observation_of(spec@.concrete_observation, concrete@.states[concrete_state as int]) != observation_of(spec@.abstract_observation, abstract_graph@.states[mapped as int]),
            ObservationTraceError::DoesNotStutterExpand { .. } => false,
            _ => step_error_witnessed(concrete@, abstract_graph@, spec@, e),
        },
        r matches Err(e) ==> concrete_path@.len() > 0 && (forall|j: int| 0 <= j < concrete_path@.len() ==> trace_state_ok(concrete@, abstract_graph@, spec@, #[trigger] concrete_path@[j]))
            ==> exists|i: int| 0 <= i < concrete_path@.len() - 1
                && #[trigger] classify_step(concrete@, abstract_graph@, spec@, concrete_path@[i], concrete_path@[i + 1]) is Unmatched
                && (forall|j: int| 0 <= j < i ==> !(#[trigger] classify_step(concrete@, abstract_graph@, spec@, concrete_path@[j], concrete_path@[j + 1]) is Unmatched))
                && names_step(e, concrete_path@[i], concrete_path@[i + 1]),
        r matches Err(e) ==> concrete_path@.len() == 0 || (exists|i: int| 0 <= i < concrete_path@.len()
            && !trace_state_ok(concrete@, abstract_graph@, spec@, concrete_path@[i])
            && (forall|j: int| 0 <= j < i ==> trace_state_ok(concrete@, abstract_graph@, spec@, #[trigger] concrete_path@[j]))
            && names_state(spec@, e, concrete_path@[i]))
            || (forall|j: int| 0 <= j < concrete_path@.len() ==> trace_state_ok(concrete@, abstract_graph@, spec@, #[trigger] concrete_path@[j])),
{
    let ghost c = concrete@;
    let ghost a = abstract_graph@;
    let ghost sp = spec@;
    let ghost p = concrete_path@;
    let n = concrete_path.len();
    if n == 0 {
        return Err(ObservationTraceError::EmptyPath);
    }
    let mut concrete_observations: Vec<ModelState> = Vec::new();
    let mut i: usize = 0;
    while i < n
        invariant
            n == p.len(),
            i <= n,
            forall|j: int| 0 <= j < i ==> trace_state_ok(c, a, sp, #[trigger] p[j]),
            crate::observation::views(concrete_observations@) == observations_along(sp.concrete_observation, c.states, p.subrange(0, i as int)),
        decreases n - i,
    {
        let s = concrete_path[i];
        proof {
            assert(p.contains(s));
        }
        if s >= concrete.state_count() {
            return Err(ObservationTraceError::ConcreteStateOutOfRange(s));
        }
        let mapped = match mapped_state(spec, abstract_graph, s) {
            Ok(m) => m,
            Err(e) => {
                return Err(e);
            },
        };
        let concrete_obs = match spec.concrete_observation.observe(concrete.state(s)) {
            Ok(o) => o,
            Err(error) => {
                proof {
                    reveal_strlit("concrete");
                }
                return Err(ObservationTraceError::ObservationUndefined { state: s, source: "concrete", error });
            },
        };
        let abstract_obs = match spec.abstract_observation.observe(abstract_graph.state(mapped)) {
            Ok(o) => o,
            Err(error) => {
                proof {
                    reveal_strlit("abstract");
                }
                return Err(ObservationTraceError::ObservationUndefined { state: mapped, source: "abstract", error });
            },
        };
        proof {
            lemma_observation_of(sp.concrete_observation, c.states[s as int], concrete_obs@);
            lemma_observation_of(sp.abstract_observation, a.states[mapped as int], abstract_obs@);
        }
        if !concrete_obs.same(&abstract_obs) {
            return Err(ObservationTraceError::ObservationMismatch {
                concrete_state: s,
                mapped,
                concrete_observation: concrete_obs,
                abstract_observation: abstract_obs,
            });
        }
        let ghost before = crate::observation::views(concrete_observations@);
        concrete_observations.push(concrete_obs);
        proof {
            assert(crate::observation::views(concrete_observations@) =~= before.push(observation_of(sp.concrete_observation, c.states[s as int])));
            assert(p.subrange(0, i + 1) =~= p.subrange(0, i as int).push(s));
            assert(observations_along(sp.concrete_observation, c.states, p.subrange(0, i + 1)) =~= observations_along(sp.concrete_observation, c.states, p.subrange(0, i as int)).push(observation_of(sp.concrete_observation, c.states[s as int])));
        }
        i = i + 1;
    }
    proof {
        assert(p.subrange(0, n as int) =~= p);
    }
    let start = concrete_path[0];
    let first = match mapped_state(spec, abstract_graph, start) {
        Ok(m) => m,
        Err(e) => {
            proof {
                assert(trace_state_ok(c, a, sp, p[0]));
            }
            return Err(e);
        },
    };
    let mut abstract_path: Vec<StateId> = Vec::new();
    abstract_path.push(first);
    proof {
        assert(abstract_path@ =~= abstract_path_of(c, a, sp, p, 1));
    }
    let mut w: usize = 1;
    while w < n
        invariant
            n == p.len(),
            1 <= w <= n,
            forall|j: int| 0 <= j < n ==> trace_state_ok(c, a, sp, #[trigger] p[j]),
            forall|j: int| 0 <= j < w - 1 ==> !(#[trigger] classify_step(c, a, sp, p[j], p[j + 1]) is Unmatched),
            abstract_path@ == abstract_path_of(c, a, sp, p, w as nat),
            forall|j: int| 0 <= j < abstract_path@.len() ==> exists|x: int| 0 <= x < n && #[trigger] abstract_path@[j] == sp.state_map[p[x] as int],
            crate::observation::views(concrete_observations@) == observations_along(sp.concrete_observation, c.states, p),
        decreases n - w,
    {
        let from = concrete_path[w - 1];
        let to = concrete_path[w];
        proof {
            assert(trace_state_ok(c, a, sp, p[w - 1]));
            assert(trace_state_ok(c, a, sp, p[w as int]));
        }
        let mapped_from = spec.state_map[from];
        let mapped_to = spec.state_map[to];
        let ghost before = abstract_path@;
        let step = classify_path_step(concrete, abstract_graph, spec, from, to, mapped_from, mapped_to);
        proof {
            let i: int = w - 1;
            assert(p[i + 1] == p[w as int]);
            assert(classify_step(c, a, sp, p[i], p[i + 1]) == classify_step(c, a, sp, from, to));
        }
        match step {
            Ok(visible) => {
                if visible {
                    abstract_path.push(mapped_to);
                    proof {
                        assert(abstract_path@.last() == sp.state_map[p[w as int] as int]);
                        assert forall|j: int| 0 <= j < abstract_path@.len() implies exists|x: int| 0 <= x < n && #[trigger] abstract_path@[j] == sp.state_map[p[x] as int] by {
                            if j < before.len() {
                                assert(abstract_path@[j] == before[j]);
                            } else {
                                assert(abstract_path@[j] == sp.state_map[p[w as int] as int]);
                            }
                        }
                    }
                }
            },
            Err(e) => {
                return Err(e);
            },
        }
        w = w + 1;
    }
    let mut abstract_observations: Vec<ModelState> = Vec::new();
    let mut j: usize = 0;
    while j < abstract_path.len()
        invariant
            n == p.len(),
            forall|x: int| 0 <= x < n ==> trace_state_ok(c, a, sp, #[trigger] p[x]),
            forall|y: int| 0 <= y < abstract_path@.len() ==> exists|x: int| 0 <= x < n && #[trigger] abstract_path@[y] == sp.state_map[p[x] as int],
            j <= abstract_path@.len(),
            crate::observation::views(abstract_observations@) == observations_along(sp.abstract_observation, a.states, abstract_path@.subrange(0, j as int)),
        decreases abstract_path@.len() - j,
    {
        let m = abstract_path[j];
        proof {
            let x = choose|x: int| 0 <= x < n && #[trigger] abstract_path@[j as int] == sp.state_map[p[x] as int];
            assert(trace_state_ok(c, a, sp, p[x]));
        }
        let o = match spec.abstract_observation.observe(abstract_graph.state(m)) {
            Ok(o) => o,
            Err(error) => {
                proof {
                    reveal_strlit("abstract");
                }
                return Err(ObservationTraceError::ObservationUndefined { state: m, source: "abstract", error });
            },
        };
        proof {
            lemma_observation_of(sp.abstract_observation, a.states[m as int], o@);
        }
        let ghost before = crate::observation::views(abstract_observations@);
        abstract_observations.push(o);
        proof {
            assert(crate::observation::views(abstract_observations@) =~= before.push(observation_of(sp.abstract_observation, a.states[m as int])));
            assert(abstract_path@.subrange(0, j + 1) =~= abstract_path@.subrange(0, j as int).push(m));
            assert(observations_along(sp.abstract_observation, a.states, abstract_path@.subrange(0, j + 1)) =~= observations_along(sp.abstract_observation, a.states, abstract_path@.subrange(0, j as int)).push(observation_of(sp.abstract_observation, a.states[m as int])));
        }
        j = j + 1;
    }
    proof {
        assert(abstract_path@.subrange(0, abstract_path@.len() as int) =~= abstract_path@);
        assert(trace_ok(c, a, sp, p));
        trace_inclusion_expands(c, a, sp, p, n as nat);
        assert(p.subrange(0, n as int) =~= p);
    }
    if !crate::observation::stutter_expands(&abstract_observations, &concrete_observations) {
        return Err(ObservationTraceError::DoesNotStutterExpand { abstract_observations, concrete_observations });
    }
    let mut path_copy: Vec<StateId> = Vec::new();
    let mut q: usize = 0;
    while q < n
        invariant
            n == p.len(),
            q <= n,
            path_copy@ == p.subrange(0, q as int),
        decreases n - q,
    {
        path_copy.push(concrete_path[q]);
        proof {
            assert(path_copy@ =~= p.subrange(0, q + 1));
        }
        q = q + 1;
    }
    Ok(ObservationTraceInclusion {
        concrete_path: path_copy,
        abstract_path,
        concrete_observations,
        abstract_observations,
    })
}

/// When the checker accepts, every concrete step is matched by the state
/// map: a step of an action renamed to `y` by an abstract transition of
/// exactly the action `y` between the images of its two states, a hidden
/// step by a step between states with the same image, and no step is of an
/// unmapped action.
pub proof fn accepted_refinement_matches_labels(c: GraphV, a: GraphV, sp: RefinementSpecV, r: RefinementReport)
    requires
        graph_wf(c),
        r.accepted == (refinement_mismatches(c, a, sp).len() == 0),
        r.accepted,
    ensures
        forall|k: int| 0 <= k < c.transitions.len() ==> match (#[trigger] c.transitions[k]).kind {
            KindV::IdentityStutter => true,
            KindV::Action(x) => match lookup(sp.actions, x) {
                None => false,
                Some(None) => sp.state_map[c.transitions[k].from as int] == sp.state_map[c.transitions[k].to as int],
                Some(Some(y)) => a.transitions.contains(TransitionV {
                    from: sp.state_map[c.transitions[k].from as int],
                    to: sp.state_map[c.transitions[k].to as int],
                    kind: KindV::Action(y),
                }),
            },
        },
{
    accepted_refinement_simulates(c, a, sp);
    assert forall|k: int| 0 <= k < c.transitions.len() implies match (#[trigger] c.transitions[k]).kind {
        KindV::IdentityStutter => true,
        KindV::Action(x) => match lookup(sp.actions, x) {
            None => false,
            Some(None) => sp.state_map[c.transitions[k].from as int] == sp.state_map[c.transitions[k].to as int],
            Some(Some(y)) => a.transitions.contains(TransitionV {
                from: sp.state_map[c.transitions[k].from as int],
                to: sp.state_map[c.transitions[k].to as int],
                kind: KindV::Action(y),
            }),
        },
    } by {
        match c.transitions[k].kind {
            KindV::IdentityStutter => {},
            KindV::Action(x) => {
                match lookup(sp.actions, x) {
                    Some(Some(y)) => {
                        let mf = sp.state_map[c.transitions[k].from as int];
                        let mt = sp.state_map[c.transitions[k].to as int];
                        assert(abstract_step(a, mf, mt, y));
                        let j = choose|j: int| 0 <= j < a.transitions.len() && #[trigger] a.transitions[j] == (TransitionV { from: mf, to: mt, kind: KindV::Action(y) });
                        assert(a.transitions[j] == TransitionV { from: mf, to: mt, kind: KindV::Action(y) });
                    },
                    _ => {},
                }
            },
        }
    }
}


/// A step that `classify_edges` matches is matched by one of the listed
/// transitions into `to`.
proof fn lemma_classified_edge(c: GraphV, a: GraphV, sp: RefinementSpecV, ids: Seq<TransitionId>, to: StateId, mf: StateId, mt: StateId)
    requires
        !(classify_edges(c, a, sp, ids, to, mf, mt) is Unmatched),
    ensures
        exists|m: int| 0 <= m < ids.len() && #[trigger] c.transitions[ids[m] as int].to == to
            && !(edge_verdict(c.transitions[ids[m] as int], sp, a, mf, mt) is Unmatched),
    decreases ids.len(),
{
    let t = c.transitions[ids[0] as int];
    if t.to == to && !(edge_verdict(t, sp, a, mf, mt) is Unmatched) {
        assert(c.transitions[ids[0] as int].to == to);
    } else {
        let rest = ids.drop_first();
        lemma_classified_edge(c, a, sp, rest, to, mf, mt);
        let m = choose|m: int| 0 <= m < rest.len() && #[trigger] c.transitions[rest[m] as int].to == to
            && !(edge_verdict(c.transitions[rest[m] as int], sp, a, mf, mt) is Unmatched);
        assert(rest[m] == ids[m + 1]);
        assert(c.transitions[ids[m + 1] as int].to == to);
    }
}

/// The concrete transitions from `from` to `to` that the witness matches.
pub open spec fn matched_transition(c: GraphV, a: GraphV, sp: RefinementSpecV, from: StateId, to: StateId, k: int) -> bool {
    &&& 0 <= k < c.transitions.len()
    &&& c.transitions[k].from == from
    &&& c.transitions[k].to == to
    &&& match c.transitions[k].kind {
        KindV::IdentityStutter => sp.state_map[from as int] == sp.state_map[to as int],
        KindV::Action(x) => match lookup(sp.actions, x) {
            None => false,
            Some(None) => sp.state_map[from as int] == sp.state_map[to as int],
            Some(Some(y)) => a.transitions.contains(TransitionV {
                from: sp.state_map[from as int],
                to: sp.state_map[to as int],
                kind: KindV::Action(y),
            }),
        },
    }
}

/// Step `i` of the path `p` is a matched concrete transition.
pub open spec fn step_matched(c: GraphV, a: GraphV, sp: RefinementSpecV, p: Seq<StateId>, i: int) -> bool {
    exists|k: int| #[trigger] matched_transition(c, a, sp, p[i], p[i + 1], k)
}

proof fn lemma_matched_step(c: GraphV, a: GraphV, sp: RefinementSpecV, from: StateId, to: StateId)
    requires
        graph_wf(c),
        from < c.states.len(),
        !(classify_step(c, a, sp, from, to) is Unmatched),
    ensures
        exists|k: int| #[trigger] matched_transition(c, a, sp, from, to, k),
{
    let mf = sp.state_map[from as int];
    let mt = sp.state_map[to as int];
    let ids = c.outgoing[from as int];
    lemma_classified_edge(c, a, sp, ids, to, mf, mt);
    let m = choose|m: int| 0 <= m < ids.len() && #[trigger] c.transitions[ids[m] as int].to == to
        && !(edge_verdict(c.transitions[ids[m] as int], sp, a, mf, mt) is Unmatched);
    let k = ids[m] as int;
    assert(c.transitions[k].from == from);
    match c.transitions[k].kind {
        KindV::IdentityStutter => {},
        KindV::Action(x) => {
            match lookup(sp.actions, x) {
                Some(Some(y)) => {
                    assert(abstract_step(a, mf, mt, y));
                    let j = choose|j: int| 0 <= j < a.transitions.len() && #[trigger] a.transitions[j] == (TransitionV { from: mf, to: mt, kind: KindV::Action(y) });
                    assert(a.transitions[j] == TransitionV { from: mf, to: mt, kind: KindV::Action(y) });
                },
                _ => {},
            }
        },
    }
    assert(matched_transition(c, a, sp, from, to, k));
}

/// Every step of a path that observation-trace inclusion accepts is a
/// concrete transition matched under the witness: the identity stutter or a
/// hidden action between states with the same image, or an action renamed to
/// `y` with an abstract transition of exactly the action `y` between the
/// images of its two states.
pub proof fn included_trace_steps_match(c: GraphV, a: GraphV, sp: RefinementSpecV, p: Seq<StateId>)
    requires
        graph_wf(c),
        trace_ok(c, a, sp, p),
    ensures
        forall|i: int| 0 <= i < p.len() - 1 ==> #[trigger] step_matched(c, a, sp, p, i),
{
    assert forall|i: int| 0 <= i < p.len() - 1 implies #[trigger] step_matched(c, a, sp, p, i) by {
        assert(trace_state_ok(c, a, sp, p[i]));
        assert(!(classify_step(c, a, sp, p[i], p[i + 1]) is Unmatched));
        lemma_matched_step(c, a, sp, p[i], p[i + 1]);
    }
}

} // verus!
