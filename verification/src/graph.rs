//! Canonical finite graphs over model states.

use vstd::prelude::*;
use crate::smap::{
    StrMap, entries_view, has_key, lookup, last_lookup, sorted_keys, lemma_first_key_index,
    lemma_has_key_first, lemma_lookup_none,
};
use crate::text::{decimal, seq_lt, lemma_seq_lt_irreflexive, lemma_seq_lt_total, lemma_seq_lt_transitive, str_eq, str_lt};

verus! {

pub type StateId = usize;

pub type TransitionId = usize;

/// A small, total value domain shared by model states and journals.
#[derive(Clone, Debug, PartialEq, Eq, PartialOrd, Ord, Hash)]
pub enum Value {
    Bool(bool),
    Int(i64),
    Text(String),
}

/// The mathematical content of a `Value`.
pub enum ValueV {
    Bool(bool),
    Int(i64),
    Text(Seq<char>),
}

impl View for Value {
    type V = ValueV;

    open spec fn view(&self) -> ValueV {
        match self {
            Value::Bool(b) => ValueV::Bool(*b),
            Value::Int(i) => ValueV::Int(*i),
            Value::Text(t) => ValueV::Text(t@),
        }
    }
}

impl Value {
    /// A copy with the same content.
    pub fn copy(&self) -> (r: Value)
        ensures
            r@ == self@,
    {
        match self {
            Value::Bool(b) => Value::Bool(*b),
            Value::Int(i) => Value::Int(*i),
            Value::Text(t) => Value::Text(t.clone()),
        }
    }

    /// Whether both values have the same content.
    pub fn same(&self, other: &Value) -> (r: bool)
        ensures
            r == (self@ == other@),
    {
        match (self, other) {
            (Value::Bool(a), Value::Bool(b)) => *a == *b,
            (Value::Int(a), Value::Int(b)) => *a == *b,
            (Value::Text(a), Value::Text(b)) => str_eq(a.as_str(), b.as_str()),
            _ => false,
        }
    }
}

/// Views the values of string-keyed value entries.
pub open spec fn value_entries_view(s: Seq<(Seq<char>, Value)>) -> Seq<(Seq<char>, ValueV)> {
    s.map_values(|e: (Seq<char>, Value)| (e.0, e.1@))
}

pub proof fn lemma_lookup_value_view(s: Seq<(Seq<char>, Value)>, k: Seq<char>)
    ensures
        has_key(value_entries_view(s), k) == has_key(s, k),
        lookup(value_entries_view(s), k) == match lookup(s, k) {
            Some(v) => Some(v@),
            None => None::<ValueV>,
        },
{
    let t = value_entries_view(s);
    if has_key(s, k) {
        lemma_has_key_first(s, k);
        let i = crate::smap::first_key_index(s, k);
        assert forall|j: int| 0 <= j < i implies t[j].0 != k by {
            assert(t[j].0 == s[j].0);
        }
        lemma_first_key_index(t, k, i);
        lemma_first_key_index(s, k, i);
    } else {
        assert(!has_key(t, k)) by {
            if has_key(t, k) {
                let w = choose|w: int| 0 <= w < t.len() && t[w].0 == k;
                assert(s[w].0 == k);
            }
        }
        lemma_lookup_none(s, k);
        lemma_lookup_none(t, k);
    }
}

pub proof fn lemma_sorted_value_view(s: Seq<(Seq<char>, Value)>)
    ensures
        sorted_keys(value_entries_view(s)) == sorted_keys(s),
{
    let t = value_entries_view(s);
    assert forall|j: int| 0 <= j < s.len() implies t[j].0 == s[j].0 by {}
    if sorted_keys(s) {
        assert forall|a: int, b: int| 0 <= a < b < t.len() implies seq_lt(t[a].0, t[b].0) by {
            assert(t[a].0 == s[a].0);
            assert(t[b].0 == s[b].0);
        }
    }
    if sorted_keys(t) {
        assert forall|a: int, b: int| 0 <= a < b < s.len() implies seq_lt(s[a].0, s[b].0) by {
            assert(t[a].0 == s[a].0);
            assert(t[b].0 == s[b].0);
        }
    }
}

/// A model state: values bound to field names, in increasing name order.
#[derive(Clone, Debug, PartialEq, Eq)]
pub struct ModelState {
    fields: StrMap<Value>,
}

impl View for ModelState {
    type V = Seq<(Seq<char>, ValueV)>;

    closed spec fn view(&self) -> Seq<(Seq<char>, ValueV)> {
        value_entries_view(self.fields@)
    }
}

impl ModelState {
    /// The state with no fields.
    pub fn new() -> (s: ModelState)
        ensures
            s@ == Seq::<(Seq<char>, ValueV)>::empty(),
    {
        let s = ModelState { fields: StrMap::new() };
        assert(s@ =~= Seq::<(Seq<char>, ValueV)>::empty());
        s
    }

    /// Binds `field` to `value`, replacing an earlier binding.
    pub fn insert(&mut self, field: String, value: Value)
        ensures
            forall|k: Seq<char>| #[trigger] lookup(final(self)@, k) == if k == field@ { Some(value@) } else { lookup(old(self)@, k) },
            forall|k: Seq<char>| #[trigger] has_key(final(self)@, k) == (k == field@ || has_key(old(self)@, k)),
            sorted_keys(old(self)@) ==> sorted_keys(final(self)@),
    {
        let ghost f = field@;
        let ghost v = value;
        let ghost before = self.fields@;
        self.fields.insert(field, value);
        proof {
            let after = self.fields@;
            assert forall|k: Seq<char>| #[trigger] lookup(value_entries_view(after), k) == if k == f { Some(v@) } else { lookup(value_entries_view(before), k) } by {
                lemma_lookup_value_view(after, k);
                lemma_lookup_value_view(before, k);
            }
            assert forall|k: Seq<char>| #[trigger] has_key(value_entries_view(after), k) == (k == f || has_key(value_entries_view(before), k)) by {
                lemma_lookup_value_view(after, k);
                lemma_lookup_value_view(before, k);
            }
            lemma_sorted_value_view(before);
            lemma_sorted_value_view(after);
        }
    }

    /// Builds a state from bindings; a later binding of a name replaces an
    /// earlier one.
    pub fn from_pairs(pairs: Vec<(String, Value)>) -> (s: ModelState)
        ensures
            forall|k: Seq<char>| #[trigger] lookup(s@, k) == match last_lookup(entries_view(pairs@), k) {
                Some(v) => Some(v@),
                None => None::<ValueV>,
            },
            sorted_keys(s@),
    {
        let mut s = ModelState::new();
        proof {
            assert forall|k: Seq<char>| #[trigger] lookup(s@, k) == match last_lookup(entries_view(pairs@.subrange(0, 0)), k) {
                Some(v) => Some(v@),
                None => None::<ValueV>,
            } by {
                assert(entries_view(pairs@.subrange(0, 0)) =~= Seq::<(Seq<char>, Value)>::empty());
                crate::smap::lemma_last_lookup_empty::<Value>(k);
                lemma_lookup_none(s@, k);
            }
        }
        let n = pairs.len();
        let mut i: usize = 0;
        while i < n
            invariant
                n == pairs@.len(),
                i <= n,
                sorted_keys(s@),
                forall|k: Seq<char>| #[trigger] lookup(s@, k) == match last_lookup(entries_view(pairs@.subrange(0, i as int)), k) {
                    Some(v) => Some(v@),
                    None => None::<ValueV>,
                },
            decreases n - i,
        {
            let ghost before = s@;
            let key = pairs[i].0.clone();
            let value = pairs[i].1.copy();
            s.insert(key, value);
            proof {
                let prefix = entries_view(pairs@.subrange(0, i as int));
                assert(entries_view(pairs@.subrange(0, i + 1)) =~= prefix.push((pairs@[i as int].0@, pairs@[i as int].1)));
                assert forall|k: Seq<char>| #[trigger] lookup(s@, k) == match last_lookup(entries_view(pairs@.subrange(0, i + 1)), k) {
                    Some(v) => Some(v@),
                    None => None::<ValueV>,
                } by {
                    crate::smap::lemma_last_lookup_push(prefix, (pairs@[i as int].0@, pairs@[i as int].1), k);
                }
            }
            i = i + 1;
        }
        proof {
            assert(pairs@.subrange(0, n as int) =~= pairs@);
        }
        s
    }

    /// The value of `field`, if bound.
    pub fn get(&self, field: &str) -> (r: Option<&Value>)
        ensures
            r is Some <==> has_key(self@, field@),
            r matches Some(v) ==> lookup(self@, field@) == Some(v@),
            r is None ==> lookup(self@, field@) is None,
    {
        proof {
            lemma_lookup_value_view(self.fields@, field@);
        }
        self.fields.get(field)
    }

    pub fn contains_key(&self, field: &str) -> (r: bool)
        ensures
            r == has_key(self@, field@),
    {
        proof {
            lemma_lookup_value_view(self.fields@, field@);
        }
        self.fields.contains_key(field)
    }

    /// Number of bound fields.
    pub fn len(&self) -> (n: usize)
        ensures
            n == self@.len(),
    {
        self.fields.len()
    }

    /// The bindings, in storage order.
    pub fn entries(&self) -> (r: &Vec<(String, Value)>)
        ensures
            value_entries_view(entries_view(r@)) == self@,
    {
        self.fields.entries()
    }

    /// A copy with the same bindings.
    pub fn copy(&self) -> (r: ModelState)
        ensures
            r@ == self@,
    {
        let e = self.fields.entries();
        let mut fields = StrMap::new();
        let n = e.len();
        let mut i: usize = 0;
        while i < n
            invariant
                n == e@.len(),
                i <= n,
                entries_view(e@) == self.fields@,
                value_entries_view(fields@) == value_entries_view(self.fields@).subrange(0, i as int),
            decreases n - i,
        {
            let ghost before = fields@;
            let k = e[i].0.clone();
            let v = e[i].1.copy();
            fields.push_unchecked(k, v);
            proof {
                assert(value_entries_view(fields@) =~= value_entries_view(self.fields@).subrange(0, i + 1));
            }
            i = i + 1;
        }
        proof {
            assert(value_entries_view(self.fields@).subrange(0, n as int) =~= value_entries_view(self.fields@));
        }
        ModelState { fields }
    }

    /// Whether both states have the same bindings in the same order.
    pub fn same(&self, other: &ModelState) -> (r: bool)
        ensures
            r == (self@ == other@),
    {
        let a = self.fields.entries();
        let b = other.fields.entries();
        if a.len() != b.len() {
            proof {
                assert(self@.len() != other@.len());
            }
            return false;
        }
        let n = a.len();
        let mut i: usize = 0;
        while i < n
            invariant
                n == a@.len(),
                n == b@.len(),
                i <= n,
                entries_view(a@) == self.fields@,
                entries_view(b@) == other.fields@,
                forall|j: int| 0 <= j < i ==> self@[j] == other@[j],
            decreases n - i,
        {
            let ghost j = i as int;
            if !str_eq(a[i].0.as_str(), b[i].0.as_str()) || !a[i].1.same(&b[i].1) {
                proof {
                    assert(self@[j].0 == a@[j].0@ && self@[j].1 == a@[j].1@);
                    assert(other@[j].0 == b@[j].0@ && other@[j].1 == b@[j].1@);
                }
                return false;
            }
            proof {
                assert(self@[j].0 == a@[j].0@ && self@[j].1 == a@[j].1@);
                assert(other@[j].0 == b@[j].0@ && other@[j].1 == b@[j].1@);
            }
            i = i + 1;
        }
        proof {
            assert(self@ =~= other@);
        }
        true
    }
}

#[derive(Clone, Debug, PartialEq, Eq, PartialOrd, Ord, Hash)]
pub enum TransitionKind {
    /// A declared action, including an internal or refinement-hidden action.
    Action(String),
    /// The distinguished temporal closure step: an action-free self-loop.
    IdentityStutter,
}

pub enum KindV {
    Action(Seq<char>),
    IdentityStutter,
}

impl View for TransitionKind {
    type V = KindV;

    open spec fn view(&self) -> KindV {
        match self {
            TransitionKind::Action(a) => KindV::Action(a@),
            TransitionKind::IdentityStutter => KindV::IdentityStutter,
        }
    }
}

impl TransitionKind {
    /// The action name, or `None` for the identity stutter.
    pub fn action(&self) -> (r: Option<&str>)
        ensures
            match self@ {
                KindV::Action(a) => r is Some && r->0@ == a,
                KindV::IdentityStutter => r is None,
            },
    {
        match self {
            TransitionKind::Action(action) => Some(action.as_str()),
            TransitionKind::IdentityStutter => None,
        }
    }

    pub fn copy(&self) -> (r: TransitionKind)
        ensures
            r@ == self@,
    {
        match self {
            TransitionKind::Action(a) => TransitionKind::Action(a.clone()),
            TransitionKind::IdentityStutter => TransitionKind::IdentityStutter,
        }
    }

    /// Whether this is the action named `action`.
    pub fn is_action(&self, action: &str) -> (r: bool)
        ensures
            r == (self@ == KindV::Action(action@)),
    {
        match self {
            TransitionKind::Action(a) => str_eq(a.as_str(), action),
            TransitionKind::IdentityStutter => false,
        }
    }
}

#[derive(Clone, Debug, PartialEq, Eq, PartialOrd, Ord, Hash)]
pub struct Transition {
    pub from: StateId,
    pub to: StateId,
    pub kind: TransitionKind,
}

pub struct TransitionV {
    pub from: StateId,
    pub to: StateId,
    pub kind: KindV,
}

impl View for Transition {
    type V = TransitionV;

    open spec fn view(&self) -> TransitionV {
        TransitionV { from: self.from, to: self.to, kind: self.kind@ }
    }
}

/// The order of transition kinds: actions by name, then the stutter.
pub open spec fn kind_lt(a: KindV, b: KindV) -> bool {
    match (a, b) {
        (KindV::Action(x), KindV::Action(y)) => seq_lt(x, y),
        (KindV::Action(_), KindV::IdentityStutter) => true,
        _ => false,
    }
}

/// The order of transitions: by source, then target, then kind.
pub open spec fn transition_lt(a: TransitionV, b: TransitionV) -> bool {
    a.from < b.from || (a.from == b.from && (a.to < b.to || (a.to == b.to && kind_lt(a.kind, b.kind))))
}

pub proof fn lemma_transition_order(a: TransitionV, b: TransitionV, c: TransitionV)
    ensures
        !transition_lt(a, a),
        transition_lt(a, b) && transition_lt(b, c) ==> transition_lt(a, c),
        a == b || transition_lt(a, b) || transition_lt(b, a),
{
    match a.kind {
        KindV::Action(x) => lemma_seq_lt_irreflexive(x),
        _ => {},
    }
    if transition_lt(a, b) && transition_lt(b, c) {
        if let (KindV::Action(x), KindV::Action(y), KindV::Action(z)) = (a.kind, b.kind, c.kind) {
            if seq_lt(x, y) && seq_lt(y, z) {
                lemma_seq_lt_transitive(x, y, z);
            }
        }
    }
    if let (KindV::Action(x), KindV::Action(y)) = (a.kind, b.kind) {
        lemma_seq_lt_total(x, y);
    }
}

pub open spec fn transition_views(s: Seq<Transition>) -> Seq<TransitionV> {
    s.map_values(|t: Transition| t@)
}

impl Transition {
    /// An action step.
    pub fn action(from: StateId, action: &str, to: StateId) -> (t: Transition)
        ensures
            t@ == (TransitionV { from, to, kind: KindV::Action(action@) }),
    {
        Transition { from, to, kind: TransitionKind::Action(action.to_owned()) }
    }

    /// The identity stutter at `state`.
    pub fn identity_stutter(state: StateId) -> (t: Transition)
        ensures
            t@ == (TransitionV { from: state, to: state, kind: KindV::IdentityStutter }),
    {
        Transition { from: state, to: state, kind: TransitionKind::IdentityStutter }
    }

    pub fn copy(&self) -> (r: Transition)
        ensures
            r@ == self@,
    {
        Transition { from: self.from, to: self.to, kind: self.kind.copy() }
    }

    /// Whether `self` precedes `other` in transition order.
    pub fn precedes(&self, other: &Transition) -> (r: bool)
        ensures
            r == transition_lt(self@, other@),
    {
        if self.from != other.from {
            return self.from < other.from;
        }
        if self.to != other.to {
            return self.to < other.to;
        }
        match (&self.kind, &other.kind) {
            (TransitionKind::Action(x), TransitionKind::Action(y)) => str_lt(x.as_str(), y.as_str()),
            (TransitionKind::Action(_), TransitionKind::IdentityStutter) => true,
            _ => false,
        }
    }
}

/// Errors in building a finite graph.
#[derive(Clone, Debug, PartialEq, Eq)]
pub enum GraphError {
    EmptyStateSpace,
    NoInitialStates,
    StateOutOfRange { role: &'static str, state: StateId, state_count: usize },
    InvalidIdentityStutter { from: StateId, to: StateId },
}

impl GraphError {
    /// The description `to_string` gives.
    pub open spec fn graph_message(&self) -> Seq<char> {
        match self {
                GraphError::EmptyStateSpace => "a finite graph must contain at least one state"@,
                GraphError::NoInitialStates => "a finite graph must contain an initial state"@,
                GraphError::StateOutOfRange { role, state, state_count } => role@ + " state "@ + decimal(*state as nat)
                    + " is outside the state range 0.."@ + decimal(*state_count as nat),
                GraphError::InvalidIdentityStutter { from, to } => "identity stutter must be a self-loop, but transition is "@
                    + decimal(*from as nat) + " -> "@ + decimal(*to as nat),
        }
    }

    /// A human-readable description.
    pub fn to_string(&self) -> (r: String)
        ensures
            r@ == self.graph_message(),
    {
        match self {
            GraphError::EmptyStateSpace => String::from_str("a finite graph must contain at least one state"),
            GraphError::NoInitialStates => String::from_str("a finite graph must contain an initial state"),
            GraphError::StateOutOfRange { role, state, state_count } => {
                let tail = crate::text::two_numbers(" state ", *state, " is outside the state range 0..", *state_count, "");
                let r = String::from_str(role).concat(tail.as_str());
                proof {
                    reveal_strlit("");
                    assert(r@ =~= role@ + " state "@ + decimal(*state as nat) + " is outside the state range 0.."@ + decimal(*state_count as nat));
                }
                r
            },
            GraphError::InvalidIdentityStutter { from, to } => {
                let r = crate::text::two_numbers("identity stutter must be a self-loop, but transition is ", *from, " -> ", *to, "");
                proof {
                    reveal_strlit("");
                    assert(r@ =~= "identity stutter must be a self-loop, but transition is "@ + decimal(*from as nat) + " -> "@ + decimal(*to as nat));
                }
                r
            },
        }
    }
}

/// Strictly increasing.
pub open spec fn strictly_increasing(s: Seq<usize>) -> bool {
    forall|i: int, j: int| 0 <= i < j < s.len() ==> s[i] < s[j]
}

pub open spec fn transitions_sorted(s: Seq<TransitionV>) -> bool {
    forall|i: int, j: int| 0 <= i < j < s.len() ==> transition_lt(s[i], s[j])
}

/// A transition whose endpoints lie in `0..n`, and whose stutter is a self-loop.
pub open spec fn transition_valid(t: TransitionV, n: nat) -> bool {
    &&& t.from < n
    &&& t.to < n
    &&& (t.kind is IdentityStutter ==> t.from == t.to)
}

/// The mathematical content of a finite graph.
pub struct GraphV {
    pub states: Seq<Seq<(Seq<char>, ValueV)>>,
    pub initial: Seq<StateId>,
    pub transitions: Seq<TransitionV>,
    pub outgoing: Seq<Seq<TransitionId>>,
}

/// Well-formed graphs: nonempty, with sorted unique initial states and
/// transitions in range, and an index of outgoing transitions.
pub open spec fn graph_wf(g: GraphV) -> bool {
    &&& g.states.len() > 0
    &&& g.states.len() <= usize::MAX
    &&& g.transitions.len() <= usize::MAX
    &&& g.initial.len() > 0
    &&& strictly_increasing(g.initial)
    &&& forall|i: int| 0 <= i < g.initial.len() ==> g.initial[i] < g.states.len()
    &&& transitions_sorted(g.transitions)
    &&& forall|i: int| 0 <= i < g.transitions.len() ==> transition_valid(#[trigger] g.transitions[i], g.states.len())
    &&& g.outgoing.len() == g.states.len()
    &&& forall|s: int, k: int| 0 <= s < g.outgoing.len() && 0 <= k < g.outgoing[s].len() ==> {
        &&& g.outgoing[s][k] < g.transitions.len()
        &&& g.transitions[g.outgoing[s][k] as int].from == s
    }
    &&& forall|s: int| 0 <= s < g.outgoing.len() ==> strictly_increasing(#[trigger] g.outgoing[s])
    &&& forall|i: int| 0 <= i < g.transitions.len() ==> g.outgoing[g.transitions[i].from as int].contains(i as usize)
}

/// Some transition of `g` leads from `a` to `b`.
pub open spec fn step(g: GraphV, a: int, b: int) -> bool {
    exists|i: int| 0 <= i < g.transitions.len() && g.transitions[i].from == a && g.transitions[i].to == b
}

/// Some transition of `g` from `s` is the action `action`.
pub open spec fn enabled(g: GraphV, s: int, action: Seq<char>) -> bool {
    exists|i: int| 0 <= i < g.transitions.len() && g.transitions[i].from == s && g.transitions[i].kind == KindV::Action(action)
}

/// The identity stutters of states `0..n`.
pub open spec fn stutter_set(n: nat) -> Set<TransitionV> {
    Set::new(|t: TransitionV| t.from < n && t.to == t.from && t.kind == KindV::IdentityStutter)
}

pub open spec fn state_views(s: Seq<ModelState>) -> Seq<Seq<(Seq<char>, ValueV)>> {
    s.map_values(|m: ModelState| m@)
}

pub open spec fn outgoing_views(s: Seq<Vec<TransitionId>>) -> Seq<Seq<TransitionId>> {
    s.map_values(|v: Vec<TransitionId>| v@)
}

/// A canonical finite graph: initial states and transitions are sorted and
/// deduplicated on construction.
#[derive(Debug, PartialEq, Eq)]
pub struct FiniteGraph {
    states: Vec<ModelState>,
    initial: Vec<StateId>,
    transitions: Vec<Transition>,
    outgoing: Vec<Vec<TransitionId>>,
}

impl View for FiniteGraph {
    type V = GraphV;

    closed spec fn view(&self) -> GraphV {
        GraphV {
            states: state_views(self.states@),
            initial: self.initial@,
            transitions: transition_views(self.transitions@),
            outgoing: outgoing_views(self.outgoing@),
        }
    }
}

impl FiniteGraph {
    #[verifier::type_invariant]
    pub open spec fn wf(&self) -> bool {
        graph_wf(self@)
    }

    /// Validates and canonicalizes a graph. Errors report the first
    /// offending input in the order: states, initial states, transitions.
    pub fn new(states: Vec<ModelState>, initial: Vec<StateId>, transitions: Vec<Transition>) -> (r: Result<FiniteGraph, GraphError>)
        ensures
            states@.len() == 0 <==> r == Err::<FiniteGraph, GraphError>(GraphError::EmptyStateSpace),
            states@.len() > 0 && initial@.len() == 0 <==> r == Err::<FiniteGraph, GraphError>(GraphError::NoInitialStates),
            r is Ok <==> (states@.len() > 0 && initial@.len() > 0
                && (forall|i: int| 0 <= i < initial@.len() ==> initial@[i] < states@.len())
                && (forall|i: int| 0 <= i < transitions@.len() ==> transition_valid(#[trigger] transitions@[i]@, states@.len()))),
            r matches Ok(g) ==> {
                &&& g@.states == state_views(states@)
                &&& g@.initial.to_set() == initial@.to_set()
                &&& g@.transitions.to_set() == transition_views(transitions@).to_set()
            },
            r matches Err(GraphError::StateOutOfRange { role, state, state_count }) ==> {
                &&& state_count == states@.len()
                &&& state >= state_count
                &&& ({
                    ||| (role@ == "initial"@ && exists|i: int| 0 <= i < initial@.len() && initial@[i] == state
                        && forall|j: int| 0 <= j < i ==> initial@[j] < states@.len())
                    ||| ((forall|j: int| 0 <= j < initial@.len() ==> initial@[j] < states@.len()) && exists|i: int| 0 <= i < transitions@.len()
                        && (forall|j: int| 0 <= j < i ==> transition_valid(#[trigger] transitions@[j]@, states@.len()))
                        && ((role@ == "transition source"@ && transitions@[i].from == state)
                            || (role@ == "transition target"@ && transitions@[i].from < states@.len() && transitions@[i].to == state)))
                })
            },
            r matches Err(GraphError::InvalidIdentityStutter { from, to }) ==> {
                &&& (forall|j: int| 0 <= j < initial@.len() ==> initial@[j] < states@.len())
                &&& exists|i: int| 0 <= i < transitions@.len()
                    && (forall|j: int| 0 <= j < i ==> transition_valid(#[trigger] transitions@[j]@, states@.len()))
                    && transitions@[i].from == from && transitions@[i].to == to && from != to
                    && from < states@.len() && to < states@.len() && transitions@[i].kind is IdentityStutter
            },
    {
        if states.len() == 0 {
            return Err(GraphError::EmptyStateSpace);
        }
        if initial.len() == 0 {
            return Err(GraphError::NoInitialStates);
        }
        let state_count = states.len();
        let mut i: usize = 0;
        while i < initial.len()
            invariant
                i <= initial@.len(),
                state_count == states@.len(),
                forall|j: int| 0 <= j < i ==> initial@[j] < state_count,
            decreases initial@.len() - i,
        {
            if initial[i] >= state_count {
                return Err(GraphError::StateOutOfRange { role: "initial", state: initial[i], state_count });
            }
            i = i + 1;
        }
        let mut i: usize = 0;
        while i < transitions.len()
            invariant
                i <= transitions@.len(),
                state_count == states@.len(),
                forall|j: int| 0 <= j < i ==> transition_valid(#[trigger] transitions@[j]@, state_count as nat),
            decreases transitions@.len() - i,
        {
            let t = &transitions[i];
            assert(t@ == transitions@[i as int]@);
            if t.from >= state_count {
                return Err(GraphError::StateOutOfRange { role: "transition source", state: t.from, state_count });
            }
            if t.to >= state_count {
                return Err(GraphError::StateOutOfRange { role: "transition target", state: t.to, state_count });
            }
            match t.kind {
                TransitionKind::IdentityStutter => {
                    if t.from != t.to {
                        return Err(GraphError::InvalidIdentityStutter { from: t.from, to: t.to });
                    }
                },
                _ => {},
            }
            i = i + 1;
        }

        let mut sorted_initial: Vec<usize> = Vec::new();
        let mut i: usize = 0;
        while i < initial.len()
            invariant
                i <= initial@.len(),
                strictly_increasing(sorted_initial@),
                sorted_initial@.to_set() == initial@.subrange(0, i as int).to_set(),
            decreases initial@.len() - i,
        {
            insert_sorted_id(&mut sorted_initial, initial[i]);
            proof {
                assert(initial@.subrange(0, i + 1) =~= initial@.subrange(0, i as int).push(initial@[i as int]));
                lemma_push_to_set(initial@.subrange(0, i as int), initial@[i as int]);
            }
            i = i + 1;
        }
        proof {
            assert(initial@.subrange(0, initial@.len() as int) =~= initial@);
            assert(initial@.to_set().contains(initial@[0]));
            assert(sorted_initial@.contains(initial@[0]));
            assert forall|i: int| 0 <= i < sorted_initial@.len() implies sorted_initial@[i] < state_count by {
                assert(sorted_initial@.to_set().contains(sorted_initial@[i]));
                assert(initial@.contains(sorted_initial@[i]));
            }
        }

        let mut sorted_transitions: Vec<Transition> = Vec::new();
        let mut i: usize = 0;
        while i < transitions.len()
            invariant
                i <= transitions@.len(),
                transitions_sorted(transition_views(sorted_transitions@)),
                transition_views(sorted_transitions@).to_set() == transition_views(transitions@.subrange(0, i as int)).to_set(),
            decreases transitions@.len() - i,
        {
            insert_sorted_transition(&mut sorted_transitions, transitions[i].copy());
            proof {
                assert(transition_views(transitions@.subrange(0, i + 1)) =~= transition_views(transitions@.subrange(0, i as int)).push(transitions@[i as int]@));
                lemma_push_to_set(transition_views(transitions@.subrange(0, i as int)), transitions@[i as int]@);
            }
            i = i + 1;
        }
        proof {
            assert(transitions@.subrange(0, transitions@.len() as int) =~= transitions@);
        }
        FiniteGraph::assemble(states, sorted_initial, sorted_transitions, Ghost(transitions@))
    }

    fn assemble(states: Vec<ModelState>, initial: Vec<StateId>, transitions: Vec<Transition>, Ghost(source): Ghost<Seq<Transition>>) -> (r: Result<FiniteGraph, GraphError>)
        requires
            states@.len() > 0,
            initial@.len() > 0,
            strictly_increasing(initial@),
            forall|i: int| 0 <= i < initial@.len() ==> initial@[i] < states@.len(),
            transitions_sorted(transition_views(transitions@)),
            transition_views(transitions@).to_set() == transition_views(source).to_set(),
            forall|i: int| 0 <= i < source.len() ==> transition_valid(#[trigger] source[i]@, states@.len()),
        ensures
            r matches Ok(g) && g@.states == state_views(states@) && g@.initial == initial@ && g@.transitions == transition_views(transitions@),
    {
        let n = states.len();
        let t_count = transitions.len();
        let ghost tv = transition_views(transitions@);
        assert forall|i: int| 0 <= i < t_count implies transition_valid(#[trigger] tv[i], n as nat) by {
            assert(tv.to_set().contains(tv[i]));
            assert(transition_views(source).contains(tv[i]));
            let w = choose|w: int| 0 <= w < source.len() && transition_views(source)[w] == tv[i];
            assert(transition_valid(source[w]@, n as nat));
        }
        let mut outgoing: Vec<Vec<TransitionId>> = Vec::new();
        let mut idx: usize = 0;
        let mut s: usize = 0;
        while s < n
            invariant
                n == states@.len(),
                t_count == transitions@.len(),
                tv == transition_views(transitions@),
                transitions_sorted(tv),
                forall|i: int| 0 <= i < t_count ==> transition_valid(#[trigger] tv[i], n as nat),
                s <= n,
                idx <= t_count,
                outgoing@.len() == s,
                forall|j: int| 0 <= j < idx ==> tv[j].from < s,
                forall|j: int| idx <= j < t_count ==> tv[j].from >= s,
                forall|a: int, k: int| 0 <= a < s && 0 <= k < outgoing@[a]@.len() ==> {
                    &&& outgoing@[a]@[k] < t_count
                    &&& tv[outgoing@[a]@[k] as int].from == a
                },
                forall|a: int| 0 <= a < s ==> strictly_increasing(#[trigger] outgoing@[a]@),
                forall|j: int| 0 <= j < idx ==> outgoing@[tv[j].from as int]@.contains(j as usize),
            decreases n - s,
        {
            let mut list: Vec<TransitionId> = Vec::new();
            let ghost start = idx;
            while idx < t_count && transitions[idx].from == s
                invariant
                    n == states@.len(),
                    t_count == transitions@.len(),
                    tv == transition_views(transitions@),
                    start <= idx <= t_count,
                    s < n,
                    list@.len() == idx - start,
                    forall|k: int| 0 <= k < list@.len() ==> list@[k] == start + k,
                    forall|j: int| start <= j < idx ==> tv[j].from == s,
                decreases t_count - idx,
            {
                list.push(idx);
                idx = idx + 1;
            }
            proof {
                if idx < t_count {
                    assert(tv[idx as int].from >= s);
                    assert(tv[idx as int].from != s);
                    assert forall|j: int| idx <= j < t_count implies tv[j].from >= s + 1 by {
                        if j > idx {
                            assert(transition_lt(tv[idx as int], tv[j]));
                        }
                    }
                }
                assert forall|j: int| 0 <= j < idx implies #[trigger] tv[j].from < s + 1 by {
                    if j >= start {
                        assert(tv[j].from == s);
                    }
                }
            }
            let ghost prev = outgoing@;
            outgoing.push(list);
            proof {
                assert forall|j: int| 0 <= j < idx implies outgoing@[tv[j].from as int]@.contains(j as usize) by {
                    if j >= start {
                        assert(tv[j].from == s);
                        assert(outgoing@[s as int]@[j - start] == j);
                    } else {
                        assert(outgoing@[tv[j].from as int] == prev[tv[j].from as int]);
                    }
                }
            }
            s = s + 1;
        }
        proof {
            if idx < t_count {
                assert(tv[idx as int].from >= n);
            }
        }
        let g = FiniteGraph { states, initial, transitions, outgoing };
        proof {
            assert(g@.outgoing =~= outgoing_views(outgoing@));
        }
        Ok(g)
    }
}

/// `p` is a nonempty walk of `g` through allowed states.
pub open spec fn walk_within(g: GraphV, p: Seq<StateId>, allowed: Seq<bool>) -> bool {
    &&& p.len() > 0
    &&& forall|i: int| 0 <= i < p.len() ==> #[trigger] p[i] < g.states.len() && allowed[p[i] as int]
    &&& forall|i: int| 0 <= i < p.len() - 1 ==> step(g, #[trigger] p[i] as int, p[i + 1] as int)
}

/// `target` is reached by a walk of allowed states from one of `starts`.
pub open spec fn reaches_within(g: GraphV, starts: Seq<StateId>, allowed: Seq<bool>, target: StateId) -> bool {
    exists|p: Seq<StateId>| #[trigger] walk_within(g, p, allowed) && starts.contains(p[0]) && p.last() == target
}

/// Every state is allowed.
pub open spec fn all_allowed(n: nat) -> Seq<bool> {
    Seq::new(n, |i: int| true)
}

/// `target` is reachable from an initial state of `g`.
pub open spec fn reachable(g: GraphV, target: StateId) -> bool {
    reaches_within(g, g.initial, all_allowed(g.states.len()), target)
}

/// A path given by its states and the transitions between them.
pub open spec fn path_within(g: GraphV, states: Seq<StateId>, ids: Seq<TransitionId>, allowed: Seq<bool>) -> bool {
    &&& states.len() == ids.len() + 1
    &&& forall|i: int| 0 <= i < states.len() ==> #[trigger] states[i] < g.states.len() && allowed[states[i] as int]
    &&& forall|i: int| 0 <= i < ids.len() ==> {
        &&& #[trigger] ids[i] < g.transitions.len()
        &&& g.transitions[ids[i] as int].from == states[i]
        &&& g.transitions[ids[i] as int].to == states[i + 1]
    }
}

/// Breadth-first layering: when `target` heads the queue, every walk of
/// allowed states from a start to `target` has at least `dist[target] + 1`
/// states, counted from position `i` of the walk on.
proof fn lemma_bfs_layers(g: GraphV, starts: Seq<StateId>, allowed: Seq<bool>, queue: Seq<StateId>, head: int,
    visited: Seq<bool>, dist: Seq<int>, target: StateId, p: Seq<StateId>, i: int)
    requires
        0 <= head < queue.len(),
        queue[head] == target,
        visited.len() == g.states.len(),
        dist.len() == g.states.len(),
        forall|v: int| 0 <= v < g.states.len() && #[trigger] visited[v] ==> queue.contains(v as StateId),
        forall|a: int, b: int| #![trigger queue[a], queue[b]] 0 <= a <= b < queue.len() ==> dist[queue[a] as int] <= dist[queue[b] as int],
        forall|k: int, b: int| 0 <= k < head && 0 <= b < g.states.len() && allowed[b] && #[trigger] step(g, queue[k] as int, b) ==> visited[b],
        forall|k: int, b: int| 0 <= k < head && 0 <= b < g.states.len() && allowed[b] && #[trigger] step(g, queue[k] as int, b)
            ==> dist[b] <= dist[queue[k] as int] + 1,
        walk_within(g, p, allowed),
        p.last() == target,
        0 <= i < p.len(),
        visited[p[i] as int],
        dist[p[i] as int] <= i,
    ensures
        dist[target as int] + 1 <= p.len(),
    decreases p.len() - i,
{
    if i < p.len() - 1 && dist[p[i] as int] < dist[target as int] {
        let w = choose|w: int| 0 <= w < queue.len() && queue[w] == p[i];
        if w >= head {
            assert(dist[queue[head] as int] <= dist[queue[w] as int]);
        }
        assert(step(g, p[i] as int, p[i + 1] as int));
        assert(p[i + 1] < g.states.len() && allowed[p[i + 1] as int]);
        assert(step(g, queue[w] as int, p[i + 1] as int));
        lemma_bfs_layers(g, starts, allowed, queue, head, visited, dist, target, p, i + 1);
    }
}

proof fn lemma_walk_extend(g: GraphV, p: Seq<StateId>, allowed: Seq<bool>, w: StateId)
    requires
        walk_within(g, p, allowed),
        w < g.states.len(),
        allowed[w as int],
        step(g, p.last() as int, w as int),
    ensures
        walk_within(g, p.push(w), allowed),
        p.push(w)[0] == p[0],
        p.push(w).last() == w,
{
    let q = p.push(w);
    assert forall|i: int| 0 <= i < q.len() - 1 implies step(g, #[trigger] q[i] as int, q[i + 1] as int) by {
        if i < p.len() - 1 {
            assert(q[i] == p[i] && q[i + 1] == p[i + 1]);
        } else {
            assert(q[i] == p.last());
        }
    }
}

/// A set of allowed states that contains the allowed starts and is closed
/// under allowed steps contains every state reached within it.
proof fn lemma_closed_contains_reached(g: GraphV, starts: Seq<StateId>, allowed: Seq<bool>, mark: Seq<bool>, p: Seq<StateId>)
    requires
        mark.len() == g.states.len(),
        forall|i: int| 0 <= i < starts.len() && starts[i] < g.states.len() && allowed[starts[i] as int] ==> mark[starts[i] as int],
        forall|a: int, b: int| 0 <= a < g.states.len() && 0 <= b < g.states.len() && mark[a] && allowed[b] && step(g, a, b) ==> mark[b],
        walk_within(g, p, allowed),
        starts.contains(p[0]),
    ensures
        mark[p.last() as int],
    decreases p.len(),
{
    if p.len() == 1 {
        let i = choose|i: int| 0 <= i < starts.len() && starts[i] == p[0];
        assert(p[0] < g.states.len() && allowed[p[0] as int]);
    } else {
        let q = p.drop_last();
        assert forall|i: int| 0 <= i < q.len() - 1 implies step(g, #[trigger] q[i] as int, q[i + 1] as int) by {
            assert(q[i] == p[i] && q[i + 1] == p[i + 1]);
        }
        assert(walk_within(g, q, allowed));
        lemma_closed_contains_reached(g, starts, allowed, mark, q);
        assert(step(g, p[p.len() - 2] as int, p[p.len() - 1] as int));
        assert(p[p.len() - 1] < g.states.len() && allowed[p[p.len() - 1] as int]);
    }
}

impl FiniteGraph {
    /// The model state stored at index `i`.
    pub closed spec fn model_state(&self, i: int) -> ModelState {
        self.states@[i]
    }

    pub fn states(&self) -> (r: &Vec<ModelState>)
        ensures
            state_views(r@) == self@.states,
            forall|i: int| 0 <= i < r@.len() ==> r@[i] == self.model_state(i),
    {
        &self.states
    }

    pub fn state(&self, state: StateId) -> (r: &ModelState)
        requires
            state < self@.states.len(),
        ensures
            r@ == self@.states[state as int],
            *r == self.model_state(state as int),
    {
        &self.states[state]
    }

    pub fn state_count(&self) -> (n: usize)
        ensures
            n == self@.states.len(),
            n > 0,
    {
        proof {
            use_type_invariant(self);
        }
        self.states.len()
    }

    pub fn initial_states(&self) -> (r: &Vec<StateId>)
        ensures
            r@ == self@.initial,
    {
        &self.initial
    }

    pub fn transitions(&self) -> (r: &Vec<Transition>)
        ensures
            transition_views(r@) == self@.transitions,
    {
        &self.transitions
    }

    pub fn transition(&self, transition: TransitionId) -> (r: &Transition)
        requires
            transition < self@.transitions.len(),
        ensures
            r@ == self@.transitions[transition as int],
    {
        &self.transitions[transition]
    }

    /// Identifiers of the transitions leaving `state`, in increasing order.
    pub fn outgoing_ids(&self, state: StateId) -> (r: &Vec<TransitionId>)
        requires
            state < self@.states.len(),
        ensures
            r@ == self@.outgoing[state as int],
    {
        proof {
            use_type_invariant(self);
        }
        &self.outgoing[state]
    }

    /// Whether the action `action` can be taken at `state`.
    pub fn action_enabled(&self, state: StateId, action: &str) -> (r: bool)
        requires
            state < self@.states.len(),
        ensures
            r == enabled(self@, state as int, action@),
    {
        proof {
            use_type_invariant(self);
        }
        let out = self.outgoing_ids(state);
        let tl = self.transitions.len();
        let ghost tcount = self.transitions@.len();
        assert(self@.transitions.len() == tcount);
        let mut k: usize = 0;
        while k < out.len()
            invariant
                k <= out@.len(),
                out@ == self@.outgoing[state as int],
                graph_wf(self@),
                state < self@.states.len(),
                forall|j: int| 0 <= j < k ==> self@.transitions[out@[j] as int].kind != KindV::Action(action@),
            decreases out@.len() - k,
        {
            if self.transition(out[k]).kind.is_action(action) {
                return true;
            }
            k = k + 1;
        }
        proof {
            if enabled(self@, state as int, action@) {
                let i = choose|i: int| 0 <= i < self@.transitions.len() && self@.transitions[i].from == state && self@.transitions[i].kind == KindV::Action(action@);
                assert(self@.outgoing[self@.transitions[i].from as int].contains(i as usize));
                assert(out@.contains(i as usize));
                let j = choose|j: int| 0 <= j < out@.len() && out@[j] == i as usize;
                assert(i < tcount && tcount <= usize::MAX);
                assert(out@[j] as int == i);
                assert(self@.transitions[out@[j] as int].kind != KindV::Action(action@));
            }
        }
        false
    }

    /// A copy of this graph.
    pub fn copy(&self) -> (r: FiniteGraph)
        ensures
            r@ == self@,
    {
        proof {
            use_type_invariant(self);
        }
        let mut states: Vec<ModelState> = Vec::new();
        let mut i: usize = 0;
        while i < self.states.len()
            invariant
                i <= self.states@.len(),
                state_views(states@) == state_views(self.states@).subrange(0, i as int),
            decreases self.states@.len() - i,
        {
            states.push(self.states[i].copy());
            proof {
                assert(state_views(states@) =~= state_views(self.states@).subrange(0, i + 1));
            }
            i = i + 1;
        }
        let mut transitions: Vec<Transition> = Vec::new();
        let mut i: usize = 0;
        while i < self.transitions.len()
            invariant
                i <= self.transitions@.len(),
                transition_views(transitions@) == transition_views(self.transitions@).subrange(0, i as int),
            decreases self.transitions@.len() - i,
        {
            transitions.push(self.transitions[i].copy());
            proof {
                assert(transition_views(transitions@) =~= transition_views(self.transitions@).subrange(0, i + 1));
            }
            i = i + 1;
        }
        let mut outgoing: Vec<Vec<TransitionId>> = Vec::new();
        let mut i: usize = 0;
        while i < self.outgoing.len()
            invariant
                i <= self.outgoing@.len(),
                outgoing_views(outgoing@) == outgoing_views(self.outgoing@).subrange(0, i as int),
            decreases self.outgoing@.len() - i,
        {
            outgoing.push(self.outgoing[i].clone());
            proof {
                assert(outgoing_views(outgoing@) =~= outgoing_views(self.outgoing@).subrange(0, i + 1));
            }
            i = i + 1;
        }
        proof {
            assert(state_views(self.states@).subrange(0, self.states@.len() as int) =~= state_views(self.states@));
            assert(transition_views(self.transitions@).subrange(0, self.transitions@.len() as int) =~= transition_views(self.transitions@));
            assert(outgoing_views(self.outgoing@).subrange(0, self.outgoing@.len() as int) =~= outgoing_views(self.outgoing@));
        }
        let r = FiniteGraph { states, initial: self.initial.clone(), transitions, outgoing };
        proof {
            assert(r@.states =~= self@.states);
            assert(r@.transitions =~= self@.transitions);
            assert(r@.outgoing =~= self@.outgoing);
        }
        r
    }

    /// Closes every state under the distinguished identity stutter.
    pub fn stutter_closed(&self) -> (r: FiniteGraph)
        ensures
            r@.states == self@.states,
            r@.initial == self@.initial,
            r@.transitions.to_set() == self@.transitions.to_set() + stutter_set(self@.states.len()),
    {
        proof {
            use_type_invariant(self);
        }
        let n = self.states.len();
        let mut transitions: Vec<Transition> = Vec::new();
        let mut i: usize = 0;
        while i < self.transitions.len()
            invariant
                i <= self.transitions@.len(),
                transition_views(transitions@) == transition_views(self.transitions@).subrange(0, i as int),
            decreases self.transitions@.len() - i,
        {
            transitions.push(self.transitions[i].copy());
            proof {
                assert(transition_views(transitions@) =~= transition_views(self.transitions@).subrange(0, i + 1));
            }
            i = i + 1;
        }
        proof {
            assert(transition_views(self.transitions@).subrange(0, self.transitions@.len() as int) =~= transition_views(self.transitions@));
            assert forall|i: int| 0 <= i < transitions@.len() implies transition_valid(#[trigger] transitions@[i]@, n as nat) by {
                assert(transitions@[i]@ == transition_views(transitions@)[i]);
                assert(transition_valid(self@.transitions[i], n as nat));
            }
            assert(transition_views(transitions@).to_set() =~= self@.transitions.to_set() + stutter_set(0));
        }
        let mut s: usize = 0;
        while s < n
            invariant
                n == self@.states.len(),
                s <= n,
                graph_wf(self@),
                transition_views(transitions@).to_set() == self@.transitions.to_set() + stutter_set(s as nat),
                forall|i: int| 0 <= i < transitions@.len() ==> transition_valid(#[trigger] transitions@[i]@, n as nat),
            decreases n - s,
        {
            let ghost before = transition_views(transitions@);
            transitions.push(Transition::identity_stutter(s));
            proof {
                assert(transition_views(transitions@) =~= before.push(transitions@.last()@));
                lemma_push_to_set(before, transitions@.last()@);
                assert(transition_views(transitions@).to_set() =~= self@.transitions.to_set() + stutter_set((s + 1) as nat));
            }
            s = s + 1;
        }
        let copy = self.copy();
        let r = FiniteGraph::new(copy.states, copy.initial, transitions);
        proof {
            assert(r is Ok);
        }
        match r {
            Ok(g) => {
                proof {
                    use_type_invariant(&g);
                    assert(g@.initial.to_set() == self@.initial.to_set());
                    lemma_sorted_ids_equal(g@.initial, self@.initial);
                }
                g
            },
            Err(_) => {
                proof { assert(false); }
                self.copy()
            },
        }
    }
}

impl FiniteGraph {
    /// Marks the states reached from the allowed `starts` by walks through
    /// allowed states.
    #[verifier::rlimit(40)]
    pub fn reach_within(&self, starts: &Vec<StateId>, allowed: &Vec<bool>) -> (r: Vec<bool>)
        requires
            allowed@.len() == self@.states.len(),
        ensures
            r@.len() == self@.states.len(),
            forall|v: int| 0 <= v < self@.states.len() ==> r@[v] == reaches_within(self@, starts@, allowed@, v as StateId),
    {
        proof {
            use_type_invariant(self);
        }
        let n = self.states.len();
        let mut visited: Vec<bool> = Vec::new();
        let mut i: usize = 0;
        while i < n
            invariant
                i <= n,
                visited@.len() == i,
                forall|j: int| 0 <= j < i ==> !visited@[j],
            decreases n - i,
        {
            visited.push(false);
            i = i + 1;
        }
        let mut queue: Vec<StateId> = Vec::new();
        let mut i: usize = 0;
        while i < starts.len()
            invariant
                n == self@.states.len(),
                graph_wf(self@),
                allowed@.len() == n,
                visited@.len() == n,
                i <= starts@.len(),
                forall|v: int| 0 <= v < n && #[trigger] visited@[v] ==> reaches_within(self@, starts@, allowed@, v as StateId),
                forall|v: int| 0 <= v < n && #[trigger] visited@[v] ==> queue@.contains(v as StateId),
                forall|k: int| 0 <= k < queue@.len() ==> #[trigger] queue@[k] < n && visited@[queue@[k] as int],
                queue@.no_duplicates(),
                queue@.len() <= n,
                forall|j: int| 0 <= j < i && starts@[j] < n && allowed@[starts@[j] as int] ==> visited@[starts@[j] as int],
            decreases starts@.len() - i,
        {
            let st = starts[i];
            if st < n && allowed[st] && !visited[st] {
                proof {
                    let p = seq![st];
                    assert(walk_within(self@, p, allowed@));
                    assert(starts@.contains(p[0]));
                }
                let ghost before = queue@;
                visited.set(st, true);
                queue.push(st);
                proof {
                    assert(queue@.last() == st);
                    assert(!before.contains(st));
                    assert(queue@.no_duplicates()) by {
                        assert forall|a: int, b: int| 0 <= a < queue@.len() && 0 <= b < queue@.len() && a != b implies queue@[a] != queue@[b] by {
                            if a < before.len() && b < before.len() {
                                assert(before[a] != before[b]);
                            } else if a < before.len() {
                                assert(before[a] == queue@[a]);
                            } else {
                                assert(before[b] == queue@[b]);
                            }
                        }
                    }
                    lemma_distinct_bounded(queue@, n as int);
                    assert forall|v: int| 0 <= v < n && #[trigger] visited@[v] implies queue@.contains(v as StateId) by {
                        if v != st {
                            let w = choose|w: int| 0 <= w < before.len() && before[w] == v as StateId;
                            assert(queue@[w] == v as StateId);
                        }
                    }
                }
            }
            i = i + 1;
        }
        let mut head: usize = 0;
        while head < queue.len()
            invariant
                n == self@.states.len(),
                graph_wf(self@),
                allowed@.len() == n,
                visited@.len() == n,
                head <= queue@.len(),
                forall|v: int| 0 <= v < n && #[trigger] visited@[v] ==> reaches_within(self@, starts@, allowed@, v as StateId),
                forall|v: int| 0 <= v < n && #[trigger] visited@[v] ==> queue@.contains(v as StateId),
                forall|k: int| 0 <= k < queue@.len() ==> #[trigger] queue@[k] < n && visited@[queue@[k] as int],
                queue@.no_duplicates(),
                queue@.len() <= n,
                forall|j: int| 0 <= j < starts@.len() && starts@[j] < n && allowed@[starts@[j] as int] ==> visited@[starts@[j] as int],
                forall|k: int, b: int| 0 <= k < head && 0 <= b < n && allowed@[b] && #[trigger] step(self@, queue@[k] as int, b) ==> visited@[b],
            decreases n - head,
        {
            let state = queue[head];
            let out = self.outgoing_ids(state);
            let mut k: usize = 0;
            while k < out.len()
                invariant
                    n == self@.states.len(),
                    graph_wf(self@),
                    allowed@.len() == n,
                    visited@.len() == n,
                    head < queue@.len(),
                    state == queue@[head as int],
                    state < n,
                    out@ == self@.outgoing[state as int],
                    k <= out@.len(),
                    forall|v: int| 0 <= v < n && #[trigger] visited@[v] ==> reaches_within(self@, starts@, allowed@, v as StateId),
                    forall|v: int| 0 <= v < n && #[trigger] visited@[v] ==> queue@.contains(v as StateId),
                    forall|q: int| 0 <= q < queue@.len() ==> #[trigger] queue@[q] < n && visited@[queue@[q] as int],
                    queue@.no_duplicates(),
                    queue@.len() <= n,
                    forall|j: int| 0 <= j < starts@.len() && starts@[j] < n && allowed@[starts@[j] as int] ==> visited@[starts@[j] as int],
                    forall|q: int, b: int| 0 <= q < head && 0 <= b < n && allowed@[b] && #[trigger] step(self@, queue@[q] as int, b) ==> visited@[b],
                    forall|m: int| 0 <= m < k ==> {
                        let b = self@.transitions[#[trigger] out@[m] as int].to as int;
                        allowed@[b] ==> visited@[b]
                    },
                decreases out@.len() - k,
            {
                let target = self.transition(out[k]).to;
                if allowed[target] && !visited[target] {
                    proof {
                        assert(visited@[state as int]);
                        let p = choose|p: Seq<StateId>| #[trigger] walk_within(self@, p, allowed@) && starts@.contains(p[0]) && p.last() == state;
                        assert(step(self@, state as int, target as int));
                        lemma_walk_extend(self@, p, allowed@, target);
                        assert(walk_within(self@, p.push(target), allowed@) && starts@.contains(p.push(target)[0]) && p.push(target).last() == target);
                    }
                    let ghost before = queue@;
                    visited.set(target, true);
                    queue.push(target);
                    proof {
                        assert(queue@.last() == target);
                        assert(!before.contains(target));
                        assert(queue@.no_duplicates()) by {
                            assert forall|a: int, b: int| 0 <= a < queue@.len() && 0 <= b < queue@.len() && a != b implies queue@[a] != queue@[b] by {
                                if a < before.len() && b < before.len() {
                                    assert(before[a] != before[b]);
                                } else if a < before.len() {
                                    assert(before[a] == queue@[a]);
                                } else {
                                    assert(before[b] == queue@[b]);
                                }
                            }
                        }
                        lemma_distinct_bounded(queue@, n as int);
                        assert forall|v: int| 0 <= v < n && #[trigger] visited@[v] implies queue@.contains(v as StateId) by {
                            if v != target {
                                let w = choose|w: int| 0 <= w < before.len() && before[w] == v as StateId;
                                assert(queue@[w] == v as StateId);
                            }
                        }
                    }
                }
                k = k + 1;
            }
            proof {
                assert forall|b: int| 0 <= b < n && allowed@[b] && step(self@, state as int, b) implies visited@[b] by {
                    let i = choose|i: int| 0 <= i < self@.transitions.len() && self@.transitions[i].from == state as int && self@.transitions[i].to == b;
                    assert(self@.outgoing[self@.transitions[i].from as int].contains(i as usize));
                    let m = choose|m: int| 0 <= m < out@.len() && out@[m] == i as usize;
                    assert(out@[m] < self@.transitions.len());
                    assert(out@[m] as int == i);
                }
            }
            head = head + 1;
        }
        proof {
            assert forall|v: int| 0 <= v < n implies visited@[v] == reaches_within(self@, starts@, allowed@, v as StateId) by {
                if reaches_within(self@, starts@, allowed@, v as StateId) {
                    let p = choose|p: Seq<StateId>| #[trigger] walk_within(self@, p, allowed@) && starts@.contains(p[0]) && p.last() == v as StateId;
                    assert forall|a: int, b: int| 0 <= a < n && 0 <= b < n && visited@[a] && allowed@[b] && step(self@, a, b) implies visited@[b] by {
                        let w = choose|w: int| 0 <= w < queue@.len() && queue@[w] == a as StateId;
                        assert(step(self@, queue@[w] as int, b));
                    }
                    lemma_closed_contains_reached(self@, starts@, allowed@, visited@, p);
                }
            }
        }
        visited
    }

    /// A breadth-first path from one of the allowed `starts` to `target`
    /// through allowed states: its states and the transitions between them,
    /// no longer than any walk from a start to `target` through allowed
    /// states.
    pub fn shortest_path(&self, starts: &Vec<StateId>, target: StateId, allowed: &Vec<bool>) -> (r: Option<(Vec<StateId>, Vec<TransitionId>)>)
        requires
            allowed@.len() == self@.states.len(),
        ensures
            r is Some <==> target < self@.states.len() && reaches_within(self@, starts@, allowed@, target),
            r matches Some((ps, ids)) ==> {
                &&& path_within(self@, ps@, ids@, allowed@)
                &&& starts@.contains(ps@[0])
                &&& ps@.last() == target
                &&& forall|p: Seq<StateId>| #[trigger] walk_within(self@, p, allowed@) && starts@.contains(p[0]) && p.last() == target
                    ==> ps@.len() <= p.len()
            },
    {
        proof {
            use_type_invariant(self);
        }
        let n = self.states.len();
        if target >= n {
            return None;
        }
        let marks = self.reach_within(starts, allowed);
        if !marks[target] {
            return None;
        }
        let mut visited: Vec<bool> = Vec::new();
        let mut has_parent: Vec<bool> = Vec::new();
        let mut parent_state: Vec<StateId> = Vec::new();
        let mut parent_id: Vec<TransitionId> = Vec::new();
        let mut i: usize = 0;
        while i < n
            invariant
                i <= n,
                visited@.len() == i,
                has_parent@.len() == i,
                parent_state@.len() == i,
                parent_id@.len() == i,
                forall|j: int| 0 <= j < i ==> !visited@[j] && !has_parent@[j],
            decreases n - i,
        {
            visited.push(false);
            has_parent.push(false);
            parent_state.push(0);
            parent_id.push(0);
            i = i + 1;
        }
        let ghost mut dist: Seq<int> = Seq::new(n as nat, |j: int| 0);
        let mut queue: Vec<StateId> = Vec::new();
        let mut i: usize = 0;
        while i < starts.len()
            invariant
                n == self@.states.len(),
                graph_wf(self@),
                allowed@.len() == n,
                visited@.len() == n,
                has_parent@.len() == n,
                parent_state@.len() == n,
                parent_id@.len() == n,
                dist.len() == n,
                i <= starts@.len(),
                forall|v: int| 0 <= v < n && #[trigger] visited@[v] ==> queue@.contains(v as StateId),
                forall|k: int| 0 <= k < queue@.len() ==> #[trigger] queue@[k] < n && visited@[queue@[k] as int],
                queue@.no_duplicates(),
                queue@.len() <= n,
                forall|j: int| 0 <= j < i && starts@[j] < n && allowed@[starts@[j] as int] ==> visited@[starts@[j] as int],
                forall|v: int| 0 <= v < n && #[trigger] visited@[v] ==> starts@.contains(v as StateId) && allowed@[v],
                forall|v: int| 0 <= v < n ==> !#[trigger] has_parent@[v] && dist[v] == 0,
            decreases starts@.len() - i,
        {
            let st = starts[i];
            if st < n && allowed[st] && !visited[st] {
                let ghost before = queue@;
                visited.set(st, true);
                queue.push(st);
                proof {
                    assert(starts@[i as int] == st);
                    assert(starts@.contains(st));
                    assert(queue@.last() == st);
                    assert(!before.contains(st));
                    assert(queue@.no_duplicates()) by {
                        assert forall|a: int, b: int| 0 <= a < queue@.len() && 0 <= b < queue@.len() && a != b implies queue@[a] != queue@[b] by {
                            if a < before.len() && b < before.len() {
                                assert(before[a] != before[b]);
                            } else if a < before.len() {
                                assert(before[a] == queue@[a]);
                            } else {
                                assert(before[b] == queue@[b]);
                            }
                        }
                    }
                    lemma_distinct_bounded(queue@, n as int);
                    assert forall|v: int| 0 <= v < n && #[trigger] visited@[v] implies queue@.contains(v as StateId) by {
                        if v != st {
                            let w = choose|w: int| 0 <= w < before.len() && before[w] == v as StateId;
                            assert(queue@[w] == v as StateId);
                        }
                    }
                }
            }
            i = i + 1;
        }
        let mut head: usize = 0;
        while head < queue.len()
            invariant
                n == self@.states.len(),
                graph_wf(self@),
                allowed@.len() == n,
                visited@.len() == n,
                has_parent@.len() == n,
                parent_state@.len() == n,
                parent_id@.len() == n,
                dist.len() == n,
                target < n,
                head <= queue@.len(),
                forall|v: int| 0 <= v < n && #[trigger] visited@[v] ==> queue@.contains(v as StateId),
                forall|k: int| 0 <= k < queue@.len() ==> #[trigger] queue@[k] < n && visited@[queue@[k] as int],
                queue@.no_duplicates(),
                queue@.len() <= n,
                forall|j: int| 0 <= j < starts@.len() && starts@[j] < n && allowed@[starts@[j] as int] ==> visited@[starts@[j] as int],
                forall|k: int, b: int| 0 <= k < head && 0 <= b < n && allowed@[b] && #[trigger] step(self@, queue@[k] as int, b) ==> visited@[b],
                forall|k: int, b: int| 0 <= k < head && 0 <= b < n && allowed@[b] && #[trigger] step(self@, queue@[k] as int, b)
                    ==> dist[b] <= dist[queue@[k] as int] + 1,
                forall|a: int, b: int| #![trigger queue@[a], queue@[b]] 0 <= a <= b < queue@.len() ==> dist[queue@[a] as int] <= dist[queue@[b] as int],
                forall|a: int, b: int| #![trigger queue@[a], queue@[b]] head <= a <= b < queue@.len() ==> dist[queue@[b] as int] <= dist[queue@[a] as int] + 1,
                forall|v: int| 0 <= v < n && #[trigger] visited@[v] && !has_parent@[v] ==> dist[v] == 0,
                forall|j: int| 0 <= j < starts@.len() && starts@[j] < n && allowed@[starts@[j] as int] ==> dist[#[trigger] starts@[j] as int] == 0,
                forall|k: int| 0 <= k < head ==> #[trigger] queue@[k] != target,
                forall|v: int| 0 <= v < n && #[trigger] visited@[v] ==> allowed@[v] && dist[v] >= 0,
                forall|v: int| 0 <= v < n && #[trigger] visited@[v] && !has_parent@[v] ==> starts@.contains(v as StateId),
                forall|v: int| 0 <= v < n && #[trigger] visited@[v] && has_parent@[v] ==> {
                    let p = parent_state@[v] as int;
                    let t = parent_id@[v] as int;
                    &&& 0 <= p < n
                    &&& visited@[p]
                    &&& dist[v] == dist[p] + 1
                    &&& t < self@.transitions.len()
                    &&& self@.transitions[t].from == p
                    &&& self@.transitions[t].to == v
                },
            decreases n - head,
        {
            let state = queue[head];
            if state == target {
                let r = self.trace_back(target, &visited, &has_parent, &parent_state, &parent_id, allowed, starts, Ghost(dist));
                proof {
                    assert forall|p: Seq<StateId>| #[trigger] walk_within(self@, p, allowed@) && starts@.contains(p[0]) && p.last() == target
                        implies r.0@.len() <= p.len() by {
                        let j = choose|j: int| 0 <= j < starts@.len() && starts@[j] == p[0];
                        assert(p[0] < n && allowed@[p[0] as int]);
                        lemma_bfs_layers(self@, starts@, allowed@, queue@, head as int, visited@, dist, target, p, 0);
                    }
                }
                return Some(r);
            }
            let out = self.outgoing_ids(state);
            let mut k: usize = 0;
            while k < out.len()
                invariant
                    n == self@.states.len(),
                    graph_wf(self@),
                    allowed@.len() == n,
                    visited@.len() == n,
                    has_parent@.len() == n,
                    parent_state@.len() == n,
                    parent_id@.len() == n,
                    dist.len() == n,
                    head < queue@.len(),
                    state == queue@[head as int],
                    state < n,
                    visited@[state as int],
                    out@ == self@.outgoing[state as int],
                    k <= out@.len(),
                    forall|v: int| 0 <= v < n && #[trigger] visited@[v] ==> queue@.contains(v as StateId),
                    forall|q: int| 0 <= q < queue@.len() ==> #[trigger] queue@[q] < n && visited@[queue@[q] as int],
                    queue@.no_duplicates(),
                    queue@.len() <= n,
                    forall|j: int| 0 <= j < starts@.len() && starts@[j] < n && allowed@[starts@[j] as int] ==> visited@[starts@[j] as int],
                    forall|q: int, b: int| 0 <= q < head && 0 <= b < n && allowed@[b] && #[trigger] step(self@, queue@[q] as int, b) ==> visited@[b],
                    forall|q: int, b: int| 0 <= q < head && 0 <= b < n && allowed@[b] && #[trigger] step(self@, queue@[q] as int, b)
                        ==> dist[b] <= dist[queue@[q] as int] + 1,
                    forall|a: int, b: int| #![trigger queue@[a], queue@[b]] 0 <= a <= b < queue@.len() ==> dist[queue@[a] as int] <= dist[queue@[b] as int],
                    forall|a: int, b: int| #![trigger queue@[a], queue@[b]] head <= a <= b < queue@.len() ==> dist[queue@[b] as int] <= dist[queue@[a] as int] + 1,
                    forall|v: int| 0 <= v < n && #[trigger] visited@[v] && !has_parent@[v] ==> dist[v] == 0,
                    forall|j: int| 0 <= j < starts@.len() && starts@[j] < n && allowed@[starts@[j] as int] ==> dist[#[trigger] starts@[j] as int] == 0,
                    forall|q: int| 0 <= q < head ==> #[trigger] queue@[q] != target,
                    forall|m: int| 0 <= m < k ==> {
                        let b = self@.transitions[#[trigger] out@[m] as int].to as int;
                        allowed@[b] ==> visited@[b] && dist[b] <= dist[state as int] + 1
                    },
                    forall|v: int| 0 <= v < n && #[trigger] visited@[v] ==> allowed@[v] && dist[v] >= 0,
                    forall|v: int| 0 <= v < n && #[trigger] visited@[v] && !has_parent@[v] ==> starts@.contains(v as StateId),
                    forall|v: int| 0 <= v < n && #[trigger] visited@[v] && has_parent@[v] ==> {
                        let p = parent_state@[v] as int;
                        let t = parent_id@[v] as int;
                        &&& 0 <= p < n
                        &&& visited@[p]
                        &&& dist[v] == dist[p] + 1
                        &&& t < self@.transitions.len()
                        &&& self@.transitions[t].from == p
                        &&& self@.transitions[t].to == v
                    },
                decreases out@.len() - k,
            {
                let tid = out[k];
                let next = self.transition(tid).to;
                if allowed[next] && !visited[next] {
                    let ghost before = queue@;
                    visited.set(next, true);
                    has_parent.set(next, true);
                    parent_state.set(next, state);
                    parent_id.set(next, tid);
                    proof {
                        assert forall|w: int| 0 <= w < before.len() implies #[trigger] before[w] != next by {
                            assert(visited@[before[w] as int] || before[w] == next);
                        }
                        dist = dist.update(next as int, dist[state as int] + 1);
                    }
                    queue.push(next);
                    proof {
                        assert forall|a: int, b: int| #![trigger queue@[a], queue@[b]] 0 <= a <= b < queue@.len()
                            implies dist[queue@[a] as int] <= dist[queue@[b] as int] by {
                            if b == before.len() && a < before.len() {
                                if a < head {
                                    assert(dist[before[a] as int] <= dist[before[head as int] as int]);
                                } else {
                                    assert(dist[before[a] as int] <= dist[before[head as int] as int] + 1);
                                }
                            } else if b < before.len() {
                                assert(dist[before[a] as int] <= dist[before[b] as int]);
                            }
                        }
                        assert forall|a: int, b: int| #![trigger queue@[a], queue@[b]] head <= a <= b < queue@.len()
                            implies dist[queue@[b] as int] <= dist[queue@[a] as int] + 1 by {
                            if b == before.len() && a < before.len() {
                                assert(dist[before[head as int] as int] <= dist[before[a] as int]);
                            } else if b < before.len() {
                                assert(dist[before[b] as int] <= dist[before[a] as int] + 1);
                            }
                        }
                        assert(queue@.last() == next);
                        assert(!before.contains(next));
                        assert(queue@.no_duplicates()) by {
                            assert forall|a: int, b: int| 0 <= a < queue@.len() && 0 <= b < queue@.len() && a != b implies queue@[a] != queue@[b] by {
                                if a < before.len() && b < before.len() {
                                    assert(before[a] != before[b]);
                                } else if a < before.len() {
                                    assert(before[a] == queue@[a]);
                                } else {
                                    assert(before[b] == queue@[b]);
                                }
                            }
                        }
                        lemma_distinct_bounded(queue@, n as int);
                        assert forall|v: int| 0 <= v < n && #[trigger] visited@[v] implies queue@.contains(v as StateId) by {
                            if v != next {
                                let w = choose|w: int| 0 <= w < before.len() && before[w] == v as StateId;
                                assert(queue@[w] == v as StateId);
                            }
                        }
                    }
                } else if allowed[next] {
                    proof {
                        let w = choose|w: int| 0 <= w < queue@.len() && queue@[w] == next;
                        if w < head {
                            assert(dist[queue@[w] as int] <= dist[queue@[head as int] as int]);
                        } else {
                            assert(dist[queue@[w] as int] <= dist[queue@[head as int] as int] + 1);
                        }
                    }
                }
                k = k + 1;
            }
            proof {
                assert forall|b: int| 0 <= b < n && allowed@[b] && step(self@, state as int, b) implies visited@[b] && dist[b] <= dist[state as int] + 1 by {
                    let i = choose|i: int| 0 <= i < self@.transitions.len() && self@.transitions[i].from == state as int && self@.transitions[i].to == b;
                    assert(self@.outgoing[self@.transitions[i].from as int].contains(i as usize));
                    let m = choose|m: int| 0 <= m < out@.len() && out@[m] == i as usize;
                    assert(out@[m] < self@.transitions.len());
                    assert(out@[m] as int == i);
                }
            }
            head = head + 1;
        }
        proof {
            let p = choose|p: Seq<StateId>| #[trigger] walk_within(self@, p, allowed@) && starts@.contains(p[0]) && p.last() == target;
            assert forall|a: int, b: int| 0 <= a < n && 0 <= b < n && visited@[a] && allowed@[b] && step(self@, a, b) implies visited@[b] by {
                let w = choose|w: int| 0 <= w < queue@.len() && queue@[w] == a as StateId;
                assert(step(self@, queue@[w] as int, b));
            }
            lemma_closed_contains_reached(self@, starts@, allowed@, visited@, p);
            let w = choose|w: int| 0 <= w < queue@.len() && queue@[w] == target;
            assert(queue@[w] != target);
        }
        None
    }

    fn trace_back(&self, target: StateId, visited: &Vec<bool>, has_parent: &Vec<bool>, parent_state: &Vec<StateId>,
        parent_id: &Vec<TransitionId>, allowed: &Vec<bool>, starts: &Vec<StateId>, Ghost(dist): Ghost<Seq<int>>) -> (r: (Vec<StateId>, Vec<TransitionId>))
        requires
            graph_wf(self@),
            target < self@.states.len(),
            allowed@.len() == self@.states.len(),
            visited@.len() == self@.states.len(),
            has_parent@.len() == self@.states.len(),
            parent_state@.len() == self@.states.len(),
            parent_id@.len() == self@.states.len(),
            dist.len() == self@.states.len(),
            visited@[target as int],
            forall|v: int| 0 <= v < self@.states.len() && #[trigger] visited@[v] ==> allowed@[v] && dist[v] >= 0,
            forall|v: int| 0 <= v < self@.states.len() && #[trigger] visited@[v] && !has_parent@[v] ==> starts@.contains(v as StateId),
            forall|v: int| 0 <= v < self@.states.len() && #[trigger] visited@[v] && !has_parent@[v] ==> dist[v] == 0,
            forall|v: int| 0 <= v < self@.states.len() && #[trigger] visited@[v] && has_parent@[v] ==> {
                let p = parent_state@[v] as int;
                let t = parent_id@[v] as int;
                &&& 0 <= p < self@.states.len()
                &&& visited@[p]
                &&& dist[v] == dist[p] + 1
                &&& t < self@.transitions.len()
                &&& self@.transitions[t].from == p
                &&& self@.transitions[t].to == v
            },
        ensures
            path_within(self@, r.0@, r.1@, allowed@),
            starts@.contains(r.0@[0]),
            r.0@.last() == target,
            r.0@.len() == dist[target as int] + 1,
    {
        let mut back_states: Vec<StateId> = vec![target];
        let mut back_ids: Vec<TransitionId> = Vec::new();
        let mut cursor = target;
        while has_parent[cursor]
            invariant
                cursor < self@.states.len(),
                visited@[cursor as int],
                back_states@.len() == back_ids@.len() + 1,
                back_states@[0] == target,
                back_states@.last() == cursor,
                dist[cursor as int] + back_states@.len() - 1 == dist[target as int],
                forall|i: int| 0 <= i < back_states@.len() ==> #[trigger] back_states@[i] < self@.states.len() && visited@[back_states@[i] as int],
                forall|i: int| 0 <= i < back_ids@.len() ==> {
                    &&& #[trigger] back_ids@[i] < self@.transitions.len()
                    &&& self@.transitions[back_ids@[i] as int].from == back_states@[i + 1]
                    &&& self@.transitions[back_ids@[i] as int].to == back_states@[i]
                },
            decreases dist[cursor as int],
        {
            let p = parent_state[cursor];
            back_ids.push(parent_id[cursor]);
            back_states.push(p);
            cursor = p;
        }
        let len = back_states.len();
        let mut states: Vec<StateId> = Vec::new();
        let mut ids: Vec<TransitionId> = Vec::new();
        let mut i: usize = 0;
        while i < len
            invariant
                len == back_states@.len(),
                back_states@.len() == back_ids@.len() + 1,
                i <= len,
                states@.len() == i,
                ids@.len() == if i == 0 { 0 } else { i - 1 },
                forall|j: int| 0 <= j < i ==> states@[j] == back_states@[len - 1 - j],
                forall|j: int| 0 <= j < ids@.len() ==> ids@[j] == back_ids@[len - 2 - j],
            decreases len - i,
        {
            states.push(back_states[len - 1 - i]);
            if i > 0 {
                ids.push(back_ids[len - 1 - i]);
            }
            i = i + 1;
        }
        proof {
            assert forall|j: int| 0 <= j < states@.len() implies #[trigger] states@[j] < self@.states.len() && allowed@[states@[j] as int] by {
                assert(states@[j] == back_states@[len - 1 - j]);
            }
            assert forall|j: int| 0 <= j < ids@.len() implies {
                &&& #[trigger] ids@[j] < self@.transitions.len()
                &&& self@.transitions[ids@[j] as int].from == states@[j]
                &&& self@.transitions[ids@[j] as int].to == states@[j + 1]
            } by {
                assert(ids@[j] == back_ids@[len - 2 - j]);
                assert(states@[j] == back_states@[len - 1 - j]);
                assert(states@[j + 1] == back_states@[len - 2 - j]);
            }
            assert(states@[0] == cursor);
        }
        (states, ids)
    }

    /// The states reachable from an initial state, in increasing order.
    pub fn reachable_states(&self) -> (r: Vec<StateId>)
        ensures
            strictly_increasing(r@),
            forall|v: StateId| r@.contains(v) <==> v < self@.states.len() && reachable(self@, v),
    {
        let n = self.state_count();
        let mut all: Vec<bool> = Vec::new();
        let mut i: usize = 0;
        while i < n
            invariant
                i <= n,
                n == self@.states.len(),
                all@ == all_allowed(i as nat),
            decreases n - i,
        {
            all.push(true);
            proof {
                assert(all@ =~= all_allowed((i + 1) as nat));
            }
            i = i + 1;
        }
        let marks = self.reach_within(self.initial_states(), &all);
        mark_list(&marks)
    }
}

/// The marked positions of `marks`, in increasing order.
pub fn mark_list(marks: &Vec<bool>) -> (r: Vec<usize>)
    ensures
        strictly_increasing(r@),
        forall|v: usize| r@.contains(v) <==> v < marks@.len() && marks@[v as int],
{
    let mut r: Vec<usize> = Vec::new();
    let mut i: usize = 0;
    while i < marks.len()
        invariant
            i <= marks@.len(),
            strictly_increasing(r@),
            forall|k: int| 0 <= k < r@.len() ==> r@[k] < i,
            forall|v: usize| r@.contains(v) <==> v < i && marks@[v as int],
        decreases marks@.len() - i,
    {
        if marks[i] {
            let ghost before = r@;
            r.push(i);
            proof {
                assert forall|v: usize| r@.contains(v) <==> v < i + 1 && marks@[v as int] by {
                    if before.contains(v) {
                        let w = choose|w: int| 0 <= w < before.len() && before[w] == v;
                        assert(r@[w] == v);
                    }
                    if r@.contains(v) && v != i {
                        let w = choose|w: int| 0 <= w < r@.len() && r@[w] == v;
                        assert(before[w] == v);
                    }
                    if v == i {
                        assert(r@[before.len() as int] == v);
                    }
                }
            }
        } else {
            proof {
                assert forall|v: usize| r@.contains(v) <==> v < i + 1 && marks@[v as int] by {
                    if r@.contains(v) {
                        let w = choose|w: int| 0 <= w < r@.len() && r@[w] == v;
                    }
                }
            }
        }
        i = i + 1;
    }
    r
}

/// Distinct identifiers below `n` number at most `n`.
pub proof fn lemma_distinct_bounded(q: Seq<usize>, n: int)
    requires
        n >= 0,
        q.no_duplicates(),
        forall|k: int| 0 <= k < q.len() ==> #[trigger] q[k] < n,
    ensures
        q.len() <= n,
{
    let qi = q.map_values(|x: usize| x as int);
    assert(qi.no_duplicates()) by {
        assert forall|a: int, b: int| 0 <= a < qi.len() && 0 <= b < qi.len() && a != b implies qi[a] != qi[b] by {
            assert(q[a] != q[b]);
        }
    }
    qi.unique_seq_to_set();
    vstd::set_lib::lemma_int_range(0, n);
    assert(qi.to_set().subset_of(vstd::set_lib::set_int_range(0, n))) by {
        assert forall|x: int| qi.to_set().contains(x) implies vstd::set_lib::set_int_range(0, n).contains(x) by {
            let w = choose|w: int| 0 <= w < qi.len() && qi[w] == x;
            assert(q[w] < n);
        }
    }
    vstd::set_lib::lemma_len_subset(qi.to_set(), vstd::set_lib::set_int_range(0, n));
}

/// Two strictly increasing sequences with the same elements are equal.
pub proof fn lemma_sorted_ids_equal(a: Seq<usize>, b: Seq<usize>)
    requires
        strictly_increasing(a),
        strictly_increasing(b),
        a.to_set() == b.to_set(),
    ensures
        a == b,
    decreases a.len() + b.len(),
{
    if a.len() == 0 {
        if b.len() > 0 {
            assert(b.to_set().contains(b[0]));
        }
        assert(a =~= b);
    } else if b.len() == 0 {
        assert(a.to_set().contains(a[0]));
    } else {
        assert(a.to_set().contains(a[0]));
        assert(b.to_set().contains(b[0]));
        assert(b.contains(a[0]));
        assert(a.contains(b[0]));
        let i = choose|i: int| 0 <= i < b.len() && b[i] == a[0];
        let j = choose|j: int| 0 <= j < a.len() && a[j] == b[0];
        assert(a[0] == b[0]) by {
            if i > 0 { assert(b[0] < b[i]); }
            if j > 0 { assert(a[0] < a[j]); }
        }
        let ta = a.drop_first();
        let tb = b.drop_first();
        assert forall|x: usize| ta.to_set().contains(x) == tb.to_set().contains(x) by {
            if ta.contains(x) {
                let k = choose|k: int| 0 <= k < ta.len() && ta[k] == x;
                assert(a[k + 1] == x && a[0] < a[k + 1]);
                assert(a.to_set().contains(x));
                let m = choose|m: int| 0 <= m < b.len() && b[m] == x;
                assert(m != 0);
                assert(tb[m - 1] == x);
            }
            if tb.contains(x) {
                let k = choose|k: int| 0 <= k < tb.len() && tb[k] == x;
                assert(b[k + 1] == x && b[0] < b[k + 1]);
                assert(b.to_set().contains(x));
                let m = choose|m: int| 0 <= m < a.len() && a[m] == x;
                assert(m != 0);
                assert(ta[m - 1] == x);
            }
        }
        assert(ta.to_set() =~= tb.to_set());
        lemma_sorted_ids_equal(ta, tb);
        assert(a =~= seq![a[0]] + ta);
        assert(b =~= seq![b[0]] + tb);
    }
}

proof fn lemma_push_to_set<A>(s: Seq<A>, x: A)
    ensures
        s.push(x).to_set() == s.to_set().insert(x),
{
    assert forall|y: A| s.push(x).to_set().contains(y) == s.to_set().insert(x).contains(y) by {
        if s.contains(y) {
            let w = choose|w: int| 0 <= w < s.len() && s[w] == y;
            assert(s.push(x)[w] == y);
        }
        if s.push(x).contains(y) {
            let w = choose|w: int| 0 <= w < s.push(x).len() && s.push(x)[w] == y;
            if w < s.len() {
                assert(s[w] == y);
            }
        }
        if y == x {
            assert(s.push(x)[s.len() as int] == x);
        }
    }
    assert(s.push(x).to_set() =~= s.to_set().insert(x));
}

/// Inserts `x` into a strictly increasing vector unless present.
pub fn insert_sorted_id(v: &mut Vec<usize>, x: usize)
    requires
        strictly_increasing(old(v)@),
    ensures
        strictly_increasing(final(v)@),
        final(v)@.to_set() == old(v)@.to_set().insert(x),
{
    let n = v.len();
    let mut i: usize = 0;
    while i < n && v[i] < x
        invariant
            n == v@.len(),
            i <= n,
            v@ == old(v)@,
            forall|j: int| 0 <= j < i ==> v@[j] < x,
        decreases n - i,
    {
        i = i + 1;
    }
    if i < n && v[i] == x {
        assert(v@.to_set() =~= old(v)@.to_set().insert(x));
        return;
    }
    let ghost before = v@;
    v.insert(i, x);
    proof {
        assert(v@ == before.insert(i as int, x));
        assert forall|a: int, b: int| 0 <= a < b < v@.len() implies v@[a] < v@[b] by {
            if a < i && b > i {
                assert(v@[b] == before[b - 1]);
            } else if a > i {
                assert(v@[a] == before[a - 1]);
                assert(v@[b] == before[b - 1]);
            } else if a == i {
                assert(v@[b] == before[b - 1]);
            }
        }
        assert forall|y: usize| v@.to_set().contains(y) == before.to_set().insert(x).contains(y) by {
            if before.contains(y) {
                let w = choose|w: int| 0 <= w < before.len() && before[w] == y;
                if w < i { assert(v@[w] == y); } else { assert(v@[w + 1] == y); }
            }
            if v@.contains(y) {
                let w = choose|w: int| 0 <= w < v@.len() && v@[w] == y;
                if w < i { assert(before[w] == y); } else if w > i { assert(before[w - 1] == y); }
            }
            if y == x { assert(v@[i as int] == x); }
        }
        assert(v@.to_set() =~= before.to_set().insert(x));
    }
}

/// Inserts `t` into a strictly sorted vector of transitions unless present.
fn insert_sorted_transition(v: &mut Vec<Transition>, t: Transition)
    requires
        transitions_sorted(transition_views(old(v)@)),
    ensures
        transitions_sorted(transition_views(final(v)@)),
        transition_views(final(v)@).to_set() == transition_views(old(v)@).to_set().insert(t@),
{
    let ghost before = transition_views(v@);
    let ghost tv = t@;
    let n = v.len();
    let mut i: usize = 0;
    let mut go = n > 0 && v[0].precedes(&t);
    while go
        invariant
            n == v@.len(),
            i <= n,
            transition_views(v@) == before,
            tv == t@,
            forall|j: int| 0 <= j < i ==> transition_lt(before[j], tv),
            go ==> i < n && transition_lt(before[i as int], tv),
            !go ==> i == n || !transition_lt(before[i as int], tv),
        decreases n - i,
    {
        i = i + 1;
        go = i < n && v[i].precedes(&t);
    }
    if i < n {
        proof {
            lemma_transition_order(before[i as int], tv, tv);
        }
        if !t.precedes(&v[i]) {
            proof {
                assert(before[i as int] == tv);
                assert(before.to_set() =~= before.to_set().insert(tv));
            }
            return;
        }
    }
    v.insert(i, t);
    proof {
        let after = transition_views(v@);
        assert(after =~= before.insert(i as int, tv));
        assert forall|a: int, b: int| 0 <= a < b < after.len() implies transition_lt(after[a], after[b]) by {
            if a < i && b > i {
                assert(after[b] == before[b - 1]);
                if b - 1 > i {
                    lemma_transition_order(after[a], tv, before[i as int]);
                    lemma_transition_order(after[a], before[i as int], before[b - 1]);
                } else {
                    lemma_transition_order(after[a], tv, before[i as int]);
                }
            } else if a > i {
                assert(after[a] == before[a - 1]);
                assert(after[b] == before[b - 1]);
            } else if a == i {
                assert(after[b] == before[b - 1]);
                if b - 1 > i {
                    lemma_transition_order(tv, before[i as int], before[b - 1]);
                }
            }
        }
        assert forall|y: TransitionV| after.to_set().contains(y) == before.to_set().insert(tv).contains(y) by {
            if before.contains(y) {
                let w = choose|w: int| 0 <= w < before.len() && before[w] == y;
                if w < i { assert(after[w] == y); } else { assert(after[w + 1] == y); }
            }
            if after.contains(y) {
                let w = choose|w: int| 0 <= w < after.len() && after[w] == y;
                if w < i { assert(before[w] == y); } else if w > i { assert(before[w - 1] == y); }
            }
            if y == tv { assert(after[i as int] == tv); }
        }
        assert(after.to_set() =~= before.to_set().insert(tv));
    }
}

/// A signed integer in decimal.
pub open spec fn int_text(i: i64) -> Seq<char> {
    if i < 0 {
        "-"@ + decimal((0 - i) as nat)
    } else {
        decimal(i as nat)
    }
}

/// Renders `i` in decimal.
pub fn i64_string(i: i64) -> (r: String)
    ensures
        r@ == int_text(i),
{
    if i < 0 {
        let magnitude: u64 = if i == i64::MIN { 9223372036854775808u64 } else { (0 - i) as u64 };
        String::from_str("-").concat(crate::text::decimal_string(magnitude).as_str())
    } else {
        crate::text::decimal_string(i as u64)
    }
}

/// A value written as its variant and content: `Bool(true)`, `Int(-3)`,
/// `Text("a")`.
pub open spec fn value_debug(v: ValueV) -> Seq<char> {
    match v {
        ValueV::Bool(b) => if b { "Bool(true)"@ } else { "Bool(false)"@ },
        ValueV::Int(i) => "Int("@ + int_text(i) + ")"@,
        ValueV::Text(t) => "Text("@ + crate::text::debug_text(t) + ")"@,
    }
}

/// One binding written as `"name": value`.
pub open spec fn binding_debug(e: (Seq<char>, ValueV)) -> Seq<char> {
    crate::text::debug_text(e.0) + ": "@ + value_debug(e.1)
}

/// The bindings of `s`, separated by `, `.
pub open spec fn bindings_debug(s: Seq<(Seq<char>, ValueV)>) -> Seq<char>
    decreases s.len(),
{
    if s.len() == 0 {
        Seq::empty()
    } else if s.len() == 1 {
        binding_debug(s[0])
    } else {
        bindings_debug(s.drop_last()) + ", "@ + binding_debug(s.last())
    }
}

/// A state written as its bindings between braces: `{"x": Int(1)}`.
pub open spec fn state_debug(s: Seq<(Seq<char>, ValueV)>) -> Seq<char> {
    "{"@ + bindings_debug(s) + "}"@
}

/// The states of `v`, each as `state_debug` says, separated by `, `.
pub open spec fn states_debug_body(v: Seq<Seq<(Seq<char>, ValueV)>>) -> Seq<char>
    decreases v.len(),
{
    if v.len() == 0 {
        Seq::empty()
    } else if v.len() == 1 {
        state_debug(v[0])
    } else {
        states_debug_body(v.drop_last()) + ", "@ + state_debug(v.last())
    }
}

/// A list of states between brackets.
pub open spec fn states_debug(v: Seq<Seq<(Seq<char>, ValueV)>>) -> Seq<char> {
    "["@ + states_debug_body(v) + "]"@
}

impl Value {
    /// The value written as `value_debug` says.
    pub fn debug_string(&self) -> (r: String)
        ensures
            r@ == value_debug(self@),
    {
        match self {
            Value::Bool(b) => if *b { String::from_str("Bool(true)") } else { String::from_str("Bool(false)") },
            Value::Int(i) => String::from_str("Int(").concat(i64_string(*i).as_str()).concat(")"),
            Value::Text(t) => String::from_str("Text(").concat(crate::text::debug_string(t.as_str()).as_str()).concat(")"),
        }
    }
}

impl ModelState {
    /// The state written as `state_debug` says.
    pub fn debug_string(&self) -> (r: String)
        ensures
            r@ == state_debug(self@),
    {
        let e = self.entries();
        let ghost sv = self@;
        let mut out = String::from_str("{");
        let mut i: usize = 0;
        proof {
            reveal_strlit("{");
            assert(sv.subrange(0, 0) =~= Seq::<(Seq<char>, ValueV)>::empty());
            assert(out@ =~= "{"@ + bindings_debug(sv.subrange(0, 0)));
        }
        while i < e.len()
            invariant
                value_entries_view(entries_view(e@)) == sv,
                i <= e@.len(),
                out@ == "{"@ + bindings_debug(sv.subrange(0, i as int)),
            decreases e@.len() - i,
        {
            let ghost prev = sv.subrange(0, i as int);
            let ghost next = sv.subrange(0, i + 1);
            proof {
                assert(next.drop_last() =~= prev);
                assert(sv[i as int] == (e@[i as int].0@, e@[i as int].1@));
                assert(next.last() == sv[i as int]);
            }
            let key = crate::text::debug_string(e[i].0.as_str());
            let value = e[i].1.debug_string();
            let piece = key.concat(": ").concat(value.as_str());
            if i == 0 {
                out = out.concat(piece.as_str());
                proof {
                    assert(next.len() == 1);
                    assert(next[0] == sv[0]);
                    assert(out@ =~= "{"@ + bindings_debug(next));
                }
            } else {
                out = out.concat(", ").concat(piece.as_str());
                proof {
                    assert(out@ =~= "{"@ + bindings_debug(next));
                }
            }
            i = i + 1;
        }
        proof {
            assert(sv.subrange(0, e@.len() as int) =~= sv);
        }
        let r = out.concat("}");
        r
    }
}

/// Writes the states of `v` as `states_debug` says.
pub fn states_debug_string(v: &Vec<ModelState>) -> (r: String)
    ensures
        r@ == states_debug(state_views(v@)),
{
    let ghost sv = state_views(v@);
    let mut out = String::from_str("[");
    let mut i: usize = 0;
    proof {
        reveal_strlit("[");
        assert(sv.subrange(0, 0) =~= Seq::<Seq<(Seq<char>, ValueV)>>::empty());
        assert(out@ =~= "["@ + states_debug_body(sv.subrange(0, 0)));
    }
    while i < v.len()
        invariant
            sv == state_views(v@),
            i <= v@.len(),
            out@ == "["@ + states_debug_body(sv.subrange(0, i as int)),
        decreases v@.len() - i,
    {
        let ghost prev = sv.subrange(0, i as int);
        let ghost next = sv.subrange(0, i + 1);
        proof {
            assert(next.drop_last() =~= prev);
            assert(next.last() == v@[i as int]@);
        }
        let piece = v[i].debug_string();
        if i == 0 {
            out = out.concat(piece.as_str());
            proof {
                assert(next.len() == 1);
                assert(out@ =~= "["@ + states_debug_body(next));
            }
        } else {
            out = out.concat(", ").concat(piece.as_str());
            proof {
                assert(out@ =~= "["@ + states_debug_body(next));
            }
        }
        i = i + 1;
    }
    proof {
        assert(sv.subrange(0, v@.len() as int) =~= sv);
    }
    out.concat("]")
}

/// Two strictly sorted transition lists with the same transitions are equal.
pub proof fn lemma_sorted_transitions_unique(x: Seq<TransitionV>, y: Seq<TransitionV>)
    requires
        transitions_sorted(x),
        transitions_sorted(y),
        x.to_set() == y.to_set(),
    ensures
        x == y,
    decreases x.len(),
{
    if x.len() == 0 {
        if y.len() > 0 {
            assert(y.to_set().contains(y[0]));
        }
        assert(x =~= y);
    } else {
        assert(x.to_set().contains(x[0]));
        assert(y.len() > 0);
        assert(y.to_set().contains(y[0]));
        let j = choose|j: int| 0 <= j < y.len() && y[j] == x[0];
        let i = choose|i: int| 0 <= i < x.len() && x[i] == y[0];
        lemma_transition_order(x[0], y[0], x[0]);
        if j > 0 {
            assert(transition_lt(y[0], x[0]));
            if i > 0 {
                assert(transition_lt(x[0], y[0]));
            }
        }
        assert(x[0] == y[0]);
        let xs = x.drop_first();
        let ys = y.drop_first();
        assert forall|e: TransitionV| xs.to_set().contains(e) implies ys.to_set().contains(e) by {
            let k = choose|k: int| 0 <= k < xs.len() && xs[k] == e;
            assert(x[k + 1] == e);
            assert(y.to_set().contains(e));
            let m = choose|m: int| 0 <= m < y.len() && y[m] == e;
            if m == 0 {
                assert(transition_lt(x[0], x[k + 1]));
                lemma_transition_order(x[0], x[0], x[0]);
            }
            assert(ys[m - 1] == e);
        }
        assert forall|e: TransitionV| ys.to_set().contains(e) implies xs.to_set().contains(e) by {
            let k = choose|k: int| 0 <= k < ys.len() && ys[k] == e;
            assert(y[k + 1] == e);
            assert(x.to_set().contains(e));
            let m = choose|m: int| 0 <= m < x.len() && x[m] == e;
            if m == 0 {
                assert(transition_lt(y[0], y[k + 1]));
                lemma_transition_order(y[0], y[0], y[0]);
            }
            assert(xs[m - 1] == e);
        }
        assert(xs.to_set() =~= ys.to_set());
        lemma_sorted_transitions_unique(xs, ys);
        assert forall|k: int| 0 <= k < x.len() implies x[k] == y[k] by {
            if k > 0 {
                assert(x[k] == xs[k - 1]);
                assert(y[k] == ys[k - 1]);
            }
        }
        assert(x =~= y);
    }
}

/// Closing under stutter twice gives what closing once gives: the same
/// states, initial states and transitions. `g` is a graph, `r` what
/// `stutter_closed` makes of it, and `r2` what it makes of `r`.
pub proof fn stutter_closure_is_idempotent(g: GraphV, r: GraphV, r2: GraphV)
    requires
        graph_wf(r),
        graph_wf(r2),
        r.states == g.states,
        r.initial == g.initial,
        r.transitions.to_set() == g.transitions.to_set() + stutter_set(g.states.len()),
        r2.states == r.states,
        r2.initial == r.initial,
        r2.transitions.to_set() == r.transitions.to_set() + stutter_set(r.states.len()),
    ensures
        r2.states == r.states,
        r2.initial == r.initial,
        r2.transitions == r.transitions,
{
    assert(r2.transitions.to_set() =~= r.transitions.to_set());
    lemma_sorted_transitions_unique(r2.transitions, r.transitions);
}

} // verus!
