//! Finite, safety-only open systems: interfaces that classify graph actions
//! as inputs, outputs or internal actions, symbolic safety contracts,
//! compatibility of two systems under explicit synchronous connections,
//! their product, and an instance check of refinement congruence.

use vstd::prelude::*;
use crate::graph::{FiniteGraph, GraphError, GraphV, KindV, ModelState, StateId, Transition, TransitionKind};
use crate::observation::{ActionHiding, ObservationMap, opt_text};
use crate::open_contract::{FiniteContract, FiniteContractV, PayloadPredicate, PayloadType, PayloadTypeId};
use crate::refinement::{RefinementChecker, RefinementReport, RefinementSpec};
use crate::smap::{StrMap, entries_view, has_key, key_seq, lookup, map_entry_values, lemma_map_entry_values, sorted_keys};
use crate::text::{debug_text, decimal, number_between, quote_between, str_eq, two_numbers};
pub use crate::compose::{WorkCounter, WorkPreflightError, checked_product_index, checked_product_state_count, checked_work_product, compose, compose_with_limits};
pub use crate::congruence::{CongruenceIssue, CongruenceReport, CongruenceSpec, OpenRefinementCongruenceChecker};

verus! {

pub const DEFAULT_MAX_COMPOSED_STATES: usize = 100_000;

pub const DEFAULT_MAX_COMPOSED_TRANSITIONS: usize = 1_000_000;

pub const DEFAULT_MAX_COMPOSITION_WORK_ITEMS: usize = 50_000_000;

/// Caps on the product construction: retained states, generated transition
/// candidates, and a conservative count of explicit loop items.
#[derive(Clone, Copy, Debug, PartialEq, Eq, Structural)]
pub struct CompositionLimits {
    pub max_states: usize,
    pub max_transitions: usize,
    pub max_work_items: usize,
}

impl Default for CompositionLimits {
    fn default() -> (r: CompositionLimits)
        ensures
            r.max_states == DEFAULT_MAX_COMPOSED_STATES,
            r.max_transitions == DEFAULT_MAX_COMPOSED_TRANSITIONS,
            r.max_work_items == DEFAULT_MAX_COMPOSITION_WORK_ITEMS,
    {
        CompositionLimits {
            max_states: DEFAULT_MAX_COMPOSED_STATES,
            max_transitions: DEFAULT_MAX_COMPOSED_TRANSITIONS,
            max_work_items: DEFAULT_MAX_COMPOSITION_WORK_ITEMS,
        }
    }
}

#[derive(Clone, Copy, Debug, PartialEq, Eq, PartialOrd, Ord, Hash, Structural)]
pub enum Side {
    Left,
    Right,
}

#[derive(Clone, Copy, Debug, PartialEq, Eq, PartialOrd, Ord, Hash, Structural)]
pub enum ActionPolarity {
    Input,
    Output,
    Internal,
}

/// An input facing an output, in either order.
pub open spec fn complementary(a: ActionPolarity, b: ActionPolarity) -> bool {
    (a == ActionPolarity::Input && b == ActionPolarity::Output) || (a == ActionPolarity::Output && b == ActionPolarity::Input)
}

/// The interface of one graph action: its polarity, the channel of a
/// boundary action, and the payload type of a typed boundary action.
#[derive(Clone, Debug, PartialEq, Eq)]
pub struct ActionSignature {
    pub polarity: ActionPolarity,
    pub channel: Option<String>,
    pub payload_type: Option<PayloadType>,
}

pub struct SignatureV {
    pub polarity: ActionPolarity,
    pub channel: Option<Seq<char>>,
    pub payload: Option<Seq<u8>>,
}

pub open spec fn payload_id(p: Option<PayloadType>) -> Option<Seq<u8>> {
    match p {
        Some(t) => Some(t@.id),
        None => None,
    }
}

impl View for ActionSignature {
    type V = SignatureV;

    open spec fn view(&self) -> SignatureV {
        SignatureV { polarity: self.polarity, channel: opt_text(self.channel), payload: payload_id(self.payload_type) }
    }
}

impl ActionSignature {
    pub fn input(channel: &str) -> (r: ActionSignature)
        ensures
            r@ == (SignatureV { polarity: ActionPolarity::Input, channel: Some(channel@), payload: None }),
    {
        ActionSignature { polarity: ActionPolarity::Input, channel: Some(channel.to_owned()), payload_type: None }
    }

    pub fn output(channel: &str) -> (r: ActionSignature)
        ensures
            r@ == (SignatureV { polarity: ActionPolarity::Output, channel: Some(channel@), payload: None }),
    {
        ActionSignature { polarity: ActionPolarity::Output, channel: Some(channel.to_owned()), payload_type: None }
    }

    /// An input on `channel` carrying payloads of `payload_type`.
    pub fn typed_input(channel: &str, payload_type: PayloadType) -> (r: ActionSignature)
        ensures
            r@ == (SignatureV { polarity: ActionPolarity::Input, channel: Some(channel@), payload: Some(payload_type@.id) }),
            r.payload_type matches Some(t) && t@ == payload_type@,
    {
        ActionSignature { polarity: ActionPolarity::Input, channel: Some(channel.to_owned()), payload_type: Some(payload_type) }
    }

    /// An output on `channel` carrying payloads of `payload_type`.
    pub fn typed_output(channel: &str, payload_type: PayloadType) -> (r: ActionSignature)
        ensures
            r@ == (SignatureV { polarity: ActionPolarity::Output, channel: Some(channel@), payload: Some(payload_type@.id) }),
            r.payload_type matches Some(t) && t@ == payload_type@,
    {
        ActionSignature { polarity: ActionPolarity::Output, channel: Some(channel.to_owned()), payload_type: Some(payload_type) }
    }

    pub fn internal() -> (r: ActionSignature)
        ensures
            r@ == (SignatureV { polarity: ActionPolarity::Internal, channel: None, payload: None }),
    {
        ActionSignature { polarity: ActionPolarity::Internal, channel: None, payload_type: None }
    }

    /// A signature with the same polarity, channel and payload type.
    pub fn copy(&self) -> (r: ActionSignature)
        ensures
            r@ == self@,
    {
        let payload_type = match &self.payload_type {
            Some(t) => Some(t.copy()),
            None => None,
        };
        ActionSignature { polarity: self.polarity, channel: self.channel.clone(), payload_type }
    }
}

/// Whether two optional texts are equal.
pub fn same_text(a: &Option<String>, b: &Option<String>) -> (r: bool)
    ensures
        r == (opt_text(*a) == opt_text(*b)),
{
    match (a, b) {
        (Some(x), Some(y)) => str_eq(x.as_str(), y.as_str()),
        (None, None) => true,
        _ => false,
    }
}

#[derive(Clone, Debug, PartialEq, Eq)]
pub enum InterfaceBuildError {
    DuplicateAction(String),
}

impl InterfaceBuildError {
    /// A human-readable description.
    pub fn to_string(&self) -> (r: String)
        ensures
            r@ == match self {
                InterfaceBuildError::DuplicateAction(a) => "interface action "@ + debug_text(a@) + " is declared more than once"@,
            },
    {
        match self {
            InterfaceBuildError::DuplicateAction(a) => quote_between("interface action ", a.as_str(), " is declared more than once"),
        }
    }
}

pub open spec fn sig_fn() -> spec_fn(ActionSignature) -> SignatureV {
    |s: ActionSignature| s@
}

/// The declared actions, each with its signature, in increasing action order.
#[derive(Debug, PartialEq, Eq)]
pub struct Interface {
    actions: StrMap<ActionSignature>,
}

impl View for Interface {
    type V = Seq<(Seq<char>, SignatureV)>;

    closed spec fn view(&self) -> Seq<(Seq<char>, SignatureV)> {
        map_entry_values(self.actions@, sig_fn())
    }
}

pub open spec fn decl_views(s: Seq<(&str, ActionSignature)>) -> Seq<(Seq<char>, SignatureV)> {
    s.map_values(|d: (&str, ActionSignature)| (d.0@, d.1@))
}

/// The declaration at `i` repeats an earlier action.
pub open spec fn declared_before(s: Seq<(Seq<char>, SignatureV)>, i: int) -> bool {
    exists|j: int| 0 <= j < i && #[trigger] s[j].0 == s[i].0
}

impl Default for Interface {
    fn default() -> (r: Interface)
        ensures
            r@.len() == 0,
    {
        Interface::empty()
    }
}

impl Interface {
    /// Declarations are kept in strictly increasing action order.
    #[verifier::type_invariant]
    pub closed spec fn wf(&self) -> bool {
        sorted_keys(self.actions@)
    }

    /// The interface with no actions.
    pub fn empty() -> (r: Interface)
        ensures
            r@.len() == 0,
            sorted_keys(r@),
    {
        let r = Interface { actions: StrMap::new() };
        proof {
            lemma_map_entry_values(r.actions@, sig_fn(), Seq::empty());
        }
        r
    }

    /// Declares each action once; fails on the first repeated action.
    pub fn new(actions: Vec<(&str, ActionSignature)>) -> (r: Result<Interface, InterfaceBuildError>)
        ensures
            r is Ok <==> forall|i: int| 0 <= i < actions@.len() ==> !declared_before(decl_views(actions@), i),
            r matches Ok(f) ==> sorted_keys(f@) && forall|k: Seq<char>| #[trigger] lookup(f@, k) == crate::smap::last_lookup(decl_views(actions@), k),
            r matches Err(InterfaceBuildError::DuplicateAction(a)) ==> exists|i: int| 0 <= i < actions@.len() && actions@[i].0@ == a@
                && declared_before(decl_views(actions@), i) && forall|j: int| 0 <= j < i ==> !declared_before(decl_views(actions@), j),
    {
        let ghost dv = decl_views(actions@);
        let ghost n = actions@.len();
        let total = actions.len();
        let mut map: StrMap<ActionSignature> = StrMap::new();
        let mut rest = actions;
        let mut i: usize = 0;
        proof {
            assert(decl_views(rest@) =~= dv.subrange(0, n as int));
            assert forall|k: Seq<char>| #[trigger] lookup(map_entry_values(map@, sig_fn()), k) == crate::smap::last_lookup(dv.subrange(0, 0), k) by {
                lemma_map_entry_values(map@, sig_fn(), k);
                assert(dv.subrange(0, 0) =~= Seq::<(Seq<char>, SignatureV)>::empty());
                crate::smap::lemma_last_lookup_empty::<SignatureV>(k);
                crate::smap::lemma_lookup_none(map@, k);
            }
        }
        while rest.len() > 0
            invariant
                dv.len() == n,
                n == total,
                i + rest@.len() == n,
                decl_views(rest@) == dv.subrange(i as int, n as int),
                sorted_keys(map@),
                forall|k: Seq<char>| #[trigger] has_key(map@, k) == exists|j: int| 0 <= j < i && dv[j].0 == k,
                forall|k: Seq<char>| #[trigger] lookup(map_entry_values(map@, sig_fn()), k) == crate::smap::last_lookup(dv.subrange(0, i as int), k),
                forall|j: int| 0 <= j < i ==> !declared_before(dv, j),
            decreases rest@.len(),
        {
            let ghost before = rest@;
            let (action, signature) = rest.remove(0);
            proof {
                assert(rest@ =~= before.subrange(1, before.len() as int));
                assert(decl_views(before)[0] == dv[i as int]);
                assert(decl_views(rest@) =~= decl_views(before).subrange(1, before.len() as int));
                assert(decl_views(rest@) =~= dv.subrange(i + 1, n as int));
            }
            if map.contains_key(action) {
                proof {
                    let j = choose|j: int| 0 <= j < i && dv[j].0 == action@;
                    assert(declared_before(dv, i as int));
                }
                return Err(InterfaceBuildError::DuplicateAction(action.to_owned()));
            }
            let ghost old_map = map@;
            map.insert(action.to_owned(), signature);
            proof {
                assert(!declared_before(dv, i as int));
                let pre = dv.subrange(0, i + 1);
                assert(pre =~= dv.subrange(0, i as int).push(dv[i as int]));
                assert forall|k: Seq<char>| #[trigger] has_key(map@, k) == exists|j: int| 0 <= j < i + 1 && dv[j].0 == k by {
                    if k == action@ {
                        assert(dv[i as int].0 == k);
                    }
                    assert(has_key(old_map, k) == exists|j: int| 0 <= j < i && dv[j].0 == k);
                }
                assert forall|k: Seq<char>| #[trigger] lookup(map_entry_values(map@, sig_fn()), k) == crate::smap::last_lookup(pre, k) by {
                    crate::smap::lemma_last_lookup_push(dv.subrange(0, i as int), dv[i as int], k);
                    lemma_map_entry_values(map@, sig_fn(), k);
                    lemma_map_entry_values(old_map, sig_fn(), k);
                }
            }
            i = i + 1;
        }
        proof {
            assert(dv.subrange(0, n as int) =~= dv);
            lemma_map_entry_values(map@, sig_fn(), Seq::empty());
        }
        Ok(Interface { actions: map })
    }

    /// The interface declaring the entries of `actions`.
    pub(crate) fn from_map(actions: StrMap<ActionSignature>) -> (r: Interface)
        requires
            sorted_keys(actions@),
        ensures
            r@ == map_entry_values(actions@, sig_fn()),
    {
        Interface { actions }
    }

    /// The signature of `action`, if declared.
    pub fn get(&self, action: &str) -> (r: Option<&ActionSignature>)
        ensures
            r is Some <==> has_key(self@, action@),
            r matches Some(s) ==> lookup(self@, action@) == Some(s@),
            r is None ==> lookup(self@, action@) is None,
    {
        proof {
            lemma_map_entry_values(self.actions@, sig_fn(), action@);
        }
        self.actions.get(action)
    }

    /// The declarations, in increasing action order.
    pub fn actions(&self) -> (r: &StrMap<ActionSignature>)
        ensures
            map_entry_values(r@, sig_fn()) == self@,
            sorted_keys(r@),
            sorted_keys(self@),
    {
        proof {
            use_type_invariant(self);
            lemma_map_entry_values(self.actions@, sig_fn(), Seq::empty());
        }
        &self.actions
    }

    pub fn len(&self) -> (r: usize)
        ensures
            r == self@.len(),
    {
        self.actions.len()
    }
}

/// Exact identifiers of safety assumptions and guarantees. Equality of
/// identifiers is the discharge relation; it decides no logical implication.
#[derive(Clone, Debug, PartialEq, Eq)]
pub struct SafetyContract {
    assumptions: StrMap<()>,
    guarantees: StrMap<()>,
}

pub struct SafetyContractV {
    pub assumptions: Seq<Seq<char>>,
    pub guarantees: Seq<Seq<char>>,
}

impl View for SafetyContract {
    type V = SafetyContractV;

    closed spec fn view(&self) -> SafetyContractV {
        SafetyContractV { assumptions: key_seq(self.assumptions@), guarantees: key_seq(self.guarantees@) }
    }
}

/// The set of `items`, sorted, without duplicates.
pub fn string_set(items: Vec<&str>) -> (r: StrMap<()>)
    ensures
        sorted_keys(r@),
        key_seq(r@).to_set() == crate::open_contract::str_views(items@).to_set(),
        crate::open_contract::sorted_set_of(key_seq(r@), crate::open_contract::str_views(items@)),
{
    let ghost sv = crate::open_contract::str_views(items@);
    let mut set: StrMap<()> = StrMap::new();
    proof {
        assert(key_seq(set@).to_set() =~= sv.subrange(0, 0).to_set());
    }
    let mut i: usize = 0;
    while i < items.len()
        invariant
            sv == crate::open_contract::str_views(items@),
            i <= items@.len(),
            sorted_keys(set@),
            key_seq(set@).to_set() == sv.subrange(0, i as int).to_set(),
        decreases items@.len() - i,
    {
        let v = items[i];
        let ghost before = set@;
        set.insert(v.to_owned(), ());
        proof {
            let pre = sv.subrange(0, i + 1);
            assert(pre =~= sv.subrange(0, i as int).push(v@));
            sv.subrange(0, i as int).lemma_push_to_set_commute(v@);
            assert forall|k: Seq<char>| key_seq(set@).to_set().contains(k) <==> pre.to_set().contains(k) by {
                assert(key_seq(before).to_set().contains(k) == sv.subrange(0, i as int).to_set().contains(k));
                if key_seq(set@).contains(k) {
                    let w = choose|w: int| 0 <= w < key_seq(set@).len() && key_seq(set@)[w] == k;
                    assert(set@[w].0 == k);
                    assert(has_key(set@, k));
                    if k != v@ {
                        assert(has_key(before, k));
                        let u = choose|u: int| 0 <= u < before.len() && before[u].0 == k;
                        assert(key_seq(before)[u] == k);
                    }
                }
                if pre.to_set().contains(k) {
                    if k == v@ {
                        assert(has_key(set@, k));
                    } else {
                        assert(key_seq(before).to_set().contains(k));
                        let u = choose|u: int| 0 <= u < key_seq(before).len() && key_seq(before)[u] == k;
                        assert(before[u].0 == k);
                        assert(has_key(set@, k));
                    }
                    let w = choose|w: int| 0 <= w < set@.len() && set@[w].0 == k;
                    assert(key_seq(set@)[w] == k);
                }
            }
            assert(key_seq(set@).to_set() =~= pre.to_set());
        }
        i = i + 1;
    }
    proof {
        assert(sv.subrange(0, items@.len() as int) =~= sv);
        assert forall|a: int, b: int| 0 <= a < b < key_seq(set@).len() implies crate::text::seq_lt(key_seq(set@)[a], key_seq(set@)[b]) by {
            assert(key_seq(set@)[a] == set@[a].0 && key_seq(set@)[b] == set@[b].0);
        }
    }
    set
}

impl Default for SafetyContract {
    fn default() -> (r: SafetyContract)
        ensures
            r@.assumptions.len() == 0,
            r@.guarantees.len() == 0,
    {
        SafetyContract { assumptions: StrMap::new(), guarantees: StrMap::new() }
    }
}

impl SafetyContract {
    /// The contract with the given assumption and guarantee identifiers.
    pub fn new(assumptions: Vec<&str>, guarantees: Vec<&str>) -> (r: SafetyContract)
        ensures
            crate::open_contract::sorted_set_of(r@.assumptions, crate::open_contract::str_views(assumptions@)),
            crate::open_contract::sorted_set_of(r@.guarantees, crate::open_contract::str_views(guarantees@)),
    {
        SafetyContract { assumptions: string_set(assumptions), guarantees: string_set(guarantees) }
    }

    pub fn assumptions(&self) -> (r: &StrMap<()>)
        ensures
            key_seq(r@) == self@.assumptions,
    {
        &self.assumptions
    }

    pub fn guarantees(&self) -> (r: &StrMap<()>)
        ensures
            key_seq(r@) == self@.guarantees,
    {
        &self.guarantees
    }

    /// Whether `claim` is an assumption.
    pub fn assumes(&self, claim: &str) -> (r: bool)
        ensures
            r == self@.assumptions.contains(claim@),
    {
        let r = self.assumptions.contains_key(claim);
        proof {
            crate::open::lemma_key_seq_contains(self.assumptions@, claim@);
        }
        r
    }

    /// Whether `claim` is a guarantee.
    pub fn guarantees_claim(&self, claim: &str) -> (r: bool)
        ensures
            r == self@.guarantees.contains(claim@),
    {
        let r = self.guarantees.contains_key(claim);
        proof {
            crate::open::lemma_key_seq_contains(self.guarantees@, claim@);
        }
        r
    }
}

/// A key is among the keys exactly when some entry has it.
pub proof fn lemma_key_seq_contains<V>(s: Seq<(Seq<char>, V)>, k: Seq<char>)
    ensures
        key_seq(s).contains(k) == has_key(s, k),
{
    if key_seq(s).contains(k) {
        let w = choose|w: int| 0 <= w < key_seq(s).len() && key_seq(s)[w] == k;
        assert(s[w].0 == k);
    }
    if has_key(s, k) {
        let w = choose|w: int| 0 <= w < s.len() && s[w].0 == k;
        assert(key_seq(s)[w] == k);
    }
}


#[derive(Clone, Debug, PartialEq, Eq)]
pub enum OpenSystemIssue {
    EmptyActionName,
    UndeclaredGraphAction(String),
    BoundaryActionMissingChannel(String),
    BoundaryActionHasEmptyChannel(String),
    InternalActionHasChannel(String),
    EmptyContractClaim { kind: &'static str },
    /// An input of a payload-typed system without an assumption.
    MissingAssumption(String),
    /// An output of a payload-typed system without a guarantee.
    MissingGuarantee(String),
}

pub enum OpenIssueV {
    EmptyActionName,
    UndeclaredGraphAction(Seq<char>),
    BoundaryActionMissingChannel(Seq<char>),
    BoundaryActionHasEmptyChannel(Seq<char>),
    InternalActionHasChannel(Seq<char>),
    EmptyContractClaim(Seq<char>),
    MissingAssumption(Seq<char>),
    MissingGuarantee(Seq<char>),
}

impl View for OpenSystemIssue {
    type V = OpenIssueV;

    open spec fn view(&self) -> OpenIssueV {
        match self {
            OpenSystemIssue::EmptyActionName => OpenIssueV::EmptyActionName,
            OpenSystemIssue::UndeclaredGraphAction(a) => OpenIssueV::UndeclaredGraphAction(a@),
            OpenSystemIssue::BoundaryActionMissingChannel(a) => OpenIssueV::BoundaryActionMissingChannel(a@),
            OpenSystemIssue::BoundaryActionHasEmptyChannel(a) => OpenIssueV::BoundaryActionHasEmptyChannel(a@),
            OpenSystemIssue::InternalActionHasChannel(a) => OpenIssueV::InternalActionHasChannel(a@),
            OpenSystemIssue::EmptyContractClaim { kind } => OpenIssueV::EmptyContractClaim(kind@),
            OpenSystemIssue::MissingAssumption(a) => OpenIssueV::MissingAssumption(a@),
            OpenSystemIssue::MissingGuarantee(a) => OpenIssueV::MissingGuarantee(a@),
        }
    }
}

pub open spec fn open_issue_views(s: Seq<OpenSystemIssue>) -> Seq<OpenIssueV> {
    s.map_values(|i: OpenSystemIssue| i@)
}

/// What is wrong with the declaration of `a`.
pub open spec fn declaration_issues(a: Seq<char>, sig: SignatureV) -> Seq<OpenIssueV> {
    (if a.len() == 0 { seq![OpenIssueV::EmptyActionName] } else { Seq::empty() }) + match sig.polarity {
        ActionPolarity::Internal => if sig.channel is Some { seq![OpenIssueV::InternalActionHasChannel(a)] } else { Seq::empty() },
        _ => match sig.channel {
            None => seq![OpenIssueV::BoundaryActionMissingChannel(a)],
            Some(c) => if c.len() == 0 { seq![OpenIssueV::BoundaryActionHasEmptyChannel(a)] } else { Seq::empty() },
        },
    }
}

pub open spec fn interface_issues(iface: Seq<(Seq<char>, SignatureV)>, n: nat) -> Seq<OpenIssueV>
    decreases n,
{
    if n == 0 {
        Seq::empty()
    } else {
        interface_issues(iface, (n - 1) as nat) + declaration_issues(iface[n - 1].0, iface[n - 1].1)
    }
}

/// The graph actions among the first `n` transitions that the interface lacks.
pub open spec fn undeclared_issues(g: GraphV, iface: Seq<(Seq<char>, SignatureV)>, n: nat) -> Seq<OpenIssueV>
    decreases n,
{
    if n == 0 {
        Seq::empty()
    } else {
        undeclared_issues(g, iface, (n - 1) as nat) + match g.transitions[n - 1].kind {
            KindV::Action(a) => if has_key(iface, a) { Seq::empty() } else { seq![OpenIssueV::UndeclaredGraphAction(a)] },
            KindV::IdentityStutter => Seq::empty(),
        }
    }
}

pub open spec fn claim_issues(c: SafetyContractV) -> Seq<OpenIssueV> {
    (if c.assumptions.contains(Seq::empty()) { seq![OpenIssueV::EmptyContractClaim("assumption"@)] } else { Seq::empty() })
        + (if c.guarantees.contains(Seq::empty()) { seq![OpenIssueV::EmptyContractClaim("guarantee"@)] } else { Seq::empty() })
}

/// `preds` holds a predicate for `k` over the payload type `payload`.
pub open spec fn typed_clause(preds: Seq<(Seq<char>, crate::open_contract::PayloadPredicateV)>, k: Seq<char>, payload: Option<Seq<u8>>) -> bool {
    lookup(preds, k) matches Some(p) && Some(p.payload_type) == payload
}

/// The boundary actions among the first `n` declarations without a
/// predicate over their payload type.
pub open spec fn payload_issues(iface: Seq<(Seq<char>, SignatureV)>, pc: FiniteContractV, n: nat) -> Seq<OpenIssueV>
    decreases n,
{
    if n == 0 {
        Seq::empty()
    } else {
        payload_issues(iface, pc, (n - 1) as nat) + match iface[n - 1].1.polarity {
            ActionPolarity::Input => if typed_clause(pc.assumptions, iface[n - 1].0, iface[n - 1].1.payload) { Seq::empty() }
                else { seq![OpenIssueV::MissingAssumption(iface[n - 1].0)] },
            ActionPolarity::Output => if typed_clause(pc.guarantees, iface[n - 1].0, iface[n - 1].1.payload) { Seq::empty() }
                else { seq![OpenIssueV::MissingGuarantee(iface[n - 1].0)] },
            ActionPolarity::Internal => Seq::empty(),
        }
    }
}

/// `k`, if declared as an input, has an assumption, and if declared as an
/// output, a guarantee, over its payload type.
pub open spec fn payload_ok(iface: Seq<(Seq<char>, SignatureV)>, pc: FiniteContractV, k: Seq<char>) -> bool {
    match lookup(iface, k) {
        Some(sig) => match sig.polarity {
            ActionPolarity::Input => typed_clause(pc.assumptions, k, sig.payload),
            ActionPolarity::Output => typed_clause(pc.guarantees, k, sig.payload),
            ActionPolarity::Internal => true,
        },
        None => true,
    }
}

/// Every input has an assumption, and every output a guarantee, over its
/// payload type.
pub open spec fn payload_complete(iface: Seq<(Seq<char>, SignatureV)>, pc: FiniteContractV) -> bool {
    forall|k: Seq<char>| #[trigger] payload_ok(iface, pc, k)
}

proof fn lemma_payload_issues_prefix(iface: Seq<(Seq<char>, SignatureV)>, pc: FiniteContractV, n: nat)
    requires
        n <= iface.len(),
        payload_issues(iface, pc, n).len() == 0,
    ensures
        forall|i: int| 0 <= i < n ==> match (#[trigger] iface[i]).1.polarity {
            ActionPolarity::Input => typed_clause(pc.assumptions, iface[i].0, iface[i].1.payload),
            ActionPolarity::Output => typed_clause(pc.guarantees, iface[i].0, iface[i].1.payload),
            ActionPolarity::Internal => true,
        },
    decreases n,
{
    if n > 0 {
        lemma_payload_issues_prefix(iface, pc, (n - 1) as nat);
    }
}

/// With no payload issue, every declared boundary action has its predicate.
pub proof fn lemma_payload_complete(iface: Seq<(Seq<char>, SignatureV)>, pc: FiniteContractV)
    requires
        payload_issues(iface, pc, iface.len()).len() == 0,
    ensures
        payload_complete(iface, pc),
{
    lemma_payload_issues_prefix(iface, pc, iface.len());
    assert forall|k: Seq<char>| #[trigger] payload_ok(iface, pc, k) by {
        reveal(lookup);
        if crate::smap::has_key(iface, k) {
            let i = crate::smap::first_key_index(iface, k);
            crate::smap::lemma_has_key_first(iface, k);
            assert(iface[i] == (k, lookup(iface, k)->0));
        }
    }
}

/// Every issue of a graph, interface and safety contract, in report order.
pub open spec fn open_system_issues(g: GraphV, iface: Seq<(Seq<char>, SignatureV)>, c: SafetyContractV) -> Seq<OpenIssueV> {
    interface_issues(iface, iface.len()) + undeclared_issues(g, iface, g.transitions.len()) + claim_issues(c)
}

/// What `OpenSystem::new` and `OpenSystem::with_payload_contract` establish
/// of the systems they build: a well-formed graph, an interface with each
/// action once, and every graph action declared.
pub open spec fn open_system_valid(s: OpenSystemV) -> bool {
    &&& crate::graph::graph_wf(s.graph)
    &&& sorted_keys(s.interface)
    &&& undeclared_issues(s.graph, s.interface, s.graph.transitions.len()).len() == 0
}

/// A finite graph with a total action interface and a contract.
#[derive(Debug, PartialEq, Eq)]
pub struct OpenSystem {
    graph: FiniteGraph,
    interface: Interface,
    contract: SafetyContract,
    payload_contract: FiniteContract,
}

pub struct OpenSystemV {
    pub graph: GraphV,
    pub interface: Seq<(Seq<char>, SignatureV)>,
    pub contract: SafetyContractV,
    pub payload_contract: FiniteContractV,
}

impl View for OpenSystem {
    type V = OpenSystemV;

    closed spec fn view(&self) -> OpenSystemV {
        OpenSystemV { graph: self.graph@, interface: self.interface@, contract: self.contract@, payload_contract: self.payload_contract@ }
    }
}

fn push_issue(issues: &mut Vec<OpenSystemIssue>, issue: OpenSystemIssue)
    ensures
        open_issue_views(final(issues)@) == open_issue_views(old(issues)@).push(issue@),
{
    let ghost before = open_issue_views(issues@);
    issues.push(issue);
    proof {
        assert(open_issue_views(issues@) =~= before.push(issue@));
    }
}

fn check_declarations(interface: &Interface) -> (r: Vec<OpenSystemIssue>)
    ensures
        open_issue_views(r@) == interface_issues(interface@, interface@.len()),
{
    let entries = interface.actions().entries();
    let ghost iv = interface@;
    let mut issues: Vec<OpenSystemIssue> = Vec::new();
    proof {
        assert(open_issue_views(issues@) =~= interface_issues(iv, 0));
    }
    let mut i: usize = 0;
    while i < entries.len()
        invariant
            map_entry_values(entries_view(entries@), sig_fn()) == iv,
            i <= entries@.len(),
            open_issue_views(issues@) == interface_issues(iv, i as nat),
        decreases entries@.len() - i,
    {
        let action = &entries[i].0;
        let signature = &entries[i].1;
        proof {
            assert(iv[i as int] == (action@, signature@));
        }
        let ghost start = open_issue_views(issues@);
        if action.as_str().is_empty() {
            push_issue(&mut issues, OpenSystemIssue::EmptyActionName);
        }
        match signature.polarity {
            ActionPolarity::Internal => {
                if signature.channel.is_some() {
                    push_issue(&mut issues, OpenSystemIssue::InternalActionHasChannel(action.clone()));
                }
            },
            _ => {
                match &signature.channel {
                    None => {
                        push_issue(&mut issues, OpenSystemIssue::BoundaryActionMissingChannel(action.clone()));
                    },
                    Some(c) => {
                        if c.as_str().is_empty() {
                            push_issue(&mut issues, OpenSystemIssue::BoundaryActionHasEmptyChannel(action.clone()));
                        }
                    },
                }
            },
        }
        proof {
            assert(open_issue_views(issues@) =~= start + declaration_issues(action@, signature@));
        }
        i = i + 1;
    }
    issues
}

fn check_graph_actions(graph: &FiniteGraph, interface: &Interface) -> (r: Vec<OpenSystemIssue>)
    ensures
        open_issue_views(r@) == undeclared_issues(graph@, interface@, graph@.transitions.len()),
{
    let n = graph.transitions().len();
    let mut issues: Vec<OpenSystemIssue> = Vec::new();
    proof {
        assert(open_issue_views(issues@) =~= undeclared_issues(graph@, interface@, 0));
    }
    let mut k: usize = 0;
    while k < n
        invariant
            n == graph@.transitions.len(),
            k <= n,
            open_issue_views(issues@) == undeclared_issues(graph@, interface@, k as nat),
        decreases n - k,
    {
        let t = graph.transition(k);
        let ghost start = open_issue_views(issues@);
        match &t.kind {
            TransitionKind::Action(a) => {
                if interface.get(a.as_str()).is_none() {
                    push_issue(&mut issues, OpenSystemIssue::UndeclaredGraphAction(a.clone()));
                }
            },
            TransitionKind::IdentityStutter => {},
        }
        proof {
            assert(open_issue_views(issues@) =~= undeclared_issues(graph@, interface@, (k + 1) as nat));
        }
        k = k + 1;
    }
    issues
}

fn check_payload_coverage(interface: &Interface, contract: &FiniteContract) -> (r: Vec<OpenSystemIssue>)
    ensures
        open_issue_views(r@) == payload_issues(interface@, contract@, interface@.len()),
{
    let entries = interface.actions().entries();
    let ghost iv = interface@;
    let mut issues: Vec<OpenSystemIssue> = Vec::new();
    proof {
        assert(open_issue_views(issues@) =~= payload_issues(iv, contract@, 0));
    }
    let mut i: usize = 0;
    while i < entries.len()
        invariant
            map_entry_values(entries_view(entries@), sig_fn()) == iv,
            i <= entries@.len(),
            open_issue_views(issues@) == payload_issues(iv, contract@, i as nat),
        decreases entries@.len() - i,
    {
        let action = &entries[i].0;
        let signature = &entries[i].1;
        proof {
            assert(iv[i as int] == (action@, signature@));
        }
        let ghost start = open_issue_views(issues@);
        match signature.polarity {
            ActionPolarity::Input => {
                let am = contract.assumptions();
                let present = typed_present(am, action.as_str(), &signature.payload_type);
                if !present {
                    push_issue(&mut issues, OpenSystemIssue::MissingAssumption(action.clone()));
                }
            },
            ActionPolarity::Output => {
                let gm = contract.guarantees();
                let present = typed_present(gm, action.as_str(), &signature.payload_type);
                if !present {
                    push_issue(&mut issues, OpenSystemIssue::MissingGuarantee(action.clone()));
                }
            },
            ActionPolarity::Internal => {},
        }
        proof {
            assert(open_issue_views(issues@) =~= start + match signature@.polarity {
                ActionPolarity::Input => if typed_clause(contract@.assumptions, action@, signature@.payload) { Seq::empty() }
                    else { seq![OpenIssueV::MissingAssumption(action@)] },
                ActionPolarity::Output => if typed_clause(contract@.guarantees, action@, signature@.payload) { Seq::empty() }
                    else { seq![OpenIssueV::MissingGuarantee(action@)] },
                ActionPolarity::Internal => Seq::<OpenIssueV>::empty(),
            });
        }
        i = i + 1;
    }
    issues
}

/// Whether `preds` holds a predicate for `action` over `payload_type`.
fn typed_present(preds: &StrMap<PayloadPredicate>, action: &str, payload_type: &Option<PayloadType>) -> (r: bool)
    ensures
        r == typed_clause(crate::open_contract::predicate_views(preds@), action@, payload_id(*payload_type)),
{
    let ghost f = |p: PayloadPredicate| p@;
    proof {
        assert(crate::open_contract::predicate_views(preds@) =~= map_entry_values(preds@, f));
        lemma_map_entry_values(preds@, f, action@);
    }
    match preds.get(action) {
        None => false,
        Some(p) => match payload_type {
            None => false,
            Some(t) => p.payload_type().same(&t.id()),
        },
    }
}

/// Keys are kept when the predicates are viewed.
pub proof fn lemma_predicate_keys(s: Seq<(Seq<char>, PayloadPredicate)>, k: Seq<char>)
    ensures
        has_key(crate::open_contract::predicate_views(s), k) == has_key(s, k),
{
    let t = crate::open_contract::predicate_views(s);
    if has_key(s, k) {
        let w = choose|w: int| 0 <= w < s.len() && s[w].0 == k;
        assert(t[w].0 == k);
    }
    if has_key(t, k) {
        let w = choose|w: int| 0 <= w < t.len() && t[w].0 == k;
        assert(s[w].0 == k);
    }
}

fn check_claims(contract: &SafetyContract) -> (r: Vec<OpenSystemIssue>)
    ensures
        open_issue_views(r@) == claim_issues(contract@),
{
    let mut issues: Vec<OpenSystemIssue> = Vec::new();
    proof {
        reveal_strlit("");
        reveal_strlit("assumption");
        reveal_strlit("guarantee");
    }
    if contract.assumes("") {
        push_issue(&mut issues, OpenSystemIssue::EmptyContractClaim { kind: "assumption" });
    }
    if contract.guarantees_claim("") {
        push_issue(&mut issues, OpenSystemIssue::EmptyContractClaim { kind: "guarantee" });
    }
    proof {
        assert(""@ =~= Seq::<char>::empty());
        assert(open_issue_views(issues@) =~= claim_issues(contract@));
    }
    issues
}

impl OpenSystem {
    /// Every open system has a well-formed graph, each action declared once,
    /// and every graph action declared.
    #[verifier::type_invariant]
    closed spec fn valid(&self) -> bool {
        open_system_valid(self@)
    }

    /// Bundles a graph with its interface and safety contract, reporting
    /// every declaration, graph action and contract claim issue.
    pub fn new(graph: FiniteGraph, interface: Interface, contract: SafetyContract) -> (r: Result<OpenSystem, Vec<OpenSystemIssue>>)
        ensures
            r is Ok <==> open_system_issues(graph@, interface@, contract@).len() == 0,
            r matches Ok(s) ==> s@.graph == graph@ && s@.interface == interface@ && s@.contract == contract@
                && s@.payload_contract.assumptions.len() == 0 && s@.payload_contract.guarantees.len() == 0
                && open_system_valid(s@),
            r matches Err(issues) ==> open_issue_views(issues@) == open_system_issues(graph@, interface@, contract@),
    {
        let mut issues = check_declarations(&interface);
        let ghost a = open_issue_views(issues@);
        let mut more = check_graph_actions(&graph, &interface);
        let ghost b = open_issue_views(more@);
        issues.append(&mut more);
        let mut claims = check_claims(&contract);
        let ghost c = open_issue_views(claims@);
        issues.append(&mut claims);
        proof {
            assert(open_issue_views(issues@) =~= a + b + c);
        }
        if issues.len() == 0 {
            proof {
                use_type_invariant(&graph);
                use_type_invariant(&interface);
                lemma_map_entry_values(interface.actions@, sig_fn(), Seq::empty());
            }
            Ok(OpenSystem { graph, interface, contract, payload_contract: FiniteContract::empty() })
        } else {
            Err(issues)
        }
    }

    /// Bundles a graph with its interface and a payload contract that gives
    /// every input an assumption and every output a guarantee.
    pub fn with_payload_contract(graph: FiniteGraph, interface: Interface, contract: FiniteContract) -> (r: Result<OpenSystem, Vec<OpenSystemIssue>>)
        ensures
            r is Ok <==> interface_issues(interface@, interface@.len()).len() == 0
                && undeclared_issues(graph@, interface@, graph@.transitions.len()).len() == 0
                && payload_issues(interface@, contract@, interface@.len()).len() == 0,
            r matches Ok(s) ==> s@.graph == graph@ && s@.interface == interface@ && s@.payload_contract == contract@
                && s@.contract.assumptions.len() == 0 && s@.contract.guarantees.len() == 0
                && payload_complete(interface@, contract@) && open_system_valid(s@),
            r matches Err(issues) ==> open_issue_views(issues@) == interface_issues(interface@, interface@.len())
                + undeclared_issues(graph@, interface@, graph@.transitions.len()) + payload_issues(interface@, contract@, interface@.len()),
    {
        let mut issues = check_declarations(&interface);
        let ghost a = open_issue_views(issues@);
        let mut more = check_graph_actions(&graph, &interface);
        let ghost b = open_issue_views(more@);
        issues.append(&mut more);
        let mut coverage = check_payload_coverage(&interface, &contract);
        let ghost c = open_issue_views(coverage@);
        issues.append(&mut coverage);
        proof {
            assert(open_issue_views(issues@) =~= a + b + c);
        }
        if issues.len() == 0 {
            let empty = SafetyContract { assumptions: StrMap::new(), guarantees: StrMap::new() };
            proof {
                use_type_invariant(&graph);
                use_type_invariant(&interface);
                lemma_map_entry_values(interface.actions@, sig_fn(), Seq::empty());
                lemma_payload_complete(interface@, contract@);
                assert(empty@.assumptions =~= Seq::<Seq<char>>::empty());
                assert(empty@.guarantees =~= Seq::<Seq<char>>::empty());
            }
            Ok(OpenSystem { graph, interface, contract: empty, payload_contract: contract })
        } else {
            Err(issues)
        }
    }

    pub fn graph(&self) -> (r: &FiniteGraph)
        ensures
            r@ == self@.graph,
            open_system_valid(self@),
    {
        proof {
            use_type_invariant(self);
        }
        &self.graph
    }

    pub fn interface(&self) -> (r: &Interface)
        ensures
            r@ == self@.interface,
            open_system_valid(self@),
    {
        proof {
            use_type_invariant(self);
        }
        &self.interface
    }

    pub fn contract(&self) -> (r: &SafetyContract)
        ensures
            r@ == self@.contract,
    {
        &self.contract
    }

    /// The payload assumptions and guarantees.
    pub fn payload_contract(&self) -> (r: &FiniteContract)
        ensures
            r@ == self@.payload_contract,
    {
        &self.payload_contract
    }
}

/// A synchronous connection between a left and a right boundary action.
#[derive(Clone, Debug, PartialEq, Eq, PartialOrd, Ord)]
pub struct Connection {
    pub left_action: String,
    pub right_action: String,
    pub composite_action: String,
}

pub struct ConnectionV {
    pub left_action: Seq<char>,
    pub right_action: Seq<char>,
    pub composite_action: Seq<char>,
}

impl View for Connection {
    type V = ConnectionV;

    open spec fn view(&self) -> ConnectionV {
        ConnectionV { left_action: self.left_action@, right_action: self.right_action@, composite_action: self.composite_action@ }
    }
}

impl Connection {
    pub fn new(left_action: &str, right_action: &str, composite_action: &str) -> (r: Connection)
        ensures
            r@ == (ConnectionV { left_action: left_action@, right_action: right_action@, composite_action: composite_action@ }),
    {
        Connection { left_action: left_action.to_owned(), right_action: right_action.to_owned(), composite_action: composite_action.to_owned() }
    }

    pub fn copy(&self) -> (r: Connection)
        ensures
            r@ == self@,
    {
        Connection { left_action: self.left_action.clone(), right_action: self.right_action.clone(), composite_action: self.composite_action.clone() }
    }
}

/// An exact assumption/guarantee identifier match across the two components.
#[derive(Clone, Debug, PartialEq, Eq, PartialOrd, Ord)]
pub struct ContractLink {
    pub claim: String,
    pub consumer: Side,
    pub provider: Side,
}

pub struct ContractLinkV {
    pub claim: Seq<char>,
    pub consumer: Side,
    pub provider: Side,
}

impl View for ContractLink {
    type V = ContractLinkV;

    open spec fn view(&self) -> ContractLinkV {
        ContractLinkV { claim: self.claim@, consumer: self.consumer, provider: self.provider }
    }
}

impl ContractLink {
    pub fn new(claim: &str, consumer: Side, provider: Side) -> (r: ContractLink)
        ensures
            r@ == (ContractLinkV { claim: claim@, consumer, provider }),
    {
        ContractLink { claim: claim.to_owned(), consumer, provider }
    }

    pub fn copy(&self) -> (r: ContractLink)
        ensures
            r@ == self@,
    {
        ContractLink { claim: self.claim.clone(), consumer: self.consumer, provider: self.provider }
    }
}

#[derive(Clone, Debug, Default, PartialEq, Eq)]
pub struct CompositionSpec {
    pub connections: Vec<Connection>,
    pub contract_links: Vec<ContractLink>,
}

pub open spec fn connection_views(s: Seq<Connection>) -> Seq<ConnectionV> {
    s.map_values(|c: Connection| c@)
}

pub open spec fn link_views(s: Seq<ContractLink>) -> Seq<ContractLinkV> {
    s.map_values(|c: ContractLink| c@)
}

pub open spec fn wire_views(s: Seq<(&str, &str, &str)>) -> Seq<ConnectionV> {
    s.map_values(|w: (&str, &str, &str)| ConnectionV { left_action: w.0@, right_action: w.1@, composite_action: w.2@ })
}

impl CompositionSpec {
    pub fn new(connections: Vec<Connection>, contract_links: Vec<ContractLink>) -> (r: CompositionSpec)
        ensures
            r.connections@ == connections@,
            r.contract_links@ == contract_links@,
    {
        CompositionSpec { connections, contract_links }
    }

    /// The composition that connects each `(left, right, composite)` wire,
    /// with no contract links.
    pub fn from_left_right_wires(wires: Vec<(&str, &str, &str)>) -> (r: CompositionSpec)
        ensures
            connection_views(r.connections@) == wire_views(wires@),
            r.contract_links@.len() == 0,
    {
        let mut connections: Vec<Connection> = Vec::new();
        let mut i: usize = 0;
        while i < wires.len()
            invariant
                i <= wires@.len(),
                connection_views(connections@) == wire_views(wires@).subrange(0, i as int),
            decreases wires@.len() - i,
        {
            let (l, r, c) = wires[i];
            connections.push(Connection::new(l, r, c));
            proof {
                assert(connection_views(connections@) =~= wire_views(wires@).subrange(0, i + 1));
            }
            i = i + 1;
        }
        proof {
            assert(wire_views(wires@).subrange(0, wires@.len() as int) =~= wire_views(wires@));
        }
        CompositionSpec { connections, contract_links: Vec::new() }
    }
}


#[derive(Clone, Debug, PartialEq, Eq)]
pub enum CompatibilityIssue {
    DuplicateConnection(Connection),
    EmptyCompositeAction,
    UnknownAction { side: Side, action: String },
    NonComplementaryPolarity { left_action: String, right_action: String },
    ChannelMismatch { left_action: String, right_action: String },
    ActionMultiplyConnected { side: Side, action: String },
    CompositeActionCollision(String),
    InputNotReceptive { side: Side, action: String, state: StateId },
    DuplicateContractLink(ContractLink),
    SelfDischarge(ContractLink),
    UnknownAssumption { side: Side, claim: String },
    MissingPeerGuarantee { side: Side, claim: String },
    ConditionalGuaranteeProvider { provider: Side, claim: String },
    DuplicateAssumptionDischarge { side: Side, claim: String },
    UndischargedAssumption { side: Side, claim: String },
    WorkItemCountOverflow,
    WorkItemLimitExceeded { required: usize, limit: usize },
}

pub enum CompatV {
    DuplicateConnection(ConnectionV),
    EmptyCompositeAction,
    UnknownAction(Side, Seq<char>),
    NonComplementaryPolarity(Seq<char>, Seq<char>),
    ChannelMismatch(Seq<char>, Seq<char>),
    ActionMultiplyConnected(Side, Seq<char>),
    CompositeActionCollision(Seq<char>),
    InputNotReceptive(Side, Seq<char>, StateId),
    DuplicateContractLink(ContractLinkV),
    SelfDischarge(ContractLinkV),
    UnknownAssumption(Side, Seq<char>),
    MissingPeerGuarantee(Side, Seq<char>),
    ConditionalGuaranteeProvider(Side, Seq<char>),
    DuplicateAssumptionDischarge(Side, Seq<char>),
    UndischargedAssumption(Side, Seq<char>),
    WorkItemCountOverflow,
    WorkItemLimitExceeded(usize, usize),
}

impl View for CompatibilityIssue {
    type V = CompatV;

    open spec fn view(&self) -> CompatV {
        match self {
            CompatibilityIssue::DuplicateConnection(c) => CompatV::DuplicateConnection(c@),
            CompatibilityIssue::EmptyCompositeAction => CompatV::EmptyCompositeAction,
            CompatibilityIssue::UnknownAction { side, action } => CompatV::UnknownAction(*side, action@),
            CompatibilityIssue::NonComplementaryPolarity { left_action, right_action } => CompatV::NonComplementaryPolarity(left_action@, right_action@),
            CompatibilityIssue::ChannelMismatch { left_action, right_action } => CompatV::ChannelMismatch(left_action@, right_action@),
            CompatibilityIssue::ActionMultiplyConnected { side, action } => CompatV::ActionMultiplyConnected(*side, action@),
            CompatibilityIssue::CompositeActionCollision(a) => CompatV::CompositeActionCollision(a@),
            CompatibilityIssue::InputNotReceptive { side, action, state } => CompatV::InputNotReceptive(*side, action@, *state),
            CompatibilityIssue::DuplicateContractLink(l) => CompatV::DuplicateContractLink(l@),
            CompatibilityIssue::SelfDischarge(l) => CompatV::SelfDischarge(l@),
            CompatibilityIssue::UnknownAssumption { side, claim } => CompatV::UnknownAssumption(*side, claim@),
            CompatibilityIssue::MissingPeerGuarantee { side, claim } => CompatV::MissingPeerGuarantee(*side, claim@),
            CompatibilityIssue::ConditionalGuaranteeProvider { provider, claim } => CompatV::ConditionalGuaranteeProvider(*provider, claim@),
            CompatibilityIssue::DuplicateAssumptionDischarge { side, claim } => CompatV::DuplicateAssumptionDischarge(*side, claim@),
            CompatibilityIssue::UndischargedAssumption { side, claim } => CompatV::UndischargedAssumption(*side, claim@),
            CompatibilityIssue::WorkItemCountOverflow => CompatV::WorkItemCountOverflow,
            CompatibilityIssue::WorkItemLimitExceeded { required, limit } => CompatV::WorkItemLimitExceeded(*required, *limit),
        }
    }
}

pub open spec fn compat_views(s: Seq<CompatibilityIssue>) -> Seq<CompatV> {
    s.map_values(|i: CompatibilityIssue| i@)
}

#[derive(Clone, Debug, PartialEq, Eq)]
pub struct CompatibilityReport {
    pub accepted: bool,
    pub checked_connections: usize,
    pub checked_receptive_states: usize,
    pub issues: Vec<CompatibilityIssue>,
}

fn push_compat(issues: &mut Vec<CompatibilityIssue>, issue: CompatibilityIssue)
    ensures
        compat_views(final(issues)@) == compat_views(old(issues)@).push(issue@),
{
    let ghost before = compat_views(issues@);
    issues.push(issue);
    proof {
        assert(compat_views(issues@) =~= before.push(issue@));
    }
}

/// The prefix naming one side's actions in the product.
pub open spec fn side_prefix(side: Side) -> Seq<char> {
    match side {
        Side::Left => "left::"@,
        Side::Right => "right::"@,
    }
}

/// `x` is the product name of an action of either component.
pub open spec fn exposed(left: Seq<(Seq<char>, SignatureV)>, right: Seq<(Seq<char>, SignatureV)>, x: Seq<char>) -> bool {
    (exists|a: Seq<char>| #[trigger] has_key(left, a) && x == side_prefix(Side::Left) + a)
        || (exists|a: Seq<char>| #[trigger] has_key(right, a) && x == side_prefix(Side::Right) + a)
}

/// The issues of connection `i` of `cs` that come from earlier connections
/// and from product action names.
pub open spec fn connection_head_issues(l: Seq<(Seq<char>, SignatureV)>, r: Seq<(Seq<char>, SignatureV)>, cs: Seq<ConnectionV>, i: int) -> Seq<CompatV> {
    let c = cs[i];
    (if cs.subrange(0, i).contains(c) { seq![CompatV::DuplicateConnection(c)] } else { Seq::empty() })
        + (if c.composite_action.len() == 0 { seq![CompatV::EmptyCompositeAction] } else { Seq::empty() })
        + (if (exists|j: int| 0 <= j < i && #[trigger] cs[j].composite_action == c.composite_action) || exposed(l, r, c.composite_action) {
            seq![CompatV::CompositeActionCollision(c.composite_action)]
        } else {
            Seq::empty()
        })
        + (if exists|j: int| 0 <= j < i && #[trigger] cs[j].left_action == c.left_action {
            seq![CompatV::ActionMultiplyConnected(Side::Left, c.left_action)]
        } else {
            Seq::empty()
        })
        + (if exists|j: int| 0 <= j < i && #[trigger] cs[j].right_action == c.right_action {
            seq![CompatV::ActionMultiplyConnected(Side::Right, c.right_action)]
        } else {
            Seq::empty()
        })
}

/// The issues of connection `c` that come from the two signatures.
pub open spec fn connection_signature_issues(l: Seq<(Seq<char>, SignatureV)>, r: Seq<(Seq<char>, SignatureV)>, c: ConnectionV) -> Seq<CompatV> {
    (if !has_key(l, c.left_action) { seq![CompatV::UnknownAction(Side::Left, c.left_action)] } else { Seq::empty() })
        + (if !has_key(r, c.right_action) { seq![CompatV::UnknownAction(Side::Right, c.right_action)] } else { Seq::empty() })
        + (if has_key(l, c.left_action) && has_key(r, c.right_action) {
            let ls = lookup(l, c.left_action)->0;
            let rs = lookup(r, c.right_action)->0;
            (if !complementary(ls.polarity, rs.polarity) { seq![CompatV::NonComplementaryPolarity(c.left_action, c.right_action)] } else { Seq::empty() })
                + (if ls.channel != rs.channel { seq![CompatV::ChannelMismatch(c.left_action, c.right_action)] } else { Seq::empty() })
        } else {
            Seq::empty()
        })
}

/// The issues of connection `i` of `cs` between interfaces `l` and `r`.
pub open spec fn connection_issues(l: Seq<(Seq<char>, SignatureV)>, r: Seq<(Seq<char>, SignatureV)>, cs: Seq<ConnectionV>, i: int) -> Seq<CompatV> {
    connection_head_issues(l, r, cs, i) + connection_signature_issues(l, r, cs[i])
}

pub open spec fn connections_issues(l: Seq<(Seq<char>, SignatureV)>, r: Seq<(Seq<char>, SignatureV)>, cs: Seq<ConnectionV>, n: nat) -> Seq<CompatV>
    decreases n,
{
    if n == 0 {
        Seq::empty()
    } else {
        connections_issues(l, r, cs, (n - 1) as nat) + connection_issues(l, r, cs, n - 1)
    }
}

/// The states among the first `m` where the input `a` of `side` is not enabled.
pub open spec fn unreceptive_states(side: Side, g: GraphV, a: Seq<char>, m: nat) -> Seq<CompatV>
    decreases m,
{
    if m == 0 {
        Seq::empty()
    } else {
        unreceptive_states(side, g, a, (m - 1) as nat) + if crate::graph::enabled(g, m - 1, a) {
            Seq::empty()
        } else {
            seq![CompatV::InputNotReceptive(side, a, (m - 1) as StateId)]
        }
    }
}

/// The receptiveness issues of the first `n` declared actions of one side.
pub open spec fn receptiveness_issues(side: Side, g: GraphV, iface: Seq<(Seq<char>, SignatureV)>, n: nat) -> Seq<CompatV>
    decreases n,
{
    if n == 0 {
        Seq::empty()
    } else {
        receptiveness_issues(side, g, iface, (n - 1) as nat) + if iface[n - 1].1.polarity == ActionPolarity::Input {
            unreceptive_states(side, g, iface[n - 1].0, g.states.len())
        } else {
            Seq::empty()
        }
    }
}

/// How many states the receptiveness check visits for the first `n` declarations.
pub open spec fn receptive_count(g: GraphV, iface: Seq<(Seq<char>, SignatureV)>, n: nat) -> nat
    decreases n,
{
    if n == 0 {
        0
    } else {
        receptive_count(g, iface, (n - 1) as nat) + if iface[n - 1].1.polarity == ActionPolarity::Input { g.states.len() } else { 0 }
    }
}

/// Whether connection `i` repeats an earlier connection, composite
/// action, left action, or right action.
fn scan_prior(connections: &Vec<Connection>, i: usize) -> (r: (bool, bool, bool, bool))
    requires
        i < connections@.len(),
    ensures
        ({
            let cs = connection_views(connections@);
            let c = cs[i as int];
            &&& r.0 == cs.subrange(0, i as int).contains(c)
            &&& r.1 == exists|x: int| 0 <= x < i && #[trigger] cs[x].composite_action == c.composite_action
            &&& r.2 == exists|x: int| 0 <= x < i && #[trigger] cs[x].left_action == c.left_action
            &&& r.3 == exists|x: int| 0 <= x < i && #[trigger] cs[x].right_action == c.right_action
        }),
{
    let ghost cs = connection_views(connections@);
    let c = &connections[i];
    proof {
        assert(cs[i as int] == c@);
    }
    let mut duplicate = false;
    let mut composite_seen = false;
    let mut left_seen = false;
    let mut right_seen = false;
    let mut j: usize = 0;
    while j < i
        invariant
            cs == connection_views(connections@),
            i < connections@.len(),
            cs[i as int] == c@,
            j <= i,
            duplicate == cs.subrange(0, j as int).contains(c@),
            composite_seen == exists|x: int| 0 <= x < j && #[trigger] cs[x].composite_action == c@.composite_action,
            left_seen == exists|x: int| 0 <= x < j && #[trigger] cs[x].left_action == c@.left_action,
            right_seen == exists|x: int| 0 <= x < j && #[trigger] cs[x].right_action == c@.right_action,
        decreases i - j,
    {
        let d = &connections[j];
        let ghost dv = cs[j as int];
        proof {
            assert(dv == d@);
            assert(cs.subrange(0, j + 1) =~= cs.subrange(0, j as int).push(dv));
        }
        let same_left = str_eq(d.left_action.as_str(), c.left_action.as_str());
        let same_right = str_eq(d.right_action.as_str(), c.right_action.as_str());
        let same_composite = str_eq(d.composite_action.as_str(), c.composite_action.as_str());
        proof {
            assert((dv == c@) == (same_left && same_right && same_composite));
            let pre = cs.subrange(0, j as int);
            let next = cs.subrange(0, j + 1);
            assert(next.contains(c@) == (pre.contains(c@) || dv == c@)) by {
                if next.contains(c@) && dv != c@ {
                    let w = choose|w: int| 0 <= w < next.len() && #[trigger] next[w] == c@;
                    assert(w < j);
                    assert(pre[w] == c@);
                }
                if pre.contains(c@) {
                    let w = choose|w: int| 0 <= w < pre.len() && #[trigger] pre[w] == c@;
                    assert(next[w] == c@);
                }
                if dv == c@ {
                    assert(next[j as int] == c@);
                }
            }
        }
        if same_left && same_right && same_composite {
            duplicate = true;
        }
        if same_composite {
            composite_seen = true;
        }
        if same_left {
            left_seen = true;
        }
        if same_right {
            right_seen = true;
        }
        proof {
            assert(same_composite == (cs[j as int].composite_action == c@.composite_action));
            assert(same_left == (cs[j as int].left_action == c@.left_action));
            assert(same_right == (cs[j as int].right_action == c@.right_action));
        }
        j = j + 1;
    }
    (duplicate, composite_seen, left_seen, right_seen)
}

fn connection_head(left: &OpenSystem, right: &OpenSystem, connections: &Vec<Connection>, i: usize) -> (r: Vec<CompatibilityIssue>)
    requires
        i < connections@.len(),
    ensures
        compat_views(r@) == connection_head_issues(left@.interface, right@.interface, connection_views(connections@), i as int),
{
    let ghost cs = connection_views(connections@);
    let c = &connections[i];
    proof {
        assert(cs[i as int] == c@);
    }
    let (duplicate, composite_seen, left_seen, right_seen) = scan_prior(connections, i);
    let mut issues: Vec<CompatibilityIssue> = Vec::new();
    if duplicate {
        push_compat(&mut issues, CompatibilityIssue::DuplicateConnection(c.copy()));
    }
    if c.composite_action.as_str().is_empty() {
        push_compat(&mut issues, CompatibilityIssue::EmptyCompositeAction);
    }
    let collision = composite_seen || is_exposed(left, right, c.composite_action.as_str());
    if collision {
        push_compat(&mut issues, CompatibilityIssue::CompositeActionCollision(c.composite_action.clone()));
    }
    if left_seen {
        push_compat(&mut issues, CompatibilityIssue::ActionMultiplyConnected { side: Side::Left, action: c.left_action.clone() });
    }
    if right_seen {
        push_compat(&mut issues, CompatibilityIssue::ActionMultiplyConnected { side: Side::Right, action: c.right_action.clone() });
    }
    proof {
        assert(compat_views(issues@) =~= connection_head_issues(left@.interface, right@.interface, cs, i as int));
    }
    issues
}

fn connection_signatures(left: &OpenSystem, right: &OpenSystem, c: &Connection) -> (r: Vec<CompatibilityIssue>)
    ensures
        compat_views(r@) == connection_signature_issues(left@.interface, right@.interface, c@),
{
    let mut issues: Vec<CompatibilityIssue> = Vec::new();
    let ls = left.interface().get(c.left_action.as_str());
    let rs = right.interface().get(c.right_action.as_str());
    if ls.is_none() {
        push_compat(&mut issues, CompatibilityIssue::UnknownAction { side: Side::Left, action: c.left_action.clone() });
    }
    if rs.is_none() {
        push_compat(&mut issues, CompatibilityIssue::UnknownAction { side: Side::Right, action: c.right_action.clone() });
    }
    match (ls, rs) {
        (Some(a), Some(b)) => {
            let comp = (a.polarity == ActionPolarity::Input && b.polarity == ActionPolarity::Output)
                || (a.polarity == ActionPolarity::Output && b.polarity == ActionPolarity::Input);
            if !comp {
                push_compat(&mut issues, CompatibilityIssue::NonComplementaryPolarity {
                    left_action: c.left_action.clone(),
                    right_action: c.right_action.clone(),
                });
            }
            if !same_text(&a.channel, &b.channel) {
                push_compat(&mut issues, CompatibilityIssue::ChannelMismatch {
                    left_action: c.left_action.clone(),
                    right_action: c.right_action.clone(),
                });
            }
        },
        _ => {},
    }
    proof {
        assert(compat_views(issues@) =~= connection_signature_issues(left@.interface, right@.interface, c@));
    }
    issues
}

fn one_connection(left: &OpenSystem, right: &OpenSystem, connections: &Vec<Connection>, i: usize) -> (r: Vec<CompatibilityIssue>)
    requires
        i < connections@.len(),
    ensures
        compat_views(r@) == connection_issues(left@.interface, right@.interface, connection_views(connections@), i as int),
{
    let ghost cs = connection_views(connections@);
    let mut issues = connection_head(left, right, connections, i);
    let ghost hv = compat_views(issues@);
    let c = &connections[i];
    proof {
        assert(cs[i as int] == c@);
    }
    let mut tail = connection_signatures(left, right, c);
    let ghost tv = compat_views(tail@);
    issues.append(&mut tail);
    proof {
        assert(compat_views(issues@) =~= hv + tv);
    }
    issues
}

fn check_connections(left: &OpenSystem, right: &OpenSystem, connections: &Vec<Connection>) -> (r: Vec<CompatibilityIssue>)
    ensures
        compat_views(r@) == connections_issues(left@.interface, right@.interface, connection_views(connections@), connections@.len()),
{
    let ghost l = left@.interface;
    let ghost rr = right@.interface;
    let ghost cs = connection_views(connections@);
    let mut issues: Vec<CompatibilityIssue> = Vec::new();
    proof {
        assert(compat_views(issues@) =~= connections_issues(l, rr, cs, 0));
    }
    let mut i: usize = 0;
    while i < connections.len()
        invariant
            l == left@.interface,
            rr == right@.interface,
            cs == connection_views(connections@),
            i <= connections@.len(),
            compat_views(issues@) == connections_issues(l, rr, cs, i as nat),
        decreases connections@.len() - i,
    {
        let ghost start = compat_views(issues@);
        let mut found = one_connection(left, right, connections, i);
        let ghost fv = compat_views(found@);
        issues.append(&mut found);
        proof {
            assert(compat_views(issues@) =~= start + fv);
            assert(connections_issues(l, rr, cs, (i + 1) as nat) == connections_issues(l, rr, cs, i as nat) + connection_issues(l, rr, cs, i as int));
        }
        i = i + 1;
    }
    issues
}

/// Whether `x` starts with `prefix`, and the rest.
fn strip_prefix<'a>(x: &'a str, prefix: &str) -> (r: Option<&'a str>)
    ensures
        r is Some <==> exists|a: Seq<char>| x@ == prefix@ + a,
        r matches Some(rest) ==> x@ == prefix@ + rest@,
{
    let n = x.unicode_len();
    let p = prefix.unicode_len();
    if p > n {
        proof {
            assert forall|a: Seq<char>| x@ != prefix@ + a by {
                assert((prefix@ + a).len() >= p);
            }
        }
        return None;
    }
    let head = x.substring_char(0, p);
    if !str_eq(head, prefix) {
        proof {
            assert forall|a: Seq<char>| x@ != prefix@ + a by {
                if x@ == prefix@ + a {
                    assert(head@ =~= prefix@);
                }
            }
        }
        return None;
    }
    let rest = x.substring_char(p, n);
    proof {
        assert(x@ =~= prefix@ + rest@);
    }
    Some(rest)
}

/// Whether `x` is the product name of an action of either component.
fn is_exposed(left: &OpenSystem, right: &OpenSystem, x: &str) -> (r: bool)
    ensures
        r == exposed(left@.interface, right@.interface, x@),
{
    proof {
        reveal_strlit("left::");
        reveal_strlit("right::");
    }
    let on_left = match strip_prefix(x, "left::") {
        Some(rest) => {
            let found = left.interface().get(rest).is_some();
            proof {
                if found {
                    assert(has_key(left@.interface, rest@) && x@ == side_prefix(Side::Left) + rest@);
                }
                if exists|a: Seq<char>| #[trigger] has_key(left@.interface, a) && x@ == side_prefix(Side::Left) + a {
                    let a = choose|a: Seq<char>| #[trigger] has_key(left@.interface, a) && x@ == side_prefix(Side::Left) + a;
                    assert(a =~= rest@) by {
                        assert(x@.subrange(6, x@.len() as int) =~= a);
                        assert(x@.subrange(6, x@.len() as int) =~= rest@);
                    }
                }
            }
            found
        },
        None => false,
    };
    let on_right = match strip_prefix(x, "right::") {
        Some(rest) => {
            let found = right.interface().get(rest).is_some();
            proof {
                if found {
                    assert(has_key(right@.interface, rest@) && x@ == side_prefix(Side::Right) + rest@);
                }
                if exists|a: Seq<char>| #[trigger] has_key(right@.interface, a) && x@ == side_prefix(Side::Right) + a {
                    let a = choose|a: Seq<char>| #[trigger] has_key(right@.interface, a) && x@ == side_prefix(Side::Right) + a;
                    assert(a =~= rest@) by {
                        assert(x@.subrange(7, x@.len() as int) =~= a);
                        assert(x@.subrange(7, x@.len() as int) =~= rest@);
                    }
                }
            }
            found
        },
        None => false,
    };
    on_left || on_right
}


fn check_receptive(side: Side, system: &OpenSystem) -> (r: (Vec<CompatibilityIssue>, usize))
    requires
        system@.interface.len() * system@.graph.states.len() <= usize::MAX,
    ensures
        compat_views(r.0@) == receptiveness_issues(side, system@.graph, system@.interface, system@.interface.len()),
        r.1 == receptive_count(system@.graph, system@.interface, system@.interface.len()),
{
    let ghost g = system@.graph;
    let ghost iface = system@.interface;
    let entries = system.interface().actions().entries();
    let n = system.graph().state_count();
    let mut issues: Vec<CompatibilityIssue> = Vec::new();
    let mut count: usize = 0;
    proof {
        assert(compat_views(issues@) =~= receptiveness_issues(side, g, iface, 0));
    }
    let mut i: usize = 0;
    while i < entries.len()
        invariant
            g == system@.graph,
            iface == system@.interface,
            n == g.states.len(),
            map_entry_values(entries_view(entries@), sig_fn()) == iface,
            iface.len() * n <= usize::MAX,
            i <= entries@.len(),
            compat_views(issues@) == receptiveness_issues(side, g, iface, i as nat),
            count == receptive_count(g, iface, i as nat),
            count <= i * n,
        decreases entries@.len() - i,
    {
        let action = &entries[i].0;
        let signature = &entries[i].1;
        proof {
            assert(iface[i as int] == (action@, signature@));
            assert((i + 1) * n <= iface.len() * n) by (nonlinear_arith)
                requires i + 1 <= iface.len();
            assert((i + 1) * n == i * n + n) by (nonlinear_arith);
        }
        let ghost start = compat_views(issues@);
        if signature.polarity == ActionPolarity::Input {
            proof {
                assert(compat_views(issues@) =~= start + unreceptive_states(side, g, action@, 0));
            }
            let mut s: usize = 0;
            while s < n
                invariant
                    g == system@.graph,
                    n == g.states.len(),
                    s <= n,
                    compat_views(issues@) == start + unreceptive_states(side, g, action@, s as nat),
                decreases n - s,
            {
                if !system.graph().action_enabled(s, action.as_str()) {
                    push_compat(&mut issues, CompatibilityIssue::InputNotReceptive { side, action: action.clone(), state: s });
                }
                proof {
                    assert(compat_views(issues@) =~= start + unreceptive_states(side, g, action@, (s + 1) as nat));
                }
                s = s + 1;
            }
            count = count + n;
        }
        proof {
            assert(compat_views(issues@) =~= receptiveness_issues(side, g, iface, (i + 1) as nat));
        }
        i = i + 1;
    }
    (issues, count)
}

/// The component on `side`.
pub open spec fn system_at(l: OpenSystemV, r: OpenSystemV, side: Side) -> OpenSystemV {
    match side {
        Side::Left => l,
        Side::Right => r,
    }
}

/// The issues of contract link `i`.
pub open spec fn link_issues(l: OpenSystemV, r: OpenSystemV, links: Seq<ContractLinkV>, i: int) -> Seq<CompatV> {
    let k = links[i];
    (if links.subrange(0, i).contains(k) { seq![CompatV::DuplicateContractLink(k)] } else { Seq::empty() }) + if k.consumer == k.provider {
        seq![CompatV::SelfDischarge(k)]
    } else {
        let consumer = system_at(l, r, k.consumer);
        let provider = system_at(l, r, k.provider);
        (if !consumer.contract.assumptions.contains(k.claim) { seq![CompatV::UnknownAssumption(k.consumer, k.claim)] } else { Seq::empty() })
            + (if !provider.contract.guarantees.contains(k.claim) { seq![CompatV::MissingPeerGuarantee(k.provider, k.claim)] } else { Seq::empty() })
            + (if provider.contract.assumptions.len() > 0 { seq![CompatV::ConditionalGuaranteeProvider(k.provider, k.claim)] } else { Seq::empty() })
    }
}

pub open spec fn links_issues(l: OpenSystemV, r: OpenSystemV, links: Seq<ContractLinkV>, n: nat) -> Seq<CompatV>
    decreases n,
{
    if n == 0 {
        Seq::empty()
    } else {
        links_issues(l, r, links, (n - 1) as nat) + link_issues(l, r, links, n - 1)
    }
}

/// How many of the first `n` links, between distinct sides, discharge `claim` of `side`.
pub open spec fn discharge_count(links: Seq<ContractLinkV>, side: Side, claim: Seq<char>, n: nat) -> nat
    decreases n,
{
    if n == 0 {
        0
    } else {
        discharge_count(links, side, claim, (n - 1) as nat) + if links[n - 1].consumer != links[n - 1].provider
            && links[n - 1].consumer == side && links[n - 1].claim == claim { 1nat } else { 0nat }
    }
}

/// The discharge issues of the first `m` assumptions of `side`.
pub open spec fn discharge_issues(side: Side, claims: Seq<Seq<char>>, links: Seq<ContractLinkV>, m: nat) -> Seq<CompatV>
    decreases m,
{
    if m == 0 {
        Seq::empty()
    } else {
        discharge_issues(side, claims, links, (m - 1) as nat) + {
            let c = discharge_count(links, side, claims[m - 1], links.len());
            if c == 0 {
                seq![CompatV::UndischargedAssumption(side, claims[m - 1])]
            } else if c == 1 {
                Seq::empty()
            } else {
                seq![CompatV::DuplicateAssumptionDischarge(side, claims[m - 1])]
            }
        }
    }
}

/// Every contract issue of a composition, in report order.
pub open spec fn contract_issues(l: OpenSystemV, r: OpenSystemV, links: Seq<ContractLinkV>) -> Seq<CompatV> {
    links_issues(l, r, links, links.len())
        + discharge_issues(Side::Left, l.contract.assumptions, links, l.contract.assumptions.len())
        + discharge_issues(Side::Right, r.contract.assumptions, links, r.contract.assumptions.len())
}

fn same_link(a: &ContractLink, b: &ContractLink) -> (r: bool)
    ensures
        r == (a@ == b@),
{
    str_eq(a.claim.as_str(), b.claim.as_str()) && a.consumer == b.consumer && a.provider == b.provider
}

fn one_link(left: &OpenSystem, right: &OpenSystem, links: &Vec<ContractLink>, i: usize) -> (r: Vec<CompatibilityIssue>)
    requires
        i < links@.len(),
    ensures
        compat_views(r@) == link_issues(left@, right@, link_views(links@), i as int),
{
    let ghost lv = link_views(links@);
    let k = &links[i];
    proof {
        assert(lv[i as int] == k@);
    }
    let mut duplicate = false;
    let mut j: usize = 0;
    while j < i
        invariant
            lv == link_views(links@),
            i < links@.len(),
            lv[i as int] == k@,
            j <= i,
            duplicate == lv.subrange(0, j as int).contains(k@),
        decreases i - j,
    {
        let same = same_link(&links[j], k);
        proof {
            let pre = lv.subrange(0, j as int);
            let next = lv.subrange(0, j + 1);
            assert(lv[j as int] == links@[j as int]@);
            assert(next =~= pre.push(lv[j as int]));
            assert(next.contains(k@) == (pre.contains(k@) || lv[j as int] == k@)) by {
                if next.contains(k@) && lv[j as int] != k@ {
                    let w = choose|w: int| 0 <= w < next.len() && #[trigger] next[w] == k@;
                    assert(pre[w] == k@);
                }
                if pre.contains(k@) {
                    let w = choose|w: int| 0 <= w < pre.len() && #[trigger] pre[w] == k@;
                    assert(next[w] == k@);
                }
                if lv[j as int] == k@ {
                    assert(next[j as int] == k@);
                }
            }
        }
        if same {
            duplicate = true;
        }
        j = j + 1;
    }
    let mut issues: Vec<CompatibilityIssue> = Vec::new();
    if duplicate {
        push_compat(&mut issues, CompatibilityIssue::DuplicateContractLink(k.copy()));
    }
    if k.consumer == k.provider {
        push_compat(&mut issues, CompatibilityIssue::SelfDischarge(k.copy()));
    } else {
        let consumer = match k.consumer {
            Side::Left => left,
            Side::Right => right,
        };
        let provider = match k.provider {
            Side::Left => left,
            Side::Right => right,
        };
        if !consumer.contract().assumes(k.claim.as_str()) {
            push_compat(&mut issues, CompatibilityIssue::UnknownAssumption { side: k.consumer, claim: k.claim.clone() });
        }
        if !provider.contract().guarantees_claim(k.claim.as_str()) {
            push_compat(&mut issues, CompatibilityIssue::MissingPeerGuarantee { side: k.provider, claim: k.claim.clone() });
        }
        if provider.contract().assumptions().len() > 0 {
            push_compat(&mut issues, CompatibilityIssue::ConditionalGuaranteeProvider { provider: k.provider, claim: k.claim.clone() });
        }
    }
    proof {
        assert(compat_views(issues@) =~= link_issues(left@, right@, lv, i as int));
    }
    issues
}

/// How many links, between distinct sides, discharge `claim` of `side`.
fn count_discharges(links: &Vec<ContractLink>, side: Side, claim: &str) -> (r: usize)
    ensures
        r == discharge_count(link_views(links@), side, claim@, links@.len()),
{
    let ghost lv = link_views(links@);
    let mut c: usize = 0;
    let mut i: usize = 0;
    while i < links.len()
        invariant
            lv == link_views(links@),
            i <= links@.len(),
            c == discharge_count(lv, side, claim@, i as nat),
            c <= i,
        decreases links@.len() - i,
    {
        let k = &links[i];
        proof {
            assert(lv[i as int] == k@);
        }
        if k.consumer != k.provider && k.consumer == side && str_eq(k.claim.as_str(), claim) {
            c = c + 1;
        }
        i = i + 1;
    }
    c
}

fn check_discharges(side: Side, system: &OpenSystem, links: &Vec<ContractLink>) -> (r: Vec<CompatibilityIssue>)
    ensures
        compat_views(r@) == discharge_issues(side, system@.contract.assumptions, link_views(links@), system@.contract.assumptions.len()),
{
    let claims = system.contract().assumptions().entries();
    let ghost cv = system@.contract.assumptions;
    let ghost lv = link_views(links@);
    let mut issues: Vec<CompatibilityIssue> = Vec::new();
    proof {
        assert(compat_views(issues@) =~= discharge_issues(side, cv, lv, 0));
    }
    let mut m: usize = 0;
    while m < claims.len()
        invariant
            cv == system@.contract.assumptions,
            key_seq(entries_view(claims@)) == cv,
            lv == link_views(links@),
            m <= claims@.len(),
            compat_views(issues@) == discharge_issues(side, cv, lv, m as nat),
        decreases claims@.len() - m,
    {
        let claim = &claims[m].0;
        proof {
            assert(cv[m as int] == claim@);
        }
        let c = count_discharges(links, side, claim.as_str());
        if c == 0 {
            push_compat(&mut issues, CompatibilityIssue::UndischargedAssumption { side, claim: claim.clone() });
        } else if c > 1 {
            push_compat(&mut issues, CompatibilityIssue::DuplicateAssumptionDischarge { side, claim: claim.clone() });
        }
        proof {
            assert(compat_views(issues@) =~= discharge_issues(side, cv, lv, (m + 1) as nat));
        }
        m = m + 1;
    }
    issues
}

fn check_contracts(left: &OpenSystem, right: &OpenSystem, links: &Vec<ContractLink>) -> (r: Vec<CompatibilityIssue>)
    ensures
        compat_views(r@) == contract_issues(left@, right@, link_views(links@)),
{
    let ghost lv = link_views(links@);
    let mut issues: Vec<CompatibilityIssue> = Vec::new();
    proof {
        assert(compat_views(issues@) =~= links_issues(left@, right@, lv, 0));
    }
    let mut i: usize = 0;
    while i < links.len()
        invariant
            lv == link_views(links@),
            i <= links@.len(),
            compat_views(issues@) == links_issues(left@, right@, lv, i as nat),
        decreases links@.len() - i,
    {
        let ghost start = compat_views(issues@);
        let mut found = one_link(left, right, links, i);
        let ghost fv = compat_views(found@);
        issues.append(&mut found);
        proof {
            assert(compat_views(issues@) =~= start + fv);
        }
        i = i + 1;
    }
    let ghost a = compat_views(issues@);
    let mut lefts = check_discharges(Side::Left, left, links);
    let ghost b = compat_views(lefts@);
    issues.append(&mut lefts);
    let mut rights = check_discharges(Side::Right, right, links);
    let ghost c = compat_views(rights@);
    issues.append(&mut rights);
    proof {
        assert(compat_views(issues@) =~= a + b + c);
    }
    issues
}

/// Every compatibility issue of composing `l` and `r` under `spec`, in report order.
pub open spec fn compatibility_issues(l: OpenSystemV, r: OpenSystemV, conns: Seq<ConnectionV>, links: Seq<ContractLinkV>) -> Seq<CompatV> {
    connections_issues(l.interface, r.interface, conns, conns.len())
        + receptiveness_issues(Side::Left, l.graph, l.interface, l.interface.len())
        + receptiveness_issues(Side::Right, r.graph, r.interface, r.interface.len())
        + contract_issues(l, r, links)
}

/// The conservative count of loop items of the compatibility check.
pub open spec fn compatibility_work(l: OpenSystemV, r: OpenSystemV, conns: nat, links: nat) -> int {
    (2 * (l.interface.len() + r.interface.len()) + conns
        + l.interface.len() * l.graph.states.len() + l.interface.len() * l.graph.transitions.len()
        + r.interface.len() * r.graph.states.len() + r.interface.len() * r.graph.transitions.len()
        + links + l.contract.assumptions.len() + r.contract.assumptions.len()) as int
}

/// A count as a `usize`, or `None` where it does not fit.
pub open spec fn fits(v: int) -> Option<usize> {
    if 0 <= v <= usize::MAX { Some(v as usize) } else { None }
}

pub(crate) fn add_work(acc: Option<usize>, term: Option<usize>, Ghost(before): Ghost<int>, Ghost(t): Ghost<int>) -> (r: Option<usize>)
    requires
        before >= 0,
        t >= 0,
        acc == fits(before),
        term == fits(t),
    ensures
        r == fits(before + t),
{
    match (acc, term) {
        (Some(a), Some(b)) => a.checked_add(b),
        _ => None,
    }
}

pub(crate) fn mul_work(a: usize, b: usize) -> (r: Option<usize>)
    ensures
        r == fits(a * b),
{
    if a == 0 || b == 0 {
        proof {
            assert(a * b == 0) by (nonlinear_arith)
                requires a == 0 || b == 0;
        }
        return Some(0);
    }
    proof {
        assert(a * b >= 0) by (nonlinear_arith);
    }
    a.checked_mul(b)
}

/// The work-item count of the compatibility check, where it fits.
pub(crate) fn compatibility_work_count(left: &OpenSystem, right: &OpenSystem, spec: &CompositionSpec) -> (r: Option<usize>)
    ensures
        r == fits(compatibility_work(left@, right@, spec.connections@.len(), spec.contract_links@.len())),
{
    let li = left.interface().len();
    let ri = right.interface().len();
    let ls = left.graph().state_count();
    let lt = left.graph().transitions().len();
    let rs = right.graph().state_count();
    let rt = right.graph().transitions().len();
    let la = left.contract().assumptions().len();
    let ra = right.contract().assumptions().len();
    proof {
        assert(li * ls >= 0 && li * lt >= 0 && ri * rs >= 0 && ri * rt >= 0) by (nonlinear_arith);
    }
    let ghost mut total: int = 0;
    let mut acc: Option<usize> = Some(0);
    let actions = li.checked_add(ri);
    let doubled = match actions {
        Some(a) => mul_work(2, a),
        None => None,
    };
    proof {
        if actions is None {
            assert(fits(2 * (li + ri)) is None);
        }
    }
    acc = add_work(acc, doubled, Ghost(total), Ghost(2 * (li + ri)));
    proof { total = total + 2 * (li + ri); }
    acc = add_work(acc, Some(spec.connections.len()), Ghost(total), Ghost(spec.connections@.len() as int));
    proof { total = total + spec.connections@.len(); }
    acc = add_work(acc, mul_work(li, ls), Ghost(total), Ghost(li * ls));
    proof { total = total + li * ls; }
    acc = add_work(acc, mul_work(li, lt), Ghost(total), Ghost(li * lt));
    proof { total = total + li * lt; }
    acc = add_work(acc, mul_work(ri, rs), Ghost(total), Ghost(ri * rs));
    proof { total = total + ri * rs; }
    acc = add_work(acc, mul_work(ri, rt), Ghost(total), Ghost(ri * rt));
    proof { total = total + ri * rt; }
    acc = add_work(acc, Some(spec.contract_links.len()), Ghost(total), Ghost(spec.contract_links@.len() as int));
    proof { total = total + spec.contract_links@.len(); }
    acc = add_work(acc, Some(la), Ghost(total), Ghost(la as int));
    proof { total = total + la; }
    acc = add_work(acc, Some(ra), Ghost(total), Ghost(ra as int));
    proof {
        total = total + ra;
        assert(total == compatibility_work(left@, right@, spec.connections@.len(), spec.contract_links@.len()));
    }
    acc
}

/// The outcome of checking compatibility under a work-item limit.
pub open spec fn compatibility_outcome(l: OpenSystemV, r: OpenSystemV, conns: Seq<ConnectionV>, links: Seq<ContractLinkV>, limit: usize, report: CompatibilityReport) -> bool {
    let w = compatibility_work(l, r, conns.len(), links.len());
    if w > usize::MAX {
        !report.accepted && report.checked_connections == 0 && report.checked_receptive_states == 0
            && compat_views(report.issues@) == seq![CompatV::WorkItemCountOverflow]
    } else if w > limit {
        !report.accepted && report.checked_connections == 0 && report.checked_receptive_states == 0
            && compat_views(report.issues@) == seq![CompatV::WorkItemLimitExceeded(w as usize, limit)]
    } else {
        &&& compat_views(report.issues@) == compatibility_issues(l, r, conns, links)
        &&& report.accepted == (compatibility_issues(l, r, conns, links).len() == 0)
        &&& report.checked_connections == conns.len()
        &&& report.checked_receptive_states == receptive_count(l.graph, l.interface, l.interface.len()) + receptive_count(r.graph, r.interface, r.interface.len())
    }
}

pub struct CompatibilityChecker;

impl CompatibilityChecker {
    /// Checks the strict finite composition fragment under the default
    /// work-item limit: connections, global receptiveness of every declared
    /// input in every state, and exact contract discharge by assumption-free
    /// providers.
    pub fn check(left: &OpenSystem, right: &OpenSystem, spec: &CompositionSpec) -> (r: CompatibilityReport)
        ensures
            compatibility_outcome(left@, right@, connection_views(spec.connections@), link_views(spec.contract_links@), DEFAULT_MAX_COMPOSITION_WORK_ITEMS, r),
    {
        CompatibilityChecker::check_with_limits(left, right, spec, CompositionLimits::default())
    }

    /// Checks compatibility under the work-item cap of `limits`; a preflight
    /// failure is reported without entering the checks.
    pub fn check_with_limits(left: &OpenSystem, right: &OpenSystem, spec: &CompositionSpec, limits: CompositionLimits) -> (r: CompatibilityReport)
        ensures
            compatibility_outcome(left@, right@, connection_views(spec.connections@), link_views(spec.contract_links@), limits.max_work_items, r),
    {
        match compatibility_work_count(left, right, spec) {
            None => {
                let mut issues: Vec<CompatibilityIssue> = Vec::new();
                push_compat(&mut issues, CompatibilityIssue::WorkItemCountOverflow);
                proof {
                    assert(compat_views(issues@) =~= seq![CompatV::WorkItemCountOverflow]);
                }
                CompatibilityReport { accepted: false, checked_connections: 0, checked_receptive_states: 0, issues }
            },
            Some(w) => {
                if w > limits.max_work_items {
                    let mut issues: Vec<CompatibilityIssue> = Vec::new();
                    push_compat(&mut issues, CompatibilityIssue::WorkItemLimitExceeded { required: w, limit: limits.max_work_items });
                    proof {
                        assert(compat_views(issues@) =~= seq![CompatV::WorkItemLimitExceeded(w, limits.max_work_items)]);
                    }
                    CompatibilityReport { accepted: false, checked_connections: 0, checked_receptive_states: 0, issues }
                } else {
                    CompatibilityChecker::check_preflighted(left, right, spec)
                }
            },
        }
    }

    pub(crate) fn check_preflighted(left: &OpenSystem, right: &OpenSystem, spec: &CompositionSpec) -> (r: CompatibilityReport)
        requires
            compatibility_work(left@, right@, spec.connections@.len(), spec.contract_links@.len()) <= usize::MAX,
        ensures
            compat_views(r.issues@) == compatibility_issues(left@, right@, connection_views(spec.connections@), link_views(spec.contract_links@)),
            r.accepted == (compatibility_issues(left@, right@, connection_views(spec.connections@), link_views(spec.contract_links@)).len() == 0),
            r.checked_connections == spec.connections@.len(),
            r.checked_receptive_states == receptive_count(left@.graph, left@.interface, left@.interface.len())
                + receptive_count(right@.graph, right@.interface, right@.interface.len()),
    {
        proof {
            let l = left@;
            let r = right@;
            assert(l.interface.len() * l.graph.states.len() >= 0 && l.interface.len() * l.graph.transitions.len() >= 0
                && r.interface.len() * r.graph.states.len() >= 0 && r.interface.len() * r.graph.transitions.len() >= 0) by (nonlinear_arith);
        }
        let mut issues = check_connections(left, right, &spec.connections);
        let ghost a = compat_views(issues@);
        let (mut lefts, left_count) = check_receptive(Side::Left, left);
        let ghost b = compat_views(lefts@);
        issues.append(&mut lefts);
        let (mut rights, right_count) = check_receptive(Side::Right, right);
        let ghost c = compat_views(rights@);
        issues.append(&mut rights);
        let mut contracts = check_contracts(left, right, &spec.contract_links);
        let ghost d = compat_views(contracts@);
        issues.append(&mut contracts);
        proof {
            assert(compat_views(issues@) =~= a + b + c + d);
            lemma_receptive_count_bound(left@.graph, left@.interface, left@.interface.len());
            lemma_receptive_count_bound(right@.graph, right@.interface, right@.interface.len());
        }
        CompatibilityReport {
            accepted: issues.len() == 0,
            checked_connections: spec.connections.len(),
            checked_receptive_states: left_count + right_count,
            issues,
        }
    }
}

proof fn lemma_receptive_count_bound(g: GraphV, iface: Seq<(Seq<char>, SignatureV)>, n: nat)
    ensures
        receptive_count(g, iface, n) <= n * g.states.len(),
    decreases n,
{
    if n > 0 {
        lemma_receptive_count_bound(g, iface, (n - 1) as nat);
        assert(n * g.states.len() == (n - 1) * g.states.len() + g.states.len()) by (nonlinear_arith);
    }
}


#[derive(Clone, Debug, PartialEq, Eq)]
pub enum CompositionError {
    Incompatible(CompatibilityReport),
    StateCountOverflow { left_states: usize, right_states: usize },
    StateLimitExceeded { required: usize, limit: usize },
    StateIndexOverflow { left_state: StateId, right_state: StateId, right_states: usize },
    TransitionCountOverflow,
    TransitionLimitExceeded { attempted: usize, limit: usize },
    WorkItemCountOverflow,
    WorkItemLimitExceeded { required: usize, limit: usize },
    Graph(GraphError),
    InvalidResult(Vec<OpenSystemIssue>),
}

impl OpenSystemIssue {
    /// A human-readable description.
    pub fn to_string(&self) -> (r: String)
        ensures
            r@ == match self {
                OpenSystemIssue::EmptyActionName => "an interface action name is empty"@,
                OpenSystemIssue::UndeclaredGraphAction(a) => "graph action "@ + debug_text(a@) + " has no interface declaration"@,
                OpenSystemIssue::BoundaryActionMissingChannel(a) => "boundary action "@ + debug_text(a@) + " has no channel"@,
                OpenSystemIssue::BoundaryActionHasEmptyChannel(a) => "boundary action "@ + debug_text(a@) + " has an empty channel"@,
                OpenSystemIssue::InternalActionHasChannel(a) => "internal action "@ + debug_text(a@) + " declares a channel"@,
                OpenSystemIssue::EmptyContractClaim { kind } => kind@ + " contract identifier is empty"@,
                OpenSystemIssue::MissingAssumption(a) => "input action "@ + debug_text(a@) + " has no payload assumption"@,
                OpenSystemIssue::MissingGuarantee(a) => "output action "@ + debug_text(a@) + " has no payload guarantee"@,
            },
    {
        match self {
            OpenSystemIssue::EmptyActionName => String::from_str("an interface action name is empty"),
            OpenSystemIssue::UndeclaredGraphAction(a) => quote_between("graph action ", a.as_str(), " has no interface declaration"),
            OpenSystemIssue::BoundaryActionMissingChannel(a) => quote_between("boundary action ", a.as_str(), " has no channel"),
            OpenSystemIssue::BoundaryActionHasEmptyChannel(a) => quote_between("boundary action ", a.as_str(), " has an empty channel"),
            OpenSystemIssue::InternalActionHasChannel(a) => quote_between("internal action ", a.as_str(), " declares a channel"),
            OpenSystemIssue::EmptyContractClaim { kind } => String::from_str(kind).concat(" contract identifier is empty"),
            OpenSystemIssue::MissingAssumption(a) => quote_between("input action ", a.as_str(), " has no payload assumption"),
            OpenSystemIssue::MissingGuarantee(a) => quote_between("output action ", a.as_str(), " has no payload guarantee"),
        }
    }
}

impl CompositionError {
    /// A human-readable description.
    pub fn to_string(&self) -> (r: String)
        ensures
            r@ == match self {
                CompositionError::Incompatible(report) => "open systems are incompatible ("@ + decimal(report.issues@.len()) + " issue(s))"@,
                CompositionError::StateCountOverflow { left_states, right_states } => "composed state count overflows usize: "@
                    + decimal(*left_states as nat) + " * "@ + decimal(*right_states as nat),
                CompositionError::StateLimitExceeded { required, limit } => "composed state count "@ + decimal(*required as nat)
                    + " exceeds configured limit "@ + decimal(*limit as nat),
                CompositionError::StateIndexOverflow { left_state, right_state, right_states } => "composed state index overflows usize: ("@
                    + decimal(*left_state as nat) + " * "@ + decimal(*right_states as nat) + ") + "@ + decimal(*right_state as nat),
                CompositionError::TransitionCountOverflow => "generated transition count overflows usize"@,
                CompositionError::TransitionLimitExceeded { attempted, limit } => "generated transition count "@ + decimal(*attempted as nat)
                    + " exceeds configured limit "@ + decimal(*limit as nat),
                CompositionError::WorkItemCountOverflow => "conservative composition work-item count overflows usize"@,
                CompositionError::WorkItemLimitExceeded { required, limit } => "conservative composition work-item count "@
                    + decimal(*required as nat) + " exceeds configured limit "@ + decimal(*limit as nat),
                CompositionError::Graph(e) => "composed graph is invalid: "@ + e.graph_message(),
                CompositionError::InvalidResult(issues) => "composed open system is invalid ("@ + decimal(issues@.len()) + " issue(s))"@,
            },
    {
        proof {
            reveal_strlit("");
        }
        match self {
            CompositionError::Incompatible(report) => number_between("open systems are incompatible (", report.issues.len(), " issue(s))"),
            CompositionError::StateCountOverflow { left_states, right_states } => {
                let r = two_numbers("composed state count overflows usize: ", *left_states, " * ", *right_states, "");
                assert(r@ =~= "composed state count overflows usize: "@ + decimal(*left_states as nat) + " * "@ + decimal(*right_states as nat));
                r
            },
            CompositionError::StateLimitExceeded { required, limit } => {
                let r = two_numbers("composed state count ", *required, " exceeds configured limit ", *limit, "");
                assert(r@ =~= "composed state count "@ + decimal(*required as nat) + " exceeds configured limit "@ + decimal(*limit as nat));
                r
            },
            CompositionError::StateIndexOverflow { left_state, right_state, right_states } => {
                let head = two_numbers("composed state index overflows usize: (", *left_state, " * ", *right_states, ") + ");
                let r = head.concat(crate::text::usize_string(*right_state).as_str());
                r
            },
            CompositionError::TransitionCountOverflow => String::from_str("generated transition count overflows usize"),
            CompositionError::TransitionLimitExceeded { attempted, limit } => {
                let r = two_numbers("generated transition count ", *attempted, " exceeds configured limit ", *limit, "");
                assert(r@ =~= "generated transition count "@ + decimal(*attempted as nat) + " exceeds configured limit "@ + decimal(*limit as nat));
                r
            },
            CompositionError::WorkItemCountOverflow => String::from_str("conservative composition work-item count overflows usize"),
            CompositionError::WorkItemLimitExceeded { required, limit } => {
                let r = two_numbers("conservative composition work-item count ", *required, " exceeds configured limit ", *limit, "");
                assert(r@ =~= "conservative composition work-item count "@ + decimal(*required as nat) + " exceeds configured limit "@
                    + decimal(*limit as nat));
                r
            },
            CompositionError::Graph(e) => String::from_str("composed graph is invalid: ").concat(e.to_string().as_str()),
            CompositionError::InvalidResult(issues) => number_between("composed open system is invalid (", issues.len(), " issue(s))"),
        }
    }
}

} // verus!
