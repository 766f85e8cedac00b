//! The finite invariant certificate and its independent checker.

use vstd::prelude::*;
use crate::text::{debug_text, decimal};
use crate::vc::identity::Sha256Id;
use crate::vc::ir::{FiniteSafetyVc, IrError, IrErrorV, eval, holds, ir_error_text, lemma_valid_refs, valuations, vc_digest, vc_fault};

verus! {

pub const FINITE_INVARIANT_CERTIFICATE_VERSION: &'static str = "nmlt-finite-invariant/1";

/// A proof object for a finite Boolean transition system: the listed
/// states denote an inductive set, which the checker, not the producing
/// engine, shows to contain every initial state, to satisfy the property,
/// and to be closed under the transition relation.
#[derive(Clone, Debug, PartialEq, Eq)]
pub struct FiniteInvariantCertificate {
    pub format: String,
    pub vc_digest: Sha256Id,
    pub model_id: Sha256Id,
    pub claim_id: Sha256Id,
    pub configuration_id: Sha256Id,
    pub invariant_states: Vec<u64>,
}

#[derive(Clone, Debug, PartialEq, Eq)]
pub enum CertificateError {
    InvalidVerificationCondition(IrError),
    UnsupportedFormat(String),
    StaleVerificationCondition { expected: Sha256Id, actual: Sha256Id },
    StaleModel,
    StaleClaim,
    StaleConfiguration,
    StateOutOfRange(u64),
    StatesNotStrictlySorted,
    InitialStateMissing(u64),
    PropertyFalse(u64),
    NotClosed { from: u64, to: u64 },
}

pub enum CertificateErrorV {
    InvalidVerificationCondition(IrErrorV),
    UnsupportedFormat(Seq<char>),
    StaleVerificationCondition { expected: Seq<char>, actual: Seq<char> },
    StaleModel,
    StaleClaim,
    StaleConfiguration,
    StateOutOfRange(u64),
    StatesNotStrictlySorted,
    InitialStateMissing(u64),
    PropertyFalse(u64),
    NotClosed { from: u64, to: u64 },
}

impl View for CertificateError {
    type V = CertificateErrorV;

    open spec fn view(&self) -> CertificateErrorV {
        match self {
            CertificateError::InvalidVerificationCondition(e) => CertificateErrorV::InvalidVerificationCondition(e@),
            CertificateError::UnsupportedFormat(f) => CertificateErrorV::UnsupportedFormat(f@),
            CertificateError::StaleVerificationCondition { expected, actual } =>
                CertificateErrorV::StaleVerificationCondition { expected: expected@, actual: actual@ },
            CertificateError::StaleModel => CertificateErrorV::StaleModel,
            CertificateError::StaleClaim => CertificateErrorV::StaleClaim,
            CertificateError::StaleConfiguration => CertificateErrorV::StaleConfiguration,
            CertificateError::StateOutOfRange(s) => CertificateErrorV::StateOutOfRange(*s),
            CertificateError::StatesNotStrictlySorted => CertificateErrorV::StatesNotStrictlySorted,
            CertificateError::InitialStateMissing(s) => CertificateErrorV::InitialStateMissing(*s),
            CertificateError::PropertyFalse(s) => CertificateErrorV::PropertyFalse(*s),
            CertificateError::NotClosed { from, to } => CertificateErrorV::NotClosed { from: *from, to: *to },
        }
    }
}

/// The text that describes a certificate error.
pub open spec fn certificate_error_text(e: CertificateErrorV) -> Seq<char> {
    match e {
        CertificateErrorV::InvalidVerificationCondition(x) => "invalid VC: "@ + ir_error_text(x),
        CertificateErrorV::UnsupportedFormat(f) => "unsupported certificate format "@ + debug_text(f),
        CertificateErrorV::StaleVerificationCondition { expected, actual } =>
            "certificate is bound to "@ + actual + ", but the active VC is "@ + expected,
        CertificateErrorV::StaleModel => "certificate model identity does not match the VC"@,
        CertificateErrorV::StaleClaim => "certificate claim identity does not match the VC"@,
        CertificateErrorV::StaleConfiguration => "certificate configuration identity does not match the VC"@,
        CertificateErrorV::StateOutOfRange(s) => "certificate state "@ + decimal(s as nat) + " is out of range"@,
        CertificateErrorV::StatesNotStrictlySorted => "certificate states must be strictly sorted and unique"@,
        CertificateErrorV::InitialStateMissing(s) => "initial state "@ + decimal(s as nat) + " is absent from the invariant"@,
        CertificateErrorV::PropertyFalse(s) => "invariant state "@ + decimal(s as nat) + " does not satisfy the property"@,
        CertificateErrorV::NotClosed { from, to } => "invariant is not transition-closed: state "@ + decimal(from as nat)
            + " reaches omitted state "@ + decimal(to as nat),
    }
}

impl CertificateError {
    /// The text that describes the error.
    pub fn to_string(&self) -> (r: String)
        ensures
            r@ == certificate_error_text(self@),
    {
        match self {
            CertificateError::InvalidVerificationCondition(e) => String::from_str("invalid VC: ").concat(e.to_string().as_str()),
            CertificateError::UnsupportedFormat(f) =>
                String::from_str("unsupported certificate format ").concat(crate::text::debug_string(f.as_str()).as_str()),
            CertificateError::StaleVerificationCondition { expected, actual } => String::from_str("certificate is bound to ")
                .concat(actual.as_str()).concat(", but the active VC is ").concat(expected.as_str()),
            CertificateError::StaleModel => String::from_str("certificate model identity does not match the VC"),
            CertificateError::StaleClaim => String::from_str("certificate claim identity does not match the VC"),
            CertificateError::StaleConfiguration => String::from_str("certificate configuration identity does not match the VC"),
            CertificateError::StateOutOfRange(s) => String::from_str("certificate state ")
                .concat(crate::text::decimal_string(*s).as_str()).concat(" is out of range"),
            CertificateError::StatesNotStrictlySorted => String::from_str("certificate states must be strictly sorted and unique"),
            CertificateError::InitialStateMissing(s) => String::from_str("initial state ")
                .concat(crate::text::decimal_string(*s).as_str()).concat(" is absent from the invariant"),
            CertificateError::PropertyFalse(s) => String::from_str("invariant state ")
                .concat(crate::text::decimal_string(*s).as_str()).concat(" does not satisfy the property"),
            CertificateError::NotClosed { from, to } => String::from_str("invariant is not transition-closed: state ")
                .concat(crate::text::decimal_string(*from).as_str()).concat(" reaches omitted state ")
                .concat(crate::text::decimal_string(*to).as_str()),
        }
    }
}

/// The first fault of the listed states from the `i`th on: a state out of
/// range, or one not above its predecessor.
pub open spec fn states_fault(states: Seq<u64>, count: nat, i: int) -> Option<CertificateErrorV>
    decreases states.len() - i,
{
    if i < 0 || i >= states.len() {
        None
    } else if states[i] >= count {
        Some(CertificateErrorV::StateOutOfRange(states[i]))
    } else if i > 0 && states[i - 1] >= states[i] {
        Some(CertificateErrorV::StatesNotStrictlySorted)
    } else {
        states_fault(states, count, i + 1)
    }
}

/// The first initial valuation from `s` on that the invariant omits.
pub open spec fn initial_fault(vc: FiniteSafetyVc, inv: Seq<u64>, count: nat, s: int) -> Option<CertificateErrorV>
    decreases count - s,
{
    if s < 0 || s >= count {
        None
    } else if holds(vc.initial, s as usize, 0) && !inv.contains(s as u64) {
        Some(CertificateErrorV::InitialStateMissing(s as u64))
    } else {
        initial_fault(vc, inv, count, s + 1)
    }
}

/// The first successor of `from`, from `t` on, that the invariant omits.
pub open spec fn escape_fault(vc: FiniteSafetyVc, inv: Seq<u64>, count: nat, from: u64, t: int) -> Option<CertificateErrorV>
    decreases count - t,
{
    if t < 0 || t >= count {
        None
    } else if holds(vc.transition, from as usize, t as usize) && !inv.contains(t as u64) {
        Some(CertificateErrorV::NotClosed { from, to: t as u64 })
    } else {
        escape_fault(vc, inv, count, from, t + 1)
    }
}

/// The first fault of the invariant states from the `i`th on: a state
/// where the property fails, or an omitted successor.
pub open spec fn closure_fault(vc: FiniteSafetyVc, inv: Seq<u64>, count: nat, i: int) -> Option<CertificateErrorV>
    decreases inv.len() - i,
{
    if i < 0 || i >= inv.len() {
        None
    } else if !holds(vc.property, inv[i] as usize, 0) {
        Some(CertificateErrorV::PropertyFalse(inv[i]))
    } else if escape_fault(vc, inv, count, inv[i], 0) is Some {
        escape_fault(vc, inv, count, inv[i], 0)
    } else {
        closure_fault(vc, inv, count, i + 1)
    }
}

/// What checking `c` against `vc` gives: the first of the faults below, in
/// order, or success.
pub open spec fn certificate_outcome(vc: FiniteSafetyVc, c: FiniteInvariantCertificate) -> Option<CertificateErrorV> {
    let count = valuations(vc.variables@.len());
    let inv = c.invariant_states@;
    if vc_fault(vc) is Some {
        Some(CertificateErrorV::InvalidVerificationCondition(vc_fault(vc)->0))
    } else if c.format@ != FINITE_INVARIANT_CERTIFICATE_VERSION@ {
        Some(CertificateErrorV::UnsupportedFormat(c.format@))
    } else if c.vc_digest@ != vc_digest(vc) {
        Some(CertificateErrorV::StaleVerificationCondition { expected: vc_digest(vc), actual: c.vc_digest@ })
    } else if c.model_id@ != vc.identity.model@ {
        Some(CertificateErrorV::StaleModel)
    } else if c.claim_id@ != vc.identity.claim@ {
        Some(CertificateErrorV::StaleClaim)
    } else if c.configuration_id@ != vc.identity.configuration@ {
        Some(CertificateErrorV::StaleConfiguration)
    } else if states_fault(inv, count, 0) is Some {
        states_fault(inv, count, 0)
    } else if initial_fault(vc, inv, count, 0) is Some {
        initial_fault(vc, inv, count, 0)
    } else {
        closure_fault(vc, inv, count, 0)
    }
}

/// The invariant a certificate denotes is inductive for `vc`: it holds
/// every initial state, satisfies the property, and is closed under the
/// transition relation.
pub open spec fn inductive_invariant(vc: FiniteSafetyVc, inv: Seq<u64>) -> bool {
    let count = valuations(vc.variables@.len());
    &&& forall|i: int| 0 <= i < inv.len() ==> inv[i] < count
    &&& forall|s: int| 0 <= s < count && #[trigger] holds(vc.initial, s as usize, 0) ==> inv.contains(s as u64)
    &&& forall|i: int| 0 <= i < inv.len() ==> holds(vc.property, #[trigger] inv[i] as usize, 0)
    &&& forall|i: int, t: int| 0 <= i < inv.len() && 0 <= t < count && #[trigger] holds(vc.transition, inv[i] as usize, t as usize)
        ==> inv.contains(t as u64)
}

/// Checks `certificate` against `vc` with its own loops: it shares the
/// condition and the evaluator with the engines, and nothing else.
pub fn check_finite_invariant_certificate(vc: &FiniteSafetyVc, certificate: &FiniteInvariantCertificate) -> (r: Result<(), CertificateError>)
    ensures
        r is Ok <==> certificate_outcome(*vc, *certificate) is None,
        r matches Err(e) ==> certificate_outcome(*vc, *certificate) == Some(e@),
{
    match vc.validate() {
        Err(e) => return Err(CertificateError::InvalidVerificationCondition(e)),
        Ok(()) => {},
    }
    if !crate::text::str_eq(certificate.format.as_str(), FINITE_INVARIANT_CERTIFICATE_VERSION) {
        return Err(CertificateError::UnsupportedFormat(certificate.format.clone()));
    }
    let expected = match vc.digest() {
        Err(e) => return Err(CertificateError::InvalidVerificationCondition(e)),
        Ok(d) => d,
    };
    if !certificate.vc_digest.same(&expected) {
        return Err(CertificateError::StaleVerificationCondition { expected, actual: certificate.vc_digest.copy() });
    }
    if !certificate.model_id.same(&vc.identity.model) {
        return Err(CertificateError::StaleModel);
    }
    if !certificate.claim_id.same(&vc.identity.claim) {
        return Err(CertificateError::StaleClaim);
    }
    if !certificate.configuration_id.same(&vc.identity.configuration) {
        return Err(CertificateError::StaleConfiguration);
    }
    proof {
        lemma_valid_refs(*vc);
        vstd::arithmetic::power2::lemma_pow2_strictly_increases(vc.variables@.len(), 21);
        vstd::arithmetic::power2::lemma2_to64();
    }
    let count = vc.state_count();
    let ghost cnt = valuations(vc.variables@.len());
    let ghost inv = certificate.invariant_states@;
    let states = &certificate.invariant_states;
    let mut i: usize = 0;
    while i < states.len()
        invariant
            inv == states@,
            count == cnt,
            cnt <= 0x200000,
            i <= inv.len(),
            states_fault(inv, cnt, 0) == states_fault(inv, cnt, i as int),
            forall|j: int| 0 <= j < i ==> inv[j] < cnt,
        decreases inv.len() - i,
    {
        let state = states[i];
        if state >= count as u64 {
            return Err(CertificateError::StateOutOfRange(state));
        }
        if i > 0 && states[i - 1] >= state {
            return Err(CertificateError::StatesNotStrictlySorted);
        }
        i = i + 1;
    }
    let mut marks: Vec<bool> = Vec::new();
    while marks.len() < count
        invariant
            marks@.len() <= count,
            forall|t: int| 0 <= t < marks@.len() ==> !marks@[t],
        decreases count - marks@.len(),
    {
        marks.push(false);
    }
    let mut k: usize = 0;
    while k < states.len()
        invariant
            inv == states@,
            count == cnt,
            cnt <= 0x200000,
            forall|j: int| 0 <= j < inv.len() ==> inv[j] < cnt,
            marks@.len() == count,
            k <= inv.len(),
            forall|t: int| 0 <= t < count ==> marks@[t] == inv.subrange(0, k as int).contains(t as u64),
        decreases inv.len() - k,
    {
        let ghost before = marks@;
        let state = states[k] as usize;
        marks.set(state, true);
        proof {
            assert forall|t: int| 0 <= t < count implies marks@[t] == inv.subrange(0, k + 1).contains(t as u64) by {
                assert(inv.subrange(0, k + 1) =~= inv.subrange(0, k as int).push(inv[k as int]));
                assert(before[t] == inv.subrange(0, k as int).contains(t as u64));
                if t == state as int {
                    assert(inv.subrange(0, k + 1)[k as int] == t as u64);
                } else {
                    if inv.subrange(0, k + 1).contains(t as u64) {
                        let w = choose|w: int| 0 <= w < k + 1 && #[trigger] inv.subrange(0, k + 1)[w] == t as u64;
                        assert(inv.subrange(0, k as int)[w] == t as u64);
                    }
                    if inv.subrange(0, k as int).contains(t as u64) {
                        let w = choose|w: int| 0 <= w < k && #[trigger] inv.subrange(0, k as int)[w] == t as u64;
                        assert(inv.subrange(0, k + 1)[w] == t as u64);
                    }
                }
            }
        }
        k = k + 1;
    }
    proof {
        assert(inv.subrange(0, inv.len() as int) =~= inv);
    }
    let mut s: usize = 0;
    while s < count
        invariant
            inv == states@,
            count == cnt,
            marks@.len() == count,
            forall|t: int| 0 <= t < count ==> marks@[t] == inv.contains(t as u64),
            s <= count,
            crate::vc::ir::refs_below(vc.initial, crate::vc::ir::MAX_VARIABLES as nat),
            initial_fault(*vc, inv, cnt, 0) == initial_fault(*vc, inv, cnt, s as int),
        decreases count - s,
    {
        if eval(&vc.initial, s, 0) && !marks[s] {
            return Err(CertificateError::InitialStateMissing(s as u64));
        }
        s = s + 1;
    }
    let mut c: usize = 0;
    while c < states.len()
        invariant
            inv == states@,
            count == cnt,
            cnt <= 0x200000,
            forall|j: int| 0 <= j < inv.len() ==> inv[j] < cnt,
            marks@.len() == count,
            forall|t: int| 0 <= t < count ==> marks@[t] == inv.contains(t as u64),
            c <= inv.len(),
            crate::vc::ir::refs_below(vc.property, crate::vc::ir::MAX_VARIABLES as nat),
            crate::vc::ir::refs_below(vc.transition, crate::vc::ir::MAX_VARIABLES as nat),
            closure_fault(*vc, inv, cnt, 0) == closure_fault(*vc, inv, cnt, c as int),
        decreases inv.len() - c,
    {
        let from = states[c];
        if !eval(&vc.property, from as usize, 0) {
            return Err(CertificateError::PropertyFalse(from));
        }
        let mut t: usize = 0;
        while t < count
            invariant
                inv == states@,
                count == cnt,
                cnt <= 0x200000,
                from == inv[c as int],
                from < cnt,
                marks@.len() == count,
                forall|x: int| 0 <= x < count ==> marks@[x] == inv.contains(x as u64),
                crate::vc::ir::refs_below(vc.transition, crate::vc::ir::MAX_VARIABLES as nat),
                t <= count,
                escape_fault(*vc, inv, cnt, from, 0) == escape_fault(*vc, inv, cnt, from, t as int),
            decreases count - t,
        {
            if eval(&vc.transition, from as usize, t) && !marks[t] {
                return Err(CertificateError::NotClosed { from, to: t as u64 });
            }
            t = t + 1;
        }
        c = c + 1;
    }
    Ok(())
}

proof fn lemma_states_ok(states: Seq<u64>, count: nat, i: int)
    requires
        0 <= i,
        states_fault(states, count, i) is None,
    ensures
        forall|j: int| i <= j < states.len() ==> states[j] < count,
        forall|j: int| i < j < states.len() ==> states[j - 1] < #[trigger] states[j],
    decreases states.len() - i,
{
    if i < states.len() {
        lemma_states_ok(states, count, i + 1);
    }
}

proof fn lemma_initial_ok(vc: FiniteSafetyVc, inv: Seq<u64>, count: nat, s: int)
    requires
        0 <= s,
        initial_fault(vc, inv, count, s) is None,
    ensures
        forall|t: int| s <= t < count && #[trigger] holds(vc.initial, t as usize, 0) ==> inv.contains(t as u64),
    decreases count - s,
{
    if s < count {
        lemma_initial_ok(vc, inv, count, s + 1);
    }
}

proof fn lemma_escape_ok(vc: FiniteSafetyVc, inv: Seq<u64>, count: nat, from: u64, t: int)
    requires
        0 <= t,
        escape_fault(vc, inv, count, from, t) is None,
    ensures
        forall|x: int| t <= x < count && #[trigger] holds(vc.transition, from as usize, x as usize) ==> inv.contains(x as u64),
    decreases count - t,
{
    if t < count {
        lemma_escape_ok(vc, inv, count, from, t + 1);
    }
}

proof fn lemma_closure_ok(vc: FiniteSafetyVc, inv: Seq<u64>, count: nat, i: int)
    requires
        0 <= i,
        closure_fault(vc, inv, count, i) is None,
    ensures
        forall|j: int| i <= j < inv.len() ==> holds(vc.property, #[trigger] inv[j] as usize, 0),
        forall|j: int, t: int| i <= j < inv.len() && 0 <= t < count && #[trigger] holds(vc.transition, inv[j] as usize, t as usize)
            ==> inv.contains(t as u64),
    decreases inv.len() - i,
{
    if i < inv.len() {
        lemma_escape_ok(vc, inv, count, inv[i], 0);
        lemma_closure_ok(vc, inv, count, i + 1);
    }
}

/// An accepted certificate lists, in increasing order, an inductive
/// invariant of the condition: it holds every initial state, satisfies
/// the property, and is closed under the transition relation.
pub proof fn accepted_certificate_is_inductive(vc: FiniteSafetyVc, c: FiniteInvariantCertificate)
    requires
        certificate_outcome(vc, c) is None,
    ensures
        inductive_invariant(vc, c.invariant_states@),
        forall|i: int, j: int| 0 <= i < j < c.invariant_states@.len() ==> c.invariant_states@[i] < c.invariant_states@[j],
{
    let count = valuations(vc.variables@.len());
    let inv = c.invariant_states@;
    lemma_states_ok(inv, count, 0);
    lemma_initial_ok(vc, inv, count, 0);
    lemma_closure_ok(vc, inv, count, 0);
    assert forall|i: int, j: int| 0 <= i < j < inv.len() implies inv[i] < inv[j] by {
        lemma_increasing(inv, count, i, j);
    }
}

proof fn lemma_increasing(inv: Seq<u64>, count: nat, i: int, j: int)
    requires
        0 <= i < j < inv.len(),
        forall|k: int| 0 < k < inv.len() ==> inv[k - 1] < #[trigger] inv[k],
    ensures
        inv[i] < inv[j],
    decreases j - i,
{
    if j > i + 1 {
        lemma_increasing(inv, count, i, j - 1);
    }
}

/// `w` is a run of `vc`: it starts at an initial state and each next state
/// is a successor of the one before.
pub open spec fn run(vc: FiniteSafetyVc, w: Seq<u64>) -> bool {
    &&& w.len() > 0
    &&& forall|i: int| 0 <= i < w.len() ==> #[trigger] w[i] < valuations(vc.variables@.len())
    &&& holds(vc.initial, w[0] as usize, 0)
    &&& forall|i: int| 1 <= i < w.len() ==> #[trigger] holds(vc.transition, w[i - 1] as usize, w[i] as usize)
}

/// An inductive invariant holds every state of every run, so the property
/// holds there.
pub proof fn lemma_invariant_covers_run(vc: FiniteSafetyVc, inv: Seq<u64>, w: Seq<u64>, i: int)
    requires
        inductive_invariant(vc, inv),
        run(vc, w),
        0 <= i < w.len(),
    ensures
        inv.contains(w[i]),
        holds(vc.property, w[i] as usize, 0),
    decreases i,
{
    let count = valuations(vc.variables@.len());
    if i == 0 {
        assert(w[0] < count);
        assert(holds(vc.initial, (w[0] as int) as usize, 0));
        assert(inv.contains((w[0] as int) as u64));
    } else {
        lemma_invariant_covers_run(vc, inv, w, i - 1);
        let j = choose|j: int| 0 <= j < inv.len() && inv[j] == w[i - 1];
        assert(w[i] < count);
        assert(holds(vc.transition, inv[j] as usize, (w[i] as int) as usize));
        assert(inv.contains((w[i] as int) as u64));
    }
    let k = choose|k: int| 0 <= k < inv.len() && inv[k] == w[i];
    assert(holds(vc.property, inv[k] as usize, 0));
}

proof fn lemma_states_clean(states: Seq<u64>, count: nat, i: int)
    requires
        0 <= i,
        forall|j: int| 0 <= j < states.len() ==> #[trigger] states[j] < count,
        forall|a: int, b: int| 0 <= a < b < states.len() ==> states[a] < states[b],
    ensures
        states_fault(states, count, i) is None,
    decreases states.len() - i,
{
    if i < states.len() {
        if i > 0 {
            assert(states[i - 1] < states[i]);
        }
        lemma_states_clean(states, count, i + 1);
    }
}

proof fn lemma_initial_clean(vc: FiniteSafetyVc, inv: Seq<u64>, count: nat, s: int)
    requires
        0 <= s,
        forall|t: int| 0 <= t < count && #[trigger] holds(vc.initial, t as usize, 0) ==> inv.contains(t as u64),
    ensures
        initial_fault(vc, inv, count, s) is None,
    decreases count - s,
{
    if s < count {
        lemma_initial_clean(vc, inv, count, s + 1);
    }
}

proof fn lemma_escape_clean(vc: FiniteSafetyVc, inv: Seq<u64>, count: nat, from: u64, t: int)
    requires
        0 <= t,
        forall|x: int| 0 <= x < count && #[trigger] holds(vc.transition, from as usize, x as usize) ==> inv.contains(x as u64),
    ensures
        escape_fault(vc, inv, count, from, t) is None,
    decreases count - t,
{
    if t < count {
        lemma_escape_clean(vc, inv, count, from, t + 1);
    }
}

proof fn lemma_closure_clean(vc: FiniteSafetyVc, inv: Seq<u64>, count: nat, i: int)
    requires
        0 <= i,
        forall|j: int| 0 <= j < inv.len() ==> holds(vc.property, #[trigger] inv[j] as usize, 0),
        forall|j: int, t: int| 0 <= j < inv.len() && 0 <= t < count && #[trigger] holds(vc.transition, inv[j] as usize, t as usize)
            ==> inv.contains(t as u64),
    ensures
        closure_fault(vc, inv, count, i) is None,
    decreases inv.len() - i,
{
    if i < inv.len() {
        assert forall|x: int| 0 <= x < count && #[trigger] holds(vc.transition, inv[i] as usize, x as usize) implies inv.contains(x as u64) by {
            assert(holds(vc.transition, inv[i] as usize, x as usize));
        }
        lemma_escape_clean(vc, inv, count, inv[i], 0);
        lemma_closure_clean(vc, inv, count, i + 1);
    }
}

/// The checker accepts every certificate, of the current format and bound to
/// the condition, that lists an inductive invariant in increasing order.
pub proof fn inductive_invariant_is_accepted(vc: FiniteSafetyVc, c: FiniteInvariantCertificate)
    requires
        vc_fault(vc) is None,
        c.format@ == FINITE_INVARIANT_CERTIFICATE_VERSION@,
        c.vc_digest@ == vc_digest(vc),
        c.model_id@ == vc.identity.model@,
        c.claim_id@ == vc.identity.claim@,
        c.configuration_id@ == vc.identity.configuration@,
        forall|i: int, j: int| 0 <= i < j < c.invariant_states@.len() ==> c.invariant_states@[i] < c.invariant_states@[j],
        inductive_invariant(vc, c.invariant_states@),
    ensures
        certificate_outcome(vc, c) is None,
{
    let count = valuations(vc.variables@.len());
    let inv = c.invariant_states@;
    lemma_states_clean(inv, count, 0);
    lemma_initial_clean(vc, inv, count, 0);
    lemma_closure_clean(vc, inv, count, 0);
}

} // verus!
