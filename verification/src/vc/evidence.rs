//! Engine results, their normalization into evidence classes, and the
//! fail-closed composition of several results for one condition.

use vstd::prelude::*;
use crate::text::{blank, debug_text, decimal, eq_ignoring_ascii_case, is_blank, same_ignoring_ascii_case, seq_lt, str_eq, str_lt};
use crate::vc::certificate::{CertificateErrorV, FiniteInvariantCertificate, certificate_error_text, certificate_outcome,
    check_finite_invariant_certificate, inductive_invariant, run};
use crate::vc::identity::Sha256Id;
use crate::vc::ir::{FiniteSafetyVc, eval, holds, ir_error_text, lemma_valid_refs, valuations, vc_digest, vc_fault};

verus! {

#[derive(Clone, Debug, PartialEq, Eq, PartialOrd, Ord)]
pub struct TrustedComponent {
    pub name: String,
    pub version: String,
    pub digest: Sha256Id,
    pub role: String,
}

pub struct ComponentV {
    pub name: Seq<char>,
    pub version: Seq<char>,
    pub digest: Seq<char>,
    pub role: Seq<char>,
}

impl View for TrustedComponent {
    type V = ComponentV;

    open spec fn view(&self) -> ComponentV {
        ComponentV { name: self.name@, version: self.version@, digest: self.digest@, role: self.role@ }
    }
}

impl TrustedComponent {
    pub fn copy(&self) -> (r: TrustedComponent)
        ensures
            r@ == self@,
    {
        TrustedComponent { name: self.name.clone(), version: self.version.clone(), digest: self.digest.copy(), role: self.role.clone() }
    }
}

#[derive(Clone, Debug, PartialEq, Eq)]
pub struct BackendIdentity {
    pub name: String,
    pub version: String,
    pub build_digest: Sha256Id,
    pub protocol: String,
    pub trusted_components: Vec<TrustedComponent>,
}

/// A text that names nothing exactly: blank, or "unknown" in any case.
pub open spec fn inexact(s: Seq<char>) -> bool {
    blank(s) || same_ignoring_ascii_case(s, "unknown"@)
}

fn is_inexact(s: &str) -> (r: bool)
    ensures
        r == inexact(s@),
{
    is_blank(s) || eq_ignoring_ascii_case(s, "unknown")
}

/// The component lacks an exact name, version or role.
pub open spec fn component_inexact(c: ComponentV) -> bool {
    blank(c.name) || blank(c.version) || same_ignoring_ascii_case(c.version, "unknown"@) || blank(c.role)
}

pub open spec fn component_views(s: Seq<TrustedComponent>) -> Seq<ComponentV> {
    s.map_values(|c: TrustedComponent| c@)
}

/// The first inexact component from the `i`th on.
pub open spec fn components_fault(cs: Seq<ComponentV>, i: int) -> Option<Seq<char>>
    decreases cs.len() - i,
{
    if i < 0 || i >= cs.len() {
        None
    } else if component_inexact(cs[i]) {
        Some("trusted component "@ + debug_text(cs[i].name) + " lacks an exact name, version, or role"@)
    } else {
        components_fault(cs, i + 1)
    }
}

/// Why the backend identity is not exact, if it is not.
pub open spec fn identity_fault(b: BackendIdentity) -> Option<Seq<char>> {
    if inexact(b.name@) {
        Some("backend name must be exact, not "@ + debug_text(b.name@))
    } else if inexact(b.version@) {
        Some("backend version must be exact, not "@ + debug_text(b.version@))
    } else if inexact(b.protocol@) {
        Some("backend protocol must be exact, not "@ + debug_text(b.protocol@))
    } else if b.trusted_components@.len() == 0 {
        Some("at least one exact trusted component is required"@)
    } else {
        components_fault(component_views(b.trusted_components@), 0)
    }
}

impl BackendIdentity {
    /// Requires an exact name, version and protocol, and at least one
    /// trusted component with an exact name, version and role.
    pub fn validate_exact(&self) -> (r: Result<(), String>)
        ensures
            r is Ok <==> identity_fault(*self) is None,
            r matches Err(e) ==> identity_fault(*self) == Some(e@),
    {
        if is_inexact(self.name.as_str()) {
            return Err(String::from_str("backend name must be exact, not ").concat(crate::text::debug_string(self.name.as_str()).as_str()));
        }
        if is_inexact(self.version.as_str()) {
            return Err(String::from_str("backend version must be exact, not ").concat(crate::text::debug_string(self.version.as_str()).as_str()));
        }
        if is_inexact(self.protocol.as_str()) {
            return Err(String::from_str("backend protocol must be exact, not ").concat(crate::text::debug_string(self.protocol.as_str()).as_str()));
        }
        if self.trusted_components.len() == 0 {
            return Err(String::from_str("at least one exact trusted component is required"));
        }
        let ghost cs = component_views(self.trusted_components@);
        let mut i: usize = 0;
        while i < self.trusted_components.len()
            invariant
                cs == component_views(self.trusted_components@),
                i <= cs.len(),
                components_fault(cs, 0) == components_fault(cs, i as int),
            decreases cs.len() - i,
        {
            let c = &self.trusted_components[i];
            proof {
                assert(cs[i as int] == c@);
            }
            if is_blank(c.name.as_str()) || is_blank(c.version.as_str()) || eq_ignoring_ascii_case(c.version.as_str(), "unknown")
                || is_blank(c.role.as_str()) {
                return Err(String::from_str("trusted component ").concat(crate::text::debug_string(c.name.as_str()).as_str())
                    .concat(" lacks an exact name, version, or role"));
            }
            i = i + 1;
        }
        Ok(())
    }
}

#[derive(Clone, Debug, PartialEq, Eq)]
pub struct EngineBinding {
    pub vc_digest: Sha256Id,
    pub model_id: Sha256Id,
    pub claim_id: Sha256Id,
    pub configuration_id: Sha256Id,
}

impl EngineBinding {
    /// The binding of a result to `vc`: its digest and its three identities.
    pub fn for_vc(vc: &FiniteSafetyVc) -> (r: Result<EngineBinding, String>)
        ensures
            r is Ok <==> vc_fault(*vc) is None,
            r matches Err(e) ==> e@ == ir_error_text(vc_fault(*vc)->0),
            r matches Ok(b) ==> b.vc_digest@ == vc_digest(*vc) && b.model_id@ == vc.identity.model@
                && b.claim_id@ == vc.identity.claim@ && b.configuration_id@ == vc.identity.configuration@,
    {
        match vc.digest() {
            Err(e) => Err(e.to_string()),
            Ok(d) => Ok(EngineBinding {
                vc_digest: d,
                model_id: vc.identity.model.copy(),
                claim_id: vc.identity.claim.copy(),
                configuration_id: vc.identity.configuration.copy(),
            }),
        }
    }

    pub fn copy(&self) -> (r: EngineBinding)
        ensures
            r.vc_digest@ == self.vc_digest@,
            r.model_id@ == self.model_id@,
            r.claim_id@ == self.claim_id@,
            r.configuration_id@ == self.configuration_id@,
    {
        EngineBinding {
            vc_digest: self.vc_digest.copy(),
            model_id: self.model_id.copy(),
            claim_id: self.claim_id.copy(),
            configuration_id: self.configuration_id.copy(),
        }
    }

    /// The first identity in which the binding differs from `expected`.
    fn mismatch(&self, expected: &EngineBinding) -> (r: Option<&'static str>)
        ensures
            r matches Some(f) ==> Some(f@) == binding_mismatch(*self, *expected),
            r is None ==> binding_mismatch(*self, *expected) is None,
    {
        if !self.vc_digest.same(&expected.vc_digest) {
            Some("verification-condition digest")
        } else if !self.model_id.same(&expected.model_id) {
            Some("model identity")
        } else if !self.claim_id.same(&expected.claim_id) {
            Some("claim identity")
        } else if !self.configuration_id.same(&expected.configuration_id) {
            Some("configuration identity")
        } else {
            None
        }
    }
}

/// The first identity in which `b` differs from `e`.
pub open spec fn binding_mismatch(b: EngineBinding, e: EngineBinding) -> Option<Seq<char>> {
    if b.vc_digest@ != e.vc_digest@ {
        Some("verification-condition digest"@)
    } else if b.model_id@ != e.model_id@ {
        Some("model identity"@)
    } else if b.claim_id@ != e.claim_id@ {
        Some("claim identity"@)
    } else if b.configuration_id@ != e.configuration_id@ {
        Some("configuration identity"@)
    } else {
        None
    }
}

#[derive(Clone, Copy, Debug, PartialEq, Eq, Structural)]
pub enum ResultScope {
    /// Complete reasoning over the exact finite domain and transition relation.
    CompleteFinite { states: usize },
    /// Search stopped at declared bounds; never enough for `Proved`.
    Bounded { max_depth: usize, max_states: usize },
    /// Concrete generated executions only.
    Sampled { seed: u64, cases: usize, max_steps: usize },
}

impl ResultScope {
    pub fn is_bounded(&self) -> (r: bool)
        ensures
            r == !(*self is CompleteFinite),
    {
        match self {
            ResultScope::CompleteFinite { .. } => false,
            _ => true,
        }
    }
}

#[derive(Clone, Copy, Debug, PartialEq, Eq, Structural)]
pub enum NormalizedClass {
    Proved,
    ModelChecked,
    Tested,
    Refuted,
    Unknown,
}

#[derive(Clone, Debug, PartialEq, Eq)]
pub enum RawStatus {
    Holds { requested_class: NormalizedClass },
    Refuted { witness_states: Vec<u64> },
    Unknown { reason: String },
    BackendFailure { reason: String },
}

#[derive(Clone, Debug, PartialEq, Eq)]
pub struct RawEngineResult {
    pub engine: BackendIdentity,
    pub binding: EngineBinding,
    pub method: String,
    pub scope: ResultScope,
    pub status: RawStatus,
    pub certificate: Option<FiniteInvariantCertificate>,
    /// Exact backend bytes, kept even where normalization rejects them.
    pub raw_output: Vec<u8>,
}

#[derive(Clone, Debug, PartialEq, Eq)]
pub struct NormalizedResult {
    pub engine_name: String,
    pub class: NormalizedClass,
    pub scope: ResultScope,
    pub reason: String,
    pub certificate_accepted: bool,
}

/// The first step, from the `i`th state of `w` on, that is not a transition.
pub open spec fn step_fault(vc: FiniteSafetyVc, w: Seq<u64>, i: int) -> Option<Seq<char>>
    decreases w.len() - i,
{
    if i < 1 || i >= w.len() {
        None
    } else if !holds(vc.transition, w[i - 1] as usize, w[i] as usize) {
        Some("witness step "@ + decimal(w[i - 1] as nat) + " -> "@ + decimal(w[i] as nat) + " is not a transition"@)
    } else {
        step_fault(vc, w, i + 1)
    }
}

/// Why `w` is not a run of `vc` from an initial state to a state that
/// violates the property, if it is not.
pub open spec fn witness_fault(vc: FiniteSafetyVc, w: Seq<u64>) -> Option<Seq<char>> {
    let count = valuations(vc.variables@.len());
    if w.len() == 0 {
        Some("witness is empty"@)
    } else if exists|i: int| 0 <= i < w.len() && #[trigger] w[i] >= count {
        Some("witness contains an out-of-range state"@)
    } else if !holds(vc.initial, w[0] as usize, 0) {
        Some("first witness state is not initial"@)
    } else if step_fault(vc, w, 1) is Some {
        step_fault(vc, w, 1)
    } else if holds(vc.property, w.last() as usize, 0) {
        Some("last witness state does not violate the property"@)
    } else {
        None
    }
}

/// `w` is a run of `vc` that ends in a state where the property fails.
pub open spec fn counterexample(vc: FiniteSafetyVc, w: Seq<u64>) -> bool {
    run(vc, w) && !holds(vc.property, w.last() as usize, 0)
}

proof fn lemma_steps_ok(vc: FiniteSafetyVc, w: Seq<u64>, i: int)
    requires
        1 <= i,
        step_fault(vc, w, i) is None,
    ensures
        forall|j: int| i <= j < w.len() ==> #[trigger] holds(vc.transition, w[j - 1] as usize, w[j] as usize),
    decreases w.len() - i,
{
    if i < w.len() {
        lemma_steps_ok(vc, w, i + 1);
    }
}

/// A witness without faults is a counterexample.
pub proof fn lemma_witness_counterexample(vc: FiniteSafetyVc, w: Seq<u64>)
    requires
        witness_fault(vc, w) is None,
    ensures
        counterexample(vc, w),
{
    lemma_steps_ok(vc, w, 1);
}

/// Checks that `witness` is a counterexample of `vc`.
fn check_refutation_witness(vc: &FiniteSafetyVc, witness: &Vec<u64>) -> (r: Result<(), String>)
    requires
        vc_fault(*vc) is None,
    ensures
        r is Ok <==> witness_fault(*vc, witness@) is None,
        r matches Err(e) ==> witness_fault(*vc, witness@) == Some(e@),
{
    let ghost w = witness@;
    if witness.len() == 0 {
        return Err(String::from_str("witness is empty"));
    }
    proof {
        lemma_valid_refs(*vc);
        vstd::arithmetic::power2::lemma_pow2_strictly_increases(vc.variables@.len(), 21);
        vstd::arithmetic::power2::lemma2_to64();
    }
    let count = vc.state_count() as u64;
    let mut i: usize = 0;
    while i < witness.len()
        invariant
            w == witness@,
            count == valuations(vc.variables@.len()),
            i <= w.len(),
            forall|j: int| 0 <= j < i ==> #[trigger] w[j] < count,
        decreases w.len() - i,
    {
        if witness[i] >= count {
            return Err(String::from_str("witness contains an out-of-range state"));
        }
        i = i + 1;
    }
    if !eval(&vc.initial, witness[0] as usize, 0) {
        return Err(String::from_str("first witness state is not initial"));
    }
    let mut k: usize = 1;
    while k < witness.len()
        invariant
            w == witness@,
            count == valuations(vc.variables@.len()),
            count <= 0x200000,
            forall|j: int| 0 <= j < w.len() ==> #[trigger] w[j] < count,
            crate::vc::ir::refs_below(vc.transition, crate::vc::ir::MAX_VARIABLES as nat),
            1 <= k <= w.len(),
            step_fault(*vc, w, 1) == step_fault(*vc, w, k as int),
        decreases w.len() - k,
    {
        if !eval(&vc.transition, witness[k - 1] as usize, witness[k] as usize) {
            return Err(String::from_str("witness step ").concat(crate::text::decimal_string(witness[k - 1]).as_str()).concat(" -> ")
                .concat(crate::text::decimal_string(witness[k]).as_str()).concat(" is not a transition"));
        }
        k = k + 1;
    }
    let last = witness[witness.len() - 1];
    if eval(&vc.property, last as usize, 0) {
        return Err(String::from_str("last witness state does not violate the property"));
    }
    Ok(())
}

/// A normalized class with its reason and whether a certificate was accepted.
pub open spec fn unknown_with(reason: Seq<char>) -> (NormalizedClass, Seq<char>, bool) {
    (NormalizedClass::Unknown, reason, false)
}

/// The first identity in which `b` differs from the binding of `vc`.
pub open spec fn stale_field(b: EngineBinding, vc: FiniteSafetyVc) -> Option<Seq<char>> {
    if b.vc_digest@ != vc_digest(vc) {
        Some("verification-condition digest"@)
    } else if b.model_id@ != vc.identity.model@ {
        Some("model identity"@)
    } else if b.claim_id@ != vc.identity.claim@ {
        Some("claim identity"@)
    } else if b.configuration_id@ != vc.identity.configuration@ {
        Some("configuration identity"@)
    } else {
        None
    }
}

pub open spec fn class_name(c: NormalizedClass) -> Seq<char> {
    match c {
        NormalizedClass::Proved => "Proved"@,
        NormalizedClass::ModelChecked => "ModelChecked"@,
        NormalizedClass::Tested => "Tested"@,
        NormalizedClass::Refuted => "Refuted"@,
        NormalizedClass::Unknown => "Unknown"@,
    }
}

/// What a `Holds` result that requests `requested` normalizes to.
pub open spec fn holds_outcome(vc: FiniteSafetyVc, raw: RawEngineResult, requested: NormalizedClass) -> (NormalizedClass, Seq<char>, bool) {
    match requested {
        NormalizedClass::Proved => if !(raw.scope is CompleteFinite) {
            unknown_with("bounded or sampled evidence cannot be promoted to proved"@)
        } else {
            match raw.certificate {
                None => unknown_with("proved requires an accepted proof certificate"@),
                Some(c) => if certificate_outcome(vc, c) is Some {
                    unknown_with("certificate rejected: "@ + certificate_error_text(certificate_outcome(vc, c)->0))
                } else {
                    (NormalizedClass::Proved, "independently checked finite invariant certificate"@, true)
                },
            }
        },
        NormalizedClass::ModelChecked => match raw.scope {
            ResultScope::CompleteFinite { states } => match raw.certificate {
                None => unknown_with("model_checked requires a replayable finite coverage certificate"@),
                Some(c) => if c.invariant_states@.len() != states {
                    unknown_with("complete-finite state count differs from the coverage certificate"@)
                } else if certificate_outcome(vc, c) is Some {
                    unknown_with("coverage certificate rejected: "@ + certificate_error_text(certificate_outcome(vc, c)->0))
                } else {
                    (NormalizedClass::ModelChecked, "independently checked complete finite coverage certificate"@, true)
                },
            },
            _ => unknown_with("model_checked requires independently checked complete finite coverage"@),
        },
        NormalizedClass::Tested => if raw.scope is Sampled {
            (NormalizedClass::Tested, "generated concrete tests passed at the recorded scope"@, false)
        } else {
            unknown_with("tested requires a sampled scope"@)
        },
        _ => unknown_with("a holds result cannot request classification "@ + class_name(requested)),
    }
}

/// What `raw` normalizes to against `vc`: its class, the reason, and
/// whether a certificate was accepted.
#[verifier::opaque]
pub open spec fn normalized_outcome(vc: FiniteSafetyVc, raw: RawEngineResult) -> (NormalizedClass, Seq<char>, bool) {
    if identity_fault(raw.engine) is Some {
        unknown_with("inexact backend identity: "@ + identity_fault(raw.engine)->0)
    } else if inexact(raw.method@) {
        unknown_with("verification method must be exact"@)
    } else if vc_fault(vc) is Some {
        unknown_with("invalid active VC: "@ + ir_error_text(vc_fault(vc)->0))
    } else if stale_field(raw.binding, vc) is Some {
        unknown_with("stale or mismatched "@ + stale_field(raw.binding, vc)->0)
    } else {
        match raw.status {
            RawStatus::Unknown { reason } => unknown_with(reason@),
            RawStatus::BackendFailure { reason } => unknown_with("backend failure: "@ + reason@),
            RawStatus::Refuted { witness_states } => if witness_fault(vc, witness_states@) is Some {
                unknown_with("refutation witness rejected: "@ + witness_fault(vc, witness_states@)->0)
            } else {
                (NormalizedClass::Refuted, "independently replayed concrete violation witness"@, false)
            },
            RawStatus::Holds { requested_class } => holds_outcome(vc, raw, requested_class),
        }
    }
}

fn unknown_result(raw: &RawEngineResult, reason: String) -> (r: NormalizedResult)
    ensures
        r.engine_name@ == raw.engine.name@,
        r.scope == raw.scope,
        (r.class, r.reason@, r.certificate_accepted) == unknown_with(reason@),
{
    NormalizedResult { engine_name: raw.engine.name.clone(), class: NormalizedClass::Unknown, scope: raw.scope, reason, certificate_accepted: false }
}

fn class_str(c: NormalizedClass) -> (r: &'static str)
    ensures
        r@ == class_name(c),
{
    match c {
        NormalizedClass::Proved => "Proved",
        NormalizedClass::ModelChecked => "ModelChecked",
        NormalizedClass::Tested => "Tested",
        NormalizedClass::Refuted => "Refuted",
        NormalizedClass::Unknown => "Unknown",
    }
}

fn normalize_holds(vc: &FiniteSafetyVc, raw: &RawEngineResult, requested: NormalizedClass) -> (r: NormalizedResult)
    ensures
        r.engine_name@ == raw.engine.name@,
        r.scope == raw.scope,
        (r.class, r.reason@, r.certificate_accepted) == holds_outcome(*vc, *raw, requested),
{
    match requested {
        NormalizedClass::Proved => {
            if raw.scope.is_bounded() {
                return unknown_result(raw, String::from_str("bounded or sampled evidence cannot be promoted to proved"));
            }
            match &raw.certificate {
                None => unknown_result(raw, String::from_str("proved requires an accepted proof certificate")),
                Some(c) => match check_finite_invariant_certificate(vc, c) {
                    Ok(()) => NormalizedResult {
                        engine_name: raw.engine.name.clone(),
                        class: NormalizedClass::Proved,
                        scope: raw.scope,
                        reason: String::from_str("independently checked finite invariant certificate"),
                        certificate_accepted: true,
                    },
                    Err(e) => unknown_result(raw, String::from_str("certificate rejected: ").concat(e.to_string().as_str())),
                },
            }
        },
        NormalizedClass::ModelChecked => {
            match raw.scope {
                ResultScope::CompleteFinite { states } => match &raw.certificate {
                    None => unknown_result(raw, String::from_str("model_checked requires a replayable finite coverage certificate")),
                    Some(c) => {
                        if c.invariant_states.len() != states {
                            return unknown_result(raw, String::from_str("complete-finite state count differs from the coverage certificate"));
                        }
                        match check_finite_invariant_certificate(vc, c) {
                            Ok(()) => NormalizedResult {
                                engine_name: raw.engine.name.clone(),
                                class: NormalizedClass::ModelChecked,
                                scope: raw.scope,
                                reason: String::from_str("independently checked complete finite coverage certificate"),
                                certificate_accepted: true,
                            },
                            Err(e) => unknown_result(raw, String::from_str("coverage certificate rejected: ").concat(e.to_string().as_str())),
                        }
                    },
                },
                _ => unknown_result(raw, String::from_str("model_checked requires independently checked complete finite coverage")),
            }
        },
        NormalizedClass::Tested => {
            match raw.scope {
                ResultScope::Sampled { .. } => NormalizedResult {
                    engine_name: raw.engine.name.clone(),
                    class: NormalizedClass::Tested,
                    scope: raw.scope,
                    reason: String::from_str("generated concrete tests passed at the recorded scope"),
                    certificate_accepted: false,
                },
                _ => unknown_result(raw, String::from_str("tested requires a sampled scope")),
            }
        },
        _ => unknown_result(raw, String::from_str("a holds result cannot request classification ").concat(class_str(requested))),
    }
}

/// Normalizes an engine result against the active condition: only an
/// exact backend, an exact method, a current binding, and evidence that
/// the library checks itself lead to a class other than `Unknown`.
pub fn normalize_result(vc: &FiniteSafetyVc, raw: &RawEngineResult) -> (r: NormalizedResult)
    ensures
        r.engine_name@ == raw.engine.name@,
        r.scope == raw.scope,
        (r.class, r.reason@, r.certificate_accepted) == normalized_outcome(*vc, *raw),
{
    reveal(normalized_outcome);
    match raw.engine.validate_exact() {
        Err(e) => return unknown_result(raw, String::from_str("inexact backend identity: ").concat(e.as_str())),
        Ok(()) => {},
    }
    if is_inexact(raw.method.as_str()) {
        return unknown_result(raw, String::from_str("verification method must be exact"));
    }
    let expected = match EngineBinding::for_vc(vc) {
        Ok(b) => b,
        Err(e) => return unknown_result(raw, String::from_str("invalid active VC: ").concat(e.as_str())),
    };
    match raw.binding.mismatch(&expected) {
        Some(field) => return unknown_result(raw, String::from_str("stale or mismatched ").concat(field)),
        None => {},
    }
    match &raw.status {
        RawStatus::Unknown { reason } => unknown_result(raw, reason.clone()),
        RawStatus::BackendFailure { reason } => unknown_result(raw, String::from_str("backend failure: ").concat(reason.as_str())),
        RawStatus::Refuted { witness_states } => match check_refutation_witness(vc, witness_states) {
            Err(e) => unknown_result(raw, String::from_str("refutation witness rejected: ").concat(e.as_str())),
            Ok(()) => NormalizedResult {
                engine_name: raw.engine.name.clone(),
                class: NormalizedClass::Refuted,
                scope: raw.scope,
                reason: String::from_str("independently replayed concrete violation witness"),
                certificate_accepted: false,
            },
        },
        RawStatus::Holds { requested_class } => normalize_holds(vc, raw, *requested_class),
    }
}

/// A class other than `Unknown` stands only on what the library checked
/// itself: `Proved` on an inductive invariant certificate for a complete
/// finite scope; `ModelChecked` on one whose size is the recorded state
/// count; `Tested` on a sampled scope; `Refuted` on a replayed
/// counterexample. A bounded or sampled scope is never `Proved`, and a
/// certificate is reported accepted exactly for the first two.
pub proof fn normalized_class_is_justified(vc: FiniteSafetyVc, raw: RawEngineResult)
    ensures
        normalized_outcome(vc, raw).0 != NormalizedClass::Unknown ==> vc_fault(vc) is None && identity_fault(raw.engine) is None
            && !inexact(raw.method@) && stale_field(raw.binding, vc) is None,
        normalized_outcome(vc, raw).0 == NormalizedClass::Proved ==> {
            &&& raw.scope is CompleteFinite
            &&& raw.status matches RawStatus::Holds { requested_class } && requested_class == NormalizedClass::Proved
            &&& raw.certificate matches Some(c) && inductive_invariant(vc, c.invariant_states@)
        },
        normalized_outcome(vc, raw).0 == NormalizedClass::ModelChecked ==> {
            &&& raw.status matches RawStatus::Holds { requested_class } && requested_class == NormalizedClass::ModelChecked
            &&& raw.scope matches ResultScope::CompleteFinite { states } && raw.certificate matches Some(c)
                && c.invariant_states@.len() == states && inductive_invariant(vc, c.invariant_states@)
        },
        normalized_outcome(vc, raw).0 == NormalizedClass::Tested ==> (raw.scope is Sampled
            && (raw.status matches RawStatus::Holds { requested_class } && requested_class == NormalizedClass::Tested)),
        normalized_outcome(vc, raw).0 == NormalizedClass::Refuted ==> (raw.status matches RawStatus::Refuted { witness_states }
            && counterexample(vc, witness_states@)),
        normalized_outcome(vc, raw).2 <==> (normalized_outcome(vc, raw).0 == NormalizedClass::Proved
            || normalized_outcome(vc, raw).0 == NormalizedClass::ModelChecked),
{
    reveal(normalized_outcome);
    if let Some(c) = raw.certificate {
        if certificate_outcome(vc, c) is None {
            crate::vc::certificate::accepted_certificate_is_inductive(vc, c);
        }
    }
    if let RawStatus::Refuted { witness_states } = raw.status {
        if witness_fault(vc, witness_states@) is None {
            lemma_witness_counterexample(vc, witness_states@);
        }
    }
}

/// Where a result is `Proved` or `ModelChecked`, the property holds at
/// every state of every run of the condition.
pub proof fn proved_claim_holds_on_runs(vc: FiniteSafetyVc, raw: RawEngineResult, w: Seq<u64>, i: int)
    requires
        normalized_outcome(vc, raw).0 == NormalizedClass::Proved || normalized_outcome(vc, raw).0 == NormalizedClass::ModelChecked,
        run(vc, w),
        0 <= i < w.len(),
    ensures
        holds(vc.property, w[i] as usize, 0),
{
    normalized_class_is_justified(vc, raw);
    let c = raw.certificate->0;
    crate::vc::certificate::lemma_invariant_covers_run(vc, c.invariant_states@, w, i);
}

/// No condition has both a `Proved` or `ModelChecked` result and a
/// `Refuted` one.
pub proof fn proved_and_refuted_exclude(vc: FiniteSafetyVc, a: RawEngineResult, b: RawEngineResult)
    requires
        normalized_outcome(vc, a).0 == NormalizedClass::Proved || normalized_outcome(vc, a).0 == NormalizedClass::ModelChecked,
    ensures
        normalized_outcome(vc, b).0 != NormalizedClass::Refuted,
{
    normalized_class_is_justified(vc, b);
    if normalized_outcome(vc, b).0 == NormalizedClass::Refuted {
        let w = b.status->witness_states@;
        proved_claim_holds_on_runs(vc, a, w, w.len() - 1);
    }
}

/// The order of trusted components: by name, version, digest, then role.
pub open spec fn component_lt(a: ComponentV, b: ComponentV) -> bool {
    ||| seq_lt(a.name, b.name)
    ||| (a.name == b.name && seq_lt(a.version, b.version))
    ||| (a.name == b.name && a.version == b.version && seq_lt(a.digest, b.digest))
    ||| (a.name == b.name && a.version == b.version && a.digest == b.digest && seq_lt(a.role, b.role))
}

pub proof fn lemma_component_order(a: ComponentV, b: ComponentV, c: ComponentV)
    ensures
        !component_lt(a, a),
        component_lt(a, b) && component_lt(b, c) ==> component_lt(a, c),
        a == b || component_lt(a, b) || component_lt(b, a),
{
    crate::text::lemma_seq_lt_irreflexive(a.name);
    crate::text::lemma_seq_lt_irreflexive(a.version);
    crate::text::lemma_seq_lt_irreflexive(a.digest);
    crate::text::lemma_seq_lt_irreflexive(a.role);
    crate::text::lemma_seq_lt_total(a.name, b.name);
    crate::text::lemma_seq_lt_total(a.version, b.version);
    crate::text::lemma_seq_lt_total(a.digest, b.digest);
    crate::text::lemma_seq_lt_total(a.role, b.role);
    if component_lt(a, b) && component_lt(b, c) {
        if seq_lt(a.name, b.name) && seq_lt(b.name, c.name) {
            crate::text::lemma_seq_lt_transitive(a.name, b.name, c.name);
        }
        if seq_lt(a.version, b.version) && seq_lt(b.version, c.version) {
            crate::text::lemma_seq_lt_transitive(a.version, b.version, c.version);
        }
        if seq_lt(a.digest, b.digest) && seq_lt(b.digest, c.digest) {
            crate::text::lemma_seq_lt_transitive(a.digest, b.digest, c.digest);
        }
        if seq_lt(a.role, b.role) && seq_lt(b.role, c.role) {
            crate::text::lemma_seq_lt_transitive(a.role, b.role, c.role);
        }
    }
}

pub open spec fn components_sorted(s: Seq<ComponentV>) -> bool {
    forall|a: int, b: int| 0 <= a < b < s.len() ==> component_lt(s[a], s[b])
}

fn component_less(a: &TrustedComponent, b: &TrustedComponent) -> (r: bool)
    ensures
        r == component_lt(a@, b@),
{
    if str_lt(a.name.as_str(), b.name.as_str()) {
        return true;
    }
    if !str_eq(a.name.as_str(), b.name.as_str()) {
        return false;
    }
    if str_lt(a.version.as_str(), b.version.as_str()) {
        return true;
    }
    if !str_eq(a.version.as_str(), b.version.as_str()) {
        return false;
    }
    if str_lt(a.digest.as_str(), b.digest.as_str()) {
        return true;
    }
    if !a.digest.same(&b.digest) {
        return false;
    }
    str_lt(a.role.as_str(), b.role.as_str())
}

/// Inserts a copy of `c` into a sorted list of components unless present.
fn insert_component(v: &mut Vec<TrustedComponent>, c: &TrustedComponent)
    requires
        components_sorted(component_views(old(v)@)),
    ensures
        components_sorted(component_views(final(v)@)),
        forall|x: ComponentV| component_views(final(v)@).contains(x) <==> (component_views(old(v)@).contains(x) || x == c@),
{
    let ghost before = component_views(v@);
    let ghost cv = c@;
    let n = v.len();
    let mut i: usize = 0;
    while i < n && component_less(&v[i], c)
        invariant
            n == v@.len(),
            i <= n,
            component_views(v@) == before,
            cv == c@,
            forall|j: int| 0 <= j < i ==> component_lt(before[j], cv),
        decreases n - i,
    {
        proof {
            assert(before[i as int] == v@[i as int]@);
        }
        i = i + 1;
    }
    if i < n {
        proof {
            assert(before[i as int] == v@[i as int]@);
            assert(!component_lt(before[i as int], cv));
            lemma_component_order(before[i as int], cv, cv);
        }
        if !component_less(c, &v[i]) {
            proof {
                assert(before[i as int] == cv);
                assert forall|x: ComponentV| component_views(v@).contains(x) <==> (before.contains(x) || x == cv) by {
                    if x == cv {
                        assert(before[i as int] == x);
                    }
                }
            }
            return;
        }
    }
    v.insert(i, c.copy());
    proof {
        let after = component_views(v@);
        assert(after =~= before.insert(i as int, cv));
        assert forall|a: int, b: int| 0 <= a < b < after.len() implies component_lt(after[a], after[b]) by {
            if a < i && b > i {
                assert(after[b] == before[b - 1]);
                if b - 1 > i {
                    lemma_component_order(after[a], cv, before[i as int]);
                    lemma_component_order(after[a], before[i as int], before[b - 1]);
                } else {
                    lemma_component_order(after[a], cv, before[i as int]);
                }
            } else if a > i {
                assert(after[a] == before[a - 1]);
                assert(after[b] == before[b - 1]);
            } else if a == i {
                assert(after[b] == before[b - 1]);
                if b - 1 > i {
                    lemma_component_order(cv, before[i as int], before[b - 1]);
                }
            }
        }
        assert forall|y: ComponentV| after.contains(y) <==> (before.contains(y) || y == cv) by {
            if before.contains(y) {
                let w = choose|w: int| 0 <= w < before.len() && before[w] == y;
                if w < i { assert(after[w] == y); } else { assert(after[w + 1] == y); }
            }
            if after.contains(y) {
                let w = choose|w: int| 0 <= w < after.len() && after[w] == y;
                if w < i { assert(before[w] == y); } else if w > i { assert(before[w - 1] == y); }
            }
            if y == cv { assert(after[i as int] == cv); }
        }
    }
}

#[derive(Clone, Debug, PartialEq, Eq)]
pub struct CompositeEvidence {
    pub vc_digest: Sha256Id,
    pub class: NormalizedClass,
    pub normalized: Vec<NormalizedResult>,
    pub raw_results: Vec<RawEngineResult>,
    pub disagreements: Vec<String>,
    pub trusted_components: Vec<TrustedComponent>,
}

/// A class that holds the claim up, in some scope.
pub open spec fn positive(c: NormalizedClass) -> bool {
    c == NormalizedClass::Proved || c == NormalizedClass::ModelChecked || c == NormalizedClass::Tested
}

/// Some result of `rs` normalizes to a class that satisfies `p`.
pub open spec fn some_class(vc: FiniteSafetyVc, rs: Seq<RawEngineResult>, c: NormalizedClass) -> bool {
    exists|i: int| 0 <= i < rs.len() && #[trigger] normalized_outcome(vc, rs[i]).0 == c
}

pub open spec fn some_positive(vc: FiniteSafetyVc, rs: Seq<RawEngineResult>) -> bool {
    exists|i: int| 0 <= i < rs.len() && positive(#[trigger] normalized_outcome(vc, rs[i]).0)
}

pub open spec fn raw_positive(s: RawStatus) -> bool {
    s matches RawStatus::Holds { requested_class } && positive(requested_class)
}

/// Some result claims the condition holds while another refutes it,
/// before or after normalization.
pub open spec fn conflict(vc: FiniteSafetyVc, rs: Seq<RawEngineResult>) -> bool {
    ||| (some_positive(vc, rs) && some_class(vc, rs, NormalizedClass::Refuted))
    ||| ((exists|i: int| 0 <= i < rs.len() && raw_positive(#[trigger] rs[i].status))
        && (exists|i: int| 0 <= i < rs.len() && (#[trigger] rs[i].status is Refuted)))
}

/// One note for each result that normalizes to `Unknown`: its engine and reason.
pub open spec fn unknown_notes(vc: FiniteSafetyVc, rs: Seq<RawEngineResult>) -> Seq<Seq<char>>
    decreases rs.len(),
{
    if rs.len() == 0 {
        Seq::empty()
    } else {
        unknown_notes(vc, rs.drop_last()) + if normalized_outcome(vc, rs.last()).0 == NormalizedClass::Unknown {
            seq![rs.last().engine.name@ + ": "@ + normalized_outcome(vc, rs.last()).1]
        } else {
            Seq::empty()
        }
    }
}

/// The disagreements of a composition: a conflict, the absence of any
/// result, then each `Unknown` result.
pub open spec fn disagreement_notes(vc: FiniteSafetyVc, rs: Seq<RawEngineResult>) -> Seq<Seq<char>> {
    (if conflict(vc, rs) { seq!["at least one engine accepted the claim while another refuted it"@] } else { Seq::empty() })
        + (if rs.len() == 0 { seq!["no engine result was supplied"@] } else { Seq::empty() })
        + unknown_notes(vc, rs)
}

/// The class of a composition: `Unknown` on any disagreement, else the
/// strongest class present, `Proved` only where every scope is complete.
pub open spec fn composite_class(vc: FiniteSafetyVc, rs: Seq<RawEngineResult>) -> NormalizedClass {
    if disagreement_notes(vc, rs).len() > 0 {
        NormalizedClass::Unknown
    } else if some_class(vc, rs, NormalizedClass::Refuted) {
        NormalizedClass::Refuted
    } else if some_class(vc, rs, NormalizedClass::Proved) && forall|i: int| 0 <= i < rs.len() ==> (#[trigger] rs[i].scope is CompleteFinite) {
        NormalizedClass::Proved
    } else if some_class(vc, rs, NormalizedClass::ModelChecked) {
        NormalizedClass::ModelChecked
    } else if some_class(vc, rs, NormalizedClass::Tested) {
        NormalizedClass::Tested
    } else {
        NormalizedClass::Unknown
    }
}

/// `x` is a trusted component of some engine of `rs`.
pub open spec fn trusted_by(rs: Seq<RawEngineResult>, x: ComponentV) -> bool {
    exists|i: int| 0 <= i < rs.len() && #[trigger] component_views(rs[i].engine.trusted_components@).contains(x)
}

pub open spec fn normalized_matches(vc: FiniteSafetyVc, n: NormalizedResult, raw: RawEngineResult) -> bool {
    &&& n.engine_name@ == raw.engine.name@
    &&& n.scope == raw.scope
    &&& (n.class, n.reason@, n.certificate_accepted) == normalized_outcome(vc, raw)
}

pub open spec fn note_views(s: Seq<String>) -> Seq<Seq<char>> {
    s.map_values(|x: String| x@)
}

/// `ce` composes the results `rs` for `vc`.
pub open spec fn composition(vc: FiniteSafetyVc, rs: Seq<RawEngineResult>, ce: CompositeEvidence) -> bool {
    &&& ce.vc_digest@ == vc_digest(vc)
    &&& ce.raw_results@ == rs
    &&& ce.normalized@.len() == rs.len()
    &&& forall|i: int| 0 <= i < rs.len() ==> normalized_matches(vc, #[trigger] ce.normalized@[i], rs[i])
    &&& note_views(ce.disagreements@) == disagreement_notes(vc, rs)
    &&& ce.class == composite_class(vc, rs)
    &&& components_sorted(component_views(ce.trusted_components@))
    &&& forall|x: ComponentV| component_views(ce.trusted_components@).contains(x) <==> trusted_by(rs, x)
}

/// `after` holds what `before` or `added` holds, and nothing else.
pub open spec fn union_of(after: Seq<ComponentV>, before: Seq<ComponentV>, added: Seq<ComponentV>) -> bool {
    forall|x: ComponentV| after.contains(x) <==> (before.contains(x) || added.contains(x))
}

#[verifier::spinoff_prover]
fn add_components(components: &mut Vec<TrustedComponent>, cs: &Vec<TrustedComponent>)
    requires
        components_sorted(component_views(old(components)@)),
    ensures
        components_sorted(component_views(final(components)@)),
        union_of(component_views(final(components)@), component_views(old(components)@), component_views(cs@)),
{
    let ghost before = components@;
    let mut k: usize = 0;
    while k < cs.len()
        invariant
            before == old(components)@,
            k <= cs@.len(),
            components_sorted(component_views(components@)),
            forall|x: ComponentV| component_views(components@).contains(x) <==> (component_views(before).contains(x)
                || component_views(cs@.subrange(0, k as int)).contains(x)),
        decreases cs@.len() - k,
    {
        let ghost prior = components@;
        assert(forall|x: ComponentV| component_views(prior).contains(x) <==> (component_views(before).contains(x)
            || component_views(cs@.subrange(0, k as int)).contains(x)));
        insert_component(components, &cs[k]);
        proof {
            let pre = component_views(cs@.subrange(0, k as int));
            let post = component_views(cs@.subrange(0, k + 1));
            assert(post =~= pre.push(cs@[k as int]@));
            assert forall|x: ComponentV| component_views(components@).contains(x) <==> (component_views(before).contains(x)
                || post.contains(x)) by {
                if post.contains(x) && x != cs@[k as int]@ {
                    let w = choose|w: int| 0 <= w < post.len() && post[w] == x;
                    assert(pre[w] == x);
                }
                if pre.contains(x) {
                    let w = choose|w: int| 0 <= w < pre.len() && pre[w] == x;
                    assert(post[w] == x);
                }
                if x == cs@[k as int]@ {
                    assert(post[k as int] == x);
                }
            }
        }
        k = k + 1;
    }
    proof {
        assert(cs@.subrange(0, cs@.len() as int) =~= cs@);
        assert(component_views(cs@.subrange(0, cs@.len() as int)) == component_views(cs@));
        assert(before == old(components)@);
        assert forall|x: ComponentV| component_views(components@).contains(x) <==> (component_views(old(components)@).contains(x)
            || component_views(cs@).contains(x)) by {
            assert(component_views(components@).contains(x) <==> (component_views(before).contains(x)
                || component_views(cs@.subrange(0, cs@.len() as int)).contains(x)));
        }
    }
}

proof fn lemma_trusted_by_push(rs: Seq<RawEngineResult>, i: int, x: ComponentV)
    requires
        0 <= i < rs.len(),
    ensures
        trusted_by(rs.subrange(0, i + 1), x) <==> (trusted_by(rs.subrange(0, i), x)
            || component_views(rs[i].engine.trusted_components@).contains(x)),
{
    if trusted_by(rs.subrange(0, i + 1), x) {
        let w = choose|w: int| 0 <= w < i + 1 && #[trigger] component_views(rs.subrange(0, i + 1)[w].engine.trusted_components@).contains(x);
        if w < i {
            assert(rs.subrange(0, i)[w] == rs.subrange(0, i + 1)[w]);
        }
    }
    if trusted_by(rs.subrange(0, i), x) {
        let w = choose|w: int| 0 <= w < i && #[trigger] component_views(rs.subrange(0, i)[w].engine.trusted_components@).contains(x);
        assert(rs.subrange(0, i)[w] == rs.subrange(0, i + 1)[w]);
    }
    if component_views(rs[i].engine.trusted_components@).contains(x) {
        assert(rs.subrange(0, i + 1)[i] == rs[i]);
    }
}

proof fn lemma_components_step(rs: Seq<RawEngineResult>, i: int, before: Seq<ComponentV>, after: Seq<ComponentV>,
    added: Seq<ComponentV>)
    requires
        0 <= i < rs.len(),
        added == component_views(rs[i].engine.trusted_components@),
        forall|x: ComponentV| before.contains(x) <==> trusted_by(rs.subrange(0, i), x),
        union_of(after, before, added),
    ensures
        forall|x: ComponentV| after.contains(x) <==> trusted_by(rs.subrange(0, i + 1), x),
{
    assert forall|x: ComponentV| after.contains(x) <==> trusted_by(rs.subrange(0, i + 1), x) by {
        lemma_trusted_by_push(rs, i, x);
    }
}

/// What a pass over the results gathers.
struct Tally {
    normalized: Vec<NormalizedResult>,
    notes: Vec<String>,
    components: Vec<TrustedComponent>,
    positive: bool,
    refuted: bool,
    raw_positive: bool,
    raw_refuted: bool,
    proved: bool,
    checked: bool,
    tested: bool,
    complete: bool,
}

spec fn tally_of(vc: FiniteSafetyVc, rs: Seq<RawEngineResult>, n: int, t: Tally) -> bool {
    &&& t.normalized@.len() == n
    &&& forall|j: int| 0 <= j < n ==> normalized_matches(vc, #[trigger] t.normalized@[j], rs[j])
    &&& note_views(t.notes@) == unknown_notes(vc, rs.subrange(0, n))
    &&& t.positive == exists|j: int| 0 <= j < n && positive(#[trigger] normalized_outcome(vc, rs[j]).0)
    &&& t.refuted == exists|j: int| 0 <= j < n && #[trigger] normalized_outcome(vc, rs[j]).0 == NormalizedClass::Refuted
    &&& t.proved == exists|j: int| 0 <= j < n && #[trigger] normalized_outcome(vc, rs[j]).0 == NormalizedClass::Proved
    &&& t.checked == exists|j: int| 0 <= j < n && #[trigger] normalized_outcome(vc, rs[j]).0 == NormalizedClass::ModelChecked
    &&& t.tested == exists|j: int| 0 <= j < n && #[trigger] normalized_outcome(vc, rs[j]).0 == NormalizedClass::Tested
    &&& t.raw_positive == exists|j: int| 0 <= j < n && raw_positive(#[trigger] rs[j].status)
    &&& t.raw_refuted == exists|j: int| 0 <= j < n && (#[trigger] rs[j].status is Refuted)
    &&& t.complete == forall|j: int| 0 <= j < n ==> (#[trigger] rs[j].scope is CompleteFinite)
    &&& components_sorted(component_views(t.components@))
    &&& forall|x: ComponentV| component_views(t.components@).contains(x) <==> trusted_by(rs.subrange(0, n), x)
}

/// Takes the result at `i` into the tally of the results before it.
#[verifier::rlimit(50)]
#[verifier::spinoff_prover]
fn tally_one(vc: &FiniteSafetyVc, rs: &Vec<RawEngineResult>, i: usize, t: Tally) -> (r: Tally)
    requires
        i < rs@.len(),
        tally_of(*vc, rs@, i as int, t),
    ensures
        tally_of(*vc, rs@, i + 1, r),
{
    let Tally { mut normalized, mut notes, mut components, positive, refuted, raw_positive, raw_refuted, proved, checked, tested, complete } = t;
    let raw = &rs[i];
    let n = normalize_result(vc, raw);
    let class = n.class;
    let ghost out = normalized_outcome(*vc, rs@[i as int]);
    if class == NormalizedClass::Unknown {
        notes.push(raw.engine.name.clone().concat(": ").concat(n.reason.as_str()));
    }
    proof {
        assert(rs@.subrange(0, i + 1).drop_last() =~= rs@.subrange(0, i as int));
        assert(rs@.subrange(0, i + 1).last() == rs@[i as int]);
        assert(note_views(notes@) =~= unknown_notes(*vc, rs@.subrange(0, i + 1)));
    }
    let positive = positive || class == NormalizedClass::Proved || class == NormalizedClass::ModelChecked || class == NormalizedClass::Tested;
    let refuted = refuted || class == NormalizedClass::Refuted;
    let proved = proved || class == NormalizedClass::Proved;
    let checked = checked || class == NormalizedClass::ModelChecked;
    let tested = tested || class == NormalizedClass::Tested;
    let (rp, rr) = match &raw.status {
        RawStatus::Holds { requested_class } => (*requested_class == NormalizedClass::Proved
            || *requested_class == NormalizedClass::ModelChecked || *requested_class == NormalizedClass::Tested, false),
        RawStatus::Refuted { .. } => (false, true),
        _ => (false, false),
    };
    let raw_positive = raw_positive || rp;
    let raw_refuted = raw_refuted || rr;
    let complete = complete && !raw.scope.is_bounded();
    let ghost before_components = component_views(components@);
    add_components(&mut components, &raw.engine.trusted_components);
    proof {
        assert(rs@[i as int] == *raw);
        lemma_components_step(rs@, i as int, before_components, component_views(components@),
            component_views(raw.engine.trusted_components@));
    }
    normalized.push(n);
    proof {
        assert forall|j: int| 0 <= j < i + 1 implies normalized_matches(*vc, #[trigger] normalized@[j], rs@[j]) by {
            if j == i {
                assert(normalized@[j] == n);
            }
        }
    }
    Tally { normalized, notes, components, positive, refuted, raw_positive, raw_refuted, proved, checked, tested, complete }
}

proof fn lemma_tally_complete(vc: FiniteSafetyVc, rs: Seq<RawEngineResult>, t: Tally)
    requires
        tally_of(vc, rs, rs.len() as int, t),
    ensures
        t.normalized@.len() == rs.len(),
        forall|j: int| 0 <= j < rs.len() ==> normalized_matches(vc, #[trigger] t.normalized@[j], rs[j]),
        note_views(t.notes@) == unknown_notes(vc, rs),
        ((t.positive && t.refuted) || (t.raw_positive && t.raw_refuted)) == conflict(vc, rs),
        t.refuted == some_class(vc, rs, NormalizedClass::Refuted),
        t.proved == some_class(vc, rs, NormalizedClass::Proved),
        t.checked == some_class(vc, rs, NormalizedClass::ModelChecked),
        t.tested == some_class(vc, rs, NormalizedClass::Tested),
        t.complete == forall|j: int| 0 <= j < rs.len() ==> (#[trigger] rs[j].scope is CompleteFinite),
        components_sorted(component_views(t.components@)),
        forall|x: ComponentV| component_views(t.components@).contains(x) <==> trusted_by(rs, x),
{
    assert(rs.subrange(0, rs.len() as int) =~= rs);
}

/// Composes the results without dropping any raw output. A positive
/// result beside a refutation, an empty list, or any result that
/// normalizes to `Unknown` makes the composition `Unknown`.
#[verifier::rlimit(50)]
pub fn compose_evidence(vc: &FiniteSafetyVc, raw_results: Vec<RawEngineResult>) -> (r: Result<CompositeEvidence, String>)
    ensures
        r is Ok <==> vc_fault(*vc) is None,
        r matches Err(e) ==> e@ == ir_error_text(vc_fault(*vc)->0),
        r matches Ok(ce) ==> composition(*vc, raw_results@, ce),
{
    let vc_digest = match vc.digest() {
        Err(e) => return Err(e.to_string()),
        Ok(d) => d,
    };
    let ghost rs = raw_results@;
    let mut t = Tally {
        normalized: Vec::new(),
        notes: Vec::new(),
        components: Vec::new(),
        positive: false,
        refuted: false,
        raw_positive: false,
        raw_refuted: false,
        proved: false,
        checked: false,
        tested: false,
        complete: true,
    };
    proof {
        assert(rs.subrange(0, 0) =~= Seq::<RawEngineResult>::empty());
        assert(note_views(t.notes@) =~= unknown_notes(*vc, rs.subrange(0, 0)));
        assert(tally_of(*vc, rs, 0, t));
    }
    let mut i: usize = 0;
    while i < raw_results.len()
        invariant
            rs == raw_results@,
            i <= rs.len(),
            tally_of(*vc, rs, i as int, t),
        decreases rs.len() - i,
    {
        t = tally_one(vc, &raw_results, i, t);
        i = i + 1;
    }
    proof {
        lemma_tally_complete(*vc, rs, t);
    }
    let Tally { normalized, mut notes, components, positive, refuted, raw_positive, raw_refuted, proved, checked, tested, complete } = t;
    let conflict_found = (positive && refuted) || (raw_positive && raw_refuted);
    let mut disagreements: Vec<String> = Vec::new();
    if conflict_found {
        disagreements.push(String::from_str("at least one engine accepted the claim while another refuted it"));
    }
    if raw_results.len() == 0 {
        disagreements.push(String::from_str("no engine result was supplied"));
    }
    disagreements.append(&mut notes);
    proof {
        assert(note_views(disagreements@) =~= disagreement_notes(*vc, rs));
    }
    let class = if disagreements.len() > 0 {
        NormalizedClass::Unknown
    } else if refuted {
        NormalizedClass::Refuted
    } else if proved && complete {
        NormalizedClass::Proved
    } else if checked {
        NormalizedClass::ModelChecked
    } else if tested {
        NormalizedClass::Tested
    } else {
        NormalizedClass::Unknown
    };
    let ce = CompositeEvidence { vc_digest, class, normalized, raw_results, disagreements, trusted_components: components };
    proof {
        assert(composition(*vc, rs, ce));
    }
    Ok(ce)
}

proof fn lemma_no_unknown_notes(vc: FiniteSafetyVc, rs: Seq<RawEngineResult>)
    requires
        unknown_notes(vc, rs).len() == 0,
    ensures
        forall|i: int| 0 <= i < rs.len() ==> #[trigger] normalized_outcome(vc, rs[i]).0 != NormalizedClass::Unknown,
    decreases rs.len(),
{
    if rs.len() > 0 {
        lemma_no_unknown_notes(vc, rs.drop_last());
        assert forall|i: int| 0 <= i < rs.len() implies #[trigger] normalized_outcome(vc, rs[i]).0 != NormalizedClass::Unknown by {
            if i < rs.len() - 1 {
                assert(rs.drop_last()[i] == rs[i]);
            }
        }
    }
}

/// Composition fails closed: a class other than `Unknown` needs at least
/// one result, no conflict, and no result that normalizes to `Unknown`; a
/// composed `Refuted` rests on a replayed counterexample; a composed
/// `Proved` on a `Proved` result, with every scope complete.
pub proof fn composite_class_is_fail_closed(vc: FiniteSafetyVc, rs: Seq<RawEngineResult>)
    ensures
        composite_class(vc, rs) != NormalizedClass::Unknown ==> rs.len() > 0 && !conflict(vc, rs)
            && forall|i: int| 0 <= i < rs.len() ==> #[trigger] normalized_outcome(vc, rs[i]).0 != NormalizedClass::Unknown,
        composite_class(vc, rs) == NormalizedClass::Refuted ==> exists|i: int| 0 <= i < rs.len()
            && (#[trigger] rs[i].status matches RawStatus::Refuted { witness_states } && counterexample(vc, witness_states@)),
        composite_class(vc, rs) == NormalizedClass::Proved ==> some_class(vc, rs, NormalizedClass::Proved)
            && forall|i: int| 0 <= i < rs.len() ==> (#[trigger] rs[i].scope is CompleteFinite),
        composite_class(vc, rs) == NormalizedClass::ModelChecked ==> some_class(vc, rs, NormalizedClass::ModelChecked),
{
    if composite_class(vc, rs) != NormalizedClass::Unknown {
        assert(disagreement_notes(vc, rs).len() == 0);
        assert(unknown_notes(vc, rs).len() == 0);
        lemma_no_unknown_notes(vc, rs);
    }
    if composite_class(vc, rs) == NormalizedClass::Refuted {
        let i = choose|i: int| 0 <= i < rs.len() && #[trigger] normalized_outcome(vc, rs[i]).0 == NormalizedClass::Refuted;
        normalized_class_is_justified(vc, rs[i]);
    }
}

/// Where a composition is `Proved` or `ModelChecked`, the property holds at
/// every state of every run of the condition.
pub proof fn composed_claim_holds_on_runs(vc: FiniteSafetyVc, rs: Seq<RawEngineResult>, w: Seq<u64>, j: int)
    requires
        composite_class(vc, rs) == NormalizedClass::Proved || composite_class(vc, rs) == NormalizedClass::ModelChecked,
        run(vc, w),
        0 <= j < w.len(),
    ensures
        holds(vc.property, w[j] as usize, 0),
{
    composite_class_is_fail_closed(vc, rs);
    let i = if composite_class(vc, rs) == NormalizedClass::Proved {
        choose|i: int| 0 <= i < rs.len() && #[trigger] normalized_outcome(vc, rs[i]).0 == NormalizedClass::Proved
    } else {
        choose|i: int| 0 <= i < rs.len() && #[trigger] normalized_outcome(vc, rs[i]).0 == NormalizedClass::ModelChecked
    };
    proved_claim_holds_on_runs(vc, rs[i], w, j);
}

/// `a` and `b` carry the same identity, field by field.
pub open spec fn same_identity(a: BackendIdentity, b: BackendIdentity) -> bool {
    &&& a.name@ == b.name@
    &&& a.version@ == b.version@
    &&& a.build_digest@ == b.build_digest@
    &&& a.protocol@ == b.protocol@
    &&& component_views(a.trusted_components@) == component_views(b.trusted_components@)
}

impl BackendIdentity {
    pub fn copy(&self) -> (r: BackendIdentity)
        ensures
            same_identity(r, *self),
    {
        let mut cs: Vec<TrustedComponent> = Vec::new();
        let mut i: usize = 0;
        while i < self.trusted_components.len()
            invariant
                i <= self.trusted_components@.len(),
                component_views(cs@) == component_views(self.trusted_components@.subrange(0, i as int)),
            decreases self.trusted_components@.len() - i,
        {
            let ghost prior = cs@;
            let c = self.trusted_components[i].copy();
            cs.push(c);
            proof {
                assert(cs@ == prior.push(c));
                assert forall|k: int| 0 <= k < i + 1 implies #[trigger] component_views(cs@)[k]
                    == component_views(self.trusted_components@.subrange(0, i + 1))[k] by {
                    if k < i {
                        assert(component_views(prior)[k] == component_views(self.trusted_components@.subrange(0, i as int))[k]);
                    }
                }
                assert(component_views(cs@) =~= component_views(self.trusted_components@.subrange(0, i + 1)));
            }
            i = i + 1;
        }
        proof {
            assert(self.trusted_components@.subrange(0, i as int) =~= self.trusted_components@);
        }
        BackendIdentity {
            name: self.name.clone(),
            version: self.version.clone(),
            build_digest: self.build_digest.copy(),
            protocol: self.protocol.clone(),
            trusted_components: cs,
        }
    }
}

/// The digest that stands in for the binding of an invalid condition.
pub open spec fn placeholder_digest() -> Seq<char> {
    crate::vc::identity::id_text(vstd::utf8::encode_utf8("invalid-vc"@))
}

/// `b` binds a result to `vc`: to its digest where `vc` is valid, and to
/// the placeholder digest where it is not.
pub open spec fn bound_to(b: EngineBinding, vc: FiniteSafetyVc) -> bool {
    &&& b.vc_digest@ == if vc_fault(vc) is None { vc_digest(vc) } else { placeholder_digest() }
    &&& b.model_id@ == vc.identity.model@
    &&& b.claim_id@ == vc.identity.claim@
    &&& b.configuration_id@ == vc.identity.configuration@
}

/// The binding of a result to `vc`, or to the placeholder digest where
/// `vc` is invalid.
pub fn binding_or_placeholder(vc: &FiniteSafetyVc) -> (r: EngineBinding)
    ensures
        bound_to(r, *vc),
{
    match EngineBinding::for_vc(vc) {
        Ok(b) => b,
        Err(_) => EngineBinding {
            vc_digest: Sha256Id::digest("invalid-vc".as_bytes()),
            model_id: vc.identity.model.copy(),
            claim_id: vc.identity.claim.copy(),
            configuration_id: vc.identity.configuration.copy(),
        },
    }
}

proof fn lemma_steps_clean(vc: FiniteSafetyVc, w: Seq<u64>, i: int)
    requires
        1 <= i,
        forall|j: int| 1 <= j < w.len() ==> #[trigger] holds(vc.transition, w[j - 1] as usize, w[j] as usize),
    ensures
        step_fault(vc, w, i) is None,
    decreases w.len() - i,
{
    if i < w.len() {
        assert(holds(vc.transition, w[i - 1] as usize, w[i] as usize));
        lemma_steps_clean(vc, w, i + 1);
    }
}

/// A counterexample passes the witness check.
pub proof fn lemma_counterexample_witness(vc: FiniteSafetyVc, w: Seq<u64>)
    requires
        counterexample(vc, w),
    ensures
        witness_fault(vc, w) is None,
{
    lemma_steps_clean(vc, w, 1);
}

} // verus!
