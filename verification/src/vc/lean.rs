//! A proof-assistant request for the inductiveness of a condition, and the
//! reading of what the assistant returns.

use vstd::prelude::*;
use crate::text::{decimal, usize_string};
use crate::vc::certificate::FiniteInvariantCertificate;
use crate::vc::evidence::{BackendIdentity, EngineBinding, NormalizedClass, RawEngineResult, RawStatus, ResultScope};
use crate::vc::identity::Sha256Id;
use crate::vc::ir::{BoolExpr, FiniteSafetyVc, IrError, IrErrorV, StateRef, lemma_valid_refs, valuations, vc_digest, vc_fault};
use crate::vc::smt::{joined_output, stderr_separator};

verus! {

pub const PROOF_ASSISTANT_PROTOCOL: &'static str = "nmlt-proof-assistant/1";

#[derive(Clone, Debug, PartialEq, Eq)]
pub enum ProofAssistant {
    Lean4 { version: String },
}

#[derive(Clone, Debug, PartialEq, Eq)]
pub struct ProofAssistantExport {
    pub protocol: String,
    pub assistant: ProofAssistant,
    pub vc_digest: Sha256Id,
    pub model_id: Sha256Id,
    pub claim_id: Sha256Id,
    pub configuration_id: Sha256Id,
    /// Definitions and an obligation; never a proof or an accepted result.
    pub source: String,
}

/// The Lean text of `e`; a current-state variable is read in the next
/// state where `prime` holds.
pub open spec fn lean_text(e: BoolExpr, prime: bool) -> Seq<char>
    decreases e,
{
    match e {
        BoolExpr::Const(b) => if b { "true"@ } else { "false"@ },
        BoolExpr::Var(StateRef::Current(i)) => "Nat.testBit "@ + (if prime { "next"@ } else { "current"@ }) + " "@ + decimal(i as nat),
        BoolExpr::Var(StateRef::Next(i)) => "Nat.testBit next "@ + decimal(i as nat),
        BoolExpr::Not(x) => "(!("@ + lean_text(*x, prime) + "))"@,
        BoolExpr::And(items) => if items@.len() == 0 { "true"@ } else { "("@ + lean_items(items@, prime, " && "@) + ")"@ },
        BoolExpr::Or(items) => if items@.len() == 0 { "false"@ } else { "("@ + lean_items(items@, prime, " || "@) + ")"@ },
        BoolExpr::Implies(a, b) => "((!("@ + lean_text(*a, prime) + ")) || "@ + lean_text(*b, prime) + ")"@,
        BoolExpr::Iff(a, b) => "("@ + lean_text(*a, prime) + " == "@ + lean_text(*b, prime) + ")"@,
    }
}

/// The expressions of `s` joined by `sep`.
pub open spec fn lean_items(s: Seq<BoolExpr>, prime: bool, sep: Seq<char>) -> Seq<char>
    decreases s,
{
    if s.len() == 0 {
        Seq::empty()
    } else if s.len() == 1 {
        lean_text(s[0], prime)
    } else {
        lean_items(s.drop_last(), prime, sep) + sep + lean_text(s.last(), prime)
    }
}

fn write_lean(e: &BoolExpr, output: &mut String, prime: bool)
    ensures
        final(output)@ == old(output)@ + lean_text(*e, prime),
    decreases e,
{
    match e {
        BoolExpr::Const(value) => {
            if *value {
                output.append("true");
            } else {
                output.append("false");
            }
        },
        BoolExpr::Var(StateRef::Current(index)) => {
            output.append("Nat.testBit ");
            if prime {
                output.append("next");
            } else {
                output.append("current");
            }
            output.append(" ");
            output.append(usize_string(*index).as_str());
        },
        BoolExpr::Var(StateRef::Next(index)) => {
            output.append("Nat.testBit next ");
            output.append(usize_string(*index).as_str());
        },
        BoolExpr::Not(inner) => {
            output.append("(!(");
            write_lean(inner, output, prime);
            output.append("))");
        },
        BoolExpr::And(items) => {
            if items.len() == 0 {
                output.append("true");
            } else {
                output.append("(");
                write_lean_items(items, output, prime, " && ");
                output.append(")");
            }
        },
        BoolExpr::Or(items) => {
            if items.len() == 0 {
                output.append("false");
            } else {
                output.append("(");
                write_lean_items(items, output, prime, " || ");
                output.append(")");
            }
        },
        BoolExpr::Implies(left, right) => {
            output.append("((!(");
            write_lean(left, output, prime);
            output.append(")) || ");
            write_lean(right, output, prime);
            output.append(")");
        },
        BoolExpr::Iff(left, right) => {
            output.append("(");
            write_lean(left, output, prime);
            output.append(" == ");
            write_lean(right, output, prime);
            output.append(")");
        },
    }
    proof {
        assert(output@ =~= old(output)@ + lean_text(*e, prime));
    }
}

fn write_lean_items(items: &Vec<BoolExpr>, output: &mut String, prime: bool, sep: &str)
    ensures
        final(output)@ == old(output)@ + lean_items(items@, prime, sep@),
    decreases items,
{
    let ghost start = output@;
    let mut k: usize = 0;
    proof {
        assert(output@ =~= start + lean_items(items@.subrange(0, 0), prime, sep@));
    }
    while k < items.len()
        invariant
            k <= items@.len(),
            output@ == start + lean_items(items@.subrange(0, k as int), prime, sep@),
        decreases items@.len() - k,
    {
        proof {
            assert(decreases_to!(items => items@[k as int]));
        }
        if k > 0 {
            output.append(sep);
        }
        write_lean(&items[k], output, prime);
        proof {
            let pre = items@.subrange(0, k + 1);
            assert(pre.drop_last() =~= items@.subrange(0, k as int));
            if k == 0 {
                assert(pre.len() == 1 && pre[0] == items@[0]);
            }
            assert(output@ =~= start + lean_items(pre, prime, sep@));
        }
        k = k + 1;
    }
    proof {
        assert(items@.subrange(0, items@.len() as int) =~= items@);
    }
}

/// The proposition that the property is an inductive invariant.
pub const INDUCTIVE_OBLIGATION: &'static str = "def NMLTInductiveObligation : Prop :=\n  (∀ current, current < nmltStateCount → nmltInitial current = true → nmltProperty current = true) ∧\n  (∀ current next, current < nmltStateCount → next < nmltStateCount →\n    nmltProperty current = true → nmltTransition current next = true →\n    nmltProperty next = true)\n";

/// The Lean source of the request for `vc`: its identities in a comment,
/// the state count, the three formulas as Boolean definitions, and the
/// obligation.
pub open spec fn lean_source(vc: FiniteSafetyVc) -> Seq<char> {
    "/- Generated NMLT proof request.\nVC: "@ + vc_digest(vc) + "\nModel: "@ + vc.identity.model@ + "\nClaim: "@ + vc.identity.claim@
        + "\nConfiguration: "@ + vc.identity.configuration@ + "\n-/\n\n"@ + "def nmltStateCount : Nat := "@
        + decimal(valuations(vc.variables@.len())) + "\n"@ + "def nmltInitial (current : Nat) : Bool := "@ + lean_text(vc.initial, false)
        + "\n"@ + "def nmltTransition (current next : Nat) : Bool := "@ + lean_text(vc.transition, false) + "\n"@
        + "def nmltProperty (current : Nat) : Bool := "@ + lean_text(vc.property, false) + "\n\n"@ + INDUCTIVE_OBLIGATION@
}

fn lean_header(vc: &FiniteSafetyVc, digest: &Sha256Id, count: usize) -> (r: String)
    ensures
        r@ == "/- Generated NMLT proof request.\nVC: "@ + digest@ + "\nModel: "@ + vc.identity.model@ + "\nClaim: "@
            + vc.identity.claim@ + "\nConfiguration: "@ + vc.identity.configuration@ + "\n-/\n\n"@ + "def nmltStateCount : Nat := "@
            + decimal(count as nat) + "\n"@,
{
    let mut source = String::from_str("/- Generated NMLT proof request.\nVC: ");
    source.append(digest.as_str());
    source.append("\nModel: ");
    source.append(vc.identity.model.as_str());
    source.append("\nClaim: ");
    source.append(vc.identity.claim.as_str());
    source.append("\nConfiguration: ");
    source.append(vc.identity.configuration.as_str());
    source.append("\n-/\n\n");
    source.append("def nmltStateCount : Nat := ");
    source.append(usize_string(count).as_str());
    source.append("\n");
    source
}

/// Writes the request to prove, in Lean 4, that the property of `vc` is an
/// inductive invariant. The source holds definitions and an obligation
/// only; a returned certificate is still checked by the library.
#[verifier::rlimit(40)]
pub fn export_lean4_inductiveness(vc: &FiniteSafetyVc, lean_version: &str) -> (r: Result<ProofAssistantExport, IrError>)
    ensures
        r is Ok <==> vc_fault(*vc) is None,
        r matches Err(e) ==> vc_fault(*vc) == Some(e@),
        r matches Ok(x) ==> {
            &&& x.protocol@ == PROOF_ASSISTANT_PROTOCOL@
            &&& x.assistant matches ProofAssistant::Lean4 { version } && version@ == lean_version@
            &&& x.vc_digest@ == vc_digest(*vc)
            &&& x.model_id@ == vc.identity.model@
            &&& x.claim_id@ == vc.identity.claim@
            &&& x.configuration_id@ == vc.identity.configuration@
            &&& x.source@ == lean_source(*vc)
        },
{
    match vc.validate() {
        Err(e) => return Err(e),
        Ok(()) => {},
    }
    let vc_digest = match vc.digest() {
        Err(e) => return Err(e),
        Ok(d) => d,
    };
    proof {
        lemma_valid_refs(*vc);
        crate::vc::inductive::lemma_count_bound(*vc);
    }
    let mut source = lean_header(vc, &vc_digest, vc.state_count());
    source.append("def nmltInitial (current : Nat) : Bool := ");
    write_lean(&vc.initial, &mut source, false);
    source.append("\n");
    source.append("def nmltTransition (current next : Nat) : Bool := ");
    write_lean(&vc.transition, &mut source, false);
    source.append("\n");
    source.append("def nmltProperty (current : Nat) : Bool := ");
    write_lean(&vc.property, &mut source, false);
    source.append("\n\n");
    source.append(INDUCTIVE_OBLIGATION);
    proof {
        assert(source@ =~= lean_source(*vc));
    }
    Ok(ProofAssistantExport {
        protocol: String::from_str(PROOF_ASSISTANT_PROTOCOL),
        assistant: ProofAssistant::Lean4 { version: lean_version.to_owned() },
        vc_digest,
        model_id: vc.identity.model.copy(),
        claim_id: vc.identity.claim.copy(),
        configuration_id: vc.identity.configuration.copy(),
        source,
    })
}

#[derive(Clone, Debug, PartialEq, Eq)]
pub struct ProofAssistantReturn {
    pub engine: BackendIdentity,
    pub binding: EngineBinding,
    pub certificate: Option<FiniteInvariantCertificate>,
    pub stdout: Vec<u8>,
    pub stderr: Vec<u8>,
}

/// Turns what a proof assistant returned into an engine result. Neither its
/// prose nor its exit status counts: only a returned certificate, which
/// normalization must still accept, can lead to `Proved`.
pub fn normalize_proof_assistant_return(vc: &FiniteSafetyVc, returned: ProofAssistantReturn) -> (r: RawEngineResult)
    requires
        vc.variables@.len() < usize::BITS,
    ensures
        r.engine == returned.engine,
        r.binding == returned.binding,
        r.method@ == PROOF_ASSISTANT_PROTOCOL@,
        r.scope == (ResultScope::CompleteFinite { states: valuations(vc.variables@.len()) as usize }),
        r.raw_output@ == returned.stdout@ + stderr_separator() + returned.stderr@,
        r.certificate == returned.certificate,
        returned.certificate is Some ==> r.status == (RawStatus::Holds { requested_class: NormalizedClass::Proved }),
        returned.certificate is None ==> (r.status matches RawStatus::Unknown { reason }
            && reason@ == "proof backend returned no NMLT-checkable certificate"@),
{
    let ProofAssistantReturn { engine, binding, certificate, stdout, stderr } = returned;
    let raw_output = joined_output(stdout, &stderr);
    let status = if certificate.is_some() {
        RawStatus::Holds { requested_class: NormalizedClass::Proved }
    } else {
        RawStatus::Unknown { reason: String::from_str("proof backend returned no NMLT-checkable certificate") }
    };
    RawEngineResult {
        engine,
        binding,
        method: String::from_str(PROOF_ASSISTANT_PROTOCOL),
        scope: ResultScope::CompleteFinite { states: vc.state_count() },
        status,
        certificate,
        raw_output,
    }
}

} // verus!
