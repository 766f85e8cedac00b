//! The inductiveness engine: decides whether the property is itself an
//! inductive invariant, by enumerating every valuation.

use vstd::prelude::*;
use crate::text::decimal;
use crate::vc::certificate::{FINITE_INVARIANT_CERTIFICATE_VERSION, FiniteInvariantCertificate, certificate_outcome, closure_fault,
    escape_fault, initial_fault, states_fault};
use crate::vc::evidence::{BackendIdentity, EngineBinding, NormalizedClass, RawEngineResult, RawStatus, ResultScope, binding_or_placeholder,
    bound_to, same_identity};
use crate::vc::ir::{BoolExpr, FiniteSafetyVc, MAX_VARIABLES, StateRef, all_hold, any_holds, holds, ir_error_text, lemma_all_below,
    lemma_all_hold, lemma_valid_refs, refs_below, valuations, vc_digest, vc_fault};

verus! {

pub struct InductiveEngine {
    pub identity: BackendIdentity,
}

/// The first initial valuation from `s` on where the property fails.
pub open spec fn first_bad_initial(vc: FiniteSafetyVc, count: nat, s: int) -> Option<u64>
    decreases count - s,
{
    if s < 0 || s >= count {
        None
    } else if holds(vc.initial, s as usize, 0) && !holds(vc.property, s as usize, 0) {
        Some(s as u64)
    } else {
        first_bad_initial(vc, count, s + 1)
    }
}

/// The first successor of `from`, from `t` on, where the property fails.
pub open spec fn first_bad_successor(vc: FiniteSafetyVc, count: nat, from: int, t: int) -> Option<u64>
    decreases count - t,
{
    if t < 0 || t >= count {
        None
    } else if holds(vc.transition, from as usize, t as usize) && !holds(vc.property, t as usize, 0) {
        Some(t as u64)
    } else {
        first_bad_successor(vc, count, from, t + 1)
    }
}

/// The first step, from a valuation `s` on where the property holds, to one
/// where it fails.
pub open spec fn first_bad_step(vc: FiniteSafetyVc, count: nat, s: int) -> Option<(u64, u64)>
    decreases count - s,
{
    if s < 0 || s >= count {
        None
    } else if holds(vc.property, s as usize, 0) && first_bad_successor(vc, count, s, 0) is Some {
        Some((s as u64, first_bad_successor(vc, count, s, 0)->0))
    } else {
        first_bad_step(vc, count, s + 1)
    }
}

/// The valuations below `k` where the property holds, in increasing order.
pub open spec fn good_states(vc: FiniteSafetyVc, k: nat) -> Seq<u64>
    decreases k,
{
    if k == 0 {
        Seq::empty()
    } else {
        good_states(vc, (k - 1) as nat) + if holds(vc.property, (k - 1) as usize, 0) { seq![(k - 1) as u64] } else { Seq::empty() }
    }
}

/// What the engine `engine` reports on `vc`: a refutation at the first
/// initial valuation where the property fails; else `Unknown` at the first
/// step from a good valuation to a bad one; else a proof whose certificate
/// lists every valuation where the property holds.
pub open spec fn inductive_result(engine: BackendIdentity, vc: FiniteSafetyVc, r: RawEngineResult) -> bool {
    let count = valuations(vc.variables@.len());
    &&& same_identity(r.engine, engine)
    &&& bound_to(r.binding, vc)
    &&& r.method@ == "finite-inductiveness-enumeration/1"@
    &&& r.raw_output@.len() == 0
    &&& if vc_fault(vc) is Some {
        &&& r.scope == (ResultScope::CompleteFinite { states: 0 })
        &&& r.status matches RawStatus::Unknown { reason } && reason@ == "invalid VC: "@ + ir_error_text(vc_fault(vc)->0)
        &&& r.certificate is None
    } else {
        &&& r.scope == (ResultScope::CompleteFinite { states: count as usize })
        &&& if first_bad_initial(vc, count, 0) is Some {
            &&& r.status matches RawStatus::Refuted { witness_states } && witness_states@ == seq![first_bad_initial(vc, count, 0)->0]
            &&& r.certificate is None
        } else if first_bad_step(vc, count, 0) is Some {
            &&& r.status matches RawStatus::Unknown { reason } && reason@ == "property is not inductive: valuation "@
                + decimal((first_bad_step(vc, count, 0)->0).0 as nat) + " permits bad successor "@
                + decimal((first_bad_step(vc, count, 0)->0).1 as nat) + "; reachability was not assumed"@
            &&& r.certificate is None
        } else {
            &&& r.status matches RawStatus::Holds { requested_class } && requested_class == NormalizedClass::Proved
            &&& r.certificate matches Some(c) && c.format@ == FINITE_INVARIANT_CERTIFICATE_VERSION@
                && c.vc_digest@ == vc_digest(vc) && c.model_id@ == vc.identity.model@ && c.claim_id@ == vc.identity.claim@
                && c.configuration_id@ == vc.identity.configuration@ && c.invariant_states@ == good_states(vc, count)
        }
    }
}

/// The engine's own evaluator, which stops at the first operand that
/// decides a conjunction, disjunction or implication.
fn induction_eval(e: &BoolExpr, current: usize, next: usize) -> (r: bool)
    requires
        refs_below(*e, MAX_VARIABLES as nat),
    ensures
        r == holds(*e, current, next),
    decreases e,
{
    match e {
        BoolExpr::Const(value) => *value,
        BoolExpr::Var(StateRef::Current(index)) => current & (1usize << *index) != 0,
        BoolExpr::Var(StateRef::Next(index)) => next & (1usize << *index) != 0,
        BoolExpr::Not(inner) => !induction_eval(inner, current, next),
        BoolExpr::And(items) => {
            proof {
                lemma_all_hold(items@, current, next);
            }
            let mut k: usize = 0;
            while k < items.len()
                invariant
                    k <= items@.len(),
                    refs_below(*e, MAX_VARIABLES as nat),
                    *e == BoolExpr::And(*items),
                    forall|j: int| 0 <= j < k ==> holds(#[trigger] items@[j], current, next),
                decreases items@.len() - k,
            {
                proof {
                    lemma_all_below(items@, MAX_VARIABLES as nat, k as int);
                    assert(decreases_to!(e => items@[k as int]));
                }
                if !induction_eval(&items[k], current, next) {
                    return false;
                }
                k = k + 1;
            }
            true
        },
        BoolExpr::Or(items) => {
            proof {
                lemma_all_hold(items@, current, next);
            }
            let mut k: usize = 0;
            while k < items.len()
                invariant
                    k <= items@.len(),
                    refs_below(*e, MAX_VARIABLES as nat),
                    *e == BoolExpr::Or(*items),
                    forall|j: int| 0 <= j < k ==> !holds(#[trigger] items@[j], current, next),
                decreases items@.len() - k,
            {
                proof {
                    lemma_all_below(items@, MAX_VARIABLES as nat, k as int);
                    assert(decreases_to!(e => items@[k as int]));
                }
                if induction_eval(&items[k], current, next) {
                    return true;
                }
                k = k + 1;
            }
            false
        },
        BoolExpr::Implies(left, right) => {
            if induction_eval(left, current, next) {
                induction_eval(right, current, next)
            } else {
                true
            }
        },
        BoolExpr::Iff(left, right) => induction_eval(left, current, next) == induction_eval(right, current, next),
    }
}

impl InductiveEngine {
    fn raw(&self, binding: EngineBinding, scope: ResultScope, status: RawStatus, certificate: Option<FiniteInvariantCertificate>) -> (r: RawEngineResult)
        ensures
            same_identity(r.engine, self.identity),
            r.binding == binding,
            r.method@ == "finite-inductiveness-enumeration/1"@,
            r.scope == scope,
            r.status == status,
            r.certificate == certificate,
            r.raw_output@.len() == 0,
    {
        RawEngineResult {
            engine: self.identity.copy(),
            binding,
            method: String::from_str("finite-inductiveness-enumeration/1"),
            scope,
            status,
            certificate,
            raw_output: Vec::new(),
        }
    }

    /// Tests whether the property itself is an inductive invariant, over the
    /// complete valuation relation. This is not reachability: a bad step
    /// from an unreachable valuation gives `Unknown`, never a refutation.
    pub fn check(&self, vc: &FiniteSafetyVc) -> (r: RawEngineResult)
        ensures
            inductive_result(self.identity, *vc, r),
    {
        let binding = binding_or_placeholder(vc);
        match vc.validate() {
            Err(error) => {
                let reason = String::from_str("invalid VC: ").concat(error.to_string().as_str());
                return self.raw(binding, ResultScope::CompleteFinite { states: 0 }, RawStatus::Unknown { reason }, None);
            },
            Ok(()) => {},
        }
        proof {
            lemma_valid_refs(*vc);
            vstd::arithmetic::power2::lemma_pow2_strictly_increases(vc.variables@.len(), 21);
            vstd::arithmetic::power2::lemma2_to64();
        }
        let count = vc.state_count();
        let ghost cnt = valuations(vc.variables@.len());
        let mut s: usize = 0;
        while s < count
            invariant
                count == cnt,
                cnt <= 0x200000,
                s <= count,
                refs_below(vc.initial, MAX_VARIABLES as nat),
                refs_below(vc.property, MAX_VARIABLES as nat),
                first_bad_initial(*vc, cnt, 0) == first_bad_initial(*vc, cnt, s as int),
            decreases count - s,
        {
            if induction_eval(&vc.initial, s, 0) && !induction_eval(&vc.property, s, 0) {
                let mut witness_states: Vec<u64> = Vec::new();
                witness_states.push(s as u64);
                proof {
                    assert(witness_states@ =~= seq![s as u64]);
                }
                return self.raw(binding, ResultScope::CompleteFinite { states: count }, RawStatus::Refuted { witness_states }, None);
            }
            s = s + 1;
        }
        let mut invariant_states: Vec<u64> = Vec::new();
        let mut g: usize = 0;
        while g < count
            invariant
                count == cnt,
                cnt <= 0x200000,
                g <= count,
                refs_below(vc.property, MAX_VARIABLES as nat),
                invariant_states@ == good_states(*vc, g as nat),
            decreases count - g,
        {
            if induction_eval(&vc.property, g, 0) {
                invariant_states.push(g as u64);
            }
            proof {
                assert(invariant_states@ =~= good_states(*vc, (g + 1) as nat));
            }
            g = g + 1;
        }
        let mut from: usize = 0;
        while from < count
            invariant
                count == cnt,
                cnt <= 0x200000,
                from <= count,
                refs_below(vc.property, MAX_VARIABLES as nat),
                refs_below(vc.transition, MAX_VARIABLES as nat),
                first_bad_initial(*vc, cnt, 0) is None,
                first_bad_step(*vc, cnt, 0) == first_bad_step(*vc, cnt, from as int),
            decreases count - from,
        {
            if induction_eval(&vc.property, from, 0) {
                let mut next: usize = 0;
                while next < count
                    invariant
                        count == cnt,
                        cnt <= 0x200000,
                        from < count,
                        next <= count,
                        refs_below(vc.property, MAX_VARIABLES as nat),
                        refs_below(vc.transition, MAX_VARIABLES as nat),
                        first_bad_successor(*vc, cnt, from as int, 0) == first_bad_successor(*vc, cnt, from as int, next as int),
                    decreases count - next,
                {
                    if induction_eval(&vc.transition, from, next) && !induction_eval(&vc.property, next, 0) {
                        let reason = String::from_str("property is not inductive: valuation ")
                            .concat(crate::text::usize_string(from).as_str()).concat(" permits bad successor ")
                            .concat(crate::text::usize_string(next).as_str()).concat("; reachability was not assumed");
                        return self.raw(binding, ResultScope::CompleteFinite { states: count }, RawStatus::Unknown { reason }, None);
                    }
                    next = next + 1;
                }
            }
            from = from + 1;
        }
        let certificate = FiniteInvariantCertificate {
            format: String::from_str(FINITE_INVARIANT_CERTIFICATE_VERSION),
            vc_digest: binding.vc_digest.copy(),
            model_id: binding.model_id.copy(),
            claim_id: binding.claim_id.copy(),
            configuration_id: binding.configuration_id.copy(),
            invariant_states,
        };
        self.raw(binding, ResultScope::CompleteFinite { states: count },
            RawStatus::Holds { requested_class: NormalizedClass::Proved }, Some(certificate))
    }
}

/// A valid condition has at most 2^20 valuations.
pub proof fn lemma_count_bound(vc: FiniteSafetyVc)
    requires
        vc_fault(vc) is None,
    ensures
        valuations(vc.variables@.len()) <= 0x100000,
{
    lemma_valid_refs(vc);
    if vc.variables@.len() < 20 {
        vstd::arithmetic::power2::lemma_pow2_strictly_increases(vc.variables@.len(), 20);
    }
    vstd::arithmetic::power2::lemma2_to64();
}

proof fn lemma_good_states(vc: FiniteSafetyVc, k: nat)
    requires
        k <= 0x200000,
    ensures
        forall|i: int| 0 <= i < good_states(vc, k).len() ==> #[trigger] good_states(vc, k)[i] < k
            && holds(vc.property, good_states(vc, k)[i] as usize, 0),
        forall|i: int, j: int| 0 <= i < j < good_states(vc, k).len() ==> good_states(vc, k)[i] < good_states(vc, k)[j],
        forall|s: int| 0 <= s < k && #[trigger] holds(vc.property, s as usize, 0) ==> good_states(vc, k).contains(s as u64),
    decreases k,
{
    if k > 0 {
        let p = good_states(vc, (k - 1) as nat);
        lemma_good_states(vc, (k - 1) as nat);
        let g = good_states(vc, k);
        assert forall|i: int| 0 <= i < p.len() implies #[trigger] g[i] == p[i] by {}
        if holds(vc.property, (k - 1) as usize, 0) {
            assert(g[p.len() as int] == (k - 1) as u64);
            assert(g.len() == p.len() + 1);
        } else {
            assert(g =~= p);
        }
        assert forall|s: int| 0 <= s < k && #[trigger] holds(vc.property, s as usize, 0) implies g.contains(s as u64) by {
            if s < k - 1 {
                assert(p.contains(s as u64));
                let w = choose|w: int| 0 <= w < p.len() && p[w] == s as u64;
                assert(g[w] == s as u64);
            } else {
                assert(g[p.len() as int] == s as u64);
            }
        }
    }
}

proof fn lemma_no_bad_initial(vc: FiniteSafetyVc, count: nat, s: int)
    requires
        0 <= s,
        first_bad_initial(vc, count, s) is None,
    ensures
        forall|t: int| s <= t < count && #[trigger] holds(vc.initial, t as usize, 0) ==> holds(vc.property, t as usize, 0),
    decreases count - s,
{
    if s < count {
        lemma_no_bad_initial(vc, count, s + 1);
    }
}

proof fn lemma_no_bad_successor(vc: FiniteSafetyVc, count: nat, from: int, t: int)
    requires
        0 <= t,
        first_bad_successor(vc, count, from, t) is None,
    ensures
        forall|x: int| t <= x < count && #[trigger] holds(vc.transition, from as usize, x as usize) ==> holds(vc.property, x as usize, 0),
    decreases count - t,
{
    if t < count {
        lemma_no_bad_successor(vc, count, from, t + 1);
    }
}

proof fn lemma_no_bad_step(vc: FiniteSafetyVc, count: nat, s: int)
    requires
        0 <= s,
        first_bad_step(vc, count, s) is None,
    ensures
        forall|a: int, x: int| s <= a < count && 0 <= x < count && holds(vc.property, a as usize, 0)
            && #[trigger] holds(vc.transition, a as usize, x as usize) ==> holds(vc.property, x as usize, 0),
    decreases count - s,
{
    if s < count {
        lemma_no_bad_step(vc, count, s + 1);
        if holds(vc.property, s as usize, 0) {
            lemma_no_bad_successor(vc, count, s, 0);
        }
    }
}

proof fn lemma_first_bad_initial(vc: FiniteSafetyVc, count: nat, s: int)
    requires
        0 <= s,
        count <= 0x200000,
        first_bad_initial(vc, count, s) is Some,
    ensures
        ({
            let x = first_bad_initial(vc, count, s)->0;
            &&& s <= x < count
            &&& holds(vc.initial, x as usize, 0)
            &&& !holds(vc.property, x as usize, 0)
        }),
    decreases count - s,
{
    if s < count && !(holds(vc.initial, s as usize, 0) && !holds(vc.property, s as usize, 0)) {
        lemma_first_bad_initial(vc, count, s + 1);
    }
}

/// The proof certificate of the inductiveness engine lists an inductive
/// invariant, and the checker accepts it.
pub proof fn inductive_certificate_accepted(engine: BackendIdentity, vc: FiniteSafetyVc, r: RawEngineResult)
    requires
        inductive_result(engine, vc, r),
        r.status is Holds,
    ensures
        r.certificate matches Some(c) && certificate_outcome(vc, c) is None,
{
    let count = valuations(vc.variables@.len());
    lemma_count_bound(vc);
    let c = r.certificate->0;
    let inv = c.invariant_states@;
    lemma_good_states(vc, count);
    lemma_no_bad_initial(vc, count, 0);
    lemma_no_bad_step(vc, count, 0);
    assert forall|i: int, t: int| 0 <= i < inv.len() && 0 <= t < count && #[trigger] holds(vc.transition, inv[i] as usize, t as usize)
        implies inv.contains(t as u64) by {
        assert(holds(vc.property, inv[i] as usize, 0));
        assert(holds(vc.property, t as usize, 0));
    }
    assert(crate::vc::certificate::inductive_invariant(vc, inv));
    crate::vc::certificate::inductive_invariant_is_accepted(vc, c);
}

/// With an exact engine identity, the engine's verdict on a valid
/// condition survives normalization unchanged: a proof is `Proved`, a
/// refutation `Refuted`, and `Unknown` stays `Unknown`.
pub proof fn inductive_verdict_normalizes(engine: BackendIdentity, vc: FiniteSafetyVc, r: RawEngineResult)
    requires
        inductive_result(engine, vc, r),
        crate::vc::evidence::identity_fault(engine) is None,
        vc_fault(vc) is None,
    ensures
        crate::vc::evidence::normalized_outcome(vc, r).0 == match r.status {
            RawStatus::Holds { .. } => NormalizedClass::Proved,
            RawStatus::Refuted { .. } => NormalizedClass::Refuted,
            _ => NormalizedClass::Unknown,
        },
{
    reveal(crate::vc::evidence::normalized_outcome);
    reveal_strlit("finite-inductiveness-enumeration/1");
    reveal_strlit("unknown");
    assert(!crate::text::is_space(r.method@[0]));
    assert(!crate::text::blank(r.method@));
    assert(!crate::text::same_ignoring_ascii_case(r.method@, "unknown"@));
    assert(crate::vc::evidence::identity_fault(r.engine) == crate::vc::evidence::identity_fault(engine));
    let count = valuations(vc.variables@.len());
    lemma_count_bound(vc);
    if r.status is Holds {
        inductive_certificate_accepted(engine, vc, r);
    }
    if r.status is Refuted {
        lemma_first_bad_initial(vc, count, 0);
        let w = r.status->witness_states@;
        assert(crate::vc::evidence::step_fault(vc, w, 1) is None);
        assert(crate::vc::evidence::witness_fault(vc, w) is None);
    }
}

} // verus!
