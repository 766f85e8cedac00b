//! Model-based testing: deterministic pseudo-random runs of a condition.
//! Passing is `Tested`, never more; a run that reaches a state where the
//! property fails is a refutation.

use vstd::prelude::*;
use vstd::wrapping::u64_specs::{wrapping_add, wrapping_mul};
use crate::vc::certificate::run;
use crate::vc::evidence::{BackendIdentity, EngineBinding, NormalizedClass, RawEngineResult, RawStatus, ResultScope, binding_or_placeholder,
    bound_to, counterexample, same_identity};
use crate::vc::ir::{FiniteSafetyVc, MAX_VARIABLES, eval, holds, ir_error_text, lemma_valid_refs, refs_below, valuations, vc_fault};

verus! {

#[derive(Clone, Copy, Debug, PartialEq, Eq)]
pub struct ModelTestPlan {
    pub seed: u64,
    pub cases: usize,
    pub max_steps: usize,
}

#[derive(Clone, Debug, PartialEq, Eq)]
pub struct ModelTestReport {
    pub executed_cases: usize,
    pub executed_steps: usize,
    pub result: RawEngineResult,
}

/// The next state of the linear congruential generator.
pub open spec fn lcg_next(x: u64) -> u64 {
    wrapping_add(wrapping_mul(x, 6364136223846793005), 1442695040888963407)
}

/// The valuations below `k`, in increasing order, that a run may pick: the
/// initial ones where `from` is `None`, else the successors of `from`.
pub open spec fn pickable(vc: FiniteSafetyVc, from: Option<usize>, k: nat) -> Seq<usize>
    decreases k,
{
    if k == 0 {
        Seq::empty()
    } else {
        let x = (k - 1) as usize;
        let ok = match from {
            None => holds(vc.initial, x, 0),
            Some(s) => holds(vc.transition, s, x),
        };
        pickable(vc, from, (k - 1) as nat) + if ok { seq![x] } else { Seq::empty() }
    }
}

/// One generated run from `state`, with `k` steps taken and the generator
/// at `rng`: the generator after it, the trace if it reaches a state where
/// the property fails, and the steps it took.
#[verifier::opaque]
pub open spec fn case_walk(vc: FiniteSafetyVc, count: nat, rng: u64, state: usize, k: nat, max_steps: nat, trace: Seq<u64>)
    -> (u64, Option<Seq<u64>>, nat)
    decreases max_steps - k,
{
    if !holds(vc.property, state, 0) {
        (rng, Some(trace), 0)
    } else {
        let succ = pickable(vc, Some(state), count);
        if succ.len() == 0 || k + 1 > max_steps {
            (rng, None, 0)
        } else {
            let r2 = lcg_next(rng);
            let next = succ[((r2 as usize) % (succ.len() as usize)) as int];
            let rest = case_walk(vc, count, r2, next, k + 1, max_steps, trace.push(next as u64));
            (rest.0, rest.1, rest.2 + 1)
        }
    }
}

/// The cases from `case` on, with the generator at `rng`: the first case
/// that refutes the property with its trace, and the steps taken.
#[verifier::opaque]
pub open spec fn cases_walk(vc: FiniteSafetyVc, count: nat, rng: u64, case: nat, cases: nat, max_steps: nat)
    -> (Option<(nat, Seq<u64>)>, nat)
    decreases cases - case,
{
    if case >= cases {
        (None, 0)
    } else {
        let initial = pickable(vc, None, count);
        let r1 = lcg_next(rng);
        let s0 = initial[((r1 as usize) % (initial.len() as usize)) as int];
        let one = case_walk(vc, count, r1, s0, 0, max_steps, seq![s0 as u64]);
        if one.1 is Some {
            (Some((case, one.1->0)), one.2)
        } else {
            let rest = cases_walk(vc, count, one.0, case + 1, cases, max_steps);
            (rest.0, one.2 + rest.1)
        }
    }
}

/// `n`, or `usize::MAX` where `n` does not fit: the step count saturates.
pub open spec fn capped(n: nat) -> nat {
    if n <= usize::MAX { n } else { usize::MAX as nat }
}

/// What model-based testing of `vc` under `plan` reports.
pub open spec fn model_test_outcome(engine: BackendIdentity, vc: FiniteSafetyVc, plan: ModelTestPlan, r: ModelTestReport) -> bool {
    let count = valuations(vc.variables@.len());
    &&& same_identity(r.result.engine, engine)
    &&& bound_to(r.result.binding, vc)
    &&& r.result.method@ == "deterministic-model-traces/1"@
    &&& r.result.scope == (ResultScope::Sampled { seed: plan.seed, cases: plan.cases, max_steps: plan.max_steps })
    &&& r.result.certificate is None
    &&& r.result.raw_output@.len() == 0
    &&& if vc_fault(vc) is Some {
        &&& r.executed_cases == 0 && r.executed_steps == 0
        &&& r.result.status matches RawStatus::Unknown { reason } && reason@ == "invalid VC: "@ + ir_error_text(vc_fault(vc)->0)
    } else if pickable(vc, None, count).len() == 0 {
        &&& r.executed_cases == 0 && r.executed_steps == 0
        &&& r.result.status matches RawStatus::Unknown { reason } && reason@ == "model has no initial valuation"@
    } else {
        let walked = cases_walk(vc, count, plan.seed, 0, plan.cases as nat, plan.max_steps as nat);
        &&& r.executed_steps == capped(walked.1)
        &&& if walked.0 is Some {
            &&& r.executed_cases == (walked.0->0).0 + 1
            &&& r.result.status matches RawStatus::Refuted { witness_states } && witness_states@ == (walked.0->0).1
        } else {
            &&& r.executed_cases == plan.cases
            &&& r.result.status matches RawStatus::Holds { requested_class } && requested_class == NormalizedClass::Tested
        }
    }
}

fn pick_states(vc: &FiniteSafetyVc, from: Option<usize>, count: usize) -> (r: Vec<usize>)
    requires
        count <= 0x200000,
        refs_below(vc.initial, MAX_VARIABLES as nat),
        refs_below(vc.transition, MAX_VARIABLES as nat),
    ensures
        r@ == pickable(*vc, from, count as nat),
        forall|i: int| 0 <= i < r@.len() ==> #[trigger] r@[i] < count,
{
    let mut out: Vec<usize> = Vec::new();
    let mut x: usize = 0;
    while x < count
        invariant
            count <= 0x200000,
            refs_below(vc.initial, MAX_VARIABLES as nat),
            refs_below(vc.transition, MAX_VARIABLES as nat),
            x <= count,
            out@ == pickable(*vc, from, x as nat),
            forall|i: int| 0 <= i < out@.len() ==> #[trigger] out@[i] < x,
        decreases count - x,
    {
        let ok = match from {
            None => eval(&vc.initial, x, 0),
            Some(s) => eval(&vc.transition, s, x),
        };
        if ok {
            out.push(x);
        }
        proof {
            assert(out@ =~= pickable(*vc, from, (x + 1) as nat));
        }
        x = x + 1;
    }
    out
}

proof fn lemma_pickable_bounds(vc: FiniteSafetyVc, from: Option<usize>, k: nat)
    ensures
        forall|i: int| 0 <= i < pickable(vc, from, k).len() ==> {
            let x = #[trigger] pickable(vc, from, k)[i];
            &&& x < k
            &&& match from {
                None => holds(vc.initial, x, 0),
                Some(s) => holds(vc.transition, s, x),
            }
        },
    decreases k,
{
    if k > 0 {
        lemma_pickable_bounds(vc, from, (k - 1) as nat);
        let p = pickable(vc, from, (k - 1) as nat);
        assert forall|i: int| 0 <= i < p.len() implies #[trigger] pickable(vc, from, k)[i] == p[i] by {}
    }
}

fn lcg_step(x: u64) -> (r: u64)
    ensures
        r == lcg_next(x),
{
    x.wrapping_mul(6364136223846793005).wrapping_add(1442695040888963407)
}

proof fn lemma_case_stop(vc: FiniteSafetyVc, count: nat, rng: u64, state: usize, k: nat, max_steps: nat, trace: Seq<u64>)
    ensures
        !holds(vc.property, state, 0) ==> case_walk(vc, count, rng, state, k, max_steps, trace) == (rng, Some(trace), 0nat),
        holds(vc.property, state, 0) && (pickable(vc, Some(state), count).len() == 0 || k + 1 > max_steps)
            ==> case_walk(vc, count, rng, state, k, max_steps, trace) == (rng, None::<Seq<u64>>, 0nat),
{
    reveal(case_walk);
}

proof fn lemma_case_step(vc: FiniteSafetyVc, count: nat, rng: u64, state: usize, k: nat, max_steps: nat, trace: Seq<u64>, next: usize)
    requires
        holds(vc.property, state, 0),
        pickable(vc, Some(state), count).len() > 0,
        k + 1 <= max_steps,
        next == pickable(vc, Some(state), count)[((lcg_next(rng) as usize) % (pickable(vc, Some(state), count).len() as usize)) as int],
    ensures
        ({
            let rest = case_walk(vc, count, lcg_next(rng), next, k + 1, max_steps, trace.push(next as u64));
            case_walk(vc, count, rng, state, k, max_steps, trace) == (rest.0, rest.1, rest.2 + 1)
        }),
{
    reveal(case_walk);
}

/// One generated run from the initial state `start`.
#[verifier::rlimit(40)]
fn walk_case(vc: &FiniteSafetyVc, count: usize, rng: &mut u64, start: usize, max_steps: usize) -> (r: (Option<Vec<u64>>, usize))
    requires
        count == valuations(vc.variables@.len()),
        count <= 0x200000,
        start < count,
        holds(vc.initial, start, 0),
        refs_below(vc.initial, MAX_VARIABLES as nat),
        refs_below(vc.transition, MAX_VARIABLES as nat),
        refs_below(vc.property, MAX_VARIABLES as nat),
    ensures
        ({
            let w = case_walk(*vc, count as nat, *old(rng), start, 0, max_steps as nat, seq![start as u64]);
            &&& *final(rng) == w.0
            &&& r.1 == w.2
            &&& r.1 <= max_steps
            &&& match r.0 {
                Some(t) => w.1 == Some(t@) && counterexample(*vc, t@),
                None => w.1 is None,
            }
        }),
{
    let ghost rng0 = *rng;
    let mut trace: Vec<u64> = Vec::new();
    trace.push(start as u64);
    let mut state = start;
    let mut k: usize = 0;
    proof {
        assert(trace@ =~= seq![start as u64]);
    }
    loop
        invariant
            count == valuations(vc.variables@.len()),
            count <= 0x200000,
            refs_below(vc.transition, MAX_VARIABLES as nat),
            refs_below(vc.property, MAX_VARIABLES as nat),
            refs_below(vc.initial, MAX_VARIABLES as nat),
            state < count,
            k <= max_steps,
            trace@.len() == k + 1,
            run(*vc, trace@),
            trace@.last() == state as u64,
            ({
                let whole = case_walk(*vc, count as nat, rng0, start, 0, max_steps as nat, seq![start as u64]);
                let rest = case_walk(*vc, count as nat, *rng, state, k as nat, max_steps as nat, trace@);
                whole == (rest.0, rest.1, (rest.2 + k) as nat)
            }),
        decreases max_steps - k,
    {
        proof {
            lemma_case_stop(*vc, count as nat, *rng, state, k as nat, max_steps as nat, trace@);
        }
        if !eval(&vc.property, state, 0) {
            return (Some(trace), k);
        }
        let successors = pick_states(vc, Some(state), count);
        if successors.len() == 0 || k >= max_steps {
            return (None, k);
        }
        let ghost before = *rng;
        *rng = lcg_step(*rng);
        let index = (*rng as usize) % successors.len();
        let next = successors[index];
        proof {
            lemma_pickable_bounds(*vc, Some(state), count as nat);
            assert(successors@[index as int] == next);
            crate::vc::reachability::lemma_run_push_public(*vc, trace@, next as u64);
            lemma_case_step(*vc, count as nat, before, state, k as nat, max_steps as nat, trace@, next);
        }
        trace.push(next as u64);
        state = next;
        k = k + 1;
    }
}

proof fn lemma_cases_step(vc: FiniteSafetyVc, count: nat, rng: u64, case: nat, cases: nat, max_steps: nat)
    requires
        case < cases,
    ensures
        ({
            let initial = pickable(vc, None, count);
            let r1 = lcg_next(rng);
            let s0 = initial[((r1 as usize) % (initial.len() as usize)) as int];
            let one = case_walk(vc, count, r1, s0, 0, max_steps, seq![s0 as u64]);
            let rest = cases_walk(vc, count, one.0, case + 1, cases, max_steps);
            cases_walk(vc, count, rng, case, cases, max_steps) == if one.1 is Some {
                (Some((case, one.1->0)), one.2)
            } else {
                (rest.0, one.2 + rest.1)
            }
        }),
{
    reveal(cases_walk);
}

proof fn lemma_cases_done(vc: FiniteSafetyVc, count: nat, rng: u64, cases: nat, max_steps: nat)
    ensures
        cases_walk(vc, count, rng, cases, cases, max_steps) == (None::<(nat, Seq<u64>)>, 0nat),
{
    reveal(cases_walk);
}

fn report(engine: BackendIdentity, binding: EngineBinding, scope: ResultScope, executed_cases: usize, executed_steps: usize, status: RawStatus)
    -> (r: ModelTestReport)
    ensures
        r.executed_cases == executed_cases,
        r.executed_steps == executed_steps,
        r.result.engine == engine,
        r.result.binding == binding,
        r.result.method@ == "deterministic-model-traces/1"@,
        r.result.scope == scope,
        r.result.status == status,
        r.result.certificate is None,
        r.result.raw_output@.len() == 0,
{
    ModelTestReport {
        executed_cases,
        executed_steps,
        result: RawEngineResult {
            engine,
            binding,
            method: String::from_str("deterministic-model-traces/1"),
            scope,
            status,
            certificate: None,
            raw_output: Vec::new(),
        },
    }
}

/// Generates `plan.cases` runs of at most `plan.max_steps` steps each, the
/// initial state and every next state picked by a linear congruential
/// generator seeded with `plan.seed`. The same plan gives the same report.
#[verifier::rlimit(40)]
pub fn run_model_based_tests(vc: &FiniteSafetyVc, engine: BackendIdentity, plan: ModelTestPlan) -> (r: ModelTestReport)
    ensures
        model_test_outcome(engine, *vc, plan, r),
        r.result.status matches RawStatus::Refuted { witness_states } ==> counterexample(*vc, witness_states@),
{
    let ghost identity = engine;
    let binding = binding_or_placeholder(vc);
    let scope = ResultScope::Sampled { seed: plan.seed, cases: plan.cases, max_steps: plan.max_steps };
    match vc.validate() {
        Err(error) => {
            let reason = String::from_str("invalid VC: ").concat(error.to_string().as_str());
            return report(engine, binding, scope, 0, 0, RawStatus::Unknown { reason });
        },
        Ok(()) => {},
    }
    proof {
        lemma_valid_refs(*vc);
        crate::vc::inductive::lemma_count_bound(*vc);
    }
    let count = vc.state_count();
    let initial = pick_states(vc, None, count);
    if initial.len() == 0 {
        return report(engine, binding, scope, 0, 0, RawStatus::Unknown { reason: String::from_str("model has no initial valuation") });
    }
    proof {
        lemma_pickable_bounds(*vc, None, count as nat);
    }
    let ghost total = cases_walk(*vc, count as nat, plan.seed, 0, plan.cases as nat, plan.max_steps as nat);
    let mut rng = plan.seed;
    let mut executed_steps: usize = 0;
    let ghost mut done: nat = 0;
    let mut case: usize = 0;
    while case < plan.cases
        invariant
            count == valuations(vc.variables@.len()),
            count <= 0x200000,
            refs_below(vc.initial, MAX_VARIABLES as nat),
            refs_below(vc.transition, MAX_VARIABLES as nat),
            refs_below(vc.property, MAX_VARIABLES as nat),
            initial@ == pickable(*vc, None, count as nat),
            initial@.len() > 0,
            forall|i: int| 0 <= i < initial@.len() ==> #[trigger] initial@[i] < count && holds(vc.initial, initial@[i], 0),
            case <= plan.cases,
            executed_steps == capped(done),
            total == cases_walk(*vc, count as nat, plan.seed, 0, plan.cases as nat, plan.max_steps as nat),
            total.0 == cases_walk(*vc, count as nat, rng, case as nat, plan.cases as nat, plan.max_steps as nat).0,
            total.1 == done + cases_walk(*vc, count as nat, rng, case as nat, plan.cases as nat, plan.max_steps as nat).1,
        decreases plan.cases - case,
    {
        let ghost before = rng;
        rng = lcg_step(rng);
        let index = (rng as usize) % initial.len();
        let start = initial[index];
        proof {
            lemma_cases_step(*vc, count as nat, before, case as nat, plan.cases as nat, plan.max_steps as nat);
        }
        let (found, taken) = walk_case(vc, count, &mut rng, start, plan.max_steps);
        executed_steps = executed_steps.saturating_add(taken);
        proof {
            done = (done + taken) as nat;
        }
        match found {
            Some(trace) => {
                return report(engine, binding, scope, case + 1, executed_steps, RawStatus::Refuted { witness_states: trace });
            },
            None => {},
        }
        case = case + 1;
    }
    proof {
        lemma_cases_done(*vc, count as nat, rng, plan.cases as nat, plan.max_steps as nat);
    }
    report(engine, binding, scope, plan.cases, executed_steps, RawStatus::Holds { requested_class: NormalizedClass::Tested })
}


/// The view of a raw status: its class and what it carries.
pub open spec fn status_view(st: RawStatus) -> (int, Option<NormalizedClass>, Seq<u64>, Seq<char>) {
    match st {
        RawStatus::Holds { requested_class } => (0, Some(requested_class), Seq::empty(), Seq::empty()),
        RawStatus::Refuted { witness_states } => (1, None, witness_states@, Seq::empty()),
        RawStatus::Unknown { reason } => (2, None, Seq::empty(), reason@),
        RawStatus::BackendFailure { reason } => (3, None, Seq::empty(), reason@),
    }
}

/// Model-based testing is deterministic: two runs on the same condition,
/// engine and plan report the same engine, binding, method, scope, status
/// and counts, and no certificate.
pub proof fn model_tests_are_deterministic(engine: BackendIdentity, vc: FiniteSafetyVc, plan: ModelTestPlan, r1: ModelTestReport,
    r2: ModelTestReport)
    requires
        model_test_outcome(engine, vc, plan, r1),
        model_test_outcome(engine, vc, plan, r2),
    ensures
        same_identity(r1.result.engine, r2.result.engine),
        r1.result.binding.vc_digest@ == r2.result.binding.vc_digest@,
        r1.result.binding.model_id@ == r2.result.binding.model_id@,
        r1.result.binding.claim_id@ == r2.result.binding.claim_id@,
        r1.result.binding.configuration_id@ == r2.result.binding.configuration_id@,
        r1.result.method@ == r2.result.method@,
        r1.result.scope == r2.result.scope,
        status_view(r1.result.status) == status_view(r2.result.status),
        r1.result.certificate is None && r2.result.certificate is None,
        r1.executed_cases == r2.executed_cases,
        r1.executed_steps == r2.executed_steps,
{
}

} // verus!
