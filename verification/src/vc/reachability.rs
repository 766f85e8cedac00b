//! The reachability engine: a deterministic breadth-first search of the
//! states reachable from the initial ones, within declared limits.

use vstd::prelude::*;
use crate::vc::certificate::{FINITE_INVARIANT_CERTIFICATE_VERSION, FiniteInvariantCertificate, certificate_outcome, run};
use crate::vc::evidence::{BackendIdentity, EngineBinding, NormalizedClass, RawEngineResult, RawStatus, ResultScope, binding_or_placeholder,
    bound_to, counterexample, same_identity};
use crate::vc::ir::{BoolExpr, FiniteSafetyVc, MAX_VARIABLES, StateRef, bit, holds, ir_error_text, lemma_all_below, lemma_all_hold,
    lemma_valid_refs, refs_below, valuations, vc_digest, vc_fault};

verus! {

#[derive(Clone, Copy, Debug, PartialEq, Eq)]
pub struct ReachabilityLimits {
    pub max_states: usize,
    pub max_depth: usize,
}

pub struct ReachabilityEngine {
    pub identity: BackendIdentity,
    pub limits: ReachabilityLimits,
}

proof fn lemma_shift_bit(x: usize, i: usize)
    requires
        i < 20,
    ensures
        ((x >> i) & 1usize == 1usize) == bit(x, i),
{
    assert(((x >> i) & 1usize == 1usize) == (x & (1usize << i) != 0usize)) by (bit_vector)
        requires
            i < 20;
}

/// The engine's own evaluator, reading each variable by a right shift.
fn reach_eval(e: &BoolExpr, current: usize, next: usize) -> (r: bool)
    requires
        refs_below(*e, MAX_VARIABLES as nat),
    ensures
        r == holds(*e, current, next),
    decreases e,
{
    match e {
        BoolExpr::Const(value) => *value,
        BoolExpr::Var(StateRef::Current(index)) => {
            proof {
                lemma_shift_bit(current, *index);
            }
            (current >> *index) & 1 == 1
        },
        BoolExpr::Var(StateRef::Next(index)) => {
            proof {
                lemma_shift_bit(next, *index);
            }
            (next >> *index) & 1 == 1
        },
        BoolExpr::Not(item) => !reach_eval(item, current, next),
        BoolExpr::And(items) => {
            proof {
                lemma_all_hold(items@, current, next);
            }
            let mut all = true;
            let mut k: usize = 0;
            while k < items.len()
                invariant
                    k <= items@.len(),
                    refs_below(*e, MAX_VARIABLES as nat),
                    *e == BoolExpr::And(*items),
                    all == forall|j: int| 0 <= j < k ==> holds(#[trigger] items@[j], current, next),
                decreases items@.len() - k,
            {
                proof {
                    lemma_all_below(items@, MAX_VARIABLES as nat, k as int);
                    assert(decreases_to!(e => items@[k as int]));
                }
                let v = reach_eval(&items[k], current, next);
                all = all && v;
                k = k + 1;
            }
            all
        },
        BoolExpr::Or(items) => {
            proof {
                lemma_all_hold(items@, current, next);
            }
            let mut any = false;
            let mut k: usize = 0;
            while k < items.len()
                invariant
                    k <= items@.len(),
                    refs_below(*e, MAX_VARIABLES as nat),
                    *e == BoolExpr::Or(*items),
                    any == exists|j: int| 0 <= j < k && holds(#[trigger] items@[j], current, next),
                decreases items@.len() - k,
            {
                proof {
                    lemma_all_below(items@, MAX_VARIABLES as nat, k as int);
                    assert(decreases_to!(e => items@[k as int]));
                }
                let v = reach_eval(&items[k], current, next);
                any = any || v;
                k = k + 1;
            }
            any
        },
        BoolExpr::Implies(left, right) => !reach_eval(left, current, next) || reach_eval(right, current, next),
        BoolExpr::Iff(left, right) => reach_eval(left, current, next) == reach_eval(right, current, next),
    }
}

/// Some run of `vc` ends at `x`.
pub open spec fn reachable(vc: FiniteSafetyVc, x: u64) -> bool {
    exists|w: Seq<u64>| #[trigger] run(vc, w) && w.last() == x
}

/// Some run of `vc` with at most `n` states ends at `x`.
pub open spec fn reachable_within(vc: FiniteSafetyVc, x: u64, n: nat) -> bool {
    exists|w: Seq<u64>| #[trigger] run(vc, w) && w.last() == x && w.len() <= n
}

/// `list` lists exactly the reachable states, each reachable by a run no
/// longer than the depth limit allows, and no more of them than the state
/// limit.
#[verifier::opaque]
pub open spec fn lists_reachable(vc: FiniteSafetyVc, limits: ReachabilityLimits, list: Seq<u64>) -> bool {
    &&& list.len() <= limits.max_states
    &&& forall|x: u64| list.contains(x) <==> reachable(vc, x)
    &&& forall|i: int| 0 <= i < list.len() ==> reachable_within(vc, #[trigger] list[i], (limits.max_depth + 1) as nat)
}

/// The number of initial valuations below `k`.
pub open spec fn initial_count(vc: FiniteSafetyVc, k: nat) -> nat
    decreases k,
{
    if k == 0 {
        0
    } else {
        initial_count(vc, (k - 1) as nat) + if holds(vc.initial, (k - 1) as usize, 0) { 1nat } else { 0nat }
    }
}

pub open spec fn depth_text(limits: ReachabilityLimits) -> Seq<char> {
    "reachable successor exists beyond depth "@ + crate::text::decimal(limits.max_depth as nat)
}

pub open spec fn budget_text(limits: ReachabilityLimits) -> Seq<char> {
    "reachable successor exceeds the "@ + crate::text::decimal(limits.max_states as nat) + "-state budget"@
}

/// What the engine reports on `vc`. Where the search completes, its
/// certificate lists exactly the reachable states, each within the depth
/// limit, no more of them than the state limit, and the checker accepts
/// it. Otherwise the scope is the declared bound, and the result is a
/// shortest counterexample, no longer than the depth limit allows, or
/// `Unknown` because a limit was reached; where the depth limit stops the
/// search, no counterexample is shorter than the limit.
#[verifier::opaque]
pub open spec fn reach_result(engine: BackendIdentity, limits: ReachabilityLimits, vc: FiniteSafetyVc, r: RawEngineResult) -> bool {
    let count = valuations(vc.variables@.len());
    let bounded = ResultScope::Bounded { max_depth: limits.max_depth, max_states: limits.max_states };
    &&& same_identity(r.engine, engine)
    &&& bound_to(r.binding, vc)
    &&& r.method@ == "deterministic-bfs/1"@
    &&& r.raw_output@.len() == 0
    &&& if vc_fault(vc) is Some {
        &&& r.scope == bounded
        &&& r.status matches RawStatus::Unknown { reason } && reason@ == "invalid VC: "@ + ir_error_text(vc_fault(vc)->0)
        &&& r.certificate is None
    } else if initial_count(vc, count) > limits.max_states {
        &&& r.scope == bounded
        &&& r.status matches RawStatus::Unknown { reason } && reason@ == "initial states exceed the state budget"@
        &&& r.certificate is None
    } else {
        ||| {
            &&& r.scope == bounded
            &&& r.certificate is None
            &&& r.status matches RawStatus::Refuted { witness_states } && counterexample(vc, witness_states@)
                && witness_states@.len() <= limits.max_depth + 1
                && forall|w: Seq<u64>| #[trigger] counterexample(vc, w) ==> witness_states@.len() <= w.len()
        }
        ||| {
            &&& r.scope == bounded
            &&& r.certificate is None
            &&& r.status matches RawStatus::Unknown { reason } && ((reason@ == depth_text(limits) && depth_reached(vc, limits)
                    && forall|w: Seq<u64>| #[trigger] counterexample(vc, w) ==> w.len() > limits.max_depth)
                || (reason@ == budget_text(limits) && budget_reached(vc, limits)))
        }
        ||| {
            &&& r.status matches RawStatus::Holds { requested_class } && requested_class == NormalizedClass::ModelChecked
            &&& r.certificate matches Some(c) && certificate_outcome(vc, c) is None
                && r.scope == (ResultScope::CompleteFinite { states: c.invariant_states@.len() as usize })
                && lists_reachable(vc, limits, c.invariant_states@)
        }
    }
}

/// The state of the search: the states in the order found, the next one
/// to expand, and for each state whether it was found, its depth, and the
/// state it was found from.
struct Search {
    order: Vec<usize>,
    head: usize,
    seen: Vec<bool>,
    depth: Vec<usize>,
    pred: Vec<Option<usize>>,
    paths: Ghost<Seq<Seq<u64>>>,
}

/// What the search keeps true: every found state ends a run of length one
/// more than its depth, within the depth limit; the found states are the
/// order, without repeats, no more than the state limit, and include every
/// initial state; the states before `head` satisfy the property and have
/// all their successors found, the last of them those below `next`.
#[verifier::opaque]
spec fn search_inv(vc: FiniteSafetyVc, limits: ReachabilityLimits, count: nat, s: Search, next: int) -> bool {
    &&& s.seen@.len() == count
    &&& s.depth@.len() == count
    &&& s.pred@.len() == count
    &&& s.paths@.len() == count
    &&& s.head <= s.order@.len()
    &&& s.order@.len() <= limits.max_states
    &&& s.order@.no_duplicates()
    &&& forall|j: int| 0 <= j < s.order@.len() ==> #[trigger] s.order@[j] < count
    &&& forall|x: int| 0 <= x < count ==> (#[trigger] s.seen@[x] <==> s.order@.contains(x as usize))
    &&& forall|x: int| 0 <= x < count && #[trigger] holds(vc.initial, x as usize, 0) ==> s.seen@[x]
    &&& forall|x: int| 0 <= x < count && #[trigger] s.seen@[x] ==> found(vc, limits, count, s, x)
    &&& forall|j: int| 0 <= j < s.head ==> holds(vc.property, #[trigger] s.order@[j], 0)
    &&& forall|j: int, t: int| 0 <= j < s.head && 0 <= t < count && (j < s.head - 1 || t < next)
        && #[trigger] holds(vc.transition, s.order@[j], t as usize) ==> s.seen@[t]
}

/// What the search knows of the found state `x`.
spec fn found(vc: FiniteSafetyVc, limits: ReachabilityLimits, count: nat, s: Search, x: int) -> bool {
    &&& s.depth@[x] <= limits.max_depth
    &&& run(vc, s.paths@[x])
    &&& s.paths@[x].last() == x as u64
    &&& s.paths@[x].len() == s.depth@[x] + 1
    &&& s.paths@[x].no_duplicates()
    &&& forall|i: int| 0 <= i < s.paths@[x].len() ==> #[trigger] s.paths@[x][i] < count && s.seen@[s.paths@[x][i] as int]
    &&& match s.pred@[x] {
        None => holds(vc.initial, x as usize, 0) && s.depth@[x] == 0,
        Some(p) => p < count && s.seen@[p as int] && holds(vc.transition, p, x as usize) && s.depth@[x] == s.depth@[p as int] + 1,
    }
}

spec fn search_wf(vc: FiniteSafetyVc, limits: ReachabilityLimits, count: nat, s: Search) -> bool {
    search_inv(vc, limits, count, s, count as int)
}

/// The breadth-first layering of the search: depths never decrease along
/// the order, those from the state last expanded on span at most one
/// layer, each expanded successor lies at most one layer deeper, and
/// every initial state lies at depth zero.
#[verifier::opaque]
spec fn layered(vc: FiniteSafetyVc, count: nat, s: Search, next: int) -> bool {
    &&& forall|a: int, b: int| #![trigger s.order@[a], s.order@[b]] 0 <= a <= b < s.order@.len()
        ==> s.depth@[s.order@[a] as int] <= s.depth@[s.order@[b] as int]
    &&& forall|a: int, b: int| #![trigger s.order@[a], s.order@[b]] 0 <= a && s.head - 1 <= a <= b < s.order@.len()
        ==> s.depth@[s.order@[b] as int] <= s.depth@[s.order@[a] as int] + 1
    &&& forall|j: int, t: int| 0 <= j < s.head && 0 <= t < count && (j < s.head - 1 || t < next)
        && #[trigger] holds(vc.transition, s.order@[j], t as usize) ==> s.depth@[t] <= s.depth@[s.order@[j] as int] + 1
    &&& forall|x: int| 0 <= x < count && #[trigger] holds(vc.initial, x as usize, 0) ==> s.depth@[x] == 0
}

/// When the states before position `h` of the order are expanded and hold
/// the property, every counterexample, counted from position `i` of its
/// run on, has at least one state more than the depth of `order[h]`.
proof fn lemma_shortest_refutation(vc: FiniteSafetyVc, limits: ReachabilityLimits, count: nat, s: Search, h: int, w: Seq<u64>, i: int)
    requires
        count == valuations(vc.variables@.len()),
        count <= 0x200000,
        s.seen@.len() == count,
        s.depth@.len() == count,
        forall|x: int| 0 <= x < count ==> (#[trigger] s.seen@[x] <==> s.order@.contains(x as usize)),
        forall|j: int| 0 <= j < h ==> holds(vc.property, #[trigger] s.order@[j], 0),
        forall|j: int, t: int| 0 <= j < h && 0 <= t < count && #[trigger] holds(vc.transition, s.order@[j], t as usize) ==> s.seen@[t],
        forall|a: int, b: int| #![trigger s.order@[a], s.order@[b]] 0 <= a <= b < s.order@.len()
            ==> s.depth@[s.order@[a] as int] <= s.depth@[s.order@[b] as int],
        forall|j: int, t: int| 0 <= j < h && 0 <= t < count && #[trigger] holds(vc.transition, s.order@[j], t as usize)
            ==> s.depth@[t] <= s.depth@[s.order@[j] as int] + 1,
        0 <= h < s.order@.len(),
        counterexample(vc, w),
        0 <= i < w.len(),
        s.seen@[w[i] as int],
        s.depth@[w[i] as int] <= i,
    ensures
        s.depth@[s.order@[h] as int] + 1 <= w.len(),
    decreases w.len() - i,
{
    let top = s.depth@[s.order@[h] as int];
    if s.depth@[w[i] as int] < top {
        assert(w[i] < count);
        assert(w[i] as usize as int == w[i] as int);
        assert(s.seen@[(w[i] as usize) as int]);
        assert(s.order@.contains(w[i] as usize));
        let p = choose|p: int| 0 <= p < s.order@.len() && s.order@[p] == w[i] as usize;
        assert(s.order@[p] as int == w[i] as int);
        if p >= h {
            assert(s.depth@[s.order@[h] as int] <= s.depth@[s.order@[p] as int]);
        }
        assert(p < h);
        if i == w.len() - 1 {
            assert(holds(vc.property, s.order@[p], 0));
        } else {
            assert(holds(vc.transition, w[(i + 1) - 1] as usize, w[i + 1] as usize));
            assert(w[(i + 1) - 1] == w[i]);
            assert(w[i + 1] < count);
            assert(holds(vc.transition, s.order@[p], (w[i + 1] as int) as usize));
            lemma_shortest_refutation(vc, limits, count, s, h, w, i + 1);
        }
    }
}

/// The search before any state is expanded: the initial states, in
/// increasing order.
fn initial_search(vc: &FiniteSafetyVc, count: usize) -> (s: Search)
    requires
        count == valuations(vc.variables@.len()),
        count <= 0x200000,
        refs_below(vc.initial, MAX_VARIABLES as nat),
    ensures
        s.head == 0,
        s.order@.len() == initial_count(*vc, count as nat),
        s.seen@.len() == count,
        s.depth@.len() == count,
        s.pred@.len() == count,
        s.paths@.len() == count,
        s.order@.no_duplicates(),
        forall|j: int| 0 <= j < s.order@.len() ==> #[trigger] s.order@[j] < count,
        forall|x: int| 0 <= x < count ==> (#[trigger] s.seen@[x] <==> s.order@.contains(x as usize)),
        forall|x: int| 0 <= x < count ==> (#[trigger] s.seen@[x] <==> holds(vc.initial, x as usize, 0)),
        forall|x: int| 0 <= x < count && #[trigger] s.seen@[x] ==> {
            &&& s.depth@[x] == 0
            &&& s.pred@[x] is None
            &&& s.paths@[x] == seq![x as u64]
        },
{
    let mut order: Vec<usize> = Vec::new();
    let mut seen: Vec<bool> = Vec::new();
    let mut depth: Vec<usize> = Vec::new();
    let mut pred: Vec<Option<usize>> = Vec::new();
    let ghost mut paths: Seq<Seq<u64>> = Seq::empty();
    let mut x: usize = 0;
    while x < count
        invariant
            count == valuations(vc.variables@.len()),
            count <= 0x200000,
            refs_below(vc.initial, MAX_VARIABLES as nat),
            x <= count,
            seen@.len() == x,
            depth@.len() == x,
            pred@.len() == x,
            paths.len() == x,
            order@.len() == initial_count(*vc, x as nat),
            forall|i: int, j: int| 0 <= i < j < order@.len() ==> order@[i] < order@[j],
            forall|j: int| 0 <= j < order@.len() ==> #[trigger] order@[j] < x,
            forall|y: int| 0 <= y < x ==> (#[trigger] seen@[y] <==> order@.contains(y as usize)),
            forall|y: int| 0 <= y < x ==> (#[trigger] seen@[y] <==> holds(vc.initial, y as usize, 0)),
            forall|y: int| 0 <= y < x && #[trigger] seen@[y] ==> depth@[y] == 0 && pred@[y] is None && paths[y] == seq![y as u64],
        decreases count - x,
    {
        let initial = reach_eval(&vc.initial, x, 0);
        let ghost before = order@;
        seen.push(initial);
        depth.push(0);
        pred.push(None);
        proof {
            paths = paths.push(seq![x as u64]);
        }
        if initial {
            order.push(x);
        }
        proof {
            assert forall|y: int| 0 <= y < x + 1 implies (#[trigger] seen@[y] <==> order@.contains(y as usize)) by {
                if y < x {
                    if before.contains(y as usize) {
                        let w = choose|w: int| 0 <= w < before.len() && before[w] == y as usize;
                        assert(order@[w] == y as usize);
                    }
                    if order@.contains(y as usize) {
                        let w = choose|w: int| 0 <= w < order@.len() && order@[w] == y as usize;
                        if w < before.len() {
                            assert(before[w] == y as usize);
                        }
                    }
                } else {
                    if initial {
                        assert(order@[before.len() as int] == x);
                    } else {
                        assert(order@ == before);
                    }
                }
            }
        }
        x = x + 1;
    }
    proof {
        assert(order@.no_duplicates()) by {
            assert forall|i: int, j: int| 0 <= i < order@.len() && 0 <= j < order@.len() && i != j implies order@[i] != order@[j] by {
                if i < j {
                    assert(order@[i] < order@[j]);
                } else {
                    assert(order@[j] < order@[i]);
                }
            }
        }
    }
    Search { order, head: 0, seen, depth, pred, paths: Ghost(paths) }
}

/// The run to `state` that the search recorded, followed back through the
/// states each was found from.
fn trace_to(s: &Search, state: usize, Ghost(vc): Ghost<FiniteSafetyVc>, Ghost(limits): Ghost<ReachabilityLimits>, count: usize) -> (w: Vec<u64>)
    requires
        search_wf(vc, limits, count as nat, *s),
        count == valuations(vc.variables@.len()),
        count <= 0x200000,
        state < count,
        s.seen@[state as int],
    ensures
        run(vc, w@),
        w@.last() == state as u64,
        w@.len() <= limits.max_depth + 1,
        w@.len() == s.depth@[state as int] + 1,
{
    reveal(search_inv);
    let mut trace: Vec<u64> = Vec::new();
    trace.push(state as u64);
    let mut cur = state;
    proof {
        assert(found(vc, limits, count as nat, *s, state as int));
    }
    loop
        invariant
            search_wf(vc, limits, count as nat, *s),
            count == valuations(vc.variables@.len()),
            count <= 0x200000,
            state < count,
            cur < count,
            s.seen@[cur as int],
            s.seen@[state as int],
            trace@.len() >= 1,
            trace@[0] == state as u64,
            trace@.last() == cur as u64,
            trace@.len() + s.depth@[cur as int] == s.depth@[state as int] + 1,
            forall|i: int| 0 <= i < trace@.len() ==> #[trigger] trace@[i] < count,
            forall|i: int| 1 <= i < trace@.len() ==> #[trigger] holds(vc.transition, trace@[i] as usize, trace@[i - 1] as usize),
        decreases s.depth@[cur as int],
    {
        proof {
            assert(found(vc, limits, count as nat, *s, cur as int));
        }
        match s.pred[cur] {
            None => break,
            Some(p) => {
                proof {
                    assert(found(vc, limits, count as nat, *s, p as int));
                }
                trace.push(p as u64);
                cur = p;
            },
        }
    }
    proof {
        assert(found(vc, limits, count as nat, *s, cur as int));
        assert(found(vc, limits, count as nat, *s, state as int));
    }
    let n = trace.len();
    let mut out: Vec<u64> = Vec::new();
    let mut k: usize = 0;
    while k < n
        invariant
            n == trace@.len(),
            k <= n,
            out@.len() == k,
            forall|i: int| 0 <= i < k ==> #[trigger] out@[i] == trace@[n - 1 - i],
        decreases n - k,
    {
        out.push(trace[n - 1 - k]);
        k = k + 1;
    }
    proof {
        assert forall|i: int| 1 <= i < out@.len() implies #[trigger] holds(vc.transition, out@[i - 1] as usize, out@[i] as usize) by {
            assert(out@[i - 1] == trace@[n - 1 - (i - 1)]);
            assert(out@[i] == trace@[n - 1 - i]);
            assert(holds(vc.transition, trace@[n - i] as usize, trace@[n - i - 1] as usize));
        }
        assert forall|i: int| 0 <= i < out@.len() implies #[trigger] out@[i] < valuations(vc.variables@.len()) by {
            assert(out@[i] == trace@[n - 1 - i]);
        }
        assert(out@[0] == trace@[n - 1]);
        assert(holds(vc.initial, (cur as u64) as usize, 0));
        assert(out@.last() == trace@[0]);
    }
    out
}

/// What stops the search early: a counterexample within the depth limit,
/// or a limit reached.
pub open spec fn stop_status(vc: FiniteSafetyVc, limits: ReachabilityLimits, st: RawStatus) -> bool {
    ||| (st matches RawStatus::Refuted { witness_states } && counterexample(vc, witness_states@)
        && witness_states@.len() <= limits.max_depth + 1
        && forall|w: Seq<u64>| #[trigger] counterexample(vc, w) ==> witness_states@.len() <= w.len())
    ||| (st matches RawStatus::Unknown { reason } && reason@ == depth_text(limits) && depth_reached(vc, limits)
        && forall|w: Seq<u64>| #[trigger] counterexample(vc, w) ==> w.len() > limits.max_depth)
    ||| (st matches RawStatus::Unknown { reason } && reason@ == budget_text(limits) && budget_reached(vc, limits))
}

/// Some run visits more distinct states than the depth limit allows.
pub open spec fn depth_reached(vc: FiniteSafetyVc, limits: ReachabilityLimits) -> bool {
    exists|w: Seq<u64>| #[trigger] run(vc, w) && w.no_duplicates() && w.len() == limits.max_depth + 2
}

/// More distinct states are reachable than the state limit allows.
pub open spec fn budget_reached(vc: FiniteSafetyVc, limits: ReachabilityLimits) -> bool {
    exists|list: Seq<u64>| list.len() == limits.max_states + 1 && list.no_duplicates()
        && forall|i: int| 0 <= i < list.len() ==> reachable(vc, #[trigger] list[i])
}

/// A run extended by a successor of its last state is a run.
pub proof fn lemma_run_push_public(vc: FiniteSafetyVc, w: Seq<u64>, x: u64)
    requires
        run(vc, w),
        x < valuations(vc.variables@.len()),
        holds(vc.transition, w.last() as usize, x as usize),
    ensures
        run(vc, w.push(x)),
{
    lemma_run_push(vc, w, x);
}

proof fn lemma_run_push(vc: FiniteSafetyVc, w: Seq<u64>, x: u64)
    requires
        run(vc, w),
        x < valuations(vc.variables@.len()),
        holds(vc.transition, w.last() as usize, x as usize),
    ensures
        run(vc, w.push(x)),
{
    let v = w.push(x);
    assert forall|i: int| 1 <= i < v.len() implies #[trigger] holds(vc.transition, v[i - 1] as usize, v[i] as usize) by {
        if i < w.len() {
            assert(v[i - 1] == w[i - 1] && v[i] == w[i]);
        }
    }
}

/// The stop at the depth limit, found while expanding `state`, the state
/// last expanded, whose successor `next` was not found before.
fn depth_stop(vc: &FiniteSafetyVc, limits: ReachabilityLimits, count: usize, s: &Search, state: usize, next: usize) -> (r: RawStatus)
    requires
        count == valuations(vc.variables@.len()),
        count <= 0x200000,
        search_inv(*vc, limits, count as nat, *s, next as int),
        layered(*vc, count as nat, *s, next as int),
        s.head >= 1,
        s.order@[s.head - 1] == state,
        state < count,
        next < count,
        !s.seen@[next as int],
        holds(vc.transition, state, next),
        s.depth@[state as int] >= limits.max_depth,
    ensures
        stop_status(*vc, limits, r),
{
    let reason = String::from_str("reachable successor exists beyond depth ")
        .concat(crate::text::usize_string(limits.max_depth).as_str());
    proof {
        lemma_depth_reached(*vc, limits, count as nat, *s, state, next);
        lemma_depth_stop_minimal(*vc, limits, count as nat, *s, state, next);
    }
    RawStatus::Unknown { reason }
}

/// Finds each successor of `state`, the state last expanded, not found
/// before, unless a limit stops the search.
#[verifier::rlimit(100)]
#[verifier::spinoff_prover]
fn discover(vc: &FiniteSafetyVc, limits: ReachabilityLimits, count: usize, s: &mut Search, state: usize, state_depth: usize)
    -> (r: Option<RawStatus>)
    requires
        count == valuations(vc.variables@.len()),
        count <= 0x200000,
        refs_below(vc.transition, MAX_VARIABLES as nat),
        state < count,
        old(s).head >= 1,
        old(s).order@[old(s).head - 1] == state,
        state_depth == old(s).depth@[state as int],
        search_inv(*vc, limits, count as nat, *old(s), 0),
        layered(*vc, count as nat, *old(s), 0),
    ensures
        r is None ==> search_wf(*vc, limits, count as nat, *final(s)) && final(s).head == old(s).head
            && layered(*vc, count as nat, *final(s), count as int),
        r matches Some(st) ==> stop_status(*vc, limits, st),
{
    reveal(search_inv);
    let mut next: usize = 0;
    while next < count
        invariant
            count == valuations(vc.variables@.len()),
            count <= 0x200000,
            refs_below(vc.transition, MAX_VARIABLES as nat),
            state < count,
            s.head >= 1,
            s.head == old(s).head,
            s.order@[s.head - 1] == state,
            state_depth == s.depth@[state as int],
            next <= count,
            search_inv(*vc, limits, count as nat, *s, next as int),
            layered(*vc, count as nat, *s, next as int),
        decreases count - next,
    {
        if reach_eval(&vc.transition, state, next) && !s.seen[next] {
            if state_depth >= limits.max_depth {
                return Some(depth_stop(vc, limits, count, s, state, next));
            }
            if s.order.len() >= limits.max_states {
                let reason = String::from_str("reachable successor exceeds the ")
                    .concat(crate::text::usize_string(limits.max_states).as_str()).concat("-state budget");
                proof {
                    lemma_budget_reached(*vc, limits, count as nat, *s, state, next);
                }
                return Some(RawStatus::Unknown { reason });
            }
            let ghost old_s = *s;
            proof {
                assert(old_s.order@.contains(state));
                assert(old_s.seen@[state as int]);
                assert(found(*vc, limits, count as nat, old_s, state as int));
                lemma_run_push(*vc, old_s.paths@[state as int], next as u64);
            }
            s.seen.set(next, true);
            s.depth.set(next, state_depth + 1);
            s.pred.set(next, Some(state));
            s.order.push(next);
            proof {
                s.paths@ = s.paths@.update(next as int, old_s.paths@[state as int].push(next as u64));
                lemma_found_step(*vc, limits, count as nat, old_s, *s, state, next);
                lemma_layered_push(*vc, limits, count as nat, old_s, *s, state, next);
            }
        } else {
            proof {
                assert(search_inv(*vc, limits, count as nat, *s, next + 1));
                lemma_layered_skip(*vc, limits, count as nat, *s, state, next);
            }
        }
        next = next + 1;
    }
    None
}

/// Expands the next state of the search: a state where the property fails
/// stops it with its run; else each successor not yet found is found,
/// unless a limit stops the search.
fn expand(vc: &FiniteSafetyVc, limits: ReachabilityLimits, count: usize, s: &mut Search) -> (r: Option<RawStatus>)
    requires
        count == valuations(vc.variables@.len()),
        count <= 0x200000,
        refs_below(vc.property, MAX_VARIABLES as nat),
        refs_below(vc.transition, MAX_VARIABLES as nat),
        search_wf(*vc, limits, count as nat, *old(s)),
        layered(*vc, count as nat, *old(s), count as int),
        old(s).head < old(s).order@.len(),
    ensures
        r is None ==> search_wf(*vc, limits, count as nat, *final(s)) && final(s).head == old(s).head + 1
            && final(s).head <= final(s).order@.len() && final(s).order@.len() <= limits.max_states
            && layered(*vc, count as nat, *final(s), count as int),
        r matches Some(st) ==> stop_status(*vc, limits, st),
{
    reveal(search_inv);
    let state = s.order[s.head];
    proof {
        assert(s.order@.contains(state));
        assert(s.seen@[state as int]);
    }
    if !reach_eval(&vc.property, state, 0) {
        let witness_states = trace_to(s, state, Ghost(*vc), Ghost(limits), count);
        proof {
            assert forall|w: Seq<u64>| #[trigger] counterexample(*vc, w) implies witness_states@.len() <= w.len() by {
                reveal(layered);
                assert(w[0] < count);
                assert(holds(vc.initial, w[0] as usize, 0));
                assert(holds(vc.initial, (w[0] as int) as usize, 0));
                lemma_shortest_refutation(*vc, limits, count as nat, *s, s.head as int, w, 0);
            }
        }
        return Some(RawStatus::Refuted { witness_states });
    }
    let ghost before = *s;
    s.head = s.head + 1;
    proof {
        assert(s.order@[s.head - 1] == state);
        assert(search_inv(*vc, limits, count as nat, *s, 0));
        reveal(layered);
        assert(layered(*vc, count as nat, *s, 0)) by {
            assert forall|j: int, t: int| 0 <= j < s.head && 0 <= t < count && (j < s.head - 1 || t < 0)
                && #[trigger] holds(vc.transition, s.order@[j], t as usize) implies s.depth@[t] <= s.depth@[s.order@[j] as int] + 1 by {
                assert(before.order@[j] == s.order@[j]);
            }
        }
    }
    let state_depth = s.depth[state];
    discover(vc, limits, count, s, state, state_depth)
}

/// Where the depth limit stops the search, every state above the depth of
/// the state being expanded was expanded and holds the property, so no
/// counterexample is shorter than the limit.
#[verifier::spinoff_prover]
proof fn lemma_depth_stop_minimal(vc: FiniteSafetyVc, limits: ReachabilityLimits, count: nat, s: Search, state: usize, next: usize)
    requires
        count == valuations(vc.variables@.len()),
        count <= 0x200000,
        search_inv(vc, limits, count, s, next as int),
        layered(vc, count, s, next as int),
        s.head >= 1,
        s.order@[s.head - 1] == state,
        state < count,
        s.depth@[state as int] >= limits.max_depth,
    ensures
        forall|w: Seq<u64>| #[trigger] counterexample(vc, w) ==> w.len() > limits.max_depth,
{
    reveal(search_inv);
    reveal(layered);
    assert forall|w: Seq<u64>| #[trigger] counterexample(vc, w) implies w.len() > limits.max_depth by {
        assert(w[0] < count);
        assert(holds(vc.initial, (w[0] as int) as usize, 0));
        lemma_shortest_refutation(vc, limits, count, s, s.head - 1, w, 0);
    }
}

proof fn lemma_depth_reached(vc: FiniteSafetyVc, limits: ReachabilityLimits, count: nat, s: Search, state: usize, next: usize)
    requires
        count == valuations(vc.variables@.len()),
        search_inv(vc, limits, count, s, next as int),
        s.head >= 1,
        s.order@[s.head - 1] == state,
        state < count,
        next < count,
        !s.seen@[next as int],
        holds(vc.transition, state, next),
        s.depth@[state as int] >= limits.max_depth,
    ensures
        depth_reached(vc, limits),
{
    assert(found(vc, limits, count, s, state as int)) by {
        reveal(search_inv);
        assert(s.order@.contains(state));
        assert(s.seen@[state as int]);
    }
    let ps = s.paths@[state as int];
    let w = ps.push(next as u64);
    lemma_run_push(vc, ps, next as u64);
    assert(!ps.contains(next as u64)) by {
        if ps.contains(next as u64) {
            let i = choose|i: int| 0 <= i < ps.len() && ps[i] == next as u64;
            assert(s.seen@[ps[i] as int]);
        }
    }
    assert forall|i: int, j: int| 0 <= i < w.len() && 0 <= j < w.len() && i != j implies w[i] != w[j] by {
        if i < ps.len() && j < ps.len() {
            assert(w[i] == ps[i] && w[j] == ps[j]);
        } else if i < ps.len() {
            assert(w[i] == ps[i]);
            assert(ps.contains(ps[i]));
        } else {
            assert(w[j] == ps[j]);
            assert(ps.contains(ps[j]));
        }
    }
    assert(w.no_duplicates());
    assert(run(vc, w));
}

#[verifier::rlimit(100)]
#[verifier::spinoff_prover]
proof fn lemma_budget_reached(vc: FiniteSafetyVc, limits: ReachabilityLimits, count: nat, s: Search, state: usize, next: usize)
    requires
        count == valuations(vc.variables@.len()),
        search_inv(vc, limits, count, s, next as int),
        s.head >= 1,
        s.order@[s.head - 1] == state,
        state < count,
        next < count,
        !s.seen@[next as int],
        holds(vc.transition, state, next),
        s.order@.len() >= limits.max_states,
    ensures
        budget_reached(vc, limits),
{
    let o = s.order@;
    assert(o.no_duplicates() && o.len() <= limits.max_states && !o.contains(next)
        && (forall|x: int| 0 <= x < count ==> (#[trigger] s.seen@[x] <==> o.contains(x as usize)))
        && (forall|x: int| 0 <= x < count && #[trigger] s.seen@[x] ==> found(vc, limits, count, s, x))
        && (forall|j: int| 0 <= j < o.len() ==> #[trigger] o[j] < count) && s.head <= o.len()) by {
        reveal(search_inv);
    }
    let list = o.map_values(|x: usize| x as u64).push(next as u64);
    assert(o[s.head - 1] == state);
    assert(o.contains(state));
    assert(s.seen@[state as int]);
    assert(found(vc, limits, count, s, state as int));
    let ps = s.paths@[state as int];
    lemma_run_push(vc, ps, next as u64);
    assert(run(vc, ps.push(next as u64)) && ps.push(next as u64).last() == next as u64);
    assert forall|i: int| 0 <= i < list.len() implies reachable(vc, #[trigger] list[i]) by {
        if i < o.len() {
            let x = o[i];
            assert(list[i] == x as u64);
            assert(o.contains(x));
            assert(s.seen@[x as int]);
            assert(found(vc, limits, count, s, x as int));
            assert(run(vc, s.paths@[x as int]) && s.paths@[x as int].last() == x as u64);
        } else {
            assert(list[i] == next as u64);
        }
    }
    assert forall|i: int, j: int| 0 <= i < list.len() && 0 <= j < list.len() && i != j implies list[i] != list[j] by {
        if i < o.len() && j < o.len() {
            assert(o[i] != o[j]);
        } else if i < o.len() {
            assert(o.contains(o[i]));
        } else {
            assert(o.contains(o[j]));
        }
    }
    assert(list.no_duplicates());
}

proof fn lemma_layered_push(vc: FiniteSafetyVc, limits: ReachabilityLimits, count: nat, a: Search, b: Search, state: usize, next: usize)
    requires
        search_inv(vc, limits, count, a, next as int),
        layered(vc, count, a, next as int),
        a.head >= 1,
        a.order@[a.head - 1] == state,
        state < count,
        next < count,
        !a.seen@[next as int],
        a.depth@[state as int] + 1 <= usize::MAX,
        b.head == a.head,
        b.order@ == a.order@.push(next),
        b.depth@ == a.depth@.update(next as int, (a.depth@[state as int] + 1) as usize),
    ensures
        layered(vc, count, b, next + 1),
{
    reveal(search_inv);
    reveal(layered);
    let ao = a.order@;
    let bo = b.order@;
    let top = a.depth@[state as int];
    assert(bo[ao.len() as int] == next);
    assert(b.depth@[next as int] == top + 1);
    assert(ao[a.head - 1] == state);
    assert forall|j: int| 0 <= j < ao.len() implies #[trigger] ao[j] != next by {
        assert(a.seen@[ao[j] as int] <==> ao.contains(ao[j]));
    }
    assert forall|j: int| 0 <= j < ao.len() implies b.depth@[#[trigger] bo[j] as int] == a.depth@[ao[j] as int] by {
        assert(bo[j] == ao[j]);
        assert(ao[j] != next);
    }
    assert forall|a1: int, b1: int| #![trigger bo[a1], bo[b1]] 0 <= a1 <= b1 < bo.len()
        implies b.depth@[bo[a1] as int] <= b.depth@[bo[b1] as int] by {
        if b1 == ao.len() {
            if a1 < ao.len() {
                assert(b.depth@[bo[a1] as int] == a.depth@[ao[a1] as int]);
                if a1 < a.head - 1 {
                    assert(a.depth@[ao[a1] as int] <= a.depth@[ao[a.head - 1] as int]);
                } else {
                    assert(a.depth@[ao[a1] as int] <= a.depth@[ao[a.head - 1] as int] + 1);
                }
            }
        } else {
            assert(b.depth@[bo[a1] as int] == a.depth@[ao[a1] as int]);
            assert(b.depth@[bo[b1] as int] == a.depth@[ao[b1] as int]);
            assert(a.depth@[ao[a1] as int] <= a.depth@[ao[b1] as int]);
        }
    }
    assert forall|a1: int, b1: int| #![trigger bo[a1], bo[b1]] 0 <= a1 && b.head - 1 <= a1 <= b1 < bo.len()
        implies b.depth@[bo[b1] as int] <= b.depth@[bo[a1] as int] + 1 by {
        if b1 == ao.len() {
            if a1 < ao.len() {
                assert(b.depth@[bo[a1] as int] == a.depth@[ao[a1] as int]);
                assert(a.depth@[ao[a.head - 1] as int] <= a.depth@[ao[a1] as int]);
            }
        } else {
            assert(b.depth@[bo[a1] as int] == a.depth@[ao[a1] as int]);
            assert(b.depth@[bo[b1] as int] == a.depth@[ao[b1] as int]);
            assert(a.depth@[ao[b1] as int] <= a.depth@[ao[a1] as int] + 1);
        }
    }
    assert forall|j: int, t: int| 0 <= j < b.head && 0 <= t < count && (j < b.head - 1 || t < next + 1)
        && #[trigger] holds(vc.transition, bo[j], t as usize) implies b.depth@[t] <= b.depth@[bo[j] as int] + 1 by {
        assert(bo[j] == ao[j]);
        assert(b.depth@[bo[j] as int] == a.depth@[ao[j] as int]);
        if t != next as int {
            assert(a.depth@[t] <= a.depth@[ao[j] as int] + 1);
        } else if j < a.head - 1 {
            assert(a.seen@[t]);
        } else {
            assert(ao[j] == state);
        }
    }
    assert forall|x: int| 0 <= x < count && #[trigger] holds(vc.initial, x as usize, 0) implies b.depth@[x] == 0 by {
        assert(a.seen@[x]);
    }
}

proof fn lemma_layered_skip(vc: FiniteSafetyVc, limits: ReachabilityLimits, count: nat, s: Search, state: usize, next: usize)
    requires
        search_inv(vc, limits, count, s, next as int + 1),
        layered(vc, count, s, next as int),
        s.head >= 1,
        s.order@[s.head - 1] == state,
        state < count,
        next < count,
    ensures
        layered(vc, count, s, next + 1),
{
    reveal(search_inv);
    reveal(layered);
    let o = s.order@;
    assert forall|j: int, t: int| 0 <= j < s.head && 0 <= t < count && (j < s.head - 1 || t < next + 1)
        && #[trigger] holds(vc.transition, o[j], t as usize) implies s.depth@[t] <= s.depth@[o[j] as int] + 1 by {
        if !(j < s.head - 1 || t < next) {
            assert(o[j] == state);
            assert(s.seen@[t]);
            assert(o.contains(t as usize));
            let w = choose|w: int| 0 <= w < o.len() && o[w] == t as usize;
            if w < s.head - 1 {
                assert(s.depth@[o[w] as int] <= s.depth@[o[s.head - 1] as int]);
            } else {
                assert(s.depth@[o[w] as int] <= s.depth@[o[s.head - 1] as int] + 1);
            }
        }
    }
}

proof fn lemma_found_step(vc: FiniteSafetyVc, limits: ReachabilityLimits, count: nat, a: Search, b: Search, state: usize, next: usize)
    requires
        count <= 0x200000,
        search_inv(vc, limits, count, a, next as int),
        a.head >= 1,
        a.order@[a.head - 1] == state,
        state < count,
        next < count,
        !a.seen@[next as int],
        holds(vc.transition, state, next),
        a.depth@[state as int] < limits.max_depth,
        a.order@.len() < limits.max_states,
        run(vc, a.paths@[state as int].push(next as u64)),
        b.head == a.head,
        b.order@ == a.order@.push(next),
        b.seen@ == a.seen@.update(next as int, true),
        b.depth@ == a.depth@.update(next as int, (a.depth@[state as int] + 1) as usize),
        b.pred@ == a.pred@.update(next as int, Some(state)),
        b.paths@ == a.paths@.update(next as int, a.paths@[state as int].push(next as u64)),
    ensures
        search_inv(vc, limits, count, b, next + 1),
{
    reveal(search_inv);
    lemma_order_step(vc, limits, count, a, b, next);
    lemma_found_kept(vc, limits, count, a, b, state, next);
    assert forall|j: int| 0 <= j < b.head implies holds(vc.property, #[trigger] b.order@[j], 0) by {
        assert(b.order@[j] == a.order@[j]);
    }
    assert forall|j: int, t: int| 0 <= j < b.head && 0 <= t < count && (j < b.head - 1 || t < next + 1)
        && #[trigger] holds(vc.transition, b.order@[j], t as usize) implies b.seen@[t] by {
        assert(b.order@[j] == a.order@[j]);
        if t != next as int {
            assert(a.seen@[t]);
        }
    }
}

proof fn lemma_order_step(vc: FiniteSafetyVc, limits: ReachabilityLimits, count: nat, a: Search, b: Search, next: usize)
    requires
        count <= 0x200000,
        search_inv(vc, limits, count, a, next as int),
        next < count,
        !a.seen@[next as int],
        b.order@ == a.order@.push(next),
        b.seen@ == a.seen@.update(next as int, true),
    ensures
        b.order@.no_duplicates(),
        forall|j: int| 0 <= j < b.order@.len() ==> #[trigger] b.order@[j] < count,
        forall|x: int| 0 <= x < count ==> (#[trigger] b.seen@[x] <==> b.order@.contains(x as usize)),
{
    reveal(search_inv);
    let ao = a.order@;
    let bo = b.order@;
    assert(!ao.contains(next)) by {
        assert(a.seen@[next as int] <==> ao.contains(next));
    }
    assert forall|i: int, j: int| 0 <= i < bo.len() && 0 <= j < bo.len() && i != j implies bo[i] != bo[j] by {
        if i < ao.len() && j < ao.len() {
            assert(ao[i] != ao[j]);
        } else if i < ao.len() {
            assert(ao.contains(ao[i]));
        } else {
            assert(ao.contains(ao[j]));
        }
    }
    assert forall|j: int| 0 <= j < bo.len() implies #[trigger] bo[j] < count by {
        if j < ao.len() {
            assert(bo[j] == ao[j]);
        }
    }
    assert forall|x: int| 0 <= x < count implies (#[trigger] b.seen@[x] <==> bo.contains(x as usize)) by {
        if x == next as int {
            assert(bo[ao.len() as int] == next);
        } else {
            assert(b.seen@[x] == a.seen@[x]);
            assert(a.seen@[x] <==> ao.contains(x as usize));
            if ao.contains(x as usize) {
                let w = choose|w: int| 0 <= w < ao.len() && ao[w] == x as usize;
                assert(bo[w] == x as usize);
            }
            if bo.contains(x as usize) {
                let w = choose|w: int| 0 <= w < bo.len() && bo[w] == x as usize;
                assert(w != ao.len() as int) by {
                    if w == ao.len() as int {
                        assert(bo[w] == next);
                    }
                }
                assert(ao[w] == x as usize);
            }
        }
    }
}

#[verifier::rlimit(80)]
#[verifier::spinoff_prover]
proof fn lemma_found_kept(vc: FiniteSafetyVc, limits: ReachabilityLimits, count: nat, a: Search, b: Search, state: usize, next: usize)
    requires
        count <= 0x200000,
        search_inv(vc, limits, count, a, next as int),
        state < count,
        next < count,
        a.seen@[state as int],
        !a.seen@[next as int],
        holds(vc.transition, state, next),
        a.depth@[state as int] < limits.max_depth,
        run(vc, a.paths@[state as int].push(next as u64)),
        b.seen@ == a.seen@.update(next as int, true),
        b.depth@ == a.depth@.update(next as int, (a.depth@[state as int] + 1) as usize),
        b.pred@ == a.pred@.update(next as int, Some(state)),
        b.paths@ == a.paths@.update(next as int, a.paths@[state as int].push(next as u64)),
    ensures
        forall|x: int| 0 <= x < count && #[trigger] b.seen@[x] ==> found(vc, limits, count, b, x),
        forall|x: int| 0 <= x < count && #[trigger] holds(vc.initial, x as usize, 0) ==> b.seen@[x],
{
    reveal(search_inv);
    assert(found(vc, limits, count, a, state as int));
    assert forall|x: int| 0 <= x < count && #[trigger] b.seen@[x] implies found(vc, limits, count, b, x) by {
        if x != next as int {
            assert(a.seen@[x]);
            assert(found(vc, limits, count, a, x));
            match a.pred@[x] {
                Some(p) => {
                    assert(b.seen@[p as int]);
                },
                None => {},
            }
            assert(b.paths@[x] == a.paths@[x]);
            assert forall|i: int| 0 <= i < b.paths@[x].len() implies #[trigger] b.paths@[x][i] < count && b.seen@[b.paths@[x][i] as int] by {
                assert(a.seen@[a.paths@[x][i] as int]);
            }
        } else {
            let ps = a.paths@[state as int];
            let np = ps.push(next as u64);
            assert(b.paths@[x] == np);
            assert(!ps.contains(next as u64)) by {
                if ps.contains(next as u64) {
                    let i = choose|i: int| 0 <= i < ps.len() && ps[i] == next as u64;
                    assert(a.seen@[ps[i] as int]);
                }
            }
            assert(np.no_duplicates()) by {
                assert forall|i: int, j: int| 0 <= i < np.len() && 0 <= j < np.len() && i != j implies np[i] != np[j] by {
                    if i < ps.len() && j < ps.len() {
                        assert(np[i] == ps[i] && np[j] == ps[j]);
                    } else if i < ps.len() {
                        assert(np[i] == ps[i]);
                        assert(ps.contains(ps[i]));
                    } else {
                        assert(np[j] == ps[j]);
                        assert(ps.contains(ps[j]));
                    }
                }
            }
            assert forall|i: int| 0 <= i < np.len() implies #[trigger] np[i] < count && b.seen@[np[i] as int] by {
                if i < ps.len() {
                    assert(np[i] == ps[i]);
                    assert(a.seen@[ps[i] as int]);
                }
            }
        }
    }
    assert forall|x: int| 0 <= x < count && #[trigger] holds(vc.initial, x as usize, 0) implies b.seen@[x] by {
        assert(a.seen@[x]);
    }
}

/// The found states, in increasing order.
fn certify(s: &Search, count: usize) -> (r: Vec<u64>)
    requires
        s.seen@.len() == count,
    ensures
        forall|i: int, j: int| 0 <= i < j < r@.len() ==> r@[i] < r@[j],
        forall|i: int| 0 <= i < r@.len() ==> #[trigger] r@[i] < count,
        forall|x: u64| r@.contains(x) <==> x < count && s.seen@[x as int],
{
    let mut out: Vec<u64> = Vec::new();
    let mut x: usize = 0;
    while x < count
        invariant
            s.seen@.len() == count,
            x <= count,
            forall|i: int, j: int| 0 <= i < j < out@.len() ==> out@[i] < out@[j],
            forall|i: int| 0 <= i < out@.len() ==> #[trigger] out@[i] < x,
            forall|y: u64| out@.contains(y) <==> y < x && s.seen@[y as int],
        decreases count - x,
    {
        let ghost before = out@;
        if s.seen[x] {
            out.push(x as u64);
        }
        proof {
            assert forall|y: u64| out@.contains(y) <==> y < x + 1 && s.seen@[y as int] by {
                if before.contains(y) {
                    let w = choose|w: int| 0 <= w < before.len() && before[w] == y;
                    assert(out@[w] == y);
                }
                if out@.contains(y) {
                    let w = choose|w: int| 0 <= w < out@.len() && out@[w] == y;
                    if w < before.len() {
                        assert(before[w] == y);
                    }
                }
                if y == x as u64 && s.seen@[x as int] {
                    assert(out@[before.len() as int] == y);
                }
            }
        }
        x = x + 1;
    }
    out
}

/// What the list of the found states of a completed search satisfies.
spec fn completed(vc: FiniteSafetyVc, limits: ReachabilityLimits, count: nat, s: Search, list: Seq<u64>) -> bool {
    &&& count == valuations(vc.variables@.len())
    &&& count <= 0x200000
    &&& search_wf(vc, limits, count, s)
    &&& s.head == s.order@.len()
    &&& forall|i: int, j: int| 0 <= i < j < list.len() ==> list[i] < list[j]
    &&& forall|i: int| 0 <= i < list.len() ==> #[trigger] list[i] < count
    &&& forall|x: u64| list.contains(x) <==> x < count && s.seen@[x as int]
}

proof fn lemma_completed_inductive(vc: FiniteSafetyVc, limits: ReachabilityLimits, count: nat, s: Search, list: Seq<u64>)
    requires
        completed(vc, limits, count, s, list),
    ensures
        crate::vc::certificate::inductive_invariant(vc, list),
{
    reveal(search_inv);
    let order = s.order@;
    assert forall|x: int| 0 <= x < count && #[trigger] holds(vc.initial, x as usize, 0) implies list.contains(x as u64) by {
        assert(s.seen@[x]);
    }
    assert forall|i: int| 0 <= i < list.len() implies holds(vc.property, #[trigger] list[i] as usize, 0) by {
        let x = list[i];
        assert(list.contains(x));
        assert(s.seen@[x as int]);
        assert(order.contains(x as usize));
        let j = choose|j: int| 0 <= j < order.len() && order[j] == x as usize;
        assert(holds(vc.property, order[j], 0));
    }
    assert forall|i: int, t: int| 0 <= i < list.len() && 0 <= t < count && #[trigger] holds(vc.transition, list[i] as usize, t as usize)
        implies list.contains(t as u64) by {
        let x = list[i];
        assert(list.contains(x));
        assert(s.seen@[x as int]);
        assert(order.contains(x as usize));
        let j = choose|j: int| 0 <= j < order.len() && order[j] == x as usize;
        assert(holds(vc.transition, order[j], t as usize));
        assert(s.seen@[t]);
    }
}

proof fn lemma_completed_reachable(vc: FiniteSafetyVc, limits: ReachabilityLimits, count: nat, s: Search, list: Seq<u64>)
    requires
        completed(vc, limits, count, s, list),
        crate::vc::certificate::inductive_invariant(vc, list),
    ensures
        forall|x: u64| list.contains(x) <==> reachable(vc, x),
        forall|i: int| 0 <= i < list.len() ==> reachable_within(vc, #[trigger] list[i], (limits.max_depth + 1) as nat),
{
    reveal(search_inv);
    assert forall|x: u64| list.contains(x) <==> reachable(vc, x) by {
        if list.contains(x) {
            assert(found(vc, limits, count, s, x as int));
            assert(run(vc, s.paths@[x as int]));
        }
        if reachable(vc, x) {
            let w = choose|w: Seq<u64>| #[trigger] run(vc, w) && w.last() == x;
            crate::vc::certificate::lemma_invariant_covers_run(vc, list, w, w.len() - 1);
        }
    }
    assert forall|i: int| 0 <= i < list.len() implies reachable_within(vc, #[trigger] list[i], (limits.max_depth + 1) as nat) by {
        let x = list[i];
        assert(list.contains(x));
        assert(found(vc, limits, count, s, x as int));
        assert(run(vc, s.paths@[x as int]));
    }
}

proof fn lemma_completed_size(vc: FiniteSafetyVc, limits: ReachabilityLimits, count: nat, s: Search, list: Seq<u64>)
    requires
        completed(vc, limits, count, s, list),
    ensures
        list.len() <= limits.max_states,
{
    reveal(search_inv);
    let order = s.order@;
    let mapped = order.map_values(|y: usize| y as u64);
    assert(mapped.no_duplicates()) by {
        assert forall|i: int, j: int| 0 <= i < mapped.len() && 0 <= j < mapped.len() && i != j implies mapped[i] != mapped[j] by {
            assert(order[i] != order[j]);
            assert(order[i] < count && order[j] < count);
        }
    }
    assert(list.no_duplicates()) by {
        assert forall|i: int, j: int| 0 <= i < list.len() && 0 <= j < list.len() && i != j implies list[i] != list[j] by {
            if i < j {
                assert(list[i] < list[j]);
            } else {
                assert(list[j] < list[i]);
            }
        }
    }
    assert(mapped.to_set() =~= list.to_set()) by {
        assert forall|x: u64| mapped.to_set().contains(x) <==> list.to_set().contains(x) by {
            if mapped.contains(x) {
                let w = choose|w: int| 0 <= w < mapped.len() && mapped[w] == x;
                assert(order[w] < count);
                assert(order.contains(order[w]));
                assert(s.seen@[order[w] as int]);
                assert(list.contains(x));
            }
            if list.contains(x) {
                assert(s.seen@[x as int]);
                assert(order.contains(x as usize));
                let w = choose|w: int| 0 <= w < order.len() && order[w] == x as usize;
                assert(mapped[w] == x);
                assert(mapped.contains(x));
            }
        }
    }
    mapped.unique_seq_to_set();
    list.unique_seq_to_set();
}

proof fn lemma_wf_lengths(vc: FiniteSafetyVc, limits: ReachabilityLimits, count: nat, s: Search)
    requires
        search_wf(vc, limits, count, s),
    ensures
        s.seen@.len() == count,
{
    reveal(search_inv);
}

proof fn lemma_initial_search_wf(vc: FiniteSafetyVc, limits: ReachabilityLimits, count: nat, s: Search)
    requires
        count <= 0x200000,
        count == valuations(vc.variables@.len()),
        s.head == 0,
        s.order@.len() <= limits.max_states,
        s.seen@.len() == count,
        s.depth@.len() == count,
        s.pred@.len() == count,
        s.paths@.len() == count,
        s.order@.no_duplicates(),
        forall|j: int| 0 <= j < s.order@.len() ==> #[trigger] s.order@[j] < count,
        forall|x: int| 0 <= x < count ==> (#[trigger] s.seen@[x] <==> s.order@.contains(x as usize)),
        forall|x: int| 0 <= x < count ==> (#[trigger] s.seen@[x] <==> holds(vc.initial, x as usize, 0)),
        forall|x: int| 0 <= x < count && #[trigger] s.seen@[x] ==> {
            &&& s.depth@[x] == 0
            &&& s.pred@[x] is None
            &&& s.paths@[x] == seq![x as u64]
        },
    ensures
        search_wf(vc, limits, count, s),
{
    reveal(search_inv);
    assert forall|x: int| 0 <= x < count && #[trigger] s.seen@[x] implies found(vc, limits, count, s, x) by {
        assert(s.paths@[x] == seq![x as u64]);
        assert(run(vc, seq![x as u64]));
        assert(s.paths@[x][0] == x as u64);
    }
}

/// The result of a completed search: its found states, certified.
fn complete_result(engine: BackendIdentity, limits: ReachabilityLimits, vc: &FiniteSafetyVc, binding: EngineBinding,
    invariant_states: Vec<u64>) -> (r: RawEngineResult)
    requires
        vc_fault(*vc) is None,
        bound_to(binding, *vc),
        forall|i: int, j: int| 0 <= i < j < invariant_states@.len() ==> invariant_states@[i] < invariant_states@[j],
        crate::vc::certificate::inductive_invariant(*vc, invariant_states@),
        lists_reachable(*vc, limits, invariant_states@),
    ensures
        r.engine == engine,
        r.binding == binding,
        r.method@ == "deterministic-bfs/1"@,
        r.raw_output@.len() == 0,
        r.status matches RawStatus::Holds { requested_class } && requested_class == NormalizedClass::ModelChecked,
        r.certificate matches Some(c) && certificate_outcome(*vc, c) is None
            && r.scope == (ResultScope::CompleteFinite { states: c.invariant_states@.len() as usize })
            && lists_reachable(*vc, limits, c.invariant_states@),
{
    let states = invariant_states.len();
    let certificate = FiniteInvariantCertificate {
        format: String::from_str(FINITE_INVARIANT_CERTIFICATE_VERSION),
        vc_digest: binding.vc_digest.copy(),
        model_id: binding.model_id.copy(),
        claim_id: binding.claim_id.copy(),
        configuration_id: binding.configuration_id.copy(),
        invariant_states,
    };
    proof {
        crate::vc::certificate::inductive_invariant_is_accepted(*vc, certificate);
    }
    let mut checked = result(engine, binding, ResultScope::CompleteFinite { states },
        RawStatus::Holds { requested_class: NormalizedClass::ModelChecked });
    checked.certificate = Some(certificate);
    checked
}

fn result(engine: BackendIdentity, binding: EngineBinding, scope: ResultScope, status: RawStatus) -> (r: RawEngineResult)
    ensures
        r.engine == engine,
        r.binding == binding,
        r.method@ == "deterministic-bfs/1"@,
        r.scope == scope,
        r.status == status,
        r.certificate is None,
        r.raw_output@.len() == 0,
{
    RawEngineResult {
        engine,
        binding,
        method: String::from_str("deterministic-bfs/1"),
        scope,
        status,
        certificate: None,
        raw_output: Vec::new(),
    }
}

/// The parts of every result of the engine that do not depend on the search.
pub open spec fn reach_common(engine: BackendIdentity, vc: FiniteSafetyVc, r: RawEngineResult) -> bool {
    &&& same_identity(r.engine, engine)
    &&& bound_to(r.binding, vc)
    &&& r.method@ == "deterministic-bfs/1"@
    &&& r.raw_output@.len() == 0
}

proof fn lemma_reach_stopped(engine: BackendIdentity, limits: ReachabilityLimits, vc: FiniteSafetyVc, r: RawEngineResult)
    requires
        reach_common(engine, vc, r),
        r.scope == (ResultScope::Bounded { max_depth: limits.max_depth, max_states: limits.max_states }),
        r.certificate is None,
        ({
            ||| vc_fault(vc) is Some && (r.status matches RawStatus::Unknown { reason }
                && reason@ == "invalid VC: "@ + ir_error_text(vc_fault(vc)->0))
            ||| vc_fault(vc) is None && initial_count(vc, valuations(vc.variables@.len())) > limits.max_states
                && (r.status matches RawStatus::Unknown { reason } && reason@ == "initial states exceed the state budget"@)
            ||| vc_fault(vc) is None && initial_count(vc, valuations(vc.variables@.len())) <= limits.max_states
                && stop_status(vc, limits, r.status)
        }),
    ensures
        reach_result(engine, limits, vc, r),
{
    reveal(reach_result);
}

proof fn lemma_reach_complete(engine: BackendIdentity, limits: ReachabilityLimits, vc: FiniteSafetyVc, r: RawEngineResult)
    requires
        reach_common(engine, vc, r),
        vc_fault(vc) is None,
        initial_count(vc, valuations(vc.variables@.len())) <= limits.max_states,
        r.status matches RawStatus::Holds { requested_class } && requested_class == NormalizedClass::ModelChecked,
        r.certificate matches Some(c) && certificate_outcome(vc, c) is None
            && r.scope == (ResultScope::CompleteFinite { states: c.invariant_states@.len() as usize })
            && lists_reachable(vc, limits, c.invariant_states@),
    ensures
        reach_result(engine, limits, vc, r),
{
    reveal(reach_result);
}

/// The result of a search that expanded every state it found.
fn finish(engine: BackendIdentity, limits: ReachabilityLimits, vc: &FiniteSafetyVc, binding: EngineBinding, s: &Search, count: usize,
    Ghost(identity): Ghost<BackendIdentity>) -> (r: RawEngineResult)
    requires
        same_identity(engine, identity),
        vc_fault(*vc) is None,
        bound_to(binding, *vc),
        count == valuations(vc.variables@.len()),
        count <= 0x200000,
        search_wf(*vc, limits, count as nat, *s),
        s.head == s.order@.len(),
        initial_count(*vc, count as nat) <= limits.max_states,
    ensures
        reach_result(identity, limits, *vc, r),
{
    proof {
        lemma_wf_lengths(*vc, limits, count as nat, *s);
    }
    let invariant_states = certify(s, count);
    proof {
        assert(completed(*vc, limits, count as nat, *s, invariant_states@));
        lemma_completed_inductive(*vc, limits, count as nat, *s, invariant_states@);
        lemma_completed_reachable(*vc, limits, count as nat, *s, invariant_states@);
        lemma_completed_size(*vc, limits, count as nat, *s, invariant_states@);
        reveal(lists_reachable);
    }
    let r = complete_result(engine, limits, vc, binding, invariant_states);
    proof {
        lemma_reach_complete(identity, limits, *vc, r);
    }
    r
}

impl ReachabilityEngine {
    /// Deterministic breadth-first search of the states reachable from the
    /// initial ones, stopped by the first state found where the property
    /// fails or by the declared limits.
    pub fn check(&self, vc: &FiniteSafetyVc) -> (r: RawEngineResult)
        ensures
            reach_result(self.identity, self.limits, *vc, r),
    {
        let binding = binding_or_placeholder(vc);
        let bounded_scope = ResultScope::Bounded { max_depth: self.limits.max_depth, max_states: self.limits.max_states };
        match vc.validate() {
            Err(error) => {
                let reason = String::from_str("invalid VC: ").concat(error.to_string().as_str());
                let r = result(self.identity.copy(), binding, bounded_scope, RawStatus::Unknown { reason });
                proof {
                    lemma_reach_stopped(self.identity, self.limits, *vc, r);
                }
                return r;
            },
            Ok(()) => {},
        }
        proof {
            lemma_valid_refs(*vc);
            crate::vc::inductive::lemma_count_bound(*vc);
        }
        let count = vc.state_count();
        let mut s = initial_search(vc, count);
        if s.order.len() > self.limits.max_states {
            let r = result(self.identity.copy(), binding, bounded_scope,
                RawStatus::Unknown { reason: String::from_str("initial states exceed the state budget") });
            proof {
                lemma_reach_stopped(self.identity, self.limits, *vc, r);
            }
            return r;
        }
        proof {
            lemma_initial_search_wf(*vc, self.limits, count as nat, s);
            reveal(layered);
            assert forall|x: int| 0 <= x < count && #[trigger] holds(vc.initial, x as usize, 0) implies s.depth@[x] == 0 by {
                assert(s.seen@[x]);
            }
            assert forall|a: int, b: int| #![trigger s.order@[a], s.order@[b]] 0 <= a <= b < s.order@.len()
                implies s.depth@[s.order@[a] as int] <= s.depth@[s.order@[b] as int] by {
                assert(s.order@.contains(s.order@[a]));
                assert(s.order@.contains(s.order@[b]));
                assert(s.seen@[s.order@[a] as int] && s.seen@[s.order@[b] as int]);
            }
            assert forall|a: int, b: int| #![trigger s.order@[a], s.order@[b]] 0 <= a && s.head - 1 <= a <= b < s.order@.len()
                implies s.depth@[s.order@[b] as int] <= s.depth@[s.order@[a] as int] + 1 by {
                assert(s.order@.contains(s.order@[a]));
                assert(s.order@.contains(s.order@[b]));
                assert(s.seen@[s.order@[a] as int] && s.seen@[s.order@[b] as int]);
            }
            assert(layered(*vc, count as nat, s, count as int));
        }
        while s.head < s.order.len()
            invariant
                count == valuations(vc.variables@.len()),
                count <= 0x200000,
                vc_fault(*vc) is None,
                refs_below(vc.property, MAX_VARIABLES as nat),
                refs_below(vc.transition, MAX_VARIABLES as nat),
                search_wf(*vc, self.limits, count as nat, s),
                layered(*vc, count as nat, s, count as int),
                s.head <= s.order@.len(),
                s.order@.len() <= self.limits.max_states,
                bound_to(binding, *vc),
                initial_count(*vc, count as nat) <= self.limits.max_states,
            decreases self.limits.max_states - s.head,
        {
            match expand(vc, self.limits, count, &mut s) {
                Some(status) => {
                    let r = result(self.identity.copy(), binding, bounded_scope, status);
                    proof {
                        lemma_reach_stopped(self.identity, self.limits, *vc, r);
                    }
                    return r;
                },
                None => {},
            }
        }
        finish(self.identity.copy(), self.limits, vc, binding, &s, count, Ghost(self.identity))
    }
}

/// With an exact engine identity, the engine's verdict on a valid
/// condition survives normalization: a completed search is
/// `ModelChecked`, a counterexample `Refuted`, and `Unknown` stays
/// `Unknown`.
pub proof fn reachability_verdict_normalizes(engine: BackendIdentity, limits: ReachabilityLimits, vc: FiniteSafetyVc, r: RawEngineResult)
    requires
        reach_result(engine, limits, vc, r),
        crate::vc::evidence::identity_fault(engine) is None,
        vc_fault(vc) is None,
    ensures
        crate::vc::evidence::normalized_outcome(vc, r).0 == match r.status {
            RawStatus::Holds { .. } => NormalizedClass::ModelChecked,
            RawStatus::Refuted { .. } => NormalizedClass::Refuted,
            _ => NormalizedClass::Unknown,
        },
{
    reveal(reach_result);
    reveal(lists_reachable);
    reveal(crate::vc::evidence::normalized_outcome);
    reveal_strlit("deterministic-bfs/1");
    reveal_strlit("unknown");
    assert(!crate::text::is_space(r.method@[0]));
    assert(!crate::text::blank(r.method@));
    assert(!crate::text::same_ignoring_ascii_case(r.method@, "unknown"@));
    assert(crate::vc::evidence::identity_fault(r.engine) == crate::vc::evidence::identity_fault(engine));
    if r.status is Refuted {
        crate::vc::evidence::lemma_counterexample_witness(vc, r.status->witness_states@);
    }
}

} // verus!
