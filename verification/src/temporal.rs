//! Explicit finite-state temporal checking (always, eventually, leads-to)
//! under weak and strong action fairness, over the identity-stutter closure
//! of a graph, with deterministic lasso counterexamples.

use vstd::prelude::*;
use crate::graph::{
    FiniteGraph, GraphV, KindV, ModelState, StateId, TransitionId, TransitionKind, enabled, graph_wf, insert_sorted_id,
    mark_list, path_within, reachable, reaches_within, strictly_increasing,
};
use crate::text::{seq_lt, str_eq, str_lt};
use crate::fair_cycle::{cycle, cycle_fair, cycle_within, fair_cycle_within, find_fair_cycle, lemma_walk_join, lemma_walk_reaches};

verus! {

#[derive(Clone, Copy, Debug, PartialEq, Eq, PartialOrd, Ord, Hash, Structural)]
pub enum FairnessKind {
    Weak,
    Strong,
}

#[derive(Clone, Debug, PartialEq, Eq, PartialOrd, Ord, Hash)]
pub struct Fairness {
    pub action: String,
    pub kind: FairnessKind,
}

pub struct FairnessV {
    pub action: Seq<char>,
    pub kind: FairnessKind,
}

impl View for Fairness {
    type V = FairnessV;

    open spec fn view(&self) -> FairnessV {
        FairnessV { action: self.action@, kind: self.kind }
    }
}

impl Fairness {
    pub fn weak(action: &str) -> (r: Fairness)
        ensures
            r@ == (FairnessV { action: action@, kind: FairnessKind::Weak }),
    {
        Fairness { action: action.to_owned(), kind: FairnessKind::Weak }
    }

    pub fn strong(action: &str) -> (r: Fairness)
        ensures
            r@ == (FairnessV { action: action@, kind: FairnessKind::Strong }),
    {
        Fairness { action: action.to_owned(), kind: FairnessKind::Strong }
    }

    pub fn copy(&self) -> (r: Fairness)
        ensures
            r@ == self@,
    {
        Fairness { action: self.action.clone(), kind: self.kind }
    }
}

/// The order of fairness assumptions: by action, then weak before strong.
pub open spec fn fairness_lt(a: FairnessV, b: FairnessV) -> bool {
    seq_lt(a.action, b.action) || (a.action == b.action && a.kind == FairnessKind::Weak && b.kind == FairnessKind::Strong)
}

pub open spec fn fairness_views(s: Seq<Fairness>) -> Seq<FairnessV> {
    s.map_values(|f: Fairness| f@)
}

/// Strictly increasing in fairness order.
pub open spec fn fairness_sorted(s: Seq<FairnessV>) -> bool {
    forall|i: int, j: int| 0 <= i < j < s.len() ==> fairness_lt(s[i], s[j])
}

proof fn lemma_fairness_lt_irreflexive(a: FairnessV)
    ensures
        !fairness_lt(a, a),
{
    crate::text::lemma_seq_lt_irreflexive(a.action);
}

proof fn lemma_fairness_lt_transitive(a: FairnessV, b: FairnessV, c: FairnessV)
    requires
        fairness_lt(a, b),
        fairness_lt(b, c),
    ensures
        fairness_lt(a, c),
{
    if seq_lt(a.action, b.action) && seq_lt(b.action, c.action) {
        crate::text::lemma_seq_lt_transitive(a.action, b.action, c.action);
    } else if seq_lt(a.action, b.action) || seq_lt(b.action, c.action) {
    } else {
        assert(a.kind == FairnessKind::Weak && b.kind == FairnessKind::Strong);
        assert(b.kind == FairnessKind::Weak);
    }
}

/// Two fairness sets with the same assumptions are equal, whatever order
/// and repeats the assumptions were given in: `FairnessSet::new` keeps a
/// strictly sorted list of exactly the given assumptions, and there is only
/// one such list.
pub proof fn fairness_set_ignores_order(x: Seq<FairnessV>, y: Seq<FairnessV>)
    requires
        fairness_sorted(x),
        fairness_sorted(y),
        x.to_set() == y.to_set(),
    ensures
        x == y,
    decreases x.len(),
{
    if x.len() == 0 {
        if y.len() > 0 {
            assert(y.to_set().contains(y[0]));
        }
        assert(x =~= y);
    } else {
        assert(x.to_set().contains(x[0]));
        assert(y.len() > 0);
        assert(y.to_set().contains(y[0]));
        let j = choose|j: int| 0 <= j < y.len() && y[j] == x[0];
        let i = choose|i: int| 0 <= i < x.len() && x[i] == y[0];
        if j > 0 {
            assert(fairness_lt(y[0], x[0]));
            if i > 0 {
                assert(fairness_lt(x[0], y[0]));
                lemma_fairness_lt_transitive(x[0], y[0], x[0]);
            }
            lemma_fairness_lt_irreflexive(x[0]);
        }
        assert(x[0] == y[0]);
        let xs = x.drop_first();
        let ys = y.drop_first();
        assert forall|e: FairnessV| xs.to_set().contains(e) implies ys.to_set().contains(e) by {
            let k = choose|k: int| 0 <= k < xs.len() && xs[k] == e;
            assert(x[k + 1] == e);
            assert(y.to_set().contains(e));
            let m = choose|m: int| 0 <= m < y.len() && y[m] == e;
            if m == 0 {
                assert(fairness_lt(x[0], x[k + 1]));
                lemma_fairness_lt_irreflexive(x[0]);
            }
            assert(ys[m - 1] == e);
        }
        assert forall|e: FairnessV| ys.to_set().contains(e) implies xs.to_set().contains(e) by {
            let k = choose|k: int| 0 <= k < ys.len() && ys[k] == e;
            assert(y[k + 1] == e);
            assert(x.to_set().contains(e));
            let m = choose|m: int| 0 <= m < x.len() && x[m] == e;
            if m == 0 {
                assert(fairness_lt(y[0], y[k + 1]));
                lemma_fairness_lt_irreflexive(y[0]);
            }
            assert(xs[m - 1] == e);
        }
        assert(xs.to_set() =~= ys.to_set());
        fairness_set_ignores_order(xs, ys);
        assert(x =~= y) by {
            assert forall|k: int| 0 <= k < x.len() implies x[k] == y[k] by {
                if k > 0 {
                    assert(x[k] == xs[k - 1]);
                    assert(y[k] == ys[k - 1]);
                }
            }
        }
    }
}

/// A sorted set of fairness assumptions.
#[derive(Clone, Debug, Default, PartialEq, Eq)]
pub struct FairnessSet(Vec<Fairness>);

impl View for FairnessSet {
    type V = Seq<FairnessV>;

    closed spec fn view(&self) -> Seq<FairnessV> {
        fairness_views(self.0@)
    }
}

fn fairness_less(a: &Fairness, b: &Fairness) -> (r: bool)
    ensures
        r == fairness_lt(a@, b@),
{
    if str_lt(a.action.as_str(), b.action.as_str()) {
        return true;
    }
    str_eq(a.action.as_str(), b.action.as_str()) && a.kind == FairnessKind::Weak && b.kind == FairnessKind::Strong
}

fn fairness_same(a: &Fairness, b: &Fairness) -> (r: bool)
    ensures
        r == (a@ == b@),
{
    str_eq(a.action.as_str(), b.action.as_str()) && a.kind == b.kind
}

proof fn lemma_fairness_order(a: FairnessV, b: FairnessV, c: FairnessV)
    ensures
        !fairness_lt(a, a),
        fairness_lt(a, b) && fairness_lt(b, c) ==> fairness_lt(a, c),
        a == b || fairness_lt(a, b) || fairness_lt(b, a),
{
    crate::text::lemma_seq_lt_irreflexive(a.action);
    crate::text::lemma_seq_lt_total(a.action, b.action);
    if seq_lt(a.action, b.action) && seq_lt(b.action, c.action) {
        crate::text::lemma_seq_lt_transitive(a.action, b.action, c.action);
    }
    if seq_lt(a.action, b.action) && seq_lt(b.action, a.action) {
        crate::text::lemma_seq_lt_transitive(a.action, b.action, a.action);
    }
    if seq_lt(b.action, c.action) && seq_lt(c.action, b.action) {
        crate::text::lemma_seq_lt_transitive(b.action, c.action, b.action);
    }
    crate::text::lemma_seq_lt_irreflexive(b.action);
}

impl FairnessSet {
    /// The set of `assumptions`, sorted, without duplicates.
    pub fn new(assumptions: Vec<Fairness>) -> (r: FairnessSet)
        ensures
            fairness_sorted(r@),
            r@.to_set() == fairness_views(assumptions@).to_set(),
    {
        let ghost av = fairness_views(assumptions@);
        let mut out: Vec<Fairness> = Vec::new();
        let mut i: usize = 0;
        while i < assumptions.len()
            invariant
                av == fairness_views(assumptions@),
                i <= assumptions@.len(),
                fairness_sorted(fairness_views(out@)),
                fairness_views(out@).to_set() == av.subrange(0, i as int).to_set(),
            decreases assumptions@.len() - i,
        {
            let f = &assumptions[i];
            let ghost ov = fairness_views(out@);
            let mut k: usize = 0;
            while k < out.len() && fairness_less(&out[k], f)
                invariant
                    ov == fairness_views(out@),
                    k <= out@.len(),
                    forall|j: int| 0 <= j < k ==> fairness_lt(#[trigger] ov[j], f@),
                decreases out@.len() - k,
            {
                k = k + 1;
            }
            proof {
                assert(av.subrange(0, i + 1) =~= av.subrange(0, i as int).push(f@));
                av.subrange(0, i as int).lemma_push_to_set_commute(f@);
            }
            if k < out.len() && fairness_same(&out[k], f) {
                proof {
                    assert(ov.contains(f@)) by {
                        assert(ov[k as int] == f@);
                    }
                    assert(ov.to_set().insert(f@) =~= ov.to_set());
                }
            } else {
                out.insert(k, f.copy());
                proof {
                    let nv = fairness_views(out@);
                    assert(nv =~= ov.insert(k as int, f@));
                    if k < ov.len() {
                        lemma_fairness_order(ov[k as int], f@, f@);
                    }
                    assert forall|a: int, b: int| 0 <= a < b < nv.len() implies fairness_lt(nv[a], nv[b]) by {
                        if b < k {
                        } else if a > k {
                            assert(nv[a] == ov[a - 1] && nv[b] == ov[b - 1]);
                        } else if a == k {
                            assert(nv[b] == ov[b - 1]);
                            if b - 1 > k {
                                lemma_fairness_order(f@, ov[k as int], ov[b - 1]);
                            }
                        } else if b == k {
                        } else {
                            assert(nv[b] == ov[b - 1]);
                            lemma_fairness_order(nv[a], f@, ov[k as int]);
                            if b - 1 > k {
                                lemma_fairness_order(nv[a], ov[k as int], ov[b - 1]);
                            }
                        }
                    }
                    assert forall|x: FairnessV| nv.to_set().contains(x) <==> ov.to_set().insert(f@).contains(x) by {
                        if ov.contains(x) {
                            let w = choose|w: int| 0 <= w < ov.len() && ov[w] == x;
                            if w < k {
                                assert(nv[w] == x);
                            } else {
                                assert(nv[w + 1] == x);
                            }
                        }
                        if x == f@ {
                            assert(nv[k as int] == x);
                        }
                        if nv.contains(x) {
                            let w = choose|w: int| 0 <= w < nv.len() && nv[w] == x;
                            if w < k {
                                assert(ov[w] == x);
                            } else if w > k {
                                assert(ov[w - 1] == x);
                            }
                        }
                    }
                    assert(nv.to_set() =~= ov.to_set().insert(f@));
                }
            }
            i = i + 1;
        }
        proof {
            assert(av.subrange(0, assumptions@.len() as int) =~= av);
        }
        FairnessSet(out)
    }

    pub fn assumptions(&self) -> (r: &Vec<Fairness>)
        ensures
            fairness_views(r@) == self@,
    {
        &self.0
    }
}

/// A deterministic ultimately-periodic behavior: a stem from a state to the
/// start of a loop, and the loop back to its start.
#[derive(Clone, Debug, PartialEq, Eq)]
pub struct Lasso {
    pub stem_states: Vec<StateId>,
    pub stem_transitions: Vec<TransitionId>,
    pub loop_states: Vec<StateId>,
    pub loop_transitions: Vec<TransitionId>,
}

/// Each transition leads from the state before it to the state after it.
pub open spec fn path_matches(g: GraphV, states: Seq<StateId>, ids: Seq<TransitionId>) -> bool {
    forall|i: int| 0 <= i < ids.len() ==> {
        &&& #[trigger] ids[i] < g.transitions.len()
        &&& g.transitions[ids[i] as int].from == states[i]
        &&& g.transitions[ids[i] as int].to == states[i + 1]
    }
}

/// A lasso of `g`: a nonempty stem, a loop of at least one step that
/// returns to its start, the stem ending where the loop starts, and every
/// transition in place.
pub open spec fn lasso_wf(g: GraphV, l: Lasso) -> bool {
    &&& l.stem_states@.len() > 0
    &&& l.loop_states@.len() >= 2
    &&& l.stem_states@.len() == l.stem_transitions@.len() + 1
    &&& l.loop_states@.len() == l.loop_transitions@.len() + 1
    &&& l.stem_states@.last() == l.loop_states@[0]
    &&& l.loop_states@[0] == l.loop_states@.last()
    &&& path_matches(g, l.stem_states@, l.stem_transitions@)
    &&& path_matches(g, l.loop_states@, l.loop_transitions@)
}

/// Some loop transition is the action `a`.
pub open spec fn loop_takes(g: GraphV, l: Lasso, a: Seq<char>) -> bool {
    exists|k: int| 0 <= k < l.loop_transitions@.len() && g.transitions[#[trigger] l.loop_transitions@[k] as int].kind == KindV::Action(a)
}

/// The loop satisfies every fairness assumption: a strongly fair action
/// enabled at some loop state, or a weakly fair action enabled at every
/// loop state, is taken in the loop.
pub open spec fn fair_loop(g: GraphV, fs: Seq<FairnessV>, l: Lasso) -> bool {
    forall|i: int| 0 <= i < fs.len() ==> match (#[trigger] fs[i]).kind {
        FairnessKind::Strong => (exists|j: int| 0 <= j < l.loop_states@.len() - 1 && enabled(g, #[trigger] l.loop_states@[j] as int, fs[i].action))
            ==> loop_takes(g, l, fs[i].action),
        FairnessKind::Weak => (forall|j: int| 0 <= j < l.loop_states@.len() - 1 ==> enabled(g, #[trigger] l.loop_states@[j] as int, fs[i].action))
            ==> loop_takes(g, l, fs[i].action),
    }
}

/// Every state of the lasso, from position `k` of the stem on, lies in the
/// graph and is unmarked.
pub open spec fn avoids_from(n: nat, marks: Seq<bool>, l: Lasso, k: int) -> bool {
    &&& forall|j: int| k <= j < l.stem_states@.len() ==> #[trigger] l.stem_states@[j] < n && !marks[l.stem_states@[j] as int]
    &&& forall|j: int| 0 <= j < l.loop_states@.len() ==> #[trigger] l.loop_states@[j] < n && !marks[l.loop_states@[j] as int]
}

fn path_matches_exec(graph: &FiniteGraph, states: &Vec<StateId>, ids: &Vec<TransitionId>) -> (r: bool)
    requires
        states@.len() == ids@.len() + 1,
    ensures
        r == path_matches(graph@, states@, ids@),
{
    let n = graph.transitions().len();
    let mut i: usize = 0;
    while i < ids.len()
        invariant
            n == graph@.transitions.len(),
            states@.len() == ids@.len() + 1,
            i <= ids@.len(),
            forall|j: int| 0 <= j < i ==> {
                &&& #[trigger] ids@[j] < graph@.transitions.len()
                &&& graph@.transitions[ids@[j] as int].from == states@[j]
                &&& graph@.transitions[ids@[j] as int].to == states@[j + 1]
            },
        decreases ids@.len() - i,
    {
        let id = ids[i];
        if id >= n {
            return false;
        }
        let t = graph.transition(id);
        if t.from != states[i] || t.to != states[i + 1] {
            return false;
        }
        i = i + 1;
    }
    true
}

impl Lasso {
    /// Whether this is a lasso of `graph`.
    pub fn is_well_formed(&self, graph: &FiniteGraph) -> (r: bool)
        ensures
            r == lasso_wf(graph@, *self),
    {
        if self.stem_states.len() == 0 || self.loop_states.len() < 2
            || self.stem_transitions.len() != self.stem_states.len() - 1
            || self.loop_transitions.len() != self.loop_states.len() - 1
            || self.stem_states[self.stem_states.len() - 1] != self.loop_states[0]
            || self.loop_states[0] != self.loop_states[self.loop_states.len() - 1]
        {
            return false;
        }
        path_matches_exec(graph, &self.stem_states, &self.stem_transitions)
            && path_matches_exec(graph, &self.loop_states, &self.loop_transitions)
    }

    /// The action of each loop transition, `None` for the identity stutter.
    pub fn loop_actions<'a>(&self, graph: &'a FiniteGraph) -> (r: Vec<Option<&'a str>>)
        requires
            forall|k: int| 0 <= k < self.loop_transitions@.len() ==> #[trigger] self.loop_transitions@[k] < graph@.transitions.len(),
        ensures
            r@.len() == self.loop_transitions@.len(),
            forall|k: int| 0 <= k < r@.len() ==> match graph@.transitions[#[trigger] self.loop_transitions@[k] as int].kind {
                KindV::Action(a) => r@[k] is Some && r@[k]->0@ == a,
                KindV::IdentityStutter => r@[k] is None,
            },
    {
        let mut out: Vec<Option<&'a str>> = Vec::new();
        let mut i: usize = 0;
        while i < self.loop_transitions.len()
            invariant
                i <= self.loop_transitions@.len(),
                forall|k: int| 0 <= k < self.loop_transitions@.len() ==> #[trigger] self.loop_transitions@[k] < graph@.transitions.len(),
                out@.len() == i,
                forall|k: int| 0 <= k < i ==> match graph@.transitions[#[trigger] self.loop_transitions@[k] as int].kind {
                    KindV::Action(a) => out@[k] is Some && out@[k]->0@ == a,
                    KindV::IdentityStutter => out@[k] is None,
                },
            decreases self.loop_transitions@.len() - i,
        {
            out.push(graph.transition(self.loop_transitions[i]).kind.action());
            i = i + 1;
        }
        out
    }
}

#[derive(Clone, Debug, PartialEq, Eq)]
pub enum CheckOutcome {
    Holds { explored_states: usize },
    Violated {
        explored_states: usize,
        /// For `always` and `leads_to`, the state at which the property fails.
        trigger: Option<StateId>,
        witness: Lasso,
    },
}

impl CheckOutcome {
    pub fn holds(&self) -> (r: bool)
        ensures
            r == (self is Holds),
    {
        match self {
            CheckOutcome::Holds { .. } => true,
            CheckOutcome::Violated { .. } => false,
        }
    }
}

/// The number of states marked in `marks`.
pub open spec fn count_marked(marks: Seq<bool>) -> nat
    decreases marks.len(),
{
    if marks.len() == 0 {
        0
    } else {
        count_marked(marks.drop_last()) + if marks.last() { 1nat } else { 0nat }
    }
}

/// The states reachable in `g`, as marks.
pub open spec fn reachable_marks(g: GraphV) -> Seq<bool> {
    Seq::new(g.states.len(), |v: int| reachable(g, v as StateId))
}

/// The negation of `marks`.
pub open spec fn negated(marks: Seq<bool>) -> Seq<bool> {
    marks.map_values(|b: bool| !b)
}

/// The outcome of checking `always` against the states marked as
/// satisfying the predicate: it holds when every reachable state is marked,
/// and otherwise fails at the least reachable unmarked state, by a stem from
/// an initial state to it, no longer than any walk there, and the identity
/// stutter there.
pub open spec fn always_outcome(g: GraphV, marks: Seq<bool>, r: CheckOutcome) -> bool {
    match r {
        CheckOutcome::Holds { explored_states } => explored_states == count_marked(reachable_marks(g))
            && forall|v: int| 0 <= v < g.states.len() && reachable(g, v as StateId) ==> marks[v],
        CheckOutcome::Violated { explored_states, trigger, witness } => {
            &&& explored_states == count_marked(reachable_marks(g))
            &&& trigger is Some
            &&& {
                let t = trigger->0;
                &&& t < g.states.len()
                &&& reachable(g, t)
                &&& !marks[t as int]
                &&& (forall|v: int| 0 <= v < t && reachable(g, v as StateId) ==> marks[v])
                &&& lasso_wf(g, witness)
                &&& g.initial.contains(witness.stem_states@[0])
                &&& witness.stem_states@.last() == t
                &&& forall|p: Seq<StateId>| #[trigger] crate::graph::walk_within(g, p, crate::graph::all_allowed(g.states.len()))
                    && g.initial.contains(p[0]) && p.last() == t ==> witness.stem_states@.len() <= p.len()
                &&& witness.loop_states@ == seq![t, t]
                &&& g.transitions[witness.loop_transitions@[0] as int].kind == KindV::IdentityStutter
            }
        },
    }
}

/// A counterexample to `eventually` against the states marked as goals: a
/// fair lasso from an initial state that never visits a goal.
pub open spec fn eventually_counterexample(g: GraphV, fs: Seq<FairnessV>, goal: Seq<bool>, witness: Lasso) -> bool {
    &&& lasso_wf(g, witness)
    &&& g.initial.contains(witness.stem_states@[0])
    &&& avoids_from(g.states.len(), goal, witness, 0)
    &&& fair_loop(g, fs, witness)
}

/// A counterexample to `leads_to` at `t`: a fair lasso from an initial
/// state through `t`, where the antecedent holds and the consequent does not,
/// never meeting the consequent from `t` on.
pub open spec fn leads_to_counterexample(g: GraphV, fs: Seq<FairnessV>, antecedent: Seq<bool>, consequent: Seq<bool>, t: StateId, witness: Lasso) -> bool {
    &&& t < g.states.len()
    &&& reachable(g, t)
    &&& antecedent[t as int]
    &&& !consequent[t as int]
    &&& lasso_wf(g, witness)
    &&& g.initial.contains(witness.stem_states@[0])
    &&& exists|k: int| 0 <= k < witness.stem_states@.len() && witness.stem_states@[k] == t && avoids_from(g.states.len(), consequent, witness, k)
    &&& fair_loop(g, fs, witness)
}

/// Temporal checking over the identity-stutter closure of a graph.
pub struct TemporalChecker {
    graph: FiniteGraph,
    fairness: FairnessSet,
}

pub struct TemporalCheckerV {
    pub graph: GraphV,
    pub fairness: Seq<FairnessV>,
}

/// Every state of `g` has its identity stutter.
pub open spec fn stutter_complete(g: GraphV) -> bool {
    forall|s: StateId| s < g.states.len() ==> #[trigger] g.transitions.to_set().contains(crate::graph::TransitionV { from: s, to: s, kind: KindV::IdentityStutter })
}

impl TemporalChecker {
    #[verifier::type_invariant]
    closed spec fn closed_under_stutter(&self) -> bool {
        stutter_complete(self.graph@)
    }
}

impl View for TemporalChecker {
    type V = TemporalCheckerV;

    closed spec fn view(&self) -> TemporalCheckerV {
        TemporalCheckerV { graph: self.graph@, fairness: self.fairness@ }
    }
}

/// Marks the states of `list` among `n` states.
fn marks_of(list: &Vec<StateId>, n: usize) -> (r: Vec<bool>)
    ensures
        r@.len() == n,
        forall|v: int| 0 <= v < n ==> r@[v] == list@.contains(v as StateId),
{
    let mut r: Vec<bool> = Vec::new();
    let mut i: usize = 0;
    while i < n
        invariant
            i <= n,
            r@.len() == i,
            forall|v: int| 0 <= v < i ==> r@[v] == list@.contains(v as StateId),
        decreases n - i,
    {
        let mut found = false;
        let mut k: usize = 0;
        while k < list.len()
            invariant
                k <= list@.len(),
                found == exists|j: int| 0 <= j < k && list@[j] == i,
            decreases list@.len() - k,
        {
            if list[k] == i {
                found = true;
            }
            k = k + 1;
        }
        r.push(found);
        i = i + 1;
    }
    r
}

/// Counts the marked entries.
fn count_true(marks: &Vec<bool>) -> (r: usize)
    ensures
        r == count_marked(marks@),
{
    let mut c: usize = 0;
    let mut i: usize = 0;
    while i < marks.len()
        invariant
            i <= marks@.len(),
            c == count_marked(marks@.subrange(0, i as int)),
            c <= i,
        decreases marks@.len() - i,
    {
        proof {
            assert(marks@.subrange(0, i + 1).drop_last() =~= marks@.subrange(0, i as int));
        }
        if marks[i] {
            c = c + 1;
        }
        i = i + 1;
    }
    proof {
        assert(marks@.subrange(0, marks@.len() as int) =~= marks@);
    }
    c
}

impl TemporalChecker {
    pub fn new(graph: &FiniteGraph, fairness: FairnessSet) -> (r: TemporalChecker)
        ensures
            r@.graph.states == graph@.states,
            r@.graph.initial == graph@.initial,
            r@.graph.transitions.to_set() == graph@.transitions.to_set() + crate::graph::stutter_set(graph@.states.len()),
            r@.fairness == fairness@,
    {
        let closed = graph.stutter_closed();
        proof {
            assert forall|s: StateId| s < closed@.states.len() implies #[trigger] closed@.transitions.to_set().contains(crate::graph::TransitionV { from: s, to: s, kind: KindV::IdentityStutter }) by {
                assert(crate::graph::stutter_set(graph@.states.len()).contains(crate::graph::TransitionV { from: s, to: s, kind: KindV::IdentityStutter }));
            }
        }
        TemporalChecker { graph: closed, fairness }
    }

    /// The identity-stutter closure that the checks run on.
    pub fn graph(&self) -> (r: &FiniteGraph)
        ensures
            r@ == self@.graph,
    {
        &self.graph
    }

    pub fn fairness(&self) -> (r: &FairnessSet)
        ensures
            r@ == self@.fairness,
    {
        &self.fairness
    }

    /// The model state the checker stores at index `i`.
    pub closed spec fn model_state(&self, i: int) -> ModelState {
        self.graph.model_state(i)
    }

    /// Evaluates `predicate` at every state.
    fn evaluate<P: Fn(&ModelState) -> bool>(&self, predicate: &P) -> (r: Vec<bool>)
        requires
            forall|s: &ModelState| predicate.requires((s,)),
        ensures
            r@.len() == self@.graph.states.len(),
            forall|i: int| 0 <= i < r@.len() ==> call_ensures(*predicate, (&self.model_state(i),), #[trigger] r@[i]),
    {
        let n = self.graph.state_count();
        let mut marks: Vec<bool> = Vec::new();
        let mut i: usize = 0;
        while i < n
            invariant
                n == self.graph@.states.len(),
                i <= n,
                marks@.len() == i,
                forall|s: &ModelState| predicate.requires((s,)),
                forall|j: int| 0 <= j < i ==> call_ensures(*predicate, (&self.model_state(j),), #[trigger] marks@[j]),
            decreases n - i,
        {
            let b = predicate(self.graph.state(i));
            marks.push(b);
            i = i + 1;
        }
        marks
    }

    /// Checks `always predicate` on every infinite behavior. Every state has
    /// the identity stutter, so a reachable violating state extends to a
    /// lasso, an initial one with an empty stem.
    pub fn always<P: Fn(&ModelState) -> bool>(&self, predicate: P) -> (r: CheckOutcome)
        requires
            forall|s: &ModelState| predicate.requires((s,)),
        ensures
            exists|marks: Seq<bool>| marks.len() == self@.graph.states.len()
                && (forall|i: int| 0 <= i < marks.len() ==> call_ensures(predicate, (&self.model_state(i),), #[trigger] marks[i]))
                && always_outcome(self@.graph, marks, r),
    {
        let marks = self.evaluate(&predicate);
        self.always_marks(&marks)
    }

    /// Checks `always` against the states marked in `holds`.
    pub fn always_marks(&self, holds: &Vec<bool>) -> (r: CheckOutcome)
        requires
            holds@.len() == self@.graph.states.len(),
        ensures
            always_outcome(self@.graph, holds@, r),
    {
        proof {
            use_type_invariant(&self.graph);
        }
        let ghost g = self.graph@;
        let n = self.graph.state_count();
        let reachable_list = self.graph.reachable_states();
        let reach = marks_of(&reachable_list, n);
        let explored_states = count_true(&reach);
        proof {
            assert(reach@ =~= reachable_marks(g));
        }
        let mut v: usize = 0;
        while v < n
            invariant
                n == g.states.len(),
                v <= n,
                reach@ == reachable_marks(g),
                holds@.len() == n,
                forall|x: int| 0 <= x < v && reachable(g, x as StateId) ==> holds@[x],
            decreases n - v,
        {
            if reach[v] && !holds[v] {
                break;
            }
            v = v + 1;
        }
        if v == n {
            return CheckOutcome::Holds { explored_states };
        }
        let violating = v;
        let all = crate::temporal::all_true(n);
        let path = self.graph.shortest_path(self.graph.initial_states(), violating, &all);
        proof {
            assert(all@ =~= crate::graph::all_allowed(n as nat));
        }
        let (stem_states, stem_transitions) = match path {
            Some(p) => p,
            None => {
                proof {
                    assert(false);
                }
                return CheckOutcome::Holds { explored_states };
            },
        };
        let stutter = self.find_stutter(violating);
        let mut loop_states: Vec<StateId> = Vec::new();
        loop_states.push(violating);
        loop_states.push(violating);
        let mut loop_transitions: Vec<TransitionId> = Vec::new();
        loop_transitions.push(stutter);
        let witness = Lasso { stem_states, stem_transitions, loop_states, loop_transitions };
        proof {
            assert(witness.loop_states@ =~= seq![violating, violating]);
            assert forall|i: int| 0 <= i < witness.stem_transitions@.len() implies {
                &&& #[trigger] witness.stem_transitions@[i] < g.transitions.len()
                &&& g.transitions[witness.stem_transitions@[i] as int].from == witness.stem_states@[i]
                &&& g.transitions[witness.stem_transitions@[i] as int].to == witness.stem_states@[i + 1]
            } by {}
        }
        CheckOutcome::Violated { explored_states, trigger: Some(violating), witness }
    }

    /// The first identity stutter leaving `state`.
    fn find_stutter(&self, state: StateId) -> (r: TransitionId)
        requires
            state < self@.graph.states.len(),
        ensures
            r < self@.graph.transitions.len() && self@.graph.transitions[r as int].from == state
                && self@.graph.transitions[r as int].to == state && self@.graph.transitions[r as int].kind == KindV::IdentityStutter,
    {
        proof {
            use_type_invariant(&self.graph);
            use_type_invariant(self);
        }
        let ghost g = self.graph@;
        let out = self.graph.outgoing_ids(state);
        let mut k: usize = 0;
        while k < out.len()
            invariant
                g == self.graph@,
                graph_wf(g),
                stutter_complete(g),
                state < g.states.len(),
                out@ == g.outgoing[state as int],
                k <= out@.len(),
                forall|j: int| 0 <= j < k ==> g.transitions[#[trigger] out@[j] as int] != (crate::graph::TransitionV { from: state, to: state, kind: KindV::IdentityStutter }),
            decreases out@.len() - k,
        {
            let t = self.graph.transition(out[k]);
            if t.from == state && t.to == state && t.kind.action().is_none() {
                return out[k];
            }
            k = k + 1;
        }
        proof {
            let st = crate::graph::TransitionV { from: state, to: state, kind: KindV::IdentityStutter };
            assert(g.transitions.to_set().contains(st));
            let i = choose|i: int| 0 <= i < g.transitions.len() && g.transitions[i] == st;
            assert(g.outgoing[g.transitions[i].from as int].contains(i as usize));
            let j = choose|j: int| 0 <= j < out@.len() && out@[j] == i as usize;
            assert(g.transitions[out@[j] as int] == st);
            assert(false);
        }
        0
    }
}

/// `n` marks, all set.
pub fn all_true(n: usize) -> (r: Vec<bool>)
    ensures
        r@.len() == n,
        forall|i: int| 0 <= i < n ==> r@[i],
{
    let mut r: Vec<bool> = Vec::new();
    let mut i: usize = 0;
    while i < n
        invariant
            i <= n,
            r@.len() == i,
            forall|k: int| 0 <= k < i ==> r@[k],
        decreases n - i,
    {
        r.push(true);
        i = i + 1;
    }
    r
}


/// A strictly increasing list of states is shorter than a strictly
/// increasing list that holds all of its states and one more.
proof fn lemma_strict_subset_shorter(a: Seq<StateId>, b: Seq<StateId>, e: StateId)
    requires
        strictly_increasing(a),
        strictly_increasing(b),
        b.contains(e),
        !a.contains(e),
        forall|x: StateId| a.contains(x) ==> b.contains(x),
    ensures
        a.len() < b.len(),
{
    assert(a.no_duplicates()) by {
        assert forall|i: int, j: int| 0 <= i < a.len() && 0 <= j < a.len() && i != j implies a[i] != a[j] by {
            if i < j {
                assert(a[i] < a[j]);
            } else {
                assert(a[j] < a[i]);
            }
        }
    }
    assert(b.no_duplicates()) by {
        assert forall|i: int, j: int| 0 <= i < b.len() && 0 <= j < b.len() && i != j implies b[i] != b[j] by {
            if i < j {
                assert(b[i] < b[j]);
            } else {
                assert(b[j] < b[i]);
            }
        }
    }
    a.unique_seq_to_set();
    b.unique_seq_to_set();
    let bs = b.to_set().remove(e);
    assert(a.to_set().subset_of(bs));
    vstd::set_lib::lemma_len_subset(a.to_set(), bs);
    vstd::set::axiom_set_remove_len(b.to_set(), e);
    assert(b.to_set().contains(e));
}

/// The loop of a lasso is fair exactly when it is a fair cycle.
proof fn lemma_fair_loop_cycle(g: GraphV, fs: Seq<FairnessV>, l: Lasso)
    ensures
        fair_loop(g, fs, l) == cycle_fair(g, fs, l.loop_states@, l.loop_transitions@),
{
    assert forall|a: Seq<char>| loop_takes(g, l, a) == crate::fair_cycle::cycle_takes(g, l.loop_transitions@, a) by {}
}

/// Where a lasso's states from stem position `k` on are allowed, its loop
/// is a cycle through states that the stem state at `k` reaches through
/// allowed states.
proof fn lemma_lasso_loop_reached(g: GraphV, l: Lasso, k: int, allowed: Seq<bool>)
    requires
        lasso_wf(g, l),
        allowed.len() == g.states.len(),
        0 <= k < l.stem_states@.len(),
        forall|j: int| k <= j < l.stem_states@.len() ==> #[trigger] l.stem_states@[j] < g.states.len() && allowed[l.stem_states@[j] as int],
        forall|j: int| 0 <= j < l.loop_states@.len() ==> #[trigger] l.loop_states@[j] < g.states.len() && allowed[l.loop_states@[j] as int],
    ensures
        cycle_within(g, l.loop_states@, l.loop_transitions@,
            Seq::new(g.states.len(), |v: int| reaches_within(g, seq![l.stem_states@[k]], allowed, v as StateId))),
{
    let st = l.stem_states@;
    let ls = l.loop_states@;
    let a = st.subrange(k, st.len() as int);
    assert forall|j: int| 0 <= j < a.len() implies #[trigger] a[j] < g.states.len() && allowed[a[j] as int] by {
        assert(a[j] == st[k + j]);
    }
    assert forall|j: int| 0 <= j < a.len() - 1 implies crate::graph::step(g, #[trigger] a[j] as int, a[j + 1] as int) by {
        let i = k + j;
        assert(a[j] == st[i] && a[j + 1] == st[i + 1]);
        assert(l.stem_transitions@[i] < g.transitions.len());
    }
    assert(crate::graph::walk_within(g, a, allowed));
    assert(cycle(g, ls, l.loop_transitions@));
    assert(cycle_within(g, ls, l.loop_transitions@, allowed));
    crate::fair_cycle::lemma_cycle_walk(g, ls, l.loop_transitions@, allowed);
    assert(a.last() == ls[0]);
    lemma_walk_join(g, a, ls, allowed);
    let b = a + ls.subrange(1, ls.len() as int);
    let marks = Seq::new(g.states.len(), |v: int| reaches_within(g, seq![st[k]], allowed, v as StateId));
    assert forall|j: int| 0 <= j < ls.len() implies #[trigger] ls[j] < g.states.len() && marks[ls[j] as int] by {
        let idx = a.len() - 1 + j;
        if j == 0 {
            assert(b[idx] == a.last());
        } else {
            assert(b[idx] == ls[j]);
        }
        lemma_walk_reaches(g, b, allowed, idx);
        assert(b[0] == st[k]);
    }
}

/// The path `a` followed by the path `b`, which starts where `a` ends.
fn join_paths(a_states: Vec<StateId>, a_ids: Vec<TransitionId>, b_states: &Vec<StateId>, b_ids: &Vec<TransitionId>)
    -> (r: (Vec<StateId>, Vec<TransitionId>))
    requires
        a_states@.len() == a_ids@.len() + 1,
        b_states@.len() == b_ids@.len() + 1,
        a_states@.last() == b_states@[0],
    ensures
        r.0@ == a_states@ + b_states@.subrange(1, b_states@.len() as int),
        r.1@ == a_ids@ + b_ids@,
{
    let mut states = a_states;
    let mut ids = a_ids;
    let ghost s0 = states@;
    let ghost i0 = ids@;
    let mut j: usize = 1;
    while j < b_states.len()
        invariant
            1 <= j <= b_states@.len(),
            b_states@.len() == b_ids@.len() + 1,
            states@ == s0 + b_states@.subrange(1, j as int),
            ids@ == i0 + b_ids@.subrange(0, j - 1),
        decreases b_states@.len() - j,
    {
        states.push(b_states[j]);
        ids.push(b_ids[j - 1]);
        proof {
            assert(states@ =~= s0 + b_states@.subrange(1, j + 1));
            assert(ids@ =~= i0 + b_ids@.subrange(0, j as int));
        }
        j = j + 1;
    }
    proof {
        assert(ids@ =~= i0 + b_ids@);
    }
    (states, ids)
}

/// A state reached through allowed states is allowed.
proof fn lemma_reached_allowed(g: GraphV, starts: Seq<StateId>, allowed: Seq<bool>, x: StateId)
    requires
        reaches_within(g, starts, allowed, x),
    ensures
        x < g.states.len(),
        allowed[x as int],
{
    let p = choose|p: Seq<StateId>| #[trigger] crate::graph::walk_within(g, p, allowed) && starts.contains(p[0]) && p.last() == x;
    assert(p[p.len() - 1] == x);
}

/// Reaching from one of the starts is reaching from the starts.
proof fn lemma_reached_from_one(g: GraphV, starts: Seq<StateId>, allowed: Seq<bool>, s0: StateId, x: StateId)
    requires
        reaches_within(g, seq![s0], allowed, x),
        starts.contains(s0),
    ensures
        reaches_within(g, starts, allowed, x),
{
    let p = choose|p: Seq<StateId>| #[trigger] crate::graph::walk_within(g, p, allowed) && seq![s0].contains(p[0]) && p.last() == x;
    assert(p[0] == s0);
}

/// A walk through allowed states from one of `starts` passes only states
/// that such a walk reaches.
proof fn lemma_walk_within_reached(g: GraphV, starts: Seq<StateId>, allowed: Seq<bool>, p: Seq<StateId>)
    requires
        crate::graph::walk_within(g, p, allowed),
        starts.contains(p[0]),
    ensures
        crate::graph::walk_within(g, p, Seq::new(g.states.len(), |v: int| reaches_within(g, starts, allowed, v as StateId))),
{
    let marks = Seq::new(g.states.len(), |v: int| reaches_within(g, starts, allowed, v as StateId));
    assert forall|i: int| 0 <= i < p.len() implies #[trigger] p[i] < g.states.len() && marks[p[i] as int] by {
        let q = p.subrange(0, i + 1);
        assert(q[0] == p[0]);
        assert(q.last() == p[i]);
        assert forall|j: int| 0 <= j < q.len() - 1 implies crate::graph::step(g, #[trigger] q[j] as int, q[j + 1] as int) by {
            assert(q[j] == p[j] && q[j + 1] == p[j + 1]);
        }
        assert(crate::graph::walk_within(g, q, allowed));
    }
}

impl TemporalChecker {
    /// The states allowed in `allowed` that reach `s` and that `s` reaches,
    /// through allowed states, in increasing order.
    fn component_of(&self, s: StateId, allowed: &Vec<bool>) -> (r: Vec<StateId>)
        requires
            s < self@.graph.states.len(),
            allowed@.len() == self@.graph.states.len(),
        ensures
            strictly_increasing(r@),
            forall|i: int| 0 <= i < r@.len() ==> #[trigger] r@[i] < allowed@.len() && allowed@[r@[i] as int],
    {
        let n = self.graph.state_count();
        let mut start: Vec<StateId> = Vec::new();
        start.push(s);
        let forward = self.graph.reach_within(&start, allowed);
        let mut out: Vec<StateId> = Vec::new();
        let mut t: usize = 0;
        while t < n
            invariant
                n == self@.graph.states.len(),
                allowed@.len() == n,
                forward@.len() == n,
                t <= n,
                s < n,
                strictly_increasing(out@),
                forall|i: int| 0 <= i < out@.len() ==> #[trigger] out@[i] < t && allowed@[out@[i] as int],
            decreases n - t,
        {
            if forward[t] && allowed[t] {
                let mut back_start: Vec<StateId> = Vec::new();
                back_start.push(t);
                let back = self.graph.reach_within(&back_start, allowed);
                if back[s] {
                    out.push(t);
                }
            }
            t = t + 1;
        }
        out
    }

    /// The strongly connected components of the allowed states, ordered by
    /// their least state; each is strictly increasing.
    fn components(&self, allowed: &Vec<bool>) -> (r: Vec<Vec<StateId>>)
        requires
            allowed@.len() == self@.graph.states.len(),
        ensures
            forall|c: int| 0 <= c < r@.len() ==> strictly_increasing(#[trigger] r@[c]@)
                && forall|i: int| 0 <= i < r@[c]@.len() ==> #[trigger] r@[c]@[i] < allowed@.len() && allowed@[r@[c]@[i] as int],
    {
        let n = self.graph.state_count();
        let mut assigned: Vec<bool> = Vec::new();
        let mut i: usize = 0;
        while i < n
            invariant
                i <= n,
                assigned@.len() == i,
            decreases n - i,
        {
            assigned.push(false);
            i = i + 1;
        }
        let mut out: Vec<Vec<StateId>> = Vec::new();
        let mut s: usize = 0;
        while s < n
            invariant
                n == self@.graph.states.len(),
                allowed@.len() == n,
                assigned@.len() == n,
                s <= n,
                forall|c: int| 0 <= c < out@.len() ==> strictly_increasing(#[trigger] out@[c]@)
                    && forall|i: int| 0 <= i < out@[c]@.len() ==> #[trigger] out@[c]@[i] < allowed@.len() && allowed@[out@[c]@[i] as int],
            decreases n - s,
        {
            if allowed[s] && !assigned[s] {
                let comp = self.component_of(s, allowed);
                let mut k: usize = 0;
                while k < comp.len()
                    invariant
                        assigned@.len() == n,
                        k <= comp@.len(),
                        forall|i: int| 0 <= i < comp@.len() ==> #[trigger] comp@[i] < n,
                    decreases comp@.len() - k,
                {
                    assigned.set(comp[k], true);
                    k = k + 1;
                }
                out.push(comp);
            }
            s = s + 1;
        }
        out
    }

    /// A component with more than one state, or whose state has a self-loop.
    fn is_cyclic(&self, component: &Vec<StateId>) -> (r: bool)
        requires
            forall|i: int| 0 <= i < component@.len() ==> #[trigger] component@[i] < self@.graph.states.len(),
    {
        if component.len() > 1 {
            return true;
        }
        if component.len() == 0 {
            return false;
        }
        proof {
            use_type_invariant(&self.graph);
        }
        let s = component[0];
        let out = self.graph.outgoing_ids(s);
        let mut k: usize = 0;
        while k < out.len()
            invariant
                graph_wf(self@.graph),
                s < self@.graph.states.len(),
                out@ == self@.graph.outgoing[s as int],
                k <= out@.len(),
            decreases out@.len() - k,
        {
            if self.graph.transition(out[k]).to == s {
                return true;
            }
            k = k + 1;
        }
        false
    }

    /// Whether `state` is in the strictly increasing `component`.
    fn member(component: &Vec<StateId>, state: StateId) -> (r: bool)
        ensures
            r == component@.contains(state),
    {
        let mut i: usize = 0;
        while i < component.len()
            invariant
                i <= component@.len(),
                forall|j: int| 0 <= j < i ==> component@[j] != state,
            decreases component@.len() - i,
        {
            if component[i] == state {
                return true;
            }
            i = i + 1;
        }
        false
    }

    /// The transitions of the action `action` between states of `component`,
    /// by source state and then by identifier.
    fn internal_action_edges(&self, component: &Vec<StateId>, action: &str) -> (r: Vec<TransitionId>)
        requires
            forall|i: int| 0 <= i < component@.len() ==> #[trigger] component@[i] < self@.graph.states.len(),
        ensures
            forall|i: int| 0 <= i < r@.len() ==> #[trigger] r@[i] < self@.graph.transitions.len()
                && component@.contains(self@.graph.transitions[r@[i] as int].from)
                && component@.contains(self@.graph.transitions[r@[i] as int].to),
    {
        proof {
            use_type_invariant(&self.graph);
        }
        let ghost g = self@.graph;
        let mut edges: Vec<TransitionId> = Vec::new();
        let mut i: usize = 0;
        while i < component.len()
            invariant
                g == self@.graph,
                graph_wf(g),
                i <= component@.len(),
                forall|x: int| 0 <= x < component@.len() ==> #[trigger] component@[x] < g.states.len(),
                forall|x: int| 0 <= x < edges@.len() ==> #[trigger] edges@[x] < g.transitions.len()
                    && component@.contains(g.transitions[edges@[x] as int].from)
                    && component@.contains(g.transitions[edges@[x] as int].to),
            decreases component@.len() - i,
        {
            let s = component[i];
            let out = self.graph.outgoing_ids(s);
            let mut k: usize = 0;
            while k < out.len()
                invariant
                    g == self@.graph,
                    graph_wf(g),
                    i < component@.len(),
                    s == component@[i as int],
                    s < g.states.len(),
                    out@ == g.outgoing[s as int],
                    k <= out@.len(),
                    forall|x: int| 0 <= x < edges@.len() ==> #[trigger] edges@[x] < g.transitions.len()
                        && component@.contains(g.transitions[edges@[x] as int].from)
                        && component@.contains(g.transitions[edges@[x] as int].to),
                decreases out@.len() - k,
            {
                let id = out[k];
                let t = self.graph.transition(id);
                if TemporalChecker::member(component, t.to) && t.kind.is_action(action) {
                    proof {
                        assert(g.transitions[id as int].from == s);
                        assert(component@.contains(s)) by {
                            assert(component@[i as int] == s);
                        }
                    }
                    edges.push(id);
                }
                k = k + 1;
            }
            i = i + 1;
        }
        edges
    }

    /// Splits `component` until each part admits a fair cycle, and appends
    /// the parts that do to `output`.
    fn refine_for_strong_fairness(&self, component: Vec<StateId>, output: &mut Vec<Vec<StateId>>)
        requires
            strictly_increasing(component@),
            forall|i: int| 0 <= i < component@.len() ==> #[trigger] component@[i] < self@.graph.states.len(),
            forall|c: int| 0 <= c < old(output)@.len() ==> strictly_increasing(#[trigger] old(output)@[c]@)
                && forall|i: int| 0 <= i < old(output)@[c]@.len() ==> #[trigger] old(output)@[c]@[i] < self@.graph.states.len(),
        ensures
            forall|c: int| 0 <= c < final(output)@.len() ==> strictly_increasing(#[trigger] final(output)@[c]@)
                && forall|i: int| 0 <= i < final(output)@[c]@.len() ==> #[trigger] final(output)@[c]@[i] < self@.graph.states.len(),
        decreases component@.len(),
    {
        if !self.is_cyclic(&component) {
            return;
        }
        let n = self.graph.state_count();
        let assumptions = self.fairness.assumptions();
        let mut f: usize = 0;
        while f < assumptions.len()
            invariant
                n == self@.graph.states.len(),
                f <= assumptions@.len(),
                strictly_increasing(component@),
                forall|i: int| 0 <= i < component@.len() ==> #[trigger] component@[i] < n,
                forall|c: int| 0 <= c < output@.len() ==> strictly_increasing(#[trigger] output@[c]@)
                    && forall|i: int| 0 <= i < output@[c]@.len() ==> #[trigger] output@[c]@[i] < n,
            decreases assumptions@.len() - f,
        {
            let fairness = &assumptions[f];
            if fairness.kind == FairnessKind::Strong {
                let mut remaining: Vec<bool> = Vec::new();
                let mut i: usize = 0;
                while i < n
                    invariant
                        i <= n,
                        remaining@.len() == i,
                        forall|x: int| 0 <= x < i ==> !remaining@[x],
                    decreases n - i,
                {
                    remaining.push(false);
                    i = i + 1;
                }
                let mut any_enabled = false;
                let mut witness: StateId = 0;
                let mut i: usize = 0;
                while i < component.len()
                    invariant
                        n == self@.graph.states.len(),
                        remaining@.len() == n,
                        i <= component@.len(),
                        forall|x: int| 0 <= x < component@.len() ==> #[trigger] component@[x] < n,
                        strictly_increasing(component@),
                        forall|x: int| 0 <= x < n && remaining@[x] ==> exists|j: int| 0 <= j < i && component@[j] == x as StateId,
                        any_enabled ==> component@.contains(witness) && !remaining@[witness as int],
                    decreases component@.len() - i,
                {
                    let s = component[i];
                    proof {
                        assert forall|j: int| 0 <= j < i implies component@[j] != s by {
                            assert(component@[j] < component@[i as int]);
                        }
                    }
                    if self.graph.action_enabled(s, fairness.action.as_str()) {
                        if !any_enabled {
                            any_enabled = true;
                            witness = s;
                            proof {
                                assert(component@[i as int] == s);
                                assert(!remaining@[s as int]);
                            }
                        }
                    } else {
                        if !(any_enabled && s == witness) {
                            remaining.set(s, true);
                            proof {
                                assert(component@[i as int] == s);
                            }
                        }
                    }
                    i = i + 1;
                }
                proof {
                    assert forall|x: int| 0 <= x < n && remaining@[x] implies component@.contains(x as StateId) by {
                        let j = choose|j: int| 0 <= j < component@.len() && component@[j] == x as StateId;
                    }
                }
                if any_enabled {
                    let internal = self.internal_action_edges(&component, fairness.action.as_str());
                    if internal.len() == 0 {
                        let parts = self.components(&remaining);
                        let mut p: usize = 0;
                        while p < parts.len()
                            invariant
                                n == self@.graph.states.len(),
                                remaining@.len() == n,
                                strictly_increasing(component@),
                                component@.contains(witness),
                                !remaining@[witness as int],
                                forall|x: int| 0 <= x < n && remaining@[x] ==> component@.contains(x as StateId),
                                forall|c: int| 0 <= c < parts@.len() ==> strictly_increasing(#[trigger] parts@[c]@)
                                    && forall|i: int| 0 <= i < parts@[c]@.len() ==> #[trigger] parts@[c]@[i] < remaining@.len() && remaining@[parts@[c]@[i] as int],
                                p <= parts@.len(),
                                forall|c: int| 0 <= c < output@.len() ==> strictly_increasing(#[trigger] output@[c]@)
                                    && forall|i: int| 0 <= i < output@[c]@.len() ==> #[trigger] output@[c]@[i] < n,
                            decreases parts@.len() - p,
                        {
                            let part = parts[p].clone();
                            proof {
                                let a = part@;
                                assert(a == parts@[p as int]@);
                                assert forall|x: StateId| a.contains(x) implies component@.contains(x) by {
                                    let w = choose|w: int| 0 <= w < a.len() && a[w] == x;
                                    assert(remaining@[a[w] as int]);
                                }
                                assert(!a.contains(witness)) by {
                                    if a.contains(witness) {
                                        let w = choose|w: int| 0 <= w < a.len() && a[w] == witness;
                                        assert(remaining@[a[w] as int]);
                                    }
                                }
                                lemma_strict_subset_shorter(a, component@, witness);
                            }
                            self.refine_for_strong_fairness(part, output);
                            p = p + 1;
                        }
                        return;
                    }
                }
            }
            f = f + 1;
        }
        let mut f: usize = 0;
        while f < assumptions.len()
            invariant
                n == self@.graph.states.len(),
                f <= assumptions@.len(),
                forall|i: int| 0 <= i < component@.len() ==> #[trigger] component@[i] < n,
            decreases assumptions@.len() - f,
        {
            let fairness = &assumptions[f];
            if fairness.kind == FairnessKind::Weak {
                let mut everywhere = true;
                let mut i: usize = 0;
                while i < component.len()
                    invariant
                        n == self@.graph.states.len(),
                        i <= component@.len(),
                        forall|x: int| 0 <= x < component@.len() ==> #[trigger] component@[x] < n,
                    decreases component@.len() - i,
                {
                    if !self.graph.action_enabled(component[i], fairness.action.as_str()) {
                        everywhere = false;
                    }
                    i = i + 1;
                }
                if everywhere && self.internal_action_edges(&component, fairness.action.as_str()).len() == 0 {
                    return;
                }
            }
            f = f + 1;
        }
        output.push(component);
    }

    /// The fair component with the least first state, if any.
    fn first_fair_component(&self, allowed: &Vec<bool>) -> (r: Option<Vec<StateId>>)
        requires
            allowed@.len() == self@.graph.states.len(),
        ensures
            r matches Some(c) ==> c@.len() > 0 && strictly_increasing(c@) && forall|i: int| 0 <= i < c@.len() ==> #[trigger] c@[i] < self@.graph.states.len(),
    {
        let comps = self.components(allowed);
        let mut candidates: Vec<Vec<StateId>> = Vec::new();
        let mut i: usize = 0;
        while i < comps.len()
            invariant
                allowed@.len() == self@.graph.states.len(),
                i <= comps@.len(),
                forall|c: int| 0 <= c < comps@.len() ==> strictly_increasing(#[trigger] comps@[c]@)
                    && forall|k: int| 0 <= k < comps@[c]@.len() ==> #[trigger] comps@[c]@[k] < allowed@.len() && allowed@[comps@[c]@[k] as int],
                forall|c: int| 0 <= c < candidates@.len() ==> strictly_increasing(#[trigger] candidates@[c]@)
                    && forall|k: int| 0 <= k < candidates@[c]@.len() ==> #[trigger] candidates@[c]@[k] < self@.graph.states.len(),
            decreases comps@.len() - i,
        {
            let comp = comps[i].clone();
            proof {
                assert(comp@ == comps@[i as int]@);
            }
            self.refine_for_strong_fairness(comp, &mut candidates);
            i = i + 1;
        }
        let mut best: Option<usize> = None;
        let mut c: usize = 0;
        while c < candidates.len()
            invariant
                c <= candidates@.len(),
                best matches Some(b) ==> b < candidates@.len() && candidates@[b as int]@.len() > 0,
            decreases candidates@.len() - c,
        {
            if candidates[c].len() > 0 {
                match best {
                    None => {
                        best = Some(c);
                    },
                    Some(b) => {
                        if candidates[c][0] < candidates[b][0] {
                            best = Some(c);
                        }
                    },
                }
            }
            c = c + 1;
        }
        match best {
            Some(b) => {
                let chosen = candidates[b].clone();
                proof {
                    assert(chosen@ == candidates@[b as int]@);
                }
                Some(chosen)
            },
            None => None,
        }
    }

    /// Marks the states of `component`.
    fn component_marks(&self, component: &Vec<StateId>) -> (r: Vec<bool>)
        requires
            forall|i: int| 0 <= i < component@.len() ==> #[trigger] component@[i] < self@.graph.states.len(),
        ensures
            r@.len() == self@.graph.states.len(),
    {
        let n = self.graph.state_count();
        let mut marks: Vec<bool> = Vec::new();
        let mut i: usize = 0;
        while i < n
            invariant
                i <= n,
                marks@.len() == i,
            decreases n - i,
        {
            marks.push(false);
            i = i + 1;
        }
        let mut k: usize = 0;
        while k < component.len()
            invariant
                n == self@.graph.states.len(),
                marks@.len() == n,
                k <= component@.len(),
                forall|i: int| 0 <= i < component@.len() ==> #[trigger] component@[i] < n,
            decreases component@.len() - k,
        {
            marks.set(component[k], true);
            k = k + 1;
        }
        marks
    }

    /// Extends the walk in `states`/`transitions` by a shortest path inside
    /// the component from `current` to `target`.
    fn append_path(
        &self,
        allowed: &Vec<bool>,
        current: &mut StateId,
        target: StateId,
        states: &mut Vec<StateId>,
        transitions: &mut Vec<TransitionId>,
    ) -> (r: bool)
        requires
            allowed@.len() == self@.graph.states.len(),
    {
        let mut start: Vec<StateId> = Vec::new();
        start.push(*current);
        match self.graph.shortest_path(&start, target, allowed) {
            Some((path_states, path_transitions)) => {
                let mut i: usize = 1;
                while i < path_states.len()
                    invariant
                        1 <= i,
                    decreases path_states@.len() - i,
                {
                    states.push(path_states[i]);
                    i = i + 1;
                }
                let mut i: usize = 0;
                while i < path_transitions.len()
                    decreases path_transitions@.len() - i,
                {
                    transitions.push(path_transitions[i]);
                    i = i + 1;
                }
                *current = target;
                true
            },
            None => false,
        }
    }

    /// A cycle through `representative` inside `component` that takes every
    /// fairly required action and visits a state disabling every weakly fair
    /// action that is not enabled throughout.
    fn build_fair_loop(&self, component: &Vec<StateId>, representative: StateId) -> (r: Option<(Vec<StateId>, Vec<TransitionId>)>)
        requires
            forall|i: int| 0 <= i < component@.len() ==> #[trigger] component@[i] < self@.graph.states.len(),
    {
        let ghost g = self@.graph;
        let n = self.graph.state_count();
        let allowed = self.component_marks(component);
        let mut required_edges: Vec<TransitionId> = Vec::new();
        let mut required_states: Vec<StateId> = Vec::new();
        let assumptions = self.fairness.assumptions();
        let mut f: usize = 0;
        while f < assumptions.len()
            invariant
                g == self@.graph,
                n == g.states.len(),
                f <= assumptions@.len(),
                forall|i: int| 0 <= i < component@.len() ==> #[trigger] component@[i] < n,
                strictly_increasing(required_edges@),
                strictly_increasing(required_states@),
                forall|i: int| 0 <= i < required_edges@.len() ==> #[trigger] required_edges@[i] < g.transitions.len(),
                forall|i: int| 0 <= i < required_states@.len() ==> #[trigger] required_states@[i] < n,
            decreases assumptions@.len() - f,
        {
            let fairness = &assumptions[f];
            let action = fairness.action.as_str();
            let mut enabled_count: usize = 0;
            let mut first_disabled: Option<StateId> = None;
            let mut i: usize = 0;
            while i < component.len()
                invariant
                    n == self@.graph.states.len(),
                    i <= component@.len(),
                    enabled_count <= i,
                    forall|x: int| 0 <= x < component@.len() ==> #[trigger] component@[x] < n,
                    first_disabled matches Some(d) ==> d < n,
                decreases component@.len() - i,
            {
                if self.graph.action_enabled(component[i], action) {
                    enabled_count = enabled_count + 1;
                } else if first_disabled.is_none() {
                    first_disabled = Some(component[i]);
                }
                i = i + 1;
            }
            let edges = self.internal_action_edges(component, action);
            match fairness.kind {
                FairnessKind::Strong => {
                    if enabled_count > 0 {
                        if edges.len() == 0 {
                            return None;
                        }
                        insert_sorted_id(&mut required_edges, edges[0]);
                        proof {
                            assert(required_edges@.to_set().contains(edges@[0]));
                            assert forall|i: int| 0 <= i < required_edges@.len() implies #[trigger] required_edges@[i] < g.transitions.len() by {
                                assert(required_edges@.to_set().contains(required_edges@[i]));
                            }
                        }
                    }
                },
                FairnessKind::Weak => {
                    if enabled_count == component.len() {
                        if edges.len() == 0 {
                            return None;
                        }
                        insert_sorted_id(&mut required_edges, edges[0]);
                        proof {
                            assert forall|i: int| 0 <= i < required_edges@.len() implies #[trigger] required_edges@[i] < g.transitions.len() by {
                                assert(required_edges@.to_set().contains(required_edges@[i]));
                            }
                        }
                    } else {
                        match first_disabled {
                            Some(d) => {
                                insert_sorted_id(&mut required_states, d);
                                proof {
                                    assert forall|i: int| 0 <= i < required_states@.len() implies #[trigger] required_states@[i] < n by {
                                        assert(required_states@.to_set().contains(required_states@[i]));
                                    }
                                }
                            },
                            None => {},
                        }
                    }
                },
            }
            f = f + 1;
        }
        let mut states: Vec<StateId> = Vec::new();
        states.push(representative);
        let mut transitions: Vec<TransitionId> = Vec::new();
        let mut current = representative;
        let mut e: usize = 0;
        while e < required_edges.len()
            invariant
                g == self@.graph,
                allowed@.len() == g.states.len(),
                e <= required_edges@.len(),
                forall|i: int| 0 <= i < required_edges@.len() ==> #[trigger] required_edges@[i] < g.transitions.len(),
            decreases required_edges@.len() - e,
        {
            let t = required_edges[e];
            let edge = self.graph.transition(t);
            if !self.append_path(&allowed, &mut current, edge.from, &mut states, &mut transitions) {
                return None;
            }
            transitions.push(t);
            states.push(edge.to);
            current = edge.to;
            e = e + 1;
        }
        let mut q: usize = 0;
        while q < required_states.len()
            invariant
                g == self@.graph,
                allowed@.len() == g.states.len(),
                q <= required_states@.len(),
            decreases required_states@.len() - q,
        {
            if !self.append_path(&allowed, &mut current, required_states[q], &mut states, &mut transitions) {
                return None;
            }
            q = q + 1;
        }
        if transitions.len() == 0 {
            proof {
                use_type_invariant(&self.graph);
            }
            let mut found: Option<TransitionId> = None;
            let mut i: usize = 0;
            while i < component.len() && found.is_none()
                invariant
                    g == self@.graph,
                    graph_wf(g),
                    i <= component@.len(),
                    forall|x: int| 0 <= x < component@.len() ==> #[trigger] component@[x] < g.states.len(),
                    found matches Some(t) ==> t < g.transitions.len(),
                decreases component@.len() - i,
            {
                let out = self.graph.outgoing_ids(component[i]);
                let mut k: usize = 0;
                while k < out.len() && found.is_none()
                    invariant
                        g == self@.graph,
                        graph_wf(g),
                        i < component@.len(),
                        component@[i as int] < g.states.len(),
                        out@ == g.outgoing[component@[i as int] as int],
                        k <= out@.len(),
                        found matches Some(t) ==> t < g.transitions.len(),
                    decreases out@.len() - k,
                {
                    if TemporalChecker::member(component, self.graph.transition(out[k]).to) {
                        found = Some(out[k]);
                    }
                    k = k + 1;
                }
                i = i + 1;
            }
            let t = match found {
                Some(t) => t,
                None => {
                    return None;
                },
            };
            let edge = self.graph.transition(t);
            if !self.append_path(&allowed, &mut current, edge.from, &mut states, &mut transitions) {
                return None;
            }
            transitions.push(t);
            states.push(edge.to);
            current = edge.to;
        }
        if !self.append_path(&allowed, &mut current, representative, &mut states, &mut transitions) {
            return None;
        }
        Some((states, transitions))
    }

    /// Whether the loop of `l` satisfies the fairness assumptions.
    pub fn loop_is_fair(&self, l: &Lasso) -> (r: bool)
        requires
            lasso_wf(self@.graph, *l),
        ensures
            r == fair_loop(self@.graph, self@.fairness, *l),
    {
        proof {
            use_type_invariant(&self.graph);
        }
        let ghost g = self@.graph;
        let ghost fs = self@.fairness;
        let assumptions = self.fairness.assumptions();
        let m = l.loop_states.len() - 1;
        proof {
            assert forall|j: int| 0 <= j < m implies #[trigger] l.loop_states@[j] < g.states.len() by {
                let t = g.transitions[l.loop_transitions@[j] as int];
                assert(crate::graph::transition_valid(t, g.states.len()));
            }
        }
        let mut f: usize = 0;
        while f < assumptions.len()
            invariant
                g == self@.graph,
                graph_wf(g),
                fs == self@.fairness,
                crate::temporal::fairness_views(assumptions@) == fs,
                lasso_wf(g, *l),
                m == l.loop_states@.len() - 1,
                forall|j: int| 0 <= j < m ==> #[trigger] l.loop_states@[j] < g.states.len(),
                f <= assumptions@.len(),
                forall|i: int| 0 <= i < f ==> match (#[trigger] fs[i]).kind {
                    FairnessKind::Strong => (exists|j: int| 0 <= j < l.loop_states@.len() - 1 && enabled(g, #[trigger] l.loop_states@[j] as int, fs[i].action))
                        ==> loop_takes(g, *l, fs[i].action),
                    FairnessKind::Weak => (forall|j: int| 0 <= j < l.loop_states@.len() - 1 ==> enabled(g, #[trigger] l.loop_states@[j] as int, fs[i].action))
                        ==> loop_takes(g, *l, fs[i].action),
                },
            decreases assumptions@.len() - f,
        {
            let fairness = &assumptions[f];
            let action = fairness.action.as_str();
            proof {
                assert(fs[f as int] == fairness@);
            }
            let mut some = false;
            let mut every = true;
            let mut j: usize = 0;
            while j < m
                invariant
                    g == self@.graph,
                    m == l.loop_states@.len() - 1,
                    forall|x: int| 0 <= x < m ==> #[trigger] l.loop_states@[x] < g.states.len(),
                    j <= m,
                    some == exists|x: int| 0 <= x < j && enabled(g, #[trigger] l.loop_states@[x] as int, action@),
                    every == forall|x: int| 0 <= x < j ==> enabled(g, #[trigger] l.loop_states@[x] as int, action@),
                decreases m - j,
            {
                let e = self.graph.action_enabled(l.loop_states[j], action);
                proof {
                    assert(e == enabled(g, l.loop_states@[j as int] as int, action@));
                }
                if e {
                    some = true;
                } else {
                    every = false;
                }
                j = j + 1;
            }
            let mut takes = false;
            let mut k: usize = 0;
            while k < l.loop_transitions.len()
                invariant
                    g == self@.graph,
                    lasso_wf(g, *l),
                    k <= l.loop_transitions@.len(),
                    takes == exists|x: int| 0 <= x < k && g.transitions[#[trigger] l.loop_transitions@[x] as int].kind == KindV::Action(action@),
                decreases l.loop_transitions@.len() - k,
            {
                let id = l.loop_transitions[k];
                proof {
                    assert(id < g.transitions.len());
                }
                if self.graph.transition(id).kind.is_action(action) {
                    takes = true;
                }
                k = k + 1;
            }
            let ok = match fairness.kind {
                FairnessKind::Strong => !some || takes,
                FairnessKind::Weak => !every || takes,
            };
            if !ok {
                return false;
            }
            f = f + 1;
        }
        true
    }

    /// Whether every state of `l` from position `k` of its stem on lies in
    /// the graph and is unmarked.
    fn avoids(&self, l: &Lasso, marks: &Vec<bool>, k: usize) -> (r: bool)
        requires
            marks@.len() == self@.graph.states.len(),
        ensures
            r == avoids_from(self@.graph.states.len(), marks@, *l, k as int),
    {
        let n = self.graph.state_count();
        let mut j: usize = k;
        while j < l.stem_states.len()
            invariant
                n == marks@.len(),
                k <= j || j >= l.stem_states@.len(),
                forall|x: int| k <= x < j && x < l.stem_states@.len() ==> #[trigger] l.stem_states@[x] < n && !marks@[l.stem_states@[x] as int],
            decreases l.stem_states@.len() - j,
        {
            let s = l.stem_states[j];
            if s >= n || marks[s] {
                return false;
            }
            j = j + 1;
        }
        let mut j: usize = 0;
        while j < l.loop_states.len()
            invariant
                n == marks@.len(),
                j <= l.loop_states@.len(),
                forall|x: int| k <= x < l.stem_states@.len() ==> #[trigger] l.stem_states@[x] < n && !marks@[l.stem_states@[x] as int],
                forall|x: int| 0 <= x < j ==> #[trigger] l.loop_states@[x] < n && !marks@[l.loop_states@[x] as int],
            decreases l.loop_states@.len() - j,
        {
            let s = l.loop_states[j];
            if s >= n || marks[s] {
                return false;
            }
            j = j + 1;
        }
        true
    }

    /// Whether `states` holds `s`.
    fn listed(states: &Vec<StateId>, s: StateId) -> (r: bool)
        ensures
            r == states@.contains(s),
    {
        TemporalChecker::member(states, s)
    }

    /// A fair lasso from one of `starts` whose stem stays in `stem_allowed`
    /// and whose loop runs inside `component`, checked before it is returned.
    fn build_lasso(&self, starts: &Vec<StateId>, stem_allowed: &Vec<bool>, component: &Vec<StateId>) -> (r: Option<Lasso>)
        requires
            stem_allowed@.len() == self@.graph.states.len(),
            component@.len() > 0,
            forall|i: int| 0 <= i < component@.len() ==> #[trigger] component@[i] < self@.graph.states.len(),
        ensures
            r matches Some(l) ==> lasso_wf(self@.graph, l) && fair_loop(self@.graph, self@.fairness, l) && starts@.contains(l.stem_states@[0]),
            r matches Some(l) ==> forall|p: Seq<StateId>| #[trigger] crate::graph::walk_within(self@.graph, p, stem_allowed@)
                && starts@.contains(p[0]) && p.last() == l.loop_states@[0] ==> l.stem_states@.len() <= p.len(),
    {
        let representative = component[0];
        let (stem_states, stem_transitions) = match self.graph.shortest_path(starts, representative, stem_allowed) {
            Some(p) => p,
            None => {
                return None;
            },
        };
        let (loop_states, loop_transitions) = match self.build_fair_loop(component, representative) {
            Some(p) => p,
            None => {
                return None;
            },
        };
        let witness = Lasso { stem_states, stem_transitions, loop_states, loop_transitions };
        if witness.is_well_formed(&self.graph) && self.loop_is_fair(&witness) && TemporalChecker::listed(starts, witness.stem_states[0]) {
            Some(witness)
        } else {
            None
        }
    }

    /// Checks `eventually goal` on every fair infinite behavior.
    pub fn eventually<P: Fn(&ModelState) -> bool>(&self, goal: P) -> (r: CheckOutcome)
        requires
            forall|s: &ModelState| goal.requires((s,)),
        ensures
            exists|marks: Seq<bool>| marks.len() == self@.graph.states.len()
                && (forall|i: int| 0 <= i < marks.len() ==> call_ensures(goal, (&self.model_state(i),), #[trigger] marks[i]))
                && eventually_outcome(self@.graph, self@.fairness, marks, r),
    {
        let marks = self.evaluate(&goal);
        self.eventually_marks(&marks)
    }

    /// Checks `eventually` against the states marked in `goal`.
    pub fn eventually_marks(&self, goal: &Vec<bool>) -> (r: CheckOutcome)
        requires
            goal@.len() == self@.graph.states.len(),
        ensures
            eventually_outcome(self@.graph, self@.fairness, goal@, r),
    {
        let n = self.graph.state_count();
        let mut allowed: Vec<bool> = Vec::new();
        let mut i: usize = 0;
        while i < n
            invariant
                n == goal@.len(),
                i <= n,
                allowed@.len() == i,
                forall|x: int| 0 <= x < i ==> allowed@[x] == !goal@[x],
            decreases n - i,
        {
            allowed.push(!goal[i]);
            i = i + 1;
        }
        proof {
            assert(allowed@ =~= negated(goal@));
        }
        let reach = self.graph.reach_within(self.graph.initial_states(), &allowed);
        let explored_states = count_true(&reach);
        proof {
            assert(reach@ =~= Seq::new(n as nat, |v: int| reaches_within(self@.graph, self@.graph.initial, negated(goal@), v as StateId)));
        }
        if let Some(component) = self.first_fair_component(&reach) {
            if let Some(witness) = self.build_lasso(self.graph.initial_states(), &reach, &component) {
                if self.avoids(&witness, goal, 0) {
                    proof {
                        assert forall|p: Seq<StateId>| #[trigger] crate::graph::walk_within(self@.graph, p, negated(goal@))
                            && self@.graph.initial.contains(p[0]) && p.last() == witness.loop_states@[0]
                            implies witness.stem_states@.len() <= p.len() by {
                            lemma_walk_within_reached(self@.graph, self@.graph.initial, negated(goal@), p);
                        }
                    }
                    return CheckOutcome::Violated { explored_states, trigger: None, witness };
                }
            }
        }
        proof {
            use_type_invariant(self);
        }
        let ghost g = self@.graph;
        let ghost fs = self@.fairness;
        let ghost rm = reach@;
        match find_fair_cycle(&self.graph, self.fairness.assumptions(), &reach) {
            Some((loop_states, loop_transitions)) => {
                let start = loop_states[0];
                proof {
                    assert(rm[start as int]);
                    let p = choose|p: Seq<StateId>| #[trigger] crate::graph::walk_within(g, p, negated(goal@))
                        && g.initial.contains(p[0]) && p.last() == start;
                    lemma_walk_within_reached(g, g.initial, negated(goal@), p);
                    assert(rm =~= Seq::new(g.states.len(), |v: int| reaches_within(g, g.initial, negated(goal@), v as StateId)));
                }
                match self.graph.shortest_path(self.graph.initial_states(), start, &reach) {
                    Some((stem_states, stem_transitions)) => {
                        let witness = Lasso { stem_states, stem_transitions, loop_states, loop_transitions };
                        proof {
                            let w = witness;
                            assert(path_within(g, w.stem_states@, w.stem_transitions@, rm));
                            assert(lasso_wf(g, w));
                            lemma_fair_loop_cycle(g, fs, w);
                            assert forall|j: int| 0 <= j < w.stem_states@.len() implies #[trigger] w.stem_states@[j] < g.states.len()
                                && !goal@[w.stem_states@[j] as int] by {
                                lemma_reached_allowed(g, g.initial, negated(goal@), w.stem_states@[j]);
                            }
                            assert forall|j: int| 0 <= j < w.loop_states@.len() implies #[trigger] w.loop_states@[j] < g.states.len()
                                && !goal@[w.loop_states@[j] as int] by {
                                assert(rm[w.loop_states@[j] as int]);
                                lemma_reached_allowed(g, g.initial, negated(goal@), w.loop_states@[j]);
                            }
                            assert(avoids_from(g.states.len(), goal@, w, 0));
                            assert(eventually_counterexample(g, fs, goal@, w));
                            assert forall|p: Seq<StateId>| #[trigger] crate::graph::walk_within(g, p, negated(goal@))
                                && g.initial.contains(p[0]) && p.last() == w.loop_states@[0] implies w.stem_states@.len() <= p.len() by {
                                lemma_walk_within_reached(g, g.initial, negated(goal@), p);
                            }
                        }
                        return CheckOutcome::Violated { explored_states, trigger: None, witness };
                    },
                    None => {
                        proof {
                            assert(false);
                        }
                    },
                }
            },
            None => {
                proof {
                    assert forall|w: Lasso| !#[trigger] eventually_counterexample(g, fs, goal@, w) by {
                        if eventually_counterexample(g, fs, goal@, w) {
                            let x0 = w.stem_states@[0];
                            lemma_lasso_loop_reached(g, w, 0, negated(goal@));
                            let m0 = Seq::new(g.states.len(), |v: int| reaches_within(g, seq![x0], negated(goal@), v as StateId));
                            assert forall|j: int| 0 <= j < w.loop_states@.len() implies #[trigger] w.loop_states@[j] < g.states.len()
                                && rm[w.loop_states@[j] as int] by {
                                assert(m0[w.loop_states@[j] as int]);
                                lemma_reached_from_one(g, g.initial, negated(goal@), x0, w.loop_states@[j]);
                            }
                            lemma_fair_loop_cycle(g, fs, w);
                            assert(fair_cycle_within(g, fs, w.loop_states@, w.loop_transitions@, rm));
                        }
                    }
                }
            },
        }
        CheckOutcome::Holds { explored_states }
    }

    /// Checks `always (antecedent implies eventually consequent)` on every
    /// fair behavior.
    pub fn leads_to<P: Fn(&ModelState) -> bool, Q: Fn(&ModelState) -> bool>(&self, antecedent: P, consequent: Q) -> (r: CheckOutcome)
        requires
            forall|s: &ModelState| antecedent.requires((s,)),
            forall|s: &ModelState| consequent.requires((s,)),
        ensures
            exists|a: Seq<bool>, c: Seq<bool>| a.len() == self@.graph.states.len() && c.len() == self@.graph.states.len()
                && (forall|i: int| 0 <= i < a.len() ==> call_ensures(antecedent, (&self.model_state(i),), #[trigger] a[i]))
                && (forall|i: int| 0 <= i < c.len() ==> call_ensures(consequent, (&self.model_state(i),), #[trigger] c[i]))
                && leads_to_outcome(self@.graph, self@.fairness, a, c, r),
    {
        let a = self.evaluate(&antecedent);
        let c = self.evaluate(&consequent);
        self.leads_to_marks(&a, &c)
    }

    /// Checks `leads_to` against the states marked in `antecedent` and `consequent`.
    pub fn leads_to_marks(&self, antecedent: &Vec<bool>, consequent: &Vec<bool>) -> (r: CheckOutcome)
        requires
            antecedent@.len() == self@.graph.states.len(),
            consequent@.len() == self@.graph.states.len(),
        ensures
            leads_to_outcome(self@.graph, self@.fairness, antecedent@, consequent@, r),
    {
        let ghost g = self@.graph;
        let n = self.graph.state_count();
        let reachable_list = self.graph.reachable_states();
        let reach = marks_of(&reachable_list, n);
        let explored_states = count_true(&reach);
        proof {
            assert(reach@ =~= reachable_marks(g));
        }
        let mut not_consequent: Vec<bool> = Vec::new();
        let mut i: usize = 0;
        while i < n
            invariant
                n == consequent@.len(),
                i <= n,
                not_consequent@.len() == i,
                forall|y: int| 0 <= y < i ==> not_consequent@[y] == !consequent@[y],
            decreases n - i,
        {
            not_consequent.push(!consequent[i]);
            i = i + 1;
        }
        let all = all_true(n);
        proof {
            assert(all@ =~= crate::graph::all_allowed(n as nat));
            assert(not_consequent@ =~= negated(consequent@));
            use_type_invariant(self);
        }
        let ghost fs = self@.fairness;
        let mut x: usize = 0;
        while x < reachable_list.len()
            invariant
                g == self@.graph,
                n == g.states.len(),
                antecedent@.len() == n,
                consequent@.len() == n,
                not_consequent@.len() == n,
                all@ == crate::graph::all_allowed(n as nat),
                forall|v: StateId| reachable_list@.contains(v) <==> v < g.states.len() && reachable(g, v),
                explored_states == count_marked(reachable_marks(g)),
                x <= reachable_list@.len(),
                not_consequent@ == negated(consequent@),
                fs == self@.fairness,
                stutter_complete(g),
                forall|y: int, w: Lasso| 0 <= y < x ==> !#[trigger] leads_to_counterexample(g, fs, antecedent@, consequent@, reachable_list@[y], w),
            decreases reachable_list@.len() - x,
        {
            let trigger = reachable_list[x];
            proof {
                assert(reachable_list@.contains(trigger));
            }
            if antecedent[trigger] && !consequent[trigger] {
                let mut start: Vec<StateId> = Vec::new();
                start.push(trigger);
                let suffix_reach = self.graph.reach_within(&start, &not_consequent);
                if let Some(component) = self.first_fair_component(&suffix_reach) {
                    if let Some(suffix) = self.build_lasso(&start, &suffix_reach, &component) {
                        if let Some((prefix_states, prefix_transitions)) = self.graph.shortest_path(self.graph.initial_states(), trigger, &all) {
                            let mut stem_states = prefix_states;
                            stem_states.pop();
                            let k = stem_states.len();
                            let mut j: usize = 0;
                            while j < suffix.stem_states.len()
                                decreases suffix.stem_states@.len() - j,
                            {
                                stem_states.push(suffix.stem_states[j]);
                                j = j + 1;
                            }
                            let mut stem_transitions = prefix_transitions;
                            let mut j: usize = 0;
                            while j < suffix.stem_transitions.len()
                                decreases suffix.stem_transitions@.len() - j,
                            {
                                stem_transitions.push(suffix.stem_transitions[j]);
                                j = j + 1;
                            }
                            let witness = Lasso {
                                stem_states,
                                stem_transitions,
                                loop_states: suffix.loop_states,
                                loop_transitions: suffix.loop_transitions,
                            };
                            if witness.is_well_formed(&self.graph) && self.loop_is_fair(&witness)
                                && TemporalChecker::listed(self.graph.initial_states(), witness.stem_states[0])
                                && k < witness.stem_states.len() && witness.stem_states[k] == trigger
                                && self.avoids(&witness, consequent, k)
                            {
                                return CheckOutcome::Violated { explored_states, trigger: Some(trigger), witness };
                            }
                        }
                    }
                }
                let ghost sr = suffix_reach@;
                proof {
                    assert(start@ =~= seq![trigger]);
                    assert(sr =~= Seq::new(n as nat, |v: int| reaches_within(g, seq![trigger], negated(consequent@), v as StateId)));
                }
                match find_fair_cycle(&self.graph, self.fairness.assumptions(), &suffix_reach) {
                    Some((loop_states, loop_transitions)) => {
                        let entry = loop_states[0];
                        proof {
                            assert(sr[entry as int]);
                            let p = choose|p: Seq<StateId>| #[trigger] crate::graph::walk_within(g, p, negated(consequent@))
                                && seq![trigger].contains(p[0]) && p.last() == entry;
                            lemma_walk_within_reached(g, seq![trigger], negated(consequent@), p);
                            assert(reachable(g, trigger));
                        }
                        match (self.graph.shortest_path(self.graph.initial_states(), trigger, &all), self.graph.shortest_path(&start, entry, &suffix_reach)) {
                            (Some((prefix_states, prefix_transitions)), Some((suffix_states, suffix_transitions))) => {
                                let k = prefix_states.len() - 1;
                                proof {
                                    assert(start@.contains(suffix_states@[0]));
                                    assert(suffix_states@[0] == trigger);
                                }
                                let (stem_states, stem_transitions) = join_paths(prefix_states, prefix_transitions, &suffix_states, &suffix_transitions);
                                let witness = Lasso { stem_states, stem_transitions, loop_states, loop_transitions };
                                proof {
                                    let w = witness;
                                    let ps = prefix_states@;
                                    let qs = suffix_states@;
                                    let st = w.stem_states@;
                                    assert(path_within(g, ps, prefix_transitions@, all@));
                                    assert(path_within(g, qs, suffix_transitions@, sr));
                                    assert forall|i: int| 0 <= i < w.stem_transitions@.len() implies {
                                        &&& #[trigger] w.stem_transitions@[i] < g.transitions.len()
                                        &&& g.transitions[w.stem_transitions@[i] as int].from == st[i]
                                        &&& g.transitions[w.stem_transitions@[i] as int].to == st[i + 1]
                                    } by {
                                        if i < prefix_transitions@.len() {
                                            assert(w.stem_transitions@[i] == prefix_transitions@[i]);
                                            assert(st[i] == ps[i]);
                                            if i + 1 < ps.len() {
                                                assert(st[i + 1] == ps[i + 1]);
                                            }
                                        } else {
                                            let m = i - prefix_transitions@.len();
                                            assert(w.stem_transitions@[i] == suffix_transitions@[m]);
                                            assert(st[i + 1] == qs[m + 1]);
                                            if m == 0 {
                                                assert(st[i] == ps.last());
                                            } else {
                                                assert(st[i] == qs[m]);
                                            }
                                        }
                                    }
                                    if qs.len() == 1 {
                                        assert(st.last() == ps.last());
                                    } else {
                                        assert(st.last() == qs.last());
                                    }
                                    assert(lasso_wf(g, w));
                                    lemma_fair_loop_cycle(g, fs, w);
                                    assert(st[0] == ps[0]);
                                    assert(st[k as int] == trigger);
                                    assert forall|j: int| k <= j < st.len() implies #[trigger] st[j] < g.states.len() && !consequent@[st[j] as int] by {
                                        if j == k {
                                            assert(st[j] == trigger);
                                        } else {
                                            assert(st[j] == qs[j - k]);
                                            assert(sr[qs[j - k] as int]);
                                            lemma_reached_allowed(g, seq![trigger], negated(consequent@), st[j]);
                                        }
                                    }
                                    assert forall|j: int| 0 <= j < w.loop_states@.len() implies #[trigger] w.loop_states@[j] < g.states.len()
                                        && !consequent@[w.loop_states@[j] as int] by {
                                        assert(sr[w.loop_states@[j] as int]);
                                        lemma_reached_allowed(g, seq![trigger], negated(consequent@), w.loop_states@[j]);
                                    }
                                    assert(avoids_from(g.states.len(), consequent@, w, k as int));
                                    assert(leads_to_counterexample(g, fs, antecedent@, consequent@, trigger, w));
                                }
                                return CheckOutcome::Violated { explored_states, trigger: Some(trigger), witness };
                            },
                            _ => {
                                proof {
                                    assert(false);
                                }
                            },
                        }
                    },
                    None => {
                        proof {
                            assert forall|w: Lasso| !#[trigger] leads_to_counterexample(g, fs, antecedent@, consequent@, trigger, w) by {
                                if leads_to_counterexample(g, fs, antecedent@, consequent@, trigger, w) {
                                    let k = choose|k: int| 0 <= k < w.stem_states@.len() && w.stem_states@[k] == trigger
                                        && avoids_from(g.states.len(), consequent@, w, k);
                                    lemma_lasso_loop_reached(g, w, k, negated(consequent@));
                                    lemma_fair_loop_cycle(g, fs, w);
                                    assert(fair_cycle_within(g, fs, w.loop_states@, w.loop_transitions@, sr));
                                }
                            }
                        }
                    },
                }
            }
            proof {
                assert forall|y: int, w: Lasso| 0 <= y < x + 1 implies !#[trigger] leads_to_counterexample(g, fs, antecedent@, consequent@, reachable_list@[y], w) by {
                    if y == x {
                        assert(reachable_list@[y] == trigger);
                    }
                }
            }
            x = x + 1;
        }
        proof {
            assert forall|t: StateId, w: Lasso| !#[trigger] leads_to_counterexample(g, fs, antecedent@, consequent@, t, w) by {
                if leads_to_counterexample(g, fs, antecedent@, consequent@, t, w) {
                    assert(reachable_list@.contains(t));
                    let y = choose|y: int| 0 <= y < reachable_list@.len() && reachable_list@[y] == t;
                }
            }
        }
        CheckOutcome::Holds { explored_states }
    }
}

/// What `eventually` reports against the states marked as goals: the number
/// of goal-avoiding states reachable from an initial state; success exactly
/// when no fair lasso from an initial state avoids every goal, and on
/// failure such a lasso, whose stem is no longer than any goal-avoiding
/// walk from an initial state to the start of its loop.
pub open spec fn eventually_outcome(g: GraphV, fs: Seq<FairnessV>, goal: Seq<bool>, r: CheckOutcome) -> bool {
    let explored = count_marked(Seq::new(g.states.len(), |v: int| reaches_within(g, g.initial, negated(goal), v as StateId)));
    match r {
        CheckOutcome::Holds { explored_states } => explored_states == explored
            && forall|w: Lasso| !#[trigger] eventually_counterexample(g, fs, goal, w),
        CheckOutcome::Violated { explored_states, trigger, witness } => explored_states == explored && trigger is None
            && eventually_counterexample(g, fs, goal, witness)
            && forall|p: Seq<StateId>| #[trigger] crate::graph::walk_within(g, p, negated(goal))
                && g.initial.contains(p[0]) && p.last() == witness.loop_states@[0] ==> witness.stem_states@.len() <= p.len(),
    }
}

/// What `leads_to` reports: the number of reachable states; success exactly
/// when no reachable trigger has a fair lasso through it that never meets
/// the consequent from the trigger on, and on failure such a trigger and
/// lasso.
pub open spec fn leads_to_outcome(g: GraphV, fs: Seq<FairnessV>, antecedent: Seq<bool>, consequent: Seq<bool>, r: CheckOutcome) -> bool {
    let explored = count_marked(reachable_marks(g));
    match r {
        CheckOutcome::Holds { explored_states } => explored_states == explored
            && forall|t: StateId, w: Lasso| !#[trigger] leads_to_counterexample(g, fs, antecedent, consequent, t, w),
        CheckOutcome::Violated { explored_states, trigger, witness } => explored_states == explored && trigger is Some
            && leads_to_counterexample(g, fs, antecedent, consequent, trigger->0, witness),
    }
}


/// State `s` of `g` has the identity stutter.
pub open spec fn has_identity_stutter(g: GraphV, s: int) -> bool {
    exists|k: int| 0 <= k < g.transitions.len() && #[trigger] g.transitions[k].from == s && g.transitions[k].kind == KindV::IdentityStutter
}

/// Some transition from `s` is labelled with exactly the action `a`.
pub open spec fn labelled_from(g: GraphV, s: StateId, a: Seq<char>) -> bool {
    exists|k: int| 0 <= k < g.transitions.len() && #[trigger] g.transitions[k].from == s && g.transitions[k].kind == KindV::Action(a)
}

/// Some loop transition of `l` is labelled with exactly the action `a`.
pub open spec fn loop_labelled(g: GraphV, l: Lasso, a: Seq<char>) -> bool {
    exists|m: int| 0 <= m < l.loop_transitions@.len() && g.transitions[#[trigger] l.loop_transitions@[m] as int].kind == KindV::Action(a)
}

/// The loop of a lasso meets each fairness assumption by taking a transition
/// labelled with exactly its action: a strongly fair action enabled at some
/// loop state, or a weakly fair action enabled at every loop state.
pub open spec fn loop_meets_assumptions(g: GraphV, fs: Seq<FairnessV>, l: Lasso) -> bool {
    forall|i: int| 0 <= i < fs.len() ==> match (#[trigger] fs[i]).kind {
        FairnessKind::Strong => (exists|j: int| 0 <= j < l.loop_states@.len() - 1 && labelled_from(g, #[trigger] l.loop_states@[j], fs[i].action))
            ==> loop_labelled(g, l, fs[i].action),
        FairnessKind::Weak => (forall|j: int| 0 <= j < l.loop_states@.len() - 1 ==> labelled_from(g, #[trigger] l.loop_states@[j], fs[i].action))
            ==> loop_labelled(g, l, fs[i].action),
    }
}

proof fn lemma_fair_loop_meets(g: GraphV, fs: Seq<FairnessV>, l: Lasso)
    requires
        fair_loop(g, fs, l),
    ensures
        loop_meets_assumptions(g, fs, l),
{
    assert forall|i: int| 0 <= i < fs.len() implies match (#[trigger] fs[i]).kind {
        FairnessKind::Strong => (exists|j: int| 0 <= j < l.loop_states@.len() - 1 && labelled_from(g, #[trigger] l.loop_states@[j], fs[i].action))
            ==> loop_labelled(g, l, fs[i].action),
        FairnessKind::Weak => (forall|j: int| 0 <= j < l.loop_states@.len() - 1 ==> labelled_from(g, #[trigger] l.loop_states@[j], fs[i].action))
            ==> loop_labelled(g, l, fs[i].action),
    } by {
        let a = fs[i].action;
        match fs[i].kind {
            FairnessKind::Strong => {
                if exists|j: int| 0 <= j < l.loop_states@.len() - 1 && labelled_from(g, #[trigger] l.loop_states@[j], a) {
                    let j = choose|j: int| 0 <= j < l.loop_states@.len() - 1 && labelled_from(g, #[trigger] l.loop_states@[j], a);
                    assert(enabled(g, l.loop_states@[j] as int, a));
                    assert(loop_takes(g, l, a));
                }
            },
            FairnessKind::Weak => {
                if forall|j: int| 0 <= j < l.loop_states@.len() - 1 ==> labelled_from(g, #[trigger] l.loop_states@[j], a) {
                    assert forall|j: int| 0 <= j < l.loop_states@.len() - 1 implies enabled(g, #[trigger] l.loop_states@[j] as int, a) by {
                        assert(labelled_from(g, l.loop_states@[j], a));
                    }
                    assert(loop_takes(g, l, a));
                }
            },
        }
    }
}

/// A counterexample that `eventually` or `leads_to` reports has a loop that
/// meets every fairness assumption by transitions of exactly its action.
pub proof fn reported_loops_are_fair(g: GraphV, fs: Seq<FairnessV>, goal: Seq<bool>, antecedent: Seq<bool>, consequent: Seq<bool>,
    r1: CheckOutcome, r2: CheckOutcome)
    requires
        eventually_outcome(g, fs, goal, r1),
        leads_to_outcome(g, fs, antecedent, consequent, r2),
    ensures
        r1 matches CheckOutcome::Violated { witness, .. } ==> loop_meets_assumptions(g, fs, witness),
        r2 matches CheckOutcome::Violated { witness, .. } ==> loop_meets_assumptions(g, fs, witness),
{
    if let CheckOutcome::Violated { witness, .. } = r1 {
        lemma_fair_loop_meets(g, fs, witness);
    }
    if let CheckOutcome::Violated { witness, .. } = r2 {
        lemma_fair_loop_meets(g, fs, witness);
    }
}

} // verus!
