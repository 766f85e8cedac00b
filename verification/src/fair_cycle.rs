//! A complete search for fair cycles: whether some cycle of a finite graph
//! through a set of allowed states satisfies a list of weak and strong
//! fairness assumptions, and such a cycle where one exists.
//!
//! The search splits the allowed states by mutual reachability. A part is
//! fair when every assumption can be met inside it; a strong assumption
//! that is enabled in the part but never taken inside it excludes the
//! states where it is enabled, and the rest is searched again.

use vstd::prelude::*;
use crate::graph::{FiniteGraph, GraphV, KindV, StateId, TransitionId, TransitionKind, enabled, reaches_within, step, walk_within};
use crate::temporal::{Fairness, FairnessKind, FairnessV, count_marked, fairness_views, path_matches, stutter_complete};

verus! {

/// A cycle of `g`: at least one step, back to its first state.
pub open spec fn cycle(g: GraphV, s: Seq<StateId>, ids: Seq<TransitionId>) -> bool {
    &&& s.len() >= 2
    &&& s.len() == ids.len() + 1
    &&& s[0] == s.last()
    &&& path_matches(g, s, ids)
}

/// A cycle of `g` through allowed states only.
pub open spec fn cycle_within(g: GraphV, s: Seq<StateId>, ids: Seq<TransitionId>, allowed: Seq<bool>) -> bool {
    &&& cycle(g, s, ids)
    &&& forall|i: int| 0 <= i < s.len() ==> #[trigger] s[i] < g.states.len() && allowed[s[i] as int]
}

/// Some step of the cycle is the action `a`.
pub open spec fn cycle_takes(g: GraphV, ids: Seq<TransitionId>, a: Seq<char>) -> bool {
    exists|k: int| 0 <= k < ids.len() && g.transitions[#[trigger] ids[k] as int].kind == KindV::Action(a)
}

/// The cycle meets every assumption: a strongly fair action enabled at
/// some state of the cycle, or a weakly fair action enabled at every state
/// of the cycle, is taken in it.
pub open spec fn cycle_fair(g: GraphV, fs: Seq<FairnessV>, s: Seq<StateId>, ids: Seq<TransitionId>) -> bool {
    forall|i: int| 0 <= i < fs.len() ==> match (#[trigger] fs[i]).kind {
        FairnessKind::Strong => (exists|j: int| 0 <= j < s.len() - 1 && enabled(g, #[trigger] s[j] as int, fs[i].action))
            ==> cycle_takes(g, ids, fs[i].action),
        FairnessKind::Weak => (forall|j: int| 0 <= j < s.len() - 1 ==> enabled(g, #[trigger] s[j] as int, fs[i].action))
            ==> cycle_takes(g, ids, fs[i].action),
    }
}

/// A fair cycle through allowed states.
pub open spec fn fair_cycle_within(g: GraphV, fs: Seq<FairnessV>, s: Seq<StateId>, ids: Seq<TransitionId>, allowed: Seq<bool>) -> bool {
    cycle_within(g, s, ids, allowed) && cycle_fair(g, fs, s, ids)
}

/// The allowed states that `v` reaches and that reach `v` through allowed
/// states.
pub open spec fn mutual(g: GraphV, allowed: Seq<bool>, v: StateId) -> Seq<bool> {
    Seq::new(g.states.len(), |x: int| allowed[x] && reaches_within(g, seq![v], allowed, x as StateId)
        && reaches_within(g, seq![x as StateId], allowed, v))
}

/// A part of a walk is a walk.
pub proof fn lemma_walk_sub(g: GraphV, p: Seq<StateId>, allowed: Seq<bool>, i: int, j: int)
    requires
        walk_within(g, p, allowed),
        0 <= i < j <= p.len(),
    ensures
        walk_within(g, p.subrange(i, j), allowed),
{
    let q = p.subrange(i, j);
    assert forall|k: int| 0 <= k < q.len() implies #[trigger] q[k] < g.states.len() && allowed[q[k] as int] by {
        assert(q[k] == p[i + k]);
    }
    assert forall|k: int| 0 <= k < q.len() - 1 implies step(g, #[trigger] q[k] as int, q[k + 1] as int) by {
        assert(q[k] == p[i + k] && q[k + 1] == p[i + k + 1]);
    }
}

/// Two walks joined where the first ends and the second starts.
pub proof fn lemma_walk_join(g: GraphV, p: Seq<StateId>, q: Seq<StateId>, allowed: Seq<bool>)
    requires
        walk_within(g, p, allowed),
        walk_within(g, q, allowed),
        p.last() == q[0],
    ensures
        walk_within(g, p + q.subrange(1, q.len() as int), allowed),
        (p + q.subrange(1, q.len() as int))[0] == p[0],
        (p + q.subrange(1, q.len() as int)).last() == q.last(),
{
    let r = p + q.subrange(1, q.len() as int);
    assert forall|k: int| 0 <= k < r.len() implies #[trigger] r[k] < g.states.len() && allowed[r[k] as int] by {
        if k < p.len() {
            assert(r[k] == p[k]);
        } else {
            assert(r[k] == q[k - p.len() + 1]);
        }
    }
    assert forall|k: int| 0 <= k < r.len() - 1 implies step(g, #[trigger] r[k] as int, r[k + 1] as int) by {
        if k < p.len() - 1 {
            assert(r[k] == p[k] && r[k + 1] == p[k + 1]);
        } else if k == p.len() - 1 {
            assert(r[k] == p.last() && r[k + 1] == q[1]);
            assert(step(g, q[0] as int, q[1] as int));
        } else {
            assert(r[k] == q[k - p.len() + 1] && r[k + 1] == q[k - p.len() + 2]);
        }
    }
    if q.len() == 1 {
        assert(r =~= p);
    } else {
        assert(r.last() == q[q.len() - 1]);
    }
}

/// Reaching is transitive.
pub proof fn lemma_reach_trans(g: GraphV, allowed: Seq<bool>, x: StateId, y: StateId, z: StateId)
    requires
        reaches_within(g, seq![x], allowed, y),
        reaches_within(g, seq![y], allowed, z),
    ensures
        reaches_within(g, seq![x], allowed, z),
{
    let p = choose|p: Seq<StateId>| #[trigger] walk_within(g, p, allowed) && seq![x].contains(p[0]) && p.last() == y;
    let q = choose|q: Seq<StateId>| #[trigger] walk_within(g, q, allowed) && seq![y].contains(q[0]) && q.last() == z;
    assert(p[0] == x);
    assert(q[0] == y);
    lemma_walk_join(g, p, q, allowed);
    let r = p + q.subrange(1, q.len() as int);
    assert(seq![x][0] == r[0]);
    assert(seq![x].contains(r[0]));
}

/// A walk reaches each of its states from its first state, and each of its
/// states reaches its last state.
pub proof fn lemma_walk_reaches(g: GraphV, p: Seq<StateId>, allowed: Seq<bool>, i: int)
    requires
        walk_within(g, p, allowed),
        0 <= i < p.len(),
    ensures
        reaches_within(g, seq![p[0]], allowed, p[i]),
        reaches_within(g, seq![p[i]], allowed, p.last()),
{
    lemma_walk_sub(g, p, allowed, 0, i + 1);
    let a = p.subrange(0, i + 1);
    assert(a[0] == p[0] && a.last() == p[i]);
    assert(seq![p[0]][0] == a[0]);
    assert(seq![p[0]].contains(a[0]));
    lemma_walk_sub(g, p, allowed, i, p.len() as int);
    let b = p.subrange(i, p.len() as int);
    assert(b[0] == p[i] && b.last() == p.last());
    assert(seq![p[i]][0] == b[0]);
    assert(seq![p[i]].contains(b[0]));
}

/// The states of a cycle form a walk through allowed states.
pub proof fn lemma_cycle_walk(g: GraphV, s: Seq<StateId>, ids: Seq<TransitionId>, allowed: Seq<bool>)
    requires
        cycle_within(g, s, ids, allowed),
    ensures
        walk_within(g, s, allowed),
{
    assert forall|k: int| 0 <= k < s.len() - 1 implies step(g, #[trigger] s[k] as int, s[k + 1] as int) by {
        assert(ids[k] < g.transitions.len());
        assert(g.transitions[ids[k] as int].from == s[k] && g.transitions[ids[k] as int].to == s[k + 1]);
    }
}

/// Every state of a cycle through `v` lies in the mutual part of `v`.
pub proof fn lemma_cycle_in_mutual(g: GraphV, s: Seq<StateId>, ids: Seq<TransitionId>, allowed: Seq<bool>, i: int, j: int)
    requires
        cycle_within(g, s, ids, allowed),
        0 <= i < s.len(),
        0 <= j < s.len(),
    ensures
        mutual(g, allowed, s[i])[s[j] as int],
{
    lemma_cycle_walk(g, s, ids, allowed);
    lemma_walk_reaches(g, s, allowed, i);
    lemma_walk_reaches(g, s, allowed, j);
    lemma_reach_trans(g, allowed, s[i], s.last(), s[j]);
    lemma_reach_trans(g, allowed, s[j], s.last(), s[i]);
}

/// Within the mutual part of `v`, every state of the part reaches every
/// other through states of the part.
pub proof fn lemma_mutual_connected(g: GraphV, allowed: Seq<bool>, v: StateId, x: StateId, y: StateId)
    requires
        allowed.len() == g.states.len(),
        x < g.states.len(),
        y < g.states.len(),
        mutual(g, allowed, v)[x as int],
        mutual(g, allowed, v)[y as int],
    ensures
        reaches_within(g, seq![x], mutual(g, allowed, v), y),
{
    let part = mutual(g, allowed, v);
    lemma_reach_trans(g, allowed, x, v, y);
    let r = choose|r: Seq<StateId>| #[trigger] walk_within(g, r, allowed) && seq![x].contains(r[0]) && r.last() == y;
    assert(r[0] == x);
    assert forall|k: int| 0 <= k < r.len() implies #[trigger] r[k] < g.states.len() && part[r[k] as int] by {
        lemma_walk_reaches(g, r, allowed, k);
        lemma_reach_trans(g, allowed, v, x, r[k]);
        lemma_reach_trans(g, allowed, r[k], y, v);
    }
    assert(walk_within(g, r, part));
}

/// A state in its allowed set lies in its own mutual part.
pub proof fn lemma_mutual_self(g: GraphV, allowed: Seq<bool>, v: StateId)
    requires
        allowed.len() == g.states.len(),
        v < g.states.len(),
        allowed[v as int],
    ensures
        mutual(g, allowed, v)[v as int],
{
    let p = seq![v];
    assert(walk_within(g, p, allowed));
    assert(seq![v][0] == p[0]);
    assert(seq![v].contains(p[0]));
}

/// Marks below others count no more, and strictly fewer where one mark is
/// dropped.
pub proof fn lemma_count_below(a: Seq<bool>, b: Seq<bool>, w: int)
    requires
        a.len() == b.len(),
        forall|x: int| 0 <= x < a.len() && #[trigger] a[x] ==> b[x],
        0 <= w < a.len(),
        b[w],
        !a[w],
    ensures
        count_marked(a) < count_marked(b),
    decreases a.len(),
{
    lemma_count_le(a.drop_last(), b.drop_last());
    if w < a.len() - 1 {
        lemma_count_below(a.drop_last(), b.drop_last(), w);
    }
}

proof fn lemma_count_le(a: Seq<bool>, b: Seq<bool>)
    requires
        a.len() == b.len(),
        forall|x: int| 0 <= x < a.len() && #[trigger] a[x] ==> b[x],
    ensures
        count_marked(a) <= count_marked(b),
    decreases a.len(),
{
    if a.len() > 0 {
        lemma_count_le(a.drop_last(), b.drop_last());
    }
}

/// Marks the mutual part of `v` among the allowed states.
fn mutual_marks(graph: &FiniteGraph, allowed: &Vec<bool>, v: StateId) -> (r: Vec<bool>)
    requires
        allowed@.len() == graph@.states.len(),
        v < graph@.states.len(),
    ensures
        r@ == mutual(graph@, allowed@, v),
{
    let n = graph.state_count();
    let mut start: Vec<StateId> = Vec::new();
    start.push(v);
    proof {
        assert(start@ =~= seq![v]);
    }
    let forward = graph.reach_within(&start, allowed);
    let mut r: Vec<bool> = Vec::new();
    let mut x: usize = 0;
    while x < n
        invariant
            n == graph@.states.len(),
            allowed@.len() == n,
            start@ == seq![v],
            forward@.len() == n,
            forall|y: int| 0 <= y < n ==> forward@[y] == reaches_within(graph@, seq![v], allowed@, y as StateId),
            x <= n,
            r@.len() == x,
            forall|y: int| 0 <= y < x ==> r@[y] == mutual(graph@, allowed@, v)[y],
        decreases n - x,
    {
        if allowed[x] && forward[x] {
            let mut back_start: Vec<StateId> = Vec::new();
            back_start.push(x);
            proof {
                assert(back_start@ =~= seq![x]);
            }
            let back = graph.reach_within(&back_start, allowed);
            r.push(back[v]);
        } else {
            r.push(false);
        }
        x = x + 1;
    }
    proof {
        assert(r@ =~= mutual(graph@, allowed@, v));
    }
    r
}

/// The first transition of the action `action` between two marked states.
fn internal_edge(graph: &FiniteGraph, part: &Vec<bool>, action: &str) -> (r: Option<TransitionId>)
    requires
        part@.len() == graph@.states.len(),
    ensures
        r matches Some(e) ==> e < graph@.transitions.len() && graph@.transitions[e as int].kind == KindV::Action(action@)
            && part@[graph@.transitions[e as int].from as int] && part@[graph@.transitions[e as int].to as int],
        r is None ==> forall|k: int| 0 <= k < graph@.transitions.len() && #[trigger] graph@.transitions[k].kind == KindV::Action(action@)
            ==> !(part@[graph@.transitions[k].from as int] && part@[graph@.transitions[k].to as int]),
{
    proof {
        use_type_invariant(graph);
    }
    let m = graph.transitions().len();
    let mut k: usize = 0;
    while k < m
        invariant
            m == graph@.transitions.len(),
            crate::graph::graph_wf(graph@),
            part@.len() == graph@.states.len(),
            k <= m,
            forall|j: int| 0 <= j < k && #[trigger] graph@.transitions[j].kind == KindV::Action(action@)
                ==> !(part@[graph@.transitions[j].from as int] && part@[graph@.transitions[j].to as int]),
        decreases m - k,
    {
        let t = graph.transition(k);
        proof {
            assert(crate::graph::transition_valid(graph@.transitions[k as int], graph@.states.len()));
        }
        let same = match &t.kind {
            TransitionKind::Action(a) => crate::text::str_eq(a.as_str(), action),
            TransitionKind::IdentityStutter => false,
        };
        if same && part[t.from] && part[t.to] {
            return Some(k);
        }
        k = k + 1;
    }
    None
}

/// A marked state where `action` is not enabled, if any.
fn disabled_in(graph: &FiniteGraph, part: &Vec<bool>, action: &str) -> (r: Option<StateId>)
    requires
        part@.len() == graph@.states.len(),
    ensures
        r matches Some(d) ==> d < graph@.states.len() && part@[d as int] && !enabled(graph@, d as int, action@),
        r is None ==> forall|x: int| 0 <= x < graph@.states.len() && #[trigger] part@[x] ==> enabled(graph@, x, action@),
{
    let n = graph.state_count();
    let mut x: usize = 0;
    while x < n
        invariant
            n == graph@.states.len(),
            part@.len() == n,
            x <= n,
            forall|y: int| 0 <= y < x && #[trigger] part@[y] ==> enabled(graph@, y, action@),
        decreases n - x,
    {
        if part[x] && !graph.action_enabled(x, action) {
            return Some(x);
        }
        x = x + 1;
    }
    None
}

/// The marked states where `action` is not enabled, and whether it is
/// enabled at some marked state.
fn strip_enabled(graph: &FiniteGraph, part: &Vec<bool>, action: &str) -> (r: (Vec<bool>, Option<StateId>))
    requires
        part@.len() == graph@.states.len(),
    ensures
        r.0@.len() == part@.len(),
        forall|x: int| 0 <= x < part@.len() ==> #[trigger] r.0@[x] == (part@[x] && !enabled(graph@, x, action@)),
        r.1 matches Some(w) ==> w < graph@.states.len() && part@[w as int] && enabled(graph@, w as int, action@),
        r.1 is None ==> forall|x: int| 0 <= x < graph@.states.len() && #[trigger] part@[x] ==> !enabled(graph@, x, action@),
{
    let n = graph.state_count();
    let mut out: Vec<bool> = Vec::new();
    let mut witness: Option<StateId> = None;
    let mut x: usize = 0;
    while x < n
        invariant
            n == graph@.states.len(),
            part@.len() == n,
            x <= n,
            out@.len() == x,
            forall|y: int| 0 <= y < x ==> #[trigger] out@[y] == (part@[y] && !enabled(graph@, y, action@)),
            witness matches Some(w) ==> w < n && part@[w as int] && enabled(graph@, w as int, action@),
            witness is None ==> forall|y: int| 0 <= y < x && #[trigger] part@[y] ==> !enabled(graph@, y, action@),
        decreases n - x,
    {
        let on = graph.action_enabled(x, action);
        out.push(part[x] && !on);
        if part[x] && on && witness.is_none() {
            witness = Some(x);
        }
        x = x + 1;
    }
    (out, witness)
}

/// Extends the walk in `states` and `ids` by a path through the mutual part
/// of `v` from its last state to `target`, keeping what was there.
fn extend(graph: &FiniteGraph, part: &Vec<bool>, states: &mut Vec<StateId>, ids: &mut Vec<TransitionId>, target: StateId,
    Ghost(allowed): Ghost<Seq<bool>>, Ghost(v): Ghost<StateId>)
    requires
        allowed.len() == graph@.states.len(),
        part@ == mutual(graph@, allowed, v),
        target < graph@.states.len(),
        part@[target as int],
        old(states)@.len() == old(ids)@.len() + 1,
        path_matches(graph@, old(states)@, old(ids)@),
        forall|i: int| 0 <= i < old(states)@.len() ==> #[trigger] old(states)@[i] < graph@.states.len() && part@[old(states)@[i] as int],
    ensures
        final(states)@.len() == final(ids)@.len() + 1,
        path_matches(graph@, final(states)@, final(ids)@),
        forall|i: int| 0 <= i < final(states)@.len() ==> #[trigger] final(states)@[i] < graph@.states.len() && part@[final(states)@[i] as int],
        final(states)@.last() == target,
        final(states)@.len() >= old(states)@.len(),
        final(ids)@.len() >= old(ids)@.len(),
        final(states)@.subrange(0, old(states)@.len() as int) == old(states)@,
        final(ids)@.subrange(0, old(ids)@.len() as int) == old(ids)@,
{
    let cur = states[states.len() - 1];
    let mut start: Vec<StateId> = Vec::new();
    start.push(cur);
    proof {
        assert(start@ =~= seq![cur]);
        lemma_mutual_connected(graph@, allowed, v, cur, target);
    }
    let ghost s0 = states@;
    let ghost i0 = ids@;
    match graph.shortest_path(&start, target, part) {
        Some((ps, pids)) => {
            proof {
                assert(start@.contains(ps@[0]));
                assert(ps@[0] == cur);
            }
            let mut i: usize = 1;
            while i < ps.len()
                invariant
                    1 <= i <= ps@.len(),
                    ps@.len() == pids@.len() + 1,
                    crate::graph::path_within(graph@, ps@, pids@, part@),
                    ps@[0] == cur,
                    cur == s0.last(),
                    s0.len() == i0.len() + 1,
                    path_matches(graph@, s0, i0),
                    forall|j: int| 0 <= j < s0.len() ==> #[trigger] s0[j] < graph@.states.len() && part@[s0[j] as int],
                    states@.len() == ids@.len() + 1,
                    states@ == s0 + ps@.subrange(1, i as int),
                    ids@ == i0 + pids@.subrange(0, i - 1),
                decreases ps@.len() - i,
            {
                states.push(ps[i]);
                ids.push(pids[i - 1]);
                proof {
                    assert(states@ =~= s0 + ps@.subrange(1, i + 1));
                    assert(ids@ =~= i0 + pids@.subrange(0, i as int));
                }
                i = i + 1;
            }
            proof {
                let sf = states@;
                let idf = ids@;
                assert forall|j: int| 0 <= j < sf.len() implies #[trigger] sf[j] < graph@.states.len() && part@[sf[j] as int] by {
                    if j >= s0.len() {
                        assert(sf[j] == ps@[j - s0.len() + 1]);
                    }
                }
                assert forall|j: int| 0 <= j < idf.len() implies {
                    &&& #[trigger] idf[j] < graph@.transitions.len()
                    &&& graph@.transitions[idf[j] as int].from == sf[j]
                    &&& graph@.transitions[idf[j] as int].to == sf[j + 1]
                } by {
                    if j < i0.len() {
                        assert(idf[j] == i0[j] && sf[j] == s0[j] && sf[j + 1] == s0[j + 1]);
                    } else {
                        let m = j - i0.len();
                        assert(idf[j] == pids@[m]);
                        assert(sf[j + 1] == ps@[m + 1]);
                        if m == 0 {
                            assert(sf[j] == s0.last());
                        } else {
                            assert(sf[j] == ps@[m]);
                        }
                    }
                }
                if ps@.len() == 1 {
                    assert(sf =~= s0);
                } else {
                    assert(sf.last() == ps@.last());
                }
                assert(sf.subrange(0, s0.len() as int) =~= s0);
                assert(idf.subrange(0, i0.len() as int) =~= i0);
            }
        },
        None => {
            proof {
                assert(false);
            }
        },
    }
}

/// How each assumption is met inside a part: by an internal transition of
/// its action, or, for a weak one, by a state of the part where it is not
/// enabled, or, for a strong one, by being enabled nowhere in the part.
pub open spec fn plan_ok(g: GraphV, fs: Seq<FairnessV>, part: Seq<bool>, edges: Seq<Option<TransitionId>>, dis: Seq<Option<StateId>>) -> bool {
    &&& edges.len() == fs.len()
    &&& dis.len() == fs.len()
    &&& forall|f: int| 0 <= f < fs.len() ==> match #[trigger] edges[f] {
        Some(e) => e < g.transitions.len() && g.transitions[e as int].kind == KindV::Action(fs[f].action)
            && part[g.transitions[e as int].from as int] && part[g.transitions[e as int].to as int],
        None => match fs[f].kind {
            FairnessKind::Weak => dis[f] matches Some(d) && d < g.states.len() && part[d as int] && !enabled(g, d as int, fs[f].action),
            FairnessKind::Strong => forall|x: int| 0 <= x < g.states.len() && #[trigger] part[x] ==> !enabled(g, x, fs[f].action),
        },
    }
}

/// The transition that the plan names for assumption `j`, if any, is taken.
pub open spec fn edge_taken(edges: Seq<Option<TransitionId>>, ids: Seq<TransitionId>, j: int) -> bool {
    match edges[j] {
        Some(e) => ids.contains(e),
        None => true,
    }
}

/// The state that the plan names for the weak assumption `j`, if any, is
/// visited.
pub open spec fn state_visited(fs: Seq<FairnessV>, edges: Seq<Option<TransitionId>>, dis: Seq<Option<StateId>>, states: Seq<StateId>, j: int) -> bool {
    match (edges[j], dis[j]) {
        (None, Some(d)) => fs[j].kind == FairnessKind::Strong || states.contains(d),
        _ => true,
    }
}

proof fn lemma_prefix_contains<T>(a: Seq<T>, b: Seq<T>, x: T)
    requires
        a.contains(x),
        b.len() >= a.len(),
        b.subrange(0, a.len() as int) == a,
    ensures
        b.contains(x),
{
    let i = choose|i: int| 0 <= i < a.len() && a[i] == x;
    assert(b.subrange(0, a.len() as int)[i] == b[i]);
}

/// A transition from `v` to itself.
fn self_loop(graph: &FiniteGraph, v: StateId) -> (r: TransitionId)
    requires
        stutter_complete(graph@),
        v < graph@.states.len(),
    ensures
        r < graph@.transitions.len(),
        graph@.transitions[r as int].from == v,
        graph@.transitions[r as int].to == v,
{
    let m = graph.transitions().len();
    proof {
        let t = crate::graph::TransitionV { from: v, to: v, kind: KindV::IdentityStutter };
        assert(graph@.transitions.to_set().contains(t));
        assert(graph@.transitions.contains(t));
        let j = choose|j: int| 0 <= j < graph@.transitions.len() && graph@.transitions[j] == t;
        assert(graph@.transitions[j].from == v && graph@.transitions[j].to == v);
    }
    let mut k: usize = 0;
    while k < m
        invariant
            m == graph@.transitions.len(),
            k <= m,
            exists|j: int| k <= j < m && graph@.transitions[j].from == v && #[trigger] graph@.transitions[j].to == v,
        decreases m - k,
    {
        let t = graph.transition(k);
        if t.from == v && t.to == v {
            return k;
        }
        k = k + 1;
    }
    proof {
        assert(false);
    }
    0
}

/// A fair cycle through `v` inside its mutual part, built from a plan that
/// meets every assumption there.
fn build_cycle(graph: &FiniteGraph, fairness: &Vec<Fairness>, part: &Vec<bool>, v: StateId,
    edges: &Vec<Option<TransitionId>>, dis: &Vec<Option<StateId>>, Ghost(allowed): Ghost<Seq<bool>>) -> (r: (Vec<StateId>, Vec<TransitionId>))
    requires
        stutter_complete(graph@),
        allowed.len() == graph@.states.len(),
        v < graph@.states.len(),
        part@ == mutual(graph@, allowed, v),
        part@[v as int],
        plan_ok(graph@, fairness_views(fairness@), part@, edges@, dis@),
    ensures
        fair_cycle_within(graph@, fairness_views(fairness@), r.0@, r.1@, part@),
{
    proof {
        use_type_invariant(graph);
    }
    let ghost g = graph@;
    let ghost fs = fairness_views(fairness@);
    let mut states: Vec<StateId> = Vec::new();
    states.push(v);
    let mut ids: Vec<TransitionId> = Vec::new();
    proof {
        assert(path_matches(g, states@, ids@));
    }
    let mut f: usize = 0;
    while f < fairness.len()
        invariant
            g == graph@,
            crate::graph::graph_wf(g),
            fs == fairness_views(fairness@),
            allowed.len() == g.states.len(),
            part@ == mutual(g, allowed, v),
            plan_ok(g, fs, part@, edges@, dis@),
            f <= fs.len(),
            states@.len() == ids@.len() + 1,
            states@[0] == v,
            path_matches(g, states@, ids@),
            forall|i: int| 0 <= i < states@.len() ==> #[trigger] states@[i] < g.states.len() && part@[states@[i] as int],
            forall|j: int| 0 <= j < f ==> #[trigger] edge_taken(edges@, ids@, j),
            forall|j: int| 0 <= j < f ==> #[trigger] state_visited(fs, edges@, dis@, states@, j),
        decreases fs.len() - f,
    {
        let ghost s_before = states@;
        let ghost i_before = ids@;
        match edges[f] {
            Some(e) => {
                let t = graph.transition(e);
                proof {
                    assert(crate::graph::transition_valid(g.transitions[e as int], g.states.len()));
                }
                let from = t.from;
                let to = t.to;
                extend(graph, part, &mut states, &mut ids, from, Ghost(allowed), Ghost(v));
                let ghost s_mid = states@;
                let ghost i_mid = ids@;
                ids.push(e);
                states.push(to);
                proof {
                    assert(ids@.subrange(0, i_mid.len() as int) =~= i_mid);
                    assert(states@.subrange(0, s_mid.len() as int) =~= s_mid);
                    assert(states@ == s_mid.push(to));
                    assert(ids@ == i_mid.push(e));
                    assert(path_matches(g, states@, ids@)) by {
                        assert forall|j: int| 0 <= j < ids@.len() implies {
                            &&& #[trigger] ids@[j] < g.transitions.len()
                            &&& g.transitions[ids@[j] as int].from == states@[j]
                            &&& g.transitions[ids@[j] as int].to == states@[j + 1]
                        } by {
                            if j < i_mid.len() {
                                assert(ids@[j] == i_mid[j] && states@[j] == s_mid[j] && states@[j + 1] == s_mid[j + 1]);
                            } else {
                                assert(states@[j] == s_mid.last());
                            }
                        }
                    }
                    assert(states@[0] == s_mid[0]);
                    assert(s_mid.subrange(0, s_before.len() as int)[0] == s_mid[0]);
                    assert forall|j: int| 0 <= j < f + 1 implies #[trigger] edge_taken(edges@, ids@, j) by {
                        if j < f {
                            assert(edge_taken(edges@, i_before, j));
                            if let Some(x) = edges@[j] {
                                lemma_prefix_contains(i_before, i_mid, x);
                                lemma_prefix_contains(i_mid, ids@, x);
                            }
                        } else {
                            assert(ids@[ids@.len() - 1] == e);
                        }
                    }
                    assert forall|j: int| 0 <= j < f + 1 implies #[trigger] state_visited(fs, edges@, dis@, states@, j) by {
                        if j < f {
                            assert(state_visited(fs, edges@, dis@, s_before, j));
                            if let Some(d) = dis@[j] {
                                if edges@[j] is None && fs[j].kind == FairnessKind::Weak {
                                    lemma_prefix_contains(s_before, s_mid, d);
                                    lemma_prefix_contains(s_mid, states@, d);
                                }
                            }
                        }
                    }
                }
            },
            None => {
                let weak = fairness[f].kind == FairnessKind::Weak;
                match dis[f] {
                    Some(d) => {
                        proof {
                            assert(dis@[f as int] == Some(d));
                        }
                        if weak && d < graph.state_count() && part[d] {
                            extend(graph, part, &mut states, &mut ids, d, Ghost(allowed), Ghost(v));
                            proof {
                                assert(states@[states@.len() - 1] == d);
                                assert(states@[0] == states@.subrange(0, s_before.len() as int)[0]);
                                assert forall|j: int| 0 <= j < f + 1 implies #[trigger] edge_taken(edges@, ids@, j) by {
                                    if j < f {
                                        assert(edge_taken(edges@, i_before, j));
                                        if let Some(x) = edges@[j] {
                                            lemma_prefix_contains(i_before, ids@, x);
                                        }
                                    }
                                }
                                assert forall|j: int| 0 <= j < f + 1 implies #[trigger] state_visited(fs, edges@, dis@, states@, j) by {
                                    if j < f {
                                        assert(state_visited(fs, edges@, dis@, s_before, j));
                                        if let Some(y) = dis@[j] {
                                            if edges@[j] is None && fs[j].kind == FairnessKind::Weak {
                                                lemma_prefix_contains(s_before, states@, y);
                                            }
                                        }
                                    }
                                }
                            }
                        }
                    },
                    None => {},
                }
            },
        }
        f = f + 1;
    }
    let ghost s_before = states@;
    let ghost i_before = ids@;
    extend(graph, part, &mut states, &mut ids, v, Ghost(allowed), Ghost(v));
    proof {
        assert(states@[0] == states@.subrange(0, s_before.len() as int)[0]);
        assert forall|j: int| 0 <= j < fs.len() implies #[trigger] edge_taken(edges@, ids@, j) by {
            assert(edge_taken(edges@, i_before, j));
            if let Some(x) = edges@[j] {
                lemma_prefix_contains(i_before, ids@, x);
            }
        }
        assert forall|j: int| 0 <= j < fs.len() implies #[trigger] state_visited(fs, edges@, dis@, states@, j) by {
            assert(state_visited(fs, edges@, dis@, s_before, j));
            if let Some(y) = dis@[j] {
                if edges@[j] is None && fs[j].kind == FairnessKind::Weak {
                    lemma_prefix_contains(s_before, states@, y);
                }
            }
        }
    }
    if ids.len() == 0 {
        let ghost s_mid = states@;
        let ghost i_mid = ids@;
        let k = self_loop(graph, v);
        ids.push(k);
        states.push(v);
        proof {
            assert(s_mid.len() == 1);
            assert(states@ == seq![v, v]);
            assert(path_matches(g, states@, ids@)) by {
                assert(ids@[0] == k);
            }
            assert forall|j: int| 0 <= j < fs.len() implies #[trigger] state_visited(fs, edges@, dis@, states@, j) by {
                assert(state_visited(fs, edges@, dis@, s_mid, j));
                if let Some(y) = dis@[j] {
                    if edges@[j] is None && fs[j].kind == FairnessKind::Weak {
                        assert(states@.subrange(0, s_mid.len() as int) =~= s_mid);
                        lemma_prefix_contains(s_mid, states@, y);
                    }
                }
            }
            assert forall|j: int| 0 <= j < fs.len() implies !(#[trigger] edges@[j] is Some) by {
                assert(edge_taken(edges@, i_mid, j));
                if let Some(x) = edges@[j] {
                    assert(i_mid.contains(x));
                }
            }
        }
    }
    proof {
        let st = states@;
        let is = ids@;
        assert(cycle(g, st, is));
        assert forall|i: int| 0 <= i < fs.len() implies match (#[trigger] fs[i]).kind {
            FairnessKind::Strong => (exists|j: int| 0 <= j < st.len() - 1 && enabled(g, #[trigger] st[j] as int, fs[i].action))
                ==> cycle_takes(g, is, fs[i].action),
            FairnessKind::Weak => (forall|j: int| 0 <= j < st.len() - 1 ==> enabled(g, #[trigger] st[j] as int, fs[i].action))
                ==> cycle_takes(g, is, fs[i].action),
        } by {
            match edges@[i] {
                Some(e) => {
                    assert(edge_taken(edges@, is, i));
                    assert(is.contains(e));
                    let k = choose|k: int| 0 <= k < is.len() && is[k] == e;
                    assert(g.transitions[is[k] as int].kind == KindV::Action(fs[i].action));
                },
                None => {
                    match fs[i].kind {
                        FairnessKind::Weak => {
                            let d = dis@[i]->0;
                            assert(state_visited(fs, edges@, dis@, st, i));
                            assert(st.contains(d));
                            let p = choose|p: int| 0 <= p < st.len() && st[p] == d;
                            if p == st.len() - 1 {
                                assert(st[0] == d);
                                assert(!enabled(g, st[0] as int, fs[i].action));
                            } else {
                                assert(!enabled(g, st[p] as int, fs[i].action));
                            }
                        },
                        FairnessKind::Strong => {
                            assert forall|j: int| 0 <= j < st.len() - 1 implies !enabled(g, #[trigger] st[j] as int, fs[i].action) by {
                                assert(part@[st[j] as int]);
                            }
                        },
                    }
                },
            }
        }
    }
    (states, ids)
}

/// A cycle through `v` runs inside the mutual part of `v`.
proof fn lemma_cycle_part(g: GraphV, s: Seq<StateId>, ids: Seq<TransitionId>, allowed: Seq<bool>, i0: int)
    requires
        cycle_within(g, s, ids, allowed),
        0 <= i0 < s.len(),
    ensures
        forall|j: int| 0 <= j < s.len() ==> #[trigger] mutual(g, allowed, s[i0])[s[j] as int],
        forall|k: int| 0 <= k < ids.len() ==> mutual(g, allowed, s[i0])[g.transitions[#[trigger] ids[k] as int].from as int]
            && mutual(g, allowed, s[i0])[g.transitions[ids[k] as int].to as int],
{
    assert forall|j: int| 0 <= j < s.len() implies #[trigger] mutual(g, allowed, s[i0])[s[j] as int] by {
        lemma_cycle_in_mutual(g, s, ids, allowed, i0, j);
    }
    assert forall|k: int| 0 <= k < ids.len() implies mutual(g, allowed, s[i0])[g.transitions[#[trigger] ids[k] as int].from as int]
        && mutual(g, allowed, s[i0])[g.transitions[ids[k] as int].to as int] by {
        assert(mutual(g, allowed, s[i0])[s[k] as int]);
        assert(mutual(g, allowed, s[i0])[s[k + 1] as int]);
    }
}

/// A weak assumption enabled throughout a part and never taken inside it
/// rules out every fair cycle through the part's state `v`.
proof fn lemma_weak_blocks(g: GraphV, fs: Seq<FairnessV>, allowed: Seq<bool>, v: StateId, f0: int, s: Seq<StateId>, ids: Seq<TransitionId>, i0: int)
    requires
        0 <= f0 < fs.len(),
        fs[f0].kind == FairnessKind::Weak,
        forall|k: int| 0 <= k < g.transitions.len() && #[trigger] g.transitions[k].kind == KindV::Action(fs[f0].action)
            ==> !(mutual(g, allowed, v)[g.transitions[k].from as int] && mutual(g, allowed, v)[g.transitions[k].to as int]),
        forall|x: int| 0 <= x < g.states.len() && #[trigger] mutual(g, allowed, v)[x] ==> enabled(g, x, fs[f0].action),
        0 <= i0 < s.len(),
        s[i0] == v,
    ensures
        !fair_cycle_within(g, fs, s, ids, allowed),
{
    if fair_cycle_within(g, fs, s, ids, allowed) {
        lemma_cycle_part(g, s, ids, allowed, i0);
        assert(!cycle_takes(g, ids, fs[f0].action)) by {
            if cycle_takes(g, ids, fs[f0].action) {
                let k = choose|k: int| 0 <= k < ids.len() && g.transitions[#[trigger] ids[k] as int].kind == KindV::Action(fs[f0].action);
                assert(mutual(g, allowed, v)[g.transitions[ids[k] as int].from as int]);
            }
        }
        assert forall|j: int| 0 <= j < s.len() - 1 implies enabled(g, #[trigger] s[j] as int, fs[f0].action) by {
            assert(mutual(g, allowed, v)[s[j] as int]);
        }
        assert(match fs[f0].kind {
            FairnessKind::Strong => true,
            FairnessKind::Weak => (forall|j: int| 0 <= j < s.len() - 1 ==> enabled(g, #[trigger] s[j] as int, fs[f0].action))
                ==> cycle_takes(g, ids, fs[f0].action),
        });
    }
}

/// A strong assumption enabled in a part and never taken inside it keeps
/// every fair cycle through the part's state `v` away from the states where
/// it is enabled.
proof fn lemma_strong_confines(g: GraphV, fs: Seq<FairnessV>, allowed: Seq<bool>, v: StateId, f0: int, rest: Seq<bool>,
    s: Seq<StateId>, ids: Seq<TransitionId>, i0: int)
    requires
        0 <= f0 < fs.len(),
        fs[f0].kind == FairnessKind::Strong,
        forall|k: int| 0 <= k < g.transitions.len() && #[trigger] g.transitions[k].kind == KindV::Action(fs[f0].action)
            ==> !(mutual(g, allowed, v)[g.transitions[k].from as int] && mutual(g, allowed, v)[g.transitions[k].to as int]),
        rest.len() == g.states.len(),
        forall|x: int| 0 <= x < g.states.len() ==> #[trigger] rest[x] == (mutual(g, allowed, v)[x] && !enabled(g, x, fs[f0].action)),
        fair_cycle_within(g, fs, s, ids, allowed),
        0 <= i0 < s.len(),
        s[i0] == v,
    ensures
        fair_cycle_within(g, fs, s, ids, rest),
{
    lemma_cycle_part(g, s, ids, allowed, i0);
    assert(!cycle_takes(g, ids, fs[f0].action)) by {
        if cycle_takes(g, ids, fs[f0].action) {
            let k = choose|k: int| 0 <= k < ids.len() && g.transitions[#[trigger] ids[k] as int].kind == KindV::Action(fs[f0].action);
            assert(mutual(g, allowed, v)[g.transitions[ids[k] as int].from as int]);
        }
    }
    assert(match fs[f0].kind {
        FairnessKind::Strong => (exists|j: int| 0 <= j < s.len() - 1 && enabled(g, #[trigger] s[j] as int, fs[f0].action))
            ==> cycle_takes(g, ids, fs[f0].action),
        FairnessKind::Weak => true,
    });
    assert forall|i: int| 0 <= i < s.len() implies #[trigger] s[i] < g.states.len() && rest[s[i] as int] by {
        assert(mutual(g, allowed, v)[s[i] as int]);
        if i < s.len() - 1 {
            assert(!enabled(g, s[i] as int, fs[f0].action));
        } else {
            assert(s[i] == s[0]);
            assert(!enabled(g, s[0] as int, fs[f0].action));
        }
    }
}

/// A fair cycle through allowed states, if there is one.
pub fn find_fair_cycle(graph: &FiniteGraph, fairness: &Vec<Fairness>, allowed: &Vec<bool>) -> (r: Option<(Vec<StateId>, Vec<TransitionId>)>)
    requires
        stutter_complete(graph@),
        allowed@.len() == graph@.states.len(),
    ensures
        r matches Some((s, ids)) ==> fair_cycle_within(graph@, fairness_views(fairness@), s@, ids@, allowed@),
        r is None ==> forall|s: Seq<StateId>, ids: Seq<TransitionId>| !fair_cycle_within(graph@, fairness_views(fairness@), s, ids, allowed@),
    decreases count_marked(allowed@),
{
    let ghost g = graph@;
    let ghost fs = fairness_views(fairness@);
    let n = graph.state_count();
    let mut v: usize = 0;
    while v < n
        invariant
            g == graph@,
            fs == fairness_views(fairness@),
            stutter_complete(g),
            n == g.states.len(),
            allowed@.len() == n,
            v <= n,
            forall|s: Seq<StateId>, ids: Seq<TransitionId>| #[trigger] fair_cycle_within(g, fs, s, ids, allowed@)
                ==> forall|i: int| 0 <= i < s.len() ==> s[i] >= v,
        decreases n - v,
    {
        if allowed[v] {
            let part = mutual_marks(graph, allowed, v);
            proof {
                lemma_mutual_self(g, allowed@, v);
            }
            let mut edges: Vec<Option<TransitionId>> = Vec::new();
            let mut dis: Vec<Option<StateId>> = Vec::new();
            let mut outcome: u8 = 0;
            let mut fail_at: usize = 0;
            let mut rest: Vec<bool> = Vec::new();
            let mut f: usize = 0;
            while f < fairness.len() && outcome == 0
                invariant
                    g == graph@,
                    fs == fairness_views(fairness@),
                    part@ == mutual(g, allowed@, v),
                    f <= fs.len(),
                    outcome == 0 ==> edges@.len() == f && dis@.len() == f,
                    outcome == 0 ==> forall|j: int| 0 <= j < f ==> match #[trigger] edges@[j] {
                        Some(e) => e < g.transitions.len() && g.transitions[e as int].kind == KindV::Action(fs[j].action)
                            && part@[g.transitions[e as int].from as int] && part@[g.transitions[e as int].to as int],
                        None => match fs[j].kind {
                            FairnessKind::Weak => dis@[j] matches Some(d) && d < g.states.len() && part@[d as int] && !enabled(g, d as int, fs[j].action),
                            FairnessKind::Strong => forall|x: int| 0 <= x < g.states.len() && #[trigger] part@[x] ==> !enabled(g, x, fs[j].action),
                        },
                    },
                    outcome <= 2,
                    outcome != 0 ==> fail_at < fs.len() && forall|k: int| 0 <= k < g.transitions.len()
                        && #[trigger] g.transitions[k].kind == KindV::Action(fs[fail_at as int].action)
                        ==> !(part@[g.transitions[k].from as int] && part@[g.transitions[k].to as int]),
                    outcome == 1 ==> fs[fail_at as int].kind == FairnessKind::Weak
                        && forall|x: int| 0 <= x < g.states.len() && #[trigger] part@[x] ==> enabled(g, x, fs[fail_at as int].action),
                    outcome == 2 ==> fs[fail_at as int].kind == FairnessKind::Strong && rest@.len() == g.states.len()
                        && (forall|x: int| 0 <= x < g.states.len() ==> #[trigger] rest@[x] == (part@[x] && !enabled(g, x, fs[fail_at as int].action)))
                        && exists|w: int| 0 <= w < g.states.len() && part@[w] && #[trigger] enabled(g, w, fs[fail_at as int].action),
                decreases fs.len() - f,
            {
                let action = fairness[f].action.as_str();
                proof {
                    assert(fs[f as int] == fairness@[f as int]@);
                }
                match internal_edge(graph, &part, action) {
                    Some(e) => {
                        edges.push(Some(e));
                        dis.push(None);
                        f = f + 1;
                    },
                    None => {
                        if fairness[f].kind == FairnessKind::Weak {
                            match disabled_in(graph, &part, action) {
                                Some(d) => {
                                    edges.push(None);
                                    dis.push(Some(d));
                                    f = f + 1;
                                },
                                None => {
                                    outcome = 1;
                                    fail_at = f;
                                    f = f + 1;
                                },
                            }
                        } else {
                            let (stripped, witness) = strip_enabled(graph, &part, action);
                            match witness {
                                None => {
                                    edges.push(None);
                                    dis.push(None);
                                    f = f + 1;
                                },
                                Some(w) => {
                                    outcome = 2;
                                    fail_at = f;
                                    rest = stripped;
                                    f = f + 1;
                                    proof {
                                        assert(enabled(g, w as int, fs[fail_at as int].action));
                                    }
                                },
                            }
                        }
                    },
                }
            }
            if outcome == 0 {
                proof {
                    assert(plan_ok(g, fs, part@, edges@, dis@));
                }
                let (cs, cids) = build_cycle(graph, fairness, &part, v, &edges, &dis, Ghost(allowed@));
                proof {
                    assert forall|i: int| 0 <= i < cs@.len() implies #[trigger] cs@[i] < g.states.len() && allowed@[cs@[i] as int] by {
                        assert(part@[cs@[i] as int]);
                    }
                }
                return Some((cs, cids));
            }
            if outcome == 2 {
                proof {
                    let w = choose|w: int| 0 <= w < g.states.len() && part@[w] && #[trigger] enabled(g, w, fs[fail_at as int].action);
                    assert forall|x: int| 0 <= x < allowed@.len() && #[trigger] rest@[x] implies allowed@[x] by {
                        assert(part@[x]);
                    }
                    assert(!rest@[w]);
                    lemma_count_below(rest@, allowed@, w);
                }
                match find_fair_cycle(graph, fairness, &rest) {
                    Some((cs, cids)) => {
                        proof {
                            assert forall|i: int| 0 <= i < cs@.len() implies #[trigger] cs@[i] < g.states.len() && allowed@[cs@[i] as int] by {
                                assert(rest@[cs@[i] as int]);
                                assert(part@[cs@[i] as int]);
                            }
                        }
                        return Some((cs, cids));
                    },
                    None => {},
                }
            }
            proof {
                assert forall|s: Seq<StateId>, ids: Seq<TransitionId>| #[trigger] fair_cycle_within(g, fs, s, ids, allowed@)
                    implies forall|i: int| 0 <= i < s.len() ==> s[i] >= v + 1 by {
                    assert forall|i: int| 0 <= i < s.len() implies s[i] >= v + 1 by {
                        assert(s[i] >= v);
                        if s[i] == v {
                            if outcome == 1 {
                                lemma_weak_blocks(g, fs, allowed@, v, fail_at as int, s, ids, i);
                            } else {
                                lemma_strong_confines(g, fs, allowed@, v, fail_at as int, rest@, s, ids, i);
                                assert(!fair_cycle_within(g, fs, s, ids, rest@));
                            }
                        }
                    }
                }
            }
        } else {
            proof {
                assert forall|s: Seq<StateId>, ids: Seq<TransitionId>| #[trigger] fair_cycle_within(g, fs, s, ids, allowed@)
                    implies forall|i: int| 0 <= i < s.len() ==> s[i] >= v + 1 by {
                    assert forall|i: int| 0 <= i < s.len() implies s[i] >= v + 1 by {
                        assert(s[i] >= v);
                        assert(allowed@[s[i] as int]);
                    }
                }
            }
        }
        v = v + 1;
    }
    proof {
        assert forall|s: Seq<StateId>, ids: Seq<TransitionId>| !fair_cycle_within(g, fs, s, ids, allowed@) by {
            if fair_cycle_within(g, fs, s, ids, allowed@) {
                assert(s[0] >= n);
                assert(s[0] < g.states.len());
            }
        }
    }
    None
}

} // verus!
