//! The synchronous product of two compatible open systems.

use vstd::prelude::*;
use crate::graph::{FiniteGraph, GraphV, KindV, ModelState, StateId, Transition, TransitionV, ValueV, state_views, transition_views, transition_valid, graph_wf};
use crate::open::{CompatibilityChecker, ContractLinkV, OpenIssueV, compat_views, compatibility_issues, receptive_count, open_issue_views, open_system_issues, CompositionError, CompositionLimits, CompositionSpec, OpenSystemV, add_work, fits, mul_work, ActionPolarity, ActionSignature, ConnectionV, Connection, Interface, OpenSystem, SafetyContract, SafetyContractV, Side, SignatureV, side_prefix, sig_fn};
use crate::smap::{StrMap, entries_view, has_key, key_seq, last_lookup, lookup, map_entry_values, lemma_map_entry_values, sorted_keys};
use crate::temporal::has_identity_stutter;
use crate::text::str_eq;

verus! {

/// `name` in the namespace of `side`.
pub fn namespaced(side: Side, name: &str) -> (r: String)
    ensures
        r@ == side_prefix(side) + name@,
{
    proof {
        reveal_strlit("left::");
        reveal_strlit("right::");
    }
    match side {
        Side::Left => String::from_str("left::").concat(name),
        Side::Right => String::from_str("right::").concat(name),
    }
}

/// The value of the product field `k`: a field of the left state under
/// `left::`, or of the right state under `right::`.
pub open spec fn product_lookup(l: Seq<(Seq<char>, crate::graph::ValueV)>, r: Seq<(Seq<char>, crate::graph::ValueV)>, k: Seq<char>) -> Option<crate::graph::ValueV> {
    if k.len() >= 6 && k.subrange(0, 6) == side_prefix(Side::Left) {
        crate::smap::last_lookup(l, k.subrange(6, k.len() as int))
    } else if k.len() >= 7 && k.subrange(0, 7) == side_prefix(Side::Right) {
        crate::smap::last_lookup(r, k.subrange(7, k.len() as int))
    } else {
        None
    }
}

pub(crate) proof fn lemma_prefix_split(side: Side, a: Seq<char>, k: Seq<char>)
    ensures
        (side_prefix(side) + a == k) == (k.len() >= side_prefix(side).len() && k.subrange(0, side_prefix(side).len() as int) == side_prefix(side)
            && k.subrange(side_prefix(side).len() as int, k.len() as int) == a),
{
    reveal_strlit("left::");
    reveal_strlit("right::");
    let p = side_prefix(side);
    if p + a == k {
        assert(k.subrange(0, p.len() as int) =~= p);
        assert(k.subrange(p.len() as int, k.len() as int) =~= a);
    }
    if k.len() >= p.len() && k.subrange(0, p.len() as int) == p && k.subrange(p.len() as int, k.len() as int) == a {
        assert(p + a =~= k);
    }
}

/// The product state of a left and a right state.
fn product_state(left: &ModelState, right: &ModelState) -> (r: ModelState)
    ensures
        crate::smap::sorted_keys(r@),
        forall|k: Seq<char>| #[trigger] lookup(r@, k) == product_lookup(left@, right@, k),
{
    proof {
        reveal_strlit("left::");
        reveal_strlit("right::");
    }
    let mut out = ModelState::new();
    let le = left.entries();
    let re = right.entries();
    let ghost lv = crate::graph::value_entries_view(entries_view(le@));
    let ghost rv = crate::graph::value_entries_view(entries_view(re@));
    proof {
        assert(lv == left@);
        assert(rv == right@);
        assert forall|k: Seq<char>| #[trigger] lookup(out@, k) == product_lookup(lv.subrange(0, 0), rv.subrange(0, 0), k) by {
            crate::smap::lemma_lookup_none(out@, k);
            assert(lv.subrange(0, 0) =~= Seq::<(Seq<char>, crate::graph::ValueV)>::empty());
            assert(rv.subrange(0, 0) =~= Seq::<(Seq<char>, crate::graph::ValueV)>::empty());
            crate::smap::lemma_last_lookup_empty::<crate::graph::ValueV>(k.subrange(6, k.len() as int));
            crate::smap::lemma_last_lookup_empty::<crate::graph::ValueV>(k.subrange(7, k.len() as int));
        }
    }
    let mut i: usize = 0;
    while i < le.len()
        invariant
            lv == crate::graph::value_entries_view(entries_view(le@)),
            rv == crate::graph::value_entries_view(entries_view(re@)),
            lv == left@,
            rv == right@,
            i <= le@.len(),
            crate::smap::sorted_keys(out@),
            forall|k: Seq<char>| #[trigger] lookup(out@, k) == product_lookup(lv.subrange(0, i as int), rv.subrange(0, 0), k),
        decreases le@.len() - i,
    {
        let key = namespaced(Side::Left, le[i].0.as_str());
        let ghost e = lv[i as int];
        proof {
            assert(e.0 == le@[i as int].0@ && e.1 == le@[i as int].1@);
        }
        out.insert(key, le[i].1.copy());
        proof {
            let pre = lv.subrange(0, i as int);
            assert(lv.subrange(0, i + 1) =~= pre.push(e));
            assert forall|k: Seq<char>| #[trigger] lookup(out@, k) == product_lookup(lv.subrange(0, i + 1), rv.subrange(0, 0), k) by {
                lemma_prefix_split(Side::Left, e.0, k);
                if k.len() >= 6 && k.subrange(0, 6) == side_prefix(Side::Left) {
                    crate::smap::lemma_last_lookup_push(pre, e, k.subrange(6, k.len() as int));
                }
            }
        }
        i = i + 1;
    }
    proof {
        assert(lv.subrange(0, le@.len() as int) =~= lv);
    }
    let mut j: usize = 0;
    while j < re.len()
        invariant
            rv == crate::graph::value_entries_view(entries_view(re@)),
            rv == right@,
            lv == left@,
            j <= re@.len(),
            crate::smap::sorted_keys(out@),
            forall|k: Seq<char>| #[trigger] lookup(out@, k) == product_lookup(lv, rv.subrange(0, j as int), k),
        decreases re@.len() - j,
    {
        let key = namespaced(Side::Right, re[j].0.as_str());
        let ghost e = rv[j as int];
        proof {
            assert(e.0 == re@[j as int].0@ && e.1 == re@[j as int].1@);
        }
        out.insert(key, re[j].1.copy());
        proof {
            let pre = rv.subrange(0, j as int);
            assert(rv.subrange(0, j + 1) =~= pre.push(e));
            assert forall|k: Seq<char>| #[trigger] lookup(out@, k) == product_lookup(lv, rv.subrange(0, j + 1), k) by {
                lemma_prefix_split(Side::Right, e.0, k);
                if k.len() >= 7 && k.subrange(0, 7) == side_prefix(Side::Right) {
                    crate::smap::lemma_last_lookup_push(pre, e, k.subrange(7, k.len() as int));
                    assert(!(k.subrange(0, 6) == side_prefix(Side::Left))) by {
                        assert(k.subrange(0, 6)[0] == k[0]);
                        assert(side_prefix(Side::Left)[0] == 'l');
                        assert(k.subrange(0, 7)[0] == k[0]);
                    }
                }
            }
        }
        j = j + 1;
    }
    proof {
        assert(rv.subrange(0, re@.len() as int) =~= rv);
    }
    out
}

/// Some connection of `cs` joins the left action `a`.
pub open spec fn connected_left(cs: Seq<ConnectionV>, a: Seq<char>) -> bool {
    exists|c: int| 0 <= c < cs.len() && #[trigger] cs[c].left_action == a
}

/// Some connection of `cs` joins the right action `a`.
pub open spec fn connected_right(cs: Seq<ConnectionV>, a: Seq<char>) -> bool {
    exists|c: int| 0 <= c < cs.len() && #[trigger] cs[c].right_action == a
}

pub(crate) fn is_connected_left(connections: &Vec<Connection>, action: &str) -> (r: bool)
    ensures
        r == connected_left(crate::open::connection_views(connections@), action@),
{
    let ghost cs = crate::open::connection_views(connections@);
    let mut i: usize = 0;
    while i < connections.len()
        invariant
            cs == crate::open::connection_views(connections@),
            i <= connections@.len(),
            forall|c: int| 0 <= c < i ==> #[trigger] cs[c].left_action != action@,
        decreases connections@.len() - i,
    {
        proof {
            assert(cs[i as int] == connections@[i as int]@);
        }
        if str_eq(connections[i].left_action.as_str(), action) {
            proof {
                assert(cs[i as int].left_action == action@);
            }
            return true;
        }
        i = i + 1;
    }
    false
}

pub(crate) fn is_connected_right(connections: &Vec<Connection>, action: &str) -> (r: bool)
    ensures
        r == connected_right(crate::open::connection_views(connections@), action@),
{
    let ghost cs = crate::open::connection_views(connections@);
    let mut i: usize = 0;
    while i < connections.len()
        invariant
            cs == crate::open::connection_views(connections@),
            i <= connections@.len(),
            forall|c: int| 0 <= c < i ==> #[trigger] cs[c].right_action != action@,
        decreases connections@.len() - i,
    {
        proof {
            assert(cs[i as int] == connections@[i as int]@);
        }
        if str_eq(connections[i].right_action.as_str(), action) {
            proof {
                assert(cs[i as int].right_action == action@);
            }
            return true;
        }
        i = i + 1;
    }
    false
}

/// The action name of a transition kind (empty for the stutter).
pub open spec fn action_of(k: KindV) -> Seq<char> {
    match k {
        KindV::Action(a) => a,
        KindV::IdentityStutter => Seq::empty(),
    }
}

/// The product index of left state `a` and right state `b`, with `rn`
/// right states.
pub open spec fn product_index(a: int, b: int, rn: int) -> StateId {
    (a * rn + b) as StateId
}

pub proof fn lemma_product_index_bound(a: int, b: int, ln: int, rn: int)
    requires
        0 <= a < ln,
        0 <= b < rn,
    ensures
        0 <= a * rn + b < ln * rn,
{
    assert(a * rn + b < ln * rn) by (nonlinear_arith)
        requires 0 <= a < ln, 0 <= b < rn;
    assert(0 <= a * rn) by (nonlinear_arith)
        requires 0 <= a, 0 <= rn;
}

/// The identity stutter of product state `(a, b)`, present where either
/// side has one.
pub open spec fn stutter_step(l: GraphV, r: GraphV, a: int, b: int, t: TransitionV) -> bool {
    &&& has_identity_stutter(l, a) || has_identity_stutter(r, b)
    &&& t == (TransitionV { from: product_index(a, b, r.states.len() as int), to: product_index(a, b, r.states.len() as int), kind: KindV::IdentityStutter })
}

/// Left transition `k` leaves `a` with an action that no connection joins.
pub open spec fn left_free(l: GraphV, cs: Seq<ConnectionV>, a: int, k: int) -> bool {
    &&& 0 <= k < l.transitions.len()
    &&& l.transitions[k].from == a
    &&& l.transitions[k].kind is Action
    &&& !connected_left(cs, action_of(l.transitions[k].kind))
}

/// The product step of left transition `k` while the right side stays at `b`.
pub open spec fn left_image(l: GraphV, r: GraphV, a: int, b: int, k: int) -> TransitionV {
    TransitionV {
        from: product_index(a, b, r.states.len() as int),
        to: product_index(l.transitions[k].to as int, b, r.states.len() as int),
        kind: KindV::Action(side_prefix(Side::Left) + action_of(l.transitions[k].kind)),
    }
}

pub open spec fn left_step(l: GraphV, r: GraphV, cs: Seq<ConnectionV>, a: int, b: int, t: TransitionV) -> bool {
    exists|k: int| #[trigger] left_free(l, cs, a, k) && t == left_image(l, r, a, b, k)
}

/// Right transition `k` leaves `b` with an action that no connection joins.
pub open spec fn right_free(r: GraphV, cs: Seq<ConnectionV>, b: int, k: int) -> bool {
    &&& 0 <= k < r.transitions.len()
    &&& r.transitions[k].from == b
    &&& r.transitions[k].kind is Action
    &&& !connected_right(cs, action_of(r.transitions[k].kind))
}

/// The product step of right transition `k` while the left side stays at `a`.
pub open spec fn right_image(r: GraphV, a: int, b: int, k: int) -> TransitionV {
    TransitionV {
        from: product_index(a, b, r.states.len() as int),
        to: product_index(a, r.transitions[k].to as int, r.states.len() as int),
        kind: KindV::Action(side_prefix(Side::Right) + action_of(r.transitions[k].kind)),
    }
}

pub open spec fn right_step(r: GraphV, cs: Seq<ConnectionV>, a: int, b: int, t: TransitionV) -> bool {
    exists|k: int| #[trigger] right_free(r, cs, b, k) && t == right_image(r, a, b, k)
}

/// Connection `c` is taken by left transition `k1` from `a` and right
/// transition `k2` from `b` together.
pub open spec fn sync_pair(l: GraphV, r: GraphV, cs: Seq<ConnectionV>, a: int, b: int, c: int, k1: int, k2: int) -> bool {
    &&& 0 <= c < cs.len()
    &&& 0 <= k1 < l.transitions.len()
    &&& 0 <= k2 < r.transitions.len()
    &&& l.transitions[k1].from == a
    &&& r.transitions[k2].from == b
    &&& l.transitions[k1].kind == KindV::Action(cs[c].left_action)
    &&& r.transitions[k2].kind == KindV::Action(cs[c].right_action)
}

pub open spec fn sync_image(l: GraphV, r: GraphV, cs: Seq<ConnectionV>, a: int, b: int, c: int, k1: int, k2: int) -> TransitionV {
    TransitionV {
        from: product_index(a, b, r.states.len() as int),
        to: product_index(l.transitions[k1].to as int, r.transitions[k2].to as int, r.states.len() as int),
        kind: KindV::Action(cs[c].composite_action),
    }
}

pub open spec fn sync_step(l: GraphV, r: GraphV, cs: Seq<ConnectionV>, a: int, b: int, t: TransitionV) -> bool {
    exists|c: int, k1: int, k2: int| #[trigger] sync_pair(l, r, cs, a, b, c, k1, k2) && t == sync_image(l, r, cs, a, b, c, k1, k2)
}

/// A transition of the product from state `(a, b)`: the identity stutter
/// where either side has one, an unconnected action of one side under its
/// namespace while the other side stays, or a connection taken by both
/// sides at once under its composite name.
pub open spec fn product_step_at(l: GraphV, r: GraphV, cs: Seq<ConnectionV>, a: int, b: int, t: TransitionV) -> bool {
    ||| stutter_step(l, r, a, b, t)
    ||| left_step(l, r, cs, a, b, t)
    ||| right_step(r, cs, a, b, t)
    ||| sync_step(l, r, cs, a, b, t)
}

/// A transition of the product of `l` and `r` under the connections `cs`.
pub open spec fn product_step(l: GraphV, r: GraphV, cs: Seq<ConnectionV>, t: TransitionV) -> bool {
    exists|a: int, b: int| 0 <= a < l.states.len() && 0 <= b < r.states.len() && #[trigger] product_step_at(l, r, cs, a, b, t)
}

/// Whether state `s` of `g` has an identity stutter.
fn has_stutter(g: &FiniteGraph, s: StateId) -> (r: bool)
    requires
        s < g@.states.len(),
    ensures
        r == has_identity_stutter(g@, s as int),
{
    proof {
        use_type_invariant(g);
    }
    let ids = g.outgoing_ids(s);
    let mut j: usize = 0;
    while j < ids.len()
        invariant
            ids@ == g@.outgoing[s as int],
            graph_wf(g@),
            j <= ids@.len(),
            forall|i: int| 0 <= i < j ==> g@.transitions[#[trigger] ids@[i] as int].kind != KindV::IdentityStutter,
        decreases ids@.len() - j,
    {
        let id = ids[j];
        let t = g.transition(id);
        match t.kind {
            crate::graph::TransitionKind::IdentityStutter => {
                proof {
                    assert(g@.transitions[id as int].from == s);
                }
                return true;
            },
            _ => {},
        }
        j = j + 1;
    }
    proof {
        if has_identity_stutter(g@, s as int) {
            let k = choose|k: int| 0 <= k < g@.transitions.len() && #[trigger] g@.transitions[k].from == s && g@.transitions[k].kind == KindV::IdentityStutter;
            assert(g@.outgoing[g@.transitions[k].from as int].contains(k as usize));
            let i = choose|i: int| 0 <= i < ids@.len() && ids@[i] == k as usize;
            assert(g@.transitions[ids@[i] as int].kind != KindV::IdentityStutter);
        }
    }
    false
}

/// More than `limit` distinct product transitions exist.
pub open spec fn more_steps_than(l: GraphV, r: GraphV, cs: Seq<ConnectionV>, limit: usize) -> bool {
    exists|s: Seq<TransitionV>| s.len() > limit && s.no_duplicates()
        && forall|i: int| 0 <= i < s.len() ==> #[trigger] product_step(l, r, cs, s[i])
}

/// The transitions generated so far are distinct, each from a state
/// numbered no higher than `from`.
pub open spec fn distinct_upto(ts: Seq<TransitionV>, from: int) -> bool {
    &&& ts.no_duplicates()
    &&& forall|i: int| 0 <= i < ts.len() ==> #[trigger] ts[i].from <= from
    &&& forall|i: int, j: int| 0 <= i < j < ts.len() ==> ts[i].from <= ts[j].from
}

/// Whether two transitions are equal.
fn same_transition(x: &Transition, y: &Transition) -> (r: bool)
    ensures
        r == (x@ == y@),
{
    if x.from != y.from || x.to != y.to {
        return false;
    }
    match (&x.kind, &y.kind) {
        (crate::graph::TransitionKind::IdentityStutter, crate::graph::TransitionKind::IdentityStutter) => true,
        (crate::graph::TransitionKind::Action(p), crate::graph::TransitionKind::Action(q)) => crate::text::str_eq(p.as_str(), q.as_str()),
        _ => false,
    }
}

/// Appends `t` unless it was generated already or the generated transitions
/// would exceed `limit`. Only transitions of the current state, which come
/// last, can equal `t`.
fn push_limited(transitions: &mut Vec<Transition>, limit: usize, t: Transition) -> (r: Result<(), crate::open::CompositionError>)
    requires
        old(transitions)@.len() <= limit,
        distinct_upto(transition_views(old(transitions)@), t@.from as int),
    ensures
        final(transitions)@.len() <= limit,
        distinct_upto(transition_views(final(transitions)@), t@.from as int),
        r is Ok ==> (transition_views(final(transitions)@) == transition_views(old(transitions)@).push(t@))
            || (transition_views(final(transitions)@) == transition_views(old(transitions)@) && transition_views(old(transitions)@).contains(t@)),
        r is Err ==> transition_views(final(transitions)@) == transition_views(old(transitions)@)
            && !transition_views(old(transitions)@).contains(t@) && old(transitions)@.len() >= limit,
        r matches Err(e) ==> (limit < usize::MAX && old(transitions)@.len() == limit
                && e == crate::open::CompositionError::TransitionLimitExceeded { attempted: (limit + 1) as usize, limit })
            || (limit == usize::MAX && e == crate::open::CompositionError::TransitionCountOverflow),
{
    let ghost tv = transition_views(transitions@);
    let n = transitions.len();
    let mut k: usize = n;
    while k > 0 && transitions[k - 1].from == t.from
        invariant
            k <= n,
            n == transitions@.len(),
            tv == transition_views(transitions@),
            forall|i: int| k <= i < n ==> tv[i] != t@,
            forall|i: int| k <= i < n ==> #[trigger] tv[i].from == t@.from,
        decreases k,
    {
        if same_transition(&transitions[k - 1], &t) {
            proof {
                assert(tv[k - 1] == t@);
            }
            return Ok(());
        }
        k = k - 1;
    }
    proof {
        assert(!tv.contains(t@)) by {
            if tv.contains(t@) {
                let i = choose|i: int| 0 <= i < tv.len() && tv[i] == t@;
                if i >= k {
                    assert(tv[i] == t@);
                } else {
                    assert(k > 0);
                    assert(tv[k - 1].from != t@.from);
                    assert(tv[k - 1].from <= t@.from);
                    assert(tv[i].from <= tv[k - 1].from);
                }
            }
        }
    }
    if n == usize::MAX {
        return Err(crate::open::CompositionError::TransitionCountOverflow);
    }
    let attempted = n + 1;
    if attempted > limit {
        return Err(crate::open::CompositionError::TransitionLimitExceeded { attempted, limit });
    }
    transitions.push(t);
    proof {
        let nv = transition_views(transitions@);
        assert(nv =~= tv.push(t@));
        assert forall|i: int, j: int| 0 <= i < j < nv.len() implies nv[i].from <= nv[j].from by {
            if j < tv.len() {
                assert(nv[i] == tv[i] && nv[j] == tv[j]);
            } else {
                assert(nv[i] == tv[i]);
                assert(tv[i].from <= t@.from);
            }
        }
        assert forall|i: int, j: int| 0 <= i < nv.len() && 0 <= j < nv.len() && i != j implies nv[i] != nv[j] by {
            if i < tv.len() && j < tv.len() {
                assert(nv[i] == tv[i] && nv[j] == tv[j]);
            } else if i < tv.len() {
                assert(tv.contains(tv[i]));
            } else {
                assert(tv.contains(tv[j]));
            }
        }
    }
    Ok(())
}

/// `new` keeps `old` as a prefix and adds only product transitions from
/// state `(a, b)`.
pub open spec fn extends_at(l: GraphV, r: GraphV, cs: Seq<ConnectionV>, a: int, b: int, old: Seq<TransitionV>, new: Seq<TransitionV>) -> bool {
    &&& old.len() <= new.len()
    &&& forall|i: int| 0 <= i < old.len() ==> #[trigger] new[i] == old[i]
    &&& forall|i: int| old.len() <= i < new.len() ==> product_step_at(l, r, cs, a, b, #[trigger] new[i])
}

/// The error of a transition push that would exceed `limit`.
pub open spec fn transition_limit_error(limit: usize, e: crate::open::CompositionError) -> bool {
    ||| limit < usize::MAX && e == crate::open::CompositionError::TransitionLimitExceeded { attempted: (limit + 1) as usize, limit }
    ||| limit == usize::MAX && e == crate::open::CompositionError::TransitionCountOverflow
}

proof fn lemma_extends_trans(l: GraphV, r: GraphV, cs: Seq<ConnectionV>, a: int, b: int, o: Seq<TransitionV>, m: Seq<TransitionV>, n: Seq<TransitionV>)
    requires
        extends_at(l, r, cs, a, b, o, m),
        extends_at(l, r, cs, a, b, m, n),
    ensures
        extends_at(l, r, cs, a, b, o, n),
{
    assert forall|i: int| o.len() <= i < n.len() implies product_step_at(l, r, cs, a, b, #[trigger] n[i]) by {
        if i < m.len() {
            assert(n[i] == m[i]);
        }
    }
    assert forall|i: int| 0 <= i < o.len() implies #[trigger] n[i] == o[i] by {
        assert(n[i] == m[i]);
    }
}

proof fn lemma_extends_contains(l: GraphV, r: GraphV, cs: Seq<ConnectionV>, a: int, b: int, m: Seq<TransitionV>, n: Seq<TransitionV>, t: TransitionV)
    requires
        extends_at(l, r, cs, a, b, m, n),
        m.contains(t),
    ensures
        n.contains(t),
{
    let i = choose|i: int| 0 <= i < m.len() && m[i] == t;
    assert(n[i] == m[i]);
}

proof fn lemma_push_extends(l: GraphV, r: GraphV, cs: Seq<ConnectionV>, a: int, b: int, o: Seq<TransitionV>, m: Seq<TransitionV>, t: TransitionV)
    requires
        extends_at(l, r, cs, a, b, o, m),
        product_step_at(l, r, cs, a, b, t),
    ensures
        extends_at(l, r, cs, a, b, o, m.push(t)),
        extends_at(l, r, cs, a, b, m, m.push(t)),
        m.push(t).contains(t),
{
    let n = m.push(t);
    assert(n[m.len() as int] == t);
    assert forall|i: int| o.len() <= i < n.len() implies product_step_at(l, r, cs, a, b, #[trigger] n[i]) by {
        if i < m.len() {
            assert(n[i] == m[i]);
        }
    }
    assert forall|i: int| 0 <= i < o.len() implies #[trigger] n[i] == o[i] by {
        assert(n[i] == m[i]);
    }
}

/// `s`, which extends `tv0` with steps from `(a, b)`, is full at `limit`,
/// has no repeats, and misses a product step from `(a, b)`.
pub open spec fn overflowed_at(l: GraphV, r: GraphV, cs: Seq<ConnectionV>, a: int, b: int, limit: usize,
    tv0: Seq<TransitionV>, s: Seq<TransitionV>) -> bool {
    &&& extends_at(l, r, cs, a, b, tv0, s)
    &&& s.no_duplicates()
    &&& s.len() >= limit
    &&& exists|t: TransitionV| #[trigger] product_step_at(l, r, cs, a, b, t) && !s.contains(t)
}

proof fn lemma_more_steps(l: GraphV, r: GraphV, cs: Seq<ConnectionV>, a: int, b: int, limit: usize,
    before: Seq<TransitionV>, s: Seq<TransitionV>)
    requires
        0 <= a < l.states.len(),
        0 <= b < r.states.len(),
        forall|i: int| 0 <= i < before.len() ==> product_step(l, r, cs, #[trigger] before[i]),
        overflowed_at(l, r, cs, a, b, limit, before, s),
    ensures
        more_steps_than(l, r, cs, limit),
{
    let t = choose|t: TransitionV| #[trigger] product_step_at(l, r, cs, a, b, t) && !s.contains(t);
    let w = s.push(t);
    assert forall|i: int| 0 <= i < w.len() implies #[trigger] product_step(l, r, cs, w[i]) by {
        if i < before.len() {
            assert(s[i] == before[i]);
            assert(w[i] == s[i]);
        } else if i < s.len() {
            assert(w[i] == s[i]);
            assert(product_step_at(l, r, cs, a, b, s[i]));
        } else {
            assert(w[i] == t);
        }
    }
    assert forall|i: int, j: int| 0 <= i < w.len() && 0 <= j < w.len() && i != j implies w[i] != w[j] by {
        if i < s.len() && j < s.len() {
            assert(w[i] == s[i] && w[j] == s[j]);
        } else if i < s.len() {
            assert(w[i] == s[i]);
            assert(s.contains(s[i]));
        } else {
            assert(w[j] == s[j]);
            assert(s.contains(s[j]));
        }
    }
    assert(w.no_duplicates());
}

proof fn lemma_overflow_widen(l: GraphV, r: GraphV, cs: Seq<ConnectionV>, a: int, b: int, limit: usize,
    tv0: Seq<TransitionV>, tv1: Seq<TransitionV>, s: Seq<TransitionV>)
    requires
        extends_at(l, r, cs, a, b, tv0, tv1),
        overflowed_at(l, r, cs, a, b, limit, tv1, s),
    ensures
        overflowed_at(l, r, cs, a, b, limit, tv0, s),
{
    lemma_extends_trans(l, r, cs, a, b, tv0, tv1, s);
}

proof fn lemma_push_keep(l: GraphV, r: GraphV, cs: Seq<ConnectionV>, a: int, b: int, tv0: Seq<TransitionV>,
    before: Seq<TransitionV>, now: Seq<TransitionV>, t: TransitionV)
    requires
        extends_at(l, r, cs, a, b, tv0, before),
        product_step_at(l, r, cs, a, b, t),
        now == before.push(t) || (now == before && before.contains(t)),
    ensures
        extends_at(l, r, cs, a, b, tv0, now),
        extends_at(l, r, cs, a, b, before, now),
        now.contains(t),
{
    if now == before.push(t) {
        lemma_push_extends(l, r, cs, a, b, tv0, before, t);
    } else {
        assert(extends_at(l, r, cs, a, b, before, before));
    }
}

/// Pushes the stutter of `(a, b)` where either side has one.
fn stutter_steps(l: &FiniteGraph, r: &FiniteGraph, a: usize, b: usize, rn: usize, transitions: &mut Vec<Transition>, limit: usize)
    -> (res: Result<(), crate::open::CompositionError>)
    requires
        rn == r@.states.len(),
        l@.states.len() * rn <= usize::MAX,
        a < l@.states.len(),
        b < rn,
        old(transitions)@.len() <= limit,
        distinct_upto(transition_views(old(transitions)@), product_index(a as int, b as int, rn as int) as int),
    ensures
        final(transitions)@.len() <= limit,
        distinct_upto(transition_views(final(transitions)@), product_index(a as int, b as int, rn as int) as int),
        res is Ok ==> forall|cs: Seq<ConnectionV>| extends_at(l@, r@, cs, a as int, b as int, transition_views(old(transitions)@), transition_views(final(transitions)@)),
        res is Ok ==> forall|t: TransitionV| stutter_step(l@, r@, a as int, b as int, t) ==> transition_views(final(transitions)@).contains(t),
        res matches Err(e) ==> transition_limit_error(limit, e),
        res is Err ==> forall|cs: Seq<ConnectionV>| overflowed_at(l@, r@, cs, a as int, b as int, limit, transition_views(old(transitions)@), transition_views(final(transitions)@)),
{
    proof {
        lemma_product_index_bound(a as int, b as int, l@.states.len() as int, rn as int);
    }
    let from = a * rn + b;
    let ghost tv0 = transition_views(transitions@);
    if has_stutter(l, a) || has_stutter(r, b) {
        let t = Transition::identity_stutter(from);
        proof {
            assert(stutter_step(l@, r@, a as int, b as int, t@));
        }
        match push_limited(transitions, limit, t) {
            Ok(()) => {},
            Err(e) => {
                proof {
                    assert forall|cs: Seq<ConnectionV>| overflowed_at(l@, r@, cs, a as int, b as int, limit, tv0, transition_views(transitions@)) by {
                        assert(extends_at(l@, r@, cs, a as int, b as int, tv0, tv0));
                        assert(product_step_at(l@, r@, cs, a as int, b as int, t@));
                    }
                }
                return Err(e);
            },
        }
        proof {
            assert forall|cs: Seq<ConnectionV>| extends_at(l@, r@, cs, a as int, b as int, tv0, transition_views(transitions@)) by {
                assert(extends_at(l@, r@, cs, a as int, b as int, tv0, tv0));
                lemma_push_keep(l@, r@, cs, a as int, b as int, tv0, tv0, transition_views(transitions@), t@);
            }
            assert(extends_at(l@, r@, Seq::<ConnectionV>::empty(), a as int, b as int, tv0, tv0));
            lemma_push_keep(l@, r@, Seq::<ConnectionV>::empty(), a as int, b as int, tv0, tv0, transition_views(transitions@), t@);
        }
    }
    Ok(())
}

/// Pushes the unconnected left steps from `(a, b)`.
fn left_steps(l: &FiniteGraph, r: &FiniteGraph, connections: &Vec<Connection>, a: usize, b: usize, rn: usize, transitions: &mut Vec<Transition>, limit: usize)
    -> (res: Result<(), crate::open::CompositionError>)
    requires
        rn == r@.states.len(),
        l@.states.len() * rn <= usize::MAX,
        a < l@.states.len(),
        b < rn,
        old(transitions)@.len() <= limit,
        distinct_upto(transition_views(old(transitions)@), product_index(a as int, b as int, rn as int) as int),
    ensures
        final(transitions)@.len() <= limit,
        distinct_upto(transition_views(final(transitions)@), product_index(a as int, b as int, rn as int) as int),
        res is Ok ==> extends_at(l@, r@, crate::open::connection_views(connections@), a as int, b as int, transition_views(old(transitions)@), transition_views(final(transitions)@)),
        res is Ok ==> forall|t: TransitionV| left_step(l@, r@, crate::open::connection_views(connections@), a as int, b as int, t)
            ==> transition_views(final(transitions)@).contains(t),
        res matches Err(e) ==> transition_limit_error(limit, e),
        res is Err ==> overflowed_at(l@, r@, crate::open::connection_views(connections@), a as int, b as int, limit,
            transition_views(old(transitions)@), transition_views(final(transitions)@)),
{
    proof {
        use_type_invariant(l);
        lemma_product_index_bound(a as int, b as int, l@.states.len() as int, rn as int);
    }
    let ghost cs = crate::open::connection_views(connections@);
    let ghost lg = l@;
    let ghost rg = r@;
    let from = a * rn + b;
    let ghost tv0 = transition_views(transitions@);
    let ids = l.outgoing_ids(a);
    let mut j: usize = 0;
    while j < ids.len()
        invariant
            ids@ == lg.outgoing[a as int],
            graph_wf(lg),
            lg == l@,
            rg == r@,
            cs == crate::open::connection_views(connections@),
            from == product_index(a as int, b as int, rn as int),
            j <= ids@.len(),
            transitions@.len() <= limit,
            distinct_upto(transition_views(transitions@), product_index(a as int, b as int, rn as int) as int),
            extends_at(lg, rg, cs, a as int, b as int, tv0, transition_views(transitions@)),
            forall|i: int| 0 <= i < j && #[trigger] left_free(lg, cs, a as int, ids@[i] as int)
                ==> transition_views(transitions@).contains(left_image(lg, rg, a as int, b as int, ids@[i] as int)),
        decreases ids@.len() - j,
    {
        let id = ids[j];
        let t = l.transition(id);
        let ghost k = id as int;
        let ghost before = transition_views(transitions@);
        proof {
            assert(lg.transitions[k].from == a);
            assert(transition_valid(lg.transitions[k], lg.states.len()));
        }
        match t.kind.action() {
            Some(x) => {
                if !is_connected_left(connections, x) {
                    proof {
                        lemma_product_index_bound(t.to as int, b as int, l@.states.len() as int, rn as int);
                    }
                    let to = t.to * rn + b;
                    let name = namespaced(Side::Left, x);
                    let nt = Transition::action(from, name.as_str(), to);
                    proof {
                        assert(left_free(lg, cs, a as int, k));
                        assert(nt@ == left_image(lg, rg, a as int, b as int, k));
                        assert(left_step(lg, rg, cs, a as int, b as int, nt@));
                    }
                    match push_limited(transitions, limit, nt) {
                        Ok(()) => {},
                        Err(e) => {
                            proof {
                                assert(product_step_at(lg, rg, cs, a as int, b as int, nt@));
                            }
                            return Err(e);
                        },
                    }
                    proof {
                        lemma_push_keep(lg, rg, cs, a as int, b as int, tv0, before, transition_views(transitions@), nt@);
                        assert forall|i: int| 0 <= i < j + 1 && #[trigger] left_free(lg, cs, a as int, ids@[i] as int)
                            implies transition_views(transitions@).contains(left_image(lg, rg, a as int, b as int, ids@[i] as int)) by {
                            if i < j {
                                lemma_extends_contains(lg, rg, cs, a as int, b as int, before, transition_views(transitions@), left_image(lg, rg, a as int, b as int, ids@[i] as int));
                            }
                        }
                    }
                } else {
                    proof {
                        assert(!left_free(lg, cs, a as int, k));
                    }
                }
            },
            None => {
                proof {
                    assert(!left_free(lg, cs, a as int, k));
                }
            },
        }
        j = j + 1;
    }
    proof {
        assert forall|t: TransitionV| left_step(lg, rg, cs, a as int, b as int, t) implies transition_views(transitions@).contains(t) by {
            let k = choose|k: int| #[trigger] left_free(lg, cs, a as int, k) && t == left_image(lg, rg, a as int, b as int, k);
            assert(lg.outgoing[lg.transitions[k].from as int].contains(k as usize));
            let i = choose|i: int| 0 <= i < ids@.len() && ids@[i] == k as usize;
            assert(left_free(lg, cs, a as int, ids@[i] as int));
        }
    }
    Ok(())
}

/// Pushes the unconnected right steps from `(a, b)`.
fn right_steps(l: &FiniteGraph, r: &FiniteGraph, connections: &Vec<Connection>, a: usize, b: usize, rn: usize, transitions: &mut Vec<Transition>, limit: usize)
    -> (res: Result<(), crate::open::CompositionError>)
    requires
        rn == r@.states.len(),
        l@.states.len() * rn <= usize::MAX,
        a < l@.states.len(),
        b < rn,
        old(transitions)@.len() <= limit,
        distinct_upto(transition_views(old(transitions)@), product_index(a as int, b as int, rn as int) as int),
    ensures
        final(transitions)@.len() <= limit,
        distinct_upto(transition_views(final(transitions)@), product_index(a as int, b as int, rn as int) as int),
        res is Ok ==> extends_at(l@, r@, crate::open::connection_views(connections@), a as int, b as int, transition_views(old(transitions)@), transition_views(final(transitions)@)),
        res is Ok ==> forall|t: TransitionV| right_step(r@, crate::open::connection_views(connections@), a as int, b as int, t)
            ==> transition_views(final(transitions)@).contains(t),
        res matches Err(e) ==> transition_limit_error(limit, e),
        res is Err ==> overflowed_at(l@, r@, crate::open::connection_views(connections@), a as int, b as int, limit,
            transition_views(old(transitions)@), transition_views(final(transitions)@)),
{
    proof {
        use_type_invariant(r);
        lemma_product_index_bound(a as int, b as int, l@.states.len() as int, rn as int);
    }
    let ghost cs = crate::open::connection_views(connections@);
    let ghost lg = l@;
    let ghost rg = r@;
    let from = a * rn + b;
    let ghost tv0 = transition_views(transitions@);
    let ids = r.outgoing_ids(b);
    let mut j: usize = 0;
    while j < ids.len()
        invariant
            ids@ == rg.outgoing[b as int],
            graph_wf(rg),
            lg == l@,
            rg == r@,
            cs == crate::open::connection_views(connections@),
            from == product_index(a as int, b as int, rn as int),
            j <= ids@.len(),
            transitions@.len() <= limit,
            distinct_upto(transition_views(transitions@), product_index(a as int, b as int, rn as int) as int),
            extends_at(lg, rg, cs, a as int, b as int, tv0, transition_views(transitions@)),
            forall|i: int| 0 <= i < j && #[trigger] right_free(rg, cs, b as int, ids@[i] as int)
                ==> transition_views(transitions@).contains(right_image(rg, a as int, b as int, ids@[i] as int)),
        decreases ids@.len() - j,
    {
        let id = ids[j];
        let t = r.transition(id);
        let ghost k = id as int;
        let ghost before = transition_views(transitions@);
        proof {
            assert(rg.transitions[k].from == b);
            assert(transition_valid(rg.transitions[k], rg.states.len()));
        }
        match t.kind.action() {
            Some(x) => {
                if !is_connected_right(connections, x) {
                    proof {
                        lemma_product_index_bound(a as int, t.to as int, l@.states.len() as int, rn as int);
                    }
                    let to = a * rn + t.to;
                    let name = namespaced(Side::Right, x);
                    let nt = Transition::action(from, name.as_str(), to);
                    proof {
                        assert(right_free(rg, cs, b as int, k));
                        assert(nt@ == right_image(rg, a as int, b as int, k));
                        assert(right_step(rg, cs, a as int, b as int, nt@));
                    }
                    match push_limited(transitions, limit, nt) {
                        Ok(()) => {},
                        Err(e) => {
                            proof {
                                assert(product_step_at(lg, rg, cs, a as int, b as int, nt@));
                            }
                            return Err(e);
                        },
                    }
                    proof {
                        lemma_push_keep(lg, rg, cs, a as int, b as int, tv0, before, transition_views(transitions@), nt@);
                        assert forall|i: int| 0 <= i < j + 1 && #[trigger] right_free(rg, cs, b as int, ids@[i] as int)
                            implies transition_views(transitions@).contains(right_image(rg, a as int, b as int, ids@[i] as int)) by {
                            if i < j {
                                lemma_extends_contains(lg, rg, cs, a as int, b as int, before, transition_views(transitions@), right_image(rg, a as int, b as int, ids@[i] as int));
                            }
                        }
                    }
                } else {
                    proof {
                        assert(!right_free(rg, cs, b as int, k));
                    }
                }
            },
            None => {
                proof {
                    assert(!right_free(rg, cs, b as int, k));
                }
            },
        }
        j = j + 1;
    }
    proof {
        assert forall|t: TransitionV| right_step(rg, cs, a as int, b as int, t) implies transition_views(transitions@).contains(t) by {
            let k = choose|k: int| #[trigger] right_free(rg, cs, b as int, k) && t == right_image(rg, a as int, b as int, k);
            assert(rg.outgoing[rg.transitions[k].from as int].contains(k as usize));
            let i = choose|i: int| 0 <= i < ids@.len() && ids@[i] == k as usize;
            assert(right_free(rg, cs, b as int, ids@[i] as int));
        }
    }
    Ok(())
}

/// Pushes the steps of connection `c` taken by left transition `k1`
/// together with each matching right transition from `b`.
fn sync_right(l: &FiniteGraph, r: &FiniteGraph, connections: &Vec<Connection>, c: usize, k1: usize, a: usize, b: usize, rn: usize,
    transitions: &mut Vec<Transition>, limit: usize) -> (res: Result<(), crate::open::CompositionError>)
    requires
        rn == r@.states.len(),
        l@.states.len() * rn <= usize::MAX,
        a < l@.states.len(),
        b < rn,
        c < connections@.len(),
        k1 < l@.transitions.len(),
        l@.transitions[k1 as int].from == a,
        l@.transitions[k1 as int].kind == KindV::Action(connections@[c as int].left_action@),
        old(transitions)@.len() <= limit,
        distinct_upto(transition_views(old(transitions)@), product_index(a as int, b as int, rn as int) as int),
    ensures
        final(transitions)@.len() <= limit,
        distinct_upto(transition_views(final(transitions)@), product_index(a as int, b as int, rn as int) as int),
        res is Ok ==> extends_at(l@, r@, crate::open::connection_views(connections@), a as int, b as int, transition_views(old(transitions)@), transition_views(final(transitions)@)),
        res is Ok ==> forall|k2: int| #[trigger] sync_pair(l@, r@, crate::open::connection_views(connections@), a as int, b as int, c as int, k1 as int, k2)
            ==> transition_views(final(transitions)@).contains(sync_image(l@, r@, crate::open::connection_views(connections@), a as int, b as int, c as int, k1 as int, k2)),
        res matches Err(e) ==> transition_limit_error(limit, e),
        res is Err ==> overflowed_at(l@, r@, crate::open::connection_views(connections@), a as int, b as int, limit,
            transition_views(old(transitions)@), transition_views(final(transitions)@)),
{
    proof {
        use_type_invariant(l);
        use_type_invariant(r);
        lemma_product_index_bound(a as int, b as int, l@.states.len() as int, rn as int);
    }
    let ghost cs = crate::open::connection_views(connections@);
    let ghost lg = l@;
    let ghost rg = r@;
    proof {
        assert(cs[c as int] == connections@[c as int]@);
        assert(transition_valid(lg.transitions[k1 as int], lg.states.len()));
    }
    let from = a * rn + b;
    let left_to = l.transition(k1).to;
    let ghost tv0 = transition_views(transitions@);
    let ids = r.outgoing_ids(b);
    let mut j: usize = 0;
    while j < ids.len()
        invariant
            ids@ == rg.outgoing[b as int],
            graph_wf(rg),
            lg == l@,
            rg == r@,
            cs == crate::open::connection_views(connections@),
            cs[c as int] == connections@[c as int]@,
            from == product_index(a as int, b as int, rn as int),
            left_to == lg.transitions[k1 as int].to,
            left_to < lg.states.len(),
            j <= ids@.len(),
            transitions@.len() <= limit,
            distinct_upto(transition_views(transitions@), product_index(a as int, b as int, rn as int) as int),
            extends_at(lg, rg, cs, a as int, b as int, tv0, transition_views(transitions@)),
            forall|i: int| 0 <= i < j && #[trigger] sync_pair(lg, rg, cs, a as int, b as int, c as int, k1 as int, ids@[i] as int)
                ==> transition_views(transitions@).contains(sync_image(lg, rg, cs, a as int, b as int, c as int, k1 as int, ids@[i] as int)),
        decreases ids@.len() - j,
    {
        let id = ids[j];
        let t = r.transition(id);
        let ghost k2 = id as int;
        let ghost before = transition_views(transitions@);
        proof {
            assert(rg.transitions[k2].from == b);
            assert(transition_valid(rg.transitions[k2], rg.states.len()));
        }
        if t.kind.is_action(connections[c].right_action.as_str()) {
            proof {
                lemma_product_index_bound(left_to as int, t.to as int, l@.states.len() as int, rn as int);
            }
            let to = left_to * rn + t.to;
            let nt = Transition::action(from, connections[c].composite_action.as_str(), to);
            proof {
                assert(sync_pair(lg, rg, cs, a as int, b as int, c as int, k1 as int, k2));
                assert(nt@ == sync_image(lg, rg, cs, a as int, b as int, c as int, k1 as int, k2));
                assert(sync_step(lg, rg, cs, a as int, b as int, nt@));
            }
            match push_limited(transitions, limit, nt) {
                Ok(()) => {},
                Err(e) => {
                    proof {
                        assert(product_step_at(lg, rg, cs, a as int, b as int, nt@));
                    }
                    return Err(e);
                },
            }
            proof {
                lemma_push_keep(lg, rg, cs, a as int, b as int, tv0, before, transition_views(transitions@), nt@);
                assert forall|i: int| 0 <= i < j + 1 && #[trigger] sync_pair(lg, rg, cs, a as int, b as int, c as int, k1 as int, ids@[i] as int)
                    implies transition_views(transitions@).contains(sync_image(lg, rg, cs, a as int, b as int, c as int, k1 as int, ids@[i] as int)) by {
                    if i < j {
                        lemma_extends_contains(lg, rg, cs, a as int, b as int, before, transition_views(transitions@),
                            sync_image(lg, rg, cs, a as int, b as int, c as int, k1 as int, ids@[i] as int));
                    }
                }
            }
        } else {
            proof {
                assert(!sync_pair(lg, rg, cs, a as int, b as int, c as int, k1 as int, k2));
            }
        }
        j = j + 1;
    }
    proof {
        assert forall|k2: int| #[trigger] sync_pair(lg, rg, cs, a as int, b as int, c as int, k1 as int, k2)
            implies transition_views(transitions@).contains(sync_image(lg, rg, cs, a as int, b as int, c as int, k1 as int, k2)) by {
            assert(rg.outgoing[rg.transitions[k2].from as int].contains(k2 as usize));
            let i = choose|i: int| 0 <= i < ids@.len() && ids@[i] == k2 as usize;
            assert(sync_pair(lg, rg, cs, a as int, b as int, c as int, k1 as int, ids@[i] as int));
        }
    }
    Ok(())
}

/// Pushes the steps of connection `c` from `(a, b)`.
fn sync_connection(l: &FiniteGraph, r: &FiniteGraph, connections: &Vec<Connection>, c: usize, a: usize, b: usize, rn: usize,
    transitions: &mut Vec<Transition>, limit: usize) -> (res: Result<(), crate::open::CompositionError>)
    requires
        rn == r@.states.len(),
        l@.states.len() * rn <= usize::MAX,
        a < l@.states.len(),
        b < rn,
        c < connections@.len(),
        old(transitions)@.len() <= limit,
        distinct_upto(transition_views(old(transitions)@), product_index(a as int, b as int, rn as int) as int),
    ensures
        final(transitions)@.len() <= limit,
        distinct_upto(transition_views(final(transitions)@), product_index(a as int, b as int, rn as int) as int),
        res is Ok ==> extends_at(l@, r@, crate::open::connection_views(connections@), a as int, b as int, transition_views(old(transitions)@), transition_views(final(transitions)@)),
        res is Ok ==> forall|k1: int, k2: int| #[trigger] sync_pair(l@, r@, crate::open::connection_views(connections@), a as int, b as int, c as int, k1, k2)
            ==> transition_views(final(transitions)@).contains(sync_image(l@, r@, crate::open::connection_views(connections@), a as int, b as int, c as int, k1, k2)),
        res matches Err(e) ==> transition_limit_error(limit, e),
        res is Err ==> overflowed_at(l@, r@, crate::open::connection_views(connections@), a as int, b as int, limit,
            transition_views(old(transitions)@), transition_views(final(transitions)@)),
{
    proof {
        use_type_invariant(l);
    }
    let ghost cs = crate::open::connection_views(connections@);
    let ghost lg = l@;
    let ghost rg = r@;
    proof {
        assert(cs[c as int] == connections@[c as int]@);
    }
    let ghost tv0 = transition_views(transitions@);
    let ids = l.outgoing_ids(a);
    let mut j: usize = 0;
    while j < ids.len()
        invariant
            ids@ == lg.outgoing[a as int],
            graph_wf(lg),
            lg == l@,
            rg == r@,
            cs == crate::open::connection_views(connections@),
            cs[c as int] == connections@[c as int]@,
            j <= ids@.len(),
            transitions@.len() <= limit,
            distinct_upto(transition_views(transitions@), product_index(a as int, b as int, rn as int) as int),
            extends_at(lg, rg, cs, a as int, b as int, tv0, transition_views(transitions@)),
            forall|i: int, k2: int| 0 <= i < j && #[trigger] sync_pair(lg, rg, cs, a as int, b as int, c as int, ids@[i] as int, k2)
                ==> transition_views(transitions@).contains(sync_image(lg, rg, cs, a as int, b as int, c as int, ids@[i] as int, k2)),
        decreases ids@.len() - j,
    {
        let id = ids[j];
        let ghost k1 = id as int;
        let ghost before = transition_views(transitions@);
        proof {
            assert(lg.transitions[k1].from == a);
        }
        if l.transition(id).kind.is_action(connections[c].left_action.as_str()) {
            match sync_right(l, r, connections, c, id, a, b, rn, transitions, limit) {
                Ok(()) => {},
                Err(e) => {
                    proof {
                        lemma_overflow_widen(lg, rg, cs, a as int, b as int, limit, tv0, before, transition_views(transitions@));
                    }
                    return Err(e);
                },
            }
            proof {
                lemma_extends_trans(lg, rg, cs, a as int, b as int, tv0, before, transition_views(transitions@));
                assert forall|i: int, k2: int| 0 <= i < j + 1 && #[trigger] sync_pair(lg, rg, cs, a as int, b as int, c as int, ids@[i] as int, k2)
                    implies transition_views(transitions@).contains(sync_image(lg, rg, cs, a as int, b as int, c as int, ids@[i] as int, k2)) by {
                    if i < j {
                        lemma_extends_contains(lg, rg, cs, a as int, b as int, before, transition_views(transitions@),
                            sync_image(lg, rg, cs, a as int, b as int, c as int, ids@[i] as int, k2));
                    }
                }
            }
        } else {
            proof {
                assert forall|k2: int| !sync_pair(lg, rg, cs, a as int, b as int, c as int, k1, k2) by {}
            }
        }
        j = j + 1;
    }
    proof {
        assert forall|k1: int, k2: int| #[trigger] sync_pair(lg, rg, cs, a as int, b as int, c as int, k1, k2)
            implies transition_views(transitions@).contains(sync_image(lg, rg, cs, a as int, b as int, c as int, k1, k2)) by {
            assert(lg.outgoing[lg.transitions[k1].from as int].contains(k1 as usize));
            let i = choose|i: int| 0 <= i < ids@.len() && ids@[i] == k1 as usize;
            assert(sync_pair(lg, rg, cs, a as int, b as int, c as int, ids@[i] as int, k2));
        }
    }
    Ok(())
}

/// Pushes the synchronized steps of every connection from `(a, b)`.
fn sync_steps(l: &FiniteGraph, r: &FiniteGraph, connections: &Vec<Connection>, a: usize, b: usize, rn: usize,
    transitions: &mut Vec<Transition>, limit: usize) -> (res: Result<(), crate::open::CompositionError>)
    requires
        rn == r@.states.len(),
        l@.states.len() * rn <= usize::MAX,
        a < l@.states.len(),
        b < rn,
        old(transitions)@.len() <= limit,
        distinct_upto(transition_views(old(transitions)@), product_index(a as int, b as int, rn as int) as int),
    ensures
        final(transitions)@.len() <= limit,
        distinct_upto(transition_views(final(transitions)@), product_index(a as int, b as int, rn as int) as int),
        res is Ok ==> extends_at(l@, r@, crate::open::connection_views(connections@), a as int, b as int, transition_views(old(transitions)@), transition_views(final(transitions)@)),
        res is Ok ==> forall|t: TransitionV| sync_step(l@, r@, crate::open::connection_views(connections@), a as int, b as int, t)
            ==> transition_views(final(transitions)@).contains(t),
        res matches Err(e) ==> transition_limit_error(limit, e),
        res is Err ==> overflowed_at(l@, r@, crate::open::connection_views(connections@), a as int, b as int, limit,
            transition_views(old(transitions)@), transition_views(final(transitions)@)),
{
    let ghost cs = crate::open::connection_views(connections@);
    let ghost lg = l@;
    let ghost rg = r@;
    let ghost tv0 = transition_views(transitions@);
    let mut c: usize = 0;
    while c < connections.len()
        invariant
            lg == l@,
            rg == r@,
            cs == crate::open::connection_views(connections@),
            c <= connections@.len(),
            transitions@.len() <= limit,
            distinct_upto(transition_views(transitions@), product_index(a as int, b as int, rn as int) as int),
            extends_at(lg, rg, cs, a as int, b as int, tv0, transition_views(transitions@)),
            forall|cc: int, k1: int, k2: int| 0 <= cc < c && #[trigger] sync_pair(lg, rg, cs, a as int, b as int, cc, k1, k2)
                ==> transition_views(transitions@).contains(sync_image(lg, rg, cs, a as int, b as int, cc, k1, k2)),
        decreases connections@.len() - c,
    {
        let ghost before = transition_views(transitions@);
        match sync_connection(l, r, connections, c, a, b, rn, transitions, limit) {
            Ok(()) => {},
            Err(e) => {
                proof {
                    lemma_overflow_widen(lg, rg, cs, a as int, b as int, limit, tv0, before, transition_views(transitions@));
                }
                return Err(e);
            },
        }
        proof {
            lemma_extends_trans(lg, rg, cs, a as int, b as int, tv0, before, transition_views(transitions@));
            assert forall|cc: int, k1: int, k2: int| 0 <= cc < c + 1 && #[trigger] sync_pair(lg, rg, cs, a as int, b as int, cc, k1, k2)
                implies transition_views(transitions@).contains(sync_image(lg, rg, cs, a as int, b as int, cc, k1, k2)) by {
                if cc < c {
                    lemma_extends_contains(lg, rg, cs, a as int, b as int, before, transition_views(transitions@),
                        sync_image(lg, rg, cs, a as int, b as int, cc, k1, k2));
                }
            }
        }
        c = c + 1;
    }
    proof {
        assert forall|t: TransitionV| sync_step(lg, rg, cs, a as int, b as int, t) implies transition_views(transitions@).contains(t) by {
            let (cc, k1, k2) = choose|cc: int, k1: int, k2: int| #[trigger] sync_pair(lg, rg, cs, a as int, b as int, cc, k1, k2)
                && t == sync_image(lg, rg, cs, a as int, b as int, cc, k1, k2);
        }
    }
    Ok(())
}

/// Pushes every product step from `(a, b)`, in the order: stutter, left
/// steps, right steps, synchronized steps.
fn state_steps(l: &FiniteGraph, r: &FiniteGraph, connections: &Vec<Connection>, a: usize, b: usize, rn: usize,
    transitions: &mut Vec<Transition>, limit: usize) -> (res: Result<(), crate::open::CompositionError>)
    requires
        rn == r@.states.len(),
        l@.states.len() * rn <= usize::MAX,
        a < l@.states.len(),
        b < rn,
        old(transitions)@.len() <= limit,
        distinct_upto(transition_views(old(transitions)@), product_index(a as int, b as int, rn as int) as int),
    ensures
        final(transitions)@.len() <= limit,
        distinct_upto(transition_views(final(transitions)@), product_index(a as int, b as int, rn as int) as int),
        res is Ok ==> extends_at(l@, r@, crate::open::connection_views(connections@), a as int, b as int, transition_views(old(transitions)@), transition_views(final(transitions)@)),
        res is Ok ==> forall|t: TransitionV| product_step_at(l@, r@, crate::open::connection_views(connections@), a as int, b as int, t)
            ==> transition_views(final(transitions)@).contains(t),
        res matches Err(e) ==> transition_limit_error(limit, e),
        res is Err ==> overflowed_at(l@, r@, crate::open::connection_views(connections@), a as int, b as int, limit,
            transition_views(old(transitions)@), transition_views(final(transitions)@)),
{
    let ghost cs = crate::open::connection_views(connections@);
    let ghost lg = l@;
    let ghost rg = r@;
    let ghost t0 = transition_views(transitions@);
    match stutter_steps(l, r, a, b, rn, transitions, limit) {
        Ok(()) => {},
        Err(e) => {
            proof {
                assert(overflowed_at(lg, rg, cs, a as int, b as int, limit, t0, transition_views(transitions@)));
            }
            return Err(e);
        },
    }
    let ghost t1 = transition_views(transitions@);
    proof {
        assert(extends_at(lg, rg, cs, a as int, b as int, t0, t1));
    }
    match left_steps(l, r, connections, a, b, rn, transitions, limit) {
        Ok(()) => {},
        Err(e) => {
            proof {
                lemma_overflow_widen(lg, rg, cs, a as int, b as int, limit, t0, t1, transition_views(transitions@));
            }
            return Err(e);
        },
    }
    let ghost t2 = transition_views(transitions@);
    proof {
        lemma_extends_trans(lg, rg, cs, a as int, b as int, t0, t1, t2);
    }
    match right_steps(l, r, connections, a, b, rn, transitions, limit) {
        Ok(()) => {},
        Err(e) => {
            proof {
                lemma_overflow_widen(lg, rg, cs, a as int, b as int, limit, t0, t2, transition_views(transitions@));
            }
            return Err(e);
        },
    }
    let ghost t3 = transition_views(transitions@);
    proof {
        lemma_extends_trans(lg, rg, cs, a as int, b as int, t0, t2, t3);
    }
    match sync_steps(l, r, connections, a, b, rn, transitions, limit) {
        Ok(()) => {},
        Err(e) => {
            proof {
                lemma_overflow_widen(lg, rg, cs, a as int, b as int, limit, t0, t3, transition_views(transitions@));
            }
            return Err(e);
        },
    }
    let ghost t4 = transition_views(transitions@);
    proof {
        assert(extends_at(lg, rg, cs, a as int, b as int, t0, t1));
        lemma_extends_trans(lg, rg, cs, a as int, b as int, t0, t1, t2);
        lemma_extends_trans(lg, rg, cs, a as int, b as int, t0, t2, t3);
        lemma_extends_trans(lg, rg, cs, a as int, b as int, t0, t3, t4);
        lemma_extends_trans(lg, rg, cs, a as int, b as int, t1, t2, t3);
        lemma_extends_trans(lg, rg, cs, a as int, b as int, t1, t3, t4);
        lemma_extends_trans(lg, rg, cs, a as int, b as int, t2, t3, t4);
        assert forall|t: TransitionV| product_step_at(lg, rg, cs, a as int, b as int, t) implies t4.contains(t) by {
            if stutter_step(lg, rg, a as int, b as int, t) {
                lemma_extends_contains(lg, rg, cs, a as int, b as int, t1, t4, t);
            } else if left_step(lg, rg, cs, a as int, b as int, t) {
                lemma_extends_contains(lg, rg, cs, a as int, b as int, t2, t4, t);
            } else if right_step(rg, cs, a as int, b as int, t) {
                lemma_extends_contains(lg, rg, cs, a as int, b as int, t3, t4, t);
            }
        }
    }
    Ok(())
}

/// The signature of a synchronization action.
pub open spec fn internal_sig() -> SignatureV {
    SignatureV { polarity: ActionPolarity::Internal, channel: None, payload: None }
}

/// The declaration of the product action `k` contributed by the unconnected
/// declarations `li` of the left side.
pub open spec fn left_part(li: Seq<(Seq<char>, SignatureV)>, cs: Seq<ConnectionV>, k: Seq<char>) -> Option<SignatureV> {
    if k.len() >= 6 && k.subrange(0, 6) == side_prefix(Side::Left) && !connected_left(cs, k.subrange(6, k.len() as int)) {
        last_lookup(li, k.subrange(6, k.len() as int))
    } else {
        None
    }
}

/// The declaration of `k` after the unconnected right declarations `ri`
/// are added to `base`.
pub open spec fn right_part(ri: Seq<(Seq<char>, SignatureV)>, cs: Seq<ConnectionV>, k: Seq<char>, base: Option<SignatureV>) -> Option<SignatureV> {
    if k.len() >= 7 && k.subrange(0, 7) == side_prefix(Side::Right) && !connected_right(cs, k.subrange(7, k.len() as int))
        && last_lookup(ri, k.subrange(7, k.len() as int)) is Some {
        last_lookup(ri, k.subrange(7, k.len() as int))
    } else {
        base
    }
}

/// The declaration of `k` after the first `n` connections declare their
/// composite actions internal.
pub open spec fn sync_part(cs: Seq<ConnectionV>, n: int, k: Seq<char>, base: Option<SignatureV>) -> Option<SignatureV> {
    if exists|c: int| 0 <= c < n && #[trigger] cs[c].composite_action == k {
        Some(internal_sig())
    } else {
        base
    }
}

/// The declaration of product action `k`: a composite action is internal;
/// an unconnected action of either side keeps its signature under the
/// side's namespace.
pub open spec fn composed_lookup(li: Seq<(Seq<char>, SignatureV)>, ri: Seq<(Seq<char>, SignatureV)>, cs: Seq<ConnectionV>, k: Seq<char>) -> Option<SignatureV> {
    sync_part(cs, cs.len() as int, k, right_part(ri, cs, k, left_part(li, cs, k)))
}

/// `i` is the interface of the product.
pub open spec fn composed_interface(li: Seq<(Seq<char>, SignatureV)>, ri: Seq<(Seq<char>, SignatureV)>, cs: Seq<ConnectionV>, i: Seq<(Seq<char>, SignatureV)>) -> bool {
    &&& sorted_keys(i)
    &&& forall|k: Seq<char>| #[trigger] lookup(i, k) == composed_lookup(li, ri, cs, k)
}

/// `c` is the contract of the product: no assumptions, and the guarantees of both sides.
pub open spec fn composed_contract(l: SafetyContractV, r: SafetyContractV, c: SafetyContractV) -> bool {
    &&& c.assumptions.len() == 0
    &&& crate::open_contract::sorted_set_of(c.guarantees, l.guarantees + r.guarantees)
}

pub(crate) proof fn lemma_prefix_lens()
    ensures
        side_prefix(Side::Left).len() == 6,
        side_prefix(Side::Right).len() == 7,
{
    reveal_strlit("left::");
    reveal_strlit("right::");
}

proof fn lemma_prefix_distinct(k: Seq<char>)
    ensures
        !(k.len() >= 6 && k.subrange(0, 6) == side_prefix(Side::Left) && k.len() >= 7 && k.subrange(0, 7) == side_prefix(Side::Right)),
{
    reveal_strlit("left::");
    reveal_strlit("right::");
    if k.len() >= 7 && k.subrange(0, 6) == side_prefix(Side::Left) && k.subrange(0, 7) == side_prefix(Side::Right) {
        assert(k.subrange(0, 6)[0] == k[0]);
        assert(k.subrange(0, 7)[0] == k[0]);
    }
}

/// The interface of the product of `left` and `right`.
fn composed_actions(left: &OpenSystem, right: &OpenSystem, connections: &Vec<Connection>) -> (r: Interface)
    ensures
        composed_interface(left@.interface, right@.interface, crate::open::connection_views(connections@), r@),
{
    let ghost cs = crate::open::connection_views(connections@);
    let ghost li = left@.interface;
    let ghost ri = right@.interface;
    let mut map: StrMap<ActionSignature> = StrMap::new();
    let le = left.interface().actions().entries();
    let re = right.interface().actions().entries();
    proof {
        assert(li == map_entry_values(entries_view(le@), sig_fn()));
        assert(ri == map_entry_values(entries_view(re@), sig_fn()));
        assert forall|k: Seq<char>| #[trigger] lookup(map_entry_values(map@, sig_fn()), k) == left_part(li.subrange(0, 0), cs, k) by {
            lemma_map_entry_values(map@, sig_fn(), k);
            crate::smap::lemma_lookup_none(map@, k);
            assert(li.subrange(0, 0) =~= Seq::<(Seq<char>, SignatureV)>::empty());
            crate::smap::lemma_last_lookup_empty::<SignatureV>(k.subrange(6, k.len() as int));
        }
    }
    let mut i: usize = 0;
    while i < le.len()
        invariant
            li == map_entry_values(entries_view(le@), sig_fn()),
            cs == crate::open::connection_views(connections@),
            i <= le@.len(),
            sorted_keys(map@),
            forall|k: Seq<char>| #[trigger] lookup(map_entry_values(map@, sig_fn()), k) == left_part(li.subrange(0, i as int), cs, k),
        decreases le@.len() - i,
    {
        let ghost e = li[i as int];
        let ghost old_map = map@;
        proof {
            assert(e.0 == le@[i as int].0@ && e.1 == le@[i as int].1@);
            assert(li.subrange(0, i + 1) =~= li.subrange(0, i as int).push(e));
        }
        if !is_connected_left(connections, le[i].0.as_str()) {
            let key = namespaced(Side::Left, le[i].0.as_str());
            let sig = le[i].1.copy();
            map.insert(key, sig);
            proof {
                lemma_prefix_lens();
                assert(!connected_left(cs, e.0));
                assert forall|k: Seq<char>| #[trigger] lookup(map_entry_values(map@, sig_fn()), k) == left_part(li.subrange(0, i + 1), cs, k) by {
                    lemma_map_entry_values(map@, sig_fn(), k);
                    lemma_map_entry_values(old_map, sig_fn(), k);
                    lemma_prefix_split(Side::Left, e.0, k);
                    crate::smap::lemma_last_lookup_push(li.subrange(0, i as int), e, k.subrange(6, k.len() as int));
                    if k == side_prefix(Side::Left) + e.0 {
                        assert(lookup(map@, k) == Some(sig));
                        assert(sig_fn()(sig) == e.1);
                        assert(left_part(li.subrange(0, i + 1), cs, k) == Some(e.1));
                    } else {
                        assert(lookup(map@, k) == lookup(old_map, k));
                    }
                }
            }
        } else {
            proof {
                lemma_prefix_lens();
                assert forall|k: Seq<char>| #[trigger] lookup(map_entry_values(map@, sig_fn()), k) == left_part(li.subrange(0, i + 1), cs, k) by {
                    lemma_prefix_split(Side::Left, e.0, k);
                    crate::smap::lemma_last_lookup_push(li.subrange(0, i as int), e, k.subrange(6, k.len() as int));
                }
            }
        }
        i = i + 1;
    }
    proof {
        assert(li.subrange(0, le@.len() as int) =~= li);
        assert forall|k: Seq<char>| #[trigger] lookup(map_entry_values(map@, sig_fn()), k) == right_part(ri.subrange(0, 0), cs, k, left_part(li, cs, k)) by {
            assert(ri.subrange(0, 0) =~= Seq::<(Seq<char>, SignatureV)>::empty());
            crate::smap::lemma_last_lookup_empty::<SignatureV>(k.subrange(7, k.len() as int));
        }
    }
    let mut j: usize = 0;
    while j < re.len()
        invariant
            ri == map_entry_values(entries_view(re@), sig_fn()),
            cs == crate::open::connection_views(connections@),
            j <= re@.len(),
            sorted_keys(map@),
            forall|k: Seq<char>| #[trigger] lookup(map_entry_values(map@, sig_fn()), k) == right_part(ri.subrange(0, j as int), cs, k, left_part(li, cs, k)),
        decreases re@.len() - j,
    {
        let ghost e = ri[j as int];
        let ghost old_map = map@;
        proof {
            assert(e.0 == re@[j as int].0@ && e.1 == re@[j as int].1@);
            assert(ri.subrange(0, j + 1) =~= ri.subrange(0, j as int).push(e));
        }
        if !is_connected_right(connections, re[j].0.as_str()) {
            let key = namespaced(Side::Right, re[j].0.as_str());
            let sig = re[j].1.copy();
            map.insert(key, sig);
            proof {
                lemma_prefix_lens();
                assert(!connected_right(cs, e.0));
                assert forall|k: Seq<char>| #[trigger] lookup(map_entry_values(map@, sig_fn()), k) == right_part(ri.subrange(0, j + 1), cs, k, left_part(li, cs, k)) by {
                    lemma_map_entry_values(map@, sig_fn(), k);
                    lemma_map_entry_values(old_map, sig_fn(), k);
                    lemma_prefix_split(Side::Right, e.0, k);
                    crate::smap::lemma_last_lookup_push(ri.subrange(0, j as int), e, k.subrange(7, k.len() as int));
                    if k == side_prefix(Side::Right) + e.0 {
                        assert(lookup(map@, k) == Some(sig));
                        assert(sig_fn()(sig) == e.1);
                        assert(right_part(ri.subrange(0, j + 1), cs, k, left_part(li, cs, k)) == Some(e.1));
                    } else {
                        assert(lookup(map@, k) == lookup(old_map, k));
                    }
                }
            }
        } else {
            proof {
                lemma_prefix_lens();
                assert forall|k: Seq<char>| #[trigger] lookup(map_entry_values(map@, sig_fn()), k) == right_part(ri.subrange(0, j + 1), cs, k, left_part(li, cs, k)) by {
                    lemma_prefix_split(Side::Right, e.0, k);
                    crate::smap::lemma_last_lookup_push(ri.subrange(0, j as int), e, k.subrange(7, k.len() as int));
                }
            }
        }
        j = j + 1;
    }
    proof {
        assert(ri.subrange(0, re@.len() as int) =~= ri);
    }
    let mut c: usize = 0;
    while c < connections.len()
        invariant
            cs == crate::open::connection_views(connections@),
            c <= connections@.len(),
            sorted_keys(map@),
            forall|k: Seq<char>| #[trigger] lookup(map_entry_values(map@, sig_fn()), k) == sync_part(cs, c as int, k, right_part(ri, cs, k, left_part(li, cs, k))),
        decreases connections@.len() - c,
    {
        let ghost old_map = map@;
        proof {
            assert(cs[c as int] == connections@[c as int]@);
        }
        map.insert(connections[c].composite_action.clone(), ActionSignature::internal());
        proof {
            assert forall|k: Seq<char>| #[trigger] lookup(map_entry_values(map@, sig_fn()), k) == sync_part(cs, c + 1, k, right_part(ri, cs, k, left_part(li, cs, k))) by {
                lemma_map_entry_values(map@, sig_fn(), k);
                lemma_map_entry_values(old_map, sig_fn(), k);
                if k == cs[c as int].composite_action {
                    assert(cs[c as int].composite_action == k);
                }
            }
        }
        c = c + 1;
    }
    proof {
        lemma_map_entry_values(map@, sig_fn(), Seq::empty());
    }
    Interface::from_map(map)
}

/// The contract of the product of `left` and `right`.
fn composed_guarantees(left: &OpenSystem, right: &OpenSystem) -> (r: SafetyContract)
    ensures
        composed_contract(left@.contract, right@.contract, r@),
{
    let lg = left.contract().guarantees().entries();
    let rg = right.contract().guarantees().entries();
    let ghost gl = left@.contract.guarantees;
    let ghost gr = right@.contract.guarantees;
    proof {
        assert(gl == key_seq(entries_view(lg@)));
        assert(gr == key_seq(entries_view(rg@)));
    }
    let mut claims: Vec<&str> = Vec::new();
    let mut i: usize = 0;
    while i < lg.len()
        invariant
            gl == key_seq(entries_view(lg@)),
            i <= lg@.len(),
            crate::open_contract::str_views(claims@) == gl.subrange(0, i as int),
        decreases lg@.len() - i,
    {
        let ghost before = claims@;
        claims.push(lg[i].0.as_str());
        proof {
            assert(gl[i as int] == lg@[i as int].0@);
            assert(crate::open_contract::str_views(claims@) =~= crate::open_contract::str_views(before).push(gl[i as int]));
            assert(gl.subrange(0, i + 1) =~= gl.subrange(0, i as int).push(gl[i as int]));
        }
        i = i + 1;
    }
    let mut j: usize = 0;
    while j < rg.len()
        invariant
            gl == key_seq(entries_view(lg@)),
            gr == key_seq(entries_view(rg@)),
            j <= rg@.len(),
            crate::open_contract::str_views(claims@) == gl + gr.subrange(0, j as int),
        decreases rg@.len() - j,
    {
        let ghost before = claims@;
        claims.push(rg[j].0.as_str());
        proof {
            assert(gr[j as int] == rg@[j as int].0@);
            assert(crate::open_contract::str_views(claims@) =~= crate::open_contract::str_views(before).push(gr[j as int]));
            assert(gl + gr.subrange(0, j + 1) =~= (gl + gr.subrange(0, j as int)).push(gr[j as int]));
        }
        j = j + 1;
    }
    proof {
        assert(gr.subrange(0, rg@.len() as int) =~= gr);
    }
    let none: Vec<&str> = Vec::new();
    proof {
        assert(crate::open_contract::str_views(none@) =~= Seq::<Seq<char>>::empty());
        assert(Seq::<Seq<char>>::empty().to_set() =~= Set::<Seq<char>>::empty());
    }
    let r = SafetyContract::new(none, claims);
    proof {
        if r@.assumptions.len() > 0 {
            assert(r@.assumptions.to_set().contains(r@.assumptions[0]));
        }
    }
    r
}

/// `s` is the product state of left state `a` and right state `b`.
pub open spec fn product_state_at(l: GraphV, r: GraphV, s: Seq<(Seq<char>, ValueV)>, a: int, b: int) -> bool {
    &&& sorted_keys(s)
    &&& forall|k: Seq<char>| #[trigger] lookup(s, k) == product_lookup(l.states[a], r.states[b], k)
}

/// `s` holds the product states, the pair `(a, b)` at `a * rn + b`.
pub open spec fn product_states(l: GraphV, r: GraphV, s: Seq<Seq<(Seq<char>, ValueV)>>) -> bool {
    &&& s.len() == l.states.len() * r.states.len()
    &&& forall|a: int, b: int| 0 <= a < l.states.len() && 0 <= b < r.states.len()
        ==> #[trigger] product_state_at(l, r, s[product_index(a, b, r.states.len() as int) as int], a, b)
}

/// `x` pairs an initial state of each side.
pub open spec fn product_initial(l: GraphV, r: GraphV, x: StateId) -> bool {
    exists|i: int, j: int| 0 <= i < l.initial.len() && 0 <= j < r.initial.len()
        && x == #[trigger] product_index(l.initial[i] as int, r.initial[j] as int, r.states.len() as int)
}

fn product_states_of(l: &FiniteGraph, r: &FiniteGraph) -> (s: Vec<ModelState>)
    requires
        l@.states.len() * r@.states.len() <= usize::MAX,
    ensures
        product_states(l@, r@, state_views(s@)),
{
    let ln = l.state_count();
    let rn = r.state_count();
    let ghost lg = l@;
    let ghost rg = r@;
    let mut states: Vec<ModelState> = Vec::new();
    let mut a: usize = 0;
    proof {
        assert(0 * rn == 0) by (nonlinear_arith);
    }
    while a < ln
        invariant
            lg == l@,
            rg == r@,
            ln == lg.states.len(),
            rn == rg.states.len(),
            ln * rn <= usize::MAX,
            a <= ln,
            states@.len() == a * rn,
            forall|a2: int, b2: int| 0 <= a2 < a && 0 <= b2 < rn
                ==> #[trigger] product_state_at(lg, rg, state_views(states@)[product_index(a2, b2, rn as int) as int], a2, b2),
        decreases ln - a,
    {
        let mut b: usize = 0;
        while b < rn
            invariant
                lg == l@,
                rg == r@,
                ln == lg.states.len(),
                rn == rg.states.len(),
                ln * rn <= usize::MAX,
                a < ln,
                b <= rn,
                states@.len() == a * rn + b,
                forall|a2: int, b2: int| 0 <= a2 < a && 0 <= b2 < rn
                    ==> #[trigger] product_state_at(lg, rg, state_views(states@)[product_index(a2, b2, rn as int) as int], a2, b2),
                forall|b2: int| 0 <= b2 < b
                    ==> #[trigger] product_state_at(lg, rg, state_views(states@)[product_index(a as int, b2, rn as int) as int], a as int, b2),
            decreases rn - b,
        {
            proof {
                lemma_product_index_bound(a as int, b as int, ln as int, rn as int);
            }
            let st = product_state(l.state(a), r.state(b));
            let ghost old_sv = state_views(states@);
            states.push(st);
            proof {
                let sv = state_views(states@);
                assert(sv =~= old_sv.push(st@));
                assert(product_index(a as int, b as int, rn as int) == old_sv.len());
                assert(product_state_at(lg, rg, sv[product_index(a as int, b as int, rn as int) as int], a as int, b as int));
                assert forall|a2: int, b2: int| 0 <= a2 < a && 0 <= b2 < rn
                    implies #[trigger] product_state_at(lg, rg, sv[product_index(a2, b2, rn as int) as int], a2, b2) by {
                    lemma_product_index_bound(a2, b2, a as int, rn as int);
                    assert(product_state_at(lg, rg, old_sv[product_index(a2, b2, rn as int) as int], a2, b2));
                }
                assert forall|b2: int| 0 <= b2 < b + 1
                    implies #[trigger] product_state_at(lg, rg, sv[product_index(a as int, b2, rn as int) as int], a as int, b2) by {
                    if b2 < b {
                        assert(product_state_at(lg, rg, old_sv[product_index(a as int, b2, rn as int) as int], a as int, b2));
                    }
                }
            }
            b = b + 1;
        }
        proof {
            assert((a + 1) * rn == a * rn + rn) by (nonlinear_arith);
            assert forall|a2: int, b2: int| 0 <= a2 < a + 1 && 0 <= b2 < rn
                implies #[trigger] product_state_at(lg, rg, state_views(states@)[product_index(a2, b2, rn as int) as int], a2, b2) by {
                if a2 == a {
                    assert(product_state_at(lg, rg, state_views(states@)[product_index(a as int, b2, rn as int) as int], a as int, b2));
                }
            }
        }
        a = a + 1;
    }
    states
}

fn product_initial_of(l: &FiniteGraph, r: &FiniteGraph) -> (v: Vec<StateId>)
    requires
        l@.states.len() * r@.states.len() <= usize::MAX,
    ensures
        v@.len() > 0,
        forall|x: StateId| v@.contains(x) <==> product_initial(l@, r@, x),
        forall|i: int| 0 <= i < v@.len() ==> v@[i] < l@.states.len() * r@.states.len(),
{
    proof {
        use_type_invariant(l);
        use_type_invariant(r);
    }
    let ghost lg = l@;
    let ghost rg = r@;
    let rn = r.state_count();
    let li = l.initial_states();
    let ri = r.initial_states();
    let mut v: Vec<StateId> = Vec::new();
    let mut i: usize = 0;
    while i < li.len()
        invariant
            lg == l@,
            rg == r@,
            graph_wf(lg),
            graph_wf(rg),
            rn == rg.states.len(),
            lg.states.len() * rn <= usize::MAX,
            li@ == lg.initial,
            ri@ == rg.initial,
            i <= li@.len(),
            forall|x: StateId| v@.contains(x) ==> product_initial(lg, rg, x),
            forall|w: int| 0 <= w < v@.len() ==> v@[w] < lg.states.len() * rn,
            forall|i2: int, j2: int| 0 <= i2 < i && 0 <= j2 < ri@.len()
                ==> v@.contains(#[trigger] product_index(li@[i2] as int, ri@[j2] as int, rn as int)),
        decreases li@.len() - i,
    {
        let mut j: usize = 0;
        while j < ri.len()
            invariant
                lg == l@,
                rg == r@,
                graph_wf(lg),
                graph_wf(rg),
                rn == rg.states.len(),
                lg.states.len() * rn <= usize::MAX,
                li@ == lg.initial,
                ri@ == rg.initial,
                i < li@.len(),
                j <= ri@.len(),
                forall|x: StateId| v@.contains(x) ==> product_initial(lg, rg, x),
                forall|w: int| 0 <= w < v@.len() ==> v@[w] < lg.states.len() * rn,
                forall|i2: int, j2: int| 0 <= i2 < i && 0 <= j2 < ri@.len()
                    ==> v@.contains(#[trigger] product_index(li@[i2] as int, ri@[j2] as int, rn as int)),
                forall|j2: int| 0 <= j2 < j ==> v@.contains(#[trigger] product_index(li@[i as int] as int, ri@[j2] as int, rn as int)),
            decreases ri@.len() - j,
        {
            let x = li[i];
            let y = ri[j];
            proof {
                lemma_product_index_bound(x as int, y as int, lg.states.len() as int, rn as int);
            }
            let p = x * rn + y;
            let ghost before = v@;
            v.push(p);
            proof {
                assert(v@[before.len() as int] == p);
                assert(p == product_index(li@[i as int] as int, ri@[j as int] as int, rn as int));
                assert forall|z: StateId| v@.contains(z) implies product_initial(lg, rg, z) by {
                    if z != p {
                        let w = choose|w: int| 0 <= w < v@.len() && v@[w] == z;
                        assert(before[w] == z);
                    }
                }
                assert forall|i2: int, j2: int| 0 <= i2 < i && 0 <= j2 < ri@.len()
                    implies v@.contains(#[trigger] product_index(li@[i2] as int, ri@[j2] as int, rn as int)) by {
                    let q = product_index(li@[i2] as int, ri@[j2] as int, rn as int);
                    assert(before.contains(q));
                    let w = choose|w: int| 0 <= w < before.len() && before[w] == q;
                    assert(v@[w] == q);
                }
                assert forall|j2: int| 0 <= j2 < j + 1 implies v@.contains(#[trigger] product_index(li@[i as int] as int, ri@[j2] as int, rn as int)) by {
                    let q = product_index(li@[i as int] as int, ri@[j2] as int, rn as int);
                    if j2 < j {
                        assert(before.contains(q));
                        let w = choose|w: int| 0 <= w < before.len() && before[w] == q;
                        assert(v@[w] == q);
                    }
                }
            }
            j = j + 1;
        }
        i = i + 1;
    }
    proof {
        assert forall|x: StateId| product_initial(lg, rg, x) implies v@.contains(x) by {
            let (i2, j2) = choose|i2: int, j2: int| 0 <= i2 < lg.initial.len() && 0 <= j2 < rg.initial.len()
                && x == #[trigger] product_index(lg.initial[i2] as int, rg.initial[j2] as int, rg.states.len() as int);
            assert(v@.contains(product_index(li@[i2] as int, ri@[j2] as int, rn as int)));
        }
        assert(v@.contains(product_index(li@[0] as int, ri@[0] as int, rn as int)));
    }
    v
}

/// Every transition of the product, each state's steps in turn.
fn product_transitions(l: &FiniteGraph, r: &FiniteGraph, connections: &Vec<Connection>, limit: usize) -> (res: Result<Vec<Transition>, crate::open::CompositionError>)
    requires
        l@.states.len() * r@.states.len() <= usize::MAX,
    ensures
        res matches Ok(v) ==> v@.len() <= limit && forall|t: TransitionV|
            transition_views(v@).contains(t) <==> product_step(l@, r@, crate::open::connection_views(connections@), t),
        res matches Err(e) ==> transition_limit_error(limit, e),
        res is Err ==> more_steps_than(l@, r@, crate::open::connection_views(connections@), limit),
{
    let ghost cs = crate::open::connection_views(connections@);
    let ghost lg = l@;
    let ghost rg = r@;
    let ln = l.state_count();
    let rn = r.state_count();
    let mut transitions: Vec<Transition> = Vec::new();
    let mut a: usize = 0;
    while a < ln
        invariant
            lg == l@,
            rg == r@,
            cs == crate::open::connection_views(connections@),
            ln == lg.states.len(),
            rn == rg.states.len(),
            ln * rn <= usize::MAX,
            a <= ln,
            transitions@.len() <= limit,
            transition_views(transitions@).no_duplicates(),
            forall|i: int, j: int| 0 <= i < j < transitions@.len() ==> transition_views(transitions@)[i].from <= transition_views(transitions@)[j].from,
            forall|i: int| 0 <= i < transitions@.len() ==> (#[trigger] transition_views(transitions@)[i]).from < a * rn,
            forall|i: int| 0 <= i < transitions@.len() ==> product_step(lg, rg, cs, #[trigger] transition_views(transitions@)[i]),
            forall|a2: int, b2: int, t: TransitionV| 0 <= a2 < a && 0 <= b2 < rn && #[trigger] product_step_at(lg, rg, cs, a2, b2, t)
                ==> transition_views(transitions@).contains(t),
        decreases ln - a,
    {
        let mut b: usize = 0;
        while b < rn
            invariant
                lg == l@,
                rg == r@,
                cs == crate::open::connection_views(connections@),
                ln == lg.states.len(),
                rn == rg.states.len(),
                ln * rn <= usize::MAX,
                a < ln,
                b <= rn,
                transitions@.len() <= limit,
                transition_views(transitions@).no_duplicates(),
                forall|i: int, j: int| 0 <= i < j < transitions@.len() ==> transition_views(transitions@)[i].from <= transition_views(transitions@)[j].from,
                forall|i: int| 0 <= i < transitions@.len() ==> (#[trigger] transition_views(transitions@)[i]).from < a * rn + b,
                forall|i: int| 0 <= i < transitions@.len() ==> product_step(lg, rg, cs, #[trigger] transition_views(transitions@)[i]),
                forall|a2: int, b2: int, t: TransitionV| 0 <= a2 < a && 0 <= b2 < rn && #[trigger] product_step_at(lg, rg, cs, a2, b2, t)
                    ==> transition_views(transitions@).contains(t),
                forall|b2: int, t: TransitionV| 0 <= b2 < b && #[trigger] product_step_at(lg, rg, cs, a as int, b2, t)
                    ==> transition_views(transitions@).contains(t),
            decreases rn - b,
        {
            let ghost before = transition_views(transitions@);
            proof {
                assert forall|i: int| 0 <= i < before.len() implies #[trigger] before[i].from <= product_index(a as int, b as int, rn as int) as int by {
                    lemma_product_index_bound(a as int, b as int, ln as int, rn as int);
                }
            }
            match state_steps(l, r, connections, a, b, rn, &mut transitions, limit) {
                Ok(()) => {},
                Err(e) => {
                    proof {
                        lemma_more_steps(lg, rg, cs, a as int, b as int, limit, before, transition_views(transitions@));
                    }
                    return Err(e);
                },
            }
            proof {
                let after = transition_views(transitions@);
                assert forall|i: int| 0 <= i < after.len() implies product_step(lg, rg, cs, #[trigger] after[i]) by {
                    if i < before.len() {
                        assert(after[i] == before[i]);
                        assert(product_step(lg, rg, cs, before[i]));
                    } else {
                        assert(product_step_at(lg, rg, cs, a as int, b as int, after[i]));
                    }
                }
                assert forall|a2: int, b2: int, t: TransitionV| 0 <= a2 < a && 0 <= b2 < rn && #[trigger] product_step_at(lg, rg, cs, a2, b2, t)
                    implies after.contains(t) by {
                    lemma_extends_contains(lg, rg, cs, a as int, b as int, before, after, t);
                }
                assert forall|b2: int, t: TransitionV| 0 <= b2 < b + 1 && #[trigger] product_step_at(lg, rg, cs, a as int, b2, t)
                    implies after.contains(t) by {
                    if b2 < b {
                        lemma_extends_contains(lg, rg, cs, a as int, b as int, before, after, t);
                    }
                }
            }
            proof {
                lemma_product_index_bound(a as int, b as int, ln as int, rn as int);
                let after = transition_views(transitions@);
                assert forall|i: int| 0 <= i < after.len() implies (#[trigger] after[i]).from < a * rn + b + 1 by {
                    assert(after[i].from <= product_index(a as int, b as int, rn as int) as int);
                }
            }
            b = b + 1;
        }
        proof {
            assert(a * rn + rn == (a + 1) * rn) by (nonlinear_arith);
        }
        a = a + 1;
    }
    proof {
        assert forall|t: TransitionV| transition_views(transitions@).contains(t) <==> product_step(lg, rg, cs, t) by {
            if transition_views(transitions@).contains(t) {
                let i = choose|i: int| 0 <= i < transition_views(transitions@).len() && transition_views(transitions@)[i] == t;
                assert(product_step(lg, rg, cs, transition_views(transitions@)[i]));
            }
            if product_step(lg, rg, cs, t) {
                let (a2, b2) = choose|a2: int, b2: int| 0 <= a2 < lg.states.len() && 0 <= b2 < rg.states.len() && #[trigger] product_step_at(lg, rg, cs, a2, b2, t);
            }
        }
    }
    Ok(transitions)
}

/// The number of field bindings over all `states`.
pub open spec fn field_count(states: Seq<Seq<(Seq<char>, ValueV)>>) -> nat
    decreases states.len(),
{
    if states.len() == 0 {
        0
    } else {
        field_count(states.drop_last()) + states.last().len()
    }
}

pub open spec fn min_work(a: int, b: int) -> int {
    if a <= b { a } else { b }
}

/// The conservative count of loop items of the product construction, the
/// compatibility check included.
pub open spec fn composition_work(l: OpenSystemV, r: OpenSystemV, cn: nat, links: nat, max_transitions: usize) -> int {
    let ls = l.graph.states.len();
    let rs = r.graph.states.len();
    let lt = l.graph.transitions.len();
    let rt = r.graph.transitions.len();
    let sc = ls * rs;
    let lps = lt * rs;
    let rps = rt * ls;
    let sync = cn * lt * rt;
    let cu = (sc + lps + rps + sync) as int;
    let cap = if max_transitions == usize::MAX { max_transitions as int } else { max_transitions + 1 };
    crate::open::compatibility_work(l, r, cn, links) + ls + rs + sc
        + field_count(l.graph.states) * rs + field_count(r.graph.states) * ls
        + 2 * (l.graph.initial.len() * r.graph.initial.len())
        + sc + 2 * lps + 2 * rps
        + cn * sc + cn * lt * rs + sync
        + min_work(cu, cap) + 3 * min_work(cu, max_transitions as int)
        + 3 * (l.interface.len() + r.interface.len()) + 7 * cn
        + l.contract.guarantees.len() + r.contract.guarantees.len()
}

fn mul_opt(a: Option<usize>, b: usize, Ghost(av): Ghost<int>) -> (r: Option<usize>)
    requires
        a == fits(av),
        av >= 0,
        b >= 1,
    ensures
        r == fits(b * av),
{
    proof {
        assert(b * av >= av) by (nonlinear_arith)
            requires b >= 1, av >= 0;
    }
    match a {
        Some(x) => {
            proof {
                assert(x * b == b * av) by (nonlinear_arith)
                    requires x == av;
            }
            x.checked_mul(b)
        },
        None => None,
    }
}

fn mul3(a: usize, b: usize, c: usize) -> (r: Option<usize>)
    ensures
        r == fits(a * b * c),
{
    if a == 0 || b == 0 || c == 0 {
        proof {
            assert(a * b * c == 0) by (nonlinear_arith)
                requires a == 0 || b == 0 || c == 0;
        }
        return Some(0);
    }
    proof {
        assert(a * b * c >= a * b && a * b >= 0) by (nonlinear_arith)
            requires c >= 1, a >= 1, b >= 1;
    }
    match a.checked_mul(b) {
        None => None,
        Some(ab) => ab.checked_mul(c),
    }
}

fn field_count_of(g: &FiniteGraph) -> (r: Option<usize>)
    ensures
        r == fits(field_count(g@.states) as int),
{
    let states = g.states();
    let ghost sv = g@.states;
    let mut acc: Option<usize> = Some(0);
    let mut i: usize = 0;
    proof {
        assert(sv.subrange(0, 0) =~= Seq::<Seq<(Seq<char>, ValueV)>>::empty());
    }
    while i < states.len()
        invariant
            sv == state_views(states@),
            i <= states@.len(),
            acc == fits(field_count(sv.subrange(0, i as int)) as int),
        decreases states@.len() - i,
    {
        proof {
            assert(sv.subrange(0, i + 1).drop_last() =~= sv.subrange(0, i as int));
            assert(sv[i as int] == states@[i as int]@);
        }
        acc = add_work(acc, Some(states[i].len()), Ghost(field_count(sv.subrange(0, i as int)) as int), Ghost(sv[i as int].len() as int));
        i = i + 1;
    }
    proof {
        assert(sv.subrange(0, states@.len() as int) =~= sv);
    }
    acc
}

/// The work-item count of the product construction, where it fits.
fn composition_work_items(left: &OpenSystem, right: &OpenSystem, spec: &CompositionSpec, state_count: usize, limits: CompositionLimits) -> (r: Option<usize>)
    requires
        state_count == left@.graph.states.len() * right@.graph.states.len(),
    ensures
        r == fits(composition_work(left@, right@, spec.connections@.len(), spec.contract_links@.len(), limits.max_transitions)),
{
    let ghost l = left@;
    let ghost r = right@;
    let ls = left.graph().state_count();
    let rs = right.graph().state_count();
    let lt = left.graph().transitions().len();
    let rt = right.graph().transitions().len();
    let cn = spec.connections.len();
    let ghost sc = ls * rs;
    let ghost lps = lt * rs;
    let ghost rps = rt * ls;
    let ghost sync = cn * lt * rt;
    let ghost cu = (sc + lps + rps + sync) as int;
    let ghost fl = field_count(l.graph.states);
    let ghost fr = field_count(r.graph.states);
    let ghost ic = (l.graph.initial.len() * r.graph.initial.len()) as int;
    let ghost mt = limits.max_transitions as int;
    let ghost cap = if limits.max_transitions == usize::MAX { mt } else { mt + 1 };
    let ghost ac = (l.interface.len() + r.interface.len()) as int;
    proof {
        assert(lps >= 0 && rps >= 0 && sync >= 0 && ic >= 0 && cn * sc >= 0 && cn * lt * rs >= 0 && fl * rs >= 0 && fr * ls >= 0) by (nonlinear_arith)
            requires lps == lt * rs, rps == rt * ls, sync == cn * lt * rt, ic == l.graph.initial.len() * r.graph.initial.len(),
                sc == ls * rs, fl >= 0, fr >= 0;
    }
    let ghost mut total: int = 0;
    let mut acc = crate::open::compatibility_work_count(left, right, spec);
    proof { total = crate::open::compatibility_work(l, r, spec.connections@.len(), spec.contract_links@.len()); }
    acc = add_work(acc, Some(ls), Ghost(total), Ghost(ls as int));
    proof { total = total + ls; }
    acc = add_work(acc, Some(rs), Ghost(total), Ghost(rs as int));
    proof { total = total + rs; }
    acc = add_work(acc, Some(state_count), Ghost(total), Ghost(sc));
    proof { total = total + sc; }
    let lf = field_count_of(left.graph());
    acc = add_work(acc, mul_opt(lf, rs, Ghost(fl as int)), Ghost(total), Ghost(rs * fl));
    proof { total = total + rs * fl; }
    let rf = field_count_of(right.graph());
    acc = add_work(acc, mul_opt(rf, ls, Ghost(fr as int)), Ghost(total), Ghost(ls * fr));
    proof { total = total + ls * fr; }
    let initial = mul_work(left.graph().initial_states().len(), right.graph().initial_states().len());
    acc = add_work(acc, mul_opt(initial, 2, Ghost(ic)), Ghost(total), Ghost(2 * ic));
    proof { total = total + 2 * ic; }
    acc = add_work(acc, Some(state_count), Ghost(total), Ghost(sc));
    proof { total = total + sc; }
    let left_scans = mul_work(lt, rs);
    let right_scans = mul_work(rt, ls);
    acc = add_work(acc, mul_opt(left_scans, 2, Ghost(lps)), Ghost(total), Ghost(2 * lps));
    proof { total = total + 2 * lps; }
    acc = add_work(acc, mul_opt(right_scans, 2, Ghost(rps)), Ghost(total), Ghost(2 * rps));
    proof { total = total + 2 * rps; }
    acc = add_work(acc, mul_work(cn, state_count), Ghost(total), Ghost(cn * sc));
    proof { total = total + cn * sc; }
    acc = add_work(acc, mul3(cn, lt, rs), Ghost(total), Ghost(cn * lt * rs));
    proof { total = total + cn * lt * rs; }
    let sync_count = mul3(cn, lt, rt);
    acc = add_work(acc, sync_count, Ghost(total), Ghost(sync));
    proof { total = total + sync; }
    let upper = add_work(add_work(add_work(Some(state_count), left_scans, Ghost(sc), Ghost(lps)), right_scans, Ghost(sc + lps), Ghost(rps)),
        sync_count, Ghost(sc + lps + rps), Ghost(sync));
    let cu_exec = match upper {
        None => {
            proof {
                assert(composition_work(l, r, spec.connections@.len(), spec.contract_links@.len(), limits.max_transitions) >= cu);
            }
            return None;
        },
        Some(u) => u,
    };
    let attempted_cap = limits.max_transitions.saturating_add(1);
    let first = if cu_exec <= attempted_cap { cu_exec } else { attempted_cap };
    acc = add_work(acc, Some(first), Ghost(total), Ghost(min_work(cu, cap)));
    proof { total = total + min_work(cu, cap); }
    let second = if cu_exec <= limits.max_transitions { cu_exec } else { limits.max_transitions };
    acc = add_work(acc, mul_opt(Some(second), 3, Ghost(min_work(cu, mt))), Ghost(total), Ghost(3 * min_work(cu, mt)));
    proof { total = total + 3 * min_work(cu, mt); }
    let actions = add_work(Some(left.interface().len()), Some(right.interface().len()), Ghost(l.interface.len() as int), Ghost(r.interface.len() as int));
    acc = add_work(acc, mul_opt(actions, 3, Ghost(ac)), Ghost(total), Ghost(3 * ac));
    proof { total = total + 3 * ac; }
    acc = add_work(acc, mul_work(7, cn), Ghost(total), Ghost(7 * cn));
    proof { total = total + 7 * cn; }
    acc = add_work(acc, Some(left.contract().guarantees().len()), Ghost(total), Ghost(l.contract.guarantees.len() as int));
    proof { total = total + l.contract.guarantees.len(); }
    acc = add_work(acc, Some(right.contract().guarantees().len()), Ghost(total), Ghost(r.contract.guarantees.len() as int));
    proof {
        total = total + r.contract.guarantees.len();
        assert(total == composition_work(l, r, spec.connections@.len(), spec.contract_links@.len(), limits.max_transitions));
    }
    acc
}

/// `g` is the product graph of `l` and `r` under the connections `cs`.
pub open spec fn composed_graph(l: GraphV, r: GraphV, cs: Seq<ConnectionV>, g: GraphV) -> bool {
    &&& graph_wf(g)
    &&& product_states(l, r, g.states)
    &&& g.initial.to_set() == Set::new(|x: StateId| product_initial(l, r, x))
    &&& g.transitions.to_set() == Set::new(|t: TransitionV| product_step(l, r, cs, t))
}

/// What composing `l` and `r` under `conns` and `links` with `limits`
/// gives: the preflight errors in turn, then the compatibility report, then
/// the product system, the transition-limit error (only where the product
/// has more distinct transitions than the limit), or the issues of the
/// product.
#[verifier::opaque]
pub open spec fn composition_outcome(l: OpenSystemV, r: OpenSystemV, conns: Seq<ConnectionV>, links: Seq<ContractLinkV>,
    limits: CompositionLimits, res: Result<OpenSystem, CompositionError>) -> bool {
    let ln = l.graph.states.len();
    let rn = r.graph.states.len();
    let w = composition_work(l, r, conns.len(), links.len(), limits.max_transitions);
    let issues = compatibility_issues(l, r, conns, links);
    if ln * rn > usize::MAX {
        res == Err::<OpenSystem, CompositionError>(CompositionError::StateCountOverflow { left_states: ln as usize, right_states: rn as usize })
    } else if ln * rn > limits.max_states {
        res == Err::<OpenSystem, CompositionError>(CompositionError::StateLimitExceeded { required: (ln * rn) as usize, limit: limits.max_states })
    } else if w > usize::MAX {
        res == Err::<OpenSystem, CompositionError>(CompositionError::WorkItemCountOverflow)
    } else if w > limits.max_work_items {
        res == Err::<OpenSystem, CompositionError>(CompositionError::WorkItemLimitExceeded { required: w as usize, limit: limits.max_work_items })
    } else if issues.len() > 0 {
        &&& res matches Err(CompositionError::Incompatible(report))
        &&& !report.accepted
        &&& compat_views(report.issues@) == issues
        &&& report.checked_connections == conns.len()
        &&& report.checked_receptive_states == receptive_count(l.graph, l.interface, l.interface.len())
            + receptive_count(r.graph, r.interface, r.interface.len())
    } else {
        match res {
            Ok(s) => {
                &&& composed_graph(l.graph, r.graph, conns, s@.graph)
                &&& composed_interface(l.interface, r.interface, conns, s@.interface)
                &&& composed_contract(l.contract, r.contract, s@.contract)
                &&& s@.payload_contract.assumptions.len() == 0
                &&& s@.payload_contract.guarantees.len() == 0
            },
            Err(CompositionError::InvalidResult(found)) => exists|g: GraphV, i: Seq<(Seq<char>, SignatureV)>, c: SafetyContractV|
                #![trigger composed_graph(l.graph, r.graph, conns, g), composed_interface(l.interface, r.interface, conns, i), composed_contract(l.contract, r.contract, c)]
                composed_graph(l.graph, r.graph, conns, g) && composed_interface(l.interface, r.interface, conns, i)
                && composed_contract(l.contract, r.contract, c)
                && open_issue_views(found@) == open_system_issues(g, i, c) && found@.len() > 0,
            Err(e) => transition_limit_error(limits.max_transitions, e)
                && more_steps_than(l.graph, r.graph, conns, limits.max_transitions),
        }
    }
}

proof fn lemma_product_step_valid(l: GraphV, r: GraphV, cs: Seq<ConnectionV>, t: TransitionV)
    requires
        graph_wf(l),
        graph_wf(r),
        l.states.len() * r.states.len() <= usize::MAX,
        product_step(l, r, cs, t),
    ensures
        transition_valid(t, l.states.len() * r.states.len()),
{
    let ln = l.states.len() as int;
    let rn = r.states.len() as int;
    let (a, b) = choose|a: int, b: int| 0 <= a < l.states.len() && 0 <= b < r.states.len() && #[trigger] product_step_at(l, r, cs, a, b, t);
    lemma_product_index_bound(a, b, ln, rn);
    if stutter_step(l, r, a, b, t) {
    } else if left_step(l, r, cs, a, b, t) {
        let k = choose|k: int| #[trigger] left_free(l, cs, a, k) && t == left_image(l, r, a, b, k);
        assert(transition_valid(l.transitions[k], l.states.len()));
        lemma_product_index_bound(l.transitions[k].to as int, b, ln, rn);
    } else if right_step(r, cs, a, b, t) {
        let k = choose|k: int| #[trigger] right_free(r, cs, b, k) && t == right_image(r, a, b, k);
        assert(transition_valid(r.transitions[k], r.states.len()));
        lemma_product_index_bound(a, r.transitions[k].to as int, ln, rn);
    } else {
        let (c, k1, k2) = choose|c: int, k1: int, k2: int| #[trigger] sync_pair(l, r, cs, a, b, c, k1, k2) && t == sync_image(l, r, cs, a, b, c, k1, k2);
        assert(transition_valid(l.transitions[k1], l.states.len()));
        assert(transition_valid(r.transitions[k2], r.states.len()));
        lemma_product_index_bound(l.transitions[k1].to as int, r.transitions[k2].to as int, ln, rn);
    }
}

/// Builds the synchronous product after all checks succeed, with explicit
/// caps. The state count and the work-item estimate are checked before the
/// compatibility check, and the transition cap before each generated
/// transition. Connected actions never interleave on their own; unconnected
/// actions are namespaced, composite actions become internal, and state
/// fields are namespaced. The product has no assumptions.
#[verifier::rlimit(80)]
#[verifier::spinoff_prover]
pub fn compose_with_limits(left: &OpenSystem, right: &OpenSystem, spec: &CompositionSpec, limits: CompositionLimits) -> (res: Result<OpenSystem, CompositionError>)
    ensures
        composition_outcome(left@, right@, crate::open::connection_views(spec.connections@), crate::open::link_views(spec.contract_links@), limits, res),
{
    let left_graph = left.graph();
    let right_graph = right.graph();
    proof {
        reveal(composition_outcome);
        use_type_invariant(left_graph);
        use_type_invariant(right_graph);
    }
    let ghost l = left@;
    let ghost r = right@;
    let ghost cs = crate::open::connection_views(spec.connections@);
    let ln = left.graph().state_count();
    let rn = right.graph().state_count();
    let state_count = match checked_product_state_count(ln, rn, limits.max_states) {
        Ok(n) => n,
        Err(e) => {
            return Err(e);
        },
    };
    match composition_work_items(left, right, spec, state_count, limits) {
        None => {
            return Err(CompositionError::WorkItemCountOverflow);
        },
        Some(w) => {
            if w > limits.max_work_items {
                return Err(CompositionError::WorkItemLimitExceeded { required: w, limit: limits.max_work_items });
            }
        },
    }
    proof {
        let ls = l.graph.states.len();
        let rs = r.graph.states.len();
        let lt = l.graph.transitions.len();
        let rt = r.graph.transitions.len();
        let cn = spec.connections@.len();
        assert(lt * rs >= 0 && rt * ls >= 0 && cn * lt * rt >= 0 && cn * (ls * rs) >= 0 && cn * lt * rs >= 0
            && field_count(l.graph.states) * rs >= 0 && field_count(r.graph.states) * ls >= 0
            && l.graph.initial.len() * r.graph.initial.len() >= 0 && ls * rs >= 1) by (nonlinear_arith)
            requires ls >= 1, rs >= 1;
    }
    let report = CompatibilityChecker::check_preflighted(left, right, spec);
    if !report.accepted {
        return Err(CompositionError::Incompatible(report));
    }
    let states = product_states_of(left.graph(), right.graph());
    let initial = product_initial_of(left.graph(), right.graph());
    let transitions = match product_transitions(left.graph(), right.graph(), &spec.connections, limits.max_transitions) {
        Ok(v) => v,
        Err(e) => {
            return Err(e);
        },
    };
    proof {
        assert forall|i: int| 0 <= i < transitions@.len() implies transition_valid(#[trigger] transitions@[i]@, states@.len()) by {
            assert(transition_views(transitions@)[i] == transitions@[i]@);
            assert(transition_views(transitions@).contains(transitions@[i]@));
            lemma_product_step_valid(l.graph, r.graph, cs, transitions@[i]@);
        }
    }
    let ghost tv = transition_views(transitions@);
    let ghost iv = initial@;
    let ghost sv = state_views(states@);
    let graph = match FiniteGraph::new(states, initial, transitions) {
        Ok(g) => g,
        Err(e) => {
            return Err(CompositionError::Graph(e));
        },
    };
    proof {
        use_type_invariant(&graph);
        assert(graph@.initial.to_set() =~= Set::new(|x: StateId| product_initial(l.graph, r.graph, x))) by {
            assert forall|x: StateId| graph@.initial.to_set().contains(x) <==> product_initial(l.graph, r.graph, x) by {
                assert(iv.to_set().contains(x) <==> iv.contains(x));
            }
        }
        assert(graph@.transitions.to_set() =~= Set::new(|t: TransitionV| product_step(l.graph, r.graph, cs, t))) by {
            assert forall|t: TransitionV| graph@.transitions.to_set().contains(t) <==> product_step(l.graph, r.graph, cs, t) by {
                assert(tv.to_set().contains(t) <==> tv.contains(t));
            }
        }
        assert(composed_graph(l.graph, r.graph, cs, graph@));
    }
    let interface = composed_actions(left, right, &spec.connections);
    let contract = composed_guarantees(left, right);
    let ghost gv = graph@;
    let ghost ifv = interface@;
    let ghost cv = contract@;
    match OpenSystem::new(graph, interface, contract) {
        Ok(s) => Ok(s),
        Err(found) => {
            proof {
                assert(composed_graph(l.graph, r.graph, cs, gv) && composed_interface(l.interface, r.interface, cs, ifv)
                    && composed_contract(l.contract, r.contract, cv));
                assert(found@.len() == open_issue_views(found@).len());
            }
            Err(CompositionError::InvalidResult(found))
        },
    }
}

/// Builds the synchronous product under the default caps.
pub fn compose(left: &OpenSystem, right: &OpenSystem, spec: &CompositionSpec) -> (res: Result<OpenSystem, CompositionError>)
    ensures
        composition_outcome(left@, right@, crate::open::connection_views(spec.connections@), crate::open::link_views(spec.contract_links@),
            default_limits(), res),
{
    compose_with_limits(left, right, spec, CompositionLimits::default())
}

/// The default caps of `compose`.
pub open spec fn default_limits() -> CompositionLimits {
    CompositionLimits {
        max_states: crate::open::DEFAULT_MAX_COMPOSED_STATES,
        max_transitions: crate::open::DEFAULT_MAX_COMPOSED_TRANSITIONS,
        max_work_items: crate::open::DEFAULT_MAX_COMPOSITION_WORK_ITEMS,
    }
}

/// A product exists only where the state count fits.
pub proof fn lemma_outcome_ok_fits(l: OpenSystemV, r: OpenSystemV, conns: Seq<ConnectionV>, links: Seq<ContractLinkV>,
    limits: CompositionLimits, s: OpenSystem)
    requires
        composition_outcome(l, r, conns, links, limits, Ok(s)),
    ensures
        l.graph.states.len() * r.graph.states.len() <= usize::MAX,
{
    reveal(composition_outcome);
}

/// Why a work-item preflight fails.
#[derive(Clone, Copy, Debug, PartialEq, Eq, Structural)]
pub enum WorkPreflightError {
    CountOverflow,
    LimitExceeded { required: usize, limit: usize },
}

/// The product of `s`.
pub open spec fn seq_product(s: Seq<usize>) -> int
    decreases s.len(),
{
    if s.len() == 0 {
        1
    } else {
        seq_product(s.drop_last()) * s.last()
    }
}

proof fn lemma_product_grows(s: Seq<usize>, i: int)
    requires
        0 <= i <= s.len(),
        forall|k: int| 0 <= k < s.len() ==> s[k] >= 1,
    ensures
        1 <= seq_product(s.subrange(0, i)) <= seq_product(s),
    decreases s.len() - i,
{
    if i < s.len() {
        lemma_product_grows(s, i + 1);
        let p = seq_product(s.subrange(0, i));
        lemma_product_positive(s.subrange(0, i));
        assert(s.subrange(0, i + 1).drop_last() =~= s.subrange(0, i));
        assert(seq_product(s.subrange(0, i + 1)) == p * s[i]);
        assert(p * s[i] >= p) by (nonlinear_arith)
            requires s[i] >= 1, p >= 1;
    } else {
        assert(s.subrange(0, i) =~= s);
        lemma_product_positive(s);
    }
}

proof fn lemma_product_positive(s: Seq<usize>)
    requires
        forall|k: int| 0 <= k < s.len() ==> s[k] >= 1,
    ensures
        seq_product(s) >= 1,
    decreases s.len(),
{
    if s.len() > 0 {
        lemma_product_positive(s.drop_last());
        let p = seq_product(s.drop_last());
        assert(p * s.last() >= 1) by (nonlinear_arith)
            requires p >= 1, s.last() >= 1;
    }
}

/// The product of `factors`: zero when one of them is zero, and otherwise
/// an overflow error when it does not fit.
pub fn checked_work_product(factors: &[usize]) -> (r: Result<usize, WorkPreflightError>)
    ensures
        factors@.contains(0) ==> r == Ok::<usize, WorkPreflightError>(0),
        !factors@.contains(0) ==> r == if seq_product(factors@) <= usize::MAX {
            Ok::<usize, WorkPreflightError>(seq_product(factors@) as usize)
        } else {
            Err::<usize, WorkPreflightError>(WorkPreflightError::CountOverflow)
        },
{
    let mut z: usize = 0;
    while z < factors.len()
        invariant
            z <= factors@.len(),
            forall|k: int| 0 <= k < z ==> factors@[k] != 0,
        decreases factors@.len() - z,
    {
        if factors[z] == 0 {
            proof {
                assert(factors@[z as int] == 0);
            }
            return Ok(0);
        }
        z = z + 1;
    }
    proof {
        assert(!factors@.contains(0));
    }
    let mut product: usize = 1;
    let mut i: usize = 0;
    proof {
        assert(factors@.subrange(0, 0) =~= Seq::<usize>::empty());
    }
    while i < factors.len()
        invariant
            i <= factors@.len(),
            forall|k: int| 0 <= k < factors@.len() ==> factors@[k] >= 1,
            product == seq_product(factors@.subrange(0, i as int)),
        decreases factors@.len() - i,
    {
        proof {
            assert(factors@.subrange(0, i + 1).drop_last() =~= factors@.subrange(0, i as int));
        }
        match product.checked_mul(factors[i]) {
            Some(p) => {
                product = p;
            },
            None => {
                proof {
                    lemma_product_grows(factors@, i + 1);
                }
                return Err(WorkPreflightError::CountOverflow);
            },
        }
        i = i + 1;
    }
    proof {
        assert(factors@.subrange(0, factors@.len() as int) =~= factors@);
    }
    Ok(product)
}

/// A running count of work items.
#[derive(Clone, Copy, Debug, Default, PartialEq, Eq, Structural)]
pub struct WorkCounter {
    pub items: usize,
}

impl WorkCounter {
    /// Adds `items`, failing without change where the count would overflow.
    pub fn add(&mut self, items: usize) -> (r: Result<(), WorkPreflightError>)
        ensures
            old(self).items + items <= usize::MAX ==> r is Ok && final(self).items == old(self).items + items,
            old(self).items + items > usize::MAX ==> r == Err::<(), WorkPreflightError>(WorkPreflightError::CountOverflow)
                && final(self).items == old(self).items,
    {
        match self.items.checked_add(items) {
            Some(n) => {
                self.items = n;
                Ok(())
            },
            None => Err(WorkPreflightError::CountOverflow),
        }
    }

    /// Adds the product of `factors`.
    pub fn add_product(&mut self, factors: &[usize]) -> (r: Result<(), WorkPreflightError>)
        ensures
            ({
                let p = if factors@.contains(0) { 0 } else { seq_product(factors@) };
                &&& old(self).items + p <= usize::MAX ==> r is Ok && final(self).items == old(self).items + p
                &&& old(self).items + p > usize::MAX ==> r == Err::<(), WorkPreflightError>(WorkPreflightError::CountOverflow)
                    && final(self).items == old(self).items
            }),
    {
        proof {
            if !factors@.contains(0) {
                assert forall|k: int| 0 <= k < factors@.len() implies factors@[k] >= 1 by {
                    if factors@[k] == 0 {
                        assert(factors@.contains(0));
                    }
                }
                lemma_product_positive(factors@);
            }
        }
        match checked_work_product(factors) {
            Ok(p) => self.add(p),
            Err(e) => Err(e),
        }
    }

    /// The count, or the limit error where it exceeds `limit`.
    pub fn enforce(self, limit: usize) -> (r: Result<usize, WorkPreflightError>)
        ensures
            r == if self.items > limit {
                Err::<usize, WorkPreflightError>(WorkPreflightError::LimitExceeded { required: self.items, limit })
            } else {
                Ok::<usize, WorkPreflightError>(self.items)
            },
    {
        if self.items > limit {
            Err(WorkPreflightError::LimitExceeded { required: self.items, limit })
        } else {
            Ok(self.items)
        }
    }
}

/// The number of product states, where it fits and is within `limit`.
pub fn checked_product_state_count(left_states: usize, right_states: usize, limit: usize) -> (r: Result<usize, CompositionError>)
    ensures
        r == if left_states * right_states > usize::MAX {
            Err::<usize, CompositionError>(CompositionError::StateCountOverflow { left_states, right_states })
        } else if left_states * right_states > limit {
            Err::<usize, CompositionError>(CompositionError::StateLimitExceeded { required: (left_states * right_states) as usize, limit })
        } else {
            Ok::<usize, CompositionError>((left_states * right_states) as usize)
        },
{
    let required = match left_states.checked_mul(right_states) {
        Some(n) => n,
        None => {
            return Err(CompositionError::StateCountOverflow { left_states, right_states });
        },
    };
    if required > limit {
        Err(CompositionError::StateLimitExceeded { required, limit })
    } else {
        Ok(required)
    }
}

/// The product index of `left_state` and `right_state`, where it fits.
pub fn checked_product_index(left_state: StateId, right_state: StateId, right_states: usize) -> (r: Result<StateId, CompositionError>)
    ensures
        r == if left_state * right_states + right_state > usize::MAX {
            Err::<StateId, CompositionError>(CompositionError::StateIndexOverflow { left_state, right_state, right_states })
        } else {
            Ok::<StateId, CompositionError>((left_state * right_states + right_state) as StateId)
        },
{
    proof {
        assert(left_state * right_states >= 0) by (nonlinear_arith);
    }
    match left_state.checked_mul(right_states) {
        Some(base) => match base.checked_add(right_state) {
            Some(index) => Ok(index),
            None => Err(CompositionError::StateIndexOverflow { left_state, right_state, right_states }),
        },
        None => Err(CompositionError::StateIndexOverflow { left_state, right_state, right_states }),
    }
}

} // verus!
