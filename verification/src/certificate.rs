//! Coinductive refinement certificates: a finite relation between concrete
//! and abstract states, bound to a subject identity by SHA-256, and checked
//! to be a post-fixed one-sided simulation.

use vstd::prelude::*;
use crate::graph::{FiniteGraph, GraphV, KindV, StateId, TransitionKind, TransitionV, graph_wf};
use crate::observation::{observable, observation_of, lemma_observation_of};
use crate::refinement::{RefinementSpec, RefinementSpecV};
use crate::sha256::{append_bytes, be64, digest_eq, push_be64, sha256, sha256_spec};
use crate::smap::lookup;

verus! {

#[derive(Clone, Copy, Debug, PartialEq, Eq, PartialOrd, Ord, Hash, Structural)]
pub struct StatePair {
    pub concrete: StateId,
    pub abstract_state: StateId,
}

/// The order of pairs: by concrete state, then by abstract state.
pub open spec fn pair_lt(a: StatePair, b: StatePair) -> bool {
    a.concrete < b.concrete || (a.concrete == b.concrete && a.abstract_state < b.abstract_state)
}

/// Strictly increasing in pair order.
pub open spec fn strictly_sorted(s: Seq<StatePair>) -> bool {
    forall|i: int, j: int| 0 <= i < j < s.len() ==> pair_lt(s[i], s[j])
}

#[derive(Clone, Debug, PartialEq, Eq)]
pub struct CoinductiveCertificate {
    pub subject_id: [u8; 32],
    pub roots: Vec<StatePair>,
    pub relation: Vec<StatePair>,
    pub claimed_id: [u8; 32],
}

/// The domain separator of certificate identities.
pub open spec fn certificate_domain() -> Seq<u8> {
    seq![78u8, 77u8, 76u8, 84u8, 45u8, 67u8, 79u8, 73u8, 78u8, 68u8, 85u8, 67u8, 84u8, 73u8, 86u8, 69u8, 45u8, 82u8, 69u8, 70u8, 73u8, 78u8, 69u8, 77u8, 69u8, 78u8, 84u8, 45u8, 67u8, 69u8, 82u8, 84u8, 73u8, 70u8, 73u8, 67u8, 65u8, 84u8, 69u8, 0u8, 118u8, 49u8, 0u8]
}

/// The bytes of a list of pairs: its length, then each pair's two states,
/// each as a big-endian 64-bit number.
pub open spec fn pair_list_bytes(ps: Seq<StatePair>) -> Seq<u8>
    decreases ps.len(),
{
    if ps.len() == 0 {
        Seq::empty()
    } else {
        pair_list_bytes(ps.drop_last()) + be64(ps.last().concrete as u64) + be64(ps.last().abstract_state as u64)
    }
}

pub open spec fn encoded_pairs(ps: Seq<StatePair>) -> Seq<u8> {
    be64(ps.len() as u64) + pair_list_bytes(ps)
}

/// The bytes that a certificate's identity hashes.
pub open spec fn certificate_bytes(subject: Seq<u8>, roots: Seq<StatePair>, relation: Seq<StatePair>) -> Seq<u8> {
    certificate_domain() + subject + encoded_pairs(roots) + encoded_pairs(relation)
}

/// The identity of a certificate with these parts.
pub open spec fn certificate_id(subject: Seq<u8>, roots: Seq<StatePair>, relation: Seq<StatePair>) -> Seq<u8> {
    sha256_spec(certificate_bytes(subject, roots, relation))
}

fn push_pairs(out: &mut Vec<u8>, pairs: &Vec<StatePair>)
    ensures
        final(out)@ == old(out)@ + encoded_pairs(pairs@),
{
    let ghost start = out@;
    push_be64(out, pairs.len() as u64);
    let mut i: usize = 0;
    while i < pairs.len()
        invariant
            i <= pairs@.len(),
            out@ == start + be64(pairs@.len() as u64) + pair_list_bytes(pairs@.subrange(0, i as int)),
        decreases pairs@.len() - i,
    {
        let p = pairs[i];
        push_be64(out, p.concrete as u64);
        push_be64(out, p.abstract_state as u64);
        proof {
            let pre = pairs@.subrange(0, i + 1);
            assert(pre.drop_last() =~= pairs@.subrange(0, i as int));
            assert(pre.last() == p);
            assert(out@ =~= start + be64(pairs@.len() as u64) + pair_list_bytes(pre));
        }
        i = i + 1;
    }
    proof {
        assert(pairs@.subrange(0, pairs@.len() as int) =~= pairs@);
        assert(out@ =~= start + encoded_pairs(pairs@));
    }
}

/// Whether `pairs` holds `p`.
pub fn contains_pair(pairs: &Vec<StatePair>, p: StatePair) -> (r: bool)
    ensures
        r == pairs@.contains(p),
{
    let mut i: usize = 0;
    while i < pairs.len()
        invariant
            i <= pairs@.len(),
            forall|j: int| 0 <= j < i ==> pairs@[j] != p,
        decreases pairs@.len() - i,
    {
        if pairs[i] == p {
            proof {
                assert(pairs@[i as int] == p);
            }
            return true;
        }
        i = i + 1;
    }
    false
}

fn pair_less(a: StatePair, b: StatePair) -> (r: bool)
    ensures
        r == pair_lt(a, b),
{
    a.concrete < b.concrete || (a.concrete == b.concrete && a.abstract_state < b.abstract_state)
}

/// Inserts `p` into the strictly sorted `v` unless it is there already.
fn insert_pair(v: &mut Vec<StatePair>, p: StatePair)
    requires
        strictly_sorted(old(v)@),
    ensures
        strictly_sorted(final(v)@),
        final(v)@.to_set() == old(v)@.to_set().insert(p),
{
    let ghost old_v = v@;
    let mut i: usize = 0;
    while i < v.len() && pair_less(v[i], p)
        invariant
            v@ == old_v,
            i <= v@.len(),
            forall|j: int| 0 <= j < i ==> pair_lt(#[trigger] v@[j], p),
        decreases v@.len() - i,
    {
        i = i + 1;
    }
    if i < v.len() && v[i] == p {
        proof {
            assert(old_v.contains(p));
            assert(old_v.to_set().insert(p) =~= old_v.to_set());
        }
        return;
    }
    v.insert(i, p);
    proof {
        assert(v@ =~= old_v.insert(i as int, p));
        assert forall|a: int, b: int| 0 <= a < b < v@.len() implies pair_lt(v@[a], v@[b]) by {
            if b < i {
            } else if a > i {
                assert(v@[a] == old_v[a - 1] && v@[b] == old_v[b - 1]);
            } else if a == i {
                assert(v@[b] == old_v[b - 1]);
                assert(!pair_lt(old_v[i as int], p) && old_v[i as int] != p);
                if b - 1 > i {
                    assert(pair_lt(old_v[i as int], old_v[b - 1]));
                }
            } else if b == i {
            } else {
                assert(v@[b] == old_v[b - 1]);
            }
        }
        assert forall|x: StatePair| v@.to_set().contains(x) <==> old_v.to_set().insert(p).contains(x) by {
            if old_v.contains(x) {
                let w = choose|w: int| 0 <= w < old_v.len() && old_v[w] == x;
                if w < i {
                    assert(v@[w] == x);
                } else {
                    assert(v@[w + 1] == x);
                }
            }
            if x == p {
                assert(v@[i as int] == x);
            }
            if v@.contains(x) {
                let w = choose|w: int| 0 <= w < v@.len() && v@[w] == x;
                if w < i {
                    assert(old_v[w] == x);
                } else if w > i {
                    assert(old_v[w - 1] == x);
                }
            }
        }
        assert(v@.to_set() =~= old_v.to_set().insert(p));
    }
}

/// Sorts `pairs` and removes duplicates.
fn sort_dedup(pairs: Vec<StatePair>) -> (r: Vec<StatePair>)
    ensures
        strictly_sorted(r@),
        r@.to_set() == pairs@.to_set(),
{
    let mut out: Vec<StatePair> = Vec::new();
    let mut i: usize = 0;
    while i < pairs.len()
        invariant
            i <= pairs@.len(),
            strictly_sorted(out@),
            out@.to_set() == pairs@.subrange(0, i as int).to_set(),
        decreases pairs@.len() - i,
    {
        insert_pair(&mut out, pairs[i]);
        proof {
            assert(pairs@.subrange(0, i + 1) =~= pairs@.subrange(0, i as int).push(pairs@[i as int]));
            pairs@.subrange(0, i as int).lemma_push_to_set_commute(pairs@[i as int]);
        }
        i = i + 1;
    }
    proof {
        assert(pairs@.subrange(0, pairs@.len() as int) =~= pairs@);
    }
    out
}

impl CoinductiveCertificate {
    /// The canonical certificate: roots and relation sorted without
    /// duplicates, and the identity computed from them.
    pub fn canonical(subject_id: [u8; 32], roots: Vec<StatePair>, relation: Vec<StatePair>) -> (r: CoinductiveCertificate)
        ensures
            r.subject_id == subject_id,
            strictly_sorted(r.roots@),
            strictly_sorted(r.relation@),
            r.roots@.to_set() == roots@.to_set(),
            r.relation@.to_set() == relation@.to_set(),
            r.claimed_id@ == certificate_id(subject_id@, r.roots@, r.relation@),
    {
        let roots = sort_dedup(roots);
        let relation = sort_dedup(relation);
        let mut certificate = CoinductiveCertificate { subject_id, roots, relation, claimed_id: [0u8; 32] };
        certificate.claimed_id = certificate.recomputed_id();
        certificate
    }

    /// The identity of this certificate's subject, roots and relation.
    pub fn recomputed_id(&self) -> (r: [u8; 32])
        ensures
            r@ == certificate_id(self.subject_id@, self.roots@, self.relation@),
    {
        let mut bytes: Vec<u8> = Vec::new();
        let domain: [u8; 43] = [78, 77, 76, 84, 45, 67, 79, 73, 78, 68, 85, 67, 84, 73, 86, 69, 45, 82, 69, 70, 73, 78, 69, 77, 69, 78, 84, 45, 67, 69, 82, 84, 73, 70, 73, 67, 65, 84, 69, 0, 118, 49, 0];
        proof {
            assert(domain@ =~= certificate_domain());
        }
        append_bytes(&mut bytes, domain.as_slice());
        append_bytes(&mut bytes, self.subject_id.as_slice());
        push_pairs(&mut bytes, &self.roots);
        push_pairs(&mut bytes, &self.relation);
        proof {
            assert(bytes@ =~= certificate_bytes(self.subject_id@, self.roots@, self.relation@));
        }
        sha256(bytes.as_slice())
    }
}

#[derive(Clone, Debug, PartialEq, Eq)]
pub enum CertificateIssue {
    StaleSubject,
    IdentityMismatch,
    NonCanonical,
    PairOutOfRange(StatePair),
    RootMissing(StatePair),
    ObservationMismatch(StatePair),
    ActionUnmapped(StatePair, String),
    OpenStep(StatePair, String, StateId),
}

/// The content of a certificate issue.
pub enum IssueV {
    StaleSubject,
    IdentityMismatch,
    NonCanonical,
    PairOutOfRange(StatePair),
    RootMissing(StatePair),
    ObservationMismatch(StatePair),
    ActionUnmapped(StatePair, Seq<char>),
    OpenStep(StatePair, Seq<char>, StateId),
}

impl View for CertificateIssue {
    type V = IssueV;

    open spec fn view(&self) -> IssueV {
        match self {
            CertificateIssue::StaleSubject => IssueV::StaleSubject,
            CertificateIssue::IdentityMismatch => IssueV::IdentityMismatch,
            CertificateIssue::NonCanonical => IssueV::NonCanonical,
            CertificateIssue::PairOutOfRange(p) => IssueV::PairOutOfRange(*p),
            CertificateIssue::RootMissing(p) => IssueV::RootMissing(*p),
            CertificateIssue::ObservationMismatch(p) => IssueV::ObservationMismatch(*p),
            CertificateIssue::ActionUnmapped(p, a) => IssueV::ActionUnmapped(*p, a@),
            CertificateIssue::OpenStep(p, a, s) => IssueV::OpenStep(*p, a@, *s),
        }
    }
}

pub open spec fn issue_views(s: Seq<CertificateIssue>) -> Seq<IssueV> {
    s.map_values(|i: CertificateIssue| i@)
}

#[derive(Clone, Debug, PartialEq, Eq)]
pub struct CertificateReport {
    pub accepted: bool,
    pub checked_pairs: usize,
    pub issues: Vec<CertificateIssue>,
}

/// The issues found before any graph obligation: a stale subject, a claimed
/// identity that is not the certificate's, a non-canonical order.
pub open spec fn header_issues(expected: Seq<u8>, cert: CoinductiveCertificate) -> Seq<IssueV> {
    (if cert.subject_id@ != expected { seq![IssueV::StaleSubject] } else { Seq::empty() })
        + (if cert.claimed_id@ != certificate_id(cert.subject_id@, cert.roots@, cert.relation@) { seq![IssueV::IdentityMismatch] } else { Seq::empty() })
        + (if !(strictly_sorted(cert.roots@) && strictly_sorted(cert.relation@)) { seq![IssueV::NonCanonical] } else { Seq::empty() })
}

/// The roots, among the first `n`, that the relation lacks.
pub open spec fn root_issues(roots: Seq<StatePair>, relation: Seq<StatePair>, n: nat) -> Seq<IssueV>
    decreases n,
{
    if n == 0 {
        Seq::empty()
    } else {
        root_issues(roots, relation, (n - 1) as nat) + if relation.contains(roots[n - 1]) {
            Seq::empty()
        } else {
            seq![IssueV::RootMissing(roots[n - 1])]
        }
    }
}

/// The concrete step `t` from the related pair `p` is matched inside the relation.
pub open spec fn step_closed(a: GraphV, relation: Seq<StatePair>, p: StatePair, t: TransitionV, target: Option<Seq<char>>) -> bool {
    match target {
        None => relation.contains(StatePair { concrete: t.to, abstract_state: p.abstract_state }),
        Some(aa) => exists|j: int| 0 <= j < a.transitions.len() && #[trigger] a.transitions[j].from == p.abstract_state
            && a.transitions[j].kind == KindV::Action(aa)
            && relation.contains(StatePair { concrete: t.to, abstract_state: a.transitions[j].to }),
    }
}

/// The issue of the concrete transition `t` from the related pair `p`.
pub open spec fn edge_issue(a: GraphV, sp: RefinementSpecV, relation: Seq<StatePair>, p: StatePair, t: TransitionV) -> Seq<IssueV> {
    match t.kind {
        KindV::IdentityStutter => Seq::empty(),
        KindV::Action(act) => match lookup(sp.actions, act) {
            None => seq![IssueV::ActionUnmapped(p, act)],
            Some(target) => if step_closed(a, relation, p, t, target) {
                Seq::empty()
            } else {
                seq![IssueV::OpenStep(p, act, t.to)]
            },
        },
    }
}

/// The issues of the first `n` transitions among `ids`.
pub open spec fn edge_issues(c: GraphV, a: GraphV, sp: RefinementSpecV, relation: Seq<StatePair>, p: StatePair, ids: Seq<usize>, n: nat) -> Seq<IssueV>
    decreases n,
{
    if n == 0 {
        Seq::empty()
    } else {
        edge_issues(c, a, sp, relation, p, ids, (n - 1) as nat) + edge_issue(a, sp, relation, p, c.transitions[ids[n - 1] as int])
    }
}

/// The two states of `p` have defined, equal observations.
pub open spec fn pair_observations_agree(c: GraphV, a: GraphV, sp: RefinementSpecV, p: StatePair) -> bool {
    &&& observable(sp.concrete_observation, c.states[p.concrete as int])
    &&& observable(sp.abstract_observation, a.states[p.abstract_state as int])
    &&& observation_of(sp.concrete_observation, c.states[p.concrete as int]) == observation_of(sp.abstract_observation, a.states[p.abstract_state as int])
}

/// The issues of the related pair `p`.
pub open spec fn pair_issues(c: GraphV, a: GraphV, sp: RefinementSpecV, relation: Seq<StatePair>, p: StatePair) -> Seq<IssueV> {
    if p.concrete >= c.states.len() || p.abstract_state >= a.states.len() {
        seq![IssueV::PairOutOfRange(p)]
    } else if !pair_observations_agree(c, a, sp, p) {
        seq![IssueV::ObservationMismatch(p)]
    } else {
        edge_issues(c, a, sp, relation, p, c.outgoing[p.concrete as int], c.outgoing[p.concrete as int].len())
    }
}

/// The issues of the first `n` pairs of the relation.
pub open spec fn relation_issues(c: GraphV, a: GraphV, sp: RefinementSpecV, relation: Seq<StatePair>, n: nat) -> Seq<IssueV>
    decreases n,
{
    if n == 0 {
        Seq::empty()
    } else {
        relation_issues(c, a, sp, relation, (n - 1) as nat) + pair_issues(c, a, sp, relation, relation[n - 1])
    }
}

/// Every issue of `cert` against the two graphs, in report order.
pub open spec fn certificate_issues(expected: Seq<u8>, c: GraphV, a: GraphV, sp: RefinementSpecV, cert: CoinductiveCertificate) -> Seq<IssueV> {
    header_issues(expected, cert)
        + root_issues(cert.roots@, cert.relation@, cert.roots@.len())
        + relation_issues(c, a, sp, cert.relation@, cert.relation@.len())
}

fn edge_check(
    concrete: &FiniteGraph,
    abstract_graph: &FiniteGraph,
    spec: &RefinementSpec,
    relation: &Vec<StatePair>,
    p: StatePair,
    id: usize,
) -> (r: Option<CertificateIssue>)
    requires
        id < concrete@.transitions.len(),
        p.abstract_state < abstract_graph@.states.len(),
    ensures
        match r {
            Some(i) => seq![i@],
            None => Seq::<IssueV>::empty(),
        } == edge_issue(abstract_graph@, spec@, relation@, p, concrete@.transitions[id as int]),
{
    proof {
        use_type_invariant(abstract_graph);
    }
    let ghost a = abstract_graph@;
    let t = concrete.transition(id);
    let action = match &t.kind {
        TransitionKind::IdentityStutter => {
            return None;
        },
        TransitionKind::Action(action) => action,
    };
    let closed = match spec.actions.get(action.as_str()) {
        None => {
            return Some(CertificateIssue::ActionUnmapped(p, action.clone()));
        },
        Some(None) => contains_pair(relation, StatePair { concrete: t.to, abstract_state: p.abstract_state }),
        Some(Some(aa)) => {
            let out = abstract_graph.outgoing_ids(p.abstract_state);
            let mut found = false;
            let mut k: usize = 0;
            while k < out.len()
                invariant
                    graph_wf(a),
                    p.abstract_state < a.states.len(),
                    out@ == a.outgoing[p.abstract_state as int],
                    k <= out@.len(),
                    !found,
                    forall|j: int| 0 <= j < k ==> !({
                        let u = a.transitions[#[trigger] out@[j] as int];
                        u.kind == KindV::Action(aa@) && relation@.contains(StatePair { concrete: t.to, abstract_state: u.to })
                    }),
                decreases out@.len() - k,
            {
                let u = abstract_graph.transition(out[k]);
                if u.kind.is_action(aa) && contains_pair(relation, StatePair { concrete: t.to, abstract_state: u.to }) {
                    proof {
                        assert(a.transitions[out@[k as int] as int].from == p.abstract_state);
                    }
                    found = true;
                    break;
                }
                k = k + 1;
            }
            proof {
                if !found && step_closed(a, relation@, p, t@, Some(aa@)) {
                    let j = choose|j: int| 0 <= j < a.transitions.len() && #[trigger] a.transitions[j].from == p.abstract_state
                        && a.transitions[j].kind == KindV::Action(aa@)
                        && relation@.contains(StatePair { concrete: t.to, abstract_state: a.transitions[j].to });
                    assert(a.outgoing[a.transitions[j].from as int].contains(j as usize));
                    let x = choose|x: int| 0 <= x < out@.len() && out@[x] == j as usize;
                    assert(a.transitions[out@[x] as int] == a.transitions[j]);
                }
            }
            found
        },
    };
    if closed {
        None
    } else {
        Some(CertificateIssue::OpenStep(p, action.clone(), t.to))
    }
}

fn pair_check(
    concrete: &FiniteGraph,
    abstract_graph: &FiniteGraph,
    spec: &RefinementSpec,
    relation: &Vec<StatePair>,
    p: StatePair,
) -> (r: Vec<CertificateIssue>)
    ensures
        issue_views(r@) == pair_issues(concrete@, abstract_graph@, spec@, relation@, p),
{
    let ghost c = concrete@;
    let ghost a = abstract_graph@;
    let ghost sp = spec@;
    let mut issues: Vec<CertificateIssue> = Vec::new();
    if p.concrete >= concrete.state_count() || p.abstract_state >= abstract_graph.state_count() {
        issues.push(CertificateIssue::PairOutOfRange(p));
        proof {
            assert(issue_views(issues@) =~= seq![IssueV::PairOutOfRange(p)]);
        }
        return issues;
    }
    let left = spec.concrete_observation.observe(concrete.state(p.concrete));
    let right = spec.abstract_observation.observe(abstract_graph.state(p.abstract_state));
    let agree = match (&left, &right) {
        (Ok(x), Ok(y)) => {
            proof {
                lemma_observation_of(sp.concrete_observation, c.states[p.concrete as int], x@);
                lemma_observation_of(sp.abstract_observation, a.states[p.abstract_state as int], y@);
            }
            x.same(y)
        },
        _ => false,
    };
    if !agree {
        issues.push(CertificateIssue::ObservationMismatch(p));
        proof {
            assert(issue_views(issues@) =~= seq![IssueV::ObservationMismatch(p)]);
        }
        return issues;
    }
    let out = concrete.outgoing_ids(p.concrete);
    let ghost ids = out@;
    proof {
        assert(issue_views(issues@) =~= edge_issues(c, a, sp, relation@, p, ids, 0));
        use_type_invariant(concrete);
    }
    let mut k: usize = 0;
    while k < out.len()
        invariant
            graph_wf(c),
            p.concrete < c.states.len(),
            p.abstract_state < a.states.len(),
            ids == c.outgoing[p.concrete as int],
            out@ == ids,
            k <= ids.len(),
            issue_views(issues@) == edge_issues(c, a, sp, relation@, p, ids, k as nat),
        decreases ids.len() - k,
    {
        let ghost before = issue_views(issues@);
        let found = edge_check(concrete, abstract_graph, spec, relation, p, out[k]);
        match found {
            Some(i) => {
                issues.push(i);
                proof {
                    assert(issue_views(issues@) =~= before.push(i@));
                }
            },
            None => {},
        }
        proof {
            assert(edge_issues(c, a, sp, relation@, p, ids, (k + 1) as nat) == edge_issues(c, a, sp, relation@, p, ids, k as nat) + edge_issue(a, sp, relation@, p, c.transitions[ids[k as int] as int]));
            assert(issue_views(issues@) =~= edge_issues(c, a, sp, relation@, p, ids, (k + 1) as nat));
        }
        k = k + 1;
    }
    issues
}

fn sorted_check(v: &Vec<StatePair>) -> (r: bool)
    ensures
        r == strictly_sorted(v@),
{
    let mut i: usize = 1;
    while i < v.len()
        invariant
            1 <= i,
            i <= v@.len() || v@.len() == 0,
            forall|x: int, y: int| 0 <= x < y < i && y < v@.len() ==> pair_lt(v@[x], v@[y]),
        decreases v@.len() - i,
    {
        if !pair_less(v[i - 1], v[i]) {
            return false;
        }
        proof {
            assert forall|x: int, y: int| 0 <= x < y < i + 1 && y < v@.len() implies pair_lt(v@[x], v@[y]) by {
                if y == i && x < i - 1 {
                    assert(pair_lt(v@[x], v@[i - 1]));
                }
            }
        }
        i = i + 1;
    }
    true
}

fn header_check(expected_subject_id: &[u8; 32], certificate: &CoinductiveCertificate) -> (r: Vec<CertificateIssue>)
    ensures
        issue_views(r@) == header_issues(expected_subject_id@, *certificate),
{
    let mut issues: Vec<CertificateIssue> = Vec::new();
    if !digest_eq(&certificate.subject_id, expected_subject_id) {
        issues.push(CertificateIssue::StaleSubject);
    }
    let id = certificate.recomputed_id();
    if !digest_eq(&certificate.claimed_id, &id) {
        issues.push(CertificateIssue::IdentityMismatch);
    }
    let canonical = sorted_check(&certificate.roots) && sorted_check(&certificate.relation);
    if !canonical {
        issues.push(CertificateIssue::NonCanonical);
    }
    proof {
        assert(issue_views(issues@) =~= header_issues(expected_subject_id@, *certificate));
    }
    issues
}

fn roots_check(roots: &Vec<StatePair>, relation: &Vec<StatePair>) -> (r: Vec<CertificateIssue>)
    ensures
        issue_views(r@) == root_issues(roots@, relation@, roots@.len()),
{
    let mut issues: Vec<CertificateIssue> = Vec::new();
    proof {
        assert(issue_views(issues@) =~= root_issues(roots@, relation@, 0));
    }
    let mut i: usize = 0;
    while i < roots.len()
        invariant
            i <= roots@.len(),
            issue_views(issues@) == root_issues(roots@, relation@, i as nat),
        decreases roots@.len() - i,
    {
        let ghost before = issue_views(issues@);
        if !contains_pair(relation, roots[i]) {
            issues.push(CertificateIssue::RootMissing(roots[i]));
            proof {
                assert(issue_views(issues@) =~= before.push(IssueV::RootMissing(roots@[i as int])));
            }
        }
        proof {
            assert(issue_views(issues@) =~= root_issues(roots@, relation@, (i + 1) as nat));
        }
        i = i + 1;
    }
    issues
}

fn relation_check(concrete: &FiniteGraph, abstract_graph: &FiniteGraph, spec: &RefinementSpec, relation: &Vec<StatePair>) -> (r: Vec<CertificateIssue>)
    ensures
        issue_views(r@) == relation_issues(concrete@, abstract_graph@, spec@, relation@, relation@.len()),
{
    let ghost c = concrete@;
    let ghost a = abstract_graph@;
    let ghost sp = spec@;
    let mut issues: Vec<CertificateIssue> = Vec::new();
    proof {
        assert(issue_views(issues@) =~= relation_issues(c, a, sp, relation@, 0));
    }
    let mut i: usize = 0;
    while i < relation.len()
        invariant
            i <= relation@.len(),
            issue_views(issues@) == relation_issues(c, a, sp, relation@, i as nat),
        decreases relation@.len() - i,
    {
        let ghost before = issue_views(issues@);
        let mut found = pair_check(concrete, abstract_graph, spec, relation, relation[i]);
        let ghost fv = issue_views(found@);
        issues.append(&mut found);
        proof {
            assert(issue_views(issues@) =~= before + fv);
            assert(relation_issues(c, a, sp, relation@, (i + 1) as nat) == relation_issues(c, a, sp, relation@, i as nat) + pair_issues(c, a, sp, relation@, relation@[i as int]));
        }
        i = i + 1;
    }
    issues
}

pub struct CoinductiveCertificateChecker;

impl CoinductiveCertificateChecker {
    /// Checks a finite post-fixed one-sided simulation relation. The subject
    /// identity is checked before graph obligations. Acceptance concerns
    /// safety refinement only: it does not transport fairness or rule out
    /// hidden divergence.
    pub fn check(
        expected_subject_id: [u8; 32],
        concrete: &FiniteGraph,
        abstract_graph: &FiniteGraph,
        spec: &RefinementSpec,
        certificate: &CoinductiveCertificate,
    ) -> (r: CertificateReport)
        ensures
            issue_views(r.issues@) == certificate_issues(expected_subject_id@, concrete@, abstract_graph@, spec@, *certificate),
            r.accepted == (certificate_issues(expected_subject_id@, concrete@, abstract_graph@, spec@, *certificate).len() == 0),
            r.checked_pairs == certificate.relation@.len(),
    {
        let mut issues = header_check(&expected_subject_id, certificate);
        let ghost h = issue_views(issues@);
        let mut roots = roots_check(&certificate.roots, &certificate.relation);
        let ghost rv = issue_views(roots@);
        issues.append(&mut roots);
        proof {
            assert(issue_views(issues@) =~= h + rv);
        }
        let ghost hr = issue_views(issues@);
        let mut pairs = relation_check(concrete, abstract_graph, spec, &certificate.relation);
        let ghost pv = issue_views(pairs@);
        issues.append(&mut pairs);
        proof {
            assert(issue_views(issues@) =~= hr + pv);
            assert(issue_views(issues@) =~= certificate_issues(expected_subject_id@, concrete@, abstract_graph@, spec@, *certificate));
        }
        CertificateReport { accepted: issues.len() == 0, checked_pairs: certificate.relation.len(), issues }
    }
}


/// The relation, read as a post-fixed point: its pairs are in range with
/// agreeing observations, and every concrete action step from a related
/// pair is mapped and closed inside the relation.
pub open spec fn post_fixed(c: GraphV, a: GraphV, sp: RefinementSpecV, relation: Seq<StatePair>) -> bool {
    forall|i: int| 0 <= i < relation.len() ==> {
        let p = #[trigger] relation[i];
        &&& p.concrete < c.states.len()
        &&& p.abstract_state < a.states.len()
        &&& pair_observations_agree(c, a, sp, p)
        &&& forall|k: int| 0 <= k < c.transitions.len() && #[trigger] c.transitions[k].from == p.concrete ==> match c.transitions[k].kind {
            KindV::IdentityStutter => true,
            KindV::Action(act) => lookup(sp.actions, act) matches Some(target) && step_closed(a, relation, p, c.transitions[k], target),
        }
    }
}

proof fn lemma_roots_empty(roots: Seq<StatePair>, relation: Seq<StatePair>, n: nat)
    requires
        root_issues(roots, relation, n).len() == 0,
        n <= roots.len(),
    ensures
        forall|i: int| 0 <= i < n ==> relation.contains(#[trigger] roots[i]),
    decreases n,
{
    if n > 0 {
        lemma_roots_empty(roots, relation, (n - 1) as nat);
    }
}

proof fn lemma_relation_empty(c: GraphV, a: GraphV, sp: RefinementSpecV, relation: Seq<StatePair>, n: nat)
    requires
        relation_issues(c, a, sp, relation, n).len() == 0,
    ensures
        forall|i: int| 0 <= i < n ==> #[trigger] pair_issues(c, a, sp, relation, relation[i]).len() == 0,
    decreases n,
{
    if n > 0 {
        lemma_relation_empty(c, a, sp, relation, (n - 1) as nat);
    }
}

proof fn lemma_edges_empty(c: GraphV, a: GraphV, sp: RefinementSpecV, relation: Seq<StatePair>, p: StatePair, ids: Seq<usize>, n: nat)
    requires
        edge_issues(c, a, sp, relation, p, ids, n).len() == 0,
    ensures
        forall|i: int| 0 <= i < n ==> #[trigger] edge_issue(a, sp, relation, p, c.transitions[ids[i] as int]).len() == 0,
    decreases n,
{
    if n > 0 {
        lemma_edges_empty(c, a, sp, relation, p, ids, (n - 1) as nat);
    }
}

/// An accepted certificate is bound to the expected subject and to its own
/// identity, contains its roots, and its relation is a post-fixed one-sided
/// simulation.
pub proof fn accepted_certificate_is_simulation(expected: Seq<u8>, c: GraphV, a: GraphV, sp: RefinementSpecV, cert: CoinductiveCertificate)
    requires
        graph_wf(c),
        certificate_issues(expected, c, a, sp, cert).len() == 0,
    ensures
        cert.subject_id@ == expected,
        cert.claimed_id@ == certificate_id(cert.subject_id@, cert.roots@, cert.relation@),
        forall|i: int| 0 <= i < cert.roots@.len() ==> cert.relation@.contains(#[trigger] cert.roots@[i]),
        post_fixed(c, a, sp, cert.relation@),
{
    let rel = cert.relation@;
    lemma_roots_empty(cert.roots@, rel, cert.roots@.len());
    lemma_relation_empty(c, a, sp, rel, rel.len());
    assert forall|i: int| 0 <= i < rel.len() implies {
        let p = #[trigger] rel[i];
        &&& p.concrete < c.states.len()
        &&& p.abstract_state < a.states.len()
        &&& pair_observations_agree(c, a, sp, p)
        &&& forall|k: int| 0 <= k < c.transitions.len() && #[trigger] c.transitions[k].from == p.concrete ==> match c.transitions[k].kind {
            KindV::IdentityStutter => true,
            KindV::Action(act) => lookup(sp.actions, act) matches Some(target) && step_closed(a, rel, p, c.transitions[k], target),
        }
    } by {
        let p = rel[i];
        assert(pair_issues(c, a, sp, rel, p).len() == 0);
        let ids = c.outgoing[p.concrete as int];
        lemma_edges_empty(c, a, sp, rel, p, ids, ids.len());
        assert forall|k: int| 0 <= k < c.transitions.len() && #[trigger] c.transitions[k].from == p.concrete implies match c.transitions[k].kind {
            KindV::IdentityStutter => true,
            KindV::Action(act) => lookup(sp.actions, act) matches Some(target) && step_closed(a, rel, p, c.transitions[k], target),
        } by {
            assert(c.outgoing[c.transitions[k].from as int].contains(k as usize));
            let j = choose|j: int| 0 <= j < ids.len() && ids[j] == k as usize;
            assert(edge_issue(a, sp, rel, p, c.transitions[ids[j] as int]).len() == 0);
        }
    }
}

/// A canonical certificate checked against its own subject has no header
/// issue: its identity is its own and its lists are sorted.
pub proof fn canonical_certificate_header_clean(subject: [u8; 32], cert: CoinductiveCertificate)
    requires
        cert.subject_id == subject,
        strictly_sorted(cert.roots@),
        strictly_sorted(cert.relation@),
        cert.claimed_id@ == certificate_id(subject@, cert.roots@, cert.relation@),
    ensures
        header_issues(subject@, cert).len() == 0,
{
}

/// When the checker accepts a certificate, every concrete step from a
/// related pair is matched inside the relation: a step of an action that the
/// witness renames to `y` by an abstract transition of exactly the action
/// `y` from the pair's abstract state, a hidden step by staying on that
/// abstract state, and no step is of an unmapped action.
pub proof fn accepted_certificate_matches_labels(expected: [u8; 32], c: GraphV, a: GraphV, sp: RefinementSpecV,
    cert: CoinductiveCertificate, r: CertificateReport)
    requires
        graph_wf(c),
        r.accepted == (certificate_issues(expected@, c, a, sp, cert).len() == 0),
        r.accepted,
    ensures
        forall|i: int, k: int| 0 <= i < cert.relation@.len() && 0 <= k < c.transitions.len()
            && #[trigger] c.transitions[k].from == #[trigger] cert.relation@[i].concrete ==> match c.transitions[k].kind {
            KindV::IdentityStutter => true,
            KindV::Action(x) => match lookup(sp.actions, x) {
                None => false,
                Some(None) => cert.relation@.contains(StatePair { concrete: c.transitions[k].to, abstract_state: cert.relation@[i].abstract_state }),
                Some(Some(y)) => exists|j: int| 0 <= j < a.transitions.len()
                    && #[trigger] a.transitions[j].from == cert.relation@[i].abstract_state
                    && a.transitions[j].kind == KindV::Action(y)
                    && cert.relation@.contains(StatePair { concrete: c.transitions[k].to, abstract_state: a.transitions[j].to }),
            },
        },
{
    accepted_certificate_is_simulation(expected@, c, a, sp, cert);
    let rel = cert.relation@;
    assert forall|i: int, k: int| 0 <= i < rel.len() && 0 <= k < c.transitions.len()
        && #[trigger] c.transitions[k].from == #[trigger] rel[i].concrete implies match c.transitions[k].kind {
            KindV::IdentityStutter => true,
            KindV::Action(x) => match lookup(sp.actions, x) {
                None => false,
                Some(None) => rel.contains(StatePair { concrete: c.transitions[k].to, abstract_state: rel[i].abstract_state }),
                Some(Some(y)) => exists|j: int| 0 <= j < a.transitions.len()
                    && #[trigger] a.transitions[j].from == rel[i].abstract_state
                    && a.transitions[j].kind == KindV::Action(y)
                    && rel.contains(StatePair { concrete: c.transitions[k].to, abstract_state: a.transitions[j].to }),
            },
        } by {
        let p = rel[i];
        assert(c.transitions[k].from == p.concrete);
        match c.transitions[k].kind {
            KindV::IdentityStutter => {},
            KindV::Action(x) => {
                assert(lookup(sp.actions, x) matches Some(target) && step_closed(a, rel, p, c.transitions[k], target));
            },
        }
    }
}

} // verus!
