//! The canonical finite encoding of a two-sided open congruence and its
//! validator. The validator reads only the canonical encoding, never the
//! richer systems that produced it: two component refinements (state and
//! action maps, action compatibility, authority), the equivalence of the
//! concrete and abstract wiring under the action maps, and the verdict of the
//! execution kernel on the same certificate.

use vstd::prelude::*;
use crate::observation::opt_text;
use crate::open::{ActionPolarity, same_text};
use crate::text::str_eq;

verus! {

#[derive(Clone, Debug, PartialEq, Eq)]
pub struct CanonicalGradeEncoding {
    pub cost_ticks: u64,
    pub privacy_micro_epsilon: u64,
    pub energy_microjoules: u64,
    pub uncertainty_family: Option<String>,
    pub uncertainty_profile: Option<String>,
    pub uncertainty_upper_bound_ppm: u32,
}

#[derive(Clone, Debug, PartialEq, Eq)]
pub struct CanonicalResourceEncoding {
    pub required: Vec<String>,
    pub consumed: Vec<String>,
    pub transferred: Vec<String>,
    pub received: Vec<String>,
    pub grade: CanonicalGradeEncoding,
    pub rely: Vec<String>,
    pub guarantees: Vec<String>,
}

#[derive(Clone, Debug, PartialEq, Eq)]
pub struct CanonicalActionEncoding {
    pub name: String,
    pub polarity: ActionPolarity,
    pub channel: Option<String>,
    pub assumption: Vec<bool>,
    pub guarantee: Vec<bool>,
    pub resources: CanonicalResourceEncoding,
}

#[derive(Clone, Debug, PartialEq, Eq)]
pub struct CanonicalSystemEncoding {
    pub state_count: usize,
    pub owned_capabilities: Vec<String>,
    pub actions: Vec<CanonicalActionEncoding>,
}

#[derive(Clone, Debug, PartialEq, Eq)]
pub struct CanonicalRefinementEncoding {
    pub state_map: Vec<usize>,
    /// Target action index for each concrete action in canonical action order.
    pub action_map: Vec<usize>,
}

#[derive(Clone, Debug, PartialEq, Eq)]
pub struct CanonicalConnectionEncoding {
    pub left_action: usize,
    pub right_action: usize,
    pub composite_action: String,
}

#[derive(Clone, Debug, PartialEq, Eq)]
pub struct CanonicalCongruenceEncoding {
    pub payload_name: String,
    pub payload_variants: Vec<String>,
    pub concrete_left: CanonicalSystemEncoding,
    pub abstract_left: CanonicalSystemEncoding,
    pub concrete_right: CanonicalSystemEncoding,
    pub abstract_right: CanonicalSystemEncoding,
    pub left_refinement: CanonicalRefinementEncoding,
    pub right_refinement: CanonicalRefinementEncoding,
    pub concrete_wiring: Vec<CanonicalConnectionEncoding>,
    pub abstract_wiring: Vec<CanonicalConnectionEncoding>,
}

#[derive(Clone, Copy, Debug, PartialEq, Eq, Structural)]
pub enum CanonicalSide {
    Left,
    Right,
}

#[derive(Clone, Debug, PartialEq, Eq)]
pub enum CanonicalValidationIssue {
    EmptyPayloadIdentity,
    DuplicatePayloadVariant(String),
    StateMapLengthMismatch { side: CanonicalSide },
    StateMapOutOfRange { side: CanonicalSide, target: usize },
    StateMapNotSurjective { side: CanonicalSide, target: usize },
    ActionMapLengthMismatch { side: CanonicalSide },
    ActionMapOutOfRange { side: CanonicalSide, target: usize },
    ActionMapNotInjective { side: CanonicalSide, target: usize },
    ActionMapNotSurjective { side: CanonicalSide, target: usize },
    ActionIncompatible { side: CanonicalSide, action: String },
    AuthorityWidened { side: CanonicalSide, capability: String },
    WiringNotEquivalent,
    ExecutionKernelCapacityExceeded,
    ExecutionKernelReadbackMismatch,
    ExecutionKernelRejected,
}

/// A validation issue with its texts viewed as character sequences.
pub enum CanonicalIssueV {
    EmptyPayloadIdentity,
    DuplicatePayloadVariant(Seq<char>),
    StateMapLengthMismatch(CanonicalSide),
    StateMapOutOfRange(CanonicalSide, usize),
    StateMapNotSurjective(CanonicalSide, usize),
    ActionMapLengthMismatch(CanonicalSide),
    ActionMapOutOfRange(CanonicalSide, usize),
    ActionMapNotInjective(CanonicalSide, usize),
    ActionMapNotSurjective(CanonicalSide, usize),
    ActionIncompatible(CanonicalSide, Seq<char>),
    AuthorityWidened(CanonicalSide, Seq<char>),
    WiringNotEquivalent,
    ExecutionKernelCapacityExceeded,
    ExecutionKernelReadbackMismatch,
    ExecutionKernelRejected,
}

impl View for CanonicalValidationIssue {
    type V = CanonicalIssueV;

    open spec fn view(&self) -> CanonicalIssueV {
        match self {
            CanonicalValidationIssue::EmptyPayloadIdentity => CanonicalIssueV::EmptyPayloadIdentity,
            CanonicalValidationIssue::DuplicatePayloadVariant(v) => CanonicalIssueV::DuplicatePayloadVariant(v@),
            CanonicalValidationIssue::StateMapLengthMismatch { side } => CanonicalIssueV::StateMapLengthMismatch(*side),
            CanonicalValidationIssue::StateMapOutOfRange { side, target } => CanonicalIssueV::StateMapOutOfRange(*side, *target),
            CanonicalValidationIssue::StateMapNotSurjective { side, target } => CanonicalIssueV::StateMapNotSurjective(*side, *target),
            CanonicalValidationIssue::ActionMapLengthMismatch { side } => CanonicalIssueV::ActionMapLengthMismatch(*side),
            CanonicalValidationIssue::ActionMapOutOfRange { side, target } => CanonicalIssueV::ActionMapOutOfRange(*side, *target),
            CanonicalValidationIssue::ActionMapNotInjective { side, target } => CanonicalIssueV::ActionMapNotInjective(*side, *target),
            CanonicalValidationIssue::ActionMapNotSurjective { side, target } => CanonicalIssueV::ActionMapNotSurjective(*side, *target),
            CanonicalValidationIssue::ActionIncompatible { side, action } => CanonicalIssueV::ActionIncompatible(*side, action@),
            CanonicalValidationIssue::AuthorityWidened { side, capability } => CanonicalIssueV::AuthorityWidened(*side, capability@),
            CanonicalValidationIssue::WiringNotEquivalent => CanonicalIssueV::WiringNotEquivalent,
            CanonicalValidationIssue::ExecutionKernelCapacityExceeded => CanonicalIssueV::ExecutionKernelCapacityExceeded,
            CanonicalValidationIssue::ExecutionKernelReadbackMismatch => CanonicalIssueV::ExecutionKernelReadbackMismatch,
            CanonicalValidationIssue::ExecutionKernelRejected => CanonicalIssueV::ExecutionKernelRejected,
        }
    }
}

pub open spec fn issue_views(s: Seq<CanonicalValidationIssue>) -> Seq<CanonicalIssueV> {
    s.map_values(|i: CanonicalValidationIssue| i@)
}

#[derive(Clone, Debug, PartialEq, Eq)]
pub struct CanonicalValidationReport {
    pub accepted: bool,
    pub issues: Vec<CanonicalValidationIssue>,
}

fn push_issue(issues: &mut Vec<CanonicalValidationIssue>, issue: CanonicalValidationIssue)
    ensures
        issue_views(final(issues)@) == issue_views(old(issues)@).push(issue@),
{
    let ghost before = issue_views(issues@);
    issues.push(issue);
    proof {
        assert(issue_views(issues@) =~= before.push(issue@));
    }
}

/// The texts of `s`, viewed as character sequences.
pub open spec fn texts(s: Seq<String>) -> Seq<Seq<char>> {
    s.map_values(|x: String| x@)
}

/// Whether `t` is one of the texts of `s`.
fn contains_text(s: &Vec<String>, t: &str) -> (r: bool)
    ensures
        r == texts(s@).contains(t@),
{
    let mut i: usize = 0;
    while i < s.len()
        invariant
            i <= s@.len(),
            forall|j: int| 0 <= j < i ==> s@[j]@ != t@,
        decreases s@.len() - i,
    {
        if str_eq(s[i].as_str(), t) {
            proof {
                assert(texts(s@)[i as int] == t@);
            }
            return true;
        }
        i = i + 1;
    }
    proof {
        if texts(s@).contains(t@) {
            let j = choose|j: int| 0 <= j < texts(s@).len() && texts(s@)[j] == t@;
            assert(s@[j]@ == t@);
        }
    }
    false
}

/// Every text of `a` is a text of `b`.
pub open spec fn texts_within(a: Seq<String>, b: Seq<String>) -> bool {
    forall|i: int| 0 <= i < a.len() ==> texts(b).contains(#[trigger] a[i]@)
}

fn all_within(a: &Vec<String>, b: &Vec<String>) -> (r: bool)
    ensures
        r == texts_within(a@, b@),
{
    let mut i: usize = 0;
    while i < a.len()
        invariant
            i <= a@.len(),
            forall|j: int| 0 <= j < i ==> texts(b@).contains(#[trigger] a@[j]@),
        decreases a@.len() - i,
    {
        if !contains_text(b, a[i].as_str()) {
            return false;
        }
        i = i + 1;
    }
    true
}

/// Whether two lists of texts are equal, item by item.
fn same_texts(a: &Vec<String>, b: &Vec<String>) -> (r: bool)
    ensures
        r == (texts(a@) == texts(b@)),
{
    if a.len() != b.len() {
        proof {
            assert(texts(a@).len() != texts(b@).len());
        }
        return false;
    }
    let mut i: usize = 0;
    while i < a.len()
        invariant
            a@.len() == b@.len(),
            i <= a@.len(),
            forall|j: int| 0 <= j < i ==> a@[j]@ == b@[j]@,
        decreases a@.len() - i,
    {
        if !str_eq(a[i].as_str(), b[i].as_str()) {
            proof {
                assert(texts(a@)[i as int] != texts(b@)[i as int]);
            }
            return false;
        }
        i = i + 1;
    }
    proof {
        assert(texts(a@) =~= texts(b@));
    }
    true
}

/// Two payload predicates of one length, the first true only where the
/// second is.
pub open spec fn predicate_subset(left: Seq<bool>, right: Seq<bool>) -> bool {
    left.len() == right.len() && forall|i: int| 0 <= i < left.len() && #[trigger] left[i] ==> right[i]
}

fn subset(left: &Vec<bool>, right: &Vec<bool>) -> (r: bool)
    ensures
        r == predicate_subset(left@, right@),
{
    if left.len() != right.len() {
        return false;
    }
    let mut i: usize = 0;
    while i < left.len()
        invariant
            left@.len() == right@.len(),
            i <= left@.len(),
            forall|j: int| 0 <= j < i && #[trigger] left@[j] ==> right@[j],
        decreases left@.len() - i,
    {
        if left[i] && !right[i] {
            return false;
        }
        i = i + 1;
    }
    true
}

/// The concrete resources refine the abstract ones: no wider requirement,
/// the same consumption, transfer and receipt, a grade no higher in each
/// dimension, no additional rely fact, and every abstract guarantee kept.
pub open spec fn resources_compatible(c: CanonicalResourceEncoding, a: CanonicalResourceEncoding) -> bool {
    &&& texts_within(c.required@, a.required@)
    &&& texts(c.consumed@) == texts(a.consumed@)
    &&& texts(c.transferred@) == texts(a.transferred@)
    &&& texts(c.received@) == texts(a.received@)
    &&& c.grade.cost_ticks <= a.grade.cost_ticks
    &&& c.grade.privacy_micro_epsilon <= a.grade.privacy_micro_epsilon
    &&& c.grade.energy_microjoules <= a.grade.energy_microjoules
    &&& c.grade.uncertainty_upper_bound_ppm <= a.grade.uncertainty_upper_bound_ppm
    &&& texts_within(c.rely@, a.rely@)
    &&& texts_within(a.guarantees@, c.guarantees@)
}

fn resources_ok(c: &CanonicalResourceEncoding, a: &CanonicalResourceEncoding) -> (r: bool)
    ensures
        r == resources_compatible(*c, *a),
{
    all_within(&c.required, &a.required)
        && same_texts(&c.consumed, &a.consumed)
        && same_texts(&c.transferred, &a.transferred)
        && same_texts(&c.received, &a.received)
        && c.grade.cost_ticks <= a.grade.cost_ticks
        && c.grade.privacy_micro_epsilon <= a.grade.privacy_micro_epsilon
        && c.grade.energy_microjoules <= a.grade.energy_microjoules
        && c.grade.uncertainty_upper_bound_ppm <= a.grade.uncertainty_upper_bound_ppm
        && all_within(&c.rely, &a.rely)
        && all_within(&a.guarantees, &c.guarantees)
}

/// A concrete action may stand for an abstract one: the same polarity and
/// channel, predicates over the whole payload universe, a weaker assumption,
/// a stronger guarantee and compatible resources.
pub open spec fn action_compatible(cardinality: nat, c: CanonicalActionEncoding, a: CanonicalActionEncoding) -> bool {
    &&& c.polarity == a.polarity
    &&& opt_text(c.channel) == opt_text(a.channel)
    &&& c.assumption@.len() == cardinality
    &&& c.guarantee@.len() == cardinality
    &&& a.assumption@.len() == cardinality
    &&& a.guarantee@.len() == cardinality
    &&& predicate_subset(a.assumption@, c.assumption@)
    &&& predicate_subset(c.guarantee@, a.guarantee@)
    &&& resources_compatible(c.resources, a.resources)
}

fn compatible(cardinality: usize, c: &CanonicalActionEncoding, a: &CanonicalActionEncoding) -> (r: bool)
    ensures
        r == action_compatible(cardinality as nat, *c, *a),
{
    c.polarity == a.polarity
        && same_text(&c.channel, &a.channel)
        && c.assumption.len() == cardinality
        && c.guarantee.len() == cardinality
        && a.assumption.len() == cardinality
        && a.guarantee.len() == cardinality
        && subset(&a.assumption, &c.assumption)
        && subset(&c.guarantee, &a.guarantee)
        && resources_ok(&c.resources, &a.resources)
}

/// The out-of-range targets among the first `n` entries of a state map.
pub open spec fn state_range_issues(side: CanonicalSide, m: Seq<usize>, count: nat, n: nat) -> Seq<CanonicalIssueV>
    decreases n,
{
    if n == 0 {
        Seq::empty()
    } else {
        state_range_issues(side, m, count, (n - 1) as nat) + if m[n - 1] >= count {
            seq![CanonicalIssueV::StateMapOutOfRange(side, m[n - 1])]
        } else {
            Seq::empty()
        }
    }
}

/// The targets below `n` that no entry of the state map reaches.
pub open spec fn state_surjection_issues(side: CanonicalSide, m: Seq<usize>, n: nat) -> Seq<CanonicalIssueV>
    decreases n,
{
    if n == 0 {
        Seq::empty()
    } else {
        state_surjection_issues(side, m, (n - 1) as nat) + if !m.contains((n - 1) as usize) {
            seq![CanonicalIssueV::StateMapNotSurjective(side, (n - 1) as usize)]
        } else {
            Seq::empty()
        }
    }
}

/// Among the first `n` entries of an action map: each target out of range,
/// and each in-range target that an earlier entry already reached.
pub open spec fn action_map_issues(side: CanonicalSide, m: Seq<usize>, count: nat, n: nat) -> Seq<CanonicalIssueV>
    decreases n,
{
    if n == 0 {
        Seq::empty()
    } else {
        let k = n - 1;
        action_map_issues(side, m, count, (n - 1) as nat) + if m[k] >= count {
            seq![CanonicalIssueV::ActionMapOutOfRange(side, m[k])]
        } else if m.subrange(0, k).contains(m[k]) {
            seq![CanonicalIssueV::ActionMapNotInjective(side, m[k])]
        } else {
            Seq::empty()
        }
    }
}

/// The abstract actions below `n` that no entry of the action map reaches.
pub open spec fn action_surjection_issues(side: CanonicalSide, m: Seq<usize>, n: nat) -> Seq<CanonicalIssueV>
    decreases n,
{
    if n == 0 {
        Seq::empty()
    } else {
        action_surjection_issues(side, m, (n - 1) as nat) + if !m.contains((n - 1) as usize) {
            seq![CanonicalIssueV::ActionMapNotSurjective(side, (n - 1) as usize)]
        } else {
            Seq::empty()
        }
    }
}

/// Among the first `n` mapped concrete actions, those incompatible with
/// their abstract image.
pub open spec fn incompatible_issues(side: CanonicalSide, cardinality: nat, c: Seq<CanonicalActionEncoding>,
    a: Seq<CanonicalActionEncoding>, m: Seq<usize>, n: nat) -> Seq<CanonicalIssueV>
    decreases n,
{
    if n == 0 {
        Seq::empty()
    } else {
        let k = n - 1;
        incompatible_issues(side, cardinality, c, a, m, (n - 1) as nat) + if k < c.len() && m[k] < a.len()
            && !action_compatible(cardinality, c[k], a[m[k] as int]) {
            seq![CanonicalIssueV::ActionIncompatible(side, c[k].name@)]
        } else {
            Seq::empty()
        }
    }
}

/// Among the first `n` concrete owned capabilities, those the abstract side
/// does not own.
pub open spec fn authority_issues(side: CanonicalSide, c: Seq<String>, a: Seq<String>, n: nat) -> Seq<CanonicalIssueV>
    decreases n,
{
    if n == 0 {
        Seq::empty()
    } else {
        authority_issues(side, c, a, (n - 1) as nat) + if !texts(a).contains(c[n - 1]@) {
            seq![CanonicalIssueV::AuthorityWidened(side, c[n - 1]@)]
        } else {
            Seq::empty()
        }
    }
}

/// The issues of one component refinement, in the order they are found.
pub open spec fn refinement_issues(side: CanonicalSide, cardinality: nat, c: CanonicalSystemEncoding,
    a: CanonicalSystemEncoding, r: CanonicalRefinementEncoding) -> Seq<CanonicalIssueV> {
    (if r.state_map@.len() != c.state_count { seq![CanonicalIssueV::StateMapLengthMismatch(side)] } else { Seq::empty() })
        + state_range_issues(side, r.state_map@, a.state_count as nat, r.state_map@.len())
        + state_surjection_issues(side, r.state_map@, a.state_count as nat)
        + (if r.action_map@.len() != c.actions@.len() { seq![CanonicalIssueV::ActionMapLengthMismatch(side)] } else { Seq::empty() })
        + action_map_issues(side, r.action_map@, a.actions@.len(), r.action_map@.len())
        + action_surjection_issues(side, r.action_map@, a.actions@.len())
        + incompatible_issues(side, cardinality, c.actions@, a.actions@, r.action_map@, r.action_map@.len())
        + authority_issues(side, c.owned_capabilities@, a.owned_capabilities@, c.owned_capabilities@.len())
}

fn contains_index(v: &Vec<usize>, x: usize, n: usize) -> (r: bool)
    requires
        n <= v@.len(),
    ensures
        r == v@.subrange(0, n as int).contains(x),
{
    let mut i: usize = 0;
    while i < n
        invariant
            n <= v@.len(),
            i <= n,
            forall|j: int| 0 <= j < i ==> v@[j] != x,
        decreases n - i,
    {
        if v[i] == x {
            proof {
                assert(v@.subrange(0, n as int)[i as int] == x);
            }
            return true;
        }
        i = i + 1;
    }
    proof {
        if v@.subrange(0, n as int).contains(x) {
            let j = choose|j: int| 0 <= j < n && v@.subrange(0, n as int)[j] == x;
            assert(v@[j] == x);
        }
    }
    false
}

fn push_state_range(side: CanonicalSide, m: &Vec<usize>, count: usize, issues: &mut Vec<CanonicalValidationIssue>)
    ensures
        issue_views(final(issues)@) == issue_views(old(issues)@) + state_range_issues(side, m@, count as nat, m@.len()),
{
    let ghost base = issue_views(issues@);
    let mut k: usize = 0;
    proof {
        assert(base + state_range_issues(side, m@, count as nat, 0) =~= base);
    }
    while k < m.len()
        invariant
            k <= m@.len(),
            issue_views(issues@) == base + state_range_issues(side, m@, count as nat, k as nat),
        decreases m@.len() - k,
    {
        let ghost before = issue_views(issues@);
        if m[k] >= count {
            push_issue(issues, CanonicalValidationIssue::StateMapOutOfRange { side, target: m[k] });
        }
        proof {
            assert(issue_views(issues@) =~= base + state_range_issues(side, m@, count as nat, (k + 1) as nat));
        }
        k = k + 1;
    }
}

fn push_state_surjection(side: CanonicalSide, m: &Vec<usize>, count: usize, issues: &mut Vec<CanonicalValidationIssue>)
    ensures
        issue_views(final(issues)@) == issue_views(old(issues)@) + state_surjection_issues(side, m@, count as nat),
{
    let ghost base = issue_views(issues@);
    let mut t: usize = 0;
    proof {
        assert(base + state_surjection_issues(side, m@, 0) =~= base);
    }
    while t < count
        invariant
            t <= count,
            issue_views(issues@) == base + state_surjection_issues(side, m@, t as nat),
        decreases count - t,
    {
        let found = contains_index(m, t, m.len());
        proof {
            assert(m@.subrange(0, m@.len() as int) =~= m@);
        }
        if !found {
            push_issue(issues, CanonicalValidationIssue::StateMapNotSurjective { side, target: t });
        }
        proof {
            assert(issue_views(issues@) =~= base + state_surjection_issues(side, m@, (t + 1) as nat));
        }
        t = t + 1;
    }
}

fn push_action_map(side: CanonicalSide, m: &Vec<usize>, count: usize, issues: &mut Vec<CanonicalValidationIssue>)
    ensures
        issue_views(final(issues)@) == issue_views(old(issues)@) + action_map_issues(side, m@, count as nat, m@.len()),
{
    let ghost base = issue_views(issues@);
    let mut k: usize = 0;
    proof {
        assert(base + action_map_issues(side, m@, count as nat, 0) =~= base);
    }
    while k < m.len()
        invariant
            k <= m@.len(),
            issue_views(issues@) == base + action_map_issues(side, m@, count as nat, k as nat),
        decreases m@.len() - k,
    {
        if m[k] >= count {
            push_issue(issues, CanonicalValidationIssue::ActionMapOutOfRange { side, target: m[k] });
        } else if contains_index(m, m[k], k) {
            push_issue(issues, CanonicalValidationIssue::ActionMapNotInjective { side, target: m[k] });
        }
        proof {
            assert(issue_views(issues@) =~= base + action_map_issues(side, m@, count as nat, (k + 1) as nat));
        }
        k = k + 1;
    }
}

fn push_action_surjection(side: CanonicalSide, m: &Vec<usize>, count: usize, issues: &mut Vec<CanonicalValidationIssue>)
    ensures
        issue_views(final(issues)@) == issue_views(old(issues)@) + action_surjection_issues(side, m@, count as nat),
{
    let ghost base = issue_views(issues@);
    let mut t: usize = 0;
    proof {
        assert(base + action_surjection_issues(side, m@, 0) =~= base);
    }
    while t < count
        invariant
            t <= count,
            issue_views(issues@) == base + action_surjection_issues(side, m@, t as nat),
        decreases count - t,
    {
        let found = contains_index(m, t, m.len());
        proof {
            assert(m@.subrange(0, m@.len() as int) =~= m@);
        }
        if !found {
            push_issue(issues, CanonicalValidationIssue::ActionMapNotSurjective { side, target: t });
        }
        proof {
            assert(issue_views(issues@) =~= base + action_surjection_issues(side, m@, (t + 1) as nat));
        }
        t = t + 1;
    }
}

fn push_incompatible(side: CanonicalSide, cardinality: usize, c: &Vec<CanonicalActionEncoding>,
    a: &Vec<CanonicalActionEncoding>, m: &Vec<usize>, issues: &mut Vec<CanonicalValidationIssue>)
    ensures
        issue_views(final(issues)@) == issue_views(old(issues)@)
            + incompatible_issues(side, cardinality as nat, c@, a@, m@, m@.len()),
{
    let ghost base = issue_views(issues@);
    let mut k: usize = 0;
    proof {
        assert(base + incompatible_issues(side, cardinality as nat, c@, a@, m@, 0) =~= base);
    }
    while k < m.len()
        invariant
            k <= m@.len(),
            issue_views(issues@) == base + incompatible_issues(side, cardinality as nat, c@, a@, m@, k as nat),
        decreases m@.len() - k,
    {
        if k < c.len() && m[k] < a.len() && !compatible(cardinality, &c[k], &a[m[k]]) {
            push_issue(issues, CanonicalValidationIssue::ActionIncompatible { side, action: c[k].name.clone() });
        }
        proof {
            assert(issue_views(issues@) =~= base + incompatible_issues(side, cardinality as nat, c@, a@, m@, (k + 1) as nat));
        }
        k = k + 1;
    }
}

fn push_authority(side: CanonicalSide, c: &Vec<String>, a: &Vec<String>, issues: &mut Vec<CanonicalValidationIssue>)
    ensures
        issue_views(final(issues)@) == issue_views(old(issues)@) + authority_issues(side, c@, a@, c@.len()),
{
    let ghost base = issue_views(issues@);
    let mut k: usize = 0;
    proof {
        assert(base + authority_issues(side, c@, a@, 0) =~= base);
    }
    while k < c.len()
        invariant
            k <= c@.len(),
            issue_views(issues@) == base + authority_issues(side, c@, a@, k as nat),
        decreases c@.len() - k,
    {
        if !contains_text(a, c[k].as_str()) {
            push_issue(issues, CanonicalValidationIssue::AuthorityWidened { side, capability: c[k].clone() });
        }
        proof {
            assert(issue_views(issues@) =~= base + authority_issues(side, c@, a@, (k + 1) as nat));
        }
        k = k + 1;
    }
}

proof fn lemma_concat(base: Seq<CanonicalIssueV>, p: Seq<Seq<CanonicalIssueV>>)
    requires
        p.len() == 8,
    ensures
        base + p[0] + p[1] + p[2] + p[3] + p[4] + p[5] + p[6] + p[7]
            == base + (p[0] + p[1] + p[2] + p[3] + p[4] + p[5] + p[6] + p[7]),
{
    assert(base + p[0] + p[1] + p[2] + p[3] + p[4] + p[5] + p[6] + p[7]
        =~= base + (p[0] + p[1] + p[2] + p[3] + p[4] + p[5] + p[6] + p[7]));
}

fn validate_refinement(side: CanonicalSide, cardinality: usize, c: &CanonicalSystemEncoding,
    a: &CanonicalSystemEncoding, r: &CanonicalRefinementEncoding, issues: &mut Vec<CanonicalValidationIssue>)
    ensures
        issue_views(final(issues)@) == issue_views(old(issues)@) + refinement_issues(side, cardinality as nat, *c, *a, *r),
{
    let ghost base = issue_views(issues@);
    let ghost l1: Seq<CanonicalIssueV> = if r.state_map@.len() != c.state_count { seq![CanonicalIssueV::StateMapLengthMismatch(side)] } else { Seq::empty() };
    let ghost l4: Seq<CanonicalIssueV> = if r.action_map@.len() != c.actions@.len() { seq![CanonicalIssueV::ActionMapLengthMismatch(side)] } else { Seq::empty() };
    if r.state_map.len() != c.state_count {
        push_issue(issues, CanonicalValidationIssue::StateMapLengthMismatch { side });
    }
    assert(issue_views(issues@) =~= base + l1);
    push_state_range(side, &r.state_map, a.state_count, issues);
    push_state_surjection(side, &r.state_map, a.state_count, issues);
    let ghost s3 = issue_views(issues@);
    if r.action_map.len() != c.actions.len() {
        push_issue(issues, CanonicalValidationIssue::ActionMapLengthMismatch { side });
    }
    assert(issue_views(issues@) =~= s3 + l4);
    push_action_map(side, &r.action_map, a.actions.len(), issues);
    push_action_surjection(side, &r.action_map, a.actions.len(), issues);
    push_incompatible(side, cardinality, &c.actions, &a.actions, &r.action_map, issues);
    push_authority(side, &c.owned_capabilities, &a.owned_capabilities, issues);
    proof {
        lemma_concat(base, seq![l1,
            state_range_issues(side, r.state_map@, a.state_count as nat, r.state_map@.len()),
            state_surjection_issues(side, r.state_map@, a.state_count as nat),
            l4,
            action_map_issues(side, r.action_map@, a.actions@.len(), r.action_map@.len()),
            action_surjection_issues(side, r.action_map@, a.actions@.len()),
            incompatible_issues(side, cardinality as nat, c.actions@, a.actions@, r.action_map@, r.action_map@.len()),
            authority_issues(side, c.owned_capabilities@, a.owned_capabilities@, c.owned_capabilities@.len())]);
    }
}

/// The concrete edge `i` under the two action maps.
pub open spec fn mapped_edge(e: CanonicalCongruenceEncoding, i: int) -> (usize, usize) {
    (e.left_refinement.action_map@[e.concrete_wiring@[i].left_action as int],
     e.right_refinement.action_map@[e.concrete_wiring@[i].right_action as int])
}

/// Both endpoints of concrete edge `i` have an image under the action maps.
pub open spec fn edge_mapped(e: CanonicalCongruenceEncoding, i: int) -> bool {
    &&& e.concrete_wiring@[i].left_action < e.left_refinement.action_map@.len()
    &&& e.concrete_wiring@[i].right_action < e.right_refinement.action_map@.len()
}

/// The endpoints of abstract edge `j`.
pub open spec fn abstract_edge(e: CanonicalCongruenceEncoding, j: int) -> (usize, usize) {
    (e.abstract_wiring@[j].left_action, e.abstract_wiring@[j].right_action)
}

/// Whether `p` is the endpoints of some abstract edge.
pub open spec fn is_abstract_edge(e: CanonicalCongruenceEncoding, p: (usize, usize)) -> bool {
    exists|j: int| 0 <= j < e.abstract_wiring@.len() && #[trigger] abstract_edge(e, j) == p
}

/// Whether `p` is the image of some concrete edge.
pub open spec fn is_mapped_edge(e: CanonicalCongruenceEncoding, p: (usize, usize)) -> bool {
    exists|i: int| 0 <= i < e.concrete_wiring@.len() && #[trigger] mapped_edge(e, i) == p
}

/// Every concrete edge maps onto an abstract edge and every abstract edge is
/// the image of a concrete one.
pub open spec fn wiring_equivalent(e: CanonicalCongruenceEncoding) -> bool {
    &&& forall|i: int| 0 <= i < e.concrete_wiring@.len() ==> #[trigger] edge_mapped(e, i)
    &&& forall|i: int| 0 <= i < e.concrete_wiring@.len() ==> is_abstract_edge(e, #[trigger] mapped_edge(e, i))
    &&& forall|j: int| 0 <= j < e.abstract_wiring@.len() ==> is_mapped_edge(e, #[trigger] abstract_edge(e, j))
}

fn find_abstract_edge(e: &CanonicalCongruenceEncoding, p: (usize, usize)) -> (r: bool)
    ensures
        r == is_abstract_edge(*e, p),
{
    let mut j: usize = 0;
    while j < e.abstract_wiring.len()
        invariant
            j <= e.abstract_wiring@.len(),
            forall|k: int| 0 <= k < j ==> abstract_edge(*e, k) != p,
        decreases e.abstract_wiring@.len() - j,
    {
        if e.abstract_wiring[j].left_action == p.0 && e.abstract_wiring[j].right_action == p.1 {
            proof {
                assert(abstract_edge(*e, j as int) == p);
            }
            return true;
        }
        j = j + 1;
    }
    false
}

fn find_mapped_edge(e: &CanonicalCongruenceEncoding, p: (usize, usize)) -> (r: bool)
    requires
        forall|i: int| 0 <= i < e.concrete_wiring@.len() ==> #[trigger] edge_mapped(*e, i),
    ensures
        r == is_mapped_edge(*e, p),
{
    let mut i: usize = 0;
    while i < e.concrete_wiring.len()
        invariant
            i <= e.concrete_wiring@.len(),
            forall|k: int| 0 <= k < e.concrete_wiring@.len() ==> #[trigger] edge_mapped(*e, k),
            forall|k: int| 0 <= k < i ==> mapped_edge(*e, k) != p,
        decreases e.concrete_wiring@.len() - i,
    {
        assert(edge_mapped(*e, i as int));
        let l = e.left_refinement.action_map[e.concrete_wiring[i].left_action];
        let r = e.right_refinement.action_map[e.concrete_wiring[i].right_action];
        if l == p.0 && r == p.1 {
            proof {
                assert(mapped_edge(*e, i as int) == p);
            }
            return true;
        }
        i = i + 1;
    }
    false
}

fn wiring_ok(e: &CanonicalCongruenceEncoding) -> (r: bool)
    ensures
        r == wiring_equivalent(*e),
{
    let mut i: usize = 0;
    while i < e.concrete_wiring.len()
        invariant
            i <= e.concrete_wiring@.len(),
            forall|k: int| 0 <= k < i ==> #[trigger] edge_mapped(*e, k),
            forall|k: int| 0 <= k < i ==> is_abstract_edge(*e, #[trigger] mapped_edge(*e, k)),
        decreases e.concrete_wiring@.len() - i,
    {
        let la = e.concrete_wiring[i].left_action;
        let ra = e.concrete_wiring[i].right_action;
        if la >= e.left_refinement.action_map.len() || ra >= e.right_refinement.action_map.len() {
            proof {
                assert(!edge_mapped(*e, i as int));
            }
            return false;
        }
        let p = (e.left_refinement.action_map[la], e.right_refinement.action_map[ra]);
        assert(p == mapped_edge(*e, i as int));
        if !find_abstract_edge(e, p) {
            return false;
        }
        i = i + 1;
    }
    let mut j: usize = 0;
    while j < e.abstract_wiring.len()
        invariant
            j <= e.abstract_wiring@.len(),
            forall|k: int| 0 <= k < e.concrete_wiring@.len() ==> #[trigger] edge_mapped(*e, k),
            forall|k: int| 0 <= k < e.concrete_wiring@.len() ==> is_abstract_edge(*e, #[trigger] mapped_edge(*e, k)),
            forall|k: int| 0 <= k < j ==> is_mapped_edge(*e, #[trigger] abstract_edge(*e, k)),
        decreases e.abstract_wiring@.len() - j,
    {
        let p = (e.abstract_wiring[j].left_action, e.abstract_wiring[j].right_action);
        assert(p == abstract_edge(*e, j as int));
        if !find_mapped_edge(e, p) {
            return false;
        }
        j = j + 1;
    }
    true
}

/// Among the first `n` payload variants, each that repeats an earlier one.
pub open spec fn duplicate_issues(v: Seq<String>, n: nat) -> Seq<CanonicalIssueV>
    decreases n,
{
    if n == 0 {
        Seq::empty()
    } else {
        duplicate_issues(v, (n - 1) as nat) + if texts(v).subrange(0, n - 1).contains(v[n - 1]@) {
            seq![CanonicalIssueV::DuplicatePayloadVariant(v[n - 1]@)]
        } else {
            Seq::empty()
        }
    }
}

fn seen_text(v: &Vec<String>, n: usize, t: &str) -> (r: bool)
    requires
        n <= v@.len(),
    ensures
        r == texts(v@).subrange(0, n as int).contains(t@),
{
    let mut i: usize = 0;
    while i < n
        invariant
            n <= v@.len(),
            i <= n,
            forall|j: int| 0 <= j < i ==> v@[j]@ != t@,
        decreases n - i,
    {
        if str_eq(v[i].as_str(), t) {
            proof {
                assert(texts(v@).subrange(0, n as int)[i as int] == t@);
            }
            return true;
        }
        i = i + 1;
    }
    proof {
        if texts(v@).subrange(0, n as int).contains(t@) {
            let j = choose|j: int| 0 <= j < n && texts(v@).subrange(0, n as int)[j] == t@;
            assert(v@[j]@ == t@);
        }
    }
    false
}

fn push_duplicates(v: &Vec<String>, issues: &mut Vec<CanonicalValidationIssue>)
    ensures
        issue_views(final(issues)@) == issue_views(old(issues)@) + duplicate_issues(v@, v@.len()),
{
    let ghost base = issue_views(issues@);
    let mut k: usize = 0;
    proof {
        assert(base + duplicate_issues(v@, 0) =~= base);
    }
    while k < v.len()
        invariant
            k <= v@.len(),
            issue_views(issues@) == base + duplicate_issues(v@, k as nat),
        decreases v@.len() - k,
    {
        if seen_text(v, k, v[k].as_str()) {
            push_issue(issues, CanonicalValidationIssue::DuplicatePayloadVariant(v[k].clone()));
        }
        proof {
            assert(issue_views(issues@) =~= base + duplicate_issues(v@, (k + 1) as nat));
        }
        k = k + 1;
    }
}

/// What the execution kernel answered on the certificate that encodes the
/// same congruence: it had no room for it, its read-back differs from the
/// encoding, it rejected it, or it accepted it.
#[derive(Clone, Copy, Debug, PartialEq, Eq, Structural)]
pub enum KernelVerdict {
    CapacityExceeded,
    ReadbackMismatch,
    Rejected,
    Accepted,
}

pub open spec fn kernel_issues(k: KernelVerdict) -> Seq<CanonicalIssueV> {
    match k {
        KernelVerdict::CapacityExceeded => seq![CanonicalIssueV::ExecutionKernelCapacityExceeded],
        KernelVerdict::ReadbackMismatch => seq![CanonicalIssueV::ExecutionKernelReadbackMismatch],
        KernelVerdict::Rejected => seq![CanonicalIssueV::ExecutionKernelRejected],
        KernelVerdict::Accepted => Seq::empty(),
    }
}

/// Every issue of an encoding, in the order the validator reports them.
pub open spec fn validation_issues(e: CanonicalCongruenceEncoding, k: KernelVerdict) -> Seq<CanonicalIssueV> {
    let card = e.payload_variants@.len();
    (if e.payload_name@.len() == 0 { seq![CanonicalIssueV::EmptyPayloadIdentity] } else { Seq::empty() })
        + duplicate_issues(e.payload_variants@, card)
        + refinement_issues(CanonicalSide::Left, card, e.concrete_left, e.abstract_left, e.left_refinement)
        + refinement_issues(CanonicalSide::Right, card, e.concrete_right, e.abstract_right, e.right_refinement)
        + (if wiring_equivalent(e) { Seq::empty() } else { seq![CanonicalIssueV::WiringNotEquivalent] })
        + kernel_issues(k)
}

proof fn lemma_concat6(base: Seq<CanonicalIssueV>, p: Seq<Seq<CanonicalIssueV>>)
    requires
        p.len() == 6,
    ensures
        base + p[0] + p[1] + p[2] + p[3] + p[4] + p[5] == base + (p[0] + p[1] + p[2] + p[3] + p[4] + p[5]),
{
    assert(base + p[0] + p[1] + p[2] + p[3] + p[4] + p[5] =~= base + (p[0] + p[1] + p[2] + p[3] + p[4] + p[5]));
}

/// Validates the canonical encoding of a congruence, given the execution
/// kernel's verdict on the certificate that encodes it.
pub struct CanonicalEncodingValidator;

impl CanonicalEncodingValidator {
    pub fn check(encoding: &CanonicalCongruenceEncoding, kernel: KernelVerdict) -> (r: CanonicalValidationReport)
        ensures
            issue_views(r.issues@) == validation_issues(*encoding, kernel),
            r.accepted == (r.issues@.len() == 0),
    {
        let mut issues: Vec<CanonicalValidationIssue> = Vec::new();
        let ghost e = *encoding;
        let ghost card = encoding.payload_variants@.len();
        let ghost l0: Seq<CanonicalIssueV> = if e.payload_name@.len() == 0 { seq![CanonicalIssueV::EmptyPayloadIdentity] } else { Seq::empty() };
        let ghost lw: Seq<CanonicalIssueV> = if wiring_equivalent(e) { Seq::empty() } else { seq![CanonicalIssueV::WiringNotEquivalent] };
        proof {
            assert(issue_views(issues@) =~= Seq::<CanonicalIssueV>::empty());
        }
        if encoding.payload_name.as_str().unicode_len() == 0 {
            push_issue(&mut issues, CanonicalValidationIssue::EmptyPayloadIdentity);
        }
        assert(issue_views(issues@) =~= Seq::<CanonicalIssueV>::empty() + l0);
        push_duplicates(&encoding.payload_variants, &mut issues);
        let cardinality = encoding.payload_variants.len();
        validate_refinement(CanonicalSide::Left, cardinality, &encoding.concrete_left, &encoding.abstract_left,
            &encoding.left_refinement, &mut issues);
        validate_refinement(CanonicalSide::Right, cardinality, &encoding.concrete_right, &encoding.abstract_right,
            &encoding.right_refinement, &mut issues);
        let ghost s4 = issue_views(issues@);
        if !wiring_ok(encoding) {
            push_issue(&mut issues, CanonicalValidationIssue::WiringNotEquivalent);
        }
        assert(issue_views(issues@) =~= s4 + lw);
        let ghost s5 = issue_views(issues@);
        match kernel {
            KernelVerdict::CapacityExceeded => push_issue(&mut issues, CanonicalValidationIssue::ExecutionKernelCapacityExceeded),
            KernelVerdict::ReadbackMismatch => push_issue(&mut issues, CanonicalValidationIssue::ExecutionKernelReadbackMismatch),
            KernelVerdict::Rejected => push_issue(&mut issues, CanonicalValidationIssue::ExecutionKernelRejected),
            KernelVerdict::Accepted => {},
        }
        assert(issue_views(issues@) =~= s5 + kernel_issues(kernel));
        proof {
            lemma_concat6(Seq::empty(), seq![l0,
                duplicate_issues(e.payload_variants@, card),
                refinement_issues(CanonicalSide::Left, card, e.concrete_left, e.abstract_left, e.left_refinement),
                refinement_issues(CanonicalSide::Right, card, e.concrete_right, e.abstract_right, e.right_refinement),
                lw,
                kernel_issues(kernel)]);
            assert(Seq::<CanonicalIssueV>::empty() + validation_issues(e, kernel) =~= validation_issues(e, kernel));
        }
        let accepted = issues.len() == 0;
        CanonicalValidationReport { accepted, issues }
    }
}

/// One component refinement in canonical form: a total state map onto the
/// abstract states, a bijective action map, compatible mapped actions, and
/// no owned capability beyond the abstract component's.
pub open spec fn refinement_sound(cardinality: nat, c: CanonicalSystemEncoding, a: CanonicalSystemEncoding,
    r: CanonicalRefinementEncoding) -> bool {
    let sm = r.state_map@;
    let am = r.action_map@;
    &&& sm.len() == c.state_count
    &&& forall|i: int| 0 <= i < sm.len() ==> #[trigger] sm[i] < a.state_count
    &&& forall|t: usize| t < a.state_count ==> #[trigger] sm.contains(t)
    &&& am.len() == c.actions@.len()
    &&& forall|k: int| 0 <= k < am.len() ==> #[trigger] am[k] < a.actions@.len()
    &&& forall|j: int, k: int| 0 <= j < k < am.len() ==> #[trigger] am[j] != #[trigger] am[k]
    &&& forall|t: usize| t < a.actions@.len() ==> #[trigger] am.contains(t)
    &&& forall|k: int| 0 <= k < am.len() ==> action_compatible(cardinality, #[trigger] c.actions@[k], a.actions@[am[k] as int])
    &&& texts_within(c.owned_capabilities@, a.owned_capabilities@)
}

/// The predicate the validator decides: a named payload with distinct
/// variants, both component refinements sound, equivalent wiring, and a
/// kernel that accepted the same certificate.
pub open spec fn canonical_encoding_sound(e: CanonicalCongruenceEncoding, k: KernelVerdict) -> bool {
    let v = e.payload_variants@;
    let card = v.len();
    &&& e.payload_name@.len() > 0
    &&& forall|i: int, j: int| 0 <= i < j < v.len() ==> #[trigger] v[i]@ != #[trigger] v[j]@
    &&& refinement_sound(card, e.concrete_left, e.abstract_left, e.left_refinement)
    &&& refinement_sound(card, e.concrete_right, e.abstract_right, e.right_refinement)
    &&& wiring_equivalent(e)
    &&& k == KernelVerdict::Accepted
}

proof fn lemma_state_range(side: CanonicalSide, m: Seq<usize>, count: nat, n: nat)
    requires
        n <= m.len(),
    ensures
        state_range_issues(side, m, count, n).len() == 0 <==> forall|i: int| 0 <= i < n ==> #[trigger] m[i] < count,
    decreases n,
{
    if n > 0 {
        lemma_state_range(side, m, count, (n - 1) as nat);
    }
}

proof fn lemma_state_surjection(side: CanonicalSide, m: Seq<usize>, n: nat)
    requires
        n <= usize::MAX + 1,
    ensures
        state_surjection_issues(side, m, n).len() == 0 <==> forall|t: usize| t < n ==> #[trigger] m.contains(t),
    decreases n,
{
    if n > 0 {
        lemma_state_surjection(side, m, (n - 1) as nat);
    }
}

proof fn lemma_action_surjection(side: CanonicalSide, m: Seq<usize>, n: nat)
    requires
        n <= usize::MAX + 1,
    ensures
        action_surjection_issues(side, m, n).len() == 0 <==> forall|t: usize| t < n ==> #[trigger] m.contains(t),
    decreases n,
{
    if n > 0 {
        lemma_action_surjection(side, m, (n - 1) as nat);
    }
}

proof fn lemma_action_map(side: CanonicalSide, m: Seq<usize>, count: nat, n: nat)
    requires
        n <= m.len(),
    ensures
        action_map_issues(side, m, count, n).len() == 0 <==> {
            &&& forall|k: int| 0 <= k < n ==> #[trigger] m[k] < count
            &&& forall|j: int, k: int| 0 <= j < k < n ==> #[trigger] m[j] != #[trigger] m[k]
        },
    decreases n,
{
    if n > 0 {
        let k = n - 1;
        lemma_action_map(side, m, count, (n - 1) as nat);
        let pre = m.subrange(0, k);
        if pre.contains(m[k]) {
            let j = choose|j: int| 0 <= j < pre.len() && pre[j] == m[k];
            assert(m[j] == m[k]);
        } else {
            assert forall|j: int| 0 <= j < k implies m[j] != m[k] by {
                assert(pre[j] == m[j]);
            }
        }
    }
}

proof fn lemma_incompatible(side: CanonicalSide, cardinality: nat, c: Seq<CanonicalActionEncoding>,
    a: Seq<CanonicalActionEncoding>, m: Seq<usize>, n: nat)
    ensures
        incompatible_issues(side, cardinality, c, a, m, n).len() == 0 <==> forall|k: int| 0 <= k < n ==>
            (k < c.len() && m[k] < a.len() ==> action_compatible(cardinality, #[trigger] c[k], a[m[k] as int])),
    decreases n,
{
    if n > 0 {
        lemma_incompatible(side, cardinality, c, a, m, (n - 1) as nat);
    }
}

proof fn lemma_authority(side: CanonicalSide, c: Seq<String>, a: Seq<String>, n: nat)
    requires
        n <= c.len(),
    ensures
        authority_issues(side, c, a, n).len() == 0 <==> forall|k: int| 0 <= k < n ==> texts(a).contains(#[trigger] c[k]@),
    decreases n,
{
    if n > 0 {
        lemma_authority(side, c, a, (n - 1) as nat);
    }
}

proof fn lemma_duplicates(v: Seq<String>, n: nat)
    requires
        n <= v.len(),
    ensures
        duplicate_issues(v, n).len() == 0 <==> forall|i: int, j: int| 0 <= i < j < n ==> #[trigger] v[i]@ != #[trigger] v[j]@,
    decreases n,
{
    if n > 0 {
        let k = n - 1;
        lemma_duplicates(v, (n - 1) as nat);
        let pre = texts(v).subrange(0, k);
        if pre.contains(v[k]@) {
            let j = choose|j: int| 0 <= j < pre.len() && pre[j] == v[k]@;
            assert(v[j]@ == v[k]@);
        } else {
            assert forall|i: int| 0 <= i < k implies v[i]@ != v[k]@ by {
                assert(pre[i] == v[i]@);
            }
        }
    }
}

proof fn lemma_refinement_sound(side: CanonicalSide, cardinality: nat, c: CanonicalSystemEncoding,
    a: CanonicalSystemEncoding, r: CanonicalRefinementEncoding)
    ensures
        refinement_issues(side, cardinality, c, a, r).len() == 0 <==> refinement_sound(cardinality, c, a, r),
{
    let sm = r.state_map@;
    let am = r.action_map@;
    lemma_state_range(side, sm, a.state_count as nat, sm.len());
    lemma_state_surjection(side, sm, a.state_count as nat);
    assert(a.actions.len() == a.actions@.len());
    lemma_action_map(side, am, a.actions@.len(), am.len());
    lemma_action_surjection(side, am, a.actions@.len());
    lemma_incompatible(side, cardinality, c.actions@, a.actions@, am, am.len());
    lemma_authority(side, c.owned_capabilities@, a.owned_capabilities@, c.owned_capabilities@.len());
    if refinement_sound(cardinality, c, a, r) {
        assert forall|k: int| 0 <= k < am.len() && k < c.actions@.len() && am[k] < a.actions@.len() implies
            action_compatible(cardinality, #[trigger] c.actions@[k], a.actions@[am[k] as int]) by {
        }
    }
    if refinement_issues(side, cardinality, c, a, r).len() == 0 {
        assert forall|k: int| 0 <= k < am.len() implies
            action_compatible(cardinality, #[trigger] c.actions@[k], a.actions@[am[k] as int]) by {
            assert(am[k] < a.actions@.len());
        }
    }
}

/// The validator accepts exactly the encodings that satisfy the canonical
/// predicate: a named payload with distinct variants, two sound component
/// refinements (total, onto state maps; bijective action maps onto
/// compatible abstract actions; no widened authority), wiring that the action
/// maps carry onto the abstract wiring and back, and a kernel that accepted
/// the certificate.
pub proof fn validator_decides_canonical_soundness(e: CanonicalCongruenceEncoding, k: KernelVerdict)
    ensures
        validation_issues(e, k).len() == 0 <==> canonical_encoding_sound(e, k),
{
    let card = e.payload_variants@.len();
    lemma_duplicates(e.payload_variants@, card);
    lemma_refinement_sound(CanonicalSide::Left, card, e.concrete_left, e.abstract_left, e.left_refinement);
    lemma_refinement_sound(CanonicalSide::Right, card, e.concrete_right, e.abstract_right, e.right_refinement);
}

} // verus!
