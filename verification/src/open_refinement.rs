//! Label-aware finite open refinement: the finite forward simulation of the
//! behaviour together with a total, injective renaming of the visible
//! boundary that preserves polarity, channel and exact nominal payload
//! identity. Input assumptions are contravariant and output guarantees
//! covariant under finite-set inclusion. This is not payload subtyping and
//! makes no compositionality, liveness, fairness or circular-contract claim.

use vstd::prelude::*;
use crate::observation::{ActionHiding, ObservationMap, hiding_view, opt_text, opt_text_fn};
use crate::open::{ActionPolarity, OpenSystem, OpenSystemV, SignatureV, payload_id, sig_fn};
use crate::open_contract::PayloadType;
use crate::open_contract::{FiniteContractV, PayloadPredicate, PayloadPredicateV, predicate_fn, predicate_views};
use crate::refinement::{RefinementChecker, RefinementReport, RefinementSpec, RefinementSpecV, mismatch_views, refinement_mismatches};
use crate::smap::{StrMap, entries_view, has_key, key_seq, last_lookup, lookup, map_entry_values, lemma_map_entry_values, sorted_keys};

verus! {

#[derive(Clone, Debug, PartialEq, Eq)]
pub enum OpenRefinementIssue {
    BehaviorRejected,
    UnknownConcreteAction(String),
    ConcreteActionUnmapped(String),
    BoundaryActionHidden(String),
    MappedAbstractActionMissing { concrete_action: String, abstract_action: String },
    AbstractBoundaryActionUncovered(String),
    NonInjectiveBoundaryMapping { first_concrete_action: String, second_concrete_action: String, abstract_action: String },
    PolarityNotPreserved { concrete_action: String, abstract_action: String },
    ChannelNotPreserved { concrete_action: String, abstract_action: String },
    PayloadTypeNotPreserved { concrete_action: String, abstract_action: String },
    AssumptionNotContravariant { concrete_action: String, abstract_action: String, rejected_value: String },
    GuaranteeNotCovariant { concrete_action: String, abstract_action: String, rejected_value: String },
}

pub enum OpenRefV {
    BehaviorRejected,
    UnknownConcreteAction(Seq<char>),
    ConcreteActionUnmapped(Seq<char>),
    BoundaryActionHidden(Seq<char>),
    MappedAbstractActionMissing(Seq<char>, Seq<char>),
    AbstractBoundaryActionUncovered(Seq<char>),
    NonInjectiveBoundaryMapping(Seq<char>, Seq<char>, Seq<char>),
    PolarityNotPreserved(Seq<char>, Seq<char>),
    ChannelNotPreserved(Seq<char>, Seq<char>),
    PayloadTypeNotPreserved(Seq<char>, Seq<char>),
    AssumptionNotContravariant(Seq<char>, Seq<char>, Seq<char>),
    GuaranteeNotCovariant(Seq<char>, Seq<char>, Seq<char>),
}

impl View for OpenRefinementIssue {
    type V = OpenRefV;

    open spec fn view(&self) -> OpenRefV {
        match self {
            OpenRefinementIssue::BehaviorRejected => OpenRefV::BehaviorRejected,
            OpenRefinementIssue::UnknownConcreteAction(a) => OpenRefV::UnknownConcreteAction(a@),
            OpenRefinementIssue::ConcreteActionUnmapped(a) => OpenRefV::ConcreteActionUnmapped(a@),
            OpenRefinementIssue::BoundaryActionHidden(a) => OpenRefV::BoundaryActionHidden(a@),
            OpenRefinementIssue::MappedAbstractActionMissing { concrete_action, abstract_action } => OpenRefV::MappedAbstractActionMissing(concrete_action@, abstract_action@),
            OpenRefinementIssue::AbstractBoundaryActionUncovered(a) => OpenRefV::AbstractBoundaryActionUncovered(a@),
            OpenRefinementIssue::NonInjectiveBoundaryMapping { first_concrete_action, second_concrete_action, abstract_action } =>
                OpenRefV::NonInjectiveBoundaryMapping(first_concrete_action@, second_concrete_action@, abstract_action@),
            OpenRefinementIssue::PolarityNotPreserved { concrete_action, abstract_action } => OpenRefV::PolarityNotPreserved(concrete_action@, abstract_action@),
            OpenRefinementIssue::ChannelNotPreserved { concrete_action, abstract_action } => OpenRefV::ChannelNotPreserved(concrete_action@, abstract_action@),
            OpenRefinementIssue::PayloadTypeNotPreserved { concrete_action, abstract_action } => OpenRefV::PayloadTypeNotPreserved(concrete_action@, abstract_action@),
            OpenRefinementIssue::AssumptionNotContravariant { concrete_action, abstract_action, rejected_value } =>
                OpenRefV::AssumptionNotContravariant(concrete_action@, abstract_action@, rejected_value@),
            OpenRefinementIssue::GuaranteeNotCovariant { concrete_action, abstract_action, rejected_value } =>
                OpenRefV::GuaranteeNotCovariant(concrete_action@, abstract_action@, rejected_value@),
        }
    }
}

pub open spec fn open_ref_views(s: Seq<OpenRefinementIssue>) -> Seq<OpenRefV> {
    s.map_values(|i: OpenRefinementIssue| i@)
}

#[derive(Clone, Debug, PartialEq, Eq)]
pub struct OpenRefinementReport {
    pub accepted: bool,
    pub behavior: RefinementReport,
    pub issues: Vec<OpenRefinementIssue>,
}

fn push_issue(issues: &mut Vec<OpenRefinementIssue>, issue: OpenRefinementIssue)
    ensures
        open_ref_views(final(issues)@) == open_ref_views(old(issues)@).push(issue@),
{
    let ghost before = open_ref_views(issues@);
    issues.push(issue);
    proof {
        assert(open_ref_views(issues@) =~= before.push(issue@));
    }
}

/// Every declared input has an assumption and every declared output a
/// guarantee, over the payload type of its declaration.
pub open spec fn payload_ready(s: OpenSystemV) -> bool {
    crate::open::payload_complete(s.interface, s.payload_contract)
}

/// `p` accepts only values that `q` accepts, over the same type.
pub open spec fn predicate_subset(p: PayloadPredicateV, q: PayloadPredicateV) -> bool {
    p.payload_type == q.payload_type && forall|v: Seq<char>| #[trigger] p.accepted.contains(v) ==> q.accepted.contains(v)
}

/// The first value, in increasing order, that `p` accepts and `q` rejects.
pub open spec fn first_missing(p: PayloadPredicateV, q: PayloadPredicateV) -> Seq<char> {
    p.accepted[choose|i: int| 0 <= i < p.accepted.len() && !q.accepted.contains(p.accepted[i])
        && forall|j: int| 0 <= j < i ==> q.accepted.contains(#[trigger] p.accepted[j])]
}

/// Concrete declaration `j` is a visible boundary action whose mapped
/// abstract action `a` is declared.
pub open spec fn boundary_image(ci: Seq<(Seq<char>, SignatureV)>, ai: Seq<(Seq<char>, SignatureV)>, h: Seq<(Seq<char>, Option<Seq<char>>)>,
    j: int, a: Seq<char>) -> bool {
    &&& ci[j].1.polarity != ActionPolarity::Internal
    &&& lookup(h, ci[j].0) == Some(Some(a))
    &&& has_key(ai, a)
}

/// The last of the declarations before `i` that is a boundary action with image `a`.
pub open spec fn last_image(ci: Seq<(Seq<char>, SignatureV)>, ai: Seq<(Seq<char>, SignatureV)>, h: Seq<(Seq<char>, Option<Seq<char>>)>,
    a: Seq<char>, i: int) -> int {
    choose|j: int| 0 <= j < i && boundary_image(ci, ai, h, j, a) && forall|k: int| j < k < i ==> !boundary_image(ci, ai, h, k, a)
}

/// The contract issue of a boundary declaration `ca` mapped to `a`.
pub open spec fn contract_issue(c: OpenSystemV, a: OpenSystemV, ca: Seq<char>, aa: Seq<char>, polarity: ActionPolarity) -> Seq<OpenRefV> {
    match polarity {
        ActionPolarity::Input => {
            let cp = lookup(c.payload_contract.assumptions, ca)->0;
            let ap = lookup(a.payload_contract.assumptions, aa)->0;
            if predicate_subset(ap, cp) { Seq::empty() } else { seq![OpenRefV::AssumptionNotContravariant(ca, aa, first_missing(ap, cp))] }
        },
        ActionPolarity::Output => {
            let cp = lookup(c.payload_contract.guarantees, ca)->0;
            let ap = lookup(a.payload_contract.guarantees, aa)->0;
            if predicate_subset(cp, ap) { Seq::empty() } else { seq![OpenRefV::GuaranteeNotCovariant(ca, aa, first_missing(cp, ap))] }
        },
        ActionPolarity::Internal => Seq::empty(),
    }
}

/// What is wrong with concrete declaration `i` under the hiding `h`.
pub open spec fn declaration_issue(c: OpenSystemV, a: OpenSystemV, h: Seq<(Seq<char>, Option<Seq<char>>)>, i: int) -> Seq<OpenRefV> {
    let ci = c.interface;
    let ca = ci[i].0;
    let cs = ci[i].1;
    match lookup(h, ca) {
        None => seq![OpenRefV::ConcreteActionUnmapped(ca)],
        Some(None) => if cs.polarity != ActionPolarity::Internal { seq![OpenRefV::BoundaryActionHidden(ca)] } else { Seq::empty() },
        Some(Some(aa)) => match lookup(a.interface, aa) {
            None => seq![OpenRefV::MappedAbstractActionMissing(ca, aa)],
            Some(asig) => (if cs.polarity != ActionPolarity::Internal && exists|j: int| 0 <= j < i && #[trigger] boundary_image(ci, a.interface, h, j, aa) {
                    seq![OpenRefV::NonInjectiveBoundaryMapping(ci[last_image(ci, a.interface, h, aa, i)].0, ca, aa)]
                } else {
                    Seq::empty()
                }) + if cs.polarity != asig.polarity {
                    seq![OpenRefV::PolarityNotPreserved(ca, aa)]
                } else {
                    (if cs.channel != asig.channel { seq![OpenRefV::ChannelNotPreserved(ca, aa)] } else { Seq::empty() })
                        + if cs.payload != asig.payload { seq![OpenRefV::PayloadTypeNotPreserved(ca, aa)] } else { contract_issue(c, a, ca, aa, cs.polarity) }
                },
        },
    }
}

pub open spec fn declaration_issues(c: OpenSystemV, a: OpenSystemV, h: Seq<(Seq<char>, Option<Seq<char>>)>, n: nat) -> Seq<OpenRefV>
    decreases n,
{
    if n == 0 {
        Seq::empty()
    } else {
        declaration_issues(c, a, h, (n - 1) as nat) + declaration_issue(c, a, h, n - 1)
    }
}

/// The mapped actions, in mapping order, that the concrete interface lacks.
pub open spec fn unknown_issues(h: Seq<(Seq<char>, Option<Seq<char>>)>, ci: Seq<(Seq<char>, SignatureV)>, n: nat) -> Seq<OpenRefV>
    decreases n,
{
    if n == 0 {
        Seq::empty()
    } else {
        unknown_issues(h, ci, (n - 1) as nat) + if has_key(ci, h[n - 1].0) { Seq::empty() } else { seq![OpenRefV::UnknownConcreteAction(h[n - 1].0)] }
    }
}

/// The abstract boundary actions, in order, that no concrete boundary action maps onto.
pub open spec fn uncovered_issues(c: OpenSystemV, a: OpenSystemV, h: Seq<(Seq<char>, Option<Seq<char>>)>, n: nat) -> Seq<OpenRefV>
    decreases n,
{
    if n == 0 {
        Seq::empty()
    } else {
        let e = a.interface[n - 1];
        uncovered_issues(c, a, h, (n - 1) as nat) + if e.1.polarity != ActionPolarity::Internal
            && !exists|j: int| 0 <= j < c.interface.len() && #[trigger] boundary_image(c.interface, a.interface, h, j, e.0) {
            seq![OpenRefV::AbstractBoundaryActionUncovered(e.0)]
        } else {
            Seq::empty()
        }
    }
}

/// Every issue of the open refinement of `c` to `a` under `sp`, in report order.
pub open spec fn open_refinement_issues(c: OpenSystemV, a: OpenSystemV, sp: RefinementSpecV) -> Seq<OpenRefV> {
    (if refinement_mismatches(c.graph, a.graph, sp).len() == 0 { Seq::empty() } else { seq![OpenRefV::BehaviorRejected] })
        + unknown_issues(sp.actions, c.interface, sp.actions.len())
        + declaration_issues(c, a, sp.actions, c.interface.len())
        + uncovered_issues(c, a, sp.actions, a.interface.len())
}

proof fn lemma_predicate_lookup(s: Seq<(Seq<char>, PayloadPredicate)>, k: Seq<char>)
    ensures
        lookup(predicate_views(s), k) == match lookup(s, k) {
            Some(p) => Some(p@),
            None => None::<PayloadPredicateV>,
        },
{
    assert(predicate_views(s) =~= map_entry_values(s, predicate_fn()));
    lemma_map_entry_values(s, predicate_fn(), k);
}

/// The images recorded for the boundary declarations before `i`: each
/// image with the last declaration that maps onto it.
#[verifier::opaque]
pub open spec fn images_upto(images: Seq<(Seq<char>, String)>, ci: Seq<(Seq<char>, SignatureV)>, ai: Seq<(Seq<char>, SignatureV)>,
    h: Seq<(Seq<char>, Option<Seq<char>>)>, i: int) -> bool {
    &&& forall|a: Seq<char>| #[trigger] has_key(images, a) == exists|j: int| 0 <= j < i && #[trigger] boundary_image(ci, ai, h, j, a)
    &&& forall|a: Seq<char>| has_key(images, a) ==> (#[trigger] lookup(images, a))->0@ == ci[last_image(ci, ai, h, a, i)].0
}

proof fn lemma_last_image(ci: Seq<(Seq<char>, SignatureV)>, ai: Seq<(Seq<char>, SignatureV)>, h: Seq<(Seq<char>, Option<Seq<char>>)>,
    a: Seq<char>, i: int, j: int)
    requires
        0 <= j < i,
        boundary_image(ci, ai, h, j, a),
        forall|k: int| j < k < i ==> !boundary_image(ci, ai, h, k, a),
    ensures
        last_image(ci, ai, h, a, i) == j,
{
    let f = last_image(ci, ai, h, a, i);
    assert(0 <= f < i && boundary_image(ci, ai, h, f, a) && forall|k: int| f < k < i ==> !boundary_image(ci, ai, h, k, a));
    if f < j {
        assert(!boundary_image(ci, ai, h, j, a));
    }
    if j < f {
        assert(!boundary_image(ci, ai, h, f, a));
    }
}

proof fn lemma_greatest_image(ci: Seq<(Seq<char>, SignatureV)>, ai: Seq<(Seq<char>, SignatureV)>, h: Seq<(Seq<char>, Option<Seq<char>>)>,
    a: Seq<char>, i: int, j: int)
    requires
        0 <= j < i,
        boundary_image(ci, ai, h, j, a),
    ensures
        exists|m: int| j <= m < i && boundary_image(ci, ai, h, m, a) && forall|k: int| m < k < i ==> !boundary_image(ci, ai, h, k, a),
    decreases i - j,
{
    if exists|k: int| j < k < i && boundary_image(ci, ai, h, k, a) {
        let k = choose|k: int| j < k < i && boundary_image(ci, ai, h, k, a);
        lemma_greatest_image(ci, ai, h, a, i, k);
    } else {
        assert(j <= j < i && boundary_image(ci, ai, h, j, a) && forall|k: int| j < k < i ==> !boundary_image(ci, ai, h, k, a));
    }
}

proof fn lemma_images_keep(images: Seq<(Seq<char>, String)>, ci: Seq<(Seq<char>, SignatureV)>, ai: Seq<(Seq<char>, SignatureV)>,
    h: Seq<(Seq<char>, Option<Seq<char>>)>, i: int)
    requires
        0 <= i < ci.len(),
        images_upto(images, ci, ai, h, i),
        forall|a: Seq<char>| !boundary_image(ci, ai, h, i, a),
    ensures
        images_upto(images, ci, ai, h, i + 1),
{
    reveal(images_upto);
    assert forall|a: Seq<char>| has_key(images, a) implies (#[trigger] lookup(images, a))->0@ == ci[last_image(ci, ai, h, a, i + 1)].0 by {
        let j = choose|j: int| 0 <= j < i && #[trigger] boundary_image(ci, ai, h, j, a);
        lemma_greatest_image(ci, ai, h, a, i, j);
        let m = last_image(ci, ai, h, a, i);
        lemma_last_image(ci, ai, h, a, i + 1, m);
    }
    assert forall|a: Seq<char>| #[trigger] has_key(images, a) == exists|j: int| 0 <= j < i + 1 && #[trigger] boundary_image(ci, ai, h, j, a) by {
        if exists|j: int| 0 <= j < i + 1 && #[trigger] boundary_image(ci, ai, h, j, a) {
            let j = choose|j: int| 0 <= j < i + 1 && #[trigger] boundary_image(ci, ai, h, j, a);
            assert(j < i);
        }
    }
}

/// Records declaration `i`, a boundary action with image `aa`, returning
/// the declaration recorded for `aa` before.
fn record_boundary(images: &mut StrMap<String>, ca: &String, aa: &str, Ghost(ci): Ghost<Seq<(Seq<char>, SignatureV)>>,
    Ghost(ai): Ghost<Seq<(Seq<char>, SignatureV)>>, Ghost(h): Ghost<Seq<(Seq<char>, Option<Seq<char>>)>>, Ghost(i): Ghost<int>) -> (r: Option<String>)
    requires
        0 <= i < ci.len(),
        ci[i].0 == ca@,
        boundary_image(ci, ai, h, i, aa@),
        images_upto(old(images)@, ci, ai, h, i),
    ensures
        images_upto(final(images)@, ci, ai, h, i + 1),
        r is Some <==> exists|j: int| 0 <= j < i && #[trigger] boundary_image(ci, ai, h, j, aa@),
        r matches Some(f) ==> f@ == ci[last_image(ci, ai, h, aa@, i)].0,
{
    proof {
        reveal(images_upto);
    }
    let ghost old_images = images@;
    let previous = match images.get(aa) {
        Some(f) => Some(f.clone()),
        None => None,
    };
    images.insert(aa.to_owned(), ca.clone());
    proof {
        assert forall|a: Seq<char>| has_key(images@, a) implies (#[trigger] lookup(images@, a))->0@ == ci[last_image(ci, ai, h, a, i + 1)].0 by {
            if a == aa@ {
                assert forall|k: int| i < k < i + 1 implies !boundary_image(ci, ai, h, k, a) by {}
                lemma_last_image(ci, ai, h, a, i + 1, i);
            } else {
                assert(has_key(old_images, a));
                let j = choose|j: int| 0 <= j < i && #[trigger] boundary_image(ci, ai, h, j, a);
                lemma_greatest_image(ci, ai, h, a, i, j);
                let m = last_image(ci, ai, h, a, i);
                assert(!boundary_image(ci, ai, h, i, a));
                lemma_last_image(ci, ai, h, a, i + 1, m);
            }
        }
        assert forall|a: Seq<char>| #[trigger] has_key(images@, a) == exists|j: int| 0 <= j < i + 1 && #[trigger] boundary_image(ci, ai, h, j, a) by {
            if a == aa@ {
                assert(boundary_image(ci, ai, h, i, a));
            }
            if exists|j: int| 0 <= j < i + 1 && #[trigger] boundary_image(ci, ai, h, j, a) {
                let j = choose|j: int| 0 <= j < i + 1 && #[trigger] boundary_image(ci, ai, h, j, a);
                if j == i {
                    assert(a == aa@);
                }
            }
        }
        if has_key(old_images, aa@) {
            let j = choose|j: int| 0 <= j < i && #[trigger] boundary_image(ci, ai, h, j, aa@);
            lemma_greatest_image(ci, ai, h, aa@, i, j);
        }
    }
    previous
}

proof fn lemma_first_missing(p: PayloadPredicateV, q: PayloadPredicateV, i: int)
    requires
        0 <= i < p.accepted.len(),
        !q.accepted.contains(p.accepted[i]),
        forall|j: int| 0 <= j < i ==> q.accepted.contains(#[trigger] p.accepted[j]),
    ensures
        first_missing(p, q) == p.accepted[i],
{
    let f = choose|f: int| 0 <= f < p.accepted.len() && !q.accepted.contains(p.accepted[f])
        && forall|j: int| 0 <= j < f ==> q.accepted.contains(#[trigger] p.accepted[j]);
    assert(0 <= f < p.accepted.len() && !q.accepted.contains(p.accepted[f])
        && forall|j: int| 0 <= j < f ==> q.accepted.contains(#[trigger] p.accepted[j]));
    if f < i {
        assert(q.accepted.contains(p.accepted[f]));
    }
    if i < f {
        assert(q.accepted.contains(p.accepted[i]));
    }
}

/// Whether `inner` accepts only what `outer` accepts, and otherwise the
/// first value that `inner` accepts and `outer` rejects.
fn inclusion_witness(inner: &PayloadPredicate, outer: &PayloadPredicate) -> (r: Option<String>)
    requires
        inner@.payload_type == outer@.payload_type,
    ensures
        r is None <==> predicate_subset(inner@, outer@),
        r matches Some(v) ==> v@ == first_missing(inner@, outer@),
{
    match inner.first_missing_in(outer) {
        None => None,
        Some(v) => {
            proof {
                let i = choose|i: int| 0 <= i < inner@.accepted.len() && inner@.accepted[i] == v@ && !outer@.accepted.contains(v@)
                    && forall|j: int| 0 <= j < i ==> outer@.accepted.contains(#[trigger] inner@.accepted[j]);
                lemma_first_missing(inner@, outer@, i);
                assert(inner@.accepted.contains(v@));
            }
            Some(v.to_owned())
        },
    }
}

/// The contract issue of boundary declaration `ca` mapped to `aa`.
fn check_contract(concrete: &OpenSystem, abstract_system: &OpenSystem, ca: &String, aa: &str, polarity: ActionPolarity,
    issues: &mut Vec<OpenRefinementIssue>)
    requires
        payload_ready(concrete@),
        payload_ready(abstract_system@),
        lookup(concrete@.interface, ca@) matches Some(cs) && cs.polarity == polarity,
        lookup(abstract_system@.interface, aa@) matches Some(asig) && asig.polarity == polarity
            && asig.payload == lookup(concrete@.interface, ca@)->0.payload,
    ensures
        open_ref_views(final(issues)@) == open_ref_views(old(issues)@) + contract_issue(concrete@, abstract_system@, ca@, aa@, polarity),
{
    let ghost before = open_ref_views(issues@);
    proof {
        assert(lookup(concrete@.interface, ca@) matches Some(sig));
        assert(lookup(abstract_system@.interface, aa@) matches Some(sig));
        assert(crate::open::payload_ok(concrete@.interface, concrete@.payload_contract, ca@));
        assert(crate::open::payload_ok(abstract_system@.interface, abstract_system@.payload_contract, aa@));
    }
    match polarity {
        ActionPolarity::Input => {
            let cm = concrete.payload_contract().assumptions();
            let am = abstract_system.payload_contract().assumptions();
            proof {
                lemma_predicate_lookup(cm@, ca@);
                lemma_predicate_lookup(am@, aa@);
            }
            let cp = cm.get(ca.as_str()).unwrap();
            let ap = am.get(aa).unwrap();
            match inclusion_witness(ap, cp) {
                None => {},
                Some(v) => {
                    push_issue(issues, OpenRefinementIssue::AssumptionNotContravariant {
                        concrete_action: ca.clone(), abstract_action: aa.to_owned(), rejected_value: v,
                    });
                },
            }
        },
        ActionPolarity::Output => {
            let cm = concrete.payload_contract().guarantees();
            let am = abstract_system.payload_contract().guarantees();
            proof {
                lemma_predicate_lookup(cm@, ca@);
                lemma_predicate_lookup(am@, aa@);
            }
            let cp = cm.get(ca.as_str()).unwrap();
            let ap = am.get(aa).unwrap();
            match inclusion_witness(cp, ap) {
                None => {},
                Some(v) => {
                    push_issue(issues, OpenRefinementIssue::GuaranteeNotCovariant {
                        concrete_action: ca.clone(), abstract_action: aa.to_owned(), rejected_value: v,
                    });
                },
            }
        },
        ActionPolarity::Internal => {},
    }
    proof {
        assert(open_ref_views(issues@) =~= before + contract_issue(concrete@, abstract_system@, ca@, aa@, polarity));
    }
}

/// Whether two optional payload types have the same identity.
fn same_payload(a: &Option<PayloadType>, b: &Option<PayloadType>) -> (r: bool)
    ensures
        r == (payload_id(*a) == payload_id(*b)),
{
    match (a, b) {
        (Some(x), Some(y)) => x.id().same(&y.id()),
        (None, None) => true,
        _ => false,
    }
}

/// The issues of concrete declaration `i`, mapped to the declared abstract
/// action `aa` with signature `asig`.
#[verifier::rlimit(60)]
fn check_mapped(concrete: &OpenSystem, abstract_system: &OpenSystem, h: &ActionHiding, images: &mut StrMap<String>,
    issues: &mut Vec<OpenRefinementIssue>, ca: &String, csig: &crate::open::ActionSignature, aa: &str, asig: &crate::open::ActionSignature,
    Ghost(i): Ghost<int>)
    requires
        payload_ready(concrete@),
        payload_ready(abstract_system@),
        sorted_keys(concrete@.interface),
        0 <= i < concrete@.interface.len(),
        concrete@.interface[i].0 == ca@,
        concrete@.interface[i].1 == csig@,
        lookup(h@, ca@) == Some(Some(aa@)),
        lookup(abstract_system@.interface, aa@) == Some(asig@),
        images_upto(old(images)@, concrete@.interface, abstract_system@.interface, h@, i),
    ensures
        images_upto(final(images)@, concrete@.interface, abstract_system@.interface, h@, i + 1),
        open_ref_views(final(issues)@) == open_ref_views(old(issues)@) + declaration_issue(concrete@, abstract_system@, h@, i),
{
    let ghost ci = concrete@.interface;
    let ghost ai = abstract_system@.interface;
    let ghost before = open_ref_views(issues@);
    proof {
        crate::smap::lemma_sorted_lookup(ci, i);
        assert(has_key(ai, aa@)) by {
            if !has_key(ai, aa@) {
                crate::smap::lemma_lookup_none(ai, aa@);
            }
        }
    }
    if csig.polarity != ActionPolarity::Internal {
        match record_boundary(images, ca, aa, Ghost(ci), Ghost(ai), Ghost(h@), Ghost(i)) {
            Some(first) => {
                push_issue(issues, OpenRefinementIssue::NonInjectiveBoundaryMapping {
                    first_concrete_action: first, second_concrete_action: ca.clone(), abstract_action: aa.to_owned(),
                });
            },
            None => {},
        }
    } else {
        proof {
            lemma_images_keep(images@, ci, ai, h@, i);
        }
    }
    let ghost mid = open_ref_views(issues@);
    proof {
        assert(mid =~= before + (if csig@.polarity != ActionPolarity::Internal && exists|j: int| 0 <= j < i && #[trigger] boundary_image(ci, ai, h@, j, aa@) {
            seq![OpenRefV::NonInjectiveBoundaryMapping(ci[last_image(ci, ai, h@, aa@, i)].0, ca@, aa@)]
        } else {
            Seq::<OpenRefV>::empty()
        }));
    }
    if csig.polarity != asig.polarity {
        push_issue(issues, OpenRefinementIssue::PolarityNotPreserved { concrete_action: ca.clone(), abstract_action: aa.to_owned() });
    } else {
        if !crate::open::same_text(&csig.channel, &asig.channel) {
            push_issue(issues, OpenRefinementIssue::ChannelNotPreserved { concrete_action: ca.clone(), abstract_action: aa.to_owned() });
        }
        if !same_payload(&csig.payload_type, &asig.payload_type) {
            push_issue(issues, OpenRefinementIssue::PayloadTypeNotPreserved { concrete_action: ca.clone(), abstract_action: aa.to_owned() });
        } else {
            check_contract(concrete, abstract_system, ca, aa, csig.polarity, issues);
        }
    }
    proof {
        assert(open_ref_views(issues@) =~= before + declaration_issue(concrete@, abstract_system@, h@, i));
    }
}

/// The issues of concrete declaration `i`.
fn check_declaration(concrete: &OpenSystem, abstract_system: &OpenSystem, h: &ActionHiding, images: &mut StrMap<String>,
    issues: &mut Vec<OpenRefinementIssue>, ca: &String, csig: &crate::open::ActionSignature, Ghost(i): Ghost<int>)
    requires
        payload_ready(concrete@),
        payload_ready(abstract_system@),
        sorted_keys(concrete@.interface),
        0 <= i < concrete@.interface.len(),
        concrete@.interface[i].0 == ca@,
        concrete@.interface[i].1 == csig@,
        images_upto(old(images)@, concrete@.interface, abstract_system@.interface, h@, i),
    ensures
        images_upto(final(images)@, concrete@.interface, abstract_system@.interface, h@, i + 1),
        open_ref_views(final(issues)@) == open_ref_views(old(issues)@) + declaration_issue(concrete@, abstract_system@, h@, i),
{
    let ghost ci = concrete@.interface;
    let ghost ai = abstract_system@.interface;
    let ghost before = open_ref_views(issues@);
    match h.get(ca.as_str()) {
        None => {
            push_issue(issues, OpenRefinementIssue::ConcreteActionUnmapped(ca.clone()));
            proof {
                lemma_images_keep(images@, ci, ai, h@, i);
            }
        },
        Some(None) => {
            if csig.polarity != ActionPolarity::Internal {
                push_issue(issues, OpenRefinementIssue::BoundaryActionHidden(ca.clone()));
            }
            proof {
                lemma_images_keep(images@, ci, ai, h@, i);
                assert(open_ref_views(issues@) =~= before + declaration_issue(concrete@, abstract_system@, h@, i));
            }
        },
        Some(Some(aa)) => {
            match abstract_system.interface().get(aa) {
                None => {
                    push_issue(issues, OpenRefinementIssue::MappedAbstractActionMissing { concrete_action: ca.clone(), abstract_action: aa.to_owned() });
                    proof {
                        assert forall|a: Seq<char>| !boundary_image(ci, ai, h@, i, a) by {
                            if a == aa@ {
                                assert(!has_key(ai, aa@));
                            }
                        }
                        lemma_images_keep(images@, ci, ai, h@, i);
                    }
                },
                Some(asig) => {
                    check_mapped(concrete, abstract_system, h, images, issues, ca, csig, aa, asig, Ghost(i));
                },
            }
        },
    }
}

pub struct OpenRefinementChecker;

impl OpenRefinementChecker {
    /// Checks one complete finite open-refinement instance: the behaviour,
    /// every mapped action known, every concrete declaration mapped, boundary
    /// actions visible, injectively renamed onto declared abstract boundary
    /// actions of the same polarity, channel and payload type that they
    /// cover, with contravariant assumptions and covariant guarantees.
    #[verifier::rlimit(80)]
    #[verifier::spinoff_prover]
    pub fn check(concrete: &OpenSystem, abstract_system: &OpenSystem, spec: &RefinementSpec) -> (r: OpenRefinementReport)
        requires
            payload_ready(concrete@),
            payload_ready(abstract_system@),
        ensures
            mismatch_views(r.behavior.mismatches@) == refinement_mismatches(concrete@.graph, abstract_system@.graph, spec@),
            r.behavior.accepted == (refinement_mismatches(concrete@.graph, abstract_system@.graph, spec@).len() == 0),
            r.behavior.checked_states == concrete@.graph.states.len(),
            r.behavior.checked_transitions == concrete@.graph.transitions.len(),
            open_ref_views(r.issues@) == open_refinement_issues(concrete@, abstract_system@, spec@),
            r.accepted == (open_refinement_issues(concrete@, abstract_system@, spec@).len() == 0),
    {
        let ghost c = concrete@;
        let ghost a = abstract_system@;
        let ghost h = spec.actions@;
        let behavior = RefinementChecker::check(concrete.graph(), abstract_system.graph(), spec);
        let mut issues: Vec<OpenRefinementIssue> = Vec::new();
        if !behavior.accepted {
            push_issue(&mut issues, OpenRefinementIssue::BehaviorRejected);
        }
        let ghost flags = open_ref_views(issues@);
        let mapped = spec.actions.mappings().entries();
        proof {
            assert(h == hiding_view(entries_view(mapped@)));
        }
        let mut m: usize = 0;
        while m < mapped.len()
            invariant
                h == hiding_view(entries_view(mapped@)),
                h == spec.actions@,
                c == concrete@,
                m <= mapped@.len(),
                open_ref_views(issues@) == flags + unknown_issues(h, c.interface, m as nat),
            decreases mapped@.len() - m,
        {
            proof {
                assert(h[m as int].0 == mapped@[m as int].0@);
            }
            if concrete.interface().get(mapped[m].0.as_str()).is_none() {
                push_issue(&mut issues, OpenRefinementIssue::UnknownConcreteAction(mapped[m].0.clone()));
            }
            proof {
                assert(open_ref_views(issues@) =~= flags + unknown_issues(h, c.interface, (m + 1) as nat));
            }
            m = m + 1;
        }
        let ghost head = open_ref_views(issues@);
        let entries = concrete.interface().actions().entries();
        let mut images: StrMap<String> = StrMap::new();
        proof {
            assert(c.interface == map_entry_values(entries_view(entries@), sig_fn()));
            reveal(images_upto);
            assert(open_ref_views(issues@) =~= head + declaration_issues(c, a, h, 0));
        }
        let mut i: usize = 0;
        while i < entries.len()
            invariant
                c == concrete@,
                a == abstract_system@,
                h == spec.actions@,
                payload_ready(c),
                payload_ready(a),
                sorted_keys(c.interface),
                c.interface == map_entry_values(entries_view(entries@), sig_fn()),
                i <= entries@.len(),
                images_upto(images@, c.interface, a.interface, h, i as int),
                open_ref_views(issues@) == head + declaration_issues(c, a, h, i as nat),
            decreases entries@.len() - i,
        {
            proof {
                assert(c.interface[i as int].0 == entries@[i as int].0@ && c.interface[i as int].1 == entries@[i as int].1@);
            }
            let ghost before = open_ref_views(issues@);
            check_declaration(concrete, abstract_system, &spec.actions, &mut images, &mut issues, &entries[i].0, &entries[i].1, Ghost(i as int));
            proof {
                assert(open_ref_views(issues@) =~= head + declaration_issues(c, a, h, (i + 1) as nat));
            }
            i = i + 1;
        }
        let ghost mid = open_ref_views(issues@);
        let abstract_entries = abstract_system.interface().actions().entries();
        proof {
            assert(a.interface == map_entry_values(entries_view(abstract_entries@), sig_fn()));
            reveal(images_upto);
            assert(open_ref_views(issues@) =~= mid + uncovered_issues(c, a, h, 0));
        }
        let mut k: usize = 0;
        while k < abstract_entries.len()
            invariant
                c == concrete@,
                a == abstract_system@,
                h == spec.actions@,
                a.interface == map_entry_values(entries_view(abstract_entries@), sig_fn()),
                k <= abstract_entries@.len(),
                forall|x: Seq<char>| #[trigger] has_key(images@, x) == exists|j: int| 0 <= j < c.interface.len() && #[trigger] boundary_image(c.interface, a.interface, h, j, x),
                open_ref_views(issues@) == mid + uncovered_issues(c, a, h, k as nat),
            decreases abstract_entries@.len() - k,
        {
            proof {
                assert(a.interface[k as int].0 == abstract_entries@[k as int].0@ && a.interface[k as int].1 == abstract_entries@[k as int].1@);
            }
            if abstract_entries[k].1.polarity != ActionPolarity::Internal && !images.contains_key(abstract_entries[k].0.as_str()) {
                push_issue(&mut issues, OpenRefinementIssue::AbstractBoundaryActionUncovered(abstract_entries[k].0.clone()));
            }
            proof {
                assert(open_ref_views(issues@) =~= mid + uncovered_issues(c, a, h, (k + 1) as nat));
            }
            k = k + 1;
        }
        proof {
            assert(open_ref_views(issues@) =~= open_refinement_issues(c, a, spec@));
        }
        OpenRefinementReport { accepted: issues.len() == 0, behavior, issues }
    }
}

/// The identity witness of `system`: every state to itself, the same
/// observation on both sides, and every declared action to itself.
pub fn identity_refinement_spec(system: &OpenSystem, observation: ObservationMap) -> (r: RefinementSpec)
    ensures
        r@.state_map.len() == system@.graph.states.len(),
        forall|s: int| 0 <= s < r@.state_map.len() ==> r@.state_map[s] == s,
        r@.concrete_observation == observation@,
        r@.abstract_observation == observation@,
        sorted_keys(r@.actions),
        forall|k: Seq<char>| #[trigger] lookup(r@.actions, k) == if has_key(system@.interface, k) { Some(Some(k)) } else { None },
{
    let n = system.graph().state_count();
    let mut state_map: Vec<crate::graph::StateId> = Vec::new();
    let mut s: usize = 0;
    while s < n
        invariant
            s <= n,
            state_map@.len() == s,
            forall|t: int| 0 <= t < s ==> state_map@[t] == t,
        decreases n - s,
    {
        state_map.push(s);
        s = s + 1;
    }
    let entries = system.interface().actions().entries();
    let ghost iv = system@.interface;
    let mut acts: StrMap<Option<String>> = StrMap::new();
    proof {
        assert(iv == map_entry_values(entries_view(entries@), sig_fn()));
        assert forall|k: Seq<char>| #[trigger] lookup(hiding_view(acts@), k) == if has_key(iv.subrange(0, 0), k) { Some(Some(k)) } else { None } by {
            lemma_map_entry_values(acts@, opt_text_fn(), k);
            crate::smap::lemma_lookup_none(acts@, k);
        }
    }
    let mut i: usize = 0;
    while i < entries.len()
        invariant
            iv == map_entry_values(entries_view(entries@), sig_fn()),
            i <= entries@.len(),
            sorted_keys(acts@),
            forall|k: Seq<char>| #[trigger] lookup(hiding_view(acts@), k) == if has_key(iv.subrange(0, i as int), k) { Some(Some(k)) } else { None },
        decreases entries@.len() - i,
    {
        let ghost old_acts = acts@;
        let key = entries[i].0.clone();
        let value = Some(entries[i].0.clone());
        acts.insert(key, value);
        proof {
            assert(iv[i as int].0 == entries@[i as int].0@);
            assert forall|k: Seq<char>| #[trigger] lookup(hiding_view(acts@), k) == if has_key(iv.subrange(0, i + 1), k) { Some(Some(k)) } else { None } by {
                assert(lookup(hiding_view(old_acts), k) == if has_key(iv.subrange(0, i as int), k) { Some(Some(k)) } else { None });
                lemma_map_entry_values(acts@, opt_text_fn(), k);
                lemma_map_entry_values(old_acts, opt_text_fn(), k);
                if has_key(iv.subrange(0, i + 1), k) {
                    let w = choose|w: int| 0 <= w < i + 1 && #[trigger] iv.subrange(0, i + 1)[w].0 == k;
                    if w < i {
                        assert(iv.subrange(0, i as int)[w].0 == k);
                    }
                }
                if has_key(iv.subrange(0, i as int), k) {
                    let w = choose|w: int| 0 <= w < i && #[trigger] iv.subrange(0, i as int)[w].0 == k;
                    assert(iv.subrange(0, i + 1)[w].0 == k);
                }
                if k == iv[i as int].0 {
                    assert(iv.subrange(0, i + 1)[i as int].0 == k);
                    assert(lookup(acts@, k) == Some(value));
                    assert(opt_text_fn()(value) == Some(k));
                } else {
                    assert(lookup(acts@, k) == lookup(old_acts, k));
                }
            }
        }
        i = i + 1;
    }
    proof {
        assert(iv.subrange(0, entries@.len() as int) =~= iv);
        lemma_map_entry_values(acts@, opt_text_fn(), Seq::empty());
    }
    let concrete_observation = observation.copy();
    RefinementSpec { state_map, concrete_observation, abstract_observation: observation, actions: ActionHiding::from_map(acts) }
}

proof fn lemma_declared_actions(s: OpenSystemV, n: nat)
    requires
        n <= s.graph.transitions.len(),
        crate::open::undeclared_issues(s.graph, s.interface, n).len() == 0,
    ensures
        forall|k: int| 0 <= k < n ==> match (#[trigger] s.graph.transitions[k]).kind {
            crate::graph::KindV::Action(act) => has_key(s.interface, act),
            crate::graph::KindV::IdentityStutter => true,
        },
    decreases n,
{
    if n > 0 {
        lemma_declared_actions(s, (n - 1) as nat);
    }
}

proof fn lemma_identity_unknown(s: OpenSystemV, h: Seq<(Seq<char>, Option<Seq<char>>)>, n: nat)
    requires
        n <= h.len(),
        forall|k: Seq<char>| #[trigger] lookup(h, k) == if has_key(s.interface, k) { Some(Some(k)) } else { None },
    ensures
        unknown_issues(h, s.interface, n).len() == 0,
    decreases n,
{
    if n > 0 {
        lemma_identity_unknown(s, h, (n - 1) as nat);
        let k = h[n - 1].0;
        assert(has_key(h, k));
        crate::smap::lemma_lookup_is_some(h, k);
        assert(lookup(h, k) == if has_key(s.interface, k) { Some(Some(k)) } else { None });
    }
}

proof fn lemma_identity_declarations(s: OpenSystemV, h: Seq<(Seq<char>, Option<Seq<char>>)>, n: nat)
    requires
        n <= s.interface.len(),
        sorted_keys(s.interface),
        forall|k: Seq<char>| #[trigger] lookup(h, k) == if has_key(s.interface, k) { Some(Some(k)) } else { None },
    ensures
        declaration_issues(s, s, h, n).len() == 0,
    decreases n,
{
    if n > 0 {
        lemma_identity_declarations(s, h, (n - 1) as nat);
        let ci = s.interface;
        let i = n - 1;
        let ca = ci[i].0;
        assert(has_key(ci, ca));
        assert(lookup(h, ca) == Some(Some(ca)));
        crate::smap::lemma_sorted_lookup(ci, i);
        assert(!exists|j: int| 0 <= j < i && #[trigger] boundary_image(ci, ci, h, j, ca)) by {
            if exists|j: int| 0 <= j < i && #[trigger] boundary_image(ci, ci, h, j, ca) {
                let j = choose|j: int| 0 <= j < i && #[trigger] boundary_image(ci, ci, h, j, ca);
                assert(has_key(ci, ci[j].0));
                assert(lookup(h, ci[j].0) == Some(Some(ci[j].0)));
                assert(ci[j].0 == ca);
                crate::text::lemma_seq_lt_irreflexive(ca);
            }
        }
        let cp = lookup(s.payload_contract.assumptions, ca)->0;
        let gp = lookup(s.payload_contract.guarantees, ca)->0;
        assert(predicate_subset(cp, cp));
        assert(predicate_subset(gp, gp));
        assert(contract_issue(s, s, ca, ca, ci[i].1.polarity).len() == 0);
        assert(declaration_issue(s, s, h, i).len() == 0);
    }
}

proof fn lemma_identity_uncovered(s: OpenSystemV, h: Seq<(Seq<char>, Option<Seq<char>>)>, n: nat)
    requires
        n <= s.interface.len(),
        forall|k: Seq<char>| #[trigger] lookup(h, k) == if has_key(s.interface, k) { Some(Some(k)) } else { None },
    ensures
        uncovered_issues(s, s, h, n).len() == 0,
    decreases n,
{
    if n > 0 {
        lemma_identity_uncovered(s, h, (n - 1) as nat);
        let ci = s.interface;
        let e = ci[n - 1];
        assert(has_key(ci, e.0));
        assert(lookup(h, e.0) == Some(Some(e.0)));
        if e.1.polarity != ActionPolarity::Internal {
            assert(boundary_image(ci, ci, h, n - 1, e.0));
        }
    }
}

/// An open system refines itself under its identity witness: every state
/// to itself, one observation defined at every state on both sides, and
/// every declared action to itself. The behaviour is accepted and no
/// boundary, mapping or contract issue is reported.
pub proof fn identity_open_refinement_is_accepted(s: OpenSystemV, sp: RefinementSpecV)
    requires
        crate::open::open_system_valid(s),
        sp.state_map.len() == s.graph.states.len(),
        forall|v: int| 0 <= v < s.graph.states.len() ==> #[trigger] sp.state_map[v] == v,
        sp.concrete_observation == sp.abstract_observation,
        forall|v: int| 0 <= v < s.graph.states.len() ==> crate::observation::observable(sp.concrete_observation, #[trigger] s.graph.states[v]),
        forall|k: Seq<char>| #[trigger] lookup(sp.actions, k) == if has_key(s.interface, k) { Some(Some(k)) } else { None },
    ensures
        refinement_mismatches(s.graph, s.graph, sp).len() == 0,
        open_refinement_issues(s, s, sp).len() == 0,
{
    let g = s.graph;
    lemma_declared_actions(s, g.transitions.len());
    assert forall|k: int| 0 <= k < g.transitions.len() implies match (#[trigger] g.transitions[k]).kind {
        crate::graph::KindV::Action(act) => lookup(sp.actions, act) == Some(Some(act)),
        crate::graph::KindV::IdentityStutter => true,
    } by {
        match g.transitions[k].kind {
            crate::graph::KindV::Action(act) => {
                assert(lookup(sp.actions, act) == if has_key(s.interface, act) { Some(Some(act)) } else { None });
            },
            crate::graph::KindV::IdentityStutter => {},
        }
    }
    assert(crate::refinement::identity_spec(g, sp));
    crate::refinement::identity_refinement_is_accepted(g, sp);
    lemma_identity_unknown(s, sp.actions, sp.actions.len());
    lemma_identity_declarations(s, sp.actions, s.interface.len());
    lemma_identity_uncovered(s, sp.actions, s.interface.len());
}

#[derive(Clone, Debug, PartialEq, Eq)]
pub enum RefinementCompositionError {
    ObservationBoundaryMismatch,
    IntermediateStateOutOfRange { concrete_state: usize, intermediate_state: usize },
    IntermediateActionUnmapped { concrete_action: String, intermediate_action: String },
}

/// The hiding of the composed witness: each concrete action of `f` hidden
/// where `f` hides it, and otherwise mapped as `s` maps its image.
pub open spec fn composed_action_pairs(f: Seq<(Seq<char>, Option<Seq<char>>)>, s: Seq<(Seq<char>, Option<Seq<char>>)>) -> Seq<(Seq<char>, Option<Seq<char>>)> {
    f.map_values(|e: (Seq<char>, Option<Seq<char>>)| (e.0, match e.1 {
        None => None,
        Some(m) => lookup(s, m)->0,
    }))
}

/// Concrete state `i` maps to a middle state with no image.
pub open spec fn state_gap(f: RefinementSpecV, s: RefinementSpecV, i: int) -> bool {
    f.state_map[i] >= s.state_map.len()
}

/// Concrete action `j` maps to a middle action that `s` does not map.
pub open spec fn action_gap(f: RefinementSpecV, s: RefinementSpecV, j: int) -> bool {
    f.actions[j].1 matches Some(m) && lookup(s.actions, m) is None
}

/// What composing `f` with `s` gives: the first mismatch of the
/// observation boundary, of a state image or of an action image, or the
/// composed witness.
pub open spec fn refinement_composition(f: RefinementSpecV, s: RefinementSpecV, r: Result<RefinementSpec, RefinementCompositionError>) -> bool {
    if f.abstract_observation != s.concrete_observation {
        r == Err::<RefinementSpec, RefinementCompositionError>(RefinementCompositionError::ObservationBoundaryMismatch)
    } else if exists|i: int| 0 <= i < f.state_map.len() && #[trigger] state_gap(f, s, i) {
        exists|i: int| 0 <= i < f.state_map.len() && #[trigger] state_gap(f, s, i) && (forall|k: int| 0 <= k < i ==> !state_gap(f, s, k))
            && r == Err::<RefinementSpec, RefinementCompositionError>(RefinementCompositionError::IntermediateStateOutOfRange {
                concrete_state: i as usize, intermediate_state: f.state_map[i] })
    } else if exists|j: int| 0 <= j < f.actions.len() && #[trigger] action_gap(f, s, j) {
        exists|j: int| 0 <= j < f.actions.len() && #[trigger] action_gap(f, s, j) && (forall|k: int| 0 <= k < j ==> !action_gap(f, s, k))
            && (r matches Err(RefinementCompositionError::IntermediateActionUnmapped { concrete_action, intermediate_action })
                && concrete_action@ == f.actions[j].0 && Some(intermediate_action@) == f.actions[j].1)
    } else {
        r matches Ok(c) && composed_witness(f, s, c@)
    }
}

/// `c` is the composition of the witnesses `f` and `s`.
pub open spec fn composed_witness(f: RefinementSpecV, s: RefinementSpecV, c: RefinementSpecV) -> bool {
    &&& c.state_map.len() == f.state_map.len()
    &&& forall|i: int| 0 <= i < f.state_map.len() ==> #[trigger] c.state_map[i] == s.state_map[f.state_map[i] as int]
    &&& c.concrete_observation == f.concrete_observation
    &&& c.abstract_observation == s.abstract_observation
    &&& sorted_keys(c.actions)
    &&& forall|k: Seq<char>| #[trigger] lookup(c.actions, k) == last_lookup(composed_action_pairs(f.actions, s.actions), k)
}

/// Composes two finite refinement witnesses without rechecking either premise.
pub fn compose_refinement_specs(concrete_to_middle: &RefinementSpec, middle_to_abstract: &RefinementSpec) -> (r: Result<RefinementSpec, RefinementCompositionError>)
    ensures
        refinement_composition(concrete_to_middle@, middle_to_abstract@, r),
{
    let ghost f = concrete_to_middle@;
    let ghost s = middle_to_abstract@;
    if !concrete_to_middle.abstract_observation.same(&middle_to_abstract.concrete_observation) {
        return Err(RefinementCompositionError::ObservationBoundaryMismatch);
    }
    let mut state_map: Vec<crate::graph::StateId> = Vec::new();
    let mut i: usize = 0;
    while i < concrete_to_middle.state_map.len()
        invariant
            f == concrete_to_middle@,
            s == middle_to_abstract@,
            i <= f.state_map.len(),
            state_map@.len() == i,
            forall|k: int| 0 <= k < i ==> !state_gap(f, s, k),
            forall|k: int| 0 <= k < i ==> #[trigger] state_map@[k] == s.state_map[f.state_map[k] as int],
        decreases f.state_map.len() - i,
    {
        let middle = concrete_to_middle.state_map[i];
        if middle >= middle_to_abstract.state_map.len() {
            proof {
                assert(state_gap(f, s, i as int));
            }
            return Err(RefinementCompositionError::IntermediateStateOutOfRange { concrete_state: i, intermediate_state: middle });
        }
        state_map.push(middle_to_abstract.state_map[middle]);
        i = i + 1;
    }
    let mapped = concrete_to_middle.actions.mappings().entries();
    let mut pairs: Vec<(String, Option<String>)> = Vec::new();
    proof {
        assert(f.actions == hiding_view(entries_view(mapped@)));
        assert(hiding_view(entries_view(pairs@)) =~= composed_action_pairs(f.actions.subrange(0, 0), s.actions));
    }
    let mut j: usize = 0;
    while j < mapped.len()
        invariant
            f == concrete_to_middle@,
            s == middle_to_abstract@,
            f.actions == hiding_view(entries_view(mapped@)),
            j <= mapped@.len(),
            forall|k: int| 0 <= k < f.state_map.len() ==> !state_gap(f, s, k),
            forall|k: int| 0 <= k < j ==> !action_gap(f, s, k),
            hiding_view(entries_view(pairs@)) == composed_action_pairs(f.actions.subrange(0, j as int), s.actions),
        decreases mapped@.len() - j,
    {
        let ghost before = hiding_view(entries_view(pairs@));
        proof {
            assert(f.actions[j as int] == (mapped@[j as int].0@, opt_text(mapped@[j as int].1)));
        }
        let target: Option<String> = match &mapped[j].1 {
            None => None,
            Some(m) => {
                match middle_to_abstract.actions.get(m.as_str()) {
                    None => {
                        proof {
                            assert(action_gap(f, s, j as int));
                        }
                        return Err(RefinementCompositionError::IntermediateActionUnmapped {
                            concrete_action: mapped[j].0.clone(), intermediate_action: m.clone(),
                        });
                    },
                    Some(x) => match x {
                        Some(a) => Some(a.to_owned()),
                        None => None,
                    },
                }
            },
        };
        pairs.push((mapped[j].0.clone(), target));
        proof {
            assert(!action_gap(f, s, j as int));
            assert(composed_action_pairs(f.actions.subrange(0, j + 1), s.actions) =~= composed_action_pairs(f.actions.subrange(0, j as int), s.actions)
                .push((f.actions[j as int].0, match f.actions[j as int].1 { None => None, Some(m) => lookup(s.actions, m)->0 })));
            assert(hiding_view(entries_view(pairs@)) =~= before.push((mapped@[j as int].0@, opt_text(target))));
        }
        j = j + 1;
    }
    proof {
        assert(f.actions.subrange(0, mapped@.len() as int) =~= f.actions);
    }
    let actions = ActionHiding::new(pairs);
    let concrete_observation = concrete_to_middle.concrete_observation.copy();
    let abstract_observation = middle_to_abstract.abstract_observation.copy();
    Ok(RefinementSpec { state_map, concrete_observation, abstract_observation, actions })
}

} // verus!
