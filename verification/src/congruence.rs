//! An instance check of refinement congruence for open systems: a local
//! refinement of the left component, lifted through the product with an
//! unchanged peer.

use vstd::prelude::*;
use crate::compose::{composition_outcome, compose, default_limits, connected_left, lemma_prefix_split, namespaced, product_index};
use crate::graph::StateId;
use crate::observation::{ActionHiding, ObservationMap, duplicate_output, hiding_view, opt_text, opt_text_fn, text_entries_view};
use crate::open::{ActionPolarity, CompatibilityChecker, CompatibilityReport, CompositionLimits, CompositionSpec, Connection, ConnectionV, OpenSystem,
    OpenSystemV, Side, SignatureV, compatibility_outcome, connection_views, link_views, same_text, side_prefix, sig_fn, ContractLinkV};
use crate::refinement::{RefinementChecker, RefinementReport, RefinementSpec, RefinementSpecV, mismatch_views, refinement_mismatches};
use crate::smap::{StrMap, entries_view, has_key, last_lookup, lookup, map_entry_values, lemma_map_entry_values, sorted_keys};
use crate::text::str_eq;

verus! {

/// The instance to check: the local refinement of the left component, the
/// concrete and abstract compositions with the peer, and what is observed
/// of the peer.
#[derive(Clone, Debug, PartialEq, Eq)]
pub struct CongruenceSpec {
    pub local_refinement: RefinementSpec,
    pub concrete_composition: CompositionSpec,
    pub abstract_composition: CompositionSpec,
    pub peer_observation: ObservationMap,
}

#[derive(Clone, Debug, PartialEq, Eq)]
pub enum CongruenceIssue {
    LocalRefinementRejected,
    ConcreteCompositionIncompatible,
    AbstractCompositionIncompatible,
    LocalInterfaceActionUnmapped(String),
    MappedAbstractActionMissing { concrete_action: String, abstract_action: String },
    PolarityNotPreserved { concrete_action: String, abstract_action: String },
    ChannelNotPreserved { concrete_action: String, abstract_action: String },
    NonInjectiveVisibleBoundaryMapping { first_concrete_action: String, second_concrete_action: String, abstract_action: String },
    HiddenConnectedAction(String),
    ConcreteConnectionNotPreserved(Connection),
    AbstractConnectionNotReflected(Connection),
    CompositionConstructionFailed,
    LiftedRefinementRejected,
}

pub enum CongV {
    LocalRefinementRejected,
    ConcreteCompositionIncompatible,
    AbstractCompositionIncompatible,
    LocalInterfaceActionUnmapped(Seq<char>),
    MappedAbstractActionMissing(Seq<char>, Seq<char>),
    PolarityNotPreserved(Seq<char>, Seq<char>),
    ChannelNotPreserved(Seq<char>, Seq<char>),
    NonInjectiveVisibleBoundaryMapping(Seq<char>, Seq<char>, Seq<char>),
    HiddenConnectedAction(Seq<char>),
    ConcreteConnectionNotPreserved(ConnectionV),
    AbstractConnectionNotReflected(ConnectionV),
    CompositionConstructionFailed,
    LiftedRefinementRejected,
}

impl View for CongruenceIssue {
    type V = CongV;

    open spec fn view(&self) -> CongV {
        match self {
            CongruenceIssue::LocalRefinementRejected => CongV::LocalRefinementRejected,
            CongruenceIssue::ConcreteCompositionIncompatible => CongV::ConcreteCompositionIncompatible,
            CongruenceIssue::AbstractCompositionIncompatible => CongV::AbstractCompositionIncompatible,
            CongruenceIssue::LocalInterfaceActionUnmapped(a) => CongV::LocalInterfaceActionUnmapped(a@),
            CongruenceIssue::MappedAbstractActionMissing { concrete_action, abstract_action } => CongV::MappedAbstractActionMissing(concrete_action@, abstract_action@),
            CongruenceIssue::PolarityNotPreserved { concrete_action, abstract_action } => CongV::PolarityNotPreserved(concrete_action@, abstract_action@),
            CongruenceIssue::ChannelNotPreserved { concrete_action, abstract_action } => CongV::ChannelNotPreserved(concrete_action@, abstract_action@),
            CongruenceIssue::NonInjectiveVisibleBoundaryMapping { first_concrete_action, second_concrete_action, abstract_action } =>
                CongV::NonInjectiveVisibleBoundaryMapping(first_concrete_action@, second_concrete_action@, abstract_action@),
            CongruenceIssue::HiddenConnectedAction(a) => CongV::HiddenConnectedAction(a@),
            CongruenceIssue::ConcreteConnectionNotPreserved(c) => CongV::ConcreteConnectionNotPreserved(c@),
            CongruenceIssue::AbstractConnectionNotReflected(c) => CongV::AbstractConnectionNotReflected(c@),
            CongruenceIssue::CompositionConstructionFailed => CongV::CompositionConstructionFailed,
            CongruenceIssue::LiftedRefinementRejected => CongV::LiftedRefinementRejected,
        }
    }
}

pub open spec fn cong_views(s: Seq<CongruenceIssue>) -> Seq<CongV> {
    s.map_values(|i: CongruenceIssue| i@)
}

#[derive(Clone, Debug, PartialEq, Eq)]
pub struct CongruenceReport {
    pub accepted: bool,
    pub local_refinement: RefinementReport,
    pub concrete_compatibility: CompatibilityReport,
    pub abstract_compatibility: CompatibilityReport,
    pub lifted_refinement: Option<RefinementReport>,
    pub issues: Vec<CongruenceIssue>,
}

fn push_cong(issues: &mut Vec<CongruenceIssue>, issue: CongruenceIssue)
    ensures
        cong_views(final(issues)@) == cong_views(old(issues)@).push(issue@),
{
    let ghost before = cong_views(issues@);
    issues.push(issue);
    proof {
        assert(cong_views(issues@) =~= before.push(issue@));
    }
}

/// Concrete declaration `j` is a visible boundary action mapped to `a`.
pub open spec fn visible_image(ci: Seq<(Seq<char>, SignatureV)>, h: Seq<(Seq<char>, Option<Seq<char>>)>, j: int, a: Seq<char>) -> bool {
    ci[j].1.polarity != ActionPolarity::Internal && lookup(h, ci[j].0) == Some(Some(a))
}

/// The first of the declarations before `i` that is a visible boundary
/// action mapped to `a`.
pub open spec fn first_visible(ci: Seq<(Seq<char>, SignatureV)>, h: Seq<(Seq<char>, Option<Seq<char>>)>, a: Seq<char>, i: int) -> int {
    choose|j: int| 0 <= j < i && visible_image(ci, h, j, a) && forall|k: int| 0 <= k < j ==> !visible_image(ci, h, k, a)
}

/// What is wrong with concrete declaration `i` under the hiding `h`: it is
/// unmapped; it is hidden though connected; or its image repeats an earlier
/// visible boundary image, is undeclared, or changes polarity or channel.
pub open spec fn interface_issue(ci: Seq<(Seq<char>, SignatureV)>, ai: Seq<(Seq<char>, SignatureV)>, h: Seq<(Seq<char>, Option<Seq<char>>)>,
    conns: Seq<ConnectionV>, i: int) -> Seq<CongV> {
    let ca = ci[i].0;
    let cs = ci[i].1;
    match lookup(h, ca) {
        None => seq![CongV::LocalInterfaceActionUnmapped(ca)],
        Some(None) => if connected_left(conns, ca) { seq![CongV::HiddenConnectedAction(ca)] } else { Seq::empty() },
        Some(Some(a)) => {
            (if cs.polarity != ActionPolarity::Internal && exists|j: int| 0 <= j < i && #[trigger] visible_image(ci, h, j, a) {
                seq![CongV::NonInjectiveVisibleBoundaryMapping(ci[first_visible(ci, h, a, i)].0, ca, a)]
            } else {
                Seq::empty()
            }) + match lookup(ai, a) {
                None => seq![CongV::MappedAbstractActionMissing(ca, a)],
                Some(asig) => (if cs.polarity != asig.polarity { seq![CongV::PolarityNotPreserved(ca, a)] } else { Seq::empty() })
                    + (if cs.channel != asig.channel { seq![CongV::ChannelNotPreserved(ca, a)] } else { Seq::empty() }),
            }
        },
    }
}

pub open spec fn interface_issues(ci: Seq<(Seq<char>, SignatureV)>, ai: Seq<(Seq<char>, SignatureV)>, h: Seq<(Seq<char>, Option<Seq<char>>)>,
    conns: Seq<ConnectionV>, n: nat) -> Seq<CongV>
    decreases n,
{
    if n == 0 {
        Seq::empty()
    } else {
        interface_issues(ci, ai, h, conns, (n - 1) as nat) + interface_issue(ci, ai, h, conns, n - 1)
    }
}

proof fn lemma_first_visible(ci: Seq<(Seq<char>, SignatureV)>, h: Seq<(Seq<char>, Option<Seq<char>>)>, a: Seq<char>, i: int, j: int)
    requires
        0 <= j < i,
        visible_image(ci, h, j, a),
        forall|k: int| 0 <= k < j ==> !visible_image(ci, h, k, a),
    ensures
        first_visible(ci, h, a, i) == j,
{
    let f = first_visible(ci, h, a, i);
    assert(0 <= f < i && visible_image(ci, h, f, a) && forall|k: int| 0 <= k < f ==> !visible_image(ci, h, k, a));
    if f < j {
        assert(!visible_image(ci, h, f, a));
    }
    if j < f {
        assert(!visible_image(ci, h, j, a));
    }
}

proof fn lemma_least_visible(ci: Seq<(Seq<char>, SignatureV)>, h: Seq<(Seq<char>, Option<Seq<char>>)>, a: Seq<char>, j: int)
    requires
        0 <= j,
        visible_image(ci, h, j, a),
    ensures
        exists|m: int| 0 <= m <= j && visible_image(ci, h, m, a) && forall|k: int| 0 <= k < m ==> !visible_image(ci, h, k, a),
    decreases j,
{
    if exists|k: int| 0 <= k < j && visible_image(ci, h, k, a) {
        let k = choose|k: int| 0 <= k < j && visible_image(ci, h, k, a);
        lemma_least_visible(ci, h, a, k);
    } else {
        assert(0 <= j <= j && visible_image(ci, h, j, a) && forall|k: int| 0 <= k < j ==> !visible_image(ci, h, k, a));
    }
}

/// The first visible image before `i` exists where some does.
proof fn lemma_has_first(ci: Seq<(Seq<char>, SignatureV)>, h: Seq<(Seq<char>, Option<Seq<char>>)>, a: Seq<char>, i: int)
    requires
        exists|j: int| 0 <= j < i && #[trigger] visible_image(ci, h, j, a),
    ensures
        0 <= first_visible(ci, h, a, i) < i,
        visible_image(ci, h, first_visible(ci, h, a, i), a),
        forall|k: int| 0 <= k < first_visible(ci, h, a, i) ==> !visible_image(ci, h, k, a),
{
    let j = choose|j: int| 0 <= j < i && #[trigger] visible_image(ci, h, j, a);
    lemma_least_visible(ci, h, a, j);
}

/// The first image of each visible boundary action among the concrete
/// declarations before `i`.
#[verifier::opaque]
pub open spec fn images_before(images: Seq<(Seq<char>, String)>, ci: Seq<(Seq<char>, SignatureV)>, h: Seq<(Seq<char>, Option<Seq<char>>)>, i: int) -> bool {
    &&& forall|a: Seq<char>| #[trigger] has_key(images, a) == exists|j: int| 0 <= j < i && #[trigger] visible_image(ci, h, j, a)
    &&& forall|a: Seq<char>| has_key(images, a) ==> (#[trigger] lookup(images, a))->0@ == ci[first_visible(ci, h, a, i)].0
}

proof fn lemma_images_step(images: Seq<(Seq<char>, String)>, ci: Seq<(Seq<char>, SignatureV)>, h: Seq<(Seq<char>, Option<Seq<char>>)>, i: int)
    requires
        0 <= i < ci.len(),
        images_before(images, ci, h, i),
        forall|a: Seq<char>| !visible_image(ci, h, i, a),
    ensures
        images_before(images, ci, h, i + 1),
{
    reveal(images_before);
    assert forall|a: Seq<char>| has_key(images, a) implies (#[trigger] lookup(images, a))->0@ == ci[first_visible(ci, h, a, i + 1)].0 by {
        lemma_has_first(ci, h, a, i);
        lemma_first_visible(ci, h, a, i + 1, first_visible(ci, h, a, i));
    }
    assert forall|a: Seq<char>| #[trigger] has_key(images, a) == exists|j: int| 0 <= j < i + 1 && #[trigger] visible_image(ci, h, j, a) by {
        if exists|j: int| 0 <= j < i + 1 && #[trigger] visible_image(ci, h, j, a) {
            let j = choose|j: int| 0 <= j < i + 1 && #[trigger] visible_image(ci, h, j, a);
            assert(j < i);
        }
    }
}

/// Records the image of concrete declaration `i`, a visible boundary
/// action mapped to `aa`, or reports the earlier declaration with that image.
#[verifier::rlimit(60)]
fn record_image(images: &mut StrMap<String>, issues: &mut Vec<CongruenceIssue>, ca: &String, aa: &str,
    Ghost(ci): Ghost<Seq<(Seq<char>, SignatureV)>>, Ghost(h): Ghost<Seq<(Seq<char>, Option<Seq<char>>)>>, Ghost(i): Ghost<int>)
    requires
        0 <= i < ci.len(),
        ci[i].0 == ca@,
        visible_image(ci, h, i, aa@),
        images_before(old(images)@, ci, h, i),
    ensures
        images_before(final(images)@, ci, h, i + 1),
        cong_views(final(issues)@) == cong_views(old(issues)@) + if exists|j: int| 0 <= j < i && #[trigger] visible_image(ci, h, j, aa@) {
            seq![CongV::NonInjectiveVisibleBoundaryMapping(ci[first_visible(ci, h, aa@, i)].0, ca@, aa@)]
        } else {
            Seq::<CongV>::empty()
        },
{
    proof {
        reveal(images_before);
    }
    let ghost old_images = images@;
    let ghost before = cong_views(issues@);
    match images.get(aa) {
        Some(first) => {
            push_cong(issues, CongruenceIssue::NonInjectiveVisibleBoundaryMapping {
                first_concrete_action: first.clone(),
                second_concrete_action: ca.clone(),
                abstract_action: aa.to_owned(),
            });
            proof {
                assert(has_key(old_images, aa@));
                assert(cong_views(issues@) =~= before + seq![CongV::NonInjectiveVisibleBoundaryMapping(ci[first_visible(ci, h, aa@, i)].0, ca@, aa@)]);
                assert forall|a: Seq<char>| has_key(images@, a) implies (#[trigger] lookup(images@, a))->0@ == ci[first_visible(ci, h, a, i + 1)].0 by {
                    lemma_has_first(ci, h, a, i);
                    lemma_first_visible(ci, h, a, i + 1, first_visible(ci, h, a, i));
                }
                assert forall|a: Seq<char>| #[trigger] has_key(images@, a) == exists|j: int| 0 <= j < i + 1 && #[trigger] visible_image(ci, h, j, a) by {
                    if visible_image(ci, h, i, a) {
                        assert(a == aa@);
                    }
                    if exists|j: int| 0 <= j < i + 1 && #[trigger] visible_image(ci, h, j, a) {
                        let j = choose|j: int| 0 <= j < i + 1 && #[trigger] visible_image(ci, h, j, a);
                        if j == i {
                            assert(a == aa@);
                        }
                    }
                }
            }
        },
        None => {
            images.insert(aa.to_owned(), ca.clone());
            proof {
                assert(!has_key(old_images, aa@));
                assert(cong_views(issues@) =~= before + Seq::<CongV>::empty());
                assert forall|a: Seq<char>| has_key(images@, a) implies (#[trigger] lookup(images@, a))->0@ == ci[first_visible(ci, h, a, i + 1)].0 by {
                    if a == aa@ {
                        lemma_first_visible(ci, h, a, i + 1, i);
                    } else {
                        assert(has_key(old_images, a));
                        lemma_has_first(ci, h, a, i);
                        lemma_first_visible(ci, h, a, i + 1, first_visible(ci, h, a, i));
                    }
                }
                assert forall|a: Seq<char>| #[trigger] has_key(images@, a) == exists|j: int| 0 <= j < i + 1 && #[trigger] visible_image(ci, h, j, a) by {
                    if visible_image(ci, h, i, a) {
                        assert(a == aa@);
                    }
                    if a == aa@ {
                        assert(visible_image(ci, h, i, a));
                    }
                    if exists|j: int| 0 <= j < i + 1 && #[trigger] visible_image(ci, h, j, a) {
                        let j = choose|j: int| 0 <= j < i + 1 && #[trigger] visible_image(ci, h, j, a);
                        if j == i {
                            assert(a == aa@);
                        }
                    }
                }
            }
        },
    }
}

/// The issues of concrete declaration `i`, mapped to `aa`.
#[verifier::rlimit(60)]
fn check_mapped_declaration(abstract_system: &OpenSystem, images: &mut StrMap<String>, issues: &mut Vec<CongruenceIssue>,
    ca: &String, csig: &crate::open::ActionSignature, aa: &str, Ghost(ci): Ghost<Seq<(Seq<char>, SignatureV)>>,
    Ghost(h): Ghost<Seq<(Seq<char>, Option<Seq<char>>)>>, Ghost(i): Ghost<int>)
    requires
        0 <= i < ci.len(),
        ci[i].0 == ca@,
        ci[i].1 == csig@,
        lookup(h, ca@) == Some(Some(aa@)),
        images_before(old(images)@, ci, h, i),
    ensures
        images_before(final(images)@, ci, h, i + 1),
        cong_views(final(issues)@) == cong_views(old(issues)@)
            + (if csig@.polarity != ActionPolarity::Internal && exists|j: int| 0 <= j < i && #[trigger] visible_image(ci, h, j, aa@) {
                seq![CongV::NonInjectiveVisibleBoundaryMapping(ci[first_visible(ci, h, aa@, i)].0, ca@, aa@)]
            } else {
                Seq::<CongV>::empty()
            }) + match lookup(abstract_system@.interface, aa@) {
                None => seq![CongV::MappedAbstractActionMissing(ca@, aa@)],
                Some(asig) => (if csig@.polarity != asig.polarity { seq![CongV::PolarityNotPreserved(ca@, aa@)] } else { Seq::<CongV>::empty() })
                    + (if csig@.channel != asig.channel { seq![CongV::ChannelNotPreserved(ca@, aa@)] } else { Seq::<CongV>::empty() }),
            },
{
    let ghost before = cong_views(issues@);
    if csig.polarity != ActionPolarity::Internal {
        record_image(images, issues, ca, aa, Ghost(ci), Ghost(h), Ghost(i));
    } else {
        proof {
            lemma_images_step(images@, ci, h, i);
            assert(cong_views(issues@) =~= before + Seq::<CongV>::empty());
        }
    }
    let ghost mid = cong_views(issues@);
    match abstract_system.interface().get(aa) {
        None => {
            push_cong(issues, CongruenceIssue::MappedAbstractActionMissing { concrete_action: ca.clone(), abstract_action: aa.to_owned() });
        },
        Some(asig) => {
            if csig.polarity != asig.polarity {
                push_cong(issues, CongruenceIssue::PolarityNotPreserved { concrete_action: ca.clone(), abstract_action: aa.to_owned() });
            }
            let ghost mid2 = cong_views(issues@);
            if !same_text(&csig.channel, &asig.channel) {
                push_cong(issues, CongruenceIssue::ChannelNotPreserved { concrete_action: ca.clone(), abstract_action: aa.to_owned() });
            }
            proof {
                assert(cong_views(issues@) =~= mid + (if csig@.polarity != asig@.polarity { seq![CongV::PolarityNotPreserved(ca@, aa@)] } else { Seq::<CongV>::empty() })
                    + (if csig@.channel != asig@.channel { seq![CongV::ChannelNotPreserved(ca@, aa@)] } else { Seq::<CongV>::empty() }));
            }
        },
    }
    proof {
        assert(cong_views(issues@) =~= before
            + (if csig@.polarity != ActionPolarity::Internal && exists|j: int| 0 <= j < i && #[trigger] visible_image(ci, h, j, aa@) {
                seq![CongV::NonInjectiveVisibleBoundaryMapping(ci[first_visible(ci, h, aa@, i)].0, ca@, aa@)]
            } else {
                Seq::<CongV>::empty()
            }) + match lookup(abstract_system@.interface, aa@) {
                None => seq![CongV::MappedAbstractActionMissing(ca@, aa@)],
                Some(asig) => (if csig@.polarity != asig.polarity { seq![CongV::PolarityNotPreserved(ca@, aa@)] } else { Seq::<CongV>::empty() })
                    + (if csig@.channel != asig.channel { seq![CongV::ChannelNotPreserved(ca@, aa@)] } else { Seq::<CongV>::empty() }),
            });
    }
}

/// The issues of concrete declaration `i`.
#[verifier::rlimit(60)]
fn check_declaration(abstract_system: &OpenSystem, spec: &CongruenceSpec, images: &mut StrMap<String>, issues: &mut Vec<CongruenceIssue>,
    ca: &String, csig: &crate::open::ActionSignature, Ghost(ci): Ghost<Seq<(Seq<char>, SignatureV)>>, Ghost(i): Ghost<int>)
    requires
        0 <= i < ci.len(),
        ci[i].0 == ca@,
        ci[i].1 == csig@,
        images_before(old(images)@, ci, spec.local_refinement.actions@, i),
    ensures
        images_before(final(images)@, ci, spec.local_refinement.actions@, i + 1),
        cong_views(final(issues)@) == cong_views(old(issues)@) + interface_issue(ci, abstract_system@.interface, spec.local_refinement.actions@,
            connection_views(spec.concrete_composition.connections@), i),
{
    let ghost h = spec.local_refinement.actions@;
    let ghost ai = abstract_system@.interface;
    let ghost conns = connection_views(spec.concrete_composition.connections@);
    let ghost before = cong_views(issues@);
    match spec.local_refinement.actions.get(ca.as_str()) {
        None => {
            push_cong(issues, CongruenceIssue::LocalInterfaceActionUnmapped(ca.clone()));
            proof {
                lemma_images_step(images@, ci, h, i);
            }
        },
        Some(None) => {
            if crate::compose::is_connected_left(&spec.concrete_composition.connections, ca.as_str()) {
                push_cong(issues, CongruenceIssue::HiddenConnectedAction(ca.clone()));
            }
            proof {
                lemma_images_step(images@, ci, h, i);
                assert(cong_views(issues@) =~= before + interface_issue(ci, ai, h, conns, i));
            }
        },
        Some(Some(aa)) => {
            check_mapped_declaration(abstract_system, images, issues, ca, csig, aa, Ghost(ci), Ghost(h), Ghost(i));
            proof {
                assert(cong_views(issues@) =~= before + interface_issue(ci, ai, h, conns, i));
            }
        },
    }
}

/// Checks that the local refinement maps every concrete declaration,
/// injectively on visible boundary actions, onto an abstract declaration
/// of the same polarity and channel, and hides no connected action.
fn check_interface_preservation(concrete: &OpenSystem, abstract_system: &OpenSystem, spec: &CongruenceSpec) -> (r: Vec<CongruenceIssue>)
    ensures
        cong_views(r@) == interface_issues(concrete@.interface, abstract_system@.interface, spec.local_refinement.actions@,
            connection_views(spec.concrete_composition.connections@), concrete@.interface.len()),
{
    let ghost ci = concrete@.interface;
    let ghost ai = abstract_system@.interface;
    let ghost h = spec.local_refinement.actions@;
    let ghost conns = connection_views(spec.concrete_composition.connections@);
    let entries = concrete.interface().actions().entries();
    let mut issues: Vec<CongruenceIssue> = Vec::new();
    let mut images: StrMap<String> = StrMap::new();
    proof {
        assert(ci == map_entry_values(entries_view(entries@), sig_fn()));
        assert(cong_views(issues@) =~= Seq::<CongV>::empty());
        reveal(images_before);
        assert forall|a: Seq<char>| #[trigger] has_key(images@, a) == exists|j: int| 0 <= j < 0 && #[trigger] visible_image(ci, h, j, a) by {
            assert(images@.len() == 0);
        }
    }
    let mut i: usize = 0;
    while i < entries.len()
        invariant
            ci == map_entry_values(entries_view(entries@), sig_fn()),
            ai == abstract_system@.interface,
            h == spec.local_refinement.actions@,
            conns == connection_views(spec.concrete_composition.connections@),
            i <= entries@.len(),
            cong_views(issues@) == interface_issues(ci, ai, h, conns, i as nat),
            images_before(images@, ci, h, i as int),
        decreases entries@.len() - i,
    {
        proof {
            assert(ci[i as int].0 == entries@[i as int].0@ && ci[i as int].1 == entries@[i as int].1@);
        }
        check_declaration(abstract_system, spec, &mut images, &mut issues, &entries[i].0, &entries[i].1, Ghost(ci), Ghost(i as int));
        i = i + 1;
    }
    issues
}

/// Views pairs of strings.
pub open spec fn pair_views(s: Seq<(String, String)>) -> Seq<(Seq<char>, Seq<char>)> {
    s.map_values(|p: (String, String)| (p.0@, p.1@))
}

/// Abstract connection `ac` joins `m` on the left and `r` on the right.
pub open spec fn joins(ac: ConnectionV, m: Seq<char>, r: Seq<char>) -> bool {
    ac.left_action == m && ac.right_action == r
}

/// The first abstract connection of `ca` joining `m` and `r`.
pub open spec fn first_join(ca: Seq<ConnectionV>, m: Seq<char>, r: Seq<char>) -> int {
    choose|k: int| 0 <= k < ca.len() && joins(ca[k], m, r) && forall|j: int| 0 <= j < k ==> !joins(ca[j], m, r)
}

/// Concrete connection `c` maps, through the visible image of its left
/// action, onto some abstract connection with the same right action.
pub open spec fn preserved(h: Seq<(Seq<char>, Option<Seq<char>>)>, ca: Seq<ConnectionV>, c: ConnectionV) -> bool {
    match lookup(h, c.left_action) {
        Some(Some(m)) => exists|k: int| 0 <= k < ca.len() && #[trigger] joins(ca[k], m, c.right_action),
        _ => false,
    }
}

pub open spec fn preservation_issues(h: Seq<(Seq<char>, Option<Seq<char>>)>, cc: Seq<ConnectionV>, ca: Seq<ConnectionV>, n: nat) -> Seq<CongV>
    decreases n,
{
    if n == 0 {
        Seq::empty()
    } else {
        preservation_issues(h, cc, ca, (n - 1) as nat)
            + if preserved(h, ca, cc[n - 1]) { Seq::empty() } else { seq![CongV::ConcreteConnectionNotPreserved(cc[n - 1])] }
    }
}

/// The composite actions of the preserved concrete connections, each with
/// the composite action of the first abstract connection it maps onto.
pub open spec fn sync_pairs(h: Seq<(Seq<char>, Option<Seq<char>>)>, cc: Seq<ConnectionV>, ca: Seq<ConnectionV>, n: nat) -> Seq<(Seq<char>, Seq<char>)>
    decreases n,
{
    if n == 0 {
        Seq::empty()
    } else {
        let c = cc[n - 1];
        sync_pairs(h, cc, ca, (n - 1) as nat) + if preserved(h, ca, c) {
            seq![(c.composite_action, ca[first_join(ca, lookup(h, c.left_action)->0->0, c.right_action)].composite_action)]
        } else {
            Seq::empty()
        }
    }
}

/// Abstract connection `a` is the image of some concrete connection.
pub open spec fn reflected(h: Seq<(Seq<char>, Option<Seq<char>>)>, cc: Seq<ConnectionV>, a: ConnectionV) -> bool {
    exists|i: int| 0 <= i < cc.len() && #[trigger] lookup(h, cc[i].left_action) == Some(Some(a.left_action)) && cc[i].right_action == a.right_action
}

pub open spec fn reflection_issues(h: Seq<(Seq<char>, Option<Seq<char>>)>, cc: Seq<ConnectionV>, ca: Seq<ConnectionV>, n: nat) -> Seq<CongV>
    decreases n,
{
    if n == 0 {
        Seq::empty()
    } else {
        reflection_issues(h, cc, ca, (n - 1) as nat)
            + if reflected(h, cc, ca[n - 1]) { Seq::empty() } else { seq![CongV::AbstractConnectionNotReflected(ca[n - 1])] }
    }
}

/// The first abstract connection joining `m` and `r`.
fn find_join(connections: &Vec<Connection>, m: &str, r: &str) -> (k: Option<usize>)
    ensures
        match k {
            Some(k) => k < connections@.len() && k == first_join(connection_views(connections@), m@, r@)
                && joins(connection_views(connections@)[k as int], m@, r@),
            None => forall|j: int| 0 <= j < connections@.len() ==> !#[trigger] joins(connection_views(connections@)[j], m@, r@),
        },
{
    let ghost ca = connection_views(connections@);
    let mut k: usize = 0;
    while k < connections.len()
        invariant
            ca == connection_views(connections@),
            k <= connections@.len(),
            forall|j: int| 0 <= j < k ==> !#[trigger] joins(ca[j], m@, r@),
        decreases connections@.len() - k,
    {
        proof {
            assert(ca[k as int] == connections@[k as int]@);
        }
        if str_eq(connections[k].left_action.as_str(), m) && str_eq(connections[k].right_action.as_str(), r) {
            proof {
                let f = first_join(ca, m@, r@);
                assert(0 <= k < ca.len() && joins(ca[k as int], m@, r@) && forall|j: int| 0 <= j < k ==> !joins(ca[j], m@, r@));
                assert(0 <= f < ca.len() && joins(ca[f], m@, r@) && forall|j: int| 0 <= j < f ==> !joins(ca[j], m@, r@));
                if f < k {
                    assert(!joins(ca[f], m@, r@));
                }
                if k < f {
                    assert(!joins(ca[k as int], m@, r@));
                }
            }
            return Some(k);
        }
        k = k + 1;
    }
    None
}

proof fn lemma_preserved(h: Seq<(Seq<char>, Option<Seq<char>>)>, ca: Seq<ConnectionV>, c: ConnectionV, m: Seq<char>, k: int)
    requires
        lookup(h, c.left_action) == Some(Some(m)),
        0 <= k < ca.len(),
        joins(ca[k], m, c.right_action),
    ensures
        preserved(h, ca, c),
        first_join(ca, m, c.right_action) == first_join(ca, lookup(h, c.left_action)->0->0, c.right_action),
{
}

/// Checks concrete connection `i`, recording its synchronization pair.
fn preserve_one(spec: &CongruenceSpec, i: usize, issues: &mut Vec<CongruenceIssue>, pairs: &mut Vec<(String, String)>)
    requires
        i < spec.concrete_composition.connections@.len(),
        cong_views(old(issues)@) == preservation_issues(spec.local_refinement.actions@, connection_views(spec.concrete_composition.connections@),
            connection_views(spec.abstract_composition.connections@), i as nat),
        pair_views(old(pairs)@) == sync_pairs(spec.local_refinement.actions@,
            connection_views(spec.concrete_composition.connections@), connection_views(spec.abstract_composition.connections@), i as nat),
    ensures
        cong_views(final(issues)@) == preservation_issues(spec.local_refinement.actions@, connection_views(spec.concrete_composition.connections@),
            connection_views(spec.abstract_composition.connections@), (i + 1) as nat),
        pair_views(final(pairs)@) == sync_pairs(spec.local_refinement.actions@,
            connection_views(spec.concrete_composition.connections@), connection_views(spec.abstract_composition.connections@), (i + 1) as nat),
{
    let ghost h = spec.local_refinement.actions@;
    let ghost cc = connection_views(spec.concrete_composition.connections@);
    let ghost ca = connection_views(spec.abstract_composition.connections@);
    let abstract_connections = &spec.abstract_composition.connections;
    let c = &spec.concrete_composition.connections[i];
    let ghost pbefore = pair_views(pairs@);
    proof {
        assert(cc[i as int] == c@);
    }
    let mut found = false;
    match spec.local_refinement.actions.get(c.left_action.as_str()) {
        Some(Some(m)) => {
            match find_join(abstract_connections, m, c.right_action.as_str()) {
                Some(k) => {
                    found = true;
                    pairs.push((c.composite_action.clone(), abstract_connections[k].composite_action.clone()));
                    proof {
                        assert(ca[k as int] == abstract_connections@[k as int]@);
                        lemma_preserved(h, ca, c@, m@, k as int);
                        assert(pair_views(pairs@) =~= pbefore.push((c@.composite_action, ca[k as int].composite_action)));
                    }
                },
                None => {
                    proof {
                        assert(!preserved(h, ca, c@));
                    }
                },
            }
        },
        _ => {},
    }
    if !found {
        push_cong(issues, CongruenceIssue::ConcreteConnectionNotPreserved(c.copy()));
    }
    proof {
        assert(cong_views(issues@) =~= preservation_issues(h, cc, ca, (i + 1) as nat));
        assert(pair_views(pairs@) =~= sync_pairs(h, cc, ca, (i + 1) as nat));
    }
}

/// Checks that every concrete connection maps onto an abstract one and
/// every abstract connection is such an image; returns the issues and the
/// synchronization pairs.
fn check_connection_preservation(spec: &CongruenceSpec) -> (r: (Vec<CongruenceIssue>, Vec<(String, String)>))
    ensures
        cong_views(r.0@) == preservation_issues(spec.local_refinement.actions@, connection_views(spec.concrete_composition.connections@),
                connection_views(spec.abstract_composition.connections@), spec.concrete_composition.connections@.len())
            + reflection_issues(spec.local_refinement.actions@, connection_views(spec.concrete_composition.connections@),
                connection_views(spec.abstract_composition.connections@), spec.abstract_composition.connections@.len()),
        pair_views(r.1@) == sync_pairs(spec.local_refinement.actions@,
            connection_views(spec.concrete_composition.connections@), connection_views(spec.abstract_composition.connections@),
            spec.concrete_composition.connections@.len()),
{
    let ghost h = spec.local_refinement.actions@;
    let ghost cc = connection_views(spec.concrete_composition.connections@);
    let ghost ca = connection_views(spec.abstract_composition.connections@);
    let concrete = &spec.concrete_composition.connections;
    let abstract_connections = &spec.abstract_composition.connections;
    let mut issues: Vec<CongruenceIssue> = Vec::new();
    let mut pairs: Vec<(String, String)> = Vec::new();
    proof {
        assert(cong_views(issues@) =~= Seq::<CongV>::empty());
        assert(pair_views(pairs@) =~= Seq::<(Seq<char>, Seq<char>)>::empty());
    }
    let mut i: usize = 0;
    while i < concrete.len()
        invariant
            h == spec.local_refinement.actions@,
            cc == connection_views(concrete@),
            ca == connection_views(abstract_connections@),
            concrete == &spec.concrete_composition.connections,
            abstract_connections == &spec.abstract_composition.connections,
            i <= concrete@.len(),
            cong_views(issues@) == preservation_issues(h, cc, ca, i as nat),
            pair_views(pairs@) == sync_pairs(h, cc, ca, i as nat),
        decreases concrete@.len() - i,
    {
        preserve_one(spec, i, &mut issues, &mut pairs);
        i = i + 1;
    }
    let ghost head = cong_views(issues@);
    let mut k: usize = 0;
    while k < abstract_connections.len()
        invariant
            h == spec.local_refinement.actions@,
            cc == connection_views(concrete@),
            ca == connection_views(abstract_connections@),
            concrete == &spec.concrete_composition.connections,
            abstract_connections == &spec.abstract_composition.connections,
            k <= abstract_connections@.len(),
            head == preservation_issues(h, cc, ca, concrete@.len()),
            cong_views(issues@) == head + reflection_issues(h, cc, ca, k as nat),
        decreases abstract_connections@.len() - k,
    {
        let a = &abstract_connections[k];
        proof {
            assert(ca[k as int] == a@);
        }
        let mut reflected_here = false;
        let mut j: usize = 0;
        while j < concrete.len()
            invariant
                h == spec.local_refinement.actions@,
                cc == connection_views(concrete@),
                j <= concrete@.len(),
                reflected_here <==> exists|x: int| 0 <= x < j && #[trigger] lookup(h, cc[x].left_action) == Some(Some(a@.left_action))
                    && cc[x].right_action == a@.right_action,
            decreases concrete@.len() - j,
        {
            proof {
                assert(cc[j as int] == concrete@[j as int]@);
            }
            let hit = match spec.local_refinement.actions.get(concrete[j].left_action.as_str()) {
                Some(Some(m)) => str_eq(m, a.left_action.as_str()) && str_eq(concrete[j].right_action.as_str(), a.right_action.as_str()),
                _ => false,
            };
            proof {
                assert(hit == (lookup(h, cc[j as int].left_action) == Some(Some(a@.left_action)) && cc[j as int].right_action == a@.right_action));
            }
            if hit {
                reflected_here = true;
            }
            j = j + 1;
        }
        let ghost before = cong_views(issues@);
        if !reflected_here {
            push_cong(&mut issues, CongruenceIssue::AbstractConnectionNotReflected(a.copy()));
        }
        proof {
            assert(reflected_here == reflected(h, cc, a@));
            assert(cong_views(issues@) =~= head + reflection_issues(h, cc, ca, (k + 1) as nat));
        }
        k = k + 1;
    }
    (issues, pairs)
}

/// The observation pairs of the product: those of the left side and of the
/// peer, each under its side's namespace.
pub open spec fn observation_pairs(l: Seq<(Seq<char>, Seq<char>)>, r: Seq<(Seq<char>, Seq<char>)>) -> Seq<(Seq<char>, Seq<char>)> {
    namespaced_pairs(Side::Left, l) + namespaced_pairs(Side::Right, r)
}

/// Both names of each pair under the namespace of `side`.
pub open spec fn namespaced_pairs(side: Side, s: Seq<(Seq<char>, Seq<char>)>) -> Seq<(Seq<char>, Seq<char>)> {
    s.map_values(|e: (Seq<char>, Seq<char>)| (side_prefix(side) + e.0, side_prefix(side) + e.1))
}

/// `m` is the product of the observations `l` and `r`.
pub open spec fn observation_product(l: Seq<(Seq<char>, Seq<char>)>, r: Seq<(Seq<char>, Seq<char>)>, m: Seq<(Seq<char>, Seq<char>)>) -> bool {
    &&& sorted_keys(m)
    &&& forall|k: Seq<char>| #[trigger] lookup(m, k) == last_lookup(observation_pairs(l, r), k)
}

/// The observation of the product of `left` and `right`, where no output
/// repeats.
fn product_observation(left: &ObservationMap, right: &ObservationMap) -> (r: Option<ObservationMap>)
    ensures
        r is None <==> exists|o: Seq<char>| duplicate_output(observation_pairs(left@, right@), o),
        r matches Some(m) ==> observation_product(left@, right@, m@),
{
    let ghost want = observation_pairs(left@, right@);
    let le = left.fields().entries();
    let re = right.fields().entries();
    let ghost lv = left@;
    let ghost rv = right@;
    proof {
        assert(lv == text_entries_view(entries_view(le@)));
        assert(rv == text_entries_view(entries_view(re@)));
    }
    let mut pairs: Vec<(String, String)> = Vec::new();
    proof {
        assert(text_entries_view(entries_view(pairs@)) =~= namespaced_pairs(Side::Left, lv.subrange(0, 0)));
    }
    let mut i: usize = 0;
    while i < le.len()
        invariant
            lv == text_entries_view(entries_view(le@)),
            i <= le@.len(),
            text_entries_view(entries_view(pairs@)) == namespaced_pairs(Side::Left, lv.subrange(0, i as int)),
        decreases le@.len() - i,
    {
        let ghost before = text_entries_view(entries_view(pairs@));
        let p = (namespaced(Side::Left, le[i].0.as_str()), namespaced(Side::Left, le[i].1.as_str()));
        pairs.push(p);
        proof {
            assert(lv[i as int] == (le@[i as int].0@, le@[i as int].1@));
            assert(namespaced_pairs(Side::Left, lv.subrange(0, i + 1)) =~= namespaced_pairs(Side::Left, lv.subrange(0, i as int)).push((p.0@, p.1@)));
            assert(text_entries_view(entries_view(pairs@)) =~= before.push((p.0@, p.1@)));
        }
        i = i + 1;
    }
    proof {
        assert(lv.subrange(0, le@.len() as int) =~= lv);
        assert(text_entries_view(entries_view(pairs@)) =~= namespaced_pairs(Side::Left, lv) + namespaced_pairs(Side::Right, rv.subrange(0, 0)));
    }
    let mut j: usize = 0;
    while j < re.len()
        invariant
            lv == text_entries_view(entries_view(le@)),
            rv == text_entries_view(entries_view(re@)),
            j <= re@.len(),
            text_entries_view(entries_view(pairs@)) == namespaced_pairs(Side::Left, lv) + namespaced_pairs(Side::Right, rv.subrange(0, j as int)),
        decreases re@.len() - j,
    {
        let ghost before = text_entries_view(entries_view(pairs@));
        let p = (namespaced(Side::Right, re[j].0.as_str()), namespaced(Side::Right, re[j].1.as_str()));
        pairs.push(p);
        proof {
            assert(rv[j as int] == (re@[j as int].0@, re@[j as int].1@));
            assert(namespaced_pairs(Side::Right, rv.subrange(0, j + 1)) =~= namespaced_pairs(Side::Right, rv.subrange(0, j as int)).push((p.0@, p.1@)));
            assert(text_entries_view(entries_view(pairs@)) =~= before.push((p.0@, p.1@)));
            assert(text_entries_view(entries_view(pairs@)) =~= namespaced_pairs(Side::Left, lv) + namespaced_pairs(Side::Right, rv.subrange(0, j + 1)));
        }
        j = j + 1;
    }
    proof {
        assert(lv.subrange(0, le@.len() as int) =~= lv);
        assert(rv.subrange(0, re@.len() as int) =~= rv);
        assert(text_entries_view(entries_view(pairs@)) =~= want);
    }
    match ObservationMap::new(pairs) {
        Ok(m) => Some(m),
        Err(_) => None,
    }
}

/// Every image `local[a] * pn + b` fits a state identifier.
pub open spec fn lifted_fits(local: Seq<StateId>, cn: int, pn: int) -> bool {
    &&& local.len() >= cn
    &&& forall|a: int| 0 <= a < cn ==> #[trigger] local[a] * pn + pn - 1 <= usize::MAX
}

/// The product state map: `(a, b)` goes to `(local[a], b)`.
pub open spec fn lifted_state_map(local: Seq<StateId>, cn: int, pn: int, sm: Seq<StateId>) -> bool {
    &&& sm.len() == cn * pn
    &&& forall|a: int, b: int| 0 <= a < cn && 0 <= b < pn ==> #[trigger] sm[product_index(a, b, pn) as int] == product_index(local[a] as int, b, pn)
}

fn lifted_states(local: &Vec<StateId>, cn: usize, pn: usize) -> (r: Option<Vec<StateId>>)
    requires
        cn * pn <= usize::MAX,
        pn >= 1,
    ensures
        r is None <==> !lifted_fits(local@, cn as int, pn as int),
        r matches Some(sm) ==> lifted_state_map(local@, cn as int, pn as int, sm@),
{
    if local.len() < cn {
        return None;
    }
    let mut sm: Vec<StateId> = Vec::new();
    let mut a: usize = 0;
    proof {
        assert(0 * pn == 0) by (nonlinear_arith);
    }
    while a < cn
        invariant
            local@.len() >= cn,
            cn * pn <= usize::MAX,
            pn >= 1,
            a <= cn,
            sm@.len() == a * pn,
            forall|a2: int| 0 <= a2 < a ==> #[trigger] local@[a2] * pn + pn - 1 <= usize::MAX,
            forall|a2: int, b2: int| 0 <= a2 < a && 0 <= b2 < pn ==> #[trigger] sm@[product_index(a2, b2, pn as int) as int] == product_index(local@[a2] as int, b2, pn as int),
        decreases cn - a,
    {
        let base = match local[a].checked_mul(pn) {
            Some(x) => x,
            None => {
                proof {
                    assert(local@[a as int] * pn + pn - 1 > usize::MAX);
                }
                return None;
            },
        };
        match base.checked_add(pn - 1) {
            Some(_) => {},
            None => {
                return None;
            },
        }
        let mut b: usize = 0;
        while b < pn
            invariant
                local@.len() >= cn,
                cn * pn <= usize::MAX,
                a < cn,
                b <= pn,
                base == local@[a as int] * pn,
                base + pn - 1 <= usize::MAX,
                sm@.len() == a * pn + b,
                forall|a2: int, b2: int| 0 <= a2 < a && 0 <= b2 < pn ==> #[trigger] sm@[product_index(a2, b2, pn as int) as int] == product_index(local@[a2] as int, b2, pn as int),
                forall|b2: int| 0 <= b2 < b ==> #[trigger] sm@[product_index(a as int, b2, pn as int) as int] == product_index(local@[a as int] as int, b2, pn as int),
            decreases pn - b,
        {
            let ghost before = sm@;
            proof {
                crate::compose::lemma_product_index_bound(a as int, b as int, cn as int, pn as int);
            }
            sm.push(base + b);
            proof {
                assert(product_index(a as int, b as int, pn as int) == before.len());
                assert forall|a2: int, b2: int| 0 <= a2 < a && 0 <= b2 < pn implies #[trigger] sm@[product_index(a2, b2, pn as int) as int] == product_index(local@[a2] as int, b2, pn as int) by {
                    crate::compose::lemma_product_index_bound(a2, b2, a as int, pn as int);
                    assert(sm@[product_index(a2, b2, pn as int) as int] == before[product_index(a2, b2, pn as int) as int]);
                }
                assert forall|b2: int| 0 <= b2 < b + 1 implies #[trigger] sm@[product_index(a as int, b2, pn as int) as int] == product_index(local@[a as int] as int, b2, pn as int) by {
                    if b2 < b {
                        assert(sm@[product_index(a as int, b2, pn as int) as int] == before[product_index(a as int, b2, pn as int) as int]);
                    }
                }
            }
            b = b + 1;
        }
        proof {
            assert((a + 1) * pn == a * pn + pn) by (nonlinear_arith);
            assert forall|a2: int, b2: int| 0 <= a2 < a + 1 && 0 <= b2 < pn implies #[trigger] sm@[product_index(a2, b2, pn as int) as int] == product_index(local@[a2] as int, b2, pn as int) by {
                if a2 == a {
                    assert(sm@[product_index(a as int, b2, pn as int) as int] == product_index(local@[a as int] as int, b2, pn as int));
                }
            }
        }
        a = a + 1;
    }
    Some(sm)
}

/// The hiding of a concrete left action under the left namespace.
pub open spec fn left_lifted(h: Seq<(Seq<char>, Option<Seq<char>>)>, k: Seq<char>) -> Option<Option<Seq<char>>> {
    if k.len() >= 6 && k.subrange(0, 6) == side_prefix(Side::Left) && last_lookup(h, k.subrange(6, k.len() as int)) is Some {
        Some(match last_lookup(h, k.subrange(6, k.len() as int))->0 {
            Some(a) => Some(side_prefix(Side::Left) + a),
            None => None,
        })
    } else {
        None
    }
}

/// Peer actions map to themselves; otherwise `base`.
pub open spec fn right_lifted(pi: Seq<(Seq<char>, SignatureV)>, k: Seq<char>, base: Option<Option<Seq<char>>>) -> Option<Option<Seq<char>>> {
    if k.len() >= 7 && k.subrange(0, 7) == side_prefix(Side::Right) && has_key(pi, k.subrange(7, k.len() as int)) {
        Some(Some(k))
    } else {
        base
    }
}

/// Synchronization actions map to their abstract counterparts; otherwise `base`.
pub open spec fn sync_lifted(sp: Seq<(Seq<char>, Seq<char>)>, k: Seq<char>, base: Option<Option<Seq<char>>>) -> Option<Option<Seq<char>>> {
    if last_lookup(sp, k) is Some {
        Some(last_lookup(sp, k))
    } else {
        base
    }
}

/// The hiding of product action `k` in the lifted refinement.
pub open spec fn lifted_action(h: Seq<(Seq<char>, Option<Seq<char>>)>, pi: Seq<(Seq<char>, SignatureV)>, sp: Seq<(Seq<char>, Seq<char>)>,
    k: Seq<char>) -> Option<Option<Seq<char>>> {
    sync_lifted(sp, k, right_lifted(pi, k, left_lifted(h, k)))
}

fn lifted_actions(local: &ActionHiding, peer: &OpenSystem, pairs: &Vec<(String, String)>) -> (r: ActionHiding)
    ensures
        sorted_keys(r@),
        forall|k: Seq<char>| #[trigger] lookup(r@, k) == lifted_action(local@, peer@.interface,
            pair_views(pairs@), k),
{
    let ghost h = local@;
    let ghost pi = peer@.interface;
    let ghost sp = pair_views(pairs@);
    let he = local.mappings().entries();
    let pe = peer.interface().actions().entries();
    proof {
        assert(h == hiding_view(entries_view(he@)));
        assert(pi == map_entry_values(entries_view(pe@), sig_fn()));
    }
    let mut acts: StrMap<Option<String>> = StrMap::new();
    proof {
        assert forall|k: Seq<char>| #[trigger] lookup(hiding_view(acts@), k) == left_lifted(h.subrange(0, 0), k) by {
            lemma_map_entry_values(acts@, opt_text_fn(), k);
            crate::smap::lemma_lookup_none(acts@, k);
            assert(h.subrange(0, 0) =~= Seq::<(Seq<char>, Option<Seq<char>>)>::empty());
            crate::smap::lemma_last_lookup_empty::<Option<Seq<char>>>(k.subrange(6, k.len() as int));
        }
    }
    let mut i: usize = 0;
    while i < he.len()
        invariant
            h == hiding_view(entries_view(he@)),
            i <= he@.len(),
            sorted_keys(acts@),
            forall|k: Seq<char>| #[trigger] lookup(hiding_view(acts@), k) == left_lifted(h.subrange(0, i as int), k),
        decreases he@.len() - i,
    {
        let ghost e = h[i as int];
        let ghost old_acts = acts@;
        let key = namespaced(Side::Left, he[i].0.as_str());
        let value: Option<String> = match &he[i].1 {
            Some(a) => Some(namespaced(Side::Left, a.as_str())),
            None => None,
        };
        acts.insert(key, value);
        proof {
            crate::compose::lemma_prefix_lens();
            assert(e.0 == he@[i as int].0@ && e.1 == opt_text(he@[i as int].1));
            assert(h.subrange(0, i + 1) =~= h.subrange(0, i as int).push(e));
            assert forall|k: Seq<char>| #[trigger] lookup(hiding_view(acts@), k) == left_lifted(h.subrange(0, i + 1), k) by {
                assert(lookup(hiding_view(old_acts), k) == left_lifted(h.subrange(0, i as int), k));
                lemma_map_entry_values(acts@, opt_text_fn(), k);
                lemma_map_entry_values(old_acts, opt_text_fn(), k);
                lemma_prefix_split(Side::Left, e.0, k);
                crate::smap::lemma_last_lookup_push(h.subrange(0, i as int), e, k.subrange(6, k.len() as int));
                if k == side_prefix(Side::Left) + e.0 {
                    assert(lookup(acts@, k) == Some(value));
                    assert(opt_text(value) == match e.1 { Some(a) => Some(side_prefix(Side::Left) + a), None => None::<Seq<char>> });
                    assert(opt_text_fn()(value) == opt_text(value));
                    assert(lookup(hiding_view(acts@), k) == Some(opt_text(value)));
                } else {
                    assert(lookup(acts@, k) == lookup(old_acts, k));
                }
            }
        }
        i = i + 1;
    }
    proof {
        assert(h.subrange(0, he@.len() as int) =~= h);
    }
    let mut j: usize = 0;
    while j < pe.len()
        invariant
            pi == map_entry_values(entries_view(pe@), sig_fn()),
            j <= pe@.len(),
            sorted_keys(acts@),
            forall|k: Seq<char>| #[trigger] lookup(hiding_view(acts@), k) == right_lifted(pi.subrange(0, j as int), k, left_lifted(h, k)),
        decreases pe@.len() - j,
    {
        let ghost e = pi[j as int];
        let ghost old_acts = acts@;
        let key = namespaced(Side::Right, pe[j].0.as_str());
        let value = Some(key.clone());
        acts.insert(key, value);
        proof {
            crate::compose::lemma_prefix_lens();
            assert(e.0 == pe@[j as int].0@);
            assert forall|k: Seq<char>| #[trigger] lookup(hiding_view(acts@), k) == right_lifted(pi.subrange(0, j + 1), k, left_lifted(h, k)) by {
                assert(lookup(hiding_view(old_acts), k) == right_lifted(pi.subrange(0, j as int), k, left_lifted(h, k)));
                lemma_map_entry_values(acts@, opt_text_fn(), k);
                lemma_map_entry_values(old_acts, opt_text_fn(), k);
                lemma_prefix_split(Side::Right, e.0, k);
                let rest = k.subrange(7, k.len() as int);
                assert(has_key(pi.subrange(0, j + 1), rest) == (has_key(pi.subrange(0, j as int), rest) || e.0 == rest)) by {
                    if has_key(pi.subrange(0, j + 1), rest) {
                        let w = choose|w: int| 0 <= w < j + 1 && #[trigger] pi.subrange(0, j + 1)[w].0 == rest;
                        if w < j {
                            assert(pi.subrange(0, j as int)[w].0 == rest);
                        }
                    }
                    if has_key(pi.subrange(0, j as int), rest) {
                        let w = choose|w: int| 0 <= w < j && #[trigger] pi.subrange(0, j as int)[w].0 == rest;
                        assert(pi.subrange(0, j + 1)[w].0 == rest);
                    }
                    if e.0 == rest {
                        assert(pi.subrange(0, j + 1)[j as int].0 == rest);
                    }
                }
                if k == side_prefix(Side::Right) + e.0 {
                    assert(lookup(acts@, k) == Some(value));
                } else {
                    assert(lookup(acts@, k) == lookup(old_acts, k));
                }
            }
        }
        j = j + 1;
    }
    proof {
        assert(pi.subrange(0, pe@.len() as int) =~= pi);
        assert forall|k: Seq<char>| #[trigger] lookup(hiding_view(acts@), k) == sync_lifted(sp.subrange(0, 0), k, right_lifted(pi, k, left_lifted(h, k))) by {
            assert(sp.subrange(0, 0) =~= Seq::<(Seq<char>, Seq<char>)>::empty());
            crate::smap::lemma_last_lookup_empty::<Seq<char>>(k);
        }
    }
    let mut m: usize = 0;
    while m < pairs.len()
        invariant
            sp == pair_views(pairs@),
            m <= pairs@.len(),
            sorted_keys(acts@),
            forall|k: Seq<char>| #[trigger] lookup(hiding_view(acts@), k) == sync_lifted(sp.subrange(0, m as int), k, right_lifted(pi, k, left_lifted(h, k))),
        decreases pairs@.len() - m,
    {
        let ghost e = sp[m as int];
        let ghost old_acts = acts@;
        let value = Some(pairs[m].1.clone());
        acts.insert(pairs[m].0.clone(), value);
        proof {
            assert(e == (pairs@[m as int].0@, pairs@[m as int].1@));
            assert(sp.subrange(0, m + 1) =~= sp.subrange(0, m as int).push(e));
            assert forall|k: Seq<char>| #[trigger] lookup(hiding_view(acts@), k) == sync_lifted(sp.subrange(0, m + 1), k, right_lifted(pi, k, left_lifted(h, k))) by {
                assert(lookup(hiding_view(old_acts), k) == sync_lifted(sp.subrange(0, m as int), k, right_lifted(pi, k, left_lifted(h, k))));
                lemma_map_entry_values(acts@, opt_text_fn(), k);
                lemma_map_entry_values(old_acts, opt_text_fn(), k);
                crate::smap::lemma_last_lookup_push(sp.subrange(0, m as int), e, k);
                if k == e.0 {
                    assert(lookup(acts@, k) == Some(value));
                    assert(opt_text(value) == Some(e.1));
                    assert(opt_text_fn()(value) == opt_text(value));
                    assert(lookup(hiding_view(acts@), k) == Some(opt_text(value)));
                } else {
                    assert(lookup(acts@, k) == lookup(old_acts, k));
                }
            }
        }
        m = m + 1;
    }
    proof {
        assert(sp.subrange(0, pairs@.len() as int) =~= sp);
        lemma_map_entry_values(acts@, opt_text_fn(), Seq::empty());
    }
    ActionHiding::from_map(acts)
}

/// `l` is the refinement witness `local` lifted through the product with
/// a peer `p`: pairs of states map componentwise, observations are taken
/// side by side, and product actions map by their side or synchronization.
pub open spec fn lifted_spec(c: OpenSystemV, p: OpenSystemV, local: RefinementSpecV, peer_observation: Seq<(Seq<char>, Seq<char>)>,
    sp: Seq<(Seq<char>, Seq<char>)>, l: RefinementSpecV) -> bool {
    &&& lifted_state_map(local.state_map, c.graph.states.len() as int, p.graph.states.len() as int, l.state_map)
    &&& observation_product(local.concrete_observation, peer_observation, l.concrete_observation)
    &&& observation_product(local.abstract_observation, peer_observation, l.abstract_observation)
    &&& sorted_keys(l.actions)
    &&& forall|k: Seq<char>| #[trigger] lookup(l.actions, k) == lifted_action(local.actions, p.interface, sp, k)
}

/// The lifted witness exists: every state image fits, and no observation
/// output repeats.
pub open spec fn lifted_buildable(c: OpenSystemV, p: OpenSystemV, local: RefinementSpecV, peer_observation: Seq<(Seq<char>, Seq<char>)>) -> bool {
    &&& lifted_fits(local.state_map, c.graph.states.len() as int, p.graph.states.len() as int)
    &&& !exists|o: Seq<char>| duplicate_output(observation_pairs(local.concrete_observation, peer_observation), o)
    &&& !exists|o: Seq<char>| duplicate_output(observation_pairs(local.abstract_observation, peer_observation), o)
}

fn lifted_refinement_spec(concrete: &OpenSystem, peer: &OpenSystem, spec: &CongruenceSpec, pairs: &Vec<(String, String)>) -> (r: Option<RefinementSpec>)
    requires
        concrete@.graph.states.len() * peer@.graph.states.len() <= usize::MAX,
    ensures
        r is None <==> !lifted_buildable(concrete@, peer@, spec.local_refinement@, spec.peer_observation@),
        r matches Some(l) ==> lifted_spec(concrete@, peer@, spec.local_refinement@, spec.peer_observation@,
            pair_views(pairs@), l@),
{
    let cn = concrete.graph().state_count();
    let pn = peer.graph().state_count();
    let state_map = match lifted_states(&spec.local_refinement.state_map, cn, pn) {
        Some(sm) => sm,
        None => {
            return None;
        },
    };
    let concrete_observation = match product_observation(&spec.local_refinement.concrete_observation, &spec.peer_observation) {
        Some(m) => m,
        None => {
            proof {
                assert(spec.local_refinement@.concrete_observation == spec.local_refinement.concrete_observation@);
                assert(exists|o: Seq<char>| duplicate_output(observation_pairs(spec.local_refinement@.concrete_observation, spec.peer_observation@), o));
            }
            return None;
        },
    };
    let abstract_observation = match product_observation(&spec.local_refinement.abstract_observation, &spec.peer_observation) {
        Some(m) => m,
        None => {
            proof {
                assert(spec.local_refinement@.abstract_observation == spec.local_refinement.abstract_observation@);
                assert(exists|o: Seq<char>| duplicate_output(observation_pairs(spec.local_refinement@.abstract_observation, spec.peer_observation@), o));
            }
            return None;
        },
    };
    let actions = lifted_actions(&spec.local_refinement.actions, peer, pairs);
    Some(RefinementSpec { state_map, concrete_observation, abstract_observation, actions })
}

/// The issues found before the lifted refinement is attempted.
pub open spec fn head_issues(local_ok: bool, concrete_ok: bool, abstract_ok: bool, c: OpenSystemV, a: OpenSystemV,
    h: Seq<(Seq<char>, Option<Seq<char>>)>, cc: Seq<ConnectionV>, ca: Seq<ConnectionV>) -> Seq<CongV> {
    (if !local_ok { seq![CongV::LocalRefinementRejected] } else { Seq::empty() })
        + (if !concrete_ok { seq![CongV::ConcreteCompositionIncompatible] } else { Seq::empty() })
        + (if !abstract_ok { seq![CongV::AbstractCompositionIncompatible] } else { Seq::empty() })
        + interface_issues(c.interface, a.interface, h, cc, c.interface.len())
        + preservation_issues(h, cc, ca, cc.len())
        + reflection_issues(h, cc, ca, ca.len())
}

/// What the lifted check reports: with both products and the lifted
/// witness, the lifted refinement report and whether it rejects; otherwise
/// a construction failure.
#[verifier::opaque]
pub open spec fn lifted_outcome(concrete: OpenSystemV, abstract_system: OpenSystemV, peer_system: OpenSystemV, spec: CongruenceSpec,
    sp: Seq<(Seq<char>, Seq<char>)>, issues: Seq<CongV>, lifted: Option<RefinementReport>) -> bool {
        match lifted {
        Some(rep) => exists|cp: OpenSystem, ap: OpenSystem, l: RefinementSpecV|
            #![trigger composition_outcome(concrete, peer_system, connection_views(spec.concrete_composition.connections@),
                link_views(spec.concrete_composition.contract_links@), default_limits(), Ok(cp)),
                composition_outcome(abstract_system, peer_system, connection_views(spec.abstract_composition.connections@),
                link_views(spec.abstract_composition.contract_links@), default_limits(), Ok(ap)),
                lifted_spec(concrete, peer_system, spec.local_refinement@, spec.peer_observation@, sp, l)]
            composition_outcome(concrete, peer_system, connection_views(spec.concrete_composition.connections@),
                link_views(spec.concrete_composition.contract_links@), default_limits(), Ok(cp))
            && composition_outcome(abstract_system, peer_system, connection_views(spec.abstract_composition.connections@),
                link_views(spec.abstract_composition.contract_links@), default_limits(), Ok(ap))
            && lifted_spec(concrete, peer_system, spec.local_refinement@, spec.peer_observation@, sp, l)
            && mismatch_views(rep.mismatches@) == refinement_mismatches(cp@.graph, ap@.graph, l)
            && rep.accepted == (refinement_mismatches(cp@.graph, ap@.graph, l).len() == 0)
            && rep.checked_states == cp@.graph.states.len()
            && rep.checked_transitions == cp@.graph.transitions.len()
            && issues == if rep.accepted { Seq::<CongV>::empty() } else { seq![CongV::LiftedRefinementRejected] },
        None => issues == seq![CongV::CompositionConstructionFailed] && (
            (exists|e: crate::open::CompositionError| composition_outcome(concrete, peer_system, connection_views(spec.concrete_composition.connections@),
                link_views(spec.concrete_composition.contract_links@), default_limits(), Err(e)))
            || (exists|e: crate::open::CompositionError| composition_outcome(abstract_system, peer_system, connection_views(spec.abstract_composition.connections@),
                link_views(spec.abstract_composition.contract_links@), default_limits(), Err(e)))
            || !lifted_buildable(concrete, peer_system, spec.local_refinement@, spec.peer_observation@)),
    }
}

/// Composes both sides with the peer and checks the lifted refinement.
fn lifted_check(concrete: &OpenSystem, abstract_system: &OpenSystem, peer_system: &OpenSystem, spec: &CongruenceSpec,
    pairs: &Vec<(String, String)>) -> (r: (Vec<CongruenceIssue>, Option<RefinementReport>))
    ensures
        lifted_outcome(concrete@, abstract_system@, peer_system@, *spec, pair_views(pairs@), cong_views(r.0@), r.1),

{
    proof {
        reveal(lifted_outcome);
    }
    let mut issues: Vec<CongruenceIssue> = Vec::new();
    let concrete_product = compose(concrete, peer_system, &spec.concrete_composition);
    let abstract_product = compose(abstract_system, peer_system, &spec.abstract_composition);
    match (concrete_product, abstract_product) {
        (Ok(cp), Ok(ap)) => {
            proof {
                crate::compose::lemma_outcome_ok_fits(concrete@, peer_system@, connection_views(spec.concrete_composition.connections@),
                    link_views(spec.concrete_composition.contract_links@), default_limits(), cp);
            }
            match lifted_refinement_spec(concrete, peer_system, spec, pairs) {
                Some(lifted) => {
                    let report = RefinementChecker::check(cp.graph(), ap.graph(), &lifted);
                    if !report.accepted {
                        push_cong(&mut issues, CongruenceIssue::LiftedRefinementRejected);
                    }
                    proof {
                        assert(cong_views(issues@) =~= if report.accepted { Seq::<CongV>::empty() } else { seq![CongV::LiftedRefinementRejected] });
                        assert(composition_outcome(concrete@, peer_system@, connection_views(spec.concrete_composition.connections@),
                            link_views(spec.concrete_composition.contract_links@), default_limits(), Ok(cp)));
                        assert(composition_outcome(abstract_system@, peer_system@, connection_views(spec.abstract_composition.connections@),
                            link_views(spec.abstract_composition.contract_links@), default_limits(), Ok(ap)));
                        assert(lifted_spec(concrete@, peer_system@, spec.local_refinement@, spec.peer_observation@, pair_views(pairs@), lifted@));
                    }
                    (issues, Some(report))
                },
                None => {
                    push_cong(&mut issues, CongruenceIssue::CompositionConstructionFailed);
                    proof {
                        assert(cong_views(issues@) =~= seq![CongV::CompositionConstructionFailed]);
                    }
                    (issues, None)
                },
            }
        },
        (first, second) => {
            push_cong(&mut issues, CongruenceIssue::CompositionConstructionFailed);
            proof {
                assert(cong_views(issues@) =~= seq![CongV::CompositionConstructionFailed]);
                match first {
                    Err(e) => {
                        assert(composition_outcome(concrete@, peer_system@, connection_views(spec.concrete_composition.connections@),
                            link_views(spec.concrete_composition.contract_links@), default_limits(), Err(e)));
                    },
                    Ok(_) => {
                        match second {
                            Err(e) => {
                                assert(composition_outcome(abstract_system@, peer_system@, connection_views(spec.abstract_composition.connections@),
                                    link_views(spec.abstract_composition.contract_links@), default_limits(), Err(e)));
                            },
                            Ok(_) => {},
                        }
                    },
                }
            }
            (issues, None)
        },
    }
}

pub struct OpenRefinementCongruenceChecker;

impl OpenRefinementCongruenceChecker {
    /// Checks a finite instance of the safety-congruence rule: the left
    /// concrete component refines the left abstract component and the
    /// right peer is unchanged. Acceptance needs local refinement, both
    /// compositions, injective boundary-signature preservation, connection
    /// reflection, no hidden connected action, and the lifted refinement of
    /// the two products. It makes no fairness or liveness claim.
    #[verifier::rlimit(100)]
    #[verifier::spinoff_prover]
    pub fn check(concrete: &OpenSystem, abstract_system: &OpenSystem, peer_system: &OpenSystem, spec: &CongruenceSpec) -> (r: CongruenceReport)
        ensures
            mismatch_views(r.local_refinement.mismatches@) == refinement_mismatches(concrete@.graph, abstract_system@.graph, spec.local_refinement@),
            r.local_refinement.accepted == (refinement_mismatches(concrete@.graph, abstract_system@.graph, spec.local_refinement@).len() == 0),
            r.local_refinement.checked_states == concrete@.graph.states.len(),
            r.local_refinement.checked_transitions == concrete@.graph.transitions.len(),
            compatibility_outcome(concrete@, peer_system@, connection_views(spec.concrete_composition.connections@),
                link_views(spec.concrete_composition.contract_links@), crate::open::DEFAULT_MAX_COMPOSITION_WORK_ITEMS, r.concrete_compatibility),
            compatibility_outcome(abstract_system@, peer_system@, connection_views(spec.abstract_composition.connections@),
                link_views(spec.abstract_composition.contract_links@), crate::open::DEFAULT_MAX_COMPOSITION_WORK_ITEMS, r.abstract_compatibility),
            ({
                let head = head_issues(r.local_refinement.accepted, r.concrete_compatibility.accepted, r.abstract_compatibility.accepted,
                    concrete@, abstract_system@, spec.local_refinement.actions@, connection_views(spec.concrete_composition.connections@),
                    connection_views(spec.abstract_composition.connections@));
                let sp = sync_pairs(spec.local_refinement.actions@, connection_views(spec.concrete_composition.connections@),
                    connection_views(spec.abstract_composition.connections@), spec.concrete_composition.connections@.len());
                if head.len() > 0 {
                    cong_views(r.issues@) == head && r.lifted_refinement is None
                } else {
                    lifted_outcome(concrete@, abstract_system@, peer_system@, *spec, sp, cong_views(r.issues@), r.lifted_refinement)
                }
            }),
            r.accepted == (r.issues@.len() == 0 && (r.lifted_refinement matches Some(l) && l.accepted)),
    {
        let local_refinement = RefinementChecker::check(concrete.graph(), abstract_system.graph(), &spec.local_refinement);
        let concrete_compatibility = CompatibilityChecker::check(concrete, peer_system, &spec.concrete_composition);
        let abstract_compatibility = CompatibilityChecker::check(abstract_system, peer_system, &spec.abstract_composition);
        let ghost cc = connection_views(spec.concrete_composition.connections@);
        let ghost ca = connection_views(spec.abstract_composition.connections@);
        let ghost h = spec.local_refinement.actions@;
        let mut issues: Vec<CongruenceIssue> = Vec::new();
        if !local_refinement.accepted {
            push_cong(&mut issues, CongruenceIssue::LocalRefinementRejected);
        }
        if !concrete_compatibility.accepted {
            push_cong(&mut issues, CongruenceIssue::ConcreteCompositionIncompatible);
        }
        if !abstract_compatibility.accepted {
            push_cong(&mut issues, CongruenceIssue::AbstractCompositionIncompatible);
        }
        let ghost flags = cong_views(issues@);
        let mut more = check_interface_preservation(concrete, abstract_system, spec);
        let ghost iv = cong_views(more@);
        issues.append(&mut more);
        let (mut connection_issues, pairs) = check_connection_preservation(spec);
        let ghost cv = cong_views(connection_issues@);
        issues.append(&mut connection_issues);
        let ghost head = cong_views(issues@);
        proof {
            assert(flags =~= (if !local_refinement.accepted { seq![CongV::LocalRefinementRejected] } else { Seq::empty() })
                + (if !concrete_compatibility.accepted { seq![CongV::ConcreteCompositionIncompatible] } else { Seq::empty() })
                + (if !abstract_compatibility.accepted { seq![CongV::AbstractCompositionIncompatible] } else { Seq::empty() }));
            assert(head =~= flags + iv + cv);
            assert(head =~= head_issues(local_refinement.accepted, concrete_compatibility.accepted, abstract_compatibility.accepted,
                concrete@, abstract_system@, h, cc, ca));
        }
        let mut lifted_refinement: Option<RefinementReport> = None;
        if issues.len() == 0 {
            let (extra, lifted) = lifted_check(concrete, abstract_system, peer_system, spec, &pairs);
            issues = extra;
            lifted_refinement = lifted;
        }
        let accepted = issues.len() == 0 && match &lifted_refinement {
            Some(l) => l.accepted,
            None => false,
        };
        CongruenceReport { accepted, local_refinement, concrete_compatibility, abstract_compatibility, lifted_refinement, issues }
    }
}

/// The left actions of `cs` that `h` hides, in connection order, each once.
pub open spec fn hidden_connected(h: Seq<(Seq<char>, Option<Seq<char>>)>, cs: Seq<ConnectionV>, n: nat) -> Seq<Seq<char>>
    decreases n,
{
    if n == 0 {
        Seq::empty()
    } else {
        let prev = hidden_connected(h, cs, (n - 1) as nat);
        let a = cs[n - 1].left_action;
        if lookup(h, a) == Some(None::<Seq<char>>) && !prev.contains(a) { prev.push(a) } else { prev }
    }
}

/// The connected left actions that `hiding` hides, in connection order, each once.
pub fn hidden_connected_left_actions(hiding: &ActionHiding, connections: &Vec<Connection>) -> (r: Vec<String>)
    ensures
        r@.map_values(|s: String| s@) == hidden_connected(hiding@, connection_views(connections@), connections@.len()),
{
    let ghost cs = connection_views(connections@);
    let mut out: Vec<String> = Vec::new();
    let mut i: usize = 0;
    while i < connections.len()
        invariant
            cs == connection_views(connections@),
            i <= connections@.len(),
            out@.map_values(|s: String| s@) == hidden_connected(hiding@, cs, i as nat),
        decreases connections@.len() - i,
    {
        let ghost prev = out@.map_values(|s: String| s@);
        let a = connections[i].left_action.as_str();
        proof {
            assert(cs[i as int].left_action == a@);
        }
        let hidden = match hiding.get(a) {
            Some(None) => true,
            _ => false,
        };
        if hidden {
            let mut seen = false;
            let mut k: usize = 0;
            while k < out.len()
                invariant
                    prev == out@.map_values(|s: String| s@),
                    k <= out@.len(),
                    seen <==> exists|w: int| 0 <= w < k && prev[w] == a@,
                decreases out@.len() - k,
            {
                if str_eq(out[k].as_str(), a) {
                    seen = true;
                }
                proof {
                    assert(prev[k as int] == out@[k as int]@);
                }
                k = k + 1;
            }
            if !seen {
                out.push(a.to_owned());
                proof {
                    assert(out@.map_values(|s: String| s@) =~= prev.push(a@));
                }
            }
        }
        i = i + 1;
    }
    out
}

/// The hiding and the concrete composition named by surface declarations:
/// hidden actions, renamed actions, and `(left, right, composite)` wires.
pub fn congruence_inputs_from_surface_names(hidden: Vec<&str>, renamed: Vec<(&str, &str)>, wires: Vec<(&str, &str, &str)>)
    -> (r: (ActionHiding, CompositionSpec))
    ensures
        sorted_keys(r.0@),
        forall|k: Seq<char>| #[trigger] lookup(r.0@, k) == last_lookup(crate::observation::hide_then_rename(
            crate::observation::str_views(hidden@), crate::observation::rename_views(renamed@)), k),
        connection_views(r.1.connections@) == crate::open::wire_views(wires@),
        r.1.contract_links@.len() == 0,
{
    (ActionHiding::from_hide_actions(hidden, renamed), CompositionSpec::from_left_right_wires(wires))
}

} // verus!
