use nmlt::graph::{FiniteGraph, ModelState, Transition, Value};
use nmlt::observation::{ActionHiding, ObservationMap};
use nmlt::open::{ActionSignature, Interface, OpenSystem};
use nmlt::open_contract::{FiniteContract, PayloadPredicate, PayloadType};
use nmlt::open_refinement::{
    compose_refinement_specs, identity_refinement_spec, OpenRefinementChecker, OpenRefinementIssue, RefinementCompositionError,
};
use nmlt::refinement::RefinementSpec;

fn state(value: bool) -> ModelState {
    ModelState::from_pairs(vec![("visible".to_owned(), Value::Bool(value))])
}

fn message() -> PayloadType {
    PayloadType::enumeration("Message", vec!["ok", "error"]).unwrap()
}

fn hiding(pairs: Vec<(&str, Option<&str>)>) -> ActionHiding {
    ActionHiding::new(pairs.into_iter().map(|(c, a)| (c.to_owned(), a.map(|a| a.to_owned()))).collect())
}

fn output_system(action: &'static str, payload_type: PayloadType, accepted: &[&str]) -> OpenSystem {
    let guarantee = PayloadPredicate::new(&payload_type, accepted.to_vec()).unwrap();
    OpenSystem::with_payload_contract(
        FiniteGraph::new(vec![state(false), state(true)], vec![0], vec![Transition::action(0, action, 1)]).unwrap(),
        Interface::new(vec![(action, ActionSignature::typed_output("bus", payload_type))]).unwrap(),
        FiniteContract::new(vec![], vec![(action, guarantee)]).unwrap(),
    )
    .unwrap()
}

fn input_system(action: &'static str, accepted: &[&str]) -> OpenSystem {
    let payload_type = message();
    let assumption = PayloadPredicate::new(&payload_type, accepted.to_vec()).unwrap();
    OpenSystem::with_payload_contract(
        FiniteGraph::new(vec![state(false)], vec![0], vec![Transition::action(0, action, 0)]).unwrap(),
        Interface::new(vec![(action, ActionSignature::typed_input("bus", payload_type))]).unwrap(),
        FiniteContract::new(vec![(action, assumption)], vec![]).unwrap(),
    )
    .unwrap()
}

fn multi_output_system(actions: &[&'static str]) -> OpenSystem {
    let payload_type = message();
    let declarations =
        actions.iter().map(|action| (*action, ActionSignature::typed_output("bus", payload_type.clone()))).collect::<Vec<_>>();
    let guarantees = actions.iter().map(|action| (*action, PayloadPredicate::all(&payload_type))).collect::<Vec<_>>();
    OpenSystem::with_payload_contract(
        FiniteGraph::new(vec![state(false), state(true)], vec![0], vec![Transition::action(0, actions[0], 1)]).unwrap(),
        Interface::new(declarations).unwrap(),
        FiniteContract::new(vec![], guarantees).unwrap(),
    )
    .unwrap()
}

fn spec(concrete_action: &str, abstract_action: &str, states: Vec<usize>) -> RefinementSpec {
    RefinementSpec {
        state_map: states,
        concrete_observation: ObservationMap::identity(vec!["visible"]),
        abstract_observation: ObservationMap::identity(vec!["visible"]),
        actions: hiding(vec![(concrete_action, Some(abstract_action))]),
    }
}

#[test]
fn identity_is_accepted() {
    let system = output_system("send", message(), &["ok"]);
    let report =
        OpenRefinementChecker::check(&system, &system, &identity_refinement_spec(&system, ObservationMap::identity(vec!["visible"])));
    assert!(report.accepted, "{:#?}", report.issues);
}

#[test]
fn accepts_nonidentity_covariant_guarantee() {
    let concrete = output_system("send", message(), &["ok"]);
    let abstract_system = output_system("commit", message(), &["ok", "error"]);
    let report = OpenRefinementChecker::check(&concrete, &abstract_system, &spec("send", "commit", vec![0, 1]));
    assert!(report.accepted, "{:#?}", report.issues);
}

#[test]
fn rejects_assumption_strengthening() {
    let concrete = input_system("receive", &["ok"]);
    let abstract_system = input_system("accept", &["ok", "error"]);
    let report = OpenRefinementChecker::check(&concrete, &abstract_system, &spec("receive", "accept", vec![0]));
    assert!(report.issues.iter().any(|issue| matches!(
        issue,
        OpenRefinementIssue::AssumptionNotContravariant { rejected_value, .. } if rejected_value == "error"
    )));
}

#[test]
fn rejects_guarantee_weakening() {
    let concrete = output_system("send", message(), &["ok", "error"]);
    let abstract_system = output_system("commit", message(), &["ok"]);
    let report = OpenRefinementChecker::check(&concrete, &abstract_system, &spec("send", "commit", vec![0, 1]));
    assert!(report.issues.iter().any(|issue| matches!(
        issue,
        OpenRefinementIssue::GuaranteeNotCovariant { rejected_value, .. } if rejected_value == "error"
    )));
}

#[test]
fn rejects_payload_substitution_even_with_same_variants() {
    let concrete_type = PayloadType::enumeration("Message", vec!["ok", "error"]).unwrap();
    let abstract_type = PayloadType::enumeration("OtherMessage", vec!["ok", "error"]).unwrap();
    let concrete = output_system("send", concrete_type, &["ok"]);
    let abstract_system = output_system("commit", abstract_type, &["ok"]);
    let report = OpenRefinementChecker::check(&concrete, &abstract_system, &spec("send", "commit", vec![0, 1]));
    assert!(report.issues.iter().any(|issue| matches!(issue, OpenRefinementIssue::PayloadTypeNotPreserved { .. })));
}

#[test]
fn rejects_hidden_boundary_action() {
    let concrete = output_system("send", message(), &["ok"]);
    let abstract_system = output_system("commit", message(), &["ok"]);
    let mut refinement = spec("send", "commit", vec![0, 1]);
    refinement.actions = hiding(vec![("send", None)]);
    let report = OpenRefinementChecker::check(&concrete, &abstract_system, &refinement);
    assert!(report.issues.contains(&OpenRefinementIssue::BoundaryActionHidden("send".to_owned())));
}

#[test]
fn rejects_incomplete_abstract_boundary_mapping() {
    let concrete = multi_output_system(&["send"]);
    let abstract_system = multi_output_system(&["commit", "audit"]);
    let report = OpenRefinementChecker::check(&concrete, &abstract_system, &spec("send", "commit", vec![0, 1]));
    assert!(report.issues.contains(&OpenRefinementIssue::AbstractBoundaryActionUncovered("audit".to_owned())));
}

#[test]
fn rejects_noninjective_boundary_mapping() {
    let concrete = multi_output_system(&["send", "send-alias"]);
    let abstract_system = multi_output_system(&["commit"]);
    let mut refinement = spec("send", "commit", vec![0, 1]);
    refinement.actions = hiding(vec![("send", Some("commit")), ("send-alias", Some("commit"))]);
    let report = OpenRefinementChecker::check(&concrete, &abstract_system, &refinement);
    assert!(report.issues.iter().any(|issue| matches!(issue, OpenRefinementIssue::NonInjectiveBoundaryMapping { .. })));
}

#[test]
fn composes_nonidentity_refinement_witnesses() {
    let first = spec("send", "forward", vec![1, 0]);
    let second = spec("forward", "commit", vec![1, 0]);
    let composed = compose_refinement_specs(&first, &second).unwrap();
    assert_eq!(composed.state_map, vec![0, 1]);
    assert_eq!(composed.actions.get("send"), Some(Some("commit")));
}

#[test]
fn refinement_composition_reports_the_first_gap() {
    let first = spec("send", "forward", vec![0, 5]);
    let second = spec("forward", "commit", vec![1, 0]);
    assert_eq!(
        compose_refinement_specs(&first, &second),
        Err(RefinementCompositionError::IntermediateStateOutOfRange { concrete_state: 1, intermediate_state: 5 })
    );
    let unmapped = spec("forward-other", "commit", vec![0, 1]);
    assert_eq!(
        compose_refinement_specs(&spec("send", "forward", vec![0, 1]), &unmapped),
        Err(RefinementCompositionError::IntermediateActionUnmapped {
            concrete_action: "send".to_owned(),
            intermediate_action: "forward".to_owned(),
        })
    );
    let mut other_observation = spec("forward", "commit", vec![0, 1]);
    other_observation.concrete_observation = ObservationMap::identity(vec!["other"]);
    assert_eq!(
        compose_refinement_specs(&spec("send", "forward", vec![0, 1]), &other_observation),
        Err(RefinementCompositionError::ObservationBoundaryMismatch)
    );
}

#[test]
fn open_refinement_reports_unknown_and_unmapped_actions() {
    let concrete = multi_output_system(&["send"]);
    let abstract_system = multi_output_system(&["commit"]);
    let refinement = spec("ghost", "commit", vec![0, 1]);
    let report = OpenRefinementChecker::check(&concrete, &abstract_system, &refinement);
    assert!(!report.accepted);
    assert_eq!(
        report.issues,
        vec![
            OpenRefinementIssue::BehaviorRejected,
            OpenRefinementIssue::UnknownConcreteAction("ghost".to_owned()),
            OpenRefinementIssue::ConcreteActionUnmapped("send".to_owned()),
            OpenRefinementIssue::AbstractBoundaryActionUncovered("commit".to_owned()),
        ]
    );
}
