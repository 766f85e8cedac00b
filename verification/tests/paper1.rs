use nmlt::graph::{FiniteGraph, ModelState, Transition, Value};
use nmlt::observation::{ActionHiding, ObservationMap};
use nmlt::open::{
    ActionPolarity, ActionSignature, CompositionSpec, CongruenceIssue, CongruenceSpec, Interface,
    OpenRefinementCongruenceChecker, OpenSystem,
};
use nmlt::congruence::{congruence_inputs_from_surface_names, hidden_connected_left_actions};
use nmlt::open_contract::{FiniteContract, PayloadPredicate, PayloadType};
use nmlt::refinement::RefinementSpec;

fn state(field: &str, value: bool) -> ModelState {
    ModelState::from_pairs(vec![(field.to_owned(), Value::Bool(value))])
}

fn unit() -> PayloadType {
    PayloadType::unit()
}

fn system(graph: FiniteGraph, actions: Vec<(&'static str, ActionSignature)>) -> OpenSystem {
    let assumptions = actions
        .iter()
        .filter(|(_, signature)| signature.polarity == ActionPolarity::Input)
        .map(|(action, signature)| (*action, PayloadPredicate::all(signature.payload_type.as_ref().unwrap())))
        .collect::<Vec<_>>();
    let guarantees = actions
        .iter()
        .filter(|(_, signature)| signature.polarity == ActionPolarity::Output)
        .map(|(action, signature)| (*action, PayloadPredicate::all(signature.payload_type.as_ref().unwrap())))
        .collect::<Vec<_>>();
    OpenSystem::with_payload_contract(
        graph,
        Interface::new(actions).unwrap(),
        FiniteContract::new(assumptions, guarantees).unwrap(),
    )
    .unwrap()
}

fn concrete_sender_hiding_ping() -> OpenSystem {
    system(
        FiniteGraph::new(vec![state("visible", false)], vec![0], vec![Transition::action(0, "ping", 0)]).unwrap(),
        vec![("ping", ActionSignature::typed_output("bus", unit()))],
    )
}

fn abstract_sender_without_ping() -> OpenSystem {
    system(FiniteGraph::new(vec![state("visible", false)], vec![0], vec![]).unwrap(), vec![])
}

fn visible_sender() -> OpenSystem {
    system(
        FiniteGraph::new(vec![state("visible", false), state("visible", true)], vec![0], vec![Transition::action(0, "ping", 1)])
            .unwrap(),
        vec![("ping", ActionSignature::typed_output("bus", unit()))],
    )
}

fn receiver() -> OpenSystem {
    system(
        FiniteGraph::new(vec![state("peer", false)], vec![0], vec![Transition::action(0, "receive", 0)]).unwrap(),
        vec![("receive", ActionSignature::typed_input("bus", unit()))],
    )
}

#[test]
fn invalid_hidden_ping_surface_names_reach_hidden_connected_action() {
    let (hiding, concrete_composition) =
        congruence_inputs_from_surface_names(vec!["ping"], vec![], vec![("ping", "receive", "InvalidHiddenPing")]);
    assert_eq!(hiding.get("ping"), Some(None), "hide action ping lowers to ActionHiding::from_hide_actions");
    assert_eq!(hidden_connected_left_actions(&hiding, &concrete_composition.connections), vec!["ping".to_owned()]);

    let report = OpenRefinementCongruenceChecker::check(
        &concrete_sender_hiding_ping(),
        &abstract_sender_without_ping(),
        &receiver(),
        &CongruenceSpec {
            local_refinement: RefinementSpec {
                state_map: vec![0],
                concrete_observation: ObservationMap::identity(vec!["visible"]),
                abstract_observation: ObservationMap::identity(vec!["visible"]),
                actions: hiding,
            },
            concrete_composition,
            abstract_composition: CompositionSpec::default(),
            peer_observation: ObservationMap::identity(vec!["peer"]),
        },
    );
    assert!(report.issues.contains(&CongruenceIssue::HiddenConnectedAction("ping".to_owned())), "{:#?}", report.issues);
    assert!(!report.accepted);
}

#[test]
fn visible_sync_surface_names_do_not_flag_hidden_connected_ping() {
    let (hiding, concrete_composition) =
        congruence_inputs_from_surface_names(vec![], vec![("ping", "ping")], vec![("ping", "receive", "VisibleSync")]);
    assert_eq!(hiding.get("ping"), Some(Some("ping")));
    assert!(hidden_connected_left_actions(&hiding, &concrete_composition.connections).is_empty());

    let left = visible_sender();
    let report = OpenRefinementCongruenceChecker::check(
        &left,
        &visible_sender(),
        &receiver(),
        &CongruenceSpec {
            local_refinement: RefinementSpec {
                state_map: vec![0, 1],
                concrete_observation: ObservationMap::identity(vec!["visible"]),
                abstract_observation: ObservationMap::identity(vec!["visible"]),
                actions: hiding,
            },
            abstract_composition: CompositionSpec::from_left_right_wires(vec![("ping", "receive", "VisibleSync")]),
            concrete_composition,
            peer_observation: ObservationMap::identity(vec!["peer"]),
        },
    );
    assert!(
        !report.issues.iter().any(|issue| matches!(issue, CongruenceIssue::HiddenConnectedAction(name) if name == "ping")),
        "VisibleSync must not flag ping: {:#?}",
        report.issues
    );
}

#[test]
fn from_hide_actions_is_the_documented_adapter_with_from_left_right_wires() {
    let hiding = ActionHiding::from_hide_actions(vec!["ping"], vec![]);
    let spec = CompositionSpec::from_left_right_wires(vec![("ping", "receive", "InvalidHiddenPing")]);
    assert_eq!(hidden_connected_left_actions(&hiding, &spec.connections), vec!["ping".to_owned()]);
}
