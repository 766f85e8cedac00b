use nmlt::graph::{FiniteGraph, ModelState, Transition, Value};
use nmlt::observation::{ActionHiding, ObservationMap};
use nmlt::open::{
    checked_product_index, checked_product_state_count, checked_work_product, compose, compose_with_limits, ActionSignature,
    CompatibilityChecker, CompatibilityIssue, CompositionError, CompositionLimits, CompositionSpec, CongruenceIssue, CongruenceSpec,
    Connection, ContractLink, Interface, OpenRefinementCongruenceChecker, OpenSystem, SafetyContract, Side, WorkCounter,
    WorkPreflightError, DEFAULT_MAX_COMPOSITION_WORK_ITEMS,
};
use nmlt::refinement::RefinementSpec;

fn state(field: &str, value: bool) -> ModelState {
    ModelState::from_pairs(vec![(field.to_owned(), Value::Bool(value))])
}

fn system(
    graph: FiniteGraph,
    actions: Vec<(&'static str, ActionSignature)>,
    assumptions: Vec<&'static str>,
    guarantees: Vec<&'static str>,
) -> OpenSystem {
    OpenSystem::new(graph, Interface::new(actions).unwrap(), SafetyContract::new(assumptions, guarantees)).unwrap()
}

fn hiding(pairs: Vec<(&str, Option<&str>)>) -> ActionHiding {
    ActionHiding::new(pairs.into_iter().map(|(c, a)| (c.to_owned(), a.map(|a| a.to_owned()))).collect())
}

fn sender_pair() -> (OpenSystem, OpenSystem, RefinementSpec) {
    let concrete = system(
        FiniteGraph::new(
            vec![state("visible", false), state("visible", true)],
            vec![0],
            vec![Transition::action(0, "send", 1)],
        )
        .unwrap(),
        vec![("send", ActionSignature::output("bus"))],
        vec![],
        vec!["safe-message"],
    );
    let abstract_system = system(
        FiniteGraph::new(
            vec![state("visible", false), state("visible", true)],
            vec![0],
            vec![Transition::action(0, "commit", 1)],
        )
        .unwrap(),
        vec![("commit", ActionSignature::output("bus"))],
        vec![],
        vec!["safe-message"],
    );
    let refinement = RefinementSpec {
        state_map: vec![0, 1],
        concrete_observation: ObservationMap::identity(vec!["visible"]),
        abstract_observation: ObservationMap::identity(vec!["visible"]),
        actions: hiding(vec![("send", Some("commit"))]),
    };
    (concrete, abstract_system, refinement)
}

fn receptive_peer() -> OpenSystem {
    system(
        FiniteGraph::new(vec![state("peer", false)], vec![0], vec![Transition::action(0, "receive", 0)]).unwrap(),
        vec![("receive", ActionSignature::input("bus"))],
        vec!["safe-message"],
        vec![],
    )
}

fn composition(left_action: &str, synchronization: &str) -> CompositionSpec {
    CompositionSpec::new(
        vec![Connection::new(left_action, "receive", synchronization)],
        vec![ContractLink::new("safe-message", Side::Right, Side::Left)],
    )
}

fn open_composition() -> CompositionSpec {
    CompositionSpec::new(vec![], vec![ContractLink::new("safe-message", Side::Right, Side::Left)])
}

#[test]
fn composes_only_synchronized_connected_steps() {
    let (concrete, _, _) = sender_pair();
    let peer = receptive_peer();
    let product = compose(&concrete, &peer, &composition("send", "transfer")).unwrap();

    assert_eq!(product.graph().states().len(), 2);
    assert_eq!(product.graph().transitions().len(), 1);
    assert_eq!(product.graph().transitions()[0].kind.action(), Some("transfer"));
    assert_eq!(product.interface().get("transfer"), Some(&ActionSignature::internal()));
    assert!(product.interface().get("left::send").is_none());
    assert!(product.interface().get("right::receive").is_none());
}

#[test]
fn accepts_repaired_finite_safety_congruence_instance() {
    let (concrete, abstract_system, local_refinement) = sender_pair();
    let peer = receptive_peer();
    let report = OpenRefinementCongruenceChecker::check(
        &concrete,
        &abstract_system,
        &peer,
        &CongruenceSpec {
            local_refinement,
            concrete_composition: composition("send", "transfer"),
            abstract_composition: composition("commit", "abstract-transfer"),
            peer_observation: ObservationMap::identity(vec!["peer"]),
        },
    );

    assert!(report.accepted, "{:#?}", report.issues);
    assert!(report.lifted_refinement.as_ref().is_some_and(|lifted| lifted.accepted));
}

#[test]
fn rejects_nonreceptive_connected_input_in_reachable_state() {
    let (sender, _, _) = sender_pair();
    let peer = system(
        FiniteGraph::new(
            vec![state("peer", false), state("peer", true)],
            vec![0],
            vec![Transition::action(0, "receive", 1)],
        )
        .unwrap(),
        vec![("receive", ActionSignature::input("bus"))],
        vec!["safe-message"],
        vec![],
    );
    let report = CompatibilityChecker::check(&sender, &peer, &composition("send", "transfer"));

    assert!(!report.accepted);
    assert!(report.issues.contains(&CompatibilityIssue::InputNotReceptive {
        side: Side::Right,
        action: "receive".to_owned(),
        state: 1,
    }));
}

#[test]
fn rejects_nonreceptive_unconnected_input() {
    let left = system(
        FiniteGraph::new(vec![state("left", false)], vec![0], vec![]).unwrap(),
        vec![("environment-step", ActionSignature::input("environment"))],
        vec![],
        vec![],
    );
    let right = system(FiniteGraph::new(vec![state("right", false)], vec![0], vec![]).unwrap(), vec![], vec![], vec![]);
    let report = CompatibilityChecker::check(&left, &right, &CompositionSpec::default());

    assert!(!report.accepted);
    assert_eq!(report.checked_connections, 0);
    assert_eq!(report.checked_receptive_states, 1);
    assert!(report.issues.contains(&CompatibilityIssue::InputNotReceptive {
        side: Side::Left,
        action: "environment-step".to_owned(),
        state: 0,
    }));
}

#[test]
fn rejects_nonreceptive_input_at_unreachable_state() {
    let left = system(
        FiniteGraph::new(vec![state("left", false)], vec![0], vec![Transition::action(0, "send", 0)]).unwrap(),
        vec![("send", ActionSignature::output("bus"))],
        vec![],
        vec![],
    );
    let right = system(
        FiniteGraph::new(
            vec![state("right", false), state("right", true)],
            vec![0],
            vec![Transition::action(0, "receive", 0)],
        )
        .unwrap(),
        vec![("receive", ActionSignature::input("bus"))],
        vec![],
        vec![],
    );
    assert_eq!(right.graph().reachable_states(), vec![0]);

    let report = CompatibilityChecker::check(
        &left,
        &right,
        &CompositionSpec::new(vec![Connection::new("send", "receive", "transfer")], vec![]),
    );

    assert!(!report.accepted);
    assert_eq!(report.checked_receptive_states, 2);
    assert!(report.issues.contains(&CompatibilityIssue::InputNotReceptive {
        side: Side::Right,
        action: "receive".to_owned(),
        state: 1,
    }));
}

#[test]
fn rejects_missing_contract_discharge() {
    let (sender, _, _) = sender_pair();
    let peer = receptive_peer();
    let report = CompatibilityChecker::check(
        &sender,
        &peer,
        &CompositionSpec::new(vec![Connection::new("send", "receive", "transfer")], vec![]),
    );

    assert!(!report.accepted);
    assert!(report.issues.contains(&CompatibilityIssue::UndischargedAssumption {
        side: Side::Right,
        claim: "safe-message".to_owned(),
    }));
}

#[test]
fn rejects_circular_symbolic_contract_discharge() {
    let left = system(FiniteGraph::new(vec![state("left", false)], vec![0], vec![]).unwrap(), vec![], vec!["q"], vec!["p"]);
    let right = system(FiniteGraph::new(vec![state("right", false)], vec![0], vec![]).unwrap(), vec![], vec!["p"], vec!["q"]);
    let report = CompatibilityChecker::check(
        &left,
        &right,
        &CompositionSpec::new(
            vec![],
            vec![ContractLink::new("p", Side::Right, Side::Left), ContractLink::new("q", Side::Left, Side::Right)],
        ),
    );

    assert!(!report.accepted);
    assert!(report.issues.contains(&CompatibilityIssue::ConditionalGuaranteeProvider {
        provider: Side::Left,
        claim: "p".to_owned(),
    }));
    assert!(report.issues.contains(&CompatibilityIssue::ConditionalGuaranteeProvider {
        provider: Side::Right,
        claim: "q".to_owned(),
    }));
}

#[test]
fn rejects_noncomplementary_connection_polarity() {
    let left = system(
        FiniteGraph::new(vec![state("left", false)], vec![0], vec![Transition::action(0, "send", 0)]).unwrap(),
        vec![("send", ActionSignature::output("bus"))],
        vec![],
        vec![],
    );
    let right = system(
        FiniteGraph::new(vec![state("right", false)], vec![0], vec![Transition::action(0, "receive", 0)]).unwrap(),
        vec![("receive", ActionSignature::output("bus"))],
        vec![],
        vec![],
    );
    let report = CompatibilityChecker::check(
        &left,
        &right,
        &CompositionSpec::new(vec![Connection::new("send", "receive", "transfer")], vec![]),
    );

    assert!(!report.accepted);
    assert!(report.issues.contains(&CompatibilityIssue::NonComplementaryPolarity {
        left_action: "send".to_owned(),
        right_action: "receive".to_owned(),
    }));
}

#[test]
fn rejects_connection_channel_mismatch() {
    let left = system(
        FiniteGraph::new(vec![state("left", false)], vec![0], vec![Transition::action(0, "send", 0)]).unwrap(),
        vec![("send", ActionSignature::output("bus"))],
        vec![],
        vec![],
    );
    let right = system(
        FiniteGraph::new(vec![state("right", false)], vec![0], vec![Transition::action(0, "receive", 0)]).unwrap(),
        vec![("receive", ActionSignature::input("other-bus"))],
        vec![],
        vec![],
    );
    let report = CompatibilityChecker::check(
        &left,
        &right,
        &CompositionSpec::new(vec![Connection::new("send", "receive", "transfer")], vec![]),
    );

    assert!(!report.accepted);
    assert!(report.issues.contains(&CompatibilityIssue::ChannelMismatch {
        left_action: "send".to_owned(),
        right_action: "receive".to_owned(),
    }));
}

#[test]
fn rejects_hidden_connected_boundary_counterexample() {
    let concrete = system(
        FiniteGraph::new(vec![state("visible", false)], vec![0], vec![Transition::action(0, "ping", 0)]).unwrap(),
        vec![("ping", ActionSignature::output("bus"))],
        vec![],
        vec!["safe-message"],
    );
    let abstract_system =
        system(FiniteGraph::new(vec![state("visible", false)], vec![0], vec![]).unwrap(), vec![], vec![], vec!["safe-message"]);
    let report = OpenRefinementCongruenceChecker::check(
        &concrete,
        &abstract_system,
        &receptive_peer(),
        &CongruenceSpec {
            local_refinement: RefinementSpec {
                state_map: vec![0],
                concrete_observation: ObservationMap::identity(vec!["visible"]),
                abstract_observation: ObservationMap::identity(vec!["visible"]),
                actions: hiding(vec![("ping", None)]),
            },
            concrete_composition: composition("ping", "hidden-transfer"),
            abstract_composition: open_composition(),
            peer_observation: ObservationMap::identity(vec!["peer"]),
        },
    );

    assert!(!report.accepted);
    assert!(report.issues.contains(&CongruenceIssue::HiddenConnectedAction("ping".to_owned())));
    assert!(report.lifted_refinement.is_none());
}

#[test]
fn rejects_boundary_polarity_change_under_refinement() {
    let (concrete, _, local_refinement) = sender_pair();
    let abstract_system = system(
        FiniteGraph::new(
            vec![state("visible", false), state("visible", true)],
            vec![0],
            vec![Transition::action(0, "commit", 1)],
        )
        .unwrap(),
        vec![("commit", ActionSignature::input("bus"))],
        vec![],
        vec!["safe-message"],
    );
    let peer = receptive_peer();
    let report = OpenRefinementCongruenceChecker::check(
        &concrete,
        &abstract_system,
        &peer,
        &CongruenceSpec {
            local_refinement,
            concrete_composition: open_composition(),
            abstract_composition: open_composition(),
            peer_observation: ObservationMap::identity(vec!["peer"]),
        },
    );

    assert!(!report.accepted);
    assert!(report.issues.contains(&CongruenceIssue::PolarityNotPreserved {
        concrete_action: "send".to_owned(),
        abstract_action: "commit".to_owned(),
    }));
}

#[test]
fn rejects_boundary_channel_change_under_refinement() {
    let (concrete, _, local_refinement) = sender_pair();
    let abstract_system = system(
        FiniteGraph::new(
            vec![state("visible", false), state("visible", true)],
            vec![0],
            vec![Transition::action(0, "commit", 1)],
        )
        .unwrap(),
        vec![("commit", ActionSignature::output("other-bus"))],
        vec![],
        vec!["safe-message"],
    );
    let peer = receptive_peer();
    let report = OpenRefinementCongruenceChecker::check(
        &concrete,
        &abstract_system,
        &peer,
        &CongruenceSpec {
            local_refinement,
            concrete_composition: open_composition(),
            abstract_composition: open_composition(),
            peer_observation: ObservationMap::identity(vec!["peer"]),
        },
    );

    assert!(report.local_refinement.accepted);
    assert!(report.concrete_compatibility.accepted);
    assert!(report.abstract_compatibility.accepted);
    assert!(!report.accepted);
    assert!(report.issues.contains(&CongruenceIssue::ChannelNotPreserved {
        concrete_action: "send".to_owned(),
        abstract_action: "commit".to_owned(),
    }));
}

#[test]
fn rejects_unused_visible_boundary_alias_mapping() {
    let concrete = system(
        FiniteGraph::new(
            vec![state("visible", false), state("visible", true)],
            vec![0],
            vec![Transition::action(0, "send", 1)],
        )
        .unwrap(),
        vec![("send", ActionSignature::output("bus")), ("send-alias", ActionSignature::output("bus"))],
        vec![],
        vec!["safe-message"],
    );
    let (_, abstract_system, _) = sender_pair();
    let peer = receptive_peer();
    let report = OpenRefinementCongruenceChecker::check(
        &concrete,
        &abstract_system,
        &peer,
        &CongruenceSpec {
            local_refinement: RefinementSpec {
                state_map: vec![0, 1],
                concrete_observation: ObservationMap::identity(vec!["visible"]),
                abstract_observation: ObservationMap::identity(vec!["visible"]),
                actions: hiding(vec![("send", Some("commit")), ("send-alias", Some("commit"))]),
            },
            concrete_composition: composition("send", "transfer"),
            abstract_composition: composition("commit", "abstract-transfer"),
            peer_observation: ObservationMap::identity(vec!["peer"]),
        },
    );

    assert!(report.local_refinement.accepted);
    assert!(report.concrete_compatibility.accepted);
    assert!(report.abstract_compatibility.accepted);
    assert!(!report.accepted);
    assert!(report.issues.iter().any(|issue| matches!(
        issue,
        CongruenceIssue::NonInjectiveVisibleBoundaryMapping {
            first_concrete_action,
            second_concrete_action,
            abstract_action,
        } if first_concrete_action != second_concrete_action && abstract_action == "commit"
    )));
    assert!(report.lifted_refinement.is_none());
}

#[test]
fn rejects_connection_that_is_not_preserved() {
    let (concrete, abstract_system, local_refinement) = sender_pair();
    let peer = receptive_peer();
    let report = OpenRefinementCongruenceChecker::check(
        &concrete,
        &abstract_system,
        &peer,
        &CongruenceSpec {
            local_refinement,
            concrete_composition: composition("send", "transfer"),
            abstract_composition: open_composition(),
            peer_observation: ObservationMap::identity(vec!["peer"]),
        },
    );

    assert!(!report.accepted);
    assert!(report.issues.iter().any(|issue| matches!(
        issue,
        CongruenceIssue::ConcreteConnectionNotPreserved(connection) if connection.left_action == "send"
    )));
}

#[test]
fn rejects_abstract_peer_connection_outside_concrete_action_map_image() {
    let (concrete, _, local_refinement) = sender_pair();
    let abstract_system = system(
        FiniteGraph::new(
            vec![state("visible", false), state("visible", true)],
            vec![0],
            vec![
                Transition::action(0, "commit", 1),
                Transition::action(0, "announce", 0),
                Transition::action(1, "announce", 1),
            ],
        )
        .unwrap(),
        vec![("commit", ActionSignature::output("bus")), ("announce", ActionSignature::output("audit"))],
        vec![],
        vec!["safe-message"],
    );
    let peer = system(
        FiniteGraph::new(
            vec![state("peer", false)],
            vec![0],
            vec![Transition::action(0, "receive", 0), Transition::action(0, "record", 0)],
        )
        .unwrap(),
        vec![("receive", ActionSignature::input("bus")), ("record", ActionSignature::input("audit"))],
        vec!["safe-message"],
        vec![],
    );
    let report = OpenRefinementCongruenceChecker::check(
        &concrete,
        &abstract_system,
        &peer,
        &CongruenceSpec {
            local_refinement,
            concrete_composition: composition("send", "transfer"),
            abstract_composition: CompositionSpec::new(
                vec![
                    Connection::new("commit", "receive", "abstract-transfer"),
                    Connection::new("announce", "record", "abstract-audit"),
                ],
                vec![ContractLink::new("safe-message", Side::Right, Side::Left)],
            ),
            peer_observation: ObservationMap::identity(vec!["peer"]),
        },
    );

    assert!(report.concrete_compatibility.accepted);
    assert!(report.abstract_compatibility.accepted);
    assert!(!report.accepted);
    assert!(report.issues.iter().any(|issue| matches!(
        issue,
        CongruenceIssue::AbstractConnectionNotReflected(connection)
            if connection.left_action == "announce" && connection.right_action == "record"
    )));
}

#[test]
fn rejects_multiply_connected_action_and_sync_name_collision() {
    let (sender, _, _) = sender_pair();
    let peer = receptive_peer();
    let spec = CompositionSpec::new(
        vec![Connection::new("send", "receive", "transfer"), Connection::new("send", "receive", "transfer")],
        vec![ContractLink::new("safe-message", Side::Right, Side::Left)],
    );
    let report = CompatibilityChecker::check(&sender, &peer, &spec);

    assert!(!report.accepted);
    assert!(report.issues.iter().any(|issue| matches!(
        issue,
        CompatibilityIssue::ActionMultiplyConnected { side: Side::Left, action } if action == "send"
    )));
    assert!(report
        .issues
        .iter()
        .any(|issue| matches!(issue, CompatibilityIssue::CompositeActionCollision(action) if action == "transfer")));
}

#[test]
fn direct_compatibility_check_fails_closed_at_work_limit() {
    let (sender, _, _) = sender_pair();
    let peer = receptive_peer();
    let report = CompatibilityChecker::check_with_limits(
        &sender,
        &peer,
        &composition("send", "transfer"),
        CompositionLimits { max_work_items: 0, ..CompositionLimits::default() },
    );

    assert!(!report.accepted);
    assert_eq!(report.checked_connections, 0);
    assert_eq!(report.checked_receptive_states, 0);
    assert!(report.issues.iter().any(|issue| matches!(
        issue,
        CompatibilityIssue::WorkItemLimitExceeded { required, limit: 0 } if *required > 0
    )));
}

#[test]
fn composition_reports_work_limit_before_enumeration() {
    let (sender, _, _) = sender_pair();
    let peer = receptive_peer();
    let error = compose_with_limits(
        &sender,
        &peer,
        &composition("send", "transfer"),
        CompositionLimits { max_work_items: 0, ..CompositionLimits::default() },
    )
    .unwrap_err();

    assert!(matches!(error, CompositionError::WorkItemLimitExceeded { required, limit: 0 } if required > 0));
}

#[test]
fn checked_work_arithmetic_reports_overflow() {
    assert_eq!(checked_work_product(&[usize::MAX, 2]), Err(WorkPreflightError::CountOverflow));
    let mut work = WorkCounter { items: usize::MAX };
    assert_eq!(work.add(1), Err(WorkPreflightError::CountOverflow));
}

#[test]
fn rejects_composed_state_count_above_configured_limit() {
    let left = system(
        FiniteGraph::new(vec![state("left", false), state("left", true)], vec![0], vec![]).unwrap(),
        vec![],
        vec![],
        vec![],
    );
    let right = system(
        FiniteGraph::new(vec![state("right", false), state("right", true)], vec![0], vec![]).unwrap(),
        vec![],
        vec![],
        vec![],
    );

    let error = compose_with_limits(
        &left,
        &right,
        &CompositionSpec::default(),
        CompositionLimits { max_states: 3, max_transitions: 0, max_work_items: DEFAULT_MAX_COMPOSITION_WORK_ITEMS },
    )
    .unwrap_err();
    assert_eq!(error, CompositionError::StateLimitExceeded { required: 4, limit: 3 });
}

#[test]
fn rejects_generated_transitions_above_configured_limit() {
    let left = system(
        FiniteGraph::new(vec![state("left", false)], vec![0], vec![Transition::action(0, "left-step", 0)]).unwrap(),
        vec![("left-step", ActionSignature::internal())],
        vec![],
        vec![],
    );
    let right = system(
        FiniteGraph::new(vec![state("right", false)], vec![0], vec![Transition::action(0, "right-step", 0)]).unwrap(),
        vec![("right-step", ActionSignature::internal())],
        vec![],
        vec![],
    );

    let error = compose_with_limits(
        &left,
        &right,
        &CompositionSpec::default(),
        CompositionLimits { max_states: 1, max_transitions: 1, max_work_items: DEFAULT_MAX_COMPOSITION_WORK_ITEMS },
    )
    .unwrap_err();
    assert_eq!(error, CompositionError::TransitionLimitExceeded { attempted: 2, limit: 1 });
}

#[test]
fn checked_product_arithmetic_reports_overflow() {
    assert_eq!(
        checked_product_state_count(usize::MAX, 2, usize::MAX),
        Err(CompositionError::StateCountOverflow { left_states: usize::MAX, right_states: 2 })
    );
    assert_eq!(
        checked_product_index(usize::MAX, 1, 2),
        Err(CompositionError::StateIndexOverflow { left_state: usize::MAX, right_state: 1, right_states: 2 })
    );
}

#[test]
fn product_namespaces_unconnected_actions_and_state_fields() {
    let left = system(
        FiniteGraph::new(vec![state("x", false), state("x", true)], vec![0], vec![Transition::action(0, "tick", 1)]).unwrap(),
        vec![("tick", ActionSignature::internal())],
        vec![],
        vec!["g"],
    );
    let right = system(
        FiniteGraph::new(vec![state("y", true)], vec![0], vec![Transition::identity_stutter(0)]).unwrap(),
        vec![],
        vec![],
        vec!["h"],
    );
    let product = compose(&left, &right, &CompositionSpec::default()).unwrap();
    assert_eq!(product.graph().states().len(), 2);
    assert_eq!(product.graph().state(1).get("left::x"), Some(&Value::Bool(true)));
    assert_eq!(product.graph().state(1).get("right::y"), Some(&Value::Bool(true)));
    assert!(product.interface().get("left::tick").is_some());
    assert!(product.graph().transitions().iter().any(|t| t.kind.action() == Some("left::tick") && t.from == 0 && t.to == 1));
    assert_eq!(product.graph().transitions().iter().filter(|t| t.kind.action().is_none()).count(), 2);
    assert_eq!(product.contract().guarantees().len(), 2);
    assert_eq!(product.contract().assumptions().len(), 0);
}

#[test]
fn work_counter_adds_products_and_enforces_limits() {
    let mut work = WorkCounter::default();
    assert_eq!(work.add_product(&[2, 3, 4]), Ok(()));
    assert_eq!(work.items, 24);
    assert_eq!(work.add_product(&[0, usize::MAX]), Ok(()));
    assert_eq!(work.items, 24);
    assert_eq!(work.enforce(23), Err(WorkPreflightError::LimitExceeded { required: 24, limit: 23 }));
    assert_eq!(work.enforce(24), Ok(24));
    assert_eq!(checked_product_index(2, 1, 3), Ok(7));
    assert_eq!(checked_product_state_count(3, 4, 12), Ok(12));
}
