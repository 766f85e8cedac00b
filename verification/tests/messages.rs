use nmlt::graph::{i64_string, FiniteGraph, GraphError, ModelState, StateId, Transition, Value};
use nmlt::observation::{ActionHiding, ActionProjectionError, ObservationError, ObservationMap};
use nmlt::open::{CompositionError, InterfaceBuildError, OpenSystemIssue};
use nmlt::open_contract::{FiniteContractError, PayloadPredicateError, PayloadType, PayloadTypeError};
use nmlt::refinement::{ObservationTraceError, RefinementChecker, RefinementMismatchKind, RefinementSpec};

fn state(visible: bool) -> ModelState {
    ModelState::from_pairs(vec![("visible".to_owned(), Value::Bool(visible))])
}

fn spec(state_map: Vec<StateId>, observed: &str) -> RefinementSpec {
    RefinementSpec {
        state_map,
        concrete_observation: ObservationMap::identity(vec![observed]),
        abstract_observation: ObservationMap::identity(vec!["visible"]),
        actions: ActionHiding::new(vec![
            ("cache".to_owned(), None),
            ("publish".to_owned(), Some("commit".to_owned())),
        ]),
    }
}

fn messages(report: &nmlt::refinement::RefinementReport) -> Vec<String> {
    report.mismatches.iter().map(|m| m.message.clone()).collect()
}

#[test]
fn refinement_mismatch_messages_name_states_actions_and_values() {
    let concrete = FiniteGraph::new(
        vec![state(false), state(true)],
        vec![0],
        vec![Transition::action(0, "publish", 1), Transition::action(1, "\"odd\"", 0)],
    )
    .unwrap();
    let abstract_graph = FiniteGraph::new(vec![state(false), state(false)], vec![1], vec![]).unwrap();
    let report = RefinementChecker::check(&concrete, &abstract_graph, &spec(vec![0, 1], "visible"));
    assert_eq!(
        messages(&report),
        vec![
            "observation of concrete state 1 differs from mapped abstract state 1: {\"visible\": Bool(true)} != {\"visible\": Bool(false)}"
                .to_owned(),
            "concrete initial state 0 maps to non-initial abstract state 0".to_owned(),
            "concrete transition 0 requires abstract step 0 -[commit]-> 1, but none exists".to_owned(),
            "concrete transition 1 uses action \"\\\"odd\\\"\", which has no refinement mapping".to_owned(),
        ]
    );
    assert_eq!(report.mismatches[0].kind, RefinementMismatchKind::ObservationMismatch);
}

#[test]
fn refinement_messages_for_map_length_range_hiding_and_undefined_observations() {
    let concrete = FiniteGraph::new(vec![state(false), state(true)], vec![0], vec![Transition::action(0, "cache", 1)]).unwrap();
    let abstract_graph = FiniteGraph::new(vec![state(false), state(true)], vec![0], vec![]).unwrap();
    let report = RefinementChecker::check(&concrete, &abstract_graph, &spec(vec![0, 1], "missing"));
    assert_eq!(
        messages(&report),
        vec![
            "observation is undefined at concrete state 0 / abstract state 0: state does not contain observed source field \"missing\""
                .to_owned(),
            "observation is undefined at concrete state 1 / abstract state 1: state does not contain observed source field \"missing\""
                .to_owned(),
            "hidden concrete transition 0 maps abstract state 0 to distinct state 1".to_owned(),
        ]
    );
    let report = RefinementChecker::check(&concrete, &abstract_graph, &spec(vec![0, 7, 1], "visible"));
    assert_eq!(
        messages(&report)[..2].to_vec(),
        vec![
            "state map has 3 entries for 2 concrete states".to_owned(),
            "concrete state 1 maps to missing abstract state 7".to_owned(),
        ]
    );
}

#[test]
fn trace_error_messages_render_numbers_actions_and_states() {
    assert_eq!(
        ObservationTraceError::EmptyPath.to_string(),
        "observation-trace inclusion requires a non-empty concrete path"
    );
    assert_eq!(
        ObservationTraceError::StateMapTooShort { concrete: 4, map_len: 2 }.to_string(),
        "state map of length 2 has no entry for concrete state 4"
    );
    assert_eq!(
        ObservationTraceError::ActionUnmapped { from: 1, to: 2, action: "go".to_owned() }.to_string(),
        "concrete step 1 -[go]-> 2 has no refinement mapping"
    );
    assert_eq!(
        ObservationTraceError::VisibleStepMissing { from: 0, to: 1, mapped_from: 2, mapped_to: 3, abstract_action: "a".to_owned() }
            .to_string(),
        "visible concrete step 0 -> 1 requires abstract step 2 -[a]-> 3, but none exists"
    );
    assert_eq!(
        ObservationTraceError::HiddenStepChangesAbstractState { from: 0, to: 1, mapped_from: 2, mapped_to: 3 }.to_string(),
        "hidden concrete step 0 -> 1 maps abstract state 2 to distinct state 3"
    );
    assert_eq!(
        ObservationTraceError::ObservationUndefined {
            state: 5,
            source: "concrete",
            error: ObservationError::MissingSourceField("x".to_owned()),
        }
        .to_string(),
        "concrete observation is undefined at state 5: state does not contain observed source field \"x\""
    );
    let a = ModelState::from_pairs(vec![
        ("n".to_owned(), Value::Int(-3)),
        ("t".to_owned(), Value::Text("a\nb".to_owned())),
    ]);
    let b = ModelState::new();
    assert_eq!(
        ObservationTraceError::DoesNotStutterExpand { abstract_observations: vec![b.clone()], concrete_observations: vec![a, b] }
            .to_string(),
        "concrete observation word [{\"n\": Int(-3), \"t\": Text(\"a\\nb\")}, {}] is not a stutter-expansion of abstract word [{}]"
    );
    assert_eq!(i64_string(i64::MIN), "-9223372036854775808");
    assert_eq!(i64_string(0), "0");
}

#[test]
fn construction_error_messages_quote_names() {
    assert_eq!(GraphError::EmptyStateSpace.to_string(), "a finite graph must contain at least one state");
    assert_eq!(
        GraphError::StateOutOfRange { role: "initial", state: 3, state_count: 2 }.to_string(),
        "initial state 3 is outside the state range 0..2"
    );
    assert_eq!(
        GraphError::InvalidIdentityStutter { from: 0, to: 1 }.to_string(),
        "identity stutter must be a self-loop, but transition is 0 -> 1"
    );
    assert_eq!(
        InterfaceBuildError::DuplicateAction("send".to_owned()).to_string(),
        "interface action \"send\" is declared more than once"
    );
    assert_eq!(
        OpenSystemIssue::UndeclaredGraphAction("go".to_owned()).to_string(),
        "graph action \"go\" has no interface declaration"
    );
    assert_eq!(
        OpenSystemIssue::EmptyContractClaim { kind: "assumption" }.to_string(),
        "assumption contract identifier is empty"
    );
    assert_eq!(
        CompositionError::StateIndexOverflow { left_state: 2, right_state: 1, right_states: 5 }.to_string(),
        "composed state index overflows usize: (2 * 5) + 1"
    );
    assert_eq!(
        CompositionError::Graph(GraphError::NoInitialStates).to_string(),
        "composed graph is invalid: a finite graph must contain an initial state"
    );
    assert_eq!(
        CompositionError::InvalidResult(vec![OpenSystemIssue::EmptyActionName]).to_string(),
        "composed open system is invalid (1 issue(s))"
    );
    assert_eq!(PayloadTypeError::InvalidName("".to_owned()).to_string(), "invalid finite payload type name \"\"");
    assert_eq!(
        PayloadTypeError::DuplicateVariant("ok".to_owned()).to_string(),
        "finite payload variant \"ok\" is duplicated"
    );
    let t = PayloadType::enumeration("Message", vec!["ok"]).unwrap();
    let outside = PayloadPredicateError::ValueOutsideType { payload_type: t.id(), value: "no".to_owned() };
    assert_eq!(outside.to_string(), format!("payload value \"no\" is not in {}", t.id().to_string()));
    assert_eq!(
        FiniteContractError::DuplicateGuarantee("send".to_owned()).to_string(),
        "guarantee for action \"send\" is duplicated"
    );
    assert_eq!(
        ActionProjectionError { action_index: 3, action: "tick".to_owned() }.to_string(),
        "action tick at trace position 3 has no hiding/renaming mapping"
    );
    assert_eq!(
        ObservationError::MissingSourceField("a\"b".to_owned()).message(),
        "state does not contain observed source field \"a\\\"b\""
    );
}
