use nmlt::graph::{FiniteGraph, ModelState, StateId, Transition, Value};
use nmlt::observation::{stutter_expands, ActionHiding, ObservationMap};
use nmlt::refinement::{
    observation_trace_inclusion, ObservationTraceError, RefinementChecker, RefinementMismatchKind, RefinementSpec,
};

fn state(value: bool, secret: i64) -> ModelState {
    ModelState::from_pairs(vec![
        ("visible".to_owned(), Value::Bool(value)),
        ("secret".to_owned(), Value::Int(secret)),
    ])
}

fn spec(state_map: Vec<StateId>) -> RefinementSpec {
    RefinementSpec {
        state_map,
        concrete_observation: ObservationMap::identity(vec!["visible"]),
        abstract_observation: ObservationMap::identity(vec!["visible"]),
        actions: ActionHiding::new(vec![
            ("cache".to_owned(), None),
            ("publish".to_owned(), Some("commit".to_owned())),
        ]),
    }
}

#[test]
fn accepts_hidden_stutter_and_visible_simulation() {
    let concrete = FiniteGraph::new(
        vec![state(false, 0), state(false, 1), state(true, 1)],
        vec![0],
        vec![Transition::action(0, "cache", 1), Transition::action(1, "publish", 2)],
    )
    .unwrap();
    let abstract_graph = FiniteGraph::new(
        vec![state(false, 99), state(true, 99)],
        vec![0],
        vec![Transition::action(0, "commit", 1)],
    )
    .unwrap();

    let report = RefinementChecker::check(&concrete, &abstract_graph, &spec(vec![0, 0, 1]));
    assert!(report.accepted, "{:#?}", report.mismatches);
}

#[test]
fn localizes_hidden_step_that_changes_abstract_state() {
    let concrete =
        FiniteGraph::new(vec![state(false, 0), state(true, 0)], vec![0], vec![Transition::action(0, "cache", 1)])
            .unwrap();
    let abstract_graph = FiniteGraph::new(vec![state(false, 0), state(true, 0)], vec![0], vec![]).unwrap();
    let report = RefinementChecker::check(&concrete, &abstract_graph, &spec(vec![0, 1]));

    assert!(!report.accepted);
    assert!(report.mismatches.iter().any(|mismatch| {
        mismatch.kind == RefinementMismatchKind::HiddenStepChangesAbstractState
            && mismatch.concrete_transition == Some(0)
            && mismatch.mapped_from == Some(0)
            && mismatch.mapped_to == Some(1)
    }));
}

#[test]
fn localizes_missing_visible_abstract_step() {
    let concrete =
        FiniteGraph::new(vec![state(false, 0), state(true, 0)], vec![0], vec![Transition::action(0, "publish", 1)])
            .unwrap();
    let abstract_graph =
        FiniteGraph::new(vec![state(false, 0), state(true, 0)], vec![0], vec![Transition::action(0, "wrong", 1)])
            .unwrap();
    let report = RefinementChecker::check(&concrete, &abstract_graph, &spec(vec![0, 1]));

    let mismatch = report
        .mismatches
        .iter()
        .find(|mismatch| mismatch.kind == RefinementMismatchKind::VisibleStepMissing)
        .unwrap();
    assert_eq!(mismatch.concrete_transition, Some(0));
    assert_eq!(mismatch.expected_abstract_action.as_deref(), Some("commit"));
}

#[test]
fn rejects_equal_shape_with_different_observation() {
    let concrete = FiniteGraph::new(vec![state(true, 0)], vec![0], vec![]).unwrap();
    let abstract_graph = FiniteGraph::new(vec![state(false, 0)], vec![0], vec![]).unwrap();
    let report = RefinementChecker::check(&concrete, &abstract_graph, &spec(vec![0]));
    assert!(report.mismatches.iter().any(|mismatch| mismatch.kind == RefinementMismatchKind::ObservationMismatch));
}

fn ping_spec() -> RefinementSpec {
    RefinementSpec {
        state_map: vec![0],
        concrete_observation: ObservationMap::identity(vec!["visible"]),
        abstract_observation: ObservationMap::identity(vec!["visible"]),
        actions: ActionHiding::from_hide_actions(vec!["ping"], vec![]),
    }
}

fn bounded_walks(graph: &FiniteGraph, max_steps: usize) -> Vec<Vec<StateId>> {
    fn rec(graph: &FiniteGraph, max_steps: usize, path: &mut Vec<StateId>, walks: &mut Vec<Vec<StateId>>) {
        walks.push(path.clone());
        if path.len() > max_steps {
            return;
        }
        let from = *path.last().expect("walks start at a state");
        for &transition_id in graph.outgoing_ids(from) {
            path.push(graph.transition(transition_id).to);
            rec(graph, max_steps, path, walks);
            path.pop();
        }
    }
    let mut walks = Vec::new();
    for &initial in graph.initial_states() {
        let mut path = vec![initial];
        rec(graph, max_steps, &mut path, &mut walks);
    }
    walks
}

#[test]
fn hidden_ping_loop_stutter_expands_one_state_abstract() {
    let concrete = FiniteGraph::new(vec![state(false, 0)], vec![0], vec![Transition::action(0, "ping", 0)]).unwrap();
    let abstract_graph = FiniteGraph::new(vec![state(false, 99)], vec![0], vec![]).unwrap();
    let spec = ping_spec();

    let report = RefinementChecker::check(&concrete, &abstract_graph, &spec);
    assert!(report.accepted, "{:#?}", report.mismatches);

    let inclusion = observation_trace_inclusion(&concrete, &abstract_graph, &spec, &[0, 0]).expect("hidden ping path");
    assert_eq!(inclusion.abstract_path, vec![0]);
    assert_eq!(inclusion.concrete_observations.len(), 2);
    assert_eq!(inclusion.abstract_observations.len(), 1);
    assert_eq!(inclusion.concrete_observations[0], inclusion.abstract_observations[0]);
    assert!(stutter_expands(&inclusion.abstract_observations, &inclusion.concrete_observations));

    for walk in bounded_walks(&concrete, 2) {
        observation_trace_inclusion(&concrete, &abstract_graph, &spec, &walk)
            .unwrap_or_else(|error| panic!("accepted refinement, walk {walk:?}: {error:?}"));
    }
}

#[test]
fn visible_send_commit_path_stutter_expands() {
    let concrete = FiniteGraph::new(
        vec![state(false, 0), state(false, 1), state(true, 1)],
        vec![0],
        vec![Transition::action(0, "cache", 1), Transition::action(1, "publish", 2)],
    )
    .unwrap();
    let abstract_graph = FiniteGraph::new(
        vec![state(false, 99), state(true, 99)],
        vec![0],
        vec![Transition::action(0, "commit", 1)],
    )
    .unwrap();
    let spec = spec(vec![0, 0, 1]);

    let report = RefinementChecker::check(&concrete, &abstract_graph, &spec);
    assert!(report.accepted, "{:#?}", report.mismatches);

    let inclusion = observation_trace_inclusion(&concrete, &abstract_graph, &spec, &[0, 1, 2]).unwrap();
    assert_eq!(inclusion.abstract_path, vec![0, 1]);
    assert_eq!(inclusion.concrete_observations.len(), 3);
    assert_eq!(inclusion.abstract_observations.len(), 2);
    assert!(stutter_expands(&inclusion.abstract_observations, &inclusion.concrete_observations));

    for walk in bounded_walks(&concrete, 2) {
        observation_trace_inclusion(&concrete, &abstract_graph, &spec, &walk)
            .unwrap_or_else(|error| panic!("accepted refinement, walk {walk:?}: {error:?}"));
    }
}

#[test]
fn hidden_step_that_changes_observation_fails_trace_inclusion() {
    let concrete =
        FiniteGraph::new(vec![state(false, 0), state(true, 0)], vec![0], vec![Transition::action(0, "cache", 1)])
            .unwrap();
    let abstract_graph = FiniteGraph::new(vec![state(false, 0), state(true, 0)], vec![0], vec![]).unwrap();
    let spec = spec(vec![0, 1]);

    let report = RefinementChecker::check(&concrete, &abstract_graph, &spec);
    assert!(report
        .mismatches
        .iter()
        .any(|mismatch| { mismatch.kind == RefinementMismatchKind::HiddenStepChangesAbstractState }));

    let error = observation_trace_inclusion(&concrete, &abstract_graph, &spec, &[0, 1])
        .expect_err("hidden step that changes the mapped state");
    assert!(matches!(
        error,
        ObservationTraceError::HiddenStepChangesAbstractState { from: 0, to: 1, mapped_from: 0, mapped_to: 1 }
    ));
}

#[test]
fn trace_inclusion_reports_empty_paths_and_missing_steps() {
    let concrete = FiniteGraph::new(vec![state(false, 0), state(false, 0)], vec![0], vec![]).unwrap();
    let abstract_graph = FiniteGraph::new(vec![state(false, 0)], vec![0], vec![]).unwrap();
    let spec = spec(vec![0, 0]);
    assert_eq!(
        observation_trace_inclusion(&concrete, &abstract_graph, &spec, &[]).unwrap_err(),
        ObservationTraceError::EmptyPath
    );
    assert_eq!(
        observation_trace_inclusion(&concrete, &abstract_graph, &spec, &[0, 1]).unwrap_err(),
        ObservationTraceError::NoConcreteStep { from: 0, to: 1 }
    );
    assert_eq!(
        observation_trace_inclusion(&concrete, &abstract_graph, &spec, &[7]).unwrap_err(),
        ObservationTraceError::ConcreteStateOutOfRange(7)
    );
}

#[test]
fn short_state_maps_are_reported() {
    let concrete = FiniteGraph::new(vec![state(false, 0), state(false, 0)], vec![0], vec![]).unwrap();
    let abstract_graph = FiniteGraph::new(vec![state(false, 0)], vec![0], vec![]).unwrap();
    let report = RefinementChecker::check(&concrete, &abstract_graph, &spec(vec![0]));
    assert_eq!(report.mismatches[0].kind, RefinementMismatchKind::StateMapLength);
    assert_eq!(report.checked_states, 2);
}

#[test]
fn trace_inclusion_reports_the_first_unmatched_step() {
    let concrete = FiniteGraph::new(
        vec![state(false, 0), state(false, 1), state(false, 2)],
        vec![0],
        vec![Transition::action(0, "cache", 1)],
    )
    .unwrap();
    let abstract_graph = FiniteGraph::new(vec![state(false, 99)], vec![0], vec![]).unwrap();
    let spec = spec(vec![0, 0, 0]);
    let error = observation_trace_inclusion(&concrete, &abstract_graph, &spec, &[0, 1, 2, 0]).unwrap_err();
    assert_eq!(error, ObservationTraceError::NoConcreteStep { from: 1, to: 2 });
}
