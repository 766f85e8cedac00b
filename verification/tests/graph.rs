use nmlt::graph::{FiniteGraph, GraphError, ModelState, Transition, TransitionKind};

fn empty_state() -> ModelState {
    ModelState::new()
}

#[test]
fn canonicalizes_transitions_and_initial_states() {
    let graph = FiniteGraph::new(
        vec![empty_state(), empty_state()],
        vec![1, 0, 1],
        vec![
            Transition::action(1, "z", 0),
            Transition::action(0, "a", 1),
            Transition::action(0, "a", 1),
        ],
    )
    .unwrap();

    assert_eq!(graph.initial_states(), &vec![0, 1]);
    assert_eq!(graph.transitions().len(), 2);
    assert_eq!(graph.transition(0), &Transition::action(0, "a", 1));
}

#[test]
fn stutter_closure_adds_identity_at_every_state() {
    let graph = FiniteGraph::new(
        vec![empty_state(), empty_state()],
        vec![0],
        vec![Transition::action(0, "go", 1)],
    )
    .unwrap()
    .stutter_closed();

    assert_eq!(graph.transitions().len(), 3);
    assert!(graph.transitions().contains(&Transition::identity_stutter(0)));
    assert!(graph.transitions().contains(&Transition::identity_stutter(1)));
}

#[test]
fn rejects_non_identity_stutter() {
    let error = FiniteGraph::new(
        vec![empty_state(), empty_state()],
        vec![0],
        vec![Transition { from: 0, to: 1, kind: TransitionKind::IdentityStutter }],
    )
    .unwrap_err();

    assert!(matches!(error, GraphError::InvalidIdentityStutter { .. }));
}

#[test]
fn empty_graphs_and_missing_initial_states_are_rejected() {
    assert_eq!(FiniteGraph::new(vec![], vec![0], vec![]).unwrap_err(), GraphError::EmptyStateSpace);
    assert_eq!(FiniteGraph::new(vec![empty_state()], vec![], vec![]).unwrap_err(), GraphError::NoInitialStates);
    assert!(matches!(
        FiniteGraph::new(vec![empty_state()], vec![3], vec![]).unwrap_err(),
        GraphError::StateOutOfRange { state: 3, state_count: 1, .. }
    ));
}

#[test]
fn reachable_states_and_shortest_paths_follow_transitions() {
    let graph = FiniteGraph::new(
        vec![empty_state(), empty_state(), empty_state(), empty_state()],
        vec![0],
        vec![Transition::action(0, "a", 1), Transition::action(1, "b", 2), Transition::action(0, "c", 2)],
    )
    .unwrap();
    assert_eq!(graph.reachable_states(), vec![0, 1, 2]);
    let all = vec![true; 4];
    let (states, transitions) = graph.shortest_path(&vec![0], 2, &all).unwrap();
    assert_eq!(states, vec![0, 2]);
    assert_eq!(transitions.len(), 1);
    assert!(graph.shortest_path(&vec![0], 3, &all).is_none());
    assert!(graph.action_enabled(0, "c"));
    assert!(!graph.action_enabled(1, "c"));
}

#[test]
fn shortest_paths_prefer_the_nearest_start_within_the_allowed_states() {
    let graph = FiniteGraph::new(
        vec![empty_state(), empty_state(), empty_state(), empty_state(), empty_state()],
        vec![0],
        vec![
            Transition::action(0, "a", 1),
            Transition::action(1, "b", 2),
            Transition::action(2, "c", 4),
            Transition::action(3, "d", 4),
        ],
    )
    .unwrap();
    let all = vec![true; 5];
    let (states, transitions) = graph.shortest_path(&vec![0, 3], 4, &all).unwrap();
    assert_eq!(states, vec![3, 4]);
    assert_eq!(transitions.len(), 1);
    let without_three = vec![true, true, true, false, true];
    let (states, transitions) = graph.shortest_path(&vec![0, 3], 4, &without_three).unwrap();
    assert_eq!(states, vec![0, 1, 2, 4]);
    assert_eq!(transitions.len(), 3);
}
