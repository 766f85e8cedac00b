use nmlt::fair_cycle::find_fair_cycle;
use nmlt::graph::{FiniteGraph, ModelState, Transition};
use nmlt::temporal::Fairness;

fn two_state_loop() -> FiniteGraph {
    FiniteGraph::new(
        vec![ModelState::new(), ModelState::new()],
        vec![0],
        vec![Transition::action(0, "a", 1), Transition::action(1, "b", 0)],
    )
    .unwrap()
    .stutter_closed()
}

#[test]
fn fair_cycles_take_each_required_action() {
    let graph = two_state_loop();
    let (states, transitions) = find_fair_cycle(&graph, &vec![Fairness::strong("a")], &vec![true, true]).unwrap();
    assert_eq!(states, vec![0, 1, 0]);
    assert_eq!(transitions.len(), 2);
}

#[test]
fn fair_cycles_visit_a_disabling_state_for_weak_assumptions() {
    let graph = two_state_loop();
    let (states, transitions) = find_fair_cycle(&graph, &vec![Fairness::weak("c")], &vec![true, true]).unwrap();
    assert_eq!(states, vec![0, 0]);
    assert_eq!(transitions.len(), 1);
}

#[test]
fn strong_fairness_excludes_parts_where_its_action_cannot_be_taken() {
    let graph = two_state_loop();
    assert!(find_fair_cycle(&graph, &vec![Fairness::strong("a")], &vec![true, false]).is_none());
    let (states, _) = find_fair_cycle(&graph, &vec![Fairness::strong("a")], &vec![false, true]).unwrap();
    assert_eq!(states, vec![1, 1]);
    assert!(find_fair_cycle(&graph, &vec![Fairness::weak("a")], &vec![true, false]).is_none());
}
