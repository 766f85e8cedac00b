use nmlt::graph::{FiniteGraph, ModelState, Transition, Value};
use nmlt::temporal::{CheckOutcome, Fairness, FairnessKind, FairnessSet, TemporalChecker};

fn state(done: bool, trigger: bool) -> ModelState {
    ModelState::from_pairs(vec![
        ("done".to_owned(), Value::Bool(done)),
        ("trigger".to_owned(), Value::Bool(trigger)),
    ])
}

fn is_done(state: &ModelState) -> bool {
    state.get("done") == Some(&Value::Bool(true))
}

#[test]
fn eventuality_returns_a_deterministic_lasso() {
    let graph = FiniteGraph::new(
        vec![state(false, false), state(false, false)],
        vec![0],
        vec![Transition::action(0, "enter", 1), Transition::action(1, "idle", 1)],
    )
    .unwrap();
    let checker = TemporalChecker::new(&graph, FairnessSet::new(vec![Fairness::weak("enter")]));
    let CheckOutcome::Violated { witness, .. } = checker.eventually(is_done) else {
        panic!("expected an eventuality counterexample")
    };

    assert!(witness.is_well_formed(checker.graph()));
    assert_eq!(witness.stem_states, vec![0, 1]);
    assert_eq!(witness.loop_states, vec![1, 1]);
}

#[test]
fn always_returns_an_initial_zero_step_stutter_lasso() {
    let graph = FiniteGraph::new(vec![state(false, true)], vec![0], vec![Transition::action(0, "retry", 0)]).unwrap();
    let checker = TemporalChecker::new(&graph, FairnessSet::default());
    let CheckOutcome::Violated { trigger, witness, .. } =
        checker.always(|state| state.get("trigger") == Some(&Value::Bool(false)))
    else {
        panic!("initial safety violation must produce a temporal lasso")
    };
    assert_eq!(trigger, Some(0));
    assert_eq!(witness.stem_states, vec![0]);
    assert!(witness.stem_transitions.is_empty());
    assert_eq!(witness.loop_states, vec![0, 0]);
    assert_eq!(witness.loop_actions(checker.graph()), vec![None]);
    assert!(witness.is_well_formed(checker.graph()));
}

#[test]
fn weak_fairness_excludes_a_continuously_enabled_idle_loop() {
    let graph = FiniteGraph::new(
        vec![state(false, false), state(true, false)],
        vec![0],
        vec![Transition::action(0, "idle", 0), Transition::action(0, "work", 1)],
    )
    .unwrap();

    assert!(!TemporalChecker::new(&graph, FairnessSet::default()).eventually(is_done).holds());
    assert!(TemporalChecker::new(&graph, FairnessSet::new(vec![Fairness::weak("work")])).eventually(is_done).holds());
}

#[test]
fn strong_and_weak_fairness_are_distinct() {
    let graph = FiniteGraph::new(
        vec![state(false, false), state(false, false), state(true, false)],
        vec![0],
        vec![Transition::action(0, "tick", 1), Transition::action(1, "tick", 0), Transition::action(0, "work", 2)],
    )
    .unwrap();

    let weak = TemporalChecker::new(&graph, FairnessSet::new(vec![Fairness::weak("tick"), Fairness::weak("work")]));
    let strong =
        TemporalChecker::new(&graph, FairnessSet::new(vec![Fairness::weak("tick"), Fairness::strong("work")]));
    assert!(!weak.eventually(is_done).holds());
    assert!(strong.eventually(is_done).holds());
}

#[test]
fn fair_occurrence_can_still_witness_a_violation() {
    let graph = FiniteGraph::new(vec![state(false, false)], vec![0], vec![Transition::action(0, "work", 0)]).unwrap();
    let checker = TemporalChecker::new(&graph, FairnessSet::new(vec![Fairness::strong("work")]));
    let CheckOutcome::Violated { witness, .. } = checker.eventually(is_done) else {
        panic!("the fair work loop never reaches the goal")
    };
    assert_eq!(witness.loop_actions(checker.graph()), vec![Some("work")]);
}

#[test]
fn leads_to_reports_the_trigger_and_avoiding_suffix() {
    let graph = FiniteGraph::new(
        vec![state(false, false), state(false, true), state(false, true)],
        vec![0],
        vec![Transition::action(0, "request", 1), Transition::action(1, "lose", 2), Transition::action(2, "idle", 2)],
    )
    .unwrap();
    let checker = TemporalChecker::new(&graph, FairnessSet::new(vec![Fairness::weak("lose")]));
    let outcome = checker.leads_to(|state| state.get("trigger") == Some(&Value::Bool(true)), is_done);
    let CheckOutcome::Violated { trigger, witness, .. } = outcome else {
        panic!("expected leads-to violation")
    };
    assert_eq!(trigger, Some(1));
    assert_eq!(witness.stem_states, vec![0, 1, 2]);
    assert!(witness.is_well_formed(checker.graph()));
}

#[test]
fn progress_requires_fairness_when_identity_stutter_is_available() {
    let graph = FiniteGraph::new(
        vec![state(false, false), state(true, false)],
        vec![0],
        vec![Transition::action(0, "finish", 1)],
    )
    .unwrap();
    assert!(!TemporalChecker::new(&graph, FairnessSet::default()).eventually(is_done).holds());
    assert!(TemporalChecker::new(&graph, FairnessSet::new(vec![Fairness::weak("finish")])).eventually(is_done).holds());
}

#[test]
fn fairness_sets_are_sorted_and_deduplicated() {
    let set = FairnessSet::new(vec![Fairness::strong("b"), Fairness::weak("a"), Fairness::strong("b"), Fairness::weak("b")]);
    let kinds: Vec<(String, FairnessKind)> =
        set.assumptions().iter().map(|f| (f.action.clone(), f.kind)).collect();
    assert_eq!(
        kinds,
        vec![
            ("a".to_owned(), FairnessKind::Weak),
            ("b".to_owned(), FairnessKind::Weak),
            ("b".to_owned(), FairnessKind::Strong),
        ]
    );
}

#[test]
fn always_holds_and_counts_reachable_states() {
    let graph = FiniteGraph::new(
        vec![state(false, false), state(false, false), state(true, true)],
        vec![0],
        vec![Transition::action(0, "go", 1)],
    )
    .unwrap();
    let checker = TemporalChecker::new(&graph, FairnessSet::default());
    assert_eq!(checker.always(|s| !is_done(s)), CheckOutcome::Holds { explored_states: 2 });
}

#[test]
fn eventuality_and_safety_stems_take_the_shortest_route() {
    let graph = FiniteGraph::new(
        vec![state(false, false), state(false, false), state(false, false), state(false, true)],
        vec![0],
        vec![
            Transition::action(0, "long", 1),
            Transition::action(1, "long", 2),
            Transition::action(2, "long", 3),
            Transition::action(0, "short", 3),
            Transition::action(3, "idle", 3),
        ],
    )
    .unwrap();
    let checker = TemporalChecker::new(&graph, FairnessSet::new(vec![Fairness::weak("long")]));
    let CheckOutcome::Violated { trigger, witness, .. } =
        checker.always(|state| state.get("trigger") == Some(&Value::Bool(false)))
    else {
        panic!("the trigger state is reachable")
    };
    assert_eq!(trigger, Some(3));
    assert_eq!(witness.stem_states, vec![0, 3]);
}
