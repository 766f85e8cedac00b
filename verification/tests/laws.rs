use nmlt::graph::{FiniteGraph, ModelState, Transition, Value};
use nmlt::observation::{ActionHiding, ObservationMap};
use nmlt::refinement::{RefinementChecker, RefinementSpec};
use nmlt::temporal::{Fairness, FairnessSet};

fn state(visible: bool) -> ModelState {
    ModelState::from_pairs(vec![("visible".to_owned(), Value::Bool(visible))])
}

fn graph() -> FiniteGraph {
    FiniteGraph::new(
        vec![state(false), state(true)],
        vec![0],
        vec![Transition::action(0, "go", 1), Transition::action(1, "back", 0)],
    )
    .unwrap()
}

#[test]
fn a_graph_refines_itself_under_the_identity_witness() {
    let g = graph();
    let spec = RefinementSpec {
        state_map: vec![0, 1],
        concrete_observation: ObservationMap::identity(vec!["visible"]),
        abstract_observation: ObservationMap::identity(vec!["visible"]),
        actions: ActionHiding::new(vec![
            ("go".to_owned(), Some("go".to_owned())),
            ("back".to_owned(), Some("back".to_owned())),
        ]),
    };
    let report = RefinementChecker::check(&g, &g, &spec);
    assert!(report.accepted, "{:?}", report.mismatches);
}

#[test]
fn fairness_sets_ignore_order_and_repeats() {
    let a = FairnessSet::new(vec![Fairness::weak("b"), Fairness::strong("a"), Fairness::weak("a")]);
    let b = FairnessSet::new(vec![Fairness::weak("a"), Fairness::weak("b"), Fairness::strong("a"), Fairness::weak("b")]);
    assert_eq!(a, b);
}

#[test]
fn stutter_closure_is_idempotent_on_an_example() {
    let once = graph().stutter_closed();
    assert_eq!(once.transitions().len(), 4);
    let twice = once.stutter_closed();
    assert_eq!(twice, once);
}
