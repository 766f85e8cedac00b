use nmlt::graph::{ModelState, Value};
use nmlt::observation::{
    stutter_equivalent, stutter_expands, stutter_project, ActionHiding, ActionProjectionError, ObservationError,
    ObservationMap,
};

fn state(public: bool, secret: i64) -> ModelState {
    ModelState::from_pairs(vec![
        ("public".to_owned(), Value::Bool(public)),
        ("secret".to_owned(), Value::Int(secret)),
    ])
}

#[test]
fn observation_map_hides_and_renames_fields() {
    let map = ObservationMap::new(vec![("public".to_owned(), "ready".to_owned())]).unwrap();
    assert_eq!(
        map.observe(&state(true, 99)).unwrap(),
        ModelState::from_pairs(vec![("ready".to_owned(), Value::Bool(true))])
    );
}

#[test]
fn stutter_projection_collapses_only_adjacent_equal_observations() {
    let word = vec![false, false, true, true, false];
    assert_eq!(stutter_project(&word), vec![false, true, false]);
    assert!(stutter_equivalent(&word, &vec![false, true, false, false]));
}

#[test]
fn hidden_is_distinct_from_unmapped() {
    let map = ActionHiding::new(vec![
        ("cache".to_owned(), None),
        ("send".to_owned(), Some("deliver".to_owned())),
    ]);
    assert_eq!(map.get("cache"), Some(None));
    assert_eq!(map.get("send"), Some(Some("deliver")));
    assert_eq!(map.get("typo"), None);
    assert_eq!(map.project_visible(&vec!["cache", "send"]).unwrap(), vec!["deliver"]);
    assert_eq!(
        map.project_visible(&vec!["typo"]).unwrap_err(),
        ActionProjectionError { action_index: 0, action: "typo".to_owned() }
    );
}

#[test]
fn duplicate_observation_outputs_are_rejected() {
    let error = ObservationMap::new(vec![
        ("a".to_owned(), "out".to_owned()),
        ("b".to_owned(), "out".to_owned()),
    ])
    .unwrap_err();
    assert_eq!(error, ObservationError::DuplicateOutputField("out".to_owned()));
    assert_eq!(error.message(), "observation field \"out\" has more than one source");
}

#[test]
fn missing_source_and_out_of_range_states_fail_observation() {
    let map = ObservationMap::identity(vec!["public", "other"]);
    assert_eq!(
        map.observe(&state(true, 1)).unwrap_err(),
        ObservationError::MissingSourceField("other".to_owned())
    );
    let visible = ObservationMap::identity(vec!["public"]);
    assert_eq!(
        visible.project_trace(&vec![state(true, 1)], &vec![0, 4]).unwrap_err(),
        ObservationError::StateOutOfRange(4)
    );
    assert_eq!(ObservationError::StateOutOfRange(4).message(), "trace refers to missing state 4");
}

#[test]
fn stutter_expansion_requires_each_abstract_item_in_order() {
    let v = |i: i64| Value::Int(i);
    assert!(stutter_expands(&vec![v(1), v(2)], &vec![v(1), v(1), v(2)]));
    assert!(stutter_expands(&vec![v(1), v(1)], &vec![v(1), v(1), v(1)]));
    assert!(!stutter_expands(&vec![v(1), v(1)], &vec![v(1)]));
    assert!(!stutter_expands(&vec![v(1), v(2)], &vec![v(2), v(1)]));
    assert!(stutter_expands(&Vec::<Value>::new(), &Vec::new()));
}

#[test]
fn hide_actions_adapter_hides_then_renames() {
    let hiding = ActionHiding::from_hide_actions(vec!["ping"], vec![("send", "deliver")]);
    assert_eq!(hiding.get("ping"), Some(None));
    assert_eq!(hiding.get("send"), Some(Some("deliver")));
}
