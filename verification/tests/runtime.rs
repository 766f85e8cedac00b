use nmlt::graph::{FiniteGraph, ModelState, Transition, Value};
use nmlt::runtime::{
    JournalAction, JournalRecord, JournalValue, RuntimeIssueKind, RuntimeMapping, RuntimeTraceAdapter,
    RuntimeUncertaintyKind, RuntimeVerdict,
};
use nmlt::smap::StrMap;

fn text(s: &str) -> Value {
    Value::Text(s.to_owned())
}

fn state(phase: &str, count: i64) -> ModelState {
    ModelState::from_pairs(vec![("phase".to_owned(), text(phase)), ("count".to_owned(), Value::Int(count))])
}

fn record(sequence: u64, action: JournalAction, phase: Option<JournalValue>, count: Option<JournalValue>) -> JournalRecord {
    let mut observations = StrMap::new();
    if let Some(phase) = phase {
        observations.insert("phase".to_owned(), phase);
    }
    if let Some(count) = count {
        observations.insert("count".to_owned(), count);
    }
    JournalRecord { sequence, action, observations }
}

fn fixture() -> (FiniteGraph, RuntimeMapping) {
    (
        FiniteGraph::new(vec![state("idle", 0), state("sent", 1)], vec![0], vec![Transition::action(0, "send", 1)]).unwrap(),
        RuntimeMapping::identity(vec!["phase", "count"]),
    )
}

fn known(v: Value) -> Option<JournalValue> {
    Some(JournalValue::known(v))
}

#[test]
fn accepts_a_fully_observed_matching_trace() {
    let (graph, mapping) = fixture();
    let journal = vec![
        record(10, JournalAction::Initial, known(text("idle")), known(Value::Int(0))),
        record(11, JournalAction::Action("send".to_owned()), known(text("sent")), known(Value::Int(1))),
    ];
    let report = RuntimeTraceAdapter::new(&graph, &mapping).check(&journal);
    assert_eq!(report.verdict, RuntimeVerdict::Accepted);
    assert_eq!(report.candidate_states, vec![vec![0], vec![1]]);
}

#[test]
fn preserves_unknown_for_missing_or_unknown_data() {
    let (graph, mapping) = fixture();
    let journal = vec![
        record(0, JournalAction::Initial, known(text("idle")), None),
        record(1, JournalAction::Unknown, Some(JournalValue::Unknown), known(Value::Int(1))),
    ];
    let report = RuntimeTraceAdapter::new(&graph, &mapping).check(&journal);
    assert_eq!(report.verdict, RuntimeVerdict::Unknown);
    assert!(report.issue.is_none());
    assert_eq!(report.uncertainties.len(), 3);
}

#[test]
fn known_contradiction_rejects_even_with_other_unknown_fields() {
    let (graph, mapping) = fixture();
    let journal = vec![
        record(0, JournalAction::Initial, known(text("idle")), None),
        record(1, JournalAction::Action("send".to_owned()), known(text("idle")), None),
    ];
    let report = RuntimeTraceAdapter::new(&graph, &mapping).check(&journal);
    assert_eq!(report.verdict, RuntimeVerdict::Rejected);
    let issue = report.issue.unwrap();
    assert_eq!(issue.kind, RuntimeIssueKind::NoMatchingTransition);
    assert_eq!(issue.record_index, Some(1));
    assert_eq!(issue.candidates_before, vec![0]);
}

#[test]
fn sequence_gap_is_localized() {
    let (graph, mapping) = fixture();
    let journal = vec![
        record(20, JournalAction::Initial, known(text("idle")), known(Value::Int(0))),
        record(22, JournalAction::Action("send".to_owned()), known(text("sent")), known(Value::Int(1))),
    ];
    let report = RuntimeTraceAdapter::new(&graph, &mapping).check(&journal);
    assert_eq!(report.verdict, RuntimeVerdict::Rejected);
    assert_eq!(report.issue.unwrap().kind, RuntimeIssueKind::NonConsecutiveSequence);
}

#[test]
fn maximum_sequence_has_no_wrapping_or_saturating_successor() {
    let (graph, mapping) = fixture();
    let report = RuntimeTraceAdapter::new(&graph, &mapping).check(&[
        record(u64::MAX, JournalAction::Initial, known(text("idle")), known(Value::Int(0))),
        record(u64::MAX, JournalAction::Action("send".to_owned()), known(text("sent")), known(Value::Int(1))),
    ]);
    assert_eq!(report.verdict, RuntimeVerdict::Rejected);
    let issue = report.issue.expect("overflowing sequence is localized");
    assert_eq!(issue.kind, RuntimeIssueKind::NonConsecutiveSequence);
    assert_eq!(issue.record_index, Some(1));
    assert!(issue.message.contains("u64::MAX"));
}

#[test]
fn explicit_identity_stutter_matches_only_temporal_closure() {
    let (_graph, mapping) = fixture();
    let journal = vec![
        record(0, JournalAction::Initial, known(text("sent")), known(Value::Int(1))),
        record(1, JournalAction::IdentityStutter, known(text("sent")), known(Value::Int(1))),
    ];
    let terminal = FiniteGraph::new(vec![state("sent", 1)], vec![0], vec![]).unwrap();
    let report = RuntimeTraceAdapter::new(&terminal, &mapping).check(&journal);
    assert_eq!(report.verdict, RuntimeVerdict::Accepted);
}

#[test]
fn empty_journal_is_rejected() {
    let (graph, mapping) = fixture();
    let report = RuntimeTraceAdapter::new(&graph, &mapping).check(&[]);
    assert_eq!(report.verdict, RuntimeVerdict::Rejected);
    let issue = report.issue.unwrap();
    assert_eq!(issue.kind, RuntimeIssueKind::EmptyJournal);
    assert_eq!(issue.message, "a runtime journal must contain an initial snapshot");
}

#[test]
fn mapping_to_an_absent_model_field_is_rejected() {
    let (graph, _) = fixture();
    let mapping = RuntimeMapping::new(vec![("phase", "phase"), ("zeta", "z")]);
    let report = RuntimeTraceAdapter::new(&graph, &mapping)
        .check(&[record(0, JournalAction::Initial, known(text("idle")), None)]);
    let issue = report.issue.unwrap();
    assert_eq!(issue.kind, RuntimeIssueKind::MappingFieldMissing);
    assert_eq!(issue.message, "runtime mapping requires model field \"zeta\", missing at state 0");
}

#[test]
fn first_record_must_be_initial() {
    let (graph, mapping) = fixture();
    let report = RuntimeTraceAdapter::new(&graph, &mapping)
        .check(&[record(5, JournalAction::Unknown, known(text("idle")), known(Value::Int(0)))]);
    let issue = report.issue.unwrap();
    assert_eq!(issue.kind, RuntimeIssueKind::FirstRecordIsNotInitial);
    assert_eq!(issue.record_index, Some(0));
    assert_eq!(issue.sequence, Some(5));
}

#[test]
fn unmatched_initial_observation_reports_initial_states() {
    let (graph, mapping) = fixture();
    let report = RuntimeTraceAdapter::new(&graph, &mapping)
        .check(&[record(0, JournalAction::Initial, known(text("sent")), None)]);
    assert_eq!(report.verdict, RuntimeVerdict::Rejected);
    assert_eq!(report.candidate_states, vec![Vec::<usize>::new()]);
    let issue = report.issue.unwrap();
    assert_eq!(issue.kind, RuntimeIssueKind::NoMatchingInitialState);
    assert_eq!(issue.candidates_before, vec![0]);
    assert_eq!(report.uncertainties.len(), 1);
}

#[test]
fn repeated_initial_marker_is_rejected() {
    let (graph, mapping) = fixture();
    let report = RuntimeTraceAdapter::new(&graph, &mapping).check(&[
        record(0, JournalAction::Initial, known(text("idle")), known(Value::Int(0))),
        record(1, JournalAction::Initial, known(text("idle")), known(Value::Int(0))),
    ]);
    let issue = report.issue.unwrap();
    assert_eq!(issue.kind, RuntimeIssueKind::UnexpectedInitialMarker);
    assert_eq!(report.candidate_states, vec![vec![0]]);
}

#[test]
fn messages_name_the_record_and_candidates() {
    let (graph, mapping) = fixture();
    let gap = RuntimeTraceAdapter::new(&graph, &mapping).check(&[
        record(20, JournalAction::Initial, known(text("idle")), known(Value::Int(0))),
        record(22, JournalAction::Action("send".to_owned()), known(text("sent")), known(Value::Int(1))),
    ]);
    assert_eq!(gap.issue.unwrap().message, "record 1 has sequence 22, expected 21 for exact-step conformance");
    let contradiction = RuntimeTraceAdapter::new(&graph, &mapping).check(&[
        record(0, JournalAction::Initial, known(text("idle")), None),
        record(1, JournalAction::Action("send".to_owned()), known(text("idle")), None),
    ]);
    assert_eq!(
        contradiction.issue.unwrap().message,
        "record 1 action/observations match no transition from candidate states {0}"
    );
}

#[test]
fn uncertainties_are_ordered_by_record_kind_and_field() {
    let (graph, mapping) = fixture();
    let report = RuntimeTraceAdapter::new(&graph, &mapping).check(&[
        record(0, JournalAction::Initial, known(text("idle")), None),
        record(1, JournalAction::Unknown, Some(JournalValue::Unknown), None),
    ]);
    let kinds: Vec<(usize, RuntimeUncertaintyKind, Option<String>)> =
        report.uncertainties.iter().map(|u| (u.record_index, u.kind, u.field.clone())).collect();
    assert_eq!(
        kinds,
        vec![
            (0, RuntimeUncertaintyKind::MissingObservation, Some("count".to_owned())),
            (1, RuntimeUncertaintyKind::MissingObservation, Some("count".to_owned())),
            (1, RuntimeUncertaintyKind::UnknownObservation, Some("phase".to_owned())),
            (1, RuntimeUncertaintyKind::UnknownAction, None),
        ]
    );
}
