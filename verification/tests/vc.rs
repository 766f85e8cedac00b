use nmlt::vc::certificate::{check_finite_invariant_certificate, CertificateError};
use nmlt::vc::evidence::{compose_evidence, normalize_result, BackendIdentity, NormalizedClass, RawStatus, TrustedComponent};
use nmlt::vc::identity::Sha256Id;
use nmlt::vc::inductive::InductiveEngine;
use nmlt::vc::ir::{BoolExpr, FiniteSafetyVc, IrError, VerificationConfig, VerificationIdentity};
use nmlt::vc::lean::export_lean4_inductiveness;
use nmlt::vc::reachability::{ReachabilityEngine, ReachabilityLimits};
use nmlt::vc::smt::{encode_inductiveness_query, parse_smt_status, query_identity, SmtProtocolError, SmtStatus};
use nmlt::vc::test_hook::{run_model_based_tests, ModelTestPlan};

fn id(label: &str) -> Sha256Id {
    Sha256Id::digest(label.as_bytes())
}

fn backend(name: &str) -> BackendIdentity {
    BackendIdentity {
        name: name.to_owned(),
        version: "1.0.0".to_owned(),
        build_digest: id(name),
        protocol: "nmlt-engine-result/1".to_owned(),
        trusted_components: vec![TrustedComponent {
            name: "checker".to_owned(),
            version: "1.0.0".to_owned(),
            digest: id("checker"),
            role: "certificate checking".to_owned(),
        }],
    }
}

/// One bit that a transition may set and never clears; the property is `!bit`.
fn latch_vc(property: BoolExpr) -> FiniteSafetyVc {
    let config = VerificationConfig { finite_domain: true, terminal_stutter: false, assumptions: vec![] };
    FiniteSafetyVc {
        identity: VerificationIdentity { model: id("latch"), claim: id("claim"), configuration: config.identity() },
        config,
        variables: vec!["bit".to_owned()],
        initial: BoolExpr::negate(BoolExpr::current(0)),
        transition: BoolExpr::implies(BoolExpr::current(0), BoolExpr::next(0)),
        property,
    }
}

/// The same bit, which no transition changes; the property `!bit` is inductive.
fn frozen_vc() -> FiniteSafetyVc {
    let vc = latch_vc(BoolExpr::negate(BoolExpr::current(0)));
    FiniteSafetyVc { transition: BoolExpr::iff(BoolExpr::next(0), BoolExpr::current(0)), ..vc }
}

#[test]
fn sha256_identity_is_lower_case_hex_of_the_digest() {
    assert_eq!(id("").as_str(), "e3b0c44298fc1c149afbf4c8996fb92427ae41e4649b934ca495991b7852b855");
    assert_eq!(id("abc").as_str(), "ba7816bf8f01cfea414140de5dae2223b00361a396177a9cb410ff61f20015ad");
}

#[test]
fn configuration_identity_ignores_assumption_order_and_repeats() {
    let a = VerificationConfig { finite_domain: true, terminal_stutter: false, assumptions: vec!["b".to_owned(), "a".to_owned()] };
    let b = VerificationConfig {
        finite_domain: true,
        terminal_stutter: false,
        assumptions: vec!["a".to_owned(), "b".to_owned(), "a".to_owned()],
    };
    let c = VerificationConfig { finite_domain: false, terminal_stutter: false, assumptions: vec!["a".to_owned(), "b".to_owned()] };
    assert_eq!(a.identity(), b.identity());
    assert_ne!(a.identity(), c.identity());
    let canonical = "nmlt-verification-config/1\nfinite_domain=true\nterminal_stutter=false\nassumption:1:a\nassumption:1:b\n";
    assert_eq!(a.identity(), id(canonical));
}

#[test]
fn validation_reports_the_first_fault() {
    let mut vc = latch_vc(BoolExpr::negate(BoolExpr::current(0)));
    assert_eq!(vc.validate(), Ok(()));
    vc.variables = vec![];
    assert_eq!(vc.validate(), Err(IrError::EmptyVariables));
    vc.variables = (0..21).map(|i| format!("v{i}")).collect();
    assert_eq!(vc.validate(), Err(IrError::TooManyVariables(21)));
    vc.variables = vec!["x".to_owned(), "x".to_owned()];
    assert_eq!(vc.validate(), Err(IrError::DuplicateVariable("x".to_owned())));
    vc.variables = vec!["bad name".to_owned()];
    assert_eq!(vc.validate(), Err(IrError::InvalidVariable("bad name".to_owned())));
    assert_eq!(
        IrError::InvalidVariable("bad name".to_owned()).to_string(),
        "invalid variable name \"bad name\""
    );
    vc.variables = vec!["bit".to_owned()];
    vc.initial = BoolExpr::next(0);
    assert_eq!(vc.validate(), Err(IrError::NextStateInInitial));
    vc.initial = BoolExpr::current(3);
    assert_eq!(vc.validate(), Err(IrError::IndexOutOfRange { index: 3, variables: 1 }));
    assert_eq!(
        IrError::IndexOutOfRange { index: 3, variables: 1 }.to_string(),
        "expression variable index 3 is outside 0..1"
    );
    vc.initial = BoolExpr::Const(true);
    vc.property = BoolExpr::next(0);
    assert_eq!(vc.validate(), Err(IrError::NextStateInProperty));
    vc.property = BoolExpr::Const(true);
    vc.identity.configuration = id("stale");
    assert!(matches!(vc.validate(), Err(IrError::ConfigurationIdentityMismatch { .. })));
    assert!(vc.digest().is_err());
}

#[test]
fn canonical_text_of_expressions() {
    let e = BoolExpr::And(vec![
        BoolExpr::current(0),
        BoolExpr::negate(BoolExpr::next(1)),
        BoolExpr::Or(vec![]),
        BoolExpr::iff(BoolExpr::Const(true), BoolExpr::implies(BoolExpr::current(2), BoolExpr::Const(false))),
    ]);
    let mut text = String::new();
    e.write_canonical(&mut text);
    assert_eq!(text, "(and (cur 0) (not (next 1)) (or) (iff true (implies (cur 2) false)))");
}

#[test]
fn digest_is_the_identity_of_the_canonical_text() {
    let vc = latch_vc(BoolExpr::negate(BoolExpr::current(0)));
    let text = format!(
        "nmlt-vc/1\nmodel:64:{}\nclaim:64:{}\nconfiguration:64:{}\nvar:3:bit\ninitial:(not (cur 0))\ntransition:(implies (cur 0) (next 0))\nproperty:(not (cur 0))\n",
        id("latch").as_str(),
        id("claim").as_str(),
        vc.config.identity().as_str()
    );
    assert_eq!(vc.digest().unwrap(), id(&text));
    assert_eq!(vc.state_count(), 2);
}

#[test]
fn certificate_errors_name_the_first_fault() {
    let vc = frozen_vc();
    let mut certificate = InductiveEngine { identity: backend("induction") }.check(&vc).certificate.unwrap();
    assert_eq!(certificate.invariant_states, vec![0]);
    assert_eq!(check_finite_invariant_certificate(&vc, &certificate), Ok(()));
    certificate.invariant_states = vec![0, 5];
    assert_eq!(check_finite_invariant_certificate(&vc, &certificate), Err(CertificateError::StateOutOfRange(5)));
    certificate.invariant_states = vec![1, 0];
    assert_eq!(check_finite_invariant_certificate(&vc, &certificate), Err(CertificateError::StatesNotStrictlySorted));
    certificate.invariant_states = vec![];
    assert_eq!(check_finite_invariant_certificate(&vc, &certificate), Err(CertificateError::InitialStateMissing(0)));
    certificate.invariant_states = vec![0, 1];
    assert_eq!(check_finite_invariant_certificate(&vc, &certificate), Err(CertificateError::PropertyFalse(1)));
    assert_eq!(
        CertificateError::NotClosed { from: 0, to: 1 }.to_string(),
        "invariant is not transition-closed: state 0 reaches omitted state 1"
    );
    certificate.format = "other".to_owned();
    assert_eq!(
        check_finite_invariant_certificate(&vc, &certificate),
        Err(CertificateError::UnsupportedFormat("other".to_owned()))
    );
}

#[test]
fn certificate_that_omits_a_successor_is_not_closed() {
    // Initial state 0; 0 may step to 1; the property holds everywhere.
    let vc = latch_vc(BoolExpr::Const(true));
    let mut certificate = InductiveEngine { identity: backend("induction") }.check(&vc).certificate.unwrap();
    assert_eq!(certificate.invariant_states, vec![0, 1]);
    certificate.invariant_states = vec![0];
    assert_eq!(
        check_finite_invariant_certificate(&vc, &certificate),
        Err(CertificateError::NotClosed { from: 0, to: 1 })
    );
}

#[test]
fn reachability_refutes_with_a_shortest_run_and_respects_limits() {
    // The latch may set its bit, which the property forbids.
    let vc = latch_vc(BoolExpr::negate(BoolExpr::current(0)));
    let vc = FiniteSafetyVc { transition: BoolExpr::Const(true), ..vc };
    let engine = ReachabilityEngine { identity: backend("bfs"), limits: ReachabilityLimits { max_states: 4, max_depth: 4 } };
    let raw = engine.check(&vc);
    assert_eq!(raw.status, RawStatus::Refuted { witness_states: vec![0, 1] });
    assert_eq!(normalize_result(&vc, &raw).class, NormalizedClass::Refuted);

    let shallow = ReachabilityEngine { identity: backend("bfs"), limits: ReachabilityLimits { max_states: 4, max_depth: 0 } };
    assert_eq!(
        shallow.check(&vc).status,
        RawStatus::Unknown { reason: "reachable successor exists beyond depth 0".to_owned() }
    );
    let small = ReachabilityEngine { identity: backend("bfs"), limits: ReachabilityLimits { max_states: 1, max_depth: 4 } };
    assert_eq!(
        small.check(&vc).status,
        RawStatus::Unknown { reason: "reachable successor exceeds the 1-state budget".to_owned() }
    );
    let none = ReachabilityEngine { identity: backend("bfs"), limits: ReachabilityLimits { max_states: 0, max_depth: 4 } };
    assert_eq!(
        none.check(&vc).status,
        RawStatus::Unknown { reason: "initial states exceed the state budget".to_owned() }
    );
}

#[test]
fn a_forged_witness_is_rejected_with_its_reason() {
    let vc = latch_vc(BoolExpr::negate(BoolExpr::current(0)));
    let mut raw = InductiveEngine { identity: backend("induction") }.check(&vc);
    raw.certificate = None;
    raw.status = RawStatus::Refuted { witness_states: vec![1] };
    let normalized = normalize_result(&vc, &raw);
    assert_eq!(normalized.class, NormalizedClass::Unknown);
    assert_eq!(normalized.reason, "refutation witness rejected: first witness state is not initial");
    raw.status = RawStatus::Refuted { witness_states: vec![0, 7] };
    assert_eq!(
        normalize_result(&vc, &raw).reason,
        "refutation witness rejected: witness contains an out-of-range state"
    );
}

#[test]
fn composition_of_nothing_is_unknown_and_components_are_merged() {
    let vc = frozen_vc();
    let empty = compose_evidence(&vc, vec![]).unwrap();
    assert_eq!(empty.class, NormalizedClass::Unknown);
    assert_eq!(empty.disagreements, vec!["no engine result was supplied".to_owned()]);

    let mut other = backend("second");
    other.trusted_components.push(TrustedComponent {
        name: "another".to_owned(),
        version: "2".to_owned(),
        digest: id("another"),
        role: "search".to_owned(),
    });
    let a = InductiveEngine { identity: backend("first") }.check(&vc);
    let b = InductiveEngine { identity: other }.check(&vc);
    let composed = compose_evidence(&vc, vec![a, b]).unwrap();
    assert_eq!(composed.class, NormalizedClass::Proved);
    let names: Vec<&str> = composed.trusted_components.iter().map(|c| c.name.as_str()).collect();
    assert_eq!(names, vec!["another", "checker"]);
}

#[test]
fn an_unknown_result_is_listed_with_its_engine() {
    let vc = frozen_vc();
    let mut raw = InductiveEngine { identity: backend("first") }.check(&vc);
    raw.method = "  ".to_owned();
    let composed = compose_evidence(&vc, vec![raw]).unwrap();
    assert_eq!(composed.class, NormalizedClass::Unknown);
    assert_eq!(composed.disagreements, vec!["first: verification method must be exact".to_owned()]);
}

#[test]
fn smt_status_lines_are_trimmed_and_must_be_unique() {
    assert_eq!(parse_smt_status(b"  sat \r\n(model)\n"), Ok(SmtStatus::Sat));
    assert_eq!(parse_smt_status(b"unsat"), Ok(SmtStatus::Unsat));
    assert_eq!(parse_smt_status(b""), Err(SmtProtocolError::MissingStatus));
    assert_eq!(parse_smt_status(b"satisfiable\n"), Err(SmtProtocolError::MissingStatus));
    assert_eq!(parse_smt_status(b"sat\nsat\n"), Err(SmtProtocolError::AmbiguousStatus));
    assert_eq!(SmtProtocolError::AmbiguousStatus.to_string(), "SMT response contained multiple status lines");
}

#[test]
fn smt_query_declares_both_states_of_each_variable() {
    let vc = latch_vc(BoolExpr::negate(BoolExpr::current(0)));
    let query = encode_inductiveness_query(&vc).unwrap();
    assert!(query.contains("(declare-fun cur_bit () Bool)\n(declare-fun next_bit () Bool)\n"));
    assert!(query.contains(
        "(assert (! (or (and (not cur_bit) (not (not cur_bit))) (and (not cur_bit) (=> cur_bit next_bit) (not (not next_bit))))"
    ));
    assert_eq!(query_identity(&query), id(&query));
}

#[test]
fn lean_source_defines_the_formulas() {
    let vc = latch_vc(BoolExpr::Or(vec![BoolExpr::negate(BoolExpr::current(0)), BoolExpr::Const(false)]));
    let export = export_lean4_inductiveness(&vc, "4.30.0").unwrap();
    assert!(export.source.contains("def nmltStateCount : Nat := 2\n"));
    assert!(export.source.contains("def nmltInitial (current : Nat) : Bool := (!(Nat.testBit current 0))\n"));
    assert!(export.source.contains(
        "def nmltTransition (current next : Nat) : Bool := ((!(Nat.testBit current 0)) || Nat.testBit next 0)\n"
    ));
    assert!(export.source.contains("def nmltProperty (current : Nat) : Bool := ((!(Nat.testBit current 0)) || false)\n"));
}

#[test]
fn model_tests_find_a_reachable_violation() {
    let vc = latch_vc(BoolExpr::negate(BoolExpr::current(0)));
    let vc = FiniteSafetyVc { transition: BoolExpr::Const(true), ..vc };
    let report = run_model_based_tests(&vc, backend("model"), ModelTestPlan { seed: 1, cases: 50, max_steps: 5 });
    match &report.result.status {
        RawStatus::Refuted { witness_states } => {
            assert_eq!(witness_states[0], 0);
            assert_eq!(*witness_states.last().unwrap(), 1);
        }
        other => panic!("expected a refutation, got {other:?}"),
    }
    assert_eq!(normalize_result(&vc, &report.result).class, NormalizedClass::Refuted);
}
