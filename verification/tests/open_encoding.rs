use nmlt::open::ActionPolarity;
use nmlt::open_encoding::{
    CanonicalActionEncoding, CanonicalCongruenceEncoding, CanonicalConnectionEncoding,
    CanonicalEncodingValidator, CanonicalGradeEncoding, CanonicalRefinementEncoding,
    CanonicalResourceEncoding, CanonicalSide, CanonicalSystemEncoding, CanonicalValidationIssue,
    KernelVerdict,
};

fn strings(items: &[&str]) -> Vec<String> {
    items.iter().map(|s| s.to_string()).collect()
}

fn resources(cost: u64, guarantees: &[&str]) -> CanonicalResourceEncoding {
    CanonicalResourceEncoding {
        required: strings(&["token"]),
        consumed: vec![],
        transferred: vec![],
        received: vec![],
        grade: CanonicalGradeEncoding {
            cost_ticks: cost,
            privacy_micro_epsilon: 0,
            energy_microjoules: 0,
            uncertainty_family: None,
            uncertainty_profile: None,
            uncertainty_upper_bound_ppm: 0,
        },
        rely: vec![],
        guarantees: strings(guarantees),
    }
}

fn action(name: &str, polarity: ActionPolarity, guarantee: Vec<bool>, cost: u64) -> CanonicalActionEncoding {
    CanonicalActionEncoding {
        name: name.to_string(),
        polarity,
        channel: Some("link".to_string()),
        assumption: vec![true, true],
        guarantee,
        resources: resources(cost, &["audit"]),
    }
}

fn system(states: usize, owned: &[&str], actions: Vec<CanonicalActionEncoding>) -> CanonicalSystemEncoding {
    CanonicalSystemEncoding { state_count: states, owned_capabilities: strings(owned), actions }
}

fn edge(left: usize, right: usize) -> CanonicalConnectionEncoding {
    CanonicalConnectionEncoding { left_action: left, right_action: right, composite_action: "link".to_string() }
}

fn fixture() -> CanonicalCongruenceEncoding {
    CanonicalCongruenceEncoding {
        payload_name: "Msg".to_string(),
        payload_variants: strings(&["a", "b"]),
        concrete_left: system(
            2,
            &["left-cap"],
            vec![
                action("send", ActionPolarity::Output, vec![true, false], 1),
                action("tick", ActionPolarity::Internal, vec![false, false], 1),
            ],
        ),
        abstract_left: system(
            1,
            &["left-cap"],
            vec![
                action("send", ActionPolarity::Output, vec![true, true], 2),
                action("tick", ActionPolarity::Internal, vec![true, true], 2),
            ],
        ),
        concrete_right: system(1, &[], vec![action("recv", ActionPolarity::Input, vec![true, true], 1)]),
        abstract_right: system(1, &[], vec![action("recv", ActionPolarity::Input, vec![true, true], 1)]),
        left_refinement: CanonicalRefinementEncoding { state_map: vec![0, 0], action_map: vec![0, 1] },
        right_refinement: CanonicalRefinementEncoding { state_map: vec![0], action_map: vec![0] },
        concrete_wiring: vec![edge(0, 0)],
        abstract_wiring: vec![edge(0, 0)],
    }
}

#[test]
fn canonical_fixture_is_accepted_with_an_accepting_kernel() {
    let report = CanonicalEncodingValidator::check(&fixture(), KernelVerdict::Accepted);
    assert!(report.accepted);
    assert!(report.issues.is_empty());
}

#[test]
fn canonical_certificate_validator_fails_closed_after_mutation() {
    let mut encoding = fixture();
    encoding.left_refinement.action_map[1] = encoding.left_refinement.action_map[0];
    let validation = CanonicalEncodingValidator::check(&encoding, KernelVerdict::Accepted);
    assert!(!validation.accepted);
    assert!(validation.issues.iter().any(|issue| matches!(
        issue,
        CanonicalValidationIssue::ActionMapNotInjective { side: CanonicalSide::Left, .. }
    )));
    assert_eq!(
        validation.issues,
        vec![
            CanonicalValidationIssue::ActionMapNotInjective { side: CanonicalSide::Left, target: 0 },
            CanonicalValidationIssue::ActionMapNotSurjective { side: CanonicalSide::Left, target: 1 },
            CanonicalValidationIssue::ActionIncompatible { side: CanonicalSide::Left, action: "tick".to_string() },
        ]
    );
}

#[test]
fn canonical_validator_reports_each_kernel_verdict() {
    for (verdict, issue) in [
        (KernelVerdict::CapacityExceeded, CanonicalValidationIssue::ExecutionKernelCapacityExceeded),
        (KernelVerdict::ReadbackMismatch, CanonicalValidationIssue::ExecutionKernelReadbackMismatch),
        (KernelVerdict::Rejected, CanonicalValidationIssue::ExecutionKernelRejected),
    ] {
        let report = CanonicalEncodingValidator::check(&fixture(), verdict);
        assert!(!report.accepted);
        assert_eq!(report.issues, vec![issue]);
    }
}

#[test]
fn payload_identity_and_variants_are_checked() {
    let mut encoding = fixture();
    encoding.payload_name = String::new();
    encoding.payload_variants = strings(&["a", "a"]);
    let report = CanonicalEncodingValidator::check(&encoding, KernelVerdict::Accepted);
    assert_eq!(
        report.issues,
        vec![
            CanonicalValidationIssue::EmptyPayloadIdentity,
            CanonicalValidationIssue::DuplicatePayloadVariant("a".to_string()),
        ]
    );
}

#[test]
fn state_maps_must_be_total_in_range_and_onto() {
    let mut encoding = fixture();
    encoding.right_refinement.state_map = vec![3];
    encoding.abstract_right.state_count = 2;
    let report = CanonicalEncodingValidator::check(&encoding, KernelVerdict::Accepted);
    assert_eq!(
        report.issues,
        vec![
            CanonicalValidationIssue::StateMapOutOfRange { side: CanonicalSide::Right, target: 3 },
            CanonicalValidationIssue::StateMapNotSurjective { side: CanonicalSide::Right, target: 0 },
            CanonicalValidationIssue::StateMapNotSurjective { side: CanonicalSide::Right, target: 1 },
        ]
    );
    let mut encoding = fixture();
    encoding.left_refinement.state_map = vec![0];
    let report = CanonicalEncodingValidator::check(&encoding, KernelVerdict::Accepted);
    assert_eq!(
        report.issues,
        vec![CanonicalValidationIssue::StateMapLengthMismatch { side: CanonicalSide::Left }]
    );
}

#[test]
fn action_maps_must_be_total_and_in_range() {
    let mut encoding = fixture();
    encoding.right_refinement.action_map = vec![0, 5];
    let report = CanonicalEncodingValidator::check(&encoding, KernelVerdict::Accepted);
    assert_eq!(
        report.issues,
        vec![
            CanonicalValidationIssue::ActionMapLengthMismatch { side: CanonicalSide::Right },
            CanonicalValidationIssue::ActionMapOutOfRange { side: CanonicalSide::Right, target: 5 },
        ]
    );
}

#[test]
fn incompatible_actions_and_widened_authority_are_rejected() {
    let mut encoding = fixture();
    encoding.concrete_right.actions[0].resources.grade.cost_ticks = 2;
    encoding.concrete_left.owned_capabilities.push("extra".to_string());
    let report = CanonicalEncodingValidator::check(&encoding, KernelVerdict::Accepted);
    assert_eq!(
        report.issues,
        vec![
            CanonicalValidationIssue::AuthorityWidened { side: CanonicalSide::Left, capability: "extra".to_string() },
            CanonicalValidationIssue::ActionIncompatible { side: CanonicalSide::Right, action: "recv".to_string() },
        ]
    );
    let mut encoding = fixture();
    encoding.concrete_left.actions[0].resources.guarantees.clear();
    let report = CanonicalEncodingValidator::check(&encoding, KernelVerdict::Accepted);
    assert_eq!(
        report.issues,
        vec![CanonicalValidationIssue::ActionIncompatible { side: CanonicalSide::Left, action: "send".to_string() }]
    );
    let mut encoding = fixture();
    encoding.concrete_left.actions[0].channel = None;
    let report = CanonicalEncodingValidator::check(&encoding, KernelVerdict::Accepted);
    assert!(!report.accepted);
}

#[test]
fn wiring_must_map_onto_the_abstract_wiring_and_back() {
    let mut encoding = fixture();
    encoding.concrete_wiring = vec![edge(1, 0)];
    let report = CanonicalEncodingValidator::check(&encoding, KernelVerdict::Accepted);
    assert_eq!(report.issues, vec![CanonicalValidationIssue::WiringNotEquivalent]);
    let mut encoding = fixture();
    encoding.abstract_wiring.push(edge(1, 0));
    let report = CanonicalEncodingValidator::check(&encoding, KernelVerdict::Accepted);
    assert_eq!(report.issues, vec![CanonicalValidationIssue::WiringNotEquivalent]);
    let mut encoding = fixture();
    encoding.concrete_wiring = vec![edge(0, 7)];
    let report = CanonicalEncodingValidator::check(&encoding, KernelVerdict::Accepted);
    assert_eq!(report.issues, vec![CanonicalValidationIssue::WiringNotEquivalent]);
    let mut encoding = fixture();
    encoding.concrete_wiring = vec![];
    encoding.abstract_wiring = vec![];
    assert!(CanonicalEncodingValidator::check(&encoding, KernelVerdict::Accepted).accepted);
}
