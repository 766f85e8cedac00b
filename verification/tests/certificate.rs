use nmlt::certificate::{CertificateIssue, CoinductiveCertificate, CoinductiveCertificateChecker, StatePair};
use nmlt::graph::{FiniteGraph, ModelState, Transition, Value};
use nmlt::observation::{ActionHiding, ObservationMap};
use nmlt::refinement::RefinementSpec;
use nmlt::sha256::{hex, sha256};

fn state(visible: bool) -> ModelState {
    ModelState::from_pairs(vec![("visible".to_owned(), Value::Bool(visible))])
}

fn fixture() -> (FiniteGraph, FiniteGraph, RefinementSpec) {
    let concrete = FiniteGraph::new(
        vec![state(false), state(false), state(true)],
        vec![0],
        vec![Transition::action(0, "cache", 1), Transition::action(1, "publish", 2)],
    )
    .unwrap();
    let abstract_graph =
        FiniteGraph::new(vec![state(false), state(true)], vec![0], vec![Transition::action(0, "commit", 1)]).unwrap();
    let spec = RefinementSpec {
        state_map: vec![0, 0, 1],
        concrete_observation: ObservationMap::identity(vec!["visible"]),
        abstract_observation: ObservationMap::identity(vec!["visible"]),
        actions: ActionHiding::new(vec![
            ("cache".to_owned(), None),
            ("publish".to_owned(), Some("commit".to_owned())),
        ]),
    };
    (concrete, abstract_graph, spec)
}

fn pair(concrete: usize, abstract_state: usize) -> StatePair {
    StatePair { concrete, abstract_state }
}

fn accepted(subject: [u8; 32]) -> CoinductiveCertificate {
    CoinductiveCertificate::canonical(subject, vec![pair(0, 0)], vec![pair(0, 0), pair(1, 0), pair(2, 1)])
}

#[test]
fn local_sha256_matches_the_standard_vector() {
    assert_eq!(
        sha256(b"abc"),
        [
            0xba, 0x78, 0x16, 0xbf, 0x8f, 0x01, 0xcf, 0xea, 0x41, 0x41, 0x40, 0xde, 0x5d, 0xae, 0x22, 0x23, 0xb0, 0x03,
            0x61, 0xa3, 0x96, 0x17, 0x7a, 0x9c, 0xb4, 0x10, 0xff, 0x61, 0xf2, 0x00, 0x15, 0xad,
        ]
    );
}

#[test]
fn sha256_matches_empty_and_two_block_vectors() {
    assert_eq!(hex(&sha256(b"")), "e3b0c44298fc1c149afbf4c8996fb92427ae41e4649b934ca495991b7852b855");
    assert_eq!(
        hex(&sha256(b"abcdbcdecdefdefgefghfghighijhijkijkljklmklmnlmnomnopnopq")),
        "248d6a61d20638b8e5c026930c3e6039a33ce45964ff2167f6ecedd419db06c1"
    );
}

#[test]
fn accepts_a_closed_identity_bound_postfixed_relation() {
    let (concrete, abstract_graph, spec) = fixture();
    let certificate = accepted([7; 32]);
    let report = CoinductiveCertificateChecker::check([7; 32], &concrete, &abstract_graph, &spec, &certificate);
    assert!(report.accepted, "{:#?}", report.issues);
    assert_eq!(report.checked_pairs, 3);
}

#[test]
fn stale_forged_and_open_certificates_fail_closed() {
    let (concrete, abstract_graph, spec) = fixture();
    let certificate = accepted([7; 32]);
    assert!(matches!(
        CoinductiveCertificateChecker::check([8; 32], &concrete, &abstract_graph, &spec, &certificate)
            .issues
            .as_slice(),
        [CertificateIssue::StaleSubject]
    ));

    let mut forged = certificate.clone();
    forged.claimed_id[0] ^= 1;
    assert!(CoinductiveCertificateChecker::check([7; 32], &concrete, &abstract_graph, &spec, &forged)
        .issues
        .contains(&CertificateIssue::IdentityMismatch));

    let open = CoinductiveCertificate::canonical([7; 32], vec![pair(0, 0)], vec![pair(0, 0)]);
    assert!(CoinductiveCertificateChecker::check([7; 32], &concrete, &abstract_graph, &spec, &open)
        .issues
        .iter()
        .any(|issue| matches!(issue, CertificateIssue::OpenStep(..))));
}

#[test]
fn canonical_certificates_sort_and_deduplicate() {
    let certificate =
        CoinductiveCertificate::canonical([1; 32], vec![pair(2, 1), pair(0, 0), pair(2, 1)], vec![pair(1, 0), pair(0, 0)]);
    assert_eq!(certificate.roots, vec![pair(0, 0), pair(2, 1)]);
    assert_eq!(certificate.relation, vec![pair(0, 0), pair(1, 0)]);
    assert_eq!(certificate.claimed_id, certificate.recomputed_id());
    let reordered = CoinductiveCertificate::canonical([1; 32], vec![pair(0, 0), pair(2, 1)], vec![pair(0, 0), pair(1, 0)]);
    assert_eq!(reordered.claimed_id, certificate.claimed_id);
}

#[test]
fn missing_roots_and_out_of_range_pairs_are_reported() {
    let (concrete, abstract_graph, spec) = fixture();
    let certificate = CoinductiveCertificate::canonical([7; 32], vec![pair(0, 0)], vec![pair(5, 0)]);
    let report = CoinductiveCertificateChecker::check([7; 32], &concrete, &abstract_graph, &spec, &certificate);
    assert_eq!(
        report.issues,
        vec![CertificateIssue::RootMissing(pair(0, 0)), CertificateIssue::PairOutOfRange(pair(5, 0))]
    );
    assert!(!report.accepted);
}
