use nmlt::open_contract::{
    FiniteContract, FiniteContractError, PayloadPredicate, PayloadPredicateError, PayloadType, PayloadTypeError,
};

#[test]
fn payload_identity_is_order_independent_but_nominal() {
    let first = PayloadType::enumeration("Message", vec!["ok", "error"]).unwrap();
    let reordered = PayloadType::enumeration("Message", vec!["error", "ok"]).unwrap();
    let renamed = PayloadType::enumeration("OtherMessage", vec!["error", "ok"]).unwrap();
    assert_eq!(first.id(), reordered.id());
    assert_ne!(first.id(), renamed.id());
    assert!(first.id().to_string().starts_with("nmlt-payload-type-v1:sha256:"));
}

#[test]
fn predicate_rejects_out_of_type_and_duplicate_values() {
    let ty = PayloadType::enumeration("Message", vec!["ok", "error"]).unwrap();
    assert!(matches!(
        PayloadPredicate::new(&ty, vec!["missing"]),
        Err(PayloadPredicateError::ValueOutsideType { .. })
    ));
    assert_eq!(PayloadPredicate::new(&ty, vec!["ok", "ok"]), Err(PayloadPredicateError::DuplicateValue("ok".to_owned())));
}

#[test]
fn predicate_inclusion_requires_exact_payload_identity() {
    let ty = PayloadType::enumeration("Message", vec!["ok", "error"]).unwrap();
    let renamed = PayloadType::enumeration("OtherMessage", vec!["ok", "error"]).unwrap();
    let narrow = PayloadPredicate::new(&ty, vec!["ok"]).unwrap();
    let wide = PayloadPredicate::all(&ty);
    let substituted = PayloadPredicate::all(&renamed);
    assert!(narrow.is_subset_of(&wide));
    assert!(!wide.is_subset_of(&narrow));
    assert!(!narrow.is_subset_of(&substituted));
}

#[test]
fn payload_type_errors_follow_input_order() {
    assert_eq!(PayloadType::enumeration("9bad", vec!["ok"]), Err(PayloadTypeError::InvalidName("9bad".to_owned())));
    assert_eq!(PayloadType::enumeration("Message", vec![]), Err(PayloadTypeError::EmptyVariants));
    assert_eq!(
        PayloadType::enumeration("Message", vec!["ok", "no space"]),
        Err(PayloadTypeError::InvalidVariant("no space".to_owned()))
    );
    assert_eq!(
        PayloadType::enumeration("Message", vec!["ok", "ok"]),
        Err(PayloadTypeError::DuplicateVariant("ok".to_owned()))
    );
    let unit = PayloadType::unit();
    assert_eq!(unit.name(), "Unit");
    assert!(unit.has_variant("unit"));
}

#[test]
fn contracts_reject_empty_and_duplicate_actions() {
    let ty = PayloadType::unit();
    let all = PayloadPredicate::all(&ty);
    assert_eq!(
        FiniteContract::new(vec![("", all.clone())], vec![]),
        Err(FiniteContractError::InvalidAction(String::new()))
    );
    assert_eq!(
        FiniteContract::new(vec![("a", all.clone()), ("a", all.clone())], vec![]),
        Err(FiniteContractError::DuplicateAssumption("a".to_owned()))
    );
    assert_eq!(
        FiniteContract::new(vec![], vec![("g", all.clone()), ("g", all.clone())]),
        Err(FiniteContractError::DuplicateGuarantee("g".to_owned()))
    );
    let contract = FiniteContract::new(vec![("a", all.clone())], vec![("g", all)]).unwrap();
    assert!(contract.assumptions().get("a").is_some());
    assert!(contract.guarantees().get("a").is_none());
}

#[test]
fn contract_clauses_are_kept_in_action_order() {
    let ty = PayloadType::unit();
    let all = PayloadPredicate::all(&ty);
    let forward = FiniteContract::new(vec![("b", all.clone()), ("a", all.clone())], vec![("z", all.clone()), ("y", all.clone())]).unwrap();
    let backward = FiniteContract::new(vec![("a", all.clone()), ("b", all.clone())], vec![("y", all.clone()), ("z", all)]).unwrap();
    assert_eq!(forward, backward);
    let names: Vec<&str> = forward.assumptions().entries().iter().map(|e| e.0.as_str()).collect();
    assert_eq!(names, vec!["a", "b"]);
    let names: Vec<&str> = forward.guarantees().entries().iter().map(|e| e.0.as_str()).collect();
    assert_eq!(names, vec!["y", "z"]);
}

#[test]
fn contract_errors_report_assumptions_before_guarantees() {
    let ty = PayloadType::unit();
    let all = PayloadPredicate::all(&ty);
    assert_eq!(
        FiniteContract::new(vec![("a", all.clone()), ("a", all.clone())], vec![("", all.clone())]),
        Err(FiniteContractError::DuplicateAssumption("a".to_owned()))
    );
    assert_eq!(
        FiniteContract::new(vec![("a", all.clone()), ("", all.clone()), ("a", all.clone())], vec![]),
        Err(FiniteContractError::InvalidAction(String::new()))
    );
}
