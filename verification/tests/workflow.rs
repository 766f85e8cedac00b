use nmlt::smap::StrMap;
use nmlt::workflow::{conforms, digest, units, Parameter, Type, Value, MAX_LIST_ITEMS};

fn list_of(t: Type) -> Type {
    Type::List(Box::new(t))
}

fn outcome_of(t: Type) -> Type {
    Type::Outcome(Box::new(t))
}

fn record(name: &str, fields: Vec<(&str, Value)>) -> Value {
    Value::record(name.to_owned(), fields.into_iter().map(|(k, v)| (k.to_owned(), v)).collect())
}

fn declared_r() -> StrMap<Vec<Parameter>> {
    let mut records = StrMap::new();
    records.insert(
        "R".to_owned(),
        vec![Parameter { name: "x".to_owned(), ty: list_of(outcome_of(Type::Int)) }],
    );
    records
}

#[test]
fn units_count_nodes_and_utf8_bytes() {
    assert_eq!(units(&Value::Int(7)), Some(1));
    assert_eq!(units(&Value::Bool(true)), Some(1));
    assert_eq!(units(&Value::Text("abc".to_owned())), Some(4));
    assert_eq!(units(&Value::Failure("é".to_owned())), Some(3));
    assert_eq!(units(&Value::Success(Box::new(Value::Int(1)))), Some(2));
    assert_eq!(units(&Value::List(vec![Value::Int(1), Value::Int(2)])), Some(3));
    assert_eq!(units(&record("R", vec![("x", Value::Int(1))])), Some(4));
}

#[test]
fn units_stop_at_depth_text_item_and_field_bounds() {
    let mut v = Value::Int(0);
    for _ in 0..16 {
        v = Value::Success(Box::new(v));
    }
    assert_eq!(units(&v), Some(17));
    let deeper = Value::Success(Box::new(v));
    assert_eq!(units(&deeper), None);

    assert_eq!(units(&Value::Text("x".repeat(4096))), Some(4097));
    assert_eq!(units(&Value::Text("x".repeat(4097))), None);
    assert_eq!(units(&Value::Failure("x".repeat(4097))), None);

    assert_eq!(units(&Value::List(vec![Value::Int(0); MAX_LIST_ITEMS])), Some(257));
    assert_eq!(units(&Value::List(vec![Value::Int(0); MAX_LIST_ITEMS + 1])), None);

    let names: Vec<String> = (0..17).map(|i| format!("f{i:02}")).collect();
    let many = Value::Record {
        name: "R".to_owned(),
        fields: names.iter().map(|n| (n.clone(), Value::Int(0))).collect(),
    };
    assert_eq!(units(&many), None);
    let sixteen = Value::Record {
        name: "R".to_owned(),
        fields: names[..16].iter().map(|n| (n.clone(), Value::Int(0))).collect(),
    };
    assert_eq!(units(&sixteen), Some(17 + 1 + 16 * 3));
}

#[test]
fn aggregate_node_and_byte_bounds_reject_large_values() {
    let inner = vec![Value::Int(0); 256];
    let too_many = Value::List(vec![Value::List(inner); 16]);
    assert_eq!(units(&too_many), None);
    assert!(!too_many.conforms(&list_of(list_of(Type::Int))));

    let text = Value::Text("x".repeat(4096));
    let sixteen = Value::List(vec![text; 16]);
    assert_eq!(units(&sixteen), Some(17 + 16 * 4096));
    let seventeen = Value::List(vec![Value::Text("x".repeat(4096)); 17]);
    assert_eq!(units(&seventeen), None);
}

#[test]
fn scalar_and_outcome_values_conform_by_shape() {
    assert!(Value::Bool(false).conforms(&Type::Bool));
    assert!(Value::Int(-3).conforms(&Type::Int));
    assert!(Value::Text("t".to_owned()).conforms(&Type::Text));
    assert!(!Value::Int(1).conforms(&Type::Bool));
    assert!(!Value::Text("t".to_owned()).conforms(&Type::Int));
    assert!(Value::Failure("no".to_owned()).conforms(&outcome_of(Type::Bool)));
    assert!(Value::Success(Box::new(Value::Int(1))).conforms(&outcome_of(Type::Int)));
    assert!(!Value::Success(Box::new(Value::Int(1))).conforms(&outcome_of(Type::Text)));
    assert!(Value::List(vec![]).conforms(&list_of(Type::Text)));
    assert!(!Value::List(vec![Value::Int(1), Value::Bool(true)]).conforms(&list_of(Type::Int)));
    assert!(!Value::Int(1).conforms(&Type::Job(Box::new(Type::Int))));
    assert!(!Value::Text("x".repeat(4097)).conforms(&Type::Text));
}

#[test]
fn records_conform_only_to_their_declared_fields() {
    let records = declared_r();
    let ty = Type::Record("R".to_owned());
    let valid = record(
        "R",
        vec![(
            "x",
            Value::List(vec![
                Value::Success(Box::new(Value::Int(3))),
                Value::Failure("missing".to_owned()),
            ]),
        )],
    );
    assert!(conforms(&valid, &ty, &records));
    assert!(!valid.conforms(&ty));
    let Value::Record { fields, .. } = &valid else {
        unreachable!()
    };
    for value in [
        Value::Record { name: "Other".to_owned(), fields: fields.clone() },
        record("R", vec![]),
        record("R", vec![("x", Value::Int(1))]),
        record("R", vec![("y", Value::List(vec![]))]),
        record("R", vec![("x", Value::List(vec![])), ("y", Value::Int(0))]),
    ] {
        assert!(!conforms(&value, &ty, &records));
    }
    assert!(!conforms(&valid, &Type::Record("Other".to_owned()), &records));
    assert!(conforms(&record("R", vec![("x", Value::List(vec![]))]), &ty, &records));
}

#[test]
fn digest_is_lower_case_sha256_hex() {
    assert_eq!(
        digest(b"abc"),
        "ba7816bf8f01cfea414140de5dae2223b00361a396177a9cb410ff61f20015ad"
    );
    assert_eq!(
        digest(b""),
        "e3b0c44298fc1c149afbf4c8996fb92427ae41e4649b934ca495991b7852b855"
    );
}

#[test]
fn record_fields_are_kept_in_name_order_with_later_fields_winning() {
    let value = Value::record(
        "R".to_owned(),
        vec![
            ("b".to_owned(), Value::Int(1)),
            ("a".to_owned(), Value::Bool(true)),
            ("b".to_owned(), Value::Int(2)),
        ],
    );
    assert_eq!(
        value,
        Value::Record {
            name: "R".to_owned(),
            fields: vec![("a".to_owned(), Value::Bool(true)), ("b".to_owned(), Value::Int(2))],
        }
    );
}
