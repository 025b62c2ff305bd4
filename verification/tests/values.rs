use kvon_rs::value::{PrimitiveValue, Value};

#[test]
fn kinds_of_primitives() {
    let number = PrimitiveValue::from(5);
    let string = PrimitiveValue::from("s");
    let boolean = PrimitiveValue::from(true);
    let null = PrimitiveValue::Null;
    assert!(number.is_number() && !number.is_string());
    assert!(string.is_string() && !string.is_boolean());
    assert!(boolean.is_boolean() && !boolean.is_null());
    assert!(null.is_null() && !null.is_number());
    assert_eq!(number.get_number().unwrap(), "5");
    assert_eq!(string.get_string().unwrap(), "s");
    assert_eq!(boolean.get_boolean(), Ok(true));
    assert!(string.get_number().is_err());
    assert!(number.get_string().is_err());
    assert!(null.get_boolean().is_err());
    assert_eq!(PrimitiveValue::from('c'), PrimitiveValue::from("c"));
    assert_eq!(
        PrimitiveValue::from("owned".to_string()),
        PrimitiveValue::from("owned")
    );
}

#[test]
fn whole_numbers_in_decimal() {
    assert_eq!(PrimitiveValue::from(0).get_number().unwrap(), "0");
    assert_eq!(PrimitiveValue::from(7).get_number().unwrap(), "7");
    assert_eq!(PrimitiveValue::from(-1).get_number().unwrap(), "-1");
    assert_eq!(PrimitiveValue::from(1090).get_number().unwrap(), "1090");
    assert_eq!(
        PrimitiveValue::from(i32::MAX).get_number().unwrap(),
        "2147483647"
    );
    assert_eq!(
        PrimitiveValue::from(i32::MIN).get_number().unwrap(),
        "-2147483648"
    );
}

#[test]
fn kinds_of_values() {
    let primitive = Value::from(1);
    let object = Value::empty_object();
    let array = Value::Array(vec![Value::null()]);
    assert!(primitive.is_primitive() && !primitive.is_object() && !primitive.is_array());
    assert!(object.is_object() && !object.is_primitive());
    assert!(array.is_array() && !array.is_object());
    assert_eq!(primitive.get_primitive().unwrap(), &PrimitiveValue::from(1));
    assert!(primitive.get_objects().is_err());
    assert!(primitive.get_vector().is_err());
    assert_eq!(object.get_objects().unwrap().len(), 0);
    assert!(object.get_primitive().is_err());
    assert_eq!(array.get_vector().unwrap().len(), 1);
    assert_eq!(array.get_vector().unwrap()[0], Value::null());
    assert_eq!(Value::from(PrimitiveValue::Null), Value::null());
    assert_eq!(Value::from('x'), Value::from("x".to_string()));
}

#[test]
fn objects_from_pairs() {
    let pair = Value::key_value_pair("k".to_string(), Value::from(1));
    assert_eq!(pair, Value::object_from_vec(vec![("k", Value::from(1))]));
    let object = Value::object_from_vec(vec![
        ("a", Value::from(1)),
        ("b", Value::from(2)),
        ("a", Value::from(3)),
    ]);
    let entries = object.get_objects().unwrap();
    assert_eq!(entries.len(), 2);
    assert_eq!(entries[0], ("a".to_string(), Value::from(3)));
    assert_eq!(entries[1], ("b".to_string(), Value::from(2)));
    assert_eq!(object.get("b"), Some(&Value::from(2)));
    assert_eq!(object.get("c"), None);
    assert_eq!(Value::null().get("a"), None);
    let same = Value::object_from_iter(vec![
        ("b".to_string(), Value::from(2)),
        ("a".to_string(), Value::from(3)),
    ]);
    assert_eq!(object, same);
}

#[test]
fn equality_ignores_the_order_of_keys() {
    let left = Value::object_from_vec(vec![
        ("a", Value::from(1)),
        ("b", Value::Array(vec![Value::from(1), Value::from(2)])),
    ]);
    let right = Value::object_from_vec(vec![
        ("b", Value::Array(vec![Value::from(1), Value::from(2)])),
        ("a", Value::from(1)),
    ]);
    assert_eq!(left, right);
    assert!(left.same_as(&right));
    let reordered = Value::object_from_vec(vec![
        ("a", Value::from(1)),
        ("b", Value::Array(vec![Value::from(2), Value::from(1)])),
    ]);
    assert_ne!(left, reordered);
    let larger = Value::object_from_vec(vec![
        ("a", Value::from(1)),
        ("b", Value::Array(vec![Value::from(1), Value::from(2)])),
        ("c", Value::null()),
    ]);
    assert_ne!(left, larger);
    assert_ne!(Value::from(1), Value::from("1"));
    assert_ne!(Value::empty_object(), Value::null());
    assert_ne!(Value::empty_object(), Value::Array(vec![]));
}

#[test]
fn clone_keeps_the_value() {
    let value = Value::object_from_vec(vec![
        ("a", Value::from(1)),
        (
            "b",
            Value::Array(vec![Value::from("x"), Value::null(), Value::from(true)]),
        ),
        ("c", Value::object_from_vec(vec![("d", Value::from('e'))])),
    ]);
    let copy = value.clone();
    assert_eq!(copy, value);
    assert_eq!(copy.get_objects().unwrap()[1].0, "b");
    let primitive = PrimitiveValue::from("s").clone();
    assert_eq!(primitive, PrimitiveValue::from("s"));
}

#[test]
fn numbers_from_literals() {
    let number = |text: &str| PrimitiveValue::number(text);
    assert_eq!(number("12"), Some(PrimitiveValue::from(12)));
    assert_eq!(number("-012.500"), Some(PrimitiveValue::Number("-12.5".to_string())));
    assert_eq!(number(".25"), Some(PrimitiveValue::Number("0.25".to_string())));
    assert_eq!(number("3.000"), Some(PrimitiveValue::from(3)));
    assert_eq!(number(""), None);
    assert_eq!(number("-"), None);
    assert_eq!(number("1."), None);
    assert_eq!(number("."), None);
    assert_eq!(number("1e5"), None);
    assert_eq!(number("+1"), None);
    assert_eq!(number("1.2.3"), None);
    assert_eq!(number("--1"), None);
}
