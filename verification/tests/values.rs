use smorgasbord::value::TypeError;
use smorgasbord::value::Value;
use smorgasbord::value::WireType;

#[test]
fn scalars_classify_to_their_wire_types() {
    assert_eq!(Value::Boolean(true).value_type(), Ok(WireType::Boolean));
    assert_eq!(Value::Integer(7).value_type(), Ok(WireType::Int));
    assert_eq!(Value::Nil.value_type(), Ok(WireType::Int));
    assert_eq!(Value::F32Bits(0).value_type(), Ok(WireType::Float));
    assert_eq!(Value::F64Bits(0).value_type(), Ok(WireType::Double));
    assert_eq!(Value::Text("x".to_string()).value_type(), Ok(WireType::Text));
    assert_eq!(Value::Binary(vec![1, 2]).value_type(), Ok(WireType::Raw));
}

#[test]
fn arrays_take_their_first_element_type() {
    let v = Value::Array(vec![Value::Boolean(true), Value::Boolean(false)]);
    assert_eq!(v.value_type(), Ok(WireType::BooleanArray));
    let v = Value::Array(vec![Value::Text("a".to_string())]);
    assert_eq!(v.value_type(), Ok(WireType::TextArray));
    let v = Value::Array(vec![Value::F64Bits(1)]);
    assert_eq!(v.value_type(), Ok(WireType::DoubleArray));
}

#[test]
fn empty_array_defaults_to_int_array() {
    assert_eq!(Value::Array(Vec::new()).value_type(), Ok(WireType::IntArray));
}

#[test]
fn nested_array_element_is_unsupported() {
    let v = Value::Array(vec![Value::Array(Vec::new())]);
    assert_eq!(v.value_type(), Err(TypeError::UnsupportedElement));
}

#[test]
fn dict_has_no_wire_type() {
    let v = Value::Dict(vec![(Value::Text("k".to_string()), Value::Integer(1))]);
    assert_eq!(v.value_type(), Err(TypeError::NestedDict));
}

#[test]
fn try_to_string_takes_text_only() {
    assert_eq!(Value::Text("hi".to_string()).try_to_string(), Some("hi".to_string()));
    assert_eq!(Value::Integer(3).try_to_string(), None);
}

#[test]
fn try_to_string_array_needs_all_strings() {
    let v = Value::Array(vec![
        Value::Text("a".to_string()),
        Value::Text("b".to_string()),
    ]);
    assert_eq!(
        v.try_to_string_array(),
        Some(vec!["a".to_string(), "b".to_string()])
    );
    let v = Value::Array(vec![Value::Text("a".to_string()), Value::Integer(1)]);
    assert_eq!(v.try_to_string_array(), None);
    assert_eq!(Value::Integer(1).try_to_string_array(), None);
}

#[test]
fn duplicate_copies_deep_values() {
    let v = Value::Array(vec![
        Value::Text("a".to_string()),
        Value::Dict(vec![(Value::Integer(1), Value::Boolean(true))]),
    ]);
    assert_eq!(v.duplicate(), v);
}
