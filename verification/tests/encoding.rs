use kvon_rs::encode_string_expanded;
use kvon_rs::indention::Indention;
use kvon_rs::parse_string;
use kvon_rs::value::{PrimitiveValue, Value};

fn object(entries: Vec<(&str, Value)>) -> Value {
    Value::object_from_vec(entries)
}

fn array(items: Vec<Value>) -> Value {
    Value::Array(items)
}

#[test]
fn encodes_array_of_objects_as_block() {
    let value = object(vec![(
        "arr",
        array(vec![
            object(vec![("a", Value::from("a"))]),
            object(vec![("b", Value::from("b"))]),
        ]),
    )]);
    assert_eq!(
        encode_string_expanded(&value, Indention::Tabs),
        "arr:--\n\t- \n\t\ta: 'a'\n\t- \n\t\tb: 'b'"
    );
}

#[test]
fn encodes_primitives_on_one_line() {
    let value = object(vec![
        ("n", Value::from(12)),
        ("m", Value::from(-7)),
        ("t", Value::from(true)),
        ("f", Value::from(false)),
        ("z", Value::null()),
        ("s", Value::from("plain text")),
    ]);
    assert_eq!(
        encode_string_expanded(&value, Indention::Tabs),
        "n: 12\nm: -7\nt: true\nf: false\nz: null\ns: 'plain text'"
    );
}

#[test]
fn encodes_number_as_it_is_written() {
    let value = object(vec![(
        "n",
        Value::Primitive(PrimitiveValue::Number("1.50".to_string())),
    )]);
    assert_eq!(encode_string_expanded(&value, Indention::Tabs), "n: 1.50");
}

#[test]
fn encodes_inline_array() {
    let value = object(vec![(
        "a",
        array(vec![Value::from(1), Value::from(true), Value::from("x")]),
    )]);
    assert_eq!(
        encode_string_expanded(&value, Indention::Tabs),
        "a: [1 true 'x']"
    );
}

#[test]
fn encodes_empty_array_inline() {
    let value = object(vec![("a", array(vec![]))]);
    assert_eq!(encode_string_expanded(&value, Indention::Tabs), "a: []");
}

#[test]
fn encodes_array_in_array_as_block() {
    let value = object(vec![(
        "a",
        array(vec![
            Value::from(1),
            array(vec![Value::from(2), Value::from(3)]),
            array(vec![array(vec![Value::from(4)])]),
        ]),
    )]);
    assert_eq!(
        encode_string_expanded(&value, Indention::Tabs),
        "a:--\n\t- 1\n\t- [2 3]\n\t--\n\t\t- [4]"
    );
}

#[test]
fn encodes_string_with_line_feed_as_block() {
    let value = object(vec![("s", Value::from("<multi>\n<line>"))]);
    assert_eq!(
        encode_string_expanded(&value, Indention::Tabs),
        "s: |\n\t<multi>\n\t<line>"
    );
}

#[test]
fn encodes_string_with_quote_as_block() {
    let value = object(vec![("s", Value::from("it's")), ("t", Value::from("say \"x\""))]);
    assert_eq!(
        encode_string_expanded(&value, Indention::Tabs),
        "s: |\n\tit's\nt: |\n\tsay \"x\""
    );
}

#[test]
fn encodes_block_string_in_array() {
    let value = object(vec![(
        "a",
        array(vec![Value::from("x\ny"), Value::from("z")]),
    )]);
    assert_eq!(
        encode_string_expanded(&value, Indention::Tabs),
        "a:--\n\t- |\n\t\tx\n\t\ty\n\t- 'z'"
    );
}

#[test]
fn encodes_nested_objects_with_spaces() {
    let value = object(vec![
        ("a", object(vec![("b", object(vec![("c", Value::from(0))]))])),
        ("d", Value::empty_object()),
    ]);
    assert_eq!(
        encode_string_expanded(&value, Indention::Spaces(2)),
        "a: \n  b: \n    c: 0\nd: "
    );
}

#[test]
fn encodes_with_default_indention() {
    let value = object(vec![("a", object(vec![("b", Value::from(1))]))]);
    assert_eq!(
        encode_string_expanded(&value, Indention::default()),
        "a: \n\tb: 1"
    );
}

#[test]
fn encodes_root_primitive() {
    assert_eq!(encode_string_expanded(&Value::from(true), Indention::Tabs), "true");
    assert_eq!(encode_string_expanded(&Value::null(), Indention::Tabs), "null");
    assert_eq!(encode_string_expanded(&Value::empty_object(), Indention::Tabs), "");
}

#[test]
fn encoding_drops_empty_lines_only() {
    let value = Value::from("a\n\nb");
    assert_eq!(encode_string_expanded(&value, Indention::Tabs), "|\na\nb");
    let nested = object(vec![("s", Value::from("a\n\nb"))]);
    assert_eq!(
        encode_string_expanded(&nested, Indention::Tabs),
        "s: |\n\ta\n\t\n\tb"
    );
}

#[test]
fn block_string_lines_follow_line_endings() {
    let value = object(vec![("s", Value::from("a\r\nb\n"))]);
    assert_eq!(
        encode_string_expanded(&value, Indention::Tabs),
        "s: |\n\ta\n\tb"
    );
}

#[test]
fn parse_of_encoding_gives_the_value_back() {
    let value = object(vec![
        ("a", object(vec![("b", Value::from(0)), ("e", Value::empty_object())])),
        ("c", array(vec![Value::from(1), Value::from(2), Value::from("x")])),
        (
            "d",
            array(vec![
                Value::from(1),
                array(vec![Value::from(3), Value::from(4)]),
                object(vec![("k", Value::from("v")), ("l", Value::null())]),
                Value::from("two\nlines"),
                array(vec![array(vec![Value::from(true)])]),
            ]),
        ),
        ("s", Value::from("it's\n\tindented")),
        ("n", Value::null()),
    ]);
    for indention in [Indention::Tabs, Indention::Spaces(1), Indention::Spaces(4)] {
        let text = encode_string_expanded(&value, indention);
        let parsed = parse_string(&text).unwrap();
        assert_eq!(parsed, value);
        assert_eq!(encode_string_expanded(&parsed, indention), text);
    }
}
