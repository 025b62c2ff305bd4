use kvon_rs::error::{ParserError, ParserErrorKind};
use kvon_rs::parse_string;
use kvon_rs::value::Value;

fn object(entries: Vec<(&str, Value)>) -> Value {
    Value::object_from_vec(entries)
}

fn array(items: Vec<Value>) -> Value {
    Value::Array(items)
}

fn number(n: i32) -> Value {
    Value::from(n)
}

fn text(s: &str) -> Value {
    Value::from(s)
}

fn boolean(b: bool) -> Value {
    Value::from(b)
}

fn test(source: &str, target: Value) {
    let parsed = parse_string(source).unwrap();
    assert_eq!(parsed, target);
}

static SIMPLE_OBJECT: &'static str = "
# object with one level of indent
a:
	# key value pairs
	b: 0
	c: 1
d: 0
";

static INLINED_ARRAYS: &'static str = "
arrays:
	1a: [1 true false 4]
	1b: [1 [true false] 4]
";

static MULTI_LINE_ARRAYS_A: &'static str = "
array:--
	- 1 2
	- 2 3
	- [true false] [false true]
";

static MULTI_LINE_ARRAYS_B: &'static str = "
arr:--
	- 1 2
	- 2: 3
	--
		- 'a' 'b'
		- 'b': 'c'
		--
			- true
			- false
";

static MULTI_LINE_STRINGS: &'static str = "
empty:|
a: |
	<line 1>
		<line 2>
	<line 3>
b:
	c: |
		<line 1>
			<line 2>
		<line 3>
d:
	e:
		f: |
			<line 1>
				<line 2>
			<line 3>
arr:--
	- a: |
		<line 1>
			<line 2>
		<line 3>
";

static ARRAY_OF_OBJECTS: &'static str = "
objects:--
	- 'object 1':
		'key 1-1': 'value 1-1'
		'key 1-2': 'value 1-2'
		'nested object':
			'key 1-3': 'value 1-3'
	
	- 'object 2':
		'key 2-1': 'value 2-1'
		'key 2-2': 'value 2-2'
		'nested object':
			'key 2-3': 'value 2-3'
	
	-
		'object 3-1':
		'object 3-2':

	- a: 'a'
	- b: 'b'
";

#[test]
fn test_sources() {
    test(
        SIMPLE_OBJECT,
        object(vec![
            ("a", object(vec![("b", number(0)), ("c", number(1))])),
            ("d", number(0)),
        ]),
    );

    test(
        INLINED_ARRAYS,
        object(vec![(
            "arrays",
            object(vec![
                (
                    "1a",
                    array(vec![number(1), boolean(true), boolean(false), number(4)]),
                ),
                (
                    "1b",
                    array(vec![
                        number(1),
                        array(vec![boolean(true), boolean(false)]),
                        number(4),
                    ]),
                ),
            ]),
        )]),
    );

    test(
        MULTI_LINE_ARRAYS_A,
        object(vec![(
            "array",
            array(vec![
                number(1),
                number(2),
                number(2),
                number(3),
                array(vec![boolean(true), boolean(false)]),
                array(vec![boolean(false), boolean(true)]),
            ]),
        )]),
    );

    test(
        MULTI_LINE_ARRAYS_B,
        object(vec![(
            "arr",
            array(vec![
                number(1),
                number(2),
                object(vec![("2", number(3))]),
                array(vec![
                    text("a"),
                    text("b"),
                    object(vec![("b", text("c"))]),
                    array(vec![boolean(true), boolean(false)]),
                ]),
            ]),
        )]),
    );

    test(
        MULTI_LINE_STRINGS,
        object(vec![
            ("empty", text("")),
            ("a", text("<line 1>\n\t<line 2>\n<line 3>")),
            ("b", object(vec![("c", text("<line 1>\n\t<line 2>\n<line 3>"))])),
            (
                "d",
                object(vec![(
                    "e",
                    object(vec![("f", text("<line 1>\n\t<line 2>\n<line 3>"))]),
                )]),
            ),
            (
                "arr",
                array(vec![object(vec![(
                    "a",
                    text("<line 1>\n\t<line 2>\n<line 3>"),
                )])]),
            ),
        ]),
    );

    test(
        ARRAY_OF_OBJECTS,
        object(vec![(
            "objects",
            array(vec![
                object(vec![(
                    "object 1",
                    object(vec![
                        ("key 1-1", text("value 1-1")),
                        ("key 1-2", text("value 1-2")),
                        ("nested object", object(vec![("key 1-3", text("value 1-3"))])),
                    ]),
                )]),
                object(vec![(
                    "object 2",
                    object(vec![
                        ("key 2-1", text("value 2-1")),
                        ("key 2-2", text("value 2-2")),
                        ("nested object", object(vec![("key 2-3", text("value 2-3"))])),
                    ]),
                )]),
                object(vec![
                    ("object 3-1", Value::empty_object()),
                    ("object 3-2", Value::empty_object()),
                ]),
                object(vec![("a", text("a"))]),
                object(vec![("b", text("b"))]),
            ]),
        )]),
    );
}

static INVALID_STRING: &'static str = "
a: 'a'
b: \"b\"
c: ''using the \"'\" character inside''
d: 'd'
bad: 'c
";

static BAD_INITIAL_INDENT: &'static str = "
a:
		a: 0
";

static BAD_INDENT: &'static str = "
a:
	a: 0
b:
		a: 0
";

#[test]
fn invalid_string() {
    let objects = parse_string(INVALID_STRING);
    assert!(matches!(
        objects,
        Err(ParserError {
            kind: ParserErrorKind::UnclosedString,
            line_number: 5,
            column_number: _,
            line: _,
        })
    ));
}

#[test]
fn bad_initial_indent() {
    let objects = parse_string(BAD_INITIAL_INDENT);
    assert!(matches!(
        objects,
        Err(ParserError {
            kind: ParserErrorKind::MultipleTabIndent,
            line_number: 2,
            column_number: _,
            line: _,
        })
    ));
}

#[test]
fn bad_indent() {
    let objects = parse_string(BAD_INDENT);
    assert!(matches!(
        objects,
        Err(ParserError {
            kind: ParserErrorKind::InvalidIndention,
            line_number: 4,
            column_number: _,
            line: _,
        })
    ));
}

#[test]
fn unexpected_characters() {
    let objects = parse_string("arr:-- a");
    assert!(matches!(
        objects,
        Err(ParserError {
            kind: ParserErrorKind::UnexpectedCharacter,
            line_number: 0,
            column_number: _,
            line: _,
        })
    ));

    let objects = parse_string("a: 0 0");
    assert!(matches!(
        objects,
        Err(ParserError {
            kind: ParserErrorKind::UnexpectedCharacter,
            line_number: 0,
            column_number: _,
            line: _,
        })
    ));

    let objects = parse_string("a: 1.2.3");
    assert!(matches!(
        objects,
        Err(ParserError {
            kind: ParserErrorKind::UnexpectedCharacter,
            line_number: 0,
            column_number: _,
            line: _,
        })
    ));

    let objects = parse_string("a: 'str''");
    assert!(matches!(
        objects,
        Err(ParserError {
            kind: ParserErrorKind::UnexpectedCharacter,
            line_number: 0,
            column_number: _,
            line: _,
        })
    ));

    let objects = parse_string("a: 'str' :");
    assert!(matches!(
        objects,
        Err(ParserError {
            kind: ParserErrorKind::UnexpectedCharacter,
            line_number: 0,
            column_number: _,
            line: _,
        })
    ));

    let objects = parse_string("a:: 123");
    assert!(matches!(
        objects,
        Err(ParserError {
            kind: ParserErrorKind::UnexpectedCharacter,
            line_number: 0,
            column_number: _,
            line: _,
        })
    ));
}

static EMPTY_OBJECT_VS_NULL: &'static str = "
a:
b:
c: null
d
arr:--
	- a:
	- b:
	- c: null
";

#[test]
fn empty_object_vs_null() {
    test(
        EMPTY_OBJECT_VS_NULL,
        object(vec![
            ("a", Value::empty_object()),
            ("b", Value::empty_object()),
            ("c", Value::null()),
            ("d", Value::null()),
            (
                "arr",
                array(vec![
                    object(vec![("a", Value::empty_object())]),
                    object(vec![("b", Value::empty_object())]),
                    object(vec![("c", Value::null())]),
                ]),
            ),
        ]),
    );
}
