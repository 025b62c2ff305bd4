use kvon_rs::error::{ParserError, ParserErrorKind};
use kvon_rs::indention::Indention;
use kvon_rs::parse_string;
use kvon_rs::value::Value;
use kvon_rs::Parser;

fn error_of(source: &str) -> ParserError {
    parse_string(source).unwrap_err()
}

#[test]
fn document_scenario_nested_object_and_inline_array() {
    let parsed = parse_string("a:\n\tb: 0\nc: [1 2 [3 4]]\n").unwrap();
    let expected = Value::object_from_vec(vec![
        ("a", Value::object_from_vec(vec![("b", Value::from(0))])),
        (
            "c",
            Value::Array(vec![
                Value::from(1),
                Value::from(2),
                Value::Array(vec![Value::from(3), Value::from(4)]),
            ]),
        ),
    ]);
    assert_eq!(parsed, expected);
}

#[test]
fn values_on_one_dash_line_flatten_into_the_array() {
    let parsed = parse_string("arr:--\n\t- 1 2\n\t- 2 3\n").unwrap();
    let expected = Value::object_from_vec(vec![(
        "arr",
        Value::Array(vec![
            Value::from(1),
            Value::from(2),
            Value::from(2),
            Value::from(3),
        ]),
    )]);
    assert_eq!(parsed, expected);
}

#[test]
fn unclosed_string_is_reported_at_its_line() {
    let error = error_of("a: 'a'\nbad: 'c\n");
    assert_eq!(error.kind, ParserErrorKind::UnclosedString);
    assert_eq!(error.line_number, 1);
    assert_eq!(error.column_number, 7);
    assert_eq!(error.line, "bad: 'c");
}

#[test]
fn bare_key_is_null() {
    let parsed = parse_string("d").unwrap();
    assert_eq!(parsed, Value::object_from_vec(vec![("d", Value::null())]));
    let parsed = parse_string("d   # nothing else\n").unwrap();
    assert_eq!(parsed, Value::object_from_vec(vec![("d", Value::null())]));
}

#[test]
fn one_tab_fixes_tabs_and_two_tabs_are_too_deep() {
    let mut parser = Parser::new();
    parser.next_line("a:").unwrap();
    assert_eq!(parser.indention(), None);
    parser.next_line("\tb: 0").unwrap();
    assert_eq!(parser.indention(), Some(Indention::Tabs));
    parser.next_line("c:").unwrap();
    let error = parser.next_line("\t\td: 0").unwrap_err();
    assert_eq!(error.kind, ParserErrorKind::InvalidIndention);
    assert_eq!(error.line_number, 3);
    assert_eq!(error.column_number, 2);
}

#[test]
fn mixed_tabs_and_spaces_are_refused_everywhere() {
    assert_eq!(error_of("a:\n\t b: 0").kind, ParserErrorKind::MixedTabsAndSpaces);
    assert_eq!(error_of("a:\n \tb: 0").kind, ParserErrorKind::MixedTabsAndSpaces);
    assert_eq!(
        error_of("a:\n\tb: 0\nc:\n\t d: 0").kind,
        ParserErrorKind::MixedTabsAndSpaces
    );
    assert_eq!(
        error_of("a:\n  b: 0\nc:\n \td: 0").kind,
        ParserErrorKind::MixedTabsAndSpaces
    );
    let error = error_of("a: |\n \tx");
    assert_eq!(error.kind, ParserErrorKind::MixedTabsAndSpaces);
    assert_eq!(error.column_number, 2);
}

#[test]
fn mixed_white_space_inside_a_string_or_comment_is_taken() {
    let parsed = parse_string("a: |\n\t x\n\t \ty").unwrap();
    assert_eq!(
        parsed,
        Value::object_from_vec(vec![("a", Value::from(" x\n \ty"))])
    );
    let parsed = parse_string("a: 1\n\t # comment\n \t\nb: 2").unwrap();
    assert_eq!(
        parsed,
        Value::object_from_vec(vec![("a", Value::from(1)), ("b", Value::from(2))])
    );
}

#[test]
fn spaces_have_to_be_a_multiple_of_the_unit() {
    let parsed = parse_string("a:\n  b:\n    c: 1\n  d: 2").unwrap();
    assert_eq!(
        parsed,
        Value::object_from_vec(vec![(
            "a",
            Value::object_from_vec(vec![
                ("b", Value::object_from_vec(vec![("c", Value::from(1))])),
                ("d", Value::from(2)),
            ]),
        )])
    );
    let error = error_of("a:\n  b:\n   c: 1");
    assert_eq!(error.kind, ParserErrorKind::SpacesNotMultipleOfIndent);
    assert_eq!(error.line_number, 2);
    assert_eq!(error.column_number, 3);
    let error = error_of("a:\n   b: 1\nc:\n  d: 1");
    assert_eq!(error.kind, ParserErrorKind::SpacesNotMultipleOfIndent);
}

#[test]
fn first_spaces_fix_the_unit() {
    let mut parser = Parser::new();
    parser.next_line("a:").unwrap();
    parser.next_line("   b: 0").unwrap();
    assert_eq!(parser.indention(), Some(Indention::Spaces(3)));
    assert_eq!(parser.line_number(), 2);
    let value = parser.finish();
    assert_eq!(
        value,
        Value::object_from_vec(vec![(
            "a",
            Value::object_from_vec(vec![("b", Value::from(0))])
        )])
    );
}

#[test]
fn other_white_space_than_the_unit_is_inconsistent() {
    let error = error_of("a:\n\tb: 0\nc:\n  d: 0");
    assert_eq!(
        error.kind,
        ParserErrorKind::InconsistentIndention(Indention::Tabs, Indention::Spaces(2))
    );
    assert_eq!(error.line_number, 3);
    let error = error_of("a:\n  b: 0\nc:\n\td: 0");
    assert_eq!(
        error.kind,
        ParserErrorKind::InconsistentIndention(Indention::Spaces(2), Indention::Tabs)
    );
}

#[test]
fn deeper_than_the_open_frame_is_invalid() {
    let error = error_of("a: 1\n\tb: 2");
    assert_eq!(error.kind, ParserErrorKind::InvalidIndention);
    assert_eq!(error.line_number, 1);
    assert_eq!(error.column_number, 1);
    assert_eq!(error.line, "\tb: 2");
}

#[test]
fn array_line_without_dash_expects_one() {
    let error = error_of("arr:--\n\tx");
    assert_eq!(error.kind, ParserErrorKind::Expected("-".to_string()));
    assert_eq!(error.line_number, 1);
    assert_eq!(error.column_number, 1);
}

#[test]
fn inline_array_without_end_expects_bracket() {
    let error = error_of("a: [1 2");
    assert_eq!(error.kind, ParserErrorKind::Expected("]".to_string()));
    assert_eq!(error.column_number, 7);
    let error = error_of("a: [1 x]");
    assert_eq!(error.kind, ParserErrorKind::Expected("]".to_string()));
    assert_eq!(error.column_number, 6);
    let error = error_of("a: [1 [2 'x]]");
    assert_eq!(error.kind, ParserErrorKind::UnclosedString);
}

#[test]
fn numeric_literal_ends_where_the_pattern_ends() {
    let error = error_of("a: 12abc");
    assert_eq!(error.kind, ParserErrorKind::UnexpectedCharacter);
    assert_eq!(error.column_number, 5);
    let error = error_of("a: - 1");
    assert_eq!(error.kind, ParserErrorKind::UnexpectedCharacter);
    assert_eq!(error.column_number, 3);
}

#[test]
fn numbers_are_held_by_their_shortest_literal() {
    let parsed = parse_string("a: -.5\nb: 10.250\nc: 007\nd: 1.0\ne: -0.0\nf: 000\ng: 100").unwrap();
    let number = |key: &str| -> String {
        let primitive = parsed.get(key).unwrap().get_primitive().unwrap();
        primitive.get_number().unwrap().clone()
    };
    assert_eq!(number("a"), "-0.5");
    assert_eq!(number("b"), "10.25");
    assert_eq!(number("c"), "7");
    assert_eq!(number("d"), "1");
    assert_eq!(number("e"), "-0");
    assert_eq!(number("f"), "0");
    assert_eq!(number("g"), "100");
    assert_eq!(parsed.get("d"), Some(&Value::from(1)));
    assert_eq!(parsed.get("g"), Some(&Value::from(100)));
}

#[test]
fn dash_alone_opens_an_object_with_several_keys() {
    let parsed = parse_string("arr:--\n\t-\n\t\ta: 1\n\t\tb: 2\n\t\tc:\n\t\t\td: 3\n\t- 4").unwrap();
    let expected = Value::object_from_vec(vec![(
        "arr",
        Value::Array(vec![
            Value::object_from_vec(vec![
                ("a", Value::from(1)),
                ("b", Value::from(2)),
                ("c", Value::object_from_vec(vec![("d", Value::from(3))])),
            ]),
            Value::from(4),
        ]),
    )]);
    assert_eq!(parsed, expected);
}

#[test]
fn dash_and_bar_opens_a_string_item() {
    let parsed = parse_string("arr:--\n\t- |\n\t\tone\n\t\ttwo\n\t- 'three'").unwrap();
    let expected = Value::object_from_vec(vec![(
        "arr",
        Value::Array(vec![Value::from("one\ntwo"), Value::from("three")]),
    )]);
    assert_eq!(parsed, expected);
}

#[test]
fn first_string_line_fixes_the_unit() {
    let mut parser = Parser::new();
    parser.next_line("a: |").unwrap();
    parser.next_line("   x").unwrap();
    assert_eq!(parser.indention(), Some(Indention::Spaces(3)));
    parser.next_line("    y").unwrap();
    parser.next_line("b: 1").unwrap();
    let value = parser.finish();
    assert_eq!(
        value,
        Value::object_from_vec(vec![("a", Value::from("x\n y")), ("b", Value::from(1))])
    );
}

#[test]
fn later_key_replaces_the_value_in_place() {
    let parsed = parse_string("a: 1\nb: 2\na: 3").unwrap();
    let entries = parsed.get_objects().unwrap();
    assert_eq!(entries.len(), 2);
    assert_eq!(entries[0].0, "a");
    assert_eq!(entries[0].1, Value::from(3));
    assert_eq!(entries[1].0, "b");
}

#[test]
fn comments_and_blank_lines_are_skipped() {
    let parsed = parse_string("# head\n\na: 1 # tail\n   \n\t# deep\nb: [1 2] # more").unwrap();
    assert_eq!(
        parsed,
        Value::object_from_vec(vec![
            ("a", Value::from(1)),
            ("b", Value::Array(vec![Value::from(1), Value::from(2)])),
        ])
    );
}

#[test]
fn carriage_return_before_line_feed_ends_the_line() {
    let parsed = parse_string("a: |\r\n\tx\r\n\ty\r\nb: 'z'\r\n").unwrap();
    assert_eq!(
        parsed,
        Value::object_from_vec(vec![("a", Value::from("x\ny")), ("b", Value::from("z"))])
    );
}

#[test]
fn collapse_context_leaves_the_root() {
    let mut parser = Parser::new();
    parser.next_line("a:").unwrap();
    parser.next_line("\tb:--").unwrap();
    parser.next_line("\t\t- 1").unwrap();
    parser.collapse_context();
    parser.next_line("c: 2").unwrap();
    let value = parser.finish();
    assert_eq!(
        value,
        Value::object_from_vec(vec![
            (
                "a",
                Value::object_from_vec(vec![("b", Value::Array(vec![Value::from(1)]))])
            ),
            ("c", Value::from(2)),
        ])
    );
}

#[test]
fn messages_say_where_and_why() {
    let error = error_of("a: 1\n\tb: 2");
    assert_eq!(error.message(), "1:1: invalid indention");
    let error = error_of("arr:--\n\tx");
    assert_eq!(error.message(), "1:1: expected '-'");
    let error = error_of("a:\n\tb: 0\nc:\n  d: 0");
    assert_eq!(
        error.message(),
        "3:2: inconsistent indention, expected: tabs, but found: spaces:2"
    );
    assert_eq!(error_of("a: 'x").message(), "0:5: string not closed");
    assert_eq!(error_of("a: 1 1").message(), "0:4: unexpected character");
    assert_eq!(
        error_of("a:\n\t\tb: 1").message(),
        "1:2: tab indention can only use one tab"
    );
    assert_eq!(
        error_of("a:\n \tb: 1").message(),
        "1:2: indention of mixed tabs and spaces is not allowed"
    );
    assert_eq!(
        error_of("a:\n  b:\n   c: 1").message(),
        "2:3: amount of spaces is not a multiple of the indention spaces"
    );
    assert_eq!(Indention::Tabs.to_text(), "tabs");
    assert_eq!(Indention::Spaces(12).to_text(), "spaces:12");
    assert_eq!(
        ParserErrorKind::expected("-"),
        ParserErrorKind::Expected("-".to_string())
    );
}
