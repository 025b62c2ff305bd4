use kvon_rs::error::ParserErrorKind;
use kvon_rs::indention::Indention;
use kvon_rs::line_parser::LineParser;
use kvon_rs::text::{char_is_white_space, chars_of, lines_of};
use kvon_rs::value::{PrimitiveValue, Value};

#[test]
fn see_and_have() {
    let mut cursor = LineParser::new(0, "key:-- rest");
    assert!(cursor.see("key"));
    assert!(!cursor.see("ley"));
    assert!(cursor.have("key"));
    assert!(!cursor.have("key"));
    assert!(cursor.see_any(&["x", ":--"]));
    assert!(!cursor.see_any(&["x", "y"]));
    assert!(cursor.have(":--"));
    assert!(!cursor.reached_end());
    assert_eq!(cursor.consume_rest(), " rest");
    assert!(cursor.reached_end());
    assert!(cursor.see(""));
    assert!(!cursor.see("r"));
}

#[test]
fn advance_stops_at_the_end() {
    let mut cursor = LineParser::new(0, "abc");
    cursor.advance();
    assert!(cursor.see("bc"));
    cursor.advance_by(1);
    assert!(cursor.see("c"));
    cursor.advance_by(5);
    assert!(cursor.reached_end());
    cursor.advance();
    assert!(cursor.reached_end());
}

#[test]
fn white_space_is_counted_and_skipped() {
    let mut cursor = LineParser::new(0, "\t\t  \tx \u{a0}y");
    assert_eq!(cursor.next_whitespaces(), (3, 2));
    assert!(cursor.see("x"));
    assert_eq!(cursor.next_whitespaces(), (0, 0));
    cursor.advance();
    cursor.consume_whitespaces();
    assert!(cursor.see("y"));
    assert!(char_is_white_space('\u{3000}'));
    assert!(char_is_white_space('\n'));
    assert!(!char_is_white_space('\u{200b}'));
    assert!(!char_is_white_space('#'));
}

#[test]
fn end_or_comment() {
    assert!(LineParser::new(0, "").see_end_or_comment());
    assert!(LineParser::new(0, "  \t ").see_end_or_comment());
    assert!(LineParser::new(0, "  # text").see_end_or_comment());
    assert!(!LineParser::new(0, "  x # text").see_end_or_comment());
}

#[test]
fn string_literals() {
    let mut cursor = LineParser::new(0, "'abc' \"d'e\" ''f'g'' 'h");
    assert_eq!(cursor.parse_string_literal().unwrap(), Some("abc".to_string()));
    assert_eq!(cursor.parse_string_literal().unwrap(), None);
    cursor.consume_whitespaces();
    assert_eq!(cursor.parse_string_literal().unwrap(), Some("d'e".to_string()));
    cursor.consume_whitespaces();
    assert_eq!(cursor.parse_string_literal().unwrap(), Some("f'g".to_string()));
    cursor.consume_whitespaces();
    let error = cursor.parse_string_literal().unwrap_err();
    assert_eq!(error.kind, ParserErrorKind::UnclosedString);
    assert_eq!(error.column_number, 22);
    let mut empty = LineParser::new(3, "''");
    let error = empty.parse_string_literal().unwrap_err();
    assert_eq!(error.kind, ParserErrorKind::UnclosedString);
    assert_eq!(error.line_number, 3);
}

#[test]
fn keys() {
    let mut cursor = LineParser::new(0, "name: 1");
    assert_eq!(cursor.parse_key().unwrap(), "name");
    assert!(cursor.see(": 1"));
    let mut cursor = LineParser::new(0, "'two words' : 1");
    assert_eq!(cursor.parse_key().unwrap(), "two words");
    assert!(cursor.see(" : 1"));
    let mut cursor = LineParser::new(0, "a;b");
    assert_eq!(cursor.parse_key().unwrap(), "a");
    let mut cursor = LineParser::new(0, "k  : v");
    assert_eq!(cursor.parse_key_with_colon().unwrap(), "k");
    assert!(cursor.see(" v"));
    let mut cursor = LineParser::new(0, "k v");
    assert_eq!(cursor.parse_key_with_colon().unwrap(), "");
    assert!(cursor.see("k v"));
    let mut cursor = LineParser::new(0, "'k");
    assert_eq!(
        cursor.parse_key_with_colon().unwrap_err().kind,
        ParserErrorKind::UnclosedString
    );
}

#[test]
fn numeric_boolean_and_null_literals() {
    let mut cursor = LineParser::new(0, "-12.5e3");
    assert_eq!(cursor.parse_numerical_literal(), Some("-12.5".to_string()));
    assert!(cursor.see("e3"));
    let mut cursor = LineParser::new(0, "1.");
    assert_eq!(cursor.parse_numerical_literal(), Some("1".to_string()));
    assert!(cursor.see("."));
    assert_eq!(LineParser::new(0, "-").parse_numerical_literal(), None);
    assert_eq!(LineParser::new(0, ".").parse_numerical_literal(), None);
    assert_eq!(LineParser::new(0, "x1").parse_numerical_literal(), None);
    assert_eq!(LineParser::new(0, "").parse_numerical_literal(), None);
    let mut cursor = LineParser::new(0, "truefalsenullx");
    assert_eq!(cursor.parse_boolean_literal(), Some(true));
    assert!(!cursor.parse_null_literal());
    assert_eq!(cursor.parse_boolean_literal(), Some(false));
    assert_eq!(cursor.parse_boolean_literal(), None);
    assert!(cursor.parse_null_literal());
    assert!(cursor.see("x"));
}

#[test]
fn primitives_and_inline_arrays() {
    let mut cursor = LineParser::new(0, "'s' 1 true null ?");
    assert_eq!(
        cursor.parse_primitive().unwrap(),
        Some(PrimitiveValue::String("s".to_string()))
    );
    cursor.consume_whitespaces();
    assert_eq!(
        cursor.parse_primitive().unwrap(),
        Some(PrimitiveValue::Number("1".to_string()))
    );
    cursor.consume_whitespaces();
    assert_eq!(
        cursor.parse_primitive().unwrap(),
        Some(PrimitiveValue::Boolean(true))
    );
    cursor.consume_whitespaces();
    assert_eq!(cursor.parse_primitive().unwrap(), Some(PrimitiveValue::Null));
    cursor.consume_whitespaces();
    assert_eq!(cursor.parse_primitive().unwrap(), None);
    assert_eq!(cursor.parse_inline_array().unwrap(), None);

    let mut cursor = LineParser::new(0, "[ 1 [] ['a' [null]]  ] tail");
    let expected = Value::Array(vec![
        Value::from(1),
        Value::Array(vec![]),
        Value::Array(vec![Value::from("a"), Value::Array(vec![Value::null()])]),
    ]);
    assert_eq!(cursor.parse_inline_array().unwrap(), Some(expected));
    assert!(cursor.see(" tail"));
}

#[test]
fn indentions() {
    let mut cursor = LineParser::new(0, "\t\t x");
    assert!(!cursor.have_indentions(Indention::Tabs, 3));
    assert!(cursor.see("\t\t x"));
    assert!(cursor.have_indentions(Indention::Tabs, 2));
    assert!(cursor.see(" x"));
    let mut cursor = LineParser::new(0, "      x");
    assert!(!cursor.have_indentions(Indention::Spaces(4), 2));
    assert!(!cursor.have_indentions(Indention::Spaces(usize::MAX), 2));
    assert!(cursor.have_indentions(Indention::Spaces(3), 2));
    assert!(cursor.see("x"));
    assert!(cursor.have_indentions(Indention::Tabs, 0));
}

#[test]
fn errors_carry_the_line() {
    let mut cursor = LineParser::new(7, "abc");
    cursor.advance_by(2);
    let error = cursor.generate_error(ParserErrorKind::UnexpectedCharacter);
    assert_eq!(error.kind, ParserErrorKind::UnexpectedCharacter);
    assert_eq!(error.line_number, 7);
    assert_eq!(error.column_number, 2);
    assert_eq!(error.line, "abc");
}

#[test]
fn columns_count_characters() {
    let mut cursor = LineParser::new(0, "'\u{e9}t\u{e9}' x");
    assert_eq!(
        cursor.parse_string_literal().unwrap(),
        Some("\u{e9}t\u{e9}".to_string())
    );
    cursor.consume_whitespaces();
    let error = cursor.generate_error(ParserErrorKind::UnexpectedCharacter);
    assert_eq!(error.column_number, 6);
}

#[test]
fn lines_of_a_text() {
    fn lines(s: &str) -> Vec<String> {
        lines_of(&chars_of(s))
            .iter()
            .map(|line| line.iter().collect::<String>())
            .collect()
    }
    assert_eq!(lines(""), Vec::<String>::new());
    assert_eq!(lines("a"), vec!["a"]);
    assert_eq!(lines("a\n"), vec!["a"]);
    assert_eq!(lines("a\n\nb"), vec!["a", "", "b"]);
    assert_eq!(lines("\n"), vec![""]);
    assert_eq!(lines("a\r\nb\r"), vec!["a", "b\r"]);
    assert_eq!(lines("a\r\r\n"), vec!["a\r"]);
}
