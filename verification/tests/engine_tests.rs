use json_engine::errors::{LexicalErrorKind, ParseErrorKind};
use json_engine::parser::Parser;
use json_engine::scanner::Scanner;
use json_engine::{deserialize_value, serialize_value, Value};

fn s(text: &str) -> String {
    String::from(text)
}

#[test]
fn test_deserialize_document() {
    let input = "{\"arrayField\": [\"abacaba\", false, 42], \"nullField\": null}";
    let value = deserialize_value(input).expect("document must parse");
    let expected = Value::Obj(vec![
        (
            s("arrayField"),
            Value::Arr(vec![
                Value::Str(s("abacaba")),
                Value::Bool(false),
                Value::Num(s("42")),
            ]),
        ),
        (s("nullField"), Value::Null),
    ]);
    assert_eq!(value, expected);
}

#[test]
fn test_duplicate_key_fails() {
    assert!(deserialize_value("{\"a\":1,\"a\":2}").is_none());
}

#[test]
fn test_duplicate_key_is_semantic_error() {
    let mut scanner = Scanner::new("{\"a\":1,\"a\":2}");
    scanner.scan_tokens();
    assert!(scanner.errors.is_empty());
    let mut parser = Parser::new(scanner.tokens);
    let result = parser.parse_tokens();
    assert!(result.is_none());
    assert!(matches!(parser.errors[0].kind, ParseErrorKind::DuplicateKey));
    assert_eq!(parser.errors[0].line, 1);
}

#[test]
fn test_trailing_comma_in_array_fails() {
    assert!(deserialize_value("[1,]").is_none());
}

#[test]
fn test_trailing_comma_in_object_fails() {
    assert!(deserialize_value("{\"a\":1,}").is_none());
}

#[test]
fn test_number_grammar_boundary() {
    assert!(deserialize_value("01").is_none());
    assert!(deserialize_value("1.").is_none());
    assert!(deserialize_value("1e").is_none());
    assert_eq!(deserialize_value("0"), Some(Value::Num(s("0"))));
    assert_eq!(deserialize_value("0.5"), Some(Value::Num(s("0.5"))));
    assert_eq!(deserialize_value("-0"), Some(Value::Num(s("-0"))));
    assert_eq!(deserialize_value("1e10"), Some(Value::Num(s("1e10"))));
    assert_eq!(deserialize_value("-1.5E-3"), Some(Value::Num(s("-1.5E-3"))));
}

#[test]
fn test_leading_zero_is_lexical_error() {
    let mut scanner = Scanner::new("01");
    scanner.scan_tokens();
    assert_eq!(scanner.errors.len(), 1);
    assert!(matches!(
        scanner.errors[0].kind,
        LexicalErrorKind::MalformedNumber
    ));
}

#[test]
fn test_unterminated_string_fails() {
    assert!(deserialize_value("\"unterminated").is_none());
    let mut scanner = Scanner::new("\"abc");
    scanner.scan_tokens();
    assert_eq!(scanner.errors.len(), 1);
    assert!(matches!(
        scanner.errors[0].kind,
        LexicalErrorKind::UnterminatedString
    ));
}

#[test]
fn test_unterminated_object_fails() {
    let mut scanner = Scanner::new("{");
    scanner.scan_tokens();
    assert!(scanner.errors.is_empty());
    let mut parser = Parser::new(scanner.tokens);
    let result = parser.parse_tokens();
    assert!(result.is_none());
    assert!(parser
        .errors
        .iter()
        .any(|e| matches!(e.kind, ParseErrorKind::UnexpectedEof)));
}

#[test]
fn test_keyword_literals() {
    assert_eq!(deserialize_value("true"), Some(Value::Bool(true)));
    assert_eq!(deserialize_value("false"), Some(Value::Bool(false)));
    assert_eq!(deserialize_value("null"), Some(Value::Null));
    assert_eq!(serialize_value(&Value::Bool(true)), "true");
}

#[test]
fn test_misspelled_keyword_fails() {
    assert!(deserialize_value("tru").is_none());
    let mut scanner = Scanner::new("nul");
    scanner.scan_tokens();
    assert_eq!(scanner.errors.len(), 1);
    assert!(matches!(
        scanner.errors[0].kind,
        LexicalErrorKind::MalformedKeyword
    ));
}

#[test]
fn test_unexpected_character_reports_line() {
    let mut scanner = Scanner::new("\n\n@");
    scanner.scan_tokens();
    assert_eq!(scanner.errors.len(), 1);
    assert!(matches!(
        scanner.errors[0].kind,
        LexicalErrorKind::UnexpectedCharacter
    ));
    assert_eq!(scanner.errors[0].line, 3);
}

#[test]
fn test_serializer_renderings() {
    assert_eq!(serialize_value(&Value::Null), "null");
    assert_eq!(serialize_value(&Value::Bool(false)), "false");
    assert_eq!(serialize_value(&Value::Num(s("-1.5E-3"))), "-1.5E-3");
    assert_eq!(serialize_value(&Value::Str(s("abc"))), "\"abc\"");
    assert_eq!(serialize_value(&Value::Arr(vec![])), "[]");
    assert_eq!(serialize_value(&Value::Obj(vec![])), "{}");
    let arr = Value::Arr(vec![
        Value::Str(s("x")),
        Value::Bool(false),
        Value::Num(s("42")),
    ]);
    assert_eq!(serialize_value(&arr), "[\"x\",false,42]");
    let obj = Value::Obj(vec![
        (s("a"), Value::Num(s("1"))),
        (s("b"), Value::Null),
    ]);
    assert_eq!(serialize_value(&obj), "{\"a\": 1,\"b\": null}");
}

#[test]
fn test_serialize_is_pure() {
    let v = Value::Obj(vec![
        (s("k"), Value::Arr(vec![Value::Num(s("7")), Value::Null])),
    ]);
    let first = serialize_value(&v);
    let second = serialize_value(&v);
    assert_eq!(first, second);
}

#[test]
fn test_round_trip_of_parsed_document() {
    let input = "{\"arrayField\": [\"abacaba\", false, 42], \"nullField\": null}";
    let value = deserialize_value(input).expect("document must parse");
    let text = serialize_value(&value);
    let again = deserialize_value(&text).expect("serialized text must parse");
    assert_eq!(value, again);
}

#[test]
fn test_round_trip_of_built_tree() {
    let v = Value::Arr(vec![
        Value::Null,
        Value::Bool(true),
        Value::Num(s("-0.25e2")),
        Value::Str(s("hi there")),
        Value::Obj(vec![(s("k"), Value::Num(s("1")))]),
    ]);
    let text = serialize_value(&v);
    assert_eq!(deserialize_value(&text), Some(v));
}

#[test]
fn test_whitespace_insensitivity() {
    let tight = deserialize_value("[1,{\"a\":true}]").expect("must parse");
    let spaced = deserialize_value(" [\t1 ,\n  { \"a\" :\r true\n} ] ").expect("must parse");
    assert_eq!(tight, spaced);
}

#[test]
fn test_newline_inside_string_is_content() {
    let value = deserialize_value("\"a\nb\"").expect("must parse");
    assert_eq!(value, Value::Str(s("a\nb")));
}

#[test]
fn test_empty_containers() {
    assert_eq!(deserialize_value("[]"), Some(Value::Arr(vec![])));
    assert_eq!(deserialize_value("{}"), Some(Value::Obj(vec![])));
}

#[test]
fn test_empty_and_blank_input_fail() {
    assert!(deserialize_value("").is_none());
    assert!(deserialize_value("   \n ").is_none());
}

#[test]
fn test_trailing_content_fails() {
    assert!(deserialize_value("1 2").is_none());
    assert!(deserialize_value("{} []").is_none());
}

#[test]
fn test_missing_colon_is_reported_but_member_continues() {
    let mut scanner = Scanner::new("{\"a\" 1}");
    scanner.scan_tokens();
    assert!(scanner.errors.is_empty());
    let mut parser = Parser::new(scanner.tokens);
    let result = parser.parse_tokens();
    assert!(result.is_some());
    assert_eq!(parser.errors.len(), 1);
    assert!(matches!(parser.errors[0].kind, ParseErrorKind::MissingColon));
    assert!(deserialize_value("{\"a\" 1}").is_none());
}

#[test]
fn test_missing_comma_fails() {
    let mut scanner = Scanner::new("[1 2]");
    scanner.scan_tokens();
    assert!(scanner.errors.is_empty());
    let mut parser = Parser::new(scanner.tokens);
    assert!(parser.parse_tokens().is_none());
    assert!(parser
        .errors
        .iter()
        .any(|e| matches!(e.kind, ParseErrorKind::MissingComma)));
}

#[test]
fn test_object_key_must_be_string() {
    let mut scanner = Scanner::new("{1:2}");
    scanner.scan_tokens();
    assert!(scanner.errors.is_empty());
    let mut parser = Parser::new(scanner.tokens);
    assert!(parser.parse_tokens().is_none());
    assert!(parser
        .errors
        .iter()
        .any(|e| matches!(e.kind, ParseErrorKind::ExpectedKey)));
}

#[test]
fn test_scanner_collects_every_lexical_error() {
    let mut scanner = Scanner::new("@ 01 tru");
    scanner.scan_tokens();
    assert_eq!(scanner.errors.len(), 3);
    assert!(matches!(
        scanner.errors[0].kind,
        LexicalErrorKind::UnexpectedCharacter
    ));
    assert!(matches!(
        scanner.errors[1].kind,
        LexicalErrorKind::MalformedNumber
    ));
    assert!(matches!(
        scanner.errors[2].kind,
        LexicalErrorKind::MalformedKeyword
    ));
}
