use json_parser::{
    parse, ErrorKind, JsonError, LexError, ParseError, Parser, Position, Value, DEFAULT_MAX_DEPTH,
};

fn number(text: &str) -> Value {
    Value::Number(text.to_string())
}

fn string(text: &str) -> Value {
    Value::String(text.to_string())
}

fn kind_of(text: &str) -> ErrorKind {
    parse(text).unwrap_err().kind
}

fn lex(kind: LexError) -> ErrorKind {
    ErrorKind::Lex(kind)
}

fn syntax(kind: ParseError) -> ErrorKind {
    ErrorKind::Parse(kind)
}

#[test]
fn empty_object_has_no_members() {
    assert_eq!(parse("{}"), Ok(Value::Object(vec![])));
    assert_eq!(parse(" { \n } "), Ok(Value::Object(vec![])));
}

#[test]
fn empty_array_has_no_items() {
    assert_eq!(parse("[]"), Ok(Value::Array(vec![])));
    assert_eq!(parse("[ \t ]"), Ok(Value::Array(vec![])));
}

#[test]
fn literals_parse_to_their_values() {
    assert_eq!(parse("null"), Ok(Value::Null));
    assert_eq!(parse("true"), Ok(Value::Boolean(true)));
    assert_eq!(parse("false"), Ok(Value::Boolean(false)));
    assert_eq!(parse("  true\n"), Ok(Value::Boolean(true)));
}

#[test]
fn duplicate_key_keeps_the_last_value() {
    let parsed = parse("{\"a\":1,\"a\":2}").unwrap();
    assert_eq!(parsed, Value::Object(vec![("a".to_string(), number("2"))]));
}

#[test]
fn duplicate_key_keeps_its_first_place() {
    let parsed = parse("{\"a\":1,\"b\":2,\"a\":3}").unwrap();
    assert_eq!(
        parsed,
        Value::Object(vec![("a".to_string(), number("3")), ("b".to_string(), number("2"))])
    );
}

#[test]
fn members_keep_their_order() {
    let parsed = parse("{\"z\":null,\"a\":true,\"m\":[]}").unwrap();
    assert_eq!(
        parsed,
        Value::Object(vec![
            ("z".to_string(), Value::Null),
            ("a".to_string(), Value::Boolean(true)),
            ("m".to_string(), Value::Array(vec![])),
        ])
    );
}

#[test]
fn trailing_comma_in_array_is_rejected() {
    let error = parse("[1,2,]").unwrap_err();
    assert_eq!(error.kind, syntax(ParseError::TrailingComma));
    assert_eq!(error.position, Position { offset: 4, line: 1, column: 4 });
}

#[test]
fn trailing_comma_in_object_is_rejected() {
    let error = parse("{\"a\":1,}").unwrap_err();
    assert_eq!(error.kind, syntax(ParseError::TrailingComma));
    assert_eq!(error.position, Position { offset: 6, line: 1, column: 6 });
}

#[test]
fn malformed_numbers_are_rejected() {
    assert_eq!(kind_of("01"), lex(LexError::InvalidNumber));
    assert_eq!(kind_of("-"), lex(LexError::InvalidNumber));
    assert_eq!(kind_of("1."), lex(LexError::InvalidNumber));
    assert_eq!(kind_of("1e"), lex(LexError::InvalidNumber));
    assert_eq!(kind_of("012"), lex(LexError::InvalidNumber));
    assert_eq!(kind_of("-a"), lex(LexError::InvalidNumber));
    assert_eq!(kind_of("1e+"), lex(LexError::InvalidNumber));
    assert_eq!(kind_of("1.e5"), lex(LexError::InvalidNumber));
    assert_eq!(kind_of("-01"), lex(LexError::InvalidNumber));
}

#[test]
fn well_formed_numbers_are_accepted() {
    assert_eq!(parse("-0"), Ok(number("-0")));
    assert_eq!(parse("0"), Ok(number("0")));
    assert_eq!(parse("1e10"), Ok(number("1e10")));
    assert_eq!(parse("3.14159"), Ok(number("3.14159")));
    assert_eq!(parse("-12.5E-3"), Ok(number("-12.5E-3")));
    assert_eq!(parse("0.0"), Ok(number("0.0")));
    assert_eq!(parse("0e0"), Ok(number("0e0")));
    assert_eq!(parse("10"), Ok(number("10")));
}

#[test]
fn number_literals_convert_to_floats() {
    let cases: [(&str, f64); 5] =
        [("-0", -0.0), ("0", 0.0), ("1e10", 1e10), ("3.14159", 3.14159), ("1e400", f64::INFINITY)];
    for (text, expected) in cases {
        match parse(text).unwrap() {
            Value::Number(literal) => assert_eq!(literal.parse::<f64>().unwrap(), expected),
            other => panic!("not a number: {:?}", other),
        }
    }
}

#[test]
fn number_stops_before_what_is_no_part_of_it() {
    assert_eq!(parse("[1,2]"), Ok(Value::Array(vec![number("1"), number("2")])));
    let error = parse("1.5.3").unwrap_err();
    assert_eq!(error.kind, lex(LexError::UnexpectedCharacter('.')));
    assert_eq!(error.position.offset, 3);
    assert_eq!(kind_of("1x"), lex(LexError::UnexpectedCharacter('x')));
}

#[test]
fn unterminated_string_is_rejected() {
    let error = parse("\"abc").unwrap_err();
    assert_eq!(error.kind, lex(LexError::UnterminatedString));
    assert_eq!(error.position, Position { offset: 0, line: 1, column: 0 });
    assert_eq!(kind_of("\"abc\\"), lex(LexError::UnterminatedString));
    assert_eq!(kind_of("\"abc\\u12"), lex(LexError::UnterminatedString));
}

#[test]
fn unterminated_array_is_rejected() {
    let error = parse("[1,2").unwrap_err();
    assert_eq!(error.kind, syntax(ParseError::UnexpectedToken));
    assert_eq!(error.position, Position { offset: 4, line: 1, column: 4 });
}

#[test]
fn unterminated_object_is_rejected() {
    assert_eq!(kind_of("{\"a\":1"), syntax(ParseError::UnexpectedToken));
    assert_eq!(kind_of("{"), syntax(ParseError::UnexpectedToken));
    assert_eq!(kind_of("{\"a\""), syntax(ParseError::ExpectedColon));
    assert_eq!(kind_of("{\"a\":"), syntax(ParseError::UnexpectedToken));
}

#[test]
fn empty_input_is_rejected() {
    assert_eq!(kind_of(""), syntax(ParseError::UnexpectedToken));
    assert_eq!(kind_of("  \n "), syntax(ParseError::UnexpectedToken));
}

fn nested(depth: usize) -> String {
    let mut text = String::new();
    for _ in 0..depth {
        text.push('[');
    }
    for _ in 0..depth {
        text.push(']');
    }
    text
}

#[test]
fn deep_nesting_is_rejected() {
    let mut text = String::new();
    for _ in 0..10_000 {
        text.push('[');
    }
    let error = parse(&text).unwrap_err();
    assert_eq!(error.kind, syntax(ParseError::MaxDepthExceeded));
    assert_eq!(error.position, Position { offset: 512, line: 1, column: 512 });
    assert_eq!(kind_of(&nested(10_000)), syntax(ParseError::MaxDepthExceeded));
}

#[test]
fn nesting_up_to_the_limit_is_accepted() {
    assert_eq!(DEFAULT_MAX_DEPTH, 512);
    assert!(parse(&nested(512)).is_ok());
    assert_eq!(kind_of(&nested(513)), syntax(ParseError::MaxDepthExceeded));
}

#[test]
fn nesting_limit_can_be_chosen() {
    let mut shallow = Parser::with_max_depth("[[1]]".chars().collect(), 2);
    assert_eq!(
        shallow.parse(),
        Ok(Value::Array(vec![Value::Array(vec![number("1")])]))
    );
    let mut flat = Parser::with_max_depth("[[1]]".chars().collect(), 1);
    let error = flat.parse().unwrap_err();
    assert_eq!(error.kind, syntax(ParseError::MaxDepthExceeded));
    assert_eq!(error.position.offset, 1);
    let mut none = Parser::with_max_depth("{}".chars().collect(), 0);
    assert_eq!(none.parse().unwrap_err().kind, syntax(ParseError::MaxDepthExceeded));
    let mut leaf = Parser::with_max_depth("7".chars().collect(), 0);
    assert_eq!(leaf.parse(), Ok(number("7")));
}

#[test]
fn objects_count_towards_the_nesting_limit() {
    let mut parser = Parser::with_max_depth("{\"a\":[{\"b\":1}]}".chars().collect(), 2);
    let error = parser.parse().unwrap_err();
    assert_eq!(error.kind, syntax(ParseError::MaxDepthExceeded));
    assert_eq!(error.position.offset, 6);
}

#[test]
fn whitespace_between_tokens_changes_nothing() {
    let spaced = parse("{ \"a\" : 1 , \"b\" : 2 }");
    let tight = parse("{\"a\":1,\"b\":2}");
    assert!(spaced.is_ok());
    assert_eq!(spaced, tight);
    assert_eq!(parse("\t[\r\n1 ,\n 2 ]\n"), parse("[1,2]"));
}

#[test]
fn whitespace_inside_a_string_is_kept() {
    assert_eq!(parse("\" a \\t b \""), Ok(string(" a \t b ")));
}

#[test]
fn simple_escapes_are_decoded() {
    assert_eq!(
        parse("\"\\\" \\\\ \\/ \\b \\f \\n \\r \\t\""),
        Ok(string("\" \\ / \u{8} \u{c} \n \r \t"))
    );
}

#[test]
fn unicode_escapes_are_decoded() {
    assert_eq!(parse("\"\\u0041\\u00e9\\u20AC\""), Ok(string("A\u{e9}\u{20ac}")));
    assert_eq!(parse("\"\\u0000\""), Ok(string("\u{0}")));
    assert_eq!(parse("\"\\uFFFF\""), Ok(string("\u{ffff}")));
}

#[test]
fn surrogate_pair_becomes_one_code_point() {
    assert_eq!(parse("\"\\uD83D\\uDE00\""), Ok(string("\u{1F600}")));
    assert_eq!(parse("\"\\uD800\\uDC00\""), Ok(string("\u{10000}")));
    assert_eq!(parse("\"\\uDBFF\\uDFFF\""), Ok(string("\u{10FFFF}")));
}

#[test]
fn lone_surrogate_becomes_the_replacement_character() {
    assert_eq!(parse("\"\\uD83D\""), Ok(string("\u{FFFD}")));
    assert_eq!(parse("\"\\uDE00\""), Ok(string("\u{FFFD}")));
    assert_eq!(parse("\"\\uD83Dx\""), Ok(string("\u{FFFD}x")));
    assert_eq!(parse("\"\\uD83D\\n\""), Ok(string("\u{FFFD}\n")));
    assert_eq!(parse("\"\\uD83D\\u0041\""), Ok(string("\u{FFFD}A")));
    assert_eq!(parse("\"\\uD83D\\uD83D\\uDE00\""), Ok(string("\u{FFFD}\u{1F600}")));
    assert_eq!(parse("\"\\uDE00\\uD83D\""), Ok(string("\u{FFFD}\u{FFFD}")));
}

#[test]
fn error_after_a_lone_surrogate_is_reported() {
    assert_eq!(kind_of("\"\\uD83D\\x\""), lex(LexError::InvalidEscape));
    assert_eq!(kind_of("\"\\uD83D\\u12\""), lex(LexError::InvalidEscape));
    assert_eq!(kind_of("\"\\uD83D\\u12"), lex(LexError::UnterminatedString));
    assert_eq!(kind_of("\"\\uD83D\\"), lex(LexError::UnterminatedString));
    assert_eq!(kind_of("\"\\uD83D"), lex(LexError::UnterminatedString));
}

#[test]
fn invalid_escape_is_rejected() {
    let error = parse("[\"a\\xb\"]").unwrap_err();
    assert_eq!(error.kind, lex(LexError::InvalidEscape));
    assert_eq!(error.position.offset, 1);
    assert_eq!(kind_of("\"\\u12G4\""), lex(LexError::InvalidEscape));
    assert_eq!(kind_of("\"\\u123\""), lex(LexError::InvalidEscape));
    assert_eq!(kind_of("\"\\U0041\""), lex(LexError::InvalidEscape));
    assert_eq!(kind_of("\"\\'\""), lex(LexError::InvalidEscape));
}

#[test]
fn escaped_quote_does_not_end_the_string() {
    assert_eq!(parse("\"a\\\"b\""), Ok(string("a\"b")));
    assert_eq!(parse("\"\\\\\""), Ok(string("\\")));
    assert_eq!(kind_of("\"\\\""), lex(LexError::UnterminatedString));
}

#[test]
fn characters_beyond_ascii_pass_through() {
    assert_eq!(parse("\"h\u{e9}llo \u{4e16}\u{754c} \u{1F600}\""), Ok(string("h\u{e9}llo \u{4e16}\u{754c} \u{1F600}")));
}

#[test]
fn unknown_literal_names_the_unexpected_character() {
    let error = parse("[trux]").unwrap_err();
    assert_eq!(error.kind, lex(LexError::UnknownLiteral(Some('x'))));
    assert_eq!(error.position.offset, 1);
    assert_eq!(kind_of("tru"), lex(LexError::UnknownLiteral(None)));
    assert_eq!(kind_of("True"), lex(LexError::UnexpectedCharacter('T')));
    assert_eq!(kind_of("tRue"), lex(LexError::UnknownLiteral(Some('R'))));
    assert_eq!(kind_of("nul"), lex(LexError::UnknownLiteral(None)));
    assert_eq!(kind_of("nil"), lex(LexError::UnknownLiteral(Some('i'))));
    assert_eq!(kind_of("fals "), lex(LexError::UnknownLiteral(Some(' '))));
    assert_eq!(kind_of("f"), lex(LexError::UnknownLiteral(None)));
}

#[test]
fn unexpected_character_is_rejected() {
    let error = parse(" @").unwrap_err();
    assert_eq!(error.kind, lex(LexError::UnexpectedCharacter('@')));
    assert_eq!(error.position, Position { offset: 1, line: 1, column: 1 });
    assert_eq!(kind_of("[1, #]"), lex(LexError::UnexpectedCharacter('#')));
    assert_eq!(kind_of("'a'"), lex(LexError::UnexpectedCharacter('\'')));
}

#[test]
fn missing_colon_is_rejected() {
    let error = parse("{\"a\" 1}").unwrap_err();
    assert_eq!(error.kind, syntax(ParseError::ExpectedColon));
    assert_eq!(error.position.offset, 5);
    assert_eq!(kind_of("{\"a\",1}"), syntax(ParseError::ExpectedColon));
}

#[test]
fn key_must_be_a_string() {
    let error = parse("{1:2}").unwrap_err();
    assert_eq!(error.kind, syntax(ParseError::UnexpectedToken));
    assert_eq!(error.position.offset, 1);
    assert_eq!(kind_of("{,}"), syntax(ParseError::UnexpectedToken));
    assert_eq!(kind_of("{\"a\":1,2}"), syntax(ParseError::UnexpectedToken));
}

#[test]
fn unexpected_token_is_rejected() {
    assert_eq!(kind_of("]"), syntax(ParseError::UnexpectedToken));
    assert_eq!(kind_of(","), syntax(ParseError::UnexpectedToken));
    assert_eq!(kind_of("[,1]"), syntax(ParseError::UnexpectedToken));
    assert_eq!(kind_of("[1 2]"), syntax(ParseError::UnexpectedToken));
    assert_eq!(kind_of("[1:2]"), syntax(ParseError::UnexpectedToken));
    assert_eq!(kind_of("[1}"), syntax(ParseError::UnexpectedToken));
    assert_eq!(kind_of("{\"a\":1]"), syntax(ParseError::UnexpectedToken));
    assert_eq!(kind_of("[1,,2]"), syntax(ParseError::UnexpectedToken));
}

#[test]
fn trailing_content_is_rejected() {
    let error = parse("[] []").unwrap_err();
    assert_eq!(error.kind, syntax(ParseError::TrailingContent));
    assert_eq!(error.position.offset, 3);
    assert_eq!(kind_of("1 2"), syntax(ParseError::TrailingContent));
    assert_eq!(kind_of("{}}"), syntax(ParseError::TrailingContent));
    assert_eq!(kind_of("null,"), syntax(ParseError::TrailingContent));
    assert_eq!(kind_of("truex"), lex(LexError::UnexpectedCharacter('x')));
}

#[test]
fn first_error_is_the_one_reported() {
    assert_eq!(kind_of("[1 2 @"), syntax(ParseError::UnexpectedToken));
    assert_eq!(kind_of("[@,]"), lex(LexError::UnexpectedCharacter('@')));
    assert_eq!(kind_of("[1,@]"), lex(LexError::UnexpectedCharacter('@')));
}

#[test]
fn nested_document_is_built_bottom_up() {
    let parsed = parse("{\"list\":[1,{\"x\":null},\"s\"],\"flag\":false}").unwrap();
    assert_eq!(
        parsed,
        Value::Object(vec![
            (
                "list".to_string(),
                Value::Array(vec![
                    number("1"),
                    Value::Object(vec![("x".to_string(), Value::Null)]),
                    string("s"),
                ])
            ),
            ("flag".to_string(), Value::Boolean(false)),
        ])
    );
}

#[test]
fn error_position_counts_lines_and_columns() {
    let error = parse("[1,\n  2,\n  @]").unwrap_err();
    assert_eq!(error.kind, lex(LexError::UnexpectedCharacter('@')));
    assert_eq!(error.position, Position { offset: 11, line: 3, column: 2 });
    assert_eq!(error.offset(), 11);
    assert_eq!(error.line(), 3);
    assert_eq!(error.column(), 2);
}

#[test]
fn error_offset_counts_bytes() {
    let error = parse("[\"\u{e9}\u{4e16}\u{1F600}\", @]").unwrap_err();
    assert_eq!(error.kind, lex(LexError::UnexpectedCharacter('@')));
    assert_eq!(error.position, Position { offset: 14, line: 1, column: 8 });
}

#[test]
fn error_of_a_string_points_at_its_opening_quote() {
    let error = parse("{\"key\": \"abc\\q\"}").unwrap_err();
    assert_eq!(error.kind, lex(LexError::InvalidEscape));
    assert_eq!(error.position, Position { offset: 8, line: 1, column: 8 });
}

#[test]
fn errors_tell_their_family() {
    assert!(parse("@").unwrap_err().is_lexical());
    assert!(!parse("]").unwrap_err().is_lexical());
}

#[test]
fn each_error_has_a_message() {
    let at = Position { offset: 0, line: 1, column: 0 };
    let message = |kind: ErrorKind| JsonError { kind, position: at }.message();
    assert_eq!(message(lex(LexError::InvalidEscape)), "invalid escape sequence in string");
    assert_eq!(message(lex(LexError::UnterminatedString)), "unterminated string");
    assert_eq!(message(lex(LexError::InvalidNumber)), "invalid number");
    assert_eq!(message(lex(LexError::UnknownLiteral(None))), "unknown literal");
    assert_eq!(message(lex(LexError::UnexpectedCharacter('x'))), "unexpected character");
    assert_eq!(message(syntax(ParseError::UnexpectedToken)), "unexpected token");
    assert_eq!(
        message(syntax(ParseError::ExpectedColon)),
        "expected a colon after the object key"
    );
    assert_eq!(message(syntax(ParseError::TrailingComma)), "trailing comma");
    assert_eq!(
        message(syntax(ParseError::TrailingContent)),
        "trailing content after the value"
    );
    assert_eq!(
        message(syntax(ParseError::MaxDepthExceeded)),
        "maximum nesting depth exceeded"
    );
}

#[test]
fn parser_reads_one_document() {
    let mut parser = Parser::new("[true]".chars().collect());
    assert_eq!(parser.parse(), Ok(Value::Array(vec![Value::Boolean(true)])));
    assert_eq!(parser.parse().unwrap_err().kind, syntax(ParseError::UnexpectedToken));
}

#[test]
fn parser_reads_values_one_by_one() {
    let mut parser = Parser::new("1 [2] {\"a\":3}".chars().collect());
    assert_eq!(parser.parse_value(0), Ok(number("1")));
    assert_eq!(parser.parse_value(0), Ok(Value::Array(vec![number("2")])));
    assert_eq!(
        parser.parse_value(0),
        Ok(Value::Object(vec![("a".to_string(), number("3"))]))
    );
    assert_eq!(parser.parse_value(0).unwrap_err().kind, syntax(ParseError::UnexpectedToken));
}

#[test]
fn parser_reads_the_rest_of_an_array_or_object() {
    let mut parser = Parser::new("1,2] \"k\":null}".chars().collect());
    assert_eq!(parser.parse_array(1), Ok(Value::Array(vec![number("1"), number("2")])));
    assert_eq!(
        parser.parse_object(1),
        Ok(Value::Object(vec![("k".to_string(), Value::Null)]))
    );
}
