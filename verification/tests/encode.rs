use json_parser::encode::write_value;
use json_parser::{encode, parse, Lexer, Position, Token, TokenKind, Value};

fn number(text: &str) -> Value {
    Value::Number(text.to_string())
}

fn string(text: &str) -> Value {
    Value::String(text.to_string())
}

fn member(key: &str, value: Value) -> (String, Value) {
    (key.to_string(), value)
}

#[test]
fn leaves_are_encoded_as_written() {
    assert_eq!(encode(&Value::Null), "null");
    assert_eq!(encode(&Value::Boolean(true)), "true");
    assert_eq!(encode(&Value::Boolean(false)), "false");
    assert_eq!(encode(&number("-12.5e3")), "-12.5e3");
    assert_eq!(encode(&string("abc")), "\"abc\"");
    assert_eq!(encode(&string("")), "\"\"");
}

#[test]
fn arrays_and_objects_are_encoded_without_whitespace() {
    assert_eq!(encode(&Value::Array(vec![])), "[]");
    assert_eq!(encode(&Value::Object(vec![])), "{}");
    assert_eq!(encode(&Value::Array(vec![number("1")])), "[1]");
    assert_eq!(
        encode(&Value::Array(vec![number("1"), Value::Null, Value::Array(vec![])])),
        "[1,null,[]]"
    );
    assert_eq!(
        encode(&Value::Object(vec![
            member("a", number("1")),
            member("b", Value::Object(vec![member("c", Value::Boolean(true))])),
        ])),
        "{\"a\":1,\"b\":{\"c\":true}}"
    );
}

#[test]
fn quote_backslash_and_control_characters_are_escaped() {
    assert_eq!(encode(&string("a\"b")), "\"a\\\"b\"");
    assert_eq!(encode(&string("a\\b")), "\"a\\\\b\"");
    assert_eq!(encode(&string("\n\r\t\u{8}\u{c}")), "\"\\n\\r\\t\\b\\f\"");
    assert_eq!(encode(&string("\u{0}\u{1}\u{1f}\u{b}")), "\"\\u0000\\u0001\\u001f\\u000b\"");
    assert_eq!(encode(&string("/ \u{7f} \u{e9} \u{1F600}")), "\"/ \u{7f} \u{e9} \u{1F600}\"");
}

#[test]
fn write_value_appends() {
    let mut out = String::from("x=");
    write_value(&Value::Array(vec![Value::Null, Value::Null]), &mut out);
    assert_eq!(out, "x=[null,null]");
}

#[test]
fn encoding_is_parsed_back_to_the_value() {
    let values = vec![
        Value::Null,
        Value::Boolean(false),
        number("0"),
        number("-1.25E+7"),
        string("plain"),
        string("quote \" backslash \\ slash / tab \t newline \n bell \u{7} nul \u{0}"),
        string("\u{e9}\u{4e16}\u{1F600}\u{FFFD}"),
        Value::Array(vec![]),
        Value::Object(vec![]),
        Value::Array(vec![number("1"), Value::Array(vec![Value::Array(vec![])]), string("x")]),
        Value::Object(vec![
            member("", Value::Null),
            member("k\"ey", Value::Array(vec![Value::Object(vec![member("n", number("2"))])])),
            member("z", string("\\u0041")),
        ]),
    ];
    for value in values {
        assert_eq!(parse(&encode(&value)), Ok(value));
    }
}

#[test]
fn parsed_text_round_trips() {
    let texts = [
        "null",
        " [ 1 , 2.5e-3 , \"a\\u0041\\n\" , { \"k\" : [ ] , \"k\" : true } ] ",
        "{\"a\":{\"b\":{\"c\":[[[\"\\uD83D\\uDE00\"]]]}}}",
        "\"\\uD800 and \\/ and \\b\"",
        "-0",
    ];
    for text in texts {
        let value = parse(text).unwrap();
        let again = parse(&encode(&value)).unwrap();
        assert_eq!(again, value);
        assert_eq!(encode(&again), encode(&value));
    }
}

#[test]
fn escaped_content_is_decoded_without_backslashes() {
    let parsed = parse("\"tab\\there \\\"quoted\\\" \\u0041\\/\\n\"").unwrap();
    match parsed {
        Value::String(text) => {
            assert_eq!(text, "tab\there \"quoted\" A/\n");
            assert!(!text.contains('\\'));
        }
        other => panic!("not a string: {:?}", other),
    }
}

#[test]
fn only_an_escaped_backslash_gives_a_backslash() {
    assert_eq!(parse("\"a\\\\nb\""), Ok(string("a\\nb")));
    assert_eq!(parse("\"\\u005c\""), Ok(string("\\")));
    assert_eq!(parse("\"\\u005C\\u005c\""), Ok(string("\\\\")));
}

#[test]
fn lex_gives_all_tokens() {
    let mut lexer = Lexer::new("{\"a\": [1, true]}\n".chars().collect());
    let tokens = lexer.lex().unwrap();
    let kinds: Vec<TokenKind> = tokens.iter().map(|t| t.kind.clone()).collect();
    assert_eq!(
        kinds,
        vec![
            TokenKind::BraceOpen,
            TokenKind::String("a".to_string()),
            TokenKind::Colon,
            TokenKind::BracketOpen,
            TokenKind::Number("1".to_string()),
            TokenKind::Comma,
            TokenKind::Boolean(true),
            TokenKind::BracketClose,
            TokenKind::BraceClose,
        ]
    );
    assert_eq!(tokens[4].position, Position { offset: 7, line: 1, column: 7 });
    assert_eq!(lexer.lex(), Ok(Vec::<Token>::new()));
    assert_eq!(lexer.position(), Position { offset: 17, line: 2, column: 0 });
}

#[test]
fn lex_of_nothing_is_empty() {
    assert_eq!(Lexer::new(vec![]).lex(), Ok(vec![]));
    assert_eq!(Lexer::new("  \n\t ".chars().collect()).lex(), Ok(vec![]));
}

#[test]
fn lex_stops_at_the_first_malformed_token() {
    let mut lexer = Lexer::new("[1, 0x, @]".chars().collect());
    let error = lexer.lex().unwrap_err();
    assert_eq!(
        error.kind,
        json_parser::ErrorKind::Lex(json_parser::LexError::UnexpectedCharacter('x'))
    );
    assert_eq!(error.position.offset, 5);
}

#[test]
fn same_tokens_give_the_same_value() {
    let texts = ["[1,{\"a\":null}]", " [ 1 , { \"a\" : null } ] ", "\n[\n1\n,\n{\n\"a\"\n:\nnull\n}\n]\n", "[1,\t{\"a\":\rnull}]"];
    let first = parse(texts[0]).unwrap();
    for text in texts {
        assert_eq!(parse(text).unwrap(), first);
    }
}
