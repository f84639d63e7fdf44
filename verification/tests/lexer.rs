use json_parser::lexer::{digit, escape_letter, hex_digit, whitespace};
use json_parser::parser::chars_of;
use json_parser::position::char_width;
use json_parser::value::insert_member;
use json_parser::{
    Cursor, ErrorKind, LexError, Lexer, Position, Token, TokenKind, Value,
};

fn lexer(text: &str) -> Lexer {
    Lexer::new(text.chars().collect())
}

fn kinds(text: &str) -> Vec<TokenKind> {
    let mut lexer = lexer(text);
    let mut out = Vec::new();
    loop {
        let token = lexer.next_token().unwrap();
        if token.kind == TokenKind::EndOfInput {
            return out;
        }
        out.push(token.kind);
    }
}

#[test]
fn cursor_peeks_without_consuming() {
    let mut cursor = Cursor::new(vec!['a', 'b']);
    assert_eq!(cursor.peek(), Some('a'));
    assert_eq!(cursor.peek(), Some('a'));
    assert_eq!(cursor.advance(), Some('a'));
    assert_eq!(cursor.peek(), Some('b'));
    assert_eq!(cursor.advance(), Some('b'));
    assert_eq!(cursor.peek(), None);
    assert_eq!(cursor.advance(), None);
    assert_eq!(cursor.advance(), None);
    assert_eq!(cursor.position(), Position { offset: 2, line: 1, column: 2 });
}

#[test]
fn cursor_starts_at_line_one_column_zero() {
    let cursor = Cursor::new(vec!['x']);
    assert_eq!(cursor.position(), Position { offset: 0, line: 1, column: 0 });
    assert_eq!(Position::start(), Position { offset: 0, line: 1, column: 0 });
    let empty = Cursor::new(vec![]);
    assert_eq!(empty.peek(), None);
    assert_eq!(empty.position(), Position { offset: 0, line: 1, column: 0 });
}

#[test]
fn cursor_counts_lines_and_columns() {
    let mut cursor = Cursor::new("ab\ncd\n".chars().collect());
    cursor.advance();
    assert_eq!(cursor.position(), Position { offset: 1, line: 1, column: 1 });
    cursor.advance();
    assert_eq!(cursor.position(), Position { offset: 2, line: 1, column: 2 });
    cursor.advance();
    assert_eq!(cursor.position(), Position { offset: 3, line: 2, column: 0 });
    cursor.advance();
    cursor.advance();
    assert_eq!(cursor.position(), Position { offset: 5, line: 2, column: 2 });
    cursor.advance();
    assert_eq!(cursor.position(), Position { offset: 6, line: 3, column: 0 });
}

#[test]
fn cursor_offset_counts_bytes() {
    let mut cursor = Cursor::new("a\u{e9}\u{4e16}\u{1F600}".chars().collect());
    let mut offsets = Vec::new();
    while cursor.advance().is_some() {
        offsets.push(cursor.position().offset);
    }
    assert_eq!(offsets, vec![1, 3, 6, 10]);
    assert_eq!(cursor.position().column, 4);
}

#[test]
fn position_steps_over_a_character() {
    let at = Position { offset: 7, line: 2, column: 3 };
    assert_eq!(at.step('x'), Position { offset: 8, line: 2, column: 4 });
    assert_eq!(at.step('\n'), Position { offset: 8, line: 3, column: 0 });
    assert_eq!(at.step('\u{1F600}'), Position { offset: 11, line: 2, column: 4 });
    let last = Position { offset: usize::MAX, line: usize::MAX, column: usize::MAX };
    assert_eq!(last.step('x'), last);
    assert_eq!(last.step('\n'), Position { offset: usize::MAX, line: usize::MAX, column: 0 });
}

#[test]
fn char_width_is_the_utf8_length() {
    for c in ['\u{0}', 'a', '\u{7f}', '\u{80}', '\u{7ff}', '\u{800}', '\u{ffff}', '\u{10000}', '\u{10ffff}'] {
        assert_eq!(char_width(c), c.len_utf8());
    }
}

#[test]
fn character_classes() {
    for c in [' ', '\t', '\n', '\r'] {
        assert!(whitespace(c));
    }
    for c in ['a', '\u{b}', '\u{c}', '\u{a0}', '0'] {
        assert!(!whitespace(c));
    }
    assert!(digit('0') && digit('9') && !digit('a') && !digit('/') && !digit(':'));
    assert_eq!(hex_digit('0'), Some(0));
    assert_eq!(hex_digit('9'), Some(9));
    assert_eq!(hex_digit('a'), Some(10));
    assert_eq!(hex_digit('F'), Some(15));
    assert_eq!(hex_digit('g'), None);
    assert_eq!(hex_digit('G'), None);
    assert_eq!(escape_letter('n'), Some('\n'));
    assert_eq!(escape_letter('b'), Some('\u{8}'));
    assert_eq!(escape_letter('f'), Some('\u{c}'));
    assert_eq!(escape_letter('/'), Some('/'));
    assert_eq!(escape_letter('u'), None);
    assert_eq!(escape_letter('x'), None);
}

#[test]
fn structural_tokens_are_classified() {
    assert_eq!(
        kinds("{}[]:,"),
        vec![
            TokenKind::BraceOpen,
            TokenKind::BraceClose,
            TokenKind::BracketOpen,
            TokenKind::BracketClose,
            TokenKind::Colon,
            TokenKind::Comma,
        ]
    );
}

#[test]
fn value_tokens_are_resolved() {
    assert_eq!(
        kinds(" \"a\\nb\" -1.5e3 true false null "),
        vec![
            TokenKind::String("a\nb".to_string()),
            TokenKind::Number("-1.5e3".to_string()),
            TokenKind::Boolean(true),
            TokenKind::Boolean(false),
            TokenKind::Null,
        ]
    );
}

#[test]
fn tokens_carry_their_start() {
    let mut lexer = lexer("[\n  \"x\" ,12]");
    let mut starts = Vec::new();
    loop {
        let token = lexer.next_token().unwrap();
        starts.push((token.position.offset, token.position.line, token.position.column));
        if token.kind == TokenKind::EndOfInput {
            break;
        }
    }
    assert_eq!(starts, vec![(0, 1, 0), (4, 2, 2), (8, 2, 6), (9, 2, 7), (11, 2, 9), (12, 2, 10)]);
}

#[test]
fn end_of_input_is_repeated() {
    let mut lexer = lexer("1 ");
    assert_eq!(lexer.next_token().unwrap().kind, TokenKind::Number("1".to_string()));
    let end = Token { kind: TokenKind::EndOfInput, position: Position { offset: 2, line: 1, column: 2 } };
    assert_eq!(lexer.next_token(), Ok(end.clone()));
    assert_eq!(lexer.next_token(), Ok(end.clone()));
    assert_eq!(lexer.next_token(), Ok(end));
    assert_eq!(lexer.position(), Position { offset: 2, line: 1, column: 2 });
}

#[test]
fn lexer_reports_the_start_of_the_offending_token() {
    let mut lexer = lexer("  12 0x");
    assert!(lexer.next_token().is_ok());
    assert_eq!(lexer.next_token().unwrap().kind, TokenKind::Number("0".to_string()));
    let error = lexer.next_token().unwrap_err();
    assert_eq!(error.kind, ErrorKind::Lex(LexError::UnexpectedCharacter('x')));
    assert_eq!(error.position, Position { offset: 6, line: 1, column: 6 });
}

#[test]
fn lex_number_reads_the_whole_grammar() {
    for text in ["0", "-0", "7", "120", "0.5", "-3.25", "1e5", "1E+5", "2.5e-10", "0e0"] {
        let mut lexer = lexer(text);
        assert_eq!(lexer.lex_number(), Ok(TokenKind::Number(text.to_string())));
    }
    for text in ["", "-", "+1", ".5", "00", "1.", "1.e1", "1e", "1e-", "a"] {
        let mut lexer = lexer(text);
        assert_eq!(lexer.lex_number(), Err(LexError::InvalidNumber));
    }
    let mut rest = lexer("12,5");
    assert_eq!(rest.lex_number(), Ok(TokenKind::Number("12".to_string())));
    assert_eq!(rest.position().offset, 2);
}

#[test]
fn lex_constant_matches_a_word() {
    let mut exact = lexer("null,");
    assert_eq!(exact.lex_constant("null"), Ok(()));
    assert_eq!(exact.position().offset, 4);
    let mut wrong = lexer("nuxl");
    assert_eq!(wrong.lex_constant("null"), Err(LexError::UnknownLiteral(Some('x'))));
    let mut short = lexer("nu");
    assert_eq!(short.lex_constant("null"), Err(LexError::UnknownLiteral(None)));
    let mut empty = lexer("abc");
    assert_eq!(empty.lex_constant(""), Ok(()));
    assert_eq!(empty.position().offset, 0);
}

#[test]
fn chars_of_gives_the_characters() {
    assert_eq!(chars_of("a\u{e9}\u{1F600}"), vec!['a', '\u{e9}', '\u{1F600}']);
    assert_eq!(chars_of(""), Vec::<char>::new());
}

#[test]
fn insert_member_replaces_or_appends() {
    let mut members: Vec<(String, Value)> = Vec::new();
    insert_member(&mut members, "a".to_string(), Value::Null);
    insert_member(&mut members, "b".to_string(), Value::Boolean(true));
    insert_member(&mut members, "a".to_string(), Value::Boolean(false));
    assert_eq!(
        members,
        vec![("a".to_string(), Value::Boolean(false)), ("b".to_string(), Value::Boolean(true))]
    );
    insert_member(&mut members, "".to_string(), Value::Null);
    assert_eq!(members.len(), 3);
    assert_eq!(members[2], ("".to_string(), Value::Null));
}
