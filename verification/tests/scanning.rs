use minilex::lexer::Lexer;
use minilex::token::{Token, TokenLiteral, TokenType};

fn scan(source: &str) -> Vec<Token> {
    let mut lex = Lexer::new(source);
    lex.parse()
}

#[test]
fn empty_input_yields_single_eof() {
    let toks = scan("");
    assert_eq!(toks.len(), 1);
    assert_eq!(
        toks[0],
        Token { kind: TokenType::EOF, literal: TokenLiteral::Empty, line_no: 0, char_index: 0 }
    );
}

#[test]
fn whitespace_only_input_yields_single_eof() {
    let toks = scan("   \t\n  ");
    assert_eq!(toks.len(), 1);
    assert_eq!(toks[0].kind, TokenType::EOF);
    assert_eq!(toks[0].literal, TokenLiteral::Empty);
    assert_eq!(toks[0].line_no, 1);
    assert_eq!(toks[0].char_index, 7);
}

#[test]
fn each_operator_scans_to_its_fixed_kind() {
    let cases = vec![
        ("+", TokenType::PLUS),
        ("-", TokenType::MINUS),
        ("*", TokenType::ASTERISK),
        ("/", TokenType::SLASH),
        ("%", TokenType::PERCENT),
        ("^", TokenType::POWER),
        (";", TokenType::SEMICOLON),
        ("(", TokenType::LPAREN),
        (")", TokenType::RPAREN),
    ];
    for (text, kind) in cases {
        let toks = scan(text);
        assert_eq!(toks.len(), 2);
        assert_eq!(
            toks[0],
            Token { kind, literal: TokenLiteral::Empty, line_no: 0, char_index: 0 }
        );
        assert_eq!(toks[1].kind, TokenType::EOF);
        assert_eq!(toks[1].char_index, 1);
    }
}

#[test]
fn digit_run_scans_to_int_with_its_value() {
    let toks = scan("42");
    assert_eq!(toks.len(), 2);
    assert_eq!(
        toks[0],
        Token {
            kind: TokenType::INT,
            literal: TokenLiteral::Int(42),
            line_no: 0,
            char_index: 0
        }
    );
    assert_eq!(toks[1].kind, TokenType::EOF);
}

#[test]
fn leading_zeros_keep_the_numeric_value() {
    let toks = scan("007");
    assert_eq!(toks[0].kind, TokenType::INT);
    assert_eq!(toks[0].literal, TokenLiteral::Int(7));
}

#[test]
fn largest_int_fits_and_one_more_is_illegal() {
    let toks = scan("9223372036854775807");
    assert_eq!(toks[0].kind, TokenType::INT);
    assert_eq!(toks[0].literal, TokenLiteral::Int(i64::MAX));

    let toks = scan("9223372036854775808");
    assert_eq!(toks.len(), 2);
    assert_eq!(toks[0].kind, TokenType::ILLEGAL);
    assert_eq!(
        toks[0].literal,
        TokenLiteral::Str("9223372036854775808".to_string())
    );
}

#[test]
fn float_run_scans_to_float_with_its_parts() {
    let toks = scan("3.14");
    assert_eq!(toks.len(), 2);
    assert_eq!(
        toks[0],
        Token {
            kind: TokenType::FLOAT,
            literal: TokenLiteral::Float { int_part: 3, frac: 14, frac_len: 2 },
            line_no: 0,
            char_index: 0
        }
    );
    match toks[0].literal {
        TokenLiteral::Float { int_part, frac, frac_len } => {
            let value = int_part as f64 + frac as f64 / 10f64.powi(frac_len as i32);
            assert_eq!(value, 3.14);
        }
        _ => unreachable!(),
    }
}

#[test]
fn float_fraction_keeps_leading_zeros() {
    let toks = scan("0.07");
    assert_eq!(
        toks[0].literal,
        TokenLiteral::Float { int_part: 0, frac: 7, frac_len: 2 }
    );
}

#[test]
fn trailing_dot_is_one_illegal_token_over_the_run() {
    let toks = scan("3.");
    assert_eq!(toks.len(), 2);
    assert_eq!(toks[0].kind, TokenType::ILLEGAL);
    assert_eq!(toks[0].literal, TokenLiteral::Str("3.".to_string()));
    assert_eq!(toks[1].kind, TokenType::EOF);
}

#[test]
fn second_dot_is_one_illegal_token_over_the_run() {
    let toks = scan("1.2.3");
    assert_eq!(toks.len(), 2);
    assert_eq!(toks[0].kind, TokenType::ILLEGAL);
    assert_eq!(toks[0].literal, TokenLiteral::Str("1.2.3".to_string()));

    let toks = scan("1..2");
    assert_eq!(toks[0].kind, TokenType::ILLEGAL);
    assert_eq!(toks[0].literal, TokenLiteral::Str("1..2".to_string()));
}

#[test]
fn number_run_stops_at_identifier_characters() {
    let toks = scan("12.5x");
    assert_eq!(toks.len(), 3);
    assert_eq!(
        toks[0].literal,
        TokenLiteral::Float { int_part: 12, frac: 5, frac_len: 1 }
    );
    assert_eq!(toks[1].literal, TokenLiteral::Str("x".to_string()));
    assert_eq!(toks[1].char_index, 4);
}

#[test]
fn leading_dot_is_not_a_number_start() {
    let toks = scan(".5");
    assert_eq!(toks.len(), 3);
    assert_eq!(toks[0].kind, TokenType::ILLEGAL);
    assert_eq!(toks[0].literal, TokenLiteral::Char('.'));
    assert_eq!(toks[1].kind, TokenType::INT);
    assert_eq!(toks[1].literal, TokenLiteral::Int(5));
}

#[test]
fn identifiers_take_letters_digits_and_underscores() {
    let toks = scan("_a1 b2");
    assert_eq!(toks.len(), 3);
    assert_eq!(toks[0].literal, TokenLiteral::Str("_a1".to_string()));
    assert_eq!(toks[0].kind, TokenType::IDENTIFIER);
    assert_eq!(toks[0].char_index, 0);
    assert_eq!(toks[1].literal, TokenLiteral::Str("b2".to_string()));
    assert_eq!(toks[1].char_index, 4);
}

#[test]
fn string_literal_contents_are_taken_verbatim() {
    let toks = scan("\"hi there\"");
    assert_eq!(toks.len(), 2);
    assert_eq!(
        toks[0],
        Token {
            kind: TokenType::STRING,
            literal: TokenLiteral::Str("hi there".to_string()),
            line_no: 0,
            char_index: 0
        }
    );
    assert_eq!(toks[1].char_index, 10);
}

#[test]
fn backslashes_in_strings_are_literal() {
    let toks = scan("\"a\\nb\"");
    assert_eq!(toks[0].kind, TokenType::STRING);
    assert_eq!(toks[0].literal, TokenLiteral::Str("a\\nb".to_string()));
}

#[test]
fn newline_advances_the_line_counter() {
    let toks = scan("a\nb");
    assert_eq!(toks.len(), 3);
    assert_eq!(toks[0].literal, TokenLiteral::Str("a".to_string()));
    assert_eq!(toks[0].line_no, 0);
    assert_eq!(toks[1].literal, TokenLiteral::Str("b".to_string()));
    assert_eq!(toks[1].line_no, 1);
}

#[test]
fn crlf_advances_the_line_counter_by_exactly_one() {
    let toks = scan("a\r\nb");
    assert_eq!(toks.len(), 3);
    assert_eq!(toks[0].line_no, 0);
    assert_eq!(toks[1].line_no, 1);
    assert_eq!(toks[1].char_index, 3);
}

#[test]
fn lone_cr_advances_the_line_counter() {
    let toks = scan("a\rb");
    assert_eq!(toks[1].line_no, 1);
    assert_eq!(toks[1].char_index, 2);
}

#[test]
fn foo_plus_42_scenario() {
    let toks = scan("foo + 42");
    assert_eq!(toks.len(), 4);
    assert_eq!(
        toks[0],
        Token {
            kind: TokenType::IDENTIFIER,
            literal: TokenLiteral::Str("foo".to_string()),
            line_no: 0,
            char_index: 0
        }
    );
    assert_eq!(
        toks[1],
        Token { kind: TokenType::PLUS, literal: TokenLiteral::Empty, line_no: 0, char_index: 4 }
    );
    assert_eq!(
        toks[2],
        Token {
            kind: TokenType::INT,
            literal: TokenLiteral::Int(42),
            line_no: 0,
            char_index: 6
        }
    );
    assert_eq!(
        toks[3],
        Token { kind: TokenType::EOF, literal: TokenLiteral::Empty, line_no: 0, char_index: 8 }
    );
}

#[test]
fn unterminated_string_is_one_illegal_token_to_end_of_input() {
    let toks = scan("\"unterminated");
    assert_eq!(toks.len(), 2);
    assert_eq!(toks[0].kind, TokenType::ILLEGAL);
    assert_eq!(toks[0].literal, TokenLiteral::Str("unterminated".to_string()));
    assert_eq!(toks[0].char_index, 0);
    assert_eq!(toks[1].kind, TokenType::EOF);
    assert_eq!(toks[1].char_index, 13);
}

#[test]
fn scanning_continues_after_an_illegal_character() {
    let toks = scan("3.14 @");
    assert_eq!(toks.len(), 3);
    assert_eq!(
        toks[0].literal,
        TokenLiteral::Float { int_part: 3, frac: 14, frac_len: 2 }
    );
    assert_eq!(toks[0].kind, TokenType::FLOAT);
    assert_eq!(
        toks[1],
        Token {
            kind: TokenType::ILLEGAL,
            literal: TokenLiteral::Char('@'),
            line_no: 0,
            char_index: 5
        }
    );
    assert_eq!(toks[2].kind, TokenType::EOF);
}

#[test]
fn unknown_character_is_illegal_and_carries_it() {
    let toks = scan("=");
    assert_eq!(toks.len(), 2);
    assert_eq!(toks[0].kind, TokenType::ILLEGAL);
    assert_eq!(toks[0].literal, TokenLiteral::Char('='));
}

#[test]
fn pull_based_scanning_matches_the_full_stream() {
    let mut lex = Lexer::new("foo + 42");
    let mut pulled = Vec::new();
    loop {
        let t = lex.next_token();
        let done = t.kind == TokenType::EOF;
        pulled.push(t);
        if done {
            break;
        }
    }
    assert_eq!(pulled, scan("foo + 42"));
}

#[test]
fn skip_whitespace_stops_at_the_first_token() {
    let mut lex = Lexer::new("  \n x");
    lex.skip_whitespace();
    let t = lex.next_token();
    assert_eq!(t.kind, TokenType::IDENTIFIER);
    assert_eq!(t.literal, TokenLiteral::Str("x".to_string()));
    assert_eq!(t.line_no, 1);
    assert_eq!(t.char_index, 4);
}

#[test]
fn cursor_operations_walk_the_buffer() {
    let mut lex = Lexer::new("ab");
    assert_eq!(lex.current_char(), Some('a'));
    assert_eq!(lex.next_char(), Some('b'));
    assert_eq!(lex.advance(), Ok('a'));
    assert_eq!(lex.current_char(), Some('b'));
    assert_eq!(lex.next_char(), None);
    assert_eq!(lex.advance(), Ok('b'));
    assert_eq!(lex.current_char(), None);
    assert_eq!(lex.advance(), Err(()));
}

#[test]
fn token_positions_cover_the_whole_source() {
    // every character is either inside a token's span or skipped
    // whitespace, so the end marker stands at the character count
    let source = "abc \"xy\" 12 +\n 3.5";
    let toks = scan(source);
    let eof = toks.last().unwrap();
    assert_eq!(eof.kind, TokenType::EOF);
    assert_eq!(eof.char_index, source.chars().count());
}

#[test]
fn multibyte_characters_are_counted_as_single_characters() {
    let toks = scan("\"h\u{e9}llo\" x");
    assert_eq!(toks[0].kind, TokenType::STRING);
    assert_eq!(toks[0].literal, TokenLiteral::Str("h\u{e9}llo".to_string()));
    assert_eq!(toks[1].kind, TokenType::IDENTIFIER);
    assert_eq!(toks[1].char_index, 8);
    assert_eq!(toks[2].char_index, 9);
}
