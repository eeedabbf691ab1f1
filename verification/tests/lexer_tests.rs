use steel_lexer::cursor::PeekBuffer;
use steel_lexer::lexer::{Lexer, TextParser};
use steel_lexer::position::Position;
use steel_lexer::token::{LexError, Token, TokenSpan};

fn lex(text: &str) -> Result<Vec<TokenSpan>, LexError> {
    let mut lexer = Lexer::<8, 16>::new();
    lexer.lex(text.to_string())
}

fn lex_ok(text: &str) -> Vec<TokenSpan> {
    lex(text).expect("expected the input to lex")
}

#[test]
fn empty_input_is_one_end_sentinel() {
    let tokens = lex_ok("");
    assert_eq!(tokens.len(), 1);
    assert_eq!(tokens[0], TokenSpan(Token::End, Position(1, 1), Position(1, 1)));
}

#[test]
fn escape_round_trip() {
    // The string literal containing \n \t \\ \" decodes to exactly four
    // characters: newline, tab, backslash, double quote.
    let tokens = lex_ok("\"\\n\\t\\\\\\\"\"");
    match &tokens[0].0 {
        Token::String(s) => assert_eq!(s.as_str(), "\n\t\\\""),
        other => panic!("expected a string token, got {:?}", other),
    }
    assert_eq!(tokens.len(), 2);
    assert_eq!(tokens[1].0, Token::End);
}

#[test]
fn hex_escape_decodes() {
    let tokens = lex_ok("\"\\x41\"");
    match &tokens[0].0 {
        Token::String(s) => assert_eq!(s.as_str(), "A"),
        other => panic!("expected a string token, got {:?}", other),
    }
}

#[test]
fn braced_numeric_escape_decodes() {
    let tokens = lex_ok("\"\\u{48}\"");
    match &tokens[0].0 {
        Token::String(s) => assert_eq!(s.as_str(), "H"),
        other => panic!("expected a string token, got {:?}", other),
    }
}

#[test]
fn braced_named_escape_decodes() {
    let tokens = lex_ok("\"\\U{SNOWMAN}\"");
    match &tokens[0].0 {
        Token::String(s) => assert_eq!(s.as_str(), "\u{2603}"),
        other => panic!("expected a string token, got {:?}", other),
    }
}

#[test]
fn leading_hyphen_name_is_invalid_escape() {
    // No Unicode character name begins with a hyphen; the escape is
    // rejected before any lookup.
    match lex("\"\\U{-}\"") {
        Err(LexError::InvalidEscape(_)) => {}
        other => panic!("expected InvalidEscape, got {:?}", other),
    }
    match lex("\"\\U{-DASHED}\"") {
        Err(LexError::InvalidEscape(_)) => {}
        other => panic!("expected InvalidEscape, got {:?}", other),
    }
}

#[test]
fn medial_hyphen_name_resolves() {
    let tokens = lex_ok("\"\\U{HYPHEN-MINUS}\"");
    match &tokens[0].0 {
        Token::String(s) => assert_eq!(s.as_str(), "-"),
        other => panic!("expected a string token, got {:?}", other),
    }
}

#[test]
fn unknown_name_is_invalid_escape() {
    match lex("\"\\U{NO SUCH CHARACTER NAME}\"") {
        Err(LexError::InvalidEscape(_)) => {}
        other => panic!("expected InvalidEscape, got {:?}", other),
    }
}

#[test]
fn unterminated_string_fails_past_last_character() {
    // `"abc` has consumed four characters when the input ends.
    match lex("\"abc") {
        Err(LexError::UnterminatedStringLiteral(p)) => assert_eq!(p, Position(1, 5)),
        other => panic!("expected UnterminatedStringLiteral, got {:?}", other),
    }
}

#[test]
fn character_literals() {
    // `''` denotes the null character.
    let tokens = lex_ok("''");
    assert_eq!(tokens[0].0, Token::Character('\0'));
    // `'a'` decodes to `a`.
    let tokens = lex_ok("'a'");
    assert_eq!(tokens[0].0, Token::Character('a'));
    // `'ab'` accumulates a second character before the closing quote.
    match lex("'ab'") {
        Err(LexError::InvalidCharacterLiteral(p)) => assert_eq!(p, Position(1, 3)),
        other => panic!("expected InvalidCharacterLiteral, got {:?}", other),
    }
}

#[test]
fn unterminated_character_literal() {
    match lex("'") {
        Err(LexError::UnterminatedCharacterLiteral(_)) => {}
        other => panic!("expected UnterminatedCharacterLiteral, got {:?}", other),
    }
}

#[test]
fn character_escape() {
    let tokens = lex_ok("'\\n'");
    assert_eq!(tokens[0].0, Token::Character('\n'));
}

#[test]
fn number_precision_preserved() {
    // `3.140` keeps its raw text; the parsed value is 3.14, the metadata
    // counts the raw digits.
    let tokens = lex_ok("3.140");
    match &tokens[0].0 {
        Token::Number(text, meta) => {
            assert_eq!(text.as_str(), "3.140");
            let value: f64 = text.parse().unwrap();
            assert_eq!(value, 3.14);
            assert!(meta.is_float);
            assert_eq!(meta.digit_count, 5);
            assert_eq!(meta.fractional_digits, 3);
        }
        other => panic!("expected a number token, got {:?}", other),
    }
}

#[test]
fn integer_number_meta() {
    let tokens = lex_ok("42");
    match &tokens[0].0 {
        Token::Number(text, meta) => {
            assert_eq!(text.as_str(), "42");
            assert!(!meta.is_float);
            assert_eq!(meta.digit_count, 2);
            assert_eq!(meta.fractional_digits, 0);
        }
        other => panic!("expected a number token, got {:?}", other),
    }
}

#[test]
fn exponent_number_is_valid() {
    let tokens = lex_ok("1.5e-3");
    match &tokens[0].0 {
        Token::Number(text, _) => assert_eq!(text.as_str(), "1.5e-3"),
        other => panic!("expected a number token, got {:?}", other),
    }
}

#[test]
fn invalid_number_literal() {
    match lex("1x2") {
        Err(LexError::InvalidNumberLiteral(p)) => assert_eq!(p, Position(1, 4)),
        other => panic!("expected InvalidNumberLiteral, got {:?}", other),
    }
}

#[test]
fn mnemonic_classification() {
    let tokens = lex_ok("add");
    match &tokens[0].0 {
        Token::Word(text, meta) => {
            assert_eq!(text.as_str(), "add");
            assert!(meta.is_mnemonic);
            assert!(!meta.is_attribute);
        }
        other => panic!("expected a word token, got {:?}", other),
    }
    let tokens = lex_ok("nop");
    match &tokens[0].0 {
        Token::Word(_, meta) => assert!(meta.is_mnemonic),
        other => panic!("expected a word token, got {:?}", other),
    }
}

#[test]
fn attribute_classification() {
    let tokens = lex_ok(".section");
    match &tokens[0].0 {
        Token::Word(text, meta) => {
            assert_eq!(text.as_str(), ".section");
            assert!(meta.is_attribute);
            assert!(!meta.is_mnemonic);
        }
        other => panic!("expected a word token, got {:?}", other),
    }
    // A directive with empty operand text emits no List, only EndBlock.
    assert_eq!(tokens[1].0, Token::EndBlock);
    assert_eq!(tokens[2].0, Token::End);
    assert_eq!(tokens.len(), 3);
}

#[test]
fn plain_word_classification() {
    let tokens = lex_ok("hello_1");
    match &tokens[0].0 {
        Token::Word(text, meta) => {
            assert_eq!(text.as_str(), "hello_1");
            assert!(!meta.is_mnemonic);
            assert!(!meta.is_attribute);
        }
        other => panic!("expected a word token, got {:?}", other),
    }
}

#[test]
fn directive_expansion() {
    // `.byte 1,2,3`: attribute word, then a List of the re-tokenized
    // operands with exactly one trailing end-of-stream sentinel, then
    // EndBlock.
    let tokens = lex_ok(".byte 1,2,3");
    match &tokens[0].0 {
        Token::Word(text, meta) => {
            assert_eq!(text.as_str(), ".byte");
            assert!(meta.is_attribute);
        }
        other => panic!("expected a word token, got {:?}", other),
    }
    match &tokens[1].0 {
        Token::List(inner) => {
            let numbers: Vec<&str> = inner
                .iter()
                .filter_map(|ts| match &ts.0 {
                    Token::Number(text, _) => Some(text.as_str()),
                    _ => None,
                })
                .collect();
            assert_eq!(numbers, vec!["1", "2", "3"]);
            let ends = inner.iter().filter(|ts| ts.0 == Token::End).count();
            assert_eq!(ends, 1);
            assert_eq!(inner.last().unwrap().0, Token::End);
        }
        other => panic!("expected a list token, got {:?}", other),
    }
    assert_eq!(tokens[2].0, Token::EndBlock);
    assert_eq!(tokens[3].0, Token::End);
}

#[test]
fn directive_consumes_to_end_of_line() {
    let tokens = lex_ok(".byte 1\nadd");
    assert!(matches!(tokens[0].0, Token::Word(_, _)));
    assert!(matches!(tokens[1].0, Token::List(_)));
    assert_eq!(tokens[2].0, Token::EndBlock);
    match &tokens[3].0 {
        Token::Word(text, meta) => {
            assert_eq!(text.as_str(), "add");
            assert!(meta.is_mnemonic);
        }
        other => panic!("expected a word token, got {:?}", other),
    }
}

#[test]
fn punctuation_tokens_are_zero_width() {
    let tokens = lex_ok("#:,()[]");
    let expected = [
        Token::Hashtag,
        Token::Colon,
        Token::Comma,
        Token::LeftParen,
        Token::RightParen,
        Token::LeftBracket,
        Token::RightBracket,
    ];
    for (i, want) in expected.iter().enumerate() {
        assert_eq!(&tokens[i].0, want);
        assert_eq!(tokens[i].1, tokens[i].2);
        assert_eq!(tokens[i].1, Position(1, (i + 1) as usize));
    }
    assert_eq!(tokens[7].0, Token::End);
}

#[test]
fn newline_advances_line_counter() {
    let tokens = lex_ok("add\nnop");
    assert_eq!(tokens[0].1, Position(1, 1));
    assert_eq!(tokens[0].2, Position(1, 4));
    assert_eq!(tokens[1].1, Position(2, 1));
    assert_eq!(tokens[1].2, Position(2, 4));
}

#[test]
fn unrecognized_characters_are_skipped() {
    let tokens = lex_ok("@ add");
    match &tokens[0].0 {
        Token::Word(text, _) => assert_eq!(text.as_str(), "add"),
        other => panic!("expected a word token, got {:?}", other),
    }
    assert_eq!(tokens.len(), 2);
}

#[test]
fn invalid_escape_in_string() {
    match lex("\"\\q\"") {
        Err(LexError::InvalidEscape(_)) => {}
        other => panic!("expected InvalidEscape, got {:?}", other),
    }
}

#[test]
fn surrogate_escape_is_invalid_hex_escape() {
    match lex("\"\\u{D800}\"") {
        Err(LexError::InvalidHexEscape(_)) => {}
        other => panic!("expected InvalidHexEscape, got {:?}", other),
    }
}

#[test]
fn unterminated_braced_escape() {
    match lex("\"\\u{48") {
        Err(LexError::UnterminatedEscape(_)) => {}
        other => panic!("expected UnterminatedEscape, got {:?}", other),
    }
}

#[test]
fn backslash_at_end_is_unterminated_escape() {
    match lex("\"\\") {
        Err(LexError::UnterminatedEscape(_)) => {}
        other => panic!("expected UnterminatedEscape, got {:?}", other),
    }
}

#[test]
fn text_parser_drives_a_cursor() {
    let data = PeekBuffer::new("add 42".chars().collect());
    let mut parser = TextParser::new();
    let tokens = parser.parse(data).expect("expected the input to lex");
    assert!(matches!(tokens[0].0, Token::Word(_, _)));
    assert!(matches!(tokens[1].0, Token::Number(_, _)));
    assert_eq!(tokens[2].0, Token::End);
}

#[test]
fn driver_and_tree_records() {
    let driver = steel_lexer::driver::Driver::new();
    assert_eq!(driver.global.name.as_str(), "<global>");
    assert!(driver.global.requires.is_empty());
    let tree = steel_lexer::ast::Tree::new();
    assert!(tree.root.is_none());
}
