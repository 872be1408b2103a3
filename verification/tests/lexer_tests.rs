use std::fmt::Debug;

use azurite::ast::{BinaryOperator, UnaryOperator};
use azurite::lexer::{lex, map_to_hex, Keyword, LexError, LexErrorKind, Lexer, Literal, Token, TokenKind};
use azurite::symbol_table::SymbolTable;
use azurite::types::SourceRange;

fn compare_individually<T: PartialEq + Debug>(list1: &Vec<T>, list2: &Vec<T>) {
    assert_eq!(list1.len(), list2.len());
    for (index, (v1, v2)) in list1.iter().zip(list2.iter()).enumerate() {
        assert_eq!(v1, v2, "{index}");
    }
}

fn token(token_kind: TokenKind, start: usize, end: usize) -> Token {
    Token { token_kind, source_range: SourceRange::new(start, end) }
}

fn errors_of(data: &str) -> Vec<LexError> {
    let mut symbol_table = SymbolTable::new();
    let file = symbol_table.add(String::from("test"));
    let failure = lex(data, file, &mut symbol_table).unwrap_err();
    assert_eq!(failure.file, file);
    failure.errors
}

#[test]
fn empty() {
    let mut symbol_table = SymbolTable::new();
    let file = symbol_table.add(String::from("test"));

    let data = "";
    let tokens = lex(data, file, &mut symbol_table).unwrap();

    assert_eq!(tokens, vec![Token { token_kind: TokenKind::EndOfFile, source_range: SourceRange::new(0, 0) }])
}

#[test]
fn tokens() {
    let mut symbol_table = SymbolTable::new();
    let file = symbol_table.add(String::from("test"));

    let data = "<>{}";
    let tokens = lex(data, file, &mut symbol_table).unwrap();

    compare_individually(
        &tokens,
        &vec![
            Token { token_kind: TokenKind::LeftAngle, source_range: SourceRange::new(0, 0) },
            Token { token_kind: TokenKind::RightAngle, source_range: SourceRange::new(1, 1) },
            Token { token_kind: TokenKind::LeftBracket, source_range: SourceRange::new(2, 2) },
            Token { token_kind: TokenKind::RightBracket, source_range: SourceRange::new(3, 3) },
            Token { token_kind: TokenKind::EndOfFile, source_range: SourceRange::new(3, 3) },
        ],
    )
}

#[test]
fn numbers() {
    let mut symbol_table = SymbolTable::new();
    let file = symbol_table.add(String::from("test"));

    let data = "123456789";
    let tokens = lex(data, file, &mut symbol_table).unwrap();

    compare_individually(
        &tokens,
        &vec![
            Token { token_kind: TokenKind::Literal(Literal::Integer(123456789)), source_range: SourceRange::new(0, 8) },
            Token { token_kind: TokenKind::EndOfFile, source_range: SourceRange::new(8, 8) },
        ],
    );
}

#[test]
fn identifiers() {
    let mut symbol_table = SymbolTable::new();
    let file = symbol_table.add(String::from("test"));

    let data = "hello there";
    let tokens = lex(data, file, &mut symbol_table).unwrap();

    compare_individually(
        &tokens,
        &vec![
            Token {
                token_kind: TokenKind::Identifier(symbol_table.add(String::from("hello"))),
                source_range: SourceRange::new(0, 4),
            },
            Token {
                token_kind: TokenKind::Identifier(symbol_table.add(String::from("there"))),
                source_range: SourceRange::new(6, 10),
            },
            Token { token_kind: TokenKind::EndOfFile, source_range: SourceRange::new(10, 10) },
        ],
    )
}

#[test]
fn string() {
    let mut symbol_table = SymbolTable::new();
    let file = symbol_table.add(String::from("test"));

    let data = "\"hello there\"";
    let tokens = lex(data, file, &mut symbol_table).unwrap();

    compare_individually(
        &tokens,
        &vec![
            Token {
                token_kind: TokenKind::Literal(Literal::String(symbol_table.add(String::from("hello there")))),
                source_range: SourceRange::new(0, 12),
            },
            Token { token_kind: TokenKind::EndOfFile, source_range: SourceRange::new(12, 12) },
        ],
    )
}

#[test]
fn a_number_gives_back_the_character_after_it() {
    let mut symbol_table = SymbolTable::new();
    let file = symbol_table.add(String::from("test"));
    let tokens = lex("12+3", file, &mut symbol_table).unwrap();
    assert_eq!(
        tokens,
        vec![
            token(TokenKind::Literal(Literal::Integer(12)), 0, 1),
            token(TokenKind::Plus, 2, 2),
            token(TokenKind::Literal(Literal::Integer(3)), 3, 3),
            token(TokenKind::EndOfFile, 3, 3),
        ]
    );
}

#[test]
fn two_character_operators() {
    let mut symbol_table = SymbolTable::new();
    let file = symbol_table.add(String::from("test"));
    let tokens = lex("a==b", file, &mut symbol_table).unwrap();
    let a = symbol_table.add(String::from("a"));
    let b = symbol_table.add(String::from("b"));
    assert_eq!(
        tokens,
        vec![
            token(TokenKind::Identifier(a), 0, 0),
            token(TokenKind::EqualsTo, 1, 2),
            token(TokenKind::Identifier(b), 3, 3),
            token(TokenKind::EndOfFile, 3, 3),
        ]
    );
    let tokens = lex("<= >= != :: += -= *= /= && || / : !", file, &mut symbol_table).unwrap();
    let kinds: Vec<TokenKind> = tokens.into_iter().map(|t| t.token_kind).collect();
    assert_eq!(
        kinds,
        vec![
            TokenKind::LesserEquals,
            TokenKind::GreaterEquals,
            TokenKind::NotEqualsTo,
            TokenKind::DoubleColon,
            TokenKind::AddEquals,
            TokenKind::SubEquals,
            TokenKind::MulEquals,
            TokenKind::DivEquals,
            TokenKind::LogicalAnd,
            TokenKind::LogicalOr,
            TokenKind::Slash,
            TokenKind::Colon,
            TokenKind::Bang,
            TokenKind::EndOfFile,
        ]
    );
}

#[test]
fn keywords_and_underscores() {
    let mut symbol_table = SymbolTable::new();
    let file = symbol_table.add(String::from("test"));
    let tokens = lex("fn _x _ true", file, &mut symbol_table).unwrap();
    let x = symbol_table.add(String::from("_x"));
    assert_eq!(
        tokens,
        vec![
            token(TokenKind::Keyword(Keyword::Fn), 0, 1),
            token(TokenKind::Identifier(x), 3, 4),
            token(TokenKind::Underscore, 6, 6),
            token(TokenKind::Literal(Literal::Bool(true)), 8, 11),
            token(TokenKind::EndOfFile, 11, 11),
        ]
    );
}

#[test]
fn floats_and_bases() {
    let mut symbol_table = SymbolTable::new();
    let file = symbol_table.add(String::from("test"));
    let tokens = lex("1.5 0xFF 0b101 0o17 1_000", file, &mut symbol_table).unwrap();
    let kinds: Vec<TokenKind> = tokens.into_iter().map(|t| t.token_kind).collect();
    assert_eq!(
        kinds,
        vec![
            TokenKind::Literal(Literal::Float { whole: 1, base: 10, fraction: vec![5] }),
            TokenKind::Literal(Literal::Integer(255)),
            TokenKind::Literal(Literal::Integer(5)),
            TokenKind::Literal(Literal::Integer(15)),
            TokenKind::Literal(Literal::Integer(1000)),
            TokenKind::EndOfFile,
        ]
    );
}

#[test]
fn comments_are_skipped() {
    let mut symbol_table = SymbolTable::new();
    let file = symbol_table.add(String::from("test"));
    let tokens = lex("// hi\n+", file, &mut symbol_table).unwrap();
    assert_eq!(tokens, vec![token(TokenKind::Plus, 6, 6), token(TokenKind::EndOfFile, 6, 6)]);
}

#[test]
fn string_escapes() {
    let mut symbol_table = SymbolTable::new();
    let file = symbol_table.add(String::from("test"));
    let tokens = lex("\"a\\nb\\u{41}\\\"\"", file, &mut symbol_table).unwrap();
    let index = symbol_table.add(String::from("a\nbA\""));
    assert_eq!(tokens[0].token_kind, TokenKind::Literal(Literal::String(index)));
}

#[test]
fn lexing_errors() {
    assert_eq!(
        errors_of("$"),
        vec![LexError { kind: LexErrorKind::InvalidCharacter('$'), range: SourceRange::new(0, 0) }]
    );
    assert_eq!(
        errors_of("\"ab"),
        vec![LexError { kind: LexErrorKind::UnterminatedString, range: SourceRange::new(0, 3) }]
    );
    assert_eq!(
        errors_of("0b12"),
        vec![LexError { kind: LexErrorKind::InvalidNumberForBase { value: '2', base: 2 }, range: SourceRange::new(3, 3) }]
    );
    assert_eq!(
        errors_of("1.2.3"),
        vec![LexError { kind: LexErrorKind::TooManyDots, range: SourceRange::new(0, 4) }]
    );
    assert_eq!(
        errors_of("99999999999999999999"),
        vec![LexError { kind: LexErrorKind::NumberTooLarge, range: SourceRange::new(0, 19) }]
    );
    assert_eq!(
        errors_of("\"\\u{D800}\""),
        vec![LexError { kind: LexErrorKind::InvalidUnicodeCharacter, range: SourceRange::new(3, 8) }]
    );
    assert_eq!(
        errors_of("\"\\uX\""),
        vec![LexError { kind: LexErrorKind::CorruptUnicodeEscape, range: SourceRange::new(3, 3) }]
    );
    assert_eq!(
        errors_of("\"\\u{4G}\""),
        vec![
            LexError { kind: LexErrorKind::InvalidUnicodeValue, range: SourceRange::new(5, 5) },
        ]
    );
    assert_eq!(LexErrorKind::TooManyDots.id(), 8);
}

#[test]
fn cursor_steps() {
    let mut lexer = Lexer::new("ab");
    assert_eq!(lexer.current_character(), None);
    assert_eq!(lexer.peek(), Some('a'));
    assert_eq!(lexer.advance(), Some('a'));
    assert_eq!(lexer.peek(), Some('b'));
    assert_eq!(lexer.advance(), Some('b'));
    assert_eq!(lexer.advance(), None);
    assert_eq!(lexer.current_character(), None);
    let storage = lexer.borrow_string_storage();
    assert!(storage.is_empty());
    lexer.return_string_storage(String::from("x"));
    assert!(lexer.borrow_string_storage().is_empty());
}

#[test]
fn digit_values() {
    assert_eq!(map_to_hex('7'), Some(7));
    assert_eq!(map_to_hex('C'), Some(12));
    assert_eq!(map_to_hex('c'), None);
    let mut lexer = Lexer::new("FFFF");
    lexer.advance();
    lexer.advance();
    lexer.advance();
    let digits: Vec<char> = "FF".chars().collect();
    assert_eq!(lexer.base_n_number_conversion(16, &digits), Ok(255));
    lexer.advance();
    let digits: Vec<char> = "120".chars().collect();
    assert_eq!(lexer.base_n_number_conversion(3, &digits), Ok(15));
}

#[test]
fn operators_from_tokens() {
    assert_eq!(BinaryOperator::from_token(&TokenKind::Plus), Some(BinaryOperator::Add));
    assert_eq!(BinaryOperator::from_token(&TokenKind::RightAngle), Some(BinaryOperator::GreaterThan));
    assert_eq!(BinaryOperator::from_token(&TokenKind::NotEqualsTo), Some(BinaryOperator::NotEquals));
    assert_eq!(BinaryOperator::from_token(&TokenKind::Bang), None);
    assert_eq!(BinaryOperator::Add.name(), "addision");
    assert_eq!(BinaryOperator::LesserEquals.name(), "lesser equals");
    assert_eq!(UnaryOperator::from_token(&TokenKind::Minus), Some(UnaryOperator::Negate));
    assert_eq!(UnaryOperator::from_token(&TokenKind::Bang), Some(UnaryOperator::Not));
    assert_eq!(UnaryOperator::from_token(&TokenKind::Plus), None);
    assert_eq!(UnaryOperator::Negate.name(), "negate");
}

#[test]
fn leading_zeros_do_not_make_a_number_too_large() {
    let text = "00000000000000000001";
    let mut lexer = Lexer::new(text);
    for _ in 0..text.chars().count() + 1 {
        lexer.advance();
    }
    let digits: Vec<char> = text.chars().collect();
    assert_eq!(lexer.base_n_number_conversion(10, &digits), Ok(1));
    let digits: Vec<char> = "9223372036854775807".chars().collect();
    assert_eq!(lexer.base_n_number_conversion(10, &digits), Ok(i64::MAX));
    let digits: Vec<char> = "101".chars().collect();
    assert_eq!(lexer.base_n_number_conversion(2, &digits), Ok(5));
    let digits: Vec<char> = "9223372036854775808".chars().collect();
    assert_eq!(
        lexer.base_n_number_conversion(10, &digits).map_err(|e| e.kind),
        Err(LexErrorKind::NumberTooLarge)
    );
    let mut table = SymbolTable::new();
    let file = table.add(String::from("test"));
    let tokens = lex("00000000000000000001", file, &mut table).unwrap();
    assert_eq!(tokens[0].token_kind, TokenKind::Literal(Literal::Integer(1)));
}
