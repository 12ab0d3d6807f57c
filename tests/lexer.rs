use expr_lexer::lexer::{Lexer, TextSpan, Token, TokenKind};
use expr_lexer::traversal::tokenize;

fn collect(input: &str) -> Vec<Token> {
    let mut lexer = Lexer::new(input);
    let mut tokens = Vec::new();
    while let Some(t) = lexer.next_token() {
        tokens.push(t);
    }
    tokens
}

fn check(t: &Token, kind: TokenKind, start: usize, end: usize, literal: &str) {
    assert_eq!(t.kind(), kind);
    assert_eq!(t.span().start(), start);
    assert_eq!(t.span().end(), end);
    assert_eq!(t.span().literal(), literal);
}

fn check_end_of_input(t: &Token) {
    check(t, TokenKind::EndOfInput, 0, 0, "\0");
}

#[test]
fn number_literal_is_accumulated() {
    let tokens = collect("123");
    assert_eq!(tokens.len(), 2);
    check(&tokens[0], TokenKind::Number(123), 0, 3, "123");
    check_end_of_input(&tokens[1]);
}

#[test]
fn adjacent_digits_form_one_number() {
    let tokens = collect("70");
    assert_eq!(tokens.len(), 2);
    check(&tokens[0], TokenKind::Number(70), 0, 2, "70");
    check_end_of_input(&tokens[1]);
}

#[test]
fn single_digit_then_end_then_nothing() {
    let mut lexer = Lexer::new("7");
    let first = lexer.next_token().unwrap();
    check(&first, TokenKind::Number(7), 0, 1, "7");
    let second = lexer.next_token().unwrap();
    check_end_of_input(&second);
    assert!(lexer.next_token().is_none());
}

#[test]
fn sum_has_contiguous_spans() {
    let tokens = collect("3+4");
    assert_eq!(tokens.len(), 4);
    check(&tokens[0], TokenKind::Number(3), 0, 1, "3");
    check(&tokens[1], TokenKind::Plus, 1, 2, "+");
    check(&tokens[2], TokenKind::Number(4), 2, 3, "4");
    check_end_of_input(&tokens[3]);
}

#[test]
fn unsupported_character_is_invalid() {
    let tokens = collect("(#");
    assert_eq!(tokens.len(), 3);
    check(&tokens[0], TokenKind::LeftParen, 0, 1, "(");
    check(&tokens[1], TokenKind::Invalid, 1, 2, "#");
    check_end_of_input(&tokens[2]);
}

#[test]
fn empty_input_gives_only_end_of_input() {
    let mut lexer = Lexer::new("");
    let only = lexer.next_token().unwrap();
    check_end_of_input(&only);
    assert!(lexer.next_token().is_none());
}

#[test]
fn exhausted_lexer_stays_exhausted() {
    let mut lexer = Lexer::new("1+2");
    for _ in 0..4 {
        assert!(lexer.next_token().is_some());
    }
    for _ in 0..10 {
        assert!(lexer.next_token().is_none());
    }
}

#[test]
fn terminates_within_length_plus_one_requests() {
    for input in ["", "7", "12+3", "((1))", "a b c", "99*88/77-66", "#"] {
        let mut lexer = Lexer::new(input);
        let mut count: usize = 0;
        while lexer.next_token().is_some() {
            count += 1;
            assert!(count <= input.chars().count() + 1);
        }
        assert!(count >= 1);
    }
}

#[test]
fn literals_are_source_text() {
    let input = "12*(3-45)/x";
    let chars: Vec<char> = input.chars().collect();
    let tokens = collect(input);
    for t in &tokens[..tokens.len() - 1] {
        let s = t.span();
        let expected: String = chars[s.start()..s.end()].iter().collect();
        assert_eq!(s.literal(), expected);
        assert_eq!(s.length(), s.end() - s.start());
    }
}

#[test]
fn end_of_input_is_once_and_last() {
    for input in ["", "1", "1+", "(#)", "42 / 6"] {
        let tokens = collect(input);
        let ends = tokens.iter().filter(|t| t.kind() == TokenKind::EndOfInput).count();
        assert_eq!(ends, 1);
        assert_eq!(tokens.last().unwrap().kind(), TokenKind::EndOfInput);
    }
}

#[test]
fn every_operator_is_classified() {
    let tokens = collect("+-*/()");
    let kinds: Vec<TokenKind> = tokens.iter().map(|t| t.kind()).collect();
    assert_eq!(
        kinds,
        vec![
            TokenKind::Plus,
            TokenKind::Minus,
            TokenKind::Asterisk,
            TokenKind::Slash,
            TokenKind::LeftParen,
            TokenKind::RightParen,
            TokenKind::EndOfInput,
        ]
    );
    for (i, t) in tokens[..6].iter().enumerate() {
        assert_eq!(t.span().start(), i);
        assert_eq!(t.span().end(), i + 1);
        assert_eq!(t.span().length(), 1);
    }
}

#[test]
fn whitespace_is_invalid_and_consumed() {
    let tokens = collect("1 2");
    assert_eq!(tokens.len(), 4);
    check(&tokens[0], TokenKind::Number(1), 0, 1, "1");
    check(&tokens[1], TokenKind::Invalid, 1, 2, " ");
    check(&tokens[2], TokenKind::Number(2), 2, 3, "2");
    check_end_of_input(&tokens[3]);
}

#[test]
fn offsets_count_characters() {
    let tokens = collect("é12");
    assert_eq!(tokens.len(), 3);
    check(&tokens[0], TokenKind::Invalid, 0, 1, "é");
    check(&tokens[1], TokenKind::Number(12), 1, 3, "12");
    check_end_of_input(&tokens[2]);
}

#[test]
fn number_stops_before_operator() {
    let tokens = collect("105-3");
    check(&tokens[0], TokenKind::Number(105), 0, 3, "105");
    check(&tokens[1], TokenKind::Minus, 3, 4, "-");
    check(&tokens[2], TokenKind::Number(3), 4, 5, "3");
}

#[test]
fn largest_literal_is_exact() {
    let tokens = collect("9223372036854775807");
    check(&tokens[0], TokenKind::Number(i64::MAX), 0, 19, "9223372036854775807");
}

#[test]
fn literal_past_the_largest_wraps() {
    let tokens = collect("9223372036854775808");
    check(&tokens[0], TokenKind::Number(i64::MIN), 0, 19, "9223372036854775808");
}

#[test]
fn leading_zeros_keep_value() {
    let tokens = collect("007");
    check(&tokens[0], TokenKind::Number(7), 0, 3, "007");
}

#[test]
fn tokenize_matches_successive_requests() {
    let input = "(1+22)*3";
    let all = tokenize(input);
    let pulled = collect(input);
    assert_eq!(all.len(), pulled.len());
    assert_eq!(all.len(), 8);
    for (a, b) in all.iter().zip(pulled.iter()) {
        assert_eq!(a.kind(), b.kind());
        assert_eq!(a.span().start(), b.span().start());
        assert_eq!(a.span().end(), b.span().end());
        assert_eq!(a.span().literal(), b.span().literal());
    }
    check(&all[3], TokenKind::Number(22), 3, 5, "22");
}

#[test]
fn text_span_length_and_fields() {
    let span = TextSpan::new(2, 5, "abc".to_string());
    assert_eq!(span.length(), 3);
    assert_eq!(span.start(), 2);
    assert_eq!(span.end(), 5);
    assert_eq!(span.literal(), "abc");
    let empty = TextSpan::new(4, 4, String::new());
    assert_eq!(empty.length(), 0);
}

#[test]
fn token_keeps_kind_and_span() {
    let token = Token::new(TokenKind::Slash, TextSpan::new(1, 2, "/".to_string()));
    check(&token, TokenKind::Slash, 1, 2, "/");
}

#[test]
fn tokens_outlive_the_source() {
    let tokens = {
        let owned = String::from("8*9");
        collect(&owned)
    };
    check(&tokens[0], TokenKind::Number(8), 0, 1, "8");
    check(&tokens[2], TokenKind::Number(9), 2, 3, "9");
}
