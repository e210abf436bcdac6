use ivo::lexer::{tokenize, try_tokenize, LexError};
use ivo::operator::Operator;
use ivo::span::Span;
use ivo::token::{Token, TokenKind};
use lasso::{Key, Rodeo, Spur};

fn tok(kind: TokenKind, start: usize, end: usize) -> Token {
    Token { kind, span: Span { start, end, source_id: 0 } }
}

fn name_of(rodeo: &Rodeo, key: usize) -> String {
    rodeo.resolve(&Spur::try_from_usize(key).unwrap()).to_string()
}

#[test]
fn lexes_arithmetic() {
    let mut rodeo = Rodeo::new();
    let toks = tokenize(0, "1 + 2", &mut rodeo).unwrap();
    assert_eq!(
        toks,
        vec![
            tok(TokenKind::IntLit(1), 0, 1),
            tok(TokenKind::Operator(Operator::Plus), 2, 3),
            tok(TokenKind::IntLit(2), 4, 5),
        ]
    );
}

#[test]
fn lexes_every_operator_and_bracket() {
    let mut rodeo = Rodeo::new();
    let toks = tokenize(3, "+-*/%(){},=;", &mut rodeo).unwrap();
    let kinds: Vec<TokenKind> = toks.iter().map(|t| t.kind).collect();
    assert_eq!(
        kinds,
        vec![
            TokenKind::Operator(Operator::Plus),
            TokenKind::Operator(Operator::Minus),
            TokenKind::Operator(Operator::Star),
            TokenKind::Operator(Operator::Slash),
            TokenKind::Operator(Operator::Modulo),
            TokenKind::LParen,
            TokenKind::RParen,
            TokenKind::LCurly,
            TokenKind::RCurly,
            TokenKind::Comma,
            TokenKind::Assign,
            TokenKind::Semicolon,
        ]
    );
    for (i, t) in toks.iter().enumerate() {
        assert_eq!(t.span, Span { start: i, end: i + 1, source_id: 3 });
    }
}

#[test]
fn lexes_colons() {
    let mut rodeo = Rodeo::new();
    let toks = tokenize(0, ":: := : :", &mut rodeo).unwrap();
    assert_eq!(
        toks,
        vec![
            tok(TokenKind::CColon, 0, 2),
            tok(TokenKind::Walrus, 3, 5),
            tok(TokenKind::Colon, 6, 7),
            tok(TokenKind::Colon, 8, 9),
        ]
    );
}

#[test]
fn skips_comments_to_end_of_line() {
    let mut rodeo = Rodeo::new();
    let toks = tokenize(0, ";; a comment ( }\n7 ;; another", &mut rodeo).unwrap();
    assert_eq!(toks, vec![tok(TokenKind::IntLit(7), 17, 18)]);
}

#[test]
fn lexes_numbers() {
    let mut rodeo = Rodeo::new();
    let toks = tokenize(0, "1_000 3.14 2. 9223372036854775807", &mut rodeo).unwrap();
    assert_eq!(
        toks,
        vec![
            tok(TokenKind::IntLit(1000), 0, 5),
            tok(TokenKind::FloatLit, 6, 10),
            tok(TokenKind::FloatLit, 11, 13),
            tok(TokenKind::IntLit(i64::MAX), 14, 33),
        ]
    );
}

#[test]
fn second_decimal_point_is_not_part_of_number() {
    let mut rodeo = Rodeo::new();
    let res = tokenize(0, "1.2.3", &mut rodeo);
    assert_eq!(
        res,
        Err(LexError::UnrecognizedCharacter { ch: '.', span: Span { start: 3, end: 4, source_id: 0 } })
    );
}

#[test]
fn lexes_keywords() {
    let mut rodeo = Rodeo::new();
    let toks = tokenize(0, "proc func callable nil procs", &mut rodeo).unwrap();
    let kinds: Vec<TokenKind> = toks.iter().map(|t| t.kind).collect();
    assert_eq!(
        kinds,
        vec![TokenKind::KwProc, TokenKind::KwFunc, TokenKind::KwCallable, TokenKind::KwNil, TokenKind::Identifier(0)]
    );
    assert_eq!(name_of(&rodeo, 0), "procs");
    assert_eq!(rodeo.len(), 1);
}

#[test]
fn interns_identifiers_once() {
    let mut rodeo = Rodeo::new();
    let toks = tokenize(0, "foo bar_1 foo _x", &mut rodeo).unwrap();
    let kinds: Vec<TokenKind> = toks.iter().map(|t| t.kind).collect();
    assert_eq!(
        kinds,
        vec![
            TokenKind::Identifier(0),
            TokenKind::Identifier(1),
            TokenKind::Identifier(0),
            TokenKind::Identifier(2),
        ]
    );
    assert_eq!(name_of(&rodeo, 0), "foo");
    assert_eq!(name_of(&rodeo, 1), "bar_1");
    assert_eq!(name_of(&rodeo, 2), "_x");
}

#[test]
fn keeps_keys_already_interned() {
    let mut rodeo = Rodeo::new();
    rodeo.get_or_intern("x");
    let toks = tokenize(0, "y x", &mut rodeo).unwrap();
    let kinds: Vec<TokenKind> = toks.iter().map(|t| t.kind).collect();
    assert_eq!(kinds, vec![TokenKind::Identifier(1), TokenKind::Identifier(0)]);
    assert_eq!(name_of(&rodeo, 1), "y");
}

#[test]
fn spans_count_bytes_of_unicode_letters() {
    let mut rodeo = Rodeo::new();
    let toks = tokenize(0, "héllo wörld", &mut rodeo).unwrap();
    assert_eq!(toks, vec![tok(TokenKind::Identifier(0), 0, 6), tok(TokenKind::Identifier(1), 7, 13)]);
    assert_eq!(name_of(&rodeo, 0), "héllo");
    assert_eq!(name_of(&rodeo, 1), "wörld");
}

#[test]
fn string_literal_is_reported_unterminated() {
    let mut rodeo = Rodeo::new();
    let res = tokenize(0, "a \"abc\" 1", &mut rodeo);
    assert_eq!(res, Err(LexError::UnterminatedString { span: Span { start: 2, end: 9, source_id: 0 } }));
    assert_eq!(rodeo.len(), 1);
}

#[test]
fn unknown_character_is_reported() {
    let mut rodeo = Rodeo::new();
    let res = tokenize(5, "1 # 2", &mut rodeo);
    assert_eq!(
        res,
        Err(LexError::UnrecognizedCharacter { ch: '#', span: Span { start: 2, end: 3, source_id: 5 } })
    );
}

#[test]
fn empty_source_has_no_tokens() {
    let mut rodeo = Rodeo::new();
    assert_eq!(tokenize(0, "  \t\r\n", &mut rodeo), Ok(vec![]));
}

#[test]
fn try_tokenize_gives_up_on_overflowing_literal() {
    let mut rodeo = Rodeo::new();
    assert_eq!(try_tokenize(0, "99999999999999999999", &mut rodeo), None);
    assert_eq!(try_tokenize(0, "9223372036854775808", &mut rodeo), None);
}

#[test]
fn try_tokenize_gives_up_on_lone_multibyte_letter_at_end() {
    let mut rodeo = Rodeo::new();
    assert_eq!(try_tokenize(0, "a é", &mut rodeo), None);
    let mut rodeo = Rodeo::new();
    assert_eq!(
        try_tokenize(0, "é ", &mut rodeo),
        Some(Ok(vec![tok(TokenKind::Identifier(0), 0, 2)]))
    );
}

#[test]
fn try_tokenize_agrees_with_tokenize() {
    let mut r1 = Rodeo::new();
    let mut r2 = Rodeo::new();
    let src = "x := (1, y) ;; done";
    assert_eq!(try_tokenize(0, src, &mut r1), Some(tokenize(0, src, &mut r2)));
}

#[test]
fn tokens_are_in_order_within_source() {
    let mut rodeo = Rodeo::new();
    let src = "callable(a: int): nil { a * 2 % 3 }";
    let toks = tokenize(1, src, &mut rodeo).unwrap();
    for t in &toks {
        assert!(t.span.start < t.span.end && t.span.end <= src.len());
        assert_eq!(t.span.source_id, 1);
    }
    for w in toks.windows(2) {
        assert!(w[0].span.end <= w[1].span.start);
    }
}

#[test]
fn interner_refusal_ends_reading() {
    let mut rodeo: Rodeo = Rodeo::with_capacity_and_memory_limits(
        lasso::Capacity::for_bytes(std::num::NonZeroUsize::new(10).unwrap()),
        lasso::MemoryLimits::for_memory_usage(10),
    );
    let res = tokenize(0, "abcdefghij + abcdefghij * k", &mut rodeo);
    assert_eq!(res, Err(LexError::InternerRefused { span: Span { start: 26, end: 27, source_id: 0 } }));
    assert_eq!(rodeo.len(), 1);
    assert_eq!(name_of(&rodeo, 0), "abcdefghij");
    let mut r2: Rodeo = Rodeo::with_capacity_and_memory_limits(
        lasso::Capacity::for_bytes(std::num::NonZeroUsize::new(10).unwrap()),
        lasso::MemoryLimits::for_memory_usage(10),
    );
    assert_eq!(
        try_tokenize(0, "k", &mut r2),
        Some(Ok(vec![tok(TokenKind::Identifier(0), 0, 1)]))
    );
}

#[test]
fn leading_blank_shifts_positions() {
    let shift = |t: &Token| Token {
        kind: t.kind,
        span: Span { start: t.span.start + 1, end: t.span.end + 1, source_id: t.span.source_id },
    };
    let mut r1 = Rodeo::new();
    let mut r2 = Rodeo::new();
    let plain = tokenize(2, "x := (1 + y) ;; note\nz", &mut r1).unwrap();
    let blank = tokenize(2, " x := (1 + y) ;; note\nz", &mut r2).unwrap();
    assert_eq!(blank, plain.iter().map(shift).collect::<Vec<Token>>());
    assert_eq!(r1, r2);
    let mut r3 = Rodeo::new();
    assert_eq!(
        tokenize(0, " 1 # 2", &mut r3),
        Err(LexError::UnrecognizedCharacter { ch: '#', span: Span { start: 3, end: 4, source_id: 0 } })
    );
}
