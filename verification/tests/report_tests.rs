use ivo::lexer::{tokenize, LexError};
use ivo::parser::{Context, Expected, ParseError, Parser};
use ivo::span::Span;
use ivo::token::{Token, TokenKind};
use lasso::Rodeo;

fn sp(start: usize, end: usize) -> Span {
    Span { start, end, source_id: 0 }
}

#[test]
fn lex_error_reports() {
    let r = LexError::UnrecognizedCharacter { ch: '#', span: sp(2, 3) }.report();
    assert_eq!(r.message, "Unrecognized character `#`");
    assert_eq!(r.label, "unknown character");
    assert_eq!(r.span, sp(2, 3));
    let r = LexError::UnterminatedString { span: sp(0, 4) }.report();
    assert_eq!(r.message, "Unterminated string");
    assert_eq!(r.label, "unterminated string");
    let r = LexError::InternerRefused { span: sp(5, 6) }.report();
    assert_eq!(r.message, "Failed to get or intern string");
    assert_eq!(r.label, "identifier not stored");
    assert_eq!(r.span, sp(5, 6));
}

#[test]
fn parse_error_report_names_identifiers() {
    let mut rodeo = Rodeo::new();
    let toks = tokenize(0, "(alpha beta", &mut rodeo).unwrap();
    let err = {
        let ctx = Context { rodeo: &rodeo, source_id: 0 };
        let mut parser = Parser::new(&ctx, &toks);
        parser.parse().err().unwrap()
    };
    let r = err.report(&rodeo);
    assert_eq!(r.message, "Unexpected `beta`");
    assert_eq!(r.label, "expected `)`, found `beta`");
    assert_eq!(r.span, sp(7, 11));
}

#[test]
fn end_of_input_report() {
    let rodeo = Rodeo::new();
    let e = ParseError::EndOfInput { span: sp(3, 4), expected: Expected::Expression };
    let r = e.report(&rodeo);
    assert_eq!(r.message, "Unexpected end of input");
    assert_eq!(r.label, "expected expression, found end of input");
    let e = ParseError::EndOfInput { span: sp(3, 4), expected: Expected::Token(TokenKind::Walrus) };
    assert_eq!(e.report(&rodeo).label, "expected `:=`, found end of input");
}

#[test]
fn integer_text_in_reports() {
    let rodeo = Rodeo::new();
    let e = ParseError::Unexpected {
        found: Token { kind: TokenKind::IntLit(i64::MIN), span: sp(0, 1) },
        expected: Expected::Type,
    };
    let r = e.report(&rodeo);
    assert_eq!(r.message, "Unexpected `-9223372036854775808`");
    assert_eq!(r.label, "expected type, found `-9223372036854775808`");
    let e = ParseError::Unexpected { found: Token { kind: TokenKind::IntLit(1070), span: sp(0, 4) }, expected: Expected::Identifier };
    assert_eq!(e.report(&rodeo).message, "Unexpected `1070`");
}
