use vstd::prelude::*;
use crate::interner::{interned, resolve};
use crate::lexer::LexError;
use crate::operator::operator_text;
use crate::lexer::keys_held;
use crate::parser::{error_from, Expected, ParseError};
use crate::token::Token;
use crate::span::Span;
use crate::text::push_char;
use crate::token::TokenKind;

verus! {

/// A diagnostic ready to be shown: a message, and a label on a span.
pub struct Report {
    pub message: String,
    pub label: String,
    pub span: Span,
}

pub open spec fn digit_char(d: int) -> char {
    if d == 0 {
        '0'
    } else if d == 1 {
        '1'
    } else if d == 2 {
        '2'
    } else if d == 3 {
        '3'
    } else if d == 4 {
        '4'
    } else if d == 5 {
        '5'
    } else if d == 6 {
        '6'
    } else if d == 7 {
        '7'
    } else if d == 8 {
        '8'
    } else {
        '9'
    }
}

/// The decimal digits of a natural number, without leading zeros.
pub open spec fn nat_text(n: nat) -> Seq<char>
    decreases n,
{
    if n < 10 {
        seq![digit_char(n as int)]
    } else {
        nat_text(n / 10).push(digit_char((n % 10) as int))
    }
}

/// The decimal text of an integer, with a `-` before negative ones.
pub open spec fn int_text(i: int) -> Seq<char> {
    if i < 0 {
        seq!['-'] + nat_text((-i) as nat)
    } else {
        nat_text(i as nat)
    }
}

/// The text by which a token kind is shown; an identifier shows its name as
/// held by the interner.
pub open spec fn token_text(k: TokenKind, names: Seq<Seq<char>>) -> Seq<char> {
    match k {
        TokenKind::IntLit(i) => int_text(i as int),
        TokenKind::FloatLit => "float literal"@,
        TokenKind::StringLit(_) => "string literal"@,
        TokenKind::Identifier(key) => names[key as int],
        TokenKind::Operator(op) => operator_text(op),
        TokenKind::LParen => "("@,
        TokenKind::RParen => ")"@,
        TokenKind::LCurly => "{"@,
        TokenKind::RCurly => "}"@,
        TokenKind::Semicolon => ";"@,
        TokenKind::Colon => ":"@,
        TokenKind::CColon => "::"@,
        TokenKind::Walrus => ":="@,
        TokenKind::Comma => ","@,
        TokenKind::Assign => "="@,
        TokenKind::KwProc => "proc"@,
        TokenKind::KwFunc => "func"@,
        TokenKind::KwCallable => "callable"@,
        TokenKind::KwNil => "nil"@,
    }
}

/// The text by which what was expected is shown.
pub open spec fn expected_text(e: Expected, names: Seq<Seq<char>>) -> Seq<char> {
    match e {
        Expected::Token(k) => "`"@ + token_text(k, names) + "`"@,
        Expected::Identifier => "identifier"@,
        Expected::Expression => "expression"@,
        Expected::Type => "type"@,
    }
}

/// Whether a token kind can be shown with the names `names`: an identifier's
/// key must be held.
pub open spec fn shown_with(k: TokenKind, names: Seq<Seq<char>>) -> bool {
    k matches TokenKind::Identifier(key) ==> key < names.len()
}

pub open spec fn error_shown_with(e: ParseError, names: Seq<Seq<char>>) -> bool {
    match e {
        ParseError::Unexpected { found, expected } => {
            &&& shown_with(found.kind, names)
            &&& (expected matches Expected::Token(k) ==> shown_with(k, names))
        },
        ParseError::EndOfInput { expected, .. } => expected matches Expected::Token(k) ==> shown_with(k, names),
    }
}

/// An error that parsing gives on tokens whose identifier keys the
/// interner holds (as `tokenize` leaves them) can be shown with that
/// interner's names.
pub proof fn lemma_parse_error_shown(e: ParseError, toks: Seq<Token>, names: Seq<Seq<char>>)
    requires
        error_from(e, toks),
        keys_held(toks, names),
    ensures
        error_shown_with(e, names),
{
    if let ParseError::Unexpected { found, expected } = e {
        let k = choose|k: int| 0 <= k < toks.len() && toks[k] == found;
        assert(toks[k].kind == found.kind);
    }
}

/// The message, label and span of a lexing error.
pub open spec fn lex_report(e: LexError) -> (Seq<char>, Seq<char>, Span) {
    match e {
        LexError::UnterminatedString { span } => ("Unterminated string"@, "unterminated string"@, span),
        LexError::UnrecognizedCharacter { ch, span } => (
            "Unrecognized character `"@ + seq![ch] + "`"@,
            "unknown character"@,
            span,
        ),
        LexError::InternerRefused { span } => (
            "Failed to get or intern string"@,
            "identifier not stored"@,
            span,
        ),
    }
}

/// The message, label and span of a parsing error.
pub open spec fn parse_report(e: ParseError, names: Seq<Seq<char>>) -> (Seq<char>, Seq<char>, Span) {
    match e {
        ParseError::Unexpected { found, expected } => (
            "Unexpected `"@ + token_text(found.kind, names) + "`"@,
            "expected "@ + expected_text(expected, names) + ", found `"@ + token_text(found.kind, names) + "`"@,
            found.span,
        ),
        ParseError::EndOfInput { span, expected } => (
            "Unexpected end of input"@,
            "expected "@ + expected_text(expected, names) + ", found end of input"@,
            span,
        ),
    }
}

fn push_digit(s: &mut String, d: u64)
    requires
        d < 10,
    ensures
        final(s)@ == old(s)@.push(digit_char(d as int)),
{
    let c = if d == 0 {
        '0'
    } else if d == 1 {
        '1'
    } else if d == 2 {
        '2'
    } else if d == 3 {
        '3'
    } else if d == 4 {
        '4'
    } else if d == 5 {
        '5'
    } else if d == 6 {
        '6'
    } else if d == 7 {
        '7'
    } else if d == 8 {
        '8'
    } else {
        '9'
    };
    push_char(s, c);
}

fn push_nat(s: &mut String, n: u64)
    ensures
        final(s)@ == old(s)@ + nat_text(n as nat),
    decreases n,
{
    if n >= 10 {
        push_nat(s, n / 10);
    }
    push_digit(s, n % 10);
    proof {
        if n < 10 {
            assert(n % 10 == n);
        }
        assert(final(s)@ =~= old(s)@ + nat_text(n as nat));
    }
}

fn push_int(s: &mut String, i: i64)
    ensures
        final(s)@ == old(s)@ + int_text(i as int),
{
    if i < 0 {
        push_char(s, '-');
        let magnitude: u64 = if i == i64::MIN {
            9223372036854775808u64
        } else {
            (-i) as u64
        };
        push_nat(s, magnitude);
        assert(final(s)@ =~= old(s)@ + int_text(i as int));
    } else {
        push_nat(s, i as u64);
    }
}

/// Appends the text of a token kind.
fn push_token_text(s: &mut String, k: TokenKind, rodeo: &lasso::Rodeo)
    requires
        shown_with(k, interned(*rodeo)),
    ensures
        final(s)@ == old(s)@ + token_text(k, interned(*rodeo)),
{
    match k {
        TokenKind::IntLit(i) => push_int(s, i),
        TokenKind::FloatLit => s.append("float literal"),
        TokenKind::StringLit(_) => s.append("string literal"),
        TokenKind::Identifier(key) => s.append(resolve(rodeo, key)),
        TokenKind::Operator(op) => s.append(op.as_str()),
        TokenKind::LParen => s.append("("),
        TokenKind::RParen => s.append(")"),
        TokenKind::LCurly => s.append("{"),
        TokenKind::RCurly => s.append("}"),
        TokenKind::Semicolon => s.append(";"),
        TokenKind::Colon => s.append(":"),
        TokenKind::CColon => s.append("::"),
        TokenKind::Walrus => s.append(":="),
        TokenKind::Comma => s.append(","),
        TokenKind::Assign => s.append("="),
        TokenKind::KwProc => s.append("proc"),
        TokenKind::KwFunc => s.append("func"),
        TokenKind::KwCallable => s.append("callable"),
        TokenKind::KwNil => s.append("nil"),
    }
}

/// Appends the text of what was expected.
fn push_expected_text(s: &mut String, e: Expected, rodeo: &lasso::Rodeo)
    requires
        e matches Expected::Token(k) ==> shown_with(k, interned(*rodeo)),
    ensures
        final(s)@ == old(s)@ + expected_text(e, interned(*rodeo)),
{
    match e {
        Expected::Token(k) => {
            s.append("`");
            push_token_text(s, k, rodeo);
            s.append("`");
            assert(final(s)@ =~= old(s)@ + expected_text(e, interned(*rodeo)));
        },
        Expected::Identifier => s.append("identifier"),
        Expected::Expression => s.append("expression"),
        Expected::Type => s.append("type"),
    }
}

impl LexError {
    /// The diagnostic that shows this error.
    pub fn report(&self) -> (r: Report)
        ensures
            (r.message@, r.label@, r.span) == lex_report(*self),
    {
        match *self {
            LexError::UnterminatedString { span } => Report {
                message: String::from_str("Unterminated string"),
                label: String::from_str("unterminated string"),
                span,
            },
            LexError::UnrecognizedCharacter { ch, span } => {
                let mut message = String::from_str("Unrecognized character `");
                push_char(&mut message, ch);
                message.append("`");
                proof {
                    assert(message@ =~= "Unrecognized character `"@ + seq![ch] + "`"@);
                }
                Report { message, label: String::from_str("unknown character"), span }
            },
            LexError::InternerRefused { span } => Report {
                message: String::from_str("Failed to get or intern string"),
                label: String::from_str("identifier not stored"),
                span,
            },
        }
    }
}

impl ParseError {
    /// The diagnostic that shows this error, with identifier names taken
    /// from `rodeo`.
    pub fn report(&self, rodeo: &lasso::Rodeo) -> (r: Report)
        requires
            error_shown_with(*self, interned(*rodeo)),
        ensures
            (r.message@, r.label@, r.span) == parse_report(*self, interned(*rodeo)),
    {
        let ghost names = interned(*rodeo);
        match *self {
            ParseError::Unexpected { found, expected } => {
                let mut message = String::from_str("Unexpected `");
                push_token_text(&mut message, found.kind, rodeo);
                message.append("`");
                let mut label = String::from_str("expected ");
                push_expected_text(&mut label, expected, rodeo);
                label.append(", found `");
                push_token_text(&mut label, found.kind, rodeo);
                label.append("`");
                proof {
                    assert(message@ =~= "Unexpected `"@ + token_text(found.kind, names) + "`"@);
                    assert(label@ =~= "expected "@ + expected_text(expected, names) + ", found `"@
                        + token_text(found.kind, names) + "`"@);
                }
                Report { message, label, span: found.span }
            },
            ParseError::EndOfInput { span, expected } => {
                let mut label = String::from_str("expected ");
                push_expected_text(&mut label, expected, rodeo);
                label.append(", found end of input");
                proof {
                    assert(label@ =~= "expected "@ + expected_text(expected, names) + ", found end of input"@);
                }
                Report { message: String::from_str("Unexpected end of input"), label, span }
            },
        }
    }
}

} // verus!
