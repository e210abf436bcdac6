use vstd::prelude::*;
use vstd::utf8::*;
use crate::interner::intern_result;
use crate::lexer::{
    byte_offset, char_bytes, comment_end, digits_value, ident_end, is_alphabetic_char,
    is_alphanumeric_char, is_digit, is_keyword, is_space, lemma_byte_offset_encode,
    lemma_byte_offset_mono, lemma_comment_end, lemma_ident_end, lemma_number_end, lex, lex_capped,
    lex_agrees, lex_from, number_end, refused, single_char_kind, word_kind, LexError, LexOutcome,
};
use crate::span::Span;
use crate::token::{Token, TokenKind};

verus! {

/// `sp` moved one byte to the right.
pub open spec fn shift_span(sp: Span) -> Span {
    Span { start: (sp.start + 1) as usize, end: (sp.end + 1) as usize, source_id: sp.source_id }
}

pub open spec fn shift_token(t: Token) -> Token {
    Token { kind: t.kind, span: shift_span(t.span) }
}

pub open spec fn shift_tokens(toks: Seq<Token>) -> Seq<Token> {
    toks.map_values(|t: Token| shift_token(t))
}

pub open spec fn shift_error(e: LexError) -> LexError {
    match e {
        LexError::UnterminatedString { span } => LexError::UnterminatedString { span: shift_span(span) },
        LexError::UnrecognizedCharacter { ch, span } => LexError::UnrecognizedCharacter {
            ch,
            span: shift_span(span),
        },
        LexError::InternerRefused { span } => LexError::InternerRefused { span: shift_span(span) },
    }
}

/// The outcome `o` with every position in it moved one byte to the right.
pub open spec fn shift_outcome(o: LexOutcome) -> LexOutcome {
    match o {
        LexOutcome::Tokens(t, n) => LexOutcome::Tokens(shift_tokens(t), n),
        LexOutcome::Failed(e, n) => LexOutcome::Failed(shift_error(e), n),
        LexOutcome::Aborted(n) => LexOutcome::Aborted(n),
    }
}

proof fn lemma_blank_offset(s: Seq<char>, k: int)
    requires
        0 <= k <= s.len(),
    ensures
        byte_offset(seq![' '] + s, k + 1) == byte_offset(s, k) + 1,
    decreases k,
{
    let ss = seq![' '] + s;
    if k == 0 {
        assert(byte_offset(ss, 0) == 0);
        assert(ss[0] == ' ');
    } else {
        lemma_blank_offset(s, k - 1);
        assert(ss[k] == s[k - 1]);
    }
}

proof fn lemma_blank_comment_end(s: Seq<char>, k: nat)
    requires
        k <= s.len(),
    ensures
        comment_end(seq![' '] + s, k + 1) == comment_end(s, k) + 1,
    decreases s.len() - k,
{
    let ss = seq![' '] + s;
    if k < s.len() {
        assert(ss[k + 1int] == s[k as int]);
        if s[k as int] != '\n' {
            lemma_blank_comment_end(s, k + 1);
        }
    }
}

proof fn lemma_blank_number_end(s: Seq<char>, k: nat, is_float: bool)
    requires
        k <= s.len(),
    ensures
        number_end(seq![' '] + s, k + 1, is_float) == (number_end(s, k, is_float).0 + 1, number_end(
            s,
            k,
            is_float,
        ).1),
    decreases s.len() - k,
{
    let ss = seq![' '] + s;
    if k < s.len() {
        assert(ss[k + 1int] == s[k as int]);
        if is_digit(s[k as int]) || s[k as int] == '_' {
            lemma_blank_number_end(s, k + 1, is_float);
        } else if s[k as int] == '.' && !is_float {
            lemma_blank_number_end(s, k + 1, true);
        }
    }
}

proof fn lemma_blank_ident_end(s: Seq<char>, k: nat)
    requires
        k <= s.len(),
    ensures
        ident_end(seq![' '] + s, k + 1) == ident_end(s, k) + 1,
    decreases s.len() - k,
{
    let ss = seq![' '] + s;
    if k < s.len() {
        assert(ss[k + 1int] == s[k as int]);
        if is_alphanumeric_char(s[k as int]) || s[k as int] == '_' {
            lemma_blank_ident_end(s, k + 1);
        }
    }
}

proof fn lemma_shift_push(toks: Seq<Token>, t: Token)
    ensures
        shift_tokens(toks.push(t)) == shift_tokens(toks).push(shift_token(t)),
{
    assert(shift_tokens(toks.push(t)) =~= shift_tokens(toks).push(shift_token(t)));
}

/// Reading `' '` followed by `s` from index `i + 1` is reading `s` from
/// index `i`, every position one byte further.
proof fn lemma_blank_from(
    s: Seq<char>,
    sid: usize,
    i: nat,
    toks: Seq<Token>,
    names: Seq<Seq<char>>,
    cap: nat,
)
    requires
        i <= s.len(),
        byte_offset(s, s.len() as int) < usize::MAX,
    ensures
        lex_from(seq![' '] + s, sid, i + 1, shift_tokens(toks), names, cap) == shift_outcome(
            lex_from(s, sid, i, toks, names, cap),
        ),
    decreases s.len() - i,
{
    let ss = seq![' '] + s;
    let ii = i as int;
    if i < s.len() {
        let c = s[ii];
        assert(ss[ii + 1] == c);
        let start = byte_offset(s, ii);
        lemma_blank_offset(s, ii);
        lemma_byte_offset_mono(s, ii + 1, s.len() as int);
        lemma_blank_offset(s, ii + 1);
        lemma_blank_offset(s, s.len() as int);
        if is_space(c) {
            lemma_blank_from(s, sid, i + 1, toks, names, cap);
        } else if c == ';' {
            if i + 1 < s.len() && s[ii + 1] == ';' {
                assert(ss[ii + 2] == s[ii + 1]);
                lemma_comment_end(s, i + 2);
                lemma_blank_comment_end(s, i + 2);
                lemma_blank_from(s, sid, comment_end(s, i + 2), toks, names, cap);
            } else {
                if i + 1 < s.len() {
                    assert(ss[ii + 2] == s[ii + 1]);
                }
                let one = Span { start: start as usize, end: (start + 1) as usize, source_id: sid };
                let t = Token { kind: TokenKind::Semicolon, span: one };
                lemma_shift_push(toks, t);
                lemma_blank_from(s, sid, i + 1, toks.push(t), names, cap);
            }
        } else if single_char_kind(c) is Some {
            let one = Span { start: start as usize, end: (start + 1) as usize, source_id: sid };
            let t = Token { kind: single_char_kind(c)->0, span: one };
            lemma_shift_push(toks, t);
            lemma_blank_from(s, sid, i + 1, toks.push(t), names, cap);
        } else if c == ':' {
            let one = Span { start: start as usize, end: (start + 1) as usize, source_id: sid };
            let two = Span { start: start as usize, end: (start + 2) as usize, source_id: sid };
            if i + 1 < s.len() {
                assert(ss[ii + 2] == s[ii + 1]);
                lemma_byte_offset_mono(s, ii + 2, s.len() as int);
            }
            if i + 1 < s.len() && (s[ii + 1] == ':' || s[ii + 1] == '=') {
                let kind = if s[ii + 1] == ':' {
                    TokenKind::CColon
                } else {
                    TokenKind::Walrus
                };
                let t = Token { kind, span: two };
                lemma_shift_push(toks, t);
                lemma_blank_from(s, sid, i + 2, toks.push(t), names, cap);
            } else {
                let t = Token { kind: TokenKind::Colon, span: one };
                lemma_shift_push(toks, t);
                lemma_blank_from(s, sid, i + 1, toks.push(t), names, cap);
            }
        } else if is_digit(c) {
            lemma_number_end(s, i + 1, false);
            lemma_blank_number_end(s, i + 1, false);
            let (j, is_float) = number_end(s, i + 1, false);
            lemma_byte_offset_mono(s, j as int, s.len() as int);
            lemma_blank_offset(s, j as int);
            assert(ss.subrange(ii + 1, j + 1int) =~= s.subrange(ii, j as int));
            let span = Span { start: start as usize, end: byte_offset(s, j as int) as usize, source_id: sid };
            let v = digits_value(s.subrange(ii, j as int));
            if is_float || v <= i64::MAX {
                let kind = if is_float {
                    TokenKind::FloatLit
                } else {
                    TokenKind::IntLit(v as i64)
                };
                let t = Token { kind, span };
                lemma_shift_push(toks, t);
                lemma_blank_from(s, sid, j, toks.push(t), names, cap);
            }
        } else if is_alphabetic_char(c) || c == '_' {
            lemma_ident_end(s, i + 1);
            lemma_blank_ident_end(s, i + 1);
            let j = ident_end(s, i + 1);
            lemma_byte_offset_mono(s, j as int, s.len() as int);
            lemma_blank_offset(s, j as int);
            let text = s.subrange(ii, j as int);
            assert(ss.subrange(ii + 1, j + 1int) =~= text);
            let span = Span { start: start as usize, end: byte_offset(s, j as int) as usize, source_id: sid };
            if j == i + 1 && j == s.len() && char_bytes(c) > 1 {
            } else if is_keyword(text) {
                let t = Token { kind: word_kind(text, 0), span };
                lemma_shift_push(toks, t);
                lemma_blank_from(s, sid, j, toks.push(t), names, cap);
            } else if !names.contains(text) && names.len() >= cap {
            } else {
                let (key, names2) = intern_result(names, text);
                let t = Token { kind: TokenKind::Identifier(key), span };
                lemma_shift_push(toks, t);
                lemma_blank_from(s, sid, j, toks.push(t), names2, cap);
            }
        }
    } else {
        assert(ss.len() == s.len() + 1);
    }
}

/// A leading blank changes nothing but positions: reading `' '` followed by
/// `s` gives what reading `s` gives, with every span in the tokens or in the
/// error one byte further, and the same strings interned. This holds
/// whatever limit the interner puts on new identifiers.
pub proof fn lemma_leading_blank(s: Seq<char>, sid: usize, names: Seq<Seq<char>>, cap: nat)
    requires
        encode_utf8(s).len() < usize::MAX,
    ensures
        lex_capped(seq![' '] + s, sid, names, cap) == shift_outcome(lex_capped(s, sid, names, cap)),
        lex(seq![' '] + s, sid, names) == shift_outcome(lex(s, sid, names)),
{
    lemma_byte_offset_encode(s, s.len() as int);
    assert(s.take(s.len() as int) =~= s);
    let ss = seq![' '] + s;
    assert(ss[0] == ' ');
    assert(shift_tokens(seq![]) =~= Seq::<Token>::empty());
    lemma_blank_from(s, sid, 0, seq![], names, cap);
    lemma_blank_from(s, sid, 0, seq![], names, u32::MAX as nat);
}

/// What `tokenize` gives on `' '` followed by `s` is what it gives on `s`
/// from the same interner, every span one byte further and the same names
/// interned, wherever the interner takes every new identifier on both
/// reads: `res_blank` and `names_blank` are a result of `tokenize` on the
/// blank-led source and the names held afterwards, `res_plain` and
/// `names_plain` the same for `s`.
pub proof fn lemma_tokenize_leading_blank(
    s: Seq<char>,
    sid: usize,
    names: Seq<Seq<char>>,
    res_blank: Result<Vec<Token>, LexError>,
    names_blank: Seq<Seq<char>>,
    res_plain: Result<Vec<Token>, LexError>,
    names_plain: Seq<Seq<char>>,
)
    requires
        encode_utf8(s).len() < usize::MAX,
        !refused(Some(res_blank)),
        !refused(Some(res_plain)),
        lex_agrees(lex(seq![' '] + s, sid, names), Some(res_blank), names_blank),
        lex_agrees(lex(s, sid, names), Some(res_plain), names_plain),
    ensures
        names_blank == names_plain,
        res_blank is Ok <==> res_plain is Ok,
        res_blank matches Ok(v) ==> res_plain matches Ok(w) && v@ == shift_tokens(w@),
        res_blank matches Err(e) ==> res_plain matches Err(f) && e == shift_error(f),
{
    lemma_leading_blank(s, sid, names, u32::MAX as nat);
}

} // verus!
