use vstd::prelude::*;
use vstd::utf8::*;
use crate::interner::{interned, intern_result, intern, interned_len};
use crate::operator::Operator;
use crate::span::Span;
use crate::text::{chars_of, push_char};
use crate::token::{Token, TokenKind};

verus! {

/// Whether a character has the Unicode `Alphabetic` property
/// (`char::is_alphabetic`).
pub uninterp spec fn is_alphabetic_char(c: char) -> bool;

/// Whether a character is alphabetic or numeric in the Unicode sense
/// (`char::is_alphanumeric`).
pub uninterp spec fn is_alphanumeric_char(c: char) -> bool;

/// `char::is_alphabetic`.
///
/// Claimed of the outside code: its result is a function of the character
/// alone, named `is_alphabetic_char`.
#[verifier::external_body]
fn char_is_alphabetic(c: char) -> (b: bool)
    ensures
        b == is_alphabetic_char(c),
{
    c.is_alphabetic()
}

/// `char::is_alphanumeric`.
///
/// Claimed of the outside code: its result is a function of the character
/// alone, named `is_alphanumeric_char`.
#[verifier::external_body]
fn char_is_alphanumeric(c: char) -> (b: bool)
    ensures
        b == is_alphanumeric_char(c),
{
    c.is_alphanumeric()
}

/// An error found while reading tokens.
#[derive(Clone, Copy, Debug, PartialEq, Eq, Structural)]
pub enum LexError {
    /// A string literal that starts at `span.start` and runs to the end of
    /// the source.
    UnterminatedString { span: Span },
    /// A character that starts no token, at the one-byte span `span`.
    UnrecognizedCharacter { ch: char, span: Span },
    /// The interner refused the new identifier at `span`: no key was left,
    /// or its memory limit or the allocator would not take the string.
    InternerRefused { span: Span },
}

/// What reading the tokens of a source gives, with the strings that the
/// interner holds afterwards.
pub enum LexOutcome {
    Tokens(Seq<Token>, Seq<Seq<char>>),
    Failed(LexError, Seq<Seq<char>>),
    /// The reader stops without a result (a literal that does not fit in
    /// `i64`, or a lone multi-byte letter at the very end of the source).
    Aborted(Seq<Seq<char>>),
}

/// The number of bytes of the UTF-8 encoding of a character.
pub open spec fn char_bytes(c: char) -> nat {
    if (c as u32) <= 0x7f {
        1
    } else if (c as u32) <= 0x7ff {
        2
    } else if (c as u32) <= 0xffff {
        3
    } else {
        4
    }
}

/// The byte offset of the character at index `i`.
pub open spec fn byte_offset(s: Seq<char>, i: int) -> nat
    decreases i,
{
    if i <= 0 {
        0
    } else {
        byte_offset(s, i - 1) + char_bytes(s[i - 1])
    }
}

pub open spec fn is_digit(c: char) -> bool {
    '0' <= c <= '9'
}

pub open spec fn is_space(c: char) -> bool {
    c == ' ' || c == '\t' || c == '\n' || c == '\r'
}

/// The tokens that are one character long and need no look-ahead.
pub open spec fn single_char_kind(c: char) -> Option<TokenKind> {
    if c == '+' {
        Some(TokenKind::Operator(Operator::Plus))
    } else if c == '-' {
        Some(TokenKind::Operator(Operator::Minus))
    } else if c == '*' {
        Some(TokenKind::Operator(Operator::Star))
    } else if c == '/' {
        Some(TokenKind::Operator(Operator::Slash))
    } else if c == '%' {
        Some(TokenKind::Operator(Operator::Modulo))
    } else if c == '(' {
        Some(TokenKind::LParen)
    } else if c == ')' {
        Some(TokenKind::RParen)
    } else if c == '{' {
        Some(TokenKind::LCurly)
    } else if c == '}' {
        Some(TokenKind::RCurly)
    } else if c == ',' {
        Some(TokenKind::Comma)
    } else if c == '=' {
        Some(TokenKind::Assign)
    } else {
        None
    }
}

/// The index just after the first line break at or after `k` (or the end).
pub open spec fn comment_end(s: Seq<char>, k: nat) -> nat
    decreases s.len() - k,
{
    if k >= s.len() {
        k
    } else if s[k as int] == '\n' {
        k + 1
    } else {
        comment_end(s, k + 1)
    }
}

/// Where a number literal that continues at `k` ends, and whether it has a
/// decimal point: digits and `_` continue it, and so does one `.`.
pub open spec fn number_end(s: Seq<char>, k: nat, is_float: bool) -> (nat, bool)
    decreases s.len() - k,
{
    if k >= s.len() {
        (k, is_float)
    } else if is_digit(s[k as int]) || s[k as int] == '_' {
        number_end(s, k + 1, is_float)
    } else if s[k as int] == '.' && !is_float {
        number_end(s, k + 1, true)
    } else {
        (k, is_float)
    }
}

/// Where an identifier that continues at `k` ends.
pub open spec fn ident_end(s: Seq<char>, k: nat) -> nat
    decreases s.len() - k,
{
    if k >= s.len() {
        k
    } else if is_alphanumeric_char(s[k as int]) || s[k as int] == '_' {
        ident_end(s, k + 1)
    } else {
        k
    }
}

pub open spec fn digit_value(c: char) -> int {
    if is_digit(c) {
        c as int - '0' as int
    } else {
        0
    }
}

/// The value of a run of decimal digits, the `_` separators skipped.
pub open spec fn digits_value(cs: Seq<char>) -> int
    decreases cs.len(),
{
    if cs.len() == 0 {
        0
    } else if cs.last() == '_' {
        digits_value(cs.drop_last())
    } else {
        digits_value(cs.drop_last()) * 10 + digit_value(cs.last())
    }
}

/// The token that a word stands for, given the key it would be interned under.
pub open spec fn word_kind(text: Seq<char>, key: usize) -> TokenKind {
    if text == seq!['p', 'r', 'o', 'c'] {
        TokenKind::KwProc
    } else if text == seq!['f', 'u', 'n', 'c'] {
        TokenKind::KwFunc
    } else if text == seq!['c', 'a', 'l', 'l', 'a', 'b', 'l', 'e'] {
        TokenKind::KwCallable
    } else if text == seq!['n', 'i', 'l'] {
        TokenKind::KwNil
    } else {
        TokenKind::Identifier(key)
    }
}

pub open spec fn is_keyword(text: Seq<char>) -> bool {
    word_kind(text, 0) != TokenKind::Identifier(0)
}

pub proof fn lemma_comment_end(s: Seq<char>, k: nat)
    ensures
        k <= comment_end(s, k),
        k <= s.len() ==> comment_end(s, k) <= s.len(),
    decreases s.len() - k,
{
    if k < s.len() && s[k as int] != '\n' {
        lemma_comment_end(s, k + 1);
    }
}

pub proof fn lemma_number_end(s: Seq<char>, k: nat, is_float: bool)
    ensures
        k <= number_end(s, k, is_float).0,
        k <= s.len() ==> number_end(s, k, is_float).0 <= s.len(),
    decreases s.len() - k,
{
    if k < s.len() {
        if is_digit(s[k as int]) || s[k as int] == '_' {
            lemma_number_end(s, k + 1, is_float);
        } else if s[k as int] == '.' && !is_float {
            lemma_number_end(s, k + 1, true);
        }
    }
}

pub proof fn lemma_ident_end(s: Seq<char>, k: nat)
    ensures
        k <= ident_end(s, k),
        k <= s.len() ==> ident_end(s, k) <= s.len(),
    decreases s.len() - k,
{
    if k < s.len() && (is_alphanumeric_char(s[k as int]) || s[k as int] == '_') {
        lemma_ident_end(s, k + 1);
    }
}

/// Reads the tokens of `s` from index `i` on, after `toks` were read and
/// with `names` held by the interner, which takes a new identifier only
/// while it holds fewer than `cap` strings.
pub open spec fn lex_from(
    s: Seq<char>,
    sid: usize,
    i: nat,
    toks: Seq<Token>,
    names: Seq<Seq<char>>,
    cap: nat,
) -> LexOutcome
    decreases s.len() - i,
{
    if i >= s.len() {
        LexOutcome::Tokens(toks, names)
    } else {
        let c = s[i as int];
        let start = byte_offset(s, i as int);
        let one = Span { start: start as usize, end: (start + 1) as usize, source_id: sid };
        if is_space(c) {
            lex_from(s, sid, i + 1, toks, names, cap)
        } else if c == ';' {
            if i + 1 < s.len() && s[i + 1int] == ';' {
                proof {
                    lemma_comment_end(s, i + 2);
                }
                lex_from(s, sid, comment_end(s, i + 2), toks, names, cap)
            } else {
                lex_from(s, sid, i + 1, toks.push(Token { kind: TokenKind::Semicolon, span: one }), names, cap)
            }
        } else if single_char_kind(c) is Some {
            lex_from(
                s,
                sid,
                i + 1,
                toks.push(Token { kind: single_char_kind(c)->0, span: one }),
                names,
                cap,
            )
        } else if c == ':' {
            let two = Span { start: start as usize, end: (start + 2) as usize, source_id: sid };
            if i + 1 < s.len() && s[i + 1int] == ':' {
                lex_from(s, sid, i + 2, toks.push(Token { kind: TokenKind::CColon, span: two }), names, cap)
            } else if i + 1 < s.len() && s[i + 1int] == '=' {
                lex_from(s, sid, i + 2, toks.push(Token { kind: TokenKind::Walrus, span: two }), names, cap)
            } else {
                lex_from(s, sid, i + 1, toks.push(Token { kind: TokenKind::Colon, span: one }), names, cap)
            }
        } else if is_digit(c) {
            proof {
                lemma_number_end(s, i + 1, false);
            }
            let (j, is_float) = number_end(s, i + 1, false);
            let span = Span { start: start as usize, end: byte_offset(s, j as int) as usize, source_id: sid };
            if is_float {
                lex_from(s, sid, j, toks.push(Token { kind: TokenKind::FloatLit, span }), names, cap)
            } else {
                let v = digits_value(s.subrange(i as int, j as int));
                if v > i64::MAX {
                    LexOutcome::Aborted(names)
                } else {
                    lex_from(s, sid, j, toks.push(Token { kind: TokenKind::IntLit(v as i64), span }), names, cap)
                }
            }
        } else if is_alphabetic_char(c) || c == '_' {
            proof {
                lemma_ident_end(s, i + 1);
            }
            let j = ident_end(s, i + 1);
            let text = s.subrange(i as int, j as int);
            let span = Span { start: start as usize, end: byte_offset(s, j as int) as usize, source_id: sid };
            if j == i + 1 && j == s.len() && char_bytes(c) > 1 {
                LexOutcome::Aborted(names)
            } else if is_keyword(text) {
                lex_from(s, sid, j, toks.push(Token { kind: word_kind(text, 0), span }), names, cap)
            } else if !names.contains(text) && names.len() >= cap {
                LexOutcome::Failed(LexError::InternerRefused { span }, names)
            } else {
                let (key, names2) = intern_result(names, text);
                lex_from(s, sid, j, toks.push(Token { kind: TokenKind::Identifier(key), span }), names2, cap)
            }
        } else if c == '"' {
            LexOutcome::Failed(
                LexError::UnterminatedString {
                    span: Span { start: start as usize, end: byte_offset(s, s.len() as int) as usize, source_id: sid },
                },
                names,
            )
        } else {
            LexOutcome::Failed(LexError::UnrecognizedCharacter { ch: c, span: one }, names)
        }
    }
}

/// Reads all tokens of `s`, with `names` held by the interner at the start,
/// which takes a new identifier only while it holds fewer than `cap` strings.
pub open spec fn lex_capped(s: Seq<char>, sid: usize, names: Seq<Seq<char>>, cap: nat) -> LexOutcome {
    lex_from(s, sid, 0, seq![], names, cap)
}

/// Reads all tokens of `s`, with `names` held by the interner at the start,
/// which takes new identifiers as long as keys are left.
pub open spec fn lex(s: Seq<char>, sid: usize, names: Seq<Seq<char>>) -> LexOutcome {
    lex_capped(s, sid, names, u32::MAX as nat)
}

pub proof fn lemma_encode_len_concat(a: Seq<char>, b: Seq<char>)
    ensures
        encode_utf8(a + b).len() == encode_utf8(a).len() + encode_utf8(b).len(),
    decreases a.len(),
{
    if a.len() == 0 {
        assert(a + b =~= b);
    } else {
        lemma_encode_len_concat(a.drop_first(), b);
        assert((a + b).drop_first() =~= a.drop_first() + b);
        assert((a + b)[0] == a[0]);
    }
}

pub proof fn lemma_encode_char_len(c: char)
    ensures
        encode_utf8(seq![c]).len() == char_bytes(c),
{
    broadcast use vstd::utf8::char_is_scalar;

    assert(seq![c].drop_first() =~= Seq::<char>::empty());
    assert(encode_utf8(Seq::<char>::empty()) =~= Seq::<u8>::empty());
    assert(is_scalar(c as u32));
}

/// The byte offset of index `i` is the length of the UTF-8 encoding of the
/// characters before it.
pub proof fn lemma_byte_offset_encode(s: Seq<char>, i: int)
    requires
        0 <= i <= s.len(),
    ensures
        byte_offset(s, i) == encode_utf8(s.take(i)).len(),
    decreases i,
{
    if i == 0 {
        assert(s.take(0) =~= Seq::<char>::empty());
    } else {
        lemma_byte_offset_encode(s, i - 1);
        assert(s.take(i) =~= s.take(i - 1) + seq![s[i - 1]]);
        lemma_encode_len_concat(s.take(i - 1), seq![s[i - 1]]);
        lemma_encode_char_len(s[i - 1]);
    }
}

pub proof fn lemma_byte_offset_mono(s: Seq<char>, i: int, j: int)
    requires
        0 <= i <= j,
    ensures
        byte_offset(s, i) <= byte_offset(s, j),
    decreases j - i,
{
    if i < j {
        lemma_byte_offset_mono(s, i, j - 1);
    }
}

/// The byte length of a string is the byte offset just past its last character.
pub proof fn lemma_byte_len(source: &str)
    ensures
        byte_offset(source@, source@.len() as int) == encode_utf8(source@).len(),
{
    lemma_byte_offset_encode(source@, source@.len() as int);
    assert(source@.take(source@.len() as int) =~= source@);
}

pub proof fn lemma_digits_value_nonneg(cs: Seq<char>)
    ensures
        digits_value(cs) >= 0,
    decreases cs.len(),
{
    if cs.len() > 0 {
        lemma_digits_value_nonneg(cs.drop_last());
    }
}

/// A run of digits is worth at least as much as any of its prefixes.
pub proof fn lemma_digits_value_prefix(cs: Seq<char>, m: int)
    requires
        0 <= m <= cs.len(),
    ensures
        digits_value(cs.take(m)) <= digits_value(cs),
    decreases cs.len(),
{
    if m < cs.len() {
        lemma_digits_value_prefix(cs.drop_last(), m);
        assert(cs.drop_last().take(m) =~= cs.take(m));
        lemma_digits_value_nonneg(cs.drop_last());
    } else {
        assert(cs.take(m) =~= cs);
    }
}

proof fn lemma_index_of_unique(names: Seq<Seq<char>>, k: int, x: Seq<char>)
    requires
        names.no_duplicates(),
        0 <= k < names.len(),
        names[k] == x,
    ensures
        names.index_of(x) == k,
{
    assert(names.contains(x));
    let j = names.index_of(x);
    assert(0 <= j < names.len() && names[j] == x);
}

/// The number of bytes of the UTF-8 encoding of a character.
fn char_len(c: char) -> (n: usize)
    ensures
        n == char_bytes(c),
{
    let u = c as u32;
    if u <= 0x7f {
        1
    } else if u <= 0x7ff {
        2
    } else if u <= 0xffff {
        3
    } else {
        4
    }
}

/// The token kind of a word (`text` is `s[i..k]`): a keyword, or `None` for
/// an identifier.
fn keyword_kind(s: &Vec<char>, i: usize, k: usize) -> (r: Option<TokenKind>)
    requires
        i <= k <= s@.len(),
    ensures
        r is None <==> !is_keyword(s@.subrange(i as int, k as int)),
        r matches Some(kind) ==> kind == word_kind(s@.subrange(i as int, k as int), 0),
{
    let ghost text = s@.subrange(i as int, k as int);
    let len = k - i;
    if len == 4 && s[i] == 'p' && s[i + 1] == 'r' && s[i + 2] == 'o' && s[i + 3] == 'c' {
        assert(text =~= seq!['p', 'r', 'o', 'c']);
        Some(TokenKind::KwProc)
    } else if len == 4 && s[i] == 'f' && s[i + 1] == 'u' && s[i + 2] == 'n' && s[i + 3] == 'c' {
        assert(text =~= seq!['f', 'u', 'n', 'c']);
        Some(TokenKind::KwFunc)
    } else if len == 8 && s[i] == 'c' && s[i + 1] == 'a' && s[i + 2] == 'l' && s[i + 3] == 'l'
        && s[i + 4] == 'a' && s[i + 5] == 'b' && s[i + 6] == 'l' && s[i + 7] == 'e' {
        assert(text =~= seq!['c', 'a', 'l', 'l', 'a', 'b', 'l', 'e']);
        Some(TokenKind::KwCallable)
    } else if len == 3 && s[i] == 'n' && s[i + 1] == 'i' && s[i + 2] == 'l' {
        assert(text =~= seq!['n', 'i', 'l']);
        Some(TokenKind::KwNil)
    } else {
        let ghost kw_proc = seq!['p', 'r', 'o', 'c'];
        let ghost kw_func = seq!['f', 'u', 'n', 'c'];
        let ghost kw_callable = seq!['c', 'a', 'l', 'l', 'a', 'b', 'l', 'e'];
        let ghost kw_nil = seq!['n', 'i', 'l'];
        assert(text != kw_proc) by {
            if text == kw_proc {
                assert(kw_proc.len() == 4 && kw_proc[0] == 'p' && kw_proc[1] == 'r'
                    && kw_proc[2] == 'o' && kw_proc[3] == 'c');
                assert(text[0] == s@[i as int] && text[1] == s@[i + 1] && text[2] == s@[i + 2]
                    && text[3] == s@[i + 3]);
            }
        }
        assert(text != kw_func) by {
            if text == kw_func {
                assert(kw_func.len() == 4 && kw_func[0] == 'f' && kw_func[1] == 'u'
                    && kw_func[2] == 'n' && kw_func[3] == 'c');
                assert(text[0] == s@[i as int] && text[1] == s@[i + 1] && text[2] == s@[i + 2]
                    && text[3] == s@[i + 3]);
            }
        }
        assert(text != kw_callable) by {
            if text == kw_callable {
                assert(kw_callable.len() == 8 && kw_callable[0] == 'c' && kw_callable[1] == 'a'
                    && kw_callable[2] == 'l' && kw_callable[3] == 'l' && kw_callable[4] == 'a'
                    && kw_callable[5] == 'b' && kw_callable[6] == 'l' && kw_callable[7] == 'e');
                assert(text[0] == s@[i as int] && text[1] == s@[i + 1] && text[2] == s@[i + 2]
                    && text[3] == s@[i + 3] && text[4] == s@[i + 4] && text[5] == s@[i + 5]
                    && text[6] == s@[i + 6] && text[7] == s@[i + 7]);
            }
        }
        assert(text != kw_nil) by {
            if text == kw_nil {
                assert(kw_nil.len() == 3 && kw_nil[0] == 'n' && kw_nil[1] == 'i'
                    && kw_nil[2] == 'l');
                assert(text[0] == s@[i as int] && text[1] == s@[i + 1] && text[2] == s@[i + 2]);
            }
        }
        None
    }
}

/// The string made of the characters `s[i..k]`.
fn collect_text(s: &Vec<char>, i: usize, k: usize) -> (text: String)
    requires
        i <= k <= s@.len(),
    ensures
        text@ == s@.subrange(i as int, k as int),
{
    let mut text = String::new();
    let mut q = i;
    while q < k
        invariant
            i <= q <= k <= s@.len(),
            text@ == s@.subrange(i as int, q as int),
        decreases k - q,
    {
        push_char(&mut text, s[q]);
        q = q + 1;
        assert(text@ =~= s@.subrange(i as int, q as int));
    }
    text
}

/// Whether `res` (and the strings that the interner holds afterwards) is
/// what the outcome `o` describes.
pub open spec fn lex_agrees(
    o: LexOutcome,
    res: Option<Result<Vec<Token>, LexError>>,
    names_after: Seq<Seq<char>>,
) -> bool {
    match o {
        LexOutcome::Tokens(toks, names) => {
            &&& res matches Some(Ok(v))
            &&& v@ == toks
            &&& names_after == names
        },
        LexOutcome::Failed(e, names) => res == Some(Err::<Vec<Token>, LexError>(e)) && names_after == names,
        LexOutcome::Aborted(names) => res is None && names_after == names,
    }
}

fn skip_comment(s: &Vec<char>, k: usize) -> (r: usize)
    requires
        k <= s@.len(),
    ensures
        r == comment_end(s@, k as nat),
{
    let mut q = k;
    while q < s.len()
        invariant
            k <= q <= s@.len(),
            comment_end(s@, q as nat) == comment_end(s@, k as nat),
        decreases s@.len() - q,
    {
        if s[q] == '\n' {
            return q + 1;
        }
        q = q + 1;
    }
    q
}

fn scan_number(s: &Vec<char>, k: usize) -> (r: (usize, bool))
    requires
        k <= s@.len(),
    ensures
        (r.0 as nat, r.1) == number_end(s@, k as nat, false),
{
    let mut q = k;
    let mut is_float = false;
    while q < s.len()
        invariant
            k <= q <= s@.len(),
            number_end(s@, q as nat, is_float) == number_end(s@, k as nat, false),
        decreases s@.len() - q,
    {
        let d = s[q];
        if ('0' <= d && d <= '9') || d == '_' {
            q = q + 1;
        } else if d == '.' && !is_float {
            is_float = true;
            q = q + 1;
        } else {
            return (q, is_float);
        }
    }
    (q, is_float)
}

fn scan_word(s: &Vec<char>, k: usize) -> (r: usize)
    requires
        k <= s@.len(),
    ensures
        r == ident_end(s@, k as nat),
{
    let mut q = k;
    while q < s.len()
        invariant
            k <= q <= s@.len(),
            ident_end(s@, q as nat) == ident_end(s@, k as nat),
        decreases s@.len() - q,
    {
        let d = s[q];
        if char_is_alphanumeric(d) || d == '_' {
            q = q + 1;
        } else {
            return q;
        }
    }
    q
}

/// The byte offset of index `k`, knowing that of index `i`.
fn advance_bytes(s: &Vec<char>, i: usize, k: usize, b: usize) -> (r: usize)
    requires
        i <= k <= s@.len(),
        b == byte_offset(s@, i as int),
        byte_offset(s@, k as int) <= usize::MAX,
    ensures
        r == byte_offset(s@, k as int),
{
    let mut q = i;
    let mut bq = b;
    while q < k
        invariant
            i <= q <= k <= s@.len(),
            bq == byte_offset(s@, q as int),
            byte_offset(s@, k as int) <= usize::MAX,
        decreases k - q,
    {
        proof {
            lemma_byte_offset_mono(s@, q + 1, k as int);
        }
        bq = bq + char_len(s[q]);
        q = q + 1;
    }
    bq
}

/// The value of the digits `s[i..k]`, or `None` when it does not fit in `i64`.
fn int_value(s: &Vec<char>, i: usize, k: usize) -> (r: Option<i64>)
    requires
        i <= k <= s@.len(),
        forall|q: int| i <= q < k ==> is_digit(#[trigger] s@[q]) || s@[q] == '_',
    ensures
        r is None <==> digits_value(s@.subrange(i as int, k as int)) > i64::MAX,
        r matches Some(v) ==> v == digits_value(s@.subrange(i as int, k as int)),
{
    let mut v: i64 = 0;
    let mut q = i;
    while q < k
        invariant
            i <= q <= k <= s@.len(),
            forall|q: int| i <= q < k ==> is_digit(#[trigger] s@[q]) || s@[q] == '_',
            v == digits_value(s@.subrange(i as int, q as int)),
            v >= 0,
        decreases k - q,
    {
        let d = s[q];
        assert(s@.subrange(i as int, q + 1).drop_last() =~= s@.subrange(i as int, q as int));
        if d != '_' {
            let dv = (d as u32 - '0' as u32) as i64;
            assert(dv == digit_value(d));
            if v > (i64::MAX - dv) / 10 {
                assert(v * 10 + dv > i64::MAX) by (nonlinear_arith)
                    requires
                        v > (i64::MAX - dv) / 10,
                        0 <= dv <= 9,
                ;
                proof {
                    let whole = s@.subrange(i as int, k as int);
                    lemma_digits_value_prefix(whole, q + 1 - i);
                    assert(whole.take(q + 1 - i) =~= s@.subrange(i as int, q + 1));
                }
                return None;
            }
            assert(v * 10 + dv <= i64::MAX) by (nonlinear_arith)
                requires
                    v <= (i64::MAX - dv) / 10,
                    0 <= dv <= 9,
            ;
            v = v * 10 + dv;
        }
        q = q + 1;
    }
    Some(v)
}

/// A number literal without a decimal point is made of digits and `_` only.
pub proof fn lemma_number_end_int(s: Seq<char>, k: nat)
    requires
        !number_end(s, k, false).1,
    ensures
        forall|q: int| k <= q < number_end(s, k, false).0 ==> is_digit(#[trigger] s[q]) || s[q] == '_',
    decreases s.len() - k,
{
    if k < s.len() {
        if is_digit(s[k as int]) || s[k as int] == '_' {
            lemma_number_end_int(s, k + 1);
        } else if s[k as int] == '.' {
            lemma_number_end_float(s, k + 1);
        }
    }
}

/// A number literal with a decimal point holds a `.`.
pub proof fn lemma_number_end_point(s: Seq<char>, k: nat)
    requires
        number_end(s, k, false).1,
    ensures
        exists|q: int| k <= q < number_end(s, k, false).0 && s[q] == '.',
    decreases s.len() - k,
{
    if k < s.len() {
        if is_digit(s[k as int]) || s[k as int] == '_' {
            lemma_number_end_point(s, k + 1);
        } else if s[k as int] == '.' {
            lemma_number_end(s, k + 1, true);
            assert(k <= k < number_end(s, k, false).0 && s[k as int] == '.');
        }
    }
}

/// Once a number literal has its decimal point, it keeps it.
pub proof fn lemma_number_end_float(s: Seq<char>, k: nat)
    ensures
        number_end(s, k, true).1,
    decreases s.len() - k,
{
    if k < s.len() && (is_digit(s[k as int]) || s[k as int] == '_') {
        lemma_number_end_float(s, k + 1);
    }
}

/// Whether the interner turned down a new identifier.
pub open spec fn refused(res: Option<Result<Vec<Token>, LexError>>) -> bool {
    res matches Some(Err(LexError::InternerRefused { .. }))
}

/// Whether a run with `names` held, after starting from `names0`, still
/// follows the reading with interner limit `cap`: the limit was not passed
/// yet, or no identifier was added.
spec fn cap_in_reach(cap: nat, names: Seq<Seq<char>>, names0: Seq<Seq<char>>) -> bool {
    cap >= names.len() || names.len() == names0.len()
}

/// Reads the tokens of `source`; `None` where reading stops without a result.
fn lex_core(source_id: usize, source: &str, rodeo: &mut lasso::Rodeo) -> (res: Option<
    Result<Vec<Token>, LexError>,
>)
    requires
        interned(*old(rodeo)).len() <= usize::MAX,
    ensures
        !refused(res) ==> lex_agrees(lex(source@, source_id, interned(*old(rodeo))), res, interned(*final(rodeo))),
        refused(res) ==> exists|cap: nat|
            cap <= usize::MAX && lex_agrees(
                #[trigger] lex_capped(source@, source_id, interned(*old(rodeo)), cap),
                res,
                interned(*final(rodeo)),
            ),
{
    let s = chars_of(source);
    let n = s.len();
    let total = source.as_bytes().len();
    proof {
        lemma_byte_len(source);
    }
    let ghost names0 = interned(*rodeo);
    let mut toks: Vec<Token> = Vec::new();
    let mut i: usize = 0;
    let mut b: usize = 0;
    while i < n
        invariant
            n == s@.len(),
            s@ == source@,
            total == byte_offset(s@, n as int),
            names0 == interned(*old(rodeo)),
            i <= n,
            b == byte_offset(s@, i as int),
            names0.len() <= interned(*rodeo).len(),
            names0.len() <= usize::MAX,
            interned(*rodeo).len() <= u32::MAX || interned(*rodeo).len() == names0.len(),
            forall|cap: nat|
                cap_in_reach(cap, interned(*rodeo), names0) ==> #[trigger] lex_from(
                    s@,
                    source_id,
                    i as nat,
                    toks@,
                    interned(*rodeo),
                    cap,
                ) == lex_capped(s@, source_id, names0, cap),
        decreases n - i,
    {
        let ghost names = interned(*rodeo);
        let ghost i0 = i as nat;
        let ghost toks0 = toks@;
        proof {
            assert(cap_in_reach(u32::MAX as nat, names, names0));
            assert(lex_from(s@, source_id, i0, toks0, names, u32::MAX as nat) == lex(s@, source_id, names0));
        }
        let c = s[i];
        let w = char_len(c);
        proof {
            lemma_byte_offset_mono(s@, i + 1, n as int);
        }
        let one = Span { start: b, end: b + 1, source_id };
        if c == ' ' || c == '\t' || c == '\n' || c == '\r' {
            i = i + 1;
            b = b + w;
        } else if c == ';' {
            if i + 1 < n && s[i + 1] == ';' {
                let k = skip_comment(&s, i + 2);
                proof {
                    lemma_comment_end(s@, (i + 2) as nat);
                    lemma_byte_offset_mono(s@, k as int, n as int);
                }
                b = advance_bytes(&s, i, k, b);
                i = k;
            } else {
                toks.push(Token { kind: TokenKind::Semicolon, span: one });
                i = i + 1;
                b = b + w;
            }
        } else if c == '+' || c == '-' || c == '*' || c == '/' || c == '%' || c == '(' || c == ')'
            || c == '{' || c == '}' || c == ',' || c == '=' {
            let kind = if c == '+' {
                TokenKind::Operator(Operator::Plus)
            } else if c == '-' {
                TokenKind::Operator(Operator::Minus)
            } else if c == '*' {
                TokenKind::Operator(Operator::Star)
            } else if c == '/' {
                TokenKind::Operator(Operator::Slash)
            } else if c == '%' {
                TokenKind::Operator(Operator::Modulo)
            } else if c == '(' {
                TokenKind::LParen
            } else if c == ')' {
                TokenKind::RParen
            } else if c == '{' {
                TokenKind::LCurly
            } else if c == '}' {
                TokenKind::RCurly
            } else if c == ',' {
                TokenKind::Comma
            } else {
                TokenKind::Assign
            };
            assert(single_char_kind(c) == Some(kind));
            toks.push(Token { kind, span: one });
            i = i + 1;
            b = b + w;
        } else if c == ':' {
            if i + 1 < n && (s[i + 1] == ':' || s[i + 1] == '=') {
                proof {
                    lemma_byte_offset_mono(s@, i + 2, n as int);
                }
                let kind = if s[i + 1] == ':' {
                    TokenKind::CColon
                } else {
                    TokenKind::Walrus
                };
                toks.push(Token { kind, span: Span { start: b, end: b + 2, source_id } });
                i = i + 2;
                b = b + 2;
            } else {
                toks.push(Token { kind: TokenKind::Colon, span: one });
                i = i + 1;
                b = b + w;
            }
        } else if '0' <= c && c <= '9' {
            let (k, is_float) = scan_number(&s, i + 1);
            proof {
                lemma_number_end(s@, (i + 1) as nat, false);
                lemma_byte_offset_mono(s@, k as int, n as int);
            }
            let end = advance_bytes(&s, i, k, b);
            let span = Span { start: b, end, source_id };
            if is_float {
                toks.push(Token { kind: TokenKind::FloatLit, span });
            } else {
                proof {
                    lemma_number_end_int(s@, (i + 1) as nat);
                }
                match int_value(&s, i, k) {
                    Some(v) => {
                        toks.push(Token { kind: TokenKind::IntLit(v), span });
                    },
                    None => {
                        return None;
                    },
                }
            }
            i = k;
            b = end;
        } else if char_is_alphabetic(c) || c == '_' {
            let k = scan_word(&s, i + 1);
            proof {
                lemma_ident_end(s@, (i + 1) as nat);
                lemma_byte_offset_mono(s@, k as int, n as int);
            }
            if k == i + 1 && k == n && w > 1 {
                return None;
            }
            let end = advance_bytes(&s, i, k, b);
            let span = Span { start: b, end, source_id };
            let ghost text = s@.subrange(i as int, k as int);
            let kind = match keyword_kind(&s, i, k) {
                Some(kw) => kw,
                None => {
                    let word = collect_text(&s, i, k);
                    match intern(rodeo, word.as_str()) {
                        Some(key) => {
                            proof {
                                if names.contains(text) {
                                    lemma_index_of_unique(names, key as int, text);
                                }
                            }
                            assert(intern_result(names, text) == (key, interned(*rodeo)));
                            TokenKind::Identifier(key)
                        },
                        None => {
                            let res = Some(Err(LexError::InternerRefused { span }));
                            proof {
                                let cap = names.len() as nat;
                                assert(cap_in_reach(cap, names, names0));
                                assert(lex_from(s@, source_id, i0, toks0, names, cap) == lex_capped(
                                    s@,
                                    source_id,
                                    names0,
                                    cap,
                                ));
                                assert(lex_agrees(lex_capped(s@, source_id, names0, cap), res, interned(*rodeo)));
                            }
                            return res;
                        },
                    }
                },
            };
            toks.push(Token { kind, span });
            i = k;
            b = end;
        } else if c == '"' {
            return Some(Err(LexError::UnterminatedString { span: Span { start: b, end: total, source_id } }));
        } else {
            return Some(Err(LexError::UnrecognizedCharacter { ch: c, span: one }));
        }
        proof {
            assert forall|cap: nat| cap_in_reach(cap, interned(*rodeo), names0) implies #[trigger] lex_from(
                s@,
                source_id,
                i as nat,
                toks@,
                interned(*rodeo),
                cap,
            ) == lex_capped(s@, source_id, names0, cap) by {
                assert(cap_in_reach(cap, names, names0));
                assert(lex_from(s@, source_id, i0, toks0, names, cap) == lex_capped(s@, source_id, names0, cap));
            }
        }
    }
    proof {
        assert(cap_in_reach(u32::MAX as nat, interned(*rodeo), names0));
        assert(lex_from(s@, source_id, i as nat, toks@, interned(*rodeo), u32::MAX as nat) == lex(
            s@,
            source_id,
            names0,
        ));
    }
    Some(Ok(toks))
}

/// Reads the tokens of `source`, interning identifiers into `rodeo`.
///
/// Spaces, tabs and line breaks separate tokens; `;;` starts a comment that
/// runs to the end of the line. On success the result holds the tokens in
/// the order of the source, each covering whole characters and spelling
/// them (an identifier's key names its text, an integer literal's value is
/// that of its digits); a `"` or a character that starts no token ends
/// reading with an error. Either way `rodeo` holds afterwards what `lex`
/// says: the names it held, then the identifiers read until then in order
/// of first appearance. Where the interner turns down a new identifier
/// (no key left, or its memory limit reached), reading ends there with
/// `InternerRefused`: the result is then what `lex` gives with the
/// interner's limit at the number of strings it held at that point.
pub fn tokenize(source_id: usize, source: &str, rodeo: &mut lasso::Rodeo) -> (res: Result<
    Vec<Token>,
    LexError,
>)
    requires
        !(lex(source@, source_id, interned(*old(rodeo))) is Aborted),
    ensures
        !refused(Some(res)) ==> lex_agrees(
            lex(source@, source_id, interned(*old(rodeo))),
            Some(res),
            interned(*final(rodeo)),
        ),
        refused(Some(res)) ==> exists|cap: nat|
            cap <= usize::MAX && lex_agrees(
                #[trigger] lex_capped(source@, source_id, interned(*old(rodeo)), cap),
                Some(res),
                interned(*final(rodeo)),
            ),
        res matches Ok(v) ==> tokens_in_order(v@, source_id, encode_utf8(source@).len()),
        res matches Ok(v) ==> keys_held(v@, interned(*final(rodeo))),
        res matches Ok(v) ==> all_read_back(v@, source@, interned(*final(rodeo))),
        interned(*old(rodeo)).is_prefix_of(interned(*final(rodeo))),
{
    let r = try_tokenize(source_id, source, rodeo);
    match r {
        Some(res) => res,
        None => unreached(),
    }
}

/// `tokenize`, for every source: `None` exactly where `tokenize` has no
/// result (`lex` gives `Aborted`).
pub fn try_tokenize(source_id: usize, source: &str, rodeo: &mut lasso::Rodeo) -> (res: Option<
    Result<Vec<Token>, LexError>,
>)
    ensures
        !refused(res) ==> lex_agrees(lex(source@, source_id, interned(*old(rodeo))), res, interned(*final(rodeo))),
        refused(res) ==> exists|cap: nat|
            cap <= usize::MAX && lex_agrees(
                #[trigger] lex_capped(source@, source_id, interned(*old(rodeo)), cap),
                res,
                interned(*final(rodeo)),
            ),
        res matches Some(Ok(v)) ==> tokens_in_order(v@, source_id, encode_utf8(source@).len()),
        res matches Some(Ok(v)) ==> keys_held(v@, interned(*final(rodeo))),
        res matches Some(Ok(v)) ==> all_read_back(v@, source@, interned(*final(rodeo))),
        interned(*old(rodeo)).is_prefix_of(interned(*final(rodeo))),
{
    let bytes = source.as_bytes();
    let total = bytes.len();
    let held = interned_len(rodeo);
    let ghost names0 = interned(*rodeo);
    proof {
        assert(total == encode_utf8(source@).len() && held == interned(*rodeo).len());
        lemma_byte_len(source);
        lemma_lex_places_tokens(source@, source_id, names0, u32::MAX as nat);
    }
    let res = lex_core(source_id, source, rodeo);
    proof {
        if refused(res) {
            let cap = choose|cap: nat|
                cap <= usize::MAX && lex_agrees(
                    #[trigger] lex_capped(source@, source_id, names0, cap),
                    res,
                    interned(*rodeo),
                );
            lemma_lex_places_tokens(source@, source_id, names0, cap);
        }
    }
    res
}

/// The tokens lie in the source, one after the other: each covers at least
/// one byte, ends by `limit`, and belongs to source `sid`.
pub open spec fn tokens_in_order(toks: Seq<Token>, sid: usize, limit: nat) -> bool {
    &&& forall|k: int|
        0 <= k < toks.len() ==> {
            &&& (#[trigger] toks[k]).span.source_id == sid
            &&& toks[k].span.start < toks[k].span.end
            &&& toks[k].span.end <= limit
        }
    &&& forall|k: int, m: int| 0 <= k < m < toks.len() ==> #[trigger] toks[k].span.end <= #[trigger] toks[m].span.start
}

/// Every identifier token has a key that the interner holds.
pub open spec fn keys_held(toks: Seq<Token>, names: Seq<Seq<char>>) -> bool {
    forall|k: int|
        0 <= k < toks.len() ==> ((#[trigger] toks[k]).kind matches TokenKind::Identifier(key) ==> key < names.len())
}

pub open spec fn outcome_names(o: LexOutcome) -> Seq<Seq<char>> {
    match o {
        LexOutcome::Tokens(_, n) => n,
        LexOutcome::Failed(_, n) => n,
        LexOutcome::Aborted(n) => n,
    }
}

proof fn lemma_push_in_order(toks: Seq<Token>, t: Token, sid: usize, lo: nat, hi: nat)
    requires
        tokens_in_order(toks, sid, lo),
        lo <= t.span.start < t.span.end <= hi,
        t.span.source_id == sid,
    ensures
        tokens_in_order(toks.push(t), sid, hi),
{
    let r = toks.push(t);
    assert forall|k: int, m: int| 0 <= k < m < r.len() implies #[trigger] r[k].span.end <= #[trigger] r[m].span.start by {
        if m == r.len() - 1 {
            assert(r[k] == toks[k]);
        }
    }
}

proof fn lemma_push_keys(toks: Seq<Token>, t: Token, names: Seq<Seq<char>>, names2: Seq<Seq<char>>)
    requires
        keys_held(toks, names),
        names.is_prefix_of(names2),
        t.kind matches TokenKind::Identifier(key) ==> key < names2.len(),
    ensures
        keys_held(toks.push(t), names2),
{
    let r = toks.push(t);
    assert forall|k: int| 0 <= k < r.len() implies ((#[trigger] r[k]).kind matches TokenKind::Identifier(key) ==> key < names2.len()) by {
        if k < toks.len() {
            assert(r[k] == toks[k]);
        }
    }
}

/// Token `tok` covers the characters `s[i..j]`: its span runs from the byte
/// offset of `i` to that of `j`.
pub open spec fn covers(s: Seq<char>, tok: Token, i: int, j: int) -> bool {
    &&& 0 <= i < j <= s.len()
    &&& tok.span.start == byte_offset(s, i)
    &&& tok.span.end == byte_offset(s, j)
}

/// Token `tok` covers whole characters of `s`, and what it carries is read
/// from them: an identifier's key names the covered text, an integer
/// literal's value is that of the covered digits.
pub open spec fn reads_back(s: Seq<char>, names: Seq<Seq<char>>, tok: Token) -> bool {
    exists|i: int, j: int| #[trigger] covers(s, tok, i, j) && spells(tok.kind, s.subrange(i, j), names)
}

/// The text `text` spells a token of kind `k`: punctuation and keywords are
/// their own text, an identifier's key names its text, an integer literal's
/// value is that of its digits, a float literal is digits with a decimal
/// point. No text spells a string literal: reading one always fails.
pub open spec fn spells(k: TokenKind, text: Seq<char>, names: Seq<Seq<char>>) -> bool {
    match k {
        TokenKind::Identifier(key) => names[key as int] == text,
        TokenKind::IntLit(v) => v as int == digits_value(text),
        TokenKind::FloatLit => text.len() > 0 && is_digit(text[0]) && text.contains('.'),
        TokenKind::StringLit(_) => false,
        TokenKind::KwProc | TokenKind::KwFunc | TokenKind::KwCallable | TokenKind::KwNil => word_kind(text, 0) == k,
        TokenKind::Semicolon => text == seq![';'],
        TokenKind::Colon => text == seq![':'],
        TokenKind::CColon => text == seq![':', ':'],
        TokenKind::Walrus => text == seq![':', '='],
        _ => text.len() == 1 && single_char_kind(text[0]) == Some(k),
    }
}

pub open spec fn all_read_back(toks: Seq<Token>, s: Seq<char>, names: Seq<Seq<char>>) -> bool {
    forall|k: int| 0 <= k < toks.len() ==> reads_back(s, names, #[trigger] toks[k])
}

proof fn lemma_reads_back_grow(s: Seq<char>, names: Seq<Seq<char>>, names2: Seq<Seq<char>>, tok: Token)
    requires
        reads_back(s, names, tok),
        names.is_prefix_of(names2),
        tok.kind matches TokenKind::Identifier(key) ==> key < names.len(),
    ensures
        reads_back(s, names2, tok),
{
    let (i, j) = choose|i: int, j: int| #[trigger] covers(s, tok, i, j) && spells(tok.kind, s.subrange(i, j), names);
    assert(covers(s, tok, i, j));
}

proof fn lemma_push_read_back(
    toks: Seq<Token>,
    t: Token,
    s: Seq<char>,
    names: Seq<Seq<char>>,
    names2: Seq<Seq<char>>,
    i: int,
    j: int,
)
    requires
        all_read_back(toks, s, names),
        keys_held(toks, names),
        names.is_prefix_of(names2),
        covers(s, t, i, j),
        spells(t.kind, s.subrange(i, j), names2),
    ensures
        all_read_back(toks.push(t), s, names2),
{
    let r = toks.push(t);
    assert forall|k: int| 0 <= k < r.len() implies reads_back(s, names2, #[trigger] r[k]) by {
        if k < toks.len() {
            assert(r[k] == toks[k]);
            assert(reads_back(s, names, toks[k]));
            lemma_reads_back_grow(s, names, names2, toks[k]);
        } else {
            assert(r[k] == t);
            assert(covers(s, t, i, j));
        }
    }
}

/// What reading from index `i` keeps: tokens stay in order within the
/// source, each covers whole characters and carries what they spell,
/// identifier keys stay held, and the interner only grows.
proof fn lemma_lex_from_keeps(
    s: Seq<char>,
    sid: usize,
    i: nat,
    toks: Seq<Token>,
    names: Seq<Seq<char>>,
    cap: nat,
)
    requires
        i <= s.len(),
        byte_offset(s, s.len() as int) <= usize::MAX,
        names.len() <= usize::MAX,
        cap <= usize::MAX,
        tokens_in_order(toks, sid, byte_offset(s, i as int)),
        keys_held(toks, names),
        all_read_back(toks, s, names),
    ensures
        names.is_prefix_of(outcome_names(lex_from(s, sid, i, toks, names, cap))),
        lex_from(s, sid, i, toks, names, cap) matches LexOutcome::Tokens(t, n) ==> {
            &&& tokens_in_order(t, sid, byte_offset(s, s.len() as int))
            &&& keys_held(t, n)
            &&& all_read_back(t, s, n)
        },
    decreases s.len() - i,
{
    assert(names.is_prefix_of(names));
    if i < s.len() {
        let c = s[i as int];
        let ii = i as int;
        let start = byte_offset(s, ii);
        let one = Span { start: start as usize, end: (start + 1) as usize, source_id: sid };
        lemma_byte_offset_mono(s, ii + 1, s.len() as int);
        if is_space(c) {
            lemma_byte_offset_mono(s, ii, ii + 1);
            assert(tokens_in_order(toks, sid, byte_offset(s, ii + 1)));
            lemma_lex_from_keeps(s, sid, i + 1, toks, names, cap);
        } else if c == ';' {
            if i + 1 < s.len() && s[ii + 1] == ';' {
                lemma_comment_end(s, i + 2);
                let k = comment_end(s, i + 2);
                lemma_byte_offset_mono(s, ii, k as int);
                assert(tokens_in_order(toks, sid, byte_offset(s, k as int)));
                lemma_lex_from_keeps(s, sid, k, toks, names, cap);
            } else {
                let t = Token { kind: TokenKind::Semicolon, span: one };
                assert(s.subrange(ii, ii + 1) =~= seq![';']);
                lemma_push_in_order(toks, t, sid, start, byte_offset(s, ii + 1));
                lemma_push_read_back(toks, t, s, names, names, ii, ii + 1);
                lemma_push_keys(toks, t, names, names);
                lemma_lex_from_keeps(s, sid, i + 1, toks.push(t), names, cap);
            }
        } else if single_char_kind(c) is Some {
            let t = Token { kind: single_char_kind(c)->0, span: one };
            assert(s.subrange(ii, ii + 1)[0] == c);
            lemma_push_in_order(toks, t, sid, start, byte_offset(s, ii + 1));
            lemma_push_read_back(toks, t, s, names, names, ii, ii + 1);
            lemma_push_keys(toks, t, names, names);
            lemma_lex_from_keeps(s, sid, i + 1, toks.push(t), names, cap);
        } else if c == ':' {
            let two = Span { start: start as usize, end: (start + 2) as usize, source_id: sid };
            if i + 1 < s.len() && (s[ii + 1] == ':' || s[ii + 1] == '=') {
                lemma_byte_offset_mono(s, ii + 2, s.len() as int);
                let kind = if s[ii + 1] == ':' { TokenKind::CColon } else { TokenKind::Walrus };
                let t = Token { kind, span: two };
                assert(s.subrange(ii, ii + 2) =~= seq![':', s[ii + 1]]);
                lemma_push_in_order(toks, t, sid, start, byte_offset(s, ii + 2));
                lemma_push_read_back(toks, t, s, names, names, ii, ii + 2);
                lemma_push_keys(toks, t, names, names);
                lemma_lex_from_keeps(s, sid, i + 2, toks.push(t), names, cap);
            } else {
                let t = Token { kind: TokenKind::Colon, span: one };
                assert(s.subrange(ii, ii + 1) =~= seq![':']);
                lemma_push_in_order(toks, t, sid, start, byte_offset(s, ii + 1));
                lemma_push_read_back(toks, t, s, names, names, ii, ii + 1);
                lemma_push_keys(toks, t, names, names);
                lemma_lex_from_keeps(s, sid, i + 1, toks.push(t), names, cap);
            }
        } else if is_digit(c) {
            lemma_number_end(s, i + 1, false);
            let (j, is_float) = number_end(s, i + 1, false);
            lemma_byte_offset_mono(s, ii + 1, j as int);
            lemma_byte_offset_mono(s, j as int, s.len() as int);
            let span = Span { start: start as usize, end: byte_offset(s, j as int) as usize, source_id: sid };
            let v = digits_value(s.subrange(ii, j as int));
            if is_float || v <= i64::MAX {
                lemma_digits_value_nonneg(s.subrange(ii, j as int));
                if is_float {
                    lemma_number_end_point(s, i + 1);
                    let q = choose|q: int| i + 1 <= q < j && s[q] == '.';
                    assert(s.subrange(ii, j as int)[q - ii] == '.');
                }
                assert(s.subrange(ii, j as int)[0] == c);
                let kind = if is_float { TokenKind::FloatLit } else { TokenKind::IntLit(v as i64) };
                let t = Token { kind, span };
                lemma_push_in_order(toks, t, sid, start, byte_offset(s, j as int));
                lemma_push_read_back(toks, t, s, names, names, ii, j as int);
                lemma_push_keys(toks, t, names, names);
                lemma_lex_from_keeps(s, sid, j, toks.push(t), names, cap);
            }
        } else if is_alphabetic_char(c) || c == '_' {
            lemma_ident_end(s, i + 1);
            let j = ident_end(s, i + 1);
            lemma_byte_offset_mono(s, ii + 1, j as int);
            lemma_byte_offset_mono(s, j as int, s.len() as int);
            let text = s.subrange(ii, j as int);
            let span = Span { start: start as usize, end: byte_offset(s, j as int) as usize, source_id: sid };
            if j == i + 1 && j == s.len() && char_bytes(c) > 1 {
            } else if is_keyword(text) {
                let t = Token { kind: word_kind(text, 0), span };
                lemma_push_in_order(toks, t, sid, start, byte_offset(s, j as int));
                lemma_push_read_back(toks, t, s, names, names, ii, j as int);
                lemma_push_keys(toks, t, names, names);
                lemma_lex_from_keeps(s, sid, j, toks.push(t), names, cap);
            } else if !names.contains(text) && names.len() >= cap {
            } else {
                let (key, names2) = intern_result(names, text);
                if names.contains(text) {
                    assert(0 <= names.index_of(text) < names.len() && names[names.index_of(text)] == text);
                    assert(names.is_prefix_of(names2));
                } else {
                    assert(names2.take(names.len() as int) =~= names);
                    assert(names2[key as int] == text);
                }
                let t = Token { kind: TokenKind::Identifier(key), span };
                lemma_push_in_order(toks, t, sid, start, byte_offset(s, j as int));
                lemma_push_read_back(toks, t, s, names, names2, ii, j as int);
                lemma_push_keys(toks, t, names, names2);
                lemma_lex_from_keeps(s, sid, j, toks.push(t), names2, cap);
                let n2 = outcome_names(lex_from(s, sid, j, toks.push(t), names2, cap));
                assert(names2.is_prefix_of(n2));
                assert(n2.take(names.len() as int) =~= names2.take(names.len() as int));
            }
        }
    }
}

/// Reading a whole source (whose UTF-8 encoding fits in memory) places its
/// tokens in order within the source, all with the given source id; every
/// identifier key it hands out is held by the interner afterwards; and the
/// interner only grows: strings held before keep their keys. Every token
/// covers whole characters; an identifier's key names the text it covers,
/// and an integer literal's value is that of its digits. This holds whatever
/// limit the interner puts on new identifiers.
pub proof fn lemma_lex_places_tokens(s: Seq<char>, sid: usize, names: Seq<Seq<char>>, cap: nat)
    requires
        encode_utf8(s).len() <= usize::MAX,
        names.len() <= usize::MAX,
        cap <= usize::MAX,
    ensures
        names.is_prefix_of(outcome_names(lex_capped(s, sid, names, cap))),
        lex_capped(s, sid, names, cap) matches LexOutcome::Tokens(t, n) ==> {
            &&& tokens_in_order(t, sid, encode_utf8(s).len())
            &&& keys_held(t, n)
            &&& all_read_back(t, s, n)
        },
{
    lemma_byte_offset_encode(s, s.len() as int);
    assert(s.take(s.len() as int) =~= s);
    lemma_lex_from_keeps(s, sid, 0, seq![], names, cap);
}

} // verus!
