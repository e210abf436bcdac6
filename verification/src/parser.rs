use vstd::prelude::*;
use crate::ast::{
    ConstKind, Node, NodeId, NodeKind, NodeKindModel, NodeModel, Param, ParamModel, ParsedType,
    ParsedTypeKind, TypeKindModel, TypeModel, node_model, nodes_model, param_model, params_model,
    post_ids, post_ids_seq, rising_within, type_model, types_model, opt_type_model, Ast,
    lemma_rising_concat, lemma_rising_push, lemma_types_model_push, lemma_params_model_push,
    lemma_nodes_model_push, lemma_post_ids_seq_push,
};
use crate::operator::{spec_binding_power, spec_can_prefix};
use crate::span::Span;
use crate::token::{Token, TokenKind};

verus! {

/// What the parser was looking for when it met something else.
#[derive(Clone, Copy, Debug, PartialEq, Eq)]
pub enum Expected {
    Token(TokenKind),
    Identifier,
    Expression,
    Type,
}

/// An error found while parsing.
#[derive(Clone, Copy, Debug, PartialEq, Eq)]
pub enum ParseError {
    /// The token `found` stands where something else was expected.
    Unexpected { found: Token, expected: Expected },
    /// The tokens ended where something was expected; `span` is the byte just
    /// after the last token (or the first byte, when there are no tokens).
    EndOfInput { span: Span, expected: Expected },
}

/// What was expected names no identifier: identifiers are asked for as
/// `Expected::Identifier`, never as a particular one.
pub open spec fn expected_plain(e: Expected) -> bool {
    !(e matches Expected::Token(TokenKind::Identifier(_)))
}

/// The error `e` comes from reading the tokens `t`: a token it shows as
/// found is one of them, and what it expected names no identifier.
pub open spec fn error_from(e: ParseError, t: Seq<Token>) -> bool {
    match e {
        ParseError::Unexpected { found, expected } => t.contains(found) && expected_plain(expected),
        ParseError::EndOfInput { expected, .. } => expected_plain(expected),
    }
}

/// The outcome of a parsing step: the result, and the position and the next
/// node id that the parser has afterwards.
pub struct Parsed<T> {
    pub res: Result<T, ParseError>,
    pub pos: nat,
    pub nid: nat,
}

pub open spec fn parsed<T>(res: Result<T, ParseError>, pos: nat, nid: nat) -> Parsed<T> {
    Parsed { res, pos, nid }
}

pub open spec fn fail<T>(e: ParseError, pos: nat, nid: nat) -> Parsed<T> {
    Parsed { res: Err(e), pos, nid }
}

/// Whether a step that started at `pos` failed to move forward within the
/// tokens. Parsing steps that succeed always move forward, so the branches
/// guarded by this never apply; they keep the definitions well founded.
pub open spec fn stuck(pos: nat, new_pos: nat, len: nat) -> bool {
    new_pos <= pos || new_pos > len
}

pub open spec fn mk_node(id: nat, kind: NodeKindModel, span: Span) -> NodeModel {
    NodeModel { id, kind, span }
}

/// Where the tokens end: the byte after the last token, or the first byte of
/// the source when there are no tokens.
pub open spec fn end_span(t: Seq<Token>, sid: usize) -> Span {
    if t.len() > 0 {
        t.last().span.spec_splat_to_end()
    } else {
        Span { start: 0, end: 1, source_id: sid }
    }
}

/// Looking for the token `expected` at `pos`: its span, or the error.
pub open spec fn sp_expect(t: Seq<Token>, sid: usize, pos: nat, expected: TokenKind) -> Result<Span, ParseError> {
    if pos < t.len() {
        if t[pos as int].kind == expected {
            Ok(t[pos as int].span)
        } else {
            Err(ParseError::Unexpected { found: t[pos as int], expected: Expected::Token(expected) })
        }
    } else {
        Err(ParseError::EndOfInput { span: end_span(t, sid), expected: Expected::Token(expected) })
    }
}

/// Looking for an identifier at `pos`: its key and span, or the error.
pub open spec fn sp_expect_ident(t: Seq<Token>, sid: usize, pos: nat) -> Result<(usize, Span), ParseError> {
    if pos < t.len() {
        match t[pos as int].kind {
            TokenKind::Identifier(name) => Ok((name, t[pos as int].span)),
            _ => Err(ParseError::Unexpected { found: t[pos as int], expected: Expected::Identifier }),
        }
    } else {
        Err(ParseError::EndOfInput { span: end_span(t, sid), expected: Expected::Identifier })
    }
}

/// Whether the token at `pos` exists and is of kind `k`.
pub open spec fn at_kind(t: Seq<Token>, pos: nat, k: TokenKind) -> bool {
    pos < t.len() && t[pos as int].kind == k
}

/// A type at `pos`: a name, `nil`, or a parenthesized list of types.
pub open spec fn sp_type(t: Seq<Token>, sid: usize, pos: nat) -> Parsed<TypeModel>
    decreases t.len() - pos, 1nat,
{
    if pos >= t.len() {
        fail(ParseError::EndOfInput { span: end_span(t, sid), expected: Expected::Type }, pos, 0)
    } else {
        let tok = t[pos as int];
        match tok.kind {
            TokenKind::Identifier(i) => parsed(
                Ok(TypeModel { kind: TypeKindModel::Identifier(i), span: tok.span }),
                pos + 1,
                0,
            ),
            TokenKind::LParen => sp_type_paren(t, sid, pos),
            TokenKind::KwNil => parsed(Ok(TypeModel { kind: TypeKindModel::Nil, span: tok.span }), pos + 1, 0),
            _ => fail(ParseError::Unexpected { found: tok, expected: Expected::Type }, pos, 0),
        }
    }
}

/// `( type, ... )`: one type without a trailing comma stands for itself.
pub open spec fn sp_type_paren(t: Seq<Token>, sid: usize, pos: nat) -> Parsed<TypeModel>
    decreases t.len() - pos, 0nat,
{
    match sp_expect(t, sid, pos, TokenKind::LParen) {
        Err(e) => fail(e, pos, 0),
        Ok(open) => sp_type_items(t, sid, seq![], open, pos + 1),
    }
}

pub open spec fn sp_type_items(t: Seq<Token>, sid: usize, items: Seq<TypeModel>, open: Span, pos: nat) -> Parsed<TypeModel>
    decreases t.len() - pos, 2nat,
{
    if pos < t.len() {
        let r = sp_type(t, sid, pos);
        match r.res {
            Err(e) => fail(e, r.pos, 0),
            Ok(ty) => match sp_expect(t, sid, r.pos, TokenKind::Comma) {
                Err(_) => match sp_expect(t, sid, r.pos, TokenKind::RParen) {
                    Err(e) => fail(e, r.pos, 0),
                    Ok(_) => parsed(Ok(ty), r.pos + 1, 0),
                },
                Ok(_) => {
                    let items2 = items.push(ty);
                    if at_kind(t, r.pos + 1, TokenKind::RParen) || r.pos + 1 <= pos {
                        sp_type_close(t, sid, items2, open, r.pos + 1)
                    } else {
                        sp_type_items(t, sid, items2, open, r.pos + 1)
                    }
                },
            },
        }
    } else {
        sp_type_close(t, sid, items, open, pos)
    }
}

pub open spec fn sp_type_close(t: Seq<Token>, sid: usize, items: Seq<TypeModel>, open: Span, pos: nat) -> Parsed<TypeModel> {
    match sp_expect(t, sid, pos, TokenKind::RParen) {
        Err(e) => fail(e, pos, 0),
        Ok(close) => parsed(
            Ok(TypeModel { kind: TypeKindModel::Tuple(items), span: open.spec_concat(close) }),
            pos + 1,
            0,
        ),
    }
}

/// `name: type`.
pub open spec fn sp_param(t: Seq<Token>, sid: usize, pos: nat) -> Parsed<ParamModel>
    decreases t.len() - pos, 3nat,
{
    match sp_expect_ident(t, sid, pos) {
        Err(e) => fail(e, pos, 0),
        Ok((name, span)) => match sp_expect(t, sid, pos + 1, TokenKind::Colon) {
            Err(e) => fail(e, pos + 1, 0),
            Ok(_) => {
                let r = sp_type(t, sid, pos + 2);
                match r.res {
                    Err(e) => fail(e, r.pos, 0),
                    Ok(ty) => parsed(Ok(ParamModel { name, ty, span: span.spec_concat(ty.span) }), r.pos, 0),
                }
            },
        },
    }
}

/// The parameters of a callable, up to the closing `)` (not consumed).
pub open spec fn sp_params(t: Seq<Token>, sid: usize, params: Seq<ParamModel>, pos: nat) -> Parsed<Seq<ParamModel>>
    decreases t.len() - pos, 4nat,
{
    if pos < t.len() && t[pos as int].kind != TokenKind::RParen {
        let r = sp_param(t, sid, pos);
        match r.res {
            Err(e) => fail(e, r.pos, 0),
            Ok(p) => {
                let ps = params.push(p);
                match sp_expect(t, sid, r.pos, TokenKind::Comma) {
                    Err(_) => parsed(Ok(ps), r.pos, 0),
                    Ok(_) => if r.pos + 1 <= pos {
                        parsed(Ok(ps), r.pos + 1, 0)
                    } else {
                        sp_params(t, sid, ps, r.pos + 1)
                    },
                }
            },
        }
    } else {
        parsed(Ok(params), pos, 0)
    }
}

/// Reading a type never moves back, stays within the tokens, and moves
/// forward when it succeeds.
pub proof fn lemma_type_pos(t: Seq<Token>, sid: usize, pos: nat)
    ensures
        pos <= sp_type(t, sid, pos).pos,
        pos <= t.len() ==> sp_type(t, sid, pos).pos <= t.len(),
        sp_type(t, sid, pos).res is Ok ==> pos < sp_type(t, sid, pos).pos,
    decreases t.len() - pos, 1nat,
{
    if pos < t.len() && t[pos as int].kind == TokenKind::LParen {
        lemma_type_paren_pos(t, sid, pos);
    }
}

pub proof fn lemma_type_paren_pos(t: Seq<Token>, sid: usize, pos: nat)
    ensures
        pos <= sp_type_paren(t, sid, pos).pos,
        pos <= t.len() ==> sp_type_paren(t, sid, pos).pos <= t.len(),
        sp_type_paren(t, sid, pos).res is Ok ==> pos < sp_type_paren(t, sid, pos).pos,
    decreases t.len() - pos, 0nat,
{
    if let Ok(open) = sp_expect(t, sid, pos, TokenKind::LParen) {
        lemma_type_items_pos(t, sid, seq![], open, pos + 1);
    }
}

pub proof fn lemma_type_items_pos(t: Seq<Token>, sid: usize, items: Seq<TypeModel>, open: Span, pos: nat)
    ensures
        pos <= sp_type_items(t, sid, items, open, pos).pos,
        pos <= t.len() ==> sp_type_items(t, sid, items, open, pos).pos <= t.len(),
        sp_type_items(t, sid, items, open, pos).res is Ok ==> pos < sp_type_items(t, sid, items, open, pos).pos,
    decreases t.len() - pos, 2nat,
{
    if pos < t.len() {
        lemma_type_pos(t, sid, pos);
        let r = sp_type(t, sid, pos);
        if let Ok(ty) = r.res {
            if let Ok(_) = sp_expect(t, sid, r.pos, TokenKind::Comma) {
                let items2 = items.push(ty);
                if !(at_kind(t, r.pos + 1, TokenKind::RParen) || r.pos + 1 <= pos) {
                    lemma_type_items_pos(t, sid, items2, open, r.pos + 1);
                }
            }
        }
    }
}

pub proof fn lemma_param_pos(t: Seq<Token>, sid: usize, pos: nat)
    ensures
        pos <= sp_param(t, sid, pos).pos,
        pos <= t.len() ==> sp_param(t, sid, pos).pos <= t.len(),
        sp_param(t, sid, pos).res is Ok ==> pos < sp_param(t, sid, pos).pos,
{
    if let Ok(_) = sp_expect_ident(t, sid, pos) {
        if let Ok(_) = sp_expect(t, sid, pos + 1, TokenKind::Colon) {
            lemma_type_pos(t, sid, pos + 2);
        }
    }
}

pub proof fn lemma_params_pos(t: Seq<Token>, sid: usize, params: Seq<ParamModel>, pos: nat)
    ensures
        pos <= sp_params(t, sid, params, pos).pos,
        pos <= t.len() ==> sp_params(t, sid, params, pos).pos <= t.len(),
    decreases t.len() - pos,
{
    if pos < t.len() && t[pos as int].kind != TokenKind::RParen {
        lemma_param_pos(t, sid, pos);
        let r = sp_param(t, sid, pos);
        if let Ok(p) = r.res {
            if let Ok(_) = sp_expect(t, sid, r.pos, TokenKind::Comma) {
                if r.pos + 1 > pos {
                    lemma_params_pos(t, sid, params.push(p), r.pos + 1);
                }
            }
        }
    }
}


/// An expression whose operators bind at least as tightly as `min_bp`.
/// A declaration is tried first; when the tokens do not start one, the
/// parser goes back and reads an operand followed by infix operators.
pub open spec fn sp_expr(t: Seq<Token>, sid: usize, pos: nat, nid: nat, min_bp: nat) -> Parsed<NodeModel>
    decreases t.len() - pos, 12nat,
{
    let d = sp_decl(t, sid, pos, nid);
    match d.res {
        Ok(Some(decl)) => parsed(Ok(decl), d.pos, d.nid),
        Err(e) => fail(e, d.pos, d.nid),
        Ok(None) => {
            let p = sp_primary(t, sid, pos, nid);
            match p.res {
                Err(e) => fail(e, p.pos, p.nid),
                Ok(lhs) => if stuck(pos, p.pos, t.len()) {
                    parsed(Ok(lhs), p.pos, p.nid)
                } else {
                    sp_infix(t, sid, lhs, p.pos, p.nid, min_bp)
                },
            }
        },
    }
}

/// The infix operators that follow `lhs`, grouping to the left.
pub open spec fn sp_infix(t: Seq<Token>, sid: usize, lhs: NodeModel, pos: nat, nid: nat, min_bp: nat) -> Parsed<NodeModel>
    decreases t.len() - pos, 12nat,
{
    if pos < t.len() {
        match t[pos as int].kind {
            TokenKind::Operator(op) => {
                let bp = spec_binding_power(op);
                if bp < min_bp {
                    parsed(Ok(lhs), pos, nid)
                } else {
                    let r = sp_expr(t, sid, pos + 1, nid, (bp + 1) as nat);
                    match r.res {
                        Err(e) => fail(e, r.pos, r.nid),
                        Ok(rhs) => {
                            let node = mk_node(
                                r.nid,
                                NodeKindModel::BinaryOp { op, lhs: Box::new(lhs), rhs: Box::new(rhs) },
                                lhs.span.spec_concat(rhs.span),
                            );
                            if stuck(pos, r.pos, t.len()) {
                                parsed(Ok(node), r.pos, r.nid + 1)
                            } else {
                                sp_infix(t, sid, node, r.pos, r.nid + 1, min_bp)
                            }
                        },
                    }
                }
            },
            _ => parsed(Ok(lhs), pos, nid),
        }
    } else {
        parsed(Ok(lhs), pos, nid)
    }
}

/// An operand: a literal, a name, a parenthesized expression or tuple, a
/// prefix operator applied to an expression, `proc name`, `func name`, a
/// callable, or `nil`.
pub open spec fn sp_primary(t: Seq<Token>, sid: usize, pos: nat, nid: nat) -> Parsed<NodeModel>
    decreases t.len() - pos, 11nat,
{
    if pos >= t.len() {
        fail(ParseError::EndOfInput { span: end_span(t, sid), expected: Expected::Expression }, pos, nid)
    } else {
        let tok = t[pos as int];
        match tok.kind {
            TokenKind::IntLit(i) => parsed(Ok(mk_node(nid, NodeKindModel::IntLit(i), tok.span)), pos + 1, nid + 1),
            TokenKind::FloatLit => parsed(Ok(mk_node(nid, NodeKindModel::FloatLit, tok.span)), pos + 1, nid + 1),
            TokenKind::StringLit(s) => parsed(Ok(mk_node(nid, NodeKindModel::StringLit(s@), tok.span)), pos + 1, nid + 1),
            TokenKind::Identifier(i) => parsed(
                Ok(mk_node(nid, NodeKindModel::Identifier(i), tok.span)),
                pos + 1,
                nid + 1,
            ),
            TokenKind::LParen => sp_paren(t, sid, pos, nid),
            TokenKind::Operator(op) => if spec_can_prefix(op) {
                let r = sp_expr(t, sid, pos + 1, nid, 0);
                match r.res {
                    Err(e) => fail(e, r.pos, r.nid),
                    Ok(operand) => parsed(
                        Ok(mk_node(
                            r.nid,
                            NodeKindModel::UnaryOp { op, operand: Box::new(operand) },
                            tok.span.spec_concat(operand.span),
                        )),
                        r.pos,
                        r.nid + 1,
                    ),
                }
            } else {
                fail(ParseError::Unexpected { found: tok, expected: Expected::Expression }, pos, nid)
            },
            TokenKind::KwProc => match sp_expect_ident(t, sid, pos + 1) {
                Err(e) => fail(e, pos + 1, nid),
                Ok((name, span)) => parsed(
                    Ok(mk_node(nid, NodeKindModel::Proc(name), tok.span.spec_concat(span))),
                    pos + 2,
                    nid + 1,
                ),
            },
            TokenKind::KwFunc => match sp_expect_ident(t, sid, pos + 1) {
                Err(e) => fail(e, pos + 1, nid),
                Ok((name, span)) => parsed(
                    Ok(mk_node(nid, NodeKindModel::Func(name), tok.span.spec_concat(span))),
                    pos + 2,
                    nid + 1,
                ),
            },
            TokenKind::KwCallable => sp_callable(t, sid, pos, nid),
            TokenKind::KwNil => parsed(Ok(mk_node(nid, NodeKindModel::Nil, tok.span)), pos + 1, nid + 1),
            _ => fail(ParseError::Unexpected { found: tok, expected: Expected::Expression }, pos, nid),
        }
    }
}

/// `( expr, ... )`: one expression without a trailing comma stands for
/// itself; otherwise the items make a tuple.
pub open spec fn sp_paren(t: Seq<Token>, sid: usize, pos: nat, nid: nat) -> Parsed<NodeModel>
    decreases t.len() - pos, 10nat,
{
    match sp_expect(t, sid, pos, TokenKind::LParen) {
        Err(e) => fail(e, pos, nid),
        Ok(open) => sp_paren_items(t, sid, seq![], open, pos + 1, nid),
    }
}

pub open spec fn sp_paren_items(
    t: Seq<Token>,
    sid: usize,
    items: Seq<NodeModel>,
    open: Span,
    pos: nat,
    nid: nat,
) -> Parsed<NodeModel>
    decreases t.len() - pos, 13nat,
{
    if pos < t.len() {
        let r = sp_expr(t, sid, pos, nid, 0);
        match r.res {
            Err(e) => fail(e, r.pos, r.nid),
            Ok(x) => match sp_expect(t, sid, r.pos, TokenKind::Comma) {
                Err(_) => match sp_expect(t, sid, r.pos, TokenKind::RParen) {
                    Err(e) => fail(e, r.pos, r.nid),
                    Ok(_) => parsed(Ok(x), r.pos + 1, r.nid),
                },
                Ok(_) => {
                    let items2 = items.push(x);
                    if at_kind(t, r.pos + 1, TokenKind::RParen) || r.pos + 1 <= pos {
                        sp_paren_close(t, sid, items2, open, r.pos + 1, r.nid)
                    } else {
                        sp_paren_items(t, sid, items2, open, r.pos + 1, r.nid)
                    }
                },
            },
        }
    } else {
        sp_paren_close(t, sid, items, open, pos, nid)
    }
}

pub open spec fn sp_paren_close(
    t: Seq<Token>,
    sid: usize,
    items: Seq<NodeModel>,
    open: Span,
    pos: nat,
    nid: nat,
) -> Parsed<NodeModel> {
    match sp_expect(t, sid, pos, TokenKind::RParen) {
        Err(e) => fail(e, pos, nid),
        Ok(close) => parsed(
            Ok(mk_node(nid, NodeKindModel::Tuple(items), open.spec_concat(close))),
            pos + 1,
            nid + 1,
        ),
    }
}

/// `callable ( params ) [: type] { body }`.
pub open spec fn sp_callable(t: Seq<Token>, sid: usize, pos: nat, nid: nat) -> Parsed<NodeModel>
    decreases t.len() - pos, 10nat,
{
    match sp_expect(t, sid, pos, TokenKind::KwCallable) {
        Err(e) => fail(e, pos, nid),
        Ok(open) => match sp_expect(t, sid, pos + 1, TokenKind::LParen) {
            Err(e) => fail(e, pos + 1, nid),
            Ok(_) => {
                let ps = sp_params(t, sid, seq![], pos + 2);
                proof {
                    lemma_params_pos(t, sid, seq![], pos + 2);
                }
                match ps.res {
                    Err(e) => fail(e, ps.pos, nid),
                    Ok(params) => match sp_expect(t, sid, ps.pos, TokenKind::RParen) {
                        Err(e) => fail(e, ps.pos, nid),
                        Ok(_) => {
                            let p1 = ps.pos + 1;
                            if at_kind(t, p1, TokenKind::Colon) {
                                let r = sp_type(t, sid, p1 + 1);
                                proof {
                                    lemma_type_pos(t, sid, p1 + 1);
                                }
                                match r.res {
                                    Err(e) => fail(e, r.pos, nid),
                                    Ok(ty) => sp_callable_body(t, sid, open, params, Some(ty), r.pos, nid),
                                }
                            } else {
                                sp_callable_body(t, sid, open, params, None, p1, nid)
                            }
                        },
                    },
                }
            },
        },
    }
}

/// `{ body }` of a callable, at `pos`.
pub open spec fn sp_callable_body(
    t: Seq<Token>,
    sid: usize,
    open: Span,
    params: Seq<ParamModel>,
    ret_ty: Option<TypeModel>,
    pos: nat,
    nid: nat,
) -> Parsed<NodeModel>
    decreases t.len() - pos, 14nat,
{
    match sp_expect(t, sid, pos, TokenKind::LCurly) {
        Err(e) => fail(e, pos, nid),
        Ok(_) => {
            let b = sp_body(t, sid, seq![], pos + 1, nid);
            match b.res {
                Err(e) => fail(e, b.pos, b.nid),
                Ok(body) => match sp_expect(t, sid, b.pos, TokenKind::RCurly) {
                    Err(e) => fail(e, b.pos, b.nid),
                    Ok(close) => parsed(
                        Ok(mk_node(
                            b.nid,
                            NodeKindModel::Callable { params, ret_ty, body },
                            open.spec_concat(close),
                        )),
                        b.pos + 1,
                        b.nid + 1,
                    ),
                },
            }
        },
    }
}

/// The expressions of a callable's body, up to the closing `}` (not consumed).
pub open spec fn sp_body(t: Seq<Token>, sid: usize, body: Seq<NodeModel>, pos: nat, nid: nat) -> Parsed<Seq<NodeModel>>
    decreases t.len() - pos, 13nat,
{
    if pos < t.len() && t[pos as int].kind != TokenKind::RCurly {
        let r = sp_expr(t, sid, pos, nid, 0);
        match r.res {
            Err(e) => fail(e, r.pos, r.nid),
            Ok(x) => if stuck(pos, r.pos, t.len()) {
                parsed(Ok(body.push(x)), r.pos, r.nid)
            } else {
                sp_body(t, sid, body.push(x), r.pos, r.nid)
            },
        }
    } else {
        parsed(Ok(body), pos, nid)
    }
}

/// The shapes of declaration, before their expression is read.
pub enum DeclShape {
    TypedConst(Option<ConstKind>, usize, TypeModel),
    ShortConst(Option<ConstKind>, usize),
    TypedVar(usize, TypeModel),
    ShortVar(usize),
}

pub open spec fn decl_kind(shape: DeclShape, expr: NodeModel) -> NodeKindModel {
    match shape {
        DeclShape::TypedConst(ck, name, ty) => NodeKindModel::TypedConstDecl {
            name: (ck, name),
            ty,
            expr: Box::new(expr),
        },
        DeclShape::ShortConst(ck, name) => NodeKindModel::ShortConstDecl { name: (ck, name), expr: Box::new(expr) },
        DeclShape::TypedVar(name, ty) => NodeKindModel::TypedVarDecl { name, ty, expr: Box::new(expr) },
        DeclShape::ShortVar(name) => NodeKindModel::ShortVarDecl { name, expr: Box::new(expr) },
    }
}

/// The expression of a declaration, at `pos`, and the declaration node.
pub open spec fn sp_decl_finish(t: Seq<Token>, sid: usize, shape: DeclShape, span: Span, pos: nat, nid: nat) -> Parsed<
    Option<NodeModel>,
>
    decreases t.len() - pos, 13nat,
{
    let r = sp_expr(t, sid, pos, nid, 0);
    match r.res {
        Err(e) => fail(e, r.pos, r.nid),
        Ok(x) => parsed(Ok(Some(mk_node(r.nid, decl_kind(shape, x), span.spec_concat(x.span)))), r.pos, r.nid + 1),
    }
}

/// A declaration at `pos`:
/// `proc name [: type] :: expr`, `func name [: type] :: expr`,
/// `name : type :: expr`, `name : type = expr`, `name :: expr` or
/// `name := expr`. `Ok(None)` where the tokens do not start one.
pub open spec fn sp_decl(t: Seq<Token>, sid: usize, pos: nat, nid: nat) -> Parsed<Option<NodeModel>>
    decreases t.len() - pos, 11nat,
{
    if pos >= t.len() {
        parsed(Ok(None), pos, nid)
    } else {
        let tok = t[pos as int];
        let (ck, p0, known) = match tok.kind {
            TokenKind::Identifier(_) => (None, pos, true),
            TokenKind::KwProc => (Some(ConstKind::Proc), pos + 1, true),
            TokenKind::KwFunc => (Some(ConstKind::Func), pos + 1, true),
            _ => (None, pos, false),
        };
        if !known {
            parsed(Ok(None), pos, nid)
        } else {
            match sp_expect_ident(t, sid, p0) {
                Err(_) => parsed(Ok(None), p0, nid),
                Ok((name, name_span)) => {
                    let span = tok.span.spec_concat(name_span);
                    let p1 = p0 + 1;
                    if ck is Some {
                        if at_kind(t, p1, TokenKind::Colon) {
                            let r = sp_type(t, sid, p1 + 1);
                            proof {
                                lemma_type_pos(t, sid, p1 + 1);
                            }
                            match r.res {
                                Err(e) => fail(e, r.pos, nid),
                                Ok(ty) => match sp_expect(t, sid, r.pos, TokenKind::CColon) {
                                    Err(e) => fail(e, r.pos, nid),
                                    Ok(_) => sp_decl_finish(t, sid, DeclShape::TypedConst(ck, name, ty), span, r.pos + 1, nid),
                                },
                            }
                        } else {
                            match sp_expect(t, sid, p1, TokenKind::CColon) {
                                Err(e) => fail(e, p1, nid),
                                Ok(_) => sp_decl_finish(t, sid, DeclShape::ShortConst(ck, name), span, p1 + 1, nid),
                            }
                        }
                    } else if at_kind(t, p1, TokenKind::Colon) {
                        let r = sp_type(t, sid, p1 + 1);
                        proof {
                            lemma_type_pos(t, sid, p1 + 1);
                        }
                        match r.res {
                            Err(e) => fail(e, r.pos, nid),
                            Ok(ty) => if at_kind(t, r.pos, TokenKind::CColon) {
                                sp_decl_finish(t, sid, DeclShape::ShortConst(None, name), span, r.pos + 1, nid)
                            } else {
                                match sp_expect(t, sid, r.pos, TokenKind::Assign) {
                                    Err(e) => fail(e, r.pos, nid),
                                    Ok(_) => sp_decl_finish(t, sid, DeclShape::TypedVar(name, ty), span, r.pos + 1, nid),
                                }
                            },
                        }
                    } else if at_kind(t, p1, TokenKind::CColon) {
                        sp_decl_finish(t, sid, DeclShape::ShortConst(None, name), span, p1 + 1, nid)
                    } else if at_kind(t, p1, TokenKind::Walrus) {
                        sp_decl_finish(t, sid, DeclShape::ShortVar(name), span, p1 + 1, nid)
                    } else {
                        parsed(Ok(None), p1, nid)
                    }
                },
            }
        }
    }
}

/// The expressions of a whole token list, from `pos` on.
pub open spec fn sp_all(t: Seq<Token>, sid: usize, nodes: Seq<NodeModel>, pos: nat, nid: nat) -> Parsed<Seq<NodeModel>>
    decreases t.len() - pos, 13nat,
{
    if pos < t.len() {
        let r = sp_expr(t, sid, pos, nid, 0);
        match r.res {
            Err(e) => fail(e, r.pos, r.nid),
            Ok(x) => if stuck(pos, r.pos, t.len()) {
                parsed(Ok(nodes.push(x)), r.pos, r.nid)
            } else {
                sp_all(t, sid, nodes.push(x), r.pos, r.nid)
            },
        }
    } else {
        parsed(Ok(nodes), pos, nid)
    }
}

/// The tokens all belong to one source file, and the last one does not end
/// at the very end of the address space.
pub open spec fn tokens_ok(t: Seq<Token>) -> bool {
    &&& forall|k: int| 0 <= k < t.len() ==> (#[trigger] t[k]).span.source_id == t[0].span.source_id
    &&& t.len() > 0 ==> t.last().span.end < usize::MAX
}

/// The source id that the tokens share.
pub open spec fn tokens_source(t: Seq<Token>) -> usize {
    if t.len() > 0 {
        t[0].span.source_id
    } else {
        0
    }
}

/// Tokens as `tokenize` gives them, from a source whose length stays below
/// `usize::MAX` bytes, are fit for parsing, and they share the source id
/// they were read with.
pub proof fn lemma_lexed_tokens_fit(t: Seq<Token>, sid: usize, limit: nat)
    requires
        crate::lexer::tokens_in_order(t, sid, limit),
        limit < usize::MAX,
    ensures
        tokens_ok(t),
        t.len() > 0 ==> tokens_source(t) == sid,
{
    if t.len() > 0 {
        assert(t.last() == t[t.len() - 1]);
        assert(t[0].span.source_id == sid);
    }
}

/// What the parser reads from: the interner that holds identifier names,
/// and the id of the source file.
pub struct Context<'ctx> {
    pub rodeo: &'ctx lasso::Rodeo,
    pub source_id: usize,
}

/// A recursive-descent parser over a slice of tokens.
pub struct Parser<'p> {
    ctx: &'p Context<'p>,
    tokens: &'p [Token],
    pos: usize,
    next_node_id: usize,
}

/// `res` is what `r` describes, each value taken through `f`.
pub open spec fn agrees<T, M>(res: Result<T, ParseError>, r: Result<M, ParseError>, f: spec_fn(T) -> M) -> bool {
    match (res, r) {
        (Ok(x), Ok(m)) => f(x) == m,
        (Err(e1), Err(e2)) => e1 == e2,
        _ => false,
    }
}

impl<'p> Parser<'p> {
    /// The tokens being parsed.
    pub closed spec fn toks(&self) -> Seq<Token> {
        self.tokens@
    }

    /// The id of the source file.
    pub closed spec fn sid(&self) -> usize {
        self.ctx.source_id
    }

    /// The index of the next token to read.
    pub closed spec fn pos(&self) -> nat {
        self.pos as nat
    }

    /// The id that the next node will get.
    pub closed spec fn nid(&self) -> nat {
        self.next_node_id as nat
    }

    /// The parser's invariant: the tokens are fit for parsing, and no more
    /// nodes were numbered than tokens read.
    pub open spec fn wf(&self) -> bool {
        &&& tokens_ok(self.toks())
        &&& self.nid() <= self.pos() <= self.toks().len()
    }

    /// `after` reads the same tokens as `self`, is at least as far, and has
    /// numbered no more nodes than it read tokens in between.
    pub open spec fn moved_to(&self, after: &Self) -> bool {
        &&& after.toks() == self.toks()
        &&& after.sid() == self.sid()
        &&& self.pos() <= after.pos()
        &&& self.nid() <= after.nid()
        &&& after.nid() - self.nid() <= after.pos() - self.pos()
    }

    /// A parser over `tokens` at the first token, numbering nodes from 0.
    pub fn new(ctx: &'p Context<'p>, tokens: &'p [Token]) -> (p: Self)
        ensures
            p.toks() == tokens@,
            p.sid() == ctx.source_id,
            p.pos() == 0,
            p.nid() == 0,
    {
        Parser { ctx, tokens, pos: 0usize, next_node_id: 0usize }
    }

    #[inline]
    fn create_node(&mut self, kind: NodeKind, span: Span) -> (n: Node)
        requires
            old(self).nid() < usize::MAX,
        ensures
            n == (Node { id: NodeId(old(self).next_node_id), kind, span }),
            final(self).nid() == old(self).nid() + 1,
            final(self).pos() == old(self).pos(),
            final(self).toks() == old(self).toks(),
            final(self).sid() == old(self).sid(),
    {
        let id = NodeId(self.next_node_id);
        self.next_node_id = self.next_node_id + 1;
        Node { id, kind, span }
    }

    #[inline]
    fn advance(&mut self)
        requires
            old(self).pos() < old(self).toks().len(),
        ensures
            final(self).pos() == old(self).pos() + 1,
            final(self).nid() == old(self).nid(),
            final(self).toks() == old(self).toks(),
            final(self).sid() == old(self).sid(),
    {
        proof {
            assert(self.tokens@.len() == self.tokens.len());
        }
        self.pos = self.pos + 1;
    }

    /// Where the tokens end.
    fn end_span(&self) -> (s: Span)
        requires
            tokens_ok(self.toks()),
        ensures
            s == end_span(self.toks(), self.sid()),
    {
        if self.tokens.len() > 0 {
            self.tokens[self.tokens.len() - 1].span.splat_to_end()
        } else {
            Span::empty(self.ctx.source_id)
        }
    }

    #[inline]
    fn expect(&mut self, expected: TokenKind) -> (res: Result<Span, ParseError>)
        requires
            old(self).wf(),
            !(expected is Identifier),
            !(expected is StringLit),
        ensures
            res matches Err(e) ==> error_from(e, old(self).toks()),
            final(self).wf(),
            old(self).moved_to(final(self)),
            res == sp_expect(old(self).toks(), old(self).sid(), old(self).pos(), expected),
            final(self).nid() == old(self).nid(),
            final(self).pos() == if res is Ok { old(self).pos() + 1 } else { old(self).pos() },
    {
        if self.pos < self.tokens.len() {
            let tok = self.tokens[self.pos];
            if tok.kind.is_kind(expected) {
                self.advance();
                Ok(tok.span)
            } else {
                Err(ParseError::Unexpected { found: tok, expected: Expected::Token(expected) })
            }
        } else {
            Err(ParseError::EndOfInput { span: self.end_span(), expected: Expected::Token(expected) })
        }
    }

    #[inline]
    fn expect_any_without_advance(&self, expected: Expected) -> (res: Result<Token, ParseError>)
        requires
            self.wf(),
            expected_plain(expected),
        ensures
            res matches Err(e) ==> error_from(e, self.toks()),
            self.pos() < self.toks().len() ==> res == Ok::<Token, ParseError>(self.toks()[self.pos() as int]),
            self.pos() >= self.toks().len() ==> res == Err::<Token, ParseError>(
                ParseError::EndOfInput { span: end_span(self.toks(), self.sid()), expected },
            ),
    {
        if self.pos < self.tokens.len() {
            Ok(self.tokens[self.pos])
        } else {
            Err(ParseError::EndOfInput { span: self.end_span(), expected })
        }
    }

    #[inline]
    fn expect_ident(&mut self) -> (res: Result<(usize, Span), ParseError>)
        requires
            old(self).wf(),
        ensures
            res matches Err(e) ==> error_from(e, old(self).toks()),
            final(self).wf(),
            old(self).moved_to(final(self)),
            res == sp_expect_ident(old(self).toks(), old(self).sid(), old(self).pos()),
            final(self).nid() == old(self).nid(),
            final(self).pos() == if res is Ok { old(self).pos() + 1 } else { old(self).pos() },
    {
        if self.pos < self.tokens.len() {
            let tok = self.tokens[self.pos];
            if let TokenKind::Identifier(name) = tok.kind {
                self.advance();
                Ok((name, tok.span))
            } else {
                Err(ParseError::Unexpected { found: tok, expected: Expected::Identifier })
            }
        } else {
            Err(ParseError::EndOfInput { span: self.end_span(), expected: Expected::Identifier })
        }
    }
}

impl<'p> Parser<'p> {
    fn parse_type(&mut self) -> (res: Result<ParsedType, ParseError>)
        requires
            old(self).wf(),
        ensures
            res matches Err(e) ==> error_from(e, old(self).toks()),
            final(self).wf(),
            old(self).moved_to(final(self)),
            final(self).nid() == old(self).nid(),
            final(self).pos() == sp_type(old(self).toks(), old(self).sid(), old(self).pos()).pos,
            agrees(res, sp_type(old(self).toks(), old(self).sid(), old(self).pos()).res, |x: ParsedType| type_model(x)),
            res matches Ok(ty) ==> ty.span.source_id == tokens_source(old(self).toks()),
            res is Ok ==> old(self).pos() < final(self).pos(),
        decreases old(self).tokens@.len() - old(self).pos, 1int,
    {
        let tok = self.expect_any_without_advance(Expected::Type)?;
        match tok.kind {
            TokenKind::Identifier(i) => {
                self.advance();
                Ok(ParsedType { kind: ParsedTypeKind::Identifier(i), span: tok.span })
            },
            TokenKind::LParen => self.parse_type_paren(),
            TokenKind::KwNil => {
                self.advance();
                Ok(ParsedType { kind: ParsedTypeKind::Nil, span: tok.span })
            },
            _ => Err(ParseError::Unexpected { found: tok, expected: Expected::Type }),
        }
    }

    fn parse_type_paren(&mut self) -> (res: Result<ParsedType, ParseError>)
        requires
            old(self).wf(),
        ensures
            res matches Err(e) ==> error_from(e, old(self).toks()),
            final(self).wf(),
            old(self).moved_to(final(self)),
            final(self).nid() == old(self).nid(),
            final(self).pos() == sp_type_paren(old(self).toks(), old(self).sid(), old(self).pos()).pos,
            agrees(
                res,
                sp_type_paren(old(self).toks(), old(self).sid(), old(self).pos()).res,
                |x: ParsedType| type_model(x),
            ),
            res matches Ok(ty) ==> ty.span.source_id == tokens_source(old(self).toks()),
            res is Ok ==> old(self).pos() < final(self).pos(),
        decreases old(self).tokens@.len() - old(self).pos, 0int,
    {
        let ghost t = self.toks();
        let ghost sid = self.sid();
        let ghost p0 = self.pos();
        let open = self.expect(TokenKind::LParen)?;
        let mut items: Vec<ParsedType> = Vec::new();
        loop
            invariant_except_break
                self.wf(),
                self.toks() == t,
                self.sid() == sid,
                t == old(self).toks(),
                sid == old(self).sid(),
                p0 == old(self).pos(),
                self.nid() == old(self).nid(),
                p0 < self.pos(),
                open == t[p0 as int].span,
                sp_type_items(t, sid, types_model(items@), open, self.pos()) == sp_type_paren(t, sid, p0),
            ensures
                self.wf(),
                self.toks() == t,
                self.sid() == sid,
                self.nid() == old(self).nid(),
                p0 < self.pos(),
                open == t[p0 as int].span,
                sp_type_close(t, sid, types_model(items@), open, self.pos()) == sp_type_paren(t, sid, p0),
            decreases t.len() - self.pos(),
        {
            if self.pos >= self.tokens.len() {
                break;
            }
            let ghost items_b = items@;
            let ty = self.parse_type()?;
            if self.expect(TokenKind::Comma).is_err() {
                self.expect(TokenKind::RParen)?;
                return Ok(ty);
            }
            proof {
                lemma_types_model_push(items_b, ty);
            }
            items.push(ty);
            if self.pos < self.tokens.len() && self.tokens[self.pos].kind.is_kind(TokenKind::RParen) {
                break;
            }
        }
        let close = self.expect(TokenKind::RParen)?;
        let span = open.concat(&close);
        Ok(ParsedType { kind: ParsedTypeKind::Tuple(items), span })
    }

    fn parse_param(&mut self) -> (res: Result<Param, ParseError>)
        requires
            old(self).wf(),
        ensures
            res matches Err(e) ==> error_from(e, old(self).toks()),
            final(self).wf(),
            old(self).moved_to(final(self)),
            final(self).nid() == old(self).nid(),
            final(self).pos() == sp_param(old(self).toks(), old(self).sid(), old(self).pos()).pos,
            agrees(res, sp_param(old(self).toks(), old(self).sid(), old(self).pos()).res, |x: Param| param_model(x)),
            res is Ok ==> old(self).pos() < final(self).pos(),
    {
        let ghost t = self.toks();
        let ghost p0 = self.pos();
        let (name, span) = self.expect_ident()?;
        self.expect(TokenKind::Colon)?;
        let ty = self.parse_type()?;
        assert(span.source_id == t[p0 as int].span.source_id);
        let span = span.concat(&ty.span);
        Ok(Param { name, ty, span })
    }
}

/// A node that lies in the source of the tokens `t` and whose ids, in
/// post-order, rise within `lo..hi`.
pub open spec fn node_ok(n: Node, t: Seq<Token>, lo: nat, hi: nat) -> bool {
    &&& n.span.source_id == tokens_source(t)
    &&& rising_within(post_ids(node_model(n)), lo, hi)
}

pub open spec fn opt_node_model(o: Option<Node>) -> Option<NodeModel> {
    match o {
        Some(n) => Some(node_model(n)),
        None => None,
    }
}

/// A declaration whose expression is still to be read.
pub enum DeclHead {
    TypedConst(Option<ConstKind>, usize, ParsedType),
    ShortConst(Option<ConstKind>, usize),
    TypedVar(usize, ParsedType),
    ShortVar(usize),
}

pub open spec fn head_shape(h: DeclHead) -> DeclShape {
    match h {
        DeclHead::TypedConst(ck, name, ty) => DeclShape::TypedConst(ck, name, type_model(ty)),
        DeclHead::ShortConst(ck, name) => DeclShape::ShortConst(ck, name),
        DeclHead::TypedVar(name, ty) => DeclShape::TypedVar(name, type_model(ty)),
        DeclHead::ShortVar(name) => DeclShape::ShortVar(name),
    }
}

pub proof fn lemma_rising_widen(s: Seq<nat>, lo: nat, lo2: nat, hi: nat, hi2: nat)
    requires
        rising_within(s, lo2, hi2),
        lo <= lo2,
        hi2 <= hi,
    ensures
        rising_within(s, lo, hi),
{
}

impl<'p> Parser<'p> {
    fn parse_expression(&mut self, min_bp: usize) -> (res: Result<Node, ParseError>)
        requires
            old(self).wf(),
        ensures
            res matches Err(e) ==> error_from(e, old(self).toks()),
            final(self).wf(),
            old(self).moved_to(final(self)),
            final(self).pos() == sp_expr(old(self).toks(), old(self).sid(), old(self).pos(), old(self).nid(), min_bp as nat).pos,
            final(self).nid() == sp_expr(old(self).toks(), old(self).sid(), old(self).pos(), old(self).nid(), min_bp as nat).nid,
            agrees(
                res,
                sp_expr(old(self).toks(), old(self).sid(), old(self).pos(), old(self).nid(), min_bp as nat).res,
                |n: Node| node_model(n),
            ),
            res matches Ok(n) ==> node_ok(n, old(self).toks(), old(self).nid(), final(self).nid()),
            res is Ok ==> old(self).pos() < final(self).pos(),
        decreases old(self).tokens@.len() - old(self).pos, 12int,
    {
        let ghost t = self.toks();
        let ghost sid = self.sid();
        let ghost p0 = self.pos();
        let ghost n0 = self.nid();
        let prev_pos = self.pos;
        let prev_node_id = self.next_node_id;
        match self.try_parse_decl() {
            Ok(Some(decl)) => return Ok(decl),
            Err(e) => return Err(e),
            Ok(None) => {},
        }
        self.pos = prev_pos;
        self.next_node_id = prev_node_id;
        let mut lhs = self.parse_primary()?;
        loop
            invariant_except_break
                self.wf(),
                self.toks() == t,
                self.sid() == sid,
                t == old(self).toks(),
                sid == old(self).sid(),
                p0 == old(self).pos(),
                n0 == old(self).nid(),
                old(self).moved_to(self),
                p0 < self.pos(),
                node_ok(lhs, t, n0, self.nid()),
                sp_infix(t, sid, node_model(lhs), self.pos(), self.nid(), min_bp as nat) == sp_expr(
                    t,
                    sid,
                    p0,
                    n0,
                    min_bp as nat,
                ),
            ensures
                self.wf(),
                self.toks() == t,
                self.sid() == sid,
                old(self).moved_to(self),
                p0 < self.pos(),
                node_ok(lhs, t, n0, self.nid()),
                sp_expr(t, sid, p0, n0, min_bp as nat) == parsed(Ok(node_model(lhs)), self.pos(), self.nid()),
            decreases t.len() - self.pos(),
        {
            if self.pos >= self.tokens.len() {
                break;
            }
            let tok = self.tokens[self.pos];
            match tok.kind {
                TokenKind::Operator(op) => {
                    if !op.can_infix() {
                        break;
                    }
                    let bp = op.binding_power();
                    if bp < min_bp {
                        break;
                    }
                    let bp = bp + 1;
                    let ghost nl = self.nid();
                    let ghost lhs_m = node_model(lhs);
                    self.advance();
                    let rhs = self.parse_expression(bp)?;
                    assert(lhs.span.source_id == tokens_source(t));
                    let span = lhs.span.concat(&rhs.span);
                    let ghost nr = self.nid();
                    proof {
                        lemma_rising_concat(post_ids(lhs_m), post_ids(node_model(rhs)), n0, nl, nr);
                        lemma_rising_push(post_ids(lhs_m) + post_ids(node_model(rhs)), n0, nr);
                    }
                    lhs = self.create_node(NodeKind::BinaryOp { op, lhs: Box::new(lhs), rhs: Box::new(rhs) }, span);
                    assert(post_ids(node_model(lhs)) == (post_ids(lhs_m) + post_ids(node_model(rhs))).push(nr));
                },
                _ => {
                    break;
                },
            }
        }
        Ok(lhs)
    }

    fn parse_primary(&mut self) -> (res: Result<Node, ParseError>)
        requires
            old(self).wf(),
        ensures
            res matches Err(e) ==> error_from(e, old(self).toks()),
            final(self).wf(),
            old(self).moved_to(final(self)),
            final(self).pos() == sp_primary(old(self).toks(), old(self).sid(), old(self).pos(), old(self).nid()).pos,
            final(self).nid() == sp_primary(old(self).toks(), old(self).sid(), old(self).pos(), old(self).nid()).nid,
            agrees(
                res,
                sp_primary(old(self).toks(), old(self).sid(), old(self).pos(), old(self).nid()).res,
                |n: Node| node_model(n),
            ),
            res matches Ok(n) ==> node_ok(n, old(self).toks(), old(self).nid(), final(self).nid()),
            res is Ok ==> old(self).pos() < final(self).pos(),
        decreases old(self).tokens@.len() - old(self).pos, 11int,
    {
        let ghost t = self.toks();
        let ghost p0 = self.pos();
        let ghost n0 = self.nid();
        let tok = self.expect_any_without_advance(Expected::Expression)?;
        assert(tok.span.source_id == tokens_source(t));
        match tok.kind {
            TokenKind::IntLit(i) => {
                self.advance();
                let n = self.create_node(NodeKind::IntLit(i), tok.span);
                assert(post_ids(node_model(n)) =~= seq![n0]);
                Ok(n)
            },
            TokenKind::FloatLit => {
                self.advance();
                let n = self.create_node(NodeKind::FloatLit, tok.span);
                assert(post_ids(node_model(n)) =~= seq![n0]);
                Ok(n)
            },
            TokenKind::StringLit(s) => {
                self.advance();
                let n = self.create_node(NodeKind::StringLit(String::from_str(s)), tok.span);
                assert(post_ids(node_model(n)) =~= seq![n0]);
                Ok(n)
            },
            TokenKind::Identifier(i) => {
                self.advance();
                let n = self.create_node(NodeKind::Identifier(i), tok.span);
                assert(post_ids(node_model(n)) =~= seq![n0]);
                Ok(n)
            },
            TokenKind::LParen => self.parse_paren(),
            TokenKind::Operator(op) => {
                if op.can_prefix() {
                    self.advance();
                    let operand = self.parse_expression(0)?;
                    let span = tok.span.concat(&operand.span);
                    let ghost nr = self.nid();
                    proof {
                        lemma_rising_push(post_ids(node_model(operand)), n0, nr);
                    }
                    let n = self.create_node(NodeKind::UnaryOp { op, operand: Box::new(operand) }, span);
                    Ok(n)
                } else {
                    Err(ParseError::Unexpected { found: tok, expected: Expected::Expression })
                }
            },
            TokenKind::KwProc => {
                self.advance();
                let (name, name_span) = self.expect_ident()?;
                let span = tok.span.concat(&name_span);
                let n = self.create_node(NodeKind::Proc(name), span);
                assert(post_ids(node_model(n)) =~= seq![n0]);
                Ok(n)
            },
            TokenKind::KwFunc => {
                self.advance();
                let (name, name_span) = self.expect_ident()?;
                let span = tok.span.concat(&name_span);
                let n = self.create_node(NodeKind::Func(name), span);
                assert(post_ids(node_model(n)) =~= seq![n0]);
                Ok(n)
            },
            TokenKind::KwCallable => self.parse_callable(),
            TokenKind::KwNil => {
                self.advance();
                let n = self.create_node(NodeKind::Nil, tok.span);
                assert(post_ids(node_model(n)) =~= seq![n0]);
                Ok(n)
            },
            _ => Err(ParseError::Unexpected { found: tok, expected: Expected::Expression }),
        }
    }
}

impl<'p> Parser<'p> {
    fn parse_paren(&mut self) -> (res: Result<Node, ParseError>)
        requires
            old(self).wf(),
        ensures
            res matches Err(e) ==> error_from(e, old(self).toks()),
            final(self).wf(),
            old(self).moved_to(final(self)),
            final(self).pos() == sp_paren(old(self).toks(), old(self).sid(), old(self).pos(), old(self).nid()).pos,
            final(self).nid() == sp_paren(old(self).toks(), old(self).sid(), old(self).pos(), old(self).nid()).nid,
            agrees(
                res,
                sp_paren(old(self).toks(), old(self).sid(), old(self).pos(), old(self).nid()).res,
                |n: Node| node_model(n),
            ),
            res matches Ok(n) ==> node_ok(n, old(self).toks(), old(self).nid(), final(self).nid()),
            res is Ok ==> old(self).pos() < final(self).pos(),
        decreases old(self).tokens@.len() - old(self).pos, 10int,
    {
        let ghost t = self.toks();
        let ghost sid = self.sid();
        let ghost p0 = self.pos();
        let ghost n0 = self.nid();
        let open = self.expect(TokenKind::LParen)?;
        let mut items: Vec<Node> = Vec::new();
        loop
            invariant_except_break
                self.wf(),
                self.toks() == t,
                self.sid() == sid,
                t == old(self).toks(),
                sid == old(self).sid(),
                p0 == old(self).pos(),
                n0 == old(self).nid(),
                old(self).moved_to(self),
                p0 < self.pos(),
                open == t[p0 as int].span,
                rising_within(post_ids_seq(nodes_model(items@)), n0, self.nid()),
                sp_paren_items(t, sid, nodes_model(items@), open, self.pos(), self.nid()) == sp_paren(t, sid, p0, n0),
            ensures
                self.wf(),
                self.toks() == t,
                self.sid() == sid,
                old(self).moved_to(self),
                p0 < self.pos(),
                open == t[p0 as int].span,
                rising_within(post_ids_seq(nodes_model(items@)), n0, self.nid()),
                sp_paren_close(t, sid, nodes_model(items@), open, self.pos(), self.nid()) == sp_paren(t, sid, p0, n0),
            decreases t.len() - self.pos(),
        {
            if self.pos >= self.tokens.len() {
                break;
            }
            let ghost items_b = items@;
            let ghost nb = self.nid();
            let expr = self.parse_expression(0)?;
            if self.expect(TokenKind::Comma).is_err() {
                self.expect(TokenKind::RParen)?;
                proof {
                    lemma_rising_widen(post_ids(node_model(expr)), n0, nb, self.nid(), self.nid());
                }
                return Ok(expr);
            }
            proof {
                lemma_nodes_model_push(items_b, expr);
                lemma_post_ids_seq_push(nodes_model(items_b), node_model(expr));
                lemma_rising_concat(post_ids_seq(nodes_model(items_b)), post_ids(node_model(expr)), n0, nb, self.nid());
            }
            items.push(expr);
            if self.pos < self.tokens.len() && self.tokens[self.pos].kind.is_kind(TokenKind::RParen) {
                break;
            }
        }
        let close = self.expect(TokenKind::RParen)?;
        let span = open.concat(&close);
        let ghost ids = post_ids_seq(nodes_model(items@));
        let ghost nt = self.nid();
        proof {
            lemma_rising_push(ids, n0, nt);
        }
        let n = self.create_node(NodeKind::Tuple(items), span);
        assert(post_ids(node_model(n)) == ids.push(nt));
        Ok(n)
    }

    fn parse_callable(&mut self) -> (res: Result<Node, ParseError>)
        requires
            old(self).wf(),
        ensures
            res matches Err(e) ==> error_from(e, old(self).toks()),
            final(self).wf(),
            old(self).moved_to(final(self)),
            final(self).pos() == sp_callable(old(self).toks(), old(self).sid(), old(self).pos(), old(self).nid()).pos,
            final(self).nid() == sp_callable(old(self).toks(), old(self).sid(), old(self).pos(), old(self).nid()).nid,
            agrees(
                res,
                sp_callable(old(self).toks(), old(self).sid(), old(self).pos(), old(self).nid()).res,
                |n: Node| node_model(n),
            ),
            res matches Ok(n) ==> node_ok(n, old(self).toks(), old(self).nid(), final(self).nid()),
            res is Ok ==> old(self).pos() < final(self).pos(),
        decreases old(self).tokens@.len() - old(self).pos, 10int,
    {
        let ghost t = self.toks();
        let ghost sid = self.sid();
        let ghost p0 = self.pos();
        let ghost n0 = self.nid();
        let open = self.expect(TokenKind::KwCallable)?;
        self.expect(TokenKind::LParen)?;
        let mut params: Vec<Param> = Vec::new();
        loop
            invariant_except_break
                self.wf(),
                self.toks() == t,
                self.sid() == sid,
                t == old(self).toks(),
                sid == old(self).sid(),
                p0 == old(self).pos(),
                n0 == old(self).nid(),
                self.nid() == n0,
                p0 + 2 <= self.pos(),
                open == t[p0 as int].span,
                sp_expect(t, sid, p0, TokenKind::KwCallable) == Ok::<Span, ParseError>(open),
                sp_expect(t, sid, p0 + 1, TokenKind::LParen) is Ok,
                sp_params(t, sid, params_model(params@), self.pos()) == sp_params(t, sid, seq![], p0 + 2),
            ensures
                self.wf(),
                self.toks() == t,
                self.sid() == sid,
                self.nid() == n0,
                p0 + 2 <= self.pos(),
                open == t[p0 as int].span,
                sp_params(t, sid, seq![], p0 + 2) == parsed(Ok(params_model(params@)), self.pos(), 0),
            decreases t.len() - self.pos(),
        {
            if self.pos >= self.tokens.len() || self.tokens[self.pos].kind.is_kind(TokenKind::RParen) {
                break;
            }
            let ghost params_b = params@;
            let param = self.parse_param()?;
            proof {
                lemma_params_model_push(params_b, param);
            }
            params.push(param);
            if self.expect(TokenKind::Comma).is_err() {
                break;
            }
        }
        self.expect(TokenKind::RParen)?;
        let ret_ty = if self.pos < self.tokens.len() && self.tokens[self.pos].kind.is_kind(TokenKind::Colon) {
            self.advance();
            Some(self.parse_type()?)
        } else {
            None
        };
        let ghost pb = self.pos();
        self.expect(TokenKind::LCurly)?;
        let mut body: Vec<Node> = Vec::new();
        loop
            invariant_except_break
                self.wf(),
                self.toks() == t,
                self.sid() == sid,
                t == old(self).toks(),
                sid == old(self).sid(),
                p0 == old(self).pos(),
                n0 == old(self).nid(),
                old(self).moved_to(self),
                p0 + 3 <= self.pos(),
                pb < self.pos(),
                open == t[p0 as int].span,
                sp_callable(t, sid, p0, n0) == sp_callable_body(t, sid, open, params_model(params@), opt_type_model(ret_ty), pb, n0),
                sp_expect(t, sid, pb, TokenKind::LCurly) is Ok,
                rising_within(post_ids_seq(nodes_model(body@)), n0, self.nid()),
                sp_body(t, sid, nodes_model(body@), self.pos(), self.nid()) == sp_body(t, sid, seq![], pb + 1, n0),
            ensures
                self.wf(),
                self.toks() == t,
                self.sid() == sid,
                old(self).moved_to(self),
                p0 + 3 <= self.pos(),
                open == t[p0 as int].span,
                sp_callable(t, sid, p0, n0) == sp_callable_body(t, sid, open, params_model(params@), opt_type_model(ret_ty), pb, n0),
                sp_expect(t, sid, pb, TokenKind::LCurly) is Ok,
                rising_within(post_ids_seq(nodes_model(body@)), n0, self.nid()),
                sp_body(t, sid, seq![], pb + 1, n0) == parsed(Ok(nodes_model(body@)), self.pos(), self.nid()),
            decreases t.len() - self.pos(),
        {
            if self.pos >= self.tokens.len() || self.tokens[self.pos].kind.is_kind(TokenKind::RCurly) {
                break;
            }
            let ghost body_b = body@;
            let ghost nb = self.nid();
            let expr = self.parse_expression(0)?;
            proof {
                lemma_nodes_model_push(body_b, expr);
                lemma_post_ids_seq_push(nodes_model(body_b), node_model(expr));
                lemma_rising_concat(post_ids_seq(nodes_model(body_b)), post_ids(node_model(expr)), n0, nb, self.nid());
            }
            body.push(expr);
        }
        let close = self.expect(TokenKind::RCurly)?;
        let span = open.concat(&close);
        let ghost ids = post_ids_seq(nodes_model(body@));
        let ghost nt = self.nid();
        proof {
            lemma_rising_push(ids, n0, nt);
        }
        let n = self.create_node(NodeKind::Callable { params, ret_ty, body }, span);
        assert(post_ids(node_model(n)) == ids.push(nt));
        Ok(n)
    }

    fn finish_decl(&mut self, head: DeclHead, span: Span) -> (res: Result<Option<Node>, ParseError>)
        requires
            old(self).wf(),
            old(self).nid() < old(self).pos(),
            span.source_id == tokens_source(old(self).toks()),
        ensures
            res matches Err(e) ==> error_from(e, old(self).toks()),
            final(self).wf(),
            final(self).toks() == old(self).toks(),
            final(self).sid() == old(self).sid(),
            old(self).pos() <= final(self).pos(),
            old(self).nid() <= final(self).nid(),
            final(self).nid() - old(self).nid() <= final(self).pos() - old(self).pos() + 1,
            final(self).pos() == sp_decl_finish(old(self).toks(), old(self).sid(), head_shape(head), span, old(self).pos(), old(self).nid()).pos,
            final(self).nid() == sp_decl_finish(old(self).toks(), old(self).sid(), head_shape(head), span, old(self).pos(), old(self).nid()).nid,
            agrees(
                res,
                sp_decl_finish(old(self).toks(), old(self).sid(), head_shape(head), span, old(self).pos(), old(self).nid()).res,
                |o: Option<Node>| opt_node_model(o),
            ),
            res matches Ok(Some(n)) ==> node_ok(n, old(self).toks(), old(self).nid(), final(self).nid()),
            res matches Ok(o) ==> o is Some,
            res is Ok ==> old(self).pos() < final(self).pos(),
        decreases old(self).tokens@.len() - old(self).pos, 13int,
    {
        let ghost n0 = self.nid();
        let expr = self.parse_expression(0)?;
        let span = span.concat(&expr.span);
        let ghost em = node_model(expr);
        let ghost nr = self.nid();
        proof {
            lemma_rising_push(post_ids(em), n0, nr);
        }
        let kind = match head {
            DeclHead::TypedConst(ck, name, ty) => NodeKind::TypedConstDecl { name: (ck, name), ty, expr: Box::new(expr) },
            DeclHead::ShortConst(ck, name) => NodeKind::ShortConstDecl { name: (ck, name), expr: Box::new(expr) },
            DeclHead::TypedVar(name, ty) => NodeKind::TypedVarDecl { name, ty, expr: Box::new(expr) },
            DeclHead::ShortVar(name) => NodeKind::ShortVarDecl { name, expr: Box::new(expr) },
        };
        let n = self.create_node(kind, span);
        assert(post_ids(node_model(n)) == post_ids(em).push(nr));
        Ok(Some(n))
    }

    fn try_parse_decl(&mut self) -> (res: Result<Option<Node>, ParseError>)
        requires
            old(self).wf(),
        ensures
            res matches Err(e) ==> error_from(e, old(self).toks()),
            final(self).wf(),
            old(self).moved_to(final(self)),
            final(self).pos() == sp_decl(old(self).toks(), old(self).sid(), old(self).pos(), old(self).nid()).pos,
            final(self).nid() == sp_decl(old(self).toks(), old(self).sid(), old(self).pos(), old(self).nid()).nid,
            agrees(
                res,
                sp_decl(old(self).toks(), old(self).sid(), old(self).pos(), old(self).nid()).res,
                |o: Option<Node>| opt_node_model(o),
            ),
            res matches Ok(Some(n)) ==> node_ok(n, old(self).toks(), old(self).nid(), final(self).nid()),
            res matches Ok(Some(_)) ==> old(self).pos() < final(self).pos(),
        decreases old(self).tokens@.len() - old(self).pos, 11int,
    {
        let ghost t = self.toks();
        let ghost p0 = self.pos();
        if self.pos >= self.tokens.len() {
            return Ok(None);
        }
        let tok = self.tokens[self.pos];
        assert(tok.span.source_id == tokens_source(t));
        let const_kind = match tok.kind {
            TokenKind::Identifier(_) => None,
            TokenKind::KwProc => {
                self.advance();
                Some(ConstKind::Proc)
            },
            TokenKind::KwFunc => {
                self.advance();
                Some(ConstKind::Func)
            },
            _ => {
                return Ok(None);
            },
        };
        let ck_span = tok.span;
        let (name, n_span) = match self.expect_ident() {
            Ok(found) => found,
            Err(_) => {
                return Ok(None);
            },
        };
        let span = ck_span.concat(&n_span);
        if const_kind.is_some() {
            if self.expect(TokenKind::Colon).is_ok() {
                proof {
                    lemma_type_pos(t, self.sid(), self.pos());
                }
                let ty = self.parse_type()?;
                self.expect(TokenKind::CColon)?;
                self.finish_decl(DeclHead::TypedConst(const_kind, name, ty), span)
            } else {
                self.expect(TokenKind::CColon)?;
                self.finish_decl(DeclHead::ShortConst(const_kind, name), span)
            }
        } else if self.expect(TokenKind::Colon).is_ok() {
            let ty = self.parse_type()?;
            if self.expect(TokenKind::CColon).is_ok() {
                self.finish_decl(DeclHead::ShortConst(None, name), span)
            } else {
                self.expect(TokenKind::Assign)?;
                self.finish_decl(DeclHead::TypedVar(name, ty), span)
            }
        } else if self.expect(TokenKind::CColon).is_ok() {
            self.finish_decl(DeclHead::ShortConst(None, name), span)
        } else if self.expect(TokenKind::Walrus).is_ok() {
            self.finish_decl(DeclHead::ShortVar(name), span)
        } else {
            Ok(None)
        }
    }

    /// Parses expressions up to the end of the tokens.
    ///
    /// On success the parser stands after the last token and the result
    /// holds the expressions in order; the ids of all their nodes, each
    /// tree in post-order, rise strictly, so no two nodes share an id.
    pub fn parse(&mut self) -> (res: Result<Ast, ParseError>)
        requires
            old(self).wf(),
        ensures
            res matches Err(e) ==> error_from(e, old(self).toks()),
            final(self).wf(),
            old(self).moved_to(final(self)),
            final(self).pos() == sp_all(old(self).toks(), old(self).sid(), seq![], old(self).pos(), old(self).nid()).pos,
            final(self).nid() == sp_all(old(self).toks(), old(self).sid(), seq![], old(self).pos(), old(self).nid()).nid,
            agrees(
                res,
                sp_all(old(self).toks(), old(self).sid(), seq![], old(self).pos(), old(self).nid()).res,
                |a: Ast| nodes_model(a.0@),
            ),
            res is Ok ==> final(self).pos() == old(self).toks().len(),
            res matches Ok(a) ==> rising_within(post_ids_seq(nodes_model(a.0@)), old(self).nid(), final(self).nid()),
            res matches Ok(a) ==> post_ids_seq(nodes_model(a.0@)).no_duplicates(),
            res matches Ok(a) ==> forall|k: int|
                0 <= k < a.0@.len() ==> (#[trigger] a.0@[k]).span.source_id == tokens_source(old(self).toks()),
    {
        let ghost t = self.toks();
        let ghost sid = self.sid();
        let ghost p0 = self.pos();
        let ghost n0 = self.nid();
        let mut nodes: Vec<Node> = Vec::new();
        while self.pos < self.tokens.len()
            invariant
                self.wf(),
                self.toks() == t,
                self.sid() == sid,
                t == old(self).toks(),
                sid == old(self).sid(),
                p0 == old(self).pos(),
                n0 == old(self).nid(),
                old(self).moved_to(self),
                rising_within(post_ids_seq(nodes_model(nodes@)), n0, self.nid()),
                forall|k: int| 0 <= k < nodes@.len() ==> (#[trigger] nodes@[k]).span.source_id == tokens_source(t),
                sp_all(t, sid, nodes_model(nodes@), self.pos(), self.nid()) == sp_all(t, sid, seq![], p0, n0),
            decreases t.len() - self.pos(),
        {
            let ghost nodes_b = nodes@;
            let ghost nb = self.nid();
            let expr = self.parse_expression(0)?;
            proof {
                lemma_nodes_model_push(nodes_b, expr);
                lemma_post_ids_seq_push(nodes_model(nodes_b), node_model(expr));
                lemma_rising_concat(post_ids_seq(nodes_model(nodes_b)), post_ids(node_model(expr)), n0, nb, self.nid());
            }
            nodes.push(expr);
        }
        proof {
            crate::ast::lemma_rising_distinct(post_ids_seq(nodes_model(nodes@)), n0, self.nid());
        }
        Ok(Ast(nodes))
    }
}

} // verus!
