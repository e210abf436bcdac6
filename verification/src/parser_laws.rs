use vstd::prelude::*;
use crate::ast::{NodeKindModel, NodeModel, ParamModel, TypeKindModel, TypeModel};
use crate::parser::{
    at_kind, mk_node, parsed, sp_type_close, sp_type_items, sp_type_paren, Parsed, lemma_params_pos, lemma_type_pos, sp_body, sp_callable, sp_callable_body, sp_decl,
    sp_decl_finish, sp_expect, sp_expect_ident, sp_expr, sp_infix, sp_paren, sp_paren_close,
    sp_all, sp_paren_items, sp_params, sp_primary, sp_type, stuck, DeclShape,
};
use crate::operator::{spec_binding_power, spec_can_prefix, Operator};
use crate::span::Span;
use crate::token::{Token, TokenKind};

verus! {

/// The token just before position `q` can end an expression: a literal, a
/// name, `nil`, `)` or `}`.
pub open spec fn closes(t: Seq<Token>, q: nat) -> bool {
    &&& 0 < q <= t.len()
    &&& match t[q - 1].kind {
        TokenKind::IntLit(_) | TokenKind::FloatLit | TokenKind::StringLit(_) | TokenKind::Identifier(_)
        | TokenKind::KwNil | TokenKind::RParen | TokenKind::RCurly => true,
        _ => false,
    }
}

/// Position `q` is the end of the tokens or holds a token that is not an
/// operator.
pub open spec fn stops(t: Seq<Token>, q: nat) -> bool {
    q >= t.len() || !(t[q as int].kind is Operator)
}

/// Reading an expression never moves back and stays within the tokens;
/// when it succeeds it has moved forward and its last token can end an
/// expression; read with no lower bound on binding power, it goes on until
/// the tokens end or a token that is not an operator.
pub proof fn lemma_expr_pos(t: Seq<Token>, sid: usize, pos: nat, nid: nat, min_bp: nat)
    requires
        pos <= t.len(),
    ensures
        pos <= sp_expr(t, sid, pos, nid, min_bp).pos <= t.len(),
        sp_expr(t, sid, pos, nid, min_bp).res is Ok ==> pos < sp_expr(t, sid, pos, nid, min_bp).pos && closes(
            t,
            sp_expr(t, sid, pos, nid, min_bp).pos,
        ),
        min_bp == 0 && sp_expr(t, sid, pos, nid, min_bp).res is Ok ==> stops(t, sp_expr(t, sid, pos, nid, min_bp).pos),
    decreases t.len() - pos, 12nat,
{
    lemma_decl_pos(t, sid, pos, nid);
    let d = sp_decl(t, sid, pos, nid);
    if d.res is Ok && d.res->Ok_0 is None {
        lemma_primary_pos(t, sid, pos, nid);
        let p = sp_primary(t, sid, pos, nid);
        if let Ok(lhs) = p.res {
            if !stuck(pos, p.pos, t.len()) {
                lemma_infix_pos(t, sid, lhs, p.pos, p.nid, min_bp);
            }
        }
    }
}

/// `lemma_expr_pos`, for the infix operators that follow an operand.
pub proof fn lemma_infix_pos(t: Seq<Token>, sid: usize, lhs: NodeModel, pos: nat, nid: nat, min_bp: nat)
    requires
        closes(t, pos),
    ensures
        pos <= sp_infix(t, sid, lhs, pos, nid, min_bp).pos <= t.len(),
        sp_infix(t, sid, lhs, pos, nid, min_bp).res is Ok ==> closes(t, sp_infix(t, sid, lhs, pos, nid, min_bp).pos),
        min_bp == 0 && sp_infix(t, sid, lhs, pos, nid, min_bp).res is Ok ==> stops(
            t,
            sp_infix(t, sid, lhs, pos, nid, min_bp).pos,
        ),
    decreases t.len() - pos, 12nat,
{
    if pos < t.len() {
        if let TokenKind::Operator(op) = t[pos as int].kind {
            let bp = spec_binding_power(op);
            if bp >= min_bp {
                lemma_expr_pos(t, sid, pos + 1, nid, (bp + 1) as nat);
                let r = sp_expr(t, sid, pos + 1, nid, (bp + 1) as nat);
                if let Ok(rhs) = r.res {
                    let node = NodeModel {
                        id: r.nid,
                        kind: crate::ast::NodeKindModel::BinaryOp { op, lhs: Box::new(lhs), rhs: Box::new(rhs) },
                        span: lhs.span.spec_concat(rhs.span),
                    };
                    if !stuck(pos, r.pos, t.len()) {
                        lemma_infix_pos(t, sid, node, r.pos, r.nid + 1, min_bp);
                    }
                }
            }
        }
    }
}

pub proof fn lemma_primary_pos(t: Seq<Token>, sid: usize, pos: nat, nid: nat)
    requires
        pos <= t.len(),
    ensures
        pos <= sp_primary(t, sid, pos, nid).pos <= t.len(),
        sp_primary(t, sid, pos, nid).res is Ok ==> pos < sp_primary(t, sid, pos, nid).pos && closes(
            t,
            sp_primary(t, sid, pos, nid).pos,
        ),
    decreases t.len() - pos, 11nat,
{
    if pos < t.len() {
        match t[pos as int].kind {
            TokenKind::LParen => lemma_paren_pos(t, sid, pos, nid),
            TokenKind::Operator(op) => {
                lemma_expr_pos(t, sid, pos + 1, nid, 0);
            },
            TokenKind::KwCallable => lemma_callable_pos(t, sid, pos, nid),
            _ => {},
        }
    }
}

pub proof fn lemma_paren_pos(t: Seq<Token>, sid: usize, pos: nat, nid: nat)
    requires
        pos <= t.len(),
    ensures
        pos <= sp_paren(t, sid, pos, nid).pos <= t.len(),
        sp_paren(t, sid, pos, nid).res is Ok ==> pos < sp_paren(t, sid, pos, nid).pos && closes(
            t,
            sp_paren(t, sid, pos, nid).pos,
        ),
    decreases t.len() - pos, 10nat,
{
    if let Ok(open) = sp_expect(t, sid, pos, TokenKind::LParen) {
        lemma_paren_items_pos(t, sid, seq![], open, pos + 1, nid);
    }
}

pub proof fn lemma_paren_items_pos(t: Seq<Token>, sid: usize, items: Seq<NodeModel>, open: Span, pos: nat, nid: nat)
    requires
        pos <= t.len(),
    ensures
        pos <= sp_paren_items(t, sid, items, open, pos, nid).pos <= t.len(),
        sp_paren_items(t, sid, items, open, pos, nid).res is Ok ==> pos < sp_paren_items(
            t,
            sid,
            items,
            open,
            pos,
            nid,
        ).pos && closes(t, sp_paren_items(t, sid, items, open, pos, nid).pos),
    decreases t.len() - pos, 13nat,
{
    if pos < t.len() {
        lemma_expr_pos(t, sid, pos, nid, 0);
        let r = sp_expr(t, sid, pos, nid, 0);
        if let Ok(x) = r.res {
            if let Ok(_) = sp_expect(t, sid, r.pos, TokenKind::Comma) {
                let items2 = items.push(x);
                if !(at_kind(t, r.pos + 1, TokenKind::RParen) || r.pos + 1 <= pos) {
                    lemma_paren_items_pos(t, sid, items2, open, r.pos + 1, r.nid);
                }
            }
        }
    }
}

pub proof fn lemma_callable_pos(t: Seq<Token>, sid: usize, pos: nat, nid: nat)
    requires
        pos <= t.len(),
    ensures
        pos <= sp_callable(t, sid, pos, nid).pos <= t.len(),
        sp_callable(t, sid, pos, nid).res is Ok ==> pos < sp_callable(t, sid, pos, nid).pos && closes(
            t,
            sp_callable(t, sid, pos, nid).pos,
        ),
    decreases t.len() - pos, 10nat,
{
    if let Ok(open) = sp_expect(t, sid, pos, TokenKind::KwCallable) {
        if let Ok(_) = sp_expect(t, sid, pos + 1, TokenKind::LParen) {
            lemma_params_pos(t, sid, seq![], pos + 2);
            let ps = sp_params(t, sid, seq![], pos + 2);
            if let Ok(params) = ps.res {
                if let Ok(_) = sp_expect(t, sid, ps.pos, TokenKind::RParen) {
                    let p1 = ps.pos + 1;
                    if at_kind(t, p1, TokenKind::Colon) {
                        lemma_type_pos(t, sid, p1 + 1);
                        let r = sp_type(t, sid, p1 + 1);
                        if let Ok(ty) = r.res {
                            lemma_callable_body_pos(t, sid, open, params, Some(ty), r.pos, nid);
                        }
                    } else {
                        lemma_callable_body_pos(t, sid, open, params, None, p1, nid);
                    }
                }
            }
        }
    }
}

pub proof fn lemma_callable_body_pos(
    t: Seq<Token>,
    sid: usize,
    open: Span,
    params: Seq<ParamModel>,
    ret_ty: Option<TypeModel>,
    pos: nat,
    nid: nat,
)
    requires
        pos <= t.len(),
    ensures
        pos <= sp_callable_body(t, sid, open, params, ret_ty, pos, nid).pos <= t.len(),
        sp_callable_body(t, sid, open, params, ret_ty, pos, nid).res is Ok ==> pos < sp_callable_body(
            t,
            sid,
            open,
            params,
            ret_ty,
            pos,
            nid,
        ).pos && closes(t, sp_callable_body(t, sid, open, params, ret_ty, pos, nid).pos),
    decreases t.len() - pos, 14nat,
{
    if let Ok(_) = sp_expect(t, sid, pos, TokenKind::LCurly) {
        lemma_body_pos(t, sid, seq![], pos + 1, nid);
    }
}

pub proof fn lemma_body_pos(t: Seq<Token>, sid: usize, body: Seq<NodeModel>, pos: nat, nid: nat)
    requires
        pos <= t.len(),
    ensures
        pos <= sp_body(t, sid, body, pos, nid).pos <= t.len(),
    decreases t.len() - pos, 13nat,
{
    if pos < t.len() && t[pos as int].kind != TokenKind::RCurly {
        lemma_expr_pos(t, sid, pos, nid, 0);
        let r = sp_expr(t, sid, pos, nid, 0);
        if let Ok(x) = r.res {
            if !stuck(pos, r.pos, t.len()) {
                lemma_body_pos(t, sid, body.push(x), r.pos, r.nid);
            }
        }
    }
}

pub proof fn lemma_decl_finish_pos(t: Seq<Token>, sid: usize, shape: DeclShape, span: Span, pos: nat, nid: nat)
    requires
        pos <= t.len(),
    ensures
        pos <= sp_decl_finish(t, sid, shape, span, pos, nid).pos <= t.len(),
        sp_decl_finish(t, sid, shape, span, pos, nid).res is Ok ==> {
            &&& pos < sp_decl_finish(t, sid, shape, span, pos, nid).pos
            &&& closes(t, sp_decl_finish(t, sid, shape, span, pos, nid).pos)
            &&& stops(t, sp_decl_finish(t, sid, shape, span, pos, nid).pos)
        },
    decreases t.len() - pos, 13nat,
{
    lemma_expr_pos(t, sid, pos, nid, 0);
}

pub proof fn lemma_decl_pos(t: Seq<Token>, sid: usize, pos: nat, nid: nat)
    requires
        pos <= t.len(),
    ensures
        pos <= sp_decl(t, sid, pos, nid).pos <= t.len(),
        sp_decl(t, sid, pos, nid).res matches Ok(Some(_)) ==> {
            &&& pos < sp_decl(t, sid, pos, nid).pos
            &&& closes(t, sp_decl(t, sid, pos, nid).pos)
            &&& stops(t, sp_decl(t, sid, pos, nid).pos)
        },
    decreases t.len() - pos, 11nat,
{
    if pos < t.len() {
        let tok = t[pos as int];
        let (ck, p0, known) = match tok.kind {
            TokenKind::Identifier(_) => (None, pos, true),
            TokenKind::KwProc => (Some(crate::ast::ConstKind::Proc), pos + 1, true),
            TokenKind::KwFunc => (Some(crate::ast::ConstKind::Func), pos + 1, true),
            _ => (None, pos, false),
        };
        if known {
            if let Ok((name, name_span)) = sp_expect_ident(t, sid, p0) {
                let span = tok.span.spec_concat(name_span);
                let p1 = p0 + 1;
                if ck is Some {
                    if at_kind(t, p1, TokenKind::Colon) {
                        lemma_type_pos(t, sid, p1 + 1);
                        let r = sp_type(t, sid, p1 + 1);
                        if let Ok(ty) = r.res {
                            if let Ok(_) = sp_expect(t, sid, r.pos, TokenKind::CColon) {
                                lemma_decl_finish_pos(t, sid, DeclShape::TypedConst(ck, name, ty), span, r.pos + 1, nid);
                            }
                        }
                    } else {
                        if let Ok(_) = sp_expect(t, sid, p1, TokenKind::CColon) {
                            lemma_decl_finish_pos(t, sid, DeclShape::ShortConst(ck, name), span, p1 + 1, nid);
                        }
                    }
                } else if at_kind(t, p1, TokenKind::Colon) {
                    lemma_type_pos(t, sid, p1 + 1);
                    let r = sp_type(t, sid, p1 + 1);
                    if let Ok(ty) = r.res {
                        if at_kind(t, r.pos, TokenKind::CColon) {
                            lemma_decl_finish_pos(t, sid, DeclShape::ShortConst(None, name), span, r.pos + 1, nid);
                        } else if let Ok(_) = sp_expect(t, sid, r.pos, TokenKind::Assign) {
                            lemma_decl_finish_pos(t, sid, DeclShape::TypedVar(name, ty), span, r.pos + 1, nid);
                        }
                    }
                } else if at_kind(t, p1, TokenKind::CColon) {
                    lemma_decl_finish_pos(t, sid, DeclShape::ShortConst(None, name), span, p1 + 1, nid);
                } else if at_kind(t, p1, TokenKind::Walrus) {
                    lemma_decl_finish_pos(t, sid, DeclShape::ShortVar(name), span, p1 + 1, nid);
                }
            }
        }
    }
}

/// The infix operators after an operand, read with a lower bound `min_bp`,
/// are those read with a higher bound `hi_bp` and then the rest: reading
/// stops for the higher bound first, and goes on from there.
pub proof fn lemma_infix_split(
    t: Seq<Token>,
    sid: usize,
    lhs: NodeModel,
    pos: nat,
    nid: nat,
    min_bp: nat,
    hi_bp: nat,
)
    requires
        closes(t, pos),
        min_bp <= hi_bp,
    ensures
        sp_infix(t, sid, lhs, pos, nid, hi_bp).res matches Ok(mid) ==> sp_infix(t, sid, lhs, pos, nid, min_bp)
            == sp_infix(t, sid, mid, sp_infix(t, sid, lhs, pos, nid, hi_bp).pos, sp_infix(t, sid, lhs, pos, nid, hi_bp).nid, min_bp),
        sp_infix(t, sid, lhs, pos, nid, hi_bp).res is Err ==> sp_infix(t, sid, lhs, pos, nid, min_bp) == sp_infix(
            t,
            sid,
            lhs,
            pos,
            nid,
            hi_bp,
        ),
    decreases t.len() - pos,
{
    if pos < t.len() {
        if let TokenKind::Operator(op) = t[pos as int].kind {
            let bp = spec_binding_power(op);
            if bp >= hi_bp {
                lemma_expr_pos(t, sid, pos + 1, nid, (bp + 1) as nat);
                let r = sp_expr(t, sid, pos + 1, nid, (bp + 1) as nat);
                if let Ok(rhs) = r.res {
                    let node = mk_node(
                        r.nid,
                        NodeKindModel::BinaryOp { op, lhs: Box::new(lhs), rhs: Box::new(rhs) },
                        lhs.span.spec_concat(rhs.span),
                    );
                    lemma_infix_split(t, sid, node, r.pos, r.nid + 1, min_bp, hi_bp);
                }
            }
        }
    }
}

/// The position `q` holds no operator that binds at least as tightly as
/// `min_bp`.
pub open spec fn ends_below(t: Seq<Token>, q: nat, min_bp: nat) -> bool {
    q >= t.len() || match t[q as int].kind {
        TokenKind::Operator(op) => spec_binding_power(op) < min_bp,
        _ => true,
    }
}

/// Infix operators of one binding power group to the left: where the
/// tokens from `p` read as `a op1 b op2 c`, with `op1` and `op2` binding
/// equally and `a`, `b`, `c` the expressions of tighter binding found
/// there, the expression at `p` is `(a op1 b) op2 c`: the inner node
/// joins `a` and `b` and is numbered right after `b`, the outer one joins
/// it with `c` and is numbered right after `c`.
pub proof fn lemma_infix_groups_left(
    t: Seq<Token>,
    sid: usize,
    p: nat,
    nid: nat,
    min_bp: nat,
    op1: Operator,
    op2: Operator,
    a: NodeModel,
    q1: nat,
    n1: nat,
    b: NodeModel,
    q2: nat,
    n2: nat,
    c: NodeModel,
    q3: nat,
    n3: nat,
)
    requires
        p <= t.len(),
        spec_binding_power(op1) == spec_binding_power(op2),
        min_bp <= spec_binding_power(op1),
        sp_expr(t, sid, p, nid, (spec_binding_power(op1) + 1) as nat) == parsed(Ok(a), q1, n1),
        at_kind(t, q1, TokenKind::Operator(op1)),
        sp_expr(t, sid, q1 + 1, n1, (spec_binding_power(op1) + 1) as nat) == parsed(Ok(b), q2, n2),
        at_kind(t, q2, TokenKind::Operator(op2)),
        sp_expr(t, sid, q2 + 1, n2 + 1, (spec_binding_power(op1) + 1) as nat) == parsed(Ok(c), q3, n3),
        ends_below(t, q3, min_bp),
    ensures
        sp_expr(t, sid, p, nid, min_bp) == parsed(
            Ok(
                mk_node(
                    n3,
                    NodeKindModel::BinaryOp {
                        op: op2,
                        lhs: Box::new(
                            mk_node(
                                n2,
                                NodeKindModel::BinaryOp { op: op1, lhs: Box::new(a), rhs: Box::new(b) },
                                a.span.spec_concat(b.span),
                            ),
                        ),
                        rhs: Box::new(c),
                    },
                    a.span.spec_concat(b.span).spec_concat(c.span),
                ),
            ),
            q3,
            n3 + 1,
        ),
{
    let hi = (spec_binding_power(op1) + 1) as nat;
    lemma_decl_pos(t, sid, p, nid);
    lemma_expr_pos(t, sid, p, nid, hi);
    let d = sp_decl(t, sid, p, nid);
    assert(d.res matches Ok(None));
    lemma_primary_pos(t, sid, p, nid);
    let pr = sp_primary(t, sid, p, nid);
    let lhs0 = pr.res->Ok_0;
    lemma_infix_split(t, sid, lhs0, pr.pos, pr.nid, min_bp, hi);
    assert(sp_expr(t, sid, p, nid, min_bp) == sp_infix(t, sid, a, q1, n1, min_bp));
    lemma_expr_pos(t, sid, q1 + 1, n1, hi);
    lemma_expr_pos(t, sid, q2 + 1, n2 + 1, hi);
    let ab = mk_node(
        n2,
        NodeKindModel::BinaryOp { op: op1, lhs: Box::new(a), rhs: Box::new(b) },
        a.span.spec_concat(b.span),
    );
    assert(sp_infix(t, sid, a, q1, n1, min_bp) == sp_infix(t, sid, ab, q2, n2 + 1, min_bp));
    let abc = mk_node(
        n3,
        NodeKindModel::BinaryOp { op: op2, lhs: Box::new(ab), rhs: Box::new(c) },
        ab.span.spec_concat(c.span),
    );
    assert(spec_binding_power(op2) >= min_bp);
    assert(sp_infix(t, sid, ab, q2, n2 + 1, min_bp) == sp_infix(t, sid, abc, q3, n3 + 1, min_bp));
    assert(sp_infix(t, sid, abc, q3, n3 + 1, min_bp) == parsed(Ok(abc), q3, n3 + 1));
}

/// A declaration's value is a whole expression: every declaration ends at
/// the end of the tokens or at a token that is not an operator, so no
/// operator after its value is left over.
pub proof fn lemma_decl_value_takes_operators(t: Seq<Token>, sid: usize, pos: nat, nid: nat)
    requires
        pos <= t.len(),
    ensures
        sp_decl(t, sid, pos, nid).res matches Ok(Some(_)) ==> stops(t, sp_decl(t, sid, pos, nid).pos),
{
    lemma_decl_pos(t, sid, pos, nid);
}

/// `name := e`: where the tokens after `:=` read as the expression `e`
/// (with no lower bound on binding power), the declaration at `pos`
/// declares `name` with value `e`, spans from the name to the end of `e`,
/// ends where `e` ends, and is numbered right after `e`.
pub proof fn lemma_short_var_decl_value(
    t: Seq<Token>,
    sid: usize,
    pos: nat,
    nid: nat,
    name: usize,
    e: NodeModel,
    q: nat,
    n: nat,
)
    requires
        at_kind(t, pos, TokenKind::Identifier(name)),
        at_kind(t, pos + 1, TokenKind::Walrus),
        sp_expr(t, sid, pos + 2, nid, 0) == parsed(Ok(e), q, n),
    ensures
        sp_decl(t, sid, pos, nid) == parsed(
            Ok(Some(mk_node(n, NodeKindModel::ShortVarDecl { name, expr: Box::new(e) }, t[pos as int].span.spec_concat(e.span)))),
            q,
            n + 1,
        ),
{
}

/// `name :: e`: where the tokens after `::` read as the expression `e`
/// (with no lower bound on binding power), the declaration at `pos` is the
/// constant `name` with value `e`, spans from the name to the end of `e`,
/// ends where `e` ends, and is numbered right after `e`.
pub proof fn lemma_short_const_decl_value(
    t: Seq<Token>,
    sid: usize,
    pos: nat,
    nid: nat,
    name: usize,
    e: NodeModel,
    q: nat,
    n: nat,
)
    requires
        at_kind(t, pos, TokenKind::Identifier(name)),
        at_kind(t, pos + 1, TokenKind::CColon),
        sp_expr(t, sid, pos + 2, nid, 0) == parsed(Ok(e), q, n),
    ensures
        sp_decl(t, sid, pos, nid) == parsed(
            Ok(
                Some(
                    mk_node(
                        n,
                        NodeKindModel::ShortConstDecl { name: (None, name), expr: Box::new(e) },
                        t[pos as int].span.spec_concat(e.span),
                    ),
                ),
            ),
            q,
            n + 1,
        ),
{
}

/// A callable's body that reads as one expression `e` (with no lower bound
/// on binding power) up to the closing `}` holds exactly `e`: the callable
/// spans from `open` to the `}`, ends after it, and is numbered right
/// after `e`.
pub proof fn lemma_callable_body_one_expression(
    t: Seq<Token>,
    sid: usize,
    open: Span,
    params: Seq<ParamModel>,
    ret_ty: Option<TypeModel>,
    pos: nat,
    nid: nat,
    e: NodeModel,
    q: nat,
    n: nat,
)
    requires
        at_kind(t, pos, TokenKind::LCurly),
        sp_expr(t, sid, pos + 1, nid, 0) == parsed(Ok(e), q, n),
        at_kind(t, q, TokenKind::RCurly),
    ensures
        sp_callable_body(t, sid, open, params, ret_ty, pos, nid) == parsed(
            Ok(mk_node(n, NodeKindModel::Callable { params, ret_ty, body: seq![e] }, open.spec_concat(t[q as int].span))),
            q + 1,
            n + 1,
        ),
{
    lemma_expr_pos(t, sid, pos + 1, nid, 0);
    assert(sp_body(t, sid, seq![], pos + 1, nid) == sp_body(t, sid, seq![e], q, n)) by {
        assert(seq![].push(e) =~= seq![e]);
    }
}

/// `( x , )`: one expression followed by a comma and `)` makes a tuple of
/// that one item, spanning from the `(` to the `)`, numbered right after
/// the item.
pub proof fn lemma_paren_one_tuple(t: Seq<Token>, sid: usize, pos: nat, nid: nat, x: NodeModel, q: nat, n: nat)
    requires
        at_kind(t, pos, TokenKind::LParen),
        sp_expr(t, sid, pos + 1, nid, 0) == parsed(Ok(x), q, n),
        at_kind(t, q, TokenKind::Comma),
        at_kind(t, q + 1, TokenKind::RParen),
    ensures
        sp_paren(t, sid, pos, nid) == parsed(
            Ok(mk_node(n, NodeKindModel::Tuple(seq![x]), t[pos as int].span.spec_concat(t[q + 1int].span))),
            q + 2,
            n + 1,
        ),
{
    lemma_expr_pos(t, sid, pos + 1, nid, 0);
    assert(seq![].push(x) =~= seq![x]);
}

/// `( T , )`: one type followed by a comma and `)` makes a tuple type of
/// that one type, spanning from the `(` to the `)`.
pub proof fn lemma_type_paren_one_tuple(t: Seq<Token>, sid: usize, pos: nat, ty: TypeModel, q: nat)
    requires
        at_kind(t, pos, TokenKind::LParen),
        sp_type(t, sid, pos + 1) == parsed(Ok(ty), q, 0),
        at_kind(t, q, TokenKind::Comma),
        at_kind(t, q + 1, TokenKind::RParen),
    ensures
        sp_type_paren(t, sid, pos) == parsed(
            Ok(TypeModel { kind: TypeKindModel::Tuple(seq![ty]), span: t[pos as int].span.spec_concat(t[q + 1int].span) }),
            q + 2,
            0,
        ),
{
    lemma_type_pos(t, sid, pos + 1);
    assert(seq![].push(ty) =~= seq![ty]);
}

/// A type that was read ends with a name, `nil` or `)`.
pub proof fn lemma_type_closes(t: Seq<Token>, sid: usize, pos: nat)
    ensures
        sp_type(t, sid, pos).res is Ok ==> closes(t, sp_type(t, sid, pos).pos),
    decreases t.len() - pos, 1nat,
{
    if pos < t.len() && t[pos as int].kind == TokenKind::LParen {
        lemma_type_paren_closes(t, sid, pos);
    }
}

pub proof fn lemma_type_paren_closes(t: Seq<Token>, sid: usize, pos: nat)
    ensures
        sp_type_paren(t, sid, pos).res is Ok ==> closes(t, sp_type_paren(t, sid, pos).pos),
    decreases t.len() - pos, 0nat,
{
    if let Ok(open) = sp_expect(t, sid, pos, TokenKind::LParen) {
        lemma_type_items_tuple(t, sid, seq![], open, pos + 1);
    }
}

/// What a parenthesized type list gives from `pos` on, after `items`: its
/// last token can end a type, and where a comma stands just before the
/// closing `)` it is a tuple type of `items` and then the types read, from
/// `open` to the `)`.
pub proof fn lemma_type_items_tuple(t: Seq<Token>, sid: usize, items: Seq<TypeModel>, open: Span, pos: nat)
    ensures
        sp_type_items(t, sid, items, open, pos).res is Ok ==> closes(t, sp_type_items(t, sid, items, open, pos).pos),
        sp_type_items(t, sid, items, open, pos).res matches Ok(ty) ==> {
            let q = sp_type_items(t, sid, items, open, pos).pos;
            q >= 2 && t[q - 2].kind == TokenKind::Comma ==> {
                &&& ty.kind matches TypeKindModel::Tuple(s) && items.is_prefix_of(s)
                &&& ty.span == open.spec_concat(t[q - 1].span)
            }
        },
    decreases t.len() - pos, 2nat,
{
    if pos < t.len() {
        lemma_type_closes(t, sid, pos);
        lemma_type_pos(t, sid, pos);
        let r = sp_type(t, sid, pos);
        if let Ok(ty) = r.res {
            if let Ok(_) = sp_expect(t, sid, r.pos, TokenKind::Comma) {
                let items2 = items.push(ty);
                assert(items.is_prefix_of(items2)) by {
                    assert(items2.take(items.len() as int) =~= items);
                }
                if !(at_kind(t, r.pos + 1, TokenKind::RParen) || r.pos + 1 <= pos) {
                    lemma_type_items_tuple(t, sid, items2, open, r.pos + 1);
                    let fin = sp_type_items(t, sid, items2, open, r.pos + 1);
                    if let Ok(ty2) = fin.res {
                        if fin.pos >= 2 && t[fin.pos - 2].kind == TokenKind::Comma {
                            if let TypeKindModel::Tuple(s) = ty2.kind {
                                assert(s.take(items.len() as int) =~= items2.take(items.len() as int));
                            }
                        }
                    }
                }
            }
        }
    }
}

/// A parenthesized type whose `)` follows a comma is a tuple type spanning
/// from the `(` to the `)`, whatever the number of types in it.
pub proof fn lemma_type_paren_trailing_comma(t: Seq<Token>, sid: usize, pos: nat)
    ensures
        sp_type_paren(t, sid, pos).res matches Ok(ty) ==> {
            let q = sp_type_paren(t, sid, pos).pos;
            q >= 2 && t[q - 2].kind == TokenKind::Comma ==> {
                &&& ty.kind is Tuple
                &&& ty.span == t[pos as int].span.spec_concat(t[q - 1].span)
            }
        },
{
    if let Ok(open) = sp_expect(t, sid, pos, TokenKind::LParen) {
        lemma_type_items_tuple(t, sid, seq![], open, pos + 1);
    }
}

/// What a parenthesized expression list gives from `pos` on, after
/// `items`: where a comma stands just before the closing `)` it is a tuple
/// of `items` and then the expressions read, from `open` to the `)`.
pub proof fn lemma_paren_items_tuple(t: Seq<Token>, sid: usize, items: Seq<NodeModel>, open: Span, pos: nat, nid: nat)
    requires
        pos <= t.len(),
    ensures
        sp_paren_items(t, sid, items, open, pos, nid).res matches Ok(x) ==> {
            let q = sp_paren_items(t, sid, items, open, pos, nid).pos;
            q >= 2 && t[q - 2].kind == TokenKind::Comma ==> {
                &&& x.kind matches NodeKindModel::Tuple(s) && items.is_prefix_of(s)
                &&& x.span == open.spec_concat(t[q - 1].span)
            }
        },
    decreases t.len() - pos,
{
    if pos < t.len() {
        lemma_expr_pos(t, sid, pos, nid, 0);
        let r = sp_expr(t, sid, pos, nid, 0);
        if let Ok(x) = r.res {
            if let Ok(_) = sp_expect(t, sid, r.pos, TokenKind::Comma) {
                let items2 = items.push(x);
                assert(items.is_prefix_of(items2)) by {
                    assert(items2.take(items.len() as int) =~= items);
                }
                if !(at_kind(t, r.pos + 1, TokenKind::RParen) || r.pos + 1 <= pos) {
                    lemma_paren_items_tuple(t, sid, items2, open, r.pos + 1, r.nid);
                    let fin = sp_paren_items(t, sid, items2, open, r.pos + 1, r.nid);
                    if let Ok(y) = fin.res {
                        if fin.pos >= 2 && t[fin.pos - 2].kind == TokenKind::Comma {
                            if let NodeKindModel::Tuple(s) = y.kind {
                                assert(s.take(items.len() as int) =~= items2.take(items.len() as int));
                            }
                        }
                    }
                }
            }
        }
    }
}

/// A parenthesized expression whose `)` follows a comma is a tuple spanning
/// from the `(` to the `)`, whatever the number of items in it.
pub proof fn lemma_paren_trailing_comma(t: Seq<Token>, sid: usize, pos: nat, nid: nat)
    requires
        pos <= t.len(),
    ensures
        sp_paren(t, sid, pos, nid).res matches Ok(x) ==> {
            let q = sp_paren(t, sid, pos, nid).pos;
            q >= 2 && t[q - 2].kind == TokenKind::Comma ==> {
                &&& x.kind is Tuple
                &&& x.span == t[pos as int].span.spec_concat(t[q - 1].span)
            }
        },
{
    if let Ok(open) = sp_expect(t, sid, pos, TokenKind::LParen) {
        lemma_paren_items_tuple(t, sid, seq![], open, pos + 1, nid);
    }
}

/// An infix operator joins the operand before it with the whole
/// expression of tighter binding after it: where the tokens from `p` read
/// as `a op e`, with `a` and `e` the expressions that bind more tightly
/// than `op` found there and nothing binding at least as tightly as
/// `min_bp` after `e`, the expression at `p` is `a op e`, numbered right
/// after `e`.
pub proof fn lemma_infix_joins(
    t: Seq<Token>,
    sid: usize,
    p: nat,
    nid: nat,
    min_bp: nat,
    op: Operator,
    a: NodeModel,
    q1: nat,
    n1: nat,
    e: NodeModel,
    q2: nat,
    n2: nat,
)
    requires
        p <= t.len(),
        min_bp <= spec_binding_power(op),
        sp_expr(t, sid, p, nid, (spec_binding_power(op) + 1) as nat) == parsed(Ok(a), q1, n1),
        at_kind(t, q1, TokenKind::Operator(op)),
        sp_expr(t, sid, q1 + 1, n1, (spec_binding_power(op) + 1) as nat) == parsed(Ok(e), q2, n2),
        ends_below(t, q2, min_bp),
    ensures
        sp_expr(t, sid, p, nid, min_bp) == parsed(
            Ok(
                mk_node(
                    n2,
                    NodeKindModel::BinaryOp { op, lhs: Box::new(a), rhs: Box::new(e) },
                    a.span.spec_concat(e.span),
                ),
            ),
            q2,
            n2 + 1,
        ),
{
    let hi = (spec_binding_power(op) + 1) as nat;
    lemma_decl_pos(t, sid, p, nid);
    lemma_expr_pos(t, sid, p, nid, hi);
    let d = sp_decl(t, sid, p, nid);
    assert(d.res matches Ok(None));
    lemma_primary_pos(t, sid, p, nid);
    let pr = sp_primary(t, sid, p, nid);
    let lhs0 = pr.res->Ok_0;
    lemma_infix_split(t, sid, lhs0, pr.pos, pr.nid, min_bp, hi);
    assert(sp_expr(t, sid, p, nid, min_bp) == sp_infix(t, sid, a, q1, n1, min_bp));
    lemma_expr_pos(t, sid, q1 + 1, n1, hi);
    let ae = mk_node(n2, NodeKindModel::BinaryOp { op, lhs: Box::new(a), rhs: Box::new(e) }, a.span.spec_concat(e.span));
    assert(sp_infix(t, sid, a, q1, n1, min_bp) == sp_infix(t, sid, ae, q2, n2 + 1, min_bp));
}

/// A prefix operator applies to the whole expression after it (read with
/// no lower bound on binding power): where the tokens after `op` read as
/// `e`, the expression at `pos` is `op e`, spanning from the operator to
/// the end of `e`, numbered right after `e`, whatever the bound `min_bp`.
pub proof fn lemma_prefix_takes_whole(
    t: Seq<Token>,
    sid: usize,
    pos: nat,
    nid: nat,
    min_bp: nat,
    op: Operator,
    e: NodeModel,
    q: nat,
    n: nat,
)
    requires
        at_kind(t, pos, TokenKind::Operator(op)),
        spec_can_prefix(op),
        sp_expr(t, sid, pos + 1, nid, 0) == parsed(Ok(e), q, n),
    ensures
        sp_expr(t, sid, pos, nid, min_bp) == parsed(
            Ok(mk_node(n, NodeKindModel::UnaryOp { op, operand: Box::new(e) }, t[pos as int].span.spec_concat(e.span))),
            q,
            n + 1,
        ),
{
    lemma_expr_pos(t, sid, pos + 1, nid, 0);
}

/// A token list that reads as one expression `e` (with no lower bound on
/// binding power) up to its end parses to exactly `[e]`.
pub proof fn lemma_all_one_expression(t: Seq<Token>, sid: usize, pos: nat, nid: nat, e: NodeModel, n: nat)
    requires
        pos < t.len(),
        sp_expr(t, sid, pos, nid, 0) == parsed(Ok(e), t.len(), n),
    ensures
        sp_all(t, sid, seq![], pos, nid) == parsed(Ok(seq![e]), t.len(), n),
{
    assert(seq![].push(e) =~= seq![e]);
    assert(sp_all(t, sid, seq![], pos, nid) == sp_all(t, sid, seq![e], t.len(), n));
    assert(sp_all(t, sid, seq![e], t.len(), n) == parsed(Ok(seq![e]), t.len(), n));
}

/// `( e )`: an expression in parentheses with no comma stands for itself,
/// with its own span and numbering; the parentheses only group.
pub proof fn lemma_paren_groups(t: Seq<Token>, sid: usize, pos: nat, nid: nat, e: NodeModel, q: nat, n: nat)
    requires
        at_kind(t, pos, TokenKind::LParen),
        sp_expr(t, sid, pos + 1, nid, 0) == parsed(Ok(e), q, n),
        at_kind(t, q, TokenKind::RParen),
    ensures
        sp_paren(t, sid, pos, nid) == parsed(Ok(e), q + 1, n),
{
}

} // verus!
