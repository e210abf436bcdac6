use ivo::ast::{Ast, ConstKind, Node, NodeId, NodeKind, ParsedTypeKind};
use ivo::lexer::tokenize;
use ivo::operator::Operator;
use ivo::parser::{Context, Expected, ParseError, Parser};
use ivo::span::Span;
use ivo::token::{Token, TokenKind};
use lasso::Rodeo;

fn parse_source(src: &str) -> (Result<Ast, ParseError>, Rodeo) {
    let mut rodeo = Rodeo::new();
    let toks = tokenize(0, src, &mut rodeo).unwrap();
    let res = {
        let ctx = Context { rodeo: &rodeo, source_id: 0 };
        let mut parser = Parser::new(&ctx, &toks);
        parser.parse()
    };
    (res, rodeo)
}

fn sp(start: usize, end: usize) -> Span {
    Span { start, end, source_id: 0 }
}

fn ids(node: &Node, out: &mut Vec<usize>) {
    match &node.kind {
        NodeKind::BinaryOp { lhs, rhs, .. } => {
            ids(lhs, out);
            ids(rhs, out);
        },
        NodeKind::UnaryOp { operand, .. } => ids(operand, out),
        NodeKind::Tuple(items) => items.iter().for_each(|n| ids(n, out)),
        NodeKind::Callable { body, .. } => body.iter().for_each(|n| ids(n, out)),
        NodeKind::TypedConstDecl { expr, .. }
        | NodeKind::ShortConstDecl { expr, .. }
        | NodeKind::TypedVarDecl { expr, .. }
        | NodeKind::ShortVarDecl { expr, .. } => ids(expr, out),
        _ => {},
    }
    out.push(node.id.0);
}

#[test]
fn multiplication_binds_tighter_than_addition() {
    let (res, _) = parse_source("1 + 2 * 3");
    let ast = res.unwrap();
    assert_eq!(ast.0.len(), 1);
    let top = &ast.0[0];
    assert_eq!(top.id, NodeId(4));
    assert_eq!(top.span, sp(0, 9));
    match &top.kind {
        NodeKind::BinaryOp { op: Operator::Plus, lhs, rhs } => {
            assert_eq!(lhs.kind, NodeKind::IntLit(1));
            assert_eq!(lhs.id, NodeId(0));
            match &rhs.kind {
                NodeKind::BinaryOp { op: Operator::Star, lhs, rhs: r } => {
                    assert_eq!(lhs.kind, NodeKind::IntLit(2));
                    assert_eq!(r.kind, NodeKind::IntLit(3));
                },
                other => panic!("unexpected {:?}", other),
            }
            assert_eq!(rhs.id, NodeId(3));
            assert_eq!(rhs.span, sp(4, 9));
        },
        other => panic!("unexpected {:?}", other),
    }
}

#[test]
fn subtraction_groups_to_the_left() {
    let (res, _) = parse_source("a - b - c");
    let ast = res.unwrap();
    match &ast.0[0].kind {
        NodeKind::BinaryOp { op: Operator::Minus, lhs, rhs } => {
            assert!(matches!(lhs.kind, NodeKind::BinaryOp { op: Operator::Minus, .. }));
            assert_eq!(rhs.kind, NodeKind::Identifier(2));
        },
        other => panic!("unexpected {:?}", other),
    }
}

#[test]
fn prefix_minus_takes_whole_expression() {
    let (res, _) = parse_source("-a + b");
    let ast = res.unwrap();
    match &ast.0[0].kind {
        NodeKind::UnaryOp { op: Operator::Minus, operand } => {
            assert!(matches!(operand.kind, NodeKind::BinaryOp { op: Operator::Plus, .. }));
        },
        other => panic!("unexpected {:?}", other),
    }
    assert_eq!(ast.0[0].span, sp(0, 6));
}

#[test]
fn declarations() {
    let (res, _) = parse_source("x := 5 proc f :: 1 func g : T :: 2 y : T = 3 z : T :: 4 w :: 6");
    let ast = res.unwrap();
    assert_eq!(ast.0.len(), 6);
    match &ast.0[0].kind {
        NodeKind::ShortVarDecl { name: 0, expr } => assert_eq!(expr.kind, NodeKind::IntLit(5)),
        other => panic!("unexpected {:?}", other),
    }
    assert_eq!(ast.0[0].span, sp(0, 6));
    assert!(matches!(&ast.0[1].kind, NodeKind::ShortConstDecl { name: (Some(ConstKind::Proc), 1), .. }));
    match &ast.0[2].kind {
        NodeKind::TypedConstDecl { name: (Some(ConstKind::Func), 2), ty, expr } => {
            assert_eq!(ty.kind, ParsedTypeKind::Identifier(3));
            assert_eq!(expr.kind, NodeKind::IntLit(2));
        },
        other => panic!("unexpected {:?}", other),
    }
    assert!(matches!(&ast.0[3].kind, NodeKind::TypedVarDecl { name: 4, .. }));
    assert!(matches!(&ast.0[4].kind, NodeKind::ShortConstDecl { name: (None, 5), .. }));
    assert!(matches!(&ast.0[5].kind, NodeKind::ShortConstDecl { name: (None, 6), .. }));
}

#[test]
fn parentheses_and_tuples() {
    let (res, _) = parse_source("(a) (a, b,) (a, b)");
    let ast = res.unwrap();
    assert_eq!(ast.0.len(), 3);
    assert_eq!(ast.0[0].kind, NodeKind::Identifier(0));
    match &ast.0[1].kind {
        NodeKind::Tuple(items) => {
            assert_eq!(items.len(), 2);
            assert_eq!(items[1].kind, NodeKind::Identifier(1));
        },
        other => panic!("unexpected {:?}", other),
    }
    assert_eq!(ast.0[1].span, sp(4, 11));
    // Without a trailing comma the last item stands for the whole group.
    assert_eq!(ast.0[2].kind, NodeKind::Identifier(1));
}

#[test]
fn callable_with_params_type_and_body() {
    let (res, _) = parse_source("callable(x: T, y: (T, U,)): nil { x y }");
    let ast = res.unwrap();
    match &ast.0[0].kind {
        NodeKind::Callable { params, ret_ty, body } => {
            assert_eq!(params.len(), 2);
            assert_eq!(params[0].name, 0);
            assert_eq!(params[0].ty.kind, ParsedTypeKind::Identifier(1));
            assert!(matches!(&params[1].ty.kind, ParsedTypeKind::Tuple(items) if items.len() == 2));
            assert_eq!(ret_ty.as_ref().unwrap().kind, ParsedTypeKind::Nil);
            assert_eq!(body.len(), 2);
        },
        other => panic!("unexpected {:?}", other),
    }
}

#[test]
fn literals_and_nil() {
    let (res, _) = parse_source("7 2.5 nil");
    let ast = res.unwrap();
    let kinds: Vec<&NodeKind> = ast.0.iter().map(|n| &n.kind).collect();
    assert_eq!(kinds, vec![&NodeKind::IntLit(7), &NodeKind::FloatLit, &NodeKind::Nil]);
}

#[test]
fn node_ids_are_distinct() {
    let (res, _) = parse_source("x := (1 + 2, 3 * 4,) callable(a: T) { a - 1 } -b");
    let ast = res.unwrap();
    let mut all = vec![];
    for n in &ast.0 {
        ids(n, &mut all);
    }
    for w in all.windows(2) {
        assert!(w[0] < w[1]);
    }
}

#[test]
fn empty_input_parses_to_nothing() {
    let (res, _) = parse_source("");
    assert_eq!(res, Ok(Ast(vec![])));
}

#[test]
fn unclosed_paren_reports_end_of_input() {
    let (res, _) = parse_source("(");
    assert_eq!(res, Err(ParseError::EndOfInput { span: sp(1, 2), expected: Expected::Token(TokenKind::RParen) }));
}

#[test]
fn missing_operand_reports_end_of_input() {
    let (res, _) = parse_source("1 +");
    assert_eq!(res, Err(ParseError::EndOfInput { span: sp(3, 4), expected: Expected::Expression }));
}

#[test]
fn stray_token_is_unexpected() {
    let (res, _) = parse_source(")");
    assert_eq!(
        res,
        Err(ParseError::Unexpected {
            found: Token { kind: TokenKind::RParen, span: sp(0, 1) },
            expected: Expected::Expression,
        })
    );
}

#[test]
fn proc_needs_a_name() {
    let (res, _) = parse_source("proc 1");
    assert_eq!(
        res,
        Err(ParseError::Unexpected {
            found: Token { kind: TokenKind::IntLit(1), span: sp(5, 6) },
            expected: Expected::Identifier,
        })
    );
}

#[test]
fn proc_declaration_needs_double_colon() {
    let (res, _) = parse_source("proc f");
    assert_eq!(res, Err(ParseError::EndOfInput { span: sp(6, 7), expected: Expected::Token(TokenKind::CColon) }));
}

#[test]
fn bad_type_is_reported() {
    let (res, _) = parse_source("x : 1 = 2");
    assert_eq!(
        res,
        Err(ParseError::Unexpected { found: Token { kind: TokenKind::IntLit(1), span: sp(4, 5) }, expected: Expected::Type })
    );
}

#[test]
fn string_literal_token_keeps_its_text() {
    let rodeo = Rodeo::new();
    let toks = vec![
        Token { kind: TokenKind::StringLit("hi there"), span: sp(0, 10) },
        Token { kind: TokenKind::Operator(Operator::Plus), span: sp(11, 12) },
        Token { kind: TokenKind::IntLit(1), span: sp(13, 14) },
    ];
    let ctx = Context { rodeo: &rodeo, source_id: 0 };
    let mut parser = Parser::new(&ctx, &toks);
    let ast = parser.parse().unwrap();
    match &ast.0[0].kind {
        NodeKind::BinaryOp { op: Operator::Plus, lhs, rhs } => {
            assert_eq!(lhs.kind, NodeKind::StringLit("hi there".to_string()));
            assert_eq!(lhs.span, sp(0, 10));
            assert_eq!(rhs.kind, NodeKind::IntLit(1));
        },
        other => panic!("unexpected {:?}", other),
    }
}
