use vstd::prelude::*;
use crate::operator::Operator;
use crate::span::Span;

verus! {

/// The identity of a node: the parser numbers nodes in the order it builds them.
#[derive(Clone, Copy, Debug, PartialEq, Eq, Hash, Structural)]
pub struct NodeId(pub usize);

/// Which kind of constant a declaration introduces.
#[derive(Clone, Copy, Debug, PartialEq, Eq, Structural)]
pub enum ConstKind {
    Proc,
    Func,
}

/// A type as written in the source.
#[derive(Debug, PartialEq)]
pub struct ParsedType {
    pub kind: ParsedTypeKind,
    pub span: Span,
}

#[derive(Debug, PartialEq)]
pub enum ParsedTypeKind {
    Identifier(usize),
    Nil,
    Tuple(Vec<ParsedType>),
}

/// A parameter of a callable: `name: type`.
#[derive(Debug, PartialEq)]
pub struct Param {
    pub name: usize,
    pub ty: ParsedType,
    pub span: Span,
}

/// A node of the syntax tree.
#[derive(Debug, PartialEq)]
pub struct Node {
    pub id: NodeId,
    pub kind: NodeKind,
    pub span: Span,
}

/// What a node is. A string literal carries its text; a float literal
/// carries no value: its text is the source text that the node's span
/// covers.
#[derive(Debug, PartialEq)]
pub enum NodeKind {
    IntLit(i64),
    FloatLit,
    StringLit(String),
    Identifier(usize),
    Unit,
    BinaryOp { op: Operator, lhs: Box<Node>, rhs: Box<Node> },
    UnaryOp { op: Operator, operand: Box<Node> },
    Tuple(Vec<Node>),
    Proc(usize),
    Func(usize),
    Callable { params: Vec<Param>, ret_ty: Option<ParsedType>, body: Vec<Node> },
    Nil,
    TypedConstDecl { name: (Option<ConstKind>, usize), ty: ParsedType, expr: Box<Node> },
    ShortConstDecl { name: (Option<ConstKind>, usize), expr: Box<Node> },
    TypedVarDecl { name: usize, ty: ParsedType, expr: Box<Node> },
    ShortVarDecl { name: usize, expr: Box<Node> },
}

/// The nodes that a source file parses to, in order.
#[derive(Debug, PartialEq)]
pub struct Ast(pub Vec<Node>);

/// The mathematical value of a `ParsedType`.
pub struct TypeModel {
    pub kind: TypeKindModel,
    pub span: Span,
}

pub enum TypeKindModel {
    Identifier(usize),
    Nil,
    Tuple(Seq<TypeModel>),
}

/// The mathematical value of a `Param`.
pub struct ParamModel {
    pub name: usize,
    pub ty: TypeModel,
    pub span: Span,
}

/// The mathematical value of a `Node`.
pub struct NodeModel {
    pub id: nat,
    pub kind: NodeKindModel,
    pub span: Span,
}

pub enum NodeKindModel {
    IntLit(i64),
    FloatLit,
    StringLit(Seq<char>),
    Identifier(usize),
    Unit,
    BinaryOp { op: Operator, lhs: Box<NodeModel>, rhs: Box<NodeModel> },
    UnaryOp { op: Operator, operand: Box<NodeModel> },
    Tuple(Seq<NodeModel>),
    Proc(usize),
    Func(usize),
    Callable { params: Seq<ParamModel>, ret_ty: Option<TypeModel>, body: Seq<NodeModel> },
    Nil,
    TypedConstDecl { name: (Option<ConstKind>, usize), ty: TypeModel, expr: Box<NodeModel> },
    ShortConstDecl { name: (Option<ConstKind>, usize), expr: Box<NodeModel> },
    TypedVarDecl { name: usize, ty: TypeModel, expr: Box<NodeModel> },
    ShortVarDecl { name: usize, expr: Box<NodeModel> },
}

pub open spec fn type_model(t: ParsedType) -> TypeModel
    decreases t,
{
    TypeModel {
        kind: match t.kind {
            ParsedTypeKind::Identifier(i) => TypeKindModel::Identifier(i),
            ParsedTypeKind::Nil => TypeKindModel::Nil,
            ParsedTypeKind::Tuple(items) => TypeKindModel::Tuple(types_model(items@)),
        },
        span: t.span,
    }
}

pub open spec fn types_model(ts: Seq<ParsedType>) -> Seq<TypeModel>
    decreases ts,
{
    if ts.len() == 0 {
        seq![]
    } else {
        types_model(ts.drop_last()).push(type_model(ts.last()))
    }
}

pub open spec fn param_model(p: Param) -> ParamModel
    decreases p,
{
    ParamModel { name: p.name, ty: type_model(p.ty), span: p.span }
}

pub open spec fn params_model(ps: Seq<Param>) -> Seq<ParamModel>
    decreases ps,
{
    if ps.len() == 0 {
        seq![]
    } else {
        params_model(ps.drop_last()).push(param_model(ps.last()))
    }
}

pub open spec fn opt_type_model(t: Option<ParsedType>) -> Option<TypeModel>
    decreases t,
{
    match t {
        Some(ty) => Some(type_model(ty)),
        None => None,
    }
}

pub open spec fn node_model(n: Node) -> NodeModel
    decreases n,
{
    NodeModel {
        id: n.id.0 as nat,
        kind: match n.kind {
            NodeKind::IntLit(i) => NodeKindModel::IntLit(i),
            NodeKind::FloatLit => NodeKindModel::FloatLit,
            NodeKind::StringLit(s) => NodeKindModel::StringLit(s@),
            NodeKind::Identifier(i) => NodeKindModel::Identifier(i),
            NodeKind::Unit => NodeKindModel::Unit,
            NodeKind::BinaryOp { op, lhs, rhs } => NodeKindModel::BinaryOp {
                op,
                lhs: Box::new(node_model(*lhs)),
                rhs: Box::new(node_model(*rhs)),
            },
            NodeKind::UnaryOp { op, operand } => NodeKindModel::UnaryOp {
                op,
                operand: Box::new(node_model(*operand)),
            },
            NodeKind::Tuple(items) => NodeKindModel::Tuple(nodes_model(items@)),
            NodeKind::Proc(i) => NodeKindModel::Proc(i),
            NodeKind::Func(i) => NodeKindModel::Func(i),
            NodeKind::Callable { params, ret_ty, body } => NodeKindModel::Callable {
                params: params_model(params@),
                ret_ty: opt_type_model(ret_ty),
                body: nodes_model(body@),
            },
            NodeKind::Nil => NodeKindModel::Nil,
            NodeKind::TypedConstDecl { name, ty, expr } => NodeKindModel::TypedConstDecl {
                name,
                ty: type_model(ty),
                expr: Box::new(node_model(*expr)),
            },
            NodeKind::ShortConstDecl { name, expr } => NodeKindModel::ShortConstDecl {
                name,
                expr: Box::new(node_model(*expr)),
            },
            NodeKind::TypedVarDecl { name, ty, expr } => NodeKindModel::TypedVarDecl {
                name,
                ty: type_model(ty),
                expr: Box::new(node_model(*expr)),
            },
            NodeKind::ShortVarDecl { name, expr } => NodeKindModel::ShortVarDecl {
                name,
                expr: Box::new(node_model(*expr)),
            },
        },
        span: n.span,
    }
}

pub open spec fn nodes_model(ns: Seq<Node>) -> Seq<NodeModel>
    decreases ns,
{
    if ns.len() == 0 {
        seq![]
    } else {
        nodes_model(ns.drop_last()).push(node_model(ns.last()))
    }
}

/// The ids of a tree in post-order: children before their parent.
pub open spec fn post_ids(n: NodeModel) -> Seq<nat>
    decreases n,
{
    let children = match n.kind {
        NodeKindModel::BinaryOp { lhs, rhs, .. } => post_ids(*lhs) + post_ids(*rhs),
        NodeKindModel::UnaryOp { operand, .. } => post_ids(*operand),
        NodeKindModel::Tuple(items) => post_ids_seq(items),
        NodeKindModel::Callable { body, .. } => post_ids_seq(body),
        NodeKindModel::TypedConstDecl { expr, .. } => post_ids(*expr),
        NodeKindModel::ShortConstDecl { expr, .. } => post_ids(*expr),
        NodeKindModel::TypedVarDecl { expr, .. } => post_ids(*expr),
        NodeKindModel::ShortVarDecl { expr, .. } => post_ids(*expr),
        _ => seq![],
    };
    children.push(n.id)
}

/// The ids of a sequence of trees, tree after tree, each in post-order.
pub open spec fn post_ids_seq(ns: Seq<NodeModel>) -> Seq<nat>
    decreases ns,
{
    if ns.len() == 0 {
        seq![]
    } else {
        post_ids_seq(ns.drop_last()) + post_ids(ns.last())
    }
}

/// `s` rises strictly and lies in `lo..hi`.
pub open spec fn rising_within(s: Seq<nat>, lo: nat, hi: nat) -> bool {
    &&& forall|i: int, j: int| 0 <= i < j < s.len() ==> #[trigger] s[i] < #[trigger] s[j]
    &&& forall|i: int| 0 <= i < s.len() ==> lo <= #[trigger] s[i] < hi
}

pub proof fn lemma_rising_concat(a: Seq<nat>, b: Seq<nat>, lo: nat, mid: nat, hi: nat)
    requires
        rising_within(a, lo, mid),
        rising_within(b, mid, hi),
        lo <= mid <= hi,
    ensures
        rising_within(a + b, lo, hi),
{
    let c = a + b;
    assert forall|i: int, j: int| 0 <= i < j < c.len() implies #[trigger] c[i] < #[trigger] c[j] by {
        if j < a.len() {
            assert(c[i] == a[i] && c[j] == a[j]);
        } else if i >= a.len() {
            assert(c[i] == b[i - a.len()] && c[j] == b[j - a.len()]);
        } else {
            assert(c[i] == a[i] && c[j] == b[j - a.len()]);
        }
    }
    assert forall|i: int| 0 <= i < c.len() implies lo <= #[trigger] c[i] < hi by {
        if i < a.len() {
            assert(c[i] == a[i]);
        } else {
            assert(c[i] == b[i - a.len()]);
        }
    }
}

pub proof fn lemma_rising_push(a: Seq<nat>, lo: nat, id: nat)
    requires
        rising_within(a, lo, id),
        lo <= id,
    ensures
        rising_within(a.push(id), lo, id + 1),
{
    let b: Seq<nat> = seq![id];
    assert(rising_within(b, id, id + 1));
    lemma_rising_concat(a, b, lo, id, id + 1);
    assert(a + b =~= a.push(id));
}

/// Rising sequences hold no value twice.
pub proof fn lemma_rising_distinct(s: Seq<nat>, lo: nat, hi: nat)
    requires
        rising_within(s, lo, hi),
    ensures
        s.no_duplicates(),
{
    assert forall|i: int, j: int| 0 <= i < s.len() && 0 <= j < s.len() && i != j implies s[i] != s[j] by {
        if i < j {
            assert(s[i] < s[j]);
        } else {
            assert(s[j] < s[i]);
        }
    }
}

pub proof fn lemma_types_model_push(v: Seq<ParsedType>, x: ParsedType)
    ensures
        types_model(v.push(x)) == types_model(v).push(type_model(x)),
{
    assert(v.push(x).drop_last() =~= v);
}

pub proof fn lemma_params_model_push(v: Seq<Param>, x: Param)
    ensures
        params_model(v.push(x)) == params_model(v).push(param_model(x)),
{
    assert(v.push(x).drop_last() =~= v);
}

pub proof fn lemma_nodes_model_push(v: Seq<Node>, x: Node)
    ensures
        nodes_model(v.push(x)) == nodes_model(v).push(node_model(x)),
{
    assert(v.push(x).drop_last() =~= v);
}

pub proof fn lemma_post_ids_seq_push(v: Seq<NodeModel>, x: NodeModel)
    ensures
        post_ids_seq(v.push(x)) == post_ids_seq(v) + post_ids(x),
{
    assert(v.push(x).drop_last() =~= v);
}

} // verus!
