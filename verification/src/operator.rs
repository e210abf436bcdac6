use vstd::prelude::*;

verus! {

/// The arithmetic operators of the language.
#[derive(Clone, Copy, Debug, PartialEq, Eq, Structural)]
pub enum Operator {
    Plus,
    Minus,
    Star,
    Slash,
    Modulo,
}

/// The text by which an operator is written.
pub open spec fn operator_text(op: Operator) -> Seq<char> {
    match op {
        Operator::Plus => "+"@,
        Operator::Minus => "-"@,
        Operator::Star => "*"@,
        Operator::Slash => "/"@,
        Operator::Modulo => "%"@,
    }
}

/// How tightly an infix operator binds: the multiplicative operators bind
/// tighter than the additive ones.
pub open spec fn spec_binding_power(op: Operator) -> usize {
    match op {
        Operator::Plus | Operator::Minus => 1,
        Operator::Star | Operator::Slash | Operator::Modulo => 2,
    }
}

/// Whether an operator may stand before an operand (`-x`, `+x`).
pub open spec fn spec_can_prefix(op: Operator) -> bool {
    op == Operator::Plus || op == Operator::Minus
}

impl Operator {
    /// The text by which the operator is written (`+`, `-`, `*`, `/`, `%`).
    pub fn as_str(&self) -> (s: &'static str)
        ensures
            s@ == operator_text(*self),
    {
        match self {
            Operator::Plus => "+",
            Operator::Minus => "-",
            Operator::Star => "*",
            Operator::Slash => "/",
            Operator::Modulo => "%",
        }
    }

    /// Every operator may stand between two operands.
    pub fn can_infix(&self) -> (b: bool)
        ensures
            b,
    {
        true
    }

    /// Whether the operator may stand before an operand.
    pub fn can_prefix(&self) -> (b: bool)
        ensures
            b == spec_can_prefix(*self),
    {
        match self {
            Operator::Plus | Operator::Minus => true,
            _ => false,
        }
    }

    /// How tightly the operator binds as an infix operator.
    pub fn binding_power(&self) -> (bp: usize)
        ensures
            bp == spec_binding_power(*self),
    {
        match self {
            Operator::Plus | Operator::Minus => 1,
            Operator::Star | Operator::Slash | Operator::Modulo => 2,
        }
    }
}

} // verus!
