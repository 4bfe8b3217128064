//! The operator catalog: every operator's arity, precedence rank and infix
//! symbol.

use vstd::prelude::*;
use vstd::string::*;

verus! {

/// The operator tag of an expression node.
///
/// `Null` marks a node whose operator has not been decided yet; `Const` marks
/// a leaf that holds its value as a literal.
#[derive(PartialEq, Eq, Structural, Clone, Copy, Debug)]
pub enum MathOp {
    Null,
    Const,
    Add,
    Sub,
    Mul,
    Div,
    Pow2,
    Sqrt,
    Sin,
    Cos,
}

/// What went wrong when a tree did not have the structure a phase relies on.
#[derive(PartialEq, Eq, Structural, Clone, Copy, Debug)]
pub enum StructuralError {
    /// A node that already holds a constant was handed to decomposition.
    AlreadyResolved,
    /// A node without an operator was handed to the formatter.
    Unresolved,
    /// An infix symbol was asked of an operator that has none.
    NoSymbol,
}

impl MathOp {
    /// Number of child slots of a node with this operator.
    pub open spec fn arity_spec(self) -> nat {
        match self {
            MathOp::Null | MathOp::Const => 0,
            MathOp::Pow2 | MathOp::Sqrt | MathOp::Sin | MathOp::Cos => 1,
            MathOp::Add | MathOp::Sub | MathOp::Mul | MathOp::Div => 2,
        }
    }

    /// Precedence rank used by the formatter; a larger rank binds looser.
    /// `Null` has no rank; the value given for it is never consulted.
    pub open spec fn rank(self) -> int {
        match self {
            MathOp::Null | MathOp::Const => 0,
            MathOp::Pow2 | MathOp::Sqrt | MathOp::Sin | MathOp::Cos => 1,
            MathOp::Div => 2,
            MathOp::Mul => 3,
            MathOp::Add | MathOp::Sub => 4,
        }
    }

    /// The infix symbol of the operators that are written between their
    /// operands.
    pub open spec fn symbol_spec(self) -> Option<Seq<char>> {
        match self {
            MathOp::Add => Some("+"@),
            MathOp::Sub => Some("-"@),
            MathOp::Mul => Some("\\times"@),
            _ => None,
        }
    }

    /// Operators that a caller can enable: the ones a toggle exists for.
    pub open spec fn selectable(self) -> bool {
        match self {
            MathOp::Null | MathOp::Const | MathOp::Pow2 => false,
            _ => true,
        }
    }

    /// Number of child slots of a node with this operator.
    pub fn arity(&self) -> (n: usize)
        ensures
            n == self.arity_spec(),
    {
        match self {
            MathOp::Null | MathOp::Const => 0,
            MathOp::Pow2 | MathOp::Sqrt | MathOp::Sin | MathOp::Cos => 1,
            MathOp::Add | MathOp::Sub | MathOp::Mul | MathOp::Div => 2,
        }
    }

    /// Precedence rank of an operator: 0 for a constant, 1 for a square, a
    /// root, a sine and a cosine, 2 for a division, 3 for a product, 4 for a
    /// sum and a difference. A node without an operator has none.
    pub fn precedence(&self) -> (r: i32)
        requires
            *self != MathOp::Null,
        ensures
            r == self.rank(),
    {
        match self {
            MathOp::Null | MathOp::Const => 0,
            MathOp::Pow2 | MathOp::Sqrt | MathOp::Sin | MathOp::Cos => 1,
            MathOp::Div => 2,
            MathOp::Mul => 3,
            MathOp::Add | MathOp::Sub => 4,
        }
    }

    /// The infix symbol of a sum, a difference and a product; an error for
    /// every other operator.
    pub fn symbol(&self) -> (r: Result<String, StructuralError>)
        ensures
            match self.symbol_spec() {
                Some(text) => r is Ok && r->Ok_0@ == text,
                None => r == Err::<String, StructuralError>(StructuralError::NoSymbol),
            },
    {
        match self {
            MathOp::Add => Ok(String::from_str("+")),
            MathOp::Sub => Ok(String::from_str("-")),
            MathOp::Mul => Ok(String::from_str("\\times")),
            _ => Err(StructuralError::NoSymbol),
        }
    }

    /// Whether a caller can enable the operator.
    pub fn is_selectable(&self) -> (b: bool)
        ensures
            b == self.selectable(),
    {
        match self {
            MathOp::Null | MathOp::Const | MathOp::Pow2 => false,
            _ => true,
        }
    }
}

impl StructuralError {
    /// A sentence for a reader who cannot branch on the variant.
    pub fn message(&self) -> (s: String)
        ensures
            s@ == match *self {
                StructuralError::AlreadyResolved =>
                    "Constant nodes with values should not be evaluated"@,
                StructuralError::Unresolved => "Cannot format empty constant"@,
                StructuralError::NoSymbol => "The operator has no associated symbol"@,
            },
    {
        match self {
            StructuralError::AlreadyResolved => String::from_str(
                "Constant nodes with values should not be evaluated",
            ),
            StructuralError::Unresolved => String::from_str("Cannot format empty constant"),
            StructuralError::NoSymbol => String::from_str("The operator has no associated symbol"),
        }
    }
}

} // verus!
