//! What a finished tree evaluates to, and that it is the value at its root.

use vstd::prelude::*;
use crate::catalog::MathOp;
use crate::node::MathNode;
use crate::numeric::lemma_square_between;

verus! {

/// The non-negative root of a perfect square.
pub open spec fn root_of(n: int) -> int {
    choose|r: int| r >= 0 && #[trigger] (r * r) == n
}

impl MathNode {
    /// The integer that the expression below the node stands for: constants
    /// are taken from the leaves and combined by the operators on the way
    /// up, in exact integer arithmetic. The values that the inner nodes hold
    /// play no part. Sine and cosine have no integer meaning and are given
    /// 0, as is a node without an operator.
    pub open spec fn eval(self) -> int
        decreases self,
    {
        let kids = self.children@;
        match self.op {
            MathOp::Const => self.value as int,
            MathOp::Add => if kids.len() == 2 {
                kids[0].eval() + kids[1].eval()
            } else {
                0
            },
            MathOp::Sub => if kids.len() == 2 {
                kids[0].eval() - kids[1].eval()
            } else {
                0
            },
            MathOp::Mul => if kids.len() == 2 {
                kids[0].eval() * kids[1].eval()
            } else {
                0
            },
            MathOp::Div => if kids.len() == 2 && kids[1].eval() != 0 {
                kids[0].eval() / kids[1].eval()
            } else {
                0
            },
            MathOp::Sqrt => if kids.len() == 1 {
                root_of(kids[0].eval())
            } else {
                0
            },
            MathOp::Pow2 => if kids.len() == 1 {
                kids[0].eval() * kids[0].eval()
            } else {
                0
            },
            _ => 0,
        }
    }
}

/// Value consistency of a whole tree: a resolved tree whose arithmetic holds
/// at every node, and that holds no sine or cosine, evaluates to the value
/// at its root, and every division in it leaves no remainder.
pub proof fn lemma_tree_evaluates(tree: MathNode)
    requires
        tree.well_formed(),
        tree.resolved(),
        tree.consistent(),
        !tree.uses(MathOp::Sin),
        !tree.uses(MathOp::Cos),
    ensures
        tree.eval() == tree.value,
        tree.op == MathOp::Div ==> tree.children@[0].eval() % tree.children@[1].eval() == 0,
    decreases tree,
{
    let kids = tree.children@;
    assert forall|i: int| 0 <= i < kids.len() implies (#[trigger] kids[i]).eval()
        == kids[i].value by {
        assert(kids[i].well_formed() && kids[i].resolved() && kids[i].consistent());
        if kids[i].uses(MathOp::Sin) || kids[i].uses(MathOp::Cos) {
            assert(tree.uses(MathOp::Sin) || tree.uses(MathOp::Cos));
        }
        lemma_tree_evaluates(kids[i]);
    }
    match tree.op {
        MathOp::Div => {
            let top = kids[0].value as int;
            let bottom = kids[1].value as int;
            let value = tree.value as int;
            assert(kids[0].eval() == top && kids[1].eval() == bottom);
            vstd::arithmetic::div_mod::lemma_div_multiples_vanish(value, bottom);
            vstd::arithmetic::div_mod::lemma_mod_multiples_basic(value, bottom);
            assert(value * bottom == bottom * value) by (nonlinear_arith);
        },
        MathOp::Sqrt => {
            let value = tree.value as int;
            assert(kids[0].eval() == value * value);
            let r = root_of(value * value);
            assert(r >= 0 && r * r == value * value);
            assert((value + 1) * (value + 1) > value * value) by (nonlinear_arith)
                requires
                    value >= 0,
            ;
            lemma_square_between(value, r);
        },
        MathOp::Add | MathOp::Sub | MathOp::Mul | MathOp::Pow2 => {
            assert(kids[0].eval() == kids[0].value);
        },
        _ => {},
    }
}

} // verus!
