//! Assignment of values to a tree that already has its shape: every leaf
//! becomes a constant such that the tree evaluates to the required value.

use vstd::prelude::*;
use crate::catalog::{MathOp, StructuralError};
use crate::evaluation::lemma_tree_evaluates;
use crate::node::{EngineFlags, MathNode};
use crate::numeric::{is_floor_sqrt, lemma_square_between, perfect_square};
use crate::shaper::inherited;
use crate::split::{
    decompose, fits, lemma_floor_sqrt_small, lemma_split_parts, lemma_split_reproduces,
    reproduces, valid_split, Split,
};

verus! {

impl MathNode {
    /// Assigning `value` to the tree is exact whatever is drawn: every
    /// decomposition that the node's operator can make of `value` gives the
    /// value back, and each child is exact for the part that it is handed.
    pub open spec fn exact_for(self, value: int) -> bool
        decreases self,
    {
        let kids = self.children@;
        forall|s: Split| #[trigger]
            valid_split(self.op, value, s) ==> {
                &&& reproduces(self.op, value, s)
                &&& match s {
                    Split::Leaf(_) => true,
                    Split::Unary(inner) => kids.len() == 1 ==> kids[0].exact_for(inner as int),
                    Split::Binary(first, second) => kids.len() == 2 ==> kids[0].exact_for(
                        first as int,
                    ) && kids[1].exact_for(second as int),
                }
            }
    }

    /// A condition on the operators alone under which the tree is exact for
    /// `value`: there is no square, whose value would have to be a perfect
    /// square; with a sum in the tree the value is positive and no sine or
    /// cosine hands down its zero; with a root the value is not negative.
    pub open spec fn plain_for(self, value: int) -> bool {
        &&& !self.uses(MathOp::Pow2)
        &&& if self.uses(MathOp::Add) {
            value >= 1 && !self.uses(MathOp::Sin) && !self.uses(MathOp::Cos)
        } else {
            value >= 0 || !self.uses(MathOp::Sqrt)
        }
    }
}

/// A child uses no operator that its parent's tree does not use.
pub proof fn lemma_child_uses(node: MathNode, slot: int, op: MathOp)
    requires
        0 <= slot < node.children@.len(),
        node.children@[slot].uses(op),
    ensures
        node.uses(op),
{
}

/// Below a tree that is plain for a positive value, or for one that is not
/// negative, each child is plain for every such value again.
pub proof fn lemma_child_plain(node: MathNode, slot: int, value: int, part: int)
    requires
        0 <= slot < node.children@.len(),
        node.plain_for(value),
        value >= 1 && node.op != MathOp::Sin && node.op != MathOp::Cos ==> part >= 1,
        value >= 0 ==> part >= 0,
    ensures
        node.children@[slot].plain_for(part),
{
    let child = node.children@[slot];
    if child.uses(MathOp::Pow2) {
        lemma_child_uses(node, slot, MathOp::Pow2);
    }
    if child.uses(MathOp::Add) {
        lemma_child_uses(node, slot, MathOp::Add);
    }
    if child.uses(MathOp::Sin) {
        lemma_child_uses(node, slot, MathOp::Sin);
    }
    if child.uses(MathOp::Cos) {
        lemma_child_uses(node, slot, MathOp::Cos);
    }
    if child.uses(MathOp::Sqrt) {
        lemma_child_uses(node, slot, MathOp::Sqrt);
    }
}

/// A tree that is plain for a value is exact for it.
pub proof fn lemma_plain_is_exact(tree: MathNode, value: int)
    requires
        fits(value),
        tree.plain_for(value),
    ensures
        tree.exact_for(value),
    decreases tree,
{
    let kids = tree.children@;
    assert forall|s: Split| #[trigger] valid_split(tree.op, value, s) implies {
        &&& reproduces(tree.op, value, s)
        &&& match s {
            Split::Leaf(_) => true,
            Split::Unary(inner) => kids.len() == 1 ==> kids[0].exact_for(inner as int),
            Split::Binary(first, second) => kids.len() == 2 ==> kids[0].exact_for(first as int)
                && kids[1].exact_for(second as int),
        }
    } by {
        lemma_split_reproduces(tree.op, value, s);
        lemma_split_parts(tree.op, value, s);
        match s {
            Split::Leaf(_) => {},
            Split::Unary(inner) => {
                if kids.len() == 1 {
                    lemma_child_plain(tree, 0, value, inner as int);
                    lemma_plain_is_exact(kids[0], inner as int);
                }
            },
            Split::Binary(first, second) => {
                if kids.len() == 2 {
                    lemma_child_plain(tree, 0, value, first as int);
                    lemma_child_plain(tree, 1, value, second as int);
                    lemma_plain_is_exact(kids[0], first as int);
                    lemma_plain_is_exact(kids[1], second as int);
                }
            },
        }
    }
}

/// A square over a plain tree is exact for a perfect square: the child is
/// handed the root, and the square of the root is the value.
pub proof fn lemma_square_is_exact(tree: MathNode, value: int, root: int)
    requires
        fits(value),
        tree.op == MathOp::Pow2,
        tree.children@.len() == 1,
        root >= 0,
        root * root == value,
        tree.children@[0].plain_for(root),
    ensures
        tree.exact_for(value),
{
    let kids = tree.children@;
    assert(perfect_square(value));
    assert forall|s: Split| #[trigger] valid_split(tree.op, value, s) implies {
        &&& reproduces(tree.op, value, s)
        &&& match s {
            Split::Leaf(_) => true,
            Split::Unary(inner) => kids.len() == 1 ==> kids[0].exact_for(inner as int),
            Split::Binary(first, second) => kids.len() == 2 ==> kids[0].exact_for(first as int)
                && kids[1].exact_for(second as int),
        }
    } by {
        lemma_split_reproduces(tree.op, value, s);
        let found = choose|found: int| #[trigger]
            is_floor_sqrt(value, found) && s == Split::Unary(found as i32);
        lemma_floor_sqrt_small(value, found);
        if value > 0 {
            lemma_square_between(found, root);
        } else {
            assert(root == 0) by (nonlinear_arith)
                requires
                    root >= 0,
                    root * root <= 0,
            ;
        }
        lemma_plain_is_exact(kids[0], root);
    }
}

/// Assigns values below `node` so that it evaluates to `value`.
///
/// A node without an operator becomes the constant `value`. A node with an
/// operator has `value` decomposed under it and each part assigned to the
/// child in its slot, the first child before the second; where the operator
/// cannot decompose the value the node becomes a constant and loses its
/// children.
///
/// A node that already is a constant is an error and is left as it is. The
/// error of a child is handed up as it came: the node then keeps its
/// operator, its value and its children, of which those that were reached
/// before the error hold what was assigned to them. A tree without
/// constants never fails.
pub fn evaluate_node(node: &mut MathNode, value: i32) -> (r: Result<(), StructuralError>)
    requires
        old(node).well_formed(),
    ensures
        final(node).depth == old(node).depth,
        final(node).well_formed(),
        forall|bound: int| #[trigger]
            old(node).within_depth(bound) ==> final(node).within_depth(bound),
        forall|flags: EngineFlags| #[trigger]
            old(node).in_context(flags) ==> final(node).in_context(flags),
        forall|op: MathOp| #[trigger]
            final(node).uses(op) ==> op == MathOp::Const || old(node).uses(op),
        old(node).unassigned() ==> r is Ok,
        old(node).op == MathOp::Const ==> r is Err && *final(node) == *old(node),
        r is Err ==> r == Err::<(), StructuralError>(StructuralError::AlreadyResolved),
        r is Err ==> !old(node).unassigned(),
        r is Err ==> final(node).op == old(node).op && final(node).value == old(node).value,
        r is Ok ==> final(node).resolved(),
        r is Ok ==> final(node).op == old(node).op || (final(node).op == MathOp::Const
            && valid_split(old(node).op, value as int, Split::Leaf(final(node).value))),
        r is Ok ==> final(node).decomposed() && final(node).took(value as int),
        r is Ok && old(node).exact_for(value as int) ==> final(node).consistent()
            && final(node).value == value,
        r is Ok && old(node).exact_for(value as int) && !old(node).uses(MathOp::Sin)
            && !old(node).uses(MathOp::Cos) ==> final(node).eval() == value,
    decreases *old(node),
{
    let op = node.op;
    let ghost before = *node;
    match op {
        MathOp::Const => {
            proof {
                lemma_uses_kept(before, *node);
            }
            return Err(StructuralError::AlreadyResolved);
        },
        MathOp::Null => {
            node.op = MathOp::Const;
            node.value = value;
            proof {
                lemma_uses_kept(before, *node);
                lemma_evaluates_if(before, *node, value as int);
            }
            return Ok(());
        },
        _ => {},
    }
    let split = decompose(op, value);
    match split {
        Split::Leaf(constant) => {
            node.op = MathOp::Const;
            node.value = constant;
            node.children = Vec::new();
            proof {
                assert forall|bound: int| #[trigger]
                    before.within_depth(bound) implies node.within_depth(bound) by {}
                assert forall|flags: EngineFlags| #[trigger]
                    before.in_context(flags) implies node.in_context(flags) by {}
                lemma_uses_kept(before, *node);
                lemma_evaluates_if(before, *node, value as int);
            }
            Ok(())
        },
        Split::Unary(inner) => {
            let mut child = node.children.pop().unwrap();
            proof {
                assert(child == before.children@[0]);
            }
            let outcome = evaluate_node(&mut child, inner);
            node.children.push(child);
            if outcome.is_ok() {
                node.value = value;
            }
            proof {
                assert(node.children@[0] == child);
                assert forall|bound: int| #[trigger]
                    before.within_depth(bound) implies node.within_depth(bound) by {
                    assert(before.children@[0].within_depth(bound));
                }
                assert forall|flags: EngineFlags| #[trigger]
                    before.in_context(flags) implies node.in_context(flags) by {
                    assert(before.children@[0].in_context(inherited(flags, op)));
                }
                lemma_uses_kept(before, *node);
                if outcome is Ok {
                    assert(valid_split(node.op, node.value as int, Split::Unary(inner))
                        && node.children@[0].took(inner as int));
                    lemma_evaluates_if(before, *node, value as int);
                }
            }
            outcome
        },
        Split::Binary(first, second) => {
            let mut right = node.children.pop().unwrap();
            let mut left = node.children.pop().unwrap();
            proof {
                assert(left == before.children@[0]);
                assert(right == before.children@[1]);
            }
            let outcome = match evaluate_node(&mut left, first) {
                Ok(()) => evaluate_node(&mut right, second),
                Err(error) => Err(error),
            };
            node.children.push(left);
            node.children.push(right);
            if outcome.is_ok() {
                node.value = value;
            }
            proof {
                assert(node.children@[0] == left);
                assert(node.children@[1] == right);
                assert forall|bound: int| #[trigger]
                    before.within_depth(bound) implies node.within_depth(bound) by {
                    assert(before.children@[0].within_depth(bound));
                    assert(before.children@[1].within_depth(bound));
                }
                assert forall|flags: EngineFlags| #[trigger]
                    before.in_context(flags) implies node.in_context(flags) by {
                    assert(before.children@[0].in_context(inherited(flags, op)));
                    assert(before.children@[1].in_context(inherited(flags, op)));
                }
                lemma_uses_kept(before, *node);
                if outcome is Ok {
                    assert(valid_split(node.op, node.value as int, Split::Binary(first, second))
                        && node.children@[0].took(first as int) && node.children@[1].took(
                        second as int,
                    ));
                    lemma_evaluates_if(before, *node, value as int);
                }
            }
            outcome
        },
    }
}

/// Where assigning `value` was exact and the tree held no sine or cosine,
/// the assigned tree evaluates to `value`.
proof fn lemma_evaluates_if(before: MathNode, after: MathNode, value: int)
    requires
        after.well_formed(),
        after.resolved(),
        before.exact_for(value) ==> after.consistent() && after.value == value,
        forall|op: MathOp| #[trigger] after.uses(op) ==> op == MathOp::Const || before.uses(op),
    ensures
        before.exact_for(value) && !before.uses(MathOp::Sin) && !before.uses(MathOp::Cos)
            ==> after.eval() == value,
{
    if before.exact_for(value) && !before.uses(MathOp::Sin) && !before.uses(MathOp::Cos) {
        lemma_tree_evaluates(after);
    }
}

/// A node that kept its operator or became a constant, and whose children
/// each stand in the slot of a child that used every operator they use, save
/// for constants, uses no operator that the node before it did not use,
/// save for constants.
proof fn lemma_uses_kept(before: MathNode, after: MathNode)
    requires
        after.op == before.op || after.op == MathOp::Const,
        after.children@.len() <= before.children@.len(),
        forall|i: int, op: MathOp|
            0 <= i < after.children@.len() && op != MathOp::Const && (
            #[trigger] after.children@[i].uses(op)) ==> before.children@[i].uses(op),
    ensures
        forall|op: MathOp| #[trigger] after.uses(op) ==> op == MathOp::Const || before.uses(op),
{
    assert forall|op: MathOp| #[trigger] after.uses(op) implies op == MathOp::Const
        || before.uses(op) by {
        if op != MathOp::Const && after.op != op {
            let i = choose|i: int|
                0 <= i < after.children@.len() && (#[trigger] after.children@[i]).uses(op);
            assert(before.children@[i].uses(op));
        }
    }
}

} // verus!
