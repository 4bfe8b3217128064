//! The expression tree and the predicates that describe its shape and its
//! arithmetic.

use vstd::prelude::*;
use crate::catalog::MathOp;

verus! {

/// Per-branch configuration. It is copied into every recursive call, so a
/// branch never sees what a sibling branch decided.
#[derive(Clone, Copy, Debug)]
pub struct EngineFlags {
    pub allow_powers_of_2: bool,
    pub allow_powers_in_roots: bool,
    pub allow_stacked_division: bool,
    pub division_parent: bool,
    pub sqrt_parent: bool,
}

impl EngineFlags {
    /// Every permission off, no ancestor recorded.
    pub fn new() -> (flags: EngineFlags)
        ensures
            !flags.allow_powers_of_2,
            !flags.allow_powers_in_roots,
            !flags.allow_stacked_division,
            !flags.division_parent,
            !flags.sqrt_parent,
    {
        EngineFlags {
            allow_powers_of_2: false,
            allow_powers_in_roots: false,
            allow_stacked_division: false,
            division_parent: false,
            sqrt_parent: false,
        }
    }
}

/// A node of an expression tree. `value` is what the subtree below the node
/// has to evaluate to; `depth` counts from 1 at the root.
#[derive(Debug)]
pub struct MathNode {
    pub op: MathOp,
    pub value: i32,
    pub children: Vec<MathNode>,
    pub depth: i32,
}

impl MathNode {
    /// A node without children.
    pub fn new(op: MathOp, value: i32, depth: i32) -> (node: MathNode)
        ensures
            node.op == op,
            node.value == value,
            node.depth == depth,
            node.children@.len() == 0,
            op.arity_spec() == 0 ==> node.well_formed(),
    {
        MathNode { op, value, children: Vec::new(), depth }
    }

    /// Every node has as many children as its operator has slots, and every
    /// child sits one level below its parent.
    pub open spec fn well_formed(self) -> bool
        decreases self,
    {
        &&& self.children@.len() == self.op.arity_spec()
        &&& forall|i: int|
            0 <= i < self.children@.len() ==> {
                &&& (#[trigger] self.children@[i]).depth == self.depth + 1
                &&& self.children@[i].well_formed()
            }
    }

    /// Every child sits one level below its parent, whatever the operators
    /// are.
    pub open spec fn levelled(self) -> bool
        decreases self,
    {
        forall|i: int|
            0 <= i < self.children@.len() ==> {
                &&& (#[trigger] self.children@[i]).depth == self.depth + 1
                &&& self.children@[i].levelled()
            }
    }

    /// No node lies deeper than `max_depth`.
    pub open spec fn within_depth(self, max_depth: int) -> bool
        decreases self,
    {
        &&& self.depth <= max_depth
        &&& forall|i: int|
            0 <= i < self.children@.len() ==> (#[trigger] self.children@[i]).within_depth(
                max_depth,
            )
    }

    /// Every node has an operator: no `Null` is left anywhere.
    pub open spec fn resolved(self) -> bool
        decreases self,
    {
        &&& self.op != MathOp::Null
        &&& forall|i: int|
            0 <= i < self.children@.len() ==> (#[trigger] self.children@[i]).resolved()
    }

    /// No node holds a constant yet: the tree has a shape and nothing else.
    pub open spec fn unassigned(self) -> bool
        decreases self,
    {
        &&& self.op != MathOp::Const
        &&& forall|i: int|
            0 <= i < self.children@.len() ==> (#[trigger] self.children@[i]).unassigned()
    }

    /// Some node of the tree carries the operator `op`.
    pub open spec fn uses(self, op: MathOp) -> bool
        decreases self,
    {
        ||| self.op == op
        ||| exists|i: int|
            0 <= i < self.children@.len() && (#[trigger] self.children@[i]).uses(op)
    }

    /// The arithmetic of this node alone: its operator, applied to the values
    /// of its children, gives exactly its own value. Division has a positive
    /// denominator and leaves no remainder; a root is the non-negative one. Leaves and the
    /// trigonometric operators state nothing.
    pub open spec fn locally_consistent(self) -> bool {
        let kids = self.children@;
        match self.op {
            MathOp::Add => kids.len() == 2 && self.value == kids[0].value + kids[1].value,
            MathOp::Sub => kids.len() == 2 && self.value == kids[0].value - kids[1].value,
            MathOp::Mul => kids.len() == 2 && self.value == kids[0].value * kids[1].value,
            MathOp::Div => kids.len() == 2 && kids[1].value > 0 && kids[0].value == self.value
                * kids[1].value,
            MathOp::Sqrt => kids.len() == 1 && self.value >= 0 && kids[0].value == self.value
                * self.value,
            MathOp::Pow2 => kids.len() == 1 && self.value == kids[0].value * kids[0].value,
            _ => true,
        }
    }

    /// `other` is this node or one of the nodes below it.
    pub open spec fn has_node(self, other: MathNode) -> bool
        decreases self,
    {
        ||| self == other
        ||| exists|i: int|
            0 <= i < self.children@.len() && (#[trigger] self.children@[i]).has_node(other)
    }

    /// The arithmetic holds at every node of the tree.
    pub open spec fn consistent(self) -> bool
        decreases self,
    {
        &&& self.locally_consistent()
        &&& forall|i: int|
            0 <= i < self.children@.len() ==> (#[trigger] self.children@[i]).consistent()
    }
}

/// What holds of a tree holds of each of its nodes: in a well-formed tree
/// every node has as many children as its operator has slots, each of them
/// one level further down, and no node lies above the root.
pub proof fn lemma_every_node_well_formed(tree: MathNode, node: MathNode)
    requires
        tree.well_formed(),
        tree.has_node(node),
    ensures
        node.well_formed(),
        node.children@.len() == node.op.arity_spec(),
        forall|i: int|
            0 <= i < node.children@.len() ==> (#[trigger] node.children@[i]).depth == node.depth
                + 1,
        node.depth >= tree.depth,
    decreases tree,
{
    if tree != node {
        let i = choose|i: int|
            0 <= i < tree.children@.len() && (#[trigger] tree.children@[i]).has_node(node);
        lemma_every_node_well_formed(tree.children@[i], node);
    }
}

/// A well-formed tree has every child one level below its parent.
pub proof fn lemma_well_formed_levelled(tree: MathNode)
    requires
        tree.well_formed(),
    ensures
        tree.levelled(),
    decreases tree,
{
    assert forall|i: int| 0 <= i < tree.children@.len() implies (
    #[trigger] tree.children@[i]).levelled() by {
        lemma_well_formed_levelled(tree.children@[i]);
    }
}

/// Depths count up by one along every edge: each node of a tree whose
/// children sit one level below their parents has its own children one
/// level below it, and lies no higher than the root.
pub proof fn lemma_every_node_levelled(tree: MathNode, node: MathNode)
    requires
        tree.levelled(),
        tree.has_node(node),
    ensures
        node.levelled(),
        forall|i: int|
            0 <= i < node.children@.len() ==> (#[trigger] node.children@[i]).depth == node.depth
                + 1,
        node.depth >= tree.depth,
    decreases tree,
{
    if tree != node {
        let i = choose|i: int|
            0 <= i < tree.children@.len() && (#[trigger] tree.children@[i]).has_node(node);
        lemma_every_node_levelled(tree.children@[i], node);
    }
}

/// A node at the depth bound has no children.
pub proof fn lemma_no_children_at_bound(tree: MathNode, node: MathNode, max_depth: int)
    requires
        tree.levelled(),
        tree.within_depth(max_depth),
        tree.has_node(node),
        node.depth == max_depth,
    ensures
        node.children@.len() == 0,
    decreases tree,
{
    if tree != node {
        let i = choose|i: int|
            0 <= i < tree.children@.len() && (#[trigger] tree.children@[i]).has_node(node);
        lemma_no_children_at_bound(tree.children@[i], node, max_depth);
    } else if node.children@.len() > 0 {
        assert(node.children@[0].within_depth(max_depth));
    }
}

/// In a tree within a depth bound no node lies deeper than the bound.
pub proof fn lemma_every_node_within_depth(tree: MathNode, node: MathNode, max_depth: int)
    requires
        tree.within_depth(max_depth),
        tree.has_node(node),
    ensures
        node.depth <= max_depth,
    decreases tree,
{
    if tree != node {
        let i = choose|i: int|
            0 <= i < tree.children@.len() && (#[trigger] tree.children@[i]).has_node(node);
        lemma_every_node_within_depth(tree.children@[i], node, max_depth);
    }
}

/// In a resolved tree every node has an operator.
pub proof fn lemma_every_node_resolved(tree: MathNode, node: MathNode)
    requires
        tree.resolved(),
        tree.has_node(node),
    ensures
        node.op != MathOp::Null,
    decreases tree,
{
    if tree != node {
        let i = choose|i: int|
            0 <= i < tree.children@.len() && (#[trigger] tree.children@[i]).has_node(node);
        lemma_every_node_resolved(tree.children@[i], node);
    }
}

/// In a consistent tree the arithmetic holds at every node: its operator,
/// applied to the values of its children, gives its own value.
pub proof fn lemma_every_node_consistent(tree: MathNode, node: MathNode)
    requires
        tree.consistent(),
        tree.has_node(node),
    ensures
        node.locally_consistent(),
    decreases tree,
{
    if tree != node {
        let i = choose|i: int|
            0 <= i < tree.children@.len() && (#[trigger] tree.children@[i]).has_node(node);
        lemma_every_node_consistent(tree.children@[i], node);
    }
}

} // verus!
