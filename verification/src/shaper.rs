//! Growth of an expression tree from its root: which operator a node gets,
//! which values its children have to take, and which of them grow further.

use vstd::prelude::*;
use crate::catalog::MathOp;
use crate::evaluation::lemma_tree_evaluates;
use crate::node::{lemma_well_formed_levelled, EngineFlags, MathNode};
use crate::numeric::{is_perfect_square, perfect_square};
use crate::random::{pick_one, random_bool};
use crate::split::{
    decompose, fits, lemma_split_parts, lemma_split_reproduces, parts_satisfy, valid_split, Split,
};

verus! {

/// Every operator of the list is one that a caller can enable.
pub open spec fn enabled(ops: Seq<MathOp>) -> bool {
    forall|i: int| 0 <= i < ops.len() ==> (#[trigger] ops[i]).selectable()
}

/// The context of a node admits `op`: no division directly below a division
/// unless stacking is allowed, no root directly below a root, and no square
/// directly below a root unless squares in roots are allowed.
pub open spec fn admitted(op: MathOp, flags: EngineFlags) -> bool {
    &&& !(op == MathOp::Div && flags.division_parent && !flags.allow_stacked_division)
    &&& !(op == MathOp::Sqrt && flags.sqrt_parent)
    &&& !(op == MathOp::Pow2 && flags.sqrt_parent && !flags.allow_powers_in_roots)
}

/// A node with the required value `value` may be written as a square:
/// squares are detected, the context admits one, and `value` is a perfect
/// square.
pub open spec fn square_detected(flags: EngineFlags, value: int) -> bool {
    flags.allow_powers_of_2 && admitted(MathOp::Pow2, flags) && perfect_square(value)
}

/// The operators a node with the required value `value` picks from: the
/// admitted ones of `ops`, in their order, and a square at the end where
/// one is detected.
pub open spec fn candidates(ops: Seq<MathOp>, flags: EngineFlags, value: int) -> Seq<MathOp> {
    let kept = ops.filter(|op: MathOp| admitted(op, flags));
    if square_detected(flags, value) {
        kept.push(MathOp::Pow2)
    } else {
        kept
    }
}

/// The operator that a node with the required value `value` ends up with,
/// given the `pool` it picked from: one of the pool, or a constant where the
/// pool was empty or the operator that was picked could not decompose the
/// value.
pub open spec fn picked_from(node: MathNode, value: int, pool: Seq<MathOp>) -> bool {
    if node.op == MathOp::Const {
        pool.len() == 0 || exists|picked: MathOp| #[trigger]
            pool.contains(picked) && valid_split(picked, value, Split::Leaf(node.value))
    } else {
        pool.contains(node.op)
    }
}

/// Every operator in the tree is one of `ops`, a square, or the mark of a
/// leaf.
pub open spec fn drawn_from(tree: MathNode, ops: Seq<MathOp>) -> bool {
    forall|op: MathOp| #[trigger]
        tree.uses(op) ==> op == MathOp::Null || op == MathOp::Const || op == MathOp::Pow2
            || ops.contains(op)
}

/// The flags that the children of a node with operator `op` inherit.
pub open spec fn inherited(flags: EngineFlags, op: MathOp) -> EngineFlags {
    EngineFlags {
        division_parent: op == MathOp::Div,
        sqrt_parent: op == MathOp::Sqrt,
        ..flags
    }
}

/// Every value that can come up below a node with the required value
/// `value` is reproduced exactly by whatever operator of `ops` it gets.
/// A sum needs a positive value, and a sine or cosine hands zero down; a
/// root needs a value that is not negative.
pub open spec fn answerable(value: int, ops: Seq<MathOp>) -> bool {
    if ops.contains(MathOp::Add) {
        value >= 1 && !ops.contains(MathOp::Sin) && !ops.contains(MathOp::Cos)
    } else {
        value >= 0 || !ops.contains(MathOp::Sqrt)
    }
}

impl MathNode {
    /// Every operator of the tree was admitted by the context it was picked
    /// in: no division directly below a division unless stacking is allowed,
    /// no root directly below a root, no square directly below a root unless
    /// squares in roots are allowed.
    pub open spec fn in_context(self, flags: EngineFlags) -> bool
        decreases self,
    {
        &&& admitted(self.op, flags)
        &&& forall|i: int|
            0 <= i < self.children@.len() ==> (#[trigger] self.children@[i]).in_context(
                inherited(flags, self.op),
            )
    }

    /// A square stands only where squares are detected and the value of its
    /// node is a perfect square.
    pub open spec fn squares_detected(self, detect: bool) -> bool
        decreases self,
    {
        &&& self.op == MathOp::Pow2 ==> detect && perfect_square(self.value as int)
        &&& forall|i: int|
            0 <= i < self.children@.len() ==> (#[trigger] self.children@[i]).squares_detected(
                detect,
            )
    }
}

/// What growing makes of a node above the depth bound. Every node below it
/// has an operator and the children that go with it; every operator was
/// admitted by its context and comes from `ops` or is a detected square;
/// the node's own operator is one of its candidates, or a constant where it
/// had none or the one it picked could not decompose the value; every value
/// was decomposed by the rule of its operator; and where the value is
/// answerable the arithmetic is exact throughout, the node still holds the
/// value, and, with no sine and no cosine enabled, the tree evaluates to it.
pub open spec fn expanded(
    before: MathNode,
    after: MathNode,
    ops: Seq<MathOp>,
    flags: EngineFlags,
) -> bool {
    &&& after.well_formed()
    &&& after.resolved()
    &&& after.in_context(flags)
    &&& drawn_from(after, ops)
    &&& after.squares_detected(flags.allow_powers_of_2)
    &&& picked_from(after, before.value as int, candidates(ops, flags, before.value as int))
    &&& after.decomposed()
    &&& after.took(before.value as int)
    &&& answerable(before.value as int, ops) ==> after.consistent() && after.value
        == before.value
    &&& answerable(before.value as int, ops) && !ops.contains(MathOp::Sin) && !ops.contains(
        MathOp::Cos,
    ) ==> after.eval() == before.value
}

/// A tree without a square has every square detected.
pub proof fn lemma_no_square(tree: MathNode, detect: bool)
    requires
        !tree.uses(MathOp::Pow2),
    ensures
        tree.squares_detected(detect),
    decreases tree,
{
    assert forall|i: int| 0 <= i < tree.children@.len() implies (
    #[trigger] tree.children@[i]).squares_detected(detect) by {
        if tree.children@[i].uses(MathOp::Pow2) {
            assert(tree.uses(MathOp::Pow2));
        }
        lemma_no_square(tree.children@[i], detect);
    }
}

/// Below an answerable value, every value that an operator of the list, or
/// a square, hands to its children is answerable again.
pub proof fn lemma_split_answerable(op: MathOp, value: int, s: Split, ops: Seq<MathOp>)
    requires
        fits(value),
        valid_split(op, value, s),
        answerable(value, ops),
        ops.contains(op) || op == MathOp::Pow2,
    ensures
        parts_satisfy(s, |part: int| answerable(part, ops)),
{
    lemma_split_parts(op, value, s);
}

/// A node whose operator and whose children are drawn from `ops` is itself
/// drawn from `ops`.
pub proof fn lemma_drawn_from(node: MathNode, ops: Seq<MathOp>)
    requires
        node.op == MathOp::Null || node.op == MathOp::Const || node.op == MathOp::Pow2
            || ops.contains(node.op),
        forall|i: int|
            0 <= i < node.children@.len() ==> drawn_from(#[trigger] node.children@[i], ops),
    ensures
        drawn_from(node, ops),
{
    assert forall|used: MathOp| #[trigger] node.uses(used) implies used == MathOp::Null || used
        == MathOp::Const || used == MathOp::Pow2 || ops.contains(used) by {
        if node.op != used {
            let i = choose|i: int|
                0 <= i < node.children@.len() && (#[trigger] node.children@[i]).uses(used);
            assert(drawn_from(node.children@[i], ops));
        }
    }
}

/// A finished tree of operators from `ops` whose arithmetic is exact where
/// `value` is answerable evaluates to `value`, if no sine and no cosine is
/// enabled.
pub proof fn lemma_evaluates_where_answerable(tree: MathNode, value: int, ops: Seq<MathOp>)
    requires
        tree.well_formed(),
        tree.resolved(),
        drawn_from(tree, ops),
        answerable(value, ops) ==> tree.consistent() && tree.value == value,
    ensures
        answerable(value, ops) && !ops.contains(MathOp::Sin) && !ops.contains(MathOp::Cos)
            ==> tree.eval() == value,
{
    if answerable(value, ops) && !ops.contains(MathOp::Sin) && !ops.contains(MathOp::Cos) {
        lemma_tree_evaluates(tree);
    }
}

/// Whether the context of a node admits `op`.
pub fn is_admitted(op: MathOp, flags: EngineFlags) -> (b: bool)
    ensures
        b == admitted(op, flags),
{
    if op == MathOp::Div && flags.division_parent && !flags.allow_stacked_division {
        return false;
    }
    if op == MathOp::Sqrt && flags.sqrt_parent {
        return false;
    }
    if op == MathOp::Pow2 && flags.sqrt_parent && !flags.allow_powers_in_roots {
        return false;
    }
    true
}

/// The operators of `ops` that the context admits, in their order.
pub fn admitted_ops(ops: &Vec<MathOp>, flags: EngineFlags) -> (found: Vec<MathOp>)
    ensures
        found@ == ops@.filter(|op: MathOp| admitted(op, flags)),
        forall|i: int|
            0 <= i < found@.len() ==> ops@.contains(#[trigger] found@[i]) && admitted(
                found@[i],
                flags,
            ),
{
    let ghost pred = |op: MathOp| admitted(op, flags);
    let mut found: Vec<MathOp> = Vec::new();
    let mut i: usize = 0;
    proof {
        reveal(Seq::filter);
        assert(ops@.take(0) =~= Seq::<MathOp>::empty());
    }
    while i < ops.len()
        invariant
            i <= ops@.len(),
            pred == (|op: MathOp| admitted(op, flags)),
            found@ == ops@.take(i as int).filter(pred),
            forall|k: int|
                0 <= k < found@.len() ==> ops@.contains(#[trigger] found@[k]) && admitted(
                    found@[k],
                    flags,
                ),
        decreases ops@.len() - i,
    {
        let op = ops[i];
        proof {
            reveal(Seq::filter);
            assert(ops@.take(i + 1).drop_last() =~= ops@.take(i as int));
            assert(ops@.take(i + 1).last() == op);
        }
        if is_admitted(op, flags) {
            found.push(op);
        }
        i = i + 1;
    }
    proof {
        assert(ops@.take(i as int) =~= ops@);
    }
    found
}

/// The operators a node with the required value `value` picks from.
pub fn candidate_ops(ops: &Vec<MathOp>, flags: EngineFlags, value: i32) -> (found: Vec<MathOp>)
    ensures
        found@ == candidates(ops@, flags, value as int),
        forall|i: int|
            0 <= i < found@.len() ==> {
                ||| ops@.contains(#[trigger] found@[i]) && admitted(found@[i], flags)
                ||| found@[i] == MathOp::Pow2 && square_detected(flags, value as int)
            },
{
    let mut found = admitted_ops(ops, flags);
    if flags.allow_powers_of_2 && is_admitted(MathOp::Pow2, flags) && is_perfect_square(value) {
        found.push(MathOp::Pow2);
    }
    found
}

/// A fresh node one level down that takes its value later. A coin decides
/// whether it gets a shape; a node that did not stays without an operator.
pub fn create_slot(depth: i32, max_depth: i32, ops: &Vec<MathOp>, settings: EngineFlags) -> (child:
    MathNode)
    requires
        depth <= max_depth,
        enabled(ops@),
    ensures
        child.depth == depth,
        child.well_formed(),
        child.within_depth(max_depth as int),
        child.unassigned(),
        child.in_context(settings),
        forall|op: MathOp| #[trigger] child.uses(op) ==> op == MathOp::Null || ops@.contains(op),
    decreases max_depth - depth, 2int,
{
    let mut child = MathNode::new(MathOp::Null, 0, depth);
    if random_bool() {
        shape_node(&mut child, max_depth, ops, settings);
    }
    child
}

/// Gives the tree below `node` its shape and leaves every value open.
///
/// At the depth bound the node is left as it is. Above it the node gets one
/// of the admitted operators, picked at random, or none where none is
/// admitted, and as many children one level down as the operator has slots.
/// No node holds a constant afterwards: the values are assigned later.
pub fn shape_node(node: &mut MathNode, max_depth: i32, ops: &Vec<MathOp>, settings: EngineFlags)
    requires
        old(node).op == MathOp::Null,
        old(node).children@.len() == 0,
        old(node).depth <= max_depth,
        enabled(ops@),
    ensures
        final(node).depth == old(node).depth,
        final(node).value == old(node).value,
        final(node).well_formed(),
        final(node).within_depth(max_depth as int),
        final(node).unassigned(),
        final(node).in_context(settings),
        old(node).depth == max_depth ==> final(node).op == MathOp::Null,
        old(node).depth < max_depth ==> if ops@.filter(|op: MathOp| admitted(op, settings)).len()
            == 0 {
            final(node).op == MathOp::Null
        } else {
            ops@.filter(|op: MathOp| admitted(op, settings)).contains(final(node).op)
        },
        forall|op: MathOp| #[trigger]
            final(node).uses(op) ==> op == MathOp::Null || ops@.contains(op),
    decreases max_depth - old(node).depth, 1int,
{
    if node.depth == max_depth {
        return ;
    }
    let filtered = admitted_ops(ops, settings);
    let op = match pick_one(&filtered) {
        Some(op) => op,
        None => {
            return ;
        },
    };
    let mut below = settings;
    below.division_parent = op == MathOp::Div;
    below.sqrt_parent = op == MathOp::Sqrt;
    let depth: i32 = node.depth + 1;
    proof {
        let k = filtered@.index_of(op);
        assert(filtered@[k] == op);
        assert(below == inherited(settings, op));
        let j = ops@.index_of(op);
        assert(ops@[j].selectable());
    }
    node.op = op;
    let slots: usize = op.arity();
    let mut made: usize = 0;
    while made < slots
        invariant
            made <= slots <= 2,
            slots == op.arity_spec(),
            node.op == op,
            node.depth == old(node).depth,
            node.value == old(node).value,
            depth == node.depth + 1,
            depth <= max_depth,
            enabled(ops@),
            ops@.contains(op),
            node.children@.len() == made,
            forall|i: int|
                0 <= i < made ==> {
                    &&& (#[trigger] node.children@[i]).depth == depth
                    &&& node.children@[i].well_formed()
                    &&& node.children@[i].within_depth(max_depth as int)
                    &&& node.children@[i].unassigned()
                    &&& node.children@[i].in_context(below)
                    &&& forall|used: MathOp| #[trigger]
                        node.children@[i].uses(used) ==> used == MathOp::Null || ops@.contains(
                            used,
                        )
                },
        decreases slots - made,
    {
        let child = create_slot(depth, max_depth, ops, below);
        let ghost before = node.children@;
        node.children.push(child);
        assert(node.children@[made as int] == child);
        assert(forall|i: int| 0 <= i < made ==> node.children@[i] == before[i]);
        made = made + 1;
    }
    proof {
        assert forall|used: MathOp| #[trigger] node.uses(used) implies used == MathOp::Null
            || ops@.contains(used) by {
            if node.op != used {
                let i = choose|i: int|
                    0 <= i < node.children@.len() && (#[trigger] node.children@[i]).uses(used);
                assert(node.children@[i].uses(used));
            }
        }
    }
}

/// A fresh node one level down with the required value `value`. A coin
/// decides whether it grows; a node that did not grow is a constant.
pub fn create_child(
    value: i32,
    depth: i32,
    max_depth: i32,
    ops: &Vec<MathOp>,
    settings: EngineFlags,
) -> (child: MathNode)
    requires
        depth <= max_depth,
        enabled(ops@),
    ensures
        child.depth == depth,
        child.well_formed(),
        child.within_depth(max_depth as int),
        child.resolved(),
        child.in_context(settings),
        drawn_from(child, ops@),
        child.squares_detected(settings.allow_powers_of_2),
        child.decomposed(),
        child.took(value as int),
        answerable(value as int, ops@) ==> child.consistent() && child.value == value,
        answerable(value as int, ops@) && !ops@.contains(MathOp::Sin) && !ops@.contains(
            MathOp::Cos,
        ) ==> child.eval() == value,
    decreases max_depth - depth, 2int,
{
    let mut child = MathNode::new(MathOp::Null, value, depth);
    if random_bool() {
        expand_node(&mut child, max_depth, ops, settings);
    }
    if child.op == MathOp::Null {
        child.op = MathOp::Const;
    }
    proof {
        lemma_evaluates_where_answerable(child, value as int, ops@);
    }
    child
}

/// Grows the tree below `node`, a node without children that holds its
/// required value.
///
/// At the depth bound the node is left as it is. Above it the node gets one
/// of its candidates, picked at random, or becomes a constant where there is
/// none; its value is decomposed under that operator and each child is
/// created with the value that falls to it. An operator that cannot
/// decompose the value leaves a constant: a sum of a value below 2 the
/// constant 1, every other the value itself.
pub fn expand_node(node: &mut MathNode, max_depth: i32, ops: &Vec<MathOp>, settings: EngineFlags)
    requires
        old(node).children@.len() == 0,
        old(node).depth <= max_depth,
        enabled(ops@),
    ensures
        final(node).depth == old(node).depth,
        final(node).levelled(),
        final(node).within_depth(max_depth as int),
        old(node).op.arity_spec() == 0 ==> final(node).well_formed(),
        old(node).depth == max_depth ==> *final(node) == *old(node),
        old(node).depth < max_depth ==> expanded(*old(node), *final(node), ops@, settings),
    decreases max_depth - old(node).depth, 1int,
{
    if node.depth == max_depth {
        return ;
    }
    let value: i32 = node.value;
    let filtered = candidate_ops(ops, settings, value);
    let op = match pick_one(&filtered) {
        Some(op) => op,
        None => {
            node.op = MathOp::Const;
            proof {
                lemma_evaluates_where_answerable(*node, value as int, ops@);
            }
            return ;
        },
    };
    let mut below = settings;
    below.division_parent = op == MathOp::Div;
    below.sqrt_parent = op == MathOp::Sqrt;
    let depth: i32 = node.depth + 1;
    let split = decompose(op, value);
    proof {
        let k = filtered@.index_of(op);
        assert(filtered@[k] == op);
        assert(below == inherited(settings, op));
        if ops@.contains(op) {
            let j = ops@.index_of(op);
            assert(ops@[j].selectable());
        }
        if op == MathOp::Pow2 {
            assert(square_detected(settings, value as int));
        }
        if answerable(value as int, ops@) {
            lemma_split_reproduces(op, value as int, split);
            lemma_split_answerable(op, value as int, split, ops@);
        }
    }
    match split {
        Split::Leaf(constant) => {
            node.op = MathOp::Const;
            node.value = constant;
            proof {
                lemma_evaluates_where_answerable(*node, value as int, ops@);
            }
        },
        Split::Unary(inner) => {
            let child = create_child(inner, depth, max_depth, ops, below);
            node.op = op;
            node.children.push(child);
            assert(node.children@[0] == child);
            proof {
                lemma_drawn_from(*node, ops@);
                assert(valid_split(node.op, node.value as int, Split::Unary(inner))
                    && node.children@[0].took(inner as int));
                lemma_well_formed_levelled(*node);
                lemma_evaluates_where_answerable(*node, value as int, ops@);
            }
        },
        Split::Binary(first, second) => {
            let left = create_child(first, depth, max_depth, ops, below);
            let right = create_child(second, depth, max_depth, ops, below);
            node.op = op;
            node.children.push(left);
            node.children.push(right);
            assert(node.children@[0] == left);
            assert(node.children@[1] == right);
            proof {
                lemma_drawn_from(*node, ops@);
                assert(valid_split(node.op, node.value as int, Split::Binary(first, second))
                    && node.children@[0].took(first as int) && node.children@[1].took(
                    second as int,
                ));
                lemma_well_formed_levelled(*node);
                lemma_evaluates_where_answerable(*node, value as int, ops@);
            }
        },
    }
}

} // verus!
