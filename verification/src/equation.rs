//! One request from end to end: the configuration toggles, the tree, and
//! its text.

use vstd::prelude::*;
use vstd::string::*;
use crate::catalog::{MathOp, StructuralError};
use crate::formatter::{decimal, format_node};
use crate::node::{EngineFlags, MathNode};
use crate::assigner::{evaluate_node, lemma_plain_is_exact};
use crate::evaluation::lemma_tree_evaluates;
use crate::shaper::{
    admitted, answerable, candidates, drawn_from, enabled, expand_node, lemma_no_square,
    picked_from, shape_node,
};

verus! {

/// What one configuration toggle asks for.
#[derive(PartialEq, Eq, Structural, Clone, Copy, Debug)]
pub enum Toggle {
    /// Enables an operator.
    Enable(MathOp),
    /// Allows a division directly below a division.
    StackedDivision,
    /// Lets a perfect square be written as a square.
    PowersOfTwo,
    /// Allows a square directly below a root.
    PowersInRoots,
    /// Not a toggle of this library.
    Unknown,
}

/// The meaning of a toggle's name.
pub open spec fn toggle_of(name: Seq<char>) -> Toggle {
    if name == "allowAdd"@ {
        Toggle::Enable(MathOp::Add)
    } else if name == "allowSub"@ {
        Toggle::Enable(MathOp::Sub)
    } else if name == "allowMul"@ {
        Toggle::Enable(MathOp::Mul)
    } else if name == "allowDiv"@ {
        Toggle::Enable(MathOp::Div)
    } else if name == "allowSquareRoots"@ {
        Toggle::Enable(MathOp::Sqrt)
    } else if name == "allowSin"@ {
        Toggle::Enable(MathOp::Sin)
    } else if name == "allowCos"@ {
        Toggle::Enable(MathOp::Cos)
    } else if name == "allowStackedDiv"@ {
        Toggle::StackedDivision
    } else if name == "allowPow2"@ {
        Toggle::PowersOfTwo
    } else if name == "allowPowersInRoots"@ {
        Toggle::PowersInRoots
    } else {
        Toggle::Unknown
    }
}

/// The operator that a toggle enables, if it enables one.
pub open spec fn enabled_by(name: String) -> Option<MathOp> {
    match toggle_of(name@) {
        Toggle::Enable(op) => Some(op),
        _ => None,
    }
}

/// The operators that a list of toggles enables, in the order of the list.
pub open spec fn enabled_ops(names: Seq<String>) -> Seq<MathOp> {
    names.filter_map(|name: String| enabled_by(name))
}

/// Some toggle of the list means `toggle`.
pub open spec fn asks_for(names: Seq<String>, toggle: Toggle) -> bool {
    exists|i: int| 0 <= i < names.len() && toggle_of(#[trigger] names[i]@) == toggle
}

/// The flags that a list of toggles sets, for the root of a tree.
pub open spec fn requested_flags(names: Seq<String>) -> EngineFlags {
    EngineFlags {
        allow_powers_of_2: asks_for(names, Toggle::PowersOfTwo),
        allow_powers_in_roots: asks_for(names, Toggle::PowersInRoots),
        allow_stacked_division: asks_for(names, Toggle::StackedDivision),
        division_parent: false,
        sqrt_parent: false,
    }
}

/// A list of toggles, read.
#[derive(Debug)]
pub struct Configuration {
    /// The enabled operators.
    pub ops: Vec<MathOp>,
    /// The flags for the root.
    pub flags: EngineFlags,
    /// The positions of the toggles that were not recognized, ascending.
    pub unknown: Vec<usize>,
}

/// `tree` answers a request for `answer` within `depth` levels: it is rooted
/// at depth 1, every node has its operator and the children that go with it,
/// the context restrictions hold, a square stands only where one was
/// detected, every value was decomposed by the rule of
/// its operator, and the arithmetic is exact throughout where the answer is
/// answerable. The root holds the answer, unless a sum of an answer below 1
/// collapsed to the constant 1.
pub open spec fn answers(
    tree: MathNode,
    answer: int,
    depth: int,
    ops: Seq<MathOp>,
    flags: EngineFlags,
) -> bool {
    &&& tree.depth == 1
    &&& tree.well_formed()
    &&& tree.within_depth(depth)
    &&& tree.resolved()
    &&& tree.in_context(flags)
    &&& drawn_from(tree, ops)
    &&& tree.squares_detected(flags.allow_powers_of_2)
    &&& tree.decomposed()
    &&& tree.took(answer)
    &&& depth == 1 ==> tree.op == MathOp::Const && tree.value == answer
    &&& answerable(answer, ops) ==> tree.consistent() && tree.value == answer
}

/// The equation is right: a tree that answers a request for an answerable
/// value, with no sine and no cosine enabled, evaluates to the answer.
pub proof fn lemma_answer_evaluates(
    tree: MathNode,
    answer: int,
    depth: int,
    ops: Seq<MathOp>,
    flags: EngineFlags,
)
    requires
        answers(tree, answer, depth, ops, flags),
        answerable(answer, ops),
        !ops.contains(MathOp::Sin),
        !ops.contains(MathOp::Cos),
    ensures
        tree.eval() == answer,
{
    lemma_tree_evaluates(tree);
}

/// Reads the name of one toggle.
pub fn read_toggle(name: &String) -> (toggle: Toggle)
    ensures
        toggle == toggle_of(name@),
{
    if *name == String::from_str("allowAdd") {
        Toggle::Enable(MathOp::Add)
    } else if *name == String::from_str("allowSub") {
        Toggle::Enable(MathOp::Sub)
    } else if *name == String::from_str("allowMul") {
        Toggle::Enable(MathOp::Mul)
    } else if *name == String::from_str("allowDiv") {
        Toggle::Enable(MathOp::Div)
    } else if *name == String::from_str("allowSquareRoots") {
        Toggle::Enable(MathOp::Sqrt)
    } else if *name == String::from_str("allowSin") {
        Toggle::Enable(MathOp::Sin)
    } else if *name == String::from_str("allowCos") {
        Toggle::Enable(MathOp::Cos)
    } else if *name == String::from_str("allowStackedDiv") {
        Toggle::StackedDivision
    } else if *name == String::from_str("allowPow2") {
        Toggle::PowersOfTwo
    } else if *name == String::from_str("allowPowersInRoots") {
        Toggle::PowersInRoots
    } else {
        Toggle::Unknown
    }
}

/// Reads a list of toggles. A name that is not recognized changes nothing
/// and is reported by its position.
pub fn read_toggles(toggles: &Vec<String>) -> (config: Configuration)
    ensures
        config.ops@ == enabled_ops(toggles@),
        enabled(config.ops@),
        config.flags == requested_flags(toggles@),
        forall|i: int|
            0 <= i < toggles@.len() ==> (toggle_of(#[trigger] toggles@[i]@) == Toggle::Unknown
                <==> config.unknown@.contains(i as usize)),
        forall|k: int|
            0 <= k < config.unknown@.len() ==> (#[trigger] config.unknown@[k]) < toggles@.len(),
        forall|k: int, l: int|
            0 <= k < l < config.unknown@.len() ==> config.unknown@[k] < config.unknown@[l],
{
    let mut ops: Vec<MathOp> = Vec::new();
    let mut flags = EngineFlags::new();
    let mut unknown: Vec<usize> = Vec::new();
    let mut i: usize = 0;
    proof {
        assert(toggles@.take(0) =~= Seq::<String>::empty());
    }
    while i < toggles.len()
        invariant
            i <= toggles@.len(),
            ops@ == enabled_ops(toggles@.take(i as int)),
            enabled(ops@),
            flags == requested_flags(toggles@.take(i as int)),
            forall|j: int|
                0 <= j < i ==> (toggle_of(#[trigger] toggles@[j]@) == Toggle::Unknown
                    <==> unknown@.contains(j as usize)),
            forall|k: int| 0 <= k < unknown@.len() ==> (#[trigger] unknown@[k]) < i,
            forall|k: int, l: int| 0 <= k < l < unknown@.len() ==> unknown@[k] < unknown@[l],
        decreases toggles@.len() - i,
    {
        let toggle = read_toggle(&toggles[i]);
        let ghost seen = toggles@.take(i as int);
        let ghost next = toggles@.take(i + 1);
        let ghost before = unknown@;
        proof {
            assert(next.drop_last() =~= seen);
            assert(next.last() == toggles@[i as int]);
            assert forall|t: Toggle| asks_for(next, t) <==> (asks_for(seen, t) || toggle == t) by {
                if asks_for(next, t) {
                    let j = choose|j: int|
                        0 <= j < next.len() && toggle_of(#[trigger] next[j]@) == t;
                    if j < i {
                        assert(seen[j] == next[j]);
                    }
                }
                if asks_for(seen, t) {
                    let j = choose|j: int|
                        0 <= j < seen.len() && toggle_of(#[trigger] seen[j]@) == t;
                    assert(next[j] == seen[j]);
                }
                if toggle == t {
                    assert(toggle_of(next[i as int]@) == t);
                }
            }
        }
        match toggle {
            Toggle::Enable(op) => {
                ops.push(op);
                assert(ops@ =~= enabled_ops(seen) + seq![op]);
            },
            Toggle::StackedDivision => {
                flags.allow_stacked_division = true;
            },
            Toggle::PowersOfTwo => {
                flags.allow_powers_of_2 = true;
            },
            Toggle::PowersInRoots => {
                flags.allow_powers_in_roots = true;
            },
            Toggle::Unknown => {
                unknown.push(i);
                assert(unknown@[before.len() as int] == i);
                assert(forall|k: int| 0 <= k < before.len() ==> unknown@[k] == before[k]);
            },
        }
        proof {
            assert forall|j: int| 0 <= j < i + 1 implies (toggle_of(#[trigger] toggles@[j]@)
                == Toggle::Unknown <==> unknown@.contains(j as usize)) by {
                if before.contains(j as usize) {
                    let k = before.index_of(j as usize);
                    assert(unknown@[k] == j);
                }
            }
        }
        i = i + 1;
    }
    proof {
        assert(toggles@.take(i as int) =~= toggles@);
    }
    Configuration { ops, flags, unknown }
}

/// Builds the tree for one request: a root at depth 1 that holds the
/// answer, grown at random and closed with a constant where it did not grow.
pub fn build_tree(answer: i32, depth: i32, ops: &Vec<MathOp>, flags: EngineFlags) -> (tree:
    MathNode)
    requires
        depth >= 1,
        enabled(ops@),
    ensures
        answers(tree, answer as int, depth as int, ops@, flags),
        depth > 1 ==> picked_from(tree, answer as int, candidates(ops@, flags, answer as int)),
{
    let mut root = MathNode::new(MathOp::Null, answer, 1);
    expand_node(&mut root, depth, ops, flags);
    if root.op == MathOp::Null {
        root.op = MathOp::Const;
    }
    root
}

/// Generates an equation for `answer` from enabled operators and flags.
///
/// The result is the text of a tree that answers the request; with a depth
/// of 1 it is the numeral of the answer. No request fails.
pub fn generate(answer: i32, depth: i32, ops: &Vec<MathOp>, flags: EngineFlags) -> (r: Result<
    String,
    StructuralError,
>)
    requires
        depth >= 1,
        enabled(ops@),
    ensures
        r is Ok,
        exists|tree: MathNode| #[trigger]
            answers(tree, answer as int, depth as int, ops@, flags) && r->Ok_0@ == tree.render()
                && (depth > 1 ==> picked_from(
                tree,
                answer as int,
                candidates(ops@, flags, answer as int),
            )),
        depth == 1 ==> r->Ok_0@ == decimal(answer as int),
{
    let root = build_tree(answer, depth, ops, flags);
    let r = format_node(&root);
    assert(answers(root, answer as int, depth as int, ops@, flags));
    r
}

/// Generates an equation for `answer` in three separate phases: the shape of
/// the tree first, without regard to any value, then the values, then the
/// text. Squares are not detected this way, since no value is known while the
/// shape is drawn.
///
/// The result is the text of a tree that answers the request. No request
/// fails: the shape that is drawn holds no constant.
pub fn generate_staged(answer: i32, depth: i32, ops: &Vec<MathOp>, flags: EngineFlags) -> (r:
    Result<String, StructuralError>)
    requires
        depth >= 1,
        enabled(ops@),
    ensures
        r is Ok,
        exists|tree: MathNode| #[trigger]
            answers(tree, answer as int, depth as int, ops@, flags) && r->Ok_0@ == tree.render()
                && (depth > 1 ==> picked_from(
                tree,
                answer as int,
                ops@.filter(|op: MathOp| admitted(op, flags)),
            )),
        depth == 1 ==> r->Ok_0@ == decimal(answer as int),
{
    let mut root = MathNode::new(MathOp::Null, answer, 1);
    shape_node(&mut root, depth, ops, flags);
    proof {
        if ops@.contains(MathOp::Pow2) {
            let j = ops@.index_of(MathOp::Pow2);
            assert(ops@[j].selectable());
        }
        if answerable(answer as int, ops@) {
            lemma_plain_is_exact(root, answer as int);
        }
    }
    match evaluate_node(&mut root, answer) {
        Ok(()) => {},
        Err(error) => {
            return Err(error);
        },
    }
    let r = format_node(&root);
    proof {
        lemma_no_square(root, flags.allow_powers_of_2);
        assert(answers(root, answer as int, depth as int, ops@, flags));
    }
    r
}

/// Generates an equation for `answer` from a list of configuration toggles.
///
/// The result is the text of a tree that answers the request under the
/// operators and flags that the toggles ask for; toggles that are not
/// recognized are passed over.
pub fn get_equation(answer: i32, depth: i32, toggles: Vec<String>) -> (equation: String)
    requires
        depth >= 1,
    ensures
        exists|tree: MathNode| #[trigger]
            answers(
                tree,
                answer as int,
                depth as int,
                enabled_ops(toggles@),
                requested_flags(toggles@),
            ) && equation@ == tree.render() && (depth > 1 ==> picked_from(
                tree,
                answer as int,
                candidates(enabled_ops(toggles@), requested_flags(toggles@), answer as int),
            )),
        depth == 1 ==> equation@ == decimal(answer as int),
{
    let config = read_toggles(&toggles);
    match generate(answer, depth, &config.ops, config.flags) {
        Ok(tex) => tex,
        Err(error) => error.message(),
    }
}

} // verus!
