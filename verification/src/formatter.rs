//! Rendering of a finished tree as a typeset equation, with parentheses only
//! where precedence asks for them.

use vstd::prelude::*;
use vstd::string::*;
use crate::catalog::{MathOp, StructuralError};
use crate::node::MathNode;

verus! {

/// The character of one decimal digit.
pub open spec fn digit(d: int) -> char
    recommends
        0 <= d < 10,
{
    (48 + d) as u8 as char
}

/// The decimal numeral of a natural number, without leading zeros.
pub open spec fn digits(n: nat) -> Seq<char>
    decreases n,
{
    if n < 10 {
        seq![digit(n as int)]
    } else {
        digits(n / 10).push(digit((n % 10) as int))
    }
}

/// The decimal numeral of an integer: a minus sign before the digits of a
/// negative one.
pub open spec fn decimal(n: int) -> Seq<char> {
    if n < 0 {
        seq!['-'] + digits((-n) as nat)
    } else {
        digits(n as nat)
    }
}

/// `text`, in parentheses where `parenthesized` holds.
pub open spec fn wrapped(text: Seq<char>, parenthesized: bool) -> Seq<char> {
    if parenthesized {
        "("@ + text + ")"@
    } else {
        text
    }
}

/// The rank above which a child in slot `slot` of a node with operator `op`
/// is put in parentheses. A sum, a product and a square set their own rank,
/// and so does a difference for its first operand. For the second operand
/// of a difference the bar lies one rank lower, so that a sum or a
/// difference there is wrapped although it binds as tight as the node, and
/// everything that binds tighter stands bare. The other operators delimit
/// their operands themselves.
pub open spec fn threshold(op: MathOp, slot: int) -> int {
    match op {
        MathOp::Add | MathOp::Mul | MathOp::Pow2 => op.rank(),
        MathOp::Sub => if slot == 0 {
            op.rank()
        } else {
            op.rank() - 1
        },
        _ => 10000,
    }
}

impl MathNode {
    /// The text of the child in slot `slot`, as it stands in the text of
    /// this node.
    pub open spec fn operand(self, slot: int) -> Seq<char>
        decreases self, 0int,
    {
        if 0 <= slot < self.children@.len() {
            let child = self.children@[slot];
            wrapped(child.render(), child.op.rank() > threshold(self.op, slot))
        } else {
            Seq::empty()
        }
    }

    /// The typeset text of the tree. A node without an operator has none.
    pub open spec fn render(self) -> Seq<char>
        decreases self, 1int,
    {
        match self.op {
            MathOp::Null => Seq::empty(),
            MathOp::Const => decimal(self.value as int),
            MathOp::Add => self.operand(0) + " "@ + "+"@ + " "@ + self.operand(1),
            MathOp::Sub => self.operand(0) + " "@ + "-"@ + " "@ + self.operand(1),
            MathOp::Mul => self.operand(0) + " "@ + "\\times"@ + " "@ + self.operand(1),
            MathOp::Div => "\\frac{"@ + self.operand(0) + "}{"@ + self.operand(1) + "}"@,
            MathOp::Pow2 => "{"@ + self.operand(0) + "}^2"@,
            MathOp::Sqrt => "\\sqrt{"@ + self.operand(0) + "}"@,
            MathOp::Sin => "\\sin("@ + self.operand(0) + ")"@,
            MathOp::Cos => "\\cos("@ + self.operand(0) + ")"@,
        }
    }

    /// What formatting the tree gives: its text where every node has an
    /// operator, and an error where one has none.
    pub open spec fn formats_to(self, r: Result<String, StructuralError>) -> bool {
        if self.resolved() {
            r is Ok && r->Ok_0@ == self.render()
        } else {
            r == Err::<String, StructuralError>(StructuralError::Unresolved)
        }
    }
}

/// The text of one decimal digit.
fn digit_text(d: u32) -> (text: &'static str)
    requires
        d < 10,
    ensures
        text@ == seq![digit(d as int)],
{
    proof {
        reveal_strlit("0");
        reveal_strlit("1");
        reveal_strlit("2");
        reveal_strlit("3");
        reveal_strlit("4");
        reveal_strlit("5");
        reveal_strlit("6");
        reveal_strlit("7");
        reveal_strlit("8");
        reveal_strlit("9");
    }
    let text = match d {
        0 => "0",
        1 => "1",
        2 => "2",
        3 => "3",
        4 => "4",
        5 => "5",
        6 => "6",
        7 => "7",
        8 => "8",
        _ => "9",
    };
    assert(text@ =~= seq![digit(d as int)]);
    text
}

/// The decimal numeral of a natural number.
fn write_digits(n: u32) -> (text: String)
    ensures
        text@ == digits(n as nat),
    decreases n,
{
    if n < 10 {
        String::from_str(digit_text(n))
    } else {
        let mut text = write_digits(n / 10);
        text.append(digit_text(n % 10));
        assert(text@ =~= digits((n / 10) as nat).push(digit((n % 10) as int)));
        text
    }
}

/// The decimal numeral of `value`.
pub fn numeral(value: i32) -> (text: String)
    ensures
        text@ == decimal(value as int),
{
    if value < 0 {
        let size: u32 = (-(value as i64)) as u32;
        let mut text = String::from_str("-");
        let rest = write_digits(size);
        text.append(rest.as_str());
        proof {
            reveal_strlit("-");
            assert("-"@ =~= seq!['-']);
        }
        text
    } else {
        write_digits(value as u32)
    }
}

/// The text of the child in slot `index` of `node`, in parentheses where
/// the child binds looser than `prec`.
pub fn format_child(node: &MathNode, index: usize, prec: i32) -> (r: Result<
    String,
    StructuralError,
>)
    requires
        node.well_formed(),
        index < node.children@.len(),
    ensures
        node.children@[index as int].resolved() ==> r is Ok && r->Ok_0@ == wrapped(
            node.children@[index as int].render(),
            node.children@[index as int].op.rank() > prec,
        ),
        !node.children@[index as int].resolved() ==> r == Err::<String, StructuralError>(
            StructuralError::Unresolved,
        ),
    decreases node, 0int,
{
    let child = &node.children[index];
    match format_node(child) {
        Ok(formatted) => {
            if child.op.precedence() > prec {
                let mut out = String::from_str("(");
                out.append(formatted.as_str());
                out.append(")");
                Ok(out)
            } else {
                Ok(formatted)
            }
        },
        Err(error) => Err(error),
    }
}

/// Joins two operands with an infix symbol and a space on either side.
fn infix(left: String, symbol: &str, right: String) -> (out: String)
    ensures
        out@ == left@ + " "@ + symbol@ + " "@ + right@,
{
    let mut out = left;
    out.append(" ");
    out.append(symbol);
    out.append(" ");
    out.append(right.as_str());
    out
}

/// Puts one operand between an opening and a closing text.
fn enclosed(open: &str, inner: String, close: &str) -> (out: String)
    ensures
        out@ == open@ + inner@ + close@,
{
    let mut out = String::from_str(open);
    out.append(inner.as_str());
    out.append(close);
    out
}

/// Renders the tree below `node`.
///
/// Fails on a tree that holds a node without an operator, and on no other.
pub fn format_node(node: &MathNode) -> (r: Result<String, StructuralError>)
    requires
        node.well_formed(),
    ensures
        node.formats_to(r),
    decreases node, 1int,
{
    match node.op {
        MathOp::Null => Err(StructuralError::Unresolved),
        MathOp::Const => Ok(numeral(node.value)),
        MathOp::Add | MathOp::Mul => {
            let this_prec = node.op.precedence();
            let left = match format_child(node, 0, this_prec) {
                Ok(text) => text,
                Err(error) => { return Err(error); },
            };
            let right = match format_child(node, 1, this_prec) {
                Ok(text) => text,
                Err(error) => { return Err(error); },
            };
            match node.op.symbol() {
                Ok(symbol) => Ok(infix(left, symbol.as_str(), right)),
                Err(error) => Err(error),
            }
        },
        MathOp::Sub => {
            let this_prec = node.op.precedence();
            let left = match format_child(node, 0, this_prec) {
                Ok(text) => text,
                Err(error) => { return Err(error); },
            };
            let right = match format_child(node, 1, this_prec - 1) {
                Ok(text) => text,
                Err(error) => { return Err(error); },
            };
            match node.op.symbol() {
                Ok(symbol) => Ok(infix(left, symbol.as_str(), right)),
                Err(error) => Err(error),
            }
        },
        MathOp::Div => {
            let left = match format_child(node, 0, 10000) {
                Ok(text) => text,
                Err(error) => { return Err(error); },
            };
            let right = match format_child(node, 1, 10000) {
                Ok(text) => text,
                Err(error) => { return Err(error); },
            };
            let mut out = enclosed("\\frac{", left, "}{");
            out.append(right.as_str());
            out.append("}");
            Ok(out)
        },
        MathOp::Pow2 => {
            let this_prec = node.op.precedence();
            match format_child(node, 0, this_prec) {
                Ok(inner) => Ok(enclosed("{", inner, "}^2")),
                Err(error) => Err(error),
            }
        },
        MathOp::Sqrt => {
            match format_child(node, 0, 10000) {
                Ok(inner) => Ok(enclosed("\\sqrt{", inner, "}")),
                Err(error) => Err(error),
            }
        },
        MathOp::Sin => {
            match format_child(node, 0, 10000) {
                Ok(inner) => Ok(enclosed("\\sin(", inner, ")")),
                Err(error) => Err(error),
            }
        },
        MathOp::Cos => {
            match format_child(node, 0, 10000) {
                Ok(inner) => Ok(enclosed("\\cos(", inner, ")")),
                Err(error) => Err(error),
            }
        },
    }
}

/// Formatting is a function of the tree: two results of formatting the same
/// tree agree, in whether they are a text and in every character of it.
pub proof fn lemma_format_deterministic(
    node: MathNode,
    first: Result<String, StructuralError>,
    second: Result<String, StructuralError>,
)
    requires
        node.formats_to(first),
        node.formats_to(second),
    ensures
        first is Ok <==> second is Ok,
        first is Ok ==> first->Ok_0@ == second->Ok_0@,
        first is Err ==> first == second,
{
}

/// Parentheses of a sum and a product: an operand stands in parentheses
/// exactly where the child's operator has a strictly looser rank than the
/// node's.
pub proof fn lemma_parentheses_by_rank(node: MathNode, slot: int)
    requires
        node.well_formed(),
        node.op == MathOp::Add || node.op == MathOp::Mul,
        0 <= slot < 2,
    ensures
        node.operand(slot) == wrapped(
            node.children@[slot].render(),
            node.children@[slot].op.rank() > node.op.rank(),
        ),
        node.op == MathOp::Add ==> node.render() == node.operand(0) + " "@ + "+"@ + " "@
            + node.operand(1),
        node.op == MathOp::Mul ==> node.render() == node.operand(0) + " "@ + "\\times"@ + " "@
            + node.operand(1),
{
}

/// Parentheses of a difference: the second operand stands in parentheses
/// exactly where it is itself a sum or a difference, though its rank is
/// then that of the node; the first operand follows the ranks.
pub proof fn lemma_parentheses_of_difference(node: MathNode)
    requires
        node.well_formed(),
        node.op == MathOp::Sub,
    ensures
        node.render() == node.operand(0) + " "@ + "-"@ + " "@ + node.operand(1),
        node.operand(0) == wrapped(
            node.children@[0].render(),
            node.children@[0].op.rank() > node.op.rank(),
        ),
        node.operand(1) == wrapped(
            node.children@[1].render(),
            node.children@[1].op == MathOp::Add || node.children@[1].op == MathOp::Sub,
        ),
{
}

} // verus!
