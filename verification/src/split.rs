//! Decomposition of one required value under one operator: the values that
//! the operator's children have to take so that it reproduces the value.

use vstd::prelude::*;
use crate::catalog::MathOp;
use crate::node::MathNode;
use crate::numeric::{
    ceil_sqrt, floor_sqrt, is_ceil_sqrt, is_floor_sqrt, lemma_square_between, perfect_square,
};
use crate::random::{pick_one, random_i32};

verus! {

/// What a node becomes once its value has been decomposed.
#[derive(PartialEq, Eq, Structural, Clone, Copy, Debug)]
pub enum Split {
    /// No decomposition: the node is a constant with this value.
    Leaf(i32),
    /// One child with this value.
    Unary(i32),
    /// Two children with these values, first and second.
    Binary(i32, i32),
}

/// `x` can be held by a node.
pub open spec fn fits(x: int) -> bool {
    i32::MIN <= x <= i32::MAX
}

/// The distance of `x` from zero.
pub open spec fn magnitude(x: int) -> int {
    if x < 0 {
        -x
    } else {
        x
    }
}

/// A random word reduced to an offset in `0..bound`.
pub open spec fn offset(draw: int, bound: int) -> int
    recommends
        bound > 0,
{
    magnitude(draw) % bound
}

/// `d` divides `value` and lies strictly between 1 and `value`.
pub open spec fn proper_divisor(value: int, d: int) -> bool {
    2 <= d < value && value % d == 0
}

/// The number of different subtrahends a difference with result `value` is
/// drawn from.
pub open spec fn spread(value: int) -> int {
    if value == 0 {
        1
    } else {
        magnitude(value)
    }
}

/// A difference with this result can be formed without leaving `i32`.
pub open spec fn difference_fits(value: int) -> bool {
    -i32::MAX <= value && 2 * value <= i32::MAX
}

/// Addition: `value > 1` is cut into two positive parts, the first of them
/// `1 + offset(draw, value - 1)`; any other value collapses to the constant 1.
pub open spec fn sum_split(value: int, draw: int) -> Split {
    if value > 1 {
        let left = 1 + offset(draw, value - 1);
        Split::Binary(left as i32, (value - left) as i32)
    } else {
        Split::Leaf(1)
    }
}

/// Subtraction: the subtrahend is `1 + offset(draw, spread(value))` and the
/// minuend lies that far above `value`. Where the largest such pair would
/// leave `i32`, the node stays a constant.
pub open spec fn difference_split(value: int, draw: int) -> Split {
    if difference_fits(value) {
        let right = 1 + offset(draw, spread(value));
        Split::Binary((value + right) as i32, right as i32)
    } else {
        Split::Leaf(value as i32)
    }
}

/// Multiplication: the picked divisor and its cofactor, or the constant
/// where there was no divisor to pick.
pub open spec fn product_split(value: int, factor: Option<i32>) -> Split {
    match factor {
        Some(left) => Split::Binary(left, (value / (left as int)) as i32),
        None => Split::Leaf(value as i32),
    }
}

/// Division by the denominator `bottom`: the numerator is `value * bottom`,
/// and where that leaves `i32` the node stays a constant.
pub open spec fn quotient_split(value: int, bottom: int) -> Split {
    if fits(value * bottom) {
        Split::Binary((value * bottom) as i32, bottom as i32)
    } else {
        Split::Leaf(value as i32)
    }
}

/// Root extraction: the radicand is the square of `value`, and where that
/// leaves `i32` the node stays a constant.
pub open spec fn root_split(value: int) -> Split {
    if fits(value * value) {
        Split::Unary((value * value) as i32)
    } else {
        Split::Leaf(value as i32)
    }
}

/// What holds of the decomposition of `value` under `op`, whatever was drawn.
pub open spec fn valid_split(op: MathOp, value: int, s: Split) -> bool {
    match op {
        MathOp::Null | MathOp::Const => s == Split::Leaf(value as i32),
        MathOp::Add => exists|draw: int| fits(draw) && s == #[trigger] sum_split(value, draw),
        MathOp::Sub => exists|draw: int|
            fits(draw) && s == #[trigger] difference_split(value, draw),
        MathOp::Mul => {
            ||| s == Split::Leaf(value as i32) && forall|d: int| !proper_divisor(value, d)
            ||| exists|d: i32| #[trigger]
                proper_divisor(value, d as int) && s == product_split(value, Some(d))
        },
        MathOp::Div => exists|root: int| #[trigger]
            is_ceil_sqrt(value, root) && s == quotient_split(value, root + 1),
        MathOp::Sqrt => s == root_split(value),
        MathOp::Pow2 => exists|root: int| #[trigger]
            is_floor_sqrt(value, root) && s == Split::Unary(root as i32),
        MathOp::Sin | MathOp::Cos => s == Split::Unary(0),
    }
}

impl MathNode {
    /// The node took the value `part` that was handed to it: it holds that
    /// value, or it is the constant 1 that a sum of a value below 1
    /// collapses to.
    pub open spec fn took(self, part: int) -> bool {
        self.value == part || (part < 1 && self.value == 1 && self.op == MathOp::Const)
    }

    /// At every node that has children, the node's value was decomposed
    /// under the node's operator and each child took its part.
    pub open spec fn decomposed(self) -> bool
        decreases self,
    {
        let kids = self.children@;
        &&& kids.len() == 1 ==> exists|part: i32| #[trigger]
            valid_split(self.op, self.value as int, Split::Unary(part)) && kids[0].took(
                part as int,
            )
        &&& kids.len() == 2 ==> exists|first: i32, second: i32| #[trigger]
            valid_split(self.op, self.value as int, Split::Binary(first, second))
                && kids[0].took(first as int) && kids[1].took(second as int)
        &&& forall|i: int| 0 <= i < kids.len() ==> (#[trigger] kids[i]).decomposed()
    }
}

/// The children's values in `s`, combined by `op`, give exactly `value`: a
/// constant holds it, a quotient has a positive denominator and leaves no
/// remainder, and a root is the one that is not negative. Nothing is asked
/// of a sine or cosine.
pub open spec fn reproduces(op: MathOp, value: int, s: Split) -> bool {
    match s {
        Split::Leaf(constant) => constant == value,
        Split::Unary(inner) => match op {
            MathOp::Sqrt => value >= 0 && inner == value * value,
            MathOp::Pow2 => inner * inner == value,
            MathOp::Sin | MathOp::Cos => true,
            _ => false,
        },
        Split::Binary(first, second) => match op {
            MathOp::Add => first + second == value,
            MathOp::Sub => first - second == value,
            MathOp::Mul => first * second == value,
            MathOp::Div => second > 0 && first == value * second,
            _ => false,
        },
    }
}

/// The values that `s` hands to the children all satisfy `holds`.
pub open spec fn parts_satisfy(s: Split, holds: spec_fn(int) -> bool) -> bool {
    match s {
        Split::Leaf(_) => true,
        Split::Unary(inner) => holds(inner as int),
        Split::Binary(first, second) => holds(first as int) && holds(second as int),
    }
}

/// Reduces a random word to an offset below `bound`.
pub fn pick_below(draw: i32, bound: i64) -> (r: i64)
    requires
        0 < bound <= 0x8000_0000,
    ensures
        r == offset(draw as int, bound as int),
        0 <= r < bound,
{
    let wide: i64 = draw as i64;
    let size: i64 = if wide < 0 {
        -wide
    } else {
        wide
    };
    size % bound
}

/// Decomposes a sum.
pub fn split_sum(value: i32, draw: i32) -> (s: Split)
    ensures
        s == sum_split(value as int, draw as int),
        value > 1 ==> (s matches Split::Binary(left, right) && 1 <= left < value && left + right
            == value),
{
    if value > 1 {
        let left: i64 = 1 + pick_below(draw, value as i64 - 1);
        let right: i64 = value as i64 - left;
        Split::Binary(left as i32, right as i32)
    } else {
        Split::Leaf(1)
    }
}

/// Decomposes a difference.
pub fn split_difference(value: i32, draw: i32) -> (s: Split)
    ensures
        s == difference_split(value as int, draw as int),
        difference_fits(value as int) ==> (s matches Split::Binary(left, right) && left - right
            == value && 1 <= right <= spread(value as int)),
{
    if value < -i32::MAX || value > i32::MAX / 2 {
        return Split::Leaf(value);
    }
    let wide: i64 = value as i64;
    let bound: i64 = if wide == 0 {
        1
    } else if wide < 0 {
        -wide
    } else {
        wide
    };
    let right: i64 = 1 + pick_below(draw, bound);
    let left: i64 = wide + right;
    Split::Binary(left as i32, right as i32)
}

/// The divisors of `value` strictly between 1 and `value`, in ascending
/// order.
pub fn proper_divisors(value: i32) -> (found: Vec<i32>)
    ensures
        forall|d: int| proper_divisor(value as int, d) <==> exists|i: int|
            0 <= i < found@.len() && #[trigger] found@[i] == d,
        forall|i: int, j: int| 0 <= i < j < found@.len() ==> found@[i] < found@[j],
{
    let mut found: Vec<i32> = Vec::new();
    let mut d: i32 = 2;
    while d < value
        invariant
            2 <= d,
            d <= value || value < 2,
            forall|e: int|
                (proper_divisor(value as int, e) && e < d) <==> exists|i: int|
                    0 <= i < found@.len() && #[trigger] found@[i] == e,
            forall|i: int, j: int| 0 <= i < j < found@.len() ==> found@[i] < found@[j],
            forall|i: int| 0 <= i < found@.len() ==> #[trigger] found@[i] < d,
        decreases value - d,
    {
        if value % d == 0 {
            let ghost before = found@;
            found.push(d);
            assert(found@[before.len() as int] == d);
            assert(forall|i: int| 0 <= i < before.len() ==> found@[i] == before[i]);
        }
        d = d + 1;
    }
    found
}

/// Decomposes a product, given the divisor that was picked, if any.
pub fn split_product(value: i32, factor: Option<i32>) -> (s: Split)
    requires
        factor matches Some(d) ==> proper_divisor(value as int, d as int),
    ensures
        s == product_split(value as int, factor),
        factor matches Some(d) ==> (s matches Split::Binary(left, right) && left == d && left
            * right == value && 2 <= right < value),
{
    match factor {
        Some(left) => {
            let right: i32 = value / left;
            proof {
                lemma_cofactor(value as int, left as int);
            }
            Split::Binary(left, right)
        },
        None => Split::Leaf(value),
    }
}

/// A proper divisor has a proper cofactor.
pub proof fn lemma_cofactor(value: int, d: int)
    requires
        proper_divisor(value, d),
    ensures
        d * (value / d) == value,
        2 <= value / d < value,
{
    let q = value / d;
    assert(value == d * q + value % d) by {
        vstd::arithmetic::div_mod::lemma_fundamental_div_mod(value, d);
    }
    assert(2 <= q < value) by (nonlinear_arith)
        requires
            value == d * q,
            2 <= d < value,
    ;
}

/// Decomposes a quotient: the denominator is one more than the square root
/// of `value`, rounded up.
pub fn split_quotient(value: i32) -> (s: Split)
    ensures
        exists|root: int| #[trigger]
            is_ceil_sqrt(value as int, root) && s == quotient_split(value as int, root + 1),
{
    let root: i32 = ceil_sqrt(value);
    let bottom: i64 = root as i64 + 1;
    assert(-0x8000_0000 * 46342 <= value * bottom <= 0x8000_0000 * 46342) by (nonlinear_arith)
        requires
            -0x8000_0000 <= value <= 0x7fff_ffff,
            1 <= bottom <= 46342,
    ;
    let top: i64 = value as i64 * bottom;
    let s = if top < i32::MIN as i64 || top > i32::MAX as i64 {
        Split::Leaf(value)
    } else {
        Split::Binary(top as i32, bottom as i32)
    };
    assert(is_ceil_sqrt(value as int, root as int) && s == quotient_split(
        value as int,
        root as int + 1,
    ));
    s
}

/// Decomposes a root: the radicand is the square of `value`.
pub fn split_root(value: i32) -> (s: Split)
    ensures
        s == root_split(value as int),
{
    assert(0 <= value * value <= 0x8000_0000 * 0x8000_0000) by (nonlinear_arith)
        requires
            -0x8000_0000 <= value <= 0x7fff_ffff,
    ;
    let square: i64 = value as i64 * value as i64;
    if square > i32::MAX as i64 {
        Split::Leaf(value)
    } else {
        Split::Unary(square as i32)
    }
}

/// Value consistency of one decomposition: whatever was drawn, the parts
/// that an operator hands to its children give back the value they were cut
/// from. A sum asks for a value of at least 1, a root for one that is not
/// negative, a square for a perfect square.
pub proof fn lemma_split_reproduces(op: MathOp, value: int, s: Split)
    requires
        fits(value),
        valid_split(op, value, s),
        op == MathOp::Add ==> value >= 1,
        op == MathOp::Sqrt ==> value >= 0,
        op == MathOp::Pow2 ==> perfect_square(value),
    ensures
        reproduces(op, value, s),
{
    match op {
        MathOp::Add => {
            let draw = choose|draw: int| fits(draw) && s == #[trigger] sum_split(value, draw);
            if value > 1 {
                lemma_offset_range(draw, value - 1);
            }
        },
        MathOp::Sub => {
            let draw = choose|draw: int|
                fits(draw) && s == #[trigger] difference_split(value, draw);
            lemma_offset_range(draw, spread(value));
        },
        MathOp::Mul => {
            if !(s == Split::Leaf(value as i32)) {
                let d = choose|d: i32| #[trigger]
                    proper_divisor(value, d as int) && s == product_split(value, Some(d));
                lemma_cofactor(value, d as int);
            }
        },
        MathOp::Div => {
            let root = choose|root: int| #[trigger]
                is_ceil_sqrt(value, root) && s == quotient_split(value, root + 1);
            lemma_ceil_sqrt_small(value, root);
        },
        MathOp::Pow2 => {
            let root = choose|root: int| #[trigger]
                is_floor_sqrt(value, root) && s == Split::Unary(root as i32);
            let w = choose|w: int| 0 <= w && #[trigger] (w * w) == value;
            lemma_floor_sqrt_small(value, root);
            if value > 0 {
                lemma_square_between(root, w);
            } else {
                assert(root * root == 0) by (nonlinear_arith)
                    requires
                        root == 0,
                ;
                assert(w * w >= 0) by (nonlinear_arith);
            }
        },
        _ => {},
    }
}

/// An offset lies below its bound.
pub proof fn lemma_offset_range(draw: int, bound: int)
    requires
        bound > 0,
    ensures
        0 <= offset(draw, bound) < bound,
{
    vstd::arithmetic::div_mod::lemma_mod_bound(magnitude(draw), bound);
}

/// The rounded-up square root of a value that fits is small.
pub proof fn lemma_ceil_sqrt_small(value: int, root: int)
    requires
        fits(value),
        is_ceil_sqrt(value, root),
    ensures
        0 <= root <= 46341,
{
    if root > 46341 {
        assert((root - 1) * (root - 1) >= 46341 * 46341) by (nonlinear_arith)
            requires
                root - 1 >= 46341,
        ;
    }
}

/// The rounded-down square root of a value that fits is small.
pub proof fn lemma_floor_sqrt_small(value: int, root: int)
    requires
        fits(value),
        is_floor_sqrt(value, root),
    ensures
        0 <= root <= 46340,
{
    if root > 46340 {
        assert(root * root >= 46341 * 46341) by (nonlinear_arith)
            requires
                root >= 46341,
        ;
    }
}

/// The values that a decomposition hands down are positive where the value
/// they were cut from is, unless a sine or cosine hands down its zero, and
/// not negative where it is not.
pub proof fn lemma_split_parts(op: MathOp, value: int, s: Split)
    requires
        fits(value),
        valid_split(op, value, s),
    ensures
        value >= 1 && op != MathOp::Sin && op != MathOp::Cos ==> parts_satisfy(
            s,
            |part: int| part >= 1,
        ),
        value >= 0 ==> parts_satisfy(s, |part: int| part >= 0),
{
    match op {
        MathOp::Add => {
            let draw = choose|draw: int| fits(draw) && s == #[trigger] sum_split(value, draw);
            if value > 1 {
                lemma_offset_range(draw, value - 1);
            }
        },
        MathOp::Sub => {
            let draw = choose|draw: int|
                fits(draw) && s == #[trigger] difference_split(value, draw);
            lemma_offset_range(draw, spread(value));
        },
        MathOp::Mul => {
            if !(s == Split::Leaf(value as i32)) {
                let d = choose|d: i32| #[trigger]
                    proper_divisor(value, d as int) && s == product_split(value, Some(d));
                lemma_cofactor(value, d as int);
            }
        },
        MathOp::Div => {
            let root = choose|root: int| #[trigger]
                is_ceil_sqrt(value, root) && s == quotient_split(value, root + 1);
            lemma_ceil_sqrt_small(value, root);
            if value >= 0 {
                assert(value * (root + 1) >= value) by (nonlinear_arith)
                    requires
                        value >= 0,
                        root >= 0,
                ;
            }
        },
        MathOp::Sqrt => {
            if value >= 0 {
                assert(value * value >= value) by (nonlinear_arith)
                    requires
                        value >= 0,
                ;
            }
        },
        MathOp::Pow2 => {
            let root = choose|root: int| #[trigger]
                is_floor_sqrt(value, root) && s == Split::Unary(root as i32);
            lemma_floor_sqrt_small(value, root);
        },
        _ => {},
    }
}

/// Decomposes `value` under `op`, drawing what the operator leaves open.
pub fn decompose(op: MathOp, value: i32) -> (s: Split)
    ensures
        valid_split(op, value as int, s),
{
    match op {
        MathOp::Null | MathOp::Const => Split::Leaf(value),
        MathOp::Add => {
            let draw: i32 = random_i32();
            let s = split_sum(value, draw);
            assert(fits(draw as int) && s == sum_split(value as int, draw as int));
            s
        },
        MathOp::Sub => {
            let draw: i32 = random_i32();
            let s = split_difference(value, draw);
            assert(fits(draw as int) && s == difference_split(value as int, draw as int));
            s
        },
        MathOp::Mul => {
            let divisors = proper_divisors(value);
            let factor = pick_one(&divisors);
            proof {
                if let Some(d) = factor {
                    let i = divisors@.index_of(d);
                    assert(divisors@[i] == d);
                    assert(proper_divisor(value as int, d as int));
                } else {
                    assert forall|d: int| !proper_divisor(value as int, d) by {
                        if proper_divisor(value as int, d) {
                            let i = choose|i: int| 0 <= i < divisors@.len() && divisors@[i] == d;
                        }
                    }
                }
            }
            split_product(value, factor)
        },
        MathOp::Div => split_quotient(value),
        MathOp::Sqrt => split_root(value),
        MathOp::Pow2 => {
            let root: i32 = floor_sqrt(value);
            assert(is_floor_sqrt(value as int, root as int));
            Split::Unary(root)
        },
        MathOp::Sin | MathOp::Cos => Split::Unary(0),
    }
}

} // verus!
