use unsolver::assigner::evaluate_node;
use unsolver::catalog::{MathOp, StructuralError};
use unsolver::formatter::{format_child, format_node};
use unsolver::node::{EngineFlags, MathNode};
use unsolver::shaper::{
    admitted_ops, candidate_ops, create_child, create_slot, expand_node, is_admitted, shape_node,
};

fn leaf(value: i32, depth: i32) -> MathNode {
    MathNode::new(MathOp::Const, value, depth)
}

fn open_leaf(depth: i32) -> MathNode {
    MathNode::new(MathOp::Null, 0, depth)
}

fn join(op: MathOp, value: i32, depth: i32, children: Vec<MathNode>) -> MathNode {
    MathNode { op, value, children, depth }
}

fn text(node: &MathNode) -> String {
    format_node(node).unwrap()
}

fn consistent(node: &MathNode) -> bool {
    let kids = &node.children;
    let here = match node.op {
        MathOp::Add => node.value == kids[0].value + kids[1].value,
        MathOp::Sub => node.value == kids[0].value - kids[1].value,
        MathOp::Mul => node.value == kids[0].value * kids[1].value,
        MathOp::Div => kids[1].value != 0 && kids[0].value == node.value * kids[1].value,
        _ => true,
    };
    here && kids.iter().all(consistent)
}

fn resolved(node: &MathNode) -> bool {
    node.op != MathOp::Null
        && node.children.len() == node.op.arity()
        && node.children.iter().all(resolved)
}

#[test]
fn new_node_has_no_children() {
    let node = MathNode::new(MathOp::Null, 42, 1);
    assert_eq!(node.op, MathOp::Null);
    assert_eq!(node.value, 42);
    assert_eq!(node.depth, 1);
    assert!(node.children.is_empty());
    let flags = EngineFlags::new();
    assert!(!flags.allow_powers_of_2);
    assert!(!flags.allow_powers_in_roots);
    assert!(!flags.allow_stacked_division);
    assert!(!flags.division_parent);
    assert!(!flags.sqrt_parent);
}

#[test]
fn constants_render_as_numerals() {
    assert_eq!(text(&leaf(42, 1)), "42");
    assert_eq!(text(&leaf(0, 1)), "0");
    assert_eq!(text(&leaf(-17, 1)), "-17");
    assert_eq!(text(&leaf(i32::MAX, 1)), "2147483647");
    assert_eq!(text(&leaf(i32::MIN, 1)), "-2147483648");
}

#[test]
fn unresolved_node_cannot_be_formatted() {
    assert_eq!(format_node(&open_leaf(1)), Err(StructuralError::Unresolved));
    let tree = join(MathOp::Add, 3, 1, vec![leaf(1, 2), open_leaf(2)]);
    assert_eq!(format_node(&tree), Err(StructuralError::Unresolved));
    let tree = join(MathOp::Add, 3, 1, vec![open_leaf(2), leaf(2, 2)]);
    assert_eq!(format_node(&tree), Err(StructuralError::Unresolved));
    assert_eq!(format_child(&tree, 0, 4), Err(StructuralError::Unresolved));
    assert_eq!(format_child(&tree, 1, 4), Ok("2".to_string()));
}

#[test]
fn sum_and_product_parenthesize_looser_children_only() {
    let sum = |d: i32| join(MathOp::Add, 3, d, vec![leaf(1, d + 1), leaf(2, d + 1)]);
    let diff = |d: i32| join(MathOp::Sub, 1, d, vec![leaf(3, d + 1), leaf(2, d + 1)]);
    let prod = |d: i32| join(MathOp::Mul, 6, d, vec![leaf(2, d + 1), leaf(3, d + 1)]);
    let frac = |d: i32| join(MathOp::Div, 2, d, vec![leaf(6, d + 1), leaf(3, d + 1)]);

    assert_eq!(text(&sum(1)), "1 + 2");
    assert_eq!(text(&prod(1)), "2 \\times 3");
    assert_eq!(
        text(&join(MathOp::Mul, 9, 1, vec![sum(2), leaf(3, 2)])),
        "(1 + 2) \\times 3"
    );
    assert_eq!(
        text(&join(MathOp::Mul, 9, 1, vec![leaf(3, 2), sum(2)])),
        "3 \\times (1 + 2)"
    );
    assert_eq!(
        text(&join(MathOp::Mul, 3, 1, vec![diff(2), leaf(3, 2)])),
        "(3 - 2) \\times 3"
    );
    assert_eq!(
        text(&join(MathOp::Mul, 36, 1, vec![prod(2), prod(2)])),
        "2 \\times 3 \\times 2 \\times 3"
    );
    assert_eq!(
        text(&join(MathOp::Mul, 12, 1, vec![frac(2), prod(2)])),
        "\\frac{6}{3} \\times 2 \\times 3"
    );
    assert_eq!(
        text(&join(MathOp::Add, 9, 1, vec![prod(2), sum(2)])),
        "2 \\times 3 + 1 + 2"
    );
    assert_eq!(
        text(&join(MathOp::Add, 4, 1, vec![diff(2), sum(2)])),
        "3 - 2 + 1 + 2"
    );
    assert_eq!(
        text(&join(MathOp::Add, 5, 1, vec![frac(2), sum(2)])),
        "\\frac{6}{3} + 1 + 2"
    );
}

#[test]
fn difference_parenthesizes_its_second_operand() {
    let sum = |d: i32| join(MathOp::Add, 3, d, vec![leaf(1, d + 1), leaf(2, d + 1)]);
    let diff = |d: i32| join(MathOp::Sub, 1, d, vec![leaf(3, d + 1), leaf(2, d + 1)]);
    let prod = |d: i32| join(MathOp::Mul, 6, d, vec![leaf(2, d + 1), leaf(3, d + 1)]);
    let frac = |d: i32| join(MathOp::Div, 2, d, vec![leaf(6, d + 1), leaf(3, d + 1)]);

    assert_eq!(text(&diff(1)), "3 - 2");
    assert_eq!(text(&join(MathOp::Sub, 2, 1, vec![leaf(5, 2), sum(2)])), "5 - (1 + 2)");
    assert_eq!(text(&join(MathOp::Sub, 4, 1, vec![leaf(5, 2), diff(2)])), "5 - (3 - 2)");
    assert_eq!(text(&join(MathOp::Sub, 2, 1, vec![sum(2), leaf(1, 2)])), "1 + 2 - 1");
    assert_eq!(text(&join(MathOp::Sub, 0, 1, vec![diff(2), leaf(1, 2)])), "3 - 2 - 1");
    assert_eq!(text(&join(MathOp::Sub, 0, 1, vec![diff(2), diff(2)])), "3 - 2 - (3 - 2)");
    assert_eq!(
        text(&join(MathOp::Sub, 1, 1, vec![leaf(7, 2), prod(2)])),
        "7 - 2 \\times 3"
    );
    assert_eq!(
        text(&join(MathOp::Sub, 5, 1, vec![leaf(7, 2), frac(2)])),
        "7 - \\frac{6}{3}"
    );
    assert_eq!(
        text(&join(MathOp::Sub, 4, 1, vec![prod(2), leaf(2, 2)])),
        "2 \\times 3 - 2"
    );
    assert_eq!(
        text(&join(MathOp::Sub, -1, 1, vec![leaf(5, 2), prod(2)])),
        "5 - 2 \\times 3"
    );
    let root = join(MathOp::Sqrt, 3, 2, vec![leaf(9, 3)]);
    assert_eq!(text(&join(MathOp::Sub, 4, 1, vec![leaf(7, 2), root])), "7 - \\sqrt{9}");
    let square = join(MathOp::Pow2, 9, 2, vec![leaf(3, 3)]);
    assert_eq!(text(&join(MathOp::Sub, 1, 1, vec![leaf(10, 2), square])), "10 - {3}^2");
}

#[test]
fn self_delimiting_operators_add_no_parentheses() {
    let sum = |d: i32| join(MathOp::Add, 3, d, vec![leaf(1, d + 1), leaf(2, d + 1)]);
    assert_eq!(
        text(&join(MathOp::Div, 1, 1, vec![sum(2), sum(2)])),
        "\\frac{1 + 2}{1 + 2}"
    );
    assert_eq!(
        text(&join(MathOp::Div, 4, 1, vec![leaf(12, 2), leaf(3, 2)])),
        "\\frac{12}{3}"
    );
    assert_eq!(text(&join(MathOp::Sqrt, 3, 1, vec![leaf(9, 2)])), "\\sqrt{9}");
    assert_eq!(text(&join(MathOp::Sqrt, 3, 1, vec![sum(2)])), "\\sqrt{1 + 2}");
    assert_eq!(text(&join(MathOp::Sin, 3, 1, vec![leaf(0, 2)])), "\\sin(0)");
    assert_eq!(text(&join(MathOp::Cos, 3, 1, vec![sum(2)])), "\\cos(1 + 2)");
    assert_eq!(text(&join(MathOp::Pow2, 9, 1, vec![leaf(3, 2)])), "{3}^2");
    assert_eq!(text(&join(MathOp::Pow2, 9, 1, vec![sum(2)])), "{(1 + 2)}^2");
    let root = join(MathOp::Sqrt, 3, 2, vec![leaf(9, 3)]);
    assert_eq!(text(&join(MathOp::Pow2, 9, 1, vec![root])), "{\\sqrt{9}}^2");
}

#[test]
fn formatting_twice_gives_the_same_text() {
    let ops = vec![MathOp::Add, MathOp::Sub, MathOp::Mul, MathOp::Div];
    for answer in 1..30 {
        let mut root = MathNode::new(MathOp::Null, answer, 1);
        expand_node(&mut root, 4, &ops, EngineFlags::new());
        let first = format_node(&root);
        let second = format_node(&root);
        assert!(first.is_ok());
        assert_eq!(first, second);
    }
}

#[test]
fn expand_leaves_a_node_at_the_bound_alone() {
    let ops = vec![MathOp::Add, MathOp::Sub];
    let mut root = MathNode::new(MathOp::Null, 9, 3);
    expand_node(&mut root, 3, &ops, EngineFlags::new());
    assert_eq!(root.op, MathOp::Null);
    assert_eq!(root.value, 9);
    assert_eq!(root.depth, 3);
    assert!(root.children.is_empty());
}

#[test]
fn expand_picks_among_the_candidates() {
    let ops = vec![MathOp::Sub, MathOp::Div];
    let mut flags = EngineFlags::new();
    flags.division_parent = true;
    for _ in 0..50 {
        let mut root = MathNode::new(MathOp::Null, 9, 1);
        expand_node(&mut root, 2, &ops, flags);
        assert_eq!(root.op, MathOp::Sub);
        assert_eq!(root.value, 9);
        assert_eq!(root.children.len(), 2);
        assert_eq!(root.children[0].value - root.children[1].value, 9);
        assert_eq!(root.children[0].op, MathOp::Const);
        assert_eq!(root.children[0].depth, 2);
        assert!(consistent(&root));
    }
    let mut root = MathNode::new(MathOp::Null, 9, 1);
    expand_node(&mut root, 2, &vec![MathOp::Div], flags);
    assert_eq!(root.op, MathOp::Const);
    assert_eq!(text(&root), "9");
}

#[test]
fn candidates_follow_the_context() {
    let ops = vec![MathOp::Add, MathOp::Div, MathOp::Sqrt, MathOp::Div];
    let mut flags = EngineFlags::new();
    assert_eq!(admitted_ops(&ops, flags), ops);
    assert_eq!(candidate_ops(&ops, flags, 9), ops);
    flags.division_parent = true;
    assert_eq!(admitted_ops(&ops, flags), vec![MathOp::Add, MathOp::Sqrt]);
    flags.allow_stacked_division = true;
    assert_eq!(admitted_ops(&ops, flags), ops);
    flags.sqrt_parent = true;
    assert_eq!(admitted_ops(&ops, flags), vec![MathOp::Add, MathOp::Div, MathOp::Div]);
    flags.allow_powers_of_2 = true;
    assert_eq!(candidate_ops(&ops, flags, 9), vec![MathOp::Add, MathOp::Div, MathOp::Div]);
    flags.allow_powers_in_roots = true;
    assert_eq!(
        candidate_ops(&ops, flags, 9),
        vec![MathOp::Add, MathOp::Div, MathOp::Div, MathOp::Pow2]
    );
    assert_eq!(candidate_ops(&ops, flags, 10), vec![MathOp::Add, MathOp::Div, MathOp::Div]);
    assert_eq!(candidate_ops(&Vec::new(), flags, 10), Vec::<MathOp>::new());
    assert_eq!(candidate_ops(&Vec::new(), flags, 16), vec![MathOp::Pow2]);
    flags.allow_powers_in_roots = false;
    assert_eq!(candidate_ops(&Vec::new(), flags, 16), Vec::<MathOp>::new());
    flags.sqrt_parent = false;
    assert_eq!(candidate_ops(&Vec::new(), flags, 16), vec![MathOp::Pow2]);
    flags.sqrt_parent = true;

    assert!(is_admitted(MathOp::Add, flags));
    assert!(!is_admitted(MathOp::Sqrt, flags));
    assert!(!is_admitted(MathOp::Pow2, flags));
    flags.allow_powers_in_roots = true;
    assert!(is_admitted(MathOp::Pow2, flags));
    flags.allow_stacked_division = false;
    assert!(!is_admitted(MathOp::Div, flags));
}

#[test]
fn children_are_resolved_one_level_down() {
    let ops = vec![MathOp::Add, MathOp::Mul];
    for _ in 0..50 {
        let child = create_child(12, 2, 4, &ops, EngineFlags::new());
        assert_eq!(child.depth, 2);
        assert_eq!(child.value, 12);
        assert!(resolved(&child));
        assert!(consistent(&child));
    }
    let child = create_child(12, 4, 4, &ops, EngineFlags::new());
    assert_eq!(child.op, MathOp::Const);
    assert_eq!(text(&child), "12");
}

#[test]
fn shapes_hold_no_constants() {
    fn no_constant(node: &MathNode, max_depth: i32) -> bool {
        node.op != MathOp::Const
            && node.depth <= max_depth
            && node.children.len() == node.op.arity()
            && node.children.iter().all(|c| c.depth == node.depth + 1 && no_constant(c, max_depth))
    }
    let ops = vec![MathOp::Add, MathOp::Sub, MathOp::Mul, MathOp::Div, MathOp::Sin];
    for _ in 0..100 {
        let mut root = MathNode::new(MathOp::Null, 0, 1);
        shape_node(&mut root, 4, &ops, EngineFlags::new());
        assert_ne!(root.op, MathOp::Null);
        assert!(no_constant(&root, 4));
        let slot = create_slot(2, 4, &ops, EngineFlags::new());
        assert_eq!(slot.depth, 2);
        assert!(no_constant(&slot, 4));
    }
    let mut root = MathNode::new(MathOp::Null, 0, 4);
    shape_node(&mut root, 4, &ops, EngineFlags::new());
    assert_eq!(root.op, MathOp::Null);
    assert!(root.children.is_empty());
}

#[test]
fn evaluation_assigns_exact_values() {
    let ops = vec![MathOp::Add, MathOp::Sub, MathOp::Mul, MathOp::Div];
    for answer in 1..40 {
        let mut root = MathNode::new(MathOp::Null, 0, 1);
        shape_node(&mut root, 4, &ops, EngineFlags::new());
        assert_eq!(evaluate_node(&mut root, answer), Ok(()));
        assert_eq!(root.value, answer);
        assert_eq!(root.depth, 1);
        assert!(resolved(&root));
        assert!(consistent(&root));
    }
}

#[test]
fn evaluation_of_a_fixed_shape() {
    let mut tree = join(MathOp::Div, 0, 1, vec![open_leaf(2), open_leaf(2)]);
    assert_eq!(evaluate_node(&mut tree, 4), Ok(()));
    assert_eq!(text(&tree), "\\frac{12}{3}");

    let inner = join(MathOp::Div, 0, 2, vec![open_leaf(3), open_leaf(3)]);
    let mut tree = join(MathOp::Div, 0, 1, vec![inner, open_leaf(2)]);
    assert_eq!(evaluate_node(&mut tree, 4), Ok(()));
    assert_eq!(text(&tree), "\\frac{\\frac{60}{5}}{3}");

    let mut tree = join(MathOp::Mul, 0, 1, vec![open_leaf(2), open_leaf(2)]);
    assert_eq!(evaluate_node(&mut tree, 7), Ok(()));
    assert_eq!(tree.op, MathOp::Const);
    assert!(tree.children.is_empty());
    assert_eq!(text(&tree), "7");

    let mut tree = join(MathOp::Add, 0, 1, vec![open_leaf(2), open_leaf(2)]);
    assert_eq!(evaluate_node(&mut tree, 0), Ok(()));
    assert_eq!(text(&tree), "1");

    let mut tree = join(MathOp::Sin, 0, 1, vec![open_leaf(2)]);
    assert_eq!(evaluate_node(&mut tree, 9), Ok(()));
    assert_eq!(text(&tree), "\\sin(0)");

    let mut tree = open_leaf(1);
    assert_eq!(evaluate_node(&mut tree, -3), Ok(()));
    assert_eq!(text(&tree), "-3");
}

#[test]
fn expand_leaves_any_node_at_the_bound_alone() {
    let ops = vec![MathOp::Add, MathOp::Sub];
    let mut node = MathNode::new(MathOp::Const, 9, 3);
    expand_node(&mut node, 3, &ops, EngineFlags::new());
    assert_eq!(node.op, MathOp::Const);
    assert_eq!(node.value, 9);
    assert_eq!(node.depth, 3);
    assert!(node.children.is_empty());
}

#[test]
fn square_below_a_root_needs_its_flag() {
    fn has_square_below_root(node: &MathNode) -> bool {
        node.children.iter().any(|c| {
            (node.op == MathOp::Sqrt && c.op == MathOp::Pow2) || has_square_below_root(c)
        })
    }
    let ops = vec![MathOp::Sqrt, MathOp::Sub];
    let mut flags = EngineFlags::new();
    flags.allow_powers_of_2 = true;
    for answer in 1..20 {
        for _ in 0..20 {
            let mut root = MathNode::new(MathOp::Null, answer, 1);
            expand_node(&mut root, 4, &ops, flags);
            assert!(!has_square_below_root(&root));
        }
    }
    flags.allow_powers_in_roots = true;
    let mut seen = false;
    for _ in 0..400 {
        let mut root = MathNode::new(MathOp::Null, 3, 1);
        expand_node(&mut root, 3, &vec![MathOp::Sqrt], flags);
        let rendered = text(&root);
        assert!(rendered == "\\sqrt{9}" || rendered == "\\sqrt{{3}^2}");
        if has_square_below_root(&root) {
            seen = true;
        }
    }
    assert!(seen);
}

#[test]
fn squares_stand_only_on_detected_perfect_squares() {
    fn check(node: &MathNode, detect: bool) {
        if node.op == MathOp::Pow2 {
            assert!(detect);
            let root: i32 = node.children[0].value;
            assert_eq!(root * root, node.value);
        }
        for child in node.children.iter() {
            check(child, detect);
        }
    }
    let ops = vec![MathOp::Add, MathOp::Sub, MathOp::Div];
    let mut flags = EngineFlags::new();
    for answer in 1..30 {
        let mut root = MathNode::new(MathOp::Null, answer, 1);
        expand_node(&mut root, 4, &ops, flags);
        check(&root, false);
    }
    flags.allow_powers_of_2 = true;
    for answer in 1..30 {
        let mut root = MathNode::new(MathOp::Null, answer, 1);
        expand_node(&mut root, 4, &ops, flags);
        check(&root, true);
    }
}

#[test]
fn evaluation_of_a_square() {
    let mut tree = join(MathOp::Pow2, 0, 1, vec![open_leaf(2)]);
    assert_eq!(evaluate_node(&mut tree, 49), Ok(()));
    assert_eq!(text(&tree), "{7}^2");
    assert_eq!(tree.value, 49);
    assert_eq!(tree.children[0].value, 7);

    let inner = join(MathOp::Pow2, 0, 2, vec![open_leaf(3)]);
    let mut tree = join(MathOp::Sqrt, 0, 1, vec![inner]);
    assert_eq!(evaluate_node(&mut tree, 5), Ok(()));
    assert_eq!(text(&tree), "\\sqrt{{5}^2}");
}

#[test]
fn an_error_leaves_the_node_in_place() {
    let mut node = leaf(5, 1);
    assert_eq!(evaluate_node(&mut node, 9), Err(StructuralError::AlreadyResolved));
    assert_eq!(node.op, MathOp::Const);
    assert_eq!(node.value, 5);
    assert_eq!(node.depth, 1);
    assert!(node.children.is_empty());

    let mut tree = join(MathOp::Div, 77, 1, vec![open_leaf(2), leaf(1, 2)]);
    assert_eq!(evaluate_node(&mut tree, 4), Err(StructuralError::AlreadyResolved));
    assert_eq!(tree.op, MathOp::Div);
    assert_eq!(tree.value, 77);
    assert_eq!(tree.children.len(), 2);
    assert_eq!(tree.children[0].op, MathOp::Const);
    assert_eq!(tree.children[0].value, 12);
    assert_eq!(tree.children[1].op, MathOp::Const);
    assert_eq!(tree.children[1].value, 1);

    let mut tree = join(MathOp::Div, 77, 1, vec![leaf(1, 2), open_leaf(2)]);
    assert_eq!(evaluate_node(&mut tree, 4), Err(StructuralError::AlreadyResolved));
    assert_eq!(tree.op, MathOp::Div);
    assert_eq!(tree.value, 77);
    assert_eq!(tree.children.len(), 2);
    assert_eq!(tree.children[0].value, 1);
    assert_eq!(tree.children[1].op, MathOp::Null);

    let deep = join(MathOp::Sin, 0, 2, vec![leaf(3, 3)]);
    let mut tree = join(MathOp::Sqrt, 0, 1, vec![deep]);
    assert_eq!(evaluate_node(&mut tree, 4), Err(StructuralError::AlreadyResolved));
    assert_eq!(tree.op, MathOp::Sqrt);
    assert_eq!(tree.children.len(), 1);
    assert_eq!(tree.children[0].op, MathOp::Sin);
    assert_eq!(tree.children[0].children.len(), 1);
    assert_eq!(tree.children[0].children[0].value, 3);
}

#[test]
fn evaluating_a_constant_is_an_error() {
    let mut node = leaf(5, 1);
    assert_eq!(evaluate_node(&mut node, 5), Err(StructuralError::AlreadyResolved));

    let mut tree = join(MathOp::Sub, 0, 1, vec![open_leaf(2), leaf(1, 2)]);
    assert_eq!(evaluate_node(&mut tree, 5), Err(StructuralError::AlreadyResolved));

    let mut tree = join(MathOp::Sub, 0, 1, vec![leaf(1, 2), open_leaf(2)]);
    assert_eq!(evaluate_node(&mut tree, 5), Err(StructuralError::AlreadyResolved));
}
