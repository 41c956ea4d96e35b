use symreg::expr::BinOp;
use symreg::expr::BinaryOp;
use symreg::expr::Expr;
use symreg::expr::Node;
use symreg::expr::UnOp;
use symreg::expr::UnaryOp;
use symreg::num::NumOp;

fn real_arith(op: NumOp, a: u64, b: u64) -> u64 {
    let x = f64::from_bits(a);
    let y = f64::from_bits(b);
    match op {
        NumOp::Bin(BinaryOp::Add) => (x + y).to_bits(),
        NumOp::Bin(BinaryOp::Sub) => (x - y).to_bits(),
        NumOp::Bin(BinaryOp::Mul) => (x * y).to_bits(),
        NumOp::Bin(BinaryOp::Div) => (x / y).to_bits(),
        NumOp::Bin(BinaryOp::Pow) => x.powf(y).to_bits(),
        NumOp::Un(UnaryOp::Neg) => (-x).to_bits(),
        NumOp::Un(UnaryOp::Abs) => x.abs().to_bits(),
        NumOp::Un(UnaryOp::Loge) => x.ln().to_bits(),
        NumOp::Un(UnaryOp::Log2) => x.log2().to_bits(),
        NumOp::Un(UnaryOp::Log10) => x.log10().to_bits(),
        NumOp::Un(UnaryOp::Sin) => x.sin().to_bits(),
        NumOp::Un(UnaryOp::Cos) => x.cos().to_bits(),
        NumOp::Un(UnaryOp::Tan) => x.tan().to_bits(),
        NumOp::OfCount => (a as f64).to_bits(),
        NumOp::ToCount => x as u64,
    }
}

fn unit_draw() -> u64 {
    rand::random::<f64>().to_bits()
}

fn fmt_two(x: u64) -> String {
    format!("{:0.2}", f64::from_bits(x))
}

fn child_indices(node: &Node) -> Vec<usize> {
    match node {
        Node::Number(_) => vec![],
        Node::Variable(_) => vec![],
        Node::UnOp(u) => vec![u.a],
        Node::BinOp(b) => vec![b.a, b.b],
    }
}

#[test]
fn fresh_trees_are_post_order() {
    for _ in 0..200 {
        let mut expr = Expr::new(4);
        expr.random_tree(6, &real_arith, &unit_draw);
        assert_eq!(expr.root, expr.nodes.len() - 1);
        for (i, node) in expr.nodes.iter().enumerate() {
            for c in child_indices(node) {
                assert!(c < i, "child index must be strictly below its parent");
            }
            if let Node::Variable(v) = node {
                assert!(*v < expr.n_inputs);
            }
        }
    }
}

#[test]
fn mutation_keeps_links_valid_and_never_shrinks() {
    for _ in 0..100 {
        let mut expr = Expr::new(3);
        expr.random_tree(6, &real_arith, &unit_draw);
        let before = expr.nodes.len();
        let mutated = expr.mutate(0.5f64.to_bits(), &real_arith, &unit_draw);
        assert!(mutated.nodes.len() >= before);
        assert_eq!(mutated.n_inputs, expr.n_inputs);
        assert_eq!(mutated.root, expr.root);
        let n = mutated.nodes.len();
        for node in mutated.nodes.iter() {
            for c in child_indices(node) {
                assert!(c < n, "child index must stay valid after mutation");
            }
            if let Node::Variable(v) = node {
                assert!(*v < mutated.n_inputs);
            }
        }
        // Evaluation from the root terminates and yields a value.
        let row = [1.0f64.to_bits(), 2.0f64.to_bits(), 3.0f64.to_bits()];
        let _ = mutated.evaluate(&row, &real_arith);
    }
}

#[test]
fn evaluate_applies_each_operator() {
    let two = 2.0f64.to_bits();
    let three = 3.0f64.to_bits();
    let bin_cases = [
        (BinaryOp::Add, 2.0f64 + 3.0),
        (BinaryOp::Sub, 2.0 - 3.0),
        (BinaryOp::Mul, 2.0 * 3.0),
        (BinaryOp::Div, 2.0 / 3.0),
        (BinaryOp::Pow, 2.0f64.powf(3.0)),
    ];
    for (op, expected) in bin_cases {
        let e = Expr {
            nodes: vec![
                Node::Number(two),
                Node::Number(three),
                Node::BinOp(BinOp { op, a: 0, b: 1 }),
            ],
            root: 2,
            n_inputs: 0,
        };
        assert_eq!(e.evaluate(&[], &real_arith), expected.to_bits());
    }
    let un_cases = [
        (UnaryOp::Neg, -2.0f64),
        (UnaryOp::Abs, 2.0f64.abs()),
        (UnaryOp::Loge, 2.0f64.ln()),
        (UnaryOp::Log2, 2.0f64.log2()),
        (UnaryOp::Log10, 2.0f64.log10()),
        (UnaryOp::Sin, 2.0f64.sin()),
        (UnaryOp::Cos, 2.0f64.cos()),
        (UnaryOp::Tan, 2.0f64.tan()),
    ];
    for (op, expected) in un_cases {
        let e = Expr {
            nodes: vec![Node::Number(two), Node::UnOp(UnOp { op, a: 0 })],
            root: 1,
            n_inputs: 0,
        };
        assert_eq!(e.evaluate(&[], &real_arith), expected.to_bits());
    }
}

#[test]
fn evaluate_reads_inputs() {
    let e = Expr {
        nodes: vec![
            Node::Variable(0),
            Node::Variable(2),
            Node::BinOp(BinOp { op: BinaryOp::Add, a: 0, b: 1 }),
        ],
        root: 2,
        n_inputs: 3,
    };
    let row = [10.0f64.to_bits(), 20.0f64.to_bits(), 30.0f64.to_bits()];
    assert_eq!(e.evaluate(&row, &real_arith), 40.0f64.to_bits());
}

#[test]
fn rpn_writes_postfix_tokens() {
    let e = Expr {
        nodes: vec![
            Node::Number(2.0f64.to_bits()),
            Node::Variable(13),
            Node::BinOp(BinOp { op: BinaryOp::Pow, a: 0, b: 1 }),
            Node::UnOp(UnOp { op: UnaryOp::Sin, a: 2 }),
        ],
        root: 3,
        n_inputs: 14,
    };
    assert_eq!(e.rpn(&fmt_two), "2.00 $13 ^ sin");
}

#[test]
fn rpn_formats_constants_with_two_decimals() {
    let e = Expr {
        nodes: vec![Node::Number((-3.14159f64).to_bits())],
        root: 0,
        n_inputs: 0,
    };
    assert_eq!(e.rpn(&fmt_two), "-3.14");
}

#[test]
fn duplicate_copies_exactly() {
    let mut expr = Expr::new(2);
    expr.random_tree(5, &real_arith, &unit_draw);
    let copy = expr.duplicate();
    assert_eq!(copy.nodes, expr.nodes);
    assert_eq!(copy.root, expr.root);
    assert_eq!(copy.n_inputs, expr.n_inputs);
}
