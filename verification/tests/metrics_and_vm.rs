use symreg::expr::BinOp;
use symreg::expr::BinaryOp;
use symreg::expr::Expr;
use symreg::expr::Node;
use symreg::expr::UnOp;
use symreg::expr::UnaryOp;
use symreg::metrics::complexity;
use symreg::metrics::mae;
use symreg::metrics::mse;
use symreg::metrics::regularize;
use symreg::num::NumOp;
use symreg::num::is_nan_bits;
use symreg::num::le_total_bits;
use symreg::vm::compile_expr;

fn real_arith(op: NumOp, a: u64, b: u64) -> u64 {
    let x = f64::from_bits(a);
    let y = f64::from_bits(b);
    match op {
        NumOp::Bin(BinaryOp::Add) => (x + y).to_bits(),
        NumOp::Bin(BinaryOp::Sub) => (x - y).to_bits(),
        NumOp::Bin(BinaryOp::Mul) => (x * y).to_bits(),
        NumOp::Bin(BinaryOp::Div) => (x / y).to_bits(),
        NumOp::Bin(BinaryOp::Pow) => x.powf(y).to_bits(),
        NumOp::Un(UnaryOp::Neg) => (-x).to_bits(),
        NumOp::Un(UnaryOp::Abs) => x.abs().to_bits(),
        NumOp::Un(UnaryOp::Loge) => x.ln().to_bits(),
        NumOp::Un(UnaryOp::Log2) => x.log2().to_bits(),
        NumOp::Un(UnaryOp::Log10) => x.log10().to_bits(),
        NumOp::Un(UnaryOp::Sin) => x.sin().to_bits(),
        NumOp::Un(UnaryOp::Cos) => x.cos().to_bits(),
        NumOp::Un(UnaryOp::Tan) => x.tan().to_bits(),
        NumOp::OfCount => (a as f64).to_bits(),
        NumOp::ToCount => x as u64,
    }
}

fn bits_of(v: &[f64]) -> Vec<u64> {
    v.iter().map(|x| x.to_bits()).collect()
}

#[test]
fn mse_boundaries() {
    let a = bits_of(&[1.0, 2.0, 3.0]);
    let m = mse(&a, &a, &real_arith);
    assert_eq!(f64::from_bits(m), 0.0);

    let p = bits_of(&[0.0]);
    let t = bits_of(&[2.0]);
    let m2 = mse(&p, &t, &real_arith);
    assert_eq!(f64::from_bits(m2), 4.0);
}

#[test]
fn mse_is_non_negative_and_zero_on_itself() {
    for _ in 0..100 {
        let v: Vec<f64> = (0..8).map(|_| rand::random::<f64>() * 100.0 - 50.0).collect();
        let w: Vec<f64> = (0..8).map(|_| rand::random::<f64>() * 100.0 - 50.0).collect();
        let m = f64::from_bits(mse(&bits_of(&v), &bits_of(&w), &real_arith));
        assert!(m >= 0.0);
        let z = f64::from_bits(mse(&bits_of(&v), &bits_of(&v), &real_arith));
        assert_eq!(z, 0.0);
    }
}

#[test]
fn mae_exact_value() {
    let p = bits_of(&[1.0, 5.0]);
    let t = bits_of(&[2.0, 3.0]);
    let m = mae(&p, &t, &real_arith);
    assert_eq!(f64::from_bits(m), (1.0 + 2.0) / 2.0);
}

#[test]
fn complexity_sums_node_costs() {
    // costs: Number 1, Variable 2, Pow 3, Sin 5, Neg 1, Abs 2, Mul 2, Add 1
    let e = Expr {
        nodes: vec![
            Node::Number(0),
            Node::Variable(0),
            Node::BinOp(BinOp { op: BinaryOp::Pow, a: 0, b: 1 }),
            Node::UnOp(UnOp { op: UnaryOp::Sin, a: 2 }),
            Node::UnOp(UnOp { op: UnaryOp::Neg, a: 3 }),
            Node::UnOp(UnOp { op: UnaryOp::Abs, a: 4 }),
            Node::BinOp(BinOp { op: BinaryOp::Mul, a: 5, b: 0 }),
            Node::BinOp(BinOp { op: BinaryOp::Add, a: 6, b: 1 }),
        ],
        root: 7,
        n_inputs: 1,
    };
    assert_eq!(complexity(&e), 1 + 2 + 3 + 5 + 1 + 2 + 2 + 1);
}

#[test]
fn regularize_scales_complexity() {
    let e = Expr {
        nodes: vec![Node::Number(0), Node::Variable(0)],
        root: 1,
        n_inputs: 1,
    };
    let alpha = 0.005f64;
    let r = regularize(&e, alpha.to_bits(), &real_arith);
    assert_eq!(f64::from_bits(r), alpha * 3.0);
}

#[test]
fn nan_bits_are_recognised() {
    assert!(is_nan_bits(f64::NAN.to_bits()));
    assert!(!is_nan_bits(f64::INFINITY.to_bits()));
    assert!(!is_nan_bits((-f64::INFINITY).to_bits()));
    assert!(!is_nan_bits(0.0f64.to_bits()));
    assert!(!is_nan_bits((-1.5f64).to_bits()));
}

#[test]
fn total_order_places_nan_above_numbers() {
    let neg_inf = (-f64::INFINITY).to_bits();
    let minus_one = (-1.0f64).to_bits();
    let zero = 0.0f64.to_bits();
    let one = 1.0f64.to_bits();
    let inf = f64::INFINITY.to_bits();
    let nan = f64::NAN.to_bits();
    assert!(le_total_bits(neg_inf, minus_one));
    assert!(le_total_bits(minus_one, zero));
    assert!(le_total_bits(zero, one));
    assert!(le_total_bits(one, inf));
    assert!(le_total_bits(inf, nan));
    assert!(!le_total_bits(nan, inf));
    assert!(le_total_bits(one, one));
}

#[test]
fn compiled_program_lists_its_opcodes() {
    let e = Expr {
        nodes: vec![
            Node::Number(2.5f64.to_bits()),
            Node::Variable(1),
            Node::BinOp(BinOp { op: BinaryOp::Add, a: 0, b: 1 }),
            Node::UnOp(UnOp { op: UnaryOp::Abs, a: 2 }),
        ],
        root: 3,
        n_inputs: 2,
    };
    let p = compile_expr(&e);
    let listing = p.disassembly(&|x: u64| format!("{}", f64::from_bits(x)));
    assert_eq!(listing, "PUSH 2.5\nPUSH $1\n    ADD\n    CALL $abs\n");
}

#[test]
fn compiled_program_evaluates_like_the_tree() {
    let e = Expr {
        nodes: vec![
            Node::Variable(0),
            Node::Number(3.0f64.to_bits()),
            Node::BinOp(BinOp { op: BinaryOp::Div, a: 0, b: 1 }),
        ],
        root: 2,
        n_inputs: 1,
    };
    let p = compile_expr(&e);
    let row = [12.0f64.to_bits()];
    assert_eq!(p.evaluate(&row, &real_arith), Some(e.evaluate(&row, &real_arith)));
    assert_eq!(f64::from_bits(e.evaluate(&row, &real_arith)), 4.0);
}
