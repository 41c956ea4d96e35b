use symreg::expr::BinaryOp;
use symreg::expr::Expr;
use symreg::expr::UnaryOp;
use symreg::num::NumOp;
use symreg::vm::compile_expr;

fn real_arith(op: NumOp, a: u64, b: u64) -> u64 {
    let x = f64::from_bits(a);
    let y = f64::from_bits(b);
    match op {
        NumOp::Bin(BinaryOp::Add) => (x + y).to_bits(),
        NumOp::Bin(BinaryOp::Sub) => (x - y).to_bits(),
        NumOp::Bin(BinaryOp::Mul) => (x * y).to_bits(),
        NumOp::Bin(BinaryOp::Div) => (x / y).to_bits(),
        NumOp::Bin(BinaryOp::Pow) => x.powf(y).to_bits(),
        NumOp::Un(UnaryOp::Neg) => (-x).to_bits(),
        NumOp::Un(UnaryOp::Abs) => x.abs().to_bits(),
        NumOp::Un(UnaryOp::Loge) => x.ln().to_bits(),
        NumOp::Un(UnaryOp::Log2) => x.log2().to_bits(),
        NumOp::Un(UnaryOp::Log10) => x.log10().to_bits(),
        NumOp::Un(UnaryOp::Sin) => x.sin().to_bits(),
        NumOp::Un(UnaryOp::Cos) => x.cos().to_bits(),
        NumOp::Un(UnaryOp::Tan) => x.tan().to_bits(),
        NumOp::OfCount => (a as f64).to_bits(),
        NumOp::ToCount => x as u64,
    }
}

fn unit_draw() -> u64 {
    rand::random::<f64>().to_bits()
}

fn fmt_plain(x: u64) -> String {
    format!("{}", f64::from_bits(x))
}

fn fmt_two(x: u64) -> String {
    format!("{:0.2}", f64::from_bits(x))
}

#[test]
fn compiler() {
    let n_vars: usize = 10;
    for _ in 0..10_000 {
        let vars: Vec<u64> = (0..n_vars).map(|_| rand::random::<f64>().to_bits()).collect();
        let mut expr = Expr::new(n_vars);
        expr.random_tree(10, &real_arith, &unit_draw);
        let compiled_expr = compile_expr(&expr);

        let expr_eval = expr.evaluate(&vars, &real_arith);
        let vm_eval = compiled_expr
            .evaluate(&vars, &real_arith)
            .expect("program should be valid");

        if f64::from_bits(expr_eval).is_nan() && f64::from_bits(vm_eval).is_nan() {
            continue;
        }

        println!("--------------");
        println!("{}", expr.rpn(&fmt_two));
        println!("{}", compiled_expr.disassembly(&fmt_plain));

        assert_eq!(expr_eval, vm_eval);
    }
}
