use symreg::expr::BinaryOp;
use symreg::expr::Expr;
use symreg::expr::Node;
use symreg::expr::UnaryOp;
use symreg::num::NumOp;

fn real_arith(op: NumOp, a: u64, b: u64) -> u64 {
    let x = f64::from_bits(a);
    let y = f64::from_bits(b);
    match op {
        NumOp::Bin(BinaryOp::Add) => (x + y).to_bits(),
        NumOp::Bin(BinaryOp::Sub) => (x - y).to_bits(),
        NumOp::Bin(BinaryOp::Mul) => (x * y).to_bits(),
        NumOp::Bin(BinaryOp::Div) => (x / y).to_bits(),
        NumOp::Bin(BinaryOp::Pow) => x.powf(y).to_bits(),
        NumOp::Un(UnaryOp::Neg) => (-x).to_bits(),
        NumOp::Un(UnaryOp::Abs) => x.abs().to_bits(),
        NumOp::Un(UnaryOp::Loge) => x.ln().to_bits(),
        NumOp::Un(UnaryOp::Log2) => x.log2().to_bits(),
        NumOp::Un(UnaryOp::Log10) => x.log10().to_bits(),
        NumOp::Un(UnaryOp::Sin) => x.sin().to_bits(),
        NumOp::Un(UnaryOp::Cos) => x.cos().to_bits(),
        NumOp::Un(UnaryOp::Tan) => x.tan().to_bits(),
        NumOp::OfCount => (a as f64).to_bits(),
        NumOp::ToCount => x as u64,
    }
}

fn unit_draw() -> u64 {
    rand::random::<f64>().to_bits()
}

fn fmt_two(x: u64) -> String {
    format!("{:0.2}", f64::from_bits(x))
}

enum Parsed {
    Leaf(String),
    Unary(String, Box<Parsed>),
    Binary(String, Box<Parsed>, Box<Parsed>),
}

fn binary_symbol(tok: &str) -> bool {
    matches!(tok, "+" | "-" | "*" | "/" | "^")
}

fn unary_name(tok: &str) -> bool {
    matches!(tok, "neg" | "abs" | "ln" | "log2" | "log10" | "sin" | "cos" | "tan")
}

fn parse_rpn(text: &str) -> Option<Parsed> {
    let mut stack: Vec<Parsed> = Vec::new();
    for tok in text.split(' ') {
        if binary_symbol(tok) {
            let b = stack.pop()?;
            let a = stack.pop()?;
            stack.push(Parsed::Binary(tok.to_string(), Box::new(a), Box::new(b)));
        } else if unary_name(tok) {
            let a = stack.pop()?;
            stack.push(Parsed::Unary(tok.to_string(), Box::new(a)));
        } else {
            stack.push(Parsed::Leaf(tok.to_string()));
        }
    }
    if stack.len() == 1 { stack.pop() } else { None }
}

fn matches_tree(expr: &Expr, node: usize, parsed: &Parsed) -> bool {
    match (&expr.nodes[node], parsed) {
        (Node::Number(x), Parsed::Leaf(t)) => *t == fmt_two(*x),
        (Node::Variable(p), Parsed::Leaf(t)) => *t == format!("${}", p),
        (Node::UnOp(u), Parsed::Unary(name, a)) => {
            let expect = match u.op {
                UnaryOp::Neg => "neg",
                UnaryOp::Abs => "abs",
                UnaryOp::Loge => "ln",
                UnaryOp::Log2 => "log2",
                UnaryOp::Log10 => "log10",
                UnaryOp::Sin => "sin",
                UnaryOp::Cos => "cos",
                UnaryOp::Tan => "tan",
            };
            name == expect && matches_tree(expr, u.a, a)
        },
        (Node::BinOp(b), Parsed::Binary(sym, l, r)) => {
            let expect = match b.op {
                BinaryOp::Add => "+",
                BinaryOp::Sub => "-",
                BinaryOp::Mul => "*",
                BinaryOp::Div => "/",
                BinaryOp::Pow => "^",
            };
            sym == expect && matches_tree(expr, b.a, l) && matches_tree(expr, b.b, r)
        },
        _ => false,
    }
}

#[test]
fn rpn_is_stable_and_reconstructs_the_tree() {
    for _ in 0..10_000 {
        let mut expr = Expr::new(4);
        expr.random_tree(6, &real_arith, &unit_draw);
        let first = expr.rpn(&fmt_two);
        let second = expr.rpn(&fmt_two);
        assert_eq!(first, second);
        let parsed = parse_rpn(&first).expect("postfix tokens should balance");
        assert!(matches_tree(&expr, expr.root, &parsed));
    }
}
