use symreg::expr::BinaryOp;
use symreg::expr::Expr;
use symreg::expr::Node;
use symreg::expr::UnaryOp;
use symreg::num::NumOp;
use symreg::optimizer::GeneticParameters;
use symreg::optimizer::Individual;
use symreg::optimizer::genetic_optimizer;
use symreg::optimizer::naive_montecarlo;
use symreg::optimizer::selection_count;
use symreg::optimizer::sort_by_loss_total;
use symreg::vec2d::Vec2d;
use symreg::vm::compile_expr;

fn real_arith(op: NumOp, a: u64, b: u64) -> u64 {
    let x = f64::from_bits(a);
    let y = f64::from_bits(b);
    match op {
        NumOp::Bin(BinaryOp::Add) => (x + y).to_bits(),
        NumOp::Bin(BinaryOp::Sub) => (x - y).to_bits(),
        NumOp::Bin(BinaryOp::Mul) => (x * y).to_bits(),
        NumOp::Bin(BinaryOp::Div) => (x / y).to_bits(),
        NumOp::Bin(BinaryOp::Pow) => x.powf(y).to_bits(),
        NumOp::Un(UnaryOp::Neg) => (-x).to_bits(),
        NumOp::Un(UnaryOp::Abs) => x.abs().to_bits(),
        NumOp::Un(UnaryOp::Loge) => x.ln().to_bits(),
        NumOp::Un(UnaryOp::Log2) => x.log2().to_bits(),
        NumOp::Un(UnaryOp::Log10) => x.log10().to_bits(),
        NumOp::Un(UnaryOp::Sin) => x.sin().to_bits(),
        NumOp::Un(UnaryOp::Cos) => x.cos().to_bits(),
        NumOp::Un(UnaryOp::Tan) => x.tan().to_bits(),
        NumOp::OfCount => (a as f64).to_bits(),
        NumOp::ToCount => x as u64,
    }
}

fn unit_draw() -> u64 {
    rand::random::<f64>().to_bits()
}

fn individual_with_loss(loss: f64) -> Individual {
    let expr = Expr {
        nodes: vec![Node::Number(0.0f64.to_bits())],
        root: 0,
        n_inputs: 1,
    };
    let compiled_expr = compile_expr(&expr);
    Individual { expr, compiled_expr, loss: loss.to_bits() }
}

#[test]
fn sorting_orders_losses_with_nan_last() {
    let mut population = vec![
        individual_with_loss(3.0),
        individual_with_loss(f64::NAN),
        individual_with_loss(-1.0),
        individual_with_loss(f64::INFINITY),
        individual_with_loss(0.5),
        individual_with_loss(-f64::INFINITY),
    ];
    sort_by_loss_total(&mut population);
    let losses: Vec<f64> = population.iter().map(|i| f64::from_bits(i.loss)).collect();
    assert_eq!(losses[0], -f64::INFINITY);
    assert_eq!(losses[1], -1.0);
    assert_eq!(losses[2], 0.5);
    assert_eq!(losses[3], 3.0);
    assert_eq!(losses[4], f64::INFINITY);
    assert!(losses[5].is_nan());
    for pair in population.windows(2) {
        let a = f64::from_bits(pair[0].loss);
        let b = f64::from_bits(pair[1].loss);
        assert!(a.total_cmp(&b) != std::cmp::Ordering::Greater);
    }
}

#[test]
fn selection_count_takes_the_cutoff_fraction() {
    assert_eq!(selection_count(1000, 0.1f64.to_bits(), &real_arith), 100);
    assert_eq!(selection_count(7, 0.5f64.to_bits(), &real_arith), 3);
}

#[test]
fn zero_cutoff_is_refused() {
    let mut x: Vec2d<u64> = Vec2d::new(1);
    x.push_slice(&[0.0f64.to_bits()]);
    let y = vec![0.0f64.to_bits()];
    let params = GeneticParameters {
        population_size: 10,
        cutoff: 0.0f64.to_bits(),
        mutation_rate: 0.1f64.to_bits(),
    };
    let r = genetic_optimizer(2, &x, &y, &params, &real_arith, &unit_draw);
    assert!(r.is_none());
}

#[test]
fn identity_regression() {
    let mut x: Vec2d<u64> = Vec2d::new(1);
    let mut y: Vec<u64> = Vec::new();
    for i in 0..5 {
        x.push_slice(&[(i as f64).to_bits()]);
        y.push((i as f64).to_bits());
    }
    let params = GeneticParameters {
        population_size: 500,
        cutoff: 0.1f64.to_bits(),
        mutation_rate: 0.1f64.to_bits(),
    };
    let (loss, best) = genetic_optimizer(50, &x, &y, &params, &real_arith, &unit_draw)
        .expect("the cutoff keeps parents");
    assert!(f64::from_bits(loss) < 0.1, "final loss was {}", f64::from_bits(loss));
    for i in 0..5 {
        let row = [(i as f64).to_bits()];
        let out = f64::from_bits(best.evaluate(&row, &real_arith));
        assert!((out - i as f64).abs() <= 0.1, "row {} gave {}", i, out);
    }
}

#[test]
fn naive_baseline_returns_a_candidate() {
    let mut x: Vec2d<u64> = Vec2d::new(1);
    let mut y: Vec<u64> = Vec::new();
    for i in 0..5 {
        x.push_slice(&[(i as f64).to_bits()]);
        y.push((i as f64).to_bits());
    }
    let (loss, best) = naive_montecarlo(300, x, y, &real_arith, &unit_draw);
    if !best.nodes.is_empty() {
        let row = [1.0f64.to_bits()];
        let _ = best.evaluate(&row, &real_arith);
        assert!(!f64::from_bits(loss).is_nan());
    } else {
        assert_eq!(loss, f64::INFINITY.to_bits());
    }
}

#[test]
fn default_parameters() {
    let p = GeneticParameters::default();
    assert_eq!(p.population_size, 1000);
    assert_eq!(f64::from_bits(p.cutoff), 0.1);
    assert_eq!(f64::from_bits(p.mutation_rate), 0.01);
}
