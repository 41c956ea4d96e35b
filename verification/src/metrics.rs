//! Loss and regularisation: mean error measures over prediction vectors,
//! and the node-count penalty on expressions.
//!
//! The error measures fold caller-supplied arithmetic over the vectors, so
//! their contracts are stated relationally over that arithmetic's possible
//! answers; the complexity sum is plain integer arithmetic and is exact.

use crate::expr::BinaryOp;
use crate::expr::Expr;
use crate::expr::Node;
use crate::expr::UnaryOp;
use crate::num::NumOp;
use crate::num::num_total;
use vstd::prelude::*;

verus! {

/// The regularisation cost of one node.
pub open spec fn spec_node_cost(node: Node) -> int {
    match node {
        Node::Number(_) => 1,
        Node::Variable(_) => 2,
        Node::UnOp(u) => match u.op {
            UnaryOp::Neg => 1,
            UnaryOp::Abs => 2,
            _ => 5,
        },
        Node::BinOp(b) => match b.op {
            BinaryOp::Add => 1,
            BinaryOp::Sub => 1,
            BinaryOp::Mul => 2,
            BinaryOp::Div => 2,
            BinaryOp::Pow => 3,
        },
    }
}

/// The summed cost of every node of the arena, dead nodes included.
pub open spec fn spec_complexity(nodes: Seq<Node>) -> int
    decreases nodes.len(),
{
    if nodes.len() == 0 {
        0
    } else {
        spec_complexity(nodes.drop_last()) + spec_node_cost(nodes.last())
    }
}

/// The cost of one node, decided on the node.
fn node_cost(node: &Node) -> (r: u64)
    ensures
        r == spec_node_cost(*node),
{
    match node {
        Node::Number(_) => 1,
        Node::Variable(_) => 2,
        Node::UnOp(u) => match u.op {
            UnaryOp::Neg => 1,
            UnaryOp::Abs => 2,
            _ => 5,
        },
        Node::BinOp(b) => match b.op {
            BinaryOp::Add => 1,
            BinaryOp::Sub => 1,
            BinaryOp::Mul => 2,
            BinaryOp::Div => 2,
            BinaryOp::Pow => 3,
        },
    }
}

/// Each node costs between 1 and 5, so the sum is bounded by five nodes'
/// worth.
proof fn lemma_complexity_bounds(nodes: Seq<Node>)
    ensures
        0 <= spec_complexity(nodes) <= 5 * nodes.len(),
    decreases nodes.len(),
{
    if nodes.len() > 0 {
        lemma_complexity_bounds(nodes.drop_last());
    }
}

/// Sums the cost of every node of the expression's arena.
pub fn complexity(model: &Expr) -> (r: u64)
    requires
        5 * model.nodes@.len() <= u64::MAX,
    ensures
        r == spec_complexity(model.nodes@),
{
    let mut sum: u64 = 0;
    let mut i: usize = 0;
    proof {
        lemma_complexity_bounds(model.nodes@.take(0));
    }
    while i < model.nodes.len()
        invariant
            5 * model.nodes@.len() <= u64::MAX,
            i <= model.nodes@.len(),
            sum == spec_complexity(model.nodes@.take(i as int)),
            sum <= 5 * i,
        decreases model.nodes@.len() - i,
    {
        proof {
            lemma_complexity_bounds(model.nodes@.take(i as int));
            assert(model.nodes@.take(i + 1 as int).drop_last() =~= model.nodes@.take(i as int));
            assert(model.nodes@.take(i + 1 as int).last() == model.nodes@[i as int]);
        }
        let c = node_cost(&model.nodes[i]);
        sum = sum + c;
        i += 1;
    }
    proof {
        assert(model.nodes@.take(i as int) =~= model.nodes@);
    }
    sum
}

/// `r` is an answer the arithmetic may give for `alpha` times the
/// complexity of the arena.
pub open spec fn regularize_rel<F: Fn(NumOp, u64, u64) -> u64>(
    f: F,
    nodes: Seq<Node>,
    alpha: u64,
    r: u64,
) -> bool {
    exists|c: u64|
        #[trigger] call_ensures(f, (NumOp::OfCount, spec_complexity(nodes) as u64, 0u64), c)
            && call_ensures(f, (NumOp::Bin(BinaryOp::Mul), alpha, c), r)
}

/// The node-count penalty: `alpha` times the summed node cost.
pub fn regularize<F: Fn(NumOp, u64, u64) -> u64>(model: &Expr, alpha: u64, num: &F) -> (r: u64)
    requires
        num_total(*num),
        5 * model.nodes@.len() <= u64::MAX,
    ensures
        regularize_rel(*num, model.nodes@, alpha, r),
{
    let total = complexity(model);
    let c = num(NumOp::OfCount, total, 0);
    let r = num(NumOp::Bin(BinaryOp::Mul), alpha, c);
    proof {
        assert(call_ensures(*num, (NumOp::OfCount, total, 0u64), c));
        assert(call_ensures(*num, (NumOp::Bin(BinaryOp::Mul), alpha, c), r));
    }
    r
}

/// `acc` is a possible left fold of `+ (truth[k] - pred[k])^2` over the
/// first `i` rows, starting from the bits of positive zero.
pub open spec fn mse_sum_rel<F: Fn(NumOp, u64, u64) -> u64>(
    f: F,
    pred: Seq<u64>,
    truth: Seq<u64>,
    i: int,
    acc: u64,
) -> bool
    decreases i,
{
    if i <= 0 {
        acc == 0u64
    } else {
        exists|prev: u64, d: u64, sq: u64|
            #![trigger call_ensures(f, (NumOp::Bin(BinaryOp::Mul), d, d), sq), call_ensures(f, (NumOp::Bin(BinaryOp::Add), prev, sq), acc)]
            mse_sum_rel(f, pred, truth, i - 1, prev) && call_ensures(
                f,
                (NumOp::Bin(BinaryOp::Sub), truth[i - 1], pred[i - 1]),
                d,
            ) && call_ensures(f, (NumOp::Bin(BinaryOp::Mul), d, d), sq) && call_ensures(
                f,
                (NumOp::Bin(BinaryOp::Add), prev, sq),
                acc,
            )
    }
}

/// `r` is a possible mean squared error of the two vectors: the summed
/// squared differences divided by the length.
pub open spec fn mse_rel<F: Fn(NumOp, u64, u64) -> u64>(
    f: F,
    pred: Seq<u64>,
    truth: Seq<u64>,
    r: u64,
) -> bool {
    exists|acc: u64, n: u64|
        #![trigger call_ensures(f, (NumOp::Bin(BinaryOp::Div), acc, n), r)]
        mse_sum_rel(f, pred, truth, pred.len() as int, acc) && call_ensures(
            f,
            (NumOp::OfCount, pred.len() as u64, 0u64),
            n,
        ) && call_ensures(f, (NumOp::Bin(BinaryOp::Div), acc, n), r)
}

/// The mean squared error of a prediction vector against a truth vector.
pub fn mse<F: Fn(NumOp, u64, u64) -> u64>(y_pred: &[u64], y_true: &[u64], num: &F) -> (r: u64)
    requires
        num_total(*num),
        y_pred@.len() == y_true@.len(),
        y_pred@.len() >= 1,
    ensures
        mse_rel(*num, y_pred@, y_true@, r),
{
    let n = y_pred.len();
    let mut acc: u64 = 0;
    let mut i: usize = 0;
    while i < n
        invariant
            num_total(*num),
            n == y_pred@.len(),
            n == y_true@.len(),
            i <= n,
            mse_sum_rel(*num, y_pred@, y_true@, i as int, acc),
        decreases n - i,
    {
        let p = *vstd::slice::slice_index_get(y_pred, i);
        let t = *vstd::slice::slice_index_get(y_true, i);
        let d = num(NumOp::Bin(BinaryOp::Sub), t, p);
        let sq = num(NumOp::Bin(BinaryOp::Mul), d, d);
        let next = num(NumOp::Bin(BinaryOp::Add), acc, sq);
        proof {
            assert(call_ensures(*num, (NumOp::Bin(BinaryOp::Sub), t, p), d));
            assert(call_ensures(*num, (NumOp::Bin(BinaryOp::Mul), d, d), sq));
            assert(call_ensures(*num, (NumOp::Bin(BinaryOp::Add), acc, sq), next));
        }
        acc = next;
        i += 1;
    }
    let count = num(NumOp::OfCount, n as u64, 0);
    let r = num(NumOp::Bin(BinaryOp::Div), acc, count);
    proof {
        assert(call_ensures(*num, (NumOp::OfCount, n as u64, 0u64), count));
        assert(call_ensures(*num, (NumOp::Bin(BinaryOp::Div), acc, count), r));
    }
    r
}

/// `acc` is a possible left fold of `+ |truth[k] - pred[k]|` over the
/// first `i` rows, starting from the bits of positive zero.
pub open spec fn mae_sum_rel<F: Fn(NumOp, u64, u64) -> u64>(
    f: F,
    pred: Seq<u64>,
    truth: Seq<u64>,
    i: int,
    acc: u64,
) -> bool
    decreases i,
{
    if i <= 0 {
        acc == 0u64
    } else {
        exists|prev: u64, d: u64, ad: u64|
            #![trigger call_ensures(f, (NumOp::Un(UnaryOp::Abs), d, 0u64), ad), call_ensures(f, (NumOp::Bin(BinaryOp::Add), prev, ad), acc)]
            mae_sum_rel(f, pred, truth, i - 1, prev) && call_ensures(
                f,
                (NumOp::Bin(BinaryOp::Sub), truth[i - 1], pred[i - 1]),
                d,
            ) && call_ensures(f, (NumOp::Un(UnaryOp::Abs), d, 0u64), ad) && call_ensures(
                f,
                (NumOp::Bin(BinaryOp::Add), prev, ad),
                acc,
            )
    }
}

/// `r` is a possible mean absolute error of the two vectors.
pub open spec fn mae_rel<F: Fn(NumOp, u64, u64) -> u64>(
    f: F,
    pred: Seq<u64>,
    truth: Seq<u64>,
    r: u64,
) -> bool {
    exists|acc: u64, n: u64|
        #![trigger call_ensures(f, (NumOp::Bin(BinaryOp::Div), acc, n), r)]
        mae_sum_rel(f, pred, truth, pred.len() as int, acc) && call_ensures(
            f,
            (NumOp::OfCount, pred.len() as u64, 0u64),
            n,
        ) && call_ensures(f, (NumOp::Bin(BinaryOp::Div), acc, n), r)
}

/// The mean absolute error of a prediction vector against a truth vector.
pub fn mae<F: Fn(NumOp, u64, u64) -> u64>(y_pred: &Vec<u64>, y_true: &Vec<u64>, num: &F) -> (r: u64)
    requires
        num_total(*num),
        y_pred@.len() == y_true@.len(),
        y_pred@.len() >= 1,
    ensures
        mae_rel(*num, y_pred@, y_true@, r),
{
    let n = y_pred.len();
    let mut acc: u64 = 0;
    let mut i: usize = 0;
    while i < n
        invariant
            num_total(*num),
            n == y_pred@.len(),
            n == y_true@.len(),
            i <= n,
            mae_sum_rel(*num, y_pred@, y_true@, i as int, acc),
        decreases n - i,
    {
        let d = num(NumOp::Bin(BinaryOp::Sub), y_true[i], y_pred[i]);
        let ad = num(NumOp::Un(UnaryOp::Abs), d, 0);
        let next = num(NumOp::Bin(BinaryOp::Add), acc, ad);
        proof {
            assert(call_ensures(*num, (NumOp::Bin(BinaryOp::Sub), y_true@[i as int], y_pred@[i as int]), d));
            assert(call_ensures(*num, (NumOp::Un(UnaryOp::Abs), d, 0u64), ad));
            assert(call_ensures(*num, (NumOp::Bin(BinaryOp::Add), acc, ad), next));
        }
        acc = next;
        i += 1;
    }
    let count = num(NumOp::OfCount, n as u64, 0);
    let r = num(NumOp::Bin(BinaryOp::Div), acc, count);
    proof {
        assert(call_ensures(*num, (NumOp::OfCount, n as u64, 0u64), count));
        assert(call_ensures(*num, (NumOp::Bin(BinaryOp::Div), acc, count), r));
    }
    r
}

} // verus!
