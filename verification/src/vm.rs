//! The stack machine: post-order compilation of an expression into a
//! linear opcode program, and a stack evaluator for such programs.
//!
//! The meaning of a program is given relationally, one opcode at a time,
//! over the caller-supplied arithmetic; the stack *shape* (its depth after
//! each opcode), by contrast, does not depend on the arithmetic at all and
//! is given by a plain function.  Compiled programs are proved to have a
//! clean shape, so evaluating one never underflows and always returns a
//! value.

use crate::expr::BinaryOp;
use crate::expr::Expr;
use crate::expr::Node;
use crate::expr::UnaryOp;
use crate::expr::acyclic;
use crate::expr::node_vars_ok;
use crate::expr::rank_ok;
use crate::expr::rank_ok_at;
use crate::expr::eval_rel;
use crate::expr::fmt_total;
use crate::expr::some_rank;
use crate::expr::vars_ok;
use crate::num::NumOp;
use crate::num::num_functional;
use crate::num::num_total;
use vstd::prelude::*;
use vstd::string::StringExecFns;

verus! {

/// A value pushed by a `Push` opcode.
#[derive(Debug, Clone, Copy, PartialEq, Eq, Structural)]
pub enum Value {
    /// An immediate constant, as IEEE 754 bits.
    Literal(u64),
    /// An index into the input row.
    Ptr(usize),
}

/// A unary function invoked by the `Call` opcode.
#[derive(Debug, Clone, Copy, PartialEq, Eq, Structural)]
pub enum BuiltinFunction {
    Abs,
    Loge,
    Log2,
    Log10,
    Sin,
    Cos,
    Tan,
}

/// One opcode of the straight-line stack machine.  A binary opcode pops
/// `b`, then `a`, and pushes `a ⊕ b`; `Neg` and `Call` replace the top of
/// the stack.
#[derive(Debug, Clone, Copy, PartialEq, Eq, Structural)]
pub enum Op {
    Push(Value),
    Add,
    Sub,
    Mul,
    Div,
    Pow,
    Neg,
    Call(BuiltinFunction),
}

/// A compiled program: an immutable opcode sequence.
#[derive(Debug, Clone)]
pub struct Program {
    ops: Vec<Op>,
}

/// The opcode a binary expression node compiles to.
pub open spec fn op_of_binary(op: BinaryOp) -> Op {
    match op {
        BinaryOp::Add => Op::Add,
        BinaryOp::Sub => Op::Sub,
        BinaryOp::Mul => Op::Mul,
        BinaryOp::Div => Op::Div,
        BinaryOp::Pow => Op::Pow,
    }
}

/// The opcode a unary expression node compiles to.
pub open spec fn op_of_unary(op: UnaryOp) -> Op {
    match op {
        UnaryOp::Neg => Op::Neg,
        UnaryOp::Abs => Op::Call(BuiltinFunction::Abs),
        UnaryOp::Loge => Op::Call(BuiltinFunction::Loge),
        UnaryOp::Log2 => Op::Call(BuiltinFunction::Log2),
        UnaryOp::Log10 => Op::Call(BuiltinFunction::Log10),
        UnaryOp::Sin => Op::Call(BuiltinFunction::Sin),
        UnaryOp::Cos => Op::Call(BuiltinFunction::Cos),
        UnaryOp::Tan => Op::Call(BuiltinFunction::Tan),
    }
}

/// The binary operator an opcode asks the arithmetic for, if any.
pub open spec fn binary_of_op(op: Op) -> Option<BinaryOp> {
    match op {
        Op::Add => Some(BinaryOp::Add),
        Op::Sub => Some(BinaryOp::Sub),
        Op::Mul => Some(BinaryOp::Mul),
        Op::Div => Some(BinaryOp::Div),
        Op::Pow => Some(BinaryOp::Pow),
        _ => None,
    }
}

/// The unary operator an opcode asks the arithmetic for, if any.
pub open spec fn unary_of_op(op: Op) -> Option<UnaryOp> {
    match op {
        Op::Neg => Some(UnaryOp::Neg),
        Op::Call(BuiltinFunction::Abs) => Some(UnaryOp::Abs),
        Op::Call(BuiltinFunction::Loge) => Some(UnaryOp::Loge),
        Op::Call(BuiltinFunction::Log2) => Some(UnaryOp::Log2),
        Op::Call(BuiltinFunction::Log10) => Some(UnaryOp::Log10),
        Op::Call(BuiltinFunction::Sin) => Some(UnaryOp::Sin),
        Op::Call(BuiltinFunction::Cos) => Some(UnaryOp::Cos),
        Op::Call(BuiltinFunction::Tan) => Some(UnaryOp::Tan),
        _ => None,
    }
}

/// How many operands an opcode pops before pushing its one result.
pub open spec fn op_pops(op: Op) -> int {
    match op {
        Op::Push(_) => 0,
        Op::Neg => 1,
        Op::Call(_) => 1,
        _ => 2,
    }
}

/// The post-order compilation of the subtree rooted at node `i`: children
/// first (left, then right), then the node's own opcode.
pub open spec fn spec_flatten(nodes: Seq<Node>, i: int) -> Seq<Op>
    decreases some_rank(nodes)[i]
        when acyclic(nodes) && 0 <= i < nodes.len()
{
    match nodes[i] {
        Node::Number(x) => seq![Op::Push(Value::Literal(x))],
        Node::Variable(p) => seq![Op::Push(Value::Ptr(p))],
        Node::UnOp(u) => {
            proof {
                assert(rank_ok(nodes, some_rank(nodes)));
                assert(rank_ok_at(nodes, some_rank(nodes), i));
            }
            spec_flatten(nodes, u.a as int).push(op_of_unary(u.op))
        },
        Node::BinOp(b) => {
            proof {
                assert(rank_ok(nodes, some_rank(nodes)));
                assert(rank_ok_at(nodes, some_rank(nodes), i));
            }
            spec_flatten(nodes, b.a as int) + spec_flatten(nodes, b.b as int) + seq![
                op_of_binary(b.op),
            ]
        },
    }
}

/// One opcode may turn stack `s` into stack `s2`, reading `inputs` and
/// asking the arithmetic `f` for operator results.
pub open spec fn step_rel<F: Fn(NumOp, u64, u64) -> u64>(
    f: F,
    op: Op,
    inputs: Seq<u64>,
    s: Seq<u64>,
    s2: Seq<u64>,
) -> bool {
    match op {
        Op::Push(Value::Literal(x)) => s2 == s.push(x),
        Op::Push(Value::Ptr(p)) => p < inputs.len() && s2 == s.push(inputs[p as int]),
        _ => {
            if binary_of_op(op) is Some {
                &&& s.len() >= 2
                &&& exists|v: u64|
                    #[trigger] call_ensures(
                        f,
                        (NumOp::Bin(binary_of_op(op)->0), s[s.len() - 2], s[s.len() - 1]),
                        v,
                    ) && s2 == s.take(s.len() - 2).push(v)
            } else {
                &&& s.len() >= 1
                &&& exists|v: u64|
                    #[trigger] call_ensures(f, (NumOp::Un(unary_of_op(op)->0), s.last(), 0u64), v)
                        && s2 == s.drop_last().push(v)
            }
        },
    }
}

/// Running `ops` may turn stack `s` into stack `s2`.
pub open spec fn run_rel<F: Fn(NumOp, u64, u64) -> u64>(
    f: F,
    ops: Seq<Op>,
    inputs: Seq<u64>,
    s: Seq<u64>,
    s2: Seq<u64>,
) -> bool
    decreases ops.len(),
{
    if ops.len() == 0 {
        s2 == s
    } else {
        exists|mid: Seq<u64>|
            #[trigger] step_rel(f, ops[0], inputs, s, mid) && run_rel(f, ops.skip(1), inputs, mid, s2)
    }
}

/// The stack depth after running `ops` from depth `depth`, or `None` when
/// some opcode would underflow.  The depth does not depend on the values.
pub open spec fn shape_after(ops: Seq<Op>, depth: int) -> Option<int>
    decreases ops.len(),
{
    if ops.len() == 0 {
        Some(depth)
    } else if depth >= op_pops(ops[0]) {
        shape_after(ops.skip(1), depth - op_pops(ops[0]) + 1)
    } else {
        None
    }
}

/// Every `Push` of an input cell in `op` reads below `n`.
pub open spec fn ptr_in(op: Op, n: int) -> bool {
    match op {
        Op::Push(Value::Ptr(p)) => p < n,
        _ => true,
    }
}

/// The shape function distributes over concatenation.
pub proof fn lemma_shape_compose(a: Seq<Op>, b: Seq<Op>, d: int)
    ensures
        shape_after(a + b, d) == (match shape_after(a, d) {
            Some(m) => shape_after(b, m),
            None => None,
        }),
    decreases a.len(),
{
    if a.len() == 0 {
        assert(a + b =~= b);
    } else {
        assert((a + b).skip(1) =~= a.skip(1) + b);
        if d >= op_pops(a[0]) {
            lemma_shape_compose(a.skip(1), b, d - op_pops(a[0]) + 1);
        }
    }
}

/// Running one more opcode extends a run.
pub proof fn lemma_run_snoc<F: Fn(NumOp, u64, u64) -> u64>(
    f: F,
    ops: Seq<Op>,
    op: Op,
    inputs: Seq<u64>,
    s0: Seq<u64>,
    s1: Seq<u64>,
    s2: Seq<u64>,
)
    requires
        run_rel(f, ops, inputs, s0, s1),
        step_rel(f, op, inputs, s1, s2),
    ensures
        run_rel(f, ops.push(op), inputs, s0, s2),
    decreases ops.len(),
{
    if ops.len() == 0 {
        assert(s1 == s0);
        assert(ops.push(op)[0] == op);
        assert(ops.push(op).skip(1) =~= Seq::<Op>::empty());
        assert(step_rel(f, op, inputs, s0, s2));
        assert(run_rel(f, ops.push(op).skip(1), inputs, s2, s2));
    } else {
        let mid = choose|mid: Seq<u64>|
            #[trigger] step_rel(f, ops[0], inputs, s0, mid) && run_rel(
                f,
                ops.skip(1),
                inputs,
                mid,
                s1,
            );
        lemma_run_snoc(f, ops.skip(1), op, inputs, mid, s1, s2);
        assert(ops.push(op).skip(1) =~= ops.skip(1).push(op));
        assert(ops.push(op)[0] == ops[0]);
        assert(step_rel(f, ops.push(op)[0], inputs, s0, mid));
    }
}

/// Two runs compose across concatenation.
pub proof fn lemma_run_append<F: Fn(NumOp, u64, u64) -> u64>(
    f: F,
    a: Seq<Op>,
    b: Seq<Op>,
    inputs: Seq<u64>,
    s0: Seq<u64>,
    s1: Seq<u64>,
    s2: Seq<u64>,
)
    requires
        run_rel(f, a, inputs, s0, s1),
        run_rel(f, b, inputs, s1, s2),
    ensures
        run_rel(f, a + b, inputs, s0, s2),
    decreases a.len(),
{
    if a.len() == 0 {
        assert(a + b =~= b);
    } else {
        let mid = choose|mid: Seq<u64>|
            #[trigger] step_rel(f, a[0], inputs, s0, mid) && run_rel(f, a.skip(1), inputs, mid, s1);
        lemma_run_append(f, a.skip(1), b, inputs, mid, s1, s2);
        assert((a + b).skip(1) =~= a.skip(1) + b);
        assert((a + b)[0] == a[0]);
    }
}

/// A run of a concatenation splits into runs of its parts.
pub proof fn lemma_run_split<F: Fn(NumOp, u64, u64) -> u64>(
    f: F,
    a: Seq<Op>,
    b: Seq<Op>,
    inputs: Seq<u64>,
    s0: Seq<u64>,
    s2: Seq<u64>,
) -> (mid: Seq<u64>)
    requires
        run_rel(f, a + b, inputs, s0, s2),
    ensures
        run_rel(f, a, inputs, s0, mid),
        run_rel(f, b, inputs, mid, s2),
    decreases a.len(),
{
    if a.len() == 0 {
        assert(a + b =~= b);
        s0
    } else {
        assert((a + b)[0] == a[0]);
        let m1 = choose|m1: Seq<u64>|
            #[trigger] step_rel(f, (a + b)[0], inputs, s0, m1) && run_rel(
                f,
                (a + b).skip(1),
                inputs,
                m1,
                s2,
            );
        assert((a + b).skip(1) =~= a.skip(1) + b);
        let mid = lemma_run_split(f, a.skip(1), b, inputs, m1, s2);
        assert(step_rel(f, a[0], inputs, s0, m1));
        mid
    }
}

/// The compiled form of any node grows the stack by exactly one.
pub proof fn lemma_flatten_shape(nodes: Seq<Node>, i: int, d: int)
    requires
        acyclic(nodes),
        0 <= i < nodes.len(),
        d >= 0,
    ensures
        shape_after(spec_flatten(nodes, i), d) == Some(d + 1),
    decreases some_rank(nodes)[i],
{
    assert(rank_ok(nodes, some_rank(nodes)));
    assert(rank_ok_at(nodes, some_rank(nodes), i));
    match nodes[i] {
        Node::Number(x) => {
            let ops = seq![Op::Push(Value::Literal(x))];
            assert(ops.skip(1) =~= Seq::<Op>::empty());
            assert(shape_after(ops.skip(1), d + 1) == Some(d + 1));
        },
        Node::Variable(p) => {
            let ops = seq![Op::Push(Value::Ptr(p))];
            assert(ops.skip(1) =~= Seq::<Op>::empty());
            assert(shape_after(ops.skip(1), d + 1) == Some(d + 1));
        },
        Node::UnOp(u) => {
            lemma_flatten_shape(nodes, u.a as int, d);
            let a = spec_flatten(nodes, u.a as int);
            let tail = seq![op_of_unary(u.op)];
            assert(a.push(op_of_unary(u.op)) =~= a + tail);
            lemma_shape_compose(a, tail, d);
            assert(tail.skip(1) =~= Seq::<Op>::empty());
            assert(op_pops(op_of_unary(u.op)) == 1);
            assert(shape_after(tail.skip(1), d + 1) == Some(d + 1));
            assert(shape_after(tail, d + 1) == Some(d + 1));
        },
        Node::BinOp(b) => {
            lemma_flatten_shape(nodes, b.a as int, d);
            lemma_flatten_shape(nodes, b.b as int, d + 1);
            let a = spec_flatten(nodes, b.a as int);
            let bb = spec_flatten(nodes, b.b as int);
            let tail = seq![op_of_binary(b.op)];
            assert(a + bb + tail =~= a + (bb + tail));
            lemma_shape_compose(a, bb + tail, d);
            lemma_shape_compose(bb, tail, d + 1);
            assert(tail.skip(1) =~= Seq::<Op>::empty());
            assert(op_pops(op_of_binary(b.op)) == 2);
            assert(shape_after(tail.skip(1), d + 1) == Some(d + 1));
            assert(shape_after(tail, d + 2) == Some(d + 1));
        },
    }
}

/// Completeness: a value the tree may evaluate to, the compiled code may
/// push.
pub proof fn lemma_flatten_complete<F: Fn(NumOp, u64, u64) -> u64>(
    f: F,
    nodes: Seq<Node>,
    i: int,
    inputs: Seq<u64>,
    v: u64,
    s: Seq<u64>,
)
    requires
        acyclic(nodes),
        0 <= i < nodes.len(),
        eval_rel(f, nodes, i, inputs, v),
    ensures
        run_rel(f, spec_flatten(nodes, i), inputs, s, s.push(v)),
    decreases some_rank(nodes)[i],
{
    assert(rank_ok(nodes, some_rank(nodes)));
    assert(rank_ok_at(nodes, some_rank(nodes), i));
    match nodes[i] {
        Node::Number(x) => {
            let ops = seq![Op::Push(Value::Literal(x))];
            assert(ops.skip(1) =~= Seq::<Op>::empty());
            assert(step_rel(f, ops[0], inputs, s, s.push(v)));
            assert(run_rel(f, ops.skip(1), inputs, s.push(v), s.push(v)));
        },
        Node::Variable(p) => {
            let ops = seq![Op::Push(Value::Ptr(p))];
            assert(ops.skip(1) =~= Seq::<Op>::empty());
            assert(step_rel(f, ops[0], inputs, s, s.push(v)));
            assert(run_rel(f, ops.skip(1), inputs, s.push(v), s.push(v)));
        },
        Node::UnOp(u) => {
            let a_v = choose|a_v: u64|
                #[trigger] call_ensures(f, (NumOp::Un(u.op), a_v, 0u64), v) && eval_rel(
                    f,
                    nodes,
                    u.a as int,
                    inputs,
                    a_v,
                );
            lemma_flatten_complete(f, nodes, u.a as int, inputs, a_v, s);
            let a = spec_flatten(nodes, u.a as int);
            assert(step_rel(f, op_of_unary(u.op), inputs, s.push(a_v), s.push(v))) by {
                assert(s.push(a_v).drop_last() =~= s);
                assert(s.push(a_v).last() == a_v);
            }
            lemma_run_snoc(f, a, op_of_unary(u.op), inputs, s, s.push(a_v), s.push(v));
        },
        Node::BinOp(b) => {
            let (a_v, b_v) = choose|a_v: u64, b_v: u64|
                #[trigger] call_ensures(f, (NumOp::Bin(b.op), a_v, b_v), v) && eval_rel(
                    f,
                    nodes,
                    b.a as int,
                    inputs,
                    a_v,
                ) && eval_rel(f, nodes, b.b as int, inputs, b_v);
            lemma_flatten_complete(f, nodes, b.a as int, inputs, a_v, s);
            lemma_flatten_complete(f, nodes, b.b as int, inputs, b_v, s.push(a_v));
            let sa = spec_flatten(nodes, b.a as int);
            let sb = spec_flatten(nodes, b.b as int);
            lemma_run_append(f, sa, sb, inputs, s, s.push(a_v), s.push(a_v).push(b_v));
            let s2 = s.push(a_v).push(b_v);
            assert(step_rel(f, op_of_binary(b.op), inputs, s2, s.push(v))) by {
                assert(s2[s2.len() - 2] == a_v);
                assert(s2[s2.len() - 1] == b_v);
                assert(s2.take(s2.len() - 2) =~= s);
            }
            lemma_run_snoc(f, sa + sb, op_of_binary(b.op), inputs, s, s2, s.push(v));
            assert((sa + sb).push(op_of_binary(b.op)) =~= sa + sb + seq![op_of_binary(b.op)]);
        },
    }
}

/// Soundness: whatever a run of the compiled code leaves on the stack is
/// one new value, and one the tree may evaluate to.
pub proof fn lemma_flatten_sound<F: Fn(NumOp, u64, u64) -> u64>(
    f: F,
    nodes: Seq<Node>,
    i: int,
    inputs: Seq<u64>,
    s0: Seq<u64>,
    s2: Seq<u64>,
) -> (v: u64)
    requires
        acyclic(nodes),
        0 <= i < nodes.len(),
        run_rel(f, spec_flatten(nodes, i), inputs, s0, s2),
    ensures
        s2 == s0.push(v),
        eval_rel(f, nodes, i, inputs, v),
    decreases some_rank(nodes)[i],
{
    assert(rank_ok(nodes, some_rank(nodes)));
    assert(rank_ok_at(nodes, some_rank(nodes), i));
    match nodes[i] {
        Node::Number(x) => {
            let ops = spec_flatten(nodes, i);
            let mid = choose|mid: Seq<u64>|
                #[trigger] step_rel(f, ops[0], inputs, s0, mid) && run_rel(
                    f,
                    ops.skip(1),
                    inputs,
                    mid,
                    s2,
                );
            assert(ops.skip(1) =~= Seq::<Op>::empty());
            assert(s2 == mid);
            x
        },
        Node::Variable(p) => {
            let ops = spec_flatten(nodes, i);
            let mid = choose|mid: Seq<u64>|
                #[trigger] step_rel(f, ops[0], inputs, s0, mid) && run_rel(
                    f,
                    ops.skip(1),
                    inputs,
                    mid,
                    s2,
                );
            assert(ops.skip(1) =~= Seq::<Op>::empty());
            assert(s2 == mid);
            inputs[p as int]
        },
        Node::UnOp(u) => {
            let a = spec_flatten(nodes, u.a as int);
            let tail = seq![op_of_unary(u.op)];
            assert(spec_flatten(nodes, i) =~= a + tail);
            let mid = lemma_run_split(f, a, tail, inputs, s0, s2);
            let a_v = lemma_flatten_sound(f, nodes, u.a as int, inputs, s0, mid);
            let m2 = choose|m2: Seq<u64>|
                #[trigger] step_rel(f, tail[0], inputs, mid, m2) && run_rel(
                    f,
                    tail.skip(1),
                    inputs,
                    m2,
                    s2,
                );
            assert(tail.skip(1) =~= Seq::<Op>::empty());
            assert(s2 == m2);
            let v = choose|v: u64|
                #[trigger] call_ensures(f, (NumOp::Un(u.op), mid.last(), 0u64), v) && m2
                    == mid.drop_last().push(v);
            assert(mid.last() == a_v);
            assert(mid.drop_last() =~= s0);
            v
        },
        Node::BinOp(b) => {
            let sa = spec_flatten(nodes, b.a as int);
            let sb = spec_flatten(nodes, b.b as int);
            let tail = seq![op_of_binary(b.op)];
            assert(spec_flatten(nodes, i) =~= sa + (sb + tail));
            let mid1 = lemma_run_split(f, sa, sb + tail, inputs, s0, s2);
            let mid2 = lemma_run_split(f, sb, tail, inputs, mid1, s2);
            let a_v = lemma_flatten_sound(f, nodes, b.a as int, inputs, s0, mid1);
            let b_v = lemma_flatten_sound(f, nodes, b.b as int, inputs, mid1, mid2);
            let m2 = choose|m2: Seq<u64>|
                #[trigger] step_rel(f, tail[0], inputs, mid2, m2) && run_rel(
                    f,
                    tail.skip(1),
                    inputs,
                    m2,
                    s2,
                );
            assert(tail.skip(1) =~= Seq::<Op>::empty());
            assert(s2 == m2);
            let v = choose|v: u64|
                #[trigger] call_ensures(
                    f,
                    (NumOp::Bin(b.op), mid2[mid2.len() - 2], mid2[mid2.len() - 1]),
                    v,
                ) && m2 == mid2.take(mid2.len() - 2).push(v);
            assert(mid2[mid2.len() - 2] == a_v);
            assert(mid2[mid2.len() - 1] == b_v);
            assert(mid2.take(mid2.len() - 2) =~= s0);
            v
        },
    }
}

/// With arithmetic that answers equal requests equally, a node has at most
/// one value.
pub proof fn lemma_eval_functional<F: Fn(NumOp, u64, u64) -> u64>(
    f: F,
    nodes: Seq<Node>,
    i: int,
    inputs: Seq<u64>,
    v1: u64,
    v2: u64,
)
    requires
        acyclic(nodes),
        0 <= i < nodes.len(),
        num_functional(f),
        eval_rel(f, nodes, i, inputs, v1),
        eval_rel(f, nodes, i, inputs, v2),
    ensures
        v1 == v2,
    decreases some_rank(nodes)[i],
{
    assert(rank_ok(nodes, some_rank(nodes)));
    assert(rank_ok_at(nodes, some_rank(nodes), i));
    match nodes[i] {
        Node::Number(x) => {},
        Node::Variable(p) => {},
        Node::UnOp(u) => {
            let a1 = choose|a_v: u64|
                #[trigger] call_ensures(f, (NumOp::Un(u.op), a_v, 0u64), v1) && eval_rel(
                    f,
                    nodes,
                    u.a as int,
                    inputs,
                    a_v,
                );
            let a2 = choose|a_v: u64|
                #[trigger] call_ensures(f, (NumOp::Un(u.op), a_v, 0u64), v2) && eval_rel(
                    f,
                    nodes,
                    u.a as int,
                    inputs,
                    a_v,
                );
            lemma_eval_functional(f, nodes, u.a as int, inputs, a1, a2);
        },
        Node::BinOp(b) => {
            let (a1, b1) = choose|a_v: u64, b_v: u64|
                #[trigger] call_ensures(f, (NumOp::Bin(b.op), a_v, b_v), v1) && eval_rel(
                    f,
                    nodes,
                    b.a as int,
                    inputs,
                    a_v,
                ) && eval_rel(f, nodes, b.b as int, inputs, b_v);
            let (a2, b2) = choose|a_v: u64, b_v: u64|
                #[trigger] call_ensures(f, (NumOp::Bin(b.op), a_v, b_v), v2) && eval_rel(
                    f,
                    nodes,
                    b.a as int,
                    inputs,
                    a_v,
                ) && eval_rel(f, nodes, b.b as int, inputs, b_v);
            lemma_eval_functional(f, nodes, b.a as int, inputs, a1, a2);
            lemma_eval_functional(f, nodes, b.b as int, inputs, b1, b2);
        },
    }
}

/// The compiled code of an arena whose variables are bounded reads only
/// inputs below that bound.
pub proof fn lemma_flatten_ptrs(nodes: Seq<Node>, i: int, n: nat)
    requires
        acyclic(nodes),
        0 <= i < nodes.len(),
        vars_ok(nodes, n),
    ensures
        forall|k: int|
            0 <= k < spec_flatten(nodes, i).len() ==> ptr_in(
                #[trigger] spec_flatten(nodes, i)[k],
                n as int,
            ),
    decreases some_rank(nodes)[i],
{
    assert(rank_ok(nodes, some_rank(nodes)));
    assert(rank_ok_at(nodes, some_rank(nodes), i));
    assert(node_vars_ok(nodes[i], n));
    match nodes[i] {
        Node::Number(x) => {
            assert(ptr_in(spec_flatten(nodes, i)[0], n as int));
        },
        Node::Variable(p) => {
            assert(ptr_in(spec_flatten(nodes, i)[0], n as int));
        },
        Node::UnOp(u) => {
            lemma_flatten_ptrs(nodes, u.a as int, n);
            let a = spec_flatten(nodes, u.a as int);
            assert forall|k: int|
                0 <= k < spec_flatten(nodes, i).len() implies ptr_in(
                #[trigger] spec_flatten(nodes, i)[k],
                n as int,
            ) by {
                if k < a.len() {
                    assert(spec_flatten(nodes, i)[k] == a[k]);
                    assert(ptr_in(a[k], n as int));
                } else {
                    assert(spec_flatten(nodes, i)[k] == op_of_unary(u.op));
                }
            }
        },
        Node::BinOp(b) => {
            lemma_flatten_ptrs(nodes, b.a as int, n);
            lemma_flatten_ptrs(nodes, b.b as int, n);
            let sa = spec_flatten(nodes, b.a as int);
            let sb = spec_flatten(nodes, b.b as int);
            assert forall|k: int|
                0 <= k < spec_flatten(nodes, i).len() implies ptr_in(
                #[trigger] spec_flatten(nodes, i)[k],
                n as int,
            ) by {
                if k < sa.len() {
                    assert(spec_flatten(nodes, i)[k] == sa[k]);
                    assert(ptr_in(sa[k], n as int));
                } else if k < sa.len() + sb.len() {
                    assert(spec_flatten(nodes, i)[k] == sb[k - sa.len()]);
                    assert(ptr_in(sb[k - sa.len()], n as int));
                } else {
                    assert(spec_flatten(nodes, i)[k] == op_of_binary(b.op));
                }
            }
        },
    }
}

/// LAW (compiler/interpreter agreement): with arithmetic that answers
/// equal requests equally, any result a run of the compiled program may
/// leave is the value the expression tree itself may evaluate to.
pub proof fn lemma_compiled_agrees<F: Fn(NumOp, u64, u64) -> u64>(
    f: F,
    e: &Expr,
    inputs: Seq<u64>,
    tree_v: u64,
    vm_v: u64,
)
    requires
        e.wf(),
        num_functional(f),
        eval_rel(f, e.nodes@, e.root as int, inputs, tree_v),
        run_rel(
            f,
            spec_flatten(e.nodes@, e.root as int),
            inputs,
            Seq::<u64>::empty(),
            seq![vm_v],
        ),
    ensures
        vm_v == tree_v,
{
    let v = lemma_flatten_sound(f, e.nodes@, e.root as int, inputs, Seq::<u64>::empty(), seq![vm_v]);
    assert(seq![vm_v] == Seq::<u64>::empty().push(v));
    assert(seq![vm_v][0] == vm_v);
    lemma_eval_functional(f, e.nodes@, e.root as int, inputs, v, tree_v);
}

/// Appending one opcode whose operands are available advances the shape.
proof fn lemma_shape_step(a: Seq<Op>, op: Op, d: int, d2: int)
    requires
        shape_after(a, d) == Some(d2),
        d2 >= op_pops(op),
    ensures
        shape_after(a.push(op), d) == Some(d2 - op_pops(op) + 1),
{
    assert(a.push(op) =~= a + seq![op]);
    lemma_shape_compose(a, seq![op], d);
    assert(seq![op].skip(1) =~= Seq::<Op>::empty());
    assert(shape_after(seq![op].skip(1), d2 - op_pops(op) + 1) == Some(d2 - op_pops(op) + 1));
}

/// An opcode whose operands are missing ruins the shape for good.
proof fn lemma_shape_stuck(a: Seq<Op>, b: Seq<Op>, d: int, d2: int)
    requires
        shape_after(a, d) == Some(d2),
        b.len() > 0,
        d2 < op_pops(b[0]),
    ensures
        shape_after(a + b, d) == None::<int>,
{
    lemma_shape_compose(a, b, d);
}

/// The binary operator an opcode asks for, decided on the opcode.
fn binary_req(op: Op) -> (r: Option<BinaryOp>)
    ensures
        r == binary_of_op(op),
{
    match op {
        Op::Add => Some(BinaryOp::Add),
        Op::Sub => Some(BinaryOp::Sub),
        Op::Mul => Some(BinaryOp::Mul),
        Op::Div => Some(BinaryOp::Div),
        Op::Pow => Some(BinaryOp::Pow),
        _ => None,
    }
}

/// The unary operator an opcode asks for, decided on the opcode.
fn unary_req(op: Op) -> (r: Option<UnaryOp>)
    ensures
        r == unary_of_op(op),
{
    match op {
        Op::Neg => Some(UnaryOp::Neg),
        Op::Call(BuiltinFunction::Abs) => Some(UnaryOp::Abs),
        Op::Call(BuiltinFunction::Loge) => Some(UnaryOp::Loge),
        Op::Call(BuiltinFunction::Log2) => Some(UnaryOp::Log2),
        Op::Call(BuiltinFunction::Log10) => Some(UnaryOp::Log10),
        Op::Call(BuiltinFunction::Sin) => Some(UnaryOp::Sin),
        Op::Call(BuiltinFunction::Cos) => Some(UnaryOp::Cos),
        Op::Call(BuiltinFunction::Tan) => Some(UnaryOp::Tan),
        _ => None,
    }
}

/// The opcode of a binary operator.
fn binary_opcode(op: BinaryOp) -> (r: Op)
    ensures
        r == op_of_binary(op),
{
    match op {
        BinaryOp::Add => Op::Add,
        BinaryOp::Sub => Op::Sub,
        BinaryOp::Mul => Op::Mul,
        BinaryOp::Div => Op::Div,
        BinaryOp::Pow => Op::Pow,
    }
}

/// The opcode of a unary operator.
fn unary_opcode(op: UnaryOp) -> (r: Op)
    ensures
        r == op_of_unary(op),
{
    match op {
        UnaryOp::Neg => Op::Neg,
        UnaryOp::Abs => Op::Call(BuiltinFunction::Abs),
        UnaryOp::Loge => Op::Call(BuiltinFunction::Loge),
        UnaryOp::Log2 => Op::Call(BuiltinFunction::Log2),
        UnaryOp::Log10 => Op::Call(BuiltinFunction::Log10),
        UnaryOp::Sin => Op::Call(BuiltinFunction::Sin),
        UnaryOp::Cos => Op::Call(BuiltinFunction::Cos),
        UnaryOp::Tan => Op::Call(BuiltinFunction::Tan),
    }
}

impl Program {
    /// The opcode sequence.
    pub closed spec fn ops(&self) -> Seq<Op> {
        self.ops@
    }

    /// Runs the program against one input row, with arithmetic answered by
    /// `num`.  Returns `None` exactly when the stack discipline fails: an
    /// opcode finds too few operands, or the final stack holds other than
    /// one value.  On success the result is what one run of the program
    /// may leave on an empty stack.
    pub fn evaluate<F: Fn(NumOp, u64, u64) -> u64>(&self, inputs: &[u64], num: &F) -> (r: Option<
        u64,
    >)
        requires
            num_total(*num),
            forall|k: int|
                0 <= k < self.ops().len() ==> ptr_in(#[trigger] self.ops()[k], inputs@.len() as int),
        ensures
            r is Some <==> shape_after(self.ops(), 0) == Some(1int),
            r is Some ==> run_rel(*num, self.ops(), inputs@, Seq::<u64>::empty(), seq![r->0]),
    {
        let mut stack: Vec<u64> = Vec::new();
        let mut pc: usize = 0;
        proof {
            assert(self.ops@.take(0) =~= Seq::<Op>::empty());
        }
        while pc < self.ops.len()
            invariant
                num_total(*num),
                forall|k: int|
                    0 <= k < self.ops().len() ==> ptr_in(
                        #[trigger] self.ops()[k],
                        inputs@.len() as int,
                    ),
                pc <= self.ops@.len(),
                shape_after(self.ops@.take(pc as int), 0) == Some(stack@.len() as int),
                run_rel(*num, self.ops@.take(pc as int), inputs@, Seq::<u64>::empty(), stack@),
            decreases self.ops@.len() - pc,
        {
            let ghost taken = self.ops@.take(pc as int);
            let ghost s = stack@;
            let op = self.ops[pc];
            proof {
                assert(self.ops@.take(pc + 1 as int) =~= taken.push(op));
            }
            match op {
                Op::Push(Value::Literal(x)) => {
                    stack.push(x);
                    proof {
                        assert(step_rel(*num, op, inputs@, s, stack@));
                        lemma_shape_step(taken, op, 0, s.len() as int);
                        lemma_run_snoc(
                            *num,
                            taken,
                            op,
                            inputs@,
                            Seq::<u64>::empty(),
                            s,
                            stack@,
                        );
                    }
                },
                Op::Push(Value::Ptr(p)) => {
                    proof {
                        assert(ptr_in(self.ops()[pc as int], inputs@.len() as int));
                    }
                    stack.push(*vstd::slice::slice_index_get(inputs, p));
                    proof {
                        assert(step_rel(*num, op, inputs@, s, stack@));
                        lemma_shape_step(taken, op, 0, s.len() as int);
                        lemma_run_snoc(
                            *num,
                            taken,
                            op,
                            inputs@,
                            Seq::<u64>::empty(),
                            s,
                            stack@,
                        );
                    }
                },
                _ => {
                    match binary_req(op) {
                        Some(bop) => {
                            if stack.len() < 2 {
                                proof {
                                    assert(self.ops@ =~= taken + self.ops@.skip(pc as int));
                                    assert(self.ops@.skip(pc as int)[0] == op);
                                    lemma_shape_stuck(
                                        taken,
                                        self.ops@.skip(pc as int),
                                        0,
                                        s.len() as int,
                                    );
                                }
                                return None;
                            }
                            let b = stack.pop().unwrap();
                            let a = stack.pop().unwrap();
                            let v = num(NumOp::Bin(bop), a, b);
                            stack.push(v);
                            proof {
                                assert(call_ensures(*num, (NumOp::Bin(bop), a, b), v));
                                assert(a == s[s.len() - 2]);
                                assert(b == s[s.len() - 1]);
                                assert(stack@ =~= s.take(s.len() - 2).push(v));
                                assert(step_rel(*num, op, inputs@, s, stack@));
                                lemma_shape_step(taken, op, 0, s.len() as int);
                                lemma_run_snoc(
                                    *num,
                                    taken,
                                    op,
                                    inputs@,
                                    Seq::<u64>::empty(),
                                    s,
                                    stack@,
                                );
                            }
                        },
                        None => {
                            proof {
                                assert(unary_of_op(op) is Some);
                            }
                            let uop = unary_req(op).unwrap();
                            if stack.len() < 1 {
                                proof {
                                    assert(self.ops@ =~= taken + self.ops@.skip(pc as int));
                                    assert(self.ops@.skip(pc as int)[0] == op);
                                    lemma_shape_stuck(
                                        taken,
                                        self.ops@.skip(pc as int),
                                        0,
                                        s.len() as int,
                                    );
                                }
                                return None;
                            }
                            let a = stack.pop().unwrap();
                            let v = num(NumOp::Un(uop), a, 0);
                            stack.push(v);
                            proof {
                                assert(call_ensures(*num, (NumOp::Un(uop), a, 0u64), v));
                                assert(a == s.last());
                                assert(stack@ =~= s.drop_last().push(v));
                                assert(step_rel(*num, op, inputs@, s, stack@));
                                lemma_shape_step(taken, op, 0, s.len() as int);
                                lemma_run_snoc(
                                    *num,
                                    taken,
                                    op,
                                    inputs@,
                                    Seq::<u64>::empty(),
                                    s,
                                    stack@,
                                );
                            }
                        },
                    }
                },
            }
            pc += 1;
        }
        proof {
            assert(self.ops@.take(pc as int) =~= self.ops@);
        }
        if stack.len() == 1 {
            let ghost fin = stack@;
            let v = stack.pop().unwrap();
            proof {
                assert(fin =~= seq![v]);
            }
            Some(v)
        } else {
            None
        }
    }

    /// The listing of the program, one line per opcode, constants written
    /// by `fmt`.
    pub fn disassembly<G: Fn(u64) -> String>(&self, fmt: &G) -> (r: String)
        requires
            fmt_total(*fmt),
        ensures
            dis_rel(*fmt, self.ops(), r@),
    {
        let mut out = String::new();
        proof {
            assert(self.ops@.take(0) =~= Seq::<Op>::empty());
            assert(out@ =~= Seq::<char>::empty());
        }
        let mut i: usize = 0;
        while i < self.ops.len()
            invariant
                fmt_total(*fmt),
                i <= self.ops@.len(),
                dis_rel(*fmt, self.ops@.take(i as int), out@),
            decreases self.ops@.len() - i,
        {
            let ghost out0 = out@;
            let line = op_line(self.ops[i], fmt);
            out.append(line.as_str());
            proof {
                assert(self.ops@.take(i + 1 as int) =~= self.ops@.take(i as int).push(
                    self.ops@[i as int],
                ));
                lemma_dis_snoc(*fmt, self.ops@.take(i as int), self.ops@[i as int], out0, line@);
            }
            i += 1;
        }
        proof {
            assert(self.ops@.take(i as int) =~= self.ops@);
        }
        out
    }
}

/// Compiles an expression into a straight-line program by post-order
/// traversal from the root.
pub fn compile_expr(expr: &Expr) -> (r: Program)
    requires
        expr.wf(),
    ensures
        r.ops() == spec_flatten(expr.nodes@, expr.root as int),
{
    let mut ops: Vec<Op> = Vec::new();
    flatten_expr(&mut ops, expr, expr.root);
    proof {
        assert(ops@ =~= spec_flatten(expr.nodes@, expr.root as int));
    }
    Program { ops }
}

/// Appends the post-order compilation of the subtree at `node` to `buf`.
fn flatten_expr(buf: &mut Vec<Op>, expr: &Expr, node: usize)
    requires
        acyclic(expr.nodes@),
        node < expr.nodes@.len(),
    ensures
        final(buf)@ == old(buf)@ + spec_flatten(expr.nodes@, node as int),
    decreases some_rank(expr.nodes@)[node as int],
{
    proof {
        assert(rank_ok(expr.nodes@, some_rank(expr.nodes@)));
        assert(rank_ok_at(expr.nodes@, some_rank(expr.nodes@), node as int));
    }
    match expr.nodes[node] {
        Node::Number(x) => {
            buf.push(Op::Push(Value::Literal(x)));
            proof {
                assert(buf@ =~= old(buf)@ + spec_flatten(expr.nodes@, node as int));
            }
        },
        Node::Variable(p) => {
            buf.push(Op::Push(Value::Ptr(p)));
            proof {
                assert(buf@ =~= old(buf)@ + spec_flatten(expr.nodes@, node as int));
            }
        },
        Node::UnOp(u) => {
            flatten_expr(buf, expr, u.a);
            buf.push(unary_opcode(u.op));
            proof {
                assert(buf@ =~= old(buf)@ + spec_flatten(expr.nodes@, node as int));
            }
        },
        Node::BinOp(b) => {
            flatten_expr(buf, expr, b.a);
            flatten_expr(buf, expr, b.b);
            buf.push(binary_opcode(b.op));
            proof {
                assert(buf@ =~= old(buf)@ + spec_flatten(expr.nodes@, node as int));
            }
        },
    }
}

/// `line` is the listing line of one opcode, ending in a line feed;
/// constants are written by the caller-supplied formatter `g`.
pub open spec fn op_line_rel<G: Fn(u64) -> String>(g: G, op: Op, line: Seq<char>) -> bool {
    match op {
        Op::Push(Value::Literal(x)) => exists|t: String|
            #[trigger] call_ensures(g, (x,), t) && line == ("PUSH ")@ + t@ + ("\n")@,
        Op::Push(Value::Ptr(p)) => line == ("PUSH $")@ + crate::text::spec_dec(p as int) + ("\n")@,
        Op::Add => line == ("    ADD\n")@,
        Op::Sub => line == ("    SUB\n")@,
        Op::Mul => line == ("    MUL\n")@,
        Op::Div => line == ("    DIV\n")@,
        Op::Pow => line == ("    POW\n")@,
        Op::Neg => line == ("    NEG\n")@,
        Op::Call(BuiltinFunction::Abs) => line == ("    CALL $abs\n")@,
        Op::Call(BuiltinFunction::Loge) => line == ("    CALL $loge\n")@,
        Op::Call(BuiltinFunction::Log2) => line == ("    CALL $log2\n")@,
        Op::Call(BuiltinFunction::Log10) => line == ("    CALL $log10\n")@,
        Op::Call(BuiltinFunction::Sin) => line == ("    CALL $sin\n")@,
        Op::Call(BuiltinFunction::Cos) => line == ("    CALL $cos\n")@,
        Op::Call(BuiltinFunction::Tan) => line == ("    CALL $tan\n")@,
    }
}

/// `out` is a listing of `ops`: the opcodes' lines in order.
pub open spec fn dis_rel<G: Fn(u64) -> String>(g: G, ops: Seq<Op>, out: Seq<char>) -> bool
    decreases ops.len(),
{
    if ops.len() == 0 {
        out == Seq::<char>::empty()
    } else {
        exists|line: Seq<char>, rest: Seq<char>|
            #![trigger op_line_rel(g, ops[0], line), line.add(rest)]
            op_line_rel(g, ops[0], line) && dis_rel(g, ops.skip(1), rest) && out == line.add(rest)
    }
}

/// One more listed opcode extends a listing.
proof fn lemma_dis_snoc<G: Fn(u64) -> String>(
    g: G,
    ops: Seq<Op>,
    op: Op,
    out0: Seq<char>,
    line: Seq<char>,
)
    requires
        dis_rel(g, ops, out0),
        op_line_rel(g, op, line),
    ensures
        dis_rel(g, ops.push(op), out0 + line),
    decreases ops.len(),
{
    if ops.len() == 0 {
        assert(out0 =~= Seq::<char>::empty());
        assert(ops.push(op)[0] == op);
        assert(ops.push(op).skip(1) =~= Seq::<Op>::empty());
        assert(dis_rel(g, ops.push(op).skip(1), Seq::<char>::empty()));
        assert(out0 + line =~= line.add(Seq::<char>::empty()));
    } else {
        let (l0, r0) = choose|l0: Seq<char>, r0: Seq<char>|
            #![trigger op_line_rel(g, ops[0], l0), l0.add(r0)]
            op_line_rel(g, ops[0], l0) && dis_rel(g, ops.skip(1), r0) && out0 == l0.add(r0);
        lemma_dis_snoc(g, ops.skip(1), op, r0, line);
        assert(ops.push(op).skip(1) =~= ops.skip(1).push(op));
        assert(ops.push(op)[0] == ops[0]);
        assert(out0 + line =~= l0.add(r0 + line));
    }
}

/// The listing line of one opcode.
fn op_line<G: Fn(u64) -> String>(op: Op, fmt: &G) -> (r: String)
    requires
        fmt_total(*fmt),
    ensures
        op_line_rel(*fmt, op, r@),
{
    match op {
        Op::Push(Value::Literal(x)) => {
            let mut s = String::from_str("PUSH ");
            let t = fmt(x);
            s.append(t.as_str());
            s.append("\n");
            proof {
                assert(call_ensures(*fmt, (x,), t));
                assert(s@ =~= ("PUSH ")@ + t@ + ("\n")@);
            }
            s
        },
        Op::Push(Value::Ptr(p)) => {
            let mut s = String::from_str("PUSH $");
            let d = crate::text::usize_text(p);
            s.append(d.as_str());
            s.append("\n");
            proof {
                assert(s@ =~= ("PUSH $")@ + crate::text::spec_dec(p as int) + ("\n")@);
            }
            s
        },
        Op::Add => String::from_str("    ADD\n"),
        Op::Sub => String::from_str("    SUB\n"),
        Op::Mul => String::from_str("    MUL\n"),
        Op::Div => String::from_str("    DIV\n"),
        Op::Pow => String::from_str("    POW\n"),
        Op::Neg => String::from_str("    NEG\n"),
        Op::Call(BuiltinFunction::Abs) => String::from_str("    CALL $abs\n"),
        Op::Call(BuiltinFunction::Loge) => String::from_str("    CALL $loge\n"),
        Op::Call(BuiltinFunction::Log2) => String::from_str("    CALL $log2\n"),
        Op::Call(BuiltinFunction::Log10) => String::from_str("    CALL $log10\n"),
        Op::Call(BuiltinFunction::Sin) => String::from_str("    CALL $sin\n"),
        Op::Call(BuiltinFunction::Cos) => String::from_str("    CALL $cos\n"),
        Op::Call(BuiltinFunction::Tan) => String::from_str("    CALL $tan\n"),
    }
}

} // verus!
