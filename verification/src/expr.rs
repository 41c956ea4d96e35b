//! The expression arena: a tree of arithmetic nodes stored in a flat
//! vector, with child links given as vector indices.
//!
//! Constants are carried as IEEE 754 bit patterns (see [`crate::num`]).
//! Well-formedness of an arena is witnessed by a ranking of its nodes in
//! which every child ranks strictly below its parent; that rules out
//! cycles, so evaluation from any node terminates.

use crate::num::NumOp;
use crate::num::draw_total;
use crate::num::num_total;
use crate::rng::random_below;
use crate::rng::random_bool;
use crate::rng::random_usize;
use vstd::pervasive::VecAdditionalExecFns;
use vstd::prelude::*;
use vstd::string::StringExecFns;

verus! {

/// The five binary operators.
#[derive(Debug, Clone, Copy, PartialEq, Eq, Structural)]
pub enum BinaryOp {
    Add,
    Sub,
    Mul,
    Div,
    Pow,
}

/// The eight unary operators.
#[derive(Debug, Clone, Copy, PartialEq, Eq, Structural)]
pub enum UnaryOp {
    Neg,
    Abs,
    Loge,
    Log2,
    Log10,
    Sin,
    Cos,
    Tan,
}

/// A binary node: an operator and the arena indices of its two children.
#[derive(Debug, Clone, Copy, PartialEq, Eq, Structural)]
pub struct BinOp {
    pub op: BinaryOp,
    pub a: usize,
    pub b: usize,
}

/// A unary node: an operator and the arena index of its child.
#[derive(Debug, Clone, Copy, PartialEq, Eq, Structural)]
pub struct UnOp {
    pub op: UnaryOp,
    pub a: usize,
}

/// One arena node.
#[derive(Debug, Clone, Copy, PartialEq, Eq, Structural)]
pub enum Node {
    /// An immediate constant, as the bits of its IEEE 754 representation.
    Number(u64),
    /// An index into the input row.
    Variable(usize),
    UnOp(UnOp),
    BinOp(BinOp),
}

/// An expression: an arena of nodes, the index of the root, and the number
/// of input variables the expression may read.
#[derive(Debug, Clone)]
pub struct Expr {
    pub nodes: Vec<Node>,
    pub root: usize,
    pub n_inputs: usize,
}

/// The child indices of `node` all lie in `lo..hi`.
pub open spec fn children_in(node: Node, lo: int, hi: int) -> bool {
    match node {
        Node::UnOp(u) => lo <= u.a < hi,
        Node::BinOp(b) => lo <= b.a < hi && lo <= b.b < hi,
        _ => true,
    }
}

/// Every node of `block` points only at earlier nodes of `block`, read as
/// living at positions `offset..offset + block.len()` of a larger arena.
pub open spec fn block_ok(block: Seq<Node>, offset: int) -> bool {
    forall|t: int| 0 <= t < block.len() ==> children_in(#[trigger] block[t], offset, offset + t)
}

/// The constraints `rank` must meet at node `i`: children exist and rank
/// strictly below their parent.
pub open spec fn rank_ok_at(nodes: Seq<Node>, rank: Seq<nat>, i: int) -> bool {
    match nodes[i] {
        Node::UnOp(u) => u.a < nodes.len() && rank[u.a as int] < rank[i],
        Node::BinOp(b) => b.a < nodes.len() && b.b < nodes.len() && rank[b.a as int] < rank[i]
            && rank[b.b as int] < rank[i],
        _ => true,
    }
}

/// `rank` witnesses that every child link is valid and that no walk along
/// child links can cycle.
pub open spec fn rank_ok(nodes: Seq<Node>, rank: Seq<nat>) -> bool {
    rank.len() == nodes.len() && forall|i: int|
        0 <= i < nodes.len() ==> #[trigger] rank_ok_at(nodes, rank, i)
}

/// The arena has only valid child links and no cycles.
pub open spec fn acyclic(nodes: Seq<Node>) -> bool {
    exists|rank: Seq<nat>| #[trigger] rank_ok(nodes, rank)
}

/// Some ranking witnessing `acyclic`.
pub open spec fn some_rank(nodes: Seq<Node>) -> Seq<nat> {
    choose|rank: Seq<nat>| #[trigger] rank_ok(nodes, rank)
}

/// The variable-index constraint on one node.
pub open spec fn node_vars_ok(node: Node, n_inputs: nat) -> bool {
    match node {
        Node::Variable(v) => v < n_inputs,
        _ => true,
    }
}

/// Every variable node reads an input below `n_inputs`.
pub open spec fn vars_ok(nodes: Seq<Node>, n_inputs: nat) -> bool {
    forall|i: int| 0 <= i < nodes.len() ==> node_vars_ok(#[trigger] nodes[i], n_inputs)
}

/// The relation between an arena node and a value it may evaluate to,
/// given a caller-supplied arithmetic `f`: constants and variables are
/// exact, and an operator node may yield whatever `f` may answer on values
/// its children may yield.
pub open spec fn eval_rel<F: Fn(NumOp, u64, u64) -> u64>(
    f: F,
    nodes: Seq<Node>,
    i: int,
    inputs: Seq<u64>,
    v: u64,
) -> bool
    decreases some_rank(nodes)[i]
        when acyclic(nodes) && 0 <= i < nodes.len()
{
    match nodes[i] {
        Node::Number(x) => v == x,
        Node::Variable(p) => p < inputs.len() && v == inputs[p as int],
        Node::UnOp(u) => {
            proof {
                assert(rank_ok(nodes, some_rank(nodes)));
                assert(rank_ok_at(nodes, some_rank(nodes), i));
            }
            exists|a_v: u64|
                #[trigger] call_ensures(f, (NumOp::Un(u.op), a_v, 0u64), v) && eval_rel(
                    f,
                    nodes,
                    u.a as int,
                    inputs,
                    a_v,
                )
        },
        Node::BinOp(b) => {
            proof {
                assert(rank_ok(nodes, some_rank(nodes)));
                assert(rank_ok_at(nodes, some_rank(nodes), i));
            }
            exists|a_v: u64, b_v: u64|
                #[trigger] call_ensures(f, (NumOp::Bin(b.op), a_v, b_v), v) && eval_rel(
                    f,
                    nodes,
                    b.a as int,
                    inputs,
                    a_v,
                ) && eval_rel(f, nodes, b.b as int, inputs, b_v)
        },
    }
}

/// The bits of 0.15, the chance of stopping early at each level of initial
/// tree generation.
const LEAF_CHANCE_BITS: u64 = 0x3FC3333333333333;

/// The bits of 0.5, the early-stop chance per level of a mutation subtree.
const EARLY_STOP_BITS: u64 = 0x3FE0000000000000;

/// The bits of 10.0.
const TEN_BITS: u64 = 0x4024000000000000;

/// The bits of 5.0.
const FIVE_BITS: u64 = 0x4014000000000000;

/// Most nodes a generated (sub)tree of the given depth can hold.
pub open spec fn max_block(depth: nat) -> nat
    decreases depth,
{
    if depth == 0 {
        1
    } else {
        1 + 2 * max_block((depth - 1) as nat)
    }
}

/// An empty arena is acyclic.
pub proof fn lemma_acyclic_empty(nodes: Seq<Node>)
    requires
        nodes.len() == 0,
    ensures
        acyclic(nodes),
{
    let rank = Seq::<nat>::empty();
    assert(rank_ok(nodes, rank));
}

/// Growing an acyclic arena with nodes that point only at earlier nodes of
/// the grown part keeps it acyclic.
pub proof fn lemma_acyclic_extend(nodes: Seq<Node>, old_len: int)
    requires
        0 <= old_len <= nodes.len(),
        acyclic(nodes.take(old_len)),
        forall|j: int|
            old_len <= j < nodes.len() ==> children_in(#[trigger] nodes[j], old_len, j),
    ensures
        acyclic(nodes),
{
    let prefix = nodes.take(old_len);
    let r0 = some_rank(prefix);
    assert(rank_ok(prefix, r0));
    let r = Seq::new(
        nodes.len(),
        |j: int|
            if j < old_len {
                r0[j]
            } else {
                (j - old_len) as nat
            },
    );
    assert forall|j: int| 0 <= j < nodes.len() implies #[trigger] rank_ok_at(nodes, r, j) by {
        if j < old_len {
            assert(rank_ok_at(prefix, r0, j));
            assert(nodes[j] == prefix[j]);
        } else {
            assert(children_in(nodes[j], old_len, j));
        }
    }
    assert(rank_ok(nodes, r));
}

/// Multiplying two ranks by the same positive scale and adding the same
/// offset keeps their strict order.
proof fn lemma_scale_mono(x: int, y: int, a: int)
    requires
        x < y,
        a >= 0,
    ensures
        x * (a + 1) + a < y * (a + 1) + a,
{
    assert(x * (a + 1) < y * (a + 1)) by (nonlinear_arith)
        requires
            x < y,
            a >= 0,
    ;
}

/// Appending a self-contained block to an acyclic arena and redirecting
/// one node into that block keeps the arena acyclic.
pub proof fn lemma_acyclic_graft(orig: Seq<Node>, block: Seq<Node>, i: int, repl: Node)
    requires
        acyclic(orig),
        0 <= i < orig.len(),
        block_ok(block, orig.len() as int),
        children_in(repl, orig.len() as int, orig.len() as int + block.len() as int),
    ensures
        acyclic((orig + block).update(i, repl)),
{
    let l = orig.len() as int;
    let a = block.len() as int;
    let grown = (orig + block).update(i, repl);
    let r0 = some_rank(orig);
    assert(rank_ok(orig, r0));
    let r = Seq::new(
        grown.len(),
        |j: int|
            if j < l {
                (r0[j] * (a + 1) + a) as nat
            } else {
                (j - l) as nat
            },
    );
    assert forall|j: int| 0 <= j < grown.len() implies #[trigger] rank_ok_at(grown, r, j) by {
        if j == i {
            assert(grown[j] == repl);
            assert(r0[i] * (a + 1) >= 0) by (nonlinear_arith)
                requires
                    r0[i] >= 0,
                    a >= 0,
            ;
        } else if j < l {
            assert(rank_ok_at(orig, r0, j));
            assert(grown[j] == orig[j]);
            match orig[j] {
                Node::UnOp(u) => {
                    lemma_scale_mono(r0[u.a as int] as int, r0[j] as int, a);
                },
                Node::BinOp(b) => {
                    lemma_scale_mono(r0[b.a as int] as int, r0[j] as int, a);
                    lemma_scale_mono(r0[b.b as int] as int, r0[j] as int, a);
                },
                _ => {},
            }
        } else {
            assert(grown[j] == block[j - l]);
            assert(children_in(block[j - l], l, l + (j - l)));
        }
    }
    assert(rank_ok(grown, r));
}

/// Overwriting a node with a leaf keeps the arena acyclic.
pub proof fn lemma_acyclic_leaf_update(nodes: Seq<Node>, i: int, leaf: Node)
    requires
        acyclic(nodes),
        0 <= i < nodes.len(),
        leaf is Number || leaf is Variable,
    ensures
        acyclic(nodes.update(i, leaf)),
{
    let r = some_rank(nodes);
    assert(rank_ok(nodes, r));
    let grown = nodes.update(i, leaf);
    assert forall|j: int| 0 <= j < grown.len() implies #[trigger] rank_ok_at(grown, r, j) by {
        if j != i {
            assert(rank_ok_at(nodes, r, j));
            assert(grown[j] == nodes[j]);
        }
    }
    assert(rank_ok(grown, r));
}

/// With probability `rate` (both the draw and the rate read as bit
/// patterns of values in the unit interval, where the unsigned order of
/// the bits agrees with the numeric order).
fn sometimes<U: Fn() -> u64>(rate: u64, unit: &U) -> bool
    requires
        draw_total(*unit),
{
    unit() < rate
}

/// A uniformly drawn binary operator.
fn random_binop() -> BinaryOp {
    let k = random_below(5);
    if k == 0 {
        BinaryOp::Add
    } else if k == 1 {
        BinaryOp::Sub
    } else if k == 2 {
        BinaryOp::Mul
    } else if k == 3 {
        BinaryOp::Div
    } else {
        BinaryOp::Pow
    }
}

/// A uniformly drawn unary operator.
fn random_unop() -> UnaryOp {
    let k = random_below(8);
    if k == 0 {
        UnaryOp::Neg
    } else if k == 1 {
        UnaryOp::Abs
    } else if k == 2 {
        UnaryOp::Loge
    } else if k == 3 {
        UnaryOp::Log2
    } else if k == 4 {
        UnaryOp::Log10
    } else if k == 5 {
        UnaryOp::Sin
    } else if k == 6 {
        UnaryOp::Cos
    } else {
        UnaryOp::Tan
    }
}

/// Generates one random mutation subtree bottom-up into `nodes`, a block
/// destined to be appended to an arena at position `index_offset`; child
/// links are already global.  Returns the global index of the subtree
/// root.
fn generate_subtree<F: Fn(NumOp, u64, u64) -> u64, U: Fn() -> u64>(
    nodes: &mut Vec<Node>,
    depth: usize,
    n_inputs: usize,
    index_offset: usize,
    num: &F,
    unit: &U,
) -> (idx: usize)
    requires
        num_total(*num),
        draw_total(*unit),
        index_offset + old(nodes)@.len() + max_block(depth as nat) <= usize::MAX,
        block_ok(old(nodes)@, index_offset as int),
        vars_ok(old(nodes)@, n_inputs as nat),
    ensures
        final(nodes)@.len() > old(nodes)@.len(),
        final(nodes)@.len() <= old(nodes)@.len() + max_block(depth as nat),
        final(nodes)@.take(old(nodes)@.len() as int) == old(nodes)@,
        idx == index_offset + final(nodes)@.len() - 1,
        block_ok(final(nodes)@, index_offset as int),
        vars_ok(final(nodes)@, n_inputs as nat),
    decreases depth,
{
    let ghost base = nodes@;
    let node: Node = if depth == 0 || unit() < EARLY_STOP_BITS {
        if random_bool() && n_inputs != 0 {
            Node::Variable(random_usize() % n_inputs)
        } else {
            Node::Number(draw_constant(num, unit))
        }
    } else {
        proof {
            assert(max_block(depth as nat) == 1 + 2 * max_block((depth - 1) as nat));
        }
        if random_bool() {
            let a = generate_subtree(nodes, depth - 1, n_inputs, index_offset, num, unit);
            let b = generate_subtree(nodes, depth - 1, n_inputs, index_offset, num, unit);
            Node::BinOp(BinOp { op: random_binop(), a, b })
        } else {
            let a = generate_subtree(nodes, depth - 1, n_inputs, index_offset, num, unit);
            Node::UnOp(UnOp { op: random_unop(), a })
        }
    };
    let ghost before_push = nodes@;
    nodes.push(node);
    proof {
        assert(nodes@.take(base.len() as int) =~= base);
        assert forall|t: int|
            0 <= t < nodes@.len() implies children_in(
            #[trigger] nodes@[t],
            index_offset as int,
            index_offset + t,
        ) by {
            if t < before_push.len() {
                assert(nodes@[t] == before_push[t]);
                assert(children_in(before_push[t], index_offset as int, index_offset + t));
            } else {
                assert(nodes@[t] == node);
            }
        }
        assert forall|t: int|
            0 <= t < nodes@.len() implies node_vars_ok(#[trigger] nodes@[t], n_inputs as nat) by {
            if t < before_push.len() {
                assert(nodes@[t] == before_push[t]);
            }
        }
    }
    nodes.len() - 1 + index_offset
}

/// A fresh constant: the caller's arithmetic applied as
/// `unit * 10 - 5`, a draw from the interval from -5 to 5.
fn draw_constant<F: Fn(NumOp, u64, u64) -> u64, U: Fn() -> u64>(num: &F, unit: &U) -> u64
    requires
        num_total(*num),
        draw_total(*unit),
{
    let u = unit();
    let scaled = num(NumOp::Bin(BinaryOp::Mul), u, TEN_BITS);
    num(NumOp::Bin(BinaryOp::Sub), scaled, FIVE_BITS)
}

/// The constant formatter accepts every bit pattern.
pub open spec fn fmt_total<G: Fn(u64) -> String>(g: G) -> bool {
    forall|x: u64| #[trigger] call_requires(g, (x,))
}

/// The postfix token of a unary operator.
pub open spec fn spec_unary_token(op: UnaryOp) -> Seq<char> {
    match op {
        UnaryOp::Neg => ("neg")@,
        UnaryOp::Abs => ("abs")@,
        UnaryOp::Loge => ("ln")@,
        UnaryOp::Log2 => ("log2")@,
        UnaryOp::Log10 => ("log10")@,
        UnaryOp::Sin => ("sin")@,
        UnaryOp::Cos => ("cos")@,
        UnaryOp::Tan => ("tan")@,
    }
}

/// The postfix token of a binary operator.
pub open spec fn spec_binary_token(op: BinaryOp) -> Seq<char> {
    match op {
        BinaryOp::Add => ("+")@,
        BinaryOp::Sub => ("-")@,
        BinaryOp::Mul => ("*")@,
        BinaryOp::Div => ("/")@,
        BinaryOp::Pow => ("^")@,
    }
}

/// Two texts joined by a single blank.
pub open spec fn spaced(a: Seq<char>, b: Seq<char>) -> Seq<char> {
    a + (" ")@ + b
}

/// `out` is a postfix text of the subtree at `i`: children first, tokens
/// separated by single blanks, constants written by the caller-supplied
/// formatter `g`, variables as `$` and their index in decimal.
pub open spec fn rpn_rel<G: Fn(u64) -> String>(
    g: G,
    nodes: Seq<Node>,
    i: int,
    out: Seq<char>,
) -> bool
    decreases some_rank(nodes)[i]
        when acyclic(nodes) && 0 <= i < nodes.len()
{
    match nodes[i] {
        Node::Number(x) => exists|t: String| #[trigger] call_ensures(g, (x,), t) && out == t@,
        Node::Variable(p) => out == ("$")@ + crate::text::spec_dec(p as int),
        Node::UnOp(u) => {
            proof {
                assert(rank_ok(nodes, some_rank(nodes)));
                assert(rank_ok_at(nodes, some_rank(nodes), i));
            }
            exists|a_out: Seq<char>|
                rpn_rel(g, nodes, u.a as int, a_out) && out == #[trigger] spaced(
                    a_out,
                    spec_unary_token(u.op),
                )
        },
        Node::BinOp(b) => {
            proof {
                assert(rank_ok(nodes, some_rank(nodes)));
                assert(rank_ok_at(nodes, some_rank(nodes), i));
            }
            exists|a_out: Seq<char>, b_out: Seq<char>|
                rpn_rel(g, nodes, b.a as int, a_out) && rpn_rel(g, nodes, b.b as int, b_out)
                    && out == spaced(
                    #[trigger] spaced(a_out, b_out),
                    spec_binary_token(b.op),
                )
        },
    }
}

/// The constant formatter writes equal bit patterns equally.
pub open spec fn fmt_functional<G: Fn(u64) -> String>(g: G) -> bool {
    forall|x: u64, t1: String, t2: String|
        #[trigger] call_ensures(g, (x,), t1) && #[trigger] call_ensures(g, (x,), t2) ==> t1@ == t2@
}

/// LAW: with a formatter that writes equal bit patterns equally, the
/// postfix text of a node is a function of the arena: any two texts the
/// relation admits are equal.  Repeated calls of `rpn` therefore return
/// the same text.
pub proof fn lemma_rpn_functional<G: Fn(u64) -> String>(
    g: G,
    nodes: Seq<Node>,
    i: int,
    out1: Seq<char>,
    out2: Seq<char>,
)
    requires
        acyclic(nodes),
        0 <= i < nodes.len(),
        fmt_functional(g),
        rpn_rel(g, nodes, i, out1),
        rpn_rel(g, nodes, i, out2),
    ensures
        out1 == out2,
    decreases some_rank(nodes)[i],
{
    assert(rank_ok(nodes, some_rank(nodes)));
    assert(rank_ok_at(nodes, some_rank(nodes), i));
    match nodes[i] {
        Node::Number(x) => {
            let t1 = choose|t: String| #[trigger] call_ensures(g, (x,), t) && out1 == t@;
            let t2 = choose|t: String| #[trigger] call_ensures(g, (x,), t) && out2 == t@;
            assert(t1@ == t2@);
        },
        Node::Variable(p) => {},
        Node::UnOp(u) => {
            let a1 = choose|a: Seq<char>|
                rpn_rel(g, nodes, u.a as int, a) && out1 == #[trigger] spaced(
                    a,
                    spec_unary_token(u.op),
                );
            let a2 = choose|a: Seq<char>|
                rpn_rel(g, nodes, u.a as int, a) && out2 == #[trigger] spaced(
                    a,
                    spec_unary_token(u.op),
                );
            lemma_rpn_functional(g, nodes, u.a as int, a1, a2);
        },
        Node::BinOp(b) => {
            let (a1, b1) = choose|a: Seq<char>, bb: Seq<char>|
                rpn_rel(g, nodes, b.a as int, a) && rpn_rel(g, nodes, b.b as int, bb) && out1
                    == spaced(#[trigger] spaced(a, bb), spec_binary_token(b.op));
            let (a2, b2) = choose|a: Seq<char>, bb: Seq<char>|
                rpn_rel(g, nodes, b.a as int, a) && rpn_rel(g, nodes, b.b as int, bb) && out2
                    == spaced(#[trigger] spaced(a, bb), spec_binary_token(b.op));
            lemma_rpn_functional(g, nodes, b.a as int, a1, a2);
            lemma_rpn_functional(g, nodes, b.b as int, b1, b2);
        },
    }
}

/// The token of a unary operator.
fn unary_token(op: UnaryOp) -> (r: &'static str)
    ensures
        r@ == spec_unary_token(op),
{
    match op {
        UnaryOp::Neg => "neg",
        UnaryOp::Abs => "abs",
        UnaryOp::Loge => "ln",
        UnaryOp::Log2 => "log2",
        UnaryOp::Log10 => "log10",
        UnaryOp::Sin => "sin",
        UnaryOp::Cos => "cos",
        UnaryOp::Tan => "tan",
    }
}

/// The token of a binary operator.
fn binary_token(op: BinaryOp) -> (r: &'static str)
    ensures
        r@ == spec_binary_token(op),
{
    match op {
        BinaryOp::Add => "+",
        BinaryOp::Sub => "-",
        BinaryOp::Mul => "*",
        BinaryOp::Div => "/",
        BinaryOp::Pow => "^",
    }
}

impl Expr {
    /// The arena is evaluable: child links are valid and acyclic, the root
    /// exists, and every variable index is in range.
    pub open spec fn wf(&self) -> bool {
        &&& acyclic(self.nodes@)
        &&& self.root < self.nodes@.len()
        &&& vars_ok(self.nodes@, self.n_inputs as nat)
    }

    /// An empty arena over `n_inputs` input variables.  The root index 0
    /// points at no node until a tree is generated.
    pub fn new(n_inputs: usize) -> (r: Expr)
        ensures
            r.nodes@.len() == 0,
            r.root == 0,
            r.n_inputs == n_inputs,
    {
        Expr { nodes: Vec::new(), root: 0, n_inputs }
    }

    /// An exact copy of this expression.
    pub fn duplicate(&self) -> (r: Expr)
        ensures
            r.nodes@ == self.nodes@,
            r.root == self.root,
            r.n_inputs == self.n_inputs,
    {
        let mut nodes: Vec<Node> = Vec::new();
        let mut i: usize = 0;
        while i < self.nodes.len()
            invariant
                i <= self.nodes@.len(),
                nodes@ == self.nodes@.take(i as int),
            decreases self.nodes@.len() - i,
        {
            nodes.push(self.nodes[i]);
            proof {
                assert(nodes@ =~= self.nodes@.take(i + 1 as int));
            }
            i += 1;
        }
        proof {
            assert(nodes@ =~= self.nodes@);
        }
        Expr { nodes, root: self.root, n_inputs: self.n_inputs }
    }

    /// Fills the arena with a randomly generated tree and points the root
    /// at it.  On a fresh arena the build is post-order: every child index
    /// is strictly below its parent's, and the root is the last node.
    pub fn random_tree<F: Fn(NumOp, u64, u64) -> u64, U: Fn() -> u64>(
        &mut self,
        max_depth: usize,
        num: &F,
        unit: &U,
    )
        requires
            num_total(*num),
            draw_total(*unit),
            acyclic(old(self).nodes@),
            vars_ok(old(self).nodes@, old(self).n_inputs as nat),
            old(self).nodes@.len() + max_block(max_depth as nat) <= usize::MAX,
        ensures
            final(self).n_inputs == old(self).n_inputs,
            final(self).wf(),
            final(self).nodes@.len() > old(self).nodes@.len(),
            final(self).nodes@.len() <= old(self).nodes@.len() + max_block(max_depth as nat),
            final(self).nodes@.take(old(self).nodes@.len() as int) == old(self).nodes@,
            final(self).root == final(self).nodes@.len() - 1,
            forall|j: int|
                old(self).nodes@.len() <= j < final(self).nodes@.len() ==> children_in(
                    #[trigger] final(self).nodes@[j],
                    old(self).nodes@.len() as int,
                    j,
                ),
    {
        let idx = self.generate_tree(max_depth, num, unit);
        self.root = idx;
        proof {
            lemma_acyclic_extend(self.nodes@, old(self).nodes@.len() as int);
        }
    }

    /// Generates one random subtree bottom-up, appending its nodes to the
    /// arena, and returns the index of its root.
    fn generate_tree<F: Fn(NumOp, u64, u64) -> u64, U: Fn() -> u64>(
        &mut self,
        max_depth: usize,
        num: &F,
        unit: &U,
    ) -> (idx: usize)
        requires
            num_total(*num),
            draw_total(*unit),
            vars_ok(old(self).nodes@, old(self).n_inputs as nat),
            old(self).nodes@.len() + max_block(max_depth as nat) <= usize::MAX,
        ensures
            final(self).n_inputs == old(self).n_inputs,
            final(self).root == old(self).root,
            final(self).nodes@.len() > old(self).nodes@.len(),
            final(self).nodes@.len() <= old(self).nodes@.len() + max_block(max_depth as nat),
            final(self).nodes@.take(old(self).nodes@.len() as int) == old(self).nodes@,
            idx == final(self).nodes@.len() - 1,
            vars_ok(final(self).nodes@, final(self).n_inputs as nat),
            forall|j: int|
                old(self).nodes@.len() <= j < final(self).nodes@.len() ==> children_in(
                    #[trigger] final(self).nodes@[j],
                    old(self).nodes@.len() as int,
                    j,
                ),
        decreases max_depth,
    {
        let ghost base = self.nodes@;
        let node: Node = if max_depth == 0 || unit() < LEAF_CHANCE_BITS {
            if random_bool() && self.n_inputs != 0 {
                Node::Variable(random_usize() % self.n_inputs)
            } else {
                Node::Number(draw_constant(num, unit))
            }
        } else {
            proof {
                assert(max_block(max_depth as nat) == 1 + 2 * max_block((max_depth - 1) as nat));
            }
            if random_bool() {
                let a = self.generate_tree(max_depth - 1, num, unit);
                let ghost mid = self.nodes@;
                let b = self.generate_tree(max_depth - 1, num, unit);
                proof {
                    assert(self.nodes@.take(base.len() as int) =~= base);
                    assert forall|j: int|
                        base.len() <= j < self.nodes@.len() implies children_in(
                        #[trigger] self.nodes@[j],
                        base.len() as int,
                        j,
                    ) by {
                        if j < mid.len() {
                            assert(self.nodes@[j] == mid[j]);
                        }
                    }
                }
                Node::BinOp(BinOp { op: random_binop(), a, b })
            } else {
                let child = self.generate_tree(max_depth - 1, num, unit);
                Node::UnOp(UnOp { op: random_unop(), a: child })
            }
        };
        let ghost before_push = self.nodes@;
        self.nodes.push(node);
        proof {
            assert(self.nodes@.take(base.len() as int) =~= base);
            assert forall|j: int|
                base.len() <= j < self.nodes@.len() implies children_in(
                #[trigger] self.nodes@[j],
                base.len() as int,
                j,
            ) by {
                if j < before_push.len() {
                    assert(self.nodes@[j] == before_push[j]);
                } else {
                    assert(self.nodes@[j] == node);
                }
            }
            assert forall|j: int|
                0 <= j < self.nodes@.len() implies node_vars_ok(
                #[trigger] self.nodes@[j],
                self.n_inputs as nat,
            ) by {
                if j < before_push.len() {
                    assert(self.nodes@[j] == before_push[j]);
                }
            }
        }
        self.nodes.len() - 1
    }

    /// A perturbed copy of this expression.  Every node of the original
    /// range may be replaced (by a fresh leaf, or by a fresh subtree of
    /// depth at most 3 appended to the arena); an untouched constant is
    /// jiggled by `unit * rate * 10`.  Replaced subtrees are left in place
    /// as orphans, so the arena never shrinks.
    pub fn mutate<F: Fn(NumOp, u64, u64) -> u64, U: Fn() -> u64>(
        &self,
        rate: u64,
        num: &F,
        unit: &U,
    ) -> (r: Expr)
        requires
            self.wf(),
            self.n_inputs >= 1,
            31 * self.nodes@.len() <= usize::MAX,
            num_total(*num),
            draw_total(*unit),
        ensures
            r.wf(),
            r.n_inputs == self.n_inputs,
            r.root == self.root,
            r.nodes@.len() >= self.nodes@.len(),
            r.nodes@.len() <= 31 * self.nodes@.len(),
    {
        let mut expr = self.duplicate();
        let len0 = expr.nodes.len();
        let mut i: usize = 0;
        while i < len0
            invariant
                num_total(*num),
                draw_total(*unit),
                31 * len0 <= usize::MAX,
                i <= len0,
                expr.n_inputs == self.n_inputs,
                expr.n_inputs >= 1,
                expr.root == self.root,
                self.root < len0,
                acyclic(expr.nodes@),
                vars_ok(expr.nodes@, expr.n_inputs as nat),
                len0 <= expr.nodes@.len(),
                expr.nodes@.len() <= len0 + 30 * i,
            decreases len0 - i,
        {
            proof {
                assert(max_block(3) == 15) by {
                    reveal_with_fuel(max_block, 4);
                }
            }
            if sometimes(rate, unit) {
                let node_type = random_below(4);
                if node_type == 0 {
                    let c = draw_constant(num, unit);
                    let ghost pre = expr.nodes@;
                    expr.nodes.set(i, Node::Number(c));
                    proof {
                        lemma_acyclic_leaf_update(pre, i as int, Node::Number(c));
                        assert forall|j: int|
                            0 <= j < expr.nodes@.len() implies node_vars_ok(
                            #[trigger] expr.nodes@[j],
                            expr.n_inputs as nat,
                        ) by {
                            if j != i {
                                assert(expr.nodes@[j] == pre[j]);
                            }
                        }
                    }
                } else if node_type == 1 {
                    let v = random_below(expr.n_inputs);
                    let ghost pre = expr.nodes@;
                    expr.nodes.set(i, Node::Variable(v));
                    proof {
                        lemma_acyclic_leaf_update(pre, i as int, Node::Variable(v));
                        assert forall|j: int|
                            0 <= j < expr.nodes@.len() implies node_vars_ok(
                            #[trigger] expr.nodes@[j],
                            expr.n_inputs as nat,
                        ) by {
                            if j != i {
                                assert(expr.nodes@[j] == pre[j]);
                            }
                        }
                    }
                } else if node_type == 2 {
                    let mut new_nodes: Vec<Node> = Vec::new();
                    let offset = expr.nodes.len();
                    let a = generate_subtree(&mut new_nodes, 3, expr.n_inputs, offset, num, unit);
                    let b = generate_subtree(&mut new_nodes, 3, expr.n_inputs, offset, num, unit);
                    let op = random_binop();
                    let ghost pre = expr.nodes@;
                    let ghost block = new_nodes@;
                    expr.nodes.append(&mut new_nodes);
                    let repl = Node::BinOp(BinOp { op, a, b });
                    expr.nodes.set(i, repl);
                    proof {
                        assert(expr.nodes@ =~= (pre + block).update(i as int, repl));
                        lemma_acyclic_graft(pre, block, i as int, repl);
                        assert forall|j: int|
                            0 <= j < expr.nodes@.len() implies node_vars_ok(
                            #[trigger] expr.nodes@[j],
                            expr.n_inputs as nat,
                        ) by {
                            if j != i {
                                if j < pre.len() {
                                    assert(expr.nodes@[j] == pre[j]);
                                } else {
                                    assert(expr.nodes@[j] == block[j - pre.len()]);
                                }
                            }
                        }
                    }
                } else {
                    let mut new_nodes: Vec<Node> = Vec::new();
                    let offset = expr.nodes.len();
                    let a = generate_subtree(&mut new_nodes, 3, expr.n_inputs, offset, num, unit);
                    let op = random_unop();
                    let ghost pre = expr.nodes@;
                    let ghost block = new_nodes@;
                    expr.nodes.append(&mut new_nodes);
                    let repl = Node::UnOp(UnOp { op, a });
                    expr.nodes.set(i, repl);
                    proof {
                        assert(expr.nodes@ =~= (pre + block).update(i as int, repl));
                        lemma_acyclic_graft(pre, block, i as int, repl);
                        assert forall|j: int|
                            0 <= j < expr.nodes@.len() implies node_vars_ok(
                            #[trigger] expr.nodes@[j],
                            expr.n_inputs as nat,
                        ) by {
                            if j != i {
                                if j < pre.len() {
                                    assert(expr.nodes@[j] == pre[j]);
                                } else {
                                    assert(expr.nodes@[j] == block[j - pre.len()]);
                                }
                            }
                        }
                    }
                }
            } else {
                match expr.nodes[i] {
                    Node::Number(x) => {
                        let u = unit();
                        let scaled = num(NumOp::Bin(BinaryOp::Mul), u, rate);
                        let step = num(NumOp::Bin(BinaryOp::Mul), scaled, TEN_BITS);
                        let jiggled = num(NumOp::Bin(BinaryOp::Add), x, step);
                        let ghost pre = expr.nodes@;
                        expr.nodes.set(i, Node::Number(jiggled));
                        proof {
                            lemma_acyclic_leaf_update(pre, i as int, Node::Number(jiggled));
                            assert forall|j: int|
                                0 <= j < expr.nodes@.len() implies node_vars_ok(
                                #[trigger] expr.nodes@[j],
                                expr.n_inputs as nat,
                            ) by {
                                if j != i {
                                    assert(expr.nodes@[j] == pre[j]);
                                }
                            }
                        }
                    },
                    _ => {},
                }
            }
            i += 1;
        }
        expr
    }

    /// The postfix text of the whole expression, constants written by
    /// `fmt`.
    pub fn rpn<G: Fn(u64) -> String>(&self, fmt: &G) -> (r: String)
        requires
            self.wf(),
            fmt_total(*fmt),
        ensures
            rpn_rel(*fmt, self.nodes@, self.root as int, r@),
    {
        self.generate_rpn(self.root, fmt)
    }

    /// The postfix text of the subtree at `node`.
    fn generate_rpn<G: Fn(u64) -> String>(&self, node: usize, fmt: &G) -> (r: String)
        requires
            acyclic(self.nodes@),
            node < self.nodes@.len(),
            fmt_total(*fmt),
        ensures
            rpn_rel(*fmt, self.nodes@, node as int, r@),
        decreases some_rank(self.nodes@)[node as int],
    {
        proof {
            assert(rank_ok(self.nodes@, some_rank(self.nodes@)));
            assert(rank_ok_at(self.nodes@, some_rank(self.nodes@), node as int));
        }
        match self.nodes[node] {
            Node::Number(x) => {
                let t = fmt(x);
                proof {
                    assert(call_ensures(*fmt, (x,), t));
                    assert(rpn_rel(*fmt, self.nodes@, node as int, t@));
                }
                t
            },
            Node::Variable(p) => {
                let mut s = String::from_str("$");
                let d = crate::text::usize_text(p);
                s.append(d.as_str());
                proof {
                    assert(s@ =~= ("$")@ + crate::text::spec_dec(p as int));
                    assert(rpn_rel(*fmt, self.nodes@, node as int, s@));
                }
                s
            },
            Node::UnOp(u) => {
                let mut s = self.generate_rpn(u.a, fmt);
                let ghost a_out = s@;
                s.append(" ");
                s.append(unary_token(u.op));
                proof {
                    assert(rpn_rel(*fmt, self.nodes@, u.a as int, a_out));
                    assert(s@ =~= spaced(a_out, spec_unary_token(u.op)));
                    assert(rpn_rel(*fmt, self.nodes@, node as int, s@));
                }
                s
            },
            Node::BinOp(b) => {
                let mut s = self.generate_rpn(b.a, fmt);
                let rhs = self.generate_rpn(b.b, fmt);
                let ghost a_out = s@;
                let ghost b_out = rhs@;
                s.append(" ");
                s.append(rhs.as_str());
                s.append(" ");
                s.append(binary_token(b.op));
                proof {
                    assert(rpn_rel(*fmt, self.nodes@, b.a as int, a_out));
                    assert(rpn_rel(*fmt, self.nodes@, b.b as int, b_out));
                    assert(s@ =~= spaced(spaced(a_out, b_out), spec_binary_token(b.op)));
                    assert(rpn_rel(*fmt, self.nodes@, node as int, s@));
                }
                s
            },
        }
    }

    /// Evaluates the expression from its root against one input row, with
    /// arithmetic answered by `num`.
    pub fn evaluate<F: Fn(NumOp, u64, u64) -> u64>(&self, inputs: &[u64], num: &F) -> (v: u64)
        requires
            self.wf(),
            self.n_inputs <= inputs@.len(),
            num_total(*num),
        ensures
            eval_rel(*num, self.nodes@, self.root as int, inputs@, v),
    {
        self.eval(self.root, inputs, num)
    }

    /// Evaluates the subtree rooted at `node`.
    fn eval<F: Fn(NumOp, u64, u64) -> u64>(&self, node: usize, inputs: &[u64], num: &F) -> (v: u64)
        requires
            acyclic(self.nodes@),
            vars_ok(self.nodes@, self.n_inputs as nat),
            node < self.nodes@.len(),
            self.n_inputs <= inputs@.len(),
            num_total(*num),
        ensures
            eval_rel(*num, self.nodes@, node as int, inputs@, v),
        decreases some_rank(self.nodes@)[node as int],
    {
        proof {
            assert(rank_ok(self.nodes@, some_rank(self.nodes@)));
            assert(rank_ok_at(self.nodes@, some_rank(self.nodes@), node as int));
            assert(node_vars_ok(self.nodes@[node as int], self.n_inputs as nat));
        }
        match self.nodes[node] {
            Node::Number(x) => x,
            Node::Variable(ptr) => *vstd::slice::slice_index_get(inputs, ptr),
            Node::UnOp(u) => {
                let x = self.eval(u.a, inputs, num);
                let v = num(NumOp::Un(u.op), x, 0);
                proof {
                    assert(call_ensures(*num, (NumOp::Un(u.op), x, 0u64), v));
                }
                v
            },
            Node::BinOp(b) => {
                let x = self.eval(b.a, inputs, num);
                let y = self.eval(b.b, inputs, num);
                let v = num(NumOp::Bin(b.op), x, y);
                proof {
                    assert(call_ensures(*num, (NumOp::Bin(b.op), x, y), v));
                }
                v
            },
        }
    }
}


} // verus!
