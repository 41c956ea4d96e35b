//! The optimisers: a fixed-population evolutionary search, and a naive
//! Monte Carlo baseline.
//!
//! Fitness of a population is computed in parallel through a trusted
//! wrapper around `rayon`; everything the wrapper claims is exactly what
//! the verified per-individual update ensures.  Ranking uses the IEEE 754
//! total order decided on bit patterns, so a NaN loss sorts above every
//! number.

use crate::expr::BinaryOp;
use crate::expr::Expr;
use crate::expr::lemma_acyclic_empty;
use crate::expr::max_block;
use crate::metrics::mse;
use crate::metrics::mse_rel;
use crate::metrics::regularize;
use crate::metrics::regularize_rel;
use crate::num::INFINITY_BITS;
use crate::num::NumOp;
use crate::num::draw_total;
use crate::num::is_nan_bits;
use crate::num::le_total;
use crate::num::le_total_bits;
use crate::num::num_total;
use crate::num::spec_is_nan;
use crate::rng::random_below;
use crate::vec2d::Vec2d;
use crate::vec2d::lemma_row_end_in_bounds;
use crate::vm::Program;
use crate::vm::compile_expr;
use crate::vm::lemma_flatten_ptrs;
use crate::vm::lemma_flatten_shape;
use crate::vm::lemma_flatten_sound;
use crate::vm::spec_flatten;
use rayon::iter::IntoParallelRefMutIterator;
use rayon::iter::ParallelIterator;
use vstd::prelude::*;

verus! {

/// The bits of 0.001, the regularisation weight of the genetic optimiser.
pub const GENETIC_ALPHA_BITS: u64 = 0x3F50624DD2F1A9FC;

/// The bits of 0.005, the regularisation weight of the naive baseline.
pub const NAIVE_ALPHA_BITS: u64 = 0x3F747AE147AE147B;

/// The hyperparameters of the genetic optimiser.  The fractions `cutoff`
/// and `mutation_rate` are carried as IEEE 754 bit patterns of values in
/// the unit interval.
pub struct GeneticParameters {
    pub population_size: usize,
    pub cutoff: u64,
    pub mutation_rate: u64,
}

impl GeneticParameters {
    /// A population of 1000, a cutoff of 0.1 and a mutation rate of 0.01.
    pub fn default() -> (r: GeneticParameters)
        ensures
            r.population_size == 1000,
            r.cutoff == 0x3FB999999999999Au64,
            r.mutation_rate == 0x3F847AE147AE147Bu64,
    {
        GeneticParameters {
            population_size: 1000,
            cutoff: 0x3FB999999999999A,
            mutation_rate: 0x3F847AE147AE147B,
        }
    }
}

/// One candidate: an expression, its compiled program, and its loss (the
/// bits of positive infinity until evaluated).
#[derive(Debug, Clone)]
pub struct Individual {
    pub expr: Expr,
    pub compiled_expr: Program,
    pub loss: u64,
}

/// The elements of row `i` of the table.
pub open spec fn row_of(x: Vec2d<u64>, i: int) -> Seq<u64> {
    x.entries().subrange(i * x.width() as int, i * x.width() as int + x.width() as int)
}

/// An individual fit for evaluation against a table of `width` columns:
/// its expression is well formed over that many inputs, its program is the
/// expression's compilation, and its arena is small enough for the cost
/// sum.
pub open spec fn ind_ok(ind: Individual, width: nat) -> bool {
    &&& ind.expr.wf()
    &&& ind.compiled_expr.ops() == spec_flatten(ind.expr.nodes@, ind.expr.root as int)
    &&& ind.expr.n_inputs == width
    &&& 5 * ind.expr.nodes@.len() <= u64::MAX
}

/// Every individual of the population is fit for evaluation.
pub open spec fn pop_ok(pop: Seq<Individual>, width: nat) -> bool {
    forall|i: int| 0 <= i < pop.len() ==> ind_ok(#[trigger] pop[i], width)
}

/// `p` is a possible prediction of `e` on one row: a value the expression
/// may evaluate to, with NaN collapsed to positive infinity.
pub open spec fn pred_rel<F: Fn(NumOp, u64, u64) -> u64>(
    f: F,
    e: Expr,
    row: Seq<u64>,
    p: u64,
) -> bool {
    exists|raw: u64|
        #[trigger] crate::expr::eval_rel(f, e.nodes@, e.root as int, row, raw) && p == (
        if spec_is_nan(raw) {
            INFINITY_BITS
        } else {
            raw
        })
}

/// `loss` is a possible regularised loss of `e` against the table: the
/// mean squared error of row-wise predictions against the first `rows`
/// entries of `y`, plus `alpha` times the expression's complexity.
pub open spec fn loss_rel<F: Fn(NumOp, u64, u64) -> u64>(
    f: F,
    e: Expr,
    x: Vec2d<u64>,
    y: Seq<u64>,
    alpha: u64,
    loss: u64,
) -> bool {
    exists|preds: Seq<u64>, m: u64, reg: u64|
        #![trigger mse_rel(f, preds, y.take(x.rows() as int), m), call_ensures(f, (NumOp::Bin(BinaryOp::Add), m, reg), loss)]
        {
            &&& preds.len() == x.rows()
            &&& forall|i: int| 0 <= i < x.rows() ==> pred_rel(f, e, row_of(x, i), #[trigger] preds[i])
            &&& mse_rel(f, preds, y.take(x.rows() as int), m)
            &&& regularize_rel(f, e.nodes@, alpha, reg)
            &&& call_ensures(f, (NumOp::Bin(BinaryOp::Add), m, reg), loss)
        }
}

/// Evaluates one individual against the whole table and stores its
/// regularised loss.
pub fn update_loss<F: Fn(NumOp, u64, u64) -> u64>(
    ind: &mut Individual,
    x: &Vec2d<u64>,
    y: &Vec<u64>,
    num: &F,
)
    requires
        num_total(*num),
        ind_ok(*old(ind), x.width()),
        x.width() >= 1,
        x.rows() >= 1,
        y@.len() >= x.rows(),
    ensures
        final(ind).expr == old(ind).expr,
        final(ind).compiled_expr == old(ind).compiled_expr,
        loss_rel(*num, old(ind).expr, *x, y@, GENETIC_ALPHA_BITS, final(ind).loss),
{
    let (rows, _cols) = x.shape();
    let mut preds: Vec<u64> = Vec::new();
    let mut trues: Vec<u64> = Vec::new();
    proof {
        lemma_flatten_ptrs(ind.expr.nodes@, ind.expr.root as int, ind.expr.n_inputs as nat);
        lemma_flatten_shape(ind.expr.nodes@, ind.expr.root as int, 0);
    }
    let mut i_row: usize = 0;
    while i_row < rows
        invariant
            num_total(*num),
            ind_ok(*ind, x.width()),
            *ind == *old(ind),
            x.width() >= 1,
            y@.len() >= x.rows(),
            rows == x.rows(),
            i_row <= rows,
            preds@.len() == i_row,
            trues@ == y@.take(i_row as int),
            forall|k: int|
                0 <= k < i_row ==> pred_rel(*num, ind.expr, row_of(*x, k), #[trigger] preds@[k]),
        decreases rows - i_row,
    {
        proof {
            lemma_row_end_in_bounds(x.entries().len() as int, x.width() as int, i_row as int);
            lemma_flatten_ptrs(ind.expr.nodes@, ind.expr.root as int, ind.expr.n_inputs as nat);
            lemma_flatten_shape(ind.expr.nodes@, ind.expr.root as int, 0);
        }
        let x_row = match x.get_row(i_row) {
            Some(row) => row,
            None => {
                proof {
                    assert(false);
                }
                unreached()
            },
        };
        let raw = match ind.compiled_expr.evaluate(x_row, num) {
            Some(v) => v,
            None => {
                proof {
                    assert(false);
                }
                unreached()
            },
        };
        proof {
            let v = lemma_flatten_sound(
                *num,
                ind.expr.nodes@,
                ind.expr.root as int,
                x_row@,
                Seq::<u64>::empty(),
                seq![raw],
            );
            assert(seq![raw][0] == raw);
            assert(crate::expr::eval_rel(*num, ind.expr.nodes@, ind.expr.root as int, x_row@, raw));
        }
        let result = if is_nan_bits(raw) {
            INFINITY_BITS
        } else {
            raw
        };
        preds.push(result);
        trues.push(y[i_row]);
        proof {
            assert(trues@ =~= y@.take(i_row + 1 as int));
            assert(pred_rel(*num, ind.expr, row_of(*x, i_row as int), result));
        }
        i_row += 1;
    }
    let m = mse(preds.as_slice(), trues.as_slice(), num);
    let reg = regularize(&ind.expr, GENETIC_ALPHA_BITS, num);
    let loss = num(NumOp::Bin(BinaryOp::Add), m, reg);
    proof {
        assert(call_ensures(*num, (NumOp::Bin(BinaryOp::Add), m, reg), loss));
        assert(trues@ =~= y@.take(x.rows() as int));
    }
    ind.loss = loss;
}

/// Relies on rayon's `par_iter_mut().for_each(..)`: applies the verified
/// per-individual loss update to every individual, each exactly once, with
/// workers writing disjoint slots; the table and targets are only read.
#[verifier::external_body]
fn par_update_losses<F: Fn(NumOp, u64, u64) -> u64 + Sync>(
    population: &mut Vec<Individual>,
    x: &Vec2d<u64>,
    y: &Vec<u64>,
    num: &F,
)
    requires
        num_total(*num),
        pop_ok(old(population)@, x.width()),
        x.width() >= 1,
        x.rows() >= 1,
        y@.len() >= x.rows(),
    ensures
        final(population)@.len() == old(population)@.len(),
        forall|i: int|
            0 <= i < old(population)@.len() ==> {
                &&& (#[trigger] final(population)@[i]).expr == old(population)@[i].expr
                &&& final(population)@[i].compiled_expr == old(population)@[i].compiled_expr
                &&& loss_rel(
                    *num,
                    old(population)@[i].expr,
                    *x,
                    y@,
                    GENETIC_ALPHA_BITS,
                    final(population)@[i].loss,
                )
            },
{
    population.par_iter_mut().for_each(|individual| update_loss(individual, x, y, num));
}

/// The population is ranked: each loss at or below the next, in the IEEE
/// total order on bit patterns.
pub open spec fn sorted_by_loss(pop: Seq<Individual>) -> bool {
    forall|i: int, j: int|
        0 <= i <= j < pop.len() ==> le_total(#[trigger] pop[i].loss, #[trigger] pop[j].loss)
}

/// LAW: after sorting, `loss[i] <= loss[i+1]` for every pair of positions,
/// under the total order that places NaN above all numbers; the population
/// is a permutation of what it was.
pub fn sort_by_loss_total(population: &mut Vec<Individual>)
    ensures
        final(population)@.len() == old(population)@.len(),
        final(population)@.to_multiset() == old(population)@.to_multiset(),
        sorted_by_loss(final(population)@),
{
    broadcast use vstd::seq_lib::group_to_multiset_ensures;
    broadcast use vstd::multiset::group_multiset_axioms;

    if population.len() < 2 {
        return ;
    }
    let mut i: usize = 1;
    while i < population.len()
        invariant
            population@.len() == old(population)@.len(),
            population@.to_multiset() == old(population)@.to_multiset(),
            1 <= i <= population@.len(),
            sorted_by_loss(population@.take(i as int)),
        decreases population@.len() - i,
    {
        let mut j: usize = i;
        while j > 0 && !le_total_bits(population[j - 1].loss, population[i].loss)
            invariant
                population@.len() == old(population)@.len(),
                i < population@.len(),
                j <= i,
                forall|k: int|
                    j <= k < i ==> !le_total(
                        (#[trigger] population@[k]).loss,
                        population@[i as int].loss,
                    ),
            decreases j,
        {
            j -= 1;
        }
        let ghost before = population@;
        let item = population.remove(i);
        population.insert(j, item);
        proof {
            assert(item == before[i as int]);
            assert(before.contains(item)) by {
                assert(before[i as int] == item);
            }
            vstd::seq_lib::to_multiset_remove(before, i as int);
            vstd::seq_lib::to_multiset_insert(before.remove(i as int), j as int, item);
            assert(population@.to_multiset() == before.to_multiset().remove(item).insert(item));
            assert(population@.to_multiset() =~= before.to_multiset()) by {
                let m = before.to_multiset();
                assert(m.count(item) > 0) by {
                    assert(before.contains(item));
                    vstd::seq_lib::to_multiset_contains(before, item);
                }
                assert forall|e: Individual|
                    m.remove(item).insert(item).count(e) == m.count(e) by {
                    assert(m.remove(item).insert(item).count(e) == m.remove(item).count(e) + (
                    if e == item {
                        1int
                    } else {
                        0int
                    }));
                }
            }
            let cur = population@;
            assert forall|a: int, b: int|
                0 <= a <= b < i + 1 implies le_total(
                (#[trigger] cur[a]).loss,
                (#[trigger] cur[b]).loss,
            ) by {
                assert(forall|k: int|
                    0 <= k < j ==> #[trigger] cur[k] == before.remove(i as int)[k - 1 + 1]);
                assert(cur[j as int] == item);
                assert(forall|k: int| j < k <= i ==> #[trigger] cur[k] == before[k - 1]);
                assert forall|a2: int, b2: int|
                    0 <= a2 <= b2 < i implies le_total(
                    (#[trigger] before[a2]).loss,
                    (#[trigger] before[b2]).loss,
                ) by {
                    assert(before.take(i as int)[a2] == before[a2]);
                    assert(before.take(i as int)[b2] == before[b2]);
                    assert(le_total(
                        before.take(i as int)[a2].loss,
                        before.take(i as int)[b2].loss,
                    ));
                }
                if j > 0 {
                    assert(le_total(before[j - 1].loss, item.loss));
                }
                let pa = cur[a];
                let pb = cur[b];
                if a == j {
                    assert(pa == item);
                } else if a < j {
                    assert(pa == before[a]);
                } else {
                    assert(pa == before[a - 1]);
                }
                if b == j {
                    assert(pb == item);
                } else if b < j {
                    assert(pb == before[b]);
                } else {
                    assert(pb == before[b - 1]);
                }
                if a < j && b == j {
                    assert(le_total(before[a].loss, before[j - 1].loss));
                    assert(le_total(before[a].loss, item.loss));
                } else if a == j && b > j {
                    assert(!le_total(before[b - 1].loss, item.loss));
                    assert(le_total(item.loss, before[b - 1].loss));
                } else if a < j && b > j {
                    assert(le_total(before[a].loss, before[j - 1].loss));
                    assert(le_total(before[a].loss, item.loss));
                    assert(!le_total(before[b - 1].loss, item.loss));
                    assert(le_total(item.loss, before[b - 1].loss));
                    assert(le_total(before[a].loss, before[b - 1].loss));
                }
            }
            assert(population@.take(i + 1 as int) =~= cur.take(i + 1 as int));
            assert forall|a: int, b: int|
                0 <= a <= b < i + 1 implies le_total(
                (#[trigger] population@.take(i + 1 as int)[a]).loss,
                (#[trigger] population@.take(i + 1 as int)[b]).loss,
            ) by {
                assert(population@.take(i + 1 as int)[a] == cur[a]);
                assert(population@.take(i + 1 as int)[b] == cur[b]);
            }
        }
        i += 1;
    }
    proof {
        assert(population@.take(population@.len() as int) =~= population@);
        assert forall|a: int, b: int|
            0 <= a <= b < population@.len() implies le_total(
            (#[trigger] population@[a]).loss,
            (#[trigger] population@[b]).loss,
        ) by {
            assert(population@.take(population@.len() as int)[a] == population@[a]);
            assert(population@.take(population@.len() as int)[b] == population@[b]);
        }
    }
}

/// Every individual of the population carries a loss the arithmetic may
/// have produced for its own expression.
pub open spec fn pop_evaluated<F: Fn(NumOp, u64, u64) -> u64>(
    f: F,
    pop: Seq<Individual>,
    x: Vec2d<u64>,
    y: Seq<u64>,
) -> bool {
    forall|i: int|
        0 <= i < pop.len() ==> loss_rel(
            f,
            (#[trigger] pop[i]).expr,
            x,
            y,
            GENETIC_ALPHA_BITS,
            pop[i].loss,
        )
}

/// A fact about every element of a sequence carries over to any
/// permutation of it.
proof fn lemma_pop_facts_via_perm(
    a: Seq<Individual>,
    b: Seq<Individual>,
    p: spec_fn(Individual) -> bool,
)
    requires
        a.to_multiset() == b.to_multiset(),
        forall|i: int| 0 <= i < a.len() ==> p(#[trigger] a[i]),
    ensures
        forall|i: int| 0 <= i < b.len() ==> p(#[trigger] b[i]),
{
    broadcast use vstd::seq_lib::group_to_multiset_ensures;

    assert forall|i: int| 0 <= i < b.len() implies p(b[i]) by {
        assert(b.contains(b[i]));
        vstd::seq_lib::to_multiset_contains(b, b[i]);
        vstd::seq_lib::to_multiset_contains(a, b[i]);
        assert(a.contains(b[i]));
        let k = choose|k: int| 0 <= k < a.len() && a[k] == b[i];
        assert(p(a[k]));
    }
}

/// A count at most `m / k` scaled by `k` stays at most `m`.
proof fn lemma_mul_div_bound(a: int, k: int, m: int)
    requires
        k > 0,
        0 <= a,
        a <= m / k,
        m >= 0,
    ensures
        k * a <= m,
{
    vstd::arithmetic::div_mod::lemma_fundamental_div_mod(m, k);
    vstd::arithmetic::div_mod::lemma_mod_bound(m, k);
    assert(k * a <= k * (m / k)) by (nonlinear_arith)
        requires
            k > 0,
            a <= m / k,
    ;
}

/// A regularised loss of one expression is a loss of any expression with
/// the same arena and root.
proof fn lemma_loss_rel_same_view<F: Fn(NumOp, u64, u64) -> u64>(
    f: F,
    e1: Expr,
    e2: Expr,
    x: Vec2d<u64>,
    y: Seq<u64>,
    alpha: u64,
    loss: u64,
)
    requires
        loss_rel(f, e1, x, y, alpha, loss),
        e2.nodes@ == e1.nodes@,
        e2.root == e1.root,
    ensures
        loss_rel(f, e2, x, y, alpha, loss),
{
    let (preds, m, reg) = choose|preds: Seq<u64>, m: u64, reg: u64|
        #![trigger mse_rel(f, preds, y.take(x.rows() as int), m), call_ensures(f, (NumOp::Bin(BinaryOp::Add), m, reg), loss)]
        {
            &&& preds.len() == x.rows()
            &&& forall|i: int| 0 <= i < x.rows() ==> pred_rel(f, e1, row_of(x, i), #[trigger] preds[i])
            &&& mse_rel(f, preds, y.take(x.rows() as int), m)
            &&& regularize_rel(f, e1.nodes@, alpha, reg)
            &&& call_ensures(f, (NumOp::Bin(BinaryOp::Add), m, reg), loss)
        };
    assert forall|i: int| 0 <= i < x.rows() implies pred_rel(f, e2, row_of(x, i), #[trigger] preds[i]) by {
        assert(pred_rel(f, e1, row_of(x, i), preds[i]));
        let raw = choose|raw: u64|
            #[trigger] crate::expr::eval_rel(f, e1.nodes@, e1.root as int, row_of(x, i), raw)
                && preds[i] == (if spec_is_nan(raw) {
                INFINITY_BITS
            } else {
                raw
            });
        assert(crate::expr::eval_rel(f, e2.nodes@, e2.root as int, row_of(x, i), raw));
    }
}

/// `cnt` is a possible selected-parent count: the population size encoded
/// as a real, multiplied by the cutoff fraction, truncated back to a
/// count.
pub open spec fn selection_count_rel<F: Fn(NumOp, u64, u64) -> u64>(
    f: F,
    size: usize,
    cutoff: u64,
    cnt: u64,
) -> bool {
    exists|s_bits: u64, prod: u64|
        #![trigger call_ensures(f, (NumOp::Bin(BinaryOp::Mul), s_bits, cutoff), prod)]
        {
            &&& call_ensures(f, (NumOp::OfCount, size as u64, 0u64), s_bits)
            &&& call_ensures(f, (NumOp::Bin(BinaryOp::Mul), s_bits, cutoff), prod)
            &&& call_ensures(f, (NumOp::ToCount, prod, 0u64), cnt)
        }
}

/// Asks the caller's arithmetic for the whole part of `size` times the
/// `cutoff` fraction.
pub fn selection_count<F: Fn(NumOp, u64, u64) -> u64>(size: usize, cutoff: u64, num: &F) -> (cnt:
    u64)
    requires
        num_total(*num),
    ensures
        selection_count_rel(*num, size, cutoff, cnt),
{
    let s_bits = num(NumOp::OfCount, size as u64, 0);
    let prod = num(NumOp::Bin(BinaryOp::Mul), s_bits, cutoff);
    let cnt = num(NumOp::ToCount, prod, 0);
    proof {
        assert(call_ensures(*num, (NumOp::OfCount, size as u64, 0u64), s_bits));
        assert(call_ensures(*num, (NumOp::Bin(BinaryOp::Mul), s_bits, cutoff), prod));
        assert(call_ensures(*num, (NumOp::ToCount, prod, 0u64), cnt));
    }
    cnt
}

/// Runs the evolutionary search: `population_size` random expressions
/// over the table's columns, then per generation a parallel fitness pass,
/// a ranking, and (except after the last) truncation selection with
/// mutation.  Returns `None` exactly when the computed selected-parent
/// count is zero or exceeds the population, and otherwise the best
/// individual's loss and expression.
pub fn genetic_optimizer<F: Fn(NumOp, u64, u64) -> u64 + Sync, U: Fn() -> u64>(
    iterations: usize,
    x: &Vec2d<u64>,
    y: &Vec<u64>,
    params: &GeneticParameters,
    num: &F,
    unit: &U,
) -> (r: Option<(u64, Expr)>)
    requires
        num_total(*num),
        draw_total(*unit),
        x.width() >= 1,
        x.rows() >= 1,
        y@.len() >= x.rows(),
        params.population_size >= 1,
    ensures
        r is None ==> exists|cnt: u64|
            #[trigger] selection_count_rel(*num, params.population_size, params.cutoff, cnt) && (
            cnt == 0 || cnt > params.population_size),
        r is Some ==> (r->0).1.wf() && (r->0).1.n_inputs == x.width(),
        r is Some && iterations >= 1 ==> loss_rel(
            *num,
            (r->0).1,
            *x,
            y@,
            GENETIC_ALPHA_BITS,
            (r->0).0,
        ),
{
    let (_rows, cols) = x.shape();
    let mut population: Vec<Individual> = Vec::new();
    let mut k: usize = 0;
    while k < params.population_size
        invariant
            num_total(*num),
            draw_total(*unit),
            cols == x.width(),
            x.width() >= 1,
            population@.len() == k,
            k <= params.population_size,
            pop_ok(population@, x.width()),
        decreases params.population_size - k,
    {
        let mut expr = Expr::new(cols);
        proof {
            lemma_acyclic_empty(expr.nodes@);
            assert(max_block(10) == 2047) by {
                reveal_with_fuel(max_block, 12);
            }
        }
        expr.random_tree(10, num, unit);
        let compiled_expr = compile_expr(&expr);
        let ghost before = population@;
        population.push(Individual { expr, compiled_expr, loss: INFINITY_BITS });
        proof {
            assert forall|i: int| 0 <= i < population@.len() implies ind_ok(
                #[trigger] population@[i],
                x.width(),
            ) by {
                if i < before.len() {
                    assert(population@[i] == before[i]);
                }
            }
        }
        k += 1;
    }
    let cnt = selection_count(params.population_size, params.cutoff, num);
    if cnt == 0 || cnt > params.population_size as u64 {
        return None;
    }
    let n_selected: usize = cnt as usize;
    if iterations == 0 {
        let best_expr = population[0].expr.duplicate();
        let best_loss = population[0].loss;
        return Some((best_loss, best_expr));
    }
    par_update_losses(&mut population, x, y, num);
    let ghost pre_sort = population@;
    sort_by_loss_total(&mut population);
    proof {
        lemma_pop_facts_via_perm(
            pre_sort,
            population@,
            |ind: Individual| ind_ok(ind, x.width()),
        );
        lemma_pop_facts_via_perm(
            pre_sort,
            population@,
            |ind: Individual| loss_rel(*num, ind.expr, *x, y@, GENETIC_ALPHA_BITS, ind.loss),
        );
        assert(pop_ok(population@, x.width()));
        assert(pop_evaluated(*num, population@, *x, y@));
    }
    let mut generation: usize = 1;
    while generation < iterations
        invariant
            num_total(*num),
            draw_total(*unit),
            cols == x.width(),
            x.width() >= 1,
            x.rows() >= 1,
            y@.len() >= x.rows(),
            params.population_size >= 1,
            1 <= n_selected <= params.population_size,
            population@.len() == params.population_size,
            pop_ok(population@, x.width()),
            pop_evaluated(*num, population@, *x, y@),
            generation <= iterations,
        decreases iterations - generation,
    {
        let mut new_population: Vec<Individual> = Vec::new();
        let mut s: usize = 0;
        while s < params.population_size
            invariant
                num_total(*num),
                draw_total(*unit),
                cols == x.width(),
                x.width() >= 1,
                1 <= n_selected <= params.population_size,
                population@.len() == params.population_size,
                pop_ok(population@, x.width()),
                new_population@.len() == s,
                s <= params.population_size,
                pop_ok(new_population@, x.width()),
            decreases params.population_size - s,
        {
            let j = random_below(n_selected);
            let parent_len = population[j].expr.nodes.len();
            let child_expr = if parent_len <= usize::MAX / 31 && parent_len as u64 <= u64::MAX
                / 155 {
                proof {
                    lemma_mul_div_bound(parent_len as int, 31, usize::MAX as int);
                    lemma_mul_div_bound(parent_len as int, 155, u64::MAX as int);
                }
                population[j].expr.mutate(params.mutation_rate, num, unit)
            } else {
                population[j].expr.duplicate()
            };
            let compiled_expr = compile_expr(&child_expr);
            let ghost before = new_population@;
            new_population.push(
                Individual { expr: child_expr, compiled_expr, loss: INFINITY_BITS },
            );
            proof {
                assert forall|i: int| 0 <= i < new_population@.len() implies ind_ok(
                    #[trigger] new_population@[i],
                    x.width(),
                ) by {
                    if i < before.len() {
                        assert(new_population@[i] == before[i]);
                    }
                }
            }
            s += 1;
        }
        population = new_population;
        generation += 1;
        par_update_losses(&mut population, x, y, num);
        let ghost pre_sort2 = population@;
        sort_by_loss_total(&mut population);
        proof {
            lemma_pop_facts_via_perm(
                pre_sort2,
                population@,
                |ind: Individual| ind_ok(ind, x.width()),
            );
            lemma_pop_facts_via_perm(
                pre_sort2,
                population@,
                |ind: Individual| loss_rel(*num, ind.expr, *x, y@, GENETIC_ALPHA_BITS, ind.loss),
            );
            assert(pop_ok(population@, x.width()));
            assert(pop_evaluated(*num, population@, *x, y@));
        }
    }
    let best_expr = population[0].expr.duplicate();
    let best_loss = population[0].loss;
    proof {
        assert(ind_ok(population@[0], x.width()));
        assert(loss_rel(*num, population@[0].expr, *x, y@, GENETIC_ALPHA_BITS, best_loss));
        lemma_loss_rel_same_view(
            *num,
            population@[0].expr,
            best_expr,
            *x,
            y@,
            GENETIC_ALPHA_BITS,
            best_loss,
        );
    }
    Some((best_loss, best_expr))
}

/// Draws `iterations` fresh random expressions and keeps the one with the
/// lowest regularised loss; a candidate whose prediction is NaN on any row
/// is discarded.  When every candidate is discarded the result is the
/// bits of positive infinity and an empty expression.
pub fn naive_montecarlo<F: Fn(NumOp, u64, u64) -> u64, U: Fn() -> u64>(
    iterations: usize,
    x: Vec2d<u64>,
    y: Vec<u64>,
    num: &F,
    unit: &U,
) -> (r: (u64, Expr))
    requires
        num_total(*num),
        draw_total(*unit),
        x.width() >= 1,
        x.rows() >= 1,
        y@.len() >= x.rows(),
    ensures
        r.1.n_inputs == x.width(),
        r.1.wf() || (r.0 == INFINITY_BITS && r.1.nodes@.len() == 0),
        r.1.wf() ==> loss_rel(*num, r.1, x, y@, NAIVE_ALPHA_BITS, r.0),
{
    let (rows, cols) = x.shape();
    let mut best_loss: u64 = INFINITY_BITS;
    let mut best_expr = Expr::new(cols);
    let mut it: usize = 0;
    while it < iterations
        invariant
            num_total(*num),
            draw_total(*unit),
            cols == x.width(),
            x.width() >= 1,
            x.rows() >= 1,
            y@.len() >= x.rows(),
            rows == x.rows(),
            best_expr.n_inputs == cols,
            best_expr.wf() || (best_loss == INFINITY_BITS && best_expr.nodes@.len() == 0),
            best_expr.wf() ==> loss_rel(*num, best_expr, x, y@, NAIVE_ALPHA_BITS, best_loss),
        decreases iterations - it,
    {
        let mut expr = Expr::new(cols);
        proof {
            lemma_acyclic_empty(expr.nodes@);
            assert(max_block(10) == 2047) by {
                reveal_with_fuel(max_block, 12);
            }
        }
        expr.random_tree(10, num, unit);
        let mut preds: Vec<u64> = Vec::new();
        let mut trues: Vec<u64> = Vec::new();
        let mut ok = true;
        let mut ii: usize = 0;
        while ii < rows && ok
            invariant
                num_total(*num),
                expr.wf(),
                expr.n_inputs == cols,
                cols == x.width(),
                x.width() >= 1,
                y@.len() >= x.rows(),
                rows == x.rows(),
                ii <= rows,
                ok ==> preds@.len() == ii,
                ok ==> trues@ == y@.take(ii as int),
                ok ==> forall|k: int|
                    0 <= k < ii ==> pred_rel(*num, expr, row_of(x, k), #[trigger] preds@[k]),
            decreases rows - ii, (if ok { 1int } else { 0int }),
        {
            proof {
                lemma_row_end_in_bounds(x.entries().len() as int, x.width() as int, ii as int);
            }
            let x_row = match x.get_row(ii) {
                Some(row) => row,
                None => {
                    proof {
                        assert(false);
                    }
                    unreached()
                },
            };
            let result = expr.evaluate(x_row, num);
            if is_nan_bits(result) {
                ok = false;
            } else {
                preds.push(result);
                trues.push(y[ii]);
                proof {
                    assert(trues@ =~= y@.take(ii + 1 as int));
                    assert(pred_rel(*num, expr, row_of(x, ii as int), result));
                }
                ii += 1;
            }
        }
        if ok {
            let m = mse(preds.as_slice(), trues.as_slice(), num);
            let reg = regularize(&expr, NAIVE_ALPHA_BITS, num);
            let loss = num(NumOp::Bin(BinaryOp::Add), m, reg);
            proof {
                assert(call_ensures(*num, (NumOp::Bin(BinaryOp::Add), m, reg), loss));
                assert(trues@ =~= y@.take(x.rows() as int));
            }
            if !le_total_bits(best_loss, loss) {
                best_loss = loss;
                best_expr = expr;
            }
        }
        it += 1;
    }
    (best_loss, best_expr)
}

} // verus!
