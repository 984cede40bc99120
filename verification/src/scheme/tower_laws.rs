//! What the rounds of a tower prove: a round sums up to the claims of the layers above, and these
//! are the evaluations that the round before it ended in, merged at one more coordinate.
use vstd::arithmetic::power2::*;
use vstd::prelude::*;

use crate::expression::laws::lemma_eval_valid;
use crate::expression::Env;
use crate::field::{e_add, e_mul, e_zero, group_field, Ext, GoldilocksExt2};
use crate::gkr::rotation_laws::{block, lemma_fix_block, lemma_sum_scaled, lemma_zero_sum, scaled};
use crate::gkr::sum_laws::{added, lemma_sum_added, row_values};
use crate::multilinear::{
    all_valid, e_prod, e_sum, eq_at, eq_terms, fix_all, fix_first, lemma_e_sum_valid,
    lemma_eq_at_valid, lemma_fix_all_append, lemma_mle_eval_is_eq_sum, lerp, mle_eval,
};
use crate::ring::{
    lemma_e_add_comm, lemma_e_mul_add, lemma_e_mul_assoc, lemma_e_mul_comm, lemma_e_mul_one,
};
use crate::scheme::tower_prover::{
    first_column, group_value, lemma_first_column, lemma_round_expr, round_expr, round_value,
    GroupedMLE,
};
use crate::tower::{column, column_products, product_layer_above, FracLayer};

verus! {

broadcast use {group_field, lemma_eval_valid, lemma_e_sum_valid, lemma_eq_at_valid};

/// A column of the tables of a round.
pub open spec fn table_of(rows: Seq<Env>, c: int) -> Seq<Ext> {
    Seq::new(rows.len(), |s: int| rows[s].wit[c]@)
}

/// The product layer whose first table is the column `id`.
pub open spec fn prod_layer(rows: Seq<Env>, id: int) -> Seq<Seq<Ext>> {
    seq![table_of(rows, id), table_of(rows, id + 1)]
}

/// The layer of fractions whose first table is the column `id`.
pub open spec fn frac_layer(rows: Seq<Env>, id: int) -> FracLayer {
    FracLayer {
        p1: table_of(rows, id),
        p2: table_of(rows, id + 1),
        q1: table_of(rows, id + 2),
        q2: table_of(rows, id + 3),
    }
}

/// The numerators of the sums of a layer of fractions.
pub open spec fn numerators(layer: FracLayer) -> Seq<Ext> {
    Seq::new(layer.q1.len(), |j: int| layer.sum_at(j).p)
}

/// The denominators of the sums of a layer of fractions.
pub open spec fn denominators(layer: FracLayer) -> Seq<Ext> {
    Seq::new(layer.q1.len(), |j: int| layer.sum_at(j).q)
}

/// What is claimed of a layer at a point: the evaluation of the products of its tables, or those of
/// the numerators and of the denominators of its sums, with their coefficients.
pub open spec fn group_claim(
    group: GroupedMLE,
    alphas: Seq<GoldilocksExt2>,
    num_prod: int,
    id: int,
    rows: Seq<Env>,
    point: Seq<Ext>,
) -> Ext {
    match group {
        GroupedMLE::Prod(i, _) => e_mul(
            alphas[i as int]@,
            mle_eval(column_products(prod_layer(rows, id), rows.len()), point),
        ),
        GroupedMLE::Logup(i, _) => e_add(
            e_mul(
                alphas[num_prod + 2 * i]@,
                mle_eval(numerators(frac_layer(rows, id)), point),
            ),
            e_mul(
                alphas[num_prod + 2 * i + 1]@,
                mle_eval(denominators(frac_layer(rows, id)), point),
            ),
        ),
    }
}

/// What is claimed of the first layers of a round.
pub open spec fn round_claim(
    groups: Seq<GroupedMLE>,
    alphas: Seq<GoldilocksExt2>,
    num_prod: int,
    n: int,
    rows: Seq<Env>,
    point: Seq<Ext>,
) -> Ext
    decreases n,
{
    if n <= 0 {
        e_zero()
    } else {
        e_add(
            round_claim(groups, alphas, num_prod, n - 1, rows, point),
            group_claim(
                groups[n - 1],
                alphas,
                num_prod,
                first_column(groups, n - 1),
                rows,
                point,
            ),
        )
    }
}

proof fn lemma_pair_product(a: Ext, b: Ext)
    requires
        a.valid(),
    ensures
        e_prod(seq![a, b]) == e_mul(a, b),
{
    reveal_with_fuel(e_prod, 3);
    let s = seq![a, b];
    assert(s.drop_last() =~= seq![a]);
    assert(seq![a].drop_last() =~= Seq::<Ext>::empty());
    lemma_e_mul_one(a);
}

/// The values of a product layer over the rows, with the equality polynomial of a point.
#[verifier::spinoff_prover]
proof fn lemma_prod_rows(
    alpha: Ext,
    id: int,
    rows: Seq<Env>,
    point: Seq<Ext>,
    values: Seq<Ext>,
)
    requires
        rows.len() == pow2(point.len()),
        values.len() == rows.len(),
        forall|s: int|
            0 <= s < rows.len() ==> #[trigger] values[s] == e_mul(
                e_mul(eq_at(point, s), alpha),
                e_mul(rows[s].wit[id]@, rows[s].wit[id + 1]@),
            ),
    ensures
        e_sum(values) == e_mul(
            alpha,
            mle_eval(column_products(prod_layer(rows, id), rows.len()), point),
        ),
{
    let layer = prod_layer(rows, id);
    let products = column_products(layer, rows.len());
    let terms = scaled(alpha, eq_terms(products, point));
    assert forall|s: int| 0 <= s < rows.len() implies (#[trigger] products[s]) == e_mul(
        rows[s].wit[id]@,
        rows[s].wit[id + 1]@,
    ) by {
        let (a, b) = (rows[s].wit[id]@, rows[s].wit[id + 1]@);
        assert(column(layer, s) =~= seq![a, b]);
        lemma_pair_product(a, b);
    }
    assert forall|s: int| 0 <= s < rows.len() implies values[s] == #[trigger] terms[s] by {
        let (eq, p) = (eq_at(point, s), products[s]);
        lemma_e_mul_comm(eq, alpha);
        lemma_e_mul_assoc(alpha, eq, p);
        lemma_e_mul_comm(eq, p);
    }
    assert(values =~= terms);
    lemma_sum_scaled(alpha, eq_terms(products, point));
    lemma_mle_eval_is_eq_sum(products, point);
}

/// The values of a layer of fractions over the rows, with the equality polynomial of a point.
#[verifier::spinoff_prover]
proof fn lemma_logup_rows(
    alpha_p: Ext,
    alpha_q: Ext,
    id: int,
    rows: Seq<Env>,
    point: Seq<Ext>,
    values: Seq<Ext>,
)
    requires
        rows.len() == pow2(point.len()),
        values.len() == rows.len(),
        forall|s: int|
            0 <= s < rows.len() ==> {
                let (p1, p2) = (rows[s].wit[id]@, rows[s].wit[id + 1]@);
                let (q1, q2) = (rows[s].wit[id + 2]@, rows[s].wit[id + 3]@);
                #[trigger] values[s] == e_mul(
                    eq_at(point, s),
                    e_add(
                        e_mul(alpha_p, e_add(e_mul(p1, q2), e_mul(p2, q1))),
                        e_mul(e_mul(alpha_q, q1), q2),
                    ),
                )
            },
    ensures
        e_sum(values) == e_add(
            e_mul(alpha_p, mle_eval(numerators(frac_layer(rows, id)), point)),
            e_mul(alpha_q, mle_eval(denominators(frac_layer(rows, id)), point)),
        ),
{
    let layer = frac_layer(rows, id);
    let (ps, qs) = (numerators(layer), denominators(layer));
    let p_terms = scaled(alpha_p, eq_terms(ps, point));
    let q_terms = scaled(alpha_q, eq_terms(qs, point));
    let terms = added(p_terms, q_terms);
    assert forall|s: int| 0 <= s < rows.len() implies values[s] == #[trigger] terms[s] by {
        let (p1, p2) = (rows[s].wit[id]@, rows[s].wit[id + 1]@);
        let (q1, q2) = (rows[s].wit[id + 2]@, rows[s].wit[id + 3]@);
        let eq = eq_at(point, s);
        let (p, q) = (e_add(e_mul(p1, q2), e_mul(p2, q1)), e_mul(q1, q2));
        lemma_e_add_comm(e_mul(p1, q2), e_mul(p2, q1));
        lemma_e_mul_comm(p1, q2);
        lemma_e_mul_comm(p2, q1);
        assert(ps[s] == p);
        assert(qs[s] == q);
        lemma_e_mul_assoc(alpha_q, q1, q2);
        lemma_e_mul_add(eq, e_mul(alpha_p, p), e_mul(alpha_q, q));
        lemma_e_mul_comm(eq, e_mul(alpha_p, p));
        lemma_e_mul_assoc(alpha_p, p, eq);
        lemma_e_mul_comm(eq, e_mul(alpha_q, q));
        lemma_e_mul_assoc(alpha_q, q, eq);
    }
    assert(values =~= terms);
    lemma_sum_added(p_terms, q_terms);
    lemma_sum_scaled(alpha_p, eq_terms(ps, point));
    lemma_sum_scaled(alpha_q, eq_terms(qs, point));
    assert(all_valid(ps) && all_valid(qs));
    lemma_mle_eval_is_eq_sum(ps, point);
    lemma_mle_eval_is_eq_sum(qs, point);
}

/// What a round sums up to over all rows is what is claimed of its layers: the evaluations, at the
/// point of the round, of the products and of the sums of fractions that the layers above hold.
#[verifier::spinoff_prover]
pub proof fn lemma_round_sum(
    groups: Seq<GroupedMLE>,
    alphas: Seq<GoldilocksExt2>,
    num_prod: int,
    n: int,
    rows: Seq<Env>,
    point: Seq<Ext>,
)
    requires
        0 <= n <= groups.len(),
        first_column(groups, n) <= u16::MAX,
        rows.len() == pow2(point.len()),
        forall|s: int| 0 <= s < rows.len() ==> (#[trigger] rows[s]).wit[0]@ == eq_at(point, s),
    ensures
        e_sum(row_values(round_expr(groups, alphas, num_prod, n), rows)) == round_claim(
            groups,
            alphas,
            num_prod,
            n,
            rows,
            point,
        ),
    decreases n,
{
    let values = row_values(round_expr(groups, alphas, num_prod, n), rows);
    assert forall|s: int| 0 <= s < rows.len() implies #[trigger] values[s] == round_value(
        groups,
        alphas,
        num_prod,
        n,
        rows[s],
    ) by {
        lemma_round_expr(groups, alphas, num_prod, n, rows[s]);
    }
    if n == 0 {
        lemma_zero_sum(values);
    } else {
        lemma_first_column(groups, n - 1, n);
        lemma_round_sum(groups, alphas, num_prod, n - 1, rows, point);
        let rest = row_values(round_expr(groups, alphas, num_prod, n - 1), rows);
        let (group, id) = (groups[n - 1], first_column(groups, n - 1));
        let last = Seq::new(
            rows.len(),
            |s: int| group_value(group, alphas, num_prod, id, rows[s]),
        );
        assert forall|s: int| 0 <= s < rows.len() implies values[s] == #[trigger] added(
            rest,
            last,
        )[s] by {
            lemma_round_expr(groups, alphas, num_prod, n - 1, rows[s]);
        }
        assert(values =~= added(rest, last));
        lemma_sum_added(rest, last);
        match group {
            GroupedMLE::Prod(i, _) => {
                lemma_prod_rows(alphas[i as int]@, id, rows, point, last);
            },
            GroupedMLE::Logup(i, _) => {
                lemma_logup_rows(
                    alphas[num_prod + 2 * i]@,
                    alphas[num_prod + 2 * i + 1]@,
                    id,
                    rows,
                    point,
                    last,
                );
            },
        }
    }
}

/// The evaluation of two tables put behind each other is the evaluations of the two, merged at the
/// last coordinate.
pub proof fn lemma_merge_evals(a: Seq<Ext>, b: Seq<Ext>, point: Seq<Ext>, r: Ext)
    requires
        a.len() == pow2(point.len()),
        b.len() == pow2(point.len()),
    ensures
        mle_eval(a + b, point.push(r)) == lerp(mle_eval(a, point), mle_eval(b, point), r),
{
    let s = a + b;
    let size = pow2(point.len()) as int;
    lemma_pow2_pos(point.len());
    assert(s.len() as int % size == 0) by (nonlinear_arith)
        requires
            s.len() == 2 * size,
            0 < size,
    ;
    assert(size * (0 + 1) == size && size * (1 + 1) == 2 * size && size * 0 == 0 && size * 1
        == size) by (nonlinear_arith);
    lemma_fix_block(s, point, 0);
    lemma_fix_block(s, point, 1);
    assert(block(s, size, 0) =~= a);
    assert(block(s, size, 1) =~= b);
    assert(point.push(r) =~= point + seq![r]);
    lemma_fix_all_append(s, point, seq![r]);
    let u = fix_all(s, point);
    reveal_with_fuel(fix_all, 2);
    assert(seq![r].drop_first() =~= Seq::<Ext>::empty());
    assert(fix_all(u, seq![r]) == fix_first(u, r));
}

/// What is claimed of a product layer is what the evaluations of the layer above merge to.
pub proof fn lemma_product_claim(layer: Seq<Seq<Ext>>, point: Seq<Ext>, r: Ext)
    requires
        layer.len() == 2,
        layer[0].len() == 2 * pow2(point.len()),
    ensures
        mle_eval(column_products(layer, layer[0].len()), point.push(r)) == lerp(
            mle_eval(product_layer_above(layer)[0], point),
            mle_eval(product_layer_above(layer)[1], point),
            r,
        ),
{
    let above = product_layer_above(layer);
    let half = pow2(point.len()) as int;
    assert(layer[0].len() as int / 2 == half);
    assert(0 * half == 0 && 1 * half == half);
    assert(above[0] + above[1] =~= column_products(layer, layer[0].len()));
    lemma_merge_evals(above[0], above[1], point, r);
}

/// What is claimed of a layer of fractions is what the evaluations of the layer above merge to.
pub proof fn lemma_frac_claim(layer: FracLayer, point: Seq<Ext>, r: Ext)
    requires
        layer.even(),
        layer.q1.len() == 2 * pow2(point.len()),
    ensures
        mle_eval(numerators(layer), point.push(r)) == lerp(
            mle_eval(layer.above().p1, point),
            mle_eval(layer.above().p2, point),
            r,
        ),
        mle_eval(denominators(layer), point.push(r)) == lerp(
            mle_eval(layer.above().q1, point),
            mle_eval(layer.above().q2, point),
            r,
        ),
{
    let above = layer.above();
    assert(above.p1 + above.p2 =~= numerators(layer));
    assert(above.q1 + above.q2 =~= denominators(layer));
    lemma_merge_evals(above.p1, above.p2, point, r);
    lemma_merge_evals(above.q1, above.q2, point, r);
}

} // verus!
