//! The sums over all rows of a table that the zero checks and the rotation arguments prove.
use vstd::arithmetic::power2::*;
use vstd::prelude::*;

use crate::expression::fold::values_sum;
use crate::expression::laws::{lemma_add_exchange, lemma_eval_valid};
use crate::expression::{Env, Expression};
use crate::field::{e_add, e_mul, e_sub, e_zero, group_field, Ext, GoldilocksExt2};
use crate::gkr::rotation_laws::{eq_table, lemma_sum_scaled, lemma_zero_sum, scaled};
use crate::gkr::utils::{all_evals, extended_exprs, lemma_all_evals};
use crate::gkr::zerocheck_layer::{
    all_sigmas, const_exprs, group_combination, group_outputs, group_start, inner_product,
    is_zerocheck_layer, lemma_rotation_check_eval, lemma_zero_check_eval, rotation_check,
    rotation_eq, rotation_outputs, rotation_start, spec_num_alphas, zero_check, EvalsAndPoint,
};
use crate::gkr::Layer;
use crate::mle::ext_seq;
use crate::multilinear::{
    all_valid, e_sum, eq_at, eq_terms, lemma_e_sum_valid, lemma_eq_at_valid,
    lemma_mle_eval_is_eq_sum, mle_eval,
};
use crate::ring::{
    lemma_e_add_assoc, lemma_e_add_neg, lemma_e_add_zero, lemma_e_mul_add, lemma_e_mul_assoc,
    lemma_e_mul_comm, lemma_e_mul_zero, lemma_e_sub_is_add_neg,
};

verus! {

broadcast use {group_field, lemma_eval_valid, lemma_e_sum_valid, lemma_eq_at_valid};

/// The values of an expression in the rows of a table.
pub open spec fn row_values(e: Expression, rows: Seq<Env>) -> Seq<Ext> {
    Seq::new(rows.len(), |s: int| e.eval(rows[s]))
}

/// The sums of the entries of two tables.
pub open spec fn added(a: Seq<Ext>, b: Seq<Ext>) -> Seq<Ext> {
    Seq::new(a.len(), |s: int| e_add(a[s], b[s]))
}

/// The sum of entrywise sums.
pub proof fn lemma_sum_added(a: Seq<Ext>, b: Seq<Ext>)
    requires
        a.len() == b.len(),
    ensures
        e_sum(added(a, b)) == e_add(e_sum(a), e_sum(b)),
    decreases a.len(),
{
    if a.len() == 0 {
        lemma_e_add_zero(e_zero());
    } else {
        let (a1, b1) = (a.drop_last(), b.drop_last());
        lemma_sum_added(a1, b1);
        assert(added(a, b).drop_last() =~= added(a1, b1));
        lemma_add_exchange(e_sum(a1), e_sum(b1), a.last(), b.last());
    }
}

/// The first columns with their coefficients, in one row.
pub open spec fn row_combination(
    weights: Seq<Ext>,
    columns: Seq<Seq<Ext>>,
    n: int,
    s: int,
) -> Ext {
    e_sum(Seq::new(n as nat, |i: int| e_mul(weights[i], columns[i][s])))
}

/// A combination of columns, summed up with an equality polynomial, is the same combination of
/// the evaluations of the columns at its point.
#[verifier::spinoff_prover]
pub proof fn lemma_combination_sum(
    weights: Seq<Ext>,
    columns: Seq<Seq<Ext>>,
    point: Seq<Ext>,
    n: int,
)
    requires
        0 <= n <= columns.len(),
        n <= weights.len(),
        forall|i: int|
            0 <= i < n ==> (#[trigger] columns[i]).len() == pow2(point.len()) && all_valid(
                columns[i],
            ),
    ensures
        e_sum(
            Seq::new(
                pow2(point.len()),
                |s: int| e_mul(eq_at(point, s), row_combination(weights, columns, n, s)),
            ),
        ) == e_sum(Seq::new(n as nat, |i: int| e_mul(weights[i], mle_eval(columns[i], point)))),
    decreases n,
{
    let rows = Seq::new(
        pow2(point.len()),
        |s: int| e_mul(eq_at(point, s), row_combination(weights, columns, n, s)),
    );
    let evals = Seq::new(n as nat, |i: int| e_mul(weights[i], mle_eval(columns[i], point)));
    if n == 0 {
        assert forall|s: int| 0 <= s < rows.len() implies #[trigger] rows[s] == e_zero() by {
            assert(Seq::new(0, |i: int| e_mul(weights[i], columns[i][s])) =~= Seq::empty());
            lemma_e_mul_zero(eq_at(point, s));
        }
        lemma_zero_sum(rows);
        assert(evals =~= Seq::empty());
    } else {
        lemma_combination_sum(weights, columns, point, n - 1);
        let rest = Seq::new(
            pow2(point.len()),
            |s: int| e_mul(eq_at(point, s), row_combination(weights, columns, n - 1, s)),
        );
        let (w, c) = (weights[n - 1], columns[n - 1]);
        let last = scaled(w, eq_terms(c, point));
        assert(rows =~= added(rest, last)) by {
            assert forall|s: int| 0 <= s < rows.len() implies #[trigger] rows[s] == added(
                rest,
                last,
            )[s] by {
                let terms = Seq::new(n as nat, |i: int| e_mul(weights[i], columns[i][s]));
                assert(terms.drop_last() =~= Seq::new(
                    (n - 1) as nat,
                    |i: int| e_mul(weights[i], columns[i][s]),
                ));
                let eq = eq_at(point, s);
                lemma_e_mul_add(eq, row_combination(weights, columns, n - 1, s), e_mul(w, c[s]));
                lemma_e_mul_comm(eq, e_mul(w, c[s]));
                lemma_e_mul_assoc(w, c[s], eq);
            }
        }
        lemma_sum_added(rest, last);
        lemma_sum_scaled(w, eq_terms(c, point));
        lemma_mle_eval_is_eq_sum(c, point);
        assert(evals.drop_last() =~= Seq::new(
            (n - 1) as nat,
            |i: int| e_mul(weights[i], mle_eval(columns[i], point)),
        ));
    }
}

/// The claim of a group holds of the rows: the column of the equality polynomial is that of the
/// claimed point, and the claimed evaluations are those of the outputs.
pub open spec fn is_claimed(
    eq: Expression,
    outputs: Seq<Expression>,
    claim: EvalsAndPoint,
    rows: Seq<Env>,
) -> bool {
    let point = ext_seq(claim.1->0@);
    &&& claim.1 is Some
    &&& rows.len() == pow2(point.len())
    &&& row_values(eq, rows) == eq_table(point)
    &&& claim.0@.len() == outputs.len()
    &&& forall|i: int|
        0 <= i < outputs.len() ==> (#[trigger] claim.0@[i])@ == mle_eval(
            row_values(outputs[i], rows),
            point,
        )
}

/// The claims of a layer, and those of its rotations, hold of the rows.
pub open spec fn are_claimed(layer: Layer, claims: Seq<EvalsAndPoint>, rows: Seq<Env>) -> bool {
    let n = layer.expr_evals@.len() as int;
    &&& claims.len() == n + (if layer.rotation_exprs.eqs is Some {
        3int
    } else {
        0
    })
    &&& forall|g: int|
        0 <= g < n ==> is_claimed(
            layer.expr_evals@[g].eq->0,
            group_outputs(layer, g),
            #[trigger] claims[g],
            rows,
        )
    &&& layer.rotation_exprs.eqs is Some ==> forall|side: int|
        0 <= side < 3 ==> is_claimed(
            #[trigger] rotation_eq(layer, side),
            rotation_outputs(layer, side),
            claims[n + side],
            rows,
        )
}

/// What a claim adds to the claimed sum.
pub open spec fn claim_part(alphas: Seq<GoldilocksExt2>, start: int, claim: EvalsAndPoint) -> Ext {
    e_sum(Seq::new(claim.0@.len(), |i: int| e_mul(alphas[start + i]@, claim.0@[i]@)))
}

/// The sum over the rows of a group with its equality polynomial is what its claim adds up to.
#[verifier::spinoff_prover]
proof fn lemma_group_total(
    alphas: Seq<GoldilocksExt2>,
    start: int,
    eq: Expression,
    outputs: Seq<Expression>,
    claim: EvalsAndPoint,
    rows: Seq<Env>,
    values: Seq<Ext>,
)
    requires
        0 <= start,
        start + outputs.len() <= alphas.len(),
        is_claimed(eq, outputs, claim, rows),
        values.len() == rows.len(),
        forall|s: int|
            0 <= s < rows.len() ==> #[trigger] values[s] == group_combination(
                alphas,
                start,
                eq,
                outputs,
                rows[s],
            ),
    ensures
        e_sum(values) == claim_part(alphas, start, claim),
{
    let point = ext_seq(claim.1->0@);
    let n = outputs.len() as int;
    let weights = Seq::new(outputs.len(), |i: int| alphas[start + i]@);
    let columns = Seq::new(outputs.len(), |i: int| row_values(outputs[i], rows));
    lemma_combination_sum(weights, columns, point, n);
    let sums = Seq::new(
        pow2(point.len()),
        |s: int| e_mul(eq_at(point, s), row_combination(weights, columns, n, s)),
    );
    assert forall|s: int| 0 <= s < rows.len() implies #[trigger] values[s] == sums[s] by {
        assert(row_values(eq, rows)[s] == eq_table(point)[s]);
        assert(Seq::new(n as nat, |i: int| e_mul(weights[i], columns[i][s])) =~= Seq::new(
            outputs.len(),
            |i: int| e_mul(alphas[start + i]@, outputs[i].eval(rows[s])),
        ));
    }
    assert(values =~= sums);
    assert(Seq::new(n as nat, |i: int| e_mul(weights[i], mle_eval(columns[i], point)))
        =~= Seq::new(claim.0@.len(), |i: int| e_mul(alphas[start + i]@, claim.0@[i]@))) by {
        assert forall|i: int| 0 <= i < n implies mle_eval(#[trigger] columns[i], point)
            == claim.0@[i]@ by {
            assert(claim.0@[i]@ == mle_eval(row_values(outputs[i], rows), point));
        }
    }
}

/// The inner product with the evaluations of one claim more.
proof fn lemma_claims_step(alphas: Seq<GoldilocksExt2>, claims: Seq<EvalsAndPoint>, k: int)
    requires
        0 <= k < claims.len(),
        all_sigmas(claims.take(k)).len() + claims[k].0@.len() <= alphas.len(),
    ensures
        all_sigmas(claims.take(k + 1)).len() == all_sigmas(claims.take(k)).len()
            + claims[k].0@.len(),
        inner_product(alphas, all_sigmas(claims.take(k + 1))) == e_add(
            inner_product(alphas, all_sigmas(claims.take(k))),
            claim_part(alphas, all_sigmas(claims.take(k)).len() as int, claims[k]),
        ),
{
    let flat = all_sigmas(claims.take(k));
    assert(claims.take(k + 1).drop_last() =~= claims.take(k));
    let more = claims[k].0@;
    assert(all_sigmas(claims.take(k + 1)) == flat + more);
    let start = flat.len() as int;
    let head = Seq::new(flat.len(), |i: int| e_mul(alphas[i]@, flat[i]@));
    let tail = Seq::new(more.len(), |i: int| e_mul(alphas[start + i]@, more[i]@));
    let all = Seq::new((flat + more).len(), |i: int| e_mul(alphas[i]@, (flat + more)[i]@));
    assert(all =~= head + tail);
    lemma_sum_concat(head, tail);
}

/// The sum of a concatenation.
pub proof fn lemma_sum_concat(a: Seq<Ext>, b: Seq<Ext>)
    ensures
        e_sum(a + b) == e_add(e_sum(a), e_sum(b)),
    decreases b.len(),
{
    if b.len() == 0 {
        assert(a + b =~= a);
        lemma_e_add_zero(e_sum(a));
    } else {
        assert((a + b).drop_last() =~= a + b.drop_last());
        lemma_sum_concat(a, b.drop_last());
        lemma_e_add_assoc(e_sum(a), e_sum(b.drop_last()), b.last());
    }
}

/// The sum over the rows of the first expressions is the claimed sum of the first claims.
proof fn lemma_claims_total(
    exprs: Seq<Expression>,
    alphas: Seq<GoldilocksExt2>,
    claims: Seq<EvalsAndPoint>,
    rows: Seq<Env>,
    k: int,
)
    requires
        0 <= k <= exprs.len(),
        exprs.len() == claims.len(),
        forall|g: int|
            0 <= g < k ==> {
                let start = all_sigmas(claims.take(g)).len() as int;
                &&& start + (#[trigger] claims[g]).0@.len() <= alphas.len()
                &&& e_sum(row_values(exprs[g], rows)) == claim_part(alphas, start, claims[g])
            },
    ensures
        e_sum(Seq::new(rows.len(), |s: int| values_sum(exprs.take(k), rows[s]))) == inner_product(
            alphas,
            all_sigmas(claims.take(k)),
        ),
    decreases k,
{
    let sums = Seq::new(rows.len(), |s: int| values_sum(exprs.take(k), rows[s]));
    if k == 0 {
        assert forall|s: int| 0 <= s < rows.len() implies #[trigger] sums[s] == e_zero() by {
            assert(exprs.take(0).len() == 0);
        }
        lemma_zero_sum(sums);
        assert(all_sigmas(claims.take(0)) =~= Seq::empty());
        assert(Seq::new(0, |i: int| e_mul(alphas[i]@, all_sigmas(claims.take(0))[i]@))
            =~= Seq::empty());
    } else {
        lemma_claims_total(exprs, alphas, claims, rows, k - 1);
        let rest = Seq::new(rows.len(), |s: int| values_sum(exprs.take(k - 1), rows[s]));
        let last = row_values(exprs[k - 1], rows);
        assert(exprs.take(k).drop_last() =~= exprs.take(k - 1));
        assert(sums =~= added(rest, last));
        lemma_sum_added(rest, last);
        assert(claims[k - 1].0@.len() >= 0);
        lemma_claims_step(alphas, claims, k - 1);
    }
}

/// The groups of a layer start where the evaluations of the claims before them end.
proof fn lemma_starts(layer: Layer, claims: Seq<EvalsAndPoint>, rows: Seq<Env>, g: int)
    requires
        are_claimed(layer, claims, rows),
        all_evals(layer.expr_evals@).len() == layer.exprs@.len(),
        0 <= g <= layer.expr_evals@.len(),
    ensures
        all_sigmas(claims.take(g)).len() == group_start(layer, g),
        g < layer.expr_evals@.len() ==> group_start(layer, g) + group_outputs(layer, g).len()
            <= layer.exprs@.len(),
    decreases g,
{
    if g < layer.expr_evals@.len() {
        lemma_all_evals(layer.expr_evals@, g);
    }
    if g > 0 {
        lemma_starts(layer, claims, rows, g - 1);
        lemma_all_evals(layer.expr_evals@, g - 1);
        assert(claims.take(g).drop_last() =~= claims.take(g - 1));
        assert(claims[g - 1].0@.len() == group_outputs(layer, g - 1).len());
    } else {
        assert(layer.expr_evals@.take(0).len() == 0);
        assert(claims.take(0).len() == 0);
    }
}

/// The rotations start where the evaluations of the outputs end.
proof fn lemma_rotation_starts(layer: Layer, claims: Seq<EvalsAndPoint>, rows: Seq<Env>, side: int)
    requires
        are_claimed(layer, claims, rows),
        is_zerocheck_layer(layer),
        layer.rotation_exprs.eqs is Some,
        0 <= side <= 3,
    ensures
        all_sigmas(claims.take(layer.expr_evals@.len() + side)).len() == rotation_start(
            layer,
            side,
        ),
    decreases side,
{
    let n = layer.expr_evals@.len() as int;
    let m = layer.rotation_exprs.pairs@.len() as int;
    if side == 0 {
        lemma_starts(layer, claims, rows, n);
        assert(layer.expr_evals@.take(n) =~= layer.expr_evals@);
    } else {
        lemma_rotation_starts(layer, claims, rows, side - 1);
        assert(claims.take(n + side).drop_last() =~= claims.take(n + side - 1));
        assert(is_claimed(
            rotation_eq(layer, side - 1),
            rotation_outputs(layer, side - 1),
            claims[n + (side - 1)],
            rows,
        ));
        assert(side * m == (side - 1) * m + m) by (nonlinear_arith);
    }
}

/// What the zero check of a layer sums up to is the claimed sum, if the claims hold: summing
/// `eq_g * sum_i alpha_i * expr_i` over all rows opens the outputs at the points of their groups.
#[verifier::spinoff_prover]
pub proof fn lemma_zero_check_sum(
    layer: Layer,
    alphas: Seq<GoldilocksExt2>,
    claims: Seq<EvalsAndPoint>,
    rows: Seq<Env>,
)
    requires
        is_zerocheck_layer(layer),
        alphas.len() == spec_num_alphas(layer),
        are_claimed(layer, claims, rows),
    ensures
        e_sum(row_values(zero_check(layer, alphas), rows)) == inner_product(
            alphas,
            all_sigmas(claims),
        ),
{
    let exprs = extended_exprs(layer, const_exprs(alphas));
    let n = layer.expr_evals@.len() as int;
    let m = layer.rotation_exprs.pairs@.len() as int;
    assert forall|g: int| 0 <= g < exprs.len() implies ({
        let start = all_sigmas(claims.take(g)).len() as int;
        &&& start + (#[trigger] claims[g]).0@.len() <= alphas.len()
        &&& e_sum(row_values(exprs[g], rows)) == claim_part(alphas, start, claims[g])
    }) by {
        let values = row_values(exprs[g], rows);
        if g < n {
            lemma_starts(layer, claims, rows, g);
            let (eq, outputs) = (layer.expr_evals@[g].eq->0, group_outputs(layer, g));
            let start = group_start(layer, g);
            assert forall|s: int| 0 <= s < rows.len() implies #[trigger] values[s]
                == group_combination(alphas, start, eq, outputs, rows[s]) by {
                lemma_zero_check_eval(layer, alphas, rows[s]);
                assert(exprs[g].eval(rows[s]) == values[s]);
            }
            lemma_group_total(alphas, start, eq, outputs, claims[g], rows, values);
        } else {
            let side = g - n;
            lemma_rotation_starts(layer, claims, rows, side);
            let (eq, outputs) = (rotation_eq(layer, side), rotation_outputs(layer, side));
            let start = rotation_start(layer, side);
            assert(0 <= side * m && side * m + m <= 3 * m) by (nonlinear_arith)
                requires
                    0 <= side < 3,
                    0 <= m,
            ;
            assert forall|s: int| 0 <= s < rows.len() implies #[trigger] values[s]
                == group_combination(alphas, start, eq, outputs, rows[s]) by {
                lemma_zero_check_eval(layer, alphas, rows[s]);
                assert(exprs[n + side].eval(rows[s]) == values[s]);
            }
            lemma_group_total(alphas, start, eq, outputs, claims[g], rows, values);
        }
    }
    let k = exprs.len() as int;
    lemma_claims_total(exprs, alphas, claims, rows, k);
    assert(exprs.take(k) =~= exprs);
    assert(claims.take(k) =~= claims);
    let sums = Seq::new(rows.len(), |s: int| values_sum(exprs, rows[s]));
    assert forall|s: int| 0 <= s < rows.len() implies row_values(
        zero_check(layer, alphas),
        rows,
    )[s] == #[trigger] sums[s] by {
        lemma_zero_check_eval(layer, alphas, rows[s]);
    }
    assert(row_values(zero_check(layer, alphas), rows) =~= sums);
}

/// A rotation argument sums up to zero, if each target is its rotated source in the rows that the
/// selector does not leave out.
pub proof fn lemma_rotation_sum(alphas: Seq<GoldilocksExt2>, rows: Seq<Env>)
    requires
        2 * alphas.len() <= u16::MAX,
        forall|s: int|
            0 <= s < rows.len() ==> {
                ||| (#[trigger] rows[s]).wit[2 * alphas.len() as int]@ == e_zero()
                ||| forall|i: int|
                    0 <= i < alphas.len() ==> #[trigger] rows[s].wit[2 * i]@ == rows[s].wit[2 * i
                        + 1]@
            },
    ensures
        e_sum(row_values(rotation_check(alphas), rows)) == e_zero(),
{
    let values = row_values(rotation_check(alphas), rows);
    assert forall|s: int| 0 <= s < rows.len() implies #[trigger] values[s] == e_zero() by {
        let env = rows[s];
        lemma_rotation_check_eval(alphas, env);
        let sel = env.wit[2 * alphas.len() as int]@;
        let terms = Seq::new(
            alphas.len(),
            |i: int| e_mul(alphas[i]@, e_sub(env.wit[2 * i]@, env.wit[2 * i + 1]@)),
        );
        if sel == e_zero() {
            lemma_e_mul_comm(sel, e_sum(terms));
            lemma_e_mul_zero(e_sum(terms));
        } else {
            assert forall|i: int| 0 <= i < terms.len() implies #[trigger] terms[i] == e_zero() by {
                let x = env.wit[2 * i]@;
                assert(x == env.wit[2 * i + 1]@);
                lemma_e_sub_is_add_neg(x, x);
                lemma_e_add_neg(x);
                lemma_e_mul_zero(alphas[i]@);
            }
            lemma_zero_sum(terms);
            lemma_e_mul_zero(sel);
        }
    }
    lemma_zero_sum(values);
}

} // verus!
