//! A layer that is proved is accepted: what the prover hands to the sum check and what the verifier
//! makes of its outcome agree over the whole layer.
use vstd::arithmetic::power2::*;
use vstd::prelude::*;

use crate::expression::eval::{leaves_in, lemma_same_values};
use crate::expression::{Env, Expression};
use crate::field::{e_zero, ge, group_field, Ext, GoldilocksExt2};
use crate::gkr::rotation_laws::{
    eq_table, left_point, lemma_eq_poly_symmetric, lemma_eq_table_eval, right_point, rotated,
    selector, selector_value,
};
use crate::gkr::sum_laws::{
    are_claimed, is_claimed, lemma_rotation_sum, lemma_zero_check_sum, row_values,
};
use crate::gkr::zerocheck_layer::{
    all_sigmas, are_rotation_points, claim_env, column_of, eq_points, every_third, group_outputs,
    inner_product, is_zerocheck_layer, layer_claim, lemma_rotation_claim, lemma_set_eqs_kept,
    rotation_check, rotation_claim, rotation_eq, rotation_outputs, set_eqs, spec_num_alphas,
    zero_check, EvalsAndPoint, RotationPoints,
};
use crate::gkr::Layer;
use crate::mle::{ext_seq, Point};
use crate::multilinear::{all_valid, e_sum, mle_eval};
use crate::virtual_poly::eq_poly;

verus! {

broadcast use group_field;

/// The rows of the tables that a zero check runs on.
pub open spec fn table_rows(tables: Seq<Seq<Ext>>, n: nat, challenges: Seq<GoldilocksExt2>) -> Seq<
    Env,
> {
    Seq::new(
        pow2(n),
        |s: int| claim_env(Seq::new(tables.len(), |c: int| ge(tables[c][s])), challenges),
    )
}

/// Tables of `2^n` valid entries each.
pub open spec fn are_tables(tables: Seq<Seq<Ext>>, n: nat) -> bool {
    forall|c: int|
        0 <= c < tables.len() ==> (#[trigger] tables[c]).len() == pow2(n) && all_valid(tables[c])
}

/// What an honest sum check over tables ends in: the evaluations of the tables at its point, and
/// the value of the expression in them.
pub open spec fn sum_check_ends_in(
    tables: Seq<Seq<Ext>>,
    expr: Expression,
    challenges: Seq<GoldilocksExt2>,
    point: Seq<Ext>,
    evals: Seq<GoldilocksExt2>,
    expected: Ext,
) -> bool {
    &&& evals.len() == tables.len()
    &&& forall|c: int|
        0 <= c < tables.len() ==> (#[trigger] evals[c])@ == mle_eval(tables[c], point)
    &&& expected == expr.eval(claim_env(evals, challenges))
}

/// The values of a column over the rows are its table.
pub proof fn lemma_column_rows(
    tables: Seq<Seq<Ext>>,
    n: nat,
    challenges: Seq<GoldilocksExt2>,
    e: Expression,
)
    requires
        are_tables(tables, n),
        e is WitIn,
        column_of(e) < tables.len(),
    ensures
        row_values(e, table_rows(tables, n, challenges)) == tables[column_of(e)],
{
    let rows = table_rows(tables, n, challenges);
    let c = column_of(e);
    assert(tables[c].len() == pow2(n));
    assert forall|s: int| 0 <= s < rows.len() implies #[trigger] row_values(e, rows)[s]
        == tables[c][s] by {
        assert(tables[c][s].valid());
        assert(rows[s].wit[c] == ge(tables[c][s]));
    }
    assert(row_values(e, rows) =~= tables[c]);
}

/// A layer that is proved is accepted, and what the verifier returns are the evaluations of the
/// tables. If the claims of the outputs and of the rotations hold of the tables, then the sum that
/// the verifier expects is the sum of the prover's expression over all rows; and from the
/// evaluations in which the sum check over the tables ends, the verifier computes the value that
/// the sum check ended in, whatever the point is.
#[verifier::spinoff_prover]
pub proof fn lemma_layer_complete(
    layer: Layer,
    tables: Seq<Seq<Ext>>,
    n: nat,
    claims: Seq<EvalsAndPoint>,
    alphas: Seq<GoldilocksExt2>,
    challenges: Seq<GoldilocksExt2>,
    in_point: Seq<Ext>,
    evals: Seq<GoldilocksExt2>,
    expected: Ext,
)
    requires
        is_zerocheck_layer(layer),
        alphas.len() == spec_num_alphas(layer),
        are_tables(tables, n),
        forall|g: int|
            0 <= g < layer.expr_evals@.len() ==> column_of((#[trigger] layer.expr_evals@[g]).eq->0)
                < tables.len(),
        are_claimed(layer, claims, table_rows(tables, n, challenges)),
        in_point.len() == n,
        leaves_in(zero_check(layer, alphas), claim_env(evals, challenges)),
        sum_check_ends_in(
            tables,
            zero_check(layer, alphas),
            challenges,
            in_point,
            evals,
            expected,
        ),
    ensures
        inner_product(alphas, all_sigmas(claims)) == e_sum(
            row_values(zero_check(layer, alphas), table_rows(tables, n, challenges)),
        ),
        ({
            let got = set_eqs(
                ext_seq(evals),
                layer,
                claims,
                in_point,
                layer.expr_evals@.len() as int,
            );
            &&& got == ext_seq(evals)
            &&& layer_claim(layer, alphas, got, challenges) == expected
        }),
{
    let rows = table_rows(tables, n, challenges);
    lemma_zero_check_sum(layer, alphas, claims, rows);
    let groups = layer.expr_evals@.len() as int;
    let values = ext_seq(evals);
    assert forall|g: int| 0 <= g < groups implies ({
        let id = column_of((#[trigger] layer.expr_evals@[g]).eq->0);
        &&& 0 <= id < values.len()
        &&& values[id] == eq_poly(ext_seq(claims[g].1->0@), in_point)
    }) by {
        assert(layer.expr_evals@[g].eq is Some && layer.expr_evals@[g].eq->0 is WitIn);
        lemma_eq_column(
            layer.expr_evals@[g].eq->0,
            group_outputs(layer, g),
            claims[g],
            tables,
            n,
            challenges,
            in_point,
            evals,
        );
    }
    lemma_set_eqs_kept(values, layer, claims, in_point, groups);
    lemma_plain_evals(zero_check(layer, alphas), evals, challenges);
}

/// The evaluation of the column of an equality polynomial is the value that the verifier computes.
proof fn lemma_eq_column(
    eq: Expression,
    outputs: Seq<Expression>,
    claim: EvalsAndPoint,
    tables: Seq<Seq<Ext>>,
    n: nat,
    challenges: Seq<GoldilocksExt2>,
    in_point: Seq<Ext>,
    evals: Seq<GoldilocksExt2>,
)
    requires
        eq is WitIn,
        column_of(eq) < tables.len(),
        is_claimed(eq, outputs, claim, table_rows(tables, n, challenges)),
        are_tables(tables, n),
        in_point.len() == n,
        evals.len() == tables.len(),
        evals[column_of(eq)]@ == mle_eval(tables[column_of(eq)], in_point),
    ensures
        evals[column_of(eq)]@ == eq_poly(ext_seq(claim.1->0@), in_point),
{
    let point = ext_seq(claim.1->0@);
    lemma_column_rows(tables, n, challenges, eq);
    lemma_same_size(point.len(), n);
    lemma_eq_table_eval(in_point, point);
    lemma_eq_poly_symmetric(in_point, point);
}

/// An expression has one value in elements and in their canonical representatives.
proof fn lemma_plain_evals(
    e: Expression,
    evals: Seq<GoldilocksExt2>,
    challenges: Seq<GoldilocksExt2>,
)
    requires
        leaves_in(e, claim_env(evals, challenges)),
    ensures
        e.eval(claim_env(ext_seq(evals).map_values(|v: Ext| ge(v)), challenges)) == e.eval(
            claim_env(evals, challenges),
        ),
{
    let plain = ext_seq(evals).map_values(|v: Ext| ge(v));
    assert forall|i: int| 0 <= i < evals.len() implies (#[trigger] plain[i])@ == evals[i]@ by {
        assert(ext_seq(evals)[i] == evals[i]@);
    }
    lemma_same_values(e, claim_env(evals, challenges), claim_env(plain, challenges));
}

/// The claim of one side of the rotations that the verifier makes of their openings.
pub open spec fn is_side_claim(
    claim: EvalsAndPoint,
    openings: Seq<GoldilocksExt2>,
    points: RotationPoints,
    side: int,
) -> bool {
    &&& claim.0@ == every_third(openings, side)
    &&& claim.1 == Some(
        if side == 0 {
            points.left
        } else if side == 1 {
            points.right
        } else {
            points.origin
        },
    )
}

/// The openings of the rotations of a layer are the evaluations of its columns.
pub open spec fn are_openings(
    layer: Layer,
    tables: Seq<Seq<Ext>>,
    openings: Seq<GoldilocksExt2>,
    points: RotationPoints,
) -> bool {
    let pairs = layer.rotation_exprs.pairs@;
    &&& openings.len() == 3 * pairs.len()
    &&& forall|i: int|
        0 <= i < pairs.len() ==> {
            let (source, target) = #[trigger] pairs[i];
            &&& column_of(source) < tables.len()
            &&& column_of(target) < tables.len()
            &&& openings[3 * i]@ == mle_eval(tables[column_of(source)], ext_seq(points.left@))
            &&& openings[3 * i + 1]@ == mle_eval(
                tables[column_of(source)],
                ext_seq(points.right@),
            )
            &&& openings[3 * i + 2]@ == mle_eval(
                tables[column_of(target)],
                ext_seq(points.origin@),
            )
        }
}

/// Openings that are the evaluations of the columns are claims that hold: with them the claims of a
/// layer and of its rotations are those that the zero check needs.
#[verifier::spinoff_prover]
pub proof fn lemma_rotation_claims(
    layer: Layer,
    tables: Seq<Seq<Ext>>,
    n: nat,
    challenges: Seq<GoldilocksExt2>,
    openings: Seq<GoldilocksExt2>,
    points: RotationPoints,
    side: int,
    claim: EvalsAndPoint,
)
    requires
        is_zerocheck_layer(layer),
        layer.rotation_exprs.eqs is Some,
        are_tables(tables, n),
        are_openings(layer, tables, openings, points),
        0 <= side < 3,
        is_side_claim(claim, openings, points, side),
        claim.1->0@.len() == n,
        column_of(rotation_eq(layer, side)) < tables.len(),
        tables[column_of(rotation_eq(layer, side))] == eq_table(ext_seq(claim.1->0@)),
    ensures
        is_claimed(
            rotation_eq(layer, side),
            rotation_outputs(layer, side),
            claim,
            table_rows(tables, n, challenges),
        ),
{
    let rows = table_rows(tables, n, challenges);
    let pairs = layer.rotation_exprs.pairs@;
    lemma_column_rows(tables, n, challenges, rotation_eq(layer, side));
    let outputs = rotation_outputs(layer, side);
    assert forall|i: int| 0 <= i < outputs.len() implies (#[trigger] claim.0@[i])@ == mle_eval(
        row_values(outputs[i], rows),
        ext_seq(claim.1->0@),
    ) by {
        let (source, target) = pairs[i];
        assert(pairs[i].0 is WitIn && pairs[i].1 is WitIn);
        assert(outputs[i] == if side == 2 {
            target
        } else {
            source
        });
        assert(column_of(source) < tables.len() && column_of(target) < tables.len());
        lemma_column_rows(tables, n, challenges, outputs[i]);
        assert(claim.0@[i] == openings[3 * i + side]);
    }
}

/// The columns of the equality polynomials follow those of the `w` witnesses: one for each group of
/// outputs, and one for each side of the rotations.
pub open spec fn eqs_follow(layer: Layer, w: int) -> bool {
    let groups = layer.expr_evals@.len();
    &&& forall|g: int|
        0 <= g < groups ==> column_of((#[trigger] layer.expr_evals@[g]).eq->0) == w + g
    &&& layer.rotation_exprs.eqs is Some ==> forall|side: int|
        0 <= side < 3 ==> column_of(#[trigger] rotation_eq(layer, side)) == w + groups + side
}

/// The witnesses, then the tables of the equality polynomials of points.
pub open spec fn are_layer_tables(
    tables: Seq<Seq<Ext>>,
    wits: Seq<Seq<Ext>>,
    points: Seq<Seq<Ext>>,
) -> bool {
    &&& tables.len() == wits.len() + points.len()
    &&& forall|i: int| 0 <= i < wits.len() ==> #[trigger] tables[i] == wits[i]
    &&& forall|j: int|
        0 <= j < points.len() ==> tables[wits.len() + j] == eq_table(#[trigger] points[j])
}

/// The claims are the values of the outputs of a layer at its output points.
pub open spec fn are_output_claims(
    layer: Layer,
    claims: Seq<EvalsAndPoint>,
    out_points: Seq<Point>,
    rows: Seq<Env>,
) -> bool {
    &&& claims.len() == layer.expr_evals@.len()
    &&& out_points.len() == claims.len()
    &&& forall|g: int|
        0 <= g < claims.len() ==> {
            let outputs = group_outputs(layer, g);
            &&& (#[trigger] claims[g]).1 == Some(out_points[g])
            &&& claims[g].0@.len() == outputs.len()
            &&& forall|i: int|
                0 <= i < outputs.len() ==> (#[trigger] claims[g].0@[i])@ == mle_eval(
                    row_values(outputs[i], rows),
                    ext_seq(out_points[g]@),
                )
        }
}

/// The claims of a layer with those of its rotations, which hold of the tables.
pub open spec fn adds_rotation_claims(
    claims: Seq<EvalsAndPoint>,
    out_claims: Seq<EvalsAndPoint>,
    layer: Layer,
    tables: Seq<Seq<Ext>>,
    rotation: Option<RotationPoints>,
    openings: Seq<GoldilocksExt2>,
) -> bool {
    let n = out_claims.len() as int;
    match rotation {
        None => claims == out_claims,
        Some(points) => {
            &&& are_openings(layer, tables, openings, points)
            &&& claims.len() == n + 3
            &&& forall|g: int| 0 <= g < n ==> #[trigger] claims[g] == out_claims[g]
            &&& is_side_claim(claims[n], openings, points, 0)
            &&& is_side_claim(claims[n + 1], openings, points, 1)
            &&& is_side_claim(claims[n + 2], openings, points, 2)
        },
    }
}

/// A layer that is proved is accepted, from the witnesses on. The prover runs the sum check over
/// the witnesses and the equality polynomials of its points; the verifier is handed the values of
/// the outputs at the output points, and the openings of the rotations. Then the sum that the
/// verifier expects is the sum over all rows, the value that it computes is the one that the sum
/// check ended in, and what it returns of each witness is its evaluation at the point of the sum
/// check.
#[verifier::spinoff_prover]
pub proof fn lemma_layer_accepted(
    layer: Layer,
    wits: Seq<Seq<Ext>>,
    n: nat,
    out_points: Seq<Point>,
    rotation: Option<RotationPoints>,
    openings: Seq<GoldilocksExt2>,
    tables: Seq<Seq<Ext>>,
    out_claims: Seq<EvalsAndPoint>,
    claims: Seq<EvalsAndPoint>,
    alphas: Seq<GoldilocksExt2>,
    challenges: Seq<GoldilocksExt2>,
    in_point: Seq<Ext>,
    evals: Seq<GoldilocksExt2>,
    expected: Ext,
)
    requires
        is_zerocheck_layer(layer),
        rotation is Some <==> layer.rotation_exprs.eqs is Some,
        eqs_follow(layer, wits.len() as int),
        alphas.len() == spec_num_alphas(layer),
        are_tables(wits, n),
        forall|j: int|
            0 <= j < eq_points(out_points, rotation).len() ==> (#[trigger] eq_points(
                out_points,
                rotation,
            )[j]).len() == n,
        are_layer_tables(tables, wits, eq_points(out_points, rotation)),
        are_output_claims(layer, out_claims, out_points, table_rows(tables, n, challenges)),
        adds_rotation_claims(claims, out_claims, layer, tables, rotation, openings),
        in_point.len() == n,
        leaves_in(zero_check(layer, alphas), claim_env(evals, challenges)),
        sum_check_ends_in(
            tables,
            zero_check(layer, alphas),
            challenges,
            in_point,
            evals,
            expected,
        ),
    ensures
        inner_product(alphas, all_sigmas(claims)) == e_sum(
            row_values(zero_check(layer, alphas), table_rows(tables, n, challenges)),
        ),
        ({
            let got = set_eqs(
                ext_seq(evals),
                layer,
                claims,
                in_point,
                layer.expr_evals@.len() as int,
            );
            &&& layer_claim(layer, alphas, got, challenges) == expected
            &&& forall|j: int|
                0 <= j < wits.len() ==> #[trigger] got[j] == mle_eval(wits[j], in_point)
        }),
{
    let rows = table_rows(tables, n, challenges);
    let points = eq_points(out_points, rotation);
    let groups = layer.expr_evals@.len() as int;
    let w = wits.len() as int;
    assert forall|c: int| 0 <= c < tables.len() implies (#[trigger] tables[c]).len() == pow2(n)
        && all_valid(tables[c]) by {
        if c < w {
            assert(tables[c] == wits[c]);
        } else {
            assert(tables[w + (c - w)] == eq_table(points[c - w]));
        }
    }
    assert forall|g: int| 0 <= g < groups implies is_claimed(
        layer.expr_evals@[g].eq->0,
        group_outputs(layer, g),
        #[trigger] claims[g],
        rows,
    ) by {
        let eq = layer.expr_evals@[g].eq->0;
        assert(claims[g] == out_claims[g]);
        assert(points[g] == ext_seq(out_points[g]@));
        assert(tables[w + g] == eq_table(points[g]));
        lemma_column_rows(tables, n, challenges, eq);
    }
    if layer.rotation_exprs.eqs is Some {
        assert forall|side: int| 0 <= side < 3 implies is_claimed(
            #[trigger] rotation_eq(layer, side),
            rotation_outputs(layer, side),
            claims[groups + side],
            rows,
        ) by {
            let claim = claims[groups + side];
            assert(points[groups + side] == ext_seq(claim.1->0@));
            assert(tables[w + (groups + side)] == eq_table(points[groups + side]));
            lemma_rotation_claims(
                layer,
                tables,
                n,
                challenges,
                openings,
                rotation->0,
                side,
                claim,
            );
        }
    }
    lemma_layer_complete(
        layer,
        tables,
        n,
        claims,
        alphas,
        challenges,
        in_point,
        evals,
        expected,
    );
    assert forall|j: int| 0 <= j < w implies #[trigger] ext_seq(evals)[j] == mle_eval(
        wits[j],
        in_point,
    ) by {
        assert(tables[j] == wits[j]);
        assert(evals[j]@ == mle_eval(tables[j], in_point));
    }
}

/// The tables of a rotation argument over the columns of a layer.
pub open spec fn is_rotation_argument(
    rotation: Seq<Seq<Ext>>,
    layer: Layer,
    tables: Seq<Seq<Ext>>,
    rt: Seq<Ext>,
    subgroup: int,
) -> bool {
    let pairs = layer.rotation_exprs.pairs@;
    &&& rotation.len() == 2 * pairs.len() + 1
    &&& forall|i: int|
        0 <= i < pairs.len() ==> {
            let (source, target) = #[trigger] pairs[i];
            &&& column_of(source) < tables.len()
            &&& column_of(target) < tables.len()
            &&& rotation[2 * i] == rotated(tables[column_of(source)])
            &&& rotation[2 * i + 1] == tables[column_of(target)]
        }
    &&& rotation[2 * pairs.len() as int] == selector(rt, subgroup)
}

/// Each target is its rotated source in the rows that the selector does not leave out.
pub open spec fn rotations_hold(rotation: Seq<Seq<Ext>>, m: int, n: nat) -> bool {
    forall|s: int, i: int|
        0 <= s < pow2(n) && 0 <= i < m ==> rotation[2 * m][s] == e_zero() || #[trigger] rotation[2
            * i][s] == rotation[2 * i + 1][s]
}

/// What the prover opens of the rotations, from the values in which the sum check ends.
pub open spec fn opens_rotations(
    openings: Seq<GoldilocksExt2>,
    layer: Layer,
    tables: Seq<Seq<Ext>>,
    p: Seq<Ext>,
    evals: Seq<GoldilocksExt2>,
) -> bool {
    let pairs = layer.rotation_exprs.pairs@;
    &&& openings.len() == 3 * pairs.len()
    &&& forall|i: int|
        0 <= i < pairs.len() ==> {
            let source = tables[column_of((#[trigger] pairs[i]).0)];
            &&& openings[3 * i]@ == mle_eval(source, left_point(p))
            &&& openings[3 * i + 2] == evals[2 * i + 1]
            &&& evals[2 * i]@ == mle_eval(rotated(source), p) ==> openings[3 * i + 1]@ == mle_eval(
                source,
                right_point(p),
            )
        }
}

/// Rotations that are proved are accepted: if the rotations hold of the columns, then their
/// argument sums up to zero, as the verifier expects; the openings are the evaluations of the
/// columns; and from them the verifier computes the value that the sum check ended in. The points
/// of the openings are those that prover and verifier derive from the point of the sum check.
#[verifier::spinoff_prover]
pub proof fn lemma_rotation_complete(
    layer: Layer,
    tables: Seq<Seq<Ext>>,
    rotation: Seq<Seq<Ext>>,
    n: nat,
    rt: Seq<Ext>,
    subgroup: int,
    alphas: Seq<GoldilocksExt2>,
    origin: Seq<GoldilocksExt2>,
    evals: Seq<GoldilocksExt2>,
    expected: Ext,
    openings: Seq<GoldilocksExt2>,
    points: RotationPoints,
)
    requires
        are_tables(tables, n),
        are_tables(rotation, n),
        is_rotation_argument(rotation, layer, tables, rt, subgroup),
        rotations_hold(rotation, layer.rotation_exprs.pairs@.len() as int, n),
        alphas.len() == layer.rotation_exprs.pairs@.len(),
        2 * alphas.len() <= u16::MAX,
        n >= 5,
        rt.len() == n,
        all_valid(rt),
        0 <= subgroup <= 31,
        origin.len() == n,
        sum_check_ends_in(
            rotation,
            rotation_check(alphas),
            Seq::empty(),
            ext_seq(origin),
            evals,
            expected,
        ),
        opens_rotations(openings, layer, tables, ext_seq(origin), evals),
        are_rotation_points(points, origin),
    ensures
        e_sum(row_values(rotation_check(alphas), table_rows(rotation, n, Seq::empty())))
            == e_zero(),
        are_openings(layer, tables, openings, points),
        rotation_claim(
            alphas,
            openings,
            ext_seq(origin)[4],
            selector_value(rt, ext_seq(origin), subgroup),
        ) == expected,
{
    let pairs = layer.rotation_exprs.pairs@;
    let m = pairs.len() as int;
    let p = ext_seq(origin);
    let rows = table_rows(rotation, n, Seq::empty());
    assert forall|s: int| 0 <= s < rows.len() implies ({
        ||| (#[trigger] rows[s]).wit[2 * m]@ == e_zero()
        ||| forall|i: int|
            0 <= i < m ==> #[trigger] rows[s].wit[2 * i]@ == rows[s].wit[2 * i + 1]@
    }) by {
        assert forall|c: int| 0 <= c < rotation.len() implies (#[trigger] rows[s].wit[c])@
            == rotation[c][s] by {
            assert(rotation[c].len() == pow2(n) && all_valid(rotation[c]));
            assert(rotation[c][s].valid());
        }
        assert(rows[s].wit[2 * m]@ == rotation[2 * m][s]);
        if rotation[2 * m][s] != e_zero() {
            assert forall|i: int| 0 <= i < m implies #[trigger] rows[s].wit[2 * i]@
                == rows[s].wit[2 * i + 1]@ by {
                assert(rotation[2 * i][s] == rotation[2 * i + 1][s]);
            }
        }
    }
    lemma_rotation_sum(alphas, rows);
    let sources = Seq::new(pairs.len(), |i: int| tables[column_of(pairs[i].0)]);
    let targets = Seq::new(pairs.len(), |i: int| tables[column_of(pairs[i].1)]);
    assert forall|i: int| 0 <= i < m implies ({
        &&& openings[3 * i]@ == mle_eval(#[trigger] sources[i], left_point(p))
        &&& openings[3 * i + 1]@ == mle_eval(sources[i], right_point(p))
        &&& openings[3 * i + 2]@ == mle_eval(targets[i], p)
        &&& evals[2 * i]@ == mle_eval(rotated(sources[i]), p)
        &&& evals[2 * i + 1]@ == mle_eval(targets[i], p)
        &&& sources[i].len() == pow2(n)
        &&& all_valid(sources[i])
    }) by {
        let (source, target) = pairs[i];
        assert(column_of(source) < tables.len() && column_of(target) < tables.len());
        assert(tables[column_of(source)].len() == pow2(n));
        assert(evals[2 * i]@ == mle_eval(rotation[2 * i], p));
        assert(evals[2 * i + 1]@ == mle_eval(rotation[2 * i + 1], p));
    }
    assert forall|i: int| 0 <= i < m implies ({
        let (source, target) = #[trigger] pairs[i];
        &&& column_of(source) < tables.len()
        &&& column_of(target) < tables.len()
        &&& openings[3 * i]@ == mle_eval(tables[column_of(source)], ext_seq(points.left@))
        &&& openings[3 * i + 1]@ == mle_eval(tables[column_of(source)], ext_seq(points.right@))
        &&& openings[3 * i + 2]@ == mle_eval(tables[column_of(target)], ext_seq(points.origin@))
    }) by {
        assert(openings[3 * i]@ == mle_eval(sources[i], left_point(p)));
    }
    assert(evals[2 * m]@ == mle_eval(rotation[2 * m], p));
    lemma_rotation_claim(
        alphas,
        sources,
        targets,
        rt,
        p,
        subgroup,
        openings,
        claim_env(evals, Seq::empty()),
    );
}

proof fn lemma_same_size(a: nat, b: nat)
    requires
        pow2(a) == pow2(b),
    ensures
        a == b,
{
    if a < b {
        lemma_pow2_strictly_increases(a, b);
    }
    if b < a {
        lemma_pow2_strictly_increases(b, a);
    }
}

} // verus!
