//! How the parts of layered circuits hang together: which row a rotation reads, which claim an
//! output and an input get, and which evaluations one layer of a tower hands to the next.
use vstd::arithmetic::div_mod::*;
use vstd::arithmetic::power2::*;
use vstd::prelude::*;

use crate::expression::laws::lemma_degree_ops;
use crate::expression::{Env, Expression};
use crate::field::{e_pow, e_zero, group_field, Ext};
use crate::gkr::booleanhypercube::{cycle, lemma_cycle, next_point};
use crate::gkr::claims::{
    claim_view, claim_views, claimed_point, is_group_claim, output_claims,
};
use crate::gkr::rotation_laws::{eq_table, rotated, selector};
use crate::gkr::tower_chip::{challenge, is_claim, is_table_layer, is_tower_layer, pair_cells};
use crate::gkr::utils::select;
use crate::gkr::zerocheck_layer::{are_rotation_tables, column_of, EvalsAndPoint};
use crate::gkr::{singles, spec_max_degree, EvalExpression, Layer, OutputGroup};
use crate::mle::{MultilinearExtension, PointAndEval};
use crate::multilinear::eq_at;
use crate::ring::{lemma_e_add_zero, lemma_e_mul_one};
use crate::text::decimal_text;

verus! {

broadcast use group_field;

/// A rotated table holds at each point of a block what the table holds at the next point of the
/// cycle, and keeps the entry at the start of the block, which is in no cycle.
pub proof fn lemma_rotated_rows(s: Seq<Ext>, b: int, k: int)
    requires
        0 <= b,
        32 * b + 32 <= s.len(),
        0 <= k < 31,
    ensures
        rotated(s).len() == s.len(),
        rotated(s)[32 * b] == s[32 * b],
        rotated(s)[32 * b + cycle(k)] == s[32 * b + cycle(k + 1)],
        cycle(0) == 1,
{
    lemma_cycle(k);
    lemma_cycle(k + 1);
    lemma_fundamental_div_mod_converse(32 * b + cycle(k), 32, b, cycle(k));
    lemma_fundamental_div_mod_converse(32 * b, 32, b, 0);
    assert(cycle(k + 1) == next_point(cycle(k)));
}

/// The selector of a rotation keeps, in each block, the first points of the cycle.
pub proof fn lemma_selected_rows(out: Seq<Ext>, eq: Seq<Ext>, subgroup: int, b: int, k: int)
    requires
        0 <= b,
        32 * b + 32 <= pow2(out.len()),
        eq.len() == pow2(out.len()),
        0 <= k < 31,
    ensures
        selector(out, subgroup).len() == pow2(out.len()),
        selector(out, subgroup)[32 * b] == e_zero(),
        selector(out, subgroup)[32 * b + cycle(k)] == if k < subgroup {
            eq_at(out, 32 * b + cycle(k))
        } else {
            e_zero()
        },
        select(eq, subgroup).len() == eq.len(),
        select(eq, subgroup)[32 * b] == e_zero(),
        select(eq, subgroup)[32 * b + cycle(k)] == if k < subgroup {
            eq[32 * b + cycle(k)]
        } else {
            e_zero()
        },
{
    lemma_cycle(k);
    lemma_fundamental_div_mod_converse(32 * b + cycle(k), 32, b, cycle(k));
    lemma_fundamental_div_mod_converse(32 * b, 32, b, 0);
}

/// What a group is claimed to evaluate to: the value claimed under the index of each output and
/// zero where an output is zero everywhere, at the point of the last claim. Where all are zero,
/// there is no point.
pub proof fn lemma_group_claim(
    claim: EvalsAndPoint,
    group: OutputGroup,
    claims: Seq<Option<PointAndEval>>,
    j: int,
)
    requires
        is_group_claim(claim, group, claim_views(claims)),
        forall|k: int|
            0 <= k < group.evals@.len() ==> match #[trigger] group.evals@[k] {
                EvalExpression::Zero => true,
                EvalExpression::Single(i) => i < claims.len() && claims[i as int] is Some,
                _ => false,
            },
        0 <= j < group.evals@.len(),
    ensures
        claim.0@.len() == group.evals@.len(),
        group.evals@[j] is Zero ==> claim.0@[j]@ == e_zero(),
        group.evals@[j] matches EvalExpression::Single(i) ==> {
            &&& claim.0@[j] == (claims[i as int]->0).eval
            &&& claim.1 is Some
            &&& (forall|k: int| j < k < group.evals@.len() ==> (#[trigger] group.evals@[k]) is Zero)
                ==> claim.1->0@ == (claims[i as int]->0).point@
        },
        (forall|k: int| 0 <= k < group.evals@.len() ==> (#[trigger] group.evals@[k]) is Zero)
            ==> claim.1 is None,
{
    lemma_claimed_point(group.evals@, claims, group.evals@.len() as int, j);
    match group.evals@[j] {
        EvalExpression::Single(i) => {
            assert(claim_views(claims)[i as int] == claim_view(claims[i as int]));
        },
        _ => {},
    }
}

proof fn lemma_claimed_point(
    evals: Seq<EvalExpression>,
    claims: Seq<Option<PointAndEval>>,
    n: int,
    j: int,
)
    requires
        0 <= n <= evals.len(),
        forall|k: int|
            0 <= k < evals.len() ==> match #[trigger] evals[k] {
                EvalExpression::Zero => true,
                EvalExpression::Single(i) => i < claims.len() && claims[i as int] is Some,
                _ => false,
            },
    ensures
        0 <= j < n && evals[j] is Single ==> {
            let point = claimed_point(evals, claim_views(claims), n);
            &&& point is Some
            &&& (forall|k: int| j < k < n ==> (#[trigger] evals[k]) is Zero) ==> point->0 == (
            claims[evals[j]->Single_0 as int]->0).point@
        },
        (forall|k: int| 0 <= k < n ==> (#[trigger] evals[k]) is Zero) ==> claimed_point(
            evals,
            claim_views(claims),
            n,
        ) is None,
    decreases n,
{
    if n > 0 {
        lemma_claimed_point(evals, claims, n - 1, j);
        assert(evals[n - 1] is Zero || evals[n - 1] is Single);
        match evals[n - 1] {
            EvalExpression::Single(i) => {
                assert(claim_views(claims)[i as int] == claim_view(claims[i as int]));
            },
            _ => {},
        }
    }
}

/// The first claims: each output is claimed under its own index, and nothing is claimed of the
/// other evaluations.
pub proof fn lemma_output_claims(
    n_evaluations: nat,
    indices: Seq<usize>,
    outputs: Seq<PointAndEval>,
    n: int,
)
    requires
        0 <= n <= indices.len(),
        forall|j: int| 0 <= j < n ==> (#[trigger] indices[j]) < n_evaluations,
        forall|j: int, k: int| 0 <= j < k < n ==> #[trigger] indices[j] != #[trigger] indices[k],
    ensures
        output_claims(n_evaluations, indices, outputs, n).len() == n_evaluations,
        forall|j: int|
            0 <= j < n ==> output_claims(n_evaluations, indices, outputs, n)[(
            #[trigger] indices[j]) as int] == Some((outputs[j].point@, outputs[j].eval)),
        forall|i: int|
            0 <= i < n_evaluations && (forall|j: int| 0 <= j < n ==> (#[trigger] indices[j]) != i)
                ==> (#[trigger] output_claims(n_evaluations, indices, outputs, n)[i]) is None,
    decreases n,
{
    if n > 0 {
        lemma_output_claims(n_evaluations, indices, outputs, n - 1);
        let all = output_claims(n_evaluations, indices, outputs, n);
        let rest = output_claims(n_evaluations, indices, outputs, n - 1);
        assert forall|j: int| 0 <= j < n implies all[(#[trigger] indices[j]) as int] == Some(
            (outputs[j].point@, outputs[j].eval),
        ) by {
            if j < n - 1 {
                assert(indices[j] != indices[n - 1]);
            }
        }
        assert forall|i: int|
            0 <= i < n_evaluations && (forall|j: int|
                0 <= j < n ==> (#[trigger] indices[j]) != i) implies (#[trigger] all[i]) is None by {
            assert(indices[n - 1] != i);
            assert(rest[i] is None);
        }
    }
}

/// The degree of a layer is the largest degree of its expressions.
pub proof fn lemma_max_degree(exprs: Seq<Expression>, n: int)
    requires
        0 <= n <= exprs.len(),
    ensures
        n == 0 ==> spec_max_degree(exprs, n) == 0,
        forall|i: int|
            0 <= i < n ==> (#[trigger] exprs[i]).spec_degree() <= spec_max_degree(exprs, n),
        n > 0 ==> exists|i: int|
            0 <= i < n && (#[trigger] exprs[i]).spec_degree() == spec_max_degree(exprs, n),
    decreases n,
{
    if n > 0 {
        lemma_max_degree(exprs, n - 1);
        let rest = spec_max_degree(exprs, n - 1);
        if exprs[n - 1].spec_degree() <= rest && n > 1 {
            let i = choose|i: int| 0 <= i < n - 1 && (#[trigger] exprs[i]).spec_degree() == rest;
            assert(exprs[i].spec_degree() == spec_max_degree(exprs, n));
        } else {
            assert(exprs[n - 1].spec_degree() == spec_max_degree(exprs, n));
        }
    }
}

/// A claim that joins the claims of the two halves of a table by a challenge.
pub open spec fn joins(e: EvalExpression, a: EvalExpression, b: EvalExpression, id: int) -> bool {
    &&& e is Partition
    &&& e->Partition_0@.len() == 2
    &&& e->Partition_0@[0] == a
    &&& e->Partition_0@[1] == b
    &&& e->Partition_1@.len() == 1
    &&& e->Partition_1@[0].0 == 0
    &&& forall|env: Env|
        0 <= id < env.challenges.len() ==> #[trigger] e->Partition_1@[0].1.eval(env)
            == env.challenges[id]@
}

proof fn lemma_challenge_value(id: int, env: Env)
    requires
        0 <= id < 0x1_0000,
    ensures
        challenge(id).eval(env) == env.challenges[id]@,
{
    let x = env.challenges[id]@;
    reveal_with_fuel(e_pow, 2);
    lemma_e_mul_one(x);
    lemma_e_add_zero(x);
}

proof fn lemma_joins(e: EvalExpression, part: int, start: int, c: int, i: int, layer: Layer)
    requires
        is_claim(e, part, start, c, i + 1),
        is_tower_layer(layer, start, c, i),
        0 <= part < 2,
        0 <= i,
        0 <= c,
        c + i < 0x1_0000,
    ensures
        joins(e, layer.in_eval_expr@[2 * part], layer.in_eval_expr@[2 * part + 1], c + i),
{
    let var = e->Partition_1@[0].1;
    assert forall|env: Env| 0 <= c + i < env.challenges.len() implies #[trigger] var.eval(env)
        == env.challenges[c + i]@ by {
        lemma_challenge_value(c + i, env);
    }
}

/// The wiring of a tower of fractions. The outputs of the first layer are the two outputs of the
/// circuit, the denominator before the numerator. Layer `i` reads two denominators and two
/// numerators; the layer after it claims the two denominators as the halves of one table and the
/// two numerators as those of another, both joined by challenge `c + i`.
pub proof fn lemma_tower_wiring(layers: Seq<Layer>, start: int, c: int, height: int, i: int)
    requires
        0 <= start,
        0 <= c,
        c + height <= 0x1_0000,
        start + 3 + 5 * height <= usize::MAX,
        layers.len() == height + 1,
        forall|k: int| 0 <= k < height ==> is_tower_layer(#[trigger] layers[k], start, c, k),
        is_table_layer(layers[height], start, c, height),
        0 <= i < height,
    ensures
        layers[0].expr_evals@[0].evals@[0] == EvalExpression::Single(start as usize),
        layers[0].expr_evals@[0].evals@[1] == EvalExpression::Single((start + 1) as usize),
        layers[i].in_eval_expr@.len() == 4,
        forall|k: int|
            0 <= k < 4 ==> #[trigger] layers[i].in_eval_expr@[k] == EvalExpression::Single(
                (start + 2 + 5 * i + k) as usize,
            ),
        layers[i].exprs@.len() == 2,
        layers[i].name@ == "Tower_layer_"@ + decimal_text(i as nat),
        layers[i].ty is Zerocheck,
        layers[i].max_expr_degree == 2,
        layers[i].expr_evals@.len() == 1,
        layers[i].expr_evals@[0].eq == Some(Expression::WitIn(4)),
        joins(
            layers[i + 1].expr_evals@[0].evals@[0],
            layers[i].in_eval_expr@[0],
            layers[i].in_eval_expr@[1],
            c + i,
        ),
        i + 1 < height ==> joins(
            layers[i + 1].expr_evals@[0].evals@[1],
            layers[i].in_eval_expr@[2],
            layers[i].in_eval_expr@[3],
            c + i,
        ),
        layers[height].exprs@ == seq![Expression::WitIn(0)],
        layers[height].max_expr_degree == 1,
        layers[height].name@ == "Update_table"@,
        layers[height].ty is Linear,
        layers[height].in_eval_expr@ == seq![
            EvalExpression::Single((start + 2 + 5 * height) as usize),
        ],
{
    let layer = layers[i];
    assert(is_tower_layer(layers[0], start, c, 0));
    assert(is_tower_layer(layer, start, c, i));
    assert forall|k: int| 0 <= k < 4 implies #[trigger] layer.in_eval_expr@[k]
        == EvalExpression::Single((start + 2 + 5 * i + k) as usize) by {
        assert(layer.in_eval_expr@[k] == singles(start + 2 + 5 * i, 4)[k]);
    }
    if i + 1 < height {
        assert(is_tower_layer(layers[i + 1], start, c, i + 1));
        lemma_joins(layers[i + 1].expr_evals@[0].evals@[1], 1, start, c, i, layer);
    }
    lemma_joins(layers[i + 1].expr_evals@[0].evals@[0], 0, start, c, i, layer);
    let (d0, d1) = (Expression::WitIn(0), Expression::WitIn(1));
    let (n0, n1) = (Expression::WitIn(2), Expression::WitIn(3));
    lemma_degree_ops(d0, d1);
    lemma_degree_ops(d0, n1);
    lemma_degree_ops(d1, n0);
    lemma_degree_ops(d0.spec_mul(n1), d1.spec_mul(n0));
    reveal_with_fuel(spec_max_degree, 3);
    assert(layers[height].in_eval_expr@ =~= seq![
        EvalExpression::Single((start + 2 + 5 * height) as usize),
    ]);
}

/// The last claims of a tower with layers: the table is claimed to be the joined denominators and
/// the multiplicities to be the joined numerators of the last layer.
pub proof fn lemma_tower_openings(
    layers: Seq<Layer>,
    count: EvalExpression,
    start: int,
    c: int,
    height: int,
)
    requires
        0 <= c,
        c + height <= 0x1_0000,
        height > 0,
        layers.len() == height + 1,
        forall|k: int| 0 <= k < height ==> is_tower_layer(#[trigger] layers[k], start, c, k),
        is_table_layer(layers[height], start, c, height),
        is_claim(count, 1, start, c, height),
    ensures
        joins(
            layers[height].expr_evals@[0].evals@[0],
            layers[height - 1].in_eval_expr@[0],
            layers[height - 1].in_eval_expr@[1],
            c + height - 1,
        ),
        joins(
            count,
            layers[height - 1].in_eval_expr@[2],
            layers[height - 1].in_eval_expr@[3],
            c + height - 1,
        ),
{
    let layer = layers[height - 1];
    assert(is_tower_layer(layer, start, c, height - 1));
    lemma_joins(
        layers[height].expr_evals@[0].evals@[0],
        0,
        start,
        c,
        height - 1,
        layer,
    );
    lemma_joins(count, 1, start, c, height - 1, layer);
}

/// The cells of a table with multiplicities: a row for each pair, its first part before its second.
pub proof fn lemma_pair_cells(pairs: Seq<(u64, u64)>, i: int)
    requires
        0 <= i < pairs.len(),
    ensures
        pair_cells(pairs).len() == 2 * pairs.len(),
        pair_cells(pairs)[2 * i] == pairs[i].0,
        pair_cells(pairs)[2 * i + 1] == pairs[i].1,
{
}

/// The tables of a rotation argument: for each pair the source, at each point of a block moved on by
/// one point of the cycle, and the target as it is; at last the selector, which keeps the first
/// points of the cycle.
pub proof fn lemma_rotation_tables(
    tables: Seq<MultilinearExtension>,
    pairs: Seq<(Expression, Expression)>,
    wits: Seq<MultilinearExtension>,
    rt: Seq<Ext>,
    subgroup: int,
    i: int,
    b: int,
    k: int,
)
    requires
        are_rotation_tables(tables, pairs, wits, rt, subgroup),
        0 <= i < pairs.len(),
        pairs[i].0 is WitIn,
        pairs[i].1 is WitIn,
        0 <= b,
        32 * b + 32 <= pow2(rt.len()),
        32 * b + 32 <= wits[pairs[i].0->WitIn_0 as int]@.len(),
        0 <= k < 31,
    ensures
        tables.len() == 2 * pairs.len() + 1,
        ({
            let (source, target) = (
                wits[pairs[i].0->WitIn_0 as int],
                wits[pairs[i].1->WitIn_0 as int],
            );
            let sel = tables.last();
            &&& tables[2 * i]@.len() == source@.len()
            &&& tables[2 * i]@[32 * b + cycle(k)] == source@[32 * b + cycle(k + 1)]
            &&& tables[2 * i + 1]@ == target@
            &&& sel@.len() == pow2(rt.len())
            &&& sel@[32 * b] == e_zero()
            &&& k < subgroup ==> sel@[32 * b + cycle(k)] == eq_at(rt, 32 * b + cycle(k))
            &&& k >= subgroup ==> sel@[32 * b + cycle(k)] == e_zero()
        }),
{
    let (source, target) = pairs[i];
    assert(tables[2 * i]@ == rotated(wits[column_of(source)]@));
    lemma_rotated_rows(wits[column_of(source)]@, b, k);
    lemma_selected_rows(rt, eq_table(rt), subgroup, b, k);
}

} // verus!
