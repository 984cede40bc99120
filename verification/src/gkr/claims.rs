//! The claims that are handed from layer to layer, each by the index of its evaluation.
use vstd::prelude::*;

use crate::field::{e_zero, ge, GoldilocksExt2};
use crate::gkr::zerocheck_layer::EvalsAndPoint;
use crate::gkr::{Chip, EvalExpression, Layer, OutputGroup};
use crate::mle::{slice_to_vec, Point, PointAndEval};

verus! {

/// What is claimed of an evaluation: a value at a point.
pub type ClaimView = Option<(Seq<GoldilocksExt2>, GoldilocksExt2)>;

/// What is claimed of an evaluation.
pub open spec fn claim_view(claim: Option<PointAndEval>) -> ClaimView {
    match claim {
        None => None,
        Some(c) => Some((c.point@, c.eval)),
    }
}

/// What is claimed of the evaluations.
pub open spec fn claim_views(claims: Seq<Option<PointAndEval>>) -> Seq<ClaimView> {
    claims.map_values(|c: Option<PointAndEval>| claim_view(c))
}

/// The output is zero, or an evaluation with a claim.
pub open spec fn has_claim(eval: EvalExpression, claims: Seq<ClaimView>) -> bool {
    match eval {
        EvalExpression::Zero => true,
        EvalExpression::Single(i) => i < claims.len() && claims[i as int] is Some,
        _ => false,
    }
}

/// The value that is claimed of an output.
pub open spec fn claimed_value(eval: EvalExpression, claims: Seq<ClaimView>) -> GoldilocksExt2 {
    match eval {
        EvalExpression::Single(i) => (claims[i as int]->0).1,
        _ => ge(e_zero()),
    }
}

/// The point at which the first outputs of a group are claimed: that of the last one with a claim.
pub open spec fn claimed_point(evals: Seq<EvalExpression>, claims: Seq<ClaimView>, n: int) -> Option<
    Seq<GoldilocksExt2>,
>
    decreases n,
{
    if n <= 0 {
        None
    } else {
        match evals[n - 1] {
            EvalExpression::Single(i) => Some((claims[i as int]->0).0),
            _ => claimed_point(evals, claims, n - 1),
        }
    }
}

/// The claims of a group of outputs.
pub open spec fn is_group_claim(
    claim: EvalsAndPoint,
    group: OutputGroup,
    claims: Seq<ClaimView>,
) -> bool {
    &&& claim.0@ == Seq::new(
        group.evals@.len(),
        |j: int| claimed_value(group.evals@[j], claims),
    )
    &&& match claimed_point(group.evals@, claims, group.evals@.len() as int) {
        None => claim.1 is None,
        Some(point) => claim.1 is Some && claim.1->0@ == point,
    }
}

fn group_claim(group: &OutputGroup, claims: &Vec<Option<PointAndEval>>) -> (r: EvalsAndPoint)
    requires
        forall|j: int|
            0 <= j < group.evals@.len() ==> has_claim(
                #[trigger] group.evals@[j],
                claim_views(claims@),
            ),
    ensures
        is_group_claim(r, *group, claim_views(claims@)),
{
    let ghost views = claim_views(claims@);
    let ghost all = Seq::new(group.evals@.len(), |j: int| claimed_value(group.evals@[j], views));
    let n: usize = group.evals.len();
    let mut evals: Vec<GoldilocksExt2> = Vec::with_capacity(n);
    let mut point: Option<Point> = None;
    let mut j: usize = 0;
    while j < n
        invariant
            j <= n,
            n == group.evals@.len(),
            views == claim_views(claims@),
            all == Seq::new(group.evals@.len(), |j: int| claimed_value(group.evals@[j], views)),
            evals@ == all.take(j as int),
            forall|j: int|
                0 <= j < group.evals@.len() ==> has_claim(#[trigger] group.evals@[j], views),
            match claimed_point(group.evals@, views, j as int) {
                None => point is None,
                Some(p) => point is Some && point->0@ == p,
            },
        decreases n - j,
    {
        assert(has_claim(group.evals@[j as int], views));
        match &group.evals[j] {
            EvalExpression::Single(i) => {
                assert(views[*i as int] == claim_view(claims@[*i as int]));
                match &claims[*i] {
                    Some(claim) => {
                        evals.push(claim.eval);
                        point = Some(slice_to_vec(claim.point.as_slice()));
                    },
                    None => {
                        vstd::pervasive::unreached::<()>();
                    },
                }
            },
            _ => {
                evals.push(GoldilocksExt2::zero());
            },
        }
        j = j + 1;
        assert(evals@ =~= all.take(j as int));
    }
    assert(all.take(n as int) =~= all);
    (evals, point)
}

/// The claims of the outputs of a layer, group by group: for each output the claimed value, or zero
/// for an output that is zero, and the point of the group.
pub fn group_claims(layer: &Layer, claims: &Vec<Option<PointAndEval>>) -> (r: Vec<EvalsAndPoint>)
    requires
        forall|g: int, j: int|
            0 <= g < layer.expr_evals@.len() && 0 <= j < layer.expr_evals@[g].evals@.len()
                ==> has_claim(
                #[trigger] layer.expr_evals@[g].evals@[j],
                claim_views(claims@),
            ),
    ensures
        r@.len() == layer.expr_evals@.len(),
        forall|g: int|
            0 <= g < r@.len() ==> is_group_claim(
                #[trigger] r@[g],
                layer.expr_evals@[g],
                claim_views(claims@),
            ),
{
    let mut r: Vec<EvalsAndPoint> = Vec::with_capacity(layer.expr_evals.len());
    let mut g: usize = 0;
    while g < layer.expr_evals.len()
        invariant
            g <= layer.expr_evals@.len(),
            r@.len() == g,
            forall|g: int, j: int|
                0 <= g < layer.expr_evals@.len() && 0 <= j < layer.expr_evals@[g].evals@.len()
                    ==> has_claim(
                    #[trigger] layer.expr_evals@[g].evals@[j],
                    claim_views(claims@),
                ),
            forall|k: int|
                0 <= k < g ==> is_group_claim(
                    #[trigger] r@[k],
                    layer.expr_evals@[k],
                    claim_views(claims@),
                ),
        decreases layer.expr_evals@.len() - g,
    {
        let claim = group_claim(&layer.expr_evals[g], claims);
        r.push(claim);
        g = g + 1;
    }
    r
}

/// The claims with those of the first inputs of a layer put in their places.
pub open spec fn stored(
    claims: Seq<ClaimView>,
    inputs: Seq<EvalExpression>,
    point: Seq<GoldilocksExt2>,
    evals: Seq<GoldilocksExt2>,
    n: int,
) -> Seq<ClaimView>
    decreases n,
{
    if n <= 0 {
        claims
    } else {
        let rest = stored(claims, inputs, point, evals, n - 1);
        match inputs[n - 1] {
            EvalExpression::Single(i) => rest.update(i as int, Some((point, evals[n - 1]))),
            _ => rest,
        }
    }
}

fn put(claims: &mut Vec<Option<PointAndEval>>, i: usize, claim: PointAndEval)
    requires
        i < old(claims)@.len(),
    ensures
        final(claims)@.len() == old(claims)@.len(),
        claim_views(final(claims)@) == claim_views(old(claims)@).update(
            i as int,
            Some((claim.point@, claim.eval)),
        ),
{
    let ghost before = claims@;
    claims.set(i, Some(claim));
    assert(claim_views(claims@) =~= claim_views(before).update(
        i as int,
        Some((claim.point@, claim.eval)),
    ));
}

/// Claims the evaluations of the inputs of a layer at the point in which its sum check ended.
pub fn store_claims(
    layer: &Layer,
    claims: &mut Vec<Option<PointAndEval>>,
    in_point: &Point,
    evals: &[GoldilocksExt2],
)
    requires
        layer.in_eval_expr@.len() <= evals@.len(),
        forall|j: int|
            0 <= j < layer.in_eval_expr@.len() ==> ((#[trigger] layer.in_eval_expr@[j])
                matches EvalExpression::Single(i) ==> i < old(claims)@.len()),
    ensures
        final(claims)@.len() == old(claims)@.len(),
        claim_views(final(claims)@) == stored(
            claim_views(old(claims)@),
            layer.in_eval_expr@,
            in_point@,
            evals@,
            layer.in_eval_expr@.len() as int,
        ),
{
    let n: usize = layer.in_eval_expr.len();
    let ghost before = claim_views(claims@);
    let ghost len = claims@.len();
    let mut j: usize = 0;
    while j < n
        invariant
            j <= n,
            n == layer.in_eval_expr@.len(),
            n <= evals@.len(),
            claims@.len() == len,
            forall|j: int|
                0 <= j < layer.in_eval_expr@.len() ==> ((#[trigger] layer.in_eval_expr@[j])
                    matches EvalExpression::Single(i) ==> i < len),
            claim_views(claims@) == stored(
                before,
                layer.in_eval_expr@,
                in_point@,
                evals@,
                j as int,
            ),
        decreases n - j,
    {
        match &layer.in_eval_expr[j] {
            EvalExpression::Single(i) => {
                assert(layer.in_eval_expr@[j as int] is Single);
                let point = slice_to_vec(in_point.as_slice());
                put(claims, *i, PointAndEval::new(point, evals[j]));
            },
            _ => {},
        }
        j = j + 1;
    }
}

/// The claims of the first outputs put in their places.
pub open spec fn output_claims(
    n_evaluations: nat,
    indices: Seq<usize>,
    outputs: Seq<PointAndEval>,
    n: int,
) -> Seq<ClaimView>
    decreases n,
{
    if n <= 0 {
        Seq::new(n_evaluations, |i: int| None)
    } else {
        output_claims(n_evaluations, indices, outputs, n - 1).update(
            indices[n - 1] as int,
            Some((outputs[n - 1].point@, outputs[n - 1].eval)),
        )
    }
}

/// The claims of the outputs of a circuit; nothing is claimed of the other evaluations.
pub fn first_claims(chip: &Chip, outputs: &Vec<PointAndEval>) -> (r: Vec<Option<PointAndEval>>)
    requires
        outputs@.len() == chip.final_out_evals@.len(),
        forall|i: int|
            0 <= i < chip.final_out_evals@.len() ==> (#[trigger] chip.final_out_evals@[i])
                < chip.n_evaluations,
    ensures
        r@.len() == chip.n_evaluations,
        claim_views(r@) == output_claims(
            chip.n_evaluations as nat,
            chip.final_out_evals@,
            outputs@,
            outputs@.len() as int,
        ),
{
    let mut r: Vec<Option<PointAndEval>> = Vec::with_capacity(chip.n_evaluations);
    let mut k: usize = 0;
    while k < chip.n_evaluations
        invariant
            k <= chip.n_evaluations,
            r@.len() == k,
            forall|i: int| 0 <= i < k ==> (#[trigger] r@[i]) is None,
        decreases chip.n_evaluations - k,
    {
        r.push(None);
        k = k + 1;
    }
    let mut i: usize = 0;
    assert(claim_views(r@) =~= output_claims(
        chip.n_evaluations as nat,
        chip.final_out_evals@,
        outputs@,
        0,
    ));
    while i < outputs.len()
        invariant
            i <= outputs@.len(),
            outputs@.len() == chip.final_out_evals@.len(),
            r@.len() == chip.n_evaluations,
            forall|i: int|
                0 <= i < chip.final_out_evals@.len() ==> (#[trigger] chip.final_out_evals@[i])
                    < chip.n_evaluations,
            claim_views(r@) == output_claims(
                chip.n_evaluations as nat,
                chip.final_out_evals@,
                outputs@,
                i as int,
            ),
        decreases outputs@.len() - i,
    {
        let point = slice_to_vec(outputs[i].point.as_slice());
        put(&mut r, chip.final_out_evals[i], PointAndEval::new(point, outputs[i].eval));
        i = i + 1;
    }
    r
}

/// What is stored of an input is claimed of it, and nothing else changes: so the layers below find
/// the evaluations that the layer above them ended in.
pub proof fn lemma_stored(
    claims: Seq<ClaimView>,
    inputs: Seq<EvalExpression>,
    point: Seq<GoldilocksExt2>,
    evals: Seq<GoldilocksExt2>,
    n: int,
)
    requires
        0 <= n <= inputs.len(),
        forall|j: int|
            0 <= j < n ==> ((#[trigger] inputs[j]) matches EvalExpression::Single(i) && i
                < claims.len()),
        forall|j: int, k: int|
            0 <= j < k < n ==> #[trigger] inputs[j] != #[trigger] inputs[k],
    ensures
        stored(claims, inputs, point, evals, n).len() == claims.len(),
        forall|j: int|
            0 <= j < n ==> {
                let i = (#[trigger] inputs[j])->Single_0;
                stored(claims, inputs, point, evals, n)[i as int] == Some((point, evals[j]))
            },
        forall|i: int|
            0 <= i < claims.len() && (forall|j: int|
                0 <= j < n ==> (#[trigger] inputs[j])->Single_0 != i) ==> #[trigger] stored(
                claims,
                inputs,
                point,
                evals,
                n,
            )[i] == claims[i],
    decreases n,
{
    if n > 0 {
        lemma_stored(claims, inputs, point, evals, n - 1);
        let rest = stored(claims, inputs, point, evals, n - 1);
        let all = stored(claims, inputs, point, evals, n);
        let last = inputs[n - 1]->Single_0;
        assert(inputs[n - 1] is Single);
        assert(all == rest.update(last as int, Some((point, evals[n - 1]))));
        assert forall|j: int| 0 <= j < n implies ({
            let i = (#[trigger] inputs[j])->Single_0;
            all[i as int] == Some((point, evals[j]))
        }) by {
            if j < n - 1 {
                assert(inputs[j] != inputs[n - 1]);
            }
        }
    }
}

} // verus!
