//! Tables and expressions of layers: the outputs of a layer, the combined expression that is
//! checked, and rotations.
use vstd::arithmetic::power2::*;
use vstd::prelude::*;
use vstd::slice::slice_subrange;

use crate::expression::infer::{infer_shape, is_table_of, row_env, wit_infer_by_expr, Shape};
use crate::expression::laws::{lemma_eval_add, lemma_eval_mul};
use crate::expression::{base_const, Env, Expression};
use crate::field::{e_mul, e_zero, group_field, Ext, Goldilocks, GoldilocksExt2};
use crate::gkr::booleanhypercube::{
    cycle, lemma_cycle, lemma_position, next, next_point, position, BooleanHypercube,
};
use crate::gkr::rotation_laws::{cycle_sum, rotated, selector_value};
use crate::gkr::{EvalExpression, Layer, OutputGroup};
use crate::mle::{ext_seq, FieldType, MultilinearExtension};
use crate::multilinear::{e_sum, eq_at};
use crate::util::{ceil_log2, is_pow2, lemma_ceil_log2_pow2};
use crate::virtual_poly::{build_eq_x_r_vec_sequential, eq_eval};

verus! {

broadcast use group_field;

/// The polynomial whose table has each block of 32 entries rotated to the next point.
pub fn rotation_next_base_mle(
    bh: &BooleanHypercube,
    mle: &MultilinearExtension,
    cyclic_group_log2_size: usize,
) -> (r: MultilinearExtension<'static>)
    requires
        bh.wf(),
        cyclic_group_log2_size == bh.num_vars,
        mle.wf(),
        mle.evaluations is Base,
        mle.num_vars >= 5,
    ensures
        r.wf(),
        r.num_vars == mle.num_vars,
        r.evaluations is Base,
        r@ == rotated(mle@),
{
    let evals = mle.get_base_field_vec();
    let n: usize = evals.len();
    let mut out: Vec<Goldilocks> = Vec::with_capacity(n);
    proof {
        lemma2_to64();
        lemma_pow2_adds(5, (mle.num_vars - 5) as nat);
        let k = pow2((mle.num_vars - 5) as nat);
        assert(n == 32 * k);
    }
    let ghost k = pow2((mle.num_vars - 5) as nat) as int;
    let mut i: usize = 0;
    while i < n
        invariant
            i <= n,
            n == evals@.len(),
            n == 32 * k,
            out@.len() == i,
            forall|j: int|
                0 <= j < i ==> #[trigger] out@[j] == evals@[32 * (j / 32) + next_point(j % 32)],
        decreases n - i,
    {
        let b: usize = next(i % 32);
        assert(i / 32 < k);
        out.push(evals[32 * (i / 32) + b]);
        i = i + 1;
    }
    let r = MultilinearExtension::from_evaluations_vec(mle.num_vars(), out);
    proof {
        assert(r@ =~= rotated(mle@)) by {
            assert forall|j: int| 0 <= j < n implies #[trigger] r@[j] == rotated(mle@)[j] by {
                assert(out@[j] == evals@[32 * (j / 32) + next_point(j % 32)]);
                assert(j / 32 < k);
            }
        }
    }
    r
}

/// The entries of a table at the first points of the cycle in each block, and zero elsewhere.
pub open spec fn select(eq: Seq<Ext>, subgroup: int) -> Seq<Ext> {
    Seq::new(
        eq.len(),
        |i: int|
            if i % 32 != 0 && position(i % 32) < subgroup {
                eq[i]
            } else {
                e_zero()
            },
    )
}

/// The polynomial that selects the first points of the cycle in each block.
pub fn rotation_selector(
    bh: &BooleanHypercube,
    eq: &[GoldilocksExt2],
    cyclic_subgroup_size: usize,
    cyclic_group_log2_size: usize,
    total_len: usize,
) -> (r: MultilinearExtension<'static>)
    requires
        bh.wf(),
        cyclic_group_log2_size == bh.num_vars,
        cyclic_subgroup_size <= 32,
        is_pow2(total_len as int),
        total_len % 32 == 0,
        eq@.len() == total_len,
    ensures
        r.wf(),
        pow2(r.num_vars as nat) == total_len,
        r.is_ext(),
        r@ == select(ext_seq(eq@), cyclic_subgroup_size as int),
{
    let points = bh.points(cyclic_subgroup_size);
    let mut chosen: Vec<bool> = Vec::with_capacity(32);
    let mut b: usize = 0;
    while b < 32
        invariant
            b <= 32,
            chosen@.len() == b,
            forall|k: int| 0 <= k < b ==> !(#[trigger] chosen@[k]),
        decreases 32 - b,
    {
        chosen.push(false);
        b = b + 1;
    }
    let mut i: usize = 0;
    while i < points.len()
        invariant
            i <= points@.len(),
            points@.len() == cyclic_subgroup_size,
            cyclic_subgroup_size <= 32,
            forall|k: int|
                0 <= k < cyclic_subgroup_size ==> #[trigger] points@[k] == cycle(k) && 1
                    <= points@[k] < 32,
            chosen@.len() == 32,
            forall|k: int|
                0 <= k < 32 ==> #[trigger] chosen@[k] == (k != 0 && position(k) < i),
        decreases points@.len() - i,
    {
        let ghost before = chosen@;
        chosen.set(points[i], true);
        proof {
            lemma_cycle(i as int);
            assert forall|k: int| 0 <= k < 32 implies #[trigger] chosen@[k] == (k != 0 && position(k)
                < i + 1) by {
                if k != 0 {
                    lemma_position(k);
                    assert(before[k] == (k != 0 && position(k) < i));
                    if position(k) == i {
                        assert(k == points@[i as int]);
                    }
                    if i == 31 {
                        lemma_cycle(0);
                    }
                }
            }
        }
        i = i + 1;
    }
    let mut out: Vec<GoldilocksExt2> = Vec::with_capacity(total_len);
    let mut i: usize = 0;
    while i < total_len
        invariant
            i <= total_len,
            eq@.len() == total_len,
            chosen@.len() == 32,
            forall|k: int|
                0 <= k < 32 ==> #[trigger] chosen@[k] == (k != 0 && position(k)
                    < cyclic_subgroup_size),
            out@.len() == i,
            forall|j: int|
                0 <= j < i ==> (#[trigger] out@[j])@ == select(
                    ext_seq(eq@),
                    cyclic_subgroup_size as int,
                )[j],
        decreases total_len - i,
    {
        if chosen[i % 32] {
            out.push(eq[i]);
        } else {
            out.push(GoldilocksExt2::zero());
        }
        i = i + 1;
    }
    proof {
        let k = choose|k: nat| total_len == pow2(k);
        lemma_ceil_log2_pow2(k);
    }
    let num_vars: usize = ceil_log2(total_len);
    let r = MultilinearExtension::from_evaluations_ext_vec(num_vars, out);
    assert(r@ =~= select(ext_seq(eq@), cyclic_subgroup_size as int));
    r
}

/// The value of the selector of the points equal to `out_point`, at `in_point`:
///
/// `(sum_b eq(out_point[..5], b) * eq(in_point[..5], b)) * eq(out_point[5..], in_point[5..])`,
///
/// where `b` runs through the first points of the cycle.
pub fn rotation_selector_eval(
    bh: &BooleanHypercube,
    out_point: &[GoldilocksExt2],
    in_point: &[GoldilocksExt2],
    cyclic_subgroup_size: usize,
    cyclic_group_log2_size: usize,
) -> (r: GoldilocksExt2)
    requires
        bh.wf(),
        cyclic_group_log2_size == bh.num_vars,
        cyclic_subgroup_size <= 32,
        out_point@.len() == in_point@.len(),
        out_point@.len() >= 5,
    ensures
        r@ == selector_value(
            ext_seq(out_point@),
            ext_seq(in_point@),
            cyclic_subgroup_size as int,
        ),
{
    let points = bh.points(cyclic_subgroup_size);
    let n: usize = out_point.len();
    let out5 = slice_subrange(out_point, 0, 5);
    let in5 = slice_subrange(in_point, 0, 5);
    proof {
        lemma2_to64();
        assert(ext_seq(out5@) =~= ext_seq(out_point@).take(5));
        assert(ext_seq(in5@) =~= ext_seq(in_point@).take(5));
    }
    let out_eq = build_eq_x_r_vec_sequential(out5);
    let in_eq = build_eq_x_r_vec_sequential(in5);
    let mut eval = GoldilocksExt2::zero();
    let mut i: usize = 0;
    while i < points.len()
        invariant
            i <= points@.len(),
            points@.len() == cyclic_subgroup_size,
            forall|k: int|
                0 <= k < cyclic_subgroup_size ==> #[trigger] points@[k] == cycle(k) && 1
                    <= points@[k] < 32,
            out_eq@.len() == 32,
            in_eq@.len() == 32,
            forall|b: int|
                0 <= b < 32 ==> (#[trigger] out_eq@[b])@ == eq_at(ext_seq(out5@), b),
            forall|b: int| 0 <= b < 32 ==> (#[trigger] in_eq@[b])@ == eq_at(ext_seq(in5@), b),
            eval@ == cycle_sum(ext_seq(out5@), ext_seq(in5@), i as int),
        decreases points@.len() - i,
    {
        let b: usize = points[i];
        eval = eval + out_eq[b] * in_eq[b];
        i = i + 1;
    }
    let out_rest = slice_subrange(out_point, 5, n);
    let in_rest = slice_subrange(in_point, 5, n);
    proof {
        assert(ext_seq(out_rest@) =~= ext_seq(out_point@).skip(5));
        assert(ext_seq(in_rest@) =~= ext_seq(in_point@).skip(5));
    }
    eval * eq_eval(out_rest, in_rest)
}

/// The outputs of all groups, one group after the other.
pub open spec fn all_evals(groups: Seq<OutputGroup>) -> Seq<EvalExpression>
    decreases groups.len(),
{
    if groups.len() == 0 {
        Seq::empty()
    } else {
        all_evals(groups.drop_last()) + groups.last().evals@
    }
}

/// The table of an output: that of its expression, or nothing for an output that is zero.
pub open spec fn is_output(
    m: MultilinearExtension,
    eval: EvalExpression,
    wits: Seq<MultilinearExtension>,
    challenges: Seq<GoldilocksExt2>,
    expr: Expression,
) -> bool {
    let none = Seq::<MultilinearExtension>::empty();
    if eval is Zero {
        m.num_vars == 0 && m.evaluations is Unreachable
    } else {
        &&& m.wf()
        &&& infer_shape(none, wits, none, none, challenges, expr) == Some(
            Shape { num_vars: m.num_vars as nat, ext: m.is_ext() },
        )
        &&& is_table_of(m, none, wits, none, none, challenges, expr)
    }
}

/// What the outputs of a layer can be computed from.
pub open spec fn can_infer(
    layer: Layer,
    wits: Seq<MultilinearExtension>,
    challenges: Seq<GoldilocksExt2>,
) -> bool {
    let none = Seq::<MultilinearExtension>::empty();
    let evals = all_evals(layer.expr_evals@);
    &&& evals.len() == layer.exprs@.len()
    &&& forall|i: int|
        0 <= i < evals.len() ==> ((#[trigger] evals[i]) is Zero || evals[i] is Single)
    &&& forall|i: int|
        0 <= i < layer.exprs@.len() ==> infer_shape(
            none,
            wits,
            none,
            none,
            challenges,
            #[trigger] layer.exprs@[i],
        ) is Some
}

/// The table of an expression over the inputs of a layer.
fn layer_table(
    layer_wits: &[MultilinearExtension],
    challenges: &[GoldilocksExt2],
    expr: &Expression,
) -> (m: MultilinearExtension<'static>)
    requires
        infer_shape(
            Seq::empty(),
            layer_wits@,
            Seq::empty(),
            Seq::empty(),
            challenges@,
            *expr,
        ) is Some,
    ensures
        is_output(m, EvalExpression::Single(0), layer_wits@, challenges@, *expr),
{
    let none: Vec<MultilinearExtension> = Vec::new();
    assert(none@ =~= Seq::<MultilinearExtension>::empty());
    wit_infer_by_expr(
        none.as_slice(),
        layer_wits,
        none.as_slice(),
        none.as_slice(),
        challenges,
        expr,
    )
}

/// The expression is zero in every row.
pub open spec fn is_zero_output(
    wits: Seq<MultilinearExtension>,
    challenges: Seq<GoldilocksExt2>,
    expr: Expression,
) -> bool {
    let none = Seq::<MultilinearExtension>::empty();
    let shape = infer_shape(none, wits, none, none, challenges, expr)->0;
    forall|row: int|
        0 <= row < pow2(shape.num_vars) ==> expr.eval(
            #[trigger] row_env(none, wits, none, none, challenges, row),
        ) == e_zero()
}

/// The first output that is claimed to be zero and is not.
pub fn find_nonzero_output(
    layer: &Layer,
    layer_wits: &[MultilinearExtension],
    challenges: &[GoldilocksExt2],
) -> (r: Option<usize>)
    requires
        can_infer(*layer, layer_wits@, challenges@),
    ensures
        ({
            let evals = all_evals(layer.expr_evals@);
            match r {
                Some(i) => {
                    &&& i < evals.len()
                    &&& evals[i as int] is Zero
                    &&& !is_zero_output(layer_wits@, challenges@, layer.exprs@[i as int])
                    &&& forall|j: int|
                        0 <= j < i && (#[trigger] evals[j]) is Zero ==> is_zero_output(
                            layer_wits@,
                            challenges@,
                            layer.exprs@[j],
                        )
                },
                None => forall|j: int|
                    0 <= j < evals.len() && (#[trigger] evals[j]) is Zero ==> is_zero_output(
                        layer_wits@,
                        challenges@,
                        layer.exprs@[j],
                    ),
            }
        }),
{
    let ghost evals = all_evals(layer.expr_evals@);
    let kinds = zero_outputs(&layer.expr_evals);
    let mut i: usize = 0;
    while i < layer.exprs.len()
        invariant
            i <= layer.exprs@.len(),
            evals == all_evals(layer.expr_evals@),
            can_infer(*layer, layer_wits@, challenges@),
            kinds@.len() == evals.len(),
            forall|j: int| 0 <= j < evals.len() ==> #[trigger] kinds@[j] == (evals[j] is Zero),
            forall|j: int|
                0 <= j < i && (#[trigger] evals[j]) is Zero ==> is_zero_output(
                    layer_wits@,
                    challenges@,
                    layer.exprs@[j],
                ),
        decreases layer.exprs@.len() - i,
    {
        if kinds[i] {
            let m = layer_table(layer_wits, challenges, &layer.exprs[i]);
            let zero = is_zero_table(&m);
            proof {
                lemma_zero_table(m, layer_wits@, challenges@, layer.exprs@[i as int]);
            }
            if !zero {
                return Some(i);
            }
        }
        i = i + 1;
    }
    None
}

/// Which outputs are zero.
fn zero_outputs(groups: &Vec<OutputGroup>) -> (r: Vec<bool>)
    ensures
        r@ == all_evals(groups@).map_values(|e: EvalExpression| e is Zero),
{
    let mut r: Vec<bool> = Vec::new();
    let mut g: usize = 0;
    assert(groups@.take(0) =~= Seq::<OutputGroup>::empty());
    assert(r@ =~= all_evals(groups@.take(0)).map_values(|e: EvalExpression| e is Zero));
    while g < groups.len()
        invariant
            g <= groups@.len(),
            r@ == all_evals(groups@.take(g as int)).map_values(|e: EvalExpression| e is Zero),
        decreases groups@.len() - g,
    {
        let ghost start = r@;
        let mut k: usize = 0;
        while k < groups[g].evals.len()
            invariant
                g < groups@.len(),
                k <= groups@[g as int].evals@.len(),
                r@ == start + groups@[g as int].evals@.take(k as int).map_values(
                    |e: EvalExpression| e is Zero,
                ),
            decreases groups@[g as int].evals@.len() - k,
        {
            r.push(matches!(groups[g].evals[k], EvalExpression::Zero));
            k = k + 1;
            assert(r@ =~= start + groups@[g as int].evals@.take(k as int).map_values(
                |e: EvalExpression| e is Zero,
            ));
        }
        proof {
            lemma_all_evals(groups@, g as int);
            let es = groups@[g as int].evals@;
            assert(es.take(k as int) =~= es);
            assert(r@ =~= all_evals(groups@.take(g + 1)).map_values(|e: EvalExpression| e is Zero));
        }
        g = g + 1;
    }
    assert(groups@.take(g as int) =~= groups@);
    r
}

/// Whether all entries are zero.
fn is_zero_table(m: &MultilinearExtension) -> (r: bool)
    requires
        m.wf(),
    ensures
        r == forall|i: int| 0 <= i < m@.len() ==> #[trigger] m@[i] == e_zero(),
{
    let n: usize = m.evaluations.len();
    let mut i: usize = 0;
    while i < n
        invariant
            i <= n,
            n == m@.len(),
            m.wf(),
            forall|k: int| 0 <= k < i ==> #[trigger] m@[k] == e_zero(),
        decreases n - i,
    {
        if m.evaluations.get(i) != GoldilocksExt2::zero() {
            return false;
        }
        i = i + 1;
    }
    true
}

proof fn lemma_zero_table(
    m: MultilinearExtension,
    wits: Seq<MultilinearExtension>,
    challenges: Seq<GoldilocksExt2>,
    expr: Expression,
)
    requires
        is_output(m, EvalExpression::Single(0), wits, challenges, expr),
    ensures
        is_zero_output(wits, challenges, expr) <==> forall|i: int|
            0 <= i < m@.len() ==> #[trigger] m@[i] == e_zero(),
{
    let none = Seq::<MultilinearExtension>::empty();
    if is_zero_output(wits, challenges, expr) {
        assert forall|i: int| 0 <= i < m@.len() implies #[trigger] m@[i] == e_zero() by {
            let env = row_env(none, wits, none, none, challenges, i);
            assert(expr.eval(env) == e_zero());
        }
    }
    if forall|i: int| 0 <= i < m@.len() ==> #[trigger] m@[i] == e_zero() {
        assert forall|row: int| 0 <= row < m@.len() implies expr.eval(
            #[trigger] row_env(none, wits, none, none, challenges, row),
        ) == e_zero() by {
            let i = if m@.len() == 1 {
                0
            } else {
                row
            };
            assert(m@[i] == e_zero());
        }
    }
}

/// Infers the tables of the outputs of a layer from those of its inputs.
pub fn infer_layer_witness(
    layer: &Layer,
    layer_wits: &[MultilinearExtension],
    challenges: &[GoldilocksExt2],
) -> (r: Vec<MultilinearExtension<'static>>)
    requires
        can_infer(*layer, layer_wits@, challenges@),
    ensures
        r@.len() == layer.exprs@.len(),
        forall|i: int|
            0 <= i < r@.len() ==> is_output(
                #[trigger] r@[i],
                all_evals(layer.expr_evals@)[i],
                layer_wits@,
                challenges@,
                layer.exprs@[i],
            ),
{
    let ghost evals = all_evals(layer.expr_evals@);
    let mut r: Vec<MultilinearExtension<'static>> = Vec::with_capacity(layer.exprs.len());
    let mut g: usize = 0;
    assert(layer.expr_evals@.take(0) =~= Seq::<OutputGroup>::empty());
    while g < layer.expr_evals.len()
        invariant
            g <= layer.expr_evals@.len(),
            evals == all_evals(layer.expr_evals@),
            can_infer(*layer, layer_wits@, challenges@),
            r@.len() == all_evals(layer.expr_evals@.take(g as int)).len(),
            forall|i: int|
                0 <= i < r@.len() ==> is_output(
                    #[trigger] r@[i],
                    evals[i],
                    layer_wits@,
                    challenges@,
                    layer.exprs@[i],
                ),
        decreases layer.expr_evals@.len() - g,
    {
        let ghost start = r@.len() as int;
        proof {
            lemma_all_evals(layer.expr_evals@, g as int);
        }
        let mut k: usize = 0;
        while k < layer.expr_evals[g as usize].evals.len()
            invariant
                g < layer.expr_evals@.len(),
                k <= layer.expr_evals@[g as int].evals@.len(),
                evals == all_evals(layer.expr_evals@),
                can_infer(*layer, layer_wits@, challenges@),
                start == all_evals(layer.expr_evals@.take(g as int)).len(),
                start + layer.expr_evals@[g as int].evals@.len() <= evals.len(),
                forall|j: int|
                    0 <= j < layer.expr_evals@[g as int].evals@.len() ==> evals[start + j]
                        == #[trigger] layer.expr_evals@[g as int].evals@[j],
                r@.len() == start + k,
                forall|i: int|
                    0 <= i < r@.len() ==> is_output(
                        #[trigger] r@[i],
                        evals[i],
                        layer_wits@,
                        challenges@,
                        layer.exprs@[i],
                    ),
            decreases layer.expr_evals@[g as int].evals@.len() - k,
        {
            let i: usize = r.len();
            assert(evals[start + k] == layer.expr_evals@[g as int].evals@[k as int]);
            if matches!(layer.expr_evals[g].evals[k], EvalExpression::Zero) {
                r.push(MultilinearExtension { evaluations: FieldType::Unreachable, num_vars: 0 });
            } else {
                let expr = &layer.exprs[i];
                r.push(layer_table(layer_wits, challenges, expr));
            }
            k = k + 1;
        }
        proof {
            lemma_all_evals(layer.expr_evals@, g as int);
        }
        g = g + 1;
    }
    assert(layer.expr_evals@.take(g as int) =~= layer.expr_evals@);
    r
}

/// Where the outputs of a group stand among all outputs.
pub proof fn lemma_all_evals(groups: Seq<OutputGroup>, g: int)
    requires
        0 <= g < groups.len(),
    ensures
        all_evals(groups.take(g + 1)) == all_evals(groups.take(g)) + groups[g].evals@,
        all_evals(groups.take(g)).len() + groups[g].evals@.len() <= all_evals(groups).len(),
        forall|j: int|
            0 <= j < groups[g].evals@.len() ==> all_evals(groups)[all_evals(groups.take(g)).len()
                + j] == #[trigger] groups[g].evals@[j],
    decreases groups.len(),
{
    assert(groups.take(g + 1).drop_last() =~= groups.take(g));
    if g == groups.len() - 1 {
        assert(groups.take(g) =~= groups.drop_last());
    } else {
        lemma_all_evals(groups.drop_last(), g);
        assert(groups.drop_last().take(g) =~= groups.take(g));
    }
}

/// The sum of the first `n` expressions with their coefficients.
pub open spec fn weighted_sum(alphas: Seq<Expression>, exprs: Seq<Expression>, n: int) -> Expression
    decreases n,
{
    if n <= 0 {
        base_const(0)
    } else {
        weighted_sum(alphas, exprs, n - 1).spec_add(alphas[n - 1].spec_mul(exprs[n - 1]))
    }
}

/// The value of the sum with coefficients.
pub proof fn lemma_weighted_sum_eval(
    alphas: Seq<Expression>,
    exprs: Seq<Expression>,
    n: int,
    env: Env,
)
    requires
        0 <= n <= alphas.len(),
        n <= exprs.len(),
        products_fit(alphas, exprs, n),
    ensures
        weighted_sum(alphas, exprs, n).eval(env) == e_sum(
            Seq::new(n as nat, |i: int| e_mul(alphas[i].eval(env), exprs[i].eval(env))),
        ),
    decreases n,
{
    let terms = Seq::new(n as nat, |i: int| e_mul(alphas[i].eval(env), exprs[i].eval(env)));
    if n > 0 {
        lemma_weighted_sum_eval(alphas, exprs, n - 1, env);
        assert(terms.drop_last() =~= Seq::new(
            (n - 1) as nat,
            |i: int| e_mul(alphas[i].eval(env), exprs[i].eval(env)),
        ));
        let (a, b) = (alphas[n - 1], exprs[n - 1]);
        assert(a.mul_fits(b));
        lemma_eval_mul(a, b, env);
        lemma_eval_add(weighted_sum(alphas, exprs, n - 1), a.spec_mul(b), env);
    }
}

/// The products with the coefficients can be formed.
pub open spec fn products_fit(alphas: Seq<Expression>, exprs: Seq<Expression>, n: int) -> bool {
    forall|i: int| 0 <= i < n ==> (#[trigger] alphas[i]).mul_fits(exprs[i])
}

/// The expressions that are rotated.
pub open spec fn rotated_exprs(layer: Layer) -> Seq<Expression> {
    layer.rotation_exprs.pairs@.map_values(|p: (Expression, Expression)| p.0)
}

/// The expressions that they are rotated to.
pub open spec fn target_exprs(layer: Layer) -> Seq<Expression> {
    layer.rotation_exprs.pairs@.map_values(|p: (Expression, Expression)| p.1)
}

/// The sum of the outputs of a group with their coefficients.
pub open spec fn group_sum(layer: Layer, alphas: Seq<Expression>, g: int) -> Expression {
    let start = all_evals(layer.expr_evals@.take(g)).len() as int;
    let n = layer.expr_evals@[g].evals@.len() as int;
    weighted_sum(
        alphas.subrange(start, start + n),
        layer.exprs@.subrange(start, start + n),
        n,
    )
}

/// The combined expression of a group.
pub open spec fn group_expr(layer: Layer, alphas: Seq<Expression>, g: int) -> Expression {
    layer.expr_evals@[g].eq->0.spec_mul(group_sum(layer, alphas, g))
}

/// The sum of one side of the rotations with its coefficients: the rotated expressions at the left
/// and at the right point, and the expressions that they are rotated to.
pub open spec fn rotation_sum(layer: Layer, alphas: Seq<Expression>, side: int) -> Expression {
    let n = layer.exprs@.len() as int;
    let m = layer.rotation_exprs.pairs@.len() as int;
    weighted_sum(
        alphas.subrange(n + side * m, n + (side + 1) * m),
        if side == 2 {
            target_exprs(layer)
        } else {
            rotated_exprs(layer)
        },
        m,
    )
}

/// The combined expressions of the groups and of the rotations.
pub open spec fn extended_exprs(layer: Layer, alphas: Seq<Expression>) -> Seq<Expression> {
    let groups = Seq::new(layer.expr_evals@.len(), |g: int| group_expr(layer, alphas, g));
    match layer.rotation_exprs.eqs {
        None => groups,
        Some((left, right, origin)) => groups + seq![
            left.spec_mul(rotation_sum(layer, alphas, 0)),
            right.spec_mul(rotation_sum(layer, alphas, 1)),
            origin.spec_mul(rotation_sum(layer, alphas, 2)),
        ],
    }
}

/// What the expressions of a layer can be combined with.
pub open spec fn can_extend(layer: Layer, alphas: Seq<Expression>) -> bool {
    let n = layer.exprs@.len() as int;
    let m = layer.rotation_exprs.pairs@.len() as int;
    &&& all_evals(layer.expr_evals@).len() == n
    &&& products_fit(alphas, layer.exprs@, n)
    &&& forall|g: int|
        0 <= g < layer.expr_evals@.len() ==> (#[trigger] layer.expr_evals@[g]).eq is Some
            && layer.expr_evals@[g].eq->0.mul_fits(group_sum(layer, alphas, g))
    &&& match layer.rotation_exprs.eqs {
        None => alphas.len() >= n,
        Some((left, right, origin)) => {
            &&& alphas.len() == n + 3 * m
            &&& left.mul_fits(rotation_sum(layer, alphas, 0))
            &&& right.mul_fits(rotation_sum(layer, alphas, 1))
            &&& origin.mul_fits(rotation_sum(layer, alphas, 2))
            &&& forall|i: int|
                0 <= i < m ==> (#[trigger] layer.rotation_exprs.pairs@[i]).0 is WitIn
                    && layer.rotation_exprs.pairs@[i].1 is WitIn
        },
    }
}

fn add_product(sum: Expression, alpha: Expression, expr: Expression) -> (r: Expression)
    requires
        alpha.mul_fits(expr),
    ensures
        r == sum.spec_add(alpha.spec_mul(expr)),
{
    sum + alpha * expr
}

/// The sum of expressions with their coefficients.
fn sum_with_coefficients(
    alphas: &[Expression],
    first_alpha: usize,
    exprs: &Vec<Expression>,
    first_expr: usize,
    n: usize,
) -> (r: Expression)
    requires
        first_alpha + n <= alphas@.len(),
        first_expr + n <= exprs@.len(),
        products_fit(
            alphas@.subrange(first_alpha as int, first_alpha + n),
            exprs@.subrange(first_expr as int, first_expr + n),
            n as int,
        ),
    ensures
        r == weighted_sum(
            alphas@.subrange(first_alpha as int, first_alpha + n),
            exprs@.subrange(first_expr as int, first_expr + n),
            n as int,
        ),
{
    let ghost a = alphas@.subrange(first_alpha as int, first_alpha + n);
    let ghost e = exprs@.subrange(first_expr as int, first_expr + n);
    let (n_alphas, n_exprs): (usize, usize) = (alphas.len(), exprs.len());
    let mut sum = Expression::zero();
    let mut i: usize = 0;
    while i < n
        invariant
            i <= n,
            first_alpha + n <= n_alphas,
            first_expr + n <= n_exprs,
            n_alphas == alphas@.len(),
            n_exprs == exprs@.len(),
            a == alphas@.subrange(first_alpha as int, first_alpha + n),
            e == exprs@.subrange(first_expr as int, first_expr + n),
            products_fit(a, e, n as int),
            sum == weighted_sum(a, e, i as int),
        decreases n - i,
    {
        let alpha = alphas[first_alpha + i].clone();
        let expr = exprs[first_expr + i].clone();
        assert(a[i as int].mul_fits(e[i as int]));
        sum = add_product(sum, alpha, expr);
        i = i + 1;
    }
    sum
}

fn product_of(eq: &Expression, sum: Expression) -> (r: Expression)
    requires
        eq.mul_fits(sum),
    ensures
        r == eq.spec_mul(sum),
{
    eq.clone() * sum
}

/// The sums of the two rotated sides and of the targets of the rotations.
fn rotation_sums(layer: &Layer, alpha_pows: &[Expression]) -> (r: (
    Expression,
    Expression,
    Expression,
))
    requires
        can_extend(*layer, alpha_pows@),
        layer.rotation_exprs.eqs is Some,
    ensures
        r.0 == rotation_sum(*layer, alpha_pows@, 0),
        r.1 == rotation_sum(*layer, alpha_pows@, 1),
        r.2 == rotation_sum(*layer, alpha_pows@, 2),
{
    let ghost alphas = alpha_pows@;
    let start: usize = layer.exprs.len();
    let m: usize = layer.rotation_exprs.pairs.len();
    let total: usize = alpha_pows.len();
    assert(start + 3 * m == total);
    let (sources, targets) = rotation_sides(&layer.rotation_exprs.pairs);
    proof {
        assert(sources@ == rotated_exprs(*layer));
        assert(targets@ == target_exprs(*layer));
        assert(sources@.subrange(0, m as int) =~= sources@);
        assert(targets@.subrange(0, m as int) =~= targets@);
        assert forall|i: int| 0 <= i < m implies (#[trigger] sources@[i]) is WitIn
            && targets@[i] is WitIn by {
            assert(layer.rotation_exprs.pairs@[i].0 is WitIn);
        }
        lemma_column_fits(alphas, sources@);
        lemma_column_fits(alphas, targets@);
        assert(0 * m == 0 && 1 * m == m && (2 + 1) * m == 3 * m && (1 + 1) * m == 2 * m);
    }
    let left_sum = sum_with_coefficients(alpha_pows, start, &sources, 0, m);
    let right_sum = sum_with_coefficients(alpha_pows, start + m, &sources, 0, m);
    let target_sum = sum_with_coefficients(alpha_pows, start + 2 * m, &targets, 0, m);
    (left_sum, right_sum, target_sum)
}

/// Combines the outputs of each group and the rotations of a layer with the powers of a challenge.
#[verifier::spinoff_prover]
#[verifier::rlimit(60)]
pub fn extend_exprs_with_rotation(layer: &Layer, alpha_pows: &[Expression]) -> (r: Vec<Expression>)
    requires
        can_extend(*layer, alpha_pows@),
    ensures
        r@ == extended_exprs(*layer, alpha_pows@),
{
    let ghost alphas = alpha_pows@;
    let ghost groups = Seq::new(
        layer.expr_evals@.len(),
        |g: int| group_expr(*layer, alphas, g),
    );
    let mut r: Vec<Expression> = Vec::with_capacity(layer.expr_evals.len());
    let mut start: usize = 0;
    let mut g: usize = 0;
    assert(layer.expr_evals@.take(0) =~= Seq::<OutputGroup>::empty());
    assert(layer.exprs@.len() <= alphas.len());
    let n_exprs: usize = layer.exprs.len();
    while g < layer.expr_evals.len()
        invariant
            g <= layer.expr_evals@.len(),
            alphas == alpha_pows@,
            n_exprs == layer.exprs@.len(),
            n_exprs <= alphas.len(),
            can_extend(*layer, alphas),
            groups == Seq::new(
                layer.expr_evals@.len(),
                |g: int| group_expr(*layer, alphas, g),
            ),
            start == all_evals(layer.expr_evals@.take(g as int)).len(),
            r@ == groups.take(g as int),
        decreases layer.expr_evals@.len() - g,
    {
        proof {
            lemma_all_evals(layer.expr_evals@, g as int);
        }
        let n: usize = layer.expr_evals[g].evals.len();
        proof {
            let (a, e) = (
                alphas.subrange(start as int, start + n),
                layer.exprs@.subrange(start as int, start + n),
            );
            assert forall|i: int| 0 <= i < n implies (#[trigger] a[i]).mul_fits(e[i]) by {
                assert(alphas[start + i].mul_fits(layer.exprs@[start + i]));
            }
        }
        let sum = sum_with_coefficients(alpha_pows, start, &layer.exprs, start, n);
        assert(sum == group_sum(*layer, alphas, g as int));
        assert(layer.expr_evals@[g as int].eq is Some);
        if let Some(eq) = &layer.expr_evals[g].eq {
            r.push(product_of(eq, sum));
        }
        assert(r@ =~= groups.take(g + 1));
        start = start + n;
        g = g + 1;
    }
    assert(layer.expr_evals@.take(g as int) =~= layer.expr_evals@);
    assert(groups.take(g as int) =~= groups);
    if let Some((left, right, origin)) = &layer.rotation_exprs.eqs {
        let (left_sum, right_sum, target_sum) = rotation_sums(layer, alpha_pows);
        r.push(product_of(left, left_sum));
        r.push(product_of(right, right_sum));
        r.push(product_of(origin, target_sum));
    }
    assert(r@ =~= extended_exprs(*layer, alphas));
    r
}

/// A product with a column can always be formed.
proof fn lemma_column_fits(alphas: Seq<Expression>, exprs: Seq<Expression>)
    requires
        forall|i: int| 0 <= i < exprs.len() ==> (#[trigger] exprs[i]) is WitIn,
    ensures
        forall|from: int, m: int|
            0 <= from && from + m <= alphas.len() && 0 <= m <= exprs.len()
                ==> #[trigger] products_fit(
                alphas.subrange(from, from + m),
                exprs.subrange(0, m),
                m,
            ),
{
    assert forall|from: int, m: int|
        0 <= from && from + m <= alphas.len() && 0 <= m <= exprs.len()
            implies #[trigger] products_fit(
        alphas.subrange(from, from + m),
        exprs.subrange(0, m),
        m,
    ) by {
        let (a, e) = (alphas.subrange(from, from + m), exprs.subrange(0, m));
        assert forall|i: int| 0 <= i < m implies (#[trigger] a[i]).mul_fits(e[i]) by {
            assert(e[i] == exprs[i]);
        }
    }
}

/// The two sides of the rotations.
fn rotation_sides(pairs: &Vec<(Expression, Expression)>) -> (r: (Vec<Expression>, Vec<Expression>))
    ensures
        r.0@ == pairs@.map_values(|p: (Expression, Expression)| p.0),
        r.1@ == pairs@.map_values(|p: (Expression, Expression)| p.1),
{
    let mut a: Vec<Expression> = Vec::with_capacity(pairs.len());
    let mut b: Vec<Expression> = Vec::with_capacity(pairs.len());
    let mut i: usize = 0;
    while i < pairs.len()
        invariant
            i <= pairs@.len(),
            a@ == pairs@.take(i as int).map_values(|p: (Expression, Expression)| p.0),
            b@ == pairs@.take(i as int).map_values(|p: (Expression, Expression)| p.1),
        decreases pairs@.len() - i,
    {
        a.push(pairs[i].0.clone());
        b.push(pairs[i].1.clone());
        i = i + 1;
        assert(a@ =~= pairs@.take(i as int).map_values(|p: (Expression, Expression)| p.0));
        assert(b@ =~= pairs@.take(i as int).map_values(|p: (Expression, Expression)| p.1));
    }
    assert(pairs@.take(i as int) =~= pairs@);
    (a, b)
}

} // verus!
