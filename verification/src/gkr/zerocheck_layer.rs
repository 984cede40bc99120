//! Layers whose outputs are proved by a batched zero check, with rotation arguments.
//!
//! A rotation argument says that one column is another one rotated along the cycle:
//!
//! `0 = sum_b sel(b) * sum_i alpha^i * (rotated_i(b) - target_i(b))`.
//!
//! At the point `p` that the sum check ends in, the rotated column is opened through its source
//! at two points: `rotated_i(p) = (1 - p_4) * source_i(left) + p_4 * source_i(right)`.
use vstd::arithmetic::power2::*;
use vstd::prelude::*;

use crate::either::Either;
use crate::expression::eval::{eval_by_expr, leaves_in, lemma_same_leaves, lemma_same_values};
use crate::expression::fold::{lemma_sum_exprs, sum_exprs, values_sum};
use crate::expression::laws::{lemma_eval_add, lemma_eval_mul, lemma_eval_sub};
use crate::expression::{base_const, Env, Expression, WitnessId};
use crate::field::{
    e_add, e_mul, e_one, e_sub, e_zero, ge, group_field, Ext, GoldilocksExt2,
};
use crate::gkr::booleanhypercube::BooleanHypercube;
use crate::gkr::rotation_laws::{
    eq_table, left_point, lemma_eq_poly_symmetric, lemma_eq_table_eval, lemma_rotated_eval,
    lemma_selector_eval, right_point, rotated, selector, selector_value,
};
use crate::gkr::utils::{
    all_evals, can_extend, extend_exprs_with_rotation, extended_exprs, group_expr,
    lemma_all_evals, lemma_weighted_sum_eval, rotated_exprs, rotation_next_base_mle,
    rotation_selector, rotation_selector_eval, rotation_sum, target_exprs, weighted_sum,
};
use crate::gkr::Layer;
use crate::mle::{ext_seq, lemma_mle_view_valid, MultilinearExtension, Point};
use crate::multilinear::{
    all_valid, e_sum, lemma_fix_all_len, lemma_fix_all_valid, lemma_lerp_weights, lerp, mle_eval,
};
use crate::ring::lemma_e_mul_comm;
use crate::util::is_pow2;
use crate::virtual_poly::{build_eq_x_r, build_eq_x_r_vec, eq_eval, eq_poly};

verus! {

broadcast use group_field;

/// Openings of a rotation: of the source at two points, and of the target.
pub const ROTATION_OPENING_COUNT: usize = 3;

/// The points at which a rotation is opened.
#[derive(Debug)]
pub struct RotationPoints {
    pub left: Point,
    pub right: Point,
    pub origin: Point,
}

/// What a verified rotation argument claims of the columns.
#[derive(Debug)]
pub struct RotationClaims {
    pub left_evals: Vec<GoldilocksExt2>,
    pub right_evals: Vec<GoldilocksExt2>,
    pub target_evals: Vec<GoldilocksExt2>,
    pub rotation_points: RotationPoints,
}

/// What a verified layer claims of its inputs.
#[derive(Debug)]
pub struct LayerClaims {
    pub in_point: Point,
    pub evals: Vec<GoldilocksExt2>,
}

/// Why a sum check is rejected.
#[derive(Debug)]
pub enum VerifierError {
    /// The expected evaluation and the one that was computed
    ClaimNotMatch(GoldilocksExt2, GoldilocksExt2),
}

/// Why a proof is rejected.
#[derive(Debug)]
pub enum BackendError {
    LayerVerificationFailed(String, VerifierError),
}

/// The points are those at which a rotation with the given origin is opened.
pub open spec fn are_rotation_points(points: RotationPoints, origin: Seq<GoldilocksExt2>) -> bool {
    &&& points.origin@ == origin
    &&& ext_seq(points.left@) == left_point(ext_seq(origin))
    &&& ext_seq(points.right@) == right_point(ext_seq(origin))
}

/// The rotations are between columns of the given witness.
pub open spec fn rotates_columns(
    pairs: Seq<(Expression, Expression)>,
    wits: Seq<MultilinearExtension>,
    num_vars: nat,
) -> bool {
    &&& wits.len() > 0
    &&& wits[0].wf()
    &&& wits[0].num_vars == num_vars
    &&& forall|i: int|
        0 <= i < pairs.len() ==> {
            let pair = #[trigger] pairs[i];
            &&& pair.0 is WitIn
            &&& pair.1 is WitIn
            &&& column_of(pair.0) < wits.len()
            &&& column_of(pair.1) < wits.len()
            &&& wits[column_of(pair.0)].wf()
            &&& wits[column_of(pair.0)].evaluations is Base
            &&& wits[column_of(pair.0)].num_vars == num_vars
            &&& wits[column_of(pair.1)].wf()
        }
}

/// The column of a witness expression.
pub open spec fn column_of(e: Expression) -> int {
    match e {
        Expression::WitIn(id) => id as int,
        _ => 0,
    }
}

/// The tables of a rotation argument: for each rotation the rotated column and its target, then
/// the selector.
pub open spec fn are_rotation_tables(
    tables: Seq<MultilinearExtension>,
    pairs: Seq<(Expression, Expression)>,
    wits: Seq<MultilinearExtension>,
    rt: Seq<Ext>,
    subgroup: int,
) -> bool {
    &&& tables.len() == 2 * pairs.len() + 1
    &&& forall|i: int|
        0 <= i < pairs.len() ==> {
            let pair = #[trigger] pairs[i];
            &&& tables[2 * i]@ == rotated(wits[column_of(pair.0)]@)
            &&& tables[2 * i].num_vars == wits[column_of(pair.0)].num_vars
            &&& tables[2 * i].evaluations is Base
            &&& tables[2 * i + 1]@ == wits[column_of(pair.1)]@
            &&& tables[2 * i + 1].num_vars == wits[column_of(pair.1)].num_vars
            &&& tables[2 * i + 1].is_ext() == wits[column_of(pair.1)].is_ext()
        }
    &&& tables[2 * pairs.len() as int]@ == selector(rt, subgroup)
    &&& tables[2 * pairs.len() as int].num_vars == rt.len()
    &&& tables[2 * pairs.len() as int].is_ext()
}

fn column_index(e: &Expression) -> (r: usize)
    requires
        e is WitIn,
    ensures
        r == column_of(*e),
{
    match e {
        Expression::WitIn(id) => *id as usize,
        _ => vstd::pervasive::unreached(),
    }
}

/// The tables that the rotation argument of a layer runs on, for the output point `rt`.
pub fn rotation_tables<'a>(
    rotation_exprs: &Vec<(Expression, Expression)>,
    wits: &'a [MultilinearExtension<'a>],
    rt: &[GoldilocksExt2],
    rotation_cyclic_subgroup_size: usize,
    rotation_cyclic_group_log2: usize,
    num_threads: usize,
) -> (r: Vec<MultilinearExtension<'a>>)
    requires
        rotation_cyclic_group_log2 == 5,
        rotation_cyclic_subgroup_size <= 32,
        is_pow2(num_threads as int),
        rt@.len() >= 5,
        rotates_columns(rotation_exprs@, wits@, rt@.len()),
        2 * rotation_exprs@.len() < usize::MAX,
    ensures
        are_rotation_tables(
            r@,
            rotation_exprs@,
            wits@,
            ext_seq(rt@),
            rotation_cyclic_subgroup_size as int,
        ),
{
    let bh = BooleanHypercube::new(rotation_cyclic_group_log2);
    let m: usize = rotation_exprs.len();
    let total: usize = wits[0].evaluations.len();
    let ghost pairs = rotation_exprs@;
    proof {
        lemma2_to64();
        lemma_pow2_adds(5, (rt@.len() - 5) as nat);
        assert(total == 32 * pow2((rt@.len() - 5) as nat));
    }
    let mut r: Vec<MultilinearExtension<'a>> = Vec::new();
    let mut i: usize = 0;
    while i < m
        invariant
            i <= m,
            m == pairs.len(),
            pairs == rotation_exprs@,
            bh.wf(),
            rotation_cyclic_group_log2 == 5,
            rt@.len() >= 5,
            rotates_columns(pairs, wits@, rt@.len()),
            r@.len() == 2 * i,
            forall|k: int|
                0 <= k < i ==> {
                    let pair = #[trigger] pairs[k];
                    &&& r@[2 * k]@ == rotated(wits@[column_of(pair.0)]@)
                    &&& r@[2 * k].num_vars == wits@[column_of(pair.0)].num_vars
                    &&& r@[2 * k].evaluations is Base
                    &&& r@[2 * k + 1]@ == wits@[column_of(pair.1)]@
                    &&& r@[2 * k + 1].num_vars == wits@[column_of(pair.1)].num_vars
                    &&& r@[2 * k + 1].is_ext() == wits@[column_of(pair.1)].is_ext()
                },
        decreases m - i,
    {
        let ghost before = r@;
        let source: usize = column_index(&rotation_exprs[i].0);
        let target: usize = column_index(&rotation_exprs[i].1);
        let rotated_mle = rotation_next_base_mle(&bh, &wits[source], rotation_cyclic_group_log2);
        proof {
            lemma_pow2_pos(wits@[target as int].num_vars as nat);
        }
        r.push(rotated_mle);
        r.push(wits[target].as_view());
        proof {
            assert forall|k: int| 0 <= k < i + 1 implies ({
                let pair = #[trigger] pairs[k];
                &&& r@[2 * k]@ == rotated(wits@[column_of(pair.0)]@)
                &&& r@[2 * k].num_vars == wits@[column_of(pair.0)].num_vars
                &&& r@[2 * k].evaluations is Base
                &&& r@[2 * k + 1]@ == wits@[column_of(pair.1)]@
                &&& r@[2 * k + 1].num_vars == wits@[column_of(pair.1)].num_vars
                &&& r@[2 * k + 1].is_ext() == wits@[column_of(pair.1)].is_ext()
            }) by {
                if k < i {
                    assert(r@[2 * k] == before[2 * k]);
                    assert(r@[2 * k + 1] == before[2 * k + 1]);
                }
            }
        }
        i = i + 1;
    }
    let ghost before = r@;
    let eq = build_eq_x_r_vec(rt, num_threads);
    assert(is_pow2(total as int));
    let sel = rotation_selector(
        &bh,
        eq.as_slice(),
        rotation_cyclic_subgroup_size,
        rotation_cyclic_group_log2,
        total,
    );
    proof {
        assert(sel@ =~= selector(ext_seq(rt@), rotation_cyclic_subgroup_size as int));
        if sel.num_vars < rt@.len() {
            lemma_pow2_strictly_increases(sel.num_vars as nat, rt@.len());
        }
        if rt@.len() < sel.num_vars {
            lemma_pow2_strictly_increases(rt@.len(), sel.num_vars as nat);
        }
    }
    r.push(sel);
    proof {
        assert forall|k: int| 0 <= k < m implies ({
            let pair = #[trigger] pairs[k];
            &&& r@[2 * k]@ == rotated(wits@[column_of(pair.0)]@)
            &&& r@[2 * k].num_vars == wits@[column_of(pair.0)].num_vars
            &&& r@[2 * k].evaluations is Base
            &&& r@[2 * k + 1]@ == wits@[column_of(pair.1)]@
            &&& r@[2 * k + 1].num_vars == wits@[column_of(pair.1)].num_vars
            &&& r@[2 * k + 1].is_ext() == wits@[column_of(pair.1)].is_ext()
        }) by {
            assert(r@[2 * k] == before[2 * k]);
            assert(r@[2 * k + 1] == before[2 * k + 1]);
        }
    }
    r
}

/// `alpha * (rotated - target)` for the rotation with the given index.
pub open spec fn rotation_term(alpha: GoldilocksExt2, i: int) -> Expression {
    Expression::Constant(Either::Right(alpha)).spec_mul(
        Expression::WitIn((2 * i) as WitnessId).spec_sub(
            Expression::WitIn((2 * i + 1) as WitnessId),
        ),
    )
}

/// The sum over the first rotations.
pub open spec fn rotation_terms(alphas: Seq<GoldilocksExt2>, n: int) -> Expression
    decreases n,
{
    if n <= 0 {
        base_const(0)
    } else {
        rotation_terms(alphas, n - 1).spec_add(rotation_term(alphas[n - 1], n - 1))
    }
}

/// The expression that a rotation argument sums up, over the tables of the argument.
pub open spec fn rotation_check(alphas: Seq<GoldilocksExt2>) -> Expression {
    Expression::WitIn((2 * alphas.len()) as WitnessId).spec_mul(
        rotation_terms(alphas, alphas.len() as int),
    )
}

fn add_rotation_term(sum: Expression, alpha: GoldilocksExt2, i: u16) -> (r: Expression)
    requires
        2 * i + 1 <= u16::MAX,
    ensures
        r == sum.spec_add(rotation_term(alpha, i as int)),
{
    let difference = Expression::WitIn(2 * i) - Expression::WitIn(2 * i + 1);
    sum + Expression::Constant(Either::Right(alpha)) * difference
}

/// The expression that a rotation argument sums up.
pub fn rotation_expr(alpha_pows: &[GoldilocksExt2]) -> (r: Expression)
    requires
        2 * alpha_pows@.len() <= u16::MAX,
    ensures
        r == rotation_check(alpha_pows@),
{
    let mut sum = Expression::zero();
    let m: usize = alpha_pows.len();
    let mut i: usize = 0;
    while i < m
        invariant
            i <= m,
            m == alpha_pows@.len(),
            2 * m <= u16::MAX,
            sum == rotation_terms(alpha_pows@, i as int),
        decreases m - i,
    {
        sum = add_rotation_term(sum, alpha_pows[i], i as u16);
        i = i + 1;
    }
    select_sum((2 * m) as u16, sum)
}

fn select_sum(id: u16, sum: Expression) -> (r: Expression)
    ensures
        r == Expression::WitIn(id).spec_mul(sum),
{
    Expression::WitIn(id) * sum
}

proof fn lemma_rotation_terms_eval(alphas: Seq<GoldilocksExt2>, n: int, env: Env)
    requires
        0 <= n <= alphas.len(),
        2 * alphas.len() <= u16::MAX,
    ensures
        rotation_terms(alphas, n).eval(env) == e_sum(
            Seq::new(
                n as nat,
                |i: int| e_mul(alphas[i]@, e_sub(env.wit[2 * i]@, env.wit[2 * i + 1]@)),
            ),
        ),
    decreases n,
{
    let values = Seq::new(
        n as nat,
        |i: int| e_mul(alphas[i]@, e_sub(env.wit[2 * i]@, env.wit[2 * i + 1]@)),
    );
    if n > 0 {
        lemma_rotation_terms_eval(alphas, n - 1, env);
        let before = Seq::new(
            (n - 1) as nat,
            |i: int| e_mul(alphas[i]@, e_sub(env.wit[2 * i]@, env.wit[2 * i + 1]@)),
        );
        assert(values.drop_last() =~= before);
        let a = Expression::WitIn((2 * (n - 1)) as WitnessId);
        let b = Expression::WitIn((2 * (n - 1) + 1) as WitnessId);
        lemma_eval_sub(a, b, env);
        let c = Expression::Constant(Either::Right(alphas[n - 1]));
        assert(c.mul_fits(a.spec_sub(b)));
        lemma_eval_mul(c, a.spec_sub(b), env);
        lemma_eval_add(rotation_terms(alphas, n - 1), rotation_term(alphas[n - 1], n - 1), env);
    } else {
        assert(values =~= Seq::empty());
    }
}

/// The value of the expression of a rotation argument:
/// `sel * sum_i alpha_i * (rotated_i - target_i)`.
pub proof fn lemma_rotation_check_eval(alphas: Seq<GoldilocksExt2>, env: Env)
    requires
        2 * alphas.len() <= u16::MAX,
    ensures
        rotation_check(alphas).eval(env) == e_mul(
            env.wit[2 * alphas.len() as int]@,
            e_sum(
                Seq::new(
                    alphas.len(),
                    |i: int| e_mul(alphas[i]@, e_sub(env.wit[2 * i]@, env.wit[2 * i + 1]@)),
                ),
            ),
        ),
{
    lemma_rotation_terms_eval(alphas, alphas.len() as int, env);
    let id = Expression::WitIn((2 * alphas.len()) as WitnessId);
    lemma_eval_mul(id, rotation_terms(alphas, alphas.len() as int), env);
}

/// The openings of the rotations, for each the source at the left and at the right point and the
/// target, from the values that the sum check over the tables of the argument ends in.
pub fn rotation_openings(
    rotation_exprs: &Vec<(Expression, Expression)>,
    wits: &[MultilinearExtension],
    evals: &[GoldilocksExt2],
    origin_point: Point,
    rotation_cyclic_group_log2: usize,
) -> (r: (Vec<GoldilocksExt2>, RotationPoints))
    requires
        rotation_cyclic_group_log2 == 5,
        origin_point@.len() >= 5,
        origin_point@[4]@ != e_zero(),
        rotates_columns(rotation_exprs@, wits@, origin_point@.len()),
        2 * rotation_exprs@.len() <= evals@.len(),
        3 * rotation_exprs@.len() <= usize::MAX,
    ensures
        are_rotation_points(r.1, origin_point@),
        r.0@.len() == 3 * rotation_exprs@.len(),
        forall|i: int|
            0 <= i < rotation_exprs@.len() ==> {
                let source = wits@[column_of((#[trigger] rotation_exprs@[i]).0)]@;
                let p = ext_seq(origin_point@);
                let left = mle_eval(source, left_point(p));
                &&& r.0@[3 * i]@ == left
                &&& evals@[2 * i]@ == lerp(left, r.0@[3 * i + 1]@, p[4])
                &&& r.0@[3 * i + 2] == evals@[2 * i + 1]
                &&& evals@[2 * i]@ == mle_eval(rotated(source), p) ==> r.0@[3 * i + 1]@
                    == mle_eval(source, right_point(p))
            },
{
    let bh = BooleanHypercube::new(rotation_cyclic_group_log2);
    let (left, right) = bh.get_rotation_points(origin_point.as_slice());
    let m: usize = rotation_exprs.len();
    let n: usize = evals.len();
    let ghost pairs = rotation_exprs@;
    let ghost p = ext_seq(origin_point@);
    assert(ext_seq(left@).len() == p.len());
    let mut out: Vec<GoldilocksExt2> = Vec::with_capacity(3 * m);
    let mut i: usize = 0;
    while i < m
        invariant
            i <= m,
            m == pairs.len(),
            pairs == rotation_exprs@,
            p == ext_seq(origin_point@),
            bh.wf(),
            origin_point@.len() >= 5,
            origin_point@[4]@ != e_zero(),
            rotates_columns(pairs, wits@, origin_point@.len()),
            n == evals@.len(),
            2 * m <= n,
            left@.len() == p.len(),
            ext_seq(left@) == left_point(p),
            out@.len() == 3 * i,
            forall|k: int|
                0 <= k < i ==> is_opening(
                    out@,
                    evals@,
                    k,
                    wits@[column_of((#[trigger] pairs[k]).0)]@,
                    p,
                ),
        decreases m - i,
    {
        let ghost before = out@;
        let ghost pair = pairs[i as int];
        let source: usize = column_index(&rotation_exprs[i].0);
        let ghost s = wits@[source as int]@;
        let rotated_eval = evals[2 * i];
        let left_eval = wits[source].evaluate(left.as_slice()).unwrap();
        let right_eval = bh.get_rotation_right_eval_from_left(
            rotated_eval,
            left_eval,
            origin_point.as_slice(),
        );
        out.push(left_eval);
        out.push(right_eval);
        out.push(evals[2 * i + 1]);
        proof {
            assert(all_valid(s)) by {
                lemma_mle_view_valid(wits@[source as int]);
            }
            lemma_rotated_eval(s, p);
            let right_value = mle_eval(s, right_point(p));
            assert(right_value.valid()) by {
                lemma_value_valid(s, right_point(p));
            }
            assert(is_opening(out@, evals@, i as int, s, p));
            assert forall|k: int| 0 <= k < i + 1 implies is_opening(
                out@,
                evals@,
                k,
                wits@[column_of((#[trigger] pairs[k]).0)]@,
                p,
            ) by {
                if k < i {
                    assert(is_opening(before, evals@, k, wits@[column_of(pairs[k].0)]@, p));
                    assert(out@[3 * k] == before[3 * k]);
                    assert(out@[3 * k + 1] == before[3 * k + 1]);
                    assert(out@[3 * k + 2] == before[3 * k + 2]);
                }
            }
        }
        i = i + 1;
    }
    assert forall|i: int| 0 <= i < pairs.len() implies ({
        let source = wits@[column_of((#[trigger] pairs[i]).0)]@;
        let l = mle_eval(source, left_point(p));
        &&& out@[3 * i]@ == l
        &&& evals@[2 * i]@ == lerp(l, out@[3 * i + 1]@, p[4])
        &&& out@[3 * i + 2] == evals@[2 * i + 1]
        &&& evals@[2 * i]@ == mle_eval(rotated(source), p) ==> out@[3 * i + 1]@ == mle_eval(
            source,
            right_point(p),
        )
    }) by {
        assert(is_opening(out@, evals@, i, wits@[column_of(pairs[i].0)]@, p));
    }
    (out, RotationPoints { left, right, origin: origin_point })
}

/// What the openings of rotations add up to:
/// `sel * sum_i alpha_i * ((1 - p_4) * left_i + p_4 * right_i - target_i)`.
pub open spec fn rotation_claim(
    alphas: Seq<GoldilocksExt2>,
    evals: Seq<GoldilocksExt2>,
    p4: Ext,
    sel: Ext,
) -> Ext {
    e_mul(
        sel,
        e_sum(
            Seq::new(
                evals.len() / 3,
                |i: int|
                    e_mul(
                        alphas[i]@,
                        e_sub(
                            e_add(
                                e_mul(e_sub(e_one(), p4), evals[3 * i]@),
                                e_mul(p4, evals[3 * i + 1]@),
                            ),
                            evals[3 * i + 2]@,
                        ),
                    ),
            ),
        ),
    )
}

/// Every third entry, from the one with the given index on.
pub open spec fn every_third(evals: Seq<GoldilocksExt2>, from: int) -> Seq<GoldilocksExt2> {
    Seq::new(evals.len() / 3, |i: int| evals[3 * i + from])
}

/// Checks the openings of rotations against the value that the sum check expects.
pub fn check_rotation(
    evals: &[GoldilocksExt2],
    alpha_pows: &[GoldilocksExt2],
    origin_point: Point,
    expected_evaluation: GoldilocksExt2,
    rt: &[GoldilocksExt2],
    rotation_cyclic_subgroup_size: usize,
    rotation_cyclic_group_log2: usize,
) -> (r: Result<RotationClaims, BackendError>)
    requires
        rotation_cyclic_group_log2 == 5,
        rotation_cyclic_subgroup_size <= 32,
        alpha_pows@.len() == evals@.len() / 3,
        rt@.len() == origin_point@.len(),
        rt@.len() >= 5,
    ensures
        ({
            let sel = selector_value(
                ext_seq(rt@),
                ext_seq(origin_point@),
                rotation_cyclic_subgroup_size as int,
            );
            let claim = rotation_claim(alpha_pows@, evals@, origin_point@[4]@, sel);
            match r {
                Ok(claims) => {
                    &&& claim == expected_evaluation@
                    &&& claims.left_evals@ == every_third(evals@, 0)
                    &&& claims.right_evals@ == every_third(evals@, 1)
                    &&& claims.target_evals@ == every_third(evals@, 2)
                    &&& are_rotation_points(claims.rotation_points, origin_point@)
                },
                Err(
                    BackendError::LayerVerificationFailed(
                        name,
                        VerifierError::ClaimNotMatch(expected, got),
                    ),
                ) => {
                    &&& claim != expected_evaluation@
                    &&& name@ == "rotation verify failed"@
                    &&& expected == expected_evaluation
                    &&& got@ == claim
                },
            }
        }),
{
    let bh = BooleanHypercube::new(rotation_cyclic_group_log2);
    let selector_eval = rotation_selector_eval(
        &bh,
        rt,
        origin_point.as_slice(),
        rotation_cyclic_subgroup_size,
        rotation_cyclic_group_log2,
    );
    let total: usize = evals.len();
    let m: usize = total / 3;
    let p4 = origin_point[4];
    let rest = GoldilocksExt2::one() - p4;
    let mut left_evals: Vec<GoldilocksExt2> = Vec::with_capacity(m);
    let mut right_evals: Vec<GoldilocksExt2> = Vec::with_capacity(m);
    let mut target_evals: Vec<GoldilocksExt2> = Vec::with_capacity(m);
    let mut sum = GoldilocksExt2::zero();
    let ghost terms = Seq::new(
        evals@.len() / 3,
        |i: int|
            e_mul(
                alpha_pows@[i]@,
                e_sub(
                    e_add(
                        e_mul(e_sub(e_one(), p4@), evals@[3 * i]@),
                        e_mul(p4@, evals@[3 * i + 1]@),
                    ),
                    evals@[3 * i + 2]@,
                ),
            ),
    );
    assert(terms.take(0) =~= Seq::empty());
    assert(left_evals@ =~= every_third(evals@, 0).take(0));
    assert(right_evals@ =~= every_third(evals@, 1).take(0));
    assert(target_evals@ =~= every_third(evals@, 2).take(0));
    let mut i: usize = 0;
    while i < m
        invariant
            i <= m,
            m == total / 3,
            total == evals@.len(),
            alpha_pows@.len() == m,
            rest@ == e_sub(e_one(), p4@),
            terms == Seq::new(
                evals@.len() / 3,
                |i: int|
                    e_mul(
                        alpha_pows@[i]@,
                        e_sub(
                            e_add(
                                e_mul(e_sub(e_one(), p4@), evals@[3 * i]@),
                                e_mul(p4@, evals@[3 * i + 1]@),
                            ),
                            evals@[3 * i + 2]@,
                        ),
                    ),
            ),
            sum@ == e_sum(terms.take(i as int)),
            left_evals@ == every_third(evals@, 0).take(i as int),
            right_evals@ == every_third(evals@, 1).take(i as int),
            target_evals@ == every_third(evals@, 2).take(i as int),
        decreases m - i,
    {
        let left = evals[3 * i];
        let right = evals[3 * i + 1];
        let target = evals[3 * i + 2];
        left_evals.push(left);
        right_evals.push(right);
        target_evals.push(target);
        sum = sum + alpha_pows[i] * (rest * left + p4 * right - target);
        proof {
            assert(terms.take(i + 1).drop_last() =~= terms.take(i as int));
            assert(left_evals@ =~= every_third(evals@, 0).take(i + 1));
            assert(right_evals@ =~= every_third(evals@, 1).take(i + 1));
            assert(target_evals@ =~= every_third(evals@, 2).take(i + 1));
        }
        i = i + 1;
    }
    proof {
        assert(terms.take(m as int) =~= terms);
        assert(every_third(evals@, 0).take(m as int) =~= every_third(evals@, 0));
        assert(every_third(evals@, 1).take(m as int) =~= every_third(evals@, 1));
        assert(every_third(evals@, 2).take(m as int) =~= every_third(evals@, 2));
    }
    let got_claim = selector_eval * sum;
    if got_claim != expected_evaluation {
        return Err(
            BackendError::LayerVerificationFailed(
                "rotation verify failed".to_owned(),
                VerifierError::ClaimNotMatch(expected_evaluation, got_claim),
            ),
        );
    }
    let (left, right) = bh.get_rotation_points(origin_point.as_slice());
    Ok(
        RotationClaims {
            left_evals,
            right_evals,
            target_evals,
            rotation_points: RotationPoints { left, right, origin: origin_point },
        },
    )
}

/// What the openings of the columns themselves add up to is what the sum check over their tables
/// ends in: openings of true rotations are accepted.
pub proof fn lemma_rotation_claim(
    alphas: Seq<GoldilocksExt2>,
    sources: Seq<Seq<Ext>>,
    targets: Seq<Seq<Ext>>,
    rt: Seq<Ext>,
    p: Seq<Ext>,
    subgroup: int,
    evals: Seq<GoldilocksExt2>,
    env: Env,
)
    requires
        p.len() >= 5,
        rt.len() == p.len(),
        all_valid(p),
        all_valid(rt),
        0 <= subgroup <= 31,
        2 * alphas.len() <= u16::MAX,
        sources.len() == alphas.len(),
        targets.len() == alphas.len(),
        evals.len() == 3 * alphas.len(),
        forall|i: int|
            0 <= i < sources.len() ==> (#[trigger] sources[i]).len() == pow2(p.len())
                && all_valid(sources[i]),
        forall|i: int|
            0 <= i < sources.len() ==> {
                &&& evals[3 * i]@ == mle_eval(#[trigger] sources[i], left_point(p))
                &&& evals[3 * i + 1]@ == mle_eval(sources[i], right_point(p))
                &&& evals[3 * i + 2]@ == mle_eval(targets[i], p)
                &&& env.wit[2 * i]@ == mle_eval(rotated(sources[i]), p)
                &&& env.wit[2 * i + 1]@ == mle_eval(targets[i], p)
            },
        env.wit[2 * alphas.len() as int]@ == mle_eval(selector(rt, subgroup), p),
    ensures
        rotation_claim(alphas, evals, p[4], selector_value(rt, p, subgroup)) == rotation_check(
            alphas,
        ).eval(env),
{
    lemma_rotation_check_eval(alphas, env);
    lemma_selector_eval(rt, p, subgroup);
    let got = Seq::new(
        evals.len() / 3,
        |i: int|
            e_mul(
                alphas[i]@,
                e_sub(
                    e_add(
                        e_mul(e_sub(e_one(), p[4]), evals[3 * i]@),
                        e_mul(p[4], evals[3 * i + 1]@),
                    ),
                    evals[3 * i + 2]@,
                ),
            ),
    );
    let expected = Seq::new(
        alphas.len(),
        |i: int| e_mul(alphas[i]@, e_sub(env.wit[2 * i]@, env.wit[2 * i + 1]@)),
    );
    assert forall|i: int| 0 <= i < alphas.len() implies #[trigger] got[i] == expected[i] by {
        let s = sources[i];
        lemma_rotated_eval(s, p);
        lemma_value_valid(s, left_point(p));
        let (l, r) = (mle_eval(s, left_point(p)), mle_eval(s, right_point(p)));
        lemma_lerp_weights(l, r, p[4]);
        lemma_e_mul_comm(l, e_sub(e_one(), p[4]));
        lemma_e_mul_comm(r, p[4]);
    }
    assert(got =~= expected);
}

spec fn is_opening(
    out: Seq<GoldilocksExt2>,
    evals: Seq<GoldilocksExt2>,
    i: int,
    source: Seq<Ext>,
    p: Seq<Ext>,
) -> bool {
    let left = mle_eval(source, left_point(p));
    &&& out[3 * i]@ == left
    &&& evals[2 * i]@ == lerp(left, out[3 * i + 1]@, p[4])
    &&& out[3 * i + 2] == evals[2 * i + 1]
    &&& evals[2 * i]@ == mle_eval(rotated(source), p) ==> out[3 * i + 1]@ == mle_eval(
        source,
        right_point(p),
    )
}

proof fn lemma_value_valid(s: Seq<Ext>, p: Seq<Ext>)
    requires
        all_valid(s),
        s.len() == pow2(p.len()),
    ensures
        mle_eval(s, p).valid(),
{
    lemma_fix_all_valid(s, p);
    lemma_fix_all_len(s, p, p.len());
    lemma2_to64();
}

/// The constants of coefficients.
pub open spec fn const_exprs(alphas: Seq<GoldilocksExt2>) -> Seq<Expression> {
    Seq::new(alphas.len(), |i: int| Expression::Constant(Either::Right(alphas[i])))
}

/// The equality polynomials and the rotated columns of a layer are witness columns.
pub open spec fn is_zerocheck_layer(layer: Layer) -> bool {
    &&& all_evals(layer.expr_evals@).len() == layer.exprs@.len()
    &&& layer.exprs@.len() + 3 * layer.rotation_exprs.pairs@.len() <= usize::MAX
    &&& forall|g: int|
        0 <= g < layer.expr_evals@.len() ==> (#[trigger] layer.expr_evals@[g]).eq is Some
            && layer.expr_evals@[g].eq->0 is WitIn
    &&& match layer.rotation_exprs.eqs {
        None => true,
        Some((left, right, origin)) => {
            &&& left is WitIn
            &&& right is WitIn
            &&& origin is WitIn
            &&& forall|i: int|
                0 <= i < layer.rotation_exprs.pairs@.len() ==> (
                #[trigger] layer.rotation_exprs.pairs@[i]).0 is WitIn
                    && layer.rotation_exprs.pairs@[i].1 is WitIn
        },
    }
}

/// The number of coefficients that the zero check of a layer takes: one for each output, and one
/// for each opening of a rotation.
pub open spec fn spec_num_alphas(layer: Layer) -> nat {
    layer.exprs@.len() + ROTATION_OPENING_COUNT as nat * layer.rotation_exprs.pairs@.len()
}

/// The number of coefficients that the zero check of a layer takes.
pub fn num_alphas(layer: &Layer) -> (r: usize)
    requires
        is_zerocheck_layer(*layer),
    ensures
        r == spec_num_alphas(*layer),
{
    layer.exprs.len() + layer.rotation_exprs.pairs.len() * ROTATION_OPENING_COUNT
}

/// The expression that the zero check of a layer sums up.
pub open spec fn zero_check(layer: Layer, alphas: Seq<GoldilocksExt2>) -> Expression {
    sum_exprs(extended_exprs(layer, const_exprs(alphas)))
}

/// A constant can be multiplied with anything.
proof fn lemma_constant_fits(c: Expression, e: Expression)
    requires
        c is Constant,
    ensures
        c.mul_fits(e),
        e.mul_fits(c),
    decreases e.size(),
{
    match e {
        Expression::ScaledSum(_, a, b) => {
            lemma_constant_fits(c, *a);
            lemma_constant_fits(c, *b);
        },
        _ => {},
    }
}

proof fn lemma_can_extend(layer: Layer, alphas: Seq<GoldilocksExt2>)
    requires
        is_zerocheck_layer(layer),
        alphas.len() == spec_num_alphas(layer),
    ensures
        can_extend(layer, const_exprs(alphas)),
{
    let consts = const_exprs(alphas);
    assert forall|i: int| 0 <= i < layer.exprs@.len() implies (#[trigger] consts[i]).mul_fits(
        layer.exprs@[i],
    ) by {
        lemma_constant_fits(consts[i], layer.exprs@[i]);
    }
}

/// The expression that the zero check of a layer sums up: for each group of outputs the sum of the
/// outputs with their coefficients times the equality polynomial of the group, and the same for the
/// openings of the rotations.
pub fn zero_check_expr(layer: &Layer, alpha_pows: &[GoldilocksExt2]) -> (r: Expression)
    requires
        is_zerocheck_layer(*layer),
        alpha_pows@.len() == spec_num_alphas(*layer),
    ensures
        r == zero_check(*layer, alpha_pows@),
{
    let mut consts: Vec<Expression> = Vec::with_capacity(alpha_pows.len());
    let mut i: usize = 0;
    while i < alpha_pows.len()
        invariant
            i <= alpha_pows@.len(),
            consts@ == const_exprs(alpha_pows@).take(i as int),
        decreases alpha_pows@.len() - i,
    {
        consts.push(Expression::Constant(Either::Right(alpha_pows[i])));
        i = i + 1;
        assert(consts@ =~= const_exprs(alpha_pows@).take(i as int));
    }
    proof {
        assert(consts@ =~= const_exprs(alpha_pows@));
        lemma_can_extend(*layer, alpha_pows@);
    }
    let exprs = extend_exprs_with_rotation(layer, consts.as_slice());
    Expression::sum(exprs.as_slice())
}

/// The points of the equality polynomials of a layer: those of the outputs, then those of the
/// rotations.
pub open spec fn eq_points(out_points: Seq<Point>, rotation: Option<RotationPoints>) -> Seq<
    Seq<Ext>,
> {
    let out = Seq::new(out_points.len(), |i: int| ext_seq(out_points[i]@));
    match rotation {
        None => out,
        Some(points) => out + seq![
            ext_seq(points.left@),
            ext_seq(points.right@),
            ext_seq(points.origin@),
        ],
    }
}

/// Tables of `2^n` entries can be built for points of length `n`.
pub open spec fn fits_tables(point: Point) -> bool {
    pow2(point@.len()) <= usize::MAX
}

fn push_eq_table(tables: &mut Vec<MultilinearExtension<'_>>, point: &Point, num_threads: usize)
    requires
        fits_tables(*point),
        is_pow2(num_threads as int),
    ensures
        final(tables)@.len() == old(tables)@.len() + 1,
        final(tables)@.drop_last() == old(tables)@,
        final(tables)@.last()@ == eq_table(ext_seq(point@)),
        final(tables)@.last().num_vars == point@.len(),
        final(tables)@.last().is_ext(),
{
    let eq = build_eq_x_r(point.as_slice(), num_threads);
    assert(eq@ =~= eq_table(ext_seq(point@)));
    let ghost before = tables@;
    tables.push(eq);
    assert(tables@.drop_last() =~= before);
}

/// The tables that the zero check of a layer runs on: the witnesses, then the equality polynomials
/// of the output points and of the points of the rotations.
pub fn layer_tables<'a>(
    layer: &Layer,
    wits: &'a [MultilinearExtension<'a>],
    out_points: &[Point],
    rotation: &Option<RotationPoints>,
    num_threads: usize,
) -> (r: Vec<MultilinearExtension<'a>>)
    requires
        layer.expr_evals@.len() == out_points@.len(),
        is_pow2(num_threads as int),
        forall|i: int| 0 <= i < wits@.len() ==> (#[trigger] wits@[i])@.len() > 0,
        forall|i: int| 0 <= i < out_points@.len() ==> fits_tables(#[trigger] out_points@[i]),
        rotation is Some ==> fits_tables(rotation->0.left) && fits_tables(rotation->0.right)
            && fits_tables(rotation->0.origin),
    ensures
        ({
            let points = eq_points(out_points@, *rotation);
            &&& r@.len() == wits@.len() + points.len()
            &&& forall|i: int|
                0 <= i < wits@.len() ==> (#[trigger] r@[i])@ == wits@[i]@ && r@[i].num_vars
                    == wits@[i].num_vars && r@[i].is_ext() == wits@[i].is_ext()
            &&& forall|j: int|
                0 <= j < points.len() ==> r@[wits@.len() + j]@ == eq_table(#[trigger] points[j])
                    && r@[wits@.len() + j].num_vars == points[j].len()
                    && r@[wits@.len() + j].is_ext()
        }),
{
    let n: usize = wits.len();
    let mut r: Vec<MultilinearExtension<'a>> = Vec::with_capacity(n);
    let ghost points = eq_points(out_points@, *rotation);
    let mut i: usize = 0;
    while i < n
        invariant
            i <= n,
            n == wits@.len(),
            r@.len() == i,
            forall|i: int| 0 <= i < wits@.len() ==> (#[trigger] wits@[i])@.len() > 0,
            forall|k: int|
                0 <= k < i ==> (#[trigger] r@[k])@ == wits@[k]@ && r@[k].num_vars
                    == wits@[k].num_vars && r@[k].is_ext() == wits@[k].is_ext(),
        decreases n - i,
    {
        assert(wits@[i as int]@.len() > 0);
        r.push(wits[i].as_view());
        i = i + 1;
    }
    let mut j: usize = 0;
    while j < out_points.len()
        invariant
            j <= out_points@.len(),
            n == wits@.len(),
            r@.len() == n + j,
            is_pow2(num_threads as int),
            points == eq_points(out_points@, *rotation),
            forall|i: int| 0 <= i < out_points@.len() ==> fits_tables(#[trigger] out_points@[i]),
            forall|k: int|
                0 <= k < n ==> (#[trigger] r@[k])@ == wits@[k]@ && r@[k].num_vars
                    == wits@[k].num_vars && r@[k].is_ext() == wits@[k].is_ext(),
            forall|k: int|
                0 <= k < j ==> r@[n + k]@ == eq_table(#[trigger] points[k]) && r@[n + k].num_vars
                    == points[k].len() && r@[n + k].is_ext(),
        decreases out_points@.len() - j,
    {
        let ghost before = r@;
        push_eq_table(&mut r, &out_points[j], num_threads);
        proof {
            assert(points[j as int] == ext_seq(out_points@[j as int]@));
            lemma_kept(before, r@);
            assert forall|k: int| 0 <= k < j + 1 implies r@[n + k]@ == eq_table(
                #[trigger] points[k],
            ) && r@[n + k].num_vars == points[k].len() && r@[n + k].is_ext() by {
                if k < j {
                    assert(r@[n + k] == before[n + k]);
                }
            }
        }
        j = j + 1;
    }
    match rotation {
        None => {},
        Some(rotation_points) => {
            let ghost b0 = r@;
            push_eq_table(&mut r, &rotation_points.left, num_threads);
            let ghost b1 = r@;
            push_eq_table(&mut r, &rotation_points.right, num_threads);
            let ghost b2 = r@;
            push_eq_table(&mut r, &rotation_points.origin, num_threads);
            proof {
                lemma_kept(b0, b1);
                lemma_kept(b1, b2);
                lemma_kept(b2, r@);
                let m = out_points@.len() as int;
                assert(points[m] == ext_seq(rotation_points.left@));
                assert(points[m + 1] == ext_seq(rotation_points.right@));
                assert(points[m + 2] == ext_seq(rotation_points.origin@));
                assert forall|k: int| 0 <= k < points.len() implies r@[n + k]@ == eq_table(
                    #[trigger] points[k],
                ) && r@[n + k].num_vars == points[k].len() && r@[n + k].is_ext() by {
                    if k < m {
                        assert(b0[n + k]@ == eq_table(points[k]));
                    }
                }
            }
        },
    }
    r
}

proof fn lemma_kept(before: Seq<MultilinearExtension>, after: Seq<MultilinearExtension>)
    requires
        after.len() == before.len() + 1,
        after.drop_last() == before,
    ensures
        forall|k: int| 0 <= k < before.len() ==> #[trigger] after[k] == before[k],
{
    assert forall|k: int| 0 <= k < before.len() implies #[trigger] after[k] == before[k] by {
        assert(after.drop_last()[k] == after[k]);
    }
}

/// Claimed evaluations with the points at which they are claimed.
pub type EvalsAndPoint = (Vec<GoldilocksExt2>, Option<Point>);

/// All claimed evaluations.
pub open spec fn all_sigmas(claims: Seq<EvalsAndPoint>) -> Seq<GoldilocksExt2>
    decreases claims.len(),
{
    if claims.len() == 0 {
        Seq::empty()
    } else {
        all_sigmas(claims.drop_last()) + claims.last().0@
    }
}

/// The inner product of two sequences, as far as both go.
pub open spec fn inner_product(a: Seq<GoldilocksExt2>, b: Seq<GoldilocksExt2>) -> Ext {
    let n = if a.len() <= b.len() {
        a.len()
    } else {
        b.len()
    };
    e_sum(Seq::new(n, |i: int| e_mul(a[i]@, b[i]@)))
}

/// The sum that the zero check of a layer must have: the claimed evaluations with their
/// coefficients.
pub fn claimed_sum(alpha_pows: &[GoldilocksExt2], claims: &Vec<EvalsAndPoint>) -> (r: GoldilocksExt2)
    ensures
        r@ == inner_product(alpha_pows@, all_sigmas(claims@)),
{
    let n: usize = alpha_pows.len();
    let mut used: usize = 0;
    let mut sum = GoldilocksExt2::zero();
    let mut g: usize = 0;
    proof {
        assert(claims@.take(0) =~= Seq::<EvalsAndPoint>::empty());
        assert(Seq::new(0, |i: int| e_mul(alpha_pows@[i]@, all_sigmas(claims@)[i]@))
            =~= Seq::empty());
    }
    while g < claims.len()
        invariant
            g <= claims@.len(),
            n == alpha_pows@.len(),
            used <= n,
            used == (if all_sigmas(claims@.take(g as int)).len() <= n {
                all_sigmas(claims@.take(g as int)).len() as int
            } else {
                n as int
            }),
            sum@ == inner_product(alpha_pows@, all_sigmas(claims@.take(g as int))),
        decreases claims@.len() - g,
    {
        let ghost flat = all_sigmas(claims@.take(g as int));
        let evals = &claims[g].0;
        let ghost next_flat = flat + evals@;
        proof {
            assert(claims@.take(g + 1).drop_last() =~= claims@.take(g as int));
            assert(all_sigmas(claims@.take(g + 1)) == next_flat);
        }
        let ghost start = used as int;
        let mut i: usize = 0;
        proof {
            assert(Seq::new(used as nat, |k: int| e_mul(alpha_pows@[k]@, next_flat[k]@))
                =~= Seq::new(used as nat, |k: int| e_mul(alpha_pows@[k]@, flat[k]@)));
        }
        while i < evals.len() && used < n
            invariant
                i <= evals@.len(),
                n == alpha_pows@.len(),
                used <= n,
                used == start + i,
                start == n || start == flat.len(),
                next_flat == flat + evals@,
                sum@ == e_sum(
                    Seq::new(used as nat, |k: int| e_mul(alpha_pows@[k]@, next_flat[k]@)),
                ),
            decreases evals@.len() - i,
        {
            sum = sum + alpha_pows[used] * evals[i];
            proof {
                let s = Seq::new((used + 1) as nat, |k: int| e_mul(alpha_pows@[k]@, next_flat[k]@));
                assert(s.drop_last() =~= Seq::new(
                    used as nat,
                    |k: int| e_mul(alpha_pows@[k]@, next_flat[k]@),
                ));
                assert(next_flat[used as int] == evals@[i as int]);
            }
            used = used + 1;
            i = i + 1;
        }
        g = g + 1;
    }
    assert(claims@.take(g as int) =~= claims@);
    sum
}

/// The claims of a layer and those of its rotations.
pub fn with_rotation_claims(claims: Vec<EvalsAndPoint>, rotation: RotationClaims) -> (r: Vec<
    EvalsAndPoint,
>)
    ensures
        r@ == claims@ + seq![
            (rotation.left_evals, Some(rotation.rotation_points.left)),
            (rotation.right_evals, Some(rotation.rotation_points.right)),
            (rotation.target_evals, Some(rotation.rotation_points.origin)),
        ],
{
    let mut r = claims;
    let points = rotation.rotation_points;
    r.push((rotation.left_evals, Some(points.left)));
    r.push((rotation.right_evals, Some(points.right)));
    r.push((rotation.target_evals, Some(points.origin)));
    r
}

/// The evaluations with those of the equality polynomials of the first groups put in their places.
pub open spec fn set_eqs(
    evals: Seq<Ext>,
    layer: Layer,
    claims: Seq<EvalsAndPoint>,
    in_point: Seq<Ext>,
    n: int,
) -> Seq<Ext>
    decreases n,
{
    if n <= 0 {
        evals
    } else {
        set_eqs(evals, layer, claims, in_point, n - 1).update(
            column_of(layer.expr_evals@[n - 1].eq->0),
            eq_poly(ext_seq(claims[n - 1].1->0@), in_point),
        )
    }
}

/// The leaves of an expression over evaluations and challenges.
pub open spec fn claim_env(evals: Seq<GoldilocksExt2>, challenges: Seq<GoldilocksExt2>) -> Env {
    Env {
        fixed: Seq::empty(),
        wit: evals,
        structural: Seq::empty(),
        instance: Seq::empty(),
        challenges,
    }
}

/// What the zero check of a layer must end in for the given evaluations.
pub open spec fn layer_claim(
    layer: Layer,
    alphas: Seq<GoldilocksExt2>,
    evals: Seq<Ext>,
    challenges: Seq<GoldilocksExt2>,
) -> Ext {
    zero_check(layer, alphas).eval(claim_env(evals.map_values(|e: Ext| ge(e)), challenges))
}

/// Checks the evaluations of a layer's inputs against the value that the sum check expects. The
/// equality polynomials of the outputs are evaluated here.
pub fn check_layer(
    layer: &Layer,
    main_evals: Vec<GoldilocksExt2>,
    claims: &Vec<EvalsAndPoint>,
    alpha_pows: &[GoldilocksExt2],
    in_point: Point,
    expected_evaluation: GoldilocksExt2,
    challenges: &[GoldilocksExt2],
) -> (r: Result<LayerClaims, BackendError>)
    requires
        is_zerocheck_layer(*layer),
        alpha_pows@.len() == spec_num_alphas(*layer),
        claims@.len() >= layer.expr_evals@.len(),
        forall|g: int|
            0 <= g < layer.expr_evals@.len() ==> (#[trigger] claims@[g]).1 is Some
                && claims@[g].1->0@.len() == in_point@.len(),
        forall|g: int|
            0 <= g < layer.expr_evals@.len() ==> column_of(
                (#[trigger] layer.expr_evals@[g]).eq->0,
            ) < main_evals@.len(),
        leaves_in(zero_check(*layer, alpha_pows@), claim_env(main_evals@, challenges@)),
    ensures
        ({
            let evals = set_eqs(
                ext_seq(main_evals@),
                *layer,
                claims@,
                ext_seq(in_point@),
                layer.expr_evals@.len() as int,
            );
            let claim = layer_claim(*layer, alpha_pows@, evals, challenges@);
            match r {
                Ok(result) => {
                    &&& claim == expected_evaluation@
                    &&& result.in_point == in_point
                    &&& ext_seq(result.evals@) == evals
                },
                Err(
                    BackendError::LayerVerificationFailed(
                        name,
                        VerifierError::ClaimNotMatch(expected, got),
                    ),
                ) => {
                    &&& claim != expected_evaluation@
                    &&& name@ == layer.name@
                    &&& expected == expected_evaluation
                    &&& got@ == claim
                },
            }
        }),
{
    let mut evals = main_evals;
    let ghost n = layer.expr_evals@.len() as int;
    let mut g: usize = 0;
    while g < layer.expr_evals.len()
        invariant
            g <= layer.expr_evals@.len(),
            n == layer.expr_evals@.len(),
            is_zerocheck_layer(*layer),
            claims@.len() >= layer.expr_evals@.len(),
            forall|g: int|
                0 <= g < layer.expr_evals@.len() ==> (#[trigger] claims@[g]).1 is Some
                    && claims@[g].1->0@.len() == in_point@.len(),
            forall|g: int|
                0 <= g < layer.expr_evals@.len() ==> column_of(
                    (#[trigger] layer.expr_evals@[g]).eq->0,
                ) < main_evals@.len(),
            evals@.len() == main_evals@.len(),
            ext_seq(evals@) == set_eqs(
                ext_seq(main_evals@),
                *layer,
                claims@,
                ext_seq(in_point@),
                g as int,
            ),
        decreases layer.expr_evals@.len() - g,
    {
        let ghost before = evals@;
        assert(layer.expr_evals@[g as int].eq is Some);
        assert(claims@[g as int].1 is Some);
        match (&layer.expr_evals[g].eq, &claims[g].1) {
            (Some(eq), Some(point)) => {
                let id: usize = column_index(eq);
                let eval = eq_eval(point.as_slice(), in_point.as_slice());
                evals.set(id, eval);
                assert(ext_seq(evals@) =~= ext_seq(before).update(id as int, eval@));
            },
            _ => {},
        }
        g = g + 1;
    }
    let expr = zero_check_expr(layer, alpha_pows);
    proof {
        lemma_same_leaves(
            expr,
            claim_env(main_evals@, challenges@),
            claim_env(evals@, challenges@),
        );
    }
    let none: Vec<GoldilocksExt2> = Vec::new();
    assert(none@ =~= Seq::empty());
    let got_claim = eval_by_expr(evals.as_slice(), none.as_slice(), challenges, &expr);
    proof {
        let plain = ext_seq(evals@).map_values(|e: Ext| ge(e));
        assert forall|i: int| 0 <= i < evals@.len() implies (#[trigger] plain[i])@ == evals@[i]@ by {
            assert(ext_seq(evals@)[i] == evals@[i]@);
        }
        lemma_same_values(expr, claim_env(evals@, challenges@), claim_env(plain, challenges@));
    }
    if got_claim != expected_evaluation {
        return Err(
            BackendError::LayerVerificationFailed(
                layer.name.as_str().to_owned(),
                VerifierError::ClaimNotMatch(expected_evaluation, got_claim),
            ),
        );
    }
    Ok(LayerClaims { in_point, evals })
}

/// Evaluations in which the equality polynomials have their values stay as they are: a layer is
/// accepted exactly if the sum check ends in the value of its expression.
pub proof fn lemma_set_eqs_kept(
    evals: Seq<Ext>,
    layer: Layer,
    claims: Seq<EvalsAndPoint>,
    in_point: Seq<Ext>,
    n: int,
)
    requires
        0 <= n <= layer.expr_evals@.len(),
        forall|g: int|
            0 <= g < n ==> {
                let id = column_of((#[trigger] layer.expr_evals@[g]).eq->0);
                &&& 0 <= id < evals.len()
                &&& evals[id] == eq_poly(ext_seq(claims[g].1->0@), in_point)
            },
    ensures
        set_eqs(evals, layer, claims, in_point, n) == evals,
    decreases n,
{
    if n > 0 {
        lemma_set_eqs_kept(evals, layer, claims, in_point, n - 1);
        let id = column_of(layer.expr_evals@[n - 1].eq->0);
        assert(evals.update(id, evals[id]) =~= evals);
    }
}

/// Evaluations of the tables of a layer are claimed for the value of the layer's expression in them.
pub proof fn lemma_layer_claim(
    evals: Seq<Ext>,
    layer: Layer,
    claims: Seq<EvalsAndPoint>,
    in_point: Seq<Ext>,
    alphas: Seq<GoldilocksExt2>,
    challenges: Seq<GoldilocksExt2>,
)
    requires
        forall|g: int|
            0 <= g < layer.expr_evals@.len() ==> {
                let id = column_of((#[trigger] layer.expr_evals@[g]).eq->0);
                let point = ext_seq(claims[g].1->0@);
                &&& 0 <= id < evals.len()
                &&& point.len() == in_point.len()
                &&& evals[id] == mle_eval(eq_table(point), in_point)
            },
    ensures
        layer_claim(
            layer,
            alphas,
            set_eqs(evals, layer, claims, in_point, layer.expr_evals@.len() as int),
            challenges,
        ) == layer_claim(layer, alphas, evals, challenges),
{
    assert forall|g: int| 0 <= g < layer.expr_evals@.len() implies ({
        let id = column_of((#[trigger] layer.expr_evals@[g]).eq->0);
        &&& 0 <= id < evals.len()
        &&& evals[id] == eq_poly(ext_seq(claims[g].1->0@), in_point)
    }) by {
        let point = ext_seq(claims[g].1->0@);
        lemma_eq_table_eval(in_point, point);
        lemma_eq_poly_symmetric(in_point, point);
    }
    lemma_set_eqs_kept(evals, layer, claims, in_point, layer.expr_evals@.len() as int);
}

/// The value of outputs with their coefficients, times an equality polynomial.
proof fn lemma_group_eval(
    alphas: Seq<GoldilocksExt2>,
    start: int,
    eq: Expression,
    outputs: Seq<Expression>,
    env: Env,
)
    requires
        0 <= start,
        start + outputs.len() <= alphas.len(),
        eq is WitIn,
    ensures
        eq.spec_mul(
            weighted_sum(
                const_exprs(alphas).subrange(start, start + outputs.len()),
                outputs,
                outputs.len() as int,
            ),
        ).eval(env) == group_combination(alphas, start, eq, outputs, env),
{
    let n = outputs.len() as int;
    let a = const_exprs(alphas).subrange(start, start + n);
    assert forall|i: int| 0 <= i < n implies (#[trigger] a[i]).mul_fits(outputs[i]) by {
        lemma_constant_fits(a[i], outputs[i]);
    }
    lemma_weighted_sum_eval(a, outputs, n, env);
    assert(Seq::new(n as nat, |i: int| e_mul(a[i].eval(env), outputs[i].eval(env))) =~= Seq::new(
        outputs.len(),
        |i: int| e_mul(alphas[start + i]@, outputs[i].eval(env)),
    ));
    lemma_eval_mul(eq, weighted_sum(a, outputs, n), env);
}

/// `eq * sum_i alpha_i * output_i`, with the coefficients from `start` on.
pub open spec fn group_combination(
    alphas: Seq<GoldilocksExt2>,
    start: int,
    eq: Expression,
    outputs: Seq<Expression>,
    env: Env,
) -> Ext {
    e_mul(
        eq.eval(env),
        e_sum(
            Seq::new(outputs.len(), |i: int| e_mul(alphas[start + i]@, outputs[i].eval(env))),
        ),
    )
}

/// The first coefficient of a group.
pub open spec fn group_start(layer: Layer, g: int) -> int {
    all_evals(layer.expr_evals@.take(g)).len() as int
}

/// The outputs of a group.
pub open spec fn group_outputs(layer: Layer, g: int) -> Seq<Expression> {
    let start = group_start(layer, g);
    layer.exprs@.subrange(start, start + layer.expr_evals@[g].evals@.len())
}

/// The columns of one side of the rotations: the sources at the left and at the right point, and
/// the targets.
pub open spec fn rotation_outputs(layer: Layer, side: int) -> Seq<Expression> {
    if side == 2 {
        target_exprs(layer)
    } else {
        rotated_exprs(layer)
    }
}

/// The equality polynomial of one side of the rotations.
pub open spec fn rotation_eq(layer: Layer, side: int) -> Expression {
    let (left, right, origin) = layer.rotation_exprs.eqs->0;
    if side == 0 {
        left
    } else if side == 1 {
        right
    } else {
        origin
    }
}

/// The first coefficient of one side of the rotations.
pub open spec fn rotation_start(layer: Layer, side: int) -> int {
    layer.exprs@.len() + side * layer.rotation_exprs.pairs@.len()
}

#[verifier::spinoff_prover]
proof fn lemma_output_group_eval(layer: Layer, alphas: Seq<GoldilocksExt2>, env: Env, g: int)
    requires
        is_zerocheck_layer(layer),
        alphas.len() == spec_num_alphas(layer),
        0 <= g < layer.expr_evals@.len(),
    ensures
        extended_exprs(layer, const_exprs(alphas))[g].eval(env) == group_combination(
            alphas,
            group_start(layer, g),
            layer.expr_evals@[g].eq->0,
            group_outputs(layer, g),
            env,
        ),
{
    let consts = const_exprs(alphas);
    lemma_all_evals(layer.expr_evals@, g);
    let eq = layer.expr_evals@[g].eq->0;
    assert(eq is WitIn) by {
        assert(layer.expr_evals@[g].eq is Some);
    }
    lemma_group_eval(alphas, group_start(layer, g), eq, group_outputs(layer, g), env);
    assert(extended_exprs(layer, consts)[g] == group_expr(layer, consts, g));
}

#[verifier::spinoff_prover]
proof fn lemma_rotation_side_eval(layer: Layer, alphas: Seq<GoldilocksExt2>, env: Env, side: int)
    requires
        is_zerocheck_layer(layer),
        alphas.len() == spec_num_alphas(layer),
        layer.rotation_exprs.eqs is Some,
        0 <= side < 3,
    ensures
        extended_exprs(layer, const_exprs(alphas))[layer.expr_evals@.len() + side].eval(env)
            == group_combination(
            alphas,
            rotation_start(layer, side),
            rotation_eq(layer, side),
            rotation_outputs(layer, side),
            env,
        ),
{
    let consts = const_exprs(alphas);
    let m = layer.rotation_exprs.pairs@.len() as int;
    let n = layer.expr_evals@.len() as int;
    assert(0 <= side * m && (side + 1) * m == side * m + m && side * m + m <= 3 * m)
        by (nonlinear_arith)
        requires
            0 <= side < 3,
            0 <= m,
    ;
    lemma_group_eval(
        alphas,
        rotation_start(layer, side),
        rotation_eq(layer, side),
        rotation_outputs(layer, side),
        env,
    );
    assert(extended_exprs(layer, consts)[n + side] == rotation_eq(layer, side).spec_mul(
        rotation_sum(layer, consts, side),
    ));
}

/// The value of the expression of a zero check: the sum over the groups of
/// `eq_g * sum_i alpha_i * expr_i`, and the same for the sides of the rotations.
#[verifier::spinoff_prover]
pub proof fn lemma_zero_check_eval(layer: Layer, alphas: Seq<GoldilocksExt2>, env: Env)
    requires
        is_zerocheck_layer(layer),
        alphas.len() == spec_num_alphas(layer),
    ensures
        zero_check(layer, alphas).eval(env) == values_sum(
            extended_exprs(layer, const_exprs(alphas)),
            env,
        ),
        forall|g: int|
            0 <= g < layer.expr_evals@.len()
                ==> #[trigger] extended_exprs(layer, const_exprs(alphas))[g].eval(env)
                == group_combination(
                alphas,
                group_start(layer, g),
                layer.expr_evals@[g].eq->0,
                group_outputs(layer, g),
                env,
            ),
        layer.rotation_exprs.eqs is Some ==> forall|side: int|
            0 <= side < 3 ==> extended_exprs(layer, const_exprs(alphas))[layer.expr_evals@.len()
                + side].eval(env) == #[trigger] group_combination(
                alphas,
                rotation_start(layer, side),
                rotation_eq(layer, side),
                rotation_outputs(layer, side),
                env,
            ),
{
    let exprs = extended_exprs(layer, const_exprs(alphas));
    lemma_sum_exprs(exprs, env);
    assert forall|g: int| 0 <= g < layer.expr_evals@.len() implies #[trigger] exprs[g].eval(env)
        == group_combination(
        alphas,
        group_start(layer, g),
        layer.expr_evals@[g].eq->0,
        group_outputs(layer, g),
        env,
    ) by {
        lemma_output_group_eval(layer, alphas, env, g);
    }
    if layer.rotation_exprs.eqs is Some {
        assert forall|side: int| 0 <= side < 3 implies exprs[layer.expr_evals@.len() + side].eval(
            env,
        ) == #[trigger] group_combination(
            alphas,
            rotation_start(layer, side),
            rotation_eq(layer, side),
            rotation_outputs(layer, side),
            env,
        ) by {
            lemma_rotation_side_eval(layer, alphas, env, side);
        }
    }
}

} // verus!
