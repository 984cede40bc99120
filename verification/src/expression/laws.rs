//! Laws of the expression algebra: the operations on expressions are the operations on their values.
use vstd::prelude::*;

use crate::either::Either;
use crate::expression::{
    base_const, challenge_product, scalar_add, scalar_mul, scalar_neg, scalar_sub, scalar_value,
    ChallengeId, Env, Expression, Scalar,
};
use crate::field::{
    e_add, e_mul, e_neg, e_one, e_pow, e_sub, e_zero, gl, group_field, Ext, GoldilocksExt2,
};
use crate::ring::{
    lemma_e_add_assoc, lemma_e_add_comm, lemma_e_add_zero, lemma_e_base_ops, lemma_e_mul_add,
    lemma_e_mul_assoc, lemma_e_mul_comm, lemma_e_mul_neg, lemma_e_mul_one, lemma_e_mul_zero,
    lemma_e_neg_add, lemma_e_pow_add, lemma_e_sub_is_add_neg,
};

verus! {

broadcast use group_field;

/// Values of expressions are valid.
pub broadcast proof fn lemma_eval_valid(e: Expression, env: Env)
    ensures
        (#[trigger] e.eval(env)).valid(),
{
}

proof fn lemma_scalar_ops(c1: Scalar, c2: Scalar)
    ensures
        scalar_value(scalar_add(c1, c2)) == e_add(scalar_value(c1), scalar_value(c2)),
        scalar_value(scalar_sub(c1, c2)) == e_sub(scalar_value(c1), scalar_value(c2)),
        scalar_value(scalar_mul(c1, c2)) == e_mul(scalar_value(c1), scalar_value(c2)),
        scalar_value(scalar_neg(c1)) == e_neg(scalar_value(c1)),
{
    match (c1, c2) {
        (Either::Left(a), Either::Left(b)) => {
            lemma_e_base_ops(a@, b@);
        },
        (Either::Left(a), _) => {
            lemma_e_base_ops(a@, 0);
        },
        _ => {},
    }
}

/// Minus one times a value is the negated value.
proof fn lemma_minus_one(x: Ext, env: Env)
    requires
        x.valid(),
    ensures
        e_mul(base_const(-1).eval(env), x) == e_neg(x),
{
    lemma_e_base_ops(1, 0);
    assert(scalar_value(Either::Left(gl(-1))) == e_neg(e_one()));
    lemma_e_mul_neg(e_one(), x);
    lemma_e_mul_one(x);
}

/// The value of a negated expression is the negated value.
pub proof fn lemma_eval_neg(e: Expression, env: Env)
    ensures
        e.spec_neg().eval(env) == e_neg(e.eval(env)),
    decreases e,
{
    broadcast use lemma_eval_valid;

    match e {
        Expression::Constant(c) => {
            lemma_scalar_ops(c, c);
        },
        Expression::Sum(a, b) => {
            lemma_eval_neg(*a, env);
            lemma_eval_neg(*b, env);
            lemma_e_neg_add(a.eval(env), b.eval(env));
        },
        Expression::Product(a, b) => {
            lemma_eval_neg(*a, env);
            lemma_e_mul_neg(a.eval(env), b.eval(env));
        },
        Expression::ScaledSum(x, a, b) => {
            lemma_eval_neg(*a, env);
            lemma_eval_neg(*b, env);
            lemma_e_mul_neg(a.eval(env), x.eval(env));
            lemma_e_neg_add(e_mul(a.eval(env), x.eval(env)), b.eval(env));
        },
        Expression::Challenge(id, pow, scalar, offset) => {
            let c = e_pow(env.challenges[id as int]@, pow as nat);
            lemma_e_mul_neg(c, scalar@);
            lemma_e_neg_add(e_mul(c, scalar@), offset@);
        },
        _ => {
            lemma_minus_one(e.eval(env), env);
            lemma_e_add_zero(e_neg(e.eval(env)));
            assert(base_const(0).eval(env) == e_zero());
        },
    }
}

/// The value of a sum is the sum of the values.
pub proof fn lemma_eval_add(a: Expression, b: Expression, env: Env)
    ensures
        a.spec_add(b).eval(env) == e_add(a.eval(env), b.eval(env)),
    decreases a.size() + b.size(),
{
    broadcast use lemma_eval_valid;

    let (x, y) = (a.eval(env), b.eval(env));
    lemma_e_add_comm(x, y);
    lemma_e_mul_one(x);
    lemma_e_mul_one(y);
    assert(base_const(1).eval(env) == e_one());
    match (a, b) {
        (Expression::Constant(c), Expression::Challenge(id, pow, scalar, offset)) => {
            let t = e_mul(e_pow(env.challenges[id as int]@, pow as nat), scalar@);
            lemma_e_add_assoc(t, offset@, x);
        },
        (Expression::Challenge(id, pow, scalar, offset), Expression::Constant(c)) => {
            let t = e_mul(e_pow(env.challenges[id as int]@, pow as nat), scalar@);
            lemma_e_add_assoc(t, offset@, y);
        },
        (Expression::Challenge(i1, p1, s1, o1), Expression::Challenge(i2, p2, s2, o2)) => {
            if i1 == i2 && p1 == p2 {
                let c = e_pow(env.challenges[i1 as int]@, p1 as nat);
                lemma_e_mul_add(c, s1@, s2@);
                lemma_add_exchange(e_mul(c, s1@), o1@, e_mul(c, s2@), o2@);
            }
        },
        (Expression::Constant(c1), Expression::Constant(c2)) => {
            lemma_scalar_ops(c1, c2);
        },
        (Expression::Constant(_), Expression::ScaledSum(u, k, o)) => {
            lemma_eval_add(*o, a, env);
            lemma_e_add_assoc(e_mul(k.eval(env), u.eval(env)), o.eval(env), x);
        },
        (Expression::ScaledSum(u, k, o), Expression::Constant(_)) => {
            lemma_eval_add(*o, b, env);
            lemma_e_add_assoc(e_mul(k.eval(env), u.eval(env)), o.eval(env), y);
        },
        _ => {},
    }
}

/// `(a + b) + (c + d)` is `(a + c) + (b + d)`.
pub proof fn lemma_add_exchange(a: Ext, b: Ext, c: Ext, d: Ext)
    ensures
        e_add(e_add(a, b), e_add(c, d)) == e_add(e_add(a, c), e_add(b, d)),
{
    lemma_e_add_assoc(a, b, e_add(c, d));
    lemma_e_add_assoc(b, c, d);
    lemma_e_add_comm(b, c);
    lemma_e_add_assoc(c, b, d);
    lemma_e_add_assoc(a, c, e_add(b, d));
}

/// The value of a difference is the difference of the values.
pub proof fn lemma_eval_sub(a: Expression, b: Expression, env: Env)
    ensures
        a.spec_sub(b).eval(env) == e_sub(a.eval(env), b.eval(env)),
    decreases a.size() + b.size(),
{
    broadcast use lemma_eval_valid;

    let (x, y) = (a.eval(env), b.eval(env));
    lemma_e_sub_is_add_neg(x, y);
    lemma_e_add_comm(x, e_neg(y));
    lemma_e_mul_one(x);
    lemma_eval_neg(b, env);
    lemma_minus_one(y, env);
    assert(base_const(1).eval(env) == e_one());
    match (a, b) {
        (Expression::Constant(c), Expression::Challenge(id, pow, scalar, offset)) => {
            let p = e_pow(env.challenges[id as int]@, pow as nat);
            let t = e_mul(p, scalar@);
            lemma_e_mul_neg(p, scalar@);
            lemma_e_sub_is_add_neg(x, offset@);
            lemma_e_add_comm(x, e_neg(offset@));
            lemma_e_neg_add(t, offset@);
            lemma_e_add_assoc(e_neg(t), e_neg(offset@), x);
        },
        (Expression::Challenge(id, pow, scalar, offset), Expression::Constant(c)) => {
            let t = e_mul(e_pow(env.challenges[id as int]@, pow as nat), scalar@);
            lemma_e_sub_is_add_neg(offset@, y);
            lemma_e_add_assoc(t, offset@, e_neg(y));
        },
        (Expression::Challenge(i1, p1, s1, o1), Expression::Challenge(i2, p2, s2, o2)) => {
            if i1 == i2 && p1 == p2 {
                let c = e_pow(env.challenges[i1 as int]@, p1 as nat);
                lemma_e_sub_is_add_neg(s1@, s2@);
                lemma_e_sub_is_add_neg(o1@, o2@);
                lemma_e_mul_add(c, s1@, e_neg(s2@));
                lemma_e_mul_neg(c, s2@);
                lemma_e_neg_add(e_mul(c, s2@), o2@);
                lemma_add_exchange(e_mul(c, s1@), o1@, e_neg(e_mul(c, s2@)), e_neg(o2@));
            }
        },
        (Expression::Constant(c1), Expression::Constant(c2)) => {
            lemma_scalar_ops(c1, c2);
        },
        (_, Expression::ScaledSum(u, k, o)) if a is Constant || a is Challenge => {
            let t = e_mul(k.eval(env), u.eval(env));
            lemma_eval_sub(a, *o, env);
            lemma_eval_neg(*k, env);
            lemma_e_mul_neg(k.eval(env), u.eval(env));
            lemma_e_neg_add(t, o.eval(env));
            lemma_e_sub_is_add_neg(x, o.eval(env));
            lemma_e_add_comm(x, e_neg(o.eval(env)));
            lemma_e_add_assoc(e_neg(t), e_neg(o.eval(env)), x);
        },
        (Expression::ScaledSum(u, k, o), _) if b is Constant || b is Challenge => {
            lemma_eval_sub(*o, b, env);
            lemma_e_sub_is_add_neg(o.eval(env), y);
            lemma_e_add_assoc(e_mul(k.eval(env), u.eval(env)), o.eval(env), e_neg(y));
        },
        _ => {},
    }
}

/// The value of a product is the product of the values.
pub proof fn lemma_eval_mul(a: Expression, b: Expression, env: Env)
    requires
        a.mul_fits(b),
    ensures
        a.spec_mul(b).eval(env) == e_mul(a.eval(env), b.eval(env)),
    decreases a.size() + b.size(),
{
    broadcast use lemma_eval_valid;

    let (x, y) = (a.eval(env), b.eval(env));
    lemma_e_mul_comm(x, y);
    lemma_e_add_zero(e_mul(x, y));
    assert(base_const(0).eval(env) == e_zero());
    match (a, b) {
        (Expression::Constant(c), Expression::Challenge(id, pow, scalar, offset)) => {
            let p = e_pow(env.challenges[id as int]@, pow as nat);
            lemma_e_mul_assoc(p, scalar@, x);
            lemma_e_mul_add(x, e_mul(p, scalar@), offset@);
        },
        (Expression::Challenge(id, pow, scalar, offset), Expression::Constant(c)) => {
            let p = e_pow(env.challenges[id as int]@, pow as nat);
            lemma_e_mul_assoc(p, scalar@, y);
            lemma_e_mul_add(y, e_mul(p, scalar@), offset@);
        },
        (Expression::Challenge(i1, p1, s1, o1), Expression::Challenge(i2, p2, s2, o2)) => {
            if i1 == i2 {
                lemma_eval_challenge_product(i1, p1, s1, o1, p2, s2, o2, env);
            }
        },
        (Expression::Constant(c1), Expression::Constant(c2)) => {
            lemma_scalar_ops(c1, c2);
        },
        (Expression::ScaledSum(u, k, o), _) if b is Constant || b is Challenge => {
            lemma_eval_mul(*k, b, env);
            lemma_eval_mul(*o, b, env);
            lemma_scale_affine(k.eval(env), u.eval(env), o.eval(env), y);
        },
        (_, Expression::ScaledSum(u, k, o)) if a is Constant || a is Challenge => {
            lemma_eval_mul(*k, a, env);
            lemma_eval_mul(*o, a, env);
            lemma_scale_affine(k.eval(env), u.eval(env), o.eval(env), x);
        },
        _ => {},
    }
}

/// `(k * c) * u + o * c` is `(k * u + o) * c`.
proof fn lemma_scale_affine(k: Ext, u: Ext, o: Ext, c: Ext)
    ensures
        e_add(e_mul(e_mul(k, c), u), e_mul(o, c)) == e_mul(e_add(e_mul(k, u), o), c),
{
    lemma_e_mul_add(c, e_mul(k, u), o);
    lemma_e_mul_assoc(k, c, u);
    lemma_e_mul_comm(c, u);
    lemma_e_mul_assoc(k, u, c);
}

proof fn lemma_eval_challenge_product(
    id: ChallengeId,
    p1: usize,
    s1: GoldilocksExt2,
    o1: GoldilocksExt2,
    p2: usize,
    s2: GoldilocksExt2,
    o2: GoldilocksExt2,
    env: Env,
)
    requires
        p1 + p2 <= usize::MAX,
    ensures
        challenge_product(id, p1, s1, o1, p2, s2, o2).eval(env) == e_mul(
            Expression::Challenge(id, p1, s1, o1).eval(env),
            Expression::Challenge(id, p2, s2, o2).eval(env),
        ),
{
    reveal_with_fuel(Expression::eval, 4);
    let c = env.challenges[id as int]@;
    let (c1, c2) = (e_pow(c, p1 as nat), e_pow(c, p2 as nat));
    let (t1, t2) = (e_mul(c1, s1@), e_mul(c2, s2@));
    // (t1 + o1) * (t2 + o2) == (t1 * t2 + o1 * o2) + t1 * o2 + o1 * t2
    lemma_e_mul_add(e_add(t2, o2@), t1, o1@);
    lemma_e_mul_add(t1, t2, o2@);
    lemma_e_mul_add(o1@, t2, o2@);
    let (m12, mo2, mo1, moo) = (
        e_mul(t1, t2),
        e_mul(t1, o2@),
        e_mul(o1@, t2),
        e_mul(o1@, o2@),
    );
    lemma_e_add_comm(mo1, moo);
    lemma_add_exchange(m12, mo2, moo, mo1);
    lemma_e_add_assoc(e_add(m12, moo), mo2, mo1);
    // the leading term
    lemma_e_pow_add(c, p1 as nat, p2 as nat);
    lemma_mul_exchange(c1, s1@, c2, s2@);
    // the mixed terms
    lemma_e_mul_assoc(c1, s1@, o2@);
    lemma_e_mul_comm(s1@, o2@);
    lemma_e_mul_assoc(c2, s2@, o1@);
    lemma_e_mul_comm(s2@, o1@);
    lemma_e_mul_comm(o1@, t2);
    lemma_e_add_zero(mo2);
    lemma_e_add_zero(mo1);
    lemma_e_add_zero(e_add(m12, moo));
    lemma_e_add_zero(e_add(e_add(m12, moo), mo2));
    if s1@ == e_zero() || o2@ == e_zero() {
        lemma_e_mul_zero(c1);
        lemma_e_mul_zero(o2@);
        lemma_e_mul_zero(t1);
    }
    if s2@ == e_zero() || o1@ == e_zero() {
        lemma_e_mul_zero(c2);
        lemma_e_mul_zero(o1@);
        lemma_e_mul_zero(t2);
    }
}

/// `(a * b) * (c * d)` is `(a * c) * (b * d)`.
pub proof fn lemma_mul_exchange(a: Ext, b: Ext, c: Ext, d: Ext)
    ensures
        e_mul(e_mul(a, b), e_mul(c, d)) == e_mul(e_mul(a, c), e_mul(b, d)),
{
    lemma_e_mul_assoc(a, b, e_mul(c, d));
    lemma_e_mul_assoc(b, c, d);
    lemma_e_mul_comm(b, c);
    lemma_e_mul_assoc(c, b, d);
    lemma_e_mul_assoc(a, c, e_mul(b, d));
}

/// The larger of two numbers.
pub open spec fn larger(a: nat, b: nat) -> nat {
    if a >= b {
        a
    } else {
        b
    }
}

/// Negation keeps the degree.
pub proof fn lemma_degree_neg(a: Expression)
    ensures
        a.spec_neg().spec_degree() == a.spec_degree(),
    decreases a,
{
    match a {
        Expression::Sum(x, y) => {
            lemma_degree_neg(*x);
            lemma_degree_neg(*y);
        },
        Expression::Product(x, _) => {
            lemma_degree_neg(*x);
        },
        _ => {},
    }
}

/// The degree of a sum is the larger degree of the two, as is that of a difference; the degree of a
/// product is the sum of the degrees.
pub proof fn lemma_degree_ops(a: Expression, b: Expression)
    ensures
        a.spec_add(b).spec_degree() == larger(a.spec_degree(), b.spec_degree()),
        a.spec_sub(b).spec_degree() == larger(a.spec_degree(), b.spec_degree()),
        a.spec_mul(b).spec_degree() == a.spec_degree() + b.spec_degree(),
{
    lemma_degree_neg(b);
    reveal_with_fuel(Expression::spec_degree, 3);
}

} // verus!
