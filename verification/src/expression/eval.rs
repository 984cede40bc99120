//! Evaluation of expressions.
use vstd::prelude::*;

use crate::expression::{
    scalar_to_ext, scalar_value, ChallengeId, Env, Expression, Fixed, Instance, Scalar, WitnessId,
};
use crate::field::{e_add, e_mul, e_pow, group_field, GoldilocksExt2};

verus! {

broadcast use group_field;

/// What leaves and operations mean.
#[verifier::reject_recursive_types(T)]
pub struct Meaning<T, F, W, S, C, H, A, M, L> {
    pub fixed_in: F,
    pub wit_in: W,
    pub structural_wit_in: S,
    /// What a public value may be, if it has a meaning
    pub instance: spec_fn(Instance, T) -> bool,
    pub has_instance: spec_fn(Instance) -> bool,
    pub constant: C,
    pub challenge: H,
    pub sum: A,
    pub product: M,
    pub scaled: L,
}

/// `r` is a value of the expression: the leaves and operations return it, one after the other.
pub open spec fn evaluates_to<
    T,
    F: Fn(&Fixed) -> T,
    W: Fn(WitnessId) -> T,
    S: Fn(WitnessId, usize, u32, usize) -> T,
    C: Fn(Scalar) -> T,
    H: Fn(ChallengeId, usize, GoldilocksExt2, GoldilocksExt2) -> T,
    A: Fn(T, T) -> T,
    M: Fn(T, T) -> T,
    L: Fn(T, T, T) -> T,
>(e: Expression, m: Meaning<T, F, W, S, C, H, A, M, L>, r: T) -> bool
    decreases e,
{
    match e {
        Expression::Fixed(f) => call_ensures(m.fixed_in, (&f,), r),
        Expression::WitIn(id) => call_ensures(m.wit_in, (id,), r),
        Expression::StructuralWitIn(id, max_len, offset, multi_factor) => call_ensures(
            m.structural_wit_in,
            (id, max_len, offset, multi_factor),
            r,
        ),
        Expression::Instance(i) => (m.instance)(i, r),
        Expression::Constant(c) => call_ensures(m.constant, (c,), r),
        Expression::Challenge(id, pow, scalar, offset) => call_ensures(
            m.challenge,
            (id, pow, scalar, offset),
            r,
        ),
        Expression::Sum(a, b) => exists|x: T, y: T|
            {
                &&& evaluates_to(*a, m, x)
                &&& evaluates_to(*b, m, y)
                &&& #[trigger] call_ensures(m.sum, (x, y), r)
            },
        Expression::Product(a, b) => exists|x: T, y: T|
            {
                &&& evaluates_to(*a, m, x)
                &&& evaluates_to(*b, m, y)
                &&& #[trigger] call_ensures(m.product, (x, y), r)
            },
        Expression::ScaledSum(c, a, b) => exists|x: T, y: T, z: T|
            {
                &&& evaluates_to(*c, m, x)
                &&& evaluates_to(*a, m, y)
                &&& evaluates_to(*b, m, z)
                &&& #[trigger] call_ensures(m.scaled, (x, y, z), r)
            },
    }
}

/// The leaves and operations of the expression can be called.
pub open spec fn can_evaluate<
    T,
    F: Fn(&Fixed) -> T,
    W: Fn(WitnessId) -> T,
    S: Fn(WitnessId, usize, u32, usize) -> T,
    C: Fn(Scalar) -> T,
    H: Fn(ChallengeId, usize, GoldilocksExt2, GoldilocksExt2) -> T,
    A: Fn(T, T) -> T,
    M: Fn(T, T) -> T,
    L: Fn(T, T, T) -> T,
>(e: Expression, m: Meaning<T, F, W, S, C, H, A, M, L>) -> bool
    decreases e,
{
    match e {
        Expression::Fixed(f) => call_requires(m.fixed_in, (&f,)),
        Expression::WitIn(id) => call_requires(m.wit_in, (id,)),
        Expression::StructuralWitIn(id, max_len, offset, multi_factor) => call_requires(
            m.structural_wit_in,
            (id, max_len, offset, multi_factor),
        ),
        Expression::Instance(i) => (m.has_instance)(i),
        Expression::Constant(c) => call_requires(m.constant, (c,)),
        Expression::Challenge(id, pow, scalar, offset) => call_requires(
            m.challenge,
            (id, pow, scalar, offset),
        ),
        Expression::Sum(a, b) => {
            &&& can_evaluate(*a, m)
            &&& can_evaluate(*b, m)
            &&& forall|x: T, y: T|
                evaluates_to(*a, m, x) && evaluates_to(*b, m, y) ==> #[trigger] call_requires(
                    m.sum,
                    (x, y),
                )
        },
        Expression::Product(a, b) => {
            &&& can_evaluate(*a, m)
            &&& can_evaluate(*b, m)
            &&& forall|x: T, y: T|
                evaluates_to(*a, m, x) && evaluates_to(*b, m, y) ==> #[trigger] call_requires(
                    m.product,
                    (x, y),
                )
        },
        Expression::ScaledSum(c, a, b) => {
            &&& can_evaluate(*c, m)
            &&& can_evaluate(*a, m)
            &&& can_evaluate(*b, m)
            &&& forall|x: T, y: T, z: T|
                evaluates_to(*c, m, x) && evaluates_to(*a, m, y) && evaluates_to(*b, m, z)
                    ==> #[trigger] call_requires(m.scaled, (x, y, z))
        },
    }
}

impl Expression {
    /// Evaluates an expression with the given meaning of leaves and operations.
    pub fn evaluate_with_instance<
        T,
        F: Fn(&Fixed) -> T,
        W: Fn(WitnessId) -> T,
        S: Fn(WitnessId, usize, u32, usize) -> T,
        I: Fn(Instance) -> T,
        C: Fn(Scalar) -> T,
        H: Fn(ChallengeId, usize, GoldilocksExt2, GoldilocksExt2) -> T,
        A: Fn(T, T) -> T,
        M: Fn(T, T) -> T,
        L: Fn(T, T, T) -> T,
    >(
        &self,
        fixed_in: &F,
        wit_in: &W,
        structural_wit_in: &S,
        instance: &I,
        constant: &C,
        challenge: &H,
        sum: &A,
        product: &M,
        scaled: &L,
    ) -> (r: T)
        requires
            can_evaluate(
                *self,
                (Meaning {
                    fixed_in: *fixed_in,
                    wit_in: *wit_in,
                    structural_wit_in: *structural_wit_in,
                    instance: |i: Instance, r: T| call_ensures(*instance, (i,), r),
                    has_instance: |i: Instance| call_requires(*instance, (i,)),
                    constant: *constant,
                    challenge: *challenge,
                    sum: *sum,
                    product: *product,
                    scaled: *scaled,
                }),
            ),
        ensures
            evaluates_to(
                *self,
                (Meaning {
                    fixed_in: *fixed_in,
                    wit_in: *wit_in,
                    structural_wit_in: *structural_wit_in,
                    instance: |i: Instance, r: T| call_ensures(*instance, (i,), r),
                    has_instance: |i: Instance| call_requires(*instance, (i,)),
                    constant: *constant,
                    challenge: *challenge,
                    sum: *sum,
                    product: *product,
                    scaled: *scaled,
                }),
                r,
            ),
        decreases self,
    {
        let ghost m = Meaning {
            fixed_in: *fixed_in,
            wit_in: *wit_in,
            structural_wit_in: *structural_wit_in,
            instance: |i: Instance, r: T| call_ensures(*instance, (i,), r),
            has_instance: |i: Instance| call_requires(*instance, (i,)),
            constant: *constant,
            challenge: *challenge,
            sum: *sum,
            product: *product,
            scaled: *scaled,
        };
        match self {
            Expression::Fixed(f) => fixed_in(f),
            Expression::WitIn(id) => wit_in(*id),
            Expression::StructuralWitIn(id, max_len, offset, multi_factor) => structural_wit_in(
                *id,
                *max_len,
                *offset,
                *multi_factor,
            ),
            Expression::Instance(i) => instance(*i),
            Expression::Constant(c) => constant(*c),
            Expression::Sum(a, b) => {
                let x = a.evaluate_with_instance(
                    fixed_in, wit_in, structural_wit_in, instance, constant, challenge, sum,
                    product, scaled,
                );
                let y = b.evaluate_with_instance(
                    fixed_in, wit_in, structural_wit_in, instance, constant, challenge, sum,
                    product, scaled,
                );
                assert(evaluates_to(**a, m, x) && evaluates_to(**b, m, y));
                assert(call_requires(m.sum, (x, y)));
                let ghost (gx, gy) = (x, y);
                let r = sum(x, y);
                assert(call_ensures(m.sum, (gx, gy), r));
                r
            },
            Expression::Product(a, b) => {
                let x = a.evaluate_with_instance(
                    fixed_in, wit_in, structural_wit_in, instance, constant, challenge, sum,
                    product, scaled,
                );
                let y = b.evaluate_with_instance(
                    fixed_in, wit_in, structural_wit_in, instance, constant, challenge, sum,
                    product, scaled,
                );
                assert(evaluates_to(**a, m, x) && evaluates_to(**b, m, y));
                assert(call_requires(m.product, (x, y)));
                let ghost (gx, gy) = (x, y);
                let r = product(x, y);
                assert(call_ensures(m.product, (gx, gy), r));
                r
            },
            Expression::ScaledSum(c, a, b) => {
                let x = c.evaluate_with_instance(
                    fixed_in, wit_in, structural_wit_in, instance, constant, challenge, sum,
                    product, scaled,
                );
                let y = a.evaluate_with_instance(
                    fixed_in, wit_in, structural_wit_in, instance, constant, challenge, sum,
                    product, scaled,
                );
                let z = b.evaluate_with_instance(
                    fixed_in, wit_in, structural_wit_in, instance, constant, challenge, sum,
                    product, scaled,
                );
                assert(evaluates_to(**c, m, x) && evaluates_to(**a, m, y) && evaluates_to(
                    **b,
                    m,
                    z,
                ));
                assert(call_requires(m.scaled, (x, y, z)));
                let ghost (gx, gy, gz) = (x, y, z);
                let r = scaled(x, y, z);
                assert(call_ensures(m.scaled, (gx, gy, gz), r));
                r
            },
            Expression::Challenge(id, pow, scalar, offset) => challenge(
                *id,
                *pow,
                *scalar,
                *offset,
            ),
        }
    }

    /// Evaluates an expression without public values.
    pub fn evaluate<
        T,
        F: Fn(&Fixed) -> T,
        W: Fn(WitnessId) -> T,
        S: Fn(WitnessId, usize, u32, usize) -> T,
        C: Fn(Scalar) -> T,
        H: Fn(ChallengeId, usize, GoldilocksExt2, GoldilocksExt2) -> T,
        A: Fn(T, T) -> T,
        M: Fn(T, T) -> T,
        L: Fn(T, T, T) -> T,
    >(
        &self,
        fixed_in: &F,
        wit_in: &W,
        structural_wit_in: &S,
        constant: &C,
        challenge: &H,
        sum: &A,
        product: &M,
        scaled: &L,
    ) -> (r: T)
        requires
            can_evaluate(
                *self,
                (Meaning {
                    fixed_in: *fixed_in,
                    wit_in: *wit_in,
                    structural_wit_in: *structural_wit_in,
                    instance: |i: Instance, r: T| false,
                    has_instance: |i: Instance| false,
                    constant: *constant,
                    challenge: *challenge,
                    sum: *sum,
                    product: *product,
                    scaled: *scaled,
                }),
            ),
        ensures
            evaluates_to(
                *self,
                (Meaning {
                    fixed_in: *fixed_in,
                    wit_in: *wit_in,
                    structural_wit_in: *structural_wit_in,
                    instance: |i: Instance, r: T| false,
                    has_instance: |i: Instance| false,
                    constant: *constant,
                    challenge: *challenge,
                    sum: *sum,
                    product: *product,
                    scaled: *scaled,
                }),
                r,
            ),
        decreases self,
    {
        let ghost m = Meaning {
            fixed_in: *fixed_in,
            wit_in: *wit_in,
            structural_wit_in: *structural_wit_in,
            instance: |i: Instance, r: T| false,
            has_instance: |i: Instance| false,
            constant: *constant,
            challenge: *challenge,
            sum: *sum,
            product: *product,
            scaled: *scaled,
        };
        match self {
            Expression::Fixed(f) => fixed_in(f),
            Expression::WitIn(id) => wit_in(*id),
            Expression::StructuralWitIn(id, max_len, offset, multi_factor) => structural_wit_in(
                *id,
                *max_len,
                *offset,
                *multi_factor,
            ),
            Expression::Instance(_) => vstd::pervasive::unreached(),
            Expression::Constant(c) => constant(*c),
            Expression::Sum(a, b) => {
                let x = a.evaluate(
                    fixed_in, wit_in, structural_wit_in, constant, challenge, sum, product,
                    scaled,
                );
                let y = b.evaluate(
                    fixed_in, wit_in, structural_wit_in, constant, challenge, sum, product,
                    scaled,
                );
                assert(evaluates_to(**a, m, x) && evaluates_to(**b, m, y));
                assert(call_requires(m.sum, (x, y)));
                let ghost (gx, gy) = (x, y);
                let r = sum(x, y);
                assert(call_ensures(m.sum, (gx, gy), r));
                r
            },
            Expression::Product(a, b) => {
                let x = a.evaluate(
                    fixed_in, wit_in, structural_wit_in, constant, challenge, sum, product,
                    scaled,
                );
                let y = b.evaluate(
                    fixed_in, wit_in, structural_wit_in, constant, challenge, sum, product,
                    scaled,
                );
                assert(evaluates_to(**a, m, x) && evaluates_to(**b, m, y));
                assert(call_requires(m.product, (x, y)));
                let ghost (gx, gy) = (x, y);
                let r = product(x, y);
                assert(call_ensures(m.product, (gx, gy), r));
                r
            },
            Expression::ScaledSum(c, a, b) => {
                let x = c.evaluate(
                    fixed_in, wit_in, structural_wit_in, constant, challenge, sum, product,
                    scaled,
                );
                let y = a.evaluate(
                    fixed_in, wit_in, structural_wit_in, constant, challenge, sum, product,
                    scaled,
                );
                let z = b.evaluate(
                    fixed_in, wit_in, structural_wit_in, constant, challenge, sum, product,
                    scaled,
                );
                assert(evaluates_to(**c, m, x) && evaluates_to(**a, m, y) && evaluates_to(
                    **b,
                    m,
                    z,
                ));
                assert(call_requires(m.scaled, (x, y, z)));
                let ghost (gx, gy, gz) = (x, y, z);
                let r = scaled(x, y, z);
                assert(call_ensures(m.scaled, (gx, gy, gz), r));
                r
            },
            Expression::Challenge(id, pow, scalar, offset) => challenge(
                *id,
                *pow,
                *scalar,
                *offset,
            ),
        }
    }

    /// Evaluates a constant or a challenge.
    pub fn evaluate_constant<
        T,
        C: Fn(Scalar) -> T,
        H: Fn(ChallengeId, usize, GoldilocksExt2, GoldilocksExt2) -> T,
    >(&self, constant: &C, challenge: &H) -> (r: T)
        requires
            match *self {
                Expression::Constant(c) => call_requires(*constant, (c,)),
                Expression::Challenge(id, pow, scalar, offset) => call_requires(
                    *challenge,
                    (id, pow, scalar, offset),
                ),
                _ => false,
            },
        ensures
            match *self {
                Expression::Constant(c) => call_ensures(*constant, (c,), r),
                Expression::Challenge(id, pow, scalar, offset) => call_ensures(
                    *challenge,
                    (id, pow, scalar, offset),
                    r,
                ),
                _ => false,
            },
    {
        match self {
            Expression::Constant(c) => constant(*c),
            Expression::Challenge(id, pow, scalar, offset) => challenge(
                *id,
                *pow,
                *scalar,
                *offset,
            ),
            _ => vstd::pervasive::unreached(),
        }
    }
}

/// Where leaves and operations mean the values of the leaves and the operations of the field, the
/// expression evaluates to its value.
pub proof fn lemma_evaluates_to_value<
    F: Fn(&Fixed) -> GoldilocksExt2,
    W: Fn(WitnessId) -> GoldilocksExt2,
    S: Fn(WitnessId, usize, u32, usize) -> GoldilocksExt2,
    C: Fn(Scalar) -> GoldilocksExt2,
    H: Fn(ChallengeId, usize, GoldilocksExt2, GoldilocksExt2) -> GoldilocksExt2,
    A: Fn(GoldilocksExt2, GoldilocksExt2) -> GoldilocksExt2,
    M: Fn(GoldilocksExt2, GoldilocksExt2) -> GoldilocksExt2,
    L: Fn(GoldilocksExt2, GoldilocksExt2, GoldilocksExt2) -> GoldilocksExt2,
>(
    e: Expression,
    m: Meaning<GoldilocksExt2, F, W, S, C, H, A, M, L>,
    env: Env,
    r: GoldilocksExt2,
)
    requires
        forall|f: Fixed, r: GoldilocksExt2|
            #[trigger] call_ensures(m.fixed_in, (&f,), r) ==> r@ == env.fixed[f.0 as int]@,
        forall|id: WitnessId, r: GoldilocksExt2|
            #[trigger] call_ensures(m.wit_in, (id,), r) ==> r@ == env.wit[id as int]@,
        forall|id: WitnessId, n: usize, o: u32, k: usize, r: GoldilocksExt2|
            #[trigger] call_ensures(m.structural_wit_in, (id, n, o, k), r) ==> r@
                == env.structural[id as int]@,
        forall|i: Instance, r: GoldilocksExt2|
            #[trigger] (m.instance)(i, r) ==> r@ == env.instance[i.0 as int]@,
        forall|c: Scalar, r: GoldilocksExt2|
            #[trigger] call_ensures(m.constant, (c,), r) ==> r@ == scalar_value(c),
        forall|id: ChallengeId, p: usize, s: GoldilocksExt2, o: GoldilocksExt2, r: GoldilocksExt2|
            #[trigger] call_ensures(m.challenge, (id, p, s, o), r) ==> r@ == e_add(
                e_mul(e_pow(env.challenges[id as int]@, p as nat), s@),
                o@,
            ),
        forall|x: GoldilocksExt2, y: GoldilocksExt2, r: GoldilocksExt2|
            #[trigger] call_ensures(m.sum, (x, y), r) ==> r@ == e_add(x@, y@),
        forall|x: GoldilocksExt2, y: GoldilocksExt2, r: GoldilocksExt2|
            #[trigger] call_ensures(m.product, (x, y), r) ==> r@ == e_mul(x@, y@),
        forall|x: GoldilocksExt2, a: GoldilocksExt2, b: GoldilocksExt2, r: GoldilocksExt2|
            #[trigger] call_ensures(m.scaled, (x, a, b), r) ==> r@ == e_add(e_mul(a@, x@), b@),
        evaluates_to(e, m, r),
    ensures
        r@ == e.eval(env),
    decreases e,
{
    match e {
        Expression::Sum(a, b) => {
            let (x, y) = choose|x: GoldilocksExt2, y: GoldilocksExt2|
                {
                    &&& evaluates_to(*a, m, x)
                    &&& evaluates_to(*b, m, y)
                    &&& #[trigger] call_ensures(m.sum, (x, y), r)
                };
            lemma_evaluates_to_value(*a, m, env, x);
            lemma_evaluates_to_value(*b, m, env, y);
        },
        Expression::Product(a, b) => {
            let (x, y) = choose|x: GoldilocksExt2, y: GoldilocksExt2|
                {
                    &&& evaluates_to(*a, m, x)
                    &&& evaluates_to(*b, m, y)
                    &&& #[trigger] call_ensures(m.product, (x, y), r)
                };
            lemma_evaluates_to_value(*a, m, env, x);
            lemma_evaluates_to_value(*b, m, env, y);
        },
        Expression::ScaledSum(c, a, b) => {
            let (x, y, z) = choose|x: GoldilocksExt2, y: GoldilocksExt2, z: GoldilocksExt2|
                {
                    &&& evaluates_to(*c, m, x)
                    &&& evaluates_to(*a, m, y)
                    &&& evaluates_to(*b, m, z)
                    &&& #[trigger] call_ensures(m.scaled, (x, y, z), r)
                };
            lemma_evaluates_to_value(*c, m, env, x);
            lemma_evaluates_to_value(*a, m, env, y);
            lemma_evaluates_to_value(*b, m, env, z);
        },
        _ => {},
    }
}

/// The leaves of the expression have values.
pub open spec fn leaves_in(e: Expression, env: Env) -> bool
    decreases e,
{
    match e {
        Expression::Fixed(f) => f.0 < env.fixed.len(),
        Expression::WitIn(id) => id < env.wit.len(),
        Expression::StructuralWitIn(id, _, _, _) => id < env.structural.len(),
        Expression::Instance(i) => i.0 < env.instance.len(),
        Expression::Challenge(id, _, _, _) => id < env.challenges.len(),
        Expression::Constant(_) => true,
        Expression::Sum(a, b) => leaves_in(*a, env) && leaves_in(*b, env),
        Expression::Product(a, b) => leaves_in(*a, env) && leaves_in(*b, env),
        Expression::ScaledSum(x, a, b) => leaves_in(*x, env) && leaves_in(*a, env) && leaves_in(
            *b,
            env,
        ),
    }
}

/// Whether the leaves of an expression have values.
pub fn has_leaves(
    fixed: &[GoldilocksExt2],
    witnesses: &[GoldilocksExt2],
    structural_witnesses: &[GoldilocksExt2],
    instance: &[GoldilocksExt2],
    challenges: &[GoldilocksExt2],
    expr: &Expression,
) -> (r: bool)
    ensures
        r == leaves_in(
            *expr,
            (Env {
                fixed: fixed@,
                wit: witnesses@,
                structural: structural_witnesses@,
                instance: instance@,
                challenges: challenges@,
            }),
        ),
    decreases expr,
{
    match expr {
        Expression::Fixed(f) => f.0 < fixed.len(),
        Expression::WitIn(id) => (*id as usize) < witnesses.len(),
        Expression::StructuralWitIn(id, _, _, _) => (*id as usize) < structural_witnesses.len(),
        Expression::Instance(i) => i.0 < instance.len(),
        Expression::Challenge(id, _, _, _) => (*id as usize) < challenges.len(),
        Expression::Constant(_) => true,
        Expression::Sum(a, b) => {
            has_leaves(fixed, witnesses, structural_witnesses, instance, challenges, a)
                && has_leaves(fixed, witnesses, structural_witnesses, instance, challenges, b)
        },
        Expression::Product(a, b) => {
            has_leaves(fixed, witnesses, structural_witnesses, instance, challenges, a)
                && has_leaves(fixed, witnesses, structural_witnesses, instance, challenges, b)
        },
        Expression::ScaledSum(x, a, b) => {
            has_leaves(fixed, witnesses, structural_witnesses, instance, challenges, x)
                && has_leaves(fixed, witnesses, structural_witnesses, instance, challenges, a)
                && has_leaves(fixed, witnesses, structural_witnesses, instance, challenges, b)
        },
    }
}

/// The value of an expression at the given values of witnesses and challenges.
pub fn eval_by_expr(
    witnesses: &[GoldilocksExt2],
    structural_witnesses: &[GoldilocksExt2],
    challenges: &[GoldilocksExt2],
    expr: &Expression,
) -> (r: GoldilocksExt2)
    requires
        leaves_in(
            *expr,
            (Env {
                fixed: Seq::empty(),
                wit: witnesses@,
                structural: structural_witnesses@,
                instance: Seq::empty(),
                challenges: challenges@,
            }),
        ),
    ensures
        r@ == expr.eval(
            (Env {
                fixed: Seq::empty(),
                wit: witnesses@,
                structural: structural_witnesses@,
                instance: Seq::empty(),
                challenges: challenges@,
            }),
        ),
    decreases expr,
{
    match expr {
        Expression::WitIn(id) => witnesses[*id as usize],
        Expression::StructuralWitIn(id, _, _, _) => structural_witnesses[*id as usize],
        Expression::Constant(c) => scalar_to_ext(c),
        Expression::Sum(a, b) => {
            let x = eval_by_expr(witnesses, structural_witnesses, challenges, a);
            let y = eval_by_expr(witnesses, structural_witnesses, challenges, b);
            x + y
        },
        Expression::Product(a, b) => {
            let x = eval_by_expr(witnesses, structural_witnesses, challenges, a);
            let y = eval_by_expr(witnesses, structural_witnesses, challenges, b);
            x * y
        },
        Expression::ScaledSum(c, a, b) => {
            let x = eval_by_expr(witnesses, structural_witnesses, challenges, c);
            let y = eval_by_expr(witnesses, structural_witnesses, challenges, a);
            let z = eval_by_expr(witnesses, structural_witnesses, challenges, b);
            y * x + z
        },
        Expression::Challenge(id, pow, scalar, offset) => {
            challenges[*id as usize].exp_u64(*pow as u64) * *scalar + *offset
        },
        Expression::Fixed(_) => vstd::pervasive::unreached(),
        Expression::Instance(_) => vstd::pervasive::unreached(),
    }
}

/// Which leaves have a meaning depends on how many there are.
pub proof fn lemma_same_leaves(e: Expression, a: Env, b: Env)
    requires
        a.fixed.len() == b.fixed.len(),
        a.wit.len() == b.wit.len(),
        a.structural.len() == b.structural.len(),
        a.instance.len() == b.instance.len(),
        a.challenges.len() == b.challenges.len(),
    ensures
        leaves_in(e, a) == leaves_in(e, b),
    decreases e,
{
    match e {
        Expression::Sum(x, y) => {
            lemma_same_leaves(*x, a, b);
            lemma_same_leaves(*y, a, b);
        },
        Expression::Product(x, y) => {
            lemma_same_leaves(*x, a, b);
            lemma_same_leaves(*y, a, b);
        },
        Expression::ScaledSum(x, y, z) => {
            lemma_same_leaves(*x, a, b);
            lemma_same_leaves(*y, a, b);
            lemma_same_leaves(*z, a, b);
        },
        _ => {},
    }
}

/// Two sequences hold the same values.
pub open spec fn same_values(a: Seq<GoldilocksExt2>, b: Seq<GoldilocksExt2>) -> bool {
    &&& a.len() == b.len()
    &&& forall|i: int| 0 <= i < a.len() ==> (#[trigger] a[i])@ == b[i]@
}

/// The value of an expression depends on the values of its leaves.
pub proof fn lemma_same_values(e: Expression, a: Env, b: Env)
    requires
        leaves_in(e, a),
        same_values(a.fixed, b.fixed),
        same_values(a.wit, b.wit),
        same_values(a.structural, b.structural),
        same_values(a.instance, b.instance),
        same_values(a.challenges, b.challenges),
    ensures
        e.eval(a) == e.eval(b),
    decreases e,
{
    match e {
        Expression::Sum(x, y) => {
            lemma_same_values(*x, a, b);
            lemma_same_values(*y, a, b);
        },
        Expression::Product(x, y) => {
            lemma_same_values(*x, a, b);
            lemma_same_values(*y, a, b);
        },
        Expression::ScaledSum(x, y, z) => {
            lemma_same_values(*x, a, b);
            lemma_same_values(*y, a, b);
            lemma_same_values(*z, a, b);
        },
        _ => {},
    }
}

} // verus!
