//! Expressions as sums of products.
use vstd::prelude::*;

use crate::either::Either;
use crate::expression::laws::lemma_eval_valid;
use crate::expression::leaf_laws::has_no_scaled_sum;
use crate::expression::{scalar_value, Env, Expression};
use crate::field::{e_add, e_mul, e_zero, group_field, Ext, Goldilocks, GoldilocksExt2};
use crate::ring::{lemma_e_add_assoc, lemma_e_add_zero, lemma_e_mul_add, lemma_e_mul_zero};

verus! {

broadcast use group_field;

/// A scalar times a product.
#[derive(Debug)]
pub struct Term<S, P> {
    pub scalar: S,
    pub product: Vec<P>,
}

/// Whether the expression is visibly zero.
pub open spec fn spec_is_zero_expr(e: Expression) -> bool
    decreases e,
{
    match e {
        Expression::Constant(c) => scalar_value(c) == e_zero(),
        Expression::Sum(a, b) => spec_is_zero_expr(*a) && spec_is_zero_expr(*b),
        Expression::Product(a, b) => spec_is_zero_expr(*a) || spec_is_zero_expr(*b),
        Expression::ScaledSum(x, a, b) => (spec_is_zero_expr(*x) || spec_is_zero_expr(*a))
            && spec_is_zero_expr(*b),
        Expression::Challenge(_, _, scalar, offset) => scalar@ == e_zero() && offset@ == e_zero(),
        _ => false,
    }
}

/// A visibly zero expression is zero everywhere.
pub proof fn lemma_zero_expr(e: Expression, env: Env)
    requires
        spec_is_zero_expr(e),
    ensures
        e.eval(env) == e_zero(),
    decreases e,
{
    broadcast use lemma_eval_valid;

    lemma_e_add_zero(e_zero());
    match e {
        Expression::Sum(a, b) => {
            lemma_zero_expr(*a, env);
            lemma_zero_expr(*b, env);
        },
        Expression::Product(a, b) => {
            lemma_e_mul_zero(a.eval(env));
            lemma_e_mul_zero(b.eval(env));
            if spec_is_zero_expr(*a) {
                lemma_zero_expr(*a, env);
            } else {
                lemma_zero_expr(*b, env);
            }
        },
        Expression::ScaledSum(x, a, b) => {
            lemma_zero_expr(*b, env);
            lemma_e_mul_zero(a.eval(env));
            lemma_e_mul_zero(x.eval(env));
            if spec_is_zero_expr(*x) {
                lemma_zero_expr(*x, env);
            } else {
                lemma_zero_expr(*a, env);
            }
        },
        Expression::Challenge(id, pow, scalar, offset) => {
            lemma_e_mul_zero(crate::field::e_pow(env.challenges[id as int]@, pow as nat));
        },
        _ => {},
    }
}

/// Whether no sum stands inside a product of the expression. A scaled sum stands for one term: it
/// may not be a factor, unless one of its parts is visibly zero, and nothing is asked of its parts.
pub open spec fn monomial_form(e: Expression, in_product: bool) -> bool
    decreases e,
{
    match e {
        Expression::Sum(a, b) => !in_product && monomial_form(*a, false) && monomial_form(*b, false),
        Expression::Product(a, b) => monomial_form(*a, true) && monomial_form(*b, true),
        Expression::ScaledSum(x, a, b) => !in_product || spec_is_zero_expr(*x)
            || spec_is_zero_expr(*a) || spec_is_zero_expr(*b),
        _ => true,
    }
}

/// The expression is a leaf, or a product of leaves.
pub open spec fn product_of_leaves(e: Expression) -> bool
    decreases e,
{
    match e {
        Expression::Product(a, b) => product_of_leaves(*a) && product_of_leaves(*b),
        Expression::Sum(_, _) => false,
        Expression::ScaledSum(_, _, _) => false,
        _ => true,
    }
}

/// The expression is a sum of products of leaves.
pub open spec fn sum_of_products(e: Expression) -> bool
    decreases e,
{
    match e {
        Expression::Sum(a, b) => sum_of_products(*a) && sum_of_products(*b),
        _ => product_of_leaves(e),
    }
}

/// A sum of products of leaves is in monomial form.
pub proof fn lemma_monomial_form(e: Expression)
    requires
        sum_of_products(e),
    ensures
        monomial_form(e, false),
        product_of_leaves(e) ==> monomial_form(e, true),
    decreases e,
{
    reveal_with_fuel(product_of_leaves, 2);
    match e {
        Expression::Sum(a, b) => {
            lemma_monomial_form(*a);
            lemma_monomial_form(*b);
        },
        Expression::Product(a, b) => {
            lemma_monomial_form(*a);
            lemma_monomial_form(*b);
        },
        _ => {},
    }
}

/// Where a part of an expression stands.
#[derive(Clone, Copy, PartialEq, Eq, Structural)]
enum MonomialState {
    SumTerm,
    ProductTerm,
}

impl Expression {
    /// Whether the expression is in monomial form.
    pub fn is_monomial_form(&self) -> (r: bool)
        ensures
            r == monomial_form(*self, false),
    {
        Self::is_monomial_form_inner(MonomialState::SumTerm, self)
    }

    /// Whether the expression is visibly zero.
    pub fn is_zero_expr(expr: &Expression) -> (r: bool)
        ensures
            r == spec_is_zero_expr(*expr),
        decreases expr,
    {
        match expr {
            Expression::Constant(c) => match c {
                Either::Left(b) => *b == Goldilocks::zero(),
                Either::Right(e) => *e == GoldilocksExt2::zero(),
            },
            Expression::Sum(a, b) => Self::is_zero_expr(a) && Self::is_zero_expr(b),
            Expression::Product(a, b) => Self::is_zero_expr(a) || Self::is_zero_expr(b),
            Expression::ScaledSum(x, a, b) => (Self::is_zero_expr(x) || Self::is_zero_expr(a))
                && Self::is_zero_expr(b),
            Expression::Challenge(_, _, scalar, offset) => *scalar == GoldilocksExt2::zero()
                && *offset == GoldilocksExt2::zero(),
            _ => false,
        }
    }

    fn is_monomial_form_inner(s: MonomialState, expr: &Expression) -> (r: bool)
        ensures
            r == monomial_form(*expr, s == MonomialState::ProductTerm),
        decreases expr,
    {
        match (expr, s) {
            (Expression::Sum(a, b), MonomialState::SumTerm) => Self::is_monomial_form_inner(
                MonomialState::SumTerm,
                a,
            ) && Self::is_monomial_form_inner(MonomialState::SumTerm, b),
            (Expression::Sum(_, _), MonomialState::ProductTerm) => false,
            (Expression::Product(a, b), _) => Self::is_monomial_form_inner(
                MonomialState::ProductTerm,
                a,
            ) && Self::is_monomial_form_inner(MonomialState::ProductTerm, b),
            (Expression::ScaledSum(_, _, _), MonomialState::SumTerm) => true,
            (Expression::ScaledSum(x, a, b), MonomialState::ProductTerm) => Self::is_zero_expr(x)
                || Self::is_zero_expr(a) || Self::is_zero_expr(b),
            _ => true,
        }
    }

    /// The expression as a sum of products of leaves.
    pub fn get_monomial_form(&self) -> (r: Expression)
        ensures
            sum_of_products(r),
            monomial_form(r, false),
            forall|env: Env| #[trigger] r.eval(env) == self.eval(env),
    {
        let terms = distribute(self);
        let mut r = Expression::zero();
        let mut i: usize = 0;
        while i < terms.len()
            invariant
                i <= terms@.len(),
                forall|k: int| 0 <= k < terms@.len() ==> product_of_leaves(#[trigger] terms@[k]),
                sum_of_products(r),
                forall|env: Env| #[trigger] r.eval(env) == sum_of(terms@.take(i as int), env),
            decreases terms@.len() - i,
        {
            let ghost before = r;
            let term = terms[i].clone();
            assert(sum_of_products(term));
            r = Expression::Sum(Box::new(r), Box::new(term));
            proof {
                assert(terms@.take(i + 1).drop_last() =~= terms@.take(i as int));
                assert forall|env: Env| #[trigger] r.eval(env) == sum_of(terms@.take(i + 1), env) by {
                    assert(before.eval(env) == sum_of(terms@.take(i as int), env));
                }
            }
            i = i + 1;
        }
        assert(terms@.take(i as int) =~= terms@);
        proof {
            lemma_monomial_form(r);
        }
        r
    }
}

/// The sum of the values of terms.
pub open spec fn sum_of(terms: Seq<Expression>, env: Env) -> Ext
    decreases terms.len(),
{
    if terms.len() == 0 {
        e_zero()
    } else {
        e_add(sum_of(terms.drop_last(), env), terms.last().eval(env))
    }
}

proof fn lemma_sum_valid(terms: Seq<Expression>, env: Env)
    ensures
        sum_of(terms, env).valid(),
{
}

proof fn lemma_sum_append(s: Seq<Expression>, t: Seq<Expression>, env: Env)
    ensures
        sum_of(s + t, env) == e_add(sum_of(s, env), sum_of(t, env)),
    decreases t.len(),
{
    lemma_sum_valid(s, env);
    if t.len() == 0 {
        assert(s + t =~= s);
        lemma_e_add_zero(sum_of(s, env));
    } else {
        assert((s + t).drop_last() =~= s + t.drop_last());
        lemma_sum_append(s, t.drop_last(), env);
        lemma_e_add_assoc(sum_of(s, env), sum_of(t.drop_last(), env), t.last().eval(env));
    }
}

/// The products whose sum is the expression.
fn distribute(e: &Expression) -> (r: Vec<Expression>)
    ensures
        forall|k: int| 0 <= k < r@.len() ==> product_of_leaves(#[trigger] r@[k]),
        forall|env: Env| #[trigger] sum_of(r@, env) == e.eval(env),
    decreases e,
{
    match e {
        Expression::Sum(a, b) => {
            let mut s = distribute(a);
            let t = distribute(b);
            let ghost first = s@;
            append_terms(&mut s, &t);
            proof {
                assert forall|env: Env| #[trigger] sum_of(s@, env) == e.eval(env) by {
                    lemma_sum_append(first, t@, env);
                    assert(sum_of(first, env) == a.eval(env));
                    assert(sum_of(t@, env) == b.eval(env));
                }
            }
            s
        },
        Expression::Product(a, b) => {
            let s = distribute(a);
            let t = distribute(b);
            let r = multiply_terms(&s, &t);
            proof {
                assert forall|env: Env| #[trigger] sum_of(r@, env) == e.eval(env) by {
                    assert(sum_of(s@, env) == a.eval(env));
                    assert(sum_of(t@, env) == b.eval(env));
                }
            }
            r
        },
        Expression::ScaledSum(x, a, b) => {
            let c = distribute(a);
            let s = distribute(x);
            let t = distribute(b);
            let mut r = multiply_terms(&c, &s);
            let ghost first = r@;
            append_terms(&mut r, &t);
            proof {
                assert forall|env: Env| #[trigger] sum_of(r@, env) == e.eval(env) by {
                    lemma_sum_append(first, t@, env);
                    assert(sum_of(first, env) == e_mul(sum_of(c@, env), sum_of(s@, env)));
                    assert(sum_of(c@, env) == a.eval(env));
                    assert(sum_of(s@, env) == x.eval(env));
                    assert(sum_of(t@, env) == b.eval(env));
                }
            }
            r
        },
        _ => {
            let mut r: Vec<Expression> = Vec::new();
            r.push(e.clone());
            proof {
                assert forall|env: Env| #[trigger] sum_of(r@, env) == e.eval(env) by {
                    lemma_eval_valid(*e, env);
                    assert(r@.drop_last() =~= Seq::<Expression>::empty());
                    assert(sum_of(r@.drop_last(), env) == e_zero());
                    lemma_e_add_zero(e.eval(env));
                }
            }
            r
        },
    }
}

fn append_terms(s: &mut Vec<Expression>, t: &Vec<Expression>)
    ensures
        final(s)@ == old(s)@ + t@,
{
    let ghost before = s@;
    let mut i: usize = 0;
    assert(s@ =~= before + t@.take(0));
    while i < t.len()
        invariant
            i <= t@.len(),
            s@ == before + t@.take(i as int),
        decreases t@.len() - i,
    {
        s.push(t[i].clone());
        i = i + 1;
        assert(s@ =~= before + t@.take(i as int));
    }
    assert(t@.take(i as int) =~= t@);
}

/// The products of a term and the first of other terms.
spec fn scaled_terms(a: Expression, t: Seq<Expression>) -> Seq<Expression> {
    t.map_values(|b: Expression| Expression::Product(Box::new(a), Box::new(b)))
}

proof fn lemma_scaled_terms(a: Expression, t: Seq<Expression>, env: Env)
    ensures
        sum_of(scaled_terms(a, t), env) == e_mul(a.eval(env), sum_of(t, env)),
    decreases t.len(),
{
    if t.len() == 0 {
        lemma_e_mul_zero(a.eval(env));
    } else {
        lemma_scaled_terms(a, t.drop_last(), env);
        assert(scaled_terms(a, t).drop_last() =~= scaled_terms(a, t.drop_last()));
        lemma_e_mul_add(a.eval(env), sum_of(t.drop_last(), env), t.last().eval(env));
    }
}

/// All products of a term of one list with a term of another.
fn multiply_terms(s: &Vec<Expression>, t: &Vec<Expression>) -> (r: Vec<Expression>)
    requires
        forall|k: int| 0 <= k < s@.len() ==> product_of_leaves(#[trigger] s@[k]),
        forall|k: int| 0 <= k < t@.len() ==> product_of_leaves(#[trigger] t@[k]),
    ensures
        forall|k: int| 0 <= k < r@.len() ==> product_of_leaves(#[trigger] r@[k]),
        forall|env: Env| #[trigger]
            sum_of(r@, env) == e_mul(sum_of(s@, env), sum_of(t@, env)),
{
    let mut r: Vec<Expression> = Vec::new();
    let mut i: usize = 0;
    proof {
        assert forall|env: Env| #[trigger] sum_of(r@, env) == e_mul(
            sum_of(s@.take(0), env),
            sum_of(t@, env),
        ) by {
            lemma_e_mul_zero(sum_of(t@, env));
        }
    }
    while i < s.len()
        invariant
            i <= s@.len(),
            forall|k: int| 0 <= k < s@.len() ==> product_of_leaves(#[trigger] s@[k]),
            forall|k: int| 0 <= k < t@.len() ==> product_of_leaves(#[trigger] t@[k]),
            forall|k: int| 0 <= k < r@.len() ==> product_of_leaves(#[trigger] r@[k]),
            forall|env: Env| #[trigger]
                sum_of(r@, env) == e_mul(sum_of(s@.take(i as int), env), sum_of(t@, env)),
        decreases s@.len() - i,
    {
        let ghost start = r@;
        let ghost a = s@[i as int];
        let mut j: usize = 0;
        assert(r@ =~= start + scaled_terms(a, t@.take(0)));
        while j < t.len()
            invariant
                i < s@.len(),
                a == s@[i as int],
                j <= t@.len(),
                forall|k: int| 0 <= k < s@.len() ==> product_of_leaves(#[trigger] s@[k]),
                forall|k: int| 0 <= k < t@.len() ==> product_of_leaves(#[trigger] t@[k]),
                forall|k: int| 0 <= k < r@.len() ==> product_of_leaves(#[trigger] r@[k]),
                r@ == start + scaled_terms(a, t@.take(j as int)),
            decreases t@.len() - j,
        {
            let term = Expression::Product(Box::new(s[i].clone()), Box::new(t[j].clone()));
            assert(product_of_leaves(s@[i as int]) && product_of_leaves(t@[j as int]));
            r.push(term);
            j = j + 1;
            assert(r@ =~= start + scaled_terms(a, t@.take(j as int)));
        }
        proof {
            assert(t@.take(j as int) =~= t@);
            assert forall|env: Env| #[trigger] sum_of(r@, env) == e_mul(
                sum_of(s@.take(i + 1), env),
                sum_of(t@, env),
            ) by {
                lemma_sum_append(start, scaled_terms(a, t@), env);
                lemma_scaled_terms(a, t@, env);
                assert(sum_of(start, env) == e_mul(
                    sum_of(s@.take(i as int), env),
                    sum_of(t@, env),
                ));
                assert(s@.take(i + 1).drop_last() =~= s@.take(i as int));
                lemma_e_mul_add(
                    sum_of(t@, env),
                    sum_of(s@.take(i as int), env),
                    a.eval(env),
                );
            }
        }
        i = i + 1;
    }
    assert(s@.take(i as int) =~= s@);
    r
}

/// An expression without scaled sums is in monomial form only if it is a sum of products of leaves:
/// no sum stands in a product. A scaled sum is in monomial form, but in a product only if one of its
/// parts is visibly zero.
pub proof fn lemma_only_monomials(e: Expression, x: Expression, a: Expression, b: Expression)
    ensures
        has_no_scaled_sum(e) && monomial_form(e, false) ==> sum_of_products(e),
        has_no_scaled_sum(e) && monomial_form(e, true) ==> product_of_leaves(e),
        ({
            let scaled = Expression::ScaledSum(Box::new(x), Box::new(a), Box::new(b));
            &&& monomial_form(scaled, false)
            &&& monomial_form(scaled, true) <==> spec_is_zero_expr(x) || spec_is_zero_expr(a)
                || spec_is_zero_expr(b)
        }),
    decreases e,
{
    reveal_with_fuel(product_of_leaves, 2);
    match e {
        Expression::Sum(c, d) => {
            lemma_only_monomials(*c, x, a, b);
            lemma_only_monomials(*d, x, a, b);
        },
        Expression::Product(c, d) => {
            lemma_only_monomials(*c, x, a, b);
            lemma_only_monomials(*d, x, a, b);
        },
        _ => {},
    }
}

/// What is visibly zero: the constant zero, a challenge with zero for scalar and offset, a sum of
/// such, and a product with one such factor. A column never is.
pub proof fn lemma_visibly_zero(a: Expression, b: Expression, x: Expression)
    ensures
        spec_is_zero_expr(Expression::Sum(Box::new(a), Box::new(b))) == (spec_is_zero_expr(a)
            && spec_is_zero_expr(b)),
        spec_is_zero_expr(Expression::Product(Box::new(a), Box::new(b))) == (spec_is_zero_expr(a)
            || spec_is_zero_expr(b)),
        spec_is_zero_expr(Expression::ScaledSum(Box::new(x), Box::new(a), Box::new(b)))
            == spec_is_zero_expr(
            Expression::Sum(Box::new(Expression::Product(Box::new(a), Box::new(x))), Box::new(b)),
        ),
        a is Constant ==> (spec_is_zero_expr(a) <==> forall|env: Env|
            #[trigger] a.eval(env) == e_zero()),
        a is WitIn || a is StructuralWitIn || a is Fixed || a is Instance ==> !spec_is_zero_expr(a),
{
    reveal_with_fuel(spec_is_zero_expr, 3);
    if a is Constant {
        let env = Env {
            fixed: Seq::empty(),
            wit: Seq::empty(),
            structural: Seq::empty(),
            instance: Seq::empty(),
            challenges: Seq::empty(),
        };
        assert(a.eval(env) == scalar_value(a->Constant_0));
    }
}

} // verus!
