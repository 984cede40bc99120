//! Sums and products of many expressions, multiples by powers of two, and operations in place.
use core::ops::{AddAssign, Shl, SubAssign};
use vstd::arithmetic::power2::*;
use vstd::bits::*;
use vstd::prelude::*;
use vstd::std_specs::ops::ShlSpec;

use crate::expression::convert::unsigned_const;
use crate::expression::laws::{lemma_eval_add, lemma_eval_mul};
use crate::expression::{base_const, Env, Expression};
use crate::field::{e_add, e_base, e_mul, e_one, e_zero, group_field, modulus, Ext};

verus! {

broadcast use group_field;

/// The sum of expressions from the first on.
pub open spec fn sum_exprs(exprs: Seq<Expression>) -> Expression
    decreases exprs.len(),
{
    if exprs.len() == 0 {
        base_const(0)
    } else {
        sum_exprs(exprs.drop_last()).spec_add(exprs.last())
    }
}

/// The product of expressions from the first on.
pub open spec fn product_exprs(exprs: Seq<Expression>) -> Expression
    decreases exprs.len(),
{
    if exprs.len() == 0 {
        base_const(1)
    } else {
        product_exprs(exprs.drop_last()).spec_mul(exprs.last())
    }
}

/// The powers of the challenges in the product fit in a machine word.
pub open spec fn product_fits(exprs: Seq<Expression>) -> bool {
    forall|i: int|
        0 <= i < exprs.len() ==> product_exprs(exprs.take(i)).mul_fits(#[trigger] exprs[i])
}

/// The sum of values.
pub open spec fn values_sum(exprs: Seq<Expression>, env: Env) -> Ext
    decreases exprs.len(),
{
    if exprs.len() == 0 {
        e_zero()
    } else {
        e_add(values_sum(exprs.drop_last(), env), exprs.last().eval(env))
    }
}

/// The product of values.
pub open spec fn values_product(exprs: Seq<Expression>, env: Env) -> Ext
    decreases exprs.len(),
{
    if exprs.len() == 0 {
        e_one()
    } else {
        e_mul(values_product(exprs.drop_last(), env), exprs.last().eval(env))
    }
}

/// The value of a sum is the sum of the values.
pub proof fn lemma_sum_exprs(exprs: Seq<Expression>, env: Env)
    ensures
        sum_exprs(exprs).eval(env) == values_sum(exprs, env),
    decreases exprs.len(),
{
    if exprs.len() > 0 {
        lemma_sum_exprs(exprs.drop_last(), env);
        lemma_eval_add(sum_exprs(exprs.drop_last()), exprs.last(), env);
    }
}

/// The value of a product is the product of the values.
pub proof fn lemma_product_exprs(exprs: Seq<Expression>, env: Env)
    requires
        product_fits(exprs),
    ensures
        product_exprs(exprs).eval(env) == values_product(exprs, env),
    decreases exprs.len(),
{
    if exprs.len() > 0 {
        let n = exprs.len() as int;
        let rest = exprs.drop_last();
        assert(exprs.take(n - 1) =~= rest);
        assert(product_exprs(exprs.take(n - 1)).mul_fits(exprs[n - 1]));
        assert(product_fits(rest)) by {
            assert forall|i: int| 0 <= i < rest.len() implies product_exprs(rest.take(i)).mul_fits(
                #[trigger] rest[i],
            ) by {
                assert(rest.take(i) =~= exprs.take(i));
                assert(rest[i] == exprs[i]);
            }
        }
        lemma_product_exprs(rest, env);
        lemma_eval_mul(product_exprs(rest), exprs.last(), env);
    }
}

impl Expression {
    /// The sum of expressions.
    pub fn sum(exprs: &[Expression]) -> (r: Expression)
        ensures
            r == sum_exprs(exprs@),
    {
        let mut r = Expression::zero();
        let mut i: usize = 0;
        assert(exprs@.take(0) =~= Seq::<Expression>::empty());
        while i < exprs.len()
            invariant
                i <= exprs@.len(),
                r == sum_exprs(exprs@.take(i as int)),
            decreases exprs@.len() - i,
        {
            r = r + exprs[i].clone();
            assert(exprs@.take(i + 1).drop_last() =~= exprs@.take(i as int));
            i = i + 1;
        }
        assert(exprs@.take(i as int) =~= exprs@);
        r
    }

    /// The product of expressions.
    pub fn product(exprs: &[Expression]) -> (r: Expression)
        requires
            product_fits(exprs@),
        ensures
            r == product_exprs(exprs@),
    {
        let mut r = Expression::one();
        let mut i: usize = 0;
        assert(exprs@.take(0) =~= Seq::<Expression>::empty());
        while i < exprs.len()
            invariant
                i <= exprs@.len(),
                product_fits(exprs@),
                r == product_exprs(exprs@.take(i as int)),
            decreases exprs@.len() - i,
        {
            assert(product_exprs(exprs@.take(i as int)).mul_fits(exprs@[i as int]));
            r = r * exprs[i].clone();
            assert(exprs@.take(i + 1).drop_last() =~= exprs@.take(i as int));
            i = i + 1;
        }
        assert(exprs@.take(i as int) =~= exprs@);
        r
    }
}

impl Shl<usize> for Expression {
    type Output = Expression;

    fn shl(self, rhs: usize) -> (r: Expression) {
        let factor: usize = 1usize << rhs;
        proof {
            lemma_usize_pow2_no_overflow(rhs as nat);
            lemma_usize_shl_is_mul(1, rhs);
        }
        self * Expression::from(factor)
    }
}

impl vstd::std_specs::ops::ShlSpecImpl<usize> for Expression {
    open spec fn obeys_shl_spec() -> bool {
        true
    }

    open spec fn shl_req(self, rhs: usize) -> bool {
        &&& rhs < usize::BITS
        &&& self.mul_fits(unsigned_const(pow2(rhs as nat) as int))
    }

    open spec fn shl_spec(self, rhs: usize) -> Expression {
        self.spec_mul(unsigned_const(pow2(rhs as nat) as int))
    }
}

impl AddAssign for Expression {
    fn add_assign(&mut self, rhs: Expression)
        ensures
            *final(self) == old(self).spec_add(rhs),
    {
        *self = self.clone() + rhs;
    }
}

impl SubAssign for Expression {
    fn sub_assign(&mut self, rhs: Expression)
        ensures
            *final(self) == old(self).spec_sub(rhs),
    {
        *self = self.clone() - rhs;
    }
}

impl Expression {
    /// Multiplies the expression in place.
    pub fn mul_assign(&mut self, rhs: Expression)
        requires
            old(self).mul_fits(rhs),
        ensures
            *final(self) == old(self).spec_mul(rhs),
    {
        *self = self.clone() * rhs;
    }

    /// Multiplies the expression by a power of two in place.
    pub fn shl_assign(&mut self, rhs: usize)
        requires
            rhs < usize::BITS,
            old(self).mul_fits(unsigned_const(pow2(rhs as nat) as int)),
        ensures
            *final(self) == old(self).spec_mul(unsigned_const(pow2(rhs as nat) as int)),
    {
        *self = self.clone() << rhs;
    }
}

/// Shifting an expression by `k` bits multiplies its value by `2^k`.
pub proof fn lemma_shifted_value(e: Expression, k: usize, env: Env)
    requires
        pow2(k as nat) <= u64::MAX,
        e.mul_fits(unsigned_const(pow2(k as nat) as int)),
    ensures
        <Expression as ShlSpec<usize>>::shl_spec(e, k).eval(env) == e_mul(
            e.eval(env),
            e_base(pow2(k as nat) as int % modulus()),
        ),
        e.spec_mul(unsigned_const(pow2(k as nat) as int)).eval(env) == e_mul(
            e.eval(env),
            e_base(pow2(k as nat) as int % modulus()),
        ),
{
    lemma_eval_mul(e, unsigned_const(pow2(k as nat) as int), env);
}

} // verus!
