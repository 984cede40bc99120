//! Conversions into expressions.
use vstd::arithmetic::div_mod::*;
use vstd::prelude::*;

use crate::either::Either;
use crate::expression::{base_const, Expression, Fixed, Instance, StructuralWitIn, WitIn};
use crate::field::{group_field, modulus, Goldilocks, MODULUS_U64};

verus! {

broadcast use group_field;

/// What can be written as an expression.
pub trait ToExpr {
    spec fn spec_expr(&self) -> Expression;

    fn expr(&self) -> (r: Expression)
        ensures
            r == self.spec_expr(),
    ;
}

impl ToExpr for WitIn {
    open spec fn spec_expr(&self) -> Expression {
        Expression::WitIn(self.id)
    }

    fn expr(&self) -> (r: Expression) {
        Expression::WitIn(self.id)
    }
}

impl ToExpr for StructuralWitIn {
    open spec fn spec_expr(&self) -> Expression {
        Expression::StructuralWitIn(self.id, self.max_len, self.offset, self.multi_factor)
    }

    fn expr(&self) -> (r: Expression) {
        Expression::StructuralWitIn(self.id, self.max_len, self.offset, self.multi_factor)
    }
}

impl ToExpr for Fixed {
    open spec fn spec_expr(&self) -> Expression {
        Expression::Fixed(*self)
    }

    fn expr(&self) -> (r: Expression) {
        Expression::Fixed(*self)
    }
}

impl ToExpr for Instance {
    open spec fn spec_expr(&self) -> Expression {
        Expression::Instance(*self)
    }

    fn expr(&self) -> (r: Expression) {
        Expression::Instance(*self)
    }
}

impl ToExpr for Goldilocks {
    open spec fn spec_expr(&self) -> Expression {
        Expression::Constant(Either::Left(*self))
    }

    fn expr(&self) -> (r: Expression) {
        Expression::Constant(Either::Left(*self))
    }
}

impl ToExpr for Expression {
    open spec fn spec_expr(&self) -> Expression {
        *self
    }

    fn expr(&self) -> (r: Expression) {
        self.clone()
    }
}

impl From<WitIn> for Expression {
    fn from(value: WitIn) -> (r: Self) {
        value.expr()
    }
}

impl vstd::std_specs::convert::FromSpecImpl<WitIn> for Expression {
    open spec fn obeys_from_spec() -> bool {
        true
    }

    open spec fn from_spec(value: WitIn) -> Self {
        value.spec_expr()
    }
}

impl From<StructuralWitIn> for Expression {
    fn from(value: StructuralWitIn) -> (r: Self) {
        value.expr()
    }
}

impl vstd::std_specs::convert::FromSpecImpl<StructuralWitIn> for Expression {
    open spec fn obeys_from_spec() -> bool {
        true
    }

    open spec fn from_spec(value: StructuralWitIn) -> Self {
        value.spec_expr()
    }
}

impl From<Fixed> for Expression {
    fn from(value: Fixed) -> (r: Self) {
        value.expr()
    }
}

impl vstd::std_specs::convert::FromSpecImpl<Fixed> for Expression {
    open spec fn obeys_from_spec() -> bool {
        true
    }

    open spec fn from_spec(value: Fixed) -> Self {
        value.spec_expr()
    }
}

impl From<Instance> for Expression {
    fn from(value: Instance) -> (r: Self) {
        value.expr()
    }
}

impl vstd::std_specs::convert::FromSpecImpl<Instance> for Expression {
    open spec fn obeys_from_spec() -> bool {
        true
    }

    open spec fn from_spec(value: Instance) -> Self {
        value.spec_expr()
    }
}

/// The constant with the given representative.
pub open spec fn unsigned_const(value: int) -> Expression {
    Expression::Constant(Either::Left(Goldilocks { value: value as u64 }))
}

impl From<u8> for Expression {
    fn from(value: u8) -> (r: Self) {
        Expression::Constant(Either::Left(Goldilocks::from_canonical_u64(value as u64)))
    }
}

impl vstd::std_specs::convert::FromSpecImpl<u8> for Expression {
    open spec fn obeys_from_spec() -> bool {
        true
    }

    open spec fn from_spec(value: u8) -> Self {
        unsigned_const(value as int)
    }
}

impl From<u16> for Expression {
    fn from(value: u16) -> (r: Self) {
        Expression::Constant(Either::Left(Goldilocks::from_canonical_u64(value as u64)))
    }
}

impl vstd::std_specs::convert::FromSpecImpl<u16> for Expression {
    open spec fn obeys_from_spec() -> bool {
        true
    }

    open spec fn from_spec(value: u16) -> Self {
        unsigned_const(value as int)
    }
}

impl From<u32> for Expression {
    fn from(value: u32) -> (r: Self) {
        Expression::Constant(Either::Left(Goldilocks::from_canonical_u64(value as u64)))
    }
}

impl vstd::std_specs::convert::FromSpecImpl<u32> for Expression {
    open spec fn obeys_from_spec() -> bool {
        true
    }

    open spec fn from_spec(value: u32) -> Self {
        unsigned_const(value as int)
    }
}

impl From<u64> for Expression {
    fn from(value: u64) -> (r: Self) {
        Expression::Constant(Either::Left(Goldilocks::from_canonical_u64(value as u64)))
    }
}

impl vstd::std_specs::convert::FromSpecImpl<u64> for Expression {
    open spec fn obeys_from_spec() -> bool {
        true
    }

    open spec fn from_spec(value: u64) -> Self {
        unsigned_const(value as int)
    }
}

impl From<usize> for Expression {
    fn from(value: usize) -> (r: Self) {
        Expression::Constant(Either::Left(Goldilocks::from_canonical_u64(value as u64)))
    }
}

impl vstd::std_specs::convert::FromSpecImpl<usize> for Expression {
    open spec fn obeys_from_spec() -> bool {
        true
    }

    open spec fn from_spec(value: usize) -> Self {
        unsigned_const(value as int)
    }
}

/// The constant of an integer modulo the order of the field.
fn signed_const(value: i64) -> (r: Expression)
    ensures
        r == base_const(value as int),
{
    let m: i128 = MODULUS_U64 as i128;
    let v: i128 = value as i128;
    let reduced: u64 = if v < 0 {
        (v + m) as u64
    } else {
        v as u64
    };
    proof {
        if v < 0 {
            lemma_mod_add_multiples_vanish(value as int, modulus());
            lemma_small_mod((value + modulus()) as nat, modulus() as nat);
        } else {
            lemma_small_mod(value as nat, modulus() as nat);
        }
    }
    Expression::Constant(Either::Left(Goldilocks::from_canonical_u64(reduced)))
}

impl From<i8> for Expression {
    fn from(value: i8) -> (r: Self) {
        signed_const(value as i64)
    }
}

impl vstd::std_specs::convert::FromSpecImpl<i8> for Expression {
    open spec fn obeys_from_spec() -> bool {
        true
    }

    open spec fn from_spec(value: i8) -> Self {
        base_const(value as int)
    }
}

impl From<i16> for Expression {
    fn from(value: i16) -> (r: Self) {
        signed_const(value as i64)
    }
}

impl vstd::std_specs::convert::FromSpecImpl<i16> for Expression {
    open spec fn obeys_from_spec() -> bool {
        true
    }

    open spec fn from_spec(value: i16) -> Self {
        base_const(value as int)
    }
}

impl From<i32> for Expression {
    fn from(value: i32) -> (r: Self) {
        signed_const(value as i64)
    }
}

impl vstd::std_specs::convert::FromSpecImpl<i32> for Expression {
    open spec fn obeys_from_spec() -> bool {
        true
    }

    open spec fn from_spec(value: i32) -> Self {
        base_const(value as int)
    }
}

impl From<i64> for Expression {
    fn from(value: i64) -> (r: Self) {
        signed_const(value as i64)
    }
}

impl vstd::std_specs::convert::FromSpecImpl<i64> for Expression {
    open spec fn obeys_from_spec() -> bool {
        true
    }

    open spec fn from_spec(value: i64) -> Self {
        base_const(value as int)
    }
}

impl From<isize> for Expression {
    fn from(value: isize) -> (r: Self) {
        signed_const(value as i64)
    }
}

impl vstd::std_specs::convert::FromSpecImpl<isize> for Expression {
    open spec fn obeys_from_spec() -> bool {
        true
    }

    open spec fn from_spec(value: isize) -> Self {
        base_const(value as int)
    }
}

} // verus!
