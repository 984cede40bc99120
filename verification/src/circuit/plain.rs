//! Expressions over the witnesses of one row with constants of the base field.
use vstd::arithmetic::div_mod::*;
use vstd::prelude::*;

use crate::either::Either;
use crate::expression::laws::{lemma_eval_add, lemma_eval_mul, lemma_eval_sub, lemma_eval_valid};
use crate::expression::{Env, Expression, WitIn};
use crate::field::{
    e_base, f_add, f_mul, f_sub, gl, group_field, modulus, Goldilocks, GoldilocksExt2,
};
use crate::ring::lemma_e_base_ops;

verus! {

broadcast use group_field;

/// Only witnesses and constants of the base field occur.
pub open spec fn plain(e: Expression) -> bool
    decreases e,
{
    match e {
        Expression::WitIn(_) => true,
        Expression::Constant(c) => c is Left,
        Expression::Sum(a, b) => plain(*a) && plain(*b),
        Expression::Product(a, b) => plain(*a) && plain(*b),
        Expression::ScaledSum(x, a, b) => plain(*x) && plain(*a) && plain(*b),
        _ => false,
    }
}

/// The entry of a row; columns past its end are zero.
pub open spec fn cell(row: Seq<Goldilocks>, id: int) -> Goldilocks {
    if id < row.len() {
        row[id]
    } else {
        gl(0)
    }
}

/// The witnesses of a row.
pub open spec fn row_witnesses(row: Seq<Goldilocks>) -> Env {
    Env {
        fixed: Seq::empty(),
        wit: Seq::new(65536, |i: int| GoldilocksExt2 { c0: cell(row, i), c1: gl(0) }),
        structural: Seq::empty(),
        instance: Seq::empty(),
        challenges: Seq::empty(),
    }
}

/// The value of a plain expression at a row, in the base field.
#[verifier::opaque]
pub open spec fn value(e: Expression, row: Seq<Goldilocks>) -> int {
    e.eval(row_witnesses(row)).c0
}

/// The value of a plain expression is in the base field.
pub proof fn lemma_plain_value(e: Expression, row: Seq<Goldilocks>)
    requires
        plain(e),
    ensures
        e.eval(row_witnesses(row)) == e_base(value(e, row)),
        0 <= value(e, row) < modulus(),
    decreases e,
{
    broadcast use lemma_eval_valid;

    reveal(value);
    match e {
        Expression::Sum(a, b) => {
            lemma_plain_value(*a, row);
            lemma_plain_value(*b, row);
            lemma_e_base_ops(value(*a, row), value(*b, row));
        },
        Expression::Product(a, b) => {
            lemma_plain_value(*a, row);
            lemma_plain_value(*b, row);
            lemma_e_base_ops(value(*a, row), value(*b, row));
        },
        Expression::ScaledSum(x, a, b) => {
            lemma_plain_value(*x, row);
            lemma_plain_value(*a, row);
            lemma_plain_value(*b, row);
            lemma_e_base_ops(value(*a, row), value(*x, row));
            lemma_e_base_ops(f_mul(value(*a, row), value(*x, row)), value(*b, row));
        },
        _ => {},
    }
}

proof fn lemma_plain_neg(a: Expression)
    requires
        plain(a),
    ensures
        plain(a.spec_neg()),
    decreases a,
{
    match a {
        Expression::Sum(x, y) => {
            lemma_plain_neg(*x);
            lemma_plain_neg(*y);
        },
        Expression::Product(x, y) => {
            lemma_plain_neg(*x);
        },
        Expression::ScaledSum(x, k, o) => {
            lemma_plain_neg(*k);
            lemma_plain_neg(*o);
        },
        Expression::WitIn(_) => {
            reveal_with_fuel(plain, 2);
        },
        _ => {},
    }
}

/// Plain expressions are closed under the operations.
pub proof fn lemma_plain_ops(a: Expression, b: Expression)
    requires
        plain(a),
        plain(b),
    ensures
        plain(a.spec_add(b)),
        plain(a.spec_sub(b)),
        plain(a.spec_mul(b)),
        a.mul_fits(b),
    decreases a.size() + b.size(),
{
    reveal_with_fuel(plain, 2);
    lemma_plain_neg(a);
    lemma_plain_neg(b);
    match (a, b) {
        (Expression::Constant(_), Expression::ScaledSum(x, k, o)) => {
            lemma_plain_neg(*k);
            lemma_plain_ops(*o, a);
            lemma_plain_ops(a, *o);
            lemma_plain_ops(*k, a);
        },
        (Expression::ScaledSum(x, k, o), Expression::Constant(_)) => {
            lemma_plain_ops(*o, b);
            lemma_plain_ops(*k, b);
        },
        _ => {},
    }
}

/// The value of a plain expression from the values of its parts.
pub proof fn lemma_value_parts(e: Expression, row: Seq<Goldilocks>)
    requires
        plain(e),
    ensures
        match e {
            Expression::WitIn(id) => value(e, row) == cell(row, id as int)@,
            Expression::Constant(Either::Left(b)) => value(e, row) == b@,
            Expression::Sum(a, b) => value(e, row) == f_add(value(*a, row), value(*b, row)),
            Expression::Product(a, b) => value(e, row) == f_mul(value(*a, row), value(*b, row)),
            Expression::ScaledSum(x, a, b) => value(e, row) == f_add(
                f_mul(value(*a, row), value(*x, row)),
                value(*b, row),
            ),
            _ => true,
        },
{
    reveal(value);
    match e {
        Expression::Sum(a, b) => {
            lemma_plain_value(*a, row);
            lemma_plain_value(*b, row);
            lemma_e_base_ops(value(*a, row), value(*b, row));
        },
        Expression::Product(a, b) => {
            lemma_plain_value(*a, row);
            lemma_plain_value(*b, row);
            lemma_e_base_ops(value(*a, row), value(*b, row));
        },
        Expression::ScaledSum(x, a, b) => {
            lemma_plain_value(*x, row);
            lemma_plain_value(*a, row);
            lemma_plain_value(*b, row);
            lemma_e_base_ops(value(*a, row), value(*x, row));
            lemma_e_base_ops(f_mul(value(*a, row), value(*x, row)), value(*b, row));
        },
        _ => {},
    }
}

/// The values of sums, differences and products of plain expressions.
pub proof fn lemma_value_ops(a: Expression, b: Expression, row: Seq<Goldilocks>)
    requires
        plain(a),
        plain(b),
    ensures
        value(a.spec_add(b), row) == f_add(value(a, row), value(b, row)),
        value(a.spec_sub(b), row) == f_sub(value(a, row), value(b, row)),
        value(a.spec_mul(b), row) == f_mul(value(a, row), value(b, row)),
{
    reveal(value);
    lemma_plain_ops(a, b);
    lemma_eval_add(a, b, row_witnesses(row));
    lemma_eval_sub(a, b, row_witnesses(row));
    lemma_eval_mul(a, b, row_witnesses(row));
    lemma_plain_value(a, row);
    lemma_plain_value(b, row);
    lemma_e_base_ops(value(a, row), value(b, row));
}

/// The expression of a witness.
pub fn witness(w: WitIn) -> (r: Expression)
    ensures
        r == Expression::WitIn(w.id),
        plain(r),
        forall|row: Seq<Goldilocks>| #[trigger] value(r, row) == cell(row, w.id as int)@,
{
    let r = Expression::WitIn(w.id);
    proof {
        assert forall|row: Seq<Goldilocks>| #[trigger] value(r, row) == cell(row, w.id as int)@ by {
            lemma_value_parts(r, row);
        }
    }
    r
}

/// The expression of a constant.
pub fn constant(c: u64) -> (r: Expression)
    ensures
        r == Expression::Constant(Either::Left(Goldilocks { value: c })),
        plain(r),
        forall|row: Seq<Goldilocks>| #[trigger] value(r, row) == c as int % modulus(),
{
    let r = Expression::Constant(Either::Left(Goldilocks { value: c }));
    proof {
        assert forall|row: Seq<Goldilocks>| #[trigger] value(r, row) == c as int % modulus() by {
            lemma_value_parts(r, row);
        }
    }
    r
}

/// The sum of two plain expressions.
pub fn plus(a: Expression, b: Expression) -> (r: Expression)
    requires
        plain(a),
        plain(b),
    ensures
        r == a.spec_add(b),
        plain(r),
        forall|row: Seq<Goldilocks>| #[trigger]
            value(r, row) == f_add(value(a, row), value(b, row)),
{
    let ghost (x, y) = (a, b);
    let r = a + b;
    proof {
        lemma_plain_ops(x, y);
        assert forall|row: Seq<Goldilocks>| #[trigger]
            value(r, row) == f_add(value(x, row), value(y, row)) by {
            reveal(value);
            lemma_eval_add(x, y, row_witnesses(row));
            lemma_plain_value(x, row);
            lemma_plain_value(y, row);
            lemma_e_base_ops(value(x, row), value(y, row));
        }
    }
    r
}

/// The difference of two plain expressions.
pub fn minus(a: Expression, b: Expression) -> (r: Expression)
    requires
        plain(a),
        plain(b),
    ensures
        r == a.spec_sub(b),
        plain(r),
        forall|row: Seq<Goldilocks>| #[trigger]
            value(r, row) == f_sub(value(a, row), value(b, row)),
{
    let ghost (x, y) = (a, b);
    let r = a - b;
    proof {
        lemma_plain_ops(x, y);
        assert forall|row: Seq<Goldilocks>| #[trigger]
            value(r, row) == f_sub(value(x, row), value(y, row)) by {
            reveal(value);
            lemma_eval_sub(x, y, row_witnesses(row));
            lemma_plain_value(x, row);
            lemma_plain_value(y, row);
            lemma_e_base_ops(value(x, row), value(y, row));
        }
    }
    r
}

/// The product of two plain expressions.
pub fn times(a: Expression, b: Expression) -> (r: Expression)
    requires
        plain(a),
        plain(b),
    ensures
        r == a.spec_mul(b),
        plain(r),
        forall|row: Seq<Goldilocks>| #[trigger]
            value(r, row) == f_mul(value(a, row), value(b, row)),
{
    let ghost (x, y) = (a, b);
    proof {
        lemma_plain_ops(x, y);
    }
    let r = a * b;
    proof {
        assert forall|row: Seq<Goldilocks>| #[trigger]
            value(r, row) == f_mul(value(x, row), value(y, row)) by {
            reveal(value);
            lemma_eval_mul(x, y, row_witnesses(row));
            lemma_plain_value(x, row);
            lemma_plain_value(y, row);
            lemma_e_base_ops(value(x, row), value(y, row));
        }
    }
    r
}

/// Evaluates a plain expression at a row.
pub fn eval_row(e: &Expression, row: &[Goldilocks]) -> (r: Goldilocks)
    requires
        plain(*e),
    ensures
        r@ == value(*e, row@),
    decreases e,
{
    proof {
        lemma_value_parts(*e, row@);
    }
    match e {
        Expression::WitIn(id) => {
            if (*id as usize) < row.len() {
                row[*id as usize]
            } else {
                Goldilocks::zero()
            }
        },
        Expression::Constant(c) => match c {
            Either::Left(b) => *b,
            Either::Right(_) => Goldilocks::zero(),
        },
        Expression::Sum(a, b) => eval_row(a, row) + eval_row(b, row),
        Expression::Product(a, b) => eval_row(a, row) * eval_row(b, row),
        Expression::ScaledSum(x, a, b) => eval_row(a, row) * eval_row(x, row) + eval_row(b, row),
        _ => Goldilocks::zero(),
    }
}

} // verus!
