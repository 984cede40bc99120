//! Polynomial expressions over witnesses, fixed columns, public values and challenges.
use core::ops::{Add, Mul, Neg, Sub};
use vstd::prelude::*;

use crate::either::Either;
use crate::field::{
    e_add, e_base, e_mul, e_neg, e_pow, e_sub, e_zero, f_add, f_mul, f_neg, f_sub, ge, gl, Ext,
    Goldilocks, GoldilocksExt2,
};

pub mod convert;
pub mod eval;
pub mod fmt;
pub mod fold;
pub mod infer;
pub mod laws;
pub mod leaf_laws;
pub mod monomial;
pub mod text_laws;

verus! {

pub type WitnessId = u16;

pub type ChallengeId = u16;

/// A constant: an element of the base field or of the extension.
pub type Scalar = Either<Goldilocks, GoldilocksExt2>;

/// The index of a column known at setup.
#[derive(Copy, Clone, Debug, PartialEq, Eq, Hash, PartialOrd, Ord)]
pub struct Fixed(pub usize);

/// The index of a public value.
#[derive(Copy, Clone, Debug, PartialEq, Eq, Hash, PartialOrd, Ord)]
pub struct Instance(pub usize);

/// A witness column.
#[derive(Copy, Clone, Debug)]
pub struct WitIn {
    pub id: WitnessId,
}

/// A witness column whose entries follow an arithmetic progression.
#[derive(Copy, Clone, Debug)]
pub struct StructuralWitIn {
    pub id: WitnessId,
    pub max_len: usize,
    pub offset: u32,
    pub multi_factor: usize,
    pub descending: bool,
}

/// A polynomial expression.
#[derive(Debug, PartialEq, Eq)]
pub enum Expression {
    /// WitIn(id)
    WitIn(WitnessId),
    /// StructuralWitIn is similar to WitIn, but its entries are structured, so that a verifier can
    /// evaluate it without a commitment: StructuralWitIn(id, max_len, offset, multi_factor)
    StructuralWitIn(WitnessId, usize, u32, usize),
    /// A multilinear polynomial known at setup
    Fixed(Fixed),
    /// A public value
    Instance(Instance),
    /// A constant
    Constant(Scalar),
    /// The sum of two expressions
    Sum(Box<Expression>, Box<Expression>),
    /// The product of two expressions
    Product(Box<Expression>, Box<Expression>),
    /// ScaledSum(x, a, b) represents a * x + b
    ScaledSum(Box<Expression>, Box<Expression>, Box<Expression>),
    /// Challenge(id, power, scalar, offset) represents scalar * challenge^power + offset
    Challenge(ChallengeId, usize, GoldilocksExt2, GoldilocksExt2),
}

/// What the leaves of an expression stand for.
pub struct Env {
    pub fixed: Seq<GoldilocksExt2>,
    pub wit: Seq<GoldilocksExt2>,
    pub structural: Seq<GoldilocksExt2>,
    pub instance: Seq<GoldilocksExt2>,
    pub challenges: Seq<GoldilocksExt2>,
}

/// The value of a constant.
pub open spec fn scalar_value(c: Scalar) -> Ext {
    match c {
        Either::Left(b) => e_base(b@),
        Either::Right(e) => e@,
    }
}

/// The constant of the base field with the given value.
pub open spec fn base_const(x: int) -> Expression {
    Expression::Constant(Either::Left(gl(x)))
}

impl Expression {
    /// The value of the expression.
    pub open spec fn eval(self, env: Env) -> Ext
        decreases self,
    {
        match self {
            Expression::WitIn(id) => env.wit[id as int]@,
            Expression::StructuralWitIn(id, _, _, _) => env.structural[id as int]@,
            Expression::Fixed(f) => env.fixed[f.0 as int]@,
            Expression::Instance(i) => env.instance[i.0 as int]@,
            Expression::Constant(c) => scalar_value(c),
            Expression::Sum(a, b) => e_add(a.eval(env), b.eval(env)),
            Expression::Product(a, b) => e_mul(a.eval(env), b.eval(env)),
            Expression::ScaledSum(x, a, b) => e_add(e_mul(a.eval(env), x.eval(env)), b.eval(env)),
            Expression::Challenge(id, pow, scalar, offset) => e_add(
                e_mul(e_pow(env.challenges[id as int]@, pow as nat), scalar@),
                offset@,
            ),
        }
    }

    /// The number of nodes.
    pub open spec fn size(self) -> nat
        decreases self,
    {
        match self {
            Expression::Sum(a, b) => 1 + a.size() + b.size(),
            Expression::Product(a, b) => 1 + a.size() + b.size(),
            Expression::ScaledSum(x, a, b) => 1 + x.size() + a.size() + b.size(),
            _ => 1,
        }
    }

    /// The total degree in witness and fixed columns.
    pub open spec fn spec_degree(self) -> nat
        decreases self,
    {
        match self {
            Expression::Fixed(_) => 1,
            Expression::WitIn(_) => 1,
            Expression::StructuralWitIn(_, _, _, _) => 1,
            Expression::Instance(_) => 0,
            Expression::Constant(_) => 0,
            Expression::Sum(a, b) => if a.spec_degree() >= b.spec_degree() {
                a.spec_degree()
            } else {
                b.spec_degree()
            },
            Expression::Product(a, b) => a.spec_degree() + b.spec_degree(),
            Expression::ScaledSum(x, _, _) => x.spec_degree(),
            Expression::Challenge(_, _, _, _) => 0,
        }
    }

    /// The degree of the expression, or the largest machine integer if it is larger than that.
    pub fn degree(&self) -> (r: usize)
        ensures
            r == if self.spec_degree() <= usize::MAX {
                self.spec_degree() as int
            } else {
                usize::MAX as int
            },
        decreases self,
    {
        match self {
            Expression::Fixed(_) => 1,
            Expression::WitIn(_) => 1,
            Expression::StructuralWitIn(_, _, _, _) => 1,
            Expression::Instance(_) => 0,
            Expression::Constant(_) => 0,
            Expression::Sum(a, b) => {
                let da: usize = a.degree();
                let db: usize = b.degree();
                if da >= db {
                    da
                } else {
                    db
                }
            },
            Expression::Product(a, b) => {
                let da: usize = a.degree();
                let db: usize = b.degree();
                if da <= usize::MAX - db {
                    da + db
                } else {
                    usize::MAX
                }
            },
            Expression::ScaledSum(x, _, _) => x.degree(),
            Expression::Challenge(_, _, _, _) => 0,
        }
    }

    /// The constant zero.
    pub fn zero() -> (r: Expression)
        ensures
            r == base_const(0),
    {
        Expression::Constant(Either::Left(Goldilocks::zero()))
    }

    /// The constant one.
    pub fn one() -> (r: Expression)
        ensures
            r == base_const(1),
    {
        Expression::Constant(Either::Left(Goldilocks::one()))
    }

    /// Whether the expression is a constant.
    pub fn is_constant(&self) -> (r: bool)
        ensures
            r == (self is Constant),
    {
        matches!(self, Expression::Constant(_))
    }
}

impl Clone for Expression {
    fn clone(&self) -> (r: Expression)
        ensures
            r == *self,
        decreases self,
    {
        match self {
            Expression::WitIn(id) => Expression::WitIn(*id),
            Expression::StructuralWitIn(id, len, offset, factor) => Expression::StructuralWitIn(
                *id,
                *len,
                *offset,
                *factor,
            ),
            Expression::Fixed(f) => Expression::Fixed(*f),
            Expression::Instance(i) => Expression::Instance(*i),
            Expression::Constant(c) => Expression::Constant(*c),
            Expression::Sum(a, b) => Expression::Sum(
                Box::new((&**a).clone()),
                Box::new((&**b).clone()),
            ),
            Expression::Product(a, b) => Expression::Product(
                Box::new((&**a).clone()),
                Box::new((&**b).clone()),
            ),
            Expression::ScaledSum(x, a, b) => Expression::ScaledSum(
                Box::new((&**x).clone()),
                Box::new((&**a).clone()),
                Box::new((&**b).clone()),
            ),
            Expression::Challenge(id, pow, scalar, offset) => Expression::Challenge(
                *id,
                *pow,
                *scalar,
                *offset,
            ),
        }
    }
}

/// The negated constant.
pub open spec fn scalar_neg(c: Scalar) -> Scalar {
    match c {
        Either::Left(b) => Either::Left(gl(f_neg(b@))),
        Either::Right(e) => Either::Right(ge(e_neg(e@))),
    }
}

/// The sum of two constants; it stays in the base field when both do.
pub open spec fn scalar_add(c1: Scalar, c2: Scalar) -> Scalar {
    match (c1, c2) {
        (Either::Left(a), Either::Left(b)) => Either::Left(gl(f_add(a@, b@))),
        _ => Either::Right(ge(e_add(scalar_value(c1), scalar_value(c2)))),
    }
}

/// The difference of two constants; it stays in the base field when both do.
pub open spec fn scalar_sub(c1: Scalar, c2: Scalar) -> Scalar {
    match (c1, c2) {
        (Either::Left(a), Either::Left(b)) => Either::Left(gl(f_sub(a@, b@))),
        _ => Either::Right(ge(e_sub(scalar_value(c1), scalar_value(c2)))),
    }
}

/// The product of two constants; it stays in the base field when both do.
pub open spec fn scalar_mul(c1: Scalar, c2: Scalar) -> Scalar {
    match (c1, c2) {
        (Either::Left(a), Either::Left(b)) => Either::Left(gl(f_mul(a@, b@))),
        _ => Either::Right(ge(e_mul(scalar_value(c1), scalar_value(c2)))),
    }
}

/// The constant as an element of the extension.
pub fn scalar_to_ext(c: &Scalar) -> (r: GoldilocksExt2)
    ensures
        r@ == scalar_value(*c),
{
    match c {
        Either::Left(b) => GoldilocksExt2::from_base(*b),
        Either::Right(e) => *e,
    }
}

fn negate_scalar(c: &Scalar) -> (r: Scalar)
    ensures
        r == scalar_neg(*c),
{
    match c {
        Either::Left(b) => Either::Left((*b).neg()),
        Either::Right(e) => Either::Right((*e).neg()),
    }
}

fn add_scalars(c1: &Scalar, c2: &Scalar) -> (r: Scalar)
    ensures
        r == scalar_add(*c1, *c2),
{
    match (c1, c2) {
        (Either::Left(a), Either::Left(b)) => Either::Left(*a + *b),
        _ => Either::Right(scalar_to_ext(c1) + scalar_to_ext(c2)),
    }
}

fn sub_scalars(c1: &Scalar, c2: &Scalar) -> (r: Scalar)
    ensures
        r == scalar_sub(*c1, *c2),
{
    match (c1, c2) {
        (Either::Left(a), Either::Left(b)) => Either::Left(*a - *b),
        _ => Either::Right(scalar_to_ext(c1) - scalar_to_ext(c2)),
    }
}

fn mul_scalars(c1: &Scalar, c2: &Scalar) -> (r: Scalar)
    ensures
        r == scalar_mul(*c1, *c2),
{
    match (c1, c2) {
        (Either::Left(a), Either::Left(b)) => Either::Left(*a * *b),
        _ => Either::Right(scalar_to_ext(c1) * scalar_to_ext(c2)),
    }
}

impl Expression {
    /// A witness, fixed column or public value: what a `ScaledSum` scales.
    pub open spec fn is_column(self) -> bool {
        self is WitIn || self is Fixed || self is Instance
    }

    /// The negated expression.
    pub open spec fn spec_neg(self) -> Expression
        decreases self,
    {
        match self {
            Expression::Constant(c) => Expression::Constant(scalar_neg(c)),
            Expression::Sum(a, b) => Expression::Sum(
                Box::new(a.spec_neg()),
                Box::new(b.spec_neg()),
            ),
            Expression::Product(a, b) => Expression::Product(Box::new(a.spec_neg()), b),
            Expression::ScaledSum(x, a, b) => Expression::ScaledSum(
                x,
                Box::new(a.spec_neg()),
                Box::new(b.spec_neg()),
            ),
            Expression::Challenge(id, pow, scalar, offset) => Expression::Challenge(
                id,
                pow,
                ge(e_neg(scalar@)),
                ge(e_neg(offset@)),
            ),
            _ => Expression::ScaledSum(
                Box::new(self),
                Box::new(base_const(-1)),
                Box::new(base_const(0)),
            ),
        }
    }

    /// The sum of two expressions. Constants and challenges are folded into each other and into a
    /// `ScaledSum` of a column; anything else becomes a `Sum`.
    pub open spec fn spec_add(self, rhs: Expression) -> Expression
        decreases self.size() + rhs.size(),
    {
        match (self, rhs) {
            (Expression::Constant(c), Expression::Challenge(id, pow, scalar, offset)) =>
                Expression::Challenge(id, pow, scalar, ge(e_add(offset@, scalar_value(c)))),
            (Expression::Challenge(id, pow, scalar, offset), Expression::Constant(c)) =>
                Expression::Challenge(id, pow, scalar, ge(e_add(offset@, scalar_value(c)))),
            (Expression::Challenge(i1, p1, s1, o1), Expression::Challenge(i2, p2, s2, o2)) => {
                if i1 == i2 && p1 == p2 {
                    Expression::Challenge(i1, p1, ge(e_add(s1@, s2@)), ge(e_add(o1@, o2@)))
                } else {
                    Expression::Sum(Box::new(self), Box::new(rhs))
                }
            },
            (Expression::Constant(c1), Expression::Constant(c2)) => Expression::Constant(
                scalar_add(c1, c2),
            ),
            (Expression::Constant(_), Expression::ScaledSum(x, a, b)) => Expression::ScaledSum(
                x,
                a,
                Box::new(b.spec_add(self)),
            ),
            (Expression::ScaledSum(x, a, b), Expression::Constant(_)) => Expression::ScaledSum(
                x,
                a,
                Box::new(b.spec_add(rhs)),
            ),
            _ => {
                if self.is_column() && (rhs is Constant || rhs is Challenge) {
                    Expression::ScaledSum(Box::new(self), Box::new(base_const(1)), Box::new(rhs))
                } else if rhs.is_column() && (self is Constant || self is Challenge) {
                    Expression::ScaledSum(Box::new(rhs), Box::new(base_const(1)), Box::new(self))
                } else {
                    Expression::Sum(Box::new(self), Box::new(rhs))
                }
            },
        }
    }

    /// The difference of two expressions, with the same folding as the sum. A constant minus a
    /// challenge negates the challenge's scalar and subtracts its offset from the constant.
    pub open spec fn spec_sub(self, rhs: Expression) -> Expression
        decreases self.size() + rhs.size(),
    {
        match (self, rhs) {
            (Expression::Constant(c), Expression::Challenge(id, pow, scalar, offset)) =>
                Expression::Challenge(
                id,
                pow,
                ge(e_neg(scalar@)),
                ge(e_sub(scalar_value(c), offset@)),
            ),
            (Expression::Challenge(id, pow, scalar, offset), Expression::Constant(c)) =>
                Expression::Challenge(id, pow, scalar, ge(e_sub(offset@, scalar_value(c)))),
            (Expression::Challenge(i1, p1, s1, o1), Expression::Challenge(i2, p2, s2, o2)) => {
                if i1 == i2 && p1 == p2 {
                    Expression::Challenge(i1, p1, ge(e_sub(s1@, s2@)), ge(e_sub(o1@, o2@)))
                } else {
                    Expression::Sum(Box::new(self), Box::new(rhs.spec_neg()))
                }
            },
            (Expression::Constant(c1), Expression::Constant(c2)) => Expression::Constant(
                scalar_sub(c1, c2),
            ),
            _ => {
                if self.is_column() && (rhs is Constant || rhs is Challenge) {
                    Expression::ScaledSum(
                        Box::new(self),
                        Box::new(base_const(1)),
                        Box::new(rhs.spec_neg()),
                    )
                } else if rhs.is_column() && (self is Constant || self is Challenge) {
                    Expression::ScaledSum(Box::new(rhs), Box::new(base_const(-1)), Box::new(self))
                } else {
                    match (self, rhs) {
                        (_, Expression::ScaledSum(x, a, b)) if (self is Constant
                            || self is Challenge) => Expression::ScaledSum(
                            x,
                            Box::new(a.spec_neg()),
                            Box::new(self.spec_sub(*b)),
                        ),
                        (Expression::ScaledSum(x, a, b), _) if (rhs is Constant
                            || rhs is Challenge) => Expression::ScaledSum(
                            x,
                            a,
                            Box::new(b.spec_sub(rhs)),
                        ),
                        _ => Expression::Sum(Box::new(self), Box::new(rhs.spec_neg())),
                    }
                }
            },
        }
    }

    /// The product of two expressions. Constants, challenges and public values scale a column;
    /// constants and challenges are folded into each other and distributed over a `ScaledSum`;
    /// anything else becomes a `Product`.
    pub open spec fn spec_mul(self, rhs: Expression) -> Expression
        decreases self.size() + rhs.size(),
    {
        match (self, rhs) {
            (Expression::Constant(c), Expression::Challenge(id, pow, scalar, offset)) =>
                Expression::Challenge(
                id,
                pow,
                ge(e_mul(scalar@, scalar_value(c))),
                ge(e_mul(offset@, scalar_value(c))),
            ),
            (Expression::Challenge(id, pow, scalar, offset), Expression::Constant(c)) =>
                Expression::Challenge(
                id,
                pow,
                ge(e_mul(scalar@, scalar_value(c))),
                ge(e_mul(offset@, scalar_value(c))),
            ),
            (Expression::Challenge(i1, p1, s1, o1), Expression::Challenge(i2, p2, s2, o2)) => {
                if i1 == i2 {
                    challenge_product(i1, p1, s1, o1, p2, s2, o2)
                } else {
                    Expression::Product(Box::new(self), Box::new(rhs))
                }
            },
            (Expression::Constant(c1), Expression::Constant(c2)) => Expression::Constant(
                scalar_mul(c1, c2),
            ),
            _ => {
                if (self is WitIn || self is Fixed) && rhs.is_coefficient() {
                    Expression::ScaledSum(Box::new(self), Box::new(rhs), Box::new(base_const(0)))
                } else if (rhs is WitIn || rhs is Fixed) && self.is_coefficient() {
                    Expression::ScaledSum(Box::new(rhs), Box::new(self), Box::new(base_const(0)))
                } else {
                    match (self, rhs) {
                        (Expression::ScaledSum(x, a, b), _) if (rhs is Constant
                            || rhs is Challenge) => Expression::ScaledSum(
                            x,
                            Box::new(a.spec_mul(rhs)),
                            Box::new(b.spec_mul(rhs)),
                        ),
                        (_, Expression::ScaledSum(x, a, b)) if (self is Constant
                            || self is Challenge) => Expression::ScaledSum(
                            x,
                            Box::new(a.spec_mul(self)),
                            Box::new(b.spec_mul(self)),
                        ),
                        _ => Expression::Product(Box::new(self), Box::new(rhs)),
                    }
                }
            },
        }
    }

    /// What a column can be scaled by.
    pub open spec fn is_coefficient(self) -> bool {
        self is Constant || self is Challenge || self is Instance
    }

    /// The powers of the challenges that the product adds up fit in a machine word.
    pub open spec fn mul_fits(self, rhs: Expression) -> bool
        decreases self.size() + rhs.size(),
    {
        match (self, rhs) {
            (Expression::Challenge(i1, p1, _, _), Expression::Challenge(i2, p2, _, _)) => i1 == i2
                ==> p1 + p2 <= usize::MAX,
            (Expression::ScaledSum(_, a, b), Expression::Challenge(_, _, _, _)) => a.mul_fits(rhs)
                && b.mul_fits(rhs),
            (Expression::Challenge(_, _, _, _), Expression::ScaledSum(_, a, b)) => a.mul_fits(self)
                && b.mul_fits(self),
            (Expression::ScaledSum(_, a, b), Expression::Constant(_)) => a.mul_fits(rhs)
                && b.mul_fits(rhs),
            (Expression::Constant(_), Expression::ScaledSum(_, a, b)) => a.mul_fits(self)
                && b.mul_fits(self),
            _ => true,
        }
    }
}

/// `(s1 * c^p1 + o1) * (s2 * c^p2 + o2)`: the leading power with the product of the offsets, and
/// the two mixed terms where they are not zero.
pub open spec fn challenge_product(
    id: ChallengeId,
    p1: usize,
    s1: GoldilocksExt2,
    o1: GoldilocksExt2,
    p2: usize,
    s2: GoldilocksExt2,
    o2: GoldilocksExt2,
) -> Expression {
    let lead = Expression::Challenge(
        id,
        (p1 + p2) as usize,
        ge(e_mul(s1@, s2@)),
        ge(e_mul(o1@, o2@)),
    );
    let with_first = if s1@ != e_zero() && o2@ != e_zero() {
        Expression::Sum(
            Box::new(lead),
            Box::new(Expression::Challenge(id, p1, ge(e_mul(o2@, s1@)), ge(e_zero()))),
        )
    } else {
        lead
    };
    if s2@ != e_zero() && o1@ != e_zero() {
        Expression::Sum(
            Box::new(with_first),
            Box::new(Expression::Challenge(id, p2, ge(e_mul(o1@, s2@)), ge(e_zero()))),
        )
    } else {
        with_first
    }
}

impl Neg for Expression {
    type Output = Expression;

    fn neg(self) -> (r: Expression)
        decreases self,
    {
        match self {
            Expression::Constant(c) => Expression::Constant(negate_scalar(&c)),
            Expression::Sum(a, b) => Expression::Sum(Box::new((*a).neg()), Box::new((*b).neg())),
            Expression::Product(a, b) => Expression::Product(Box::new((*a).neg()), b),
            Expression::ScaledSum(x, a, b) => Expression::ScaledSum(
                x,
                Box::new((*a).neg()),
                Box::new((*b).neg()),
            ),
            Expression::Challenge(id, pow, scalar, offset) => Expression::Challenge(
                id,
                pow,
                scalar.neg(),
                offset.neg(),
            ),
            _ => {
                let minus_one = Goldilocks::one().neg();
                Expression::ScaledSum(
                    Box::new(self),
                    Box::new(Expression::Constant(Either::Left(minus_one))),
                    Box::new(Expression::zero()),
                )
            },
        }
    }
}

impl vstd::std_specs::ops::NegSpecImpl for Expression {
    open spec fn obeys_neg_spec() -> bool {
        true
    }

    open spec fn neg_req(self) -> bool {
        true
    }

    open spec fn neg_spec(self) -> Expression {
        self.spec_neg()
    }
}

impl Add for Expression {
    type Output = Expression;

    fn add(self, rhs: Expression) -> (r: Expression)
        decreases self.size() + rhs.size(),
    {
        match (&self, &rhs) {
            (Expression::Constant(c), Expression::Challenge(id, pow, scalar, offset)) => {
                return Expression::Challenge(*id, *pow, *scalar, *offset + scalar_to_ext(c));
            },
            (Expression::Challenge(id, pow, scalar, offset), Expression::Constant(c)) => {
                return Expression::Challenge(*id, *pow, *scalar, *offset + scalar_to_ext(c));
            },
            (Expression::Challenge(i1, p1, s1, o1), Expression::Challenge(i2, p2, s2, o2)) => {
                if *i1 == *i2 && *p1 == *p2 {
                    return Expression::Challenge(*i1, *p1, *s1 + *s2, *o1 + *o2);
                }
            },
            (Expression::Constant(c1), Expression::Constant(c2)) => {
                return Expression::Constant(add_scalars(c1, c2));
            },
            (Expression::Constant(_), Expression::ScaledSum(x, a, b)) => {
                let inner = (**b).clone();
                return Expression::ScaledSum(
                    Box::new((**x).clone()),
                    Box::new((**a).clone()),
                    Box::new(inner.add(self)),
                );
            },
            (Expression::ScaledSum(x, a, b), Expression::Constant(_)) => {
                let inner = (**b).clone();
                return Expression::ScaledSum(
                    Box::new((**x).clone()),
                    Box::new((**a).clone()),
                    Box::new(inner.add(rhs)),
                );
            },
            _ => {},
        }
        if is_column(&self) && is_constant_or_challenge(&rhs) {
            Expression::ScaledSum(Box::new(self), Box::new(Expression::one()), Box::new(rhs))
        } else if is_column(&rhs) && is_constant_or_challenge(&self) {
            Expression::ScaledSum(Box::new(rhs), Box::new(Expression::one()), Box::new(self))
        } else {
            Expression::Sum(Box::new(self), Box::new(rhs))
        }
    }
}

impl vstd::std_specs::ops::AddSpecImpl for Expression {
    open spec fn obeys_add_spec() -> bool {
        true
    }

    open spec fn add_req(self, rhs: Expression) -> bool {
        true
    }

    open spec fn add_spec(self, rhs: Expression) -> Expression {
        self.spec_add(rhs)
    }
}

impl Sub for Expression {
    type Output = Expression;

    fn sub(self, rhs: Expression) -> (r: Expression)
        decreases self.size() + rhs.size(), 0nat,
    {
        broadcast use crate::field::group_field;

        match (&self, &rhs) {
            (Expression::Constant(c), Expression::Challenge(id, pow, scalar, offset)) => {
                return Expression::Challenge(*id, *pow, (*scalar).neg(), scalar_to_ext(c) - *offset);
            },
            (Expression::Challenge(id, pow, scalar, offset), Expression::Constant(c)) => {
                return Expression::Challenge(*id, *pow, *scalar, *offset - scalar_to_ext(c));
            },
            (Expression::Challenge(i1, p1, s1, o1), Expression::Challenge(i2, p2, s2, o2)) => {
                if *i1 == *i2 && *p1 == *p2 {
                    return Expression::Challenge(*i1, *p1, *s1 - *s2, *o1 - *o2);
                }
            },
            (Expression::Constant(c1), Expression::Constant(c2)) => {
                return Expression::Constant(sub_scalars(c1, c2));
            },
            (Expression::Constant(_), Expression::ScaledSum(x, a, b)) => {
                return sub_scaled_sum(self.clone(), x, a, b);
            },
            (Expression::Challenge(_, _, _, _), Expression::ScaledSum(x, a, b)) => {
                return sub_scaled_sum(self.clone(), x, a, b);
            },
            (Expression::ScaledSum(x, a, b), Expression::Constant(_)) => {
                let inner = (**b).clone();
                return Expression::ScaledSum(
                    Box::new((**x).clone()),
                    Box::new((**a).clone()),
                    Box::new(inner.sub(rhs)),
                );
            },
            (Expression::ScaledSum(x, a, b), Expression::Challenge(_, _, _, _)) => {
                let inner = (**b).clone();
                return Expression::ScaledSum(
                    Box::new((**x).clone()),
                    Box::new((**a).clone()),
                    Box::new(inner.sub(rhs)),
                );
            },
            _ => {},
        }
        if is_column(&self) && is_constant_or_challenge(&rhs) {
            Expression::ScaledSum(Box::new(self), Box::new(Expression::one()), Box::new(rhs.neg()))
        } else if is_column(&rhs) && is_constant_or_challenge(&self) {
            let minus_one = Goldilocks::one().neg();
            Expression::ScaledSum(
                Box::new(rhs),
                Box::new(Expression::Constant(Either::Left(minus_one))),
                Box::new(self),
            )
        } else {
            Expression::Sum(Box::new(self), Box::new(rhs.neg()))
        }
    }
}

/// `c - (a * x + b)` for a constant or challenge `c`.
fn sub_scaled_sum(c: Expression, x: &Expression, a: &Expression, b: &Expression) -> (r: Expression)
    ensures
        r == Expression::ScaledSum(
            Box::new(*x),
            Box::new(a.spec_neg()),
            Box::new(c.spec_sub(*b)),
        ),
    decreases c.size() + b.size(), 1nat,
{
    Expression::ScaledSum(
        Box::new(x.clone()),
        Box::new(a.clone().neg()),
        Box::new(c.sub(b.clone())),
    )
}

impl vstd::std_specs::ops::SubSpecImpl for Expression {
    open spec fn obeys_sub_spec() -> bool {
        true
    }

    open spec fn sub_req(self, rhs: Expression) -> bool {
        true
    }

    open spec fn sub_spec(self, rhs: Expression) -> Expression {
        self.spec_sub(rhs)
    }
}

impl Mul for Expression {
    type Output = Expression;

    fn mul(self, rhs: Expression) -> (r: Expression)
        decreases self.size() + rhs.size(), 0nat,
    {
        match (&self, &rhs) {
            (Expression::Constant(c), Expression::Challenge(id, pow, scalar, offset)) => {
                let k = scalar_to_ext(c);
                return Expression::Challenge(*id, *pow, *scalar * k, *offset * k);
            },
            (Expression::Challenge(id, pow, scalar, offset), Expression::Constant(c)) => {
                let k = scalar_to_ext(c);
                return Expression::Challenge(*id, *pow, *scalar * k, *offset * k);
            },
            (Expression::Challenge(i1, p1, s1, o1), Expression::Challenge(i2, p2, s2, o2)) => {
                if *i1 == *i2 {
                    return mul_challenges(*i1, *p1, *s1, *o1, *p2, *s2, *o2);
                }
            },
            (Expression::Constant(c1), Expression::Constant(c2)) => {
                return Expression::Constant(mul_scalars(c1, c2));
            },
            (Expression::ScaledSum(x, a, b), Expression::Constant(_)) => {
                return mul_scaled_sum(x, a, b, &rhs);
            },
            (Expression::ScaledSum(x, a, b), Expression::Challenge(_, _, _, _)) => {
                return mul_scaled_sum(x, a, b, &rhs);
            },
            (Expression::Constant(_), Expression::ScaledSum(x, a, b)) => {
                return mul_scaled_sum(x, a, b, &self);
            },
            (Expression::Challenge(_, _, _, _), Expression::ScaledSum(x, a, b)) => {
                return mul_scaled_sum(x, a, b, &self);
            },
            _ => {},
        }
        if is_scalable(&self) && is_coefficient(&rhs) {
            Expression::ScaledSum(Box::new(self), Box::new(rhs), Box::new(Expression::zero()))
        } else if is_scalable(&rhs) && is_coefficient(&self) {
            Expression::ScaledSum(Box::new(rhs), Box::new(self), Box::new(Expression::zero()))
        } else {
            Expression::Product(Box::new(self), Box::new(rhs))
        }
    }
}

impl vstd::std_specs::ops::MulSpecImpl for Expression {
    open spec fn obeys_mul_spec() -> bool {
        true
    }

    open spec fn mul_req(self, rhs: Expression) -> bool {
        self.mul_fits(rhs)
    }

    open spec fn mul_spec(self, rhs: Expression) -> Expression {
        self.spec_mul(rhs)
    }
}

/// `(a * x + b) * c` for a constant or challenge `c`.
fn mul_scaled_sum(x: &Expression, a: &Expression, b: &Expression, c: &Expression) -> (r: Expression)
    requires
        a.mul_fits(*c),
        b.mul_fits(*c),
    ensures
        r == Expression::ScaledSum(
            Box::new(*x),
            Box::new(a.spec_mul(*c)),
            Box::new(b.spec_mul(*c)),
        ),
    decreases a.size() + b.size() + c.size(), 1nat,
{
    proof {
        lemma_size_positive(*a);
        lemma_size_positive(*b);
    }
    Expression::ScaledSum(
        Box::new(x.clone()),
        Box::new(a.clone().mul(c.clone())),
        Box::new(b.clone().mul(c.clone())),
    )
}

proof fn lemma_size_positive(e: Expression)
    ensures
        e.size() >= 1,
{
}

/// The product of two challenges of one identity.
fn mul_challenges(
    id: ChallengeId,
    p1: usize,
    s1: GoldilocksExt2,
    o1: GoldilocksExt2,
    p2: usize,
    s2: GoldilocksExt2,
    o2: GoldilocksExt2,
) -> (r: Expression)
    requires
        p1 + p2 <= usize::MAX,
    ensures
        r == challenge_product(id, p1, s1, o1, p2, s2, o2),
{
    let zero = GoldilocksExt2::zero();
    let mut result = Expression::Challenge(id, p1 + p2, s1 * s2, o1 * o2);
    if s1 != zero && o2 != zero {
        result = Expression::Sum(
            Box::new(result),
            Box::new(Expression::Challenge(id, p1, o2 * s1, zero)),
        );
    }
    if s2 != zero && o1 != zero {
        result = Expression::Sum(
            Box::new(result),
            Box::new(Expression::Challenge(id, p2, o1 * s2, zero)),
        );
    }
    result
}

fn is_scalable(e: &Expression) -> (r: bool)
    ensures
        r == (e is WitIn || e is Fixed),
{
    match e {
        Expression::WitIn(_) => true,
        Expression::Fixed(_) => true,
        _ => false,
    }
}

fn is_coefficient(e: &Expression) -> (r: bool)
    ensures
        r == e.is_coefficient(),
{
    match e {
        Expression::Constant(_) => true,
        Expression::Challenge(_, _, _, _) => true,
        Expression::Instance(_) => true,
        _ => false,
    }
}

fn is_column(e: &Expression) -> (r: bool)
    ensures
        r == e.is_column(),
{
    match e {
        Expression::WitIn(_) => true,
        Expression::Fixed(_) => true,
        Expression::Instance(_) => true,
        _ => false,
    }
}

fn is_constant_or_challenge(e: &Expression) -> (r: bool)
    ensures
        r == (e is Constant || e is Challenge),
{
    match e {
        Expression::Constant(_) => true,
        Expression::Challenge(_, _, _, _) => true,
        _ => false,
    }
}

} // verus!
