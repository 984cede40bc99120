//! The values of what is written as an expression, and the tables that leaves give to expressions.
use vstd::arithmetic::div_mod::*;
use vstd::prelude::*;
use vstd::std_specs::convert::FromSpec;

use crate::expression::convert::ToExpr;
use crate::expression::infer::infer_shape;
use crate::expression::{Env, Expression, Fixed, Instance, StructuralWitIn, WitIn};
use crate::field::{e_base, group_field, modulus, Goldilocks, GoldilocksExt2};
use crate::mle::MultilinearExtension;

verus! {

broadcast use group_field;

/// A column, a public value or a constant has the value that stands under its index.
pub proof fn lemma_leaf_values(
    wit: WitIn,
    structural: StructuralWitIn,
    fixed: Fixed,
    instance: Instance,
    constant: Goldilocks,
    env: Env,
)
    ensures
        wit.spec_expr().eval(env) == env.wit[wit.id as int]@,
        structural.spec_expr().eval(env) == env.structural[structural.id as int]@,
        fixed.spec_expr().eval(env) == env.fixed[fixed.0 as int]@,
        instance.spec_expr().eval(env) == env.instance[instance.0 as int]@,
        constant.spec_expr().eval(env) == e_base(constant@),
        <Expression as FromSpec<WitIn>>::from_spec(wit).eval(env) == env.wit[wit.id as int]@,
        <Expression as FromSpec<StructuralWitIn>>::from_spec(structural).eval(env)
            == env.structural[structural.id as int]@,
        <Expression as FromSpec<Fixed>>::from_spec(fixed).eval(env) == env.fixed[fixed.0 as int]@,
        <Expression as FromSpec<Instance>>::from_spec(instance).eval(env)
            == env.instance[instance.0 as int]@,
{
}

/// An unsigned integer as an expression has its residue as value.
pub proof fn lemma_unsigned_values(a: u8, b: u16, c: u32, d: u64, e: usize, env: Env)
    ensures
        <Expression as FromSpec<u8>>::from_spec(a).eval(env) == e_base(a as int % modulus()),
        <Expression as FromSpec<u16>>::from_spec(b).eval(env) == e_base(b as int % modulus()),
        <Expression as FromSpec<u32>>::from_spec(c).eval(env) == e_base(c as int % modulus()),
        <Expression as FromSpec<u64>>::from_spec(d).eval(env) == e_base(d as int % modulus()),
        <Expression as FromSpec<usize>>::from_spec(e).eval(env) == e_base(e as int % modulus()),
{
}

/// A signed integer as an expression has its residue as value; so a negative one and its opposite
/// add up to zero.
pub proof fn lemma_signed_values(a: i8, b: i16, c: i32, d: i64, e: isize, env: Env)
    ensures
        <Expression as FromSpec<i8>>::from_spec(a).eval(env) == e_base(a as int % modulus()),
        <Expression as FromSpec<i16>>::from_spec(b).eval(env) == e_base(b as int % modulus()),
        <Expression as FromSpec<i32>>::from_spec(c).eval(env) == e_base(c as int % modulus()),
        <Expression as FromSpec<i64>>::from_spec(d).eval(env) == e_base(d as int % modulus()),
        <Expression as FromSpec<isize>>::from_spec(e).eval(env) == e_base(e as int % modulus()),
{
}

/// Some leaf of the expression has the property.
pub open spec fn has_leaf(expr: Expression, p: spec_fn(Expression) -> bool) -> bool
    decreases expr,
{
    match expr {
        Expression::Sum(a, b) => has_leaf(*a, p) || has_leaf(*b, p),
        Expression::Product(a, b) => has_leaf(*a, p) || has_leaf(*b, p),
        Expression::ScaledSum(x, a, b) => has_leaf(*x, p) || has_leaf(*a, p) || has_leaf(*b, p),
        leaf => p(leaf),
    }
}

/// No part of the expression is a scaled sum.
pub open spec fn has_no_scaled_sum(expr: Expression) -> bool
    decreases expr,
{
    match expr {
        Expression::Sum(a, b) => has_no_scaled_sum(*a) && has_no_scaled_sum(*b),
        Expression::Product(a, b) => has_no_scaled_sum(*a) && has_no_scaled_sum(*b),
        Expression::ScaledSum(_, _, _) => false,
        _ => true,
    }
}

/// The tables and challenges over which an expression is taken.
pub struct Leaves<'a> {
    pub fixed: Seq<MultilinearExtension<'a>>,
    pub witnesses: Seq<MultilinearExtension<'a>>,
    pub structural: Seq<MultilinearExtension<'a>>,
    pub instance: Seq<MultilinearExtension<'a>>,
    pub challenges: Seq<GoldilocksExt2>,
}

/// The table of a leaf that has one.
pub open spec fn table_of_leaf<'a>(leaves: Leaves<'a>, leaf: Expression) -> Option<
    MultilinearExtension<'a>,
> {
    match leaf {
        Expression::Fixed(f) => if (f.0 as int) < leaves.fixed.len() {
            Some(leaves.fixed[f.0 as int])
        } else {
            None
        },
        Expression::WitIn(id) => if (id as int) < leaves.witnesses.len() {
            Some(leaves.witnesses[id as int])
        } else {
            None
        },
        Expression::StructuralWitIn(id, _, _, _) => if (id as int) < leaves.structural.len() {
            Some(leaves.structural[id as int])
        } else {
            None
        },
        Expression::Instance(i) => if (i.0 as int) < leaves.instance.len() {
            Some(leaves.instance[i.0 as int])
        } else {
            None
        },
        _ => None,
    }
}

/// The leaf brings values of the extension.
pub open spec fn brings_ext(leaves: Leaves, leaf: Expression) -> bool {
    ||| leaf is Challenge
    ||| table_of_leaf(leaves, leaf) matches Some(m) && m.is_ext()
}

/// The leaf has a table with that many variables.
pub open spec fn brings_vars(leaves: Leaves, leaf: Expression, n: nat) -> bool {
    table_of_leaf(leaves, leaf) matches Some(m) && m.num_vars == n
}

/// The leaf is a constant of the extension, a challenge that is not there or a column without a
/// full table.
pub open spec fn is_unknown(leaves: Leaves, leaf: Expression) -> bool {
    match leaf {
        Expression::Constant(c) => c is Right,
        Expression::Challenge(id, _, _, _) => id as int >= leaves.challenges.len(),
        _ => !(table_of_leaf(leaves, leaf) matches Some(m) && m.wf()),
    }
}

/// The table of an expression is over the extension if and only if some leaf is. Over tables with
/// one entry and tables with `n` variables, it has `n` variables if some leaf has them, and one
/// entry otherwise. A leaf without a table leaves the expression without one; without such a leaf
/// and without scaled sums, the expression has a table.
pub proof fn lemma_shape_of_leaves(leaves: Leaves, expr: Expression, n: nat)
    requires
        n > 0,
        !has_leaf(
            expr,
            |leaf: Expression|
                table_of_leaf(leaves, leaf) matches Some(m) && m.num_vars != 0 && m.num_vars != n,
        ),
    ensures
        ({
            let shape = infer_shape(
                leaves.fixed,
                leaves.witnesses,
                leaves.structural,
                leaves.instance,
                leaves.challenges,
                expr,
            );
            &&& shape is Some ==> {
                &&& (shape->0).ext == has_leaf(expr, |leaf: Expression| brings_ext(leaves, leaf))
                &&& (shape->0).num_vars == if has_leaf(
                    expr,
                    |leaf: Expression| brings_vars(leaves, leaf, n),
                ) {
                    n
                } else {
                    0
                }
            }
            &&& has_leaf(expr, |leaf: Expression| is_unknown(leaves, leaf)) ==> shape is None
            &&& !has_leaf(expr, |leaf: Expression| is_unknown(leaves, leaf)) && has_no_scaled_sum(
                expr,
            ) ==> shape is Some
        }),
    decreases expr,
{
    match expr {
        Expression::Sum(a, b) => {
            lemma_shape_of_leaves(leaves, *a, n);
            lemma_shape_of_leaves(leaves, *b, n);
        },
        Expression::Product(a, b) => {
            lemma_shape_of_leaves(leaves, *a, n);
            lemma_shape_of_leaves(leaves, *b, n);
        },
        Expression::ScaledSum(x, a, b) => {
            lemma_shape_of_leaves(leaves, *x, n);
            lemma_shape_of_leaves(leaves, *a, n);
            lemma_shape_of_leaves(leaves, *b, n);
        },
        _ => {},
    }
}

} // verus!
