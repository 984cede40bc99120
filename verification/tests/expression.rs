//! Expressions: arithmetic, forms, text and tables.
use ceno::either::Either;
use ceno::expression::convert::ToExpr;
use ceno::expression::eval::{eval_by_expr, has_leaves};
use ceno::expression::fmt;
use ceno::expression::infer::{inferred_shape, wit_infer_by_expr};
use ceno::expression::{Expression, Fixed, Instance, StructuralWitIn, WitIn};
use ceno::field::{Goldilocks, GoldilocksExt2};
use ceno::mle::{FieldType, IntoMLE, MultilinearExtension};

fn f(v: u64) -> Goldilocks {
    Goldilocks::from_canonical_u64(v)
}

fn e(v: u64) -> GoldilocksExt2 {
    GoldilocksExt2::from_base(f(v))
}

fn num(v: u64) -> Expression {
    Expression::from(v)
}

fn challenge(id: u16, pow: usize, scalar: u64, offset: u64) -> Expression {
    Expression::Challenge(id, pow, e(scalar), e(offset))
}

#[test]
fn test_expression_arithmetics() {
    let x = WitIn { id: 0 };

    // scaledsum * challenge
    // 3 * x + 2
    let expr: Expression = num(3) * x.expr() + num(2);
    // c^3 + 1
    let c = challenge(0, 3, 1, 1);
    // res
    // x* (c^3*3 + 3) + 2c^3 + 2
    assert_eq!(
        c * expr,
        Expression::ScaledSum(
            Box::new(x.expr()),
            Box::new(challenge(0, 3, 3, 3)),
            Box::new(challenge(0, 3, 2, 2))
        )
    );

    // constant * witin
    // 3 * x
    let expr: Expression = num(3) * x.expr();
    assert_eq!(
        expr,
        Expression::ScaledSum(
            Box::new(x.expr()),
            Box::new(Expression::Constant(Either::Left(f(3)))),
            Box::new(Expression::Constant(Either::Left(f(0))))
        )
    );

    // constant * challenge
    // 3 * (c^3 + 1)
    let expr: Expression = Expression::Constant(Either::Left(f(3)));
    let c = challenge(0, 3, 1, 1);
    assert_eq!(expr * c, challenge(0, 3, 3, 3));

    // challenge * challenge
    // (2c^3 + 1) * (2c^2 + 1) = 4c^5 + 2c^3 + 2c^2 + 1
    let res: Expression = challenge(0, 3, 2, 1) * challenge(0, 2, 2, 1);
    assert_eq!(
        res,
        Expression::Sum(
            Box::new(Expression::Sum(
                // (s1 * s2 * c1^(pow1 + pow2) + offset1 * offset2
                Box::new(challenge(0, 3 + 2, 2 * 2, 1)),
                // offset2 * s1 * c1^(pow1)
                Box::new(challenge(0, 3, 2, 0)),
            )),
            // offset1 * s2 * c2^(pow2))
            Box::new(challenge(0, 2, 2, 0)),
        )
    );
}

#[test]
fn test_is_monomial_form() {
    let x = WitIn { id: 0 };
    let y = WitIn { id: 1 };
    let z = WitIn { id: 2 };
    // scaledsum * challenge
    // 3 * x + 2
    let expr: Expression = num(3) * x.expr() + num(2);
    assert!(expr.is_monomial_form());

    // 2 product term
    let expr: Expression = num(3) * x.expr() * y.expr() + num(2) * x.expr();
    assert!(expr.is_monomial_form());

    // complex linear operation
    // (2c + 3) * x * y - 6z
    let expr: Expression = challenge(0, 1, 2, 3) * x.expr() * y.expr() - num(6) * z.expr();
    assert!(expr.is_monomial_form());

    // complex linear operation
    // (2c + 3) * x * y - 6z
    let expr: Expression = challenge(0, 1, 2, 3) * x.expr() * y.expr() - num(6) * z.expr();
    assert!(expr.is_monomial_form());

    // complex linear operation
    // (2 * x + 3) * 3 + 6 * 8
    let expr: Expression = (num(2) * x.expr() + num(3)) * num(3) + num(6 * 8);
    assert!(expr.is_monomial_form());
}

#[test]
fn test_not_monomial_form() {
    let x = WitIn { id: 0 };
    let y = WitIn { id: 1 };
    // scaledsum * challenge
    // (x + 1) * (y + 1)
    let expr: Expression = (num(1) + x.expr()) * (num(2) + y.expr());
    assert!(!expr.is_monomial_form());
}

#[test]
fn test_fmt_expr_challenge_1() {
    let a = challenge(0, 2, 3, 4);
    let b = challenge(0, 5, 6, 7);

    let mut wtns_acc = vec![];
    let s = fmt::expr(&(a * b), &mut wtns_acc, false);

    assert_eq!(s, "18*Challenge(0)^7+28 + 21*Challenge(0)^2 + 24*Challenge(0)^5");
}

#[test]
fn test_fmt_expr_challenge_2() {
    let a = challenge(0, 1, 1, 0);
    let b = challenge(0, 1, 1, 0);

    let mut wtns_acc = vec![];
    let s = fmt::expr(&(a * b), &mut wtns_acc, false);

    assert_eq!(s, "Challenge(0)^2");
}

#[test]
fn test_fmt_expr_wtns_acc_1() {
    let expr = Expression::WitIn(0);
    let mut wtns_acc = vec![];
    let s = fmt::expr(&expr, &mut wtns_acc, false);
    assert_eq!(s, "WitIn(0)");
    assert_eq!(wtns_acc, vec![0]);
}

#[test]
fn test_wit_infer_by_expr_base_field() {
    let a = WitIn { id: 0 };
    let b = WitIn { id: 1 };
    let c = WitIn { id: 2 };

    let expr: Expression =
        a.expr() + b.expr() + a.expr() * b.expr() + (c.expr() * num(3) + num(2));

    let wits: Vec<MultilinearExtension> =
        vec![vec![f(1)].into_mle(), vec![f(2)].into_mle(), vec![f(3)].into_mle()];
    let res = wit_infer_by_expr(&[], &wits, &[], &[], &[], &expr);
    // 1 + 2 + 1 * 2 + 3 * 3 + 2
    assert_eq!(res.get_base_field_vec(), &[f(16)]);
}

#[test]
fn test_wit_infer_by_expr_ext_field() {
    let a = WitIn { id: 0 };
    let b = WitIn { id: 1 };
    let c = WitIn { id: 2 };

    let expr: Expression = a.expr()
        + b.expr()
        + a.expr() * b.expr()
        + (c.expr() * num(3) + num(2))
        + challenge(0, 1, 1, 1);

    let wits: Vec<MultilinearExtension> =
        vec![vec![f(1)].into_mle(), vec![f(2)].into_mle(), vec![f(3)].into_mle()];
    let res = wit_infer_by_expr(&[], &wits, &[], &[], &[e(1)], &expr);
    assert_eq!(res.get_ext_field_vec(), &[e(18)]);
}

#[test]
fn leaves_with_values() {
    let value = [e(7)];
    let known = |expr: &Expression| has_leaves(&value, &value, &value, &value, &value, expr);
    let x = |id: u16| WitIn { id }.expr();
    assert!(known(&(x(0) * Fixed(0).expr() + Instance(0).expr() * challenge(0, 2, 3, 4))));
    assert!(!known(&x(1)));
    assert!(!known(&Fixed(1).expr()));
    assert!(!known(&Instance(1).expr()));
    assert!(!known(&challenge(1, 1, 1, 0)));
    assert!(!known(&(x(0) + x(0) * x(1))));
    assert!(!known(&Expression::ScaledSum(
        Box::new(x(0)),
        Box::new(num(2)),
        Box::new(challenge(1, 1, 1, 0)),
    )));
    assert!(has_leaves(&[], &[], &[], &[], &[], &num(3)));
    assert!(!has_leaves(&[], &[], &[], &value, &value, &x(0)));
}

#[test]
fn shapes_of_inferred_tables() {
    let wits: Vec<MultilinearExtension> = vec![
        vec![f(1), f(2)].into_mle(),
        vec![f(1), f(2), f(3), f(4)].into_mle(),
        vec![e(1), e(2)].into_mle(),
        vec![f(5)].into_mle(),
        MultilinearExtension { evaluations: FieldType::Unreachable, num_vars: 0 },
    ];
    let shape = |expr: &Expression| inferred_shape(&[], &wits, &[], &[], &[e(9)], expr);
    let x = |id: u16| WitIn { id }.expr();
    assert_eq!(shape(&x(0)), Some((1, false)));
    assert_eq!(shape(&x(1)), Some((2, false)));
    assert_eq!(shape(&x(2)), Some((1, true)));
    assert_eq!(shape(&x(4)), None);
    assert_eq!(shape(&x(5)), None);
    assert_eq!(shape(&num(3)), Some((0, false)));
    assert_eq!(shape(&challenge(0, 1, 1, 0)), Some((0, true)));
    assert_eq!(shape(&challenge(1, 1, 1, 0)), None);
    // the left table of a sum gives its length
    assert_eq!(shape(&(x(0) + x(1))), Some((1, false)));
    assert_eq!(shape(&(x(1) + x(0))), None);
    assert_eq!(shape(&(x(3) + x(1))), Some((2, false)));
    assert_eq!(shape(&(x(0) + x(2))), Some((1, true)));
    // the tables of a product have one length
    let product = |a: Expression, b: Expression| Expression::Product(Box::new(a), Box::new(b));
    assert_eq!(shape(&product(x(0), x(2))), Some((1, true)));
    assert_eq!(shape(&product(x(0), x(1))), None);
    assert_eq!(shape(&product(x(1), x(3))), Some((2, false)));
    let scaled = |x: Expression, a: Expression, b: Expression| {
        Expression::ScaledSum(Box::new(x), Box::new(a), Box::new(b))
    };
    assert_eq!(shape(&scaled(x(1), num(2), num(3))), Some((2, false)));
    assert_eq!(shape(&scaled(x(1), challenge(0, 1, 1, 0), num(3))), Some((2, true)));
    assert_eq!(shape(&scaled(x(1), num(2), challenge(0, 1, 1, 0))), None);
    assert_eq!(shape(&scaled(x(1), num(2), x(0))), None);
    assert_eq!(shape(&scaled(x(0), x(0), num(1))), None);
}

#[test]
fn columns_of_each_kind_are_inferred() {
    let fixed: Vec<MultilinearExtension> = vec![vec![f(1), f(2)].into_mle()];
    let wits: Vec<MultilinearExtension> = vec![vec![f(10), f(20)].into_mle()];
    let structural: Vec<MultilinearExtension> = vec![vec![f(100), f(200)].into_mle()];
    let instance: Vec<MultilinearExtension> = vec![vec![f(1000), f(2000)].into_mle()];
    let table = |expr: Expression| {
        wit_infer_by_expr(&fixed, &wits, &structural, &instance, &[], &expr)
            .get_base_field_vec()
            .to_vec()
    };
    assert_eq!(table(Fixed(0).expr()), vec![f(1), f(2)]);
    assert_eq!(table(WitIn { id: 0 }.expr()), vec![f(10), f(20)]);
    let s = StructuralWitIn { id: 0, max_len: 2, offset: 0, multi_factor: 1, descending: false };
    assert_eq!(table(s.expr()), vec![f(100), f(200)]);
    assert_eq!(table(Instance(0).expr()), vec![f(1000), f(2000)]);
    assert_eq!(table(WitIn { id: 0 }.expr() - Fixed(0).expr()), vec![f(9), f(18)]);
}

#[test]
fn differences_of_constants_and_challenges() {
    // a constant minus a challenge: 5 - (2 * c + 3) is -2 * c + 2, at 10 this is -18
    let difference = num(5) - challenge(0, 1, 2, 3);
    assert_eq!(difference, Expression::Challenge(0, 1, -e(2), e(2)));
    assert_eq!(eval_by_expr(&[], &[], &[e(10)], &difference), -e(18));
    let constant = Expression::Constant(Either::Right(e(5)));
    assert_eq!(constant - challenge(0, 1, 2, 3), Expression::Challenge(0, 1, -e(2), e(2)));
    // the same in the offset of a scaled sum: 5 - (7 * x + (2 * c + 3)), at x = 4 and c = 10
    let sum = Expression::ScaledSum(
        Box::new(WitIn { id: 0 }.expr()),
        Box::new(num(7)),
        Box::new(challenge(0, 1, 2, 3)),
    );
    assert_eq!(eval_by_expr(&[e(4)], &[], &[e(10)], &(num(5) - sum)), -e(46));
    // a challenge minus a constant keeps the challenge's scalar
    assert_eq!(challenge(0, 1, 5, 7) - num(2), challenge(0, 1, 5, 5));
    // two scaled sums of the same column are not merged
    let x = WitIn { id: 0 }.expr();
    let difference = num(3) * x.clone() - num(2) * x;
    let wits: Vec<MultilinearExtension> = vec![vec![f(11)].into_mle()];
    let res = wit_infer_by_expr(&[], &wits, &[], &[], &[], &difference);
    assert_eq!(res.get_base_field_vec(), &[f(11)]);
}

#[test]
fn negation_and_conversions() {
    let x = WitIn { id: 3 }.expr();
    let wits: Vec<MultilinearExtension> =
        (0..4).map(|i| vec![f(i), f(i + 5)].into_mle()).collect();
    let res = wit_infer_by_expr(&[], &wits, &[], &[], &[], &(-x));
    assert_eq!(res.get_base_field_vec(), &[-f(3), -f(8)]);
    assert_eq!(Expression::from(-3i32), Expression::Constant(Either::Left(-f(3))));
    assert_eq!(Expression::from(3u8), Expression::Constant(Either::Left(f(3))));
}

#[test]
fn sums_products_and_shifts() {
    let x = WitIn { id: 0 }.expr();
    let y = WitIn { id: 1 }.expr();
    let wits: Vec<MultilinearExtension> = vec![vec![f(5)].into_mle(), vec![f(7)].into_mle()];
    let at = |expr: &Expression| {
        wit_infer_by_expr(&[], &wits, &[], &[], &[], expr).get_base_field_vec()[0]
    };
    assert_eq!(at(&Expression::sum(&[x.clone(), y.clone(), num(1)])), f(13));
    assert_eq!(at(&Expression::product(&[x.clone(), y.clone(), num(2)])), f(70));
    assert_eq!(at(&(x << 3)), f(40));
}

#[test]
fn constants_and_challenges_are_evaluated() {
    assert!(num(3).is_constant());
    assert!(!WitIn { id: 0 }.expr().is_constant());
    assert!(!challenge(1, 2, 3, 4).is_constant());
    let constant = |c: Either<Goldilocks, GoldilocksExt2>| match c {
        Either::Left(b) => GoldilocksExt2::from_base(b),
        Either::Right(v) => v,
    };
    let power = |id: u16, pow: usize, scalar: GoldilocksExt2, offset: GoldilocksExt2| {
        e(10 * id as u64 + pow as u64) * scalar + offset
    };
    assert_eq!(num(3).evaluate_constant(&constant, &power), e(3));
    assert_eq!(challenge(1, 2, 3, 4).evaluate_constant(&constant, &power), e(40));
}

#[test]
fn degrees_of_expressions() {
    let x = WitIn { id: 0 }.expr();
    let y = WitIn { id: 1 }.expr();
    assert_eq!(num(3).degree(), 0);
    assert_eq!(x.degree(), 1);
    assert_eq!((x.clone() * y.clone()).degree(), 2);
    assert_eq!((x.clone() * y.clone() + x.clone()).degree(), 2);
    assert_eq!(challenge(0, 5, 1, 0).degree(), 0);
    // the degree is kept where terms cancel
    let (xy, x) = (x.clone() * y.clone(), x);
    assert_eq!((xy.clone() - xy.clone()).degree(), 2);
    assert_eq!((xy.clone() - x.clone()).degree(), 2);
    assert_eq!((-xy.clone()).degree(), 2);
    assert_eq!((xy.clone() * (x * num(0))).degree(), 3);
    assert_eq!((num(7) * y + num(1)).degree(), 1);
}

#[test]
fn operations_in_place() {
    let x = WitIn { id: 0 }.expr();
    let y = WitIn { id: 1 }.expr();
    let mut expr = x.clone();
    expr += y.clone();
    assert_eq!(expr, x.clone() + y.clone());
    expr -= num(3);
    assert_eq!(expr, x.clone() + y.clone() - num(3));
    let mut scaled = x.clone();
    scaled.mul_assign(num(5));
    assert_eq!(scaled, x.clone() * num(5));
    let mut shifted = x.clone();
    shifted.shl_assign(4);
    assert_eq!(shifted, x * num(16));
}

#[test]
fn zero_expressions_are_seen() {
    assert!(Expression::is_zero_expr(&num(0)));
    assert!(Expression::is_zero_expr(&(num(0) + num(0))));
    assert!(!Expression::is_zero_expr(&WitIn { id: 0 }.expr()));
    assert!(Expression::is_zero_expr(&challenge(0, 2, 0, 0)));
}

#[test]
fn monomial_form_is_reached() {
    let x = WitIn { id: 0 }.expr();
    let y = WitIn { id: 1 }.expr();
    let expr = (num(1) + x) * (num(2) + y);
    assert!(!expr.is_monomial_form());
    let monomial = expr.get_monomial_form();
    assert!(monomial.is_monomial_form());
    let wits: Vec<MultilinearExtension> =
        vec![vec![f(5), f(0)].into_mle(), vec![f(7), f(9)].into_mle()];
    let a = wit_infer_by_expr(&[], &wits, &[], &[], &[], &expr);
    let b = wit_infer_by_expr(&[], &wits, &[], &[], &[], &monomial);
    assert_eq!(a.get_base_field_vec(), &[f(54), f(11)]);
    assert_eq!(a.get_base_field_vec(), b.get_base_field_vec());
    // nothing but products of leaves is added up
    assert_eq!(products(&monomial), vec![4, 3, 3, 2]);
    let x = WitIn { id: 0 }.expr();
    let y = WitIn { id: 1 }.expr();
    let cube = (x.clone() * y.clone() + num(3)) * (y + x.clone()) * x;
    assert_eq!(products(&cube.get_monomial_form()), vec![4, 4, 3, 3]);
}

/// The number of leaves of each product that is added up, but for constants that are added.
fn products(expr: &Expression) -> Vec<usize> {
    match expr {
        Expression::Sum(a, b) => [products(a), products(b)].concat(),
        Expression::Constant(_) => vec![],
        _ => vec![leaves(expr)],
    }
}

/// The number of leaves of a product.
fn leaves(expr: &Expression) -> usize {
    match expr {
        Expression::Product(a, b) => leaves(a) + leaves(b),
        Expression::Sum(_, _) | Expression::ScaledSum(_, _, _) => panic!("not a product of leaves"),
        _ => 1,
    }
}

#[test]
fn texts_of_fields_and_expressions() {
    assert_eq!(fmt::base_field(&f(5), true), "5");
    assert_eq!(fmt::base_field(&-f(5), true), "(-5)");
    assert_eq!(fmt::base_field(&-f(5), false), "-5");
    assert_eq!(fmt::field(&e(9)), "9");
    assert_eq!(fmt::field(&GoldilocksExt2 { c0: f(1), c1: f(2) }), "[1,2]");
    assert_eq!(fmt::parens("a + b".to_string(), true), "(a + b)");
    let x = WitIn { id: 0 }.expr();
    let y = WitIn { id: 1 }.expr();
    let mut wtns = vec![];
    let s = fmt::expr(&((x.clone() + y.clone()) * y.clone()), &mut wtns, false);
    assert_eq!(s, "(WitIn(0) + WitIn(1)) * WitIn(1)");
    assert_eq!(wtns, vec![0, 1]);
    assert_eq!((num(3) * x + num(2)).to_text(), "3 * WitIn(0) + 2");
    assert_eq!(fmt::debug(&WitIn { id: 7 }.expr()), "W[7]");
}

#[test]
fn lines_of_witnesses() {
    let wits: Vec<MultilinearExtension> =
        vec![vec![f(5), f(6)].into_mle(), vec![f(7), f(8)].into_mle()];
    let names = vec!["a".to_string(), "b\"c".to_string()];
    assert_eq!(fmt::sorted_ids(&[3, 1, 2]), vec![1, 2, 3]);
    assert_eq!(
        fmt::wtns(&[1, 0], &wits, 1, &names),
        "  WitIn(0)=6 \"a\"\n  WitIn(1)=8 \"b\\\"c\""
    );
}
