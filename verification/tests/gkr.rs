//! Rotations and layers of circuits on concrete values.
use ceno::expression::eval::eval_by_expr;
use ceno::expression::Expression;
use ceno::field::{Goldilocks, GoldilocksExt2};
use ceno::gkr::booleanhypercube::BooleanHypercube;
use ceno::gkr::claims::{first_claims, group_claims, store_claims};
use ceno::gkr::tower_chip::{build_tower_chip, top_sum, TowerChipTrace, TowerParams};
use ceno::gkr::utils::{
    infer_layer_witness, rotation_next_base_mle, rotation_selector, rotation_selector_eval,
};
use ceno::gkr::zerocheck_layer::{
    check_layer, check_rotation, claimed_sum, layer_tables, num_alphas, rotation_expr,
    rotation_openings, rotation_tables, with_rotation_claims, zero_check_expr, BackendError,
    VerifierError,
};
use ceno::gkr::{Chip, EvalExpression, Layer, LayerType, OutputGroup, RotationExprs};
use ceno::mle::{IntoMLE, MultilinearExtension, PointAndEval};
use ceno::virtual_poly::{build_eq_x_r_vec, eq_eval};
use rand::Rng;

fn f(v: u64) -> Goldilocks {
    Goldilocks::from_canonical_u64(v)
}

fn e(v: u64) -> GoldilocksExt2 {
    GoldilocksExt2::from_canonical_u64(v)
}

fn es(values: &[u64]) -> Vec<GoldilocksExt2> {
    values.iter().map(|v| e(*v)).collect()
}

fn random_point(n: usize) -> Vec<GoldilocksExt2> {
    let mut rng = rand::thread_rng();
    (0..n)
        .map(|_| GoldilocksExt2 {
            c0: f(rng.gen_range(0..0xffff_ffff_0000_0001)),
            c1: f(rng.gen_range(0..0xffff_ffff_0000_0001)),
        })
        .collect()
}

fn make_mle(values: Vec<Goldilocks>) -> MultilinearExtension<'static> {
    MultilinearExtension::from_evaluation_vec_smart(values.len().ilog2() as usize, values)
}

#[test]
fn test_rotation_next_base_mle_eval() {
    let bh = BooleanHypercube::new(5);
    let poly = make_mle((0..128u64).map(Goldilocks::from_canonical_u64).collect());
    let rotated = rotation_next_base_mle(&bh, &poly, 5);

    let point = random_point(7);
    let (left_point, right_point) = bh.get_rotation_points(&point);
    let rotated_eval = rotated.evaluate(&point).unwrap();
    let left_eval = poly.evaluate(&left_point).unwrap();
    let right_eval = poly.evaluate(&right_point).unwrap();
    assert_eq!(
        rotated_eval,
        (GoldilocksExt2::one() - point[4]) * left_eval + point[4] * right_eval
    );
    assert_eq!(
        right_eval,
        bh.get_rotation_right_eval_from_left(rotated_eval, left_eval, &point)
    );
}

#[test]
fn points_run_through_a_cycle() {
    let bh = BooleanHypercube::new(5);
    let points = bh.points(31);
    assert_eq!(points[..7], [1, 2, 4, 8, 16, 5, 10]);
    let mut sorted = points.clone();
    sorted.sort();
    assert_eq!(sorted, (1..32).collect::<Vec<usize>>());
}

#[test]
fn a_rotated_table_moves_to_the_next_point() {
    let bh = BooleanHypercube::new(5);
    let poly = make_mle((0..32u64).map(f).collect());
    let rotated = rotation_next_base_mle(&bh, &poly, 5);
    let table = rotated.get_base_field_vec();
    assert_eq!(table[0], f(0));
    assert_eq!(table[1], f(2));
    assert_eq!(table[16], f(5));
}

#[test]
fn the_selector_and_its_value() {
    let bh = BooleanHypercube::new(5);
    let (out_point, in_point) = (random_point(6), random_point(6));
    let eq = build_eq_x_r_vec(&out_point, 1);
    let selector = rotation_selector(&bh, &eq, 23, 5, 64);
    let table = selector.get_ext_field_vec();
    assert_eq!(table[0], e(0));
    assert_eq!(table[32 + 2], eq[34]);
    let last = bh.points(24)[23];
    assert_eq!(table[last], e(0));
    assert_eq!(
        selector.evaluate(&in_point).unwrap(),
        rotation_selector_eval(&bh, &out_point, &in_point, 23, 5)
    );
}

#[test]
fn a_rotation_is_proved_and_verified() {
    let source = make_mle((0..32u64).map(|i| f(i * i + 3)).collect());
    let bh = BooleanHypercube::new(5);
    let target = rotation_next_base_mle(&bh, &source, 5);
    let pairs = vec![(Expression::WitIn(0), Expression::WitIn(1))];
    let wits = vec![source, target];
    let rt = random_point(5);
    let tables = rotation_tables(&pairs, &wits, &rt, 23, 5, 1);
    let alphas = es(&[7]);
    let expr = rotation_expr(&alphas);

    // every row of the sum is zero
    for row in 0..32 {
        let values: Vec<GoldilocksExt2> =
            tables.iter().map(|t| t.evaluations().get(row)).collect();
        assert_eq!(eval_by_expr(&values, &[], &[], &expr), e(0));
    }
    let origin = random_point(5);
    let evals: Vec<GoldilocksExt2> = tables.iter().map(|t| t.evaluate(&origin).unwrap()).collect();
    let expected = eval_by_expr(&evals, &[], &[], &expr);
    let (openings, points) =
        rotation_openings(&pairs, &wits, &evals[..2], origin.clone(), 5);
    assert_eq!(openings.len(), 3);
    assert_eq!(openings[0], wits[0].evaluate(&points.left).unwrap());
    assert_eq!(openings[1], wits[0].evaluate(&points.right).unwrap());
    assert_eq!(openings[2], wits[1].evaluate(&origin).unwrap());

    let claims =
        check_rotation(&openings, &alphas, origin.clone(), expected, &rt, 23, 5).unwrap();
    assert_eq!(claims.left_evals, vec![openings[0]]);
    assert_eq!(claims.right_evals, vec![openings[1]]);
    assert_eq!(claims.target_evals, vec![openings[2]]);
    assert_eq!(claims.rotation_points.origin, origin);

    match check_rotation(&openings, &alphas, origin, expected + e(1), &rt, 23, 5) {
        Err(BackendError::LayerVerificationFailed(
            name,
            VerifierError::ClaimNotMatch(want, got),
        )) => {
            assert_eq!(name, "rotation verify failed");
            assert_eq!(want, expected + e(1));
            assert_eq!(got, expected);
        }
        Ok(_) => panic!("a wrong claim passed"),
    }
}

fn product_layer() -> Layer {
    Layer::new(
        "product".to_string(),
        LayerType::Zerocheck,
        vec![
            Expression::WitIn(0) * Expression::WitIn(1),
            Expression::WitIn(0) - Expression::WitIn(0),
        ],
        vec![],
        vec![EvalExpression::Single(2), EvalExpression::Single(3)],
        vec![OutputGroup {
            eq: Some(Expression::WitIn(2)),
            evals: vec![EvalExpression::Single(0), EvalExpression::Zero],
        }],
        RotationExprs { eqs: None, pairs: vec![] },
        0,
        0,
        vec!["p".to_string(), "z".to_string()],
    )
}

#[test]
fn a_layer_is_proved_and_verified() {
    let layer = product_layer();
    assert_eq!(layer.max_expr_degree, 2);
    assert_eq!(num_alphas(&layer), 2);
    let wits = vec![make_mle(vec![f(2), f(3)]), make_mle(vec![f(5), f(7)])];
    let outputs = infer_layer_witness(&layer, &wits, &[]);
    assert_eq!(outputs[0].get_base_field_vec(), &[f(10), f(21)]);
    let out_point = random_point(1);
    let alphas = es(&[11, 13]);
    let sigma = outputs[0].evaluate(&out_point).unwrap();
    let claims = vec![(vec![sigma, e(0)], Some(out_point.clone()))];
    assert_eq!(claimed_sum(&alphas, &claims), e(11) * sigma);

    let tables = layer_tables(&layer, &wits, &[out_point.clone()], &None, 1);
    assert_eq!(tables.len(), 3);
    let expr = zero_check_expr(&layer, &alphas);
    // the sum over the hypercube is the claimed sum
    let at = |row: &[GoldilocksExt2]| {
        let values: Vec<GoldilocksExt2> = tables.iter().map(|t| t.evaluate(row).unwrap()).collect();
        eval_by_expr(&values, &[], &[], &expr)
    };
    assert_eq!(at(&es(&[0])) + at(&es(&[1])), claimed_sum(&alphas, &claims));

    let in_point = random_point(1);
    let expected = at(&in_point);
    let mut main_evals: Vec<GoldilocksExt2> =
        tables.iter().map(|t| t.evaluate(&in_point).unwrap()).collect();
    // the verifier evaluates the equality polynomial itself
    main_evals[2] = e(0);
    let result = check_layer(
        &layer,
        main_evals.clone(),
        &claims,
        &alphas,
        in_point.clone(),
        expected,
        &[],
    )
    .unwrap();
    assert_eq!(result.in_point, in_point);
    assert_eq!(result.evals[0], wits[0].evaluate(&in_point).unwrap());
    assert_eq!(result.evals[2], eq_eval(&out_point, &in_point));
    let wrong = check_layer(
        &layer,
        main_evals,
        &claims,
        &alphas,
        in_point,
        expected + e(1),
        &[],
    );
    match wrong {
        Err(BackendError::LayerVerificationFailed(
            name,
            VerifierError::ClaimNotMatch(want, got),
        )) => {
            assert_eq!(name, "product");
            assert_eq!(want, expected + e(1));
            assert_eq!(got, expected);
        }
        Ok(_) => panic!("a wrong claim passed"),
    }
}

#[test]
fn claims_are_handed_on() {
    let layer = product_layer();
    let mut chip = Chip::new();
    chip.n_evaluations = 4;
    chip.final_out_evals = vec![0];
    let mut claims = first_claims(&chip, &vec![PointAndEval::new(es(&[3]), e(8))]);
    assert_eq!(claims.len(), 4);
    assert!(claims[1..].iter().all(|claim| claim.is_none()));
    // the second output is zero
    assert_eq!(group_claims(&layer, &claims), vec![(es(&[8, 0]), Some(es(&[3])))]);
    // the inputs are the evaluations 2 and 3; the equality polynomial is not handed on
    store_claims(&layer, &mut claims, &es(&[5]), &es(&[20, 30, 40]));
    assert_eq!(claims[0], Some(PointAndEval::new(es(&[3]), e(8))));
    assert_eq!(claims[1], None);
    assert_eq!(claims[2], Some(PointAndEval::new(es(&[5]), e(20))));
    assert_eq!(claims[3], Some(PointAndEval::new(es(&[5]), e(30))));
}

#[test]
fn rotation_claims_follow_the_outputs() {
    let source = make_mle((0..32u64).map(f).collect());
    let target = rotation_next_base_mle(&BooleanHypercube::new(5), &source, 5);
    let pairs = vec![(Expression::WitIn(0), Expression::WitIn(1))];
    let wits = vec![source, target];
    let rt = random_point(5);
    let tables = rotation_tables(&pairs, &wits, &rt, 23, 5, 1);
    let origin = random_point(5);
    let evals: Vec<GoldilocksExt2> = tables.iter().map(|t| t.evaluate(&origin).unwrap()).collect();
    let alphas = es(&[7]);
    let expected = eval_by_expr(&evals, &[], &[], &rotation_expr(&alphas));
    let (openings, _) = rotation_openings(&pairs, &wits, &evals[..2], origin.clone(), 5);
    let rotation = check_rotation(&openings, &alphas, origin.clone(), expected, &rt, 23, 5)
        .unwrap();
    let claims = with_rotation_claims(vec![(es(&[1]), Some(es(&[2])))], rotation);
    assert_eq!(claims.len(), 4);
    assert_eq!(claims[1].0, vec![openings[0]]);
    assert_eq!(claims[2].0, vec![openings[1]]);
    assert_eq!(claims[3].0, vec![openings[2]]);
    assert_eq!(claims[3].1, Some(origin));
}

#[test]
fn a_tower_of_fractions() {
    let height = 2;
    let (layout, chip) = build_tower_chip(TowerParams { height });
    assert_eq!(chip.layers.len(), height + 1);
    assert_eq!(chip.layers[1].name, "Tower_layer_1");
    assert_eq!(chip.layers[2].name, "Update_table");
    assert_eq!(chip.n_committed, 2);
    assert_eq!(chip.n_challenges, height);
    let m = layout.phase1_witness_group(TowerChipTrace {
        table_with_multiplicity: vec![(5, 1), (6, 2), (7, 3)],
    });
    assert_eq!(m.num_instances(), 3);
    assert_eq!(m.row(1), vec![f(6), f(2)]);
    assert_eq!(m.row(3), vec![f(0), f(0)]);

    // one layer adds the halves: 1/5 + 3/7 and 2/6 + 4/8
    let columns: Vec<MultilinearExtension> = [[5, 6], [7, 8], [1, 2], [3, 4]]
        .iter()
        .map(|c| c.iter().map(|v| f(*v)).collect::<Vec<_>>().into_mle())
        .collect();
    let outputs = infer_layer_witness(&chip.layers[0], &columns, &[]);
    assert_eq!(outputs[0].get_base_field_vec(), &[f(35), f(48)]);
    assert_eq!(outputs[1].get_base_field_vec(), &[f(5 * 3 + 7), f(6 * 4 + 8 * 2)]);
    assert_eq!(top_sum(e(5), e(7), e(1), e(3)), (e(35), e(22)));
}
