//! Towers and the main constraints on concrete tables.
use ceno::expression::convert::ToExpr;
use ceno::expression::eval::eval_by_expr;
use ceno::expression::monomial::Term;
use ceno::expression::{Expression, Instance, WitIn};
use ceno::field::{Goldilocks, GoldilocksExt2};
use ceno::mle::{IntoMLE, MultilinearExtension};
use ceno::scheme::cpu::{build_tower_witness, logup_tower, product_tower};
use ceno::scheme::main_sumcheck::{
    all_challenges, check_zero_expressions, eval_scalar, largest_poly_size, main_selector,
    needs_parameters, public_io_evals, selected_terms, split_main_evals, table_evals,
};
use ceno::scheme::structs::{
    ConstraintSystem, LogupTableExpression, ProofInput, SetTableExpression, TowerProofs,
    TowerProverSpec, ZKVMError,
};
use ceno::scheme::tower_prover::{
    merge_layers, next_point, plan_round, proved_layers, round_tables, GroupedMLE,
};
use ceno::scheme::utils::{
    infer_tower_logup_witness, infer_tower_product_witness, interleaving_mles_to_mles,
    masked_mle_split_to_chunks,
};
use ceno::util::ceil_log2;

fn f(v: u64) -> Goldilocks {
    Goldilocks::from_canonical_u64(v)
}

fn e(v: u64) -> GoldilocksExt2 {
    GoldilocksExt2::from_canonical_u64(v)
}

fn es(values: &[u64]) -> Vec<GoldilocksExt2> {
    values.iter().map(|v| e(*v)).collect()
}

fn ext_mle(values: &[u64]) -> MultilinearExtension<'static> {
    es(values).into_mle()
}

fn base_mle(values: &[u64]) -> MultilinearExtension<'static> {
    values.iter().map(|v| f(*v)).collect::<Vec<_>>().into_mle()
}

fn product(values: &[GoldilocksExt2]) -> GoldilocksExt2 {
    values.iter().fold(e(1), |a, b| a * *b)
}

#[test]
fn test_infer_tower_witness() {
    let num_product_fanin = 2;
    let last_layer = vec![ext_mle(&[1, 2]), ext_mle(&[3, 4])];
    let num_vars = ceil_log2(last_layer[0].evaluations().len()) + 1;
    let expected_final_product = product(
        &last_layer.iter().map(|m| product(m.get_ext_field_vec())).collect::<Vec<_>>(),
    );
    let res = infer_tower_product_witness(num_vars, last_layer, 2);
    let (left, right) = (res[0][0].get_ext_field_vec(), res[0][1].get_ext_field_vec());
    assert!(left.len() == 1 && right.len() == 1);
    let final_product = left[0] * right[0];
    assert_eq!(res.len(), num_vars);
    assert!(res.iter().all(|layer_wit| layer_wit.len() == num_product_fanin));
    assert_eq!(final_product, expected_final_product);
}

#[test]
fn test_interleaving_mles_to_mles() {
    let num_product_fanin = 2;
    // [[1, 2], [3, 4], [5, 6], [7, 8]]
    let input_mles =
        vec![ext_mle(&[1, 2]), ext_mle(&[3, 4]), ext_mle(&[5, 6]), ext_mle(&[7, 8])];
    let res = interleaving_mles_to_mles(&input_mles, 2, num_product_fanin, e(1));
    // [[1, 3, 5, 7], [2, 4, 6, 8]]
    assert_eq!(res[0].get_ext_field_vec(), es(&[1, 3, 5, 7]));
    assert_eq!(res[1].get_ext_field_vec(), es(&[2, 4, 6, 8]));
}

#[test]
fn test_interleaving_mles_to_mles_padding() {
    let num_product_fanin = 2;

    // limb level padding
    // [[1,2],[3,4],[5,6]]]
    let input_mles = vec![ext_mle(&[1, 2]), ext_mle(&[3, 4]), ext_mle(&[5, 6])];
    let res = interleaving_mles_to_mles(&input_mles, 2, num_product_fanin, e(0));
    // [[1, 3, 5, 0], [2, 4, 6, 0]]
    assert_eq!(res[0].get_ext_field_vec(), es(&[1, 3, 5, 0]));
    assert_eq!(res[1].get_ext_field_vec(), es(&[2, 4, 6, 0]));

    // instance level padding
    // [[1,0],[3,0],[5,0]]]
    let input_mles = vec![ext_mle(&[1, 0]), ext_mle(&[3, 0]), ext_mle(&[5, 0])];
    let res = interleaving_mles_to_mles(&input_mles, 1, num_product_fanin, e(1));
    // [[1, 3, 5, 1], [1, 1, 1, 1]]
    assert_eq!(res[0].get_ext_field_vec(), es(&[1, 3, 5, 1]));
    assert_eq!(res[1].get_ext_field_vec(), es(&[1, 1, 1, 1]));
}

#[test]
fn test_interleaving_mles_to_mles_edgecases() {
    let num_product_fanin = 2;
    // one instance, 2 mles: [[2], [3]]
    let input_mles = vec![ext_mle(&[2]), ext_mle(&[3])];
    let res = interleaving_mles_to_mles(&input_mles, 1, num_product_fanin, e(1));
    // [[2, 3], [1, 1]]
    assert_eq!(res[0].get_ext_field_vec(), es(&[2, 3]));
    assert_eq!(res[1].get_ext_field_vec(), es(&[1, 1]));
}

#[test]
fn test_infer_tower_logup_witness() {
    let num_vars = 2;
    let q = vec![ext_mle(&[1, 2, 3, 4]), ext_mle(&[5, 6, 7, 8])];
    let mut res = infer_tower_logup_witness(None, q);
    assert_eq!(num_vars + 1, res.len());
    // input layer
    let layer = res.pop().unwrap();
    // input layer p
    assert_eq!(layer[0].get_ext_field_vec(), es(&[1, 1, 1, 1]));
    assert_eq!(layer[1].get_ext_field_vec(), es(&[1, 1, 1, 1]));
    // input layer q is none
    assert_eq!(layer[2].get_ext_field_vec(), es(&[1, 2, 3, 4]));
    assert_eq!(layer[3].get_ext_field_vec(), es(&[5, 6, 7, 8]));

    // next layer
    let layer = res.pop().unwrap();
    // next layer p1
    assert_eq!(layer[0].get_ext_field_vec(), es(&[1 + 5, 2 + 6]));
    // next layer p2
    assert_eq!(layer[1].get_ext_field_vec(), es(&[3 + 7, 4 + 8]));
    // next layer q1
    assert_eq!(layer[2].get_ext_field_vec(), es(&[5, 2 * 6]));
    // next layer q2
    assert_eq!(layer[3].get_ext_field_vec(), es(&[3 * 7, 4 * 8]));

    // output layer
    let layer = res.pop().unwrap();
    // p1: p11 * q12 + p12 * q11
    assert_eq!(layer[0].get_ext_field_vec(), es(&[(1 + 5) * (3 * 7) + (3 + 7) * 5]));
    // p2: p21 * q22 + p22 * q21
    assert_eq!(layer[1].get_ext_field_vec(), es(&[(2 + 6) * (4 * 8) + (4 + 8) * (2 * 6)]));
    // q1: q12 * q11
    assert_eq!(layer[2].get_ext_field_vec(), es(&[(3 * 7) * 5]));
    // q2: q22 * q22
    assert_eq!(layer[3].get_ext_field_vec(), es(&[(4 * 8) * (2 * 6)]));
}

#[test]
fn towers_of_one_layer() {
    // one layer is handed back as it is, over either field and with tables of any length
    let res = infer_tower_product_witness(1, vec![base_mle(&[5, 6]), base_mle(&[7])], 2);
    assert_eq!(res.len(), 1);
    assert_eq!(res[0][0].get_base_field_vec(), &[f(5), f(6)]);
    assert_eq!(res[0][1].get_base_field_vec(), &[f(7)]);
    let res = infer_tower_logup_witness(
        Some(vec![base_mle(&[1]), base_mle(&[2])]),
        vec![base_mle(&[3]), base_mle(&[4])],
    );
    assert_eq!(res.len(), 1);
    let values: Vec<Goldilocks> = res[0].iter().map(|m| m.get_base_field_vec()[0]).collect();
    assert_eq!(values, vec![f(1), f(2), f(3), f(4)]);
}

#[test]
fn given_numerators_are_added_up() {
    let p = vec![base_mle(&[1, 0]), base_mle(&[2, 3])];
    let q = vec![ext_mle(&[5, 7]), ext_mle(&[11, 13])];
    let res = infer_tower_logup_witness(Some(p), q);
    assert_eq!(res.len(), 2);
    assert_eq!(res[0][0].get_ext_field_vec(), es(&[1 * 11 + 2 * 5]));
    assert_eq!(res[0][1].get_ext_field_vec(), es(&[3 * 7]));
    assert_eq!(res[0][2].get_ext_field_vec(), es(&[55]));
    assert_eq!(res[0][3].get_ext_field_vec(), es(&[91]));
}

#[test]
fn rows_past_the_instances_are_masked() {
    let m = base_mle(&[1, 2, 3, 4]);
    let parts = masked_mle_split_to_chunks(&m, 3, 2, e(9));
    assert_eq!(parts[0].get_ext_field_vec(), es(&[1, 2]));
    assert_eq!(parts[1].get_ext_field_vec(), es(&[3, 9]));
}

#[test]
fn towers_end_in_the_product_and_the_sum() {
    let tower = product_tower(&ext_mle(&[2, 3, 5, 7]), 3);
    let top = &tower.witness[0];
    assert_eq!(top[0].get_ext_field_vec()[0] * top[1].get_ext_field_vec()[0], e(30));

    let tower = logup_tower(None, &ext_mle(&[2, 3, 5, 7]), 4, e(1));
    let top: Vec<GoldilocksExt2> =
        tower.witness[0].iter().map(|m| m.get_ext_field_vec()[0]).collect();
    let numerator = top[0] * top[3] + top[1] * top[2];
    let denominator = top[2] * top[3];
    // 1/2 + 1/3 + 1/5 + 1/7 = 247/210
    assert_eq!(denominator, e(210));
    assert_eq!(numerator, e(247));
}

fn system() -> ConstraintSystem {
    let x = WitIn { id: 0 }.expr();
    let y = WitIn { id: 1 }.expr();
    ConstraintSystem {
        num_witin: 2,
        num_structural_witin: 0,
        num_fixed: 0,
        r_table_expressions: vec![],
        r_expressions: vec![x.clone() + Expression::Challenge(0, 1, e(1), e(0))],
        w_table_expressions: vec![],
        w_expressions: vec![y.clone() + Expression::Challenge(0, 1, e(1), e(0))],
        lk_table_expressions: vec![],
        lk_expressions: vec![x + Expression::Challenge(1, 1, e(1), e(0))],
        assert_zero_sumcheck_expressions: vec![],
        assert_zero_sumcheck_names: vec![],
        instance_ids: vec![],
        num_layer_challenges: 0,
        backend_expr_monomial_form: vec![],
        num_backend_witin: 2,
    }
}

fn input<'a>(witness: Vec<MultilinearExtension<'a>>, num_instances: usize) -> ProofInput<'a> {
    ProofInput {
        witness,
        structural_witness: vec![],
        fixed: vec![],
        public_input: vec![],
        num_instances,
    }
}

#[test]
fn towers_of_a_circuit() {
    let cs = system();
    assert!(cs.is_opcode_circuit());
    assert!(!cs.is_table_circuit());
    let proof_input = input(vec![base_mle(&[1, 2]), base_mle(&[3, 4])], 2);
    assert_eq!(proof_input.log2_num_instances(), 1);
    let challenges = [e(100), e(10)];
    let (out_evals, records, prod_specs, lookup_specs) =
        build_tower_witness(&cs, &proof_input, &challenges);
    assert_eq!(records.len(), 3);
    assert_eq!(prod_specs.len(), 2);
    assert_eq!(lookup_specs.len(), 1);
    assert_eq!(product(&out_evals[0][0]), e(101 * 102));
    assert_eq!(product(&out_evals[1][0]), e(103 * 104));
    let lk = &out_evals[2][0];
    assert_eq!(lk[2] * lk[3], e(11 * 12));
    assert_eq!(lk[0] * lk[3] + lk[1] * lk[2], e(23));
}

#[test]
fn towers_of_a_table() {
    let mut cs = system();
    cs.r_expressions = vec![];
    cs.w_expressions = vec![];
    cs.lk_expressions = vec![];
    cs.r_table_expressions =
        vec![SetTableExpression { expr: WitIn { id: 0 }.expr(), table_len: Some(2) }];
    cs.w_table_expressions =
        vec![SetTableExpression { expr: WitIn { id: 1 }.expr(), table_len: Some(2) }];
    cs.lk_table_expressions = vec![LogupTableExpression {
        multiplicity: WitIn { id: 0 }.expr(),
        values: WitIn { id: 1 }.expr() + Expression::Challenge(1, 1, e(1), e(0)),
    }];
    assert!(cs.is_table_circuit());
    assert!(!cs.is_opcode_circuit());
    let proof_input = input(vec![base_mle(&[1, 2]), base_mle(&[3, 4])], 2);
    let (out_evals, _, _, lookup_specs) =
        build_tower_witness(&cs, &proof_input, &[e(100), e(10)]);
    assert_eq!(product(&out_evals[0][0]), e(2));
    assert_eq!(product(&out_evals[1][0]), e(12));
    assert_eq!(lookup_specs.len(), 1);
    let lk = &out_evals[2][0];
    // 1/13 + 2/14
    assert_eq!(lk[2] * lk[3], e(13 * 14));
    assert_eq!(lk[0] * lk[3] + lk[1] * lk[2], e(14 + 26));
}

#[test]
fn the_output_layer_is_not_proved() {
    let prod = TowerProverSpec {
        witness: vec![
            vec![ext_mle(&[2]), ext_mle(&[3])],
            vec![ext_mle(&[4, 5]), ext_mle(&[6, 7])],
        ],
    };
    let logup = TowerProverSpec {
        witness: vec![vec![ext_mle(&[1]), ext_mle(&[2]), ext_mle(&[3]), ext_mle(&[4])]],
    };
    let layers = proved_layers(vec![prod], vec![logup]);
    assert_eq!(layers.len(), 1);
    assert_eq!(layers[0].len(), 1);
    match &layers[0][0] {
        GroupedMLE::Prod(0, tables) => assert_eq!(tables[1].get_ext_field_vec(), es(&[6, 7])),
        _ => panic!("not the tower of products"),
    }
    assert!(proved_layers(vec![], vec![]).is_empty());
}

#[test]
fn rounds_of_the_towers() {
    let prod = TowerProverSpec {
        witness: vec![
            vec![ext_mle(&[2]), ext_mle(&[3])],
            vec![ext_mle(&[4, 5]), ext_mle(&[6, 7])],
        ],
    };
    let logup = TowerProverSpec {
        witness: vec![vec![ext_mle(&[1]), ext_mle(&[2]), ext_mle(&[3]), ext_mle(&[4])]],
    };
    let layers = merge_layers(vec![prod], vec![logup]);
    assert_eq!(layers.len(), 2);
    assert_eq!(layers[0].len(), 2);
    assert_eq!(layers[1].len(), 1);
    assert!(matches!(layers[0][0], GroupedMLE::Prod(0, _)));
    assert!(matches!(layers[0][1], GroupedMLE::Logup(0, _)));

    let alphas = vec![e(10), e(20), e(30)];
    let round = plan_round(&layers[0], &alphas, 1, 1);
    assert_eq!(round.prod_columns, vec![vec![1, 2]]);
    assert_eq!(round.logup_columns, vec![vec![3, 4, 5, 6]]);
    let mut groups = layers;
    let tables = round_tables(groups.remove(0), &vec![], 1);
    assert_eq!(tables.len(), 7);
    let values: Vec<GoldilocksExt2> =
        tables.iter().map(|t| t.get_ext_field_vec()[0]).collect();
    assert_eq!(values, es(&[1, 2, 3, 1, 2, 3, 4]));
    // 10 * 2 * 3 + 20 * (1 * 4 + 2 * 3) + 30 * 3 * 4
    assert_eq!(eval_by_expr(&values, &[], &[], &round.expr), e(60 + 200 + 360));

    let mut proofs = TowerProofs::new(1, 1);
    let evals = es(&[1, 2, 3, 1, 2, 3, 4]);
    proofs.push_round(&round, &evals, &vec![e(8)]);
    assert_eq!(proofs.prod_specs_eval, vec![vec![es(&[2, 3])]]);
    assert_eq!(proofs.logup_specs_eval, vec![vec![es(&[1, 2, 3, 4])]]);
    assert_eq!(proofs.prod_specs_points, vec![vec![vec![e(8)]]]);
    assert_eq!(next_point(&vec![e(1), e(2)], &vec![e(3)]), es(&[1, 2, 3]));
}

#[test]
fn a_round_sums_up_to_the_merged_claims() {
    // layers with 1 and 2 entries in each table
    let prods = infer_tower_product_witness(2, vec![ext_mle(&[2, 3]), ext_mle(&[5, 7])], 2);
    let logups = infer_tower_logup_witness(None, vec![ext_mle(&[2, 3]), ext_mle(&[5, 7])]);
    let (top_prod, top_logup): (Vec<GoldilocksExt2>, Vec<GoldilocksExt2>) = (
        prods[0].iter().map(|t| t.get_ext_field_vec()[0]).collect(),
        logups[0].iter().map(|t| t.evaluate(&[]).unwrap()).collect(),
    );
    let merge = |a: GoldilocksExt2, b: GoldilocksExt2, r: GoldilocksExt2| (e(1) - r) * a + r * b;
    let r = e(9);
    let claim = e(10) * merge(top_prod[0], top_prod[1], r)
        + e(20) * merge(top_logup[0], top_logup[1], r)
        + e(30) * merge(top_logup[2], top_logup[3], r);

    let mut layers = merge_layers(
        vec![TowerProverSpec { witness: prods }],
        vec![TowerProverSpec { witness: logups }],
    );
    let round = plan_round(&layers[1], &es(&[10, 20, 30]), 1, 1);
    let point = next_point(&vec![], &vec![r]);
    let tables = round_tables(layers.remove(1), &point, 1);
    let at = |row: u64| {
        let values: Vec<GoldilocksExt2> =
            tables.iter().map(|t| t.evaluate(&[e(row)]).unwrap()).collect();
        eval_by_expr(&values, &[], &[], &round.expr)
    };
    assert_eq!(at(0) + at(1), claim);
}

#[test]
fn the_main_sum_opens_the_padded_records() {
    // the constraint `x * y - 1` on three instances
    let (x, y) = ([4, 5, 6, 8], [7, 9, 2, 3]);
    let mut cs = system();
    cs.num_backend_witin = 2;
    cs.backend_expr_monomial_form = vec![
        Term {
            scalar: Expression::from(1),
            product: vec![Expression::WitIn(0), Expression::WitIn(1)],
        },
        Term { scalar: Expression::from(-1), product: vec![] },
    ];
    let selected = selected_terms(&cs, &[], &[]);
    let point = es(&[11, 13]);
    let selector = main_selector(&point, 3, 1);
    let mut sum = e(0);
    for row in 0..4 {
        let columns = [e(x[row]), e(y[row]), selector.get_ext_field_vec()[row]];
        for term in &selected {
            let mut value = term.scalar;
            for factor in &term.product {
                value = value * eval_by_expr(&columns, &[], &[], factor);
            }
            sum = sum + value;
        }
    }
    let padded = ext_mle(&[28, 45, 12, 1]);
    assert_eq!(sum, padded.evaluate(&point).unwrap() - e(1));
}

#[test]
fn selector_covers_the_instances() {
    let point = es(&[2, 3]);
    let selector = main_selector(&point, 3, 1);
    let table = selector.get_ext_field_vec();
    let one = e(1);
    assert_eq!(table[0], (one - point[0]) * (one - point[1]));
    assert_eq!(table[1], point[0] * (one - point[1]));
    assert_eq!(table[2], (one - point[0]) * point[1]);
    assert_eq!(table[3], e(0));
}

#[test]
fn zero_expressions_are_checked() {
    let x = WitIn { id: 0 }.expr();
    let y = WitIn { id: 1 }.expr();
    let proof_input = input(vec![base_mle(&[1, 2, 3, 4]), base_mle(&[1, 0, 3, 0])], 4);
    let exprs = vec![x.clone() - x.clone(), x - y];
    let names = vec!["first".to_string(), "second".to_string()];
    match check_zero_expressions(&proof_input, &[], &exprs, &names) {
        Err(ZKVMError::InvalidWitness(text)) => assert_eq!(
            text,
            "degree > 1 zero check virtual poly: expr second != 0 on instance indexes: 1,3..."
        ),
        Ok(()) => panic!("the second expression is not zero"),
    }
    let exprs = vec![exprs.into_iter().next().unwrap()];
    assert!(check_zero_expressions(&proof_input, &[], &exprs, &vec!["first".to_string()]).is_ok());
}

#[test]
fn terms_are_selected() {
    let mut cs = system();
    cs.num_backend_witin = 2;
    cs.backend_expr_monomial_form = vec![Term {
        scalar: Instance(0).expr() * Expression::Challenge(0, 2, e(3), e(1)),
        product: vec![WitIn { id: 0 }.expr(), WitIn { id: 1 }.expr()],
    }];
    let public_io = es(&[5]);
    let challenges = es(&[2]);
    let scalar = eval_scalar(&public_io, &challenges, &cs.backend_expr_monomial_form[0].scalar);
    assert_eq!(scalar, e(5 * (3 * 4 + 1)));
    let terms = selected_terms(&cs, &public_io, &challenges);
    assert_eq!(terms.len(), 1);
    assert_eq!(terms[0].scalar, e(65));
    assert_eq!(
        terms[0].product,
        vec![Expression::WitIn(0), Expression::WitIn(1), Expression::WitIn(2)]
    );
}

#[test]
fn evaluations_of_the_main_constraints() {
    let evals = es(&[1, 2, 3, 4, 5]);
    let split = split_main_evals(&evals, 2, 1);
    assert_eq!(split.wits_in_evals, es(&[1, 2]));
    assert_eq!(split.fixed_in_evals, es(&[3]));

    let proof_input = ProofInput {
        witness: vec![base_mle(&[1, 2])],
        structural_witness: vec![],
        fixed: vec![base_mle(&[5, 6, 7, 8])],
        public_input: vec![],
        num_instances: 2,
    };
    let point = es(&[3, 10]);
    let evals = table_evals(&proof_input, &point);
    assert_eq!(evals.wits_in_evals, es(&[4]));
    // 5 + x + 2y
    assert_eq!(evals.fixed_in_evals, es(&[28]));

    assert_eq!(all_challenges(&es(&[1]), &es(&[2, 3])), es(&[1, 2, 3]));
    let public_input = vec![base_mle(&[9]), base_mle(&[8])];
    assert_eq!(public_io_evals(&vec![0, 1], &public_input), es(&[9, 8]));
}

#[test]
fn parameters_for_the_largest_trace() {
    assert_eq!(largest_poly_size(&[3, 9, 0]), 32);
    assert!(needs_parameters(None, 16));
    assert!(needs_parameters(Some(8), 16));
    assert!(!needs_parameters(Some(16), 16));
}
