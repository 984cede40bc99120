//! The circuits of the Keccak permutation on concrete states.
use std::collections::HashMap;

use ceno::circuit::plain::eval_row;
use ceno::expression::Expression;
use ceno::field::{Goldilocks, GoldilocksExt2};
use ceno::gkr::utils::{find_nonzero_output, infer_layer_witness};
use ceno::gkr::{Chip, EvalExpression};
use ceno::mle::{FieldType, MultilinearExtension};
use ceno::precompiles::bitwise_keccakf;
use ceno::precompiles::bitwise_witness::{
    has_bits, keccak_witness, matches_keccakf, out_evals, KeccakTrace as BitTrace,
};
use ceno::precompiles::keccak::{rc, rotation, Round};
use ceno::precompiles::lookup_keccakf::{self, CHI, IOTA, KECCAK_WIT_SIZE, THETA};
use ceno::precompiles::lookup_run::{
    log2_instance_rounds, output_evals, outputs_complete, to_instance,
};
use ceno::precompiles::lookup_witness::KeccakTrace;
use ceno::precompiles::permutation::{
    from_xyz, from_xz, pi, rho, rho_and_pi_permutation, to_xyz, STATE_SIZE,
};
use ceno::precompiles::system::{rotation_split, ConstraintSystem};
use ceno::precompiles::utils::CenoLookup;
use ceno::precompiles::words::{rotate_left, split_word};
use rand::{Rng, RngCore, SeedableRng};

type Table = Vec<Goldilocks>;

fn f(v: u64) -> Goldilocks {
    Goldilocks::from_canonical_u64(v)
}

fn base_table(m: &MultilinearExtension) -> Table {
    match m.evaluations() {
        FieldType::Base(s) => s.as_slice().to_vec(),
        _ => panic!("not in the base field"),
    }
}

fn single(e: &EvalExpression) -> Option<usize> {
    match e {
        EvalExpression::Single(i) => Some(*i),
        _ => None,
    }
}

/// The tables of all evaluations, from those of the committed polynomials.
fn run_layers(chip: &Chip, committed: &[Table]) -> HashMap<usize, Table> {
    let mut tables: HashMap<usize, Table> = HashMap::new();
    for (id, eval) in chip.openings.iter() {
        tables.insert(single(eval).unwrap(), committed[*id].clone());
    }
    for layer in chip.layers.iter().rev() {
        let inputs: Vec<Table> = layer
            .in_eval_expr
            .iter()
            .map(|eval| tables[&single(eval).unwrap()].clone())
            .collect();
        let num_vars = inputs[0].len().trailing_zeros() as usize;
        let wits: Vec<MultilinearExtension> = inputs
            .iter()
            .map(|t| MultilinearExtension::from_evaluations_slice(num_vars, t))
            .collect();
        let outputs = infer_layer_witness(layer, &wits, &[]);
        let mut at = 0;
        for group in layer.expr_evals.iter() {
            for eval in group.evals.iter() {
                if let Some(i) = single(eval) {
                    tables.insert(i, base_table(&outputs[at]));
                }
                at += 1;
            }
        }
    }
    tables
}

#[test]
fn bitwise_keccakf_test_keccakf() {
    let random_u64: u64 = rand::random();
    // Use seeded rng for debugging convenience
    let mut rng = rand::rngs::StdRng::seed_from_u64(random_u64);
    let num_instance = 4;
    let states: Vec<[u64; 25]> =
        (0..num_instance).map(|_| std::array::from_fn(|_| rng.gen())).collect();

    let (layout, chip) = bitwise_keccakf::setup_gkr_circuit();
    let witness = layout.phase1_witness_group(BitTrace { bits: keccak_witness(&states) });
    let committed: Vec<Table> = witness.to_cols_base();
    for (i, state) in states.iter().enumerate() {
        let bits: Table = committed.iter().map(|column| column[i]).collect();
        assert!(has_bits(&bits, state));
    }
    let tables = run_layers(&chip, &committed);
    for (i, state) in states.iter().enumerate() {
        let bits: Table = chip.final_out_evals.iter().map(|eval| tables[eval][i]).collect();
        assert!(matches_keccakf(&bits, state));
        assert!(!matches_keccakf(&bits, &states[(i + 1) % num_instance]));
        let mut lanes = *state;
        tiny_keccak::keccakf(&mut lanes);
        assert!(has_bits(&bits, &lanes));
        assert!(!has_bits(&bits, state));
    }
    // the outputs at a corner of the hypercube are the bits of one instance
    let outputs: Vec<MultilinearExtension> = chip
        .final_out_evals
        .iter()
        .map(|eval| MultilinearExtension::from_evaluations_slice(2, &tables[eval]))
        .collect();
    let point = vec![GoldilocksExt2::one(), GoldilocksExt2::zero()];
    let evals = out_evals(&outputs, &point);
    assert_eq!(evals.len(), STATE_SIZE);
    for (eval, id) in evals.iter().zip(chip.final_out_evals.iter()) {
        assert_eq!(eval.eval, GoldilocksExt2::from_base(tables[id][1]));
        assert_eq!(eval.point, point);
    }
}

fn random_states(num_instances: usize) -> Vec<[u64; 25]> {
    let mut rng = rand::rngs::StdRng::seed_from_u64(42);
    let mut states: Vec<[u64; 25]> = Vec::with_capacity(num_instances);
    for _ in 0..num_instances {
        states.push(std::array::from_fn(|_| rng.next_u64()));
    }
    states
}

fn bytes(lanes: &[u64]) -> Vec<u64> {
    lanes.iter().flat_map(|lane| lane.to_le_bytes()).map(|b| b as u64).collect()
}

fn run_faster_keccakf(states: Vec<[u64; 25]>) {
    let num_instances = states.len();
    let (layout, chip) = lookup_keccakf::setup_gkr_circuit();
    assert_eq!(chip.layers.len(), 1);
    let layer = &chip.layers[0];
    let witness = layout.phase1_witness_group(KeccakTrace::from_states(&states));
    let rows = (32 * num_instances).next_power_of_two();
    assert_eq!(witness.num_instances(), rows);
    assert_eq!(witness.n_col(), KECCAK_WIT_SIZE);
    let mles = witness.to_mles();
    assert_eq!(find_nonzero_output(layer, &mles, &[]), None);

    // the rows of an instance hold the rounds in the order of the cycle
    let bh = ceno::gkr::booleanhypercube::BooleanHypercube::new(5);
    let points = bh.points(24);
    for (i, state) in states.iter().enumerate() {
        let mut lanes = state.to_vec();
        for point in points.iter() {
            let row: Vec<u64> =
                witness.row(32 * i + point).iter().map(|v| v.as_canonical_u64()).collect();
            assert_eq!(row[..200], bytes(&lanes)[..]);
            let round = Round::compute(&lanes, rc(0));
            assert_eq!(row[THETA..THETA + 200], bytes(&round.theta)[..]);
            assert_eq!(row[CHI..CHI + 8], bytes(&round.chi)[..8]);
            assert_eq!(row[IOTA..IOTA + 200], bytes(&round.iota)[..]);
            lanes = round.iota;
        }
    }

    // a changed byte is found
    let mut column = base_table(&mles[THETA]);
    column[points[0]] = column[points[0]] + f(1);
    let mut changed = mles;
    changed[THETA] =
        MultilinearExtension::from_evaluations_vec(witness.num_vars(), column);
    assert!(find_nonzero_output(layer, &changed, &[]).is_some());

    let log2 = log2_instance_rounds(num_instances);
    assert_eq!(1 << log2, rows);
    assert!(outputs_complete(&changed[..3], num_instances));
    assert!(!outputs_complete(&changed[..3], 2 * num_instances));
    let point: Vec<GoldilocksExt2> = (0..log2)
        .map(|i| if i == 0 { GoldilocksExt2::one() } else { GoldilocksExt2::zero() })
        .collect();
    let evals = output_evals(&changed[..3], &point);
    for (eval, m) in evals.iter().zip(changed.iter()) {
        assert_eq!(eval.eval, GoldilocksExt2::from_base(base_table(m)[1]));
    }
}

#[test]
fn lookup_keccakf_test_keccakf() {
    run_faster_keccakf(random_states(8));
}

#[test]
fn test_keccakf_nonpow2() {
    run_faster_keccakf(random_states(5));
}

#[test]
fn names_of_the_constraints() {
    let (_, chip) = lookup_keccakf::setup_gkr_circuit();
    let names = &chip.layers[0].expr_names;
    assert_eq!(names.len(), 160 + 100 + 2714);
    assert_eq!(names[0], "init c_aux");
    assert_eq!(
        names[41],
        "rotation internal theta rotation, round 1, rot: 0, delta: 1, [16, 15, 1, 16, 15, 1]"
    );
    assert_eq!(
        names[60 + 4 + 2],
        "rotation internal RHOPI 0, 1, round 0, rot: 4, delta: 36, [16, 12, 4, 16, 12, 4]"
    );
    assert_eq!(names[160], "build 32-bit output: 0, 0, 0");
    assert_eq!(names[160 + 50 + 13], "build 32-bit input: 1, 1, 1");
    assert_eq!(names[260], "round 0th: 0th lookup felt");
    assert_eq!(names[160 + 100 + 2713], "round 0th: 2713th lookup felt");
}

#[test]
fn rounds_with_their_constants_are_the_permutation() {
    for state in random_states(3) {
        let mut lanes = state.to_vec();
        for round in 0..24 {
            lanes = Round::compute(&lanes, rc(round)).iota;
        }
        let mut expected = state;
        tiny_keccak::keccakf(&mut expected);
        assert_eq!(lanes, expected.to_vec());
    }
}

#[test]
fn bits_and_coordinates() {
    assert_eq!(to_xyz(0), (0, 0, 0));
    assert_eq!(to_xyz(64 * 7 + 3), (2, 1, 3));
    assert_eq!(from_xyz(2, 1, 3), 64 * 7 + 3);
    assert_eq!(from_xz(4, 5), 64 * 4 + 5);
    for i in 0..STATE_SIZE {
        let (x, y, z) = to_xyz(i);
        assert_eq!(from_xyz(x, y, z), i);
    }
}

#[test]
fn rotation_and_permutation_of_lanes() {
    let state: Vec<usize> = (0..STATE_SIZE).collect();
    let permutation = rho_and_pi_permutation();
    assert_eq!(permutation, pi(&rho(&state)));
    let mut seen = vec![false; STATE_SIZE];
    for p in permutation {
        assert!(!seen[p]);
        seen[p] = true;
    }
    // lane 1 is rotated by one bit
    assert_eq!(rotation(1), 1);
    let rotated = rho(&state);
    assert_eq!(rotated[64 + 1], 64);
    assert_eq!(rotated[64], 64 + 63);
    assert_eq!(rotated[3], 3);
}

#[test]
fn splits_allow_rotations_of_arrays() {
    assert_eq!(rotation_split(2), (vec![16, 14, 2, 16, 14, 2], 1));
    assert_eq!(rotation_split(32), (vec![32, 32], 1));
    assert_eq!(rotation_split(66), rotation_split(2));
    for delta in [0usize, 1, 8, 16, 31, 32, 33, 48, 63, 64, 96, 100] {
        let (sizes, moved) = rotation_split(delta);
        assert_eq!(sizes.iter().sum::<usize>(), 64);
        let word = 0x0123_4567_89ab_cdefu64;
        let mut chunks = split_word(word, &sizes);
        let mut sizes = sizes;
        chunks.rotate_right(moved);
        sizes.rotate_right(moved);
        let mut value = 0u128;
        let mut shift = 0;
        for (chunk, size) in chunks.iter().zip(sizes.iter()) {
            value += (*chunk as u128) << shift;
            shift += size;
        }
        let expected = word.rotate_left(delta as u32 % 64);
        assert_eq!(value as u64, expected);
        assert_eq!(rotate_left(word, delta % 64), expected);
    }
}

#[test]
fn rotations_are_constrained() {
    let column = |i: usize| Expression::WitIn(i as u16);
    for delta in [0usize, 2, 32, 37, 96, 101] {
        let (sizes, _) = rotation_split(delta);
        let n = sizes.len();
        let input8: Vec<Expression> = (0..8).map(column).collect();
        let rot8: Vec<Expression> = (8..16).map(column).collect();
        let split_rep: Vec<(usize, Expression)> =
            sizes.iter().enumerate().map(|(i, size)| (*size, column(16 + i))).collect();
        let mut system = ConstraintSystem::new();
        system.constrain_left_rotation64(&input8, &split_rep, &rot8, delta, "test");
        assert_eq!(system.expressions.len(), 4);
        assert!(system.expressions.iter().all(|e| e.degree() == 1));
        assert!(system.expr_names[0].contains(&format!("delta: {}", delta)));
        // the chunks of 32 bits are not looked up
        assert_eq!(system.range_lookups.is_empty(), n == 2);

        let word = 0x0123_4567_89ab_cdefu64;
        let rotated = word.rotate_left(delta as u32 % 64);
        let mut values = bytes(&[word, rotated]);
        values.extend(split_word(word, &sizes));
        let row: Vec<Goldilocks> = values.into_iter().map(f).collect();
        assert!(system.expressions.iter().all(|e| eval_row(e, &row) == f(0)));
        let mut changed = row.clone();
        changed[8] = changed[8] + f(1);
        assert!(system.expressions.iter().any(|e| eval_row(e, &changed) != f(0)));
    }
}

#[test]
fn range_lookups_of_a_chunk() {
    let mut system = ConstraintSystem::new();
    system.lookup_range(Expression::WitIn(0), 14);
    system.lookup_range(Expression::WitIn(1), 16);
    assert_eq!(system.range_lookups.len(), 3);
    let row = [f(0x4000), f(9)];
    let values: Vec<Goldilocks> = system
        .range_lookups
        .iter()
        .map(|lookup| match lookup {
            CenoLookup::U16(e) => eval_row(e, &row),
            _ => panic!("not a range lookup"),
        })
        .collect();
    assert_eq!(values, [f(0x4000), f(0x1_0000), f(9)]);
}

#[test]
fn range_lookups_of_no_bits() {
    let mut system = ConstraintSystem::new();
    system.lookup_range(Expression::WitIn(0), 0);
    let value = |v: u64| match &system.range_lookups[1] {
        CenoLookup::U16(e) => eval_row(e, &[f(v)]),
        _ => panic!("not a range lookup"),
    };
    assert_eq!(system.range_lookups.len(), 2);
    assert_eq!(value(0), f(0));
    assert_eq!(value(1), f(0x1_0000));
}

#[test]
fn states_as_halves_of_lanes() {
    let mut state = [0u64; 25];
    state[0] = 0x1122_3344_5566_7788;
    let halves = to_instance(&state);
    assert_eq!(halves[0], 0x5566_7788);
    assert_eq!(halves[1], 0x1122_3344);
    assert_eq!(halves[2], 0);
}
