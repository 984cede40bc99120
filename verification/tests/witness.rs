//! Matrices of witnesses and the field.
use ceno::field::{Goldilocks, GoldilocksExt2};
use ceno::witness::{next_pow2_instance_padding, InstancePaddingStrategy, RowMajorMatrix};

fn f(v: u64) -> Goldilocks {
    Goldilocks::from_canonical_u64(v)
}

fn fs(values: &[u64]) -> Vec<Goldilocks> {
    values.iter().map(|v| f(*v)).collect()
}

#[test]
fn instances_are_padded_to_a_power_of_two() {
    assert_eq!(next_pow2_instance_padding(0), 2);
    assert_eq!(next_pow2_instance_padding(1), 2);
    assert_eq!(next_pow2_instance_padding(5), 8);
}

#[test]
fn a_matrix_of_values() {
    let m = RowMajorMatrix::new_by_values(
        fs(&[1, 2, 3, 4, 5, 6]),
        2,
        InstancePaddingStrategy::Default,
    );
    assert_eq!(m.n_col(), 2);
    assert_eq!(m.num_instances(), 3);
    assert_eq!(m.num_padding_instances(), 1);
    assert_eq!(m.num_vars(), 2);
    assert_eq!(m.row(1), fs(&[3, 4]));
    assert_eq!(m.iter_rows(), vec![fs(&[1, 2]), fs(&[3, 4]), fs(&[5, 6])]);
    assert_eq!(m.to_cols_base(), vec![fs(&[1, 3, 5, 0]), fs(&[2, 4, 6, 0])]);
    let ext = m.to_cols_ext();
    assert_eq!(ext[1][2], GoldilocksExt2::from_base(f(6)));
    assert_eq!(m.to_mles()[1].get_base_field_vec(), fs(&[2, 4, 6, 0]));
    assert_eq!(m.values().len(), 8);
}

#[test]
fn a_matrix_without_columns() {
    let m = RowMajorMatrix::new_by_values(fs(&[1, 2, 3]), 0, InstancePaddingStrategy::Default);
    assert_eq!(m.n_col(), 0);
    assert_eq!(m.num_instances(), 0);
    assert_eq!(m.values().len(), 0);
}

#[test]
fn the_last_row_is_repeated() {
    let mut m = RowMajorMatrix::new(3, 2, InstancePaddingStrategy::RepeatLast);
    for row in 0..3 {
        m.set(row, 0, f(10 + row as u64));
        m.set(row, 1, f(20 + row as u64));
    }
    m.padding_by_strategy();
    assert_eq!(m.row(3), fs(&[12, 22]));
    assert_eq!(m.get(2, 1), f(22));
}

#[test]
fn a_matrix_for_a_commitment() {
    let m = RowMajorMatrix::new_by_values(fs(&[1, 2, 3]), 1, InstancePaddingStrategy::Default);
    let dense = m.into_default_padded_p3_rmm(None);
    assert_eq!(dense.values, vec![1, 2, 3, 0]);
    let m = RowMajorMatrix::new_by_values(fs(&[1, 2, 3]), 1, InstancePaddingStrategy::Default);
    let dense = m.into_default_padded_p3_rmm(Some(2));
    assert_eq!(dense.values, vec![1, 2, 3, 0, 0, 0, 0, 0]);
}

#[test]
fn matrices_can_be_empty_or_sampled() {
    let m = RowMajorMatrix::empty();
    assert_eq!(m.num_instances(), 0);
    let m = RowMajorMatrix::rand(fs(&[1, 2, 3, 4]), 2, 2);
    assert_eq!(m.row(1), fs(&[3, 4]));
    let mut m =
        RowMajorMatrix::new_by_values(fs(&[1, 2]), 1, InstancePaddingStrategy::Default);
    m.pad_to_height(4, f(9));
    assert_eq!(m.into_inner().values, vec![1, 2, 9, 9]);
}

#[test]
fn arithmetic_of_the_fields() {
    let p = 0xffff_ffff_0000_0001u64;
    assert_eq!(f(p - 1) + f(2), f(1));
    assert_eq!(f(1) - f(2), f(p - 1));
    assert_eq!(f(p - 1) * f(p - 1), f(1));
    assert_eq!(-f(5), f(p - 5));
    assert_eq!(f(0).try_inverse(), None);
    assert_eq!(f(7).try_inverse().unwrap() * f(7), f(1));
    let x = GoldilocksExt2 { c0: f(3), c1: f(5) };
    // the square of the root is 7
    assert_eq!(x * x, GoldilocksExt2 { c0: f(9 + 7 * 25), c1: f(30) });
    assert_eq!(x.try_inverse().unwrap() * x, GoldilocksExt2::one());
    assert_eq!(GoldilocksExt2::zero().try_inverse(), None);
    assert_eq!(x.exp_u64(3), x * x * x);
    assert_eq!(x.to_canonical_u64_vec(), vec![3, 5]);
    assert_eq!(Goldilocks { value: p }.as_canonical_u64(), 0);
    assert_eq!(Goldilocks { value: p }, f(0));
}
