//! Multilinear polynomials, their views and sums of their products.
use ceno::either::Either;
use ceno::expression::monomial::Term;
use ceno::expression::Expression;
use ceno::field::{Goldilocks, GoldilocksExt2};
use ceno::mle::{
    FieldType, IntoMLE, IntoMLEs, MleError, MultilinearExtension, PointAndEval, SmartSlice,
};
use ceno::mle_build::{mle_from_instances, IntoInstanceIter, IntoInstanceIterMut};
use ceno::util::{ceil_log2, is_power_of_two, next_power_of_two, trailing_zeros};
use ceno::virtual_poly::{
    build_eq_x_r, build_eq_x_r_sequential, build_eq_x_r_vec, build_eq_x_r_vec_sequential,
    build_eq_x_r_vec_with_scalar, eq_eval,
};
use ceno::virtual_polynomial::{hypercube_point, ProductSample, VirtualPolynomial};
use rand::{thread_rng, Rng};

fn f(v: u64) -> Goldilocks {
    Goldilocks::from_canonical_u64(v)
}

fn e(v: u64) -> GoldilocksExt2 {
    GoldilocksExt2::from_canonical_u64(v)
}

fn fs(values: &[u64]) -> Vec<Goldilocks> {
    values.iter().map(|v| f(*v)).collect()
}

fn es(values: &[u64]) -> Vec<GoldilocksExt2> {
    values.iter().map(|v| e(*v)).collect()
}

fn random_ext(rng: &mut impl Rng) -> GoldilocksExt2 {
    GoldilocksExt2 {
        c0: Goldilocks::from_canonical_u64(rng.gen_range(0..0xffff_ffff_0000_0001)),
        c1: Goldilocks::from_canonical_u64(rng.gen_range(0..0xffff_ffff_0000_0001)),
    }
}

#[test]
fn test_build_eq() {
    let mut rng = thread_rng();

    for num_vars in 10..24 {
        let r = (0..num_vars).map(|_| random_ext(&mut rng)).collect::<Vec<GoldilocksExt2>>();
        let eq_r_seq = build_eq_x_r_vec_sequential(&r);
        let eq_r_par = build_eq_x_r_vec(&r, 4);
        assert_eq!(eq_r_par, eq_r_seq);
    }
}

#[test]
fn equality_polynomial() {
    let x = es(&[2, 3]);
    let y = es(&[5, 7]);
    // (2 * 2 * 5 - 2 - 5 + 1) * (2 * 3 * 7 - 3 - 7 + 1)
    assert_eq!(eq_eval(&x, &y), e(14 * 33));
    assert_eq!(eq_eval(&es(&[1, 0]), &es(&[1, 0])), e(1));
    assert_eq!(eq_eval(&es(&[1, 0]), &es(&[1, 1])), e(0));
    let table = build_eq_x_r_sequential(&y);
    assert_eq!(table.evaluate(&x).unwrap(), eq_eval(&x, &y));
    let scaled = build_eq_x_r_vec_with_scalar(&y, e(9), 2);
    for (a, b) in scaled.iter().zip(build_eq_x_r(&y, 1).get_ext_field_vec()) {
        assert_eq!(*a, *b * e(9));
    }
    assert_eq!(build_eq_x_r_vec(&[], 1), es(&[1]));
}

#[test]
fn values_of_a_polynomial() {
    // 1 + x + 2y + 5xy
    let m = fs(&[1, 2, 3, 9]).into_mle();
    assert_eq!(m.num_vars(), 2);
    assert_eq!(m.evaluate(&es(&[10, 100])).unwrap(), e(1 + 10 + 200 + 5000));
    assert_eq!(m.evaluate(&es(&[10])), Err(MleError::PointSize(2, 1)));
    assert_eq!(m.evaluate(&es(&[10, 100, 1000])), Err(MleError::PointSize(2, 3)));
    let fixed = m.fix_variables(&es(&[10]));
    assert_eq!(fixed.get_ext_field_vec(), es(&[11, 63]));
    assert_eq!(m.fix_variables_parallel(&es(&[10])).get_ext_field_vec(), es(&[11, 63]));
    let mut owned = m.as_owned();
    owned.fix_variables_in_place(&es(&[10]));
    assert_eq!(owned.get_ext_field_vec(), es(&[11, 63]));
    owned.fix_variables_in_place_parallel(&es(&[100]));
    assert_eq!(owned.get_ext_field_vec(), es(&[5211]));
    assert_eq!(owned.num_vars(), 0);
}

#[test]
fn fixing_in_borrowed_memory() {
    let mut memory = es(&[1, 2, 3, 9]);
    {
        let mut owned = MultilinearExtension::from_field_type(
            2,
            FieldType::Ext(SmartSlice::BorrowedMut(&mut memory)),
        );
        assert!(owned.is_mut());
        owned.fix_variables_in_place(&es(&[10]));
        assert_eq!(owned.get_ext_field_vec(), es(&[11, 63]));
    }
    assert_eq!(memory[..2], es(&[11, 63])[..]);
}

#[test]
fn merging_and_viewing() {
    let mut m = fs(&[1, 2]).into_mle();
    m.merge(fs(&[3, 4]).into_mle());
    assert_eq!(m.get_base_field_vec(), fs(&[1, 2, 3, 4]));
    assert_eq!(m.num_vars(), 2);
    assert_eq!(m.as_view().get_base_field_vec(), fs(&[1, 2, 3, 4]));
    assert_eq!(m.as_view_slice(2, 1).get_base_field_vec(), fs(&[3, 4]));
    let chunks = m.as_view_chunks(4);
    assert_eq!(chunks.len(), 4);
    assert_eq!(chunks[2].get_base_field_vec(), fs(&[3]));
    assert_eq!(chunks[2].num_vars(), 0);
    assert!(!m.as_view().is_mut());
}

#[test]
fn writing_through_views() {
    let mut m = es(&[1, 2, 3, 4]).into_mle();
    {
        let mut view = m.as_view_slice_mut(2, 1);
        view.fix_variables_in_place(&es(&[10]));
    }
    // 3 + 10 * (4 - 3)
    assert_eq!(m.get_ext_field_vec()[2], e(13));
    {
        let mut chunks = m.as_view_chunks_mut(2);
        assert_eq!(chunks.len(), 2);
        chunks[0].fix_variables_in_place(&es(&[5]));
        chunks[1].fix_variables_in_place(&es(&[2]));
        assert_eq!(chunks[0].get_ext_field_vec(), es(&[6]));
        assert_eq!(chunks[1].get_ext_field_vec(), vec![-e(5)]);
    }
    // 1 + 5 * (2 - 1) and 13 + 2 * (4 - 13), each at the start of its chunk
    assert_eq!(m.get_ext_field_vec(), vec![e(6), e(2), -e(5), e(4)]);
    {
        let mut all = m.as_view_mut();
        all.fix_variables_in_place(&es(&[1]));
        assert_eq!(all.get_ext_field_vec()[0], e(2));
    }
    match m.to_either() {
        Either::Right(m) => assert_eq!(m.num_vars(), 2),
        Either::Left(_) => panic!("owned evaluations can be changed"),
    }
    let values = fs(&[1, 2]);
    let mut borrowed = MultilinearExtension::from_evaluations_slice(1, &values);
    assert!(matches!(borrowed.to_either(), Either::Left(_)));
}

#[test]
fn parts_of_field_types() {
    let m = fs(&[1, 2]).into_mle();
    assert_eq!(m.evaluations().variant_name(), "Base");
    assert_eq!(m.evaluations().len(), 2);
    assert!(!m.evaluations().is_empty());
    let values = fs(&[1, 2]);
    let borrowed = MultilinearExtension::from_evaluations_slice(1, &values);
    assert_eq!(borrowed.as_evaluations_view().get(1), e(2));
    let again = MultilinearExtension::from_field_type_borrowed(1, borrowed.evaluations());
    assert_eq!(again.get_base_field_vec(), fs(&[1, 2]));
    let x = es(&[3]).into_mle();
    assert_eq!(x.evaluations().variant_name(), "Ext");
    assert_eq!(x.evaluations_to_owned().get(0), e(3));
    let tables = vec![fs(&[1, 2]), fs(&[3])].into_mles();
    assert_eq!(tables[1].num_vars(), 0);
    let claim = PointAndEval::new(es(&[1]), e(2));
    assert_eq!(claim.eval, e(2));
    let smart = MultilinearExtension::from_evaluation_vec_smart(1, es(&[5, 6]));
    assert_eq!(smart.get_ext_field_vec(), es(&[5, 6]));
    let smart = MultilinearExtension::from_evaluation_vec_smart(1, fs(&[5, 6]));
    assert_eq!(smart.get_base_field_vec(), fs(&[5, 6]));
}

#[test]
fn writing_to_chunks_of_base_elements() {
    let mut m = fs(&[1, 2, 3, 4, 5, 6, 7, 8]).into_mle();
    for (k, chunk) in m.as_view_chunks_mut(4).into_iter().enumerate() {
        match chunk.evaluations {
            FieldType::Base(SmartSlice::BorrowedMut(part)) => {
                assert_eq!(part.len(), 2);
                part[1] = Goldilocks::from_canonical_u64(10 * k as u64);
            }
            _ => panic!("not a mutable view"),
        }
    }
    assert_eq!(m.get_base_field_vec(), fs(&[1, 0, 3, 10, 5, 20, 7, 30]));
}

#[test]
fn tables_of_extension_elements_are_borrowed() {
    let values = vec![e(4), e(6)];
    let m = MultilinearExtension::from_evaluations_ext_slice(1, &values);
    assert_eq!(m.get_ext_field_vec(), &values[..]);
    assert_eq!(m.evaluate(&[e(3)]).unwrap(), e(10));
}

#[test]
fn instances_are_padded() {
    let m = mle_from_instances(&vec![fs(&[1, 2, 3]), fs(&[4, 5, 6])]);
    assert_eq!(m.get_base_field_vec(), fs(&[1, 2, 3, 0, 4, 5, 6, 0]));
    assert_eq!(m.num_vars(), 3);
}

#[test]
fn walking_through_instances() {
    let values = [1, 2, 3, 4, 5, 6];
    let mut walk = values.as_slice().into_instance_iter(3);
    assert_eq!(walk.next_instance(), Some(&[1, 2][..]));
    assert_eq!(walk.next_instance(), Some(&[3, 4][..]));
    assert_eq!(walk.next_instance(), Some(&[5, 6][..]));
    assert_eq!(walk.next_instance(), None);

    let mut values = vec![1, 2, 3, 4];
    let walk = values.into_instance_iter_mut(2);
    let (first, walk) = walk.next_instance().unwrap();
    first[1] = 20;
    let (second, walk) = walk.next_instance().unwrap();
    second[0] = 30;
    assert!(walk.next_instance().is_none());
    assert_eq!(values, vec![1, 20, 30, 4]);
}

#[test]
fn polynomials_from_samples() {
    assert_eq!(MultilinearExtension::random(1, &fs(&[7, 8])).get_base_field_vec(), fs(&[7, 8]));
    // the samples of a position follow each other
    let (list, sum) = MultilinearExtension::random_mle_list(1, 3, &fs(&[1, 2, 3, 4, 5, 6]));
    assert_eq!(list[0].get_base_field_vec(), fs(&[1, 4]));
    assert_eq!(list[2].get_base_field_vec(), fs(&[3, 6]));
    assert_eq!(sum, e(6 + 120));
    let list = MultilinearExtension::random_zero_mle_list(1, 3, &fs(&[1, 2, 3, 4]));
    assert_eq!(list[0].get_base_field_vec(), fs(&[0, 0]));
    assert_eq!(list[1].get_base_field_vec(), fs(&[1, 3]));
    assert_eq!(list[2].get_base_field_vec(), fs(&[2, 4]));
}

#[test]
fn products_of_polynomials() {
    let poly = VirtualPolynomial::new_from_product(
        vec![fs(&[1, 2]).into_mle(), fs(&[3, 5]).into_mle()],
        e(10),
    );
    assert_eq!(poly.aux_info.max_degree, 2);
    assert_eq!(poly.aux_info.max_num_variables, 1);
    // 10 * (1 + x) * (3 + 2x) at 4
    assert_eq!(poly.evaluate(&es(&[4])), e(10 * 5 * 11));
    assert_eq!(poly.as_view().evaluate(&es(&[4])), e(550));
    assert_eq!(poly.hypercube_evals(), es(&[30, 100]));
    let poly = VirtualPolynomial::new_from_mle(fs(&[1, 2]).into_mle(), e(3));
    assert_eq!(poly.evaluate(&es(&[4])), e(15));
    assert_eq!(VirtualPolynomial::new(2).evaluate(&es(&[4, 5])), e(0));
}

#[test]
fn terms_are_added_to_a_polynomial() {
    let mut poly = VirtualPolynomial::new(2);
    let a = poly.register_mle(fs(&[1, 2]).into_mle());
    let b = poly.register_mle(fs(&[1, 2, 3, 4]).into_mle());
    assert_eq!((a, b), (0, 1));
    poly.add_monomial_terms(&[
        Term { scalar: Either::Left(f(5)), product: vec![Expression::WitIn(0)] },
        Term {
            scalar: Either::Right(e(7)),
            product: vec![Expression::WitIn(1), Expression::WitIn(1)],
        },
    ]);
    assert_eq!(poly.aux_info.max_degree, 2);
    // 5 * (1 + x) + 7 * (1 + x + 2y)^2 at (2, 3)
    assert_eq!(poly.evaluate(&es(&[2, 3])), e(15 + 7 * 81));
}

#[test]
fn a_random_polynomial_sums_to_its_sum() {
    let mut rng = thread_rng();
    let draws: Vec<ProductSample> = (1..4)
        .map(|num_multiplicands| ProductSample {
            num_vars: 3,
            num_multiplicands,
            samples: (0..8 * num_multiplicands).map(|_| f(rng.gen_range(0..1000))).collect(),
            scalar: random_ext(&mut rng),
        })
        .collect();
    let (poly, sum) = VirtualPolynomial::random(&[3], &draws);
    assert_eq!(poly.aux_info.max_degree, 3);
    assert_eq!(poly.flattened_ml_extensions.len(), 6);
    let total = poly.hypercube_evals().iter().fold(e(0), |a, b| a + *b);
    assert_eq!(total, sum);
}

#[test]
fn points_of_the_hypercube() {
    assert_eq!(hypercube_point(6, 4), es(&[0, 1, 1, 0]));
}

#[test]
fn powers_of_two() {
    assert_eq!(ceil_log2(1), 0);
    assert_eq!(ceil_log2(5), 3);
    assert_eq!(next_power_of_two(5), 8);
    assert!(is_power_of_two(8));
    assert!(!is_power_of_two(0));
    assert_eq!(trailing_zeros(12), 2);
}
