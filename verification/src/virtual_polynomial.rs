//! Sums of products of multilinear polynomials.
use vstd::arithmetic::power2::*;
use vstd::prelude::*;
use vstd::slice::slice_subrange;

use crate::either::Either;
use crate::expression::monomial::Term;
use crate::expression::{scalar_value, Expression, Scalar};
use crate::field::{e_add, e_base, e_mul, e_zero, group_field, Ext, Goldilocks, GoldilocksExt2};
use crate::mle::{ext_seq, MultilinearExtension};
use crate::mle_build::sample_at;
use crate::multilinear::{
    all_valid, bit_point, e_prod, e_sum, lemma_mle_eval_on_hypercube, mle_eval,
};
use crate::ring::{
    lemma_e_add_assoc, lemma_e_add_comm, lemma_e_add_zero, lemma_e_mul_add, lemma_e_mul_comm,
    lemma_e_mul_zero,
};
use crate::util::pow2_usize;

verus! {

broadcast use group_field;

/// A sum of scaled products; a factor is the index of a polynomial.
#[derive(Debug)]
pub struct MonomialTerms {
    pub terms: Vec<Term<Scalar, usize>>,
}

/// What is known of a virtual polynomial as a whole.
#[derive(Clone, Copy, Debug, PartialEq, Eq, Structural)]
pub struct VPAuxInfo {
    /// The largest number of factors in a product
    pub max_degree: usize,
    /// The number of variables of the polynomial
    pub max_num_variables: usize,
}

/// A sum of products of multilinear polynomials.
///
/// With the polynomials f0 to f4, c0 * f0 * f1 * f2 + c1 * f3 * f4 is stored as the products
/// (c0, [0, 1, 2]) and (c1, [3, 4]).
pub struct VirtualPolynomial<'a> {
    pub aux_info: VPAuxInfo,
    pub products: Vec<MonomialTerms>,
    /// The polynomials that the products refer to
    pub flattened_ml_extensions: Vec<MultilinearExtension<'a>>,
}

/// The value of each polynomial at the leading part of a point.
pub open spec fn mle_values(mles: Seq<MultilinearExtension>, point: Seq<Ext>) -> Seq<Ext> {
    Seq::new(mles.len(), |i: int| mle_eval(mles[i]@, point.take(mles[i].num_vars as int)))
}

/// The factors of a product.
pub open spec fn factors(product: Seq<usize>, values: Seq<Ext>) -> Seq<Ext> {
    Seq::new(product.len(), |j: int| values[product[j] as int])
}

/// The value of a scaled product.
pub open spec fn term_value(term: Term<Scalar, usize>, values: Seq<Ext>) -> Ext {
    e_mul(e_prod(factors(term.product@, values)), scalar_value(term.scalar))
}

/// The value of a sum of scaled products.
pub open spec fn terms_value(terms: Seq<Term<Scalar, usize>>, values: Seq<Ext>) -> Ext {
    e_sum(Seq::new(terms.len(), |t: int| term_value(terms[t], values)))
}

/// The indices of all factors are below a bound.
pub open spec fn indices_below(terms: Seq<Term<Scalar, usize>>, bound: nat) -> bool {
    forall|t: int, j: int|
        0 <= t < terms.len() && 0 <= j < terms[t].product@.len() ==> (
        #[trigger] terms[t].product@[j]) < bound
}

impl<'a> VirtualPolynomial<'a> {
    /// The polynomials have tables of the right length and no more variables than the whole, and
    /// the products refer to them.
    pub open spec fn wf(&self) -> bool {
        &&& forall|i: int|
            0 <= i < self.flattened_ml_extensions@.len() ==> {
                &&& (#[trigger] self.flattened_ml_extensions@[i]).wf()
                &&& self.flattened_ml_extensions@[i].num_vars <= self.aux_info.max_num_variables
            }
        &&& forall|p: int|
            0 <= p < self.products@.len() ==> indices_below(
                (#[trigger] self.products@[p]).terms@,
                self.flattened_ml_extensions@.len(),
            )
    }

    /// The value at a point.
    pub open spec fn value(&self, point: Seq<Ext>) -> Ext {
        let values = mle_values(self.flattened_ml_extensions@, point);
        e_sum(Seq::new(self.products@.len(), |p: int| terms_value(self.products@[p].terms@, values)))
    }

    /// The zero polynomial in `max_num_variables` variables.
    pub fn new(max_num_variables: usize) -> (r: Self)
        ensures
            r.wf(),
            r.aux_info.max_degree == 0,
            r.aux_info.max_num_variables == max_num_variables,
            r.products@.len() == 0,
            r.flattened_ml_extensions@.len() == 0,
    {
        VirtualPolynomial {
            aux_info: VPAuxInfo { max_degree: 0, max_num_variables },
            products: Vec::new(),
            flattened_ml_extensions: Vec::new(),
        }
    }

    /// A multilinear polynomial times a scalar.
    pub fn new_from_mle(mle: MultilinearExtension<'a>, scalar: GoldilocksExt2) -> (r: Self)
        requires
            mle.wf(),
        ensures
            r.wf(),
            r.aux_info.max_degree == 1,
            r.aux_info.max_num_variables == mle.num_vars,
            r.flattened_ml_extensions@ == seq![mle],
            r.products@.len() == 1,
            is_scaled_product(r.products@[0].terms@, scalar, 0, 1),
    {
        let mut mles: Vec<MultilinearExtension<'a>> = Vec::new();
        mles.push(mle);
        let ghost all = mles@;
        assert(all =~= seq![mle]);
        let r = Self::new_from_product(mles, scalar);
        r
    }

    /// A product of multilinear polynomials in the same variables times a scalar.
    pub fn new_from_product(mles: Vec<MultilinearExtension<'a>>, scalar: GoldilocksExt2) -> (r:
        Self)
        requires
            0 < mles@.len() <= 0x1_0000,
            forall|i: int|
                0 <= i < mles@.len() ==> (#[trigger] mles@[i]).wf() && mles@[i].num_vars
                    == mles@[0].num_vars,
        ensures
            r.wf(),
            r.aux_info.max_degree == mles@.len(),
            r.aux_info.max_num_variables == mles@[0].num_vars,
            r.flattened_ml_extensions@ == mles@,
            r.products@.len() == 1,
            is_scaled_product(r.products@[0].terms@, scalar, 0, mles@.len() as int),
    {
        let num_vars: usize = mles[0].num_vars;
        let ghost all = mles@;
        let mut poly = VirtualPolynomial::new(num_vars);
        poly.push_product(mles, scalar);
        assert(poly.flattened_ml_extensions@ =~= all);
        poly
    }

    /// Adds polynomials, and their product times a scalar.
    fn push_product(&mut self, mles: Vec<MultilinearExtension<'a>>, scalar: GoldilocksExt2)
        requires
            old(self).wf(),
            mles@.len() > 0,
            old(self).flattened_ml_extensions@.len() + mles@.len() <= 0x1_0000,
            forall|i: int|
                0 <= i < mles@.len() ==> {
                    &&& (#[trigger] mles@[i]).wf()
                    &&& mles@[i].num_vars == mles@[0].num_vars
                    &&& mles@[i].num_vars <= old(self).aux_info.max_num_variables
                },
        ensures
            final(self).wf(),
            final(self).aux_info.max_num_variables == old(self).aux_info.max_num_variables,
            final(self).aux_info.max_degree == if old(self).aux_info.max_degree < mles@.len() {
                mles@.len()
            } else {
                old(self).aux_info.max_degree as nat
            },
            final(self).flattened_ml_extensions@ == old(self).flattened_ml_extensions@ + mles@,
            final(self).products@.len() == old(self).products@.len() + 1,
            final(self).products@.drop_last() == old(self).products@,
            is_scaled_product(
                final(self).products@.last().terms@,
                scalar,
                old(self).flattened_ml_extensions@.len() as int,
                mles@.len() as int,
            ),
    {
        let mut mles = mles;
        let ghost all = mles@;
        let ghost before = self.flattened_ml_extensions@;
        let ghost products = self.products@;
        let n: usize = mles.len();
        let start: usize = self.flattened_ml_extensions.len();
        self.flattened_ml_extensions.append(&mut mles);
        assert(self.flattened_ml_extensions@ =~= before + all);
        let mut product: Vec<Expression> = Vec::with_capacity(n);
        let mut k: usize = 0;
        while k < n
            invariant
                k <= n,
                start + n <= 0x1_0000,
                product@.len() == k,
                forall|j: int|
                    0 <= j < k ==> #[trigger] product@[j] == Expression::WitIn((start + j) as u16),
            decreases n - k,
        {
            product.push(Expression::WitIn((start + k) as u16));
            k = k + 1;
        }
        let term = Term { scalar: Either::Right(scalar), product };
        let mut terms: Vec<Term<Scalar, Expression>> = Vec::new();
        terms.push(term);
        assert(self.wf()) by {
            assert forall|i: int| 0 <= i < self.flattened_ml_extensions@.len() implies ({
                &&& (#[trigger] self.flattened_ml_extensions@[i]).wf()
                &&& self.flattened_ml_extensions@[i].num_vars <= self.aux_info.max_num_variables
            }) by {
                if i >= before.len() {
                    assert(self.flattened_ml_extensions@[i] == all[i - before.len()]);
                } else {
                    assert(self.flattened_ml_extensions@[i] == before[i]);
                }
            }
            assert forall|p: int| 0 <= p < self.products@.len() implies indices_below(
                (#[trigger] self.products@[p]).terms@,
                self.flattened_ml_extensions@.len(),
            ) by {
                assert(indices_below(self.products@[p].terms@, before.len()));
            }
        }
        assert(same_variables(*self, terms@)) by {
            assert forall|t: int, j: int|
                0 <= t < terms@.len() && 0 <= j < terms@[t].product@.len() implies (
            wit_id(#[trigger] terms@[t].product@[j]) matches Some(id) && id
                < self.flattened_ml_extensions@.len() && self.flattened_ml_extensions@[id].num_vars
                == first_num_vars(*self, terms@[t].product@)) by {
                assert(product@[j] == Expression::WitIn((start + j) as u16));
                assert(product@[0] == Expression::WitIn((start + 0) as u16));
                assert(self.flattened_ml_extensions@[start + j] == all[j]);
                assert(self.flattened_ml_extensions@[start as int] == all[0]);
            }
        }
        self.add_monomial_terms(&terms);
        proof {
            let added = self.products@.last().terms@;
            assert(self.products@.drop_last() =~= products);
            reveal_with_fuel(largest_degree, 2);
            assert(added[0].product@.len() == n);
            assert forall|j: int| 0 <= j < n implies #[trigger] added[0].product@[j] == start + j by {
                assert(product@[j] == Expression::WitIn((start + j) as u16));
                assert(terms@[0].product@[j] == product@[j]);
            }
        }
    }

    /// Stores a polynomial and returns its index.
    pub fn register_mle(&mut self, mle: MultilinearExtension<'a>) -> (r: usize)
        ensures
            r == old(self).flattened_ml_extensions@.len(),
            old(self).wf() && mle.wf() && mle.num_vars <= old(self).aux_info.max_num_variables
                ==> final(self).wf(),
            final(self).flattened_ml_extensions@ == old(self).flattened_ml_extensions@.push(mle),
            final(self).products == old(self).products,
            final(self).aux_info == old(self).aux_info,
    {
        let r: usize = self.flattened_ml_extensions.len();
        let ghost before = self.flattened_ml_extensions@;
        self.flattened_ml_extensions.push(mle);
        proof {
            if old(self).wf() {
                assert forall|p: int| 0 <= p < self.products@.len() implies indices_below(
                    (#[trigger] self.products@[p]).terms@,
                    self.flattened_ml_extensions@.len(),
                ) by {
                    assert(indices_below(old(self).products@[p].terms@, before.len()));
                }
            }
        }
        r
    }

    /// Adds a sum of scaled products of columns; the columns of a product must have the same
    /// number of variables.
    pub fn add_monomial_terms(&mut self, monomial_terms: &[Term<Scalar, Expression>])
        requires
            same_variables(*old(self), monomial_terms@),
            forall|t: int|
                0 <= t < monomial_terms@.len() ==> (#[trigger] monomial_terms@[t]).product@.len()
                    > 0,
        ensures
            old(self).wf() ==> final(self).wf(),
            final(self).flattened_ml_extensions == old(self).flattened_ml_extensions,
            final(self).aux_info.max_num_variables == old(self).aux_info.max_num_variables,
            final(self).aux_info.max_degree == largest_degree(
                old(self).aux_info.max_degree as nat,
                monomial_terms@,
            ),
            final(self).products@.len() == old(self).products@.len() + 1,
            final(self).products@.drop_last() == old(self).products@,
            are_indexed(final(self).products@.last().terms@, monomial_terms@),
    {
        let n: usize = monomial_terms.len();
        let ghost initial = self.aux_info.max_degree as nat;
        let ghost before = *self;
        let mut max_degree: usize = self.aux_info.max_degree;
        let mut terms: Vec<Term<Scalar, usize>> = Vec::with_capacity(n);
        let mut t: usize = 0;
        assert(monomial_terms@.take(0) =~= Seq::empty());
        while t < n
            invariant
                t <= n,
                n == monomial_terms@.len(),
                *self == before,
                same_variables(before, monomial_terms@),
                terms@.len() == t,
                max_degree == largest_degree(initial, monomial_terms@.take(t as int)),
                are_indexed(terms@, monomial_terms@.take(t as int)),
                indices_below(terms@, before.flattened_ml_extensions@.len()),
            decreases n - t,
        {
            let term = &monomial_terms[t];
            let len: usize = term.product.len();
            let mut product: Vec<usize> = Vec::with_capacity(len);
            let mut j: usize = 0;
            while j < len
                invariant
                    j <= len,
                    t < n,
                    n == monomial_terms@.len(),
                    *term == monomial_terms@[t as int],
                    len == term.product@.len(),
                    same_variables(before, monomial_terms@),
                    product@.len() == j,
                    forall|i: int|
                        0 <= i < j ==> {
                            &&& wit_id(term.product@[i]) == Some(#[trigger] product@[i] as int)
                            &&& product@[i] < before.flattened_ml_extensions@.len()
                        },
                decreases len - j,
            {
                let index: usize = match &term.product[j] {
                    Expression::WitIn(id) => *id as usize,
                    _ => {
                        assert(wit_id(monomial_terms@[t as int].product@[j as int]) is Some);
                        vstd::pervasive::unreached()
                    },
                };
                assert(wit_id(monomial_terms@[t as int].product@[j as int]) == Some(index as int));
                product.push(index);
                j = j + 1;
            }
            if max_degree < len {
                max_degree = len;
            }
            let ghost earlier = terms@;
            terms.push(Term { scalar: term.scalar, product });
            assert(monomial_terms@.take(t + 1).drop_last() =~= monomial_terms@.take(t as int));
            assert(indices_below(terms@, before.flattened_ml_extensions@.len())) by {
                assert forall|a: int, b: int|
                    0 <= a < terms@.len() && 0 <= b < terms@[a].product@.len() implies (
                #[trigger] terms@[a].product@[b]) < before.flattened_ml_extensions@.len() by {
                    if a < t {
                        assert(terms@[a] == earlier[a]);
                        assert(earlier[a].product@[b] < before.flattened_ml_extensions@.len());
                    }
                }
            }
            assert(are_indexed(terms@, monomial_terms@.take(t + 1))) by {
                assert forall|a: int| 0 <= a < terms@.len() implies is_indexed(
                    #[trigger] terms@[a],
                    monomial_terms@.take(t + 1)[a],
                ) by {
                    if a < t {
                        assert(is_indexed(earlier[a], monomial_terms@.take(t as int)[a]));
                    }
                }
            }
            t = t + 1;
        }
        assert(monomial_terms@.take(n as int) =~= monomial_terms@);
        self.aux_info.max_degree = max_degree;
        self.products.push(MonomialTerms { terms });
        assert(self.products@.drop_last() =~= before.products@);
    }

    /// The value at a point.
    pub fn evaluate(&self, point: &[GoldilocksExt2]) -> (r: GoldilocksExt2)
        requires
            self.wf(),
            point@.len() == self.aux_info.max_num_variables,
        ensures
            r@ == self.value(ext_seq(point@)),
    {
        let n: usize = self.flattened_ml_extensions.len();
        let ghost values = mle_values(self.flattened_ml_extensions@, ext_seq(point@));
        let mut evals: Vec<GoldilocksExt2> = Vec::with_capacity(n);
        let mut i: usize = 0;
        while i < n
            invariant
                i <= n,
                n == self.flattened_ml_extensions@.len(),
                self.wf(),
                point@.len() == self.aux_info.max_num_variables,
                values == mle_values(self.flattened_ml_extensions@, ext_seq(point@)),
                evals@.len() == i,
                forall|k: int| 0 <= k < i ==> (#[trigger] evals@[k])@ == values[k],
            decreases n - i,
        {
            let mle = &self.flattened_ml_extensions[i];
            assert(self.flattened_ml_extensions@[i as int].wf());
            let part = slice_subrange(point, 0, mle.num_vars);
            assert(ext_seq(part@) =~= ext_seq(point@).take(mle.num_vars as int));
            evals.push(mle.evaluate(part).unwrap());
            i = i + 1;
        }
        assert(ext_seq(evals@) =~= values);
        let m: usize = self.products.len();
        let ghost sums = Seq::new(m as nat, |p: int| terms_value(self.products@[p].terms@, values));
        let mut sum = GoldilocksExt2::zero();
        let mut p: usize = 0;
        assert(sums.take(0) =~= Seq::empty());
        while p < m
            invariant
                p <= m,
                m == self.products@.len(),
                n == self.flattened_ml_extensions@.len(),
                evals@.len() == n,
                self.wf(),
                ext_seq(evals@) == values,
                sums == Seq::new(
                    m as nat,
                    |p: int| terms_value(self.products@[p].terms@, values),
                ),
                sum@ == e_sum(sums.take(p as int)),
            decreases m - p,
        {
            assert(indices_below(self.products@[p as int].terms@, n as nat));
            let value = eval_terms(&self.products[p].terms, &evals);
            sum = sum + value;
            assert(sums.take(p + 1).drop_last() =~= sums.take(p as int));
            p = p + 1;
        }
        assert(sums.take(m as int) =~= sums);
        sum
    }

    /// A read-only view: the same products of borrowed polynomials.
    pub fn as_view(&self) -> (r: VirtualPolynomial<'_>)
        requires
            self.wf(),
        ensures
            r.wf(),
            r.aux_info == self.aux_info,
            r.flattened_ml_extensions@.len() == self.flattened_ml_extensions@.len(),
            forall|i: int|
                0 <= i < r.flattened_ml_extensions@.len() ==> {
                    &&& (#[trigger] r.flattened_ml_extensions@[i])@
                        == self.flattened_ml_extensions@[i]@
                    &&& r.flattened_ml_extensions@[i].num_vars
                        == self.flattened_ml_extensions@[i].num_vars
                    &&& r.flattened_ml_extensions@[i].is_ext()
                        == self.flattened_ml_extensions@[i].is_ext()
                    &&& !r.flattened_ml_extensions@[i].spec_is_mut()
                },
            r.products@.len() == self.products@.len(),
            forall|p: int|
                0 <= p < r.products@.len() ==> same_terms(
                    (#[trigger] r.products@[p]).terms@,
                    self.products@[p].terms@,
                ),
            forall|point: Seq<Ext>| #[trigger] r.value(point) == self.value(point),
    {
        let n: usize = self.flattened_ml_extensions.len();
        let mut mles: Vec<MultilinearExtension<'_>> = Vec::with_capacity(n);
        let mut i: usize = 0;
        while i < n
            invariant
                i <= n,
                n == self.flattened_ml_extensions@.len(),
                self.wf(),
                mles@.len() == i,
                forall|k: int|
                    0 <= k < i ==> {
                        &&& (#[trigger] mles@[k])@ == self.flattened_ml_extensions@[k]@
                        &&& mles@[k].num_vars == self.flattened_ml_extensions@[k].num_vars
                        &&& mles@[k].is_ext() == self.flattened_ml_extensions@[k].is_ext()
                        &&& !mles@[k].spec_is_mut()
                        &&& mles@[k].wf()
                    },
            decreases n - i,
        {
            proof {
                assert(self.flattened_ml_extensions@[i as int].wf());
                lemma_pow2_pos(self.flattened_ml_extensions@[i as int].num_vars as nat);
            }
            mles.push(self.flattened_ml_extensions[i].as_view());
            i = i + 1;
        }
        let m: usize = self.products.len();
        let mut products: Vec<MonomialTerms> = Vec::with_capacity(m);
        let mut p: usize = 0;
        while p < m
            invariant
                p <= m,
                m == self.products@.len(),
                products@.len() == p,
                forall|k: int|
                    0 <= k < p ==> same_terms(
                        (#[trigger] products@[k]).terms@,
                        self.products@[k].terms@,
                    ),
            decreases m - p,
        {
            let terms = copy_terms(&self.products[p].terms);
            products.push(MonomialTerms { terms });
            p = p + 1;
        }
        let r = VirtualPolynomial {
            aux_info: self.aux_info,
            products,
            flattened_ml_extensions: mles,
        };
        proof {
            assert forall|p: int| 0 <= p < r.products@.len() implies indices_below(
                (#[trigger] r.products@[p]).terms@,
                n as nat,
            ) by {
                lemma_same_indices(r.products@[p].terms@, self.products@[p].terms@, n as nat);
            }
            assert forall|point: Seq<Ext>| #[trigger] r.value(point) == self.value(point) by {
                let values = mle_values(r.flattened_ml_extensions@, point);
                assert(values =~= mle_values(self.flattened_ml_extensions@, point));
                assert forall|p: int| 0 <= p < r.products@.len() implies terms_value(
                    (#[trigger] r.products@[p]).terms@,
                    values,
                ) == terms_value(self.products@[p].terms@, values) by {
                    lemma_same_terms(r.products@[p].terms@, self.products@[p].terms@, values);
                }
                assert(Seq::new(
                    r.products@.len(),
                    |p: int| terms_value(r.products@[p].terms@, values),
                ) =~= Seq::new(
                    self.products@.len(),
                    |p: int| terms_value(self.products@[p].terms@, values),
                ));
            }
        }
        r
    }

    /// The values at all points of the hypercube, in order.
    pub fn hypercube_evals(&self) -> (r: Vec<GoldilocksExt2>)
        requires
            self.wf(),
            pow2(self.aux_info.max_num_variables as nat) <= usize::MAX,
        ensures
            r@.len() == pow2(self.aux_info.max_num_variables as nat),
            forall|i: int|
                0 <= i < r@.len() ==> (#[trigger] r@[i])@ == self.value(
                    bit_point(i, self.aux_info.max_num_variables as nat),
                ),
    {
        let num_vars: usize = self.aux_info.max_num_variables;
        let n: usize = pow2_usize(num_vars);
        let mut r: Vec<GoldilocksExt2> = Vec::with_capacity(n);
        let mut i: usize = 0;
        while i < n
            invariant
                i <= n,
                self.wf(),
                num_vars == self.aux_info.max_num_variables,
                r@.len() == i,
                forall|k: int|
                    0 <= k < i ==> (#[trigger] r@[k])@ == self.value(bit_point(k, num_vars as nat)),
            decreases n - i,
        {
            let point = hypercube_point(i, num_vars);
            r.push(self.evaluate(&point));
            i = i + 1;
        }
        r
    }
}

/// The index of a column.
pub open spec fn wit_id(e: Expression) -> Option<int> {
    match e {
        Expression::WitIn(id) => Some(id as int),
        _ => None,
    }
}

/// The number of variables of the first column of a product.
pub open spec fn first_num_vars(poly: VirtualPolynomial, product: Seq<Expression>) -> int {
    match wit_id(product[0]) {
        Some(id) => poly.flattened_ml_extensions@[id].num_vars as int,
        None => 0,
    }
}

/// The factors of each product are columns with the same number of variables.
pub open spec fn same_variables(
    poly: VirtualPolynomial,
    terms: Seq<Term<Scalar, Expression>>,
) -> bool {
    forall|t: int, j: int|
        0 <= t < terms.len() && 0 <= j < terms[t].product@.len() ==> (wit_id(
            #[trigger] terms[t].product@[j],
        ) matches Some(id) && id < poly.flattened_ml_extensions@.len()
            && poly.flattened_ml_extensions@[id].num_vars == first_num_vars(
            poly,
            terms[t].product@,
        ))
}

/// The largest number of factors in a product, or the given number.
pub open spec fn largest_degree(initial: nat, terms: Seq<Term<Scalar, Expression>>) -> nat
    decreases terms.len(),
{
    if terms.len() == 0 {
        initial
    } else {
        let rest = largest_degree(initial, terms.drop_last());
        let len = terms.last().product@.len();
        if rest < len {
            len
        } else {
            rest
        }
    }
}

/// The same scaled product with the columns given by their indices.
pub open spec fn is_indexed(r: Term<Scalar, usize>, term: Term<Scalar, Expression>) -> bool {
    &&& r.scalar == term.scalar
    &&& r.product@.len() == term.product@.len()
    &&& forall|j: int|
        0 <= j < r.product@.len() ==> wit_id(term.product@[j]) == Some(
            #[trigger] r.product@[j] as int,
        )
}

/// The same scaled products with the columns given by their indices.
pub open spec fn are_indexed(
    r: Seq<Term<Scalar, usize>>,
    terms: Seq<Term<Scalar, Expression>>,
) -> bool {
    &&& r.len() == terms.len()
    &&& forall|t: int| 0 <= t < r.len() ==> is_indexed(#[trigger] r[t], terms[t])
}

/// One product of the `n` polynomials from index `start` on, times a scalar.
pub open spec fn is_scaled_product(
    terms: Seq<Term<Scalar, usize>>,
    scalar: GoldilocksExt2,
    start: int,
    n: int,
) -> bool {
    &&& terms.len() == 1
    &&& terms[0].scalar == Scalar::Right(scalar)
    &&& terms[0].product@.len() == n
    &&& forall|j: int| 0 <= j < n ==> #[trigger] terms[0].product@[j] == start + j
}

/// The same scaled products.
pub open spec fn same_terms(a: Seq<Term<Scalar, usize>>, b: Seq<Term<Scalar, usize>>) -> bool {
    &&& a.len() == b.len()
    &&& forall|t: int|
        0 <= t < a.len() ==> (#[trigger] a[t]).scalar == b[t].scalar && a[t].product@
            == b[t].product@
}

proof fn lemma_same_indices(
    a: Seq<Term<Scalar, usize>>,
    b: Seq<Term<Scalar, usize>>,
    bound: nat,
)
    requires
        same_terms(a, b),
        indices_below(b, bound),
    ensures
        indices_below(a, bound),
{
    assert forall|t: int, j: int|
        0 <= t < a.len() && 0 <= j < a[t].product@.len() implies (#[trigger] a[t].product@[j])
        < bound by {
        assert(a[t].product@ == b[t].product@);
        assert(b[t].product@[j] < bound);
    }
}

proof fn lemma_same_terms(
    a: Seq<Term<Scalar, usize>>,
    b: Seq<Term<Scalar, usize>>,
    values: Seq<Ext>,
)
    requires
        same_terms(a, b),
    ensures
        terms_value(a, values) == terms_value(b, values),
{
    assert(Seq::new(a.len(), |t: int| term_value(a[t], values)) =~= Seq::new(
        b.len(),
        |t: int| term_value(b[t], values),
    ));
}

fn copy_terms(terms: &Vec<Term<Scalar, usize>>) -> (r: Vec<Term<Scalar, usize>>)
    ensures
        same_terms(r@, terms@),
{
    let n: usize = terms.len();
    let mut r: Vec<Term<Scalar, usize>> = Vec::with_capacity(n);
    let mut t: usize = 0;
    while t < n
        invariant
            t <= n,
            n == terms@.len(),
            r@.len() == t,
            forall|k: int|
                0 <= k < t ==> (#[trigger] r@[k]).scalar == terms@[k].scalar && r@[k].product@
                    == terms@[k].product@,
        decreases n - t,
    {
        let product = crate::mle::slice_to_vec(terms[t].product.as_slice());
        r.push(Term { scalar: terms[t].scalar, product });
        t = t + 1;
    }
    r
}

fn eval_terms(terms: &Vec<Term<Scalar, usize>>, evals: &Vec<GoldilocksExt2>) -> (r: GoldilocksExt2)
    requires
        indices_below(terms@, evals@.len()),
    ensures
        r@ == terms_value(terms@, ext_seq(evals@)),
{
    let n: usize = terms.len();
    let ghost values = ext_seq(evals@);
    let ghost sums = Seq::new(n as nat, |t: int| term_value(terms@[t], values));
    let mut sum = GoldilocksExt2::zero();
    let mut t: usize = 0;
    assert(sums.take(0) =~= Seq::empty());
    while t < n
        invariant
            t <= n,
            n == terms@.len(),
            indices_below(terms@, evals@.len()),
            values == ext_seq(evals@),
            sums == Seq::new(n as nat, |t: int| term_value(terms@[t], values)),
            sum@ == e_sum(sums.take(t as int)),
        decreases n - t,
    {
        let product = &terms[t].product;
        let len: usize = product.len();
        let ghost all = factors(product@, values);
        let mut value = GoldilocksExt2::one();
        let mut j: usize = 0;
        assert(all.take(0) =~= Seq::empty());
        while j < len
            invariant
                j <= len,
                t < n,
                n == terms@.len(),
                *product == terms@[t as int].product,
                len == product@.len(),
                indices_below(terms@, evals@.len()),
                values == ext_seq(evals@),
                all == factors(product@, values),
                value@ == e_prod(all.take(j as int)),
            decreases len - j,
        {
            assert(terms@[t as int].product@[j as int] < evals@.len());
            value = value * evals[product[j]];
            assert(all.take(j + 1).drop_last() =~= all.take(j as int));
            j = j + 1;
        }
        assert(all.take(len as int) =~= all);
        let scalar = match terms[t].scalar {
            Either::Left(c) => GoldilocksExt2::from_base(c),
            Either::Right(c) => c,
        };
        sum = sum + value * scalar;
        assert(sums.take(t + 1).drop_last() =~= sums.take(t as int));
        t = t + 1;
    }
    assert(sums.take(n as int) =~= sums);
    sum
}

/// The bits of a number as a point, the lowest bit first.
pub fn hypercube_point(i: usize, n: usize) -> (r: Vec<GoldilocksExt2>)
    ensures
        r@.len() == n,
        ext_seq(r@) == bit_point(i as int, n as nat),
{
    let mut r: Vec<GoldilocksExt2> = Vec::with_capacity(n);
    let mut rest: usize = i;
    let mut k: usize = 0;
    assert(ext_seq(r@) + bit_point(i as int, n as nat) =~= bit_point(i as int, n as nat));
    while k < n
        invariant
            k <= n,
            r@.len() == k,
            ext_seq(r@) + bit_point(rest as int, (n - k) as nat) == bit_point(i as int, n as nat),
        decreases n - k,
    {
        let bit = if rest % 2 == 1 {
            GoldilocksExt2::one()
        } else {
            GoldilocksExt2::zero()
        };
        let ghost before = r@;
        r.push(bit);
        assert(ext_seq(r@) =~= ext_seq(before).push(bit@));
        assert(ext_seq(r@) + bit_point((rest / 2) as int, (n - k - 1) as nat) =~= ext_seq(before)
            + bit_point(rest as int, (n - k) as nat));
        rest = rest / 2;
        k = k + 1;
    }
    assert(ext_seq(r@) =~= ext_seq(r@) + bit_point(rest as int, 0));
    r
}

/// What is drawn for one product: samples for the tables of its factors, and its scalar.
pub struct ProductSample {
    pub num_vars: usize,
    pub num_multiplicands: usize,
    pub samples: Vec<Goldilocks>,
    pub scalar: GoldilocksExt2,
}

impl ProductSample {
    /// There are samples for each table, and at least one table.
    pub open spec fn wf(&self) -> bool {
        &&& self.num_multiplicands > 0
        &&& pow2(self.num_vars as nat) <= usize::MAX
        &&& self.samples@.len() == pow2(self.num_vars as nat) * self.num_multiplicands
    }

    /// The table of a factor.
    pub open spec fn table(&self, t: int) -> Seq<Ext> {
        Seq::new(
            pow2(self.num_vars as nat),
            |row: int|
                e_base(sample_at(self.samples@, self.num_multiplicands as int, t, row)@),
        )
    }

    /// The entries of all tables at a position.
    pub open spec fn row(&self, row: int) -> Seq<Ext> {
        Seq::new(
            self.num_multiplicands as nat,
            |t: int| e_base(sample_at(self.samples@, self.num_multiplicands as int, t, row)@),
        )
    }

    /// The sum over all positions of the products of the entries.
    pub open spec fn product_sum(&self) -> Ext {
        e_sum(Seq::new(pow2(self.num_vars as nat), |row: int| e_prod(self.row(row))))
    }
}

/// The number of tables of the first products.
pub open spec fn tables_before(draws: Seq<ProductSample>, k: int) -> int
    decreases k,
{
    if k <= 0 {
        0
    } else {
        tables_before(draws, k - 1) + draws[k - 1].num_multiplicands
    }
}

proof fn lemma_tables_before(draws: Seq<ProductSample>, j: int, k: int)
    requires
        0 <= j <= k,
    ensures
        0 <= tables_before(draws, j) <= tables_before(draws, k),
    decreases k,
{
    if j < k {
        lemma_tables_before(draws, j, k - 1);
    } else if k > 0 {
        lemma_tables_before(draws, k - 1, k - 1);
    }
}

/// The sum of the scaled product sums.
pub open spec fn scaled_sum(draws: Seq<ProductSample>) -> Ext {
    e_sum(Seq::new(draws.len(), |k: int| e_mul(draws[k].product_sum(), draws[k].scalar@)))
}

/// The largest of the given numbers.
pub open spec fn is_largest(max: usize, nv: Seq<usize>) -> bool {
    &&& nv.contains(max)
    &&& forall|i: int| 0 <= i < nv.len() ==> #[trigger] nv[i] <= max
}

/// The largest number of factors of the drawn products.
pub open spec fn largest_multiplicands(draws: Seq<ProductSample>) -> nat
    decreases draws.len(),
{
    if draws.len() == 0 {
        0
    } else {
        let rest = largest_multiplicands(draws.drop_last());
        let last = draws.last().num_multiplicands as nat;
        if rest < last {
            last
        } else {
            rest
        }
    }
}

/// A table of a product stands at its index.
pub open spec fn has_table(poly: VirtualPolynomial, draws: Seq<ProductSample>, k: int, t: int) -> bool {
    let i = tables_before(draws, k) + t;
    &&& poly.flattened_ml_extensions@[i]@ == draws[k].table(t)
    &&& poly.flattened_ml_extensions@[i].num_vars == draws[k].num_vars
}

/// The polynomial is the sum of the drawn products.
pub open spec fn is_sum_of_draws(poly: VirtualPolynomial, draws: Seq<ProductSample>) -> bool {
    &&& poly.flattened_ml_extensions@.len() == tables_before(draws, draws.len() as int)
    &&& poly.products@.len() == draws.len()
    &&& forall|k: int, t: int|
        0 <= k < draws.len() && 0 <= t < draws[k].num_multiplicands ==> #[trigger] has_table(
            poly,
            draws,
            k,
            t,
        )
    &&& forall|k: int|
        0 <= k < draws.len() ==> is_scaled_product(
            (#[trigger] poly.products@[k]).terms@,
            draws[k].scalar,
            tables_before(draws, k),
            draws[k].num_multiplicands as int,
        )
}

impl VirtualPolynomial<'static> {
    /// The sum of products with drawn factors, and its sum over the hypercubes of its products.
    /// `nv` lists the numbers of variables of the products.
    pub fn random(nv: &[usize], draws: &[ProductSample]) -> (r: (Self, GoldilocksExt2))
        requires
            nv@.len() > 0,
            tables_before(draws@, draws@.len() as int) <= 0x1_0000,
            forall|k: int|
                0 <= k < draws@.len() ==> (#[trigger] draws@[k]).wf() && nv@.contains(
                    draws@[k].num_vars,
                ),
        ensures
            r.0.wf(),
            is_largest(r.0.aux_info.max_num_variables, nv@),
            r.0.aux_info.max_degree == largest_multiplicands(draws@),
            is_sum_of_draws(r.0, draws@),
            r.1@ == scaled_sum(draws@),
    {
        let max: usize = largest(nv);
        let n: usize = draws.len();
        let ghost sums = Seq::new(
            n as nat,
            |k: int| e_mul(draws@[k].product_sum(), draws@[k].scalar@),
        );
        let mut poly = VirtualPolynomial::new(max);
        let mut sum = GoldilocksExt2::zero();
        let mut k: usize = 0;
        assert(sums.take(0) =~= Seq::empty());
        assert(draws@.take(0) =~= Seq::empty());
        while k < n
            invariant
                k <= n,
                n == draws@.len(),
                tables_before(draws@, draws@.len() as int) <= 0x1_0000,
                forall|k: int|
                    0 <= k < draws@.len() ==> (#[trigger] draws@[k]).wf() && nv@.contains(
                        draws@[k].num_vars,
                    ),
                is_largest(max, nv@),
                poly.wf(),
                poly.aux_info.max_num_variables == max,
                poly.aux_info.max_degree == largest_multiplicands(draws@.take(k as int)),
                poly.flattened_ml_extensions@.len() == tables_before(draws@, k as int),
                poly.products@.len() == k,
                forall|j: int, t: int|
                    0 <= j < k && 0 <= t < draws@[j].num_multiplicands ==> #[trigger] has_table(
                        poly,
                        draws@,
                        j,
                        t,
                    ),
                forall|j: int|
                    0 <= j < k ==> is_scaled_product(
                        (#[trigger] poly.products@[j]).terms@,
                        draws@[j].scalar,
                        tables_before(draws@, j),
                        draws@[j].num_multiplicands as int,
                    ),
                sums == Seq::new(
                    n as nat,
                    |k: int| e_mul(draws@[k].product_sum(), draws@[k].scalar@),
                ),
                sum@ == e_sum(sums.take(k as int)),
            decreases n - k,
        {
            let draw = &draws[k];
            proof {
                lemma_tables_before(draws@, k + 1, n as int);
                assert(draws@[k as int].wf());
                let i = choose|i: int| 0 <= i < nv@.len() && nv@[i] == draw.num_vars;
                assert(nv@[i] <= max);
            }
            let (product, product_sum) = MultilinearExtension::random_mle_list(
                draw.num_vars,
                draw.num_multiplicands,
                &draw.samples,
            );
            let ghost before = poly;
            let ghost tables = product@;
            assert(product_sum@ == draw.product_sum()) by {
                assert(Seq::new(
                    pow2(draw.num_vars as nat),
                    |row: int|
                        e_prod(
                            Seq::new(
                                draw.num_multiplicands as nat,
                                |t: int|
                                    e_base(
                                        sample_at(
                                            draw.samples@,
                                            draw.num_multiplicands as int,
                                            t,
                                            row,
                                        )@,
                                    ),
                            ),
                        ),
                ) =~= Seq::new(pow2(draw.num_vars as nat), |row: int| e_prod(draw.row(row))));
            }
            poly.push_product(product, draw.scalar);
            sum = sum + product_sum * draw.scalar;
            proof {
                assert(sums.take(k + 1).drop_last() =~= sums.take(k as int));
                assert(draws@.take(k + 1).drop_last() =~= draws@.take(k as int));
                assert forall|j: int, t: int|
                    0 <= j < k + 1 && 0 <= t < draws@[j].num_multiplicands implies #[trigger] has_table(
                    poly,
                    draws@,
                    j,
                    t,
                ) by {
                    let i = tables_before(draws@, j) + t;
                    if j < k {
                        lemma_tables_before(draws@, j + 1, k as int);
                        lemma_tables_before(draws@, 0, j);
                        assert(has_table(before, draws@, j, t));
                        assert(poly.flattened_ml_extensions@[i]
                            == before.flattened_ml_extensions@[i]);
                    } else {
                        assert(poly.flattened_ml_extensions@[i] == tables[t]);
                        assert(tables[t]@ =~= draw.table(t));
                    }
                }
                assert forall|j: int| 0 <= j < k + 1 implies is_scaled_product(
                    (#[trigger] poly.products@[j]).terms@,
                    draws@[j].scalar,
                    tables_before(draws@, j),
                    draws@[j].num_multiplicands as int,
                ) by {
                    if j < k {
                        assert(poly.products@.drop_last()[j] == before.products@[j]);
                    }
                }
            }
            k = k + 1;
        }
        assert(sums.take(n as int) =~= sums);
        assert(draws@.take(n as int) =~= draws@);
        (poly, sum)
    }
}

fn largest(nv: &[usize]) -> (r: usize)
    requires
        nv@.len() > 0,
    ensures
        is_largest(r, nv@),
{
    let n: usize = nv.len();
    let mut r: usize = nv[0];
    let mut i: usize = 1;
    let ghost mut at: int = 0;
    while i < n
        invariant
            1 <= i <= n,
            n == nv@.len(),
            0 <= at < n,
            nv@[at] == r,
            forall|j: int| 0 <= j < i ==> #[trigger] nv@[j] <= r,
        decreases n - i,
    {
        if r < nv[i] {
            r = nv[i];
            proof {
                at = i as int;
            }
        }
        i = i + 1;
    }
    r
}

proof fn lemma_sum_pointwise(a: Seq<Ext>, b: Seq<Ext>, c: Seq<Ext>)
    requires
        a.len() == b.len() == c.len(),
        forall|i: int| 0 <= i < a.len() ==> #[trigger] c[i] == e_add(a[i], b[i]),
    ensures
        e_sum(c) == e_add(e_sum(a), e_sum(b)),
    decreases a.len(),
{
    if a.len() == 0 {
        lemma_e_add_zero(e_zero());
    } else {
        let (x, y) = (e_sum(a.drop_last()), e_sum(b.drop_last()));
        let (p, q) = (a.last(), b.last());
        lemma_sum_pointwise(a.drop_last(), b.drop_last(), c.drop_last());
        lemma_e_add_assoc(e_add(x, y), p, q);
        lemma_e_add_assoc(x, y, p);
        lemma_e_add_comm(y, p);
        lemma_e_add_assoc(x, p, y);
        lemma_e_add_assoc(e_add(x, p), y, q);
        assert(c.last() == e_add(p, q));
    }
}

proof fn lemma_sum_scaled(a: Seq<Ext>, scalar: Ext, c: Seq<Ext>)
    requires
        a.len() == c.len(),
        forall|i: int| 0 <= i < a.len() ==> #[trigger] c[i] == e_mul(a[i], scalar),
    ensures
        e_sum(c) == e_mul(e_sum(a), scalar),
    decreases a.len(),
{
    lemma_e_mul_comm(e_sum(a), scalar);
    if a.len() == 0 {
        lemma_e_mul_zero(scalar);
    } else {
        lemma_sum_scaled(a.drop_last(), scalar, c.drop_last());
        let (x, y) = (e_sum(a.drop_last()), a.last());
        lemma_e_mul_add(scalar, x, y);
        lemma_e_mul_comm(scalar, x);
        lemma_e_mul_comm(scalar, y);
        assert(c.last() == e_mul(y, scalar));
    }
}

proof fn lemma_sum_of_zeros(s: Seq<Ext>)
    requires
        forall|i: int| 0 <= i < s.len() ==> #[trigger] s[i] == e_zero(),
    ensures
        e_sum(s) == e_zero(),
    decreases s.len(),
{
    if s.len() > 0 {
        lemma_sum_of_zeros(s.drop_last());
        lemma_e_add_zero(e_zero());
    }
}

/// The scaled products of the entries at a position.
pub open spec fn draw_terms(draws: Seq<ProductSample>, row: int) -> Seq<Ext> {
    Seq::new(draws.len(), |k: int| e_mul(e_prod(draws[k].row(row)), draws[k].scalar@))
}

proof fn lemma_draws_sum(draws: Seq<ProductSample>, n: nat)
    requires
        forall|k: int| 0 <= k < draws.len() ==> (#[trigger] draws[k]).num_vars == n,
    ensures
        e_sum(Seq::new(pow2(n), |row: int| e_sum(draw_terms(draws, row)))) == scaled_sum(draws),
    decreases draws.len(),
{
    let all = Seq::new(pow2(n), |row: int| e_sum(draw_terms(draws, row)));
    let sums = Seq::new(draws.len(), |k: int| e_mul(draws[k].product_sum(), draws[k].scalar@));
    if draws.len() == 0 {
        lemma_sum_of_zeros(all);
    } else {
        let front = draws.drop_last();
        let last = draws.last();
        lemma_draws_sum(front, n);
        let a = Seq::new(pow2(n), |row: int| e_sum(draw_terms(front, row)));
        let products = Seq::new(pow2(n), |row: int| e_prod(last.row(row)));
        let b = Seq::new(pow2(n), |row: int| e_mul(e_prod(last.row(row)), last.scalar@));
        assert(last == draws[draws.len() - 1]);
        assert(last.num_vars == n);
        assert forall|row: int| 0 <= row < all.len() implies #[trigger] all[row] == e_add(
            a[row],
            b[row],
        ) by {
            assert(draw_terms(draws, row).drop_last() =~= draw_terms(front, row));
        }
        lemma_sum_pointwise(a, b, all);
        lemma_sum_scaled(products, last.scalar@, b);
        let front_sums = Seq::new(
            front.len(),
            |k: int| e_mul(front[k].product_sum(), front[k].scalar@),
        );
        assert(sums.drop_last() =~= front_sums);
    }
}

proof fn lemma_value_of_draws(poly: VirtualPolynomial, draws: Seq<ProductSample>, n: nat, row: int)
    requires
        is_sum_of_draws(poly, draws),
        forall|k: int| 0 <= k < draws.len() ==> (#[trigger] draws[k]).num_vars == n,
        0 <= row < pow2(n),
    ensures
        poly.value(bit_point(row, n)) == e_sum(draw_terms(draws, row)),
{
    let point = bit_point(row, n);
    let values = mle_values(poly.flattened_ml_extensions@, point);
    let terms = Seq::new(
        poly.products@.len(),
        |p: int| terms_value(poly.products@[p].terms@, values),
    );
    assert forall|k: int| 0 <= k < draws.len() implies #[trigger] terms[k] == draw_terms(
        draws,
        row,
    )[k] by {
        let draw = draws[k];
        let start = tables_before(draws, k);
        let ts = poly.products@[k].terms@;
        lemma_tables_before(draws, 0, k);
        lemma_tables_before(draws, k + 1, draws.len() as int);
        assert(is_scaled_product(ts, draw.scalar, start, draw.num_multiplicands as int));
        assert forall|t: int| 0 <= t < draw.num_multiplicands implies #[trigger] factors(
            ts[0].product@,
            values,
        )[t] == draw.row(row)[t] by {
            assert(ts[0].product@[t] == start + t);
            assert(has_table(poly, draws, k, t));
            let table = draw.table(t);
            assert(all_valid(table));
            lemma_mle_eval_on_hypercube(table, row, n);
            assert(point.take(n as int) =~= point);
        }
        assert(factors(ts[0].product@, values) =~= draw.row(row));
        let single = Seq::new(ts.len(), |t: int| term_value(ts[t], values));
        assert(single.drop_last() =~= Seq::empty());
        reveal_with_fuel(e_sum, 2);
        let v = term_value(ts[0], values);
        lemma_e_add_zero(v);
        lemma_e_add_comm(v, e_zero());
    }
    assert(terms =~= draw_terms(draws, row));
}

/// The second result of [`VirtualPolynomial::random`] is the sum of the polynomial over the
/// hypercube, if the drawn products have the same number of variables.
pub proof fn lemma_random_sum(poly: VirtualPolynomial, draws: Seq<ProductSample>, n: nat)
    requires
        is_sum_of_draws(poly, draws),
        forall|k: int| 0 <= k < draws.len() ==> (#[trigger] draws[k]).num_vars == n,
    ensures
        e_sum(Seq::new(pow2(n), |i: int| poly.value(bit_point(i, n)))) == scaled_sum(draws),
{
    let a = Seq::new(pow2(n), |i: int| poly.value(bit_point(i, n)));
    let b = Seq::new(pow2(n), |i: int| e_sum(draw_terms(draws, i)));
    assert forall|i: int| 0 <= i < pow2(n) implies #[trigger] a[i] == b[i] by {
        lemma_value_of_draws(poly, draws, n, i);
    }
    assert(a =~= b);
    lemma_draws_sum(draws, n);
}

/// The value of [`VirtualPolynomial::new_from_product`] is the product of the values of the
/// polynomials, times the scalar.
pub proof fn lemma_product_value(
    poly: VirtualPolynomial,
    mles: Seq<MultilinearExtension>,
    scalar: GoldilocksExt2,
    point: Seq<Ext>,
)
    requires
        poly.flattened_ml_extensions@ == mles,
        poly.products@.len() == 1,
        is_scaled_product(poly.products@[0].terms@, scalar, 0, mles.len() as int),
    ensures
        poly.value(point) == e_mul(e_prod(mle_values(mles, point)), scalar@),
{
    let values = mle_values(mles, point);
    let terms = poly.products@[0].terms@;
    assert forall|j: int| 0 <= j < mles.len() implies #[trigger] factors(
        terms[0].product@,
        values,
    )[j] == values[j] by {
        assert(terms[0].product@[j] == j);
    }
    assert(factors(terms[0].product@, values) =~= values);
    let v = term_value(terms[0], values);
    let single = Seq::new(terms.len(), |t: int| term_value(terms[t], values));
    let sums = Seq::new(1, |p: int| terms_value(poly.products@[p].terms@, values));
    assert(single.drop_last() =~= Seq::empty());
    assert(sums.drop_last() =~= Seq::empty());
    reveal_with_fuel(e_sum, 2);
    lemma_e_add_zero(v);
    lemma_e_add_comm(v, e_zero());
}

/// Adding terms to a polynomial adds, for each term, the product of the values of its columns
/// times its scalar.
pub proof fn lemma_added_terms(
    before: VirtualPolynomial,
    after: VirtualPolynomial,
    terms: Seq<Term<Scalar, Expression>>,
    point: Seq<Ext>,
)
    requires
        before.wf(),
        after.wf(),
        after.flattened_ml_extensions == before.flattened_ml_extensions,
        after.products@.len() == before.products@.len() + 1,
        after.products@.drop_last() == before.products@,
        are_indexed(after.products@.last().terms@, terms),
    ensures
        after.value(point) == e_add(
            before.value(point),
            e_sum(
                Seq::new(
                    terms.len(),
                    |t: int|
                        e_mul(
                            e_prod(
                                Seq::new(
                                    terms[t].product@.len(),
                                    |j: int|
                                        column_value(
                                            before.flattened_ml_extensions@,
                                            terms[t].product@[j],
                                            point,
                                        ),
                                ),
                            ),
                            scalar_value(terms[t].scalar),
                        ),
                ),
            ),
        ),
{
    let mles = before.flattened_ml_extensions@;
    let values = mle_values(mles, point);
    let n = before.products@.len();
    let indexed = after.products@.last().terms@;
    let a = Seq::new(n, |p: int| terms_value(before.products@[p].terms@, values));
    let b = Seq::new(n + 1, |p: int| terms_value(after.products@[p].terms@, values));
    assert(indices_below(after.products@[n as int].terms@, mles.len()));
    assert(b.drop_last() =~= a) by {
        assert forall|p: int| 0 <= p < n implies #[trigger] b[p] == a[p] by {
            assert(after.products@.drop_last()[p] == after.products@[p]);
        }
    }
    let sums = Seq::new(indexed.len(), |t: int| term_value(indexed[t], values));
    let named = Seq::new(
        terms.len(),
        |t: int|
            e_mul(
                e_prod(
                    Seq::new(
                        terms[t].product@.len(),
                        |j: int| column_value(mles, terms[t].product@[j], point),
                    ),
                ),
                scalar_value(terms[t].scalar),
            ),
    );
    assert forall|t: int| 0 <= t < terms.len() implies #[trigger] sums[t] == named[t] by {
        assert(is_indexed(indexed[t], terms[t]));
        let f = factors(indexed[t].product@, values);
        let g = Seq::new(
            terms[t].product@.len(),
            |j: int| column_value(mles, terms[t].product@[j], point),
        );
        assert forall|j: int| 0 <= j < f.len() implies #[trigger] f[j] == g[j] by {
            assert(wit_id(terms[t].product@[j]) == Some(indexed[t].product@[j] as int));
            assert(indexed[t].product@[j] < mles.len());
        }
        assert(f =~= g);
    }
    assert(sums =~= named);
}

/// The value of a column at a point.
pub open spec fn column_value(
    mles: Seq<MultilinearExtension>,
    column: Expression,
    point: Seq<Ext>,
) -> Ext {
    let m = mles[column->WitIn_0 as int];
    mle_eval(m@, point.take(m.num_vars as int))
}

/// The degree that is kept is the largest of the degree before and the lengths of the terms.
pub proof fn lemma_largest_degree(initial: nat, terms: Seq<Term<Scalar, Expression>>)
    ensures
        initial <= largest_degree(initial, terms),
        forall|t: int|
            0 <= t < terms.len() ==> (#[trigger] terms[t]).product@.len() <= largest_degree(
                initial,
                terms,
            ),
        largest_degree(initial, terms) == initial || exists|t: int|
            0 <= t < terms.len() && (#[trigger] terms[t]).product@.len() == largest_degree(
                initial,
                terms,
            ),
    decreases terms.len(),
{
    if terms.len() > 0 {
        let rest = terms.drop_last();
        lemma_largest_degree(initial, rest);
        assert forall|t: int| 0 <= t < terms.len() implies (#[trigger] terms[t]).product@.len()
            <= largest_degree(initial, terms) by {
            if t < rest.len() {
                assert(rest[t] == terms[t]);
            }
        }
        if largest_degree(initial, rest) < terms.last().product@.len() {
            assert(terms[terms.len() - 1].product@.len() == largest_degree(initial, terms));
        } else if largest_degree(initial, rest) != initial {
            let t = choose|t: int|
                0 <= t < rest.len() && (#[trigger] rest[t]).product@.len() == largest_degree(
                    initial,
                    rest,
                );
            assert(terms[t].product@.len() == largest_degree(initial, terms));
        }
    }
}

/// The degree of a random polynomial is the largest number of factors that was drawn.
pub proof fn lemma_largest_multiplicands(draws: Seq<ProductSample>)
    ensures
        draws.len() == 0 ==> largest_multiplicands(draws) == 0,
        forall|k: int|
            0 <= k < draws.len() ==> (#[trigger] draws[k]).num_multiplicands
                <= largest_multiplicands(draws),
        draws.len() > 0 && largest_multiplicands(draws) > 0 ==> exists|k: int|
            0 <= k < draws.len() && (#[trigger] draws[k]).num_multiplicands
                == largest_multiplicands(draws),
    decreases draws.len(),
{
    if draws.len() > 0 {
        let rest = draws.drop_last();
        lemma_largest_multiplicands(rest);
        assert forall|k: int| 0 <= k < draws.len() implies (#[trigger] draws[k]).num_multiplicands
            <= largest_multiplicands(draws) by {
            if k < rest.len() {
                assert(rest[k] == draws[k]);
            }
        }
        if largest_multiplicands(rest) < draws.last().num_multiplicands {
            assert(draws[draws.len() - 1].num_multiplicands == largest_multiplicands(draws));
        } else if largest_multiplicands(draws) > 0 {
            let k = choose|k: int|
                0 <= k < rest.len() && (#[trigger] rest[k]).num_multiplicands
                    == largest_multiplicands(rest);
            assert(draws[k].num_multiplicands == largest_multiplicands(draws));
        }
    }
}

} // verus!
