//! Further ways to build and to walk through multilinear polynomials.
use vstd::arithmetic::div_mod::*;
use vstd::arithmetic::power2::*;
use vstd::prelude::*;
use vstd::slice::slice_subrange;

use crate::either::Either;
use crate::field::{e_base, e_zero, group_field, Ext, Goldilocks, GoldilocksExt2};
use crate::mle::{
    base_seq, chunk, ext_seq, lemma_chunk_bounds, slice_to_vec, FieldType, IntoMLE,
    MultilinearExtension, SmartSlice,
};
use crate::multilinear::{e_prod, e_sum};
use crate::util::{
    ceil_log2, is_pow2, lemma_ceil_log2, lemma_ceil_log2_pow2, pow2_usize, spec_ceil_log2,
};

verus! {

broadcast use group_field;

impl<'a> MultilinearExtension<'a> {
    /// The polynomial itself: mutable if its evaluations can be changed in place.
    pub fn to_either(&mut self) -> (r: Either<&Self, &mut Self>)
        ensures
            match r {
                Either::Left(m) => {
                    &&& !old(self).spec_is_mut()
                    &&& *m == *old(self)
                    &&& *final(self) == *old(self)
                },
                Either::Right(m) => {
                    &&& old(self).spec_is_mut()
                    &&& *m == *old(self)
                    &&& *final(self) == *final(m)
                },
            },
    {
        if self.is_mut() {
            Either::Right(self)
        } else {
            Either::Left(self)
        }
    }

    /// The polynomial of a vector of evaluations in the base field or in the extension field.
    pub fn from_evaluation_vec_smart<V: IntoMLE>(num_vars: usize, evaluations: V) -> (r:
        MultilinearExtension<'static>)
        requires
            evaluations.values().len() == pow2(num_vars as nat),
        ensures
            r.wf(),
            r@ == evaluations.values(),
            r.num_vars == num_vars,
            r.is_ext() == evaluations.over_ext(),
            r.spec_is_mut(),
    {
        proof {
            lemma_ceil_log2_pow2(num_vars as nat);
        }
        evaluations.into_mle()
    }

    /// The polynomial whose evaluations are the samples.
    pub fn random(nv: usize, samples: &[Goldilocks]) -> (r: MultilinearExtension<'static>)
        requires
            samples@.len() == pow2(nv as nat),
        ensures
            r.wf(),
            r@ == base_seq(samples@),
            r.num_vars == nv,
            !r.is_ext(),
    {
        MultilinearExtension::from_evaluations_vec(nv, slice_to_vec(samples))
    }

    /// Mutable views of the `num_chunks` chunks of equal length. What the views hold in the end is
    /// what the chunks hold: one after the other they are the table.
    pub fn as_view_chunks_mut(&mut self, num_chunks: usize) -> (r: Vec<MultilinearExtension<'_>>)
        requires
            old(self).spec_is_mut(),
            num_chunks > 0,
            old(self)@.len() > 0,
            old(self)@.len() as int % num_chunks as int == 0,
            spec_ceil_log2(num_chunks as nat) <= old(self).num_vars,
        ensures
            r@.len() == num_chunks,
            forall|c: int|
                0 <= c < num_chunks ==> {
                    &&& (#[trigger] r@[c])@ == chunk(old(self)@, num_chunks as int, c)
                    &&& r@[c].num_vars == old(self).num_vars - spec_ceil_log2(num_chunks as nat)
                    &&& r@[c].is_ext() == old(self).is_ext()
                    &&& r@[c].spec_is_mut()
                },
            !old(self).is_ext() ==> forall|c: int|
                0 <= c < num_chunks ==> (#[trigger] r@[c]).evaluations->Base_0 is BorrowedMut,
            !old(self).is_ext() ==> forall|parts: Seq<Seq<Goldilocks>>|
                parts.len() == num_chunks && (forall|c: int|
                    0 <= c < num_chunks ==> match (#[trigger] r@[c]).evaluations {
                        FieldType::Base(SmartSlice::BorrowedMut(part)) => parts[c] == final(part)@,
                        _ => false,
                    }) ==> match final(self).evaluations {
                    FieldType::Base(after) => #[trigger] parts.flatten_alt() == after@,
                    _ => false,
                },
            old(self).is_ext() ==> forall|c: int|
                0 <= c < num_chunks ==> (#[trigger] r@[c]).evaluations->Ext_0 is BorrowedMut,
            old(self).is_ext() ==> forall|parts: Seq<Seq<GoldilocksExt2>>|
                parts.len() == num_chunks && (forall|c: int|
                    0 <= c < num_chunks ==> match (#[trigger] r@[c]).evaluations {
                        FieldType::Ext(SmartSlice::BorrowedMut(part)) => parts[c] == final(part)@,
                        _ => false,
                    }) ==> match final(self).evaluations {
                    FieldType::Ext(after) => #[trigger] parts.flatten_alt() == after@,
                    _ => false,
                },
            final(self).num_vars == old(self).num_vars,
            final(self).is_ext() == old(self).is_ext(),
    {
        let total: usize = self.evaluations.len();
        let size: usize = total / num_chunks;
        let num_vars: usize = self.num_vars - ceil_log2(num_chunks);
        let ghost before = self@;
        match &mut self.evaluations {
            FieldType::Base(SmartSlice::BorrowedMut(s)) => {
                assert(base_seq(s@) =~= before);
                base_chunks(s, num_chunks, size, num_vars)
            },
            FieldType::Base(SmartSlice::Owned(v)) => {
                assert(base_seq(v@) =~= before);
                base_chunks(v.as_mut_slice(), num_chunks, size, num_vars)
            },
            FieldType::Ext(SmartSlice::BorrowedMut(s)) => {
                assert(ext_seq(s@) =~= before);
                ext_chunks(s, num_chunks, size, num_vars)
            },
            FieldType::Ext(SmartSlice::Owned(v)) => {
                assert(ext_seq(v@) =~= before);
                ext_chunks(v.as_mut_slice(), num_chunks, size, num_vars)
            },
            _ => vstd::pervasive::unreached(),
        }
    }

    /// Polynomials from samples, and the sum over all positions of the products of their entries.
    pub fn random_mle_list(nv: usize, degree: usize, samples: &[Goldilocks]) -> (r: (
        Vec<MultilinearExtension<'static>>,
        GoldilocksExt2,
    ))
        requires
            pow2(nv as nat) <= usize::MAX,
            samples@.len() == pow2(nv as nat) * degree,
        ensures
            r.0@.len() == degree,
            forall|t: int|
                0 <= t < degree ==> {
                    &&& (#[trigger] r.0@[t]).wf()
                    &&& !r.0@[t].is_ext()
                    &&& r.0@[t].num_vars == nv
                    &&& r.0@[t]@ == Seq::new(
                        pow2(nv as nat),
                        |row: int| e_base(sample_at(samples@, degree as int, t, row)@),
                    )
                },
            r.1@ == e_sum(
                Seq::new(
                    pow2(nv as nat),
                    |row: int|
                        e_prod(
                            Seq::new(
                                degree as nat,
                                |t: int| e_base(sample_at(samples@, degree as int, t, row)@),
                            ),
                        ),
                ),
            ),
    {
        let n: usize = pow2_usize(nv);
        let ghost sums = Seq::new(
            n as nat,
            |row: int|
                e_prod(
                    Seq::new(
                        degree as nat,
                        |t: int| e_base(sample_at(samples@, degree as int, t, row)@),
                    ),
                ),
        );
        let mut sum = GoldilocksExt2::zero();
        let mut row: usize = 0;
        assert(sums.take(0) =~= Seq::empty());
        while row < n
            invariant
                row <= n,
                samples@.len() == n * degree,
                sums == Seq::new(
                    n as nat,
                    |row: int|
                        e_prod(
                            Seq::new(
                                degree as nat,
                                |t: int| e_base(sample_at(samples@, degree as int, t, row)@),
                            ),
                        ),
                ),
                sum@ == e_sum(sums.take(row as int)),
            decreases n - row,
        {
            let product = row_product(samples, degree, row, n);
            sum = sum + product;
            assert(sums.take(row + 1).drop_last() =~= sums.take(row as int));
            row = row + 1;
        }
        assert(sums.take(n as int) =~= sums);
        let mut list: Vec<MultilinearExtension<'static>> = Vec::with_capacity(degree);
        let mut t: usize = 0;
        while t < degree
            invariant
                t <= degree,
                n == pow2(nv as nat),
                samples@.len() == n * degree,
                list@.len() == t,
                forall|k: int|
                    0 <= k < t ==> {
                        &&& (#[trigger] list@[k]).wf()
                        &&& !list@[k].is_ext()
                        &&& list@[k].num_vars == nv
                        &&& list@[k]@ == Seq::new(
                            pow2(nv as nat),
                            |row: int| e_base(sample_at(samples@, degree as int, k, row)@),
                        )
                    },
            decreases degree - t,
        {
            let column = sample_column(samples, degree, t, n);
            let mle = MultilinearExtension::from_evaluations_vec(nv, column);
            assert(mle@ =~= Seq::new(
                pow2(nv as nat),
                |row: int| e_base(sample_at(samples@, degree as int, t as int, row)@),
            ));
            list.push(mle);
            t = t + 1;
        }
        (list, sum)
    }

    /// Polynomials of which the first is zero and the others are from samples, so that the products of
    /// their entries are zero.
    pub fn random_zero_mle_list(nv: usize, degree: usize, samples: &[Goldilocks]) -> (r: Vec<
        MultilinearExtension<'static>,
    >)
        requires
            degree > 0,
            pow2(nv as nat) <= usize::MAX,
            samples@.len() == pow2(nv as nat) * (degree - 1),
        ensures
            r@.len() == degree,
            forall|t: int|
                0 <= t < degree ==> {
                    &&& (#[trigger] r@[t]).wf()
                    &&& !r@[t].is_ext()
                    &&& r@[t].num_vars == nv
                    &&& r@[t]@ == Seq::new(
                        pow2(nv as nat),
                        |row: int|
                            if t == 0 {
                                e_zero()
                            } else {
                                e_base(sample_at(samples@, degree - 1, t - 1, row)@)
                            },
                    )
                },
    {
        let n: usize = pow2_usize(nv);
        let mut zeros: Vec<Goldilocks> = Vec::with_capacity(n);
        let mut row: usize = 0;
        while row < n
            invariant
                row <= n,
                zeros@.len() == row,
                forall|k: int| 0 <= k < row ==> (#[trigger] zeros@[k])@ == 0,
            decreases n - row,
        {
            zeros.push(Goldilocks::zero());
            row = row + 1;
        }
        let (mut rest, _) = MultilinearExtension::random_mle_list(nv, degree - 1, samples);
        let ghost others = rest@;
        let first = MultilinearExtension::from_evaluations_vec(nv, zeros);
        assert(first@ =~= Seq::new(pow2(nv as nat), |row: int| e_zero()));
        let mut r: Vec<MultilinearExtension<'static>> = Vec::with_capacity(degree);
        r.push(first);
        r.append(&mut rest);
        proof {
            assert(r@ == seq![first] + others);
            assert forall|t: int| 0 <= t < degree implies ({
                &&& (#[trigger] r@[t]).wf()
                &&& !r@[t].is_ext()
                &&& r@[t].num_vars == nv
                &&& r@[t]@ == Seq::new(
                    pow2(nv as nat),
                    |row: int|
                        if t == 0 {
                            e_zero()
                        } else {
                            e_base(sample_at(samples@, degree - 1, t - 1, row)@)
                        },
                )
            }) by {
                if t > 0 {
                    assert(r@[t] == others[t - 1]);
                }
                assert(r@[t]@ =~= Seq::new(
                    pow2(nv as nat),
                    |row: int|
                        if t == 0 {
                            e_zero()
                        } else {
                            e_base(sample_at(samples@, degree - 1, t - 1, row)@)
                        },
                ));
            }
        }
        r
    }
}

fn base_chunks(s: &mut [Goldilocks], num_chunks: usize, size: usize, num_vars: usize) -> (r: Vec<
    MultilinearExtension<'_>,
>)
    requires
        num_chunks > 0,
        old(s)@.len() as int % num_chunks as int == 0,
        size == old(s)@.len() as int / num_chunks as int,
    ensures
        r@.len() == num_chunks,
        forall|c: int|
            0 <= c < num_chunks ==> {
                &&& (#[trigger] r@[c])@ == chunk(base_seq(old(s)@), num_chunks as int, c)
                &&& r@[c].num_vars == num_vars
                &&& r@[c].evaluations is Base
                &&& r@[c].spec_is_mut()
                &&& r@[c].evaluations->Base_0 is BorrowedMut
            },
        forall|parts: Seq<Seq<Goldilocks>>|
            parts.len() == num_chunks && (forall|c: int|
                0 <= c < num_chunks ==> match (#[trigger] r@[c]).evaluations {
                    FieldType::Base(SmartSlice::BorrowedMut(part)) => parts[c] == final(part)@,
                    _ => false,
                }) ==> #[trigger] parts.flatten_alt() == final(s)@,
{
    let ghost all = s@;
    let total: usize = s.len();
    let mut out: Vec<MultilinearExtension<'_>> = Vec::with_capacity(num_chunks);
    let mut rest = s;
    let mut c: usize = 0;
    while c < num_chunks
        invariant
            c <= num_chunks,
            total == all.len(),
            total % num_chunks == 0,
            size == total / num_chunks,
            size * c <= total,
            rest@ == all.skip(size * c),
            out@.len() == c,
            forall|k: int|
                0 <= k < c ==> {
                    &&& (#[trigger] out@[k])@ == chunk(base_seq(all), num_chunks as int, k)
                    &&& out@[k].num_vars == num_vars
                    &&& out@[k].evaluations is Base
                    &&& out@[k].spec_is_mut()
                    &&& out@[k].evaluations->Base_0 is BorrowedMut
                },
            forall|parts: Seq<Seq<Goldilocks>>|
                parts.len() == c && (forall|k: int|
                    0 <= k < c ==> match (#[trigger] out@[k]).evaluations {
                        FieldType::Base(SmartSlice::BorrowedMut(part)) => parts[k] == final(part)@,
                        _ => false,
                    }) ==> #[trigger] parts.flatten_alt() + final(rest)@ == final(s)@,
        decreases num_chunks - c,
    {
        proof {
            lemma_chunk_bounds(total as int, num_chunks as int, c as int);
            assert(size * (c + 1) == size * c + size) by (nonlinear_arith);
        }
        let ghost before = out@;
        let (head, tail) = rest.split_at_mut(size);
        assert(base_seq(head@) =~= chunk(base_seq(all), num_chunks as int, c as int));
        assert(tail@ =~= all.skip(size * (c + 1)));
        out.push(
            MultilinearExtension {
                evaluations: FieldType::Base(SmartSlice::BorrowedMut(head)),
                num_vars,
            },
        );
        rest = tail;
        proof {
            assert forall|parts: Seq<Seq<Goldilocks>>|
                parts.len() == c + 1 && (forall|k: int|
                    0 <= k < c + 1 ==> match (#[trigger] out@[k]).evaluations {
                        FieldType::Base(SmartSlice::BorrowedMut(part)) => parts[k] == final(part)@,
                        _ => false,
                    }) implies #[trigger] parts.flatten_alt() + final(rest)@ == final(s)@ by {
                let first = parts.drop_last();
                assert forall|k: int| 0 <= k < c implies match (#[trigger] before[k]).evaluations {
                    FieldType::Base(SmartSlice::BorrowedMut(part)) => first[k] == final(part)@,
                    _ => false,
                } by {
                    assert(out@[k] == before[k]);
                }
                assert(out@[c as int].evaluations is Base);
                assert(first.flatten_alt() + (parts.last() + final(rest)@) =~= parts.flatten_alt()
                    + final(rest)@);
            }
        }
        c = c + 1;
    }
    assert(size * num_chunks == total) by {
        lemma_fundamental_div_mod(total as int, num_chunks as int);
        vstd::arithmetic::mul::lemma_mul_is_commutative(size as int, num_chunks as int);
    }
    assert(rest@.len() == 0);
    out
}

fn ext_chunks(s: &mut [GoldilocksExt2], num_chunks: usize, size: usize, num_vars: usize) -> (r: Vec<
    MultilinearExtension<'_>,
>)
    requires
        num_chunks > 0,
        old(s)@.len() as int % num_chunks as int == 0,
        size == old(s)@.len() as int / num_chunks as int,
    ensures
        r@.len() == num_chunks,
        forall|c: int|
            0 <= c < num_chunks ==> {
                &&& (#[trigger] r@[c])@ == chunk(ext_seq(old(s)@), num_chunks as int, c)
                &&& r@[c].num_vars == num_vars
                &&& r@[c].evaluations is Ext
                &&& r@[c].spec_is_mut()
                &&& r@[c].evaluations->Ext_0 is BorrowedMut
            },
        forall|parts: Seq<Seq<GoldilocksExt2>>|
            parts.len() == num_chunks && (forall|c: int|
                0 <= c < num_chunks ==> match (#[trigger] r@[c]).evaluations {
                    FieldType::Ext(SmartSlice::BorrowedMut(part)) => parts[c] == final(part)@,
                    _ => false,
                }) ==> #[trigger] parts.flatten_alt() == final(s)@,
{
    let ghost all = s@;
    let total: usize = s.len();
    let mut out: Vec<MultilinearExtension<'_>> = Vec::with_capacity(num_chunks);
    let mut rest = s;
    let mut c: usize = 0;
    while c < num_chunks
        invariant
            c <= num_chunks,
            total == all.len(),
            total % num_chunks == 0,
            size == total / num_chunks,
            size * c <= total,
            rest@ == all.skip(size * c),
            out@.len() == c,
            forall|k: int|
                0 <= k < c ==> {
                    &&& (#[trigger] out@[k])@ == chunk(ext_seq(all), num_chunks as int, k)
                    &&& out@[k].num_vars == num_vars
                    &&& out@[k].evaluations is Ext
                    &&& out@[k].spec_is_mut()
                    &&& out@[k].evaluations->Ext_0 is BorrowedMut
                },
            forall|parts: Seq<Seq<GoldilocksExt2>>|
                parts.len() == c && (forall|k: int|
                    0 <= k < c ==> match (#[trigger] out@[k]).evaluations {
                        FieldType::Ext(SmartSlice::BorrowedMut(part)) => parts[k] == final(part)@,
                        _ => false,
                    }) ==> #[trigger] parts.flatten_alt() + final(rest)@ == final(s)@,
        decreases num_chunks - c,
    {
        proof {
            lemma_chunk_bounds(total as int, num_chunks as int, c as int);
            assert(size * (c + 1) == size * c + size) by (nonlinear_arith);
        }
        let ghost before = out@;
        let (head, tail) = rest.split_at_mut(size);
        assert(ext_seq(head@) =~= chunk(ext_seq(all), num_chunks as int, c as int));
        assert(tail@ =~= all.skip(size * (c + 1)));
        out.push(
            MultilinearExtension {
                evaluations: FieldType::Ext(SmartSlice::BorrowedMut(head)),
                num_vars,
            },
        );
        rest = tail;
        proof {
            assert forall|parts: Seq<Seq<GoldilocksExt2>>|
                parts.len() == c + 1 && (forall|k: int|
                    0 <= k < c + 1 ==> match (#[trigger] out@[k]).evaluations {
                        FieldType::Ext(SmartSlice::BorrowedMut(part)) => parts[k] == final(part)@,
                        _ => false,
                    }) implies #[trigger] parts.flatten_alt() + final(rest)@ == final(s)@ by {
                let first = parts.drop_last();
                assert forall|k: int| 0 <= k < c implies match (#[trigger] before[k]).evaluations {
                    FieldType::Ext(SmartSlice::BorrowedMut(part)) => first[k] == final(part)@,
                    _ => false,
                } by {
                    assert(out@[k] == before[k]);
                }
                assert(out@[c as int].evaluations is Ext);
                assert(first.flatten_alt() + (parts.last() + final(rest)@) =~= parts.flatten_alt()
                    + final(rest)@);
            }
        }
        c = c + 1;
    }
    assert(size * num_chunks == total) by {
        lemma_fundamental_div_mod(total as int, num_chunks as int);
        vstd::arithmetic::mul::lemma_mul_is_commutative(size as int, num_chunks as int);
    }
    assert(rest@.len() == 0);
    out
}

/// The entry of an instance, or zero past its end.
pub open spec fn padded_entry(val: Seq<Vec<Goldilocks>>, padded: int, pos: int) -> Ext {
    let (i, j) = (pos / padded, pos % padded);
    if j < val[i]@.len() {
        e_base(val[i]@[j]@)
    } else {
        e_zero()
    }
}

/// The number of entries of an instance, rounded up to a power of two.
pub open spec fn padded_size(val: Seq<Vec<Goldilocks>>) -> nat {
    pow2(spec_ceil_log2(val[0]@.len()))
}

/// The polynomial of instances one after the other, each padded with zeros to a power of two.
pub fn mle_from_instances(val: &Vec<Vec<Goldilocks>>) -> (r: MultilinearExtension<'static>)
    requires
        val@.len() > 0,
        forall|i: int| 0 <= i < val@.len() ==> (#[trigger] val@[i])@.len() == val@[0]@.len(),
        is_pow2((val@.len() * padded_size(val@)) as int),
        val@.len() * padded_size(val@) <= usize::MAX,
    ensures
        r.wf(),
        !r.is_ext(),
        r@.len() == val@.len() * padded_size(val@),
        forall|pos: int|
            0 <= pos < r@.len() ==> #[trigger] r@[pos] == padded_entry(
                val@,
                padded_size(val@) as int,
                pos,
            ),
{
    let n: usize = val.len();
    let size: usize = val[0].len();
    proof {
        lemma_ceil_log2(size as nat);
        lemma_pow2_pos(spec_ceil_log2(size as nat));
        assert(padded_size(val@) <= val@.len() * padded_size(val@)) by (nonlinear_arith)
            requires
                val@.len() >= 1,
        ;
    }
    let padded: usize = pow2_usize(ceil_log2(size));
    let mut evaluations: Vec<Goldilocks> = Vec::new();
    let mut i: usize = 0;
    while i < n
        invariant
            i <= n,
            n == val@.len(),
            size == val@[0]@.len(),
            size <= padded,
            padded == padded_size(val@),
            padded > 0,
            n * padded <= usize::MAX,
            forall|i: int| 0 <= i < val@.len() ==> (#[trigger] val@[i])@.len() == size,
            evaluations@.len() == i * padded,
            forall|pos: int|
                0 <= pos < evaluations@.len() ==> e_base((#[trigger] evaluations@[pos])@)
                    == padded_entry(val@, padded as int, pos),
        decreases n - i,
    {
        let ghost start = evaluations@.len() as int;
        let mut j: usize = 0;
        assert(val@[i as int]@.len() == size);
        while j < padded
            invariant
                i < n,
                n == val@.len(),
                j <= padded,
                size <= padded,
                padded > 0,
                size == val@[i as int]@.len(),
                start == i * padded,
                evaluations@.len() == start + j,
                forall|pos: int|
                    0 <= pos < evaluations@.len() ==> e_base((#[trigger] evaluations@[pos])@)
                        == padded_entry(val@, padded as int, pos),
            decreases padded - j,
        {
            proof {
                lemma_fundamental_div_mod_converse(start + j, padded as int, i as int, j as int);
            }
            if j < size {
                evaluations.push(val[i][j]);
            } else {
                evaluations.push(Goldilocks::zero());
            }
            j = j + 1;
        }
        assert(i * padded + padded == (i + 1) * padded) by (nonlinear_arith);
        i = i + 1;
    }
    proof {
        let k = choose|k: nat| evaluations@.len() == pow2(k);
        lemma_ceil_log2_pow2(k);
    }
    let num_vars: usize = ceil_log2(evaluations.len());
    MultilinearExtension::from_evaluations_vec(num_vars, evaluations)
}

/// Samples in the order in which they are drawn: one for each table, position after position.
pub open spec fn sample_at(samples: Seq<Goldilocks>, degree: int, t: int, row: int) -> Goldilocks {
    samples[row * degree + t]
}

proof fn lemma_sample_bound(row: int, t: int, degree: int, n: int)
    requires
        0 <= row < n,
        0 <= t < degree,
    ensures
        0 <= row * degree,
        row * degree + t < n * degree,
        row * degree <= n * degree,
{
    assert(0 <= row * degree && row * degree + degree <= n * degree) by (nonlinear_arith)
        requires
            0 <= row,
            row + 1 <= n,
            0 <= degree,
    ;
}

fn row_product(samples: &[Goldilocks], degree: usize, row: usize, n: usize) -> (r: GoldilocksExt2)
    requires
        row < n,
        samples@.len() == n * degree,
    ensures
        r@ == e_prod(
            Seq::new(
                degree as nat,
                |t: int| e_base(sample_at(samples@, degree as int, t, row as int)@),
            ),
        ),
{
    let total: usize = samples.len();
    let ghost values = Seq::new(
        degree as nat,
        |t: int| e_base(sample_at(samples@, degree as int, t, row as int)@),
    );
    let mut product = GoldilocksExt2::one();
    let mut t: usize = 0;
    assert(values.take(0) =~= Seq::empty());
    while t < degree
        invariant
            t <= degree,
            row < n,
            total == samples@.len(),
            total == n * degree,
            values == Seq::new(
                degree as nat,
                |t: int| e_base(sample_at(samples@, degree as int, t, row as int)@),
            ),
            product@ == e_prod(values.take(t as int)),
        decreases degree - t,
    {
        proof {
            lemma_sample_bound(row as int, t as int, degree as int, n as int);
        }
        product = product * GoldilocksExt2::from_base(samples[row * degree + t]);
        assert(values.take(t + 1).drop_last() =~= values.take(t as int));
        t = t + 1;
    }
    assert(values.take(degree as int) =~= values);
    product
}

fn sample_column(samples: &[Goldilocks], degree: usize, t: usize, n: usize) -> (r: Vec<Goldilocks>)
    requires
        t < degree,
        samples@.len() == n * degree,
    ensures
        r@ == Seq::new(n as nat, |row: int| sample_at(samples@, degree as int, t as int, row)),
{
    let total: usize = samples.len();
    let mut r: Vec<Goldilocks> = Vec::with_capacity(n);
    let mut row: usize = 0;
    while row < n
        invariant
            row <= n,
            t < degree,
            total == samples@.len(),
            total == n * degree,
            r@ == Seq::new(row as nat, |row: int| sample_at(samples@, degree as int, t as int, row)),
        decreases n - row,
    {
        proof {
            lemma_sample_bound(row as int, t as int, degree as int, n as int);
        }
        r.push(samples[row * degree + t]);
        row = row + 1;
        assert(r@ =~= Seq::new(
            row as nat,
            |row: int| sample_at(samples@, degree as int, t as int, row),
        ));
    }
    r
}

/// A walk through the instances of a table: parts of equal length.
pub struct InstanceIntoIterator<'a, T> {
    pub evaluations: &'a [T],
    pub start: usize,
    pub offset: usize,
}

/// What can be walked through in parts of equal length.
pub trait IntoInstanceIter<'a, T> {
    type IntoIter;

    /// The parts can have equal length.
    spec fn splits_into(&self, n_instances: usize) -> bool;

    /// Starts a walk through `n_instances` parts.
    fn into_instance_iter(&self, n_instances: usize) -> (r: Self::IntoIter)
        requires
            self.splits_into(n_instances),
    ;
}

impl<'a, T> IntoInstanceIter<'a, T> for &'a [T] {
    type IntoIter = InstanceIntoIterator<'a, T>;

    open spec fn splits_into(&self, n_instances: usize) -> bool {
        &&& n_instances > 0
        &&& self@.len() as int % n_instances as int == 0
    }

    fn into_instance_iter(&self, n_instances: usize) -> (r: InstanceIntoIterator<'a, T>)
        ensures
            r.evaluations@ == self@,
            r.start == 0,
            r.offset == self@.len() as int / n_instances as int,
    {
        InstanceIntoIterator { evaluations: *self, start: 0, offset: self.len() / n_instances }
    }
}

impl<'a, T> InstanceIntoIterator<'a, T> {
    /// The next instance, if there is one.
    pub fn next_instance(&mut self) -> (r: Option<&'a [T]>)
        requires
            old(self).start < old(self).evaluations@.len() ==> old(self).start + old(self).offset
                <= old(self).evaluations@.len(),
        ensures
            final(self).evaluations == old(self).evaluations,
            final(self).offset == old(self).offset,
            match r {
                None => {
                    &&& old(self).start >= old(self).evaluations@.len()
                    &&& final(self).start == old(self).start
                },
                Some(instance) => {
                    &&& old(self).start < old(self).evaluations@.len()
                    &&& instance@ == old(self).evaluations@.subrange(
                        old(self).start as int,
                        old(self).start + old(self).offset,
                    )
                    &&& final(self).start == old(self).start + old(self).offset
                },
            },
    {
        let total: usize = self.evaluations.len();
        if self.start >= total {
            None
        } else {
            let end: usize = self.start + self.offset;
            let instance = slice_subrange(self.evaluations, self.start, end);
            self.start = end;
            Some(instance)
        }
    }
}

/// A walk through the instances of a table that can be written to. `evaluations` is what is left.
pub struct InstanceIntoIteratorMut<'a, T> {
    pub evaluations: &'a mut [T],
    pub start: usize,
    pub offset: usize,
    pub origin_len: usize,
}

/// What can be walked through in parts of equal length that can be written to.
pub trait IntoInstanceIterMut<'a, T> {
    type IntoIterMut;

    /// The parts can have equal length.
    spec fn splits_into_mut(&self, n_instances: usize) -> bool;

    /// Starts a walk through `n_instances` parts.
    fn into_instance_iter_mut(&'a mut self, n_instances: usize) -> (r: Self::IntoIterMut)
        requires
            old(self).splits_into_mut(n_instances),
    ;
}

impl<'a, T: 'a> IntoInstanceIterMut<'a, T> for Vec<T> {
    type IntoIterMut = InstanceIntoIteratorMut<'a, T>;

    open spec fn splits_into_mut(&self, n_instances: usize) -> bool {
        &&& n_instances > 0
        &&& self@.len() as int % n_instances as int == 0
    }

    fn into_instance_iter_mut(&'a mut self, n_instances: usize) -> (r:
        InstanceIntoIteratorMut<'a, T>)
        ensures
            r.evaluations@ == old(self)@,
            final(self)@ == final(r.evaluations)@,
            r.start == 0,
            r.offset == old(self)@.len() as int / n_instances as int,
            r.origin_len == old(self)@.len(),
    {
        let origin_len: usize = self.len();
        InstanceIntoIteratorMut {
            evaluations: self.as_mut_slice(),
            start: 0,
            offset: origin_len / n_instances,
            origin_len,
        }
    }
}

impl<'a, T> InstanceIntoIteratorMut<'a, T> {
    /// The next instance, if there is one, and the rest of the walk. What is written to the
    /// instance and to the rest is written to the table.
    pub fn next_instance(self) -> (r: Option<(&'a mut [T], Self)>)
        requires
            self.start + self.evaluations@.len() == self.origin_len,
            self.start < self.origin_len ==> self.offset <= self.evaluations@.len(),
        ensures
            match r {
                None => self.start >= self.origin_len,
                Some((instance, rest)) => {
                    &&& self.start < self.origin_len
                    &&& instance@ == old(self.evaluations)@.take(self.offset as int)
                    &&& rest.evaluations@ == old(self.evaluations)@.skip(self.offset as int)
                    &&& final(self.evaluations)@ == final(instance)@ + final(rest.evaluations)@
                    &&& rest.start == self.start + self.offset
                    &&& rest.offset == self.offset
                    &&& rest.origin_len == self.origin_len
                },
            },
    {
        if self.start >= self.origin_len {
            None
        } else {
            let ghost table = self.evaluations@;
            let (head, tail) = self.evaluations.split_at_mut(self.offset);
            assert(head@ =~= table.take(self.offset as int));
            assert(tail@ =~= table.skip(self.offset as int));
            Some(
                (
                    head,
                    InstanceIntoIteratorMut {
                        evaluations: tail,
                        start: self.start + self.offset,
                        offset: self.offset,
                        origin_len: self.origin_len,
                    },
                ),
            )
        }
    }
}

/// The table of instances: each instance starts at a multiple of the padded size, which is the
/// least power of two that reaches its length, and is followed by zeros.
pub proof fn lemma_instances_table(val: Seq<Vec<Goldilocks>>, i: int, j: int)
    requires
        0 <= i < val.len(),
        val[i]@.len() == val[0]@.len(),
        0 <= j < padded_size(val),
    ensures
        is_pow2(padded_size(val) as int),
        val[0]@.len() <= padded_size(val),
        val[0]@.len() > 1 ==> padded_size(val) < 2 * val[0]@.len(),
        j < val[i]@.len() ==> padded_entry(
            val,
            padded_size(val) as int,
            i * padded_size(val) + j,
        ) == e_base(val[i]@[j]@),
        j >= val[i]@.len() ==> padded_entry(
            val,
            padded_size(val) as int,
            i * padded_size(val) + j,
        ) == e_zero(),
{
    let size = padded_size(val) as int;
    let log = spec_ceil_log2(val[0]@.len());
    lemma_ceil_log2(val[0]@.len());
    if log > 0 {
        lemma_pow2_unfold(log);
    }
    lemma_pow2_pos(log);
    lemma_fundamental_div_mod_converse(i * size + j, size, i, j);
}

/// The samples are drawn row by row: each sample is the entry of one table at one row.
pub proof fn lemma_samples_by_row(samples: Seq<Goldilocks>, degree: int, k: int)
    requires
        degree > 0,
        0 <= k < samples.len(),
    ensures
        0 <= k % degree < degree,
        sample_at(samples, degree, k % degree, k / degree) == samples[k],
        forall|t: int, row: int|
            0 <= t < degree && 0 <= row ==> #[trigger] sample_at(samples, degree, t, row)
                == samples[row * degree + t],
{
    lemma_fundamental_div_mod(k, degree);
    vstd::arithmetic::mul::lemma_mul_is_commutative(degree, k / degree);
}

} // verus!
