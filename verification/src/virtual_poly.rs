//! The equality polynomial and its tables.
use vstd::arithmetic::power2::*;
use vstd::prelude::*;

use crate::field::{e_add, e_mul, e_neg, e_one, e_sub, e_zero, group_field, Ext, GoldilocksExt2};
use crate::mle::{ext_seq, MultilinearExtension};
use crate::multilinear::{bit_point, eq_at, eq_bit, lemma_eq_at_valid};
use crate::ring::{
    lemma_e_add_assoc, lemma_e_add_comm, lemma_e_add_neg, lemma_e_add_zero, lemma_e_mul_add,
    lemma_e_mul_assoc, lemma_e_mul_comm, lemma_e_mul_neg, lemma_e_mul_one, lemma_e_mul_zero,
    lemma_e_neg_neg, lemma_e_sub_is_add_neg,
};
use crate::util::{is_pow2, lemma_pow2_monotone, lemma_trailing_zeros_pow2, trailing_zeros};

verus! {

broadcast use {group_field, lemma_eq_at_valid};

/// One factor of the equality polynomial: `x * y + (1 - x) * (1 - y)`.
pub open spec fn eq_factor(x: Ext, y: Ext) -> Ext {
    e_add(e_mul(x, y), e_mul(e_sub(e_one(), x), e_sub(e_one(), y)))
}

/// The equality polynomial `prod_i (x_i * y_i + (1 - x_i) * (1 - y_i))`.
pub open spec fn eq_poly(x: Seq<Ext>, y: Seq<Ext>) -> Ext
    decreases x.len(),
{
    if x.len() == 0 {
        e_one()
    } else {
        e_mul(eq_poly(x.drop_last(), y.drop_last()), eq_factor(x.last(), y.last()))
    }
}

/// `xy + xy - x - y + 1` is `xy + (1 - x)(1 - y)`.
proof fn lemma_eq_factor(x: Ext, y: Ext)
    ensures
        e_add(
            e_sub(e_sub(e_add(e_mul(x, y), e_mul(x, y)), x), y),
            e_one(),
        ) == eq_factor(x, y),
{
    let (nx, ny, xy, one) = (e_neg(x), e_neg(y), e_mul(x, y), e_one());
    // (1 - x)(1 - y) == (1 - y) + (xy - x)
    lemma_e_sub_is_add_neg(one, x);
    lemma_e_sub_is_add_neg(one, y);
    let u = e_add(one, ny);
    lemma_e_mul_add(u, one, nx);
    lemma_e_mul_one(u);
    lemma_e_mul_add(nx, one, ny);
    lemma_e_mul_one(nx);
    lemma_e_mul_neg(x, y);
    lemma_e_mul_neg(nx, y);
    lemma_e_neg_neg(xy);
    assert(e_mul(nx, ny) == xy);
    assert(eq_factor(x, y) == e_add(xy, e_add(u, e_add(nx, xy))));
    // ((xy + xy) - x) - y) + 1
    lemma_e_sub_is_add_neg(e_add(xy, xy), x);
    lemma_e_sub_is_add_neg(e_sub(e_add(xy, xy), x), y);
    let w = e_add(e_add(xy, xy), nx);
    lemma_e_add_assoc(w, ny, one);
    lemma_e_add_comm(ny, one);
    lemma_e_add_assoc(xy, xy, nx);
    lemma_e_add_comm(xy, nx);
    lemma_e_add_assoc(xy, e_add(nx, xy), u);
    lemma_e_add_comm(e_add(nx, xy), u);
}

/// Evaluates the equality polynomial.
pub fn eq_eval(x: &[GoldilocksExt2], y: &[GoldilocksExt2]) -> (r: GoldilocksExt2)
    requires
        x@.len() == y@.len(),
    ensures
        r@ == eq_poly(ext_seq(x@), ext_seq(y@)),
{
    let one = GoldilocksExt2::one();
    let mut res = GoldilocksExt2::one();
    let mut i: usize = 0;
    let ghost (xs, ys) = (ext_seq(x@), ext_seq(y@));
    while i < x.len()
        invariant
            i <= x@.len(),
            x@.len() == y@.len(),
            xs == ext_seq(x@),
            ys == ext_seq(y@),
            one@ == e_one(),
            res@ == eq_poly(xs.subrange(0, i as int), ys.subrange(0, i as int)),
        decreases x@.len() - i,
    {
        let xi_yi = x[i] * y[i];
        let factor = xi_yi + xi_yi - x[i] - y[i] + one;
        res = res * factor;
        proof {
            lemma_eq_factor(xs[i as int], ys[i as int]);
            assert(xs.subrange(0, i + 1).drop_last() =~= xs.subrange(0, i as int));
            assert(ys.subrange(0, i + 1).drop_last() =~= ys.subrange(0, i as int));
        }
        i = i + 1;
    }
    assert(xs.subrange(0, i as int) =~= xs);
    assert(ys.subrange(0, i as int) =~= ys);
    res
}

/// At boolean coordinates a factor is `y` or `1 - y`.
proof fn lemma_eq_factor_bit(y: Ext)
    requires
        y.valid(),
    ensures
        eq_factor(e_one(), y) == eq_bit(true, y),
        eq_factor(e_zero(), y) == eq_bit(false, y),
{
    lemma_e_mul_one(y);
    lemma_e_sub_is_add_neg(e_one(), e_one());
    lemma_e_add_neg(e_one());
    lemma_e_mul_zero(e_sub(e_one(), y));
    lemma_e_add_zero(y);
    lemma_e_mul_zero(y);
    lemma_e_sub_is_add_neg(e_one(), e_zero());
    assert(e_sub(e_one(), e_zero()) == e_one()) by {
        reveal(e_sub);
    }
    lemma_e_mul_one(e_sub(e_one(), y));
    lemma_e_add_zero(e_sub(e_one(), y));
}

/// The equality polynomial with its first factor split off.
pub proof fn lemma_eq_poly_first(x: Seq<Ext>, y: Seq<Ext>)
    requires
        x.len() == y.len(),
        x.len() > 0,
    ensures
        eq_poly(x, y) == e_mul(eq_factor(x[0], y[0]), eq_poly(x.drop_first(), y.drop_first())),
    decreases x.len(),
{
    let f = eq_factor(x[0], y[0]);
    if x.len() == 1 {
        assert(x.drop_first() =~= Seq::empty());
        assert(x.drop_last() =~= Seq::empty());
        assert(x.last() == x[0] && y.last() == y[0]);
        assert(eq_poly(x.drop_last(), y.drop_last()) == e_one());
        assert(eq_poly(x.drop_first(), y.drop_first()) == e_one());
        lemma_e_mul_one(f);
    } else {
        lemma_eq_poly_first(x.drop_last(), y.drop_last());
        let (xm, ym) = (x.drop_last().drop_first(), y.drop_last().drop_first());
        assert(x.drop_first().drop_last() =~= xm);
        assert(y.drop_first().drop_last() =~= ym);
        assert(eq_poly(x.drop_first(), y.drop_first()) == e_mul(
            eq_poly(xm, ym),
            eq_factor(x.last(), y.last()),
        ));
        lemma_e_mul_assoc(f, eq_poly(xm, ym), eq_factor(x.last(), y.last()));
    }
}

/// At a point of the hypercube the equality polynomial is the entry of its table.
pub proof fn lemma_eq_poly_on_hypercube(r: Seq<Ext>, i: int)
    requires
        forall|k: int| 0 <= k < r.len() ==> (#[trigger] r[k]).valid(),
    ensures
        bit_point(i, r.len()).len() == r.len(),
        eq_poly(bit_point(i, r.len()), r) == eq_at(r, i),
    decreases r.len(),
{
    if r.len() > 0 {
        let p = bit_point(i, r.len());
        assert(p.drop_first() =~= bit_point(i / 2, (r.len() - 1) as nat));
        lemma_eq_poly_on_hypercube(r.drop_first(), i / 2);
        lemma_eq_poly_first(p, r);
        lemma_eq_factor_bit(r[0]);
    }
}

/// The table `scalar * eq(x, r)` over the hypercube, by doubling: each coordinate of `r`, from the
/// last to the first, splits every entry into its parts for zero and for one.
pub fn build_eq_x_r_vec_sequential_with_scalar(
    r: &[GoldilocksExt2],
    scalar: GoldilocksExt2,
) -> (out: Vec<GoldilocksExt2>)
    requires
        pow2(r@.len()) <= usize::MAX,
    ensures
        out@.len() == pow2(r@.len()),
        forall|i: int|
            0 <= i < out@.len() ==> (#[trigger] out@[i])@ == e_mul(scalar@, eq_at(ext_seq(r@), i)),
{
    let ghost rs = ext_seq(r@);
    let mut buf: Vec<GoldilocksExt2> = Vec::new();
    buf.push(scalar);
    let mut m: usize = r.len();
    proof {
        lemma2_to64();
        lemma_e_mul_one(scalar@);
    }
    while m > 0
        invariant
            m <= r@.len(),
            rs == ext_seq(r@),
            pow2(r@.len()) <= usize::MAX,
            buf@.len() == pow2((r@.len() - m) as nat),
            forall|i: int|
                0 <= i < buf@.len() ==> (#[trigger] buf@[i])@ == e_mul(
                    scalar@,
                    eq_at(rs.subrange(m as int, rs.len() as int), i),
                ),
        decreases m,
    {
        let ghost tail = rs.subrange(m as int, rs.len() as int);
        m = m - 1;
        let ghost longer = rs.subrange(m as int, rs.len() as int);
        proof {
            lemma_pow2_unfold((r@.len() - m) as nat);
            lemma_pow2_monotone((r@.len() - m) as nat, r@.len());
            assert(longer.drop_first() =~= tail);
        }
        let size: usize = buf.len();
        let mut next: Vec<GoldilocksExt2> = Vec::with_capacity(2 * size);
        let mut j: usize = 0;
        while j < size
            invariant
                j <= size,
                size == buf@.len(),
                2 * size <= usize::MAX,
                m < r@.len(),
                rs == ext_seq(r@),
                tail == rs.subrange(m + 1, rs.len() as int),
                longer == rs.subrange(m as int, rs.len() as int),
                longer.drop_first() == tail,
                forall|i: int|
                    0 <= i < buf@.len() ==> (#[trigger] buf@[i])@ == e_mul(scalar@, eq_at(tail, i)),
                next@.len() == 2 * j,
                forall|i: int|
                    0 <= i < next@.len() ==> (#[trigger] next@[i])@ == e_mul(
                        scalar@,
                        eq_at(longer, i),
                    ),
            decreases size - j,
        {
            let prev = buf[j];
            let tmp = r[m] * prev;
            next.push(prev - tmp);
            next.push(tmp);
            proof {
                let w = eq_at(tail, j as int);
                lemma_split_entry(rs[m as int], scalar@, w);
                assert((2 * j) % 2 == 0 && (2 * j) / 2 == j);
                assert((2 * j + 1) % 2 == 1 && (2 * j + 1) / 2 == j);
                assert(longer[0] == rs[m as int]);
            }
            j = j + 1;
        }
        buf = next;
    }
    assert(rs.subrange(0, rs.len() as int) =~= rs);
    buf
}

/// Splitting `s * w` at the coordinate `r`.
proof fn lemma_split_entry(r: Ext, s: Ext, w: Ext)
    requires
        w.valid(),
    ensures
        e_mul(r, e_mul(s, w)) == e_mul(s, e_mul(eq_bit(true, r), w)),
        e_sub(e_mul(s, w), e_mul(r, e_mul(s, w))) == e_mul(s, e_mul(eq_bit(false, r), w)),
{
    lemma_e_mul_assoc(r, s, w);
    lemma_e_mul_comm(r, s);
    lemma_e_mul_assoc(s, r, w);
    // (1 - r) * w == w - r * w
    lemma_e_sub_is_add_neg(e_one(), r);
    lemma_e_mul_add(w, e_one(), e_neg(r));
    lemma_e_mul_one(w);
    lemma_e_mul_neg(r, w);
    lemma_e_mul_add(s, w, e_neg(e_mul(r, w)));
    lemma_e_mul_neg(s, e_mul(r, w));
    lemma_e_sub_is_add_neg(e_mul(s, w), e_mul(s, e_mul(r, w)));
}

/// The table of `eq(x, r)` over the hypercube.
pub fn build_eq_x_r_vec_sequential(r: &[GoldilocksExt2]) -> (out: Vec<GoldilocksExt2>)
    requires
        pow2(r@.len()) <= usize::MAX,
    ensures
        out@.len() == pow2(r@.len()),
        forall|i: int| 0 <= i < out@.len() ==> (#[trigger] out@[i])@ == eq_at(ext_seq(r@), i),
{
    let out = build_eq_x_r_vec_sequential_with_scalar(r, GoldilocksExt2::one());
    proof {
        assert forall|i: int| 0 <= i < out@.len() implies (#[trigger] out@[i])@ == eq_at(
            ext_seq(r@),
            i,
        ) by {
            lemma_e_mul_one(eq_at(ext_seq(r@), i));
        }
    }
    out
}

/// The equality polynomial of `r` as a multilinear extension.
pub fn build_eq_x_r_sequential(r: &[GoldilocksExt2]) -> (out: MultilinearExtension<'static>)
    requires
        pow2(r@.len()) <= usize::MAX,
    ensures
        out.wf(),
        out.is_ext(),
        out.num_vars == r@.len(),
        forall|i: int| 0 <= i < out@.len() ==> #[trigger] out@[i] == eq_at(ext_seq(r@), i),
{
    let evals = build_eq_x_r_vec_sequential(r);
    MultilinearExtension::from_evaluations_ext_vec(r.len(), evals)
}

/// The equality polynomial of two halves: the low bits of the index go with the first part of `r`
/// and the high bits with the rest.
pub proof fn lemma_eq_at_split(r: Seq<Ext>, k: int, i: int)
    requires
        0 <= k <= r.len(),
        i >= 0,
    ensures
        eq_at(r, i) == e_mul(
            eq_at(r.subrange(0, k), i % (pow2(k as nat) as int)),
            eq_at(r.subrange(k, r.len() as int), i / (pow2(k as nat) as int)),
        ),
    decreases k,
{
    lemma2_to64();
    let hi = r.subrange(k, r.len() as int);
    if k == 0 {
        assert(hi =~= r);
        lemma_e_mul_one(eq_at(r, i));
        assert(i % 1 == 0 && i / 1 == i);
    } else {
        let rest = r.drop_first();
        let p = pow2((k - 1) as nat) as int;
        let lo = r.subrange(0, k);
        lemma_pow2_unfold(k as nat);
        lemma_pow2_pos((k - 1) as nat);
        lemma_eq_at_split(rest, k - 1, i / 2);
        assert(rest.subrange(0, k - 1) =~= lo.drop_first());
        assert(rest.subrange(k - 1, rest.len() as int) =~= hi);
        vstd::arithmetic::div_mod::lemma_div_denominator(i, 2, p);
        assert(i / 2 / p == i / (2 * p));
        assert((i % (2 * p)) % 2 == i % 2 && (i % (2 * p)) / 2 == (i / 2) % p) by {
            vstd::arithmetic::div_mod::lemma_fundamental_div_mod(i, 2 * p);
            vstd::arithmetic::div_mod::lemma_fundamental_div_mod(i / 2, p);
            let q = i / (2 * p);
            let m = i % (2 * p);
            assert(2 * p * q == 2 * (p * q)) by (nonlinear_arith);
            vstd::arithmetic::div_mod::lemma_mod_bound(i, 2 * p);
            assert(i == 2 * (p * q) + m);
            assert(i / 2 == p * q + m / 2);
            assert(0 <= m / 2 < p);
            vstd::arithmetic::div_mod::lemma_fundamental_div_mod_converse(i / 2, p, q, m / 2);
        }
        lemma_e_mul_assoc(
            eq_bit(i % 2 == 1, r[0]),
            eq_at(lo.drop_first(), (i / 2) % p),
            eq_at(hi, i / (2 * p)),
        );
    }
}

/// The table `scalar * eq(x, r)`, in `nthreads` independent parts where `r` is long enough: part
/// `t` holds the entries whose high bits spell `t`.
pub fn build_eq_x_r_vec_with_scalar(
    r: &[GoldilocksExt2],
    scalar: GoldilocksExt2,
    nthreads: usize,
) -> (out: Vec<GoldilocksExt2>)
    requires
        pow2(r@.len()) <= usize::MAX,
        is_pow2(nthreads as int),
    ensures
        out@.len() == pow2(r@.len()),
        forall|i: int|
            0 <= i < out@.len() ==> (#[trigger] out@[i])@ == e_mul(scalar@, eq_at(ext_seq(r@), i)),
{
    let ghost log = choose|n: nat| nthreads == #[trigger] pow2(n);
    proof {
        lemma_trailing_zeros_pow2(log);
        lemma_pow2_pos(log);
    }
    let nbits: usize = trailing_zeros(nthreads);
    if r.len() < nbits {
        return build_eq_x_r_vec_sequential_with_scalar(r, scalar);
    }
    let low: usize = r.len() - nbits;
    let ghost rs = ext_seq(r@);
    let ghost (lo, hi) = (rs.subrange(0, low as int), rs.subrange(low as int, rs.len() as int));
    let ghost p = pow2(low as nat) as int;
    proof {
        lemma_pow2_adds(low as nat, nbits as nat);
        lemma_pow2_monotone(low as nat, r@.len());
        lemma_pow2_monotone(nbits as nat, r@.len());
        lemma_pow2_pos(low as nat);
    }
    let r_lo = vstd::slice::slice_subrange(r, 0, low);
    let r_hi = vstd::slice::slice_subrange(r, low, r.len());
    assert(ext_seq(r_lo@) =~= lo);
    assert(ext_seq(r_hi@) =~= hi);
    let eq_ts = build_eq_x_r_vec_sequential_with_scalar(r_hi, scalar);
    let mut out: Vec<GoldilocksExt2> = Vec::new();
    let mut t: usize = 0;
    proof {
        assert(p * 0 == 0);
    }
    while t < nthreads
        invariant
            t <= nthreads,
            nthreads == pow2(nbits as nat),
            nthreads == eq_ts@.len(),
            rs == ext_seq(r@),
            low == rs.len() - nbits,
            0 <= low <= rs.len(),
            lo == rs.subrange(0, low as int),
            hi == rs.subrange(low as int, rs.len() as int),
            ext_seq(r_lo@) == lo,
            r_lo@.len() == low,
            p == pow2(low as nat),
            p > 0,
            pow2(low as nat) <= usize::MAX,
            p * nthreads <= usize::MAX,
            forall|i: int|
                0 <= i < eq_ts@.len() ==> (#[trigger] eq_ts@[i])@ == e_mul(scalar@, eq_at(hi, i)),
            out@.len() == p * t,
            forall|i: int|
                0 <= i < out@.len() ==> (#[trigger] out@[i])@ == e_mul(scalar@, eq_at(rs, i)),
        decreases nthreads - t,
    {
        let mut part = build_eq_x_r_vec_sequential_with_scalar(r_lo, eq_ts[t]);
        let ghost before = out@;
        let ghost chunk = part@;
        proof {
            assert(p * t + p == p * (t + 1)) by (nonlinear_arith);
            assert(p * (t + 1) <= p * nthreads) by (nonlinear_arith)
                requires
                    t + 1 <= nthreads,
                    p > 0,
            ;
        }
        out.append(&mut part);
        proof {
            assert(lo.len() == low);
            assert forall|i: int| 0 <= i < out@.len() implies (#[trigger] out@[i])@ == e_mul(
                scalar@,
                eq_at(rs, i),
            ) by {
                if i < p * t {
                    assert(out@[i] == before[i]);
                } else {
                    let j = i - p * t;
                    assert(out@[i] == chunk[j]);
                    assert(p * t == t * p) by (nonlinear_arith);
                    vstd::arithmetic::div_mod::lemma_fundamental_div_mod_converse(i, p, t as int, j);
                    lemma_eq_at_split(rs, low as int, i);
                    lemma_e_mul_assoc(scalar@, eq_at(hi, t as int), eq_at(lo, j));
                    lemma_e_mul_comm(eq_at(hi, t as int), eq_at(lo, j));
                }
            }
        }
        t = t + 1;
    }
    out
}

/// The table of `eq(x, r)`, in `nthreads` independent parts where `r` is long enough.
pub fn build_eq_x_r_vec(r: &[GoldilocksExt2], nthreads: usize) -> (out: Vec<GoldilocksExt2>)
    requires
        pow2(r@.len()) <= usize::MAX,
        is_pow2(nthreads as int),
    ensures
        out@.len() == pow2(r@.len()),
        forall|i: int| 0 <= i < out@.len() ==> (#[trigger] out@[i])@ == eq_at(ext_seq(r@), i),
{
    let out = build_eq_x_r_vec_with_scalar(r, GoldilocksExt2::one(), nthreads);
    proof {
        assert forall|i: int| 0 <= i < out@.len() implies (#[trigger] out@[i])@ == eq_at(
            ext_seq(r@),
            i,
        ) by {
            lemma_e_mul_one(eq_at(ext_seq(r@), i));
        }
    }
    out
}

/// The equality polynomial of `r` as a multilinear extension.
pub fn build_eq_x_r(r: &[GoldilocksExt2], nthreads: usize) -> (out: MultilinearExtension<'static>)
    requires
        pow2(r@.len()) <= usize::MAX,
        is_pow2(nthreads as int),
    ensures
        out.wf(),
        out.is_ext(),
        out.num_vars == r@.len(),
        forall|i: int| 0 <= i < out@.len() ==> #[trigger] out@[i] == eq_at(ext_seq(r@), i),
{
    let evals = build_eq_x_r_vec(r, nthreads);
    MultilinearExtension::from_evaluations_ext_vec(r.len(), evals)
}

} // verus!
