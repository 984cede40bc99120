//! Multilinear polynomials given by their values on the boolean hypercube.
//!
//! The table of a polynomial in `n` variables has `2^n` entries; the entry at index `i` is the
//! value at the point whose coordinates are the bits of `i`, lowest bit first.
use vstd::arithmetic::power2::*;
use vstd::prelude::*;

use crate::field::{e_add, e_mul, e_neg, e_one, e_sub, e_zero, group_field, Ext};
use crate::ring::{
    lemma_e_add_assoc, lemma_e_add_comm, lemma_e_add_neg, lemma_e_add_zero, lemma_e_mul_add,
    lemma_e_mul_assoc, lemma_e_mul_comm, lemma_e_mul_neg, lemma_e_mul_one, lemma_e_mul_zero,
    lemma_e_sub_is_add_neg,
};

verus! {

broadcast use group_field;

/// The value at `r` of the line through `a` at zero and `b` at one.
pub open spec fn lerp(a: Ext, b: Ext, r: Ext) -> Ext {
    e_add(e_mul(r, e_sub(b, a)), a)
}

/// The table with the first variable fixed at `r`.
pub open spec fn fix_first(s: Seq<Ext>, r: Ext) -> Seq<Ext> {
    Seq::new(s.len() / 2, |i: int| lerp(s[2 * i], s[2 * i + 1], r))
}

/// The table with the leading variables fixed at `point`.
pub open spec fn fix_all(s: Seq<Ext>, point: Seq<Ext>) -> Seq<Ext>
    decreases point.len(),
{
    if point.len() == 0 {
        s
    } else {
        fix_all(fix_first(s, point[0]), point.drop_first())
    }
}

/// The value of the multilinear extension of the table `s` at `point`.
pub open spec fn mle_eval(s: Seq<Ext>, point: Seq<Ext>) -> Ext {
    fix_all(s, point)[0]
}

/// One factor of the equality polynomial at a boolean coordinate: `r` for one, `1 - r` for zero.
pub open spec fn eq_bit(bit: bool, r: Ext) -> Ext {
    if bit {
        r
    } else {
        e_sub(e_one(), r)
    }
}

/// `prod_k (x_k * r_k + (1 - x_k) * (1 - r_k))` where the `x_k` are the bits of `i`.
pub open spec fn eq_at(r: Seq<Ext>, i: int) -> Ext
    decreases r.len(),
{
    if r.len() == 0 {
        e_one()
    } else {
        e_mul(eq_bit(i % 2 == 1, r[0]), eq_at(r.drop_first(), i / 2))
    }
}

/// The sum of a sequence.
pub open spec fn e_sum(s: Seq<Ext>) -> Ext
    decreases s.len(),
{
    if s.len() == 0 {
        e_zero()
    } else {
        e_add(e_sum(s.drop_last()), s.last())
    }
}

/// The product of a sequence.
pub open spec fn e_prod(s: Seq<Ext>) -> Ext
    decreases s.len(),
{
    if s.len() == 0 {
        e_one()
    } else {
        e_mul(e_prod(s.drop_last()), s.last())
    }
}

/// All entries are valid values.
pub open spec fn all_valid(s: Seq<Ext>) -> bool {
    forall|i: int| 0 <= i < s.len() ==> (#[trigger] s[i]).valid()
}

/// The terms of the inner product with the equality polynomial.
pub open spec fn eq_terms(s: Seq<Ext>, r: Seq<Ext>) -> Seq<Ext> {
    Seq::new(s.len(), |i: int| e_mul(s[i], eq_at(r, i)))
}

pub broadcast proof fn lemma_e_sum_valid(s: Seq<Ext>)
    ensures
        (#[trigger] e_sum(s)).valid(),
{
}

pub broadcast proof fn lemma_eq_at_valid(r: Seq<Ext>, i: int)
    ensures
        (#[trigger] eq_at(r, i)).valid(),
{
}

/// Fixing variables keeps entries valid.
pub proof fn lemma_fix_all_valid(s: Seq<Ext>, point: Seq<Ext>)
    requires
        all_valid(s),
    ensures
        all_valid(fix_all(s, point)),
    decreases point.len(),
{
    if point.len() > 0 {
        assert(all_valid(fix_first(s, point[0])));
        lemma_fix_all_valid(fix_first(s, point[0]), point.drop_first());
    }
}

/// Each fixed variable halves the table.
pub proof fn lemma_fix_all_len(s: Seq<Ext>, point: Seq<Ext>, n: nat)
    requires
        s.len() == pow2(n),
        point.len() <= n,
    ensures
        fix_all(s, point).len() == pow2((n - point.len()) as nat),
    decreases point.len(),
{
    if point.len() > 0 {
        lemma_pow2_unfold(n);
        lemma_fix_all_len(fix_first(s, point[0]), point.drop_first(), (n - 1) as nat);
    }
}

/// Fixing the variables of `p` and then those of `q` is fixing those of `p + q`.
pub proof fn lemma_fix_all_append(s: Seq<Ext>, p: Seq<Ext>, q: Seq<Ext>)
    ensures
        fix_all(fix_all(s, p), q) == fix_all(s, p + q),
    decreases p.len(),
{
    if p.len() == 0 {
        assert(p + q =~= q);
    } else {
        assert((p + q).drop_first() =~= p.drop_first() + q);
        lemma_fix_all_append(fix_first(s, p[0]), p.drop_first(), q);
    }
}

/// The line between `a` and `b` is the combination with weights `1 - r` and `r`.
pub proof fn lemma_lerp_weights(a: Ext, b: Ext, r: Ext)
    requires
        a.valid(),
    ensures
        lerp(a, b, r) == e_add(e_mul(a, eq_bit(false, r)), e_mul(b, eq_bit(true, r))),
{
    // r * (b - a) + a == (r * b + a) - r * a
    lemma_e_sub_is_add_neg(b, a);
    lemma_e_mul_add(r, b, e_neg(a));
    lemma_e_mul_neg(r, a);
    let rb = e_mul(r, b);
    let ra = e_mul(r, a);
    lemma_e_add_assoc(rb, e_neg(ra), a);
    lemma_e_add_comm(rb, e_add(e_neg(ra), a));
    lemma_e_add_comm(e_neg(ra), a);
    // a * (1 - r) == a - a * r
    lemma_e_sub_is_add_neg(e_one(), r);
    lemma_e_mul_add(a, e_one(), e_neg(r));
    lemma_e_mul_one(a);
    lemma_e_mul_neg(a, r);
    lemma_e_mul_comm(a, r);
    lemma_e_mul_comm(b, r);
}

/// The sum of an even number of terms, in pairs.
pub proof fn lemma_e_sum_pairs(s: Seq<Ext>, t: Seq<Ext>)
    requires
        s.len() == 2 * t.len(),
        forall|j: int| 0 <= j < t.len() ==> #[trigger] t[j] == e_add(s[2 * j], s[2 * j + 1]),
    ensures
        e_sum(s) == e_sum(t),
    decreases t.len(),
{
    if t.len() > 0 {
        let n = t.len() as int;
        let s1 = s.drop_last();
        let s2 = s1.drop_last();
        lemma_e_sum_pairs(s2, t.drop_last());
        lemma_e_add_assoc(e_sum(s2), s[2 * n - 2], s[2 * n - 1]);
        assert(t[n - 1] == e_add(s[2 * (n - 1)], s[2 * (n - 1) + 1]));
        assert(e_sum(s1) == e_add(e_sum(s2), s[2 * n - 2]));
        assert(e_sum(s) == e_add(e_sum(s1), s[2 * n - 1]));
    }
}

/// The multilinear extension at a point is the inner product of its table with the equality
/// polynomial of the point.
pub proof fn lemma_mle_eval_is_eq_sum(s: Seq<Ext>, point: Seq<Ext>)
    requires
        s.len() == pow2(point.len()),
        all_valid(s),
    ensures
        mle_eval(s, point) == e_sum(eq_terms(s, point)),
    decreases point.len(),
{
    broadcast use lemma_eq_at_valid;

    lemma2_to64();
    if point.len() == 0 {
        let t = eq_terms(s, point);
        lemma_e_mul_one(s[0]);
        assert(t.drop_last() =~= Seq::empty());
        assert(e_sum(t.drop_last()) == e_zero());
        lemma_e_add_zero(s[0]);
    } else {
        let r = point[0];
        let rest = point.drop_first();
        let u = fix_first(s, r);
        lemma_pow2_unfold(point.len());
        assert(all_valid(u));
        lemma_mle_eval_is_eq_sum(u, rest);
        let big = eq_terms(s, point);
        let small = eq_terms(u, rest);
        assert forall|j: int| 0 <= j < small.len() implies #[trigger] small[j] == e_add(
            big[2 * j],
            big[2 * j + 1],
        ) by {
            let w = eq_at(rest, j);
            lemma_lerp_weights(s[2 * j], s[2 * j + 1], r);
            lemma_e_mul_add(
                w,
                e_mul(s[2 * j], eq_bit(false, r)),
                e_mul(s[2 * j + 1], eq_bit(true, r)),
            );
            lemma_e_mul_assoc(s[2 * j], eq_bit(false, r), w);
            lemma_e_mul_assoc(s[2 * j + 1], eq_bit(true, r), w);
            assert((2 * j) % 2 == 0 && (2 * j) / 2 == j);
            assert((2 * j + 1) % 2 == 1 && (2 * j + 1) / 2 == j);
        }
        lemma_e_sum_pairs(big, small);
    }
}

/// The coordinates of the hypercube point with index `i`.
pub open spec fn bit_point(i: int, n: nat) -> Seq<Ext>
    decreases n,
{
    if n == 0 {
        Seq::empty()
    } else {
        seq![if i % 2 == 1 { e_one() } else { e_zero() }] + bit_point(i / 2, (n - 1) as nat)
    }
}

/// At a point of the hypercube the multilinear extension has the value of its table.
pub proof fn lemma_mle_eval_on_hypercube(s: Seq<Ext>, i: int, n: nat)
    requires
        s.len() == pow2(n),
        0 <= i < s.len(),
        all_valid(s),
    ensures
        bit_point(i, n).len() == n,
        mle_eval(s, bit_point(i, n)) == s[i],
    decreases n,
{
    lemma2_to64();
    if n > 0 {
        lemma_pow2_unfold(n);
        let p = bit_point(i, n);
        let j = i / 2;
        let u = fix_first(s, p[0]);
        assert(p.drop_first() =~= bit_point(j, (n - 1) as nat));
        assert(all_valid(u));
        lemma_mle_eval_on_hypercube(u, j, (n - 1) as nat);
        lemma_lerp_ends(s[2 * j], s[2 * j + 1]);
    }
}

/// A line passes through its two points.
pub proof fn lemma_lerp_ends(a: Ext, b: Ext)
    requires
        a.valid(),
        b.valid(),
    ensures
        lerp(a, b, e_zero()) == a,
        lerp(a, b, e_one()) == b,
{
    lemma_e_mul_zero(e_sub(b, a));
    lemma_e_add_zero(a);
    lemma_e_mul_one(e_sub(b, a));
    lemma_e_sub_is_add_neg(b, a);
    lemma_e_add_assoc(b, e_neg(a), a);
    lemma_e_add_comm(e_neg(a), a);
    lemma_e_add_neg(a);
    lemma_e_add_zero(b);
}

} // verus!
