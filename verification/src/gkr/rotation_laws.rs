//! What rotating the blocks of a table does to its multilinear extension.
use vstd::arithmetic::div_mod::*;
use vstd::arithmetic::power2::*;
use vstd::prelude::*;

use crate::expression::laws::lemma_add_exchange;
use crate::field::{e_add, e_mul, e_neg, e_one, e_sub, e_zero, group_field, Ext};
use crate::gkr::booleanhypercube::{
    cycle, flip_second, lemma_cycle, lemma_position, next_point, position,
};
use crate::multilinear::{
    all_valid, e_sum, eq_at, eq_bit, eq_terms, fix_all, fix_first, lemma_e_sum_valid,
    lemma_eq_at_valid, lemma_fix_all_append, lemma_fix_all_len, lemma_fix_all_valid,
    lemma_lerp_ends, lemma_lerp_weights, lemma_mle_eval_is_eq_sum, lerp, mle_eval,
};
use crate::ring::{
    lemma_e_add_assoc, lemma_e_add_comm, lemma_e_add_neg, lemma_e_add_zero, lemma_e_mul_add,
    lemma_e_mul_assoc, lemma_e_mul_comm, lemma_e_mul_zero, lemma_e_neg_add, lemma_e_neg_neg,
    lemma_e_sub_is_add_neg,
};
use crate::virtual_poly::{eq_factor, eq_poly, lemma_eq_at_split, lemma_eq_poly_first};

verus! {

broadcast use {group_field, lemma_eq_at_valid, lemma_e_sum_valid};

/// `1 - (1 - r)` is `r`.
proof fn lemma_one_minus(r: Ext)
    requires
        r.valid(),
    ensures
        e_sub(e_one(), e_sub(e_one(), r)) == r,
{
    let (one, n) = (e_one(), e_neg(r));
    lemma_e_sub_is_add_neg(one, r);
    lemma_e_sub_is_add_neg(one, e_add(one, n));
    lemma_e_neg_add(one, n);
    lemma_e_neg_neg(r);
    lemma_e_add_assoc(one, e_neg(one), r);
    lemma_e_add_neg(one);
    lemma_e_add_zero(r);
}

/// A line run through backwards.
pub proof fn lemma_lerp_swap(a: Ext, b: Ext, r: Ext)
    requires
        a.valid(),
        b.valid(),
        r.valid(),
    ensures
        lerp(b, a, r) == lerp(a, b, e_sub(e_one(), r)),
{
    lemma_lerp_weights(b, a, r);
    lemma_lerp_weights(a, b, e_sub(e_one(), r));
    lemma_one_minus(r);
    lemma_e_add_comm(e_mul(b, eq_bit(false, r)), e_mul(a, eq_bit(true, r)));
}

proof fn lemma_mul_swap(a: Ext, x: Ext, y: Ext)
    ensures
        e_mul(e_mul(a, x), y) == e_mul(e_mul(a, y), x),
{
    lemma_e_mul_assoc(a, x, y);
    lemma_e_mul_comm(x, y);
    lemma_e_mul_assoc(a, y, x);
}

/// Interpolating between lines is interpolating along lines.
pub proof fn lemma_lerp_exchange(a0: Ext, b0: Ext, a1: Ext, b1: Ext, w: Ext, r: Ext)
    requires
        a0.valid(),
        b0.valid(),
        a1.valid(),
        b1.valid(),
    ensures
        lerp(lerp(a0, b0, w), lerp(a1, b1, w), r) == lerp(lerp(a0, a1, r), lerp(b0, b1, r), w),
{
    let (w0, w1) = (eq_bit(false, w), eq_bit(true, w));
    let (r0, r1) = (eq_bit(false, r), eq_bit(true, r));
    lemma_lerp_weights(a0, b0, w);
    lemma_lerp_weights(a1, b1, w);
    lemma_lerp_weights(lerp(a0, b0, w), lerp(a1, b1, w), r);
    lemma_lerp_weights(a0, a1, r);
    lemma_lerp_weights(b0, b1, r);
    lemma_lerp_weights(lerp(a0, a1, r), lerp(b0, b1, r), w);
    lemma_e_mul_add(r0, e_mul(a0, w0), e_mul(b0, w1));
    lemma_e_mul_add(r1, e_mul(a1, w0), e_mul(b1, w1));
    lemma_e_mul_add(w0, e_mul(a0, r0), e_mul(a1, r1));
    lemma_e_mul_add(w1, e_mul(b0, r0), e_mul(b1, r1));
    lemma_mul_swap(a0, w0, r0);
    lemma_mul_swap(b0, w1, r0);
    lemma_mul_swap(a1, w0, r1);
    lemma_mul_swap(b1, w1, r1);
    lemma_add_exchange(
        e_mul(e_mul(a0, w0), r0),
        e_mul(e_mul(b0, w1), r0),
        e_mul(e_mul(a1, w0), r1),
        e_mul(e_mul(b1, w1), r1),
    );
}

/// Entrywise interpolation of two tables.
pub open spec fn mix(a: Seq<Ext>, b: Seq<Ext>, w: Ext) -> Seq<Ext> {
    Seq::new(a.len(), |i: int| lerp(a[i], b[i], w))
}

/// Fixing variables commutes with entrywise interpolation.
proof fn lemma_fix_mix(a: Seq<Ext>, b: Seq<Ext>, w: Ext, point: Seq<Ext>)
    requires
        a.len() == b.len(),
        all_valid(a),
        all_valid(b),
    ensures
        fix_all(mix(a, b, w), point) == mix(fix_all(a, point), fix_all(b, point), w),
    decreases point.len(),
{
    if point.len() > 0 {
        let r = point[0];
        let (fa, fb) = (fix_first(a, r), fix_first(b, r));
        assert(fix_first(mix(a, b, w), r) =~= mix(fa, fb, w)) by {
            assert forall|i: int| 0 <= i < fa.len() implies fix_first(mix(a, b, w), r)[i] == #[trigger] mix(
                fa,
                fb,
                w,
            )[i] by {
                lemma_lerp_exchange(a[2 * i], b[2 * i], a[2 * i + 1], b[2 * i + 1], w, r);
            }
        }
        lemma_fix_mix(fa, fb, w, point.drop_first());
    }
}

/// A table times a scalar.
pub open spec fn scaled(k: Ext, s: Seq<Ext>) -> Seq<Ext> {
    Seq::new(s.len(), |i: int| e_mul(k, s[i]))
}

proof fn lemma_lerp_scale(k: Ext, a: Ext, b: Ext, r: Ext)
    requires
        a.valid(),
    ensures
        lerp(e_mul(k, a), e_mul(k, b), r) == e_mul(k, lerp(a, b, r)),
{
    lemma_lerp_weights(a, b, r);
    lemma_lerp_weights(e_mul(k, a), e_mul(k, b), r);
    let (x, y) = (eq_bit(false, r), eq_bit(true, r));
    lemma_e_mul_add(k, e_mul(a, x), e_mul(b, y));
    lemma_e_mul_assoc(k, a, x);
    lemma_e_mul_assoc(k, b, y);
}

/// Fixing variables commutes with scaling.
proof fn lemma_fix_scaled(k: Ext, s: Seq<Ext>, point: Seq<Ext>)
    requires
        all_valid(s),
    ensures
        fix_all(scaled(k, s), point) == scaled(k, fix_all(s, point)),
    decreases point.len(),
{
    if point.len() > 0 {
        let r = point[0];
        let f = fix_first(s, r);
        assert(fix_first(scaled(k, s), r) =~= scaled(k, f)) by {
            assert forall|i: int| 0 <= i < f.len() implies fix_first(scaled(k, s), r)[i]
                == #[trigger] scaled(k, f)[i] by {
                lemma_lerp_scale(k, s[2 * i], s[2 * i + 1], r);
            }
        }
        lemma_fix_scaled(k, f, point.drop_first());
    }
}

/// A block of a table.
pub open spec fn block(s: Seq<Ext>, size: int, c: int) -> Seq<Ext> {
    Seq::new(size as nat, |i: int| s[size * c + i])
}

/// Fixing as many variables as a block has fixes them in each block.
pub proof fn lemma_fix_block(s: Seq<Ext>, point: Seq<Ext>, c: int)
    requires
        0 <= c,
        pow2(point.len()) * (c + 1) <= s.len(),
        s.len() % pow2(point.len()) == 0,
    ensures
        c < fix_all(s, point).len(),
        fix_all(s, point)[c] == mle_eval(block(s, pow2(point.len()) as int, c), point),
    decreases point.len(),
{
    lemma2_to64();
    if point.len() == 0 {
        assert(1 * (c + 1) == c + 1 && 1 * c == c);
        assert(block(s, 1, c)[0] == s[c]);
    } else {
        let r = point[0];
        let rest = point.drop_first();
        let h = pow2(rest.len()) as int;
        lemma_pow2_unfold(point.len());
        lemma_pow2_pos(rest.len());
        let f = fix_first(s, r);
        lemma_half_blocks(s.len() as int, h, c);
        lemma_fix_block(f, rest, c);
        assert(fix_first(block(s, 2 * h, c), r) =~= block(f, h, c)) by {
            assert forall|i: int| 0 <= i < h implies fix_first(block(s, 2 * h, c), r)[i]
                == #[trigger] block(f, h, c)[i] by {
                assert(2 * h * c + 2 * i == 2 * (h * c + i)) by (nonlinear_arith);
                assert(0 <= h * c + i < f.len()) by (nonlinear_arith)
                    requires
                        0 <= i < h,
                        0 <= c,
                        h * (c + 1) <= f.len(),
                ;
            }
        }
    }
}

proof fn lemma_half_blocks(n: int, h: int, c: int)
    requires
        h > 0,
        n >= 0,
        c >= 0,
        2 * h * (c + 1) <= n,
        n % (2 * h) == 0,
    ensures
        h * (c + 1) <= n / 2,
        (n / 2) % h == 0,
{
    let k = n / (2 * h);
    lemma_fundamental_div_mod(n, 2 * h);
    assert(n == 2 * (h * k)) by (nonlinear_arith)
        requires
            n == 2 * h * k,
    ;
    assert(n / 2 == h * k);
    assert(h * k == k * h) by (nonlinear_arith);
    lemma_mod_multiples_basic(k, h);
    assert(2 * h * (c + 1) == 2 * (h * (c + 1))) by (nonlinear_arith);
}

/// The second variable run through backwards.
proof fn lemma_fix_flipped(x: Seq<Ext>, y: Seq<Ext>, p: Seq<Ext>)
    requires
        x.len() == 16,
        y.len() == 16,
        all_valid(x),
        p.len() == 4,
        forall|k: int| 0 <= k < 4 ==> (#[trigger] p[k]).valid(),
        forall|c: int| 0 <= c < 16 ==> #[trigger] y[c] == x[flip_second(c)],
    ensures
        mle_eval(y, p) == mle_eval(x, seq![p[0], e_sub(e_one(), p[1]), p[2], p[3]]),
{
    let q = seq![p[0], e_sub(e_one(), p[1]), p[2], p[3]];
    let (x1, y1) = (fix_first(x, p[0]), fix_first(y, p[0]));
    assert forall|j: int| 0 <= j < 4 implies #[trigger] y1[2 * j] == x1[2 * j + 1] && y1[2 * j + 1]
        == x1[2 * j] by {
        assert(y[4 * j] == x[4 * j + 2]);
        assert(y[4 * j + 1] == x[4 * j + 3]);
        assert(y[4 * j + 2] == x[4 * j]);
        assert(y[4 * j + 3] == x[4 * j + 1]);
    }
    let (x2, y2) = (fix_first(x1, q[1]), fix_first(y1, p[1]));
    assert(x2 =~= y2) by {
        assert forall|j: int| 0 <= j < 4 implies #[trigger] x2[j] == y2[j] by {
            assert(y1[2 * j] == x1[2 * j + 1]);
            lemma_lerp_swap(x1[2 * j], x1[2 * j + 1], p[1]);
        }
    }
    assert(q.drop_first().drop_first() =~= p.drop_first().drop_first());
    assert(q.drop_first()[0] == q[1] && p.drop_first()[0] == p[1]);
    assert(fix_all(x, q) == fix_all(x1, q.drop_first()));
    assert(fix_all(x1, q.drop_first()) == fix_all(x2, q.drop_first().drop_first()));
    assert(fix_all(y, p) == fix_all(y1, p.drop_first()));
    assert(fix_all(y1, p.drop_first()) == fix_all(y2, p.drop_first().drop_first()));
}

/// The rotation of one block of 32 entries.
proof fn lemma_rotated_block(u: Seq<Ext>, v: Seq<Ext>, p: Seq<Ext>)
    requires
        u.len() == 32,
        v.len() == 32,
        all_valid(u),
        p.len() == 5,
        forall|k: int| 0 <= k < 5 ==> (#[trigger] p[k]).valid(),
        forall|b: int| 0 <= b < 32 ==> #[trigger] v[b] == u[next_point(b)],
    ensures
        mle_eval(v, p) == lerp(
            mle_eval(u, left_start(p)),
            mle_eval(u, right_start(p)),
            p[4],
        ),
{
    lemma2_to64();
    let q = p.take(4);
    assert(p =~= q + seq![p[4]]);
    lemma_fix_all_append(v, q, seq![p[4]]);
    lemma_fix_all_len(v, q, 5);
    let f = fix_all(v, q);
    assert(seq![p[4]].drop_first() =~= Seq::<Ext>::empty());
    reveal_with_fuel(fix_all, 2);
    assert(fix_all(v, p) == fix_first(f, p[4]));
    assert(mle_eval(v, p) == lerp(f[0], f[1], p[4]));
    lemma_fix_block(v, q, 0);
    lemma_fix_block(v, q, 1);
    // the points whose last coordinate is zero
    let even = fix_first(u, e_zero());
    assert(block(v, 16, 0) =~= even) by {
        assert forall|b: int| 0 <= b < 16 implies #[trigger] block(v, 16, 0)[b] == even[b] by {
            assert(v[b] == u[next_point(b)]);
            lemma_lerp_ends(u[2 * b], u[2 * b + 1]);
        }
    }
    let lp = left_start(p);
    assert(lp.drop_first() =~= q);
    assert(fix_all(u, lp) == fix_all(even, lp.drop_first()));
    // the points whose last coordinate is one
    let odd = fix_first(u, e_one());
    let rp = right_start(p);
    assert(rp.drop_first() =~= seq![q[0], e_sub(e_one(), q[1]), q[2], q[3]]);
    let hi = block(v, 16, 1);
    assert(all_valid(odd));
    assert forall|c: int| 0 <= c < 16 implies #[trigger] hi[c] == odd[flip_second(c)] by {
        assert(v[16 + c] == u[next_point(16 + c)]);
        let d = flip_second(c);
        lemma_lerp_ends(u[2 * d], u[2 * d + 1]);
    }
    assert forall|k: int| 0 <= k < 4 implies (#[trigger] q[k]).valid() by {
        assert(q[k] == p[k]);
    }
    lemma_fix_flipped(odd, hi, q);
    assert(fix_all(u, rp) == fix_all(odd, rp.drop_first()));
}

/// The first coordinates of the left point.
pub open spec fn left_start(p: Seq<Ext>) -> Seq<Ext> {
    seq![e_zero(), p[0], p[1], p[2], p[3]]
}

/// The first coordinates of the right point.
pub open spec fn right_start(p: Seq<Ext>) -> Seq<Ext> {
    seq![e_one(), p[0], e_sub(e_one(), p[1]), p[2], p[3]]
}

/// The left point of a rotation.
pub open spec fn left_point(p: Seq<Ext>) -> Seq<Ext> {
    left_start(p) + p.skip(5)
}

/// The right point of a rotation.
pub open spec fn right_point(p: Seq<Ext>) -> Seq<Ext> {
    right_start(p) + p.skip(5)
}

/// The table in which each block of 32 entries is rotated: the entry at a point is that of the next
/// point.
pub open spec fn rotated(s: Seq<Ext>) -> Seq<Ext> {
    Seq::new(s.len(), |i: int| s[32 * (i / 32) + next_point(i % 32)])
}

/// The rotated polynomial at a point, from the polynomial at the left and the right point:
/// `rotated(p) = (1 - p_4) * poly(left) + p_4 * poly(right)`.
pub proof fn lemma_rotated_eval(s: Seq<Ext>, p: Seq<Ext>)
    requires
        p.len() >= 5,
        s.len() == pow2(p.len()),
        all_valid(s),
        forall|k: int| 0 <= k < p.len() ==> (#[trigger] p[k]).valid(),
    ensures
        mle_eval(rotated(s), p) == lerp(
            mle_eval(s, left_point(p)),
            mle_eval(s, right_point(p)),
            p[4],
        ),
{
    lemma2_to64();
    let t = rotated(s);
    let (head, rest) = (p.take(5), p.skip(5));
    let n = pow2(rest.len()) as int;
    lemma_pow2_adds(5, rest.len());
    assert(p.len() == 5 + rest.len());
    assert(s.len() == 32 * n);
    let (lp, rp) = (left_start(p), right_start(p));
    let (a, b, f) = (fix_all(s, lp), fix_all(s, rp), fix_all(t, head));
    lemma_fix_all_len(s, lp, p.len());
    lemma_fix_all_len(s, rp, p.len());
    lemma_fix_all_len(t, head, p.len());
    lemma_fix_all_valid(s, lp);
    lemma_fix_all_valid(s, rp);
    assert forall|k: int| 0 <= k < 5 implies (#[trigger] head[k]).valid() by {
        assert(head[k] == p[k]);
    }
    assert(left_start(head) =~= lp && right_start(head) =~= rp);
    assert(f =~= mix(a, b, p[4])) by {
        assert forall|c: int| 0 <= c < n implies #[trigger] f[c] == mix(a, b, p[4])[c] by {
            let (u, v) = (block(s, 32, c), block(t, 32, c));
            assert((32 * n) % 32 == 0);
            lemma_fix_block(s, lp, c);
            lemma_fix_block(s, rp, c);
            lemma_fix_block(t, head, c);
            assert forall|i: int| 0 <= i < 32 implies #[trigger] v[i] == u[next_point(i)] by {
                assert((32 * c + i) / 32 == c && (32 * c + i) % 32 == i);
            }
            assert(all_valid(u));
            lemma_rotated_block(u, v, head);
        }
    }
    lemma_fix_mix(a, b, p[4], rest);
    lemma_fix_all_append(s, lp, rest);
    lemma_fix_all_append(s, rp, rest);
    lemma_fix_all_append(t, head, rest);
    assert(head + rest =~= p);
    lemma_fix_all_len(a, rest, rest.len());
}

/// The values of the equality polynomial of a point on the hypercube.
pub open spec fn eq_table(y: Seq<Ext>) -> Seq<Ext> {
    Seq::new(pow2(y.len()), |i: int| eq_at(y, i))
}

/// The multilinear extension of the table of an equality polynomial is the equality polynomial.
pub proof fn lemma_eq_table_eval(x: Seq<Ext>, y: Seq<Ext>)
    requires
        x.len() == y.len(),
        forall|k: int| 0 <= k < y.len() ==> (#[trigger] y[k]).valid(),
    ensures
        mle_eval(eq_table(y), x) == eq_poly(x, y),
    decreases x.len(),
{
    lemma2_to64();
    if x.len() > 0 {
        let (xr, yr) = (x.drop_first(), y.drop_first());
        let k = eq_factor(x[0], y[0]);
        lemma_pow2_unfold(y.len());
        lemma_pow2_pos(yr.len());
        let t = eq_table(y);
        let f = fix_first(t, x[0]);
        assert(f =~= scaled(k, eq_table(yr))) by {
            assert forall|c: int| 0 <= c < f.len() implies #[trigger] f[c] == scaled(
                k,
                eq_table(yr),
            )[c] by {
                assert((2 * c) % 2 == 0 && (2 * c) / 2 == c);
                assert((2 * c + 1) % 2 == 1 && (2 * c + 1) / 2 == c);
                lemma_eq_lerp(x[0], y[0], eq_at(yr, c));
            }
        }
        assert forall|i: int| 0 <= i < yr.len() implies (#[trigger] yr[i]).valid() by {
            assert(yr[i] == y[i + 1]);
        }
        lemma_eq_table_eval(xr, yr);
        lemma_fix_scaled(k, eq_table(yr), xr);
        lemma_fix_all_len(eq_table(yr), xr, yr.len());
        lemma_eq_poly_first(x, y);
    }
}

/// `(1 - x) * (1 - y) * e + x * y * e` is `(x * y + (1 - x) * (1 - y)) * e`.
proof fn lemma_eq_lerp(x: Ext, y: Ext, e: Ext)
    ensures
        lerp(e_mul(eq_bit(false, y), e), e_mul(eq_bit(true, y), e), x) == e_mul(
            eq_factor(x, y),
            e,
        ),
{
    let (y0, y1) = (eq_bit(false, y), eq_bit(true, y));
    let (x0, x1) = (eq_bit(false, x), eq_bit(true, x));
    lemma_lerp_weights(e_mul(y0, e), e_mul(y1, e), x);
    lemma_mul_swap(y0, e, x0);
    lemma_mul_swap(y1, e, x1);
    lemma_e_mul_comm(y0, x0);
    lemma_e_mul_comm(y1, x1);
    lemma_e_mul_add(e, e_mul(x1, y1), e_mul(x0, y0));
    lemma_e_add_comm(e_mul(e_mul(x0, y0), e), e_mul(e_mul(x1, y1), e));
}

/// The table of the equality polynomial, with zeros in each block except at the first points of
/// the cycle.
pub open spec fn selector(out: Seq<Ext>, subgroup: int) -> Seq<Ext> {
    Seq::new(
        pow2(out.len()),
        |i: int|
            if i % 32 != 0 && position(i % 32) < subgroup {
                eq_at(out, i)
            } else {
                e_zero()
            },
    )
}

/// The sum over the first points of the cycle of the products of two equality polynomials.
pub open spec fn cycle_sum(x: Seq<Ext>, y: Seq<Ext>, n: int) -> Ext
    decreases n,
{
    if n <= 0 {
        e_zero()
    } else {
        e_add(
            cycle_sum(x, y, n - 1),
            e_mul(eq_at(x, cycle(n - 1)), eq_at(y, cycle(n - 1))),
        )
    }
}

/// The value of the selector at a point.
pub open spec fn selector_value(out: Seq<Ext>, point: Seq<Ext>, subgroup: int) -> Ext {
    e_mul(
        cycle_sum(out.take(5), point.take(5), subgroup),
        eq_poly(out.skip(5), point.skip(5)),
    )
}

/// Changing a zero term of a sum.
proof fn lemma_sum_update(s: Seq<Ext>, k: int, v: Ext)
    requires
        0 <= k < s.len(),
        s[k] == e_zero(),
        v.valid(),
    ensures
        e_sum(s.update(k, v)) == e_add(e_sum(s), v),
    decreases s.len(),
{
    let t = s.update(k, v);
    if k == s.len() - 1 {
        assert(t.drop_last() =~= s.drop_last());
        lemma_e_add_zero(e_sum(s.drop_last()));
    } else {
        lemma_sum_update(s.drop_last(), k, v);
        assert(t.drop_last() =~= s.drop_last().update(k, v));
        let (a, l) = (e_sum(s.drop_last()), s.last());
        lemma_e_add_assoc(a, v, l);
        lemma_e_add_comm(v, l);
        lemma_e_add_assoc(a, l, v);
    }
}

/// The terms of the sum over one block.
spec fn block_terms(x: Seq<Ext>, y: Seq<Ext>, n: int) -> Seq<Ext> {
    Seq::new(
        32,
        |b: int|
            if b != 0 && position(b) < n {
                e_mul(eq_at(x, b), eq_at(y, b))
            } else {
                e_zero()
            },
    )
}

/// The sum in the order of the points is the sum in the order of the cycle.
proof fn lemma_block_sum(x: Seq<Ext>, y: Seq<Ext>, n: int)
    requires
        0 <= n <= 31,
    ensures
        e_sum(block_terms(x, y, n)) == cycle_sum(x, y, n),
    decreases n,
{
    if n == 0 {
        let s = block_terms(x, y, 0);
        assert forall|b: int| 0 <= b < 32 implies #[trigger] s[b] == e_zero() by {
            if b != 0 {
                lemma_position(b);
            }
        }
        lemma_zero_sum(s);
    } else {
        lemma_block_sum(x, y, n - 1);
        let k = cycle(n - 1);
        lemma_cycle(n - 1);
        let (s, t) = (block_terms(x, y, n - 1), block_terms(x, y, n));
        let v = e_mul(eq_at(x, k), eq_at(y, k));
        assert(t =~= s.update(k, v)) by {
            assert forall|b: int| 0 <= b < 32 implies #[trigger] t[b] == s.update(k, v)[b] by {
                if b != 0 && position(b) == n - 1 {
                    lemma_position(b);
                }
            }
        }
        lemma_sum_update(s, k, v);
    }
}

/// The sum of zeros.
pub proof fn lemma_zero_sum(s: Seq<Ext>)
    requires
        forall|i: int| 0 <= i < s.len() ==> #[trigger] s[i] == e_zero(),
    ensures
        e_sum(s) == e_zero(),
    decreases s.len(),
{
    if s.len() > 0 {
        lemma_zero_sum(s.drop_last());
        lemma_e_add_zero(e_zero());
    }
}

/// A sum of terms times a scalar.
pub proof fn lemma_sum_scaled(k: Ext, s: Seq<Ext>)
    ensures
        e_sum(scaled(k, s)) == e_mul(k, e_sum(s)),
    decreases s.len(),
{
    if s.len() == 0 {
        lemma_e_mul_zero(k);
    } else {
        lemma_sum_scaled(k, s.drop_last());
        assert(scaled(k, s).drop_last() =~= scaled(k, s.drop_last()));
        lemma_e_mul_add(k, e_sum(s.drop_last()), s.last());
    }
}

/// The selector at a point, as a product of a sum over the cycle and an equality polynomial.
pub proof fn lemma_selector_eval(out: Seq<Ext>, point: Seq<Ext>, subgroup: int)
    requires
        out.len() == point.len(),
        out.len() >= 5,
        0 <= subgroup <= 31,
        forall|k: int| 0 <= k < out.len() ==> (#[trigger] out[k]).valid(),
    ensures
        mle_eval(selector(out, subgroup), point) == selector_value(out, point, subgroup),
{
    lemma2_to64();
    let s = selector(out, subgroup);
    let (x5, y5) = (out.take(5), point.take(5));
    let (xr, yr) = (out.skip(5), point.skip(5));
    let n = pow2(xr.len()) as int;
    lemma_pow2_adds(5, xr.len());
    assert(s.len() == 32 * n);
    let k = cycle_sum(x5, y5, subgroup);
    let f = fix_all(s, y5);
    lemma_fix_all_len(s, y5, out.len());
    assert(f =~= scaled(k, eq_table(xr))) by {
        assert forall|c: int| 0 <= c < n implies #[trigger] f[c] == scaled(k, eq_table(xr))[c] by {
            assert((32 * n) % 32 == 0);
            lemma_fix_block(s, y5, c);
            lemma_selector_block(out, point, subgroup, c);
        }
    }
    lemma_fix_scaled(k, eq_table(xr), yr);
    assert forall|i: int| 0 <= i < xr.len() implies (#[trigger] xr[i]).valid() by {
        assert(xr[i] == out[i + 5]);
    }
    lemma_eq_table_eval(yr, xr);
    lemma_eq_poly_symmetric(yr, xr);
    lemma_fix_all_append(s, y5, yr);
    assert(y5 + yr =~= point);
    lemma_fix_all_len(eq_table(xr), yr, xr.len());
}

proof fn lemma_selector_block(out: Seq<Ext>, point: Seq<Ext>, subgroup: int, c: int)
    requires
        out.len() == point.len(),
        out.len() >= 5,
        0 <= subgroup <= 31,
        0 <= c,
        32 * (c + 1) <= pow2(out.len()),
    ensures
        mle_eval(block(selector(out, subgroup), 32, c), point.take(5)) == e_mul(
            cycle_sum(out.take(5), point.take(5), subgroup),
            eq_at(out.skip(5), c),
        ),
{
    lemma2_to64();
    let (x5, y5) = (out.take(5), point.take(5));
    let e = eq_at(out.skip(5), c);
    let b = block(selector(out, subgroup), 32, c);
    assert(all_valid(b));
    lemma_mle_eval_is_eq_sum(b, y5);
    let terms = eq_terms(b, y5);
    let base = block_terms(x5, y5, subgroup);
    assert(terms =~= scaled(e, base)) by {
        assert forall|i: int| 0 <= i < 32 implies #[trigger] terms[i] == scaled(e, base)[i] by {
            let j = 32 * c + i;
            assert(j / 32 == c && j % 32 == i);
            if i != 0 && position(i) < subgroup {
                lemma_eq_at_split(out, 5, j);
                assert(out.subrange(0, 5) =~= x5);
                assert(out.subrange(5, out.len() as int) =~= out.skip(5));
                lemma_mul_swap(eq_at(x5, i), e, eq_at(y5, i));
                lemma_e_mul_comm(e_mul(eq_at(x5, i), eq_at(y5, i)), e);
            } else {
                lemma_e_mul_zero(eq_at(y5, i));
                lemma_e_mul_zero(e);
            }
        }
    }
    lemma_sum_scaled(e, base);
    lemma_block_sum(x5, y5, subgroup);
    lemma_e_mul_comm(e, cycle_sum(x5, y5, subgroup));
}

/// The equality polynomial is symmetric.
pub proof fn lemma_eq_poly_symmetric(x: Seq<Ext>, y: Seq<Ext>)
    requires
        x.len() == y.len(),
    ensures
        eq_poly(x, y) == eq_poly(y, x),
    decreases x.len(),
{
    if x.len() > 0 {
        lemma_eq_poly_symmetric(x.drop_last(), y.drop_last());
        lemma_e_mul_comm(x.last(), y.last());
        lemma_e_mul_comm(e_sub(e_one(), x.last()), e_sub(e_one(), y.last()));
    }
}

} // verus!
