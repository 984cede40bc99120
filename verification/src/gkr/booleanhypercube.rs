//! A cyclic order of the nonzero points of the boolean hypercube of five variables, and what
//! moving to the next point does to a multilinear polynomial.
use vstd::prelude::*;

use crate::field::{
    e_add, e_mul, e_neg, e_one, e_sub, e_zero, group_field, Ext, GoldilocksExt2,
};
use crate::gkr::rotation_laws::{left_point, right_point};
use crate::mle::{ext_seq, Point};
use crate::multilinear::{lemma_lerp_weights, lerp};
use crate::ring::{
    lemma_e_add_assoc, lemma_e_add_comm, lemma_e_add_neg, lemma_e_add_zero, lemma_e_mul_assoc,
    lemma_e_mul_comm, lemma_e_mul_one, lemma_e_sub_is_add_neg,
};

verus! {

broadcast use group_field;

/// The point after a point: all bits move up by one, and if the top bit falls out, the lowest bit
/// is set and the bit two above it is flipped. Points are written as numbers, the first variable
/// as the lowest bit.
pub open spec fn next_point(b: int) -> int {
    if b < 16 {
        2 * b
    } else {
        2 * flip_second(b - 16) + 1
    }
}

/// The second bit flipped.
pub open spec fn flip_second(c: int) -> int {
    if c / 2 % 2 == 0 {
        c + 2
    } else {
        c - 2
    }
}

/// The points in their cyclic order from one on.
pub open spec fn cycle(i: int) -> int
    decreases i,
{
    if i <= 0 {
        1
    } else {
        next_point(cycle(i - 1))
    }
}

/// The position of a nonzero point in the cycle.
pub open spec fn position(b: int) -> int {
    if b == 1 {
        0
    } else if b == 2 {
        1
    } else if b == 4 {
        2
    } else if b == 8 {
        3
    } else if b == 16 {
        4
    } else if b == 5 {
        5
    } else if b == 10 {
        6
    } else if b == 20 {
        7
    } else if b == 13 {
        8
    } else if b == 26 {
        9
    } else if b == 17 {
        10
    } else if b == 7 {
        11
    } else if b == 14 {
        12
    } else if b == 28 {
        13
    } else if b == 29 {
        14
    } else if b == 31 {
        15
    } else if b == 27 {
        16
    } else if b == 19 {
        17
    } else if b == 3 {
        18
    } else if b == 6 {
        19
    } else if b == 12 {
        20
    } else if b == 24 {
        21
    } else if b == 21 {
        22
    } else if b == 15 {
        23
    } else if b == 30 {
        24
    } else if b == 25 {
        25
    } else if b == 23 {
        26
    } else if b == 11 {
        27
    } else if b == 22 {
        28
    } else if b == 9 {
        29
    } else if b == 18 {
        30
    } else {
        -1
    }
}

/// The points from the first to the one that is reached after them, which is the first again.
proof fn lemma_cycle_values()
    ensures
        cycle(0) == 1,
        cycle(1) == 2,
        cycle(2) == 4,
        cycle(3) == 8,
        cycle(4) == 16,
        cycle(5) == 5,
        cycle(6) == 10,
        cycle(7) == 20,
        cycle(8) == 13,
        cycle(9) == 26,
        cycle(10) == 17,
        cycle(11) == 7,
        cycle(12) == 14,
        cycle(13) == 28,
        cycle(14) == 29,
        cycle(15) == 31,
        cycle(16) == 27,
        cycle(17) == 19,
        cycle(18) == 3,
        cycle(19) == 6,
        cycle(20) == 12,
        cycle(21) == 24,
        cycle(22) == 21,
        cycle(23) == 15,
        cycle(24) == 30,
        cycle(25) == 25,
        cycle(26) == 23,
        cycle(27) == 11,
        cycle(28) == 22,
        cycle(29) == 9,
        cycle(30) == 18,
        cycle(31) == 1,
{
    assert(cycle(0) == 1);
    assert(cycle(1) == 2);
    assert(cycle(2) == 4);
    assert(cycle(3) == 8);
    assert(cycle(4) == 16);
    assert(cycle(5) == 5);
    assert(cycle(6) == 10);
    assert(cycle(7) == 20);
    assert(cycle(8) == 13);
    assert(cycle(9) == 26);
    assert(cycle(10) == 17);
    assert(cycle(11) == 7);
    assert(cycle(12) == 14);
    assert(cycle(13) == 28);
    assert(cycle(14) == 29);
    assert(cycle(15) == 31);
    assert(cycle(16) == 27);
    assert(cycle(17) == 19);
    assert(cycle(18) == 3);
    assert(cycle(19) == 6);
    assert(cycle(20) == 12);
    assert(cycle(21) == 24);
    assert(cycle(22) == 21);
    assert(cycle(23) == 15);
    assert(cycle(24) == 30);
    assert(cycle(25) == 25);
    assert(cycle(26) == 23);
    assert(cycle(27) == 11);
    assert(cycle(28) == 22);
    assert(cycle(29) == 9);
    assert(cycle(30) == 18);
    assert(cycle(31) == 1);
}

/// The first 31 points are the nonzero points, each once.
pub proof fn lemma_cycle(i: int)
    requires
        0 <= i <= 31,
    ensures
        1 <= cycle(i) < 32,
        i < 31 ==> position(cycle(i)) == i,
        cycle(31) == cycle(0),
{
    lemma_cycle_values();
}

/// Every nonzero point is in the cycle.
pub proof fn lemma_position(b: int)
    requires
        1 <= b < 32,
    ensures
        0 <= position(b) < 31,
        cycle(position(b)) == b,
{
    lemma_cycle_values();
}

/// The hypercube of five variables.
#[derive(Clone, Copy, Debug)]
pub struct BooleanHypercube {
    pub num_vars: usize,
}

impl BooleanHypercube {
    /// Only cycles of five variables are known.
    pub open spec fn wf(&self) -> bool {
        self.num_vars == 5
    }

    pub fn new(num_vars: usize) -> (r: Self)
        requires
            num_vars == 5,
        ensures
            r.wf(),
    {
        BooleanHypercube { num_vars }
    }

    /// The points at which a polynomial is evaluated for the value of its rotation at `point`.
    pub fn get_rotation_points(&self, point: &[GoldilocksExt2]) -> (r: (Point, Point))
        requires
            self.wf(),
            point@.len() >= 5,
        ensures
            ext_seq(r.0@) == left_point(ext_seq(point@)),
            ext_seq(r.1@) == right_point(ext_seq(point@)),
    {
        let one = GoldilocksExt2::one();
        let mut left: Point = vec![GoldilocksExt2::zero(), point[0], point[1], point[2], point[3]];
        let flipped = one - point[1];
        let mut right: Point = vec![one, point[0], flipped, point[2], point[3]];
        let ghost p = ext_seq(point@);
        let mut i: usize = 5;
        assert(ext_seq(left@) =~= left_point(p).take(5));
        assert(ext_seq(right@) =~= right_point(p).take(5));
        while i < point.len()
            invariant
                5 <= i <= point@.len(),
                p == ext_seq(point@),
                ext_seq(left@) == left_point(p).take(i as int),
                ext_seq(right@) == right_point(p).take(i as int),
            decreases point@.len() - i,
        {
            let ghost (l, r) = (left@, right@);
            left.push(point[i]);
            right.push(point[i]);
            proof {
                assert(ext_seq(left@) =~= ext_seq(l).push(p[i as int]));
                assert(ext_seq(right@) =~= ext_seq(r).push(p[i as int]));
                assert(left_point(p).take(i + 1) =~= left_point(p).take(i as int).push(
                    p[i as int],
                ));
                assert(right_point(p).take(i + 1) =~= right_point(p).take(i as int).push(
                    p[i as int],
                ));
            }
            i = i + 1;
        }
        proof {
            assert(left_point(p).take(p.len() as int) =~= left_point(p));
            assert(right_point(p).take(p.len() as int) =~= right_point(p));
        }
        (left, right)
    }

    /// The value at the right point from those of the rotation and at the left point:
    /// `(rotated - (1 - p_4) * left) / p_4`.
    pub fn get_rotation_right_eval_from_left(
        &self,
        rotated_eval: GoldilocksExt2,
        left_eval: GoldilocksExt2,
        point: &[GoldilocksExt2],
    ) -> (r: GoldilocksExt2)
        requires
            self.wf(),
            point@.len() >= 5,
            point@[4]@ != e_zero(),
        ensures
            rotated_eval@ == lerp(left_eval@, r@, point@[4]@),
            forall|right: Ext|
                right.valid() && rotated_eval@ == #[trigger] lerp(left_eval@, right, point@[4]@)
                    ==> r@ == right,
    {
        match point[4].try_inverse() {
            None => rotated_eval,
            Some(inv) => {
                let rest = rotated_eval - (GoldilocksExt2::one() - point[4]) * left_eval;
                let r = rest * inv;
                proof {
                    let (p, v) = (point@[4]@, inv@);
                    lemma_divided(rotated_eval@, left_eval@, p, v);
                    assert forall|right: Ext|
                        right.valid() && rotated_eval@ == #[trigger] lerp(left_eval@, right, p)
                            implies r@ == right by {
                        lemma_divided_unique(left_eval@, right, p, v);
                    }
                }
                r
            },
        }
    }

    /// The first `n` points of the cycle.
    pub fn points(&self, n: usize) -> (r: Vec<usize>)
        requires
            self.wf(),
            n <= 32,
        ensures
            r@.len() == n,
            forall|i: int| 0 <= i < n ==> #[trigger] r@[i] == cycle(i) && 1 <= r@[i] < 32,
    {
        let mut r: Vec<usize> = Vec::with_capacity(n);
        let mut b: usize = 1;
        let mut i: usize = 0;
        proof {
            lemma_cycle(0);
        }
        while i < n
            invariant
                i <= n <= 32,
                r@.len() == i,
                b == cycle(i as int) || i == 32,
                1 <= b < 32,
                forall|k: int| 0 <= k < i ==> #[trigger] r@[k] == cycle(k) && 1 <= r@[k] < 32,
            decreases n - i,
        {
            r.push(b);
            if i < 31 {
                proof {
                    lemma_cycle(i + 1);
                }
                b = next(b);
            }
            i = i + 1;
        }
        r
    }
}

/// The point after a point.
pub fn next(b: usize) -> (r: usize)
    requires
        b < 32,
    ensures
        r == next_point(b as int),
        r < 32,
{
    if b < 16 {
        2 * b
    } else {
        let c: usize = b - 16;
        let flipped: usize = if c / 2 % 2 == 0 {
            c + 2
        } else {
            c - 2
        };
        2 * flipped + 1
    }
}

/// `(t - (1 - p) * a) / p`.
spec fn divided(t: Ext, a: Ext, p: Ext, v: Ext) -> Ext {
    e_mul(e_sub(t, e_mul(e_sub(e_one(), p), a)), v)
}

/// `(x * v) * p` is `x` for inverse `v` and `p`.
proof fn lemma_mul_inverse(x: Ext, p: Ext, v: Ext)
    requires
        x.valid(),
        e_mul(p, v) == e_one(),
    ensures
        e_mul(e_mul(x, v), p) == x,
        e_mul(e_mul(x, p), v) == x,
{
    lemma_e_mul_assoc(x, v, p);
    lemma_e_mul_comm(v, p);
    lemma_e_mul_assoc(x, p, v);
    lemma_e_mul_one(x);
}

proof fn lemma_divided(t: Ext, a: Ext, p: Ext, v: Ext)
    requires
        t.valid(),
        a.valid(),
        e_mul(p, v) == e_one(),
    ensures
        lerp(a, divided(t, a, p, v), p) == t,
{
    let w = e_mul(e_sub(e_one(), p), a);
    let x = e_sub(t, w);
    lemma_lerp_weights(a, divided(t, a, p, v), p);
    lemma_mul_inverse(x, p, v);
    lemma_e_mul_comm(a, e_sub(e_one(), p));
    // w + (t - w)
    lemma_e_sub_is_add_neg(t, w);
    lemma_e_add_comm(w, x);
    lemma_e_add_assoc(t, e_neg(w), w);
    lemma_e_add_comm(e_neg(w), w);
    lemma_e_add_neg(w);
    lemma_e_add_zero(t);
}

proof fn lemma_divided_unique(a: Ext, right: Ext, p: Ext, v: Ext)
    requires
        a.valid(),
        right.valid(),
        e_mul(p, v) == e_one(),
    ensures
        divided(lerp(a, right, p), a, p, v) == right,
{
    let w = e_mul(e_sub(e_one(), p), a);
    let y = e_mul(right, p);
    lemma_lerp_weights(a, right, p);
    lemma_e_mul_comm(a, e_sub(e_one(), p));
    // (w + y) - w
    lemma_e_sub_is_add_neg(e_add(w, y), w);
    lemma_e_add_comm(w, y);
    lemma_e_add_assoc(y, w, e_neg(w));
    lemma_e_add_neg(w);
    lemma_e_add_zero(y);
    lemma_mul_inverse(right, p, v);
}

} // verus!
