//! The extension is a commutative ring.
use vstd::arithmetic::div_mod::*;
use vstd::prelude::*;

use crate::field::{
    e_add, e_base, e_mul, e_neg, e_one, e_pow, e_reduce, e_sub, e_zero, f_add, f_mul, f_neg, f_sub,
    modulus, Ext,
};

verus! {

/// Two integers that differ by a multiple of the modulus have one residue.
pub proof fn lemma_residue(x: int, y: int, k: int)
    requires
        x == y + modulus() * k,
    ensures
        x % modulus() == y % modulus(),
{
    lemma_mod_multiples_vanish(k, y, modulus());
}

/// The product before reduction.
spec fn raw_mul(a: Ext, b: Ext) -> Ext {
    Ext { c0: a.c0 * b.c0 + 7 * (a.c1 * b.c1), c1: a.c0 * b.c1 + a.c1 * b.c0 }
}

proof fn lemma_distribute(x: int, y: int, z: int)
    by (nonlinear_arith)
    ensures
        (x + y) * z == x * z + y * z,
        z * (x + y) == z * x + z * y,
{
}

proof fn lemma_regroup(k: int, x: int, y: int, z: int)
    by (nonlinear_arith)
    ensures
        (k * (x * y)) * z == k * (x * (y * z)),
        x * (k * (y * z)) == k * (x * (y * z)),
{
}

/// `(a * b) * c` and `a * (b * c)` before reduction, where `k` is the square of the generator.
proof fn lemma_raw_assoc(k: int, a0: int, a1: int, b0: int, b1: int, c0: int, c1: int)
    ensures
        (a0 * b0 + k * (a1 * b1)) * c0 + k * ((a0 * b1 + a1 * b0) * c1) == a0 * (b0 * c0 + k * (b1
            * c1)) + k * (a1 * (b0 * c1 + b1 * c0)),
{
    lemma_distribute(a0 * b0, k * (a1 * b1), c0);
    lemma_distribute(a0 * b1, a1 * b0, c1);
    lemma_distribute(b0 * c0, k * (b1 * c1), a0);
    lemma_distribute(b0 * c1, b1 * c0, a1);
    lemma_distribute((a0 * b1) * c1, (a1 * b0) * c1, k);
    lemma_distribute(a1 * (b0 * c1), a1 * (b1 * c0), k);
    lemma_regroup(1, a0, b0, c0);
    lemma_regroup(k, a1, b1, c0);
    lemma_regroup(1, a0, b1, c1);
    lemma_regroup(k, a0, b1, c1);
    lemma_regroup(1, a1, b0, c1);
}

proof fn lemma_raw_assoc_cross(k: int, a0: int, a1: int, b0: int, b1: int, c0: int, c1: int)
    ensures
        (a0 * b0 + k * (a1 * b1)) * c1 + (a0 * b1 + a1 * b0) * c0 == a0 * (b0 * c1 + b1 * c0) + a1
            * (b0 * c0 + k * (b1 * c1)),
{
    lemma_distribute(a0 * b0, k * (a1 * b1), c1);
    lemma_distribute(a0 * b1, a1 * b0, c0);
    lemma_distribute(b0 * c1, b1 * c0, a0);
    lemma_distribute(b0 * c0, k * (b1 * c1), a1);
    lemma_regroup(1, a0, b0, c1);
    lemma_regroup(k, a1, b1, c1);
    lemma_regroup(1, a0, b1, c0);
    lemma_regroup(1, a1, b0, c0);
}

proof fn lemma_dot_split(m: int, q: int, x: int, r: int, y: int, a: int, b: int, k: int)
    ensures
        (m * q + x) * a + k * ((m * r + y) * b) == (x * a + k * (y * b)) + m * (q * a + k * (r
            * b)),
{
    lemma_distribute(m * q, x, a);
    lemma_distribute(m * r, y, b);
    lemma_distribute((m * r) * b, y * b, k);
    lemma_distribute(q * a, k * (r * b), m);
    lemma_regroup(1, m, q, a);
    lemma_regroup(1, m, r, b);
    lemma_regroup(k, m, r, b);
}

proof fn lemma_residue_dot(x: int, y: int, a: int, b: int, k: int)
    ensures
        ((x % modulus()) * a + k * ((y % modulus()) * b)) % modulus() == (x * a + k * (y * b))
            % modulus(),
{
    let m = modulus();
    let q = x / m;
    let r = y / m;
    lemma_fundamental_div_mod(x, m);
    lemma_fundamental_div_mod(y, m);
    lemma_dot_split(m, q, x % m, r, y % m, a, b, k);
    lemma_residue(x * a + k * (y * b), (x % m) * a + k * ((y % m) * b), q * a + k * (r * b));
}

proof fn lemma_mul_reduce_left(a: Ext, b: Ext)
    ensures
        e_mul(e_reduce(a), b) == e_mul(a, b),
{
    reveal(e_mul);
    lemma_residue_dot(a.c0, a.c1, b.c0, b.c1, 7);
    lemma_residue_dot(a.c0, a.c1, b.c1, b.c0, 1);
}

/// Addition is commutative.
pub proof fn lemma_e_add_comm(a: Ext, b: Ext)
    ensures
        e_add(a, b) == e_add(b, a),
{
    reveal(e_add);
}

/// Addition is associative.
pub proof fn lemma_e_add_assoc(a: Ext, b: Ext, c: Ext)
    ensures
        e_add(e_add(a, b), c) == e_add(a, e_add(b, c)),
{
    reveal(e_add);
    let m = modulus();
    lemma_add_mod_noop_right(a.c0, b.c0 + c.c0, m);
    lemma_add_mod_noop_right(a.c1, b.c1 + c.c1, m);
    assert(((a.c0 + b.c0) % m + c.c0) % m == (a.c0 + b.c0 + c.c0) % m) by {
        lemma_add_mod_noop(a.c0 + b.c0, c.c0, m);
        lemma_add_mod_noop((a.c0 + b.c0) % m, c.c0, m);
        lemma_mod_twice(a.c0 + b.c0, m);
    }
    assert(((a.c1 + b.c1) % m + c.c1) % m == (a.c1 + b.c1 + c.c1) % m) by {
        lemma_add_mod_noop(a.c1 + b.c1, c.c1, m);
        lemma_add_mod_noop((a.c1 + b.c1) % m, c.c1, m);
        lemma_mod_twice(a.c1 + b.c1, m);
    }
}

/// Zero is neutral for addition.
pub proof fn lemma_e_add_zero(a: Ext)
    requires
        a.valid(),
    ensures
        e_add(a, e_zero()) == a,
        e_add(e_zero(), a) == a,
{
    reveal(e_add);
    lemma_small_mod(a.c0 as nat, modulus() as nat);
    lemma_small_mod(a.c1 as nat, modulus() as nat);
}

/// A value and its inverse add up to zero.
pub proof fn lemma_e_add_neg(a: Ext)
    ensures
        e_add(a, e_neg(a)) == e_zero(),
{
    reveal(e_add);
    reveal(e_neg);
    lemma_add_mod_noop(a.c0, -a.c0, modulus());
    lemma_add_mod_noop(a.c1, -a.c1, modulus());
    lemma_add_mod_noop(a.c0, (-a.c0) % modulus(), modulus());
    lemma_add_mod_noop(a.c1, (-a.c1) % modulus(), modulus());
    lemma_mod_twice(-a.c0, modulus());
    lemma_mod_twice(-a.c1, modulus());
}

/// Subtraction is addition of the inverse.
pub proof fn lemma_e_sub_is_add_neg(a: Ext, b: Ext)
    ensures
        e_sub(a, b) == e_add(a, e_neg(b)),
{
    reveal(e_add);
    reveal(e_neg);
    reveal(e_sub);
    let m = modulus();
    lemma_add_mod_noop(a.c0, -b.c0, m);
    lemma_add_mod_noop(a.c0, (-b.c0) % m, m);
    lemma_mod_twice(-b.c0, m);
    lemma_add_mod_noop(a.c1, -b.c1, m);
    lemma_add_mod_noop(a.c1, (-b.c1) % m, m);
    lemma_mod_twice(-b.c1, m);
}

/// Multiplication is commutative.
pub proof fn lemma_e_mul_comm(a: Ext, b: Ext)
    ensures
        e_mul(a, b) == e_mul(b, a),
{
    reveal(e_mul);
    assert(raw_mul(a, b) == raw_mul(b, a)) by (nonlinear_arith);
}

/// Multiplication is associative.
pub proof fn lemma_e_mul_assoc(a: Ext, b: Ext, c: Ext)
    ensures
        e_mul(e_mul(a, b), c) == e_mul(a, e_mul(b, c)),
{
    assert(e_mul(a, b) == e_reduce(raw_mul(a, b))) by {
        reveal(e_mul);
    }
    assert(e_mul(b, c) == e_reduce(raw_mul(b, c))) by {
        reveal(e_mul);
    }
    lemma_mul_reduce_left(raw_mul(a, b), c);
    lemma_e_mul_comm(a, e_mul(b, c));
    lemma_mul_reduce_left(raw_mul(b, c), a);
    lemma_e_mul_comm(raw_mul(b, c), a);
    assert(e_mul(raw_mul(a, b), c) == e_mul(a, raw_mul(b, c))) by {
        reveal(e_mul);
        lemma_raw_assoc(7, a.c0, a.c1, b.c0, b.c1, c.c0, c.c1);
        lemma_raw_assoc_cross(7, a.c0, a.c1, b.c0, b.c1, c.c0, c.c1);
    }
}

/// Multiplication distributes over addition.
pub proof fn lemma_e_mul_add(a: Ext, b: Ext, c: Ext)
    ensures
        e_mul(a, e_add(b, c)) == e_add(e_mul(a, b), e_mul(a, c)),
        e_mul(e_add(b, c), a) == e_add(e_mul(b, a), e_mul(c, a)),
{
    let s = Ext { c0: b.c0 + c.c0, c1: b.c1 + c.c1 };
    assert(e_add(b, c) == e_reduce(s)) by {
        reveal(e_add);
    }
    lemma_mul_reduce_left(s, a);
    lemma_e_mul_comm(a, e_add(b, c));
    lemma_e_mul_comm(b, a);
    lemma_e_mul_comm(c, a);
    assert(e_mul(s, a) == e_add(e_mul(b, a), e_mul(c, a))) by {
        reveal(e_mul);
        reveal(e_add);
        let x = raw_mul(b, a);
        let y = raw_mul(c, a);
        assert((b.c0 + c.c0) * a.c0 + 7 * ((b.c1 + c.c1) * a.c1) == (b.c0 * a.c0 + 7 * (b.c1
            * a.c1)) + (c.c0 * a.c0 + 7 * (c.c1 * a.c1))) by (nonlinear_arith);
        assert((b.c0 + c.c0) * a.c1 + (b.c1 + c.c1) * a.c0 == (b.c0 * a.c1 + b.c1 * a.c0) + (c.c0
            * a.c1 + c.c1 * a.c0)) by (nonlinear_arith);
        lemma_add_mod_noop(x.c0, y.c0, modulus());
        lemma_add_mod_noop(x.c1, y.c1, modulus());
    }
}

/// One is neutral for multiplication.
pub proof fn lemma_e_mul_one(a: Ext)
    requires
        a.valid(),
    ensures
        e_mul(e_one(), a) == a,
        e_mul(a, e_one()) == a,
{
    reveal(e_mul);
    lemma_small_mod(a.c0 as nat, modulus() as nat);
    lemma_small_mod(a.c1 as nat, modulus() as nat);
}

/// Zero absorbs.
pub proof fn lemma_e_mul_zero(a: Ext)
    ensures
        e_mul(e_zero(), a) == e_zero(),
        e_mul(a, e_zero()) == e_zero(),
{
    reveal(e_mul);
    assert(0 * a.c0 == 0 && 0 * a.c1 == 0 && a.c0 * 0 == 0 && a.c1 * 0 == 0);
}

/// A factor may be negated on either side.
pub proof fn lemma_e_mul_neg(a: Ext, b: Ext)
    ensures
        e_mul(e_neg(a), b) == e_neg(e_mul(a, b)),
        e_mul(a, e_neg(b)) == e_neg(e_mul(a, b)),
{
    lemma_e_mul_neg_left(a, b);
    lemma_e_mul_neg_left(b, a);
    lemma_e_mul_comm(a, b);
    lemma_e_mul_comm(a, e_neg(b));
}

proof fn lemma_e_mul_neg_left(a: Ext, b: Ext)
    ensures
        e_mul(e_neg(a), b) == e_neg(e_mul(a, b)),
{
    let n = Ext { c0: -a.c0, c1: -a.c1 };
    assert(e_neg(a) == e_reduce(n)) by {
        reveal(e_neg);
    }
    lemma_mul_reduce_left(n, b);
    reveal(e_mul);
    reveal(e_neg);
    let x = raw_mul(a, b);
    assert((-a.c0) * b.c0 + 7 * ((-a.c1) * b.c1) == -(a.c0 * b.c0 + 7 * (a.c1 * b.c1)))
        by (nonlinear_arith);
    assert((-a.c0) * b.c1 + (-a.c1) * b.c0 == -(a.c0 * b.c1 + a.c1 * b.c0)) by (nonlinear_arith);
    lemma_sub_mod_noop(0, x.c0, modulus());
    lemma_sub_mod_noop(0, x.c1, modulus());
    lemma_sub_mod_noop(0, x.c0 % modulus(), modulus());
    lemma_sub_mod_noop(0, x.c1 % modulus(), modulus());
    lemma_mod_twice(x.c0, modulus());
    lemma_mod_twice(x.c1, modulus());
}

/// Negation distributes over addition.
pub proof fn lemma_e_neg_add(a: Ext, b: Ext)
    ensures
        e_neg(e_add(a, b)) == e_add(e_neg(a), e_neg(b)),
{
    reveal(e_neg);
    reveal(e_add);
    let m = modulus();
    lemma_sub_mod_noop(0, a.c0 + b.c0, m);
    lemma_sub_mod_noop(0, (a.c0 + b.c0) % m, m);
    lemma_mod_twice(a.c0 + b.c0, m);
    lemma_add_mod_noop(-a.c0, -b.c0, m);
    lemma_sub_mod_noop(0, a.c1 + b.c1, m);
    lemma_sub_mod_noop(0, (a.c1 + b.c1) % m, m);
    lemma_mod_twice(a.c1 + b.c1, m);
    lemma_add_mod_noop(-a.c1, -b.c1, m);
}

/// Double negation.
pub proof fn lemma_e_neg_neg(a: Ext)
    requires
        a.valid(),
    ensures
        e_neg(e_neg(a)) == a,
{
    reveal(e_neg);
    lemma_sub_mod_noop(0, -a.c0, modulus());
    lemma_sub_mod_noop(0, -a.c1, modulus());
    lemma_sub_mod_noop(0, (-a.c0) % modulus(), modulus());
    lemma_sub_mod_noop(0, (-a.c1) % modulus(), modulus());
    lemma_mod_twice(-a.c0, modulus());
    lemma_mod_twice(-a.c1, modulus());
    lemma_small_mod(a.c0 as nat, modulus() as nat);
    lemma_small_mod(a.c1 as nat, modulus() as nat);
}

/// The base field is a subring.
pub proof fn lemma_e_base_ops(a: int, b: int)
    ensures
        e_add(e_base(a), e_base(b)) == e_base(f_add(a, b)),
        e_sub(e_base(a), e_base(b)) == e_base(f_sub(a, b)),
        e_mul(e_base(a), e_base(b)) == e_base(f_mul(a, b)),
        e_neg(e_base(a)) == e_base(f_neg(a)),
{
    reveal(e_add);
    reveal(e_sub);
    reveal(e_mul);
    reveal(e_neg);
}

/// Exponents add up.
pub proof fn lemma_e_pow_add(a: Ext, m: nat, n: nat)
    ensures
        e_pow(a, m + n) == e_mul(e_pow(a, m), e_pow(a, n)),
    decreases m,
{
    broadcast use crate::field::lemma_e_pow_valid;

    if m == 0 {
        lemma_e_mul_one(e_pow(a, n));
    } else {
        lemma_e_pow_add(a, (m - 1) as nat, n);
        lemma_e_mul_assoc(a, e_pow(a, (m - 1) as nat), e_pow(a, n));
        assert((m + n - 1) as nat == (m - 1) as nat + n);
    }
}

/// An even power is a power of the square.
pub proof fn lemma_e_pow_square(a: Ext, n: nat)
    ensures
        e_pow(a, 2 * n) == e_pow(e_mul(a, a), n),
    decreases n,
{
    if n > 0 {
        lemma_e_pow_square(a, (n - 1) as nat);
        let rest = e_pow(a, (2 * n - 2) as nat);
        assert(e_pow(a, 2 * n) == e_mul(a, e_pow(a, (2 * n - 1) as nat)));
        assert(e_pow(a, (2 * n - 1) as nat) == e_mul(a, rest));
        lemma_e_mul_assoc(a, a, rest);
        assert((2 * n - 2) as nat == 2 * (n - 1) as nat);
    }
}

/// The elements of the base field multiply among themselves, an element of the base field scales
/// both coordinates, and two multiples of the root multiply to seven times their product: with the
/// laws of the ring this fixes every product.
pub proof fn lemma_e_mul_coordinates(a: int, b: Ext, c: int)
    requires
        b.valid(),
    ensures
        e_mul(e_base(a), b) == (Ext { c0: (a * b.c0) % modulus(), c1: (a * b.c1) % modulus() }),
        e_mul(Ext { c0: 0, c1: a }, Ext { c0: 0, c1: c }) == e_base((7 * (a * c)) % modulus()),
{
    reveal(e_mul);
    assert(0 * b.c0 == 0 && 0 * b.c1 == 0 && 0 * c == 0 && a * 0 == 0) by (nonlinear_arith);
    lemma_small_mod(0, modulus() as nat);
}

/// The first powers.
pub proof fn lemma_e_pow_first(a: Ext)
    requires
        a.valid(),
    ensures
        e_pow(a, 0) == e_one(),
        e_pow(a, 1) == a,
{
    reveal_with_fuel(e_pow, 2);
    lemma_e_mul_one(a);
}

} // verus!
