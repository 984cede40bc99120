//! The modulus is prime.
//!
//! The root below has order `2^32` modulo every divisor `d > 1` of the modulus `p`, so that `d` has more
//! than `2^32` residues. Two such divisors cannot multiply to `p`.
use vstd::arithmetic::div_mod::*;
use vstd::arithmetic::power::*;
use vstd::arithmetic::power2::*;
use vstd::prelude::*;
use vstd::relations::injective_on;
use vstd::set_lib::*;

use crate::field::{f_mul, modulus};

verus! {

/// A generator of the subgroup of order `2^32`.
spec fn root() -> int {
    1753635133440165772
}

proof fn lemma_square_step(i: nat, c: int, c2: int)
    requires
        pow(root(), pow2(i)) % modulus() == c,
        (c * c) % modulus() == c2,
    ensures
        pow(root(), pow2(i + 1)) % modulus() == c2,
{
    lemma_pow2_unfold(i + 1);
    lemma_pow_adds(root(), pow2(i), pow2(i));
    let x = pow(root(), pow2(i));
    lemma_mul_mod_noop(x, x, modulus());
}

/// The `2^31`-th power of the root is minus one.
proof fn lemma_half_order()
    ensures
        pow(root(), pow2(31)) % modulus() == modulus() - 1,
{
    lemma2_to64();
    lemma_pow1(root());
    lemma_small_mod(root() as nat, modulus() as nat);
    lemma_square_step(0, 1753635133440165772, 4614640910117430873);
    lemma_square_step(1, 4614640910117430873, 9123114210336311365);
    lemma_square_step(2, 9123114210336311365, 16116352524544190054);
    lemma_square_step(3, 16116352524544190054, 6414415596519834757);
    lemma_square_step(4, 6414415596519834757, 1213594585890690845);
    lemma_square_step(5, 1213594585890690845, 17096174751763063430);
    lemma_square_step(6, 17096174751763063430, 5456943929260765144);
    lemma_square_step(7, 5456943929260765144, 9713644485405565297);
    lemma_square_step(8, 9713644485405565297, 16905767614792059275);
    lemma_square_step(9, 16905767614792059275, 5416168637041100469);
    lemma_square_step(10, 5416168637041100469, 17654865857378133588);
    lemma_square_step(11, 17654865857378133588, 3511170319078647661);
    lemma_square_step(12, 3511170319078647661, 18146160046829613826);
    lemma_square_step(13, 18146160046829613826, 9306717745644682924);
    lemma_square_step(14, 9306717745644682924, 12380578893860276750);
    lemma_square_step(15, 12380578893860276750, 6115771955107415310);
    lemma_square_step(16, 6115771955107415310, 17776499369601055404);
    lemma_square_step(17, 17776499369601055404, 16207902636198568418);
    lemma_square_step(18, 16207902636198568418, 1532612707718625687);
    lemma_square_step(19, 1532612707718625687, 17492915097719143606);
    lemma_square_step(20, 17492915097719143606, 455906449640507599);
    lemma_square_step(21, 455906449640507599, 11353340290879379826);
    lemma_square_step(22, 11353340290879379826, 1803076106186727246);
    lemma_square_step(23, 1803076106186727246, 13797081185216407910);
    lemma_square_step(24, 13797081185216407910, 17870292113338400769);
    lemma_square_step(25, 17870292113338400769, 549755813888);
    lemma_square_step(26, 549755813888, 70368744161280);
    lemma_square_step(27, 70368744161280, 17293822564807737345);
    lemma_square_step(28, 17293822564807737345, 18446744069397807105);
    lemma_square_step(29, 18446744069397807105, 281474976710656);
    lemma_square_step(30, 281474976710656, 18446744069414584320);
}

/// Congruence modulo a divisor of the modulus.
proof fn lemma_mod_divisor(x: int, y: int, d: int)
    requires
        d > 0,
        modulus() % d == 0,
        x % modulus() == y % modulus(),
    ensures
        x % d == y % d,
{
    let m = modulus();
    let q = m / d;
    lemma_fundamental_div_mod(x, m);
    lemma_fundamental_div_mod(y, m);
    lemma_fundamental_div_mod(m, d);
    let k = x / m - y / m;
    assert(x == y + m * k) by {
        assert(m * k == m * (x / m) - m * (y / m)) by (nonlinear_arith)
            requires
                k == x / m - y / m,
        ;
    }
    assert(m * k == d * (q * k)) by (nonlinear_arith)
        requires
            m == d * q,
    ;
    lemma_mod_multiples_vanish(q * k, y, d);
}

/// The `2^31`-th power of the root is minus one modulo every divisor, and its square is one.
proof fn lemma_orders(d: int)
    requires
        d > 1,
        modulus() % d == 0,
    ensures
        pow(root(), pow2(31)) % d == (-1) % d,
        pow(root(), pow2(32)) % d == 1,
{
    lemma_half_order();
    let x = pow(root(), pow2(31));
    assert((-1) % modulus() == modulus() - 1);
    lemma_mod_divisor(x, -1, d);
    lemma_pow2_unfold(32);
    lemma_pow_adds(root(), pow2(31), pow2(31));
    lemma_mul_mod_noop(x, x, d);
    lemma_mul_mod_noop(-1, -1, d);
    lemma_small_mod(1, d as nat);
}

/// An odd power of minus one is minus one.
proof fn lemma_odd_power(x: int, q: nat, d: int)
    requires
        d > 1,
        x % d == (-1) % d,
        q % 2 == 1,
    ensures
        pow(x, q) % d == (-1) % d,
    decreases q,
{
    if q == 1 {
        lemma_pow1(x);
    } else {
        let r = (q - 2) as nat;
        lemma_odd_power(x, r, d);
        lemma_pow_adds(x, 2, r);
        lemma_pow_adds(x, 1, 1);
        lemma_pow1(x);
        lemma_mul_mod_noop(x, x, d);
        lemma_mul_mod_noop(-1, -1, d);
        lemma_mul_mod_noop(pow(x, 2), pow(x, r), d);
        lemma_mul_mod_noop(1, -1, d);
    }
}

/// Exponents whose power is one modulo a divisor are multiples of `2^32`.
proof fn lemma_order_divides(k: nat, s: nat, d: int)
    requires
        d > 1,
        modulus() % d == 0,
        pow(root(), k) % d == 1,
        s <= 32,
    ensures
        k % pow2(s) == 0,
    decreases s,
{
    lemma2_to64();
    if s == 0 {
        assert(k % 1 == 0);
    } else {
        let t = (s - 1) as nat;
        lemma_order_divides(k, t, d);
        lemma_pow2_pos(t);
        let q = k / pow2(t);
        lemma_fundamental_div_mod(k as int, pow2(t) as int);
        assert(k == pow2(t) * q);
        if q % 2 == 1 {
            // k * 2^(31 - t) == 2^31 * q
            let u = (31 - t) as nat;
            lemma_pow2_adds(t, u);
            let (pt, pu) = (pow2(t), pow2(u));
            assert(k * pu == pow2(31) * q) by (nonlinear_arith)
                requires
                    k == pt * q,
                    pt * pu == pow2(31),
            ;
            lemma_pow_multiplies(root(), k, pu);
            lemma_pow_multiplies(root(), pow2(31), q);
            lemma_orders(d);
            lemma_odd_power(pow(root(), pow2(31)), q, d);
            lemma_pow_mod_noop(pow(root(), k), pu, d);
            lemma1_pow(pu);
            lemma_small_mod(1, d as nat);
            // so that one is minus one, and d divides 2 and the odd modulus
            lemma_signs_differ(d);
        }
        lemma_pow2_unfold(s);
        let h = q / 2;
        assert(k == pow2(s) * h) by (nonlinear_arith)
            requires
                k == pow2(t) * q,
                q == 2 * h,
                pow2(s) == 2 * pow2(t),
        ;
        lemma_pow2_pos(s);
        lemma_mod_multiples_basic(h as int, pow2(s) as int);
        assert(pow2(s) * h == h * pow2(s)) by (nonlinear_arith);
    }
}

/// No divisor `d > 1` of the modulus has `-1 = 1`.
proof fn lemma_signs_differ(d: int)
    requires
        d > 1,
        modulus() % d == 0,
    ensures
        (-1) % d != 1,
{
    if (-1) % d == 1 {
        lemma_fundamental_div_mod(-1, d);
        let k = -((-1) / d);
        assert(d * k == 2) by (nonlinear_arith)
            requires
                -1 == d * ((-1int) / d) + 1,
                k == -((-1int) / d),
        ;
        assert(d <= 2) by (nonlinear_arith)
            requires
                d * k == 2,
                d > 1,
        ;
        assert(d == 2);
    }
}

/// A divisor of the modulus that is not one exceeds `2^32 - 1`.
proof fn lemma_divisor_large(d: int)
    requires
        d > 1,
        modulus() % d == 0,
    ensures
        d >= pow2(32),
{
    let n = pow2(32) as int;
    let exponents = set_int_range(0, n);
    let f = |i: int| pow(root(), i as nat) % d;
    lemma2_to64();
    lemma_int_range(0, n);
    lemma_int_range(0, d);
    assert forall|i: int, j: int|
        exponents.contains(i) && exponents.contains(j) && #[trigger] f(i) == #[trigger] f(
            j,
        ) implies i == j by {
        if i < j {
            lemma_distinct(i as nat, j as nat, d);
        } else if j < i {
            lemma_distinct(j as nat, i as nat, d);
        }
    }
    assert(injective_on(f, exponents));
    let image = exponents.map(f);
    lemma_map_size(exponents, image, f);
    assert(image.subset_of(set_int_range(0, d))) by {
        assert forall|x: int| image.contains(x) implies set_int_range(0, d).contains(x) by {
            let i = choose|i: int| exponents.contains(i) && x == f(i);
            lemma_mod_bound(pow(root(), i as nat), d);
        }
    }
    lemma_len_subset(image, set_int_range(0, d));
}

proof fn lemma_distinct(i: nat, j: nat, d: int)
    requires
        d > 1,
        modulus() % d == 0,
        i < j < pow2(32),
    ensures
        pow(root(), i) % d != pow(root(), j) % d,
{
    let n = pow2(32);
    let rest = (n - i) as nat;
    let k = (j - i) as nat;
    lemma_orders(d);
    lemma_pow_adds(root(), i, rest);
    lemma_pow_adds(root(), j, rest);
    lemma_pow_adds(root(), k, n);
    assert(j + rest == k + n);
    let r = pow(root(), rest);
    lemma_mul_mod_noop(pow(root(), i), r, d);
    lemma_mul_mod_noop(pow(root(), j), r, d);
    lemma_mul_mod_noop(pow(root(), k), pow(root(), n), d);
    lemma_mod_twice(pow(root(), k), d);
    if pow(root(), i) % d == pow(root(), j) % d {
        assert(pow(root(), k) % d == 1);
        lemma_order_divides(k, 32, d);
        lemma_small_mod(k, n);
    }
}

/// The modulus has no divisors but one and itself.
pub proof fn lemma_modulus_prime(d: int)
    requires
        1 < d < modulus(),
    ensures
        modulus() % d != 0,
{
    if modulus() % d == 0 {
        let m = modulus();
        let e = m / d;
        lemma_fundamental_div_mod(m, d);
        assert(d * e == m);
        assert(e > 1) by (nonlinear_arith)
            requires
                d * e == m,
                d < m,
                d > 1,
                m > 1,
        ;
        lemma_divisor_large(d);
        assert(m % e == 0) by {
            lemma_mod_multiples_basic(d, e);
        }
        lemma_divisor_large(e);
        lemma2_to64();
        assert(d * e >= 0x1_0000_0000 * 0x1_0000_0000) by (nonlinear_arith)
            requires
                d >= 0x1_0000_0000,
                e >= 0x1_0000_0000,
        ;
    }
}

/// A product that is zero in the field has a factor that is zero.
pub proof fn lemma_no_zero_divisors(x: int, y: int)
    requires
        0 <= x < modulus(),
        0 <= y < modulus(),
        f_mul(x, y) == 0,
    ensures
        x == 0 || y == 0,
{
    if x > 0 {
        lemma_euclid(x, y);
        lemma_small_mod(y as nat, modulus() as nat);
    }
}

proof fn lemma_euclid(x: int, y: int)
    requires
        0 < x < modulus(),
        (x * y) % modulus() == 0,
    ensures
        y % modulus() == 0,
    decreases x,
{
    let m = modulus();
    let r = m % x;
    let q = m / x;
    lemma_fundamental_div_mod(m, x);
    lemma_mod_bound(m, x);
    if x == 1 {
    } else {
        lemma_modulus_prime(x);
        // r * y == m * y - q * (x * y)
        let t = (x * y) / m;
        lemma_fundamental_div_mod(x * y, m);
        assert(r * y == m * (y - q * t)) by (nonlinear_arith)
            requires
                m == x * q + r,
                x * y == m * t,
        ;
        lemma_mod_multiples_basic(y - q * t, m);
        assert(m * (y - q * t) == (y - q * t) * m) by (nonlinear_arith);
        lemma_euclid(r, y);
    }
}

} // verus!
