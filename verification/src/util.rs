//! Powers of two and logarithms.
use vstd::arithmetic::div_mod::*;
use vstd::arithmetic::power2::*;
use vstd::prelude::*;

verus! {

/// The least `n` with `2^n >= x`.
pub open spec fn spec_ceil_log2(x: nat) -> nat
    decreases x,
{
    if x <= 1 {
        0
    } else {
        1 + spec_ceil_log2(((x + 1) / 2) as nat)
    }
}

/// `spec_ceil_log2(x)` is the least exponent whose power of two reaches `x`.
pub proof fn lemma_ceil_log2(x: nat)
    ensures
        pow2(spec_ceil_log2(x)) >= x,
        x > 1 ==> pow2((spec_ceil_log2(x) - 1) as nat) < x,
        x > 1 ==> spec_ceil_log2(x) > 0,
    decreases x,
{
    lemma2_to64();
    if x > 1 {
        let h = ((x + 1) / 2) as nat;
        lemma_ceil_log2(h);
        lemma_pow2_unfold(spec_ceil_log2(x));
        if h > 1 {
            lemma_pow2_unfold(spec_ceil_log2(h));
        }
    }
}

/// The logarithm of a power of two is its exponent.
pub proof fn lemma_ceil_log2_pow2(n: nat)
    ensures
        spec_ceil_log2(pow2(n)) == n,
    decreases n,
{
    lemma2_to64();
    if n > 0 {
        lemma_pow2_unfold(n);
        lemma_pow2_pos((n - 1) as nat);
        lemma_ceil_log2_pow2((n - 1) as nat);
        assert(((pow2(n) + 1) / 2) as nat == pow2((n - 1) as nat));
    }
}

/// The least `n` with `2^n >= x`.
pub fn ceil_log2(x: usize) -> (r: usize)
    ensures
        r == spec_ceil_log2(x as nat),
        r <= 64,
{
    let mut n: usize = 0;
    let mut y: usize = x;
    proof {
        lemma2_to64();
    }
    while y > 1
        invariant
            n + spec_ceil_log2(y as nat) == spec_ceil_log2(x as nat),
            n <= 64,
            pow2(n as nat) * (y - 1) < 0x1_0000_0000_0000_0000,
            y > 0 || x == 0,
        decreases y,
    {
        proof {
            lemma2_to64();
            lemma_pow2_unfold((n + 1) as nat);
            assert((y + 1) / 2 == y / 2 + y % 2);
            let h = y / 2 + y % 2;
            assert(2 * (h - 1) <= y - 1);
            let p = pow2(n as nat);
            assert((2 * p) * (h - 1) == p * (2 * (h - 1))) by (nonlinear_arith);
            assert(p * (2 * (h - 1)) <= p * (y - 1)) by (nonlinear_arith)
                requires
                    2 * (h - 1) <= y - 1,
            ;
            if n >= 64 {
                if n > 64 {
                    lemma_pow2_strictly_increases(64, n as nat);
                }
                assert(p * (y - 1) >= p) by (nonlinear_arith)
                    requires
                        y > 1,
                ;
                assert(false);
            }
        }
        y = y / 2 + y % 2;
        n = n + 1;
    }
    n
}

/// Powers of two grow with the exponent.
pub proof fn lemma_pow2_monotone(m: nat, n: nat)
    requires
        m <= n,
    ensures
        pow2(m) <= pow2(n),
{
    if m < n {
        lemma_pow2_strictly_increases(m, n);
    }
}

/// `2^n` as a machine word.
pub fn pow2_usize(n: usize) -> (r: usize)
    requires
        pow2(n as nat) <= usize::MAX,
    ensures
        r == pow2(n as nat),
{
    let mut r: usize = 1;
    let mut i: usize = 0;
    proof {
        lemma2_to64();
    }
    while i < n
        invariant
            i <= n,
            pow2(n as nat) <= usize::MAX,
            r == pow2(i as nat),
        decreases n - i,
    {
        proof {
            lemma_pow2_unfold((i + 1) as nat);
            lemma_pow2_monotone((i + 1) as nat, n as nat);
        }
        r = r * 2;
        i = i + 1;
    }
    r
}

/// The largest `k` such that `2^k` divides a positive `x`.
pub open spec fn spec_trailing_zeros(x: nat) -> nat
    decreases x,
{
    if x == 0 || x % 2 == 1 {
        0
    } else {
        1 + spec_trailing_zeros(x / 2)
    }
}

/// A power of two has as many trailing zeros as its exponent says.
pub proof fn lemma_trailing_zeros_pow2(n: nat)
    ensures
        spec_trailing_zeros(pow2(n)) == n,
    decreases n,
{
    lemma2_to64();
    if n > 0 {
        lemma_pow2_unfold(n);
        lemma_pow2_pos((n - 1) as nat);
        lemma_trailing_zeros_pow2((n - 1) as nat);
        assert(pow2(n) / 2 == pow2((n - 1) as nat));
    }
}

/// The number of trailing zero bits of a positive number.
pub fn trailing_zeros(x: usize) -> (r: usize)
    requires
        x > 0,
    ensures
        r == spec_trailing_zeros(x as nat),
        r < 64,
{
    let mut y: usize = x;
    let mut n: usize = 0;
    proof {
        lemma2_to64();
    }
    while y % 2 == 0
        invariant
            y > 0,
            n <= 64,
            pow2(n as nat) * y == x,
            n + spec_trailing_zeros(y as nat) == spec_trailing_zeros(x as nat),
        decreases y,
    {
        proof {
            lemma2_to64();
            lemma_pow2_unfold((n + 1) as nat);
            let p = pow2(n as nat);
            assert((2 * p) * (y / 2) == p * y) by (nonlinear_arith)
                requires
                    y == 2 * (y / 2),
            ;
            if n >= 64 {
                lemma_pow2_monotone(64, n as nat);
                assert(p * y >= p) by (nonlinear_arith)
                    requires
                        y > 0,
                ;
                assert(false);
            }
        }
        y = y / 2;
        n = n + 1;
    }
    proof {
        lemma2_to64();
        if n >= 64 {
            let p = pow2(n as nat);
            assert(p * y >= p) by (nonlinear_arith)
                requires
                    y > 0,
            ;
        }
    }
    n
}

/// Whether `x` is a power of two.
pub open spec fn is_pow2(x: int) -> bool {
    exists|n: nat| x == #[trigger] pow2(n)
}

/// An even positive number is a power of two exactly if its half is.
pub proof fn lemma_is_pow2_half(x: int)
    requires
        x > 0,
        x % 2 == 0,
    ensures
        is_pow2(x) <==> is_pow2(x / 2),
{
    lemma2_to64();
    if is_pow2(x) {
        let n = choose|n: nat| x == #[trigger] pow2(n);
        if n > 0 {
            lemma_pow2_unfold(n);
            assert(x / 2 == pow2((n - 1) as nat));
        }
    }
    if is_pow2(x / 2) {
        let n = choose|n: nat| x / 2 == #[trigger] pow2(n);
        lemma_pow2_unfold((n + 1) as nat);
        assert(x == pow2((n + 1) as nat));
    }
}

/// Whether `x` is a power of two.
pub fn is_power_of_two(x: usize) -> (r: bool)
    ensures
        r == is_pow2(x as int),
{
    proof {
        lemma2_to64();
        assert forall|n: nat| #[trigger] pow2(n) > 0 by {
            lemma_pow2_pos(n);
        }
    }
    if x == 0 {
        return false;
    }
    let mut y: usize = x;
    while y % 2 == 0
        invariant
            y > 0,
            is_pow2(x as int) == is_pow2(y as int),
        decreases y,
    {
        proof {
            lemma_is_pow2_half(y as int);
        }
        y = y / 2;
    }
    proof {
        lemma2_to64();
        assert(is_pow2(1)) by {
            assert(pow2(0) == 1);
        }
        if is_pow2(y as int) {
            let n = choose|n: nat| y == #[trigger] pow2(n);
            if n > 0 {
                lemma_pow2_unfold(n);
            }
        }
    }
    y == 1
}

/// The least power of two that is at least `x`.
pub open spec fn spec_next_power_of_two(x: nat) -> nat {
    pow2(spec_ceil_log2(x))
}

/// The least power of two that is at least `x`.
pub fn next_power_of_two(x: usize) -> (r: usize)
    requires
        spec_next_power_of_two(x as nat) <= usize::MAX,
    ensures
        r == spec_next_power_of_two(x as nat),
        r >= x,
        is_pow2(r as int),
        x > 1 ==> r < 2 * x,
{
    let n: usize = ceil_log2(x);
    proof {
        lemma_ceil_log2(x as nat);
        if n > 0 {
            lemma_pow2_unfold(n as nat);
        }
    }
    pow2_usize(n)
}

/// A positive number is an odd number times the power of two of its trailing zeros.
pub proof fn lemma_trailing_zeros(x: nat)
    requires
        x > 0,
    ensures
        x as int % pow2(spec_trailing_zeros(x)) as int == 0,
        (x as int / pow2(spec_trailing_zeros(x)) as int) % 2 == 1,
    decreases x,
{
    lemma2_to64();
    if x % 2 == 0 {
        let h = x as int / 2;
        let n = spec_trailing_zeros(x / 2);
        lemma_trailing_zeros(x / 2);
        let p = pow2(n) as int;
        lemma_pow2_pos(n);
        lemma_pow2_unfold(n + 1);
        lemma_fundamental_div_mod(h, p);
        assert(x == (2 * p) * (h / p)) by (nonlinear_arith)
            requires
                x == 2 * h,
                h == p * (h / p),
        ;
        lemma_fundamental_div_mod_converse(x as int, 2 * p, h / p, 0);
    } else {
        lemma_fundamental_div_mod_converse(x as int, 1, x as int, 0);
    }
}

/// No smaller power of two reaches a number than the next one.
pub proof fn lemma_next_power_of_two(x: nat, n: nat)
    ensures
        x <= spec_next_power_of_two(x),
        x <= pow2(n) ==> spec_next_power_of_two(x) <= pow2(n),
{
    lemma_ceil_log2(x);
    if x <= pow2(n) && spec_ceil_log2(x) > n {
        if x > 1 {
            lemma_pow2_monotone(n, (spec_ceil_log2(x) - 1) as nat);
        }
    } else if x <= pow2(n) {
        lemma_pow2_monotone(spec_ceil_log2(x), n);
    }
}

} // verus!
