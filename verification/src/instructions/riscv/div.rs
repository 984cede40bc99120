//! Circuits of the DIVU, REMU, DIV and REM instructions.
//!
//! Division is checked through
//!
//! `dividend = divisor * quotient + remainder` (1)
//!
//! where the remainder lies between 0 and the divisor, with signs normalized. In the Goldilocks
//! field the right hand side of (1) does not wrap around for 32-bit values, unsigned or signed, so
//! that (1) can be checked in the field.
//!
//! Two cases are special. On division by zero, (1) still holds, and the quotient is the word with
//! all bits set. When `i32::MIN` is divided by `-1`, the quotient `2^31` does not fit in a signed
//! word, and
//!
//! `2^31 = divisor * quotient + remainder` (2)
//!
//! is required instead, which gives the quotient `i32::MIN` and the remainder 0.
//!
//! The remainder is multiplied by the sign of the dividend and the divisor is replaced by its
//! absolute value, after which `0 <= remainder < divisor` is required unless the divisor is zero:
//! exactly one of `remainder < divisor` and `divisor = 0` holds.
use std::marker::PhantomData;
use vstd::arithmetic::div_mod::*;
use vstd::prelude::*;

use crate::circuit::gadgets::{
    col, lemma_inner_lt, lemma_is_zero, lemma_signed, lemma_signed_complete, lemma_small_congruent,
    lemma_uint_val, lemma_word_val, lookup_word, set_val, shifted_word, signed_word, AssertLtConfig,
    IsLtConfig, IsZeroConfig, LkMultiplicity, Signed, UInt,
};
use crate::circuit::plain::{constant, minus, plain, plus, times, value, witness};
use crate::circuit::{choose_value, lemma_choose_value, CircuitBuilder, ZKVMError};
use crate::expression::{Expression, WitIn};
use crate::field::{f_add, f_mul, f_sub, group_field, modulus, Goldilocks, MODULUS_U64};
use crate::instructions::riscv::{
    adds_records, kind_name, record_values, spec_kind_name, RIVInstruction, RInstructionConfig,
};
use crate::instructions::Instruction;
use crate::riscv::{InsnKind, StepRecord};

verus! {

broadcast use group_field;

/// The quotient rounded towards zero.
pub open spec fn trunc_div(a: int, b: int) -> int {
    if a >= 0 && b > 0 {
        a / b
    } else if a >= 0 {
        -(a / (-b))
    } else if b > 0 {
        -((-a) / b)
    } else {
        (-a) / (-b)
    }
}

/// The remainder that goes with the quotient rounded towards zero.
pub open spec fn trunc_rem(a: int, b: int) -> int {
    a - b * trunc_div(a, b)
}

/// The word of an integer in two's complement.
pub open spec fn word(x: int) -> int {
    x % 0x1_0000_0000
}

/// The quotient and remainder words that the machine computes.
pub open spec fn div_words(signed: bool, n: int, d: int) -> (int, int) {
    if d == 0 {
        (0xffff_ffff, n)
    } else if signed {
        (
            word(trunc_div(signed_word(n), signed_word(d))),
            word(trunc_rem(signed_word(n), signed_word(d))),
        )
    } else {
        (n / d, n % d)
    }
}

/// The integer that a word means in two's complement.
pub fn to_signed(v: u32) -> (r: i64)
    ensures
        r == signed_word(v as int),
        -0x8000_0000 <= r < 0x8000_0000,
{
    if v >= 0x8000_0000 {
        v as i64 - 0x1_0000_0000
    } else {
        v as i64
    }
}

/// The word of an integer.
fn to_word(x: i64) -> (r: u32)
    requires
        -0x8000_0000 <= x < 0x1_0000_0000,
    ensures
        r == word(x as int),
{
    if x < 0 {
        (x + 0x1_0000_0000) as u32
    } else {
        x as u32
    }
}

/// The remainder has the sign of the dividend and is smaller than the divisor.
proof fn lemma_trunc(a: int, b: int)
    requires
        b != 0,
    ensures
        a == trunc_div(a, b) * b + trunc_rem(a, b),
        a >= 0 ==> 0 <= trunc_rem(a, b),
        a < 0 ==> trunc_rem(a, b) <= 0,
        (if trunc_rem(a, b) >= 0 {
            trunc_rem(a, b)
        } else {
            -trunc_rem(a, b)
        }) < (if b >= 0 {
            b
        } else {
            -b
        }),
{
    let aa = if a >= 0 {
        a
    } else {
        -a
    };
    let bb = if b > 0 {
        b
    } else {
        -b
    };
    lemma_fundamental_div_mod(aa, bb);
    lemma_mod_bound(aa, bb);
    let q = aa / bb;
    let t = trunc_div(a, b);
    assert(b * t == t * b) by (nonlinear_arith);
    assert(b * t == if a >= 0 {
        bb * q
    } else {
        -(bb * q)
    }) by (nonlinear_arith)
        requires
            bb == (if b > 0 {
                b
            } else {
                -b
            }),
            t == (if (a >= 0) == (b > 0) {
                q
            } else {
                -q
            }),
    ;
}

/// Division with a remainder of the right sign and size is unique.
proof fn lemma_trunc_unique(a: int, b: int, q: int, r: int)
    requires
        b != 0,
        a == q * b + r,
        a >= 0 ==> 0 <= r,
        a < 0 ==> r <= 0,
        (if r >= 0 {
            r
        } else {
            -r
        }) < (if b >= 0 {
            b
        } else {
            -b
        }),
    ensures
        q == trunc_div(a, b),
        r == trunc_rem(a, b),
{
    let aa = if a >= 0 {
        a
    } else {
        -a
    };
    let bb = if b > 0 {
        b
    } else {
        -b
    };
    let qq = if (a >= 0) == (b > 0) {
        q
    } else {
        -q
    };
    let rr = if a >= 0 {
        r
    } else {
        -r
    };
    assert(aa == qq * bb + rr) by (nonlinear_arith)
        requires
            a == q * b + r,
            aa == (if a >= 0 {
                a
            } else {
                -a
            }),
            bb == (if b > 0 {
                b
            } else {
                -b
            }),
            qq == (if (a >= 0) == (b > 0) {
                q
            } else {
                -q
            }),
            rr == (if a >= 0 {
                r
            } else {
                -r
            }),
    ;
    lemma_fundamental_div_mod_converse(aa, bb, qq, rr);
    assert(b * q == q * b) by (nonlinear_arith);
}

/// Computes the quotient and remainder words.
pub fn div_rem(signed: bool, dividend: u32, divisor: u32) -> (r: (u32, u32))
    ensures
        (r.0 as int, r.1 as int) == div_words(signed, dividend as int, divisor as int),
{
    if divisor == 0 {
        return (0xffff_ffff, dividend);
    }
    if !signed {
        return (dividend / divisor, dividend % divisor);
    }
    let n: i64 = to_signed(dividend);
    let d: i64 = to_signed(divisor);
    let nn: u64 = if n < 0 {
        (-n) as u64
    } else {
        n as u64
    };
    let dd: u64 = if d < 0 {
        (-d) as u64
    } else {
        d as u64
    };
    let qq: u64 = nn / dd;
    let rr: u64 = nn % dd;
    proof {
        lemma_fundamental_div_mod(nn as int, dd as int);
        assert(qq <= nn) by (nonlinear_arith)
            requires
                nn == dd * qq + rr,
                dd >= 1,
                rr >= 0,
                qq >= 0,
        ;
    }
    let q: i64 = if (n < 0) == (d < 0) {
        qq as i64
    } else {
        -(qq as i64)
    };
    let r: i64 = if n < 0 {
        -(rr as i64)
    } else {
        rr as i64
    };
    proof {
        assert(n == q * d + r) by (nonlinear_arith)
            requires
                nn == dd * qq + rr,
                nn == (if n < 0 {
                    -n as int
                } else {
                    n as int
                }),
                dd == (if d < 0 {
                    -d as int
                } else {
                    d as int
                }),
                q == (if (n < 0) == (d < 0) {
                    qq as int
                } else {
                    -(qq as int)
                }),
                r == (if n < 0 {
                    -(rr as int)
                } else {
                    rr as int
                }),
        ;
        lemma_trunc_unique(n as int, d as int, q as int, r as int);
    }
    (to_word(q), to_word(r))
}

/// What depends on whether the instruction is signed.
#[derive(Debug, Clone, Copy)]
pub enum InternalDivRem {
    Unsigned,
    Signed {
        dividend_signed: Signed,
        divisor_signed: Signed,
        quotient_signed: Signed,
        remainder_signed: Signed,
        is_dividend_signed_min: IsZeroConfig,
        is_divisor_neg_one: IsZeroConfig,
        is_signed_overflow: WitIn,
        remainder_nonnegative: AssertLtConfig,
    },
}

/// The words of a division.
#[derive(Debug, Clone, Copy)]
pub struct Operands {
    pub dividend: UInt,
    pub divisor: UInt,
    pub quotient: UInt,
    pub remainder: UInt,
}

/// The witnesses of a division circuit.
#[derive(Debug, Clone, Copy)]
pub struct DivRemConfig {
    pub operands: Operands,
    pub internal_config: InternalDivRem,
    pub is_divisor_zero: IsZeroConfig,
    pub is_remainder_lt_divisor: IsLtConfig,
    pub r_insn: RInstructionConfig,
}

/// `x` with the sign of a word whose sign bit is `negative`: `(1 - 2 * negative) * x`.
#[verifier::opaque]
pub open spec fn oriented(negative: int, x: int) -> int {
    f_mul(f_sub(1, f_mul(2, negative)), x)
}

impl InternalDivRem {
    /// The number of witnesses.
    pub open spec fn size(&self) -> int {
        if self is Signed {
            11
        } else {
            0
        }
    }

    /// The remainder and the divisor with normalized signs.
    pub open spec fn normalized(&self, ops: Operands, row: Seq<Goldilocks>) -> (int, int) {
        match self {
            InternalDivRem::Unsigned => (ops.remainder.val(row), ops.divisor.val(row)),
            InternalDivRem::Signed { dividend_signed, divisor_signed, remainder_signed, .. } => (
                oriented(col(row, dividend_signed.is_negative), remainder_signed.val(row)),
                oriented(col(row, divisor_signed.is_negative), divisor_signed.val(row)),
            ),
        }
    }

    /// The division relation.
    pub open spec fn holds(&self, ops: Operands, row: Seq<Goldilocks>) -> bool {
        match self {
            InternalDivRem::Unsigned => ops.dividend.val(row) == f_add(
                f_mul(ops.divisor.val(row), ops.quotient.val(row)),
                ops.remainder.val(row),
            ),
            InternalDivRem::Signed {
                dividend_signed,
                divisor_signed,
                quotient_signed,
                remainder_signed,
                is_dividend_signed_min,
                is_divisor_neg_one,
                is_signed_overflow,
                remainder_nonnegative,
            } => {
                &&& dividend_signed.holds(row)
                &&& divisor_signed.holds(row)
                &&& quotient_signed.holds(row)
                &&& remainder_signed.holds(row)
                &&& is_dividend_signed_min.holds(
                    f_sub(ops.dividend.val(row), 0x8000_0000),
                    row,
                )
                &&& is_divisor_neg_one.holds(f_sub(ops.divisor.val(row), 0xffff_ffff), row)
                &&& col(row, *is_signed_overflow) == f_mul(
                    col(row, is_dividend_signed_min.is_zero),
                    col(row, is_divisor_neg_one.is_zero),
                )
                &&& f_add(
                    f_mul(quotient_signed.val(row), divisor_signed.val(row)),
                    remainder_signed.val(row),
                ) == choose_value(
                    col(row, *is_signed_overflow),
                    0x8000_0000,
                    dividend_signed.val(row),
                )
                &&& remainder_nonnegative.holds(
                    modulus() - 1,
                    self.normalized(ops, row).0,
                    row,
                )
            },
        }
    }

    /// The looked up values.
    pub open spec fn lookups(&self, row: Seq<Goldilocks>) -> Seq<int> {
        match self {
            InternalDivRem::Unsigned => Seq::empty(),
            InternalDivRem::Signed {
                dividend_signed,
                divisor_signed,
                quotient_signed,
                remainder_signed,
                remainder_nonnegative,
                ..
            } => seq![
                dividend_signed.shifted(row),
                divisor_signed.shifted(row),
                quotient_signed.shifted(row),
                remainder_signed.shifted(row),
            ] + remainder_nonnegative.inner.diff.lookups(row),
        }
    }

    /// The layout of the witnesses.
    pub open spec fn at(&self, ops: Operands, base: int) -> bool {
        match self {
            InternalDivRem::Unsigned => true,
            InternalDivRem::Signed {
                dividend_signed,
                divisor_signed,
                quotient_signed,
                remainder_signed,
                is_dividend_signed_min,
                is_divisor_neg_one,
                is_signed_overflow,
                remainder_nonnegative,
            } => {
                &&& dividend_signed.uint == ops.dividend
                &&& divisor_signed.uint == ops.divisor
                &&& quotient_signed.uint == ops.quotient
                &&& remainder_signed.uint == ops.remainder
                &&& dividend_signed.is_negative.id == base
                &&& divisor_signed.is_negative.id == base + 1
                &&& quotient_signed.is_negative.id == base + 2
                &&& remainder_signed.is_negative.id == base + 3
                &&& is_dividend_signed_min.at(base + 4)
                &&& is_divisor_neg_one.at(base + 6)
                &&& is_signed_overflow.id == base + 8
                &&& remainder_nonnegative.inner.diff.at(base + 9)
            },
        }
    }
}

impl DivRemConfig {
    /// The number of witnesses.
    pub open spec fn size(&self) -> int {
        20 + self.internal_config.size()
    }

    /// The layout of the witnesses.
    pub open spec fn at(&self, base: int) -> bool {
        let next = base + 8 + self.internal_config.size();
        &&& self.operands.dividend.at(base)
        &&& self.operands.divisor.at(base + 2)
        &&& self.operands.quotient.at(base + 4)
        &&& self.operands.remainder.at(base + 6)
        &&& self.internal_config.at(self.operands, base + 8)
        &&& self.is_divisor_zero.at(next)
        &&& self.is_remainder_lt_divisor.at(next + 2)
        &&& self.r_insn.at(next + 5)
    }

    /// The constraints of the circuit.
    pub open spec fn holds(&self, row: Seq<Goldilocks>) -> bool {
        let normalized = self.internal_config.normalized(self.operands, row);
        &&& self.operands.quotient.in_range(row)
        &&& self.operands.remainder.in_range(row)
        &&& self.internal_config.holds(self.operands, row)
        &&& self.is_divisor_zero.holds(self.operands.divisor.val(row), row)
        &&& self.operands.quotient.val(row) == choose_value(
            col(row, self.is_divisor_zero.is_zero),
            0xffff_ffff,
            self.operands.quotient.val(row),
        )
        &&& self.is_remainder_lt_divisor.holds(normalized.0, normalized.1, row)
        &&& f_add(
            col(row, self.is_divisor_zero.is_zero),
            col(row, self.is_remainder_lt_divisor.is_lt),
        ) == 1
    }

    /// The looked up values.
    pub open spec fn lookups(&self, row: Seq<Goldilocks>) -> Seq<int> {
        self.operands.quotient.lookups(row) + self.operands.remainder.lookups(row)
            + self.internal_config.lookups(row) + self.is_remainder_lt_divisor.inner.diff.lookups(row)
    }

    /// The row holds the division of a step.
    pub open spec fn assigned(&self, row: Seq<Goldilocks>, step: StepRecord) -> bool {
        let words = div_words(
            self.internal_config is Signed,
            step.rs1->0 as int,
            step.rs2->0 as int,
        );
        &&& self.holds(row)
        &&& self.operands.dividend.holds_word(row, step.rs1->0)
        &&& self.operands.divisor.holds_word(row, step.rs2->0)
        &&& self.operands.quotient.holds_word(row, words.0 as u32)
        &&& self.operands.remainder.holds_word(row, words.1 as u32)
        &&& self.r_insn.assigned(row, step)
    }
}

/// A row that satisfies the unsigned constraints, with 32-bit dividend and divisor, has the
/// quotient and the remainder of the machine.
pub proof fn lemma_unsigned_division(config: DivRemConfig, row: Seq<Goldilocks>)
    requires
        config.internal_config is Unsigned,
        config.holds(row),
        config.operands.dividend.in_range(row),
        config.operands.divisor.in_range(row),
    ensures
        (config.operands.quotient.val(row), config.operands.remainder.val(row)) == div_words(
            false,
            config.operands.dividend.val(row),
            config.operands.divisor.val(row),
        ),
{
    let m = modulus();
    let (n, d) = (config.operands.dividend.val(row), config.operands.divisor.val(row));
    let (q, r) = (config.operands.quotient.val(row), config.operands.remainder.val(row));
    lemma_uint_val(col(row, config.operands.dividend.lo), col(row, config.operands.dividend.hi));
    lemma_uint_val(col(row, config.operands.divisor.lo), col(row, config.operands.divisor.hi));
    lemma_uint_val(col(row, config.operands.quotient.lo), col(row, config.operands.quotient.hi));
    lemma_uint_val(col(row, config.operands.remainder.lo), col(row, config.operands.remainder.hi));
    lemma_unsigned_relation(n, d, q, r);
    lemma_small_mod(r as nat, m as nat);
    lemma_small_mod(d as nat, m as nat);
    lemma_remainder_bound(config, row, r, d);
    if d == 0 {
        assert(0 * q == 0);
        lemma_choose_value(1, 0xffff_ffff, q);
    } else {
        assert(d * q == q * d) by (nonlinear_arith);
        lemma_fundamental_div_mod_converse(n, d, q, r);
    }
}

/// The unsigned relation does not wrap around.
proof fn lemma_unsigned_relation(n: int, d: int, q: int, r: int)
    requires
        0 <= n < 0x1_0000_0000,
        0 <= d < 0x1_0000_0000,
        0 <= q < 0x1_0000_0000,
        0 <= r < 0x1_0000_0000,
        n == f_add(f_mul(d, q), r),
    ensures
        n == d * q + r,
{
    let m = modulus();
    assert(0 <= d * q <= 0xffff_ffff * 0xffff_ffff) by (nonlinear_arith)
        requires
            0 <= d <= 0xffff_ffff,
            0 <= q <= 0xffff_ffff,
    ;
    lemma_small_mod((d * q) as nat, m as nat);
    lemma_small_mod((d * q + r) as nat, m as nat);
}

/// The signed relation does not wrap around.
proof fn lemma_signed_relation(target: int, sd: int, sq: int, sr: int)
    requires
        -0x8000_0000 <= target <= 0x8000_0000,
        -0x8000_0000 <= sd <= 0x8000_0000,
        -0x8000_0000 <= sq <= 0x8000_0000,
        -0x8000_0000 <= sr <= 0x8000_0000,
        target % modulus() == f_add(f_mul(sq % modulus(), sd % modulus()), sr % modulus()),
    ensures
        target == sq * sd + sr,
{
    let m = modulus();
    lemma_mul_mod_noop(sq, sd, m);
    lemma_add_mod_noop(sq * sd, sr, m);
    assert(-0x4000_0000_0000_0000 <= sq * sd <= 0x4000_0000_0000_0000) by (nonlinear_arith)
        requires
            -0x8000_0000 <= sq <= 0x8000_0000,
            -0x8000_0000 <= sd <= 0x8000_0000,
    ;
    lemma_small_congruent(target, sq * sd + sr);
}

/// Words in the signed relation, with a remainder of the right sign and size, are the quotient and
/// the remainder of the machine.
proof fn lemma_signed_words(n: int, d: int, q: int, r: int)
    requires
        0 <= n < 0x1_0000_0000,
        0 <= d < 0x1_0000_0000,
        0 <= q < 0x1_0000_0000,
        0 <= r < 0x1_0000_0000,
        (if n == 0x8000_0000 && d == 0xffff_ffff {
            0x8000_0000
        } else {
            signed_word(n)
        }) == signed_word(q) * signed_word(d) + signed_word(r),
        n >= 0x8000_0000 ==> signed_word(r) <= 0,
        n < 0x8000_0000 ==> signed_word(r) >= 0,
        d == 0 ==> q == 0xffff_ffff,
        d != 0 ==> (if n >= 0x8000_0000 {
            -signed_word(r)
        } else {
            signed_word(r)
        }) < (if d >= 0x8000_0000 {
            -signed_word(d)
        } else {
            signed_word(d)
        }),
    ensures
        (q, r) == div_words(true, n, d),
{
    let (sn, sd, sq, sr) = (signed_word(n), signed_word(d), signed_word(q), signed_word(r));
    if d == 0 {
        assert(sq * 0 == 0);
    } else if n == 0x8000_0000 && d == 0xffff_ffff {
        assert(sq * (-1) == -sq) by (nonlinear_arith);
        assert(sn == -0x8000_0000 && sd == -1);
        assert((-sn) / (-sd) == 0x8000_0000) by {
            assert(0x8000_0000int / 1 == 0x8000_0000);
        }
        assert(sd * trunc_div(sn, sd) == sn) by (nonlinear_arith)
            requires
                sd == -1,
                trunc_div(sn, sd) == 0x8000_0000,
                sn == -0x8000_0000,
        ;
    } else {
        lemma_trunc_unique(sn, sd, sq, sr);
    }
}

/// The normalized remainder is less than the normalized divisor unless the divisor is zero.
proof fn lemma_remainder_bound(config: DivRemConfig, row: Seq<Goldilocks>, r: int, d: int)
    requires
        config.holds(row),
        config.operands.divisor.in_range(row),
        config.internal_config.normalized(config.operands, row) == (r % modulus(), d % modulus()),
        0 <= r <= 0xffff_ffff,
        0 <= d <= 0xffff_ffff,
        d == 0 <==> config.operands.divisor.val(row) == 0,
    ensures
        d != 0 ==> r < d,
        col(row, config.is_divisor_zero.is_zero) == if d == 0 {
            1int
        } else {
            0int
        },
{
    let lt = config.is_remainder_lt_divisor;
    lemma_uint_val(col(row, config.operands.divisor.lo), col(row, config.operands.divisor.hi));
    lemma_is_zero(config.is_divisor_zero, config.operands.divisor.val(row), row);
    lemma_inner_lt(lt.inner, r, d, col(row, lt.is_lt), row);
}

/// Multiplying by the sign.
proof fn lemma_oriented(negative: bool, x: int, y: int)
    requires
        y == x % modulus(),
    ensures
        oriented(
            if negative {
                1
            } else {
                0
            },
            y,
        ) == (if negative {
            -x
        } else {
            x
        }) % modulus(),
{
    reveal(oriented);
    let m = modulus();
    if negative {
        assert(f_mul(2, 1) == 2);
        assert(f_sub(1, 2) == m - 1);
        let k = x / m;
        lemma_fundamental_div_mod(x, m);
        assert((m - 1) * y == -x + m * (y + k)) by (nonlinear_arith)
            requires
                x == m * k + y,
        ;
        crate::ring::lemma_residue((m - 1) * y, -x, y + k);
    } else {
        assert(f_mul(2, 0) == 0);
        assert(f_sub(1, 0) == 1);
        assert(1 * y == y);
        lemma_mod_twice(x, m);
    }
}

/// The absolute value, given the sign.
pub open spec fn negate_if(b: bool, x: int) -> int {
    if b {
        -x
    } else {
        x
    }
}

/// The four words of a signed row are in range.
spec fn words_in_range(ops: Operands, row: Seq<Goldilocks>) -> bool {
    &&& ops.dividend.in_range(row)
    &&& ops.divisor.in_range(row)
    &&& ops.quotient.in_range(row)
    &&& ops.remainder.in_range(row)
}

/// The signed relation of a row, between integers.
#[verifier::spinoff_prover]
#[verifier::rlimit(60)]
proof fn lemma_signed_row_relation(
    internal: InternalDivRem,
    ops: Operands,
    row: Seq<Goldilocks>,
    base: int,
)
    requires
        internal is Signed,
        internal.at(ops, base),
        internal.holds(ops, row),
        words_in_range(ops, row),
    ensures
        ({
            let (n, d) = (ops.dividend.val(row), ops.divisor.val(row));
            let (q, r) = (ops.quotient.val(row), ops.remainder.val(row));
            (if n == 0x8000_0000 && d == 0xffff_ffff {
                0x8000_0000
            } else {
                signed_word(n)
            }) == signed_word(q) * signed_word(d) + signed_word(r)
        }),
{
    let m = modulus();
    let (n, d) = (ops.dividend.val(row), ops.divisor.val(row));
    let (q, r) = (ops.quotient.val(row), ops.remainder.val(row));
    let (sn, sd, sq, sr) = (signed_word(n), signed_word(d), signed_word(q), signed_word(r));
    lemma_signed(internal->dividend_signed, row);
    lemma_signed(internal->divisor_signed, row);
    lemma_signed(internal->quotient_signed, row);
    lemma_signed(internal->remainder_signed, row);
    lemma_flag(internal->is_dividend_signed_min, n, 0x8000_0000, row);
    lemma_flag(internal->is_divisor_neg_one, d, 0xffff_ffff, row);
    let overflow = n == 0x8000_0000 && d == 0xffff_ffff;
    let flag = col(row, internal->is_signed_overflow);
    assert(flag == if overflow {
        1int
    } else {
        0int
    }) by {
        assert(0 * 0 == 0 && 0 * 1 == 0 && 1 * 0 == 0 && 1 * 1 == 1);
    }
    lemma_mod_bound(sn, m);
    lemma_choose_value(flag, 0x8000_0000, sn % m);
    let target = if overflow {
        0x8000_0000
    } else {
        sn
    };
    lemma_small_mod(0x8000_0000, m as nat);
    lemma_signed_relation(target, sd, sq, sr);
}

/// The normalized remainder of a row is not negative.
#[verifier::spinoff_prover]
#[verifier::rlimit(60)]
proof fn lemma_signed_row_remainder(
    internal: InternalDivRem,
    ops: Operands,
    row: Seq<Goldilocks>,
    base: int,
)
    requires
        internal is Signed,
        internal.at(ops, base),
        internal.holds(ops, row),
        words_in_range(ops, row),
    ensures
        ({
            let (n, d) = (ops.dividend.val(row), ops.divisor.val(row));
            let pos_r = negate_if(n >= 0x8000_0000, signed_word(ops.remainder.val(row)));
            let pos_d = negate_if(d >= 0x8000_0000, signed_word(d));
            &&& 0 <= pos_r <= 0x8000_0000
            &&& 0 <= pos_d <= 0x8000_0000
            &&& internal.normalized(ops, row) == (pos_r % modulus(), pos_d % modulus())
        }),
{
    let m = modulus();
    let (n, d) = (ops.dividend.val(row), ops.divisor.val(row));
    let (sr, sd) = (signed_word(ops.remainder.val(row)), signed_word(d));
    lemma_signed(internal->dividend_signed, row);
    lemma_signed(internal->divisor_signed, row);
    lemma_signed(internal->remainder_signed, row);
    let pos_r = negate_if(n >= 0x8000_0000, sr);
    lemma_oriented(n >= 0x8000_0000, sr, sr % m);
    lemma_oriented(d >= 0x8000_0000, sd, sd % m);
    assert((-1) % m == m - 1);
    lemma_inner_lt(internal->remainder_nonnegative.inner, -1, pos_r, 1, row);
}

/// A row that satisfies the signed constraints, with 32-bit dividend and divisor, has the
/// quotient and the remainder of the machine.
pub proof fn lemma_signed_division(config: DivRemConfig, row: Seq<Goldilocks>, base: int)
    requires
        config.internal_config is Signed,
        config.at(base),
        config.holds(row),
        config.operands.dividend.in_range(row),
        config.operands.divisor.in_range(row),
    ensures
        (config.operands.quotient.val(row), config.operands.remainder.val(row)) == div_words(
            true,
            config.operands.dividend.val(row),
            config.operands.divisor.val(row),
        ),
{
    let ops = config.operands;
    let internal = config.internal_config;
    let (n, d) = (ops.dividend.val(row), ops.divisor.val(row));
    let (q, r) = (ops.quotient.val(row), ops.remainder.val(row));
    lemma_uint_val(col(row, ops.dividend.lo), col(row, ops.dividend.hi));
    lemma_uint_val(col(row, ops.divisor.lo), col(row, ops.divisor.hi));
    lemma_uint_val(col(row, ops.quotient.lo), col(row, ops.quotient.hi));
    lemma_uint_val(col(row, ops.remainder.lo), col(row, ops.remainder.hi));
    lemma_signed_row_relation(internal, ops, row, base + 8);
    lemma_signed_row_remainder(internal, ops, row, base + 8);
    let pos_r = negate_if(n >= 0x8000_0000, signed_word(r));
    let pos_d = negate_if(d >= 0x8000_0000, signed_word(d));
    lemma_remainder_bound(config, row, pos_r, pos_d);
    lemma_choose_value(1, 0xffff_ffff, q);
    lemma_signed_words(n, d, q, r);
}

/// The equality flag of a word and a constant.
proof fn lemma_flag(c: IsZeroConfig, v: int, k: int, row: Seq<Goldilocks>)
    requires
        c.holds(f_sub(v, k), row),
        0 <= v < 0x1_0000_0000,
        0 <= k < 0x1_0000_0000,
    ensures
        col(row, c.is_zero) == if v == k {
            1int
        } else {
            0int
        },
{
    lemma_mod_bound(v - k, modulus());
    crate::circuit::lemma_equal_iff_difference_zero(v, k);
    lemma_is_zero(c, f_sub(v, k), row);
}

/// The division instructions.
pub trait DivRemInstruction: RIVInstruction {
    proof fn lemma_kind()
        ensures
            is_div_rem(Self::spec_inst_kind()),
    ;
}

/// The kind is one of the four division instructions.
pub open spec fn is_div_rem(kind: InsnKind) -> bool {
    kind == InsnKind::DIV || kind == InsnKind::DIVU || kind == InsnKind::REM || kind
        == InsnKind::REMU
}

/// The kind works on signed words.
pub open spec fn is_signed_kind(kind: InsnKind) -> bool {
    kind == InsnKind::DIV || kind == InsnKind::REM
}

pub struct DivuOp {}

impl RIVInstruction for DivuOp {
    open spec fn spec_inst_kind() -> InsnKind {
        InsnKind::DIVU
    }

    fn inst_kind() -> (r: InsnKind) {
        InsnKind::DIVU
    }
}

impl DivRemInstruction for DivuOp {
    proof fn lemma_kind() {
    }
}

pub struct RemuOp {}

impl RIVInstruction for RemuOp {
    open spec fn spec_inst_kind() -> InsnKind {
        InsnKind::REMU
    }

    fn inst_kind() -> (r: InsnKind) {
        InsnKind::REMU
    }
}

impl DivRemInstruction for RemuOp {
    proof fn lemma_kind() {
    }
}

pub struct RemOp {}

impl RIVInstruction for RemOp {
    open spec fn spec_inst_kind() -> InsnKind {
        InsnKind::REM
    }

    fn inst_kind() -> (r: InsnKind) {
        InsnKind::REM
    }
}

impl DivRemInstruction for RemOp {
    proof fn lemma_kind() {
    }
}

pub struct DivOp {}

impl RIVInstruction for DivOp {
    open spec fn spec_inst_kind() -> InsnKind {
        InsnKind::DIV
    }

    fn inst_kind() -> (r: InsnKind) {
        InsnKind::DIV
    }
}

impl DivRemInstruction for DivOp {
    proof fn lemma_kind() {
    }
}

/// The circuit of a division instruction.
pub struct ArithInstruction<I>(pub PhantomData<I>);

pub type DivuInstruction = ArithInstruction<DivuOp>;

pub type RemuInstruction = ArithInstruction<RemuOp>;

pub type RemInstruction = ArithInstruction<RemOp>;

pub type DivInstruction = ArithInstruction<DivOp>;

/// The signed part of the circuit, with the normalized remainder and divisor.
#[verifier::spinoff_prover]
#[verifier::rlimit(40)]
fn construct_signed(cb: &mut CircuitBuilder, ops: Operands) -> (r: (
    InternalDivRem,
    Expression,
    Expression,
))
    requires
        old(cb).wf(),
        old(cb).num_witin + 11 <= u16::MAX,
    ensures
        final(cb).wf(),
        final(cb).records == old(cb).records,
        r.0 is Signed,
        r.0.at(ops, old(cb).num_witin as int),
        final(cb).num_witin == old(cb).num_witin + 11,
        plain(r.1),
        plain(r.2),
        forall|row: Seq<Goldilocks>| #[trigger] value(r.1, row) == r.0.normalized(ops, row).0,
        forall|row: Seq<Goldilocks>| #[trigger] value(r.2, row) == r.0.normalized(ops, row).1,
        forall|row: Seq<Goldilocks>| #[trigger]
            final(cb).satisfied(row) == (old(cb).satisfied(row) && r.0.holds(ops, row)),
        forall|row: Seq<Goldilocks>| #[trigger]
            final(cb).looked_up(row) == old(cb).looked_up(row) + r.0.lookups(row),
{
    let ghost before = *cb;
    let dividend_signed = Signed::construct_circuit(cb, "dividend_signed", &ops.dividend);
    let divisor_signed = Signed::construct_circuit(cb, "divisor_signed", &ops.divisor);
    let quotient_signed = Signed::construct_circuit(cb, "quotient_signed", &ops.quotient);
    let remainder_signed = Signed::construct_circuit(cb, "remainder_signed", &ops.remainder);

    // signed division overflow: i32::MIN / -1
    let is_dividend_signed_min = IsZeroConfig::construct_circuit(
        cb,
        "is_dividend_signed_min",
        minus(ops.dividend.value(), constant(0x8000_0000)),
    );
    let is_divisor_neg_one = IsZeroConfig::construct_circuit(
        cb,
        "is_divisor_neg_one",
        minus(ops.divisor.value(), constant(0xffff_ffff)),
    );
    let is_signed_overflow = cb.flatten_expr(
        "signed_division_overflow",
        times(witness(is_dividend_signed_min.is_zero), witness(is_divisor_neg_one.is_zero)),
    );

    // on overflow the dividend is replaced by +2^31
    let div_rel_expr = plus(
        times(quotient_signed.expr(), divisor_signed.expr()),
        remainder_signed.expr(),
    );
    cb.condition_require_equal(
        "signed_division_relation",
        witness(is_signed_overflow),
        div_rel_expr,
        constant(0x8000_0000),
        dividend_signed.expr(),
    );

    // signs normalized so that the inequality is `0 <= remainder < divisor`
    let remainder_pos_orientation = times(
        minus(constant(1), times(constant(2), witness(dividend_signed.is_negative))),
        remainder_signed.expr(),
    );
    let divisor_pos_orientation = times(
        minus(constant(1), times(constant(2), witness(divisor_signed.is_negative))),
        divisor_signed.expr(),
    );
    let remainder_nonnegative = AssertLtConfig::construct_circuit(
        cb,
        "oriented_remainder_nonnegative",
        constant(MODULUS_U64 - 1),
        remainder_pos_orientation.clone(),
    );
    let internal = InternalDivRem::Signed {
        dividend_signed,
        divisor_signed,
        quotient_signed,
        remainder_signed,
        is_dividend_signed_min,
        is_divisor_neg_one,
        is_signed_overflow,
        remainder_nonnegative,
    };
    proof {
        reveal(oriented);
        assert forall|row: Seq<Goldilocks>| #[trigger]
            cb.looked_up(row) == before.looked_up(row) + internal.lookups(row) by {
            assert(cb.looked_up(row) =~= before.looked_up(row) + internal.lookups(row));
        }
        assert forall|row: Seq<Goldilocks>| #[trigger]
            cb.satisfied(row) == (before.satisfied(row) && internal.holds(ops, row)) by {}
    }
    (internal, remainder_pos_orientation, divisor_pos_orientation)
}

impl<I: DivRemInstruction> ArithInstruction<I> {
    /// Builds the circuit.
    pub fn construct_circuit(cb: &mut CircuitBuilder) -> (r: Result<DivRemConfig, ZKVMError>)
        requires
            old(cb).wf(),
            old(cb).num_witin + 31 <= u16::MAX,
        ensures
            final(cb).wf(),
            r matches Ok(config) && config.builds(I::spec_inst_kind(), *old(cb), *final(cb)),
    {
        proof {
            I::lemma_kind();
        }
        let kind = I::inst_kind();
        let ghost before = *cb;
        let dividend = UInt::new_unchecked(cb);
        let divisor = UInt::new_unchecked(cb);
        let quotient = UInt::new("quotient", cb);
        let remainder = UInt::new("remainder", cb);
        let operands = Operands { dividend, divisor, quotient, remainder };

        let signed: bool = matches!(kind, InsnKind::DIV | InsnKind::REM);
        let (internal_config, rem_e, div_e) = if signed {
            construct_signed(cb, operands)
        } else {
            cb.require_equal(
                "unsigned_division_relation",
                dividend.value(),
                plus(times(divisor.value(), quotient.value()), remainder.value()),
            );
            (InternalDivRem::Unsigned, remainder.value(), divisor.value())
        };
        let ghost after_internal = *cb;
        proof {
            assert forall|row: Seq<Goldilocks>| #[trigger]
                cb.looked_up(row) == before.looked_up(row) + (quotient.lookups(row)
                    + remainder.lookups(row) + internal_config.lookups(row)) by {
                assert(cb.looked_up(row) =~= before.looked_up(row) + (quotient.lookups(row)
                    + remainder.lookups(row) + internal_config.lookups(row)));
            }
        }

        let is_divisor_zero = IsZeroConfig::construct_circuit(
            cb,
            "is_divisor_zero",
            divisor.value(),
        );

        // for zero division the quotient is the word with all bits set
        cb.condition_require_equal(
            "quotient_zero_division",
            witness(is_divisor_zero.is_zero),
            quotient.value(),
            constant(0xffff_ffff),
            quotient.value(),
        );

        let is_remainder_lt_divisor = IsLtConfig::construct_circuit(
            cb,
            "is_remainder_lt_divisor",
            rem_e,
            div_e,
        );

        // exactly one of `remainder < divisor` and `divisor = 0`
        cb.require_equal(
            "remainder < divisor iff divisor nonzero",
            plus(witness(is_divisor_zero.is_zero), is_remainder_lt_divisor.expr()),
            constant(1),
        );

        let rd_written = if matches!(kind, InsnKind::DIVU | InsnKind::DIV) {
            quotient.register_expr()
        } else {
            remainder.register_expr()
        };
        let r_insn = RInstructionConfig::construct_circuit(
            cb,
            kind,
            dividend.register_expr(),
            divisor.register_expr(),
            rd_written,
        );
        let config = DivRemConfig {
            operands,
            internal_config,
            is_divisor_zero,
            is_remainder_lt_divisor,
            r_insn,
        };
        proof {
            assert forall|row: Seq<Goldilocks>| #[trigger]
                cb.looked_up(row) == before.looked_up(row) + config.lookups(row) by {
                assert(cb.looked_up(row) =~= before.looked_up(row) + config.lookups(row));
            }
            assert forall|row: Seq<Goldilocks>| #[trigger]
                cb.satisfied(row) == (before.satisfied(row) && config.holds(row)) by {
                assert(after_internal.satisfied(row) == (before.satisfied(row)
                    && quotient.in_range(row) && remainder.in_range(row) && internal_config.holds(
                    operands,
                    row,
                )));
            }
        }
        Ok(config)
    }
}

impl DivRemConfig {
    /// What the circuit of an instruction adds to a circuit builder.
    pub open spec fn builds(
        &self,
        kind: InsnKind,
        before: CircuitBuilder,
        after: CircuitBuilder,
    ) -> bool {
        &&& self.at(before.num_witin as int)
        &&& self.internal_config is Signed == is_signed_kind(kind)
        &&& after.num_witin == before.num_witin + self.size()
        &&& forall|row: Seq<Goldilocks>| #[trigger]
            after.satisfied(row) == (before.satisfied(row) && self.holds(row))
        &&& forall|row: Seq<Goldilocks>| #[trigger]
            after.looked_up(row) == before.looked_up(row) + self.lookups(row)
        &&& adds_records(before.records@, after.records@)
        &&& forall|row: Seq<Goldilocks>, k: int|
            0 <= k < 6 ==> #[trigger] record_values(
                after.records@[before.records@.len() + k],
                row,
            ) == self.r_insn.bus(
                kind,
                self.operands.dividend.lookups(row),
                self.operands.divisor.lookups(row),
                self.output(kind).lookups(row),
                row,
            )[k]
    }

    /// The word that the instruction writes.
    pub open spec fn output(&self, kind: InsnKind) -> UInt {
        if kind == InsnKind::DIV || kind == InsnKind::DIVU {
            self.operands.quotient
        } else {
            self.operands.remainder
        }
    }
}

/// The words that the machine computes satisfy the signed relation.
proof fn lemma_signed_words_complete(n: int, d: int)
    requires
        0 <= n < 0x1_0000_0000,
        0 <= d < 0x1_0000_0000,
    ensures
        ({
            let (q, r) = div_words(true, n, d);
            let pos_r = negate_if(n >= 0x8000_0000, signed_word(r));
            let pos_d = negate_if(d >= 0x8000_0000, signed_word(d));
            &&& 0 <= q < 0x1_0000_0000
            &&& 0 <= r < 0x1_0000_0000
            &&& (if n == 0x8000_0000 && d == 0xffff_ffff {
                0x8000_0000
            } else {
                signed_word(n)
            }) == signed_word(q) * signed_word(d) + signed_word(r)
            &&& 0 <= pos_r <= 0x8000_0000
            &&& 0 <= pos_d <= 0x8000_0000
            &&& d != 0 ==> pos_r < pos_d
            &&& d == 0 ==> pos_d == 0
        }),
{
    let (sn, sd) = (signed_word(n), signed_word(d));
    let (q, r) = div_words(true, n, d);
    if d == 0 {
        assert(signed_word(q) * 0 == 0);
    } else {
        lemma_trunc(sn, sd);
        let (tq, tr) = (trunc_div(sn, sd), trunc_rem(sn, sd));
        if n == 0x8000_0000 && d == 0xffff_ffff {
            assert((-sn) / (-sd) == 0x8000_0000) by {
                assert(0x8000_0000int / 1 == 0x8000_0000);
            }
            assert(tq == 0x8000_0000);
            assert(tr == 0);
            assert(signed_word(q) == -0x8000_0000);
            assert(signed_word(q) * (-1) == 0x8000_0000);
        } else {
            lemma_quotient_fits(sn, sd, tq, tr);
            assert(signed_word(q) == tq);
            assert(signed_word(r) == tr);
        }
    }
}

/// Only the quotient of `-2^31` and `-1` does not fit in a signed word.
proof fn lemma_quotient_fits(n: int, d: int, q: int, r: int)
    requires
        -0x8000_0000 <= n < 0x8000_0000,
        -0x8000_0000 <= d < 0x8000_0000,
        d != 0,
        n != -0x8000_0000 || d != -1,
        n == q * d + r,
        n >= 0 ==> 0 <= r,
        n < 0 ==> r <= 0,
        negate_if(r < 0, r) < negate_if(d < 0, d),
    ensures
        -0x8000_0000 <= q < 0x8000_0000,
        -0x8000_0000 < r < 0x8000_0000,
{
    if q >= 0x8000_0000 || q < -0x8000_0000 {
        if d == 1 || d == -1 {
            assert(r == 0);
            assert(q * d == if d == 1 {
                q
            } else {
                -q
            }) by (nonlinear_arith)
                requires
                    d == 1 || d == -1,
            ;
        } else if q * d >= 0 {
            assert(q * d >= 0x1_0000_0000) by (nonlinear_arith)
                requires
                    q * d >= 0,
                    q >= 0x8000_0000 || q < -0x8000_0000,
                    d >= 2 || d <= -2,
            ;
        } else {
            assert(q * d <= -0x1_0000_0000) by (nonlinear_arith)
                requires
                    q * d < 0,
                    q >= 0x8000_0000 || q < -0x8000_0000,
                    d >= 2 || d <= -2,
            ;
        }
    }
}

/// The words that the machine computes are a quotient and a remainder. On division by zero they are
/// the word with all bits set and the dividend. Otherwise the dividend is the divisor times the
/// quotient plus the remainder, which is smaller than the divisor; of signed words this holds of the
/// integers that they mean, and the remainder has the sign of the dividend. The one quotient that
/// does not fit is the dividend itself.
pub proof fn lemma_div_words(signed: bool, n: int, d: int)
    requires
        0 <= n < 0x1_0000_0000,
        0 <= d < 0x1_0000_0000,
    ensures
        ({
            let (q, r) = div_words(signed, n, d);
            let sn = if n >= 0x8000_0000 {
                n - 0x1_0000_0000
            } else {
                n
            };
            let sd = if d >= 0x8000_0000 {
                d - 0x1_0000_0000
            } else {
                d
            };
            let sq = if q >= 0x8000_0000 {
                q - 0x1_0000_0000
            } else {
                q
            };
            let sr = if r >= 0x8000_0000 {
                r - 0x1_0000_0000
            } else {
                r
            };
            let overflow = sn == -0x8000_0000 && sd == -1;
            &&& 0 <= q < 0x1_0000_0000
            &&& 0 <= r < 0x1_0000_0000
            &&& d == 0 ==> q == 0xffff_ffff && r == n
            &&& d != 0 && !signed ==> n == q * d + r && r < d
            &&& d != 0 && signed && overflow ==> q == n && r == 0
            &&& d != 0 && signed && !overflow ==> sn == sq * sd + sr
            &&& d != 0 && signed && sn >= 0 ==> 0 <= sr
            &&& d != 0 && signed && sn < 0 ==> sr <= 0
            &&& d != 0 && signed ==> -sd < sr < sd || sd < sr < -sd
        }),
{
    let (q, r) = div_words(signed, n, d);
    if signed {
        lemma_signed_words_complete(n, d);
        if d != 0 {
            let (sn, sd) = (signed_word(n), signed_word(d));
            lemma_trunc(sn, sd);
            if n == 0x8000_0000 && d == 0xffff_ffff {
                assert((-sn) / (-sd) == 0x8000_0000) by {
                    assert(0x8000_0000int / 1 == 0x8000_0000);
                }
            }
        }
    } else if d != 0 {
        lemma_fundamental_div_mod(n, d);
        lemma_mod_bound(n, d);
        assert(d * q == q * d) by (nonlinear_arith);
        assert(q <= n) by (nonlinear_arith)
            requires
                n == d * q + r,
                d >= 1,
                r >= 0,
                n >= 0,
        ;
        lemma_div_pos_is_pos(n, d);
    }
}

/// Assigns the signs of four words.
fn assign_signs(
    signs: [Signed; 4],
    words: [u32; 4],
    row: &mut Vec<Goldilocks>,
    lkm: &mut LkMultiplicity,
)
    requires
        forall|k: int|
            0 <= k < 4 ==> (#[trigger] signs@[k]).is_negative.id == signs@[0].is_negative.id + k,
        signs@[0].is_negative.id + 4 <= old(row)@.len(),
    ensures
        forall|k: int|
            0 <= k < 4 ==> col(final(row)@, (#[trigger] signs@[k]).is_negative) == sign_bit(
                words@[k],
            ),
        final(row)@.len() == old(row)@.len(),
        forall|i: int|
            0 <= i < final(row)@.len() && !(signs@[0].is_negative.id <= i
                < signs@[0].is_negative.id + 4) ==> #[trigger] final(row)@[i] == old(row)@[i],
        final(lkm)@ == old(lkm)@ + seq![
            shifted_word(words@[0]),
            shifted_word(words@[1]),
            shifted_word(words@[2]),
            shifted_word(words@[3]),
        ],
{
    let ghost want = seq![
        shifted_word(words@[0]),
        shifted_word(words@[1]),
        shifted_word(words@[2]),
        shifted_word(words@[3]),
    ];
    let mut k: usize = 0;
    while k < 4
        invariant
            k <= 4,
            forall|k: int|
                0 <= k < 4 ==> (#[trigger] signs@[k]).is_negative.id == signs@[0].is_negative.id
                    + k,
            signs@[0].is_negative.id + 4 <= row@.len(),
            row@.len() == old(row)@.len(),
            forall|j: int|
                0 <= j < k ==> col(row@, (#[trigger] signs@[j]).is_negative) == sign_bit(words@[j]),
            forall|i: int|
                0 <= i < row@.len() && !(signs@[0].is_negative.id <= i < signs@[0].is_negative.id
                    + 4) ==> #[trigger] row@[i] == old(row)@[i],
            want == seq![
                shifted_word(words@[0]),
                shifted_word(words@[1]),
                shifted_word(words@[2]),
                shifted_word(words@[3]),
            ],
            lkm@ == old(lkm)@ + want.take(k as int),
        decreases 4 - k,
    {
        signs[k].assign_instance(row, lkm, words[k]);
        assert(lkm@ =~= old(lkm)@ + want.take(k + 1));
        k = k + 1;
    }
    assert(want.take(4) =~= want);
}

/// Assigns the test for the one division that overflows.
fn assign_flags(
    is_min: &IsZeroConfig,
    is_neg_one: &IsZeroConfig,
    is_overflow: WitIn,
    row: &mut Vec<Goldilocks>,
    dividend: u32,
    divisor: u32,
)
    requires
        is_min.at(is_min.is_zero.id as int),
        is_neg_one.at(is_min.is_zero.id + 2),
        is_overflow.id == is_min.is_zero.id + 4,
        is_min.is_zero.id + 5 <= old(row)@.len(),
    ensures
        is_min.holds(f_sub(dividend as int, 0x8000_0000), final(row)@),
        is_neg_one.holds(f_sub(divisor as int, 0xffff_ffff), final(row)@),
        col(final(row)@, is_overflow) == if dividend == 0x8000_0000 && divisor == 0xffff_ffff {
            1int
        } else {
            0int
        },
        final(row)@.len() == old(row)@.len(),
        forall|i: int|
            0 <= i < final(row)@.len() && !(is_min.is_zero.id <= i < is_min.is_zero.id + 5)
                ==> #[trigger] final(row)@[i] == old(row)@[i],
{
    let min_diff = Goldilocks::from_canonical_u64(dividend as u64)
        - Goldilocks::from_canonical_u64(0x8000_0000);
    is_min.assign_instance(row, min_diff);
    let neg_one_diff = Goldilocks::from_canonical_u64(divisor as u64)
        - Goldilocks::from_canonical_u64(0xffff_ffff);
    is_neg_one.assign_instance(row, neg_one_diff);
    let overflow: u64 = if dividend == 0x8000_0000 && divisor == 0xffff_ffff {
        1
    } else {
        0
    };
    set_val(row, is_overflow, overflow);
}

/// Assigns the signed part of the row.
#[verifier::spinoff_prover]
#[verifier::rlimit(60)]
fn assign_signed(
    internal: &InternalDivRem,
    ops: &Operands,
    row: &mut Vec<Goldilocks>,
    lkm: &mut LkMultiplicity,
    dividend: u32,
    divisor: u32,
    quotient: u32,
    remainder: u32,
) -> (r: (i64, i64))
    requires
        internal is Signed,
        internal.at(*ops, ops.dividend.lo.id + 8),
        ops.dividend.at(ops.dividend.lo.id as int),
        ops.divisor.at(ops.dividend.lo.id + 2),
        ops.quotient.at(ops.dividend.lo.id + 4),
        ops.remainder.at(ops.dividend.lo.id + 6),
        ops.dividend.lo.id + 19 <= old(row)@.len(),
        ops.dividend.holds_word(old(row)@, dividend),
        ops.divisor.holds_word(old(row)@, divisor),
        ops.quotient.holds_word(old(row)@, quotient),
        ops.remainder.holds_word(old(row)@, remainder),
        (quotient as int, remainder as int) == div_words(true, dividend as int, divisor as int),
    ensures
        internal.holds(*ops, final(row)@),
        internal.normalized(*ops, final(row)@) == (
            r.0 as int % modulus(),
            r.1 as int % modulus(),
        ),
        0 <= r.0 <= 0x8000_0000,
        0 <= r.1 <= 0x8000_0000,
        divisor != 0 ==> r.0 < r.1,
        divisor == 0 ==> r.1 == 0,
        final(lkm)@ == old(lkm)@ + internal.lookups(final(row)@),
        final(row)@.len() == old(row)@.len(),
        forall|i: int|
            0 <= i < final(row)@.len() && !(ops.dividend.lo.id + 8 <= i < ops.dividend.lo.id + 19)
                ==> #[trigger] final(row)@[i] == old(row)@[i],
{
    proof {
        lemma_signed_words_complete(dividend as int, divisor as int);
    }
    match internal {
        InternalDivRem::Unsigned => (0, 0),
        InternalDivRem::Signed {
            dividend_signed,
            divisor_signed,
            quotient_signed,
            remainder_signed,
            is_dividend_signed_min,
            is_divisor_neg_one,
            is_signed_overflow,
            remainder_nonnegative,
        } => {
            assign_signs(
                [*dividend_signed, *divisor_signed, *quotient_signed, *remainder_signed],
                [dividend, divisor, quotient, remainder],
                row,
                lkm,
            );
            assign_flags(
                is_dividend_signed_min,
                is_divisor_neg_one,
                *is_signed_overflow,
                row,
                dividend,
                divisor,
            );
            let n: i64 = to_signed(dividend);
            let d: i64 = to_signed(divisor);
            let rem: i64 = to_signed(remainder);
            let pos_r: i64 = if n < 0 {
                -rem
            } else {
                rem
            };
            let pos_d: i64 = if d < 0 {
                -d
            } else {
                d
            };
            remainder_nonnegative.assign_instance_signed(row, lkm, -1, pos_r);
            proof {
                lemma_signed_assigned(
                    *internal,
                    *ops,
                    row@,
                    dividend,
                    divisor,
                    quotient,
                    remainder,
                );
                assert(lkm@ =~= old(lkm)@ + internal.lookups(row@));
            }
            (pos_r, pos_d)
        },
    }
}

/// The signed part of an assigned row holds.
#[verifier::spinoff_prover]
#[verifier::rlimit(60)]
proof fn lemma_signed_assigned(
    internal: InternalDivRem,
    ops: Operands,
    row: Seq<Goldilocks>,
    dividend: u32,
    divisor: u32,
    quotient: u32,
    remainder: u32,
)
    requires
        internal is Signed,
        internal.at(ops, ops.dividend.lo.id + 8),
        ops.dividend.holds_word(row, dividend),
        ops.divisor.holds_word(row, divisor),
        ops.quotient.holds_word(row, quotient),
        ops.remainder.holds_word(row, remainder),
        (quotient as int, remainder as int) == div_words(true, dividend as int, divisor as int),
        ({
            let n = signed_word(dividend as int);
            let pos_r = negate_if(n < 0, signed_word(remainder as int));
            &&& col(row, internal->dividend_signed.is_negative) == sign_bit(dividend)
            &&& col(row, internal->divisor_signed.is_negative) == sign_bit(divisor)
            &&& col(row, internal->quotient_signed.is_negative) == sign_bit(quotient)
            &&& col(row, internal->remainder_signed.is_negative) == sign_bit(remainder)
            &&& internal->is_dividend_signed_min.holds(f_sub(dividend as int, 0x8000_0000), row)
            &&& internal->is_divisor_neg_one.holds(f_sub(divisor as int, 0xffff_ffff), row)
            &&& col(row, internal->is_signed_overflow) == if dividend == 0x8000_0000 && divisor
                == 0xffff_ffff {
                1int
            } else {
                0int
            }
            &&& internal->remainder_nonnegative.holds(-1 % modulus(), pos_r % modulus(), row)
        }),
    ensures
        internal.holds(ops, row),
        internal.normalized(ops, row) == (
            negate_if(
                signed_word(dividend as int) < 0,
                signed_word(remainder as int),
            ) % modulus(),
            negate_if(signed_word(divisor as int) < 0, signed_word(divisor as int)) % modulus(),
        ),
        internal->dividend_signed.shifted(row) == shifted_word(dividend),
        internal->divisor_signed.shifted(row) == shifted_word(divisor),
        internal->quotient_signed.shifted(row) == shifted_word(quotient),
        internal->remainder_signed.shifted(row) == shifted_word(remainder),
{
    let m = modulus();
    let (sn, sd) = (signed_word(dividend as int), signed_word(divisor as int));
    let (sq, sr) = (signed_word(quotient as int), signed_word(remainder as int));
    lemma_signed_words_complete(dividend as int, divisor as int);
    lemma_signed_complete(internal->dividend_signed, row, dividend);
    lemma_signed_complete(internal->divisor_signed, row, divisor);
    lemma_signed_complete(internal->quotient_signed, row, quotient);
    lemma_signed_complete(internal->remainder_signed, row, remainder);
    lemma_word_val(ops.dividend, row, dividend);
    lemma_word_val(ops.divisor, row, divisor);
    lemma_flag(internal->is_dividend_signed_min, dividend as int, 0x8000_0000, row);
    lemma_flag(internal->is_divisor_neg_one, divisor as int, 0xffff_ffff, row);
    let overflow = dividend == 0x8000_0000 && divisor == 0xffff_ffff;
    let flag = col(row, internal->is_signed_overflow);
    assert(flag == f_mul(
        col(row, internal->is_dividend_signed_min.is_zero),
        col(row, internal->is_divisor_neg_one.is_zero),
    )) by {
        assert(0 * 0 == 0 && 0 * 1 == 0 && 1 * 0 == 0 && 1 * 1 == 1);
    }
    let target = if overflow {
        0x8000_0000
    } else {
        sn
    };
    lemma_signed_relation_complete(target, sd, sq, sr);
    lemma_mod_bound(sn, m);
    lemma_choose_value(flag, 0x8000_0000, sn % m);
    lemma_small_mod(0x8000_0000, m as nat);
    lemma_oriented(sn < 0, sr, sr % m);
    lemma_oriented(sd < 0, sd, sd % m);
    assert((-1) % m == m - 1);
}

/// The top bit of a word.
pub open spec fn sign_bit(v: u32) -> int {
    if v >= 0x8000_0000 {
        1
    } else {
        0
    }
}

proof fn lemma_signed_relation_complete(target: int, sd: int, sq: int, sr: int)
    requires
        target == sq * sd + sr,
    ensures
        target % modulus() == f_add(f_mul(sq % modulus(), sd % modulus()), sr % modulus()),
{
    let m = modulus();
    lemma_mul_mod_noop(sq, sd, m);
    lemma_add_mod_noop(sq * sd, sr, m);
}

/// Assigns the four words and looks up the quotient and the remainder.
fn assign_operands(
    ops: &Operands,
    row: &mut Vec<Goldilocks>,
    lkm: &mut LkMultiplicity,
    dividend: u32,
    divisor: u32,
    quotient: u32,
    remainder: u32,
)
    requires
        ops.dividend.at(ops.dividend.lo.id as int),
        ops.divisor.at(ops.dividend.lo.id + 2),
        ops.quotient.at(ops.dividend.lo.id + 4),
        ops.remainder.at(ops.dividend.lo.id + 6),
        ops.dividend.lo.id + 8 <= old(row)@.len(),
    ensures
        final(row)@.len() == old(row)@.len(),
        ops.dividend.holds_word(final(row)@, dividend),
        ops.divisor.holds_word(final(row)@, divisor),
        ops.quotient.holds_word(final(row)@, quotient),
        ops.remainder.holds_word(final(row)@, remainder),
        final(lkm)@ == old(lkm)@ + (ops.quotient.lookups(final(row)@) + ops.remainder.lookups(
            final(row)@,
        )),
{
    ops.dividend.assign(row, dividend);
    ops.divisor.assign(row, divisor);
    ops.quotient.assign(row, quotient);
    ops.remainder.assign(row, remainder);
    lookup_word(lkm, quotient);
    lookup_word(lkm, remainder);
    proof {
        lemma_word_val(ops.quotient, row@, quotient);
        lemma_word_val(ops.remainder, row@, remainder);
        assert(lkm@ =~= old(lkm)@ + (ops.quotient.lookups(row@) + ops.remainder.lookups(row@)));
    }
}

/// A row with its parts assigned holds.
proof fn lemma_assigned(
    config: &DivRemConfig,
    row: Seq<Goldilocks>,
    dividend: u32,
    divisor: u32,
    quotient: u32,
    remainder: u32,
)
    requires
        config.operands.dividend.holds_word(row, dividend),
        config.operands.divisor.holds_word(row, divisor),
        config.operands.quotient.holds_word(row, quotient),
        config.operands.remainder.holds_word(row, remainder),
        divisor == 0 ==> quotient == 0xffff_ffff,
        config.internal_config.holds(config.operands, row),
        config.is_divisor_zero.holds(divisor as int, row),
        ({
            let (r, d) = config.internal_config.normalized(config.operands, row);
            config.is_remainder_lt_divisor.holds(r, d, row)
        }),
        col(row, config.is_remainder_lt_divisor.is_lt) == if divisor == 0 {
            0int
        } else {
            1int
        },
    ensures
        config.holds(row),
{
    lemma_word_val(config.operands.dividend, row, dividend);
    lemma_word_val(config.operands.divisor, row, divisor);
    lemma_word_val(config.operands.quotient, row, quotient);
    lemma_word_val(config.operands.remainder, row, remainder);
    lemma_is_zero(config.is_divisor_zero, divisor as int, row);
    lemma_choose_value(col(row, config.is_divisor_zero.is_zero), 0xffff_ffff, quotient as int);
}

impl<I: DivRemInstruction> Instruction for ArithInstruction<I> {
    type InstructionConfig = DivRemConfig;

    open spec fn fits(config: DivRemConfig, num_witin: int) -> bool {
        &&& config.at(config.operands.dividend.lo.id as int)
        &&& config.operands.dividend.lo.id + config.size() <= num_witin
    }

    open spec fn accepts(step: StepRecord) -> bool {
        step.rs1 is Some && step.rs2 is Some && step.rd is Some
    }

    open spec fn assigned(config: DivRemConfig, row: Seq<Goldilocks>, step: StepRecord) -> bool {
        config.assigned(row, step)
    }

    open spec fn lookups(config: DivRemConfig, row: Seq<Goldilocks>) -> Seq<int> {
        config.lookups(row)
    }

    open spec fn spec_name() -> Seq<char> {
        spec_kind_name(I::spec_inst_kind())@
    }

    fn name() -> (r: String)
    {
        kind_name(I::inst_kind())
    }

    #[verifier::spinoff_prover]
    #[verifier::rlimit(60)]
    fn assign_instance(
        config: &DivRemConfig,
        instance: &mut Vec<Goldilocks>,
        lk_multiplicity: &mut LkMultiplicity,
        step: &StepRecord,
    ) -> (r: Result<(), ZKVMError>)
    {
        let dividend: u32 = step.rs1.unwrap();
        let divisor: u32 = step.rs2.unwrap();
        let signed: bool = matches!(config.internal_config, InternalDivRem::Signed { .. });
        let (quotient, remainder) = div_rem(signed, dividend, divisor);
        let ops = config.operands;
        assign_operands(&ops, instance, lk_multiplicity, dividend, divisor, quotient, remainder);
        let (rem_pos, div_pos) = if signed {
            assign_signed(
                &config.internal_config,
                &ops,
                instance,
                lk_multiplicity,
                dividend,
                divisor,
                quotient,
                remainder,
            )
        } else {
            proof {
                lemma_unsigned_complete(config, instance@, dividend, divisor, quotient, remainder);
            }
            (remainder as i64, divisor as i64)
        };
        let ghost with_internal = instance@;
        config.is_divisor_zero.assign_instance(
            instance,
            Goldilocks::from_canonical_u64(divisor as u64),
        );
        config.is_remainder_lt_divisor.assign_instance_signed(
            instance,
            lk_multiplicity,
            rem_pos,
            div_pos,
        );
        config.r_insn.assign_instance(instance, step);
        proof {
            let row = instance@;
            lemma_internal_frame(config, with_internal, row);
            lemma_assigned(config, row, dividend, divisor, quotient, remainder);
            assert(lk_multiplicity@ =~= old(lk_multiplicity)@ + config.lookups(row));
        }
        Ok(())
    }
}

/// The unsigned relation holds of the words that the machine computes.
proof fn lemma_unsigned_complete(
    config: &DivRemConfig,
    row: Seq<Goldilocks>,
    n: u32,
    d: u32,
    q: u32,
    r: u32,
)
    requires
        config.internal_config is Unsigned,
        config.operands.dividend.holds_word(row, n),
        config.operands.divisor.holds_word(row, d),
        config.operands.quotient.holds_word(row, q),
        config.operands.remainder.holds_word(row, r),
        (q as int, r as int) == div_words(false, n as int, d as int),
    ensures
        config.internal_config.holds(config.operands, row),
        config.internal_config.normalized(config.operands, row) == (
            r as int % modulus(),
            d as int % modulus(),
        ),
        d != 0 ==> r < d,
{
    let m = modulus();
    lemma_word_val(config.operands.dividend, row, n);
    lemma_word_val(config.operands.divisor, row, d);
    lemma_word_val(config.operands.quotient, row, q);
    lemma_word_val(config.operands.remainder, row, r);
    lemma_small_mod(r as nat, m as nat);
    lemma_small_mod(d as nat, m as nat);
    if d == 0 {
        assert(0 * q == 0);
    } else {
        lemma_fundamental_div_mod(n as int, d as int);
        lemma_mod_bound(n as int, d as int);
    }
    assert(n == d * q + r);
    lemma_mul_nonneg(d as int, q as int);
    lemma_small_mod((d * q) as nat, m as nat);
    lemma_small_mod(n as nat, m as nat);
}

proof fn lemma_mul_nonneg(x: int, y: int)
    by (nonlinear_arith)
    requires
        x >= 0,
        y >= 0,
    ensures
        x * y >= 0,
{
}

/// The division relation depends on the columns before the zero test only.
proof fn lemma_internal_frame(config: &DivRemConfig, a: Seq<Goldilocks>, b: Seq<Goldilocks>)
    requires
        config.at(config.operands.dividend.lo.id as int),
        a.len() == b.len(),
        config.operands.dividend.lo.id + config.size() <= a.len(),
        forall|i: int|
            config.operands.dividend.lo.id <= i < config.operands.dividend.lo.id + 8
                + config.internal_config.size() ==> #[trigger] a[i] == b[i],
    ensures
        config.internal_config.holds(config.operands, a) == config.internal_config.holds(
            config.operands,
            b,
        ),
        config.internal_config.normalized(config.operands, a)
            == config.internal_config.normalized(config.operands, b),
        config.internal_config.lookups(a) == config.internal_config.lookups(b),
{
    assert(config.internal_config.lookups(a) =~= config.internal_config.lookups(b));
}

} // verus!
