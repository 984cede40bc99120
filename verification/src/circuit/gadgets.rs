//! Gadgets: 32-bit words in limbs, zero and equality tests, comparisons and signs.
use vstd::arithmetic::div_mod::*;
use vstd::prelude::*;

use crate::circuit::plain::{cell, constant, minus, plain, plus, times, value, witness};
use crate::circuit::CircuitBuilder;
use crate::expression::{Expression, WitIn};
use crate::field::{f_add, f_mul, f_sub, group_field, modulus, Goldilocks};
use crate::prime::lemma_no_zero_divisors;

verus! {

broadcast use group_field;

/// The number of 16-bit limbs of a word.
pub const UINT_LIMBS: usize = 2;

/// The value of a witness in a row.
pub open spec fn col(row: Seq<Goldilocks>, w: WitIn) -> int {
    cell(row, w.id as int)@
}

/// The values that an assignment looks up in the range table.
#[derive(Debug)]
pub struct LkMultiplicity {
    pub u16_lookups: Vec<u64>,
}

impl View for LkMultiplicity {
    type V = Seq<int>;

    open spec fn view(&self) -> Seq<int> {
        self.u16_lookups@.map_values(|x: u64| x as int)
    }
}

impl LkMultiplicity {
    /// No lookups.
    pub fn new() -> (r: Self)
        ensures
            r@ == Seq::<int>::empty(),
    {
        let r = LkMultiplicity { u16_lookups: Vec::new() };
        assert(r@ =~= Seq::<int>::empty());
        r
    }

    /// Looks up one value.
    pub fn assert_u16(&mut self, v: u64)
        ensures
            final(self)@ == old(self)@.push(v as int),
    {
        self.u16_lookups.push(v);
        assert(self@ =~= old(self)@.push(v as int));
    }
}

/// Assigns a cell of a row.
pub fn set_val(row: &mut Vec<Goldilocks>, w: WitIn, v: u64)
    requires
        w.id < old(row)@.len(),
        v < modulus(),
    ensures
        final(row)@ == old(row)@.update(w.id as int, Goldilocks { value: v }),
{
    row.set(w.id as usize, Goldilocks { value: v });
}

/// A 32-bit word in two 16-bit limbs.
#[derive(Debug, Clone, Copy)]
pub struct UInt {
    pub lo: WitIn,
    pub hi: WitIn,
}

impl UInt {
    /// The word that the limbs spell, in the field.
    pub open spec fn val(&self, row: Seq<Goldilocks>) -> int {
        f_add(col(row, self.lo), f_mul(65536, col(row, self.hi)))
    }

    /// The limbs are 16-bit values.
    pub open spec fn in_range(&self, row: Seq<Goldilocks>) -> bool {
        col(row, self.lo) < 65536 && col(row, self.hi) < 65536
    }

    /// The limbs hold the word.
    pub open spec fn holds_word(&self, row: Seq<Goldilocks>, v: u32) -> bool {
        col(row, self.lo) == v % 65536 && col(row, self.hi) == v / 65536
    }

    /// The looked up limbs.
    pub open spec fn lookups(&self, row: Seq<Goldilocks>) -> Seq<int> {
        seq![col(row, self.lo), col(row, self.hi)]
    }

    /// The columns start at `base`.
    pub open spec fn at(&self, base: int) -> bool {
        self.lo.id == base && self.hi.id == base + 1
    }

    /// Limbs without range lookups.
    pub fn new_unchecked(cb: &mut CircuitBuilder) -> (r: UInt)
        requires
            old(cb).wf(),
            old(cb).num_witin + 2 <= u16::MAX,
        ensures
            final(cb).wf(),
            final(cb).records == old(cb).records,
            r.at(old(cb).num_witin as int),
            final(cb).num_witin == old(cb).num_witin + 2,
            forall|row: Seq<Goldilocks>| #[trigger]
                final(cb).satisfied(row) == old(cb).satisfied(row),
            forall|row: Seq<Goldilocks>| #[trigger]
                final(cb).looked_up(row) == old(cb).looked_up(row),
    {
        let lo = cb.create_witin();
        let hi = cb.create_witin();
        UInt { lo, hi }
    }

    /// Limbs with range lookups.
    pub fn new(name: &'static str, cb: &mut CircuitBuilder) -> (r: UInt)
        requires
            old(cb).wf(),
            old(cb).num_witin + 2 <= u16::MAX,
        ensures
            final(cb).wf(),
            final(cb).records == old(cb).records,
            r.at(old(cb).num_witin as int),
            final(cb).num_witin == old(cb).num_witin + 2,
            forall|row: Seq<Goldilocks>| #[trigger]
                final(cb).satisfied(row) == (old(cb).satisfied(row) && r.in_range(row)),
            forall|row: Seq<Goldilocks>| #[trigger]
                final(cb).looked_up(row) == old(cb).looked_up(row) + r.lookups(row),
    {
        let ghost before = *cb;
        let r = UInt::new_unchecked(cb);
        cb.assert_u16(name, witness(r.lo));
        cb.assert_u16(name, witness(r.hi));
        proof {
            assert forall|row: Seq<Goldilocks>| #[trigger]
                cb.looked_up(row) == before.looked_up(row) + r.lookups(row) by {
                assert(cb.looked_up(row) =~= before.looked_up(row) + r.lookups(row));
            }
        }
        r
    }

    /// The word as an expression.
    pub fn value(&self) -> (r: Expression)
        ensures
            plain(r),
            forall|row: Seq<Goldilocks>| #[trigger] value(r, row) == self.val(row),
    {
        plus(witness(self.lo), times(constant(65536), witness(self.hi)))
    }

    /// The limbs as a register of the machine.
    pub fn register_expr(&self) -> (r: Vec<Expression>)
        ensures
            r@.len() == UINT_LIMBS,
            plain(r@[0]),
            plain(r@[1]),
            forall|row: Seq<Goldilocks>| #[trigger] value(r@[0], row) == col(row, self.lo),
            forall|row: Seq<Goldilocks>| #[trigger] value(r@[1], row) == col(row, self.hi),
    {
        let mut limbs: Vec<Expression> = Vec::new();
        limbs.push(witness(self.lo));
        limbs.push(witness(self.hi));
        limbs
    }

    /// Assigns the limbs of a word.
    pub fn assign(&self, row: &mut Vec<Goldilocks>, v: u32)
        requires
            self.lo.id < old(row)@.len(),
            self.hi.id < old(row)@.len(),
            self.lo.id != self.hi.id,
        ensures
            final(row)@ == old(row)@.update(
                self.lo.id as int,
                Goldilocks { value: (v % 65536) as u64 },
            ).update(self.hi.id as int, Goldilocks { value: (v / 65536) as u64 }),
            self.holds_word(final(row)@, v),
    {
        set_val(row, self.lo, (v % 65536) as u64);
        set_val(row, self.hi, (v / 65536) as u64);
    }
}

/// Looks up the limbs of a word.
pub fn lookup_word(lkm: &mut LkMultiplicity, v: u32)
    ensures
        final(lkm)@ == old(lkm)@ + seq![(v % 65536) as int, (v / 65536) as int],
{
    lkm.assert_u16((v % 65536) as u64);
    lkm.assert_u16((v / 65536) as u64);
    assert(lkm@ =~= old(lkm)@ + seq![(v % 65536) as int, (v / 65536) as int]);
}

/// Limbs in range spell a 32-bit word.
pub proof fn lemma_uint_val(lo: int, hi: int)
    requires
        0 <= lo < 65536,
        0 <= hi < 65536,
    ensures
        f_add(lo, f_mul(65536, hi)) == lo + 65536 * hi,
        0 <= lo + 65536 * hi < 0x1_0000_0000,
{
    lemma_small_mod((65536 * hi) as nat, modulus() as nat);
    lemma_small_mod((lo + 65536 * hi) as nat, modulus() as nat);
}

/// Limbs that hold a word spell it.
pub proof fn lemma_word_val(u: UInt, row: Seq<Goldilocks>, v: u32)
    requires
        u.holds_word(row, v),
    ensures
        u.val(row) == v,
        u.in_range(row),
        u.lookups(row) == seq![(v % 65536) as int, (v / 65536) as int],
{
    lemma_uint_val(col(row, u.lo), col(row, u.hi));
}

/// A test for zero: `is_zero + x * inverse = 1` and `is_zero * x = 0`.
#[derive(Debug, Clone, Copy)]
pub struct IsZeroConfig {
    pub is_zero: WitIn,
    pub inverse: WitIn,
}

impl IsZeroConfig {
    pub open spec fn at(&self, base: int) -> bool {
        self.is_zero.id == base && self.inverse.id == base + 1
    }

    pub open spec fn holds(&self, x: int, row: Seq<Goldilocks>) -> bool {
        &&& f_add(col(row, self.is_zero), f_mul(x, col(row, self.inverse))) == 1
        &&& f_mul(col(row, self.is_zero), x) == 0
    }

    pub fn construct_circuit(
        cb: &mut CircuitBuilder,
        name: &'static str,
        x: Expression,
    ) -> (r: IsZeroConfig)
        requires
            old(cb).wf(),
            plain(x),
            old(cb).num_witin + 2 <= u16::MAX,
        ensures
            final(cb).wf(),
            final(cb).records == old(cb).records,
            r.at(old(cb).num_witin as int),
            final(cb).num_witin == old(cb).num_witin + 2,
            forall|row: Seq<Goldilocks>| #[trigger]
                final(cb).satisfied(row) == (old(cb).satisfied(row) && r.holds(value(x, row), row)),
            forall|row: Seq<Goldilocks>| #[trigger]
                final(cb).looked_up(row) == old(cb).looked_up(row),
    {
        let is_zero = cb.create_witin();
        let inverse = cb.create_witin();
        let product = times(x.clone(), witness(inverse));
        cb.require_equal(name, plus(witness(is_zero), product), constant(1));
        cb.require_zero(name, times(witness(is_zero), x));
        IsZeroConfig { is_zero, inverse }
    }

    /// Assigns the witnesses of the test of `x`.
    pub fn assign_instance(&self, row: &mut Vec<Goldilocks>, x: Goldilocks)
        requires
            self.is_zero.id < old(row)@.len(),
            self.inverse.id < old(row)@.len(),
            self.is_zero.id != self.inverse.id,
        ensures
            self.holds(x@, final(row)@),
            x@ == 0 ==> col(final(row)@, self.inverse) == 0,
            final(row)@.len() == old(row)@.len(),
            forall|i: int|
                0 <= i < final(row)@.len() && i != self.is_zero.id && i != self.inverse.id
                    ==> #[trigger] final(row)@[i] == old(row)@[i],
    {
        match x.try_inverse() {
            None => {
                set_val(row, self.is_zero, 1);
                set_val(row, self.inverse, 0);
                proof {
                    assert(0 * 0 == 0 && 1 * 0 == 0);
                }
            },
            Some(inv) => {
                set_val(row, self.is_zero, 0);
                set_val(row, self.inverse, inv.as_canonical_u64());
                proof {
                    assert(0 * x@ == 0);
                    lemma_small_mod(inv@ as nat, modulus() as nat);
                }
            },
        }
    }
}

/// The test says one for zero and zero for anything else.
pub proof fn lemma_is_zero(c: IsZeroConfig, x: int, row: Seq<Goldilocks>)
    requires
        0 <= x < modulus(),
        c.holds(x, row),
    ensures
        col(row, c.is_zero) == if x == 0 {
            1int
        } else {
            0int
        },
{
    let z = col(row, c.is_zero);
    if x == 0 {
        assert(0 * col(row, c.inverse) == 0);
        lemma_small_mod(z as nat, modulus() as nat);
    } else {
        lemma_no_zero_divisors(z, x);
    }
}

/// The witnesses of a comparison: `lhs - rhs = diff - is_lt * 2^32` with a 32-bit `diff`.
#[derive(Debug, Clone, Copy)]
pub struct InnerLtConfig {
    pub diff: UInt,
}

impl InnerLtConfig {
    pub open spec fn holds(&self, lhs: int, rhs: int, is_lt: int, row: Seq<Goldilocks>) -> bool {
        &&& self.diff.in_range(row)
        &&& f_sub(lhs, rhs) == f_sub(self.diff.val(row), f_mul(is_lt, 0x1_0000_0000))
    }

    fn construct_circuit(
        cb: &mut CircuitBuilder,
        name: &'static str,
        lhs: Expression,
        rhs: Expression,
        is_lt: Expression,
    ) -> (r: InnerLtConfig)
        requires
            old(cb).wf(),
            plain(lhs),
            plain(rhs),
            plain(is_lt),
            old(cb).num_witin + 2 <= u16::MAX,
        ensures
            final(cb).wf(),
            final(cb).records == old(cb).records,
            r.diff.at(old(cb).num_witin as int),
            final(cb).num_witin == old(cb).num_witin + 2,
            forall|row: Seq<Goldilocks>| #[trigger]
                final(cb).satisfied(row) == (old(cb).satisfied(row) && r.holds(
                    value(lhs, row),
                    value(rhs, row),
                    value(is_lt, row),
                    row,
                )),
            forall|row: Seq<Goldilocks>| #[trigger]
                final(cb).looked_up(row) == old(cb).looked_up(row) + r.diff.lookups(row),
    {
        let diff = UInt::new(name, cb);
        let range = constant(0x1_0000_0000);
        cb.require_equal(name, minus(lhs, rhs), minus(diff.value(), times(is_lt, range)));
        InnerLtConfig { diff }
    }

    /// Assigns the difference for a comparison whose outcome is known.
    fn assign(&self, row: &mut Vec<Goldilocks>, lkm: &mut LkMultiplicity, diff: u32)
        requires
            self.diff.lo.id < old(row)@.len(),
            self.diff.hi.id < old(row)@.len(),
            self.diff.lo.id != self.diff.hi.id,
        ensures
            self.diff.holds_word(final(row)@, diff),
            final(row)@.len() == old(row)@.len(),
            forall|i: int|
                0 <= i < final(row)@.len() && i != self.diff.lo.id && i != self.diff.hi.id
                    ==> #[trigger] final(row)@[i] == old(row)@[i],
            final(lkm)@ == old(lkm)@ + self.diff.lookups(final(row)@),
    {
        self.diff.assign(row, diff);
        lookup_word(lkm, diff);
        proof {
            lemma_word_val(self.diff, row@, diff);
        }
    }
}

/// Small integers that are congruent are equal.
pub proof fn lemma_small_congruent(x: int, y: int)
    requires
        x % modulus() == y % modulus(),
        -modulus() < x - y < modulus(),
    ensures
        x == y,
{
    let m = modulus();
    lemma_fundamental_div_mod(x, m);
    lemma_fundamental_div_mod(y, m);
    let k = x / m - y / m;
    assert(x - y == m * k) by (nonlinear_arith)
        requires
            x == m * (x / m) + x % m,
            y == m * (y / m) + y % m,
            x % m == y % m,
            k == x / m - y / m,
    ;
    assert(k == 0) by (nonlinear_arith)
        requires
            x - y == m * k,
            -m < x - y < m,
            m > 0,
    ;
}

/// A comparison relates the integers behind the two sides.
pub proof fn lemma_inner_lt(
    c: InnerLtConfig,
    l: int,
    r: int,
    is_lt: int,
    row: Seq<Goldilocks>,
)
    requires
        c.holds(l % modulus(), r % modulus(), is_lt, row),
        is_lt == 0 || is_lt == 1,
        -0x2_0000_0000 <= l - r <= 0x2_0000_0000,
    ensures
        l - r + is_lt * 0x1_0000_0000 == c.diff.val(row),
        0 <= c.diff.val(row) < 0x1_0000_0000,
{
    let m = modulus();
    let d = c.diff.val(row);
    lemma_uint_val(col(row, c.diff.lo), col(row, c.diff.hi));
    lemma_sub_mod_noop(l, r, m);
    lemma_small_mod((is_lt * 0x1_0000_0000) as nat, m as nat);
    lemma_small_congruent(l - r, d - is_lt * 0x1_0000_0000);
}

/// The difference that makes a comparison hold.
pub proof fn lemma_inner_lt_complete(
    c: InnerLtConfig,
    l: int,
    r: int,
    is_lt: int,
    diff: u32,
    row: Seq<Goldilocks>,
)
    requires
        c.diff.holds_word(row, diff),
        is_lt == 0 || is_lt == 1,
        diff == l - r + is_lt * 0x1_0000_0000,
    ensures
        c.holds(l % modulus(), r % modulus(), is_lt, row),
{
    lemma_word_val(c.diff, row, diff);
    lemma_sub_mod_noop(l, r, modulus());
    lemma_small_mod((is_lt * 0x1_0000_0000) as nat, modulus() as nat);
}

/// A comparison with its outcome as a witness.
#[derive(Debug, Clone, Copy)]
pub struct IsLtConfig {
    pub is_lt: WitIn,
    pub inner: InnerLtConfig,
}

impl IsLtConfig {
    pub open spec fn at(&self, base: int) -> bool {
        self.is_lt.id == base && self.inner.diff.at(base + 1)
    }

    pub open spec fn holds(&self, lhs: int, rhs: int, row: Seq<Goldilocks>) -> bool {
        &&& (col(row, self.is_lt) == 0 || col(row, self.is_lt) == 1)
        &&& self.inner.holds(lhs, rhs, col(row, self.is_lt), row)
    }

    pub fn construct_circuit(
        cb: &mut CircuitBuilder,
        name: &'static str,
        lhs: Expression,
        rhs: Expression,
    ) -> (r: IsLtConfig)
        requires
            old(cb).wf(),
            plain(lhs),
            plain(rhs),
            old(cb).num_witin + 3 <= u16::MAX,
        ensures
            final(cb).wf(),
            final(cb).records == old(cb).records,
            r.at(old(cb).num_witin as int),
            final(cb).num_witin == old(cb).num_witin + 3,
            forall|row: Seq<Goldilocks>| #[trigger]
                final(cb).satisfied(row) == (old(cb).satisfied(row) && r.holds(
                    value(lhs, row),
                    value(rhs, row),
                    row,
                )),
            forall|row: Seq<Goldilocks>| #[trigger]
                final(cb).looked_up(row) == old(cb).looked_up(row) + r.inner.diff.lookups(row),
    {
        let is_lt = cb.create_witin();
        cb.assert_bit(name, witness(is_lt));
        let inner = InnerLtConfig::construct_circuit(cb, name, lhs, rhs, witness(is_lt));
        IsLtConfig { is_lt, inner }
    }

    /// The outcome as an expression.
    pub fn expr(&self) -> (r: Expression)
        ensures
            plain(r),
            forall|row: Seq<Goldilocks>| #[trigger] value(r, row) == col(row, self.is_lt),
    {
        witness(self.is_lt)
    }

    /// Assigns the comparison of two integers that are less than `2^32` apart.
    pub fn assign_instance_signed(
        &self,
        row: &mut Vec<Goldilocks>,
        lkm: &mut LkMultiplicity,
        lhs: i64,
        rhs: i64,
    )
        requires
            self.is_lt.id < old(row)@.len(),
            self.inner.diff.lo.id < old(row)@.len(),
            self.inner.diff.hi.id < old(row)@.len(),
            self.at(self.is_lt.id as int),
            -0x1_0000_0000 <= lhs - rhs < 0x1_0000_0000,
            -0x2_0000_0000 <= lhs <= 0x2_0000_0000,
            -0x2_0000_0000 <= rhs <= 0x2_0000_0000,
        ensures
            self.holds(lhs as int % modulus(), rhs as int % modulus(), final(row)@),
            col(final(row)@, self.is_lt) == if lhs < rhs {
                1int
            } else {
                0int
            },
            final(row)@.len() == old(row)@.len(),
            forall|i: int|
                0 <= i < final(row)@.len() && i != self.is_lt.id && i != self.inner.diff.lo.id && i
                    != self.inner.diff.hi.id ==> #[trigger] final(row)@[i] == old(row)@[i],
            final(lkm)@ == old(lkm)@ + self.inner.diff.lookups(final(row)@),
    {
        let is_lt: bool = lhs < rhs;
        let bit: u64 = if is_lt {
            1
        } else {
            0
        };
        set_val(row, self.is_lt, bit);
        let diff: i64 = if is_lt {
            lhs - rhs + 0x1_0000_0000
        } else {
            lhs - rhs
        };
        self.inner.assign(row, lkm, diff as u32);
        proof {
            lemma_inner_lt_complete(
                self.inner,
                lhs as int,
                rhs as int,
                bit as int,
                diff as u32,
                row@,
            );
        }
    }
}

/// An assertion that the left side is less than the right side.
#[derive(Debug, Clone, Copy)]
pub struct AssertLtConfig {
    pub inner: InnerLtConfig,
}

impl AssertLtConfig {
    pub open spec fn holds(&self, lhs: int, rhs: int, row: Seq<Goldilocks>) -> bool {
        self.inner.holds(lhs, rhs, 1, row)
    }

    pub fn construct_circuit(
        cb: &mut CircuitBuilder,
        name: &'static str,
        lhs: Expression,
        rhs: Expression,
    ) -> (r: AssertLtConfig)
        requires
            old(cb).wf(),
            plain(lhs),
            plain(rhs),
            old(cb).num_witin + 2 <= u16::MAX,
        ensures
            final(cb).wf(),
            final(cb).records == old(cb).records,
            r.inner.diff.at(old(cb).num_witin as int),
            final(cb).num_witin == old(cb).num_witin + 2,
            forall|row: Seq<Goldilocks>| #[trigger]
                final(cb).satisfied(row) == (old(cb).satisfied(row) && r.holds(
                    value(lhs, row),
                    value(rhs, row),
                    row,
                )),
            forall|row: Seq<Goldilocks>| #[trigger]
                final(cb).looked_up(row) == old(cb).looked_up(row) + r.inner.diff.lookups(row),
    {
        let inner = InnerLtConfig::construct_circuit(cb, name, lhs, rhs, constant(1));
        AssertLtConfig { inner }
    }

    /// Assigns the comparison of two integers of which the first is less.
    pub fn assign_instance_signed(
        &self,
        row: &mut Vec<Goldilocks>,
        lkm: &mut LkMultiplicity,
        lhs: i64,
        rhs: i64,
    )
        requires
            self.inner.diff.lo.id < old(row)@.len(),
            self.inner.diff.hi.id < old(row)@.len(),
            self.inner.diff.lo.id != self.inner.diff.hi.id,
            -0x1_0000_0000 <= lhs - rhs < 0,
            -0x2_0000_0000 <= lhs <= 0x2_0000_0000,
            -0x2_0000_0000 <= rhs <= 0x2_0000_0000,
        ensures
            self.holds(lhs as int % modulus(), rhs as int % modulus(), final(row)@),
            final(row)@.len() == old(row)@.len(),
            forall|i: int|
                0 <= i < final(row)@.len() && i != self.inner.diff.lo.id && i
                    != self.inner.diff.hi.id ==> #[trigger] final(row)@[i] == old(row)@[i],
            final(lkm)@ == old(lkm)@ + self.inner.diff.lookups(final(row)@),
    {
        let diff: i64 = lhs - rhs + 0x1_0000_0000;
        self.inner.assign(row, lkm, diff as u32);
        proof {
            lemma_inner_lt_complete(self.inner, lhs as int, rhs as int, 1, diff as u32, row@);
        }
    }
}

/// The sign of a word: `2 * hi - 2^16 * is_negative` is a 16-bit value.
#[derive(Debug, Clone, Copy)]
pub struct Signed {
    pub is_negative: WitIn,
    pub uint: UInt,
}

impl Signed {
    /// The looked up value.
    pub open spec fn shifted(&self, row: Seq<Goldilocks>) -> int {
        f_sub(f_mul(2, col(row, self.uint.hi)), f_mul(65536, col(row, self.is_negative)))
    }

    pub open spec fn holds(&self, row: Seq<Goldilocks>) -> bool {
        &&& (col(row, self.is_negative) == 0 || col(row, self.is_negative) == 1)
        &&& self.shifted(row) < 65536
    }

    /// The signed value, in the field.
    pub open spec fn val(&self, row: Seq<Goldilocks>) -> int {
        f_sub(self.uint.val(row), f_mul(0x1_0000_0000, col(row, self.is_negative)))
    }

    pub fn construct_circuit(
        cb: &mut CircuitBuilder,
        name: &'static str,
        uint: &UInt,
    ) -> (r: Signed)
        requires
            old(cb).wf(),
            old(cb).num_witin < u16::MAX,
        ensures
            final(cb).wf(),
            final(cb).records == old(cb).records,
            r.uint == *uint,
            r.is_negative.id == old(cb).num_witin,
            final(cb).num_witin == old(cb).num_witin + 1,
            forall|row: Seq<Goldilocks>| #[trigger]
                final(cb).satisfied(row) == (old(cb).satisfied(row) && r.holds(row)),
            forall|row: Seq<Goldilocks>| #[trigger]
                final(cb).looked_up(row) == old(cb).looked_up(row).push(r.shifted(row)),
    {
        let is_negative = cb.create_witin();
        cb.assert_bit(name, witness(is_negative));
        cb.assert_u16(
            name,
            minus(
                times(constant(2), witness(uint.hi)),
                times(constant(65536), witness(is_negative)),
            ),
        );
        Signed { is_negative, uint: *uint }
    }

    /// The signed value as an expression.
    pub fn expr(&self) -> (r: Expression)
        ensures
            plain(r),
            forall|row: Seq<Goldilocks>| #[trigger] value(r, row) == self.val(row),
    {
        minus(self.uint.value(), times(constant(0x1_0000_0000), witness(self.is_negative)))
    }

    /// Assigns the sign of a word.
    pub fn assign_instance(&self, row: &mut Vec<Goldilocks>, lkm: &mut LkMultiplicity, v: u32)
        requires
            self.is_negative.id < old(row)@.len(),
        ensures
            final(row)@ == old(row)@.update(
                self.is_negative.id as int,
                Goldilocks {
                    value: if v >= 0x8000_0000 {
                        1
                    } else {
                        0
                    },
                },
            ),
            final(lkm)@ == old(lkm)@.push(shifted_word(v)),
    {
        let negative: u64 = if v >= 0x8000_0000 {
            1
        } else {
            0
        };
        set_val(row, self.is_negative, negative);
        let hi: u64 = (v / 65536) as u64;
        lkm.assert_u16(2 * hi - 65536 * negative);
    }
}

/// Twice the upper limb of a word without the sign bit.
pub open spec fn shifted_word(v: u32) -> int {
    if v >= 0x8000_0000 {
        2 * (v / 65536) - 65536
    } else {
        2 * (v / 65536)
    }
}

/// The integer that a word means in two's complement.
pub open spec fn signed_word(v: int) -> int {
    if v >= 0x8000_0000 {
        v - 0x1_0000_0000
    } else {
        v
    }
}

/// The sign of limbs in range is the top bit, and the signed value is the two's complement one.
pub proof fn lemma_signed(s: Signed, row: Seq<Goldilocks>)
    requires
        s.uint.in_range(row),
        s.holds(row),
    ensures
        col(row, s.is_negative) == if s.uint.val(row) >= 0x8000_0000 {
            1int
        } else {
            0int
        },
        s.val(row) == signed_word(s.uint.val(row)) % modulus(),
        0 <= s.uint.val(row) < 0x1_0000_0000,
{
    let m = modulus();
    let (lo, hi, n) = (col(row, s.uint.lo), col(row, s.uint.hi), col(row, s.is_negative));
    lemma_uint_val(lo, hi);
    lemma_small_mod((2 * hi) as nat, m as nat);
    lemma_small_mod((65536 * n) as nat, m as nat);
    lemma_small_mod((0x1_0000_0000 * n) as nat, m as nat);
    let t = 2 * hi - 65536 * n;
    if t < 0 {
        lemma_mod_add_multiples_vanish(t, m);
        lemma_small_mod((t + m) as nat, m as nat);
    } else {
        lemma_small_mod(t as nat, m as nat);
    }
}

/// The assigned sign of an assigned word holds.
pub proof fn lemma_signed_complete(s: Signed, row: Seq<Goldilocks>, v: u32)
    requires
        s.uint.holds_word(row, v),
        col(row, s.is_negative) == if v >= 0x8000_0000 {
            1int
        } else {
            0int
        },
    ensures
        s.holds(row),
        s.shifted(row) == shifted_word(v),
        s.val(row) == signed_word(v as int) % modulus(),
{
    let m = modulus();
    let (hi, n) = (col(row, s.uint.hi), col(row, s.is_negative));
    lemma_word_val(s.uint, row, v);
    lemma_small_mod((2 * hi) as nat, m as nat);
    lemma_small_mod((65536 * n) as nat, m as nat);
    lemma_small_mod((0x1_0000_0000 * n) as nat, m as nat);
    lemma_small_mod((2 * hi - 65536 * n) as nat, m as nat);
}

} // verus!
