//! The Goldilocks prime field and its quadratic extension.
//!
//! Elements are modelled by the integers in `0..p` and by pairs of them. The arithmetic of the base
//! field is done by `p3_goldilocks`; the extension is built on top of it.
use p3_field::extension::BinomialExtensionField;
use p3_field::{AbstractExtensionField, AbstractField, Field, PrimeField64};
use core::ops::Neg;
use vstd::arithmetic::div_mod::*;
use vstd::prelude::*;

use crate::ring::{lemma_e_mul_assoc, lemma_e_mul_comm, lemma_e_mul_one, lemma_e_pow_square};

verus! {

/// The order of the Goldilocks field, `2^64 - 2^32 + 1`.
pub const MODULUS_U64: u64 = 0xFFFF_FFFF_0000_0001;

/// The order of the field as a mathematical integer.
pub open spec fn modulus() -> int {
    0xFFFF_FFFF_0000_0001
}

/// Sum in the base field.
pub open spec fn f_add(a: int, b: int) -> int {
    (a + b) % modulus()
}

/// Difference in the base field.
pub open spec fn f_sub(a: int, b: int) -> int {
    (a - b) % modulus()
}

/// Product in the base field.
pub open spec fn f_mul(a: int, b: int) -> int {
    (a * b) % modulus()
}

/// Additive inverse in the base field.
pub open spec fn f_neg(a: int) -> int {
    (-a) % modulus()
}

/// `(a + b) mod p`, computed by the `Add` impl of `p3_goldilocks::Goldilocks`; `a` and `b` may be
/// any representatives and the result is the canonical one.
#[verifier::external_body]
fn goldilocks_add(a: u64, b: u64) -> (r: u64)
    ensures
        r == f_add(a as int, b as int),
{
    (p3_goldilocks::Goldilocks::from_wrapped_u64(a) + p3_goldilocks::Goldilocks::from_wrapped_u64(
        b,
    )).as_canonical_u64()
}

/// `(a - b) mod p`, computed by the `Sub` impl of `p3_goldilocks::Goldilocks`; `a` and `b` may be
/// any representatives and the result is the canonical one.
#[verifier::external_body]
fn goldilocks_sub(a: u64, b: u64) -> (r: u64)
    ensures
        r == f_sub(a as int, b as int),
{
    (p3_goldilocks::Goldilocks::from_wrapped_u64(a) - p3_goldilocks::Goldilocks::from_wrapped_u64(
        b,
    )).as_canonical_u64()
}

/// `(a * b) mod p`, computed by the `Mul` impl of `p3_goldilocks::Goldilocks`; `a` and `b` may be
/// any representatives and the result is the canonical one.
#[verifier::external_body]
fn goldilocks_mul(a: u64, b: u64) -> (r: u64)
    ensures
        r == f_mul(a as int, b as int),
{
    (p3_goldilocks::Goldilocks::from_wrapped_u64(a) * p3_goldilocks::Goldilocks::from_wrapped_u64(
        b,
    )).as_canonical_u64()
}

/// `-a mod p`, computed by the `Neg` impl of `p3_goldilocks::Goldilocks`; `a` may be any
/// representative and the result is the canonical one.
#[verifier::external_body]
fn goldilocks_neg(a: u64) -> (r: u64)
    ensures
        r == f_neg(a as int),
{
    (-p3_goldilocks::Goldilocks::from_wrapped_u64(a)).as_canonical_u64()
}

/// The multiplicative inverse of `a`, computed by `Field::try_inverse` of
/// `p3_goldilocks::Goldilocks`: none exactly for zero, and otherwise the canonical representative
/// of the element whose product with `a` is one.
#[verifier::external_body]
fn goldilocks_try_inverse(a: u64) -> (r: Option<u64>)
    ensures
        r is None <==> a as int % modulus() == 0,
        r matches Some(b) ==> b < modulus() && f_mul(a as int, b as int) == 1,
{
    p3_goldilocks::Goldilocks::from_wrapped_u64(a).try_inverse().map(|b| b.as_canonical_u64())
}

/// The multiplicative inverse of an element of the extension, computed by `Field::try_inverse` of
/// `p3_field::extension::BinomialExtensionField<p3_goldilocks::Goldilocks, 2>`, whose `X^2` is 7:
/// none exactly for zero, and otherwise the element whose product with it is one.
#[verifier::external_body]
fn goldilocks_ext_try_inverse(a: GoldilocksExt2) -> (r: Option<GoldilocksExt2>)
    ensures
        r is None <==> a@ == e_zero(),
        r matches Some(b) ==> e_mul(a@, b@) == e_one(),
{
    BinomialExtensionField::<p3_goldilocks::Goldilocks, 2>::from_base_slice(
        &[
            p3_goldilocks::Goldilocks::from_wrapped_u64(a.c0.value),
            p3_goldilocks::Goldilocks::from_wrapped_u64(a.c1.value),
        ],
    ).try_inverse().map(
        |b| {
            let c: &[p3_goldilocks::Goldilocks] = b.as_base_slice();
            GoldilocksExt2 {
                c0: Goldilocks { value: c[0].as_canonical_u64() },
                c1: Goldilocks { value: c[1].as_canonical_u64() },
            }
        },
    )
}

/// The canonical representation of an integer as a field element.
pub open spec fn gl(x: int) -> Goldilocks {
    Goldilocks { value: (x % modulus()) as u64 }
}

/// An element of the Goldilocks field. `value` is a representative, not necessarily the canonical
/// one; results of arithmetic are canonical.
#[derive(Clone, Copy, Debug)]
pub struct Goldilocks {
    pub value: u64,
}

impl View for Goldilocks {
    type V = int;

    open spec fn view(&self) -> int {
        self.value as int % modulus()
    }
}

impl PartialEq for Goldilocks {
    fn eq(&self, other: &Self) -> (r: bool) {
        self.as_canonical_u64() == other.as_canonical_u64()
    }
}

impl vstd::std_specs::cmp::PartialEqSpecImpl for Goldilocks {
    open spec fn obeys_eq_spec() -> bool {
        true
    }

    open spec fn eq_spec(&self, other: &Self) -> bool {
        self@ == other@
    }
}

impl Eq for Goldilocks {

}

impl core::ops::Add for Goldilocks {
    type Output = Goldilocks;

    fn add(self, rhs: Goldilocks) -> (r: Goldilocks) {
        let r = Goldilocks { value: goldilocks_add(self.value, rhs.value) };
        proof {
            lemma_add_mod_noop(self.value as int, rhs.value as int, modulus());
        }
        r
    }
}

impl vstd::std_specs::ops::AddSpecImpl for Goldilocks {
    open spec fn obeys_add_spec() -> bool {
        true
    }

    open spec fn add_req(self, rhs: Goldilocks) -> bool {
        true
    }

    open spec fn add_spec(self, rhs: Goldilocks) -> Goldilocks {
        gl(f_add(self@, rhs@))
    }
}

impl core::ops::Sub for Goldilocks {
    type Output = Goldilocks;

    fn sub(self, rhs: Goldilocks) -> (r: Goldilocks) {
        let r = Goldilocks { value: goldilocks_sub(self.value, rhs.value) };
        proof {
            lemma_sub_mod_noop(self.value as int, rhs.value as int, modulus());
        }
        r
    }
}

impl vstd::std_specs::ops::SubSpecImpl for Goldilocks {
    open spec fn obeys_sub_spec() -> bool {
        true
    }

    open spec fn sub_req(self, rhs: Goldilocks) -> bool {
        true
    }

    open spec fn sub_spec(self, rhs: Goldilocks) -> Goldilocks {
        gl(f_sub(self@, rhs@))
    }
}

impl core::ops::Mul for Goldilocks {
    type Output = Goldilocks;

    fn mul(self, rhs: Goldilocks) -> (r: Goldilocks) {
        let r = Goldilocks { value: goldilocks_mul(self.value, rhs.value) };
        proof {
            lemma_mul_mod_noop(self.value as int, rhs.value as int, modulus());
        }
        r
    }
}

impl vstd::std_specs::ops::MulSpecImpl for Goldilocks {
    open spec fn obeys_mul_spec() -> bool {
        true
    }

    open spec fn mul_req(self, rhs: Goldilocks) -> bool {
        true
    }

    open spec fn mul_spec(self, rhs: Goldilocks) -> Goldilocks {
        gl(f_mul(self@, rhs@))
    }
}

impl core::ops::Neg for Goldilocks {
    type Output = Goldilocks;

    fn neg(self) -> (r: Goldilocks) {
        let r = Goldilocks { value: goldilocks_neg(self.value) };
        proof {
            lemma_sub_mod_noop(0, self.value as int, modulus());
        }
        r
    }
}

impl vstd::std_specs::ops::NegSpecImpl for Goldilocks {
    open spec fn obeys_neg_spec() -> bool {
        true
    }

    open spec fn neg_req(self) -> bool {
        true
    }

    open spec fn neg_spec(self) -> Goldilocks {
        gl(f_neg(self@))
    }
}

impl Goldilocks {
    /// The element zero.
    pub fn zero() -> (r: Goldilocks)
        ensures
            r == gl(0),
            r@ == 0,
    {
        Goldilocks { value: 0 }
    }

    /// The element one.
    pub fn one() -> (r: Goldilocks)
        ensures
            r == gl(1),
            r@ == 1,
    {
        Goldilocks { value: 1 }
    }

    /// The element represented by `n`.
    pub fn from_canonical_u64(n: u64) -> (r: Goldilocks)
        ensures
            r.value == n,
            n < modulus() ==> r@ == n,
    {
        Goldilocks { value: n }
    }

    /// The representative below the modulus.
    pub fn as_canonical_u64(&self) -> (r: u64)
        ensures
            r == self@,
            r < modulus(),
    {
        if self.value >= MODULUS_U64 {
            proof {
                lemma_small_mod((self.value - MODULUS_U64) as nat, modulus() as nat);
                lemma_mod_add_multiples_vanish(self.value - modulus(), modulus());
            }
            self.value - MODULUS_U64
        } else {
            self.value
        }
    }

    /// The multiplicative inverse; none exactly for zero.
    pub fn try_inverse(&self) -> (r: Option<Goldilocks>)
        ensures
            r is None <==> self@ == 0,
            r matches Some(b) ==> f_mul(self@, b@) == 1,
    {
        match goldilocks_try_inverse(self.value) {
            None => None,
            Some(b) => {
                proof {
                    lemma_mul_mod_noop(self.value as int, b as int, modulus());
                }
                Some(Goldilocks { value: b })
            },
        }
    }
}

/// Every element denotes an integer in `0..p`.
pub broadcast proof fn lemma_goldilocks_view_range(x: Goldilocks)
    ensures
        0 <= #[trigger] x@ < modulus(),
{
}

/// The canonical representation denotes the integer modulo `p`.
pub broadcast proof fn lemma_gl_view(x: int)
    ensures
        (#[trigger] gl(x))@ == x % modulus(),
{
    lemma_mod_bound(x, modulus());
    lemma_small_mod((x % modulus()) as nat, modulus() as nat);
}

/// A value of the quadratic extension `F_p[X] / (X^2 - 7)`: `c0 + c1 * X`.
#[verifier::ext_equal]
pub struct Ext {
    pub c0: int,
    pub c1: int,
}

impl Ext {
    /// Both coordinates are canonical.
    pub open spec fn valid(self) -> bool {
        0 <= self.c0 < modulus() && 0 <= self.c1 < modulus()
    }
}

/// Reduction of both coordinates.
pub open spec fn e_reduce(a: Ext) -> Ext {
    Ext { c0: a.c0 % modulus(), c1: a.c1 % modulus() }
}

/// The base field inside the extension.
pub open spec fn e_base(a: int) -> Ext {
    Ext { c0: a, c1: 0 }
}

pub open spec fn e_zero() -> Ext {
    e_base(0)
}

pub open spec fn e_one() -> Ext {
    e_base(1)
}

/// Sum in the extension.
#[verifier::opaque]
pub open spec fn e_add(a: Ext, b: Ext) -> Ext {
    Ext { c0: f_add(a.c0, b.c0), c1: f_add(a.c1, b.c1) }
}

/// Difference in the extension.
#[verifier::opaque]
pub open spec fn e_sub(a: Ext, b: Ext) -> Ext {
    Ext { c0: f_sub(a.c0, b.c0), c1: f_sub(a.c1, b.c1) }
}

/// Additive inverse in the extension.
#[verifier::opaque]
pub open spec fn e_neg(a: Ext) -> Ext {
    Ext { c0: f_neg(a.c0), c1: f_neg(a.c1) }
}

/// Product in the extension, where the square of the generator is 7.
#[verifier::opaque]
pub open spec fn e_mul(a: Ext, b: Ext) -> Ext {
    Ext {
        c0: (a.c0 * b.c0 + 7 * (a.c1 * b.c1)) % modulus(),
        c1: (a.c0 * b.c1 + a.c1 * b.c0) % modulus(),
    }
}

/// The `n`-th power in the extension.
pub open spec fn e_pow(a: Ext, n: nat) -> Ext
    decreases n,
{
    if n == 0 {
        e_one()
    } else {
        e_mul(a, e_pow(a, (n - 1) as nat))
    }
}

/// The canonical representation of a value of the extension.
pub open spec fn ge(a: Ext) -> GoldilocksExt2 {
    GoldilocksExt2 { c0: gl(a.c0), c1: gl(a.c1) }
}

/// An element of the quadratic extension of the Goldilocks field.
#[derive(Clone, Copy, Debug)]
pub struct GoldilocksExt2 {
    pub c0: Goldilocks,
    pub c1: Goldilocks,
}

impl View for GoldilocksExt2 {
    type V = Ext;

    open spec fn view(&self) -> Ext {
        Ext { c0: self.c0@, c1: self.c1@ }
    }
}

impl PartialEq for GoldilocksExt2 {
    fn eq(&self, other: &Self) -> (r: bool) {
        self.c0 == other.c0 && self.c1 == other.c1
    }
}

impl vstd::std_specs::cmp::PartialEqSpecImpl for GoldilocksExt2 {
    open spec fn obeys_eq_spec() -> bool {
        true
    }

    open spec fn eq_spec(&self, other: &Self) -> bool {
        self@ == other@
    }
}

impl Eq for GoldilocksExt2 {

}

impl core::ops::Add for GoldilocksExt2 {
    type Output = GoldilocksExt2;

    fn add(self, rhs: GoldilocksExt2) -> (r: GoldilocksExt2) {
        proof {
            reveal(e_add);
            lemma_gl_reduced(self.c0@ + rhs.c0@);
            lemma_gl_reduced(self.c1@ + rhs.c1@);
        }
        GoldilocksExt2 { c0: self.c0 + rhs.c0, c1: self.c1 + rhs.c1 }
    }
}

impl vstd::std_specs::ops::AddSpecImpl for GoldilocksExt2 {
    open spec fn obeys_add_spec() -> bool {
        true
    }

    open spec fn add_req(self, rhs: GoldilocksExt2) -> bool {
        true
    }

    open spec fn add_spec(self, rhs: GoldilocksExt2) -> GoldilocksExt2 {
        ge(e_add(self@, rhs@))
    }
}

impl core::ops::Sub for GoldilocksExt2 {
    type Output = GoldilocksExt2;

    fn sub(self, rhs: GoldilocksExt2) -> (r: GoldilocksExt2) {
        proof {
            reveal(e_sub);
        }
        GoldilocksExt2 { c0: self.c0 - rhs.c0, c1: self.c1 - rhs.c1 }
    }
}

impl vstd::std_specs::ops::SubSpecImpl for GoldilocksExt2 {
    open spec fn obeys_sub_spec() -> bool {
        true
    }

    open spec fn sub_req(self, rhs: GoldilocksExt2) -> bool {
        true
    }

    open spec fn sub_spec(self, rhs: GoldilocksExt2) -> GoldilocksExt2 {
        ge(e_sub(self@, rhs@))
    }
}

impl core::ops::Neg for GoldilocksExt2 {
    type Output = GoldilocksExt2;

    fn neg(self) -> (r: GoldilocksExt2) {
        proof {
            reveal(e_neg);
        }
        GoldilocksExt2 { c0: self.c0.neg(), c1: self.c1.neg() }
    }
}

impl vstd::std_specs::ops::NegSpecImpl for GoldilocksExt2 {
    open spec fn obeys_neg_spec() -> bool {
        true
    }

    open spec fn neg_req(self) -> bool {
        true
    }

    open spec fn neg_spec(self) -> GoldilocksExt2 {
        ge(e_neg(self@))
    }
}

impl core::ops::Mul for GoldilocksExt2 {
    type Output = GoldilocksExt2;

    fn mul(self, rhs: GoldilocksExt2) -> (r: GoldilocksExt2) {
        let seven = Goldilocks { value: 7 };
        let p00 = self.c0 * rhs.c0;
        let p11 = self.c1 * rhs.c1;
        let p01 = self.c0 * rhs.c1;
        let p10 = self.c1 * rhs.c0;
        let r = GoldilocksExt2 { c0: p00 + seven * p11, c1: p01 + p10 };
        proof {
            broadcast use lemma_gl_view;

            reveal(e_mul);
            let m = modulus();
            let (a0, a1, b0, b1) = (self.c0@, self.c1@, rhs.c0@, rhs.c1@);
            assert((7 * ((a1 * b1) % m)) % m == (7 * (a1 * b1)) % m) by {
                lemma_mul_mod_noop_right(7, a1 * b1, m);
            }
            lemma_add_mod_noop(a0 * b0, 7 * (a1 * b1), m);
            lemma_add_mod_noop(a0 * b1, a1 * b0, m);
            lemma_mod_twice(a0 * b0, m);
            lemma_mod_twice(a1 * b1, m);
            lemma_mod_twice(a0 * b1, m);
            lemma_mod_twice(a1 * b0, m);
            lemma_mod_twice(7 * ((a1 * b1) % m), m);
        }
        r
    }
}

impl vstd::std_specs::ops::MulSpecImpl for GoldilocksExt2 {
    open spec fn obeys_mul_spec() -> bool {
        true
    }

    open spec fn mul_req(self, rhs: GoldilocksExt2) -> bool {
        true
    }

    open spec fn mul_spec(self, rhs: GoldilocksExt2) -> GoldilocksExt2 {
        ge(e_mul(self@, rhs@))
    }
}

proof fn lemma_gl_reduced(x: int)
    ensures
        gl(x % modulus()) == gl(x),
{
    lemma_mod_twice(x, modulus());
}

impl GoldilocksExt2 {
    /// The element zero.
    pub fn zero() -> (r: GoldilocksExt2)
        ensures
            r == ge(e_zero()),
            r@ == e_zero(),
    {
        GoldilocksExt2 { c0: Goldilocks::zero(), c1: Goldilocks::zero() }
    }

    /// The element one.
    pub fn one() -> (r: GoldilocksExt2)
        ensures
            r == ge(e_one()),
            r@ == e_one(),
    {
        GoldilocksExt2 { c0: Goldilocks::one(), c1: Goldilocks::zero() }
    }

    /// A base element as an element of the extension.
    pub fn from_base(b: Goldilocks) -> (r: GoldilocksExt2)
        ensures
            r@ == e_base(b@),
            r.c0 == b,
            r.c1 == gl(0),
    {
        GoldilocksExt2 { c0: b, c1: Goldilocks::zero() }
    }

    /// The element represented by `n`.
    pub fn from_canonical_u64(n: u64) -> (r: GoldilocksExt2)
        ensures
            r.c0.value == n,
            r.c1 == gl(0),
            n < modulus() ==> r@ == e_base(n as int),
    {
        GoldilocksExt2 { c0: Goldilocks::from_canonical_u64(n), c1: Goldilocks::zero() }
    }

    /// The canonical representatives of the two coordinates.
    pub fn to_canonical_u64_vec(&self) -> (r: Vec<u64>)
        ensures
            r@.len() == 2,
            r@[0] == self@.c0,
            r@[1] == self@.c1,
    {
        vec![self.c0.as_canonical_u64(), self.c1.as_canonical_u64()]
    }

    /// The multiplicative inverse; none exactly for zero.
    pub fn try_inverse(&self) -> (r: Option<GoldilocksExt2>)
        ensures
            r is None <==> self@ == e_zero(),
            r matches Some(b) ==> e_mul(self@, b@) == e_one(),
    {
        goldilocks_ext_try_inverse(*self)
    }

    /// The `n`-th power, by repeated squaring.
    pub fn exp_u64(&self, n: u64) -> (r: GoldilocksExt2)
        ensures
            r == ge(e_pow(self@, n as nat)),
            r@ == e_pow(self@, n as nat),
    {
        broadcast use lemma_ge_view;

        let mut acc = GoldilocksExt2::one();
        let mut base = *self;
        let mut e: u64 = n;
        proof {
            lemma_e_pow_valid(base@, e as nat);
            lemma_e_mul_one(e_pow(base@, e as nat));
        }
        while e > 0
            invariant
                e_mul(acc@, e_pow(base@, e as nat)) == e_pow(self@, n as nat),
                acc == ge(acc@),
            decreases e,
        {
            broadcast use {lemma_ge_view, lemma_e_mul_valid};

            proof {
                lemma_e_pow_square(base@, (e / 2) as nat);
                lemma_e_mul_assoc(acc@, base@, e_pow(e_mul(base@, base@), (e / 2) as nat));
                if e % 2 == 1 {
                    assert(e_pow(base@, e as nat) == e_mul(base@, e_pow(base@, (e - 1) as nat)));
                    assert((e - 1) as nat == 2 * ((e / 2) as nat));
                } else {
                    assert(e as nat == 2 * ((e / 2) as nat));
                }
            }
            if e % 2 == 1 {
                acc = acc * base;
            }
            base = base * base;
            e = e / 2;
        }
        proof {
            lemma_e_mul_one(acc@);
            lemma_e_mul_comm(acc@, e_one());
        }
        acc
    }
}

/// Elements of the extension denote valid values.
pub broadcast proof fn lemma_ext_view_valid(x: GoldilocksExt2)
    ensures
        (#[trigger] x@).valid(),
{
}

/// The canonical representation denotes the reduced value.
pub broadcast proof fn lemma_ge_view(a: Ext)
    ensures
        (#[trigger] ge(a))@ == e_reduce(a),
        a.valid() ==> ge(a)@ == a,
{
    broadcast use lemma_gl_view;

    if a.valid() {
        lemma_small_mod(a.c0 as nat, modulus() as nat);
        lemma_small_mod(a.c1 as nat, modulus() as nat);
    }
}

pub broadcast proof fn lemma_e_add_valid(a: Ext, b: Ext)
    ensures
        (#[trigger] e_add(a, b)).valid(),
{
    reveal(e_add);
}

pub broadcast proof fn lemma_e_sub_valid(a: Ext, b: Ext)
    ensures
        (#[trigger] e_sub(a, b)).valid(),
{
    reveal(e_sub);
}

pub broadcast proof fn lemma_e_mul_valid(a: Ext, b: Ext)
    ensures
        (#[trigger] e_mul(a, b)).valid(),
{
    reveal(e_mul);
}

pub broadcast proof fn lemma_e_neg_valid(a: Ext)
    ensures
        (#[trigger] e_neg(a)).valid(),
{
    reveal(e_neg);
}

pub broadcast proof fn lemma_e_pow_valid(a: Ext, n: nat)
    ensures
        (#[trigger] e_pow(a, n)).valid(),
{
    broadcast use lemma_e_mul_valid;

}

/// Values are in range and representations denote what they were made from.
pub broadcast group group_field {
    lemma_goldilocks_view_range,
    lemma_gl_view,
    lemma_ext_view_valid,
    lemma_ge_view,
    lemma_e_add_valid,
    lemma_e_sub_valid,
    lemma_e_mul_valid,
    lemma_e_neg_valid,
    lemma_e_pow_valid,
}

} // verus!
