//! The layers of single bits compute the rounds of the permutation.
use vstd::arithmetic::div_mod::*;
use vstd::arithmetic::mul::*;
use vstd::arithmetic::power2::*;
use vstd::bits::*;
use vstd::prelude::*;

use crate::circuit::plain::{lemma_plain_ops, lemma_value_ops, lemma_value_parts, plain, value};
use crate::expression::{base_const, Expression};
use crate::field::{f_add, f_mul, f_sub, gl, group_field, modulus, Goldilocks};
use crate::gkr::utils::all_evals;
use crate::gkr::{singles, Chip, EvalExpression, Layer, OutputGroup};
use crate::precompiles::bitwise_keccakf::{
    and_of, are_rounds, bit, bit_beside, c_layer, c_of, chi_layer, chi_of, columns, d_column,
    d_layer, iota_layer, is_keccak_chip, is_round, lemma_plain_xor, not_of, permuted_columns,
    round_base, round_output, state_bits, theta_layer, xor_of, KeccakLayout, ROUND_EVALS,
    STATE_EVALS,
};
use crate::precompiles::bitwise_witness::state_row;
use crate::precompiles::keccak::{
    beside, c_aux, chi, d, first_constants, keccak_round, keccak_rounds, lemma_lanes,
    lemma_rotation_constant, nonlinear, parity, rhopi, rotation_constant, round_constant,
    source_lane, theta, ROUNDS,
};
use crate::precompiles::permutation::{
    lemma_rho_pi, lemma_xyz, rho_pi_source, spec_from_xyz, C_SIZE, D_SIZE, STATE_SIZE,
};
use crate::precompiles::words::{lemma_rotl_parts, rotl};
use crate::text::decimal_text;

verus! {

broadcast use group_field;

/// The exclusive disjunction of two bits.
pub open spec fn xor01(a: int, b: int) -> int {
    if a == b {
        0
    } else {
        1
    }
}

/// Zero or one.
pub open spec fn is_bit(b: int) -> bool {
    b == 0 || b == 1
}

/// All are bits.
pub open spec fn all_bits(s: Seq<int>) -> bool {
    forall|i: int| 0 <= i < s.len() ==> is_bit(#[trigger] s[i])
}

/// The row with the given bits.
pub open spec fn bit_row(bits: Seq<int>) -> Seq<Goldilocks> {
    bits.map_values(|b: int| gl(b))
}

/// What the outputs of a layer are for the given inputs.
pub open spec fn layer_values(exprs: Seq<Expression>, inputs: Seq<int>) -> Seq<int> {
    Seq::new(exprs.len(), |i: int| value(exprs[i], bit_row(inputs)))
}

proof fn lemma_word_bits(a: u64, b: u64, z: int)
    requires
        0 <= z < 64,
    ensures
        is_bit(bit(a, z)),
        bit(a ^ b, z) == xor01(bit(a, z), bit(b, z)),
        bit(!a & b, z) == (1 - bit(a, z)) * bit(b, z),
{
    let s = z as u64;
    assert((a >> s) & 1 == 0 || (a >> s) & 1 == 1) by (bit_vector);
    assert((b >> s) & 1 == 0 || (b >> s) & 1 == 1) by (bit_vector);
    assert(((a ^ b) >> s) & 1 == ((a >> s) & 1) ^ ((b >> s) & 1)) by (bit_vector);
    assert(((!a & b) >> s) & 1 == ((!a >> s) & 1) & ((b >> s) & 1)) by (bit_vector);
    assert(s < 64 ==> (!a >> s) & 1 == 1 - ((a >> s) & 1)) by (bit_vector);
    assert(0u64 ^ 0 == 0 && 0u64 ^ 1 == 1 && 1u64 ^ 0 == 1 && 1u64 ^ 1 == 0) by (bit_vector);
    assert(0u64 & 0 == 0 && 0u64 & 1 == 0 && 1u64 & 0 == 0 && 1u64 & 1 == 1) by (bit_vector);
}

/// A bit by division.
proof fn lemma_bit_div(w: u64, z: int)
    requires
        0 <= z < 64,
    ensures
        bit(w, z) == (w as int / pow2(z as nat) as int) % 2,
{
    let s = z as u64;
    lemma_u64_shr_is_div(w, s);
    let q = w >> s;
    assert(q & 1 == q % 2) by (bit_vector);
}

/// Dividing a number less a multiple.
proof fn lemma_low_bits(w: int, n: nat, k: nat)
    requires
        0 <= w,
        k < n,
    ensures
        (w % pow2(n) as int / pow2(k) as int) % 2 == (w / pow2(k) as int) % 2,
{
    let (p, q) = (pow2(n) as int, pow2(k) as int);
    let rest = pow2((n - k - 1) as nat) as int;
    lemma_pow2_pos(n);
    lemma_pow2_pos(k);
    lemma_pow2_adds(k, (n - k) as nat);
    lemma_pow2_unfold((n - k) as nat);
    let (h, l) = (w / p, w % p);
    lemma_fundamental_div_mod(w, p);
    let m = rest * h;
    assert(p * h == (2 * m) * q) by (nonlinear_arith)
        requires
            p == q * (2 * rest),
            m == rest * h,
    ;
    lemma_hoist_over_denominator(l, 2 * m, q as nat);
    assert(w / q == l / q + 2 * m);
    lemma_mod_multiples_vanish(m, l / q, 2);
}

/// The bits of a rotated word.
proof fn lemma_rotl_bit(w: u64, delta: int, z: int)
    requires
        0 <= delta < 64,
        0 <= z < 64,
    ensures
        bit(rotl(w, delta as nat), z) == bit(w, (z + 64 - delta) % 64),
{
    let dn = delta as nat;
    let p = pow2((64 - delta) as nat) as int;
    let q = pow2(dn) as int;
    let (low, high) = (w as int % p, w as int / p);
    lemma_rotl_parts(w, dn);
    lemma_pow2_pos(dn);
    lemma_pow2_pos((64 - delta) as nat);
    let r = rotl(w, dn);
    assert(r == high + q * low);
    lemma_bit_div(r, z);
    let zp = pow2(z as nat) as int;
    lemma_pow2_pos(z as nat);
    if z < delta {
        let k = (delta - z) as nat;
        let half = pow2((k - 1) as nat) as int;
        lemma_pow2_adds(z as nat, k);
        lemma_pow2_unfold(k);
        let m = half * low;
        assert(q * low == (2 * m) * zp) by (nonlinear_arith)
            requires
                q == zp * (2 * half),
                m == half * low,
        ;
        lemma_hoist_over_denominator(high, 2 * m, zp as nat);
        assert(r as int / zp == high / zp + 2 * m);
        lemma_mod_multiples_vanish(m, high / zp, 2);
        lemma_div_denominator(w as int, p, zp);
        lemma_pow2_adds((64 - delta) as nat, z as nat);
        lemma_bit_div(w, z + 64 - delta);
        lemma_small_mod((z + 64 - delta) as nat, 64);
    } else {
        let k = (z - delta) as nat;
        lemma_pow2_pos(k);
        lemma_pow2_adds(dn, k);
        lemma_div_denominator(r as int, q, pow2(k) as int);
        lemma_mul_is_commutative(q, low);
        lemma_hoist_over_denominator(high, low, q as nat);
        lemma_basic_div(high, q);
        assert(r as int / q == low);
        lemma_low_bits(w as int, (64 - delta) as nat, k);
        lemma_bit_div(w, z - delta);
        lemma_mod_add_multiples_vanish(z - delta, 64);
        lemma_small_mod((z - delta) as nat, 64);
        assert((z + 64 - delta) % 64 == z - delta);
    }
}

/// The value of a column in a row of bits.
proof fn lemma_column_value(id: int, bits: Seq<int>)
    requires
        0 <= id < bits.len(),
        bits.len() <= 65536,
        all_bits(bits),
    ensures
        plain(Expression::WitIn(id as u16)),
        value(Expression::WitIn(id as u16), bit_row(bits)) == bits[id],
{
    let e = Expression::WitIn(id as u16);
    lemma_value_parts(e, bit_row(bits));
    assert(is_bit(bits[id]));
    lemma_small_mod(bits[id] as nat, modulus() as nat);
}

/// The value of an exclusive disjunction.
proof fn lemma_xor_value(a: Expression, b: Expression, row: Seq<Goldilocks>)
    requires
        plain(a),
        plain(b),
        is_bit(value(a, row)),
        is_bit(value(b, row)),
    ensures
        plain(xor_of(a, b)),
        value(xor_of(a, b), row) == xor01(value(a, row), value(b, row)),
{
    let two = base_const(2);
    let (x, y) = (value(a, row), value(b, row));
    lemma_plain_xor(a, b);
    lemma_plain_ops(a, b);
    lemma_plain_ops(two, a);
    lemma_plain_ops(two.spec_mul(a), b);
    lemma_value_parts(two, row);
    lemma_value_ops(two, a, row);
    lemma_value_ops(two.spec_mul(a), b, row);
    lemma_value_ops(a, b, row);
    lemma_value_ops(a.spec_add(b), two.spec_mul(a).spec_mul(b), row);
    lemma_xor_numbers(x, y);
}

proof fn lemma_xor_numbers(x: int, y: int)
    requires
        is_bit(x),
        is_bit(y),
    ensures
        f_sub(f_add(x, y), f_mul(f_mul(2, x), y)) == xor01(x, y),
{
    if x == 0 {
        assert(2 * x == 0 && (2 * x) * y == 0) by (nonlinear_arith)
            requires
                x == 0,
        ;
    } else {
        assert(2 * x == 2);
        assert(2 * y == (if y == 0 {
            0int
        } else {
            2int
        }));
    }
}

/// The value of a conjunction with a negation.
proof fn lemma_and_not_value(a: Expression, b: Expression, row: Seq<Goldilocks>)
    requires
        plain(a),
        plain(b),
        is_bit(value(a, row)),
        is_bit(value(b, row)),
    ensures
        plain(and_of(not_of(a), b)),
        value(and_of(not_of(a), b), row) == (1 - value(a, row)) * value(b, row),
{
    let one = base_const(1);
    let (x, y) = (value(a, row), value(b, row));
    lemma_plain_ops(one, a);
    lemma_plain_ops(not_of(a), b);
    lemma_value_parts(one, row);
    lemma_value_ops(one, a, row);
    lemma_value_ops(not_of(a), b, row);
    lemma_small_mod((1 - x) as nat, modulus() as nat);
    assert((1 - x) * y == 0 || (1 - x) * y == 1) by (nonlinear_arith)
        requires
            x == 0 || x == 1,
            y == 0 || y == 1,
    ;
    lemma_small_mod(((1 - x) * y) as nat, modulus() as nat);
}

/// The bits of the parities of the columns.
pub open spec fn c_bits(st: Seq<u64>) -> Seq<int> {
    Seq::new(C_SIZE as nat, |k: int| bit(parity(st, k / 64), k % 64))
}

/// The bits of what is added to the columns.
pub open spec fn d_bits(st: Seq<u64>) -> Seq<int> {
    Seq::new(D_SIZE as nat, |k: int| bit(d(st, k / 64), k % 64))
}

proof fn lemma_state_bits(st: Seq<u64>)
    ensures
        all_bits(state_bits(st)),
{
    assert forall|i: int| 0 <= i < STATE_SIZE implies is_bit(#[trigger] state_bits(st)[i]) by {
        lemma_word_bits(st[i / 64], 0, i % 64);
    }
}

proof fn lemma_parity_value(st: Seq<u64>, x: int, z: int, n: int)
    requires
        0 <= x < 5,
        0 <= z < 64,
        0 <= n <= 5,
    ensures
        plain(c_of(x, z, columns(STATE_SIZE as nat), n)),
        value(c_of(x, z, columns(STATE_SIZE as nat), n), bit_row(state_bits(st))) == (if n == 0 {
            0
        } else {
            bit(c_aux(st, x, n - 1), z)
        }),
    decreases n,
{
    let wits = columns(STATE_SIZE as nat);
    let row = bit_row(state_bits(st));
    if n == 0 {
        lemma_value_parts(base_const(0), row);
    } else {
        lemma_parity_value(st, x, z, n - 1);
        let id = spec_from_xyz(x, n - 1, z);
        lemma_xyz(0, x, n - 1, z);
        lemma_state_bits(st);
        lemma_column_value(id, state_bits(st));
        let w = st[5 * (n - 1) + x];
        assert(id / 64 == 5 * (n - 1) + x && id % 64 == z);
        if n == 1 {
            lemma_word_bits(w, 0, z);
        } else {
            lemma_word_bits(c_aux(st, x, n - 2), w, z);
            lemma_word_bits(w, 0, z);
        }
        lemma_xor_value(c_of(x, z, wits, n - 1), wits[id], row);
    }
}

/// The layer of the parities computes the parities and keeps the state.
pub proof fn lemma_c_layer(st: Seq<u64>)
    ensures
        layer_values(c_layer(), state_bits(st)) == c_bits(st) + state_bits(st),
{
    let values = layer_values(c_layer(), state_bits(st));
    let expected = c_bits(st) + state_bits(st);
    assert forall|i: int| 0 <= i < values.len() implies #[trigger] values[i] == expected[i] by {
        if i < C_SIZE {
            lemma_parity_value(st, i / 64, i % 64, 5);
        } else {
            lemma_state_bits(st);
            lemma_column_value(i - C_SIZE, state_bits(st));
        }
    }
    assert(values =~= expected);
}

/// The layer of what is added to the columns computes it.
pub proof fn lemma_d_layer(st: Seq<u64>)
    ensures
        layer_values(d_layer(), c_bits(st)) == d_bits(st),
{
    let values = layer_values(d_layer(), c_bits(st));
    let row = bit_row(c_bits(st));
    assert(all_bits(c_bits(st))) by {
        assert forall|k: int| 0 <= k < C_SIZE implies is_bit(#[trigger] c_bits(st)[k]) by {
            lemma_word_bits(parity(st, k / 64), 0, k % 64);
        }
    }
    assert forall|k: int| 0 <= k < D_SIZE implies #[trigger] values[k] == d_bits(st)[k] by {
        let (x, z) = (k / 64, k % 64);
        let (a, b) = (64 * ((x + 4) % 5) + z, 64 * ((x + 1) % 5) + (z + 63) % 64);
        lemma_column_value(a, c_bits(st));
        lemma_column_value(b, c_bits(st));
        assert(a / 64 == (x + 4) % 5 && a % 64 == z);
        assert(b / 64 == (x + 1) % 5 && b % 64 == (z + 63) % 64);
        let cols = columns(C_SIZE as nat);
        lemma_xor_value(cols[a], cols[b], row);
        lemma_rotl_bit(parity(st, (x + 1) % 5), 1, z);
        lemma_word_bits(parity(st, (x + 4) % 5), rotl(parity(st, (x + 1) % 5), 1), z);
    }
    assert(values =~= d_bits(st));
}

/// The lanes after the first step.
pub open spec fn theta_lanes(st: Seq<u64>) -> Seq<u64> {
    Seq::new(25, |l: int| theta(st, l))
}

/// The lanes after the nonlinear step.
pub open spec fn chi_lanes(st: Seq<u64>) -> Seq<u64> {
    Seq::new(25, |l: int| chi(st, l))
}

/// The layer of the first step computes it.
pub proof fn lemma_theta_layer(st: Seq<u64>)
    ensures
        layer_values(theta_layer(), d_bits(st) + state_bits(st)) == state_bits(theta_lanes(st)),
{
    let inputs = d_bits(st) + state_bits(st);
    let row = bit_row(inputs);
    let values = layer_values(theta_layer(), inputs);
    let expected = state_bits(theta_lanes(st));
    assert(all_bits(inputs)) by {
        lemma_state_bits(st);
        assert forall|k: int| 0 <= k < inputs.len() implies is_bit(#[trigger] inputs[k]) by {
            if k < D_SIZE {
                lemma_word_bits(d(st, k / 64), 0, k % 64);
            } else {
                assert(inputs[k] == state_bits(st)[k - D_SIZE]);
            }
        }
    }
    assert forall|i: int| 0 <= i < STATE_SIZE implies #[trigger] values[i] == expected[i] by {
        let (lane, z) = (i / 64, i % 64);
        let id = d_column(i);
        assert(0 <= id < D_SIZE && id / 64 == lane % 5 && id % 64 == z);
        lemma_column_value(D_SIZE + i, inputs);
        lemma_column_value(id, inputs);
        lemma_xor_value(
            Expression::WitIn((D_SIZE + i) as u16),
            Expression::WitIn(id as u16),
            row,
        );
        lemma_word_bits(st[lane], d(st, lane % 5), z);
    }
    assert(values =~= expected);
}

/// The value of a permuted column is the bit of the rotated and permuted lane.
proof fn lemma_permuted_value(st: Seq<u64>, i: int)
    requires
        0 <= i < STATE_SIZE,
    ensures
        plain(permuted_columns()[i]),
        value(permuted_columns()[i], bit_row(state_bits(theta_lanes(st)))) == bit(
            rhopi(st, i / 64),
            i % 64,
        ),
        is_bit(bit(rhopi(st, i / 64), i % 64)),
{
    let (lane, z) = (i / 64, i % 64);
    let source = source_lane(lane);
    lemma_lanes(lane);
    lemma_rho_pi(i);
    lemma_rotation_constant(source);
    let turn = rotation_constant(source) as int;
    let id = rho_pi_source(i);
    assert(id / 64 == source && id % 64 == (z + 64 - turn) % 64);
    let bits = state_bits(theta_lanes(st));
    lemma_state_bits(theta_lanes(st));
    lemma_column_value(id, bits);
    lemma_rotl_bit(theta(st, source), turn, z);
    reveal(rhopi);
    lemma_word_bits(rhopi(st, lane), 0, z);
}

/// The bit beside a bit.
proof fn lemma_beside(i: int, by: int)
    requires
        0 <= i < STATE_SIZE,
        0 <= by < 5,
    ensures
        0 <= bit_beside(i, by) < STATE_SIZE,
        bit_beside(i, by) / 64 == beside(i / 64, by),
        bit_beside(i, by) % 64 == i % 64,
{
}

proof fn lemma_chi_words(st: Seq<u64>, lane: int, z: int)
    requires
        0 <= z < 64,
    ensures
        bit(chi(st, lane), z) == xor01(
            bit(rhopi(st, lane), z),
            (1 - bit(rhopi(st, beside(lane, 1)), z)) * bit(rhopi(st, beside(lane, 2)), z),
        ),
        is_bit((1 - bit(rhopi(st, beside(lane, 1)), z)) * bit(rhopi(st, beside(lane, 2)), z)),
{
    let (wa, wb) = (rhopi(st, beside(lane, 1)), rhopi(st, beside(lane, 2)));
    lemma_word_bits(wa, wb, z);
    lemma_word_bits(nonlinear(st, lane), 0, z);
    lemma_word_bits(rhopi(st, lane), nonlinear(st, lane), z);
}

proof fn lemma_chi_value(st: Seq<u64>, i: int)
    requires
        0 <= i < STATE_SIZE,
    ensures
        value(chi_of(i, permuted_columns()), bit_row(state_bits(theta_lanes(st)))) == bit(
            chi(st, i / 64),
            i % 64,
        ),
{
    let row = bit_row(state_bits(theta_lanes(st)));
    let (a, b) = (bit_beside(i, 1), bit_beside(i, 2));
    let cols = permuted_columns();
    lemma_beside(i, 1);
    lemma_beside(i, 2);
    lemma_permuted_value(st, i);
    lemma_permuted_value(st, a);
    lemma_permuted_value(st, b);
    lemma_and_not_value(cols[a], cols[b], row);
    lemma_chi_words(st, i / 64, i % 64);
    lemma_xor_value(cols[i], and_of(not_of(cols[a]), cols[b]), row);
}

/// The layer of the nonlinear step computes it from the state after the first step.
pub proof fn lemma_chi_layer(st: Seq<u64>)
    ensures
        layer_values(chi_layer(), state_bits(theta_lanes(st))) == state_bits(chi_lanes(st)),
{
    let values = layer_values(chi_layer(), state_bits(theta_lanes(st)));
    let expected = state_bits(chi_lanes(st));
    assert forall|i: int| 0 <= i < STATE_SIZE implies #[trigger] values[i] == expected[i] by {
        lemma_chi_value(st, i);
        assert(values[i] == value(
            chi_of(i, permuted_columns()),
            bit_row(state_bits(theta_lanes(st))),
        ));
        assert(expected[i] == bit(chi(st, i / 64), i % 64));
    }
    assert(values =~= expected);
}

/// The layer of the last step computes the state after the round.
pub proof fn lemma_iota_layer(st: Seq<u64>, constant: u64)
    ensures
        layer_values(iota_layer(constant), state_bits(chi_lanes(st))) == state_bits(
            keccak_round(st, constant),
        ),
{
    let inputs = state_bits(chi_lanes(st));
    let row = bit_row(inputs);
    let values = layer_values(iota_layer(constant), inputs);
    let expected = state_bits(keccak_round(st, constant));
    lemma_state_bits(chi_lanes(st));
    assert forall|i: int| 0 <= i < STATE_SIZE implies #[trigger] values[i] == expected[i] by {
        lemma_column_value(i, inputs);
        if i < 64 {
            let b = base_const(bit(constant, i));
            lemma_word_bits(constant, 0, i);
            lemma_value_parts(b, row);
            lemma_small_mod(bit(constant, i) as nat, modulus() as nat);
            lemma_xor_value(columns(STATE_SIZE as nat)[i], b, row);
            lemma_word_bits(chi(st, 0), constant, i);
        }
    }
    assert(values =~= expected);
}

/// What the layers of a round make of the bits of a state.
pub open spec fn round_bits(bits: Seq<int>, constant: u64) -> Seq<int> {
    let c = layer_values(c_layer(), bits);
    let ds = layer_values(d_layer(), c.take(C_SIZE as int));
    let after_theta = layer_values(theta_layer(), ds + c.skip(C_SIZE as int));
    let after_chi = layer_values(chi_layer(), after_theta);
    layer_values(iota_layer(constant), after_chi)
}

/// The layers of a round make the bits of the state after the round of those before it.
pub proof fn lemma_round_bits(st: Seq<u64>, constant: u64)
    ensures
        round_bits(state_bits(st), constant) == state_bits(keccak_round(st, constant)),
{
    lemma_c_layer(st);
    lemma_d_layer(st);
    lemma_theta_layer(st);
    lemma_chi_layer(st);
    lemma_iota_layer(st, constant);
    let c = c_bits(st) + state_bits(st);
    assert(c.take(C_SIZE as int) =~= c_bits(st));
    assert(c.skip(C_SIZE as int) =~= state_bits(st));
}

/// What the layers of rounds make of the bits of a state.
pub open spec fn rounds_bits(bits: Seq<int>, constants: Seq<u64>) -> Seq<int>
    decreases constants.len(),
{
    if constants.len() == 0 {
        bits
    } else {
        round_bits(rounds_bits(bits, constants.drop_last()), constants.last())
    }
}

/// The layers of rounds make the bits of the state after the rounds of those before them.
pub proof fn lemma_rounds_bits(st: Seq<u64>, constants: Seq<u64>)
    ensures
        rounds_bits(state_bits(st), constants) == state_bits(keccak_rounds(st, constants)),
    decreases constants.len(),
{
    if constants.len() > 0 {
        lemma_rounds_bits(st, constants.drop_last());
        lemma_round_bits(keccak_rounds(st, constants.drop_last()), constants.last());
    }
}

/// The values of the evaluations from `from` on.
pub open spec fn values_at(values: Seq<int>, from: int, n: nat) -> Seq<int> {
    Seq::new(n, |i: int| values[from + i])
}

/// The evaluation that an expression names.
pub open spec fn single_of(e: EvalExpression) -> int {
    match e {
        EvalExpression::Single(i) => i as int,
        _ => 0,
    }
}

/// Values of evaluations agree with a layer: those of its outputs are what its expressions make of
/// those of its inputs.
pub open spec fn layer_holds(layer: Layer, values: Seq<int>) -> bool {
    let inputs = Seq::new(
        layer.in_eval_expr@.len(),
        |j: int| values[single_of(layer.in_eval_expr@[j])],
    );
    let evals = all_evals(layer.expr_evals@);
    forall|i: int|
        0 <= i < layer.exprs@.len() ==> values[single_of(#[trigger] evals[i])] == value(
            layer.exprs@[i],
            bit_row(inputs),
        )
}

/// A layer with the outputs at the evaluations from `to` on and the inputs at those from `from` on.
proof fn lemma_layer_at(
    layer: Layer,
    values: Seq<int>,
    exprs: Seq<Expression>,
    from: int,
    n: nat,
    to: int,
)
    requires
        layer_holds(layer, values),
        layer.exprs@ == exprs,
        layer.in_eval_expr@ == singles(from, n),
        all_evals(layer.expr_evals@) == singles(to, exprs.len()),
        0 <= from,
        0 <= to,
        from + n <= usize::MAX,
        to + exprs.len() <= usize::MAX,
    ensures
        values_at(values, to, exprs.len()) == layer_values(exprs, values_at(values, from, n)),
{
    let inputs = Seq::new(
        layer.in_eval_expr@.len(),
        |j: int| values[single_of(layer.in_eval_expr@[j])],
    );
    assert(inputs =~= values_at(values, from, n));
    let got = values_at(values, to, exprs.len());
    let expected = layer_values(exprs, values_at(values, from, n));
    assert forall|i: int| 0 <= i < exprs.len() implies #[trigger] got[i] == expected[i] by {
        let e = all_evals(layer.expr_evals@)[i];
        assert(e == singles(to, exprs.len())[i]);
        assert(values[single_of(e)] == value(exprs[i], bit_row(inputs)));
    }
    assert(got =~= expected);
}

proof fn lemma_one_group(groups: Seq<OutputGroup>)
    requires
        groups.len() == 1,
    ensures
        all_evals(groups) == groups[0].evals@,
{
    reveal_with_fuel(all_evals, 2);
    assert(groups.drop_last() =~= Seq::empty());
    assert(Seq::empty() + groups[0].evals@ =~= groups[0].evals@);
}

/// The layers of a round, as they are wired, make the bits of the state after the round.
#[verifier::spinoff_prover]
pub proof fn lemma_wired_round(
    layers: Seq<Layer>,
    round: int,
    output: int,
    base: int,
    values: Seq<int>,
    st: Seq<u64>,
)
    requires
        is_round(layers, round, output, base),
        0 <= output,
        0 <= base,
        output + STATE_SIZE <= usize::MAX,
        base + ROUND_EVALS <= usize::MAX,
        forall|j: int| 0 <= j < 5 ==> layer_holds(#[trigger] layers[j], values),
        values_at(values, base + STATE_EVALS, STATE_SIZE as nat) == state_bits(st),
    ensures
        values_at(values, output, STATE_SIZE as nat) == state_bits(
            keccak_round(st, round_constant(round)),
        ),
{
    reveal(is_round);
    let (theta, ds, cs, state) = (base + 1601, base + 3202, base + 5123, base + STATE_EVALS);
    let n = STATE_SIZE as nat;
    let bits = state_bits(st);
    lemma_round_bits(st, round_constant(round));
    lemma_c_layer(st);
    let c = layer_values(c_layer(), bits);
    assert(values_at(values, cs, C_SIZE as nat) == c.take(C_SIZE as int) && values_at(
        values,
        ds + D_SIZE,
        n,
    ) == c.skip(C_SIZE as int)) by {
        lemma_c_wired(layers[4], values, cs, ds + D_SIZE, state, bits);
    }
    lemma_one_group(layers[3].expr_evals@);
    lemma_layer_at(layers[3], values, d_layer(), cs, C_SIZE as nat, ds);
    let d = layer_values(d_layer(), c.take(C_SIZE as int));
    assert(values_at(values, ds, (D_SIZE + STATE_SIZE) as nat) =~= d + c.skip(C_SIZE as int)) by {
        let all = values_at(values, ds, (D_SIZE + STATE_SIZE) as nat);
        assert forall|i: int| 0 <= i < D_SIZE + STATE_SIZE implies #[trigger] all[i] == (d
            + c.skip(C_SIZE as int))[i] by {
            if i < D_SIZE {
                assert(values_at(values, ds, D_SIZE as nat)[i] == d[i]);
            } else {
                assert(values_at(values, ds + D_SIZE, n)[i - D_SIZE] == c.skip(C_SIZE as int)[i
                    - D_SIZE]);
            }
        }
    }
    lemma_one_group(layers[2].expr_evals@);
    lemma_layer_at(layers[2], values, theta_layer(), ds, (D_SIZE + STATE_SIZE) as nat, theta);
    lemma_one_group(layers[1].expr_evals@);
    lemma_layer_at(layers[1], values, chi_layer(), theta, n, base);
    lemma_one_group(layers[0].expr_evals@);
    lemma_layer_at(layers[0], values, iota_layer(round_constant(round)), base, n, output);
}

/// The layer of the parities has two groups of outputs: the parities, and the state itself.
#[verifier::spinoff_prover]
proof fn lemma_c_wired(
    layer: Layer,
    values: Seq<int>,
    cs: int,
    copy: int,
    state: int,
    bits: Seq<int>,
)
    requires
        layer_holds(layer, values),
        layer.exprs@ == c_layer(),
        layer.in_eval_expr@ == singles(state, STATE_SIZE as nat),
        layer.expr_evals@.len() == 2,
        layer.expr_evals@[0].evals@ == singles(cs, C_SIZE as nat),
        layer.expr_evals@[1].evals@ == singles(copy, STATE_SIZE as nat),
        0 <= cs,
        0 <= copy,
        0 <= state,
        cs + C_SIZE <= usize::MAX,
        copy + STATE_SIZE <= usize::MAX,
        state + STATE_SIZE <= usize::MAX,
        values_at(values, state, STATE_SIZE as nat) == bits,
    ensures
        values_at(values, cs, C_SIZE as nat) == layer_values(c_layer(), bits).take(C_SIZE as int),
        values_at(values, copy, STATE_SIZE as nat) == layer_values(c_layer(), bits).skip(
            C_SIZE as int,
        ),
{
    let groups = layer.expr_evals@;
    let evals = all_evals(groups);
    lemma_one_group(groups.drop_last());
    assert(evals == singles(cs, C_SIZE as nat) + singles(copy, STATE_SIZE as nat));
    let inputs = Seq::new(
        layer.in_eval_expr@.len(),
        |j: int| values[single_of(layer.in_eval_expr@[j])],
    );
    assert(inputs =~= bits) by {
        assert forall|j: int| 0 <= j < STATE_SIZE implies #[trigger] inputs[j] == bits[j] by {
            assert(values_at(values, state, STATE_SIZE as nat)[j] == values[state + j]);
        }
    }
    let expected = layer_values(c_layer(), bits);
    assert(c_layer().len() == C_SIZE + STATE_SIZE);
    assert forall|i: int| 0 <= i < C_SIZE implies values_at(values, cs, C_SIZE as nat)[i]
        == #[trigger] expected.take(C_SIZE as int)[i] by {
        assert(evals[i] == singles(cs, C_SIZE as nat)[i]);
        assert(values[single_of(evals[i])] == value(c_layer()[i], bit_row(inputs)));
    }
    assert(values_at(values, cs, C_SIZE as nat) =~= expected.take(C_SIZE as int));
    assert forall|i: int| 0 <= i < STATE_SIZE implies values_at(values, copy, STATE_SIZE as nat)[i]
        == #[trigger] expected.skip(C_SIZE as int)[i] by {
        let k = C_SIZE + i;
        assert(evals[k] == singles(copy, STATE_SIZE as nat)[i]);
        assert(values[single_of(evals[k])] == value(c_layer()[k], bit_row(inputs)));
    }
    assert(values_at(values, copy, STATE_SIZE as nat) =~= expected.skip(C_SIZE as int));
}

/// Where the evaluations of the rounds stand.
proof fn lemma_round_places(start: int, k: int)
    requires
        0 <= start,
        0 <= k < ROUNDS,
        round_base(start, ROUNDS as int) <= usize::MAX,
    ensures
        0 <= round_output(start, k),
        round_output(start, k) + STATE_SIZE <= usize::MAX,
        0 <= round_base(start, k),
        round_base(start, k) + ROUND_EVALS <= usize::MAX,
        round_output(start, k + 1) == round_base(start, k) + STATE_EVALS,
{
}

/// The first rounds, as they are wired: the rounds are built from the last one on, so `k` of them
/// are left out.
proof fn lemma_wired_rounds(
    layers: Seq<Layer>,
    start: int,
    values: Seq<int>,
    st: Seq<u64>,
    k: int,
)
    requires
        are_rounds(layers, start, ROUNDS as int),
        0 <= start,
        round_base(start, ROUNDS as int) <= usize::MAX,
        forall|l: int| 0 <= l < layers.len() ==> layer_holds(#[trigger] layers[l], values),
        values_at(values, round_output(start, ROUNDS as int), STATE_SIZE as nat) == state_bits(st),
        0 <= k <= ROUNDS,
    ensures
        values_at(values, round_output(start, k), STATE_SIZE as nat) == state_bits(
            keccak_rounds(st, first_constants(ROUNDS - k)),
        ),
    decreases ROUNDS - k,
{
    let constants = first_constants(ROUNDS - k);
    if k < ROUNDS {
        lemma_wired_rounds(layers, start, values, st, k + 1);
        let five = layers.subrange(5 * k, 5 * k + 5);
        assert(is_round(five, ROUNDS - 1 - k, round_output(start, k), round_base(start, k)));
        assert forall|j: int| 0 <= j < 5 implies layer_holds(#[trigger] five[j], values) by {
            assert(five[j] == layers[5 * k + j]);
        }
        lemma_round_places(start, k);
        assert(constants.drop_last() =~= first_constants(ROUNDS - k - 1));
        assert(constants.last() == round_constant(ROUNDS - 1 - k));
        lemma_wired_round(
            five,
            ROUNDS - 1 - k,
            round_output(start, k),
            round_base(start, k),
            values,
            keccak_rounds(st, first_constants(ROUNDS - k - 1)),
        );
    } else {
        assert(constants.len() == 0);
    }
}

/// The circuit, as it is wired, computes the permutation: with the bits of a state at the
/// evaluations that open the committed bits, those of the output are the bits of the permuted
/// state.
pub proof fn lemma_wired_permutation(
    layers: Seq<Layer>,
    start: int,
    values: Seq<int>,
    st: Seq<u64>,
)
    requires
        are_rounds(layers, start, ROUNDS as int),
        0 <= start,
        round_base(start, ROUNDS as int) <= usize::MAX,
        forall|l: int| 0 <= l < layers.len() ==> layer_holds(#[trigger] layers[l], values),
        values_at(values, round_output(start, ROUNDS as int), STATE_SIZE as nat) == state_bits(st),
    ensures
        values_at(values, start, STATE_SIZE as nat) == state_bits(
            keccak_rounds(st, first_constants(ROUNDS as int)),
        ),
{
    lemma_wired_rounds(layers, start, values, st, 0);
}

/// The circuit computes the permutation. Let the committed polynomials have the bits of a state, bit
/// `z` of lane `l` in the one whose place the layout gives at `64 * l + z`, and let the values of the
/// evaluations agree with the openings and the layers. Then the outputs are the bits of the permuted
/// state, in the same order.
pub proof fn lemma_chip_permutes(
    layout: KeccakLayout,
    chip: Chip,
    committed: Seq<int>,
    values: Seq<int>,
    st: Seq<u64>,
)
    requires
        is_keccak_chip(layout, chip),
        st.len() == 25,
        forall|l: int, z: int|
            0 <= l < 25 && 0 <= z < 64 ==> #[trigger] committed[layout.committed_bits_id@[64 * l
                + z] as int] == (st[l] as int / pow2(z as nat) as int) % 2,
        forall|k: int|
            0 <= k < chip.openings@.len() ==> values[single_of((#[trigger] chip.openings@[k]).1)]
                == committed[chip.openings@[k].0 as int],
        forall|l: int| 0 <= l < chip.layers@.len() ==> layer_holds(#[trigger] chip.layers@[l], values),
    ensures
        chip.final_out_evals@.len() == 1600,
        forall|l: int, z: int|
            0 <= l < 25 && 0 <= z < 64 ==> values[#[trigger] chip.final_out_evals@[64 * l + z] as int]
                == (keccak_rounds(st, Seq::new(24, |k: int| round_constant(k)))[l] as int / pow2(
                z as nat,
            ) as int) % 2,
{
    let from = round_output(0, ROUNDS as int);
    let got = values_at(values, from, STATE_SIZE as nat);
    assert forall|i: int| 0 <= i < 1600 implies #[trigger] got[i] == state_bits(st)[i] by {
        let (l, z) = (i / 64, i % 64);
        assert(i == 64 * l + z);
        lemma_bit_div(st[l], z);
        assert(values[single_of(chip.openings@[i].1)] == committed[chip.openings@[i].0 as int]);
        assert(layout.committed_bits_id@[64 * l + z] == i);
        assert(committed[layout.committed_bits_id@[64 * l + z] as int] == (st[l] as int / pow2(
            z as nat,
        ) as int) % 2);
        assert(single_of(chip.openings@[i].1) == from + i);
    }
    assert(got =~= state_bits(st));
    lemma_wired_permutation(chip.layers@, 0, values, st);
    let end = keccak_rounds(st, first_constants(ROUNDS as int));
    assert(first_constants(ROUNDS as int) =~= Seq::new(24, |k: int| round_constant(k)));
    assert forall|l: int, z: int| 0 <= l < 25 && 0 <= z < 64 implies values[
        #[trigger] chip.final_out_evals@[64 * l + z] as int] == (end[l] as int / pow2(z as nat) as int)
        % 2 by {
        lemma_bit_div(end[l], z);
        let i = 64 * l + z;
        assert(values_at(values, 0, STATE_SIZE as nat)[i] == state_bits(end)[i]);
        assert(i / 64 == l && i % 64 == z);
    }
}

/// The row of a state has bit `z` of lane `l` at `64 * l + z`.
pub proof fn lemma_state_row(st: Seq<u64>, l: int, z: int)
    requires
        0 <= l < 25,
        0 <= z < 64,
    ensures
        state_row(st).len() == 1600,
        state_row(st)[64 * l + z].value == (st[l] as int / pow2(z as nat) as int) % 2,
{
    lemma_bit_div(st[l], z);
    let i = 64 * l + z;
    assert(i / 64 == l && i % 64 == z);
}

/// A layer's inputs are evaluations one after the other, and its groups of outputs are weighted by
/// the columns after its inputs.
pub open spec fn has_inputs(layer: Layer, from: int, n: int) -> bool {
    &&& layer.in_eval_expr@.len() == n
    &&& forall|i: int|
        0 <= i < n ==> #[trigger] layer.in_eval_expr@[i] == EvalExpression::Single(
            (from + i) as usize,
        )
    &&& forall|g: int|
        0 <= g < layer.expr_evals@.len() ==> (#[trigger] layer.expr_evals@[g]).eq == Some(
            Expression::WitIn((n + g) as u16),
        )
    &&& layer.ty is Zerocheck
    &&& layer.rotation_exprs.eqs is None
    &&& layer.rotation_exprs.pairs@.len() == 0
}

/// The layer has the name of a step of a round.
pub open spec fn is_named(layer: Layer, round: int, step: Seq<char>) -> bool {
    &&& layer.name@ == "Round "@ + decimal_text(round as nat) + ": "@ + step
    &&& layer.expr_names@.len() == layer.exprs@.len()
    &&& forall|i: int|
        0 <= i < layer.expr_names@.len() ==> (#[trigger] layer.expr_names@[i])@ == step
}

/// The wiring of a round. The inputs of each layer are followed by one evaluation for each group of
/// its outputs. The outputs of each layer but the first are the inputs of a layer before it: what
/// is added to the columns and the state are the two parts of what the layer of the first step
/// reads.
#[verifier::spinoff_prover]
#[verifier::rlimit(40)]
pub proof fn lemma_round_wiring(layers: Seq<Layer>, round: int, output: int, base: int)
    requires
        is_round(layers, round, output, base),
    ensures
        layers.len() == 5,
        has_inputs(layers[0], base, 1600),
        has_inputs(layers[1], base + 1601, 1600),
        has_inputs(layers[2], base + 3202, 1920),
        has_inputs(layers[3], base + 5123, 320),
        has_inputs(layers[4], base + 5444, 1600),
        layers[0].expr_evals@.len() == 1,
        layers[0].expr_evals@[0].evals@.len() == 1600,
        forall|i: int|
            0 <= i < 1600 ==> #[trigger] layers[0].expr_evals@[0].evals@[i]
                == EvalExpression::Single((output + i) as usize),
        layers[1].expr_evals@.len() == 1,
        layers[1].expr_evals@[0].evals@ == layers[0].in_eval_expr@,
        layers[2].expr_evals@.len() == 1,
        layers[2].expr_evals@[0].evals@ == layers[1].in_eval_expr@,
        layers[3].expr_evals@.len() == 1,
        layers[3].expr_evals@[0].evals@ == layers[2].in_eval_expr@.take(320),
        layers[4].expr_evals@.len() == 2,
        layers[4].expr_evals@[0].evals@ == layers[3].in_eval_expr@,
        layers[4].expr_evals@[1].evals@ == layers[2].in_eval_expr@.skip(320),
        is_named(layers[0], round, "Iota:: compute output"@),
        is_named(layers[1], round, "Chi:: apply rho, pi and chi"@),
        is_named(layers[2], round, "Theta::compute output"@),
        is_named(layers[3], round, "Theta::compute D[x][z]"@),
        is_named(layers[4], round, "Theta::compute C[x][z]"@),
{
    reveal(is_round);
    let theta = layers[2].in_eval_expr@;
    assert(layers[3].expr_evals@[0].evals@ =~= theta.take(320));
    assert(layers[4].expr_evals@[1].evals@ =~= theta.skip(320));
}

/// The wiring of the circuit. The rounds are built from the last one on, each with evaluations of
/// its own. The outputs of the first round that is built are those of the circuit, the outputs of
/// every other one are the inputs of the round built before it, and the inputs of the last one are
/// opened.
pub proof fn lemma_bitwise_wiring(layout: KeccakLayout, chip: Chip, k: int)
    requires
        is_keccak_chip(layout, chip),
        0 <= k < 24,
    ensures
        chip.layers@.len() == 120,
        chip.n_committed == 1600,
        chip.n_challenges == 0,
        chip.n_evaluations == 1600 + 24 * 7046,
        layout.committed_bits_id@.len() == 1600,
        forall|i: int| 0 <= i < 1600 ==> #[trigger] layout.committed_bits_id@[i] == i,
        has_inputs(chip.layers@[5 * k + 4], 1600 + 7046 * k + 5444, 1600),
        is_named(chip.layers@[5 * k], 23 - k, "Iota:: compute output"@),
        chip.layers@[5 * k].expr_evals@[0].evals@.len() == 1600,
        k > 0 ==> chip.layers@[5 * k].expr_evals@[0].evals@ == chip.layers@[5 * k
            - 1].in_eval_expr@,
        k == 0 ==> forall|i: int|
            0 <= i < 1600 ==> chip.layers@[5 * k].expr_evals@[0].evals@[i]
                == EvalExpression::Single(#[trigger] chip.final_out_evals@[i]),
        chip.openings@.len() == 1600,
        forall|i: int|
            0 <= i < 1600 ==> (#[trigger] chip.openings@[i]).0 == i && chip.openings@[i].1
                == chip.layers@[119].in_eval_expr@[i],
{
    let layers = chip.layers@;
    lemma_round_of_chip(layers, k);
    lemma_round_of_chip(layers, 23);
    let outputs = layers[5 * k].expr_evals@[0].evals@;
    assert(outputs[0] == outputs[0]);
    if k > 0 {
        lemma_round_of_chip(layers, k - 1);
        assert(outputs =~= layers[5 * k - 1].in_eval_expr@);
    }
}

proof fn lemma_round_of_chip(layers: Seq<Layer>, k: int)
    requires
        are_rounds(layers, 0, ROUNDS as int),
        0 <= k < 24,
    ensures
        layers.len() == 120,
        has_inputs(layers[5 * k + 4], 1600 + 7046 * k + 5444, 1600),
        is_named(layers[5 * k], 23 - k, "Iota:: compute output"@),
        layers[5 * k].expr_evals@.len() == 1,
        layers[5 * k].expr_evals@[0].evals@.len() == 1600,
        forall|i: int|
            0 <= i < 1600 ==> #[trigger] layers[5 * k].expr_evals@[0].evals@[i]
                == EvalExpression::Single((round_output(0, k) + i) as usize),
{
    let five = layers.subrange(5 * k, 5 * k + 5);
    assert(is_round(five, ROUNDS - 1 - k, round_output(0, k), round_base(0, k)));
    lemma_round_wiring(five, ROUNDS - 1 - k, round_output(0, k), round_base(0, k));
    assert(five[0] == layers[5 * k]);
    assert(five[4] == layers[5 * k + 4]);
}

} // verus!
