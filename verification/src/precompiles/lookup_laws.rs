//! The rows of the lookup circuit are rounds of the permutation, each with the first round constant.
use vstd::arithmetic::div_mod::*;
use vstd::prelude::*;

use crate::field::{f_sub, group_field, modulus, Goldilocks};
use crate::precompiles::keccak::{
    beside, c_aux, chi, d, iota, keccak_round, keccak_rounds, lemma_lanes, lemma_rotation_constant,
    rhopi, rotation_constant, round_constant, source_lane, theta,
};
use crate::precompiles::lookup_keccakf::{
    at, c_aux_xor, c_aux_zero, chi_and, chi_column, chi_xor, columns, concat, d_xor, iota_xor,
    lemma_split_sizes, rhopi_ranges, rhopi_rotation, rotated_lane, round_ands, round_ranges,
    round_xors, round_zeros, split_column, split_len, theta_ranges, theta_rotation, theta_xor,
    C_AUX, C_ROT, C_TEMP, CHI, D, IOTA, NONLINEAR, RHOPI, THETA,
};
use crate::precompiles::system::{all_u16, all_zero, lemma_rotation_sound};
use crate::precompiles::words::{
    and8, byte_sizes, bytes, chunks_fit, lemma_and_not_words, lemma_bytes_word, lemma_word_bytes,
    lemma_xor_words, word, xor8,
};

verus! {

broadcast use group_field;

/// All triples are in the table.
pub open spec fn all_xor8(s: Seq<(int, int, int)>) -> bool {
    forall|i: int| 0 <= i < s.len() ==> xor8((#[trigger] s[i]).0, s[i].1, s[i].2)
}

/// All triples are in the table.
pub open spec fn all_and8(s: Seq<(int, int, int)>) -> bool {
    forall|i: int| 0 <= i < s.len() ==> and8((#[trigger] s[i]).0, s[i].1, s[i].2)
}

/// A row that satisfies the constraints and whose lookups are in the tables.
pub open spec fn round_holds(row: Seq<Goldilocks>) -> bool {
    &&& all_zero(round_zeros(row))
    &&& all_and8(round_ands(row))
    &&& all_xor8(round_xors(row))
    &&& all_u16(round_ranges(row))
}

/// The lane that eight columns spell.
pub open spec fn lane(row: Seq<Goldilocks>, from: int) -> u64 {
    word(columns(row, from, 8)) as u64
}

/// The eight columns are bytes.
pub open spec fn is_lane(row: Seq<Goldilocks>, from: int) -> bool {
    chunks_fit(columns(row, from, 8), byte_sizes())
}

/// The state before the round.
pub open spec fn state_before(row: Seq<Goldilocks>) -> Seq<u64> {
    Seq::new(25, |l: int| lane(row, 8 * l))
}

/// The state after the round.
pub open spec fn state_after(row: Seq<Goldilocks>) -> Seq<u64> {
    Seq::new(25, |l: int| lane(row, IOTA + 8 * l))
}

/// The parts of the lists of lookups and constraints.
proof fn lemma_parts(row: Seq<Goldilocks>)
    requires
        round_holds(row),
    ensures
        forall|t: int| 0 <= t < 40 ==> #[trigger] c_aux_zero(row, t) == 0,
        forall|t: int|
            0 <= t < 160 ==> xor8((#[trigger] c_aux_xor(row, t)).0, c_aux_xor(row, t).1, c_aux_xor(
                row,
                t,
            ).2),
        forall|t: int|
            0 <= t < 40 ==> xor8((#[trigger] d_xor(row, t)).0, d_xor(row, t).1, d_xor(row, t).2),
        forall|t: int|
            0 <= t < 200 ==> xor8((#[trigger] theta_xor(row, t)).0, theta_xor(row, t).1, theta_xor(
                row,
                t,
            ).2),
        forall|t: int|
            0 <= t < 200 ==> and8((#[trigger] chi_and(row, t)).0, chi_and(row, t).1, chi_and(
                row,
                t,
            ).2),
        forall|t: int|
            0 <= t < 200 ==> xor8((#[trigger] chi_xor(row, t)).0, chi_xor(row, t).1, chi_xor(
                row,
                t,
            ).2),
        forall|t: int|
            0 <= t < 8 ==> xor8((#[trigger] iota_xor(row, t)).0, iota_xor(row, t).1, iota_xor(
                row,
                t,
            ).2),
        forall|t: int| 0 <= t < 5 ==> all_zero(#[trigger] theta_rotation(row, t)),
        forall|t: int| 0 <= t < 25 ==> all_zero(#[trigger] rhopi_rotation(row, t)),
        forall|t: int| 0 <= t < 5 ==> all_u16(#[trigger] theta_ranges(row, t)),
        forall|t: int| 0 <= t < 25 ==> all_u16(#[trigger] rhopi_ranges(row, t)),
{
    lemma_xor_parts(row);
    lemma_zero_parts(row);
    reveal(round_ands);
    let s = round_ands(row);
    assert forall|t: int| 0 <= t < 200 implies and8(
        (#[trigger] chi_and(row, t)).0,
        chi_and(row, t).1,
        chi_and(row, t).2,
    ) by {
        assert(s[t] == chi_and(row, t));
    }
}

proof fn lemma_xor_parts(row: Seq<Goldilocks>)
    requires
        all_xor8(round_xors(row)),
    ensures
        forall|t: int|
            0 <= t < 160 ==> xor8((#[trigger] c_aux_xor(row, t)).0, c_aux_xor(row, t).1, c_aux_xor(
                row,
                t,
            ).2),
        forall|t: int|
            0 <= t < 40 ==> xor8((#[trigger] d_xor(row, t)).0, d_xor(row, t).1, d_xor(row, t).2),
        forall|t: int|
            0 <= t < 200 ==> xor8((#[trigger] theta_xor(row, t)).0, theta_xor(row, t).1, theta_xor(
                row,
                t,
            ).2),
        forall|t: int|
            0 <= t < 200 ==> xor8((#[trigger] chi_xor(row, t)).0, chi_xor(row, t).1, chi_xor(
                row,
                t,
            ).2),
        forall|t: int|
            0 <= t < 8 ==> xor8((#[trigger] iota_xor(row, t)).0, iota_xor(row, t).1, iota_xor(
                row,
                t,
            ).2),
{
    reveal(round_xors);
    let s = round_xors(row);
    assert forall|t: int| 0 <= t < 160 implies xor8(
        (#[trigger] c_aux_xor(row, t)).0,
        c_aux_xor(row, t).1,
        c_aux_xor(row, t).2,
    ) by {
        assert(s[t] == c_aux_xor(row, t));
    }
    assert forall|t: int| 0 <= t < 40 implies xor8(
        (#[trigger] d_xor(row, t)).0,
        d_xor(row, t).1,
        d_xor(row, t).2,
    ) by {
        assert(s[160 + t] == d_xor(row, t));
    }
    assert forall|t: int| 0 <= t < 200 implies xor8(
        (#[trigger] theta_xor(row, t)).0,
        theta_xor(row, t).1,
        theta_xor(row, t).2,
    ) by {
        assert(s[200 + t] == theta_xor(row, t));
    }
    assert forall|t: int| 0 <= t < 200 implies xor8(
        (#[trigger] chi_xor(row, t)).0,
        chi_xor(row, t).1,
        chi_xor(row, t).2,
    ) by {
        assert(s[400 + t] == chi_xor(row, t));
    }
    assert forall|t: int| 0 <= t < 8 implies xor8(
        (#[trigger] iota_xor(row, t)).0,
        iota_xor(row, t).1,
        iota_xor(row, t).2,
    ) by {
        assert(s[600 + t] == iota_xor(row, t));
    }
}

proof fn lemma_zero_parts(row: Seq<Goldilocks>)
    requires
        all_zero(round_zeros(row)),
        all_u16(round_ranges(row)),
    ensures
        forall|t: int| 0 <= t < 40 ==> #[trigger] c_aux_zero(row, t) == 0,
        forall|t: int| 0 <= t < 5 ==> all_zero(#[trigger] theta_rotation(row, t)),
        forall|t: int| 0 <= t < 25 ==> all_zero(#[trigger] rhopi_rotation(row, t)),
        forall|t: int| 0 <= t < 5 ==> all_u16(#[trigger] theta_ranges(row, t)),
        forall|t: int| 0 <= t < 25 ==> all_u16(#[trigger] rhopi_ranges(row, t)),
{
    reveal(round_zeros);
    reveal(round_ranges);
    let z = round_zeros(row);
    let r = round_ranges(row);
    let first = Seq::new(40, |t: int| c_aux_zero(row, t));
    let (theta_z, rhopi_z) = (|t: int| theta_rotation(row, t), |t: int| rhopi_rotation(row, t));
    let (theta_r, rhopi_r) = (|t: int| theta_ranges(row, t), |t: int| rhopi_ranges(row, t));
    let (a, b) = (concat(theta_z, 5), concat(rhopi_z, 25));
    assert forall|t: int| 0 <= t < 40 implies #[trigger] c_aux_zero(row, t) == 0 by {
        assert(z[t] == first[t]);
    }
    assert(all_zero(a)) by {
        assert forall|i: int| 0 <= i < a.len() implies #[trigger] a[i] == 0 by {
            assert(z[40 + i] == a[i]);
        }
    }
    assert(all_zero(b)) by {
        assert forall|i: int| 0 <= i < b.len() implies #[trigger] b[i] == 0 by {
            assert(z[40 + a.len() + i] == b[i]);
        }
    }
    let (e, f) = (concat(theta_r, 5), concat(rhopi_r, 25));
    assert(all_u16(e)) by {
        assert forall|i: int| 0 <= i < e.len() implies 0 <= #[trigger] e[i] < 65536 by {
            assert(r[i] == e[i]);
        }
    }
    assert(all_u16(f)) by {
        assert forall|i: int| 0 <= i < f.len() implies 0 <= #[trigger] f[i] < 65536 by {
            assert(r[e.len() + i] == f[i]);
        }
    }
    assert forall|t: int| 0 <= t < 5 implies all_zero(#[trigger] theta_rotation(row, t)) by {
        lemma_concat_zero(theta_z, 5, t);
    }
    assert forall|t: int| 0 <= t < 25 implies all_zero(#[trigger] rhopi_rotation(row, t)) by {
        lemma_concat_zero(rhopi_z, 25, t);
    }
    assert forall|t: int| 0 <= t < 5 implies all_u16(#[trigger] theta_ranges(row, t)) by {
        lemma_concat_u16(theta_r, 5, t);
    }
    assert forall|t: int| 0 <= t < 25 implies all_u16(#[trigger] rhopi_ranges(row, t)) by {
        lemma_concat_u16(rhopi_r, 25, t);
    }
}

proof fn lemma_concat_zero(parts: spec_fn(int) -> Seq<int>, n: int, t: int)
    requires
        all_zero(concat(parts, n)),
        0 <= t < n,
    ensures
        all_zero(parts(t)),
    decreases n,
{
    let (a, b) = (concat(parts, n - 1), parts(n - 1));
    let all = concat(parts, n);
    if t == n - 1 {
        assert forall|i: int| 0 <= i < b.len() implies #[trigger] b[i] == 0 by {
            assert(all[a.len() + i] == b[i]);
        }
    } else {
        assert forall|i: int| 0 <= i < a.len() implies #[trigger] a[i] == 0 by {
            assert(all[i] == a[i]);
        }
        lemma_concat_zero(parts, n - 1, t);
    }
}

proof fn lemma_concat_u16(parts: spec_fn(int) -> Seq<int>, n: int, t: int)
    requires
        all_u16(concat(parts, n)),
        0 <= t < n,
    ensures
        all_u16(parts(t)),
    decreases n,
{
    let (a, b) = (concat(parts, n - 1), parts(n - 1));
    let all = concat(parts, n);
    if t == n - 1 {
        assert forall|i: int| 0 <= i < b.len() implies 0 <= #[trigger] b[i] < 65536 by {
            assert(all[a.len() + i] == b[i]);
        }
    } else {
        assert forall|i: int| 0 <= i < a.len() implies 0 <= #[trigger] a[i] < 65536 by {
            assert(all[i] == a[i]);
        }
        lemma_concat_u16(parts, n - 1, t);
    }
}

/// Looked up bytes of three lanes.
proof fn lemma_xor_lane(row: Seq<Goldilocks>, a: int, b: int, c: int)
    requires
        forall|k: int| 0 <= k < 8 ==> xor8(#[trigger] at(row, a + k), at(row, b + k), at(row, c + k)),
    ensures
        is_lane(row, a),
        is_lane(row, b),
        is_lane(row, c),
        lane(row, c) == lane(row, a) ^ lane(row, b),
{
    let (x, y, z) = (columns(row, a, 8), columns(row, b, 8), columns(row, c, 8));
    assert forall|k: int| 0 <= k < 8 implies xor8(#[trigger] x[k], y[k], z[k]) by {
        assert(xor8(at(row, a + k), at(row, b + k), at(row, c + k)));
    }
    lemma_xor_words(x, y, z);
    lemma_bytes_word(z);
}

/// The parities of the first rows of a column.
proof fn lemma_sound_c_aux(row: Seq<Goldilocks>, x: int, y: int)
    requires
        round_holds(row),
        0 <= x < 5,
        0 <= y < 5,
    ensures
        is_lane(row, 40 * y + 8 * x),
        is_lane(row, C_AUX + 40 * x + 8 * y),
        lane(row, C_AUX + 40 * x + 8 * y) == c_aux(state_before(row), x, y),
    decreases y,
{
    lemma_parts(row);
    if y == 0 {
        let (p, q) = (columns(row, C_AUX + 40 * x, 8), columns(row, 8 * x, 8));
        assert(p =~= q) by {
            assert forall|k: int| 0 <= k < 8 implies #[trigger] p[k] == q[k] by {
                let t = 8 * x + k;
                assert(c_aux_zero(row, t) == 0);
                assert(t / 8 == x && t % 8 == k);
                lemma_zero_difference(at(row, 8 * x + k), at(row, C_AUX + 40 * x + k));
            }
        }
        lemma_c_aux_step(row, x, 1);
        assert(lane(row, 8 * x) == state_before(row)[x]);
    } else {
        lemma_sound_c_aux(row, x, y - 1);
        lemma_c_aux_step(row, x, y);
        assert(8 * (5 * y + x) == 40 * y + 8 * x);
        assert(state_before(row)[5 * y + x] == lane(row, 40 * y + 8 * x));
    }
}

proof fn lemma_c_aux_step(row: Seq<Goldilocks>, x: int, y: int)
    requires
        round_holds(row),
        0 <= x < 5,
        1 <= y < 5,
    ensures
        is_lane(row, C_AUX + 40 * x + 8 * (y - 1)),
        is_lane(row, 40 * y + 8 * x),
        is_lane(row, C_AUX + 40 * x + 8 * y),
        lane(row, C_AUX + 40 * x + 8 * y) == lane(row, C_AUX + 40 * x + 8 * (y - 1)) ^ lane(
            row,
            40 * y + 8 * x,
        ),
{
    lemma_parts(row);
    let (a, b, c) = (C_AUX + 40 * x + 8 * (y - 1), 40 * y + 8 * x, C_AUX + 40 * x + 8 * y);
    assert forall|k: int| 0 <= k < 8 implies xor8(
        #[trigger] at(row, a + k),
        at(row, b + k),
        at(row, c + k),
    ) by {
        let t = 32 * x + 8 * (y - 1) + k;
        assert(t / 32 == x && 1 + t % 32 / 8 == y && t % 8 == k);
        assert(c_aux_xor(row, t) == (at(row, a + k), at(row, b + k), at(row, c + k)));
    }
    lemma_xor_lane(row, a, b, c);
}

proof fn lemma_zero_difference(a: int, b: int)
    requires
        0 <= a < modulus(),
        0 <= b < modulus(),
        f_sub(a, b) == 0,
    ensures
        a == b,
{
    if a < b {
        lemma_mod_add_multiples_vanish(a - b, modulus());
        lemma_small_mod((a - b + modulus()) as nat, modulus() as nat);
    } else {
        lemma_small_mod((a - b) as nat, modulus() as nat);
    }
}

/// The looked up lanes of the first step.
proof fn lemma_d_step(row: Seq<Goldilocks>, x: int)
    requires
        round_holds(row),
        0 <= x < 5,
    ensures
        is_lane(row, C_ROT + 8 * ((x + 1) % 5)),
        is_lane(row, D + 8 * x),
        lane(row, D + 8 * x) == lane(row, C_AUX + 40 * ((x + 4) % 5) + 32) ^ lane(
            row,
            C_ROT + 8 * ((x + 1) % 5),
        ),
{
    lemma_parts(row);
    let (a, b, c) = (C_AUX + 40 * ((x + 4) % 5) + 32, C_ROT + 8 * ((x + 1) % 5), D + 8 * x);
    assert forall|k: int| 0 <= k < 8 implies xor8(
        #[trigger] at(row, a + k),
        at(row, b + k),
        at(row, c + k),
    ) by {
        let t = 8 * x + k;
        assert(t / 8 == x && t % 8 == k);
        assert(d_xor(row, t) == (at(row, a + k), at(row, b + k), at(row, c + k)));
    }
    lemma_xor_lane(row, a, b, c);
}

proof fn lemma_sound_d(row: Seq<Goldilocks>, x: int)
    requires
        round_holds(row),
        0 <= x < 5,
    ensures
        is_lane(row, D + 8 * x),
        lane(row, D + 8 * x) == d(state_before(row), x),
{
    let (l, r) = ((x + 4) % 5, (x + 1) % 5);
    lemma_d_step(row, x);
    lemma_sound_c_aux(row, l, 4);
    lemma_sound_c_aux(row, r, 4);
    lemma_parts(row);
    let chunks = columns(row, C_TEMP + 6 * r, 6);
    assert(all_zero(theta_rotation(row, r)));
    assert(all_u16(theta_ranges(row, r)));
    lemma_split_sizes(1);
    lemma_rotation_sound(
        columns(row, C_AUX + 40 * r + 32, 8),
        chunks,
        columns(row, C_ROT + 8 * r, 8),
        1,
    );
}

proof fn lemma_sound_theta(row: Seq<Goldilocks>, l: int)
    requires
        round_holds(row),
        0 <= l < 25,
    ensures
        is_lane(row, THETA + 8 * l),
        lane(row, THETA + 8 * l) == theta(state_before(row), l),
{
    let (x, y) = (l % 5, l / 5);
    let (a, b, c) = (40 * y + 8 * x, D + 8 * x, THETA + 40 * y + 8 * x);
    lemma_parts(row);
    lemma_sound_d(row, x);
    assert forall|k: int| 0 <= k < 8 implies xor8(
        #[trigger] at(row, a + k),
        at(row, b + k),
        at(row, c + k),
    ) by {
        let t = 40 * x + 8 * y + k;
        assert(t / 40 == x && t % 40 / 8 == y && t % 8 == k);
        assert(theta_xor(row, t) == (at(row, a + k), at(row, b + k), at(row, c + k)));
    }
    lemma_xor_lane(row, a, b, c);
    assert(8 * l == a);
    assert(state_before(row)[l] == lane(row, a));
}

proof fn lemma_sound_chi_step(row: Seq<Goldilocks>, l: int)
    requires
        round_holds(row),
        0 <= l < 25,
    ensures
        is_lane(row, RHOPI + 8 * l),
        is_lane(row, NONLINEAR + 8 * l),
        is_lane(row, chi_column(8 * l)),
        lane(row, NONLINEAR + 8 * l) == !lane(row, RHOPI + 8 * beside(l, 1)) & lane(
            row,
            RHOPI + 8 * beside(l, 2),
        ),
        lane(row, chi_column(8 * l)) == lane(row, RHOPI + 8 * l) ^ lane(row, NONLINEAR + 8 * l),
{
    let (x, y) = (l % 5, l / 5);
    lemma_parts(row);
    let (a, b, c) = (RHOPI + 8 * beside(l, 1), RHOPI + 8 * beside(l, 2), NONLINEAR + 8 * l);
    let (p, q, r) = (columns(row, a, 8), columns(row, b, 8), columns(row, c, 8));
    assert forall|k: int| 0 <= k < 8 implies and8(255 - #[trigger] p[k], q[k], r[k]) by {
        let t = 40 * x + 8 * y + k;
        assert(t / 40 == x && t % 40 / 8 == y && t % 8 == k);
        assert(chi_and(row, t) == (f_sub(255, at(row, a + k)), at(row, b + k), at(row, c + k)));
        lemma_complement(at(row, a + k));
    }
    lemma_and_not_words(p, q, r);
    lemma_bytes_word(r);
    let (e, f, g) = (RHOPI + 8 * l, NONLINEAR + 8 * l, chi_column(8 * l));
    assert forall|k: int| 0 <= k < 8 implies xor8(
        #[trigger] at(row, e + k),
        at(row, f + k),
        at(row, g + k),
    ) by {
        let t = 40 * x + 8 * y + k;
        assert(t / 40 == x && t % 40 / 8 == y && t % 8 == k);
        assert(chi_xor(row, t) == (at(row, e + k), at(row, f + k), at(row, g + k)));
    }
    lemma_xor_lane(row, e, f, g);
}

/// The complement of a byte in the field.
pub proof fn lemma_complement(v: int)
    requires
        0 <= v < modulus(),
    ensures
        f_sub(255, v) < 256 ==> f_sub(255, v) == 255 - v && v <= 255,
        v <= 255 ==> f_sub(255, v) == 255 - v,
{
    if v > 255 {
        lemma_mod_add_multiples_vanish(255 - v, modulus());
        lemma_small_mod((255 - v + modulus()) as nat, modulus() as nat);
    } else {
        lemma_small_mod((255 - v) as nat, modulus() as nat);
    }
}

proof fn lemma_sound_rhopi(row: Seq<Goldilocks>, l: int)
    requires
        round_holds(row),
        0 <= l < 25,
    ensures
        lane(row, RHOPI + 8 * l) == rhopi(state_before(row), l),
{
    let s = source_lane(l);
    let t = 5 * (s % 5) + s / 5;
    lemma_lanes(l);
    assert(rotated_lane(t) == s);
    lemma_parts(row);
    lemma_sound_theta(row, s);
    lemma_sound_chi_step(row, l);
    lemma_rotation_constant(s);
    lemma_split_sizes(rotation_constant(s) as int);
    assert(all_zero(rhopi_rotation(row, t)));
    assert(all_u16(rhopi_ranges(row, t)));
    assert(t == 0 <==> s == 0);
    lemma_rotation_sound(
        columns(row, THETA + 8 * s, 8),
        columns(row, split_column(t), split_len(t)),
        columns(row, RHOPI + 8 * l, 8),
        rotation_constant(s) as int,
    );
    reveal(rhopi);
}

proof fn lemma_sound_chi(row: Seq<Goldilocks>, l: int)
    requires
        round_holds(row),
        0 <= l < 25,
    ensures
        is_lane(row, chi_column(8 * l)),
        lane(row, chi_column(8 * l)) == chi(state_before(row), l),
{
    lemma_sound_chi_step(row, l);
    lemma_sound_rhopi(row, l);
    lemma_sound_rhopi(row, beside(l, 1));
    lemma_sound_rhopi(row, beside(l, 2));
}

/// A row that satisfies the constraints, and whose lookups are in the tables, holds a round: the
/// state after it is the round of the state before it, with the first round constant.
pub proof fn lemma_round_sound(row: Seq<Goldilocks>)
    requires
        round_holds(row),
    ensures
        state_after(row) == keccak_round(state_before(row), round_constant(0)),
        forall|l: int| 0 <= l < 25 ==> #[trigger] is_lane(row, 8 * l),
        forall|l: int| 0 <= l < 25 ==> #[trigger] is_lane(row, IOTA + 8 * l),
{
    let st = state_before(row);
    let c = round_constant(0);
    assert forall|l: int| 0 <= l < 25 implies is_lane(row, IOTA + 8 * l) && #[trigger] lane(
        row,
        IOTA + 8 * l,
    ) == iota(st, c, l) by {
        lemma_sound_chi(row, l);
        if l == 0 {
            lemma_parts(row);
            let (x, y, z) = (columns(row, CHI as int, 8), bytes(c), columns(row, IOTA as int, 8));
            lemma_word_bytes(c);
            assert forall|k: int| 0 <= k < 8 implies xor8(#[trigger] x[k], y[k], z[k]) by {
                assert(iota_xor(row, k) == (x[k], y[k], z[k]));
            }
            lemma_xor_words(x, y, z);
            lemma_bytes_word(z);
        }
    }
    assert forall|l: int| 0 <= l < 25 implies #[trigger] is_lane(row, 8 * l) by {
        lemma_sound_c_aux(row, l % 5, l / 5);
        assert(40 * (l / 5) + 8 * (l % 5) == 8 * l);
    }
    assert forall|l: int| 0 <= l < 25 implies #[trigger] is_lane(row, IOTA + 8 * l) by {
        assert(lane(row, IOTA + 8 * l) == iota(st, c, l));
    }
    assert(state_after(row) =~= keccak_round(st, c)) by {
        assert forall|l: int| 0 <= l < 25 implies state_after(row)[l] == keccak_round(st, c)[l] by {
            assert(lane(row, IOTA + 8 * l) == iota(st, c, l));
        }
    }
}

/// Rows that satisfy the constraints, each of which starts with the bytes that the one before it
/// ends with, as the rotations of the layer say of the rows of an instance, hold as many rounds.
pub proof fn lemma_rounds_sound(rows: Seq<Seq<Goldilocks>>)
    requires
        rows.len() > 0,
        forall|k: int| 0 <= k < rows.len() ==> round_holds(#[trigger] rows[k]),
        forall|k: int, j: int|
            0 <= k < rows.len() - 1 && 0 <= j < 200 ==> #[trigger] at(rows[k], IOTA + j) == at(
                rows[k + 1],
                j,
            ),
    ensures
        state_after(rows.last()) == keccak_rounds(
            state_before(rows[0]),
            Seq::new(rows.len(), |k: int| round_constant(0)),
        ),
    decreases rows.len(),
{
    let n = rows.len() as int;
    let constants = Seq::new(rows.len(), |k: int| round_constant(0));
    let st = state_before(rows[0]);
    lemma_round_sound(rows[n - 1]);
    if n == 1 {
        assert(constants.drop_last() =~= Seq::empty());
        assert(keccak_rounds(st, constants.drop_last()) == st);
    } else {
        let rest = rows.drop_last();
        assert forall|k: int, j: int|
            0 <= k < rest.len() - 1 && 0 <= j < 200 implies #[trigger] at(rest[k], IOTA + j) == at(
            rest[k + 1],
            j,
        ) by {
            assert(at(rows[k], IOTA + j) == at(rows[k + 1], j));
        }
        lemma_rounds_sound(rest);
        assert(constants.drop_last() =~= Seq::new(rest.len(), |k: int| round_constant(0)));
        assert forall|l: int| 0 <= l < 25 implies lane(rows[n - 1], 8 * l) == #[trigger] lane(
            rows[n - 2],
            IOTA + 8 * l,
        ) by {
            let (a, b) = (
                columns(rows[n - 1], 8 * l, 8),
                columns(rows[n - 2], IOTA + 8 * l, 8),
            );
            assert forall|k: int| 0 <= k < 8 implies #[trigger] a[k] == b[k] by {
                assert(at(rows[n - 2], IOTA + (8 * l + k)) == at(rows[n - 2 + 1], 8 * l + k));
            }
            assert(a =~= b);
        }
        assert(state_before(rows[n - 1]) =~= state_after(rows[n - 2]));
    }
}

} // verus!
