//! What the layer of the lookup circuit says about its inputs and outputs, read off the values of
//! its expressions.
use vstd::arithmetic::div_mod::*;
use vstd::arithmetic::power2::*;
use vstd::prelude::*;
use vstd::string::*;

use crate::circuit::plain::value;
use crate::expression::Expression;
use crate::field::{group_field, modulus, Goldilocks};
use crate::gkr::booleanhypercube::{cycle, lemma_cycle};
use crate::gkr::{Chip, EvalExpression, Layer};
use crate::precompiles::keccak::{
    c_aux, chi, d, keccak_round, keccak_rounds, nonlinear, parity, rhopi, round_constant, theta,
};
use crate::precompiles::lookup_keccakf::{
    at, columns, felt_text, flat, half_lane, half_lane_name, indices, is_keccak_chip,
    is_round_layer, lemma_counts, round_ands, round_names, round_ranges, round_values, round_xors,
    round_zeros, KeccakLayout, CHI, C_AUX, C_ROT, D, IOTA, KECCAK_OUT_EVAL_SIZE, KECCAK_WIT_SIZE,
    NONLINEAR, RHOPI, THETA,
};
use crate::precompiles::lookup_laws::{
    is_lane, lane, lemma_round_sound, lemma_rounds_sound, round_holds, state_after, state_before,
};
use crate::precompiles::lookup_witness::{
    instance_state, is_active, is_keccak_witness, is_round_row, lanes_at, lemma_keccak_witness,
};
use crate::precompiles::system::{expr_values, four_bytes, lemma_word_halves, texts};
use crate::precompiles::words::{and8, bytes, expand, lemma_byte, rotl, word, xor8};
use crate::text::decimal_text;
use crate::witness::{matrix_row, RowMajorMatrix};

verus! {

broadcast use group_field;

/// The value of an expression of the layer.
pub open spec fn output_at(layer: Layer, row: Seq<Goldilocks>, i: int) -> int {
    value(layer.exprs@[i], row)
}

/// The row is accepted: the first 160 expressions are zero in it, and what the expressions from 260
/// on look up is in the tables of conjunctions, of exclusive disjunctions and of 16-bit values.
pub open spec fn accepts(layer: Layer, row: Seq<Goldilocks>) -> bool {
    &&& forall|i: int| 0 <= i < 160 ==> #[trigger] output_at(layer, row, i) == 0
    &&& forall|i: int|
        0 <= i < 200 ==> and8(
            #[trigger] output_at(layer, row, 260 + 3 * i),
            output_at(layer, row, 261 + 3 * i),
            output_at(layer, row, 262 + 3 * i),
        )
    &&& forall|i: int|
        0 <= i < 608 ==> xor8(
            #[trigger] output_at(layer, row, 860 + 3 * i),
            output_at(layer, row, 861 + 3 * i),
            output_at(layer, row, 862 + 3 * i),
        )
    &&& forall|i: int| 2684 <= i < 2974 ==> 0 <= #[trigger] output_at(layer, row, i) < 65536
}

/// Fifty outputs from the given one on are the lower and upper halves of the lanes of a state.
pub open spec fn spells(layer: Layer, row: Seq<Goldilocks>, from: int, st: Seq<u64>) -> bool {
    &&& st.len() == 25
    &&& forall|l: int|
        0 <= l < 25 ==> {
            &&& output_at(layer, row, from + 2 * l) == (#[trigger] st[l]) % 0x1_0000_0000
            &&& output_at(layer, row, from + 2 * l + 1) == st[l] / 0x1_0000_0000
        }
}

proof fn lemma_output(layer: Layer, out: int, wit: int, row: Seq<Goldilocks>, i: int)
    requires
        is_round_layer(layer, out, wit),
        0 <= i < round_values(row).len(),
    ensures
        layer.exprs@.len() == round_values(row).len(),
        output_at(layer, row, i) == round_values(row)[i],
{
    assert(expr_values(layer.exprs@, row) == round_values(row));
    assert(expr_values(layer.exprs@, row)[i] == value(layer.exprs@[i], row));
}

/// The parts of the values of the layer.
proof fn lemma_value_parts(row: Seq<Goldilocks>)
    ensures
        round_values(row).len() == 2974,
        forall|i: int| 0 <= i < 160 ==> #[trigger] round_values(row)[i] == round_zeros(row)[i],
        forall|t: int|
            0 <= t < 50 ==> round_values(row)[160 + t] == #[trigger] half_lane(row, IOTA as int, t),
        forall|t: int| 0 <= t < 50 ==> round_values(row)[210 + t] == #[trigger] half_lane(row, 0, t),
        forall|i: int|
            0 <= i < 200 ==> {
                &&& round_values(row)[260 + 3 * i] == (#[trigger] round_ands(row)[i]).0
                &&& round_values(row)[261 + 3 * i] == round_ands(row)[i].1
                &&& round_values(row)[262 + 3 * i] == round_ands(row)[i].2
            },
        forall|i: int|
            0 <= i < 608 ==> {
                &&& round_values(row)[860 + 3 * i] == (#[trigger] round_xors(row)[i]).0
                &&& round_values(row)[861 + 3 * i] == round_xors(row)[i].1
                &&& round_values(row)[862 + 3 * i] == round_xors(row)[i].2
            },
        forall|i: int|
            0 <= i < 290 ==> round_values(row)[2684 + i] == #[trigger] round_ranges(row)[i],
{
    lemma_counts(row);
    let v = round_values(row);
    let (a, x) = (flat(round_ands(row)), flat(round_xors(row)));
    assert(a.len() == 600 && x.len() == 1824);
    assert forall|i: int| 0 <= i < 200 implies {
        &&& v[260 + 3 * i] == (#[trigger] round_ands(row)[i]).0
        &&& v[261 + 3 * i] == round_ands(row)[i].1
        &&& v[262 + 3 * i] == round_ands(row)[i].2
    } by {
        assert(v[260 + 3 * i] == a[3 * i]);
        assert(v[261 + 3 * i] == a[3 * i + 1]);
        assert(v[262 + 3 * i] == a[3 * i + 2]);
    }
    assert forall|i: int| 0 <= i < 608 implies {
        &&& v[860 + 3 * i] == (#[trigger] round_xors(row)[i]).0
        &&& v[861 + 3 * i] == round_xors(row)[i].1
        &&& v[862 + 3 * i] == round_xors(row)[i].2
    } by {
        assert(v[860 + 3 * i] == x[3 * i]);
        assert(v[861 + 3 * i] == x[3 * i + 1]);
        assert(v[862 + 3 * i] == x[3 * i + 2]);
    }
}

/// The layer accepts exactly the rows that satisfy the constraints and lookups of a round.
pub proof fn lemma_accepts(layer: Layer, out: int, wit: int, row: Seq<Goldilocks>)
    requires
        is_round_layer(layer, out, wit),
    ensures
        accepts(layer, row) <==> round_holds(row),
{
    lemma_value_parts(row);
    lemma_counts(row);
    let v = round_values(row);
    assert forall|i: int| 0 <= i < 2974 implies #[trigger] output_at(layer, row, i) == v[i] by {
        lemma_output(layer, out, wit, row, i);
    }
    let (a, x, r) = (round_ands(row), round_xors(row), round_ranges(row));
    if accepts(layer, row) {
        assert forall|i: int| 0 <= i < 160 implies #[trigger] round_zeros(row)[i] == 0 by {
            assert(v[i] == round_zeros(row)[i]);
            assert(output_at(layer, row, i) == 0);
        }
        assert forall|i: int| 0 <= i < a.len() implies and8((#[trigger] a[i]).0, a[i].1, a[i].2) by {
            assert(and8(
                output_at(layer, row, 260 + 3 * i),
                output_at(layer, row, 261 + 3 * i),
                output_at(layer, row, 262 + 3 * i),
            ));
        }
        assert forall|i: int| 0 <= i < x.len() implies xor8((#[trigger] x[i]).0, x[i].1, x[i].2) by {
            assert(xor8(
                output_at(layer, row, 860 + 3 * i),
                output_at(layer, row, 861 + 3 * i),
                output_at(layer, row, 862 + 3 * i),
            ));
        }
        assert forall|i: int| 0 <= i < r.len() implies 0 <= #[trigger] r[i] < 65536 by {
            assert(v[2684 + i] == r[i]);
            assert(output_at(layer, row, 2684 + i) == v[2684 + i]);
        }
    }
    if round_holds(row) {
        assert forall|i: int| 0 <= i < 200 implies and8(
            #[trigger] output_at(layer, row, 260 + 3 * i),
            output_at(layer, row, 261 + 3 * i),
            output_at(layer, row, 262 + 3 * i),
        ) by {
            assert(and8(a[i].0, a[i].1, a[i].2));
        }
        assert forall|i: int| 0 <= i < 608 implies xor8(
            #[trigger] output_at(layer, row, 860 + 3 * i),
            output_at(layer, row, 861 + 3 * i),
            output_at(layer, row, 862 + 3 * i),
        ) by {
            assert(xor8(x[i].0, x[i].1, x[i].2));
        }
        assert forall|i: int| 2684 <= i < 2974 implies 0 <= #[trigger] output_at(layer, row, i)
            < 65536 by {
            assert(v[2684 + (i - 2684)] == r[i - 2684]);
        }
        assert forall|i: int| 0 <= i < 160 implies #[trigger] output_at(layer, row, i) == 0 by {
            assert(v[i] == round_zeros(row)[i]);
        }
    }
}

/// The halves of a lane of bytes.
proof fn lemma_half_lanes(row: Seq<Goldilocks>, from: int, l: int)
    requires
        is_lane(row, from + 8 * l),
    ensures
        half_lane(row, from, 2 * l) == lane(row, from + 8 * l) % 0x1_0000_0000,
        half_lane(row, from, 2 * l + 1) == lane(row, from + 8 * l) / 0x1_0000_0000,
{
    let b = columns(row, from + 8 * l, 8);
    lemma_word_halves(b);
    lemma2_to64();
    lemma2_to64_rest();
    let (lo, hi) = (expand(b.take(4), four_bytes()), expand(b.skip(4), four_bytes()));
    assert(columns(row, from + 4 * (2 * l), 4) =~= b.take(4));
    assert(columns(row, from + 4 * (2 * l + 1), 4) =~= b.skip(4));
    lemma_small_mod(lo as nat, modulus() as nat);
    lemma_small_mod(hi as nat, modulus() as nat);
    assert(pow2(32) * hi == 0x1_0000_0000 * hi);
    assert(word(b) == lo + 0x1_0000_0000 * hi);
}

/// An accepted row holds a round of the permutation, with the round constant one: the outputs from
/// 210 on are the 32-bit halves of a state, and those from 160 on are the halves of the round of
/// that state.
pub proof fn lemma_round_layer(layer: Layer, out: int, wit: int, row: Seq<Goldilocks>) -> (st: Seq<
    u64,
>)
    requires
        is_round_layer(layer, out, wit),
        accepts(layer, row),
    ensures
        spells(layer, row, 210, st),
        spells(layer, row, 160, keccak_round(st, 1)),
        st == state_before(row),
{
    let st = state_before(row);
    lemma_accepts(layer, out, wit, row);
    lemma_round_sound(row);
    lemma_value_parts(row);
    reveal(round_constant);
    let after = state_after(row);
    assert forall|l: int| 0 <= l < 25 implies {
        &&& output_at(layer, row, 210 + 2 * l) == (#[trigger] st[l]) % 0x1_0000_0000
        &&& output_at(layer, row, 210 + 2 * l + 1) == st[l] / 0x1_0000_0000
    } by {
        assert(is_lane(row, 8 * l));
        assert(is_lane(row, 0 + 8 * l));
        lemma_half_lanes(row, 0, l);
        lemma_output(layer, out, wit, row, 210 + 2 * l);
        lemma_output(layer, out, wit, row, 210 + (2 * l + 1));
    }
    assert forall|l: int| 0 <= l < 25 implies {
        &&& output_at(layer, row, 160 + 2 * l) == (#[trigger] after[l]) % 0x1_0000_0000
        &&& output_at(layer, row, 160 + 2 * l + 1) == after[l] / 0x1_0000_0000
    } by {
        assert(is_lane(row, IOTA + 8 * l));
        lemma_half_lanes(row, IOTA as int, l);
        lemma_output(layer, out, wit, row, 160 + 2 * l);
        lemma_output(layer, out, wit, row, 160 + (2 * l + 1));
    }
    st
}

/// The rotations of the layer hold from one row to the next: each target is the source in the next
/// row.
pub open spec fn rotates(layer: Layer, row: Seq<Goldilocks>, next: Seq<Goldilocks>) -> bool {
    forall|i: int|
        0 <= i < layer.rotation_exprs.pairs@.len() ==> value(
            (#[trigger] layer.rotation_exprs.pairs@[i]).0,
            next,
        ) == value(layer.rotation_exprs.pairs@[i].1, row)
}

/// Accepted rows between which the rotations of the layer hold, one more than the layer rotates,
/// are 24 rounds: the outputs of the last one are the state after the rounds of the state that the
/// first one has as its inputs.
pub proof fn lemma_layer_rounds(
    layer: Layer,
    out: int,
    wit: int,
    rows: Seq<Seq<Goldilocks>>,
) -> (st: Seq<u64>)
    requires
        is_round_layer(layer, out, wit),
        rows.len() == layer.rotation_cyclic_subgroup_size + 1,
        forall|k: int| 0 <= k < rows.len() ==> accepts(layer, #[trigger] rows[k]),
        forall|k: int|
            0 <= k < rows.len() - 1 ==> rotates(layer, #[trigger] rows[k], rows[k + 1]),
    ensures
        rows.len() == 24,
        spells(layer, rows[0], 210, st),
        spells(layer, rows[23], 160, keccak_rounds(st, Seq::new(24, |k: int| 1u64))),
{
    let st = lemma_round_layer(layer, out, wit, rows[0]);
    let last = lemma_round_layer(layer, out, wit, rows[23]);
    assert forall|k: int| 0 <= k < rows.len() implies round_holds(#[trigger] rows[k]) by {
        lemma_accepts(layer, out, wit, rows[k]);
    }
    let pairs = layer.rotation_exprs.pairs@;
    assert forall|k: int, j: int| 0 <= k < rows.len() - 1 && 0 <= j < 200 implies #[trigger] at(
        rows[k],
        IOTA + j,
    ) == at(rows[k + 1], j) by {
        assert(rotates(layer, rows[k], rows[k + 1]));
        assert(pairs[j] == (Expression::WitIn(j as u16), Expression::WitIn((IOTA + j) as u16)));
        crate::circuit::plain::lemma_value_parts(pairs[j].0, rows[k + 1]);
        crate::circuit::plain::lemma_value_parts(pairs[j].1, rows[k]);
    }
    lemma_rounds_sound(rows);
    lemma_round_sound(rows[23]);
    assert(rows.last() == rows[23]);
    reveal(round_constant);
    assert(Seq::new(rows.len(), |k: int| round_constant(0)) =~= Seq::new(24, |k: int| 1u64));
    st
}

/// The rows of an instance are accepted, the rotations of the layer hold between them, and the
/// first one has the 32-bit values of the instance as its inputs.
pub proof fn lemma_witness_accepted(
    layer: Layer,
    out: int,
    wit: int,
    m: RowMajorMatrix,
    instances: Seq<[u32; 50]>,
    i: int,
    round: int,
)
    requires
        is_round_layer(layer, out, wit),
        is_keccak_witness(m, instances),
        0 <= i < instances.len(),
        32 * instances.len() <= m.height(),
        0 <= round < 24,
    ensures
        accepts(layer, matrix_row(m, 32 * i + cycle(round))),
        round + 1 < 24 ==> rotates(
            layer,
            matrix_row(m, 32 * i + cycle(round)),
            matrix_row(m, 32 * i + cycle(round + 1)),
        ),
        round == 0 ==> forall|k: int|
            0 <= k < 50 ==> output_at(layer, matrix_row(m, 32 * i + cycle(round)), 210 + k)
                == #[trigger] instances[i]@[k],
{
    let row = matrix_row(m, 32 * i + cycle(round));
    lemma_keccak_witness(m, instances, i, round);
    lemma_accepts(layer, out, wit, row);
    if round == 0 {
        let st = lemma_round_layer(layer, out, wit, row);
        assert(st =~= instance_state(instances[i]@));
        assert forall|k: int| 0 <= k < 50 implies output_at(layer, row, 210 + k)
            == #[trigger] instances[i]@[k] by {
            let l = k / 2;
            assert(st[l] == instances[i]@[2 * l] + 0x1_0000_0000 * instances[i]@[2 * l + 1]);
            assert(k == 2 * l || k == 2 * l + 1);
        }
    }
    if round + 1 < 24 {
        let next = matrix_row(m, 32 * i + cycle(round + 1));
        lemma_keccak_witness(m, instances, i, round + 1);
        lemma_round_sound(row);
        lemma_round_sound(next);
        let pairs = layer.rotation_exprs.pairs@;
        assert forall|k: int| 0 <= k < pairs.len() implies value((#[trigger] pairs[k]).0, next)
            == value(pairs[k].1, row) by {
            let l = k / 8;
            assert(pairs[k] == (Expression::WitIn(k as u16), Expression::WitIn((IOTA + k) as u16)));
            assert(state_before(next)[l] == state_after(row)[l]);
            assert(is_lane(next, 8 * l));
            assert(is_lane(row, IOTA + 8 * l));
            lemma_same_bytes(columns(next, 8 * l, 8), columns(row, IOTA + 8 * l, 8));
            crate::circuit::plain::lemma_value_parts(pairs[k].0, next);
            crate::circuit::plain::lemma_value_parts(pairs[k].1, row);
            assert(columns(next, 8 * l, 8)[k % 8] == at(next, k));
            assert(columns(row, IOTA + 8 * l, 8)[k % 8] == at(row, IOTA + k));
        }
    }
}

proof fn lemma_same_bytes(a: Seq<int>, b: Seq<int>)
    requires
        crate::precompiles::words::chunks_fit(a, crate::precompiles::words::byte_sizes()),
        crate::precompiles::words::chunks_fit(b, crate::precompiles::words::byte_sizes()),
        word(a) as u64 == word(b) as u64,
    ensures
        a == b,
{
    crate::precompiles::words::lemma_bytes_word(a);
    crate::precompiles::words::lemma_bytes_word(b);
}

/// The wiring of the circuit: every column of the layer is opened as a committed polynomial of its
/// own, at the place of the column among the committed ones, and the outputs of the circuit are the
/// expressions of the layer that need not be zero, in their order: first the state after the round,
/// then the state before it.
pub proof fn lemma_lookup_wiring(layout: KeccakLayout, chip: Chip)
    requires
        is_keccak_chip(layout, chip),
    ensures
        chip.layers@.len() == 1,
        chip.openings@.len() == chip.layers@[0].in_eval_expr@.len(),
        chip.openings@.len() == chip.n_committed,
        forall|i: int|
            0 <= i < chip.openings@.len() ==> (#[trigger] chip.openings@[i]).0 == i
                && chip.openings@[i].1 == chip.layers@[0].in_eval_expr@[i],
        forall|i: int| 0 <= i < 200 ==> #[trigger] layout.input8@[i] == i,
        forall|i: int|
            0 <= i < 200 ==> chip.layers@[0].rotation_exprs.pairs@[i] == (
                Expression::WitIn(#[trigger] layout.input8@[i] as u16),
                Expression::WitIn(layout.iota_output@[i] as u16),
            ),
        forall|i: int|
            0 <= i < 160 ==> (#[trigger] chip.layers@[0].expr_evals@[0].evals@[i]) is Zero,
        forall|i: int|
            0 <= i < chip.final_out_evals@.len() ==> chip.layers@[0].expr_evals@[0].evals@[160 + i]
                == EvalExpression::Single(#[trigger] chip.final_out_evals@[i]),
        chip.layers@[0].expr_evals@[0].evals@.len() == chip.layers@[0].exprs@.len(),
        chip.layers@[0].exprs@.len() == 160 + chip.final_out_evals@.len(),
{
    let layer = chip.layers@[0];
    let row = Seq::<Goldilocks>::empty();
    lemma_value_parts(row);
    lemma_output(layer, 0, KECCAK_OUT_EVAL_SIZE as int, row, 0);
}

/// The rotation argument of the circuit covers the steps from each round to the next: its columns
/// stand after those of the witnesses and of the outputs.
pub proof fn lemma_rotation_wiring(layout: KeccakLayout, chip: Chip)
    requires
        is_keccak_chip(layout, chip),
    ensures
        ({
            let layer = chip.layers@[0];
            let n = layer.in_eval_expr@.len();
            &&& layer.rotation_cyclic_group_log2 == 5
            &&& layer.rotation_cyclic_subgroup_size == 24 - 1
            &&& layer.rotation_exprs.pairs@.len() == 200
            &&& layer.expr_evals@.len() == 1
            &&& layer.expr_evals@[0].eq == Some(Expression::WitIn(n as u16))
            &&& layer.rotation_exprs.eqs == Some(
                (
                    Expression::WitIn((n + 1) as u16),
                    Expression::WitIn((n + 2) as u16),
                    Expression::WitIn((n + 3) as u16),
                ),
            )
        }),
{
}

/// The rows of no round are zero: the start of each block, the points of the cycle after the last
/// round, and the rows after the last instance.
pub proof fn lemma_idle_rows(
    m: RowMajorMatrix,
    instances: Seq<[u32; 50]>,
    i: int,
    k: int,
    row: int,
    col: int,
)
    requires
        is_keccak_witness(m, instances),
        32 * instances.len() <= m.height(),
        m.width() == KECCAK_WIT_SIZE,
        0 <= i < instances.len(),
        24 <= k < 31,
        0 <= col < m.width(),
    ensures
        m.at(32 * i, col).value == 0,
        m.at(32 * i + cycle(k), col).value == 0,
        32 * instances.len() <= row < m.height() ==> m.at(row, col).value == 0,
{
    lemma_cycle(k);
    let (a, b) = (32 * i, 32 * i + cycle(k));
    lemma_fundamental_div_mod_converse(a, 32, i, 0);
    lemma_fundamental_div_mod_converse(b, 32, i, cycle(k));
    assert(!is_active(a) && !is_active(b));
    assert(matrix_row(m, a)[col].value == 0);
    assert(matrix_row(m, b)[col].value == 0);
    if 32 * instances.len() <= row < m.height() {
        assert(matrix_row(m, row)[col].value == 0);
    }
}

/// The names of the outputs: the halves of the lanes of the state after and of the state before,
/// each with its row, its column and its half, and the looked up values with their positions.
pub proof fn lemma_output_names(layer: Layer, out: int, wit: int, y: int, x: int, h: int, i: int)
    requires
        is_round_layer(layer, out, wit),
        0 <= y < 5,
        0 <= x < 5,
        0 <= h < 2,
        0 <= i < 2714,
    ensures
        layer.expr_names@.len() == 2974,
        ({
            let place = decimal_text(y as nat) + ", "@ + decimal_text(x as nat) + ", "@
                + decimal_text(h as nat);
            let t = 10 * y + 2 * x + h;
            &&& layer.expr_names@[160 + t]@ == "build 32-bit output: "@ + place
            &&& layer.expr_names@[210 + t]@ == "build 32-bit input: "@ + place
            &&& layer.expr_names@[260 + i]@ == "round 0th: "@ + decimal_text(i as nat)
                + "th lookup felt"@
        }),
{
    let t = 10 * y + 2 * x + h;
    let names = layer.expr_names@;
    lemma_name_places(t, i);
    lemma_half_names(y, x, h);
    assert(names.len() == 2974 && names[160 + t]@ == texts(names)[160 + t] && names[210 + t]@
        == texts(names)[210 + t] && names[260 + i]@ == texts(names)[260 + i]) by {
        assert(texts(names).len() == 2974);
        reveal(texts);
    }
}

proof fn lemma_name_places(t: int, i: int)
    requires
        0 <= t < 50,
        0 <= i < 2714,
    ensures
        round_names().len() == 2974,
        round_names()[160 + t] == half_lane_name("output: "@, t),
        round_names()[210 + t] == half_lane_name("input: "@, t),
        round_names()[260 + i] == felt_text(i),
{
    reveal(round_names);
}

proof fn lemma_half_names(y: int, x: int, h: int)
    requires
        0 <= y < 5,
        0 <= x < 5,
        0 <= h < 2,
    ensures
        ({
            let place = decimal_text(y as nat) + ", "@ + decimal_text(x as nat) + ", "@
                + decimal_text(h as nat);
            let t = 10 * y + 2 * x + h;
            &&& half_lane_name("output: "@, t) == "build 32-bit output: "@ + place
            &&& half_lane_name("input: "@, t) == "build 32-bit input: "@ + place
        }),
{
    let t = 10 * y + 2 * x + h;
    let (a, b, c) = (decimal_text(y as nat), decimal_text(x as nat), decimal_text(h as nat));
    assert(t / 10 == y && t / 2 % 5 == x && t % 2 == h);
    assert("build 32-bit output: "@ =~= "build 32-bit "@ + "output: "@) by {
        reveal_strlit("build 32-bit ");
        reveal_strlit("output: ");
        reveal_strlit("build 32-bit output: ");
    }
    assert("build 32-bit input: "@ =~= "build 32-bit "@ + "input: "@) by {
        reveal_strlit("build 32-bit ");
        reveal_strlit("input: ");
        reveal_strlit("build 32-bit input: ");
    }
    lemma_regrouped("build 32-bit output: "@, a, ", "@, b, c);
    lemma_regrouped("build 32-bit input: "@, a, ", "@, b, c);
}

proof fn lemma_regrouped(s: Seq<char>, a: Seq<char>, comma: Seq<char>, b: Seq<char>, c: Seq<char>)
    ensures
        s + a + comma + b + comma + c == s + (a + comma + b + comma + c),
{
    assert(s + a + comma + b + comma + c =~= s + (a + comma + b + comma + c));
}

/// The columns hold the bytes of lanes, the lowest byte of each first.
pub open spec fn hold_lanes(row: Seq<Goldilocks>, ids: Seq<usize>, lanes: Seq<u64>) -> bool {
    &&& ids.len() == 8 * lanes.len()
    &&& forall|l: int, b: int|
        0 <= l < lanes.len() && 0 <= b < 8 ==> #[trigger] at(row, ids[8 * l + b] as int) == (
        lanes[l] >> ((8 * b) as u64)) & 255
}

proof fn lemma_hold_lanes(row: Seq<Goldilocks>, ids: Seq<usize>, from: int, lanes: Seq<u64>)
    requires
        ids == indices(from, 8 * lanes.len()),
        0 <= from,
        from + 8 * lanes.len() <= u16::MAX,
        lanes_at(row, from, lanes),
    ensures
        hold_lanes(row, ids, lanes),
{
    assert forall|l: int, b: int| 0 <= l < lanes.len() && 0 <= b < 8 implies #[trigger] at(
        row,
        ids[8 * l + b] as int,
    ) == (lanes[l] >> ((8 * b) as u64)) & 255 by {
        lemma_byte(lanes[l], b);
        assert(columns(row, from + 8 * l, 8) == bytes(lanes[l]));
        assert(columns(row, from + 8 * l, 8)[b] == at(row, from + 8 * l + b));
    }
}

/// What the columns of the layout hold in a row of a round: the state before, the parities as they
/// add up and rotated, what is added to the lanes, and the lanes after each step of the round.
pub proof fn lemma_layout_columns(
    layout: KeccakLayout,
    chip: Chip,
    row: Seq<Goldilocks>,
    st: Seq<u64>,
)
    requires
        is_keccak_chip(layout, chip),
        is_round_row(row, st),
        st.len() == 25,
    ensures
        hold_lanes(row, layout.input8@, st),
        hold_lanes(row, layout.c_aux@, Seq::new(25, |i: int| c_aux(st, i / 5, i % 5))),
        hold_lanes(row, layout.c_rot@, Seq::new(5, |x: int| rotl(parity(st, x), 1))),
        hold_lanes(row, layout.d@, Seq::new(5, |x: int| d(st, x))),
        hold_lanes(row, layout.theta_output@, Seq::new(25, |l: int| theta(st, l))),
        hold_lanes(row, layout.rhopi_output@, Seq::new(25, |l: int| rhopi(st, l))),
        hold_lanes(row, layout.nonlinear@, Seq::new(25, |l: int| nonlinear(st, l))),
        hold_lanes(row, layout.chi_output@, seq![chi(st, 0)]),
        hold_lanes(row, layout.iota_output@, keccak_round(st, round_constant(0))),
        layout.c_temp@.len() == 30,
        layout.rotation_witness@.len() == 146,
{
    lemma_hold_lanes(row, layout.input8@, 0, st);
    lemma_hold_lanes(
        row,
        layout.c_aux@,
        C_AUX as int,
        Seq::new(25, |i: int| c_aux(st, i / 5, i % 5)),
    );
    lemma_hold_lanes(
        row,
        layout.c_rot@,
        C_ROT as int,
        Seq::new(5, |x: int| rotl(parity(st, x), 1)),
    );
    lemma_hold_lanes(row, layout.d@, D as int, Seq::new(5, |x: int| d(st, x)));
    lemma_hold_lanes(row, layout.theta_output@, THETA as int, Seq::new(25, |l: int| theta(st, l)));
    lemma_hold_lanes(row, layout.rhopi_output@, RHOPI as int, Seq::new(25, |l: int| rhopi(st, l)));
    lemma_hold_lanes(
        row,
        layout.nonlinear@,
        NONLINEAR as int,
        Seq::new(25, |l: int| nonlinear(st, l)),
    );
    lemma_hold_lanes(row, layout.chi_output@, CHI as int, seq![chi(st, 0)]);
    lemma_hold_lanes(
        row,
        layout.iota_output@,
        IOTA as int,
        keccak_round(st, round_constant(0)),
    );
}

/// The evaluations of the circuit: the outputs first, then the inputs of its layer, then those of
/// the equality polynomials of the outputs and of the rotations.
pub proof fn lemma_lookup_evaluations(layout: KeccakLayout, chip: Chip, i: int)
    requires
        is_keccak_chip(layout, chip),
        0 <= i,
    ensures
        chip.n_challenges == 0,
        chip.n_evaluations == chip.final_out_evals@.len() + chip.openings@.len() + 1 + 3,
        i < chip.final_out_evals@.len() ==> chip.final_out_evals@[i] == i,
        i < chip.openings@.len() ==> chip.layers@[0].in_eval_expr@[i] == EvalExpression::Single(
            (chip.final_out_evals@.len() + i) as usize,
        ),
{
}

} // verus!
