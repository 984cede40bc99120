//! The rows of the lookup circuit.
use vstd::arithmetic::div_mod::*;
use vstd::arithmetic::power2::*;
use vstd::prelude::*;

use crate::field::{group_field, modulus, Goldilocks};
use crate::gkr::booleanhypercube::{cycle, lemma_cycle, lemma_position, position, BooleanHypercube};
use crate::precompiles::keccak::{
    beside, c_aux, chi, d, keccak_round, keccak_rounds, lemma_lanes, lemma_rotation_constant,
    nonlinear, parity, rc, rhopi, rotation, rotation_constant, round_constant, target_lane, theta,
    Round, ROUNDS,
};
use crate::precompiles::lookup_keccakf::{
    at, c_aux_xor, c_aux_zero, chi_and, chi_xor, columns, concat, d_xor, iota_xor,
    lemma_split_sizes, rhopi_ranges, rhopi_rotation, rotated_lane, round_ands, round_ranges,
    round_xors, round_zeros, split_column, split_len, theta_ranges, theta_rotation, theta_xor,
    KeccakLayout, C_AUX, C_ROT, C_TEMP, CHI, D, IOTA, KECCAK_WIT_SIZE, NONLINEAR, RHOPI,
    ROUNDS_CEIL_LOG2, SPLITS, THETA,
};
use crate::precompiles::lookup_laws::{
    all_and8, all_xor8, is_lane, lane, lemma_complement, round_holds, state_after, state_before,
};
use crate::precompiles::system::{
    all_u16, all_zero, lemma_rotation_complete, rotation_sizes, rotation_split,
};
use crate::precompiles::words::{
    and8, byte_sizes, bytes, lemma_byte, lemma_byte_ops, lemma_split_fits, lemma_word_bytes, rotl,
    sizes_of, split, split_word, xor8,
};
use crate::util::is_pow2;
use crate::witness::{
    lemma_cell_index, lemma_full, lemma_padding_is_pow2, lemma_pow2_padding, lemma_rows, matrix_row,
    next_pow2_instance_padding, spec_next_pow2_instance_padding, write_row, zero_row,
    InstancePaddingStrategy, RowMajorMatrix,
};

verus! {

broadcast use group_field;

/// The bytes of lanes stand in consecutive columns.
pub open spec fn lanes_at(row: Seq<Goldilocks>, from: int, lanes: Seq<u64>) -> bool {
    forall|l: int|
        0 <= l < lanes.len() ==> columns(row, from + 8 * l, 8) == bytes(#[trigger] lanes[l])
}

/// The chunks for the rotations of the parities stand in their columns.
pub open spec fn theta_splits_at(row: Seq<Goldilocks>, st: Seq<u64>, n: int) -> bool {
    forall|x: int|
        0 <= x < n ==> columns(row, C_TEMP + 6 * x, 6) == split(
            #[trigger] parity(st, x) as int,
            sizes_of(rotation_sizes(1)),
        )
}

/// The chunks of a lane for its rotation.
pub open spec fn lane_split(st: Seq<u64>, t: int) -> Seq<int> {
    split(
        theta(st, rotated_lane(t)) as int,
        sizes_of(rotation_sizes(rotation_constant(rotated_lane(t)) as int)),
    )
}

/// The chunks for the rotations of the lanes stand in their columns.
pub open spec fn lane_splits_at(row: Seq<Goldilocks>, st: Seq<u64>, n: int) -> bool {
    forall|t: int|
        0 <= t < n ==> columns(row, split_column(t), split_len(t)) == #[trigger] lane_split(st, t)
}

/// The row of a round from the state before it.
pub open spec fn is_round_row(row: Seq<Goldilocks>, st: Seq<u64>) -> bool {
    &&& row.len() == KECCAK_WIT_SIZE
    &&& lanes_at(row, 0, st)
    &&& lanes_at(row, C_AUX as int, Seq::new(25, |i: int| c_aux(st, i / 5, i % 5)))
    &&& theta_splits_at(row, st, 5)
    &&& lanes_at(row, C_ROT as int, Seq::new(5, |x: int| rotl(parity(st, x), 1)))
    &&& lanes_at(row, D as int, Seq::new(5, |x: int| d(st, x)))
    &&& lanes_at(row, THETA as int, Seq::new(25, |l: int| theta(st, l)))
    &&& lane_splits_at(row, st, 25)
    &&& lanes_at(row, RHOPI as int, Seq::new(25, |l: int| rhopi(st, l)))
    &&& lanes_at(row, NONLINEAR as int, Seq::new(25, |l: int| nonlinear(st, l)))
    &&& lanes_at(row, CHI as int, seq![chi(st, 0)])
    &&& lanes_at(row, IOTA as int, keccak_round(st, round_constant(0)))
}

/// The first columns are unchanged.
pub open spec fn extends(new: Seq<Goldilocks>, old: Seq<Goldilocks>) -> bool {
    &&& old.len() <= new.len()
    &&& forall|i: int| 0 <= i < old.len() ==> #[trigger] new[i] == old[i]
}

proof fn lemma_extends_columns(new: Seq<Goldilocks>, old: Seq<Goldilocks>, from: int, n: int)
    requires
        extends(new, old),
        0 <= from,
        0 <= n,
        from + n <= old.len(),
    ensures
        columns(new, from, n) == columns(old, from, n),
{
    let (a, b) = (columns(new, from, n), columns(old, from, n));
    assert forall|k: int| 0 <= k < n implies #[trigger] a[k] == b[k] by {
        assert(new[from + k] == old[from + k]);
    }
    assert(a =~= b);
}

proof fn lemma_extends_lanes(
    new: Seq<Goldilocks>,
    old: Seq<Goldilocks>,
    from: int,
    lanes: Seq<u64>,
)
    requires
        extends(new, old),
        0 <= from,
        from + 8 * lanes.len() <= old.len(),
        lanes_at(old, from, lanes),
    ensures
        lanes_at(new, from, lanes),
{
    assert forall|l: int| 0 <= l < lanes.len() implies columns(new, from + 8 * l, 8) == bytes(
        #[trigger] lanes[l],
    ) by {
        lemma_extends_columns(new, old, from + 8 * l, 8);
    }
}

/// Appends a value to a row.
fn push_value(row: &mut Vec<Goldilocks>, v: u64)
    requires
        v < modulus(),
    ensures
        final(row)@ == old(row)@.push(Goldilocks { value: v }),
{
    row.push(Goldilocks { value: v });
}

/// Appends the chunks of a word.
fn push_chunks(row: &mut Vec<Goldilocks>, chunks: &Vec<u64>)
    requires
        forall|i: int| 0 <= i < chunks@.len() ==> #[trigger] chunks@[i] < modulus(),
    ensures
        extends(final(row)@, old(row)@),
        final(row)@.len() == old(row)@.len() + chunks@.len(),
        columns(final(row)@, old(row)@.len() as int, chunks@.len() as int) == chunks@.map_values(
            |v: u64| v as int,
        ),
{
    let ghost before = row@;
    let mut i: usize = 0;
    while i < chunks.len()
        invariant
            i <= chunks@.len(),
            forall|i: int| 0 <= i < chunks@.len() ==> #[trigger] chunks@[i] < modulus(),
            extends(row@, before),
            row@.len() == before.len() + i,
            forall|k: int|
                0 <= k < i ==> at(row@, before.len() + k) == #[trigger] chunks@[k],
        decreases chunks@.len() - i,
    {
        let ghost prev = row@;
        push_value(row, chunks[i]);
        proof {
            assert forall|k: int| 0 <= k < i + 1 implies at(row@, before.len() + k)
                == #[trigger] chunks@[k] by {
                if k < i {
                    assert(row@[before.len() + k] == prev[before.len() + k]);
                    assert(at(prev, before.len() + k) == chunks@[k]);
                } else {
                    lemma_small_mod(chunks@[k] as nat, modulus() as nat);
                }
            }
        }
        i = i + 1;
    }
    assert(columns(row@, before.len() as int, chunks@.len() as int) =~= chunks@.map_values(
        |v: u64| v as int,
    ));
}

/// The bytes of a word.
fn word_bytes(w: u64) -> (r: Vec<u64>)
    ensures
        r@.map_values(|v: u64| v as int) == bytes(w),
        r@.len() == 8,
        forall|i: int| 0 <= i < 8 ==> #[trigger] r@[i] < 256,
{
    let sizes: Vec<usize> = vec![8, 8, 8, 8, 8, 8, 8, 8];
    let r = split_word(w, &sizes);
    proof {
        assert(sizes_of(sizes@) =~= byte_sizes());
        lemma_split_fits(w as int, byte_sizes());
        lemma2_to64();
        let v = r@.map_values(|v: u64| v as int);
        assert(v.len() == 8);
        assert forall|i: int| 0 <= i < 8 implies #[trigger] r@[i] < 256 by {
            assert(v[i] == r@[i]);
        }
    }
    r
}

/// Appends the bytes of lanes.
fn push_lanes(row: &mut Vec<Goldilocks>, lanes: &Vec<u64>)
    requires
        lanes@.len() <= 25,
        old(row)@.len() <= KECCAK_WIT_SIZE,
    ensures
        extends(final(row)@, old(row)@),
        final(row)@.len() == old(row)@.len() + 8 * lanes@.len(),
        lanes_at(final(row)@, old(row)@.len() as int, lanes@),
{
    let ghost before = row@;
    let mut i: usize = 0;
    while i < lanes.len()
        invariant
            i <= lanes@.len(),
            extends(row@, before),
            row@.len() == before.len() + 8 * i,
            forall|l: int|
                0 <= l < i ==> columns(row@, before.len() + 8 * l, 8) == bytes(
                    #[trigger] lanes@[l],
                ),
        decreases lanes@.len() - i,
    {
        let ghost prev = row@;
        let b = word_bytes(lanes[i]);
        push_chunks(row, &b);
        proof {
            assert forall|l: int| 0 <= l < i + 1 implies columns(row@, before.len() + 8 * l, 8)
                == bytes(#[trigger] lanes@[l]) by {
                if l < i {
                    lemma_extends_columns(row@, prev, before.len() + 8 * l, 8);
                }
            }
        }
        i = i + 1;
    }
}

/// Appends the chunks for the rotations of the parities.
fn push_theta_splits(row: &mut Vec<Goldilocks>, parities: &Vec<u64>, Ghost(st): Ghost<Seq<u64>>)
    requires
        old(row)@.len() == C_TEMP,
        parities@ == Seq::new(25, |i: int| c_aux(st, i / 5, i % 5)),
    ensures
        extends(final(row)@, old(row)@),
        final(row)@.len() == C_ROT,
        theta_splits_at(final(row)@, st, 5),
{
    let ghost before = row@;
    let (sizes, _) = rotation_split(1);
    proof {
        lemma_split_sizes(1);
    }
    let mut x: usize = 0;
    while x < 5
        invariant
            x <= 5,
            parities@ == Seq::new(25, |i: int| c_aux(st, i / 5, i % 5)),
            sizes@ == rotation_sizes(1),
            sizes@.len() == 6,
            extends(row@, before),
            before.len() == C_TEMP,
            row@.len() == C_TEMP + 6 * x,
            theta_splits_at(row@, st, x as int),
        decreases 5 - x,
    {
        let ghost prev = row@;
        assert((5 * x + 4) / 5 == x && (5 * x + 4) % 5 == 4);
        let chunks = split_for_rotation(parities[5 * x + 4], &sizes, Ghost(1));
        push_chunks(row, &chunks);
        proof {
            assert forall|k: int| 0 <= k < x + 1 implies columns(row@, C_TEMP + 6 * k, 6) == split(
                #[trigger] parity(st, k) as int,
                sizes_of(rotation_sizes(1)),
            ) by {
                if k < x {
                    lemma_extends_columns(row@, prev, C_TEMP + 6 * k, 6);
                }
            }
        }
        x = x + 1;
    }
}

/// The chunks of a word for a rotation.
fn split_for_rotation(w: u64, sizes: &Vec<usize>, Ghost(delta): Ghost<int>) -> (r: Vec<u64>)
    requires
        0 <= delta < 64,
        delta != 16,
        delta != 32,
        delta != 48,
        sizes@ == rotation_sizes(delta),
    ensures
        r@.map_values(|v: u64| v as int) == split(w as int, sizes_of(sizes@)),
        r@.len() == sizes@.len(),
        forall|i: int| 0 <= i < r@.len() ==> #[trigger] r@[i] < modulus(),
{
    proof {
        lemma_split_sizes(delta);
    }
    let r = split_word(w, sizes);
    proof {
        lemma_split_fits(w as int, sizes_of(sizes@));
        lemma2_to64();
        let v = r@.map_values(|v: u64| v as int);
        assert(v.len() == sizes@.len());
        assert forall|i: int| 0 <= i < r@.len() implies #[trigger] r@[i] < modulus() by {
            assert(v[i] == r@[i]);
            assert(sizes_of(sizes@)[i] == sizes@[i] as nat);
            lemma_pow2_strictly_increases(sizes@[i] as nat, 33);
        }
    }
    r
}

/// Appends the chunks for the rotations of the lanes.
fn push_lane_splits(row: &mut Vec<Goldilocks>, thetas: &Vec<u64>, Ghost(st): Ghost<Seq<u64>>)
    requires
        old(row)@.len() == SPLITS,
        thetas@ == Seq::new(25, |l: int| theta(st, l)),
    ensures
        extends(final(row)@, old(row)@),
        final(row)@.len() == RHOPI,
        lane_splits_at(final(row)@, st, 25),
{
    let ghost before = row@;
    let mut t: usize = 0;
    while t < 25
        invariant
            t <= 25,
            thetas@ == Seq::new(25, |l: int| theta(st, l)),
            extends(row@, before),
            before.len() == SPLITS,
            row@.len() == split_column(t as int),
            lane_splits_at(row@, st, t as int),
        decreases 25 - t,
    {
        let ghost prev = row@;
        let lane: usize = 5 * (t % 5) + t / 5;
        let delta: usize = rotation(lane);
        let (sizes, _) = rotation_split(delta);
        let chunks = split_for_rotation(thetas[lane], &sizes, Ghost(delta as int));
        proof {
            lemma_split_sizes(delta as int);
            assert(delta == 0 <==> t == 0);
        }
        push_chunks(row, &chunks);
        proof {
            assert forall|k: int| 0 <= k < t + 1 implies columns(
                row@,
                split_column(k),
                split_len(k),
            ) == #[trigger] lane_split(st, k) by {
                if k < t {
                    lemma_extends_columns(row@, prev, split_column(k), split_len(k));
                }
            }
        }
        t = t + 1;
    }
}

/// The row of a round and the state after it.
pub fn round_row(st: &Vec<u64>) -> (r: (Vec<Goldilocks>, Vec<u64>))
    requires
        st@.len() == 25,
    ensures
        is_round_row(r.0@, st@),
        r.1@ == keccak_round(st@, round_constant(0)),
{
    let round = Round::compute(st, rc(0));
    let mut row: Vec<Goldilocks> = Vec::with_capacity(KECCAK_WIT_SIZE);
    push_lanes(&mut row, st);
    let ghost r1 = row@;
    push_lanes(&mut row, &round.c_aux);
    let ghost r2 = row@;
    push_theta_splits(&mut row, &round.c_aux, Ghost(st@));
    let ghost r3 = row@;
    push_lanes(&mut row, &round.c_rot);
    let ghost r4 = row@;
    push_lanes(&mut row, &round.d);
    let ghost r5 = row@;
    push_lanes(&mut row, &round.theta);
    let ghost r6 = row@;
    push_lane_splits(&mut row, &round.theta, Ghost(st@));
    let ghost r7 = row@;
    push_lanes(&mut row, &round.rhopi);
    let ghost r8 = row@;
    push_lanes(&mut row, &round.nonlinear);
    let ghost r9 = row@;
    let first: Vec<u64> = vec![round.chi[0]];
    push_lanes(&mut row, &first);
    let ghost r10 = row@;
    push_lanes(&mut row, &round.iota);
    proof {
        lemma_extends_lanes(row@, r1, 0, st@);
        lemma_extends_lanes(row@, r2, C_AUX as int, round.c_aux@);
        assert forall|x: int| 0 <= x < 5 implies columns(row@, C_TEMP + 6 * x, 6) == split(
            #[trigger] parity(st@, x) as int,
            sizes_of(rotation_sizes(1)),
        ) by {
            lemma_extends_columns(row@, r3, C_TEMP + 6 * x, 6);
        }
        lemma_extends_lanes(row@, r4, C_ROT as int, round.c_rot@);
        lemma_extends_lanes(row@, r5, D as int, round.d@);
        lemma_extends_lanes(row@, r6, THETA as int, round.theta@);
        assert forall|t: int| 0 <= t < 25 implies columns(row@, split_column(t), split_len(t))
            == #[trigger] lane_split(st@, t) by {
            lemma_extends_columns(row@, r7, split_column(t), split_len(t));
        }
        lemma_extends_lanes(row@, r8, RHOPI as int, round.rhopi@);
        lemma_extends_lanes(row@, r9, NONLINEAR as int, round.nonlinear@);
        assert(first@ =~= seq![chi(st@, 0)]);
        lemma_extends_lanes(row@, r10, CHI as int, first@);
    }
    (row, round.iota)
}

/// The bytes of the lane of an assigned row.
proof fn lemma_lane_bytes(row: Seq<Goldilocks>, from: int, lanes: Seq<u64>, l: int, k: int)
    requires
        lanes_at(row, from, lanes),
        0 <= l < lanes.len(),
        0 <= k < 8,
    ensures
        at(row, from + 8 * l + k) == bytes(lanes[l])[k],
        0 <= bytes(lanes[l])[k] < 256,
        is_lane(row, from + 8 * l),
        lane(row, from + 8 * l) == lanes[l],
{
    let c = columns(row, from + 8 * l, 8);
    assert(c == bytes(lanes[l]));
    assert(c[k] == at(row, from + 8 * l + k));
    lemma_byte(lanes[l], k);
    lemma_word_bytes(lanes[l]);
}

/// The first step of an assigned row.
proof fn lemma_complete_theta_xors(row: Seq<Goldilocks>, st: Seq<u64>)
    requires
        is_round_row(row, st),
        st.len() == 25,
    ensures
        forall|t: int| 0 <= t < 40 ==> #[trigger] c_aux_zero(row, t) == 0,
        forall|t: int|
            0 <= t < 160 ==> xor8((#[trigger] c_aux_xor(row, t)).0, c_aux_xor(row, t).1, c_aux_xor(
                row,
                t,
            ).2),
        forall|t: int|
            0 <= t < 40 ==> xor8((#[trigger] d_xor(row, t)).0, d_xor(row, t).1, d_xor(row, t).2),
        forall|t: int|
            0 <= t < 200 ==> xor8((#[trigger] theta_xor(row, t)).0, theta_xor(row, t).1, theta_xor(
                row,
                t,
            ).2),
{
    let aux = Seq::new(25, |i: int| c_aux(st, i / 5, i % 5));
    let rots = Seq::new(5, |x: int| rotl(parity(st, x), 1));
    let ds = Seq::new(5, |x: int| d(st, x));
    let thetas = Seq::new(25, |l: int| theta(st, l));
    assert forall|t: int| 0 <= t < 40 implies #[trigger] c_aux_zero(row, t) == 0 by {
        let (x, k) = (t / 8, t % 8);
        lemma_lane_bytes(row, 0, st, x, k);
        lemma_lane_bytes(row, C_AUX as int, aux, 5 * x, k);
        assert(aux[5 * x] == st[x]) by {
            assert((5 * x) / 5 == x && (5 * x) % 5 == 0);
        }
    }
    assert forall|t: int| 0 <= t < 160 implies xor8(
        (#[trigger] c_aux_xor(row, t)).0,
        c_aux_xor(row, t).1,
        c_aux_xor(row, t).2,
    ) by {
        let (x, y, k) = (t / 32, 1 + t % 32 / 8, t % 8);
        lemma_lane_bytes(row, C_AUX as int, aux, 5 * x + y - 1, k);
        lemma_lane_bytes(row, 0, st, 5 * y + x, k);
        lemma_lane_bytes(row, C_AUX as int, aux, 5 * x + y, k);
        assert((5 * x + y - 1) / 5 == x && (5 * x + y - 1) % 5 == y - 1);
        assert((5 * x + y) / 5 == x && (5 * x + y) % 5 == y);
        lemma_byte_ops(c_aux(st, x, y - 1), st[5 * y + x]);
        assert(xor8(
            bytes(c_aux(st, x, y - 1))[k],
            bytes(st[5 * y + x])[k],
            bytes(c_aux(st, x, y - 1) ^ st[5 * y + x])[k],
        ));
    }
    assert forall|t: int| 0 <= t < 40 implies xor8(
        (#[trigger] d_xor(row, t)).0,
        d_xor(row, t).1,
        d_xor(row, t).2,
    ) by {
        let (x, k) = (t / 8, t % 8);
        let (l, r) = ((x + 4) % 5, (x + 1) % 5);
        lemma_lane_bytes(row, C_AUX as int, aux, 5 * l + 4, k);
        lemma_lane_bytes(row, C_ROT as int, rots, r, k);
        lemma_lane_bytes(row, D as int, ds, x, k);
        assert((5 * l + 4) / 5 == l && (5 * l + 4) % 5 == 4);
        lemma_byte_ops(parity(st, l), rotl(parity(st, r), 1));
        assert(xor8(
            bytes(parity(st, l))[k],
            bytes(rotl(parity(st, r), 1))[k],
            bytes(d(st, x))[k],
        ));
    }
    assert forall|t: int| 0 <= t < 200 implies xor8(
        (#[trigger] theta_xor(row, t)).0,
        theta_xor(row, t).1,
        theta_xor(row, t).2,
    ) by {
        let (x, y, k) = (t / 40, t % 40 / 8, t % 8);
        let l = 5 * y + x;
        assert(l % 5 == x && l / 5 == y);
        lemma_lane_bytes(row, 0, st, l, k);
        lemma_lane_bytes(row, D as int, ds, x, k);
        lemma_lane_bytes(row, THETA as int, thetas, l, k);
        lemma_byte_ops(st[l], d(st, x));
        assert(xor8(bytes(st[l])[k], bytes(d(st, x))[k], bytes(theta(st, l))[k]));
    }
}

/// The other lookups of an assigned row.
proof fn lemma_complete_chi(row: Seq<Goldilocks>, st: Seq<u64>)
    requires
        is_round_row(row, st),
        st.len() == 25,
    ensures
        forall|t: int|
            0 <= t < 200 ==> and8((#[trigger] chi_and(row, t)).0, chi_and(row, t).1, chi_and(
                row,
                t,
            ).2),
        forall|t: int|
            0 <= t < 200 ==> xor8((#[trigger] chi_xor(row, t)).0, chi_xor(row, t).1, chi_xor(
                row,
                t,
            ).2),
        forall|t: int|
            0 <= t < 8 ==> xor8((#[trigger] iota_xor(row, t)).0, iota_xor(row, t).1, iota_xor(
                row,
                t,
            ).2),
{
    let rhopis = Seq::new(25, |l: int| rhopi(st, l));
    let nons = Seq::new(25, |l: int| nonlinear(st, l));
    let first = seq![chi(st, 0)];
    let c = round_constant(0);
    let out = keccak_round(st, c);
    assert forall|t: int| 0 <= t < 200 implies and8(
        (#[trigger] chi_and(row, t)).0,
        chi_and(row, t).1,
        chi_and(row, t).2,
    ) && xor8((chi_xor(row, t)).0, chi_xor(row, t).1, chi_xor(row, t).2) by {
        let (x, y, k) = (t / 40, t % 40 / 8, t % 8);
        let l = 5 * y + x;
        assert(l % 5 == x && l / 5 == y);
        let (a, b) = (beside(l, 1), beside(l, 2));
        lemma_lane_bytes(row, RHOPI as int, rhopis, a, k);
        lemma_lane_bytes(row, RHOPI as int, rhopis, b, k);
        lemma_lane_bytes(row, RHOPI as int, rhopis, l, k);
        lemma_lane_bytes(row, NONLINEAR as int, nons, l, k);
        lemma_complement(bytes(rhopi(st, a))[k]);
        lemma_byte_ops(rhopi(st, a), rhopi(st, b));
        assert(and8(
            255 - bytes(rhopi(st, a))[k],
            bytes(rhopi(st, b))[k],
            bytes(nonlinear(st, l))[k],
        ));
        lemma_byte_ops(rhopi(st, l), nonlinear(st, l));
        assert(xor8(bytes(rhopi(st, l))[k], bytes(nonlinear(st, l))[k], bytes(chi(st, l))[k]));
        if l == 0 {
            lemma_lane_bytes(row, CHI as int, first, 0, k);
        } else {
            lemma_lane_bytes(row, IOTA as int, out, l, k);
        }
    }
    assert forall|t: int| 0 <= t < 200 implies xor8(
        (#[trigger] chi_xor(row, t)).0,
        chi_xor(row, t).1,
        chi_xor(row, t).2,
    ) by {
        assert(and8(chi_and(row, t).0, chi_and(row, t).1, chi_and(row, t).2));
    }
    assert forall|t: int| 0 <= t < 8 implies xor8(
        (#[trigger] iota_xor(row, t)).0,
        iota_xor(row, t).1,
        iota_xor(row, t).2,
    ) by {
        lemma_lane_bytes(row, CHI as int, first, 0, t);
        lemma_lane_bytes(row, IOTA as int, out, 0, t);
        lemma_byte_ops(chi(st, 0), c);
        assert(xor8(bytes(chi(st, 0))[t], bytes(c)[t], bytes(chi(st, 0) ^ c)[t]));
    }
}

/// The rotations of an assigned row.
proof fn lemma_complete_rotations(row: Seq<Goldilocks>, st: Seq<u64>)
    requires
        is_round_row(row, st),
        st.len() == 25,
    ensures
        forall|t: int| 0 <= t < 5 ==> all_zero(#[trigger] theta_rotation(row, t)),
        forall|t: int| 0 <= t < 25 ==> all_zero(#[trigger] rhopi_rotation(row, t)),
        forall|t: int| 0 <= t < 5 ==> all_u16(#[trigger] theta_ranges(row, t)),
        forall|t: int| 0 <= t < 25 ==> all_u16(#[trigger] rhopi_ranges(row, t)),
{
    let aux = Seq::new(25, |i: int| c_aux(st, i / 5, i % 5));
    let rots = Seq::new(5, |x: int| rotl(parity(st, x), 1));
    let thetas = Seq::new(25, |l: int| theta(st, l));
    let rhopis = Seq::new(25, |l: int| rhopi(st, l));
    assert forall|t: int| 0 <= t < 5 implies all_zero(#[trigger] theta_rotation(row, t))
        && all_u16(theta_ranges(row, t)) by {
        let l = 5 * t + 4;
        assert(l / 5 == t && l % 5 == 4);
        assert(aux[l] == parity(st, t));
        assert(columns(row, C_AUX + 8 * l, 8) == bytes(aux[l]));
        assert(columns(row, C_ROT + 8 * t, 8) == bytes(rots[t]));
        assert(columns(row, C_TEMP + 6 * t, 6) == split(
            parity(st, t) as int,
            sizes_of(rotation_sizes(1)),
        ));
        lemma_rotation_complete(parity(st, t), 1);
    }
    assert forall|t: int| 0 <= t < 5 implies all_u16(#[trigger] theta_ranges(row, t)) by {
        assert(all_zero(theta_rotation(row, t)));
    }
    assert forall|t: int| 0 <= t < 25 implies all_zero(#[trigger] rhopi_rotation(row, t))
        && all_u16(rhopi_ranges(row, t)) by {
        let l = rotated_lane(t);
        lemma_lanes(l);
        lemma_rotation_constant(l);
        assert(columns(row, THETA + 8 * l, 8) == bytes(thetas[l]));
        assert(columns(row, RHOPI + 8 * target_lane(l), 8) == bytes(rhopis[target_lane(l)]));
        assert(columns(row, split_column(t), split_len(t)) == lane_split(st, t));
        reveal(rhopi);
        lemma_rotation_complete(theta(st, l), rotation_constant(l) as int);
    }
    assert forall|t: int| 0 <= t < 25 implies all_u16(#[trigger] rhopi_ranges(row, t)) by {
        assert(all_zero(rhopi_rotation(row, t)));
    }
}

proof fn lemma_concat_all(parts: spec_fn(int) -> Seq<int>, n: int)
    ensures
        (forall|t: int| 0 <= t < n ==> all_zero(#[trigger] parts(t))) ==> all_zero(
            concat(parts, n),
        ),
        (forall|t: int| 0 <= t < n ==> all_u16(#[trigger] parts(t))) ==> all_u16(concat(parts, n)),
    decreases n,
{
    if n > 0 {
        lemma_concat_all(parts, n - 1);
        let (a, b) = (concat(parts, n - 1), parts(n - 1));
        assert forall|i: int| 0 <= i < (a + b).len() implies #[trigger] (a + b)[i] == if i
            < a.len() {
            a[i]
        } else {
            b[i - a.len()]
        } by {}
    }
}

/// The row of a round satisfies the constraints, and its lookups are in the tables.
pub proof fn lemma_round_complete(row: Seq<Goldilocks>, st: Seq<u64>)
    requires
        is_round_row(row, st),
        st.len() == 25,
    ensures
        round_holds(row),
        state_before(row) == st,
        state_after(row) == keccak_round(st, round_constant(0)),
{
    lemma_complete_theta_xors(row, st);
    lemma_complete_chi(row, st);
    lemma_complete_rotations(row, st);
    assert(all_and8(round_ands(row))) by {
        reveal(round_ands);
        let s = round_ands(row);
        assert forall|i: int| 0 <= i < s.len() implies and8(
            (#[trigger] s[i]).0,
            s[i].1,
            s[i].2,
        ) by {
            assert(s[i] == chi_and(row, i));
        }
    }
    assert(all_xor8(round_xors(row))) by {
        reveal(round_xors);
        let s = round_xors(row);
        assert forall|i: int| 0 <= i < s.len() implies xor8(
            (#[trigger] s[i]).0,
            s[i].1,
            s[i].2,
        ) by {
            if i < 160 {
                assert(s[i] == c_aux_xor(row, i));
            } else if i < 200 {
                assert(s[i] == d_xor(row, i - 160));
            } else if i < 400 {
                assert(s[i] == theta_xor(row, i - 200));
            } else if i < 600 {
                assert(s[i] == chi_xor(row, i - 400));
            } else {
                assert(s[i] == iota_xor(row, i - 600));
            }
        }
    }
    let (theta_z, rhopi_z) = (|t: int| theta_rotation(row, t), |t: int| rhopi_rotation(row, t));
    let (theta_r, rhopi_r) = (|t: int| theta_ranges(row, t), |t: int| rhopi_ranges(row, t));
    lemma_concat_all(theta_z, 5);
    lemma_concat_all(rhopi_z, 25);
    lemma_concat_all(theta_r, 5);
    lemma_concat_all(rhopi_r, 25);
    assert(all_zero(round_zeros(row))) by {
        reveal(round_zeros);
        let z = round_zeros(row);
        let (a, b) = (concat(theta_z, 5), concat(rhopi_z, 25));
        assert forall|i: int| 0 <= i < z.len() implies #[trigger] z[i] == 0 by {
            if i < 40 {
                assert(z[i] == c_aux_zero(row, i));
            } else if i < 40 + a.len() {
                assert(z[i] == a[i - 40]);
            } else {
                assert(z[i] == b[i - 40 - a.len()]);
            }
        }
    }
    assert(all_u16(round_ranges(row))) by {
        reveal(round_ranges);
        let z = round_ranges(row);
        let (a, b) = (concat(theta_r, 5), concat(rhopi_r, 25));
        assert forall|i: int| 0 <= i < z.len() implies 0 <= #[trigger] z[i] < 65536 by {
            if i < a.len() {
                assert(z[i] == a[i]);
            } else {
                assert(z[i] == b[i - a.len()]);
            }
        }
    }
    let out = keccak_round(st, round_constant(0));
    assert forall|l: int| 0 <= l < 25 implies #[trigger] state_before(row)[l] == st[l] by {
        lemma_lane_bytes(row, 0, st, l, 0);
    }
    assert forall|l: int| 0 <= l < 25 implies #[trigger] state_after(row)[l] == out[l] by {
        lemma_lane_bytes(row, IOTA as int, out, l, 0);
    }
    assert(state_before(row) =~= st);
    assert(state_after(row) =~= out);
}

/// The states of the instances, each lane as its lower and its upper half.
#[derive(Debug)]
pub struct KeccakTrace {
    pub instances: Vec<[u32; 50]>,
}

/// The lanes of an instance.
pub open spec fn instance_state(inst: Seq<u32>) -> Seq<u64> {
    Seq::new(25, |l: int| (inst[2 * l] + 0x1_0000_0000 * inst[2 * l + 1]) as u64)
}

fn lanes_of(inst: &[u32; 50]) -> (r: Vec<u64>)
    ensures
        r@ == instance_state(inst@),
{
    let mut r: Vec<u64> = Vec::with_capacity(25);
    let mut l: usize = 0;
    while l < 25
        invariant
            l <= 25,
            r@ == instance_state(inst@).take(l as int),
        decreases 25 - l,
    {
        r.push(inst[2 * l] as u64 + 0x1_0000_0000 * inst[2 * l + 1] as u64);
        l = l + 1;
        assert(r@ =~= instance_state(inst@).take(l as int));
    }
    assert(r@ =~= instance_state(inst@));
    r
}

/// The state before a round.
pub open spec fn round_state(inst: Seq<u32>, round: int) -> Seq<u64> {
    keccak_rounds(instance_state(inst), Seq::new(round as nat, |i: int| round_constant(0)))
}

proof fn lemma_round_state(inst: Seq<u32>, round: int)
    requires
        0 <= round,
    ensures
        round_state(inst, 0) == instance_state(inst),
        round_state(inst, round + 1) == keccak_round(round_state(inst, round), round_constant(0)),
        round_state(inst, round).len() == 25,
    decreases round,
{
    let s = Seq::new((round + 1) as nat, |i: int| round_constant(0));
    assert(s.drop_last() =~= Seq::new(round as nat, |i: int| round_constant(0)));
    if round > 0 {
        lemma_round_state(inst, round - 1);
    }
}

/// The rows of an instance that hold rounds: the first 24 of the cycle.
pub open spec fn is_active(j: int) -> bool {
    j % 32 != 0 && position(j % 32) < ROUNDS
}

/// The witness of the instances: 32 rows for each, of which those in the order of the cycle hold
/// the rounds one after the other and the others are zero.
pub open spec fn is_keccak_witness(m: RowMajorMatrix, instances: Seq<[u32; 50]>) -> bool {
    forall|j: int|
        0 <= j < m.height() ==> if j < 32 * instances.len() && is_active(j) {
            is_round_row(
                #[trigger] matrix_row(m, j),
                round_state(instances[j / 32]@, position(j % 32)),
            )
        } else {
            matrix_row(m, j) == Seq::new(
                KECCAK_WIT_SIZE as nat,
                |i: int| Goldilocks { value: 0 },
            )
        }
}

/// A matrix of zeros.
fn zero_matrix(height: usize) -> (m: RowMajorMatrix)
    requires
        is_pow2(height as int),
        height >= 2,
        height * KECCAK_WIT_SIZE <= usize::MAX,
    ensures
        m.wf(),
        m.num_rows == height,
        m.height() == height,
        m.width() == KECCAK_WIT_SIZE,
        m.is_padded,
        forall|j: int|
            0 <= j < height ==> #[trigger] matrix_row(m, j) == Seq::new(
                KECCAK_WIT_SIZE as nat,
                |i: int| Goldilocks { value: 0 },
            ),
{
    proof {
        lemma_rows(height as int, KECCAK_WIT_SIZE as int);
        assert(height * KECCAK_WIT_SIZE == KECCAK_WIT_SIZE * height) by (nonlinear_arith);
        lemma_pow2_padding(height as nat);
    }
    let values = zero_row(height * KECCAK_WIT_SIZE);
    let m = RowMajorMatrix::new_by_values(
        values,
        KECCAK_WIT_SIZE,
        InstancePaddingStrategy::Default,
    );
    proof {
        let w = KECCAK_WIT_SIZE as int;
        lemma_full(m.inner);
        assert(m.cells().len() == height * w) by {
            assert((height - height) * w == 0) by (nonlinear_arith);
        }
        assert(m.height() == height) by {
            lemma_height_unique(m.height() as int, height as int, w);
        }
        assert forall|j: int| 0 <= j < height implies #[trigger] matrix_row(m, j) == Seq::new(
            w as nat,
            |i: int| Goldilocks { value: 0 },
        ) by {
            assert forall|c: int| 0 <= c < w implies #[trigger] matrix_row(m, j)[c] == (Goldilocks {
                value: 0,
            }) by {
                lemma_cell_index(j, c, height as int, w);
            }
            assert(matrix_row(m, j) =~= Seq::new(w as nat, |i: int| Goldilocks { value: 0 }));
        }
    }
    m
}

proof fn lemma_height_unique(a: int, b: int, w: int)
    by (nonlinear_arith)
    requires
        a * w == b * w,
        w > 0,
    ensures
        a == b,
{
}

impl KeccakLayout {
    /// Assigns the rows of the instances.
    pub fn phase1_witness_group(&self, phase1: KeccakTrace) -> (m: RowMajorMatrix)
        requires
            spec_next_pow2_instance_padding(32 * phase1.instances@.len()) * KECCAK_WIT_SIZE
                <= usize::MAX,
        ensures
            m.wf(),
            m.width() == KECCAK_WIT_SIZE,
            m.height() == spec_next_pow2_instance_padding(32 * phase1.instances@.len()),
            m.num_rows == m.height(),
            m.is_padded,
            is_keccak_witness(m, phase1.instances@),
    {
        let instances = &phase1.instances;
        let n: usize = instances.len();
        let ghost h = spec_next_pow2_instance_padding(32 * n as nat);
        proof {
            lemma_padding_is_pow2(32 * n as nat);
            assert(h * 1464 >= h) by (nonlinear_arith);
        }
        let height: usize = next_pow2_instance_padding(n * 32);
        let mut m = zero_matrix(height);
        let bh = BooleanHypercube::new(ROUNDS_CEIL_LOG2);
        let points = bh.points(ROUNDS);
        let mut i: usize = 0;
        while i < n
            invariant
                i <= n,
                n == instances@.len(),
                h >= 32 * n,
                m.wf(),
                m.width() == KECCAK_WIT_SIZE,
                m.height() == h,
                m.num_rows == h,
                m.is_padded,
                points@.len() == ROUNDS,
                forall|r: int|
                    0 <= r < ROUNDS ==> #[trigger] points@[r] == cycle(r) && 1 <= points@[r] < 32,
                rows_done(m, instances@, i as int, 0),
            decreases n - i,
        {
            let mut state = lanes_of(&instances[i]);
            proof {
                lemma_round_state(instances@[i as int]@, 0);
            }
            let mut round: usize = 0;
            while round < ROUNDS
                invariant
                    round <= ROUNDS,
                    i < n,
                    n == instances@.len(),
                    h >= 32 * n,
                    m.wf(),
                    m.width() == KECCAK_WIT_SIZE,
                    m.height() == h,
                    m.num_rows == h,
                    m.is_padded,
                    points@.len() == ROUNDS,
                    forall|r: int|
                        0 <= r < ROUNDS ==> #[trigger] points@[r] == cycle(r) && 1 <= points@[r]
                            < 32,
                    state@ == round_state(instances@[i as int]@, round as int),
                    state@.len() == 25,
                    rows_done(m, instances@, i as int, round as int),
                decreases ROUNDS - round,
            {
                let (row, next_state) = round_row(&state);
                let ghost before = m;
                let index: usize = 32 * i + points[round];
                write_row(&mut m, index, &row);
                proof {
                    let inst = instances@[i as int]@;
                    lemma_round_state(inst, round as int);
                    lemma_cycle(round as int);
                    assert(index / 32 == i && index % 32 == points@[round as int]);
                    lemma_row_written(before, m, instances@, i as int, round as int, row@);
                }
                state = next_state;
                round = round + 1;
            }
            proof {
                lemma_instance_done(m, instances@, i as int);
            }
            i = i + 1;
        }
        m
    }
}

/// The rows of the first instances are assigned, and the first rounds of the next one.
spec fn rows_done(m: RowMajorMatrix, instances: Seq<[u32; 50]>, i: int, round: int) -> bool {
    forall|j: int|
        0 <= j < m.height() ==> if (j < 32 * i && is_active(j)) || (j / 32 == i && j % 32 != 0
            && position(j % 32) < round) {
            is_round_row(
                #[trigger] matrix_row(m, j),
                round_state(instances[j / 32]@, position(j % 32)),
            )
        } else {
            matrix_row(m, j) == Seq::new(
                KECCAK_WIT_SIZE as nat,
                |i: int| Goldilocks { value: 0 },
            )
        }
}

proof fn lemma_row_written(
    before: RowMajorMatrix,
    after: RowMajorMatrix,
    instances: Seq<[u32; 50]>,
    i: int,
    round: int,
    row: Seq<Goldilocks>,
)
    requires
        rows_done(before, instances, i, round),
        0 <= i,
        0 <= round < ROUNDS,
        after.height() == before.height(),
        after.width() == before.width(),
        before.width() == KECCAK_WIT_SIZE,
        32 * i + 32 <= before.height(),
        forall|r: int, c: int|
            0 <= r < before.height() && 0 <= c < before.width() ==> #[trigger] after.at(r, c)
                == if r == 32 * i + cycle(round) {
                row[c]
            } else {
                before.at(r, c)
            },
        is_round_row(row, round_state(instances[i]@, round)),
    ensures
        rows_done(after, instances, i, round + 1),
{
    lemma_cycle(round);
    let index = 32 * i + cycle(round);
    assert forall|j: int| 0 <= j < after.height() implies if (j < 32 * i && is_active(j)) || (j / 32
        == i && j % 32 != 0 && position(j % 32) < round + 1) {
        is_round_row(
            #[trigger] matrix_row(after, j),
            round_state(instances[j / 32]@, position(j % 32)),
        )
    } else {
        matrix_row(after, j) == Seq::new(KECCAK_WIT_SIZE as nat, |i: int| Goldilocks { value: 0 })
    } by {
        if j == index {
            assert(matrix_row(after, j) =~= row);
            assert(j / 32 == i && j % 32 == cycle(round));
        } else {
            assert(matrix_row(after, j) =~= matrix_row(before, j));
            if j / 32 == i && j % 32 != 0 && position(j % 32) == round {
                lemma_position(j % 32);
                assert(j == 32 * i + j % 32);
            }
        }
    }
}

proof fn lemma_instance_done(m: RowMajorMatrix, instances: Seq<[u32; 50]>, i: int)
    requires
        rows_done(m, instances, i, ROUNDS as int),
    ensures
        rows_done(m, instances, i + 1, 0),
{
    assert forall|j: int| 0 <= j < m.height() implies if (j < 32 * (i + 1) && is_active(j)) || (j
        / 32 == i + 1 && j % 32 != 0 && position(j % 32) < 0) {
        is_round_row(
            #[trigger] matrix_row(m, j),
            round_state(instances[j / 32]@, position(j % 32)),
        )
    } else {
        matrix_row(m, j) == Seq::new(KECCAK_WIT_SIZE as nat, |i: int| Goldilocks { value: 0 })
    } by {
        if j % 32 != 0 {
            lemma_position(j % 32);
        }
    }
}

/// Every active row of the witness holds a round, and the next active row of its instance starts
/// from the state after it.
pub proof fn lemma_keccak_witness(m: RowMajorMatrix, instances: Seq<[u32; 50]>, i: int, round: int)
    requires
        is_keccak_witness(m, instances),
        0 <= i < instances.len(),
        32 * instances.len() <= m.height(),
        0 <= round < ROUNDS,
    ensures
        round_holds(matrix_row(m, 32 * i + cycle(round))),
        round == 0 ==> state_before(matrix_row(m, 32 * i + cycle(round))) == instance_state(
            instances[i]@,
        ),
        round + 1 < ROUNDS ==> state_before(matrix_row(m, 32 * i + cycle(round + 1)))
            == state_after(matrix_row(m, 32 * i + cycle(round))),
        state_after(matrix_row(m, 32 * i + cycle(round))) == round_state(
            instances[i]@,
            round + 1,
        ),
{
    let j = 32 * i + cycle(round);
    lemma_cycle(round);
    assert(j / 32 == i && j % 32 == cycle(round));
    assert(is_active(j));
    assert(is_round_row(matrix_row(m, j), round_state(instances[i]@, round)));
    lemma_round_state(instances[i]@, round);
    lemma_round_complete(matrix_row(m, j), round_state(instances[i]@, round));
    if round + 1 < ROUNDS {
        let k = 32 * i + cycle(round + 1);
        lemma_cycle(round + 1);
        assert(k / 32 == i && k % 32 == cycle(round + 1));
        assert(is_active(k));
        assert(is_round_row(matrix_row(m, k), round_state(instances[i]@, round + 1)));
        lemma_round_state(instances[i]@, round + 1);
        lemma_round_complete(matrix_row(m, k), round_state(instances[i]@, round + 1));
    }
}

} // verus!
