//! The committed bits of Keccak states, and what is computed from them.
use vstd::arithmetic::power2::*;
use vstd::prelude::*;

use crate::field::{e_mul, gl, group_field, Goldilocks, GoldilocksExt2};
use crate::mle::{ext_seq, MultilinearExtension, Point, PointAndEval};
use crate::multilinear::{e_sum, eq_at, eq_terms, lemma_mle_eval_is_eq_sum, mle_eval};
use crate::precompiles::bitwise_keccakf::{bits_of, state_bits, KeccakLayout};
use crate::precompiles::keccak::{first_constants, keccak_rounds, ROUNDS};
use crate::precompiles::permutation::STATE_SIZE;
use crate::util::{is_pow2, lemma_ceil_log2};
use crate::witness::{
    matrix_row, spec_next_pow2_instance_padding, InstancePaddingStrategy, RowMajorMatrix,
};

verus! {

broadcast use group_field;

/// The row of a state.
pub open spec fn state_row(st: Seq<u64>) -> Seq<Goldilocks> {
    state_bits(st).map_values(|b: int| gl(b))
}

/// The bits of states, one row for each; the last row is repeated where there is only one.
pub fn keccak_witness(states: &[[u64; 25]]) -> (m: RowMajorMatrix)
    requires
        is_pow2(states@.len() as int),
        STATE_SIZE * spec_next_pow2_instance_padding(states@.len()) <= usize::MAX,
    ensures
        m.wf(),
        m.width() == STATE_SIZE,
        m.num_rows == states@.len(),
        m.height() == spec_next_pow2_instance_padding(states@.len()),
        m.is_padded,
        forall|r: int|
            0 <= r < m.height() ==> #[trigger] matrix_row(m, r) == state_row(
                states@[if r < states@.len() { r } else { states@.len() - 1 }]@,
            ),
{
    let n: usize = states.len();
    let mut values: Vec<Goldilocks> = Vec::with_capacity(STATE_SIZE);
    let mut i: usize = 0;
    while i < n
        invariant
            i <= n,
            n == states@.len(),
            values@.len() == STATE_SIZE * i,
            forall|k: int, j: int|
                0 <= k < i && 0 <= j < STATE_SIZE ==> #[trigger] values@[STATE_SIZE * k + j]
                    == state_row(states@[k]@)[j],
        decreases n - i,
    {
        let ghost before = values@;
        let mut row = bits_of(&states[i]);
        values.append(&mut row);
        proof {
            assert forall|k: int, j: int| 0 <= k < i + 1 && 0 <= j < STATE_SIZE implies
                #[trigger] values@[STATE_SIZE * k + j] == state_row(states@[k]@)[j] by {
                if k < i {
                    assert(values@[STATE_SIZE * k + j] == before[STATE_SIZE * k + j]);
                }
            }
        }
        i = i + 1;
    }
    proof {
        assert((STATE_SIZE * n) as int / STATE_SIZE as int == n);
    }
    let ghost cells = values@;
    let mut m = RowMajorMatrix::new_by_values(
        values,
        STATE_SIZE,
        InstancePaddingStrategy::RepeatLast,
    );
    let ghost plain = m;
    proof {
        let padded = spec_next_pow2_instance_padding(n as nat) as int;
        lemma_ceil_log2(n as nat);
        assert(plain.cells().len() == STATE_SIZE * padded);
        assert((STATE_SIZE * padded) / STATE_SIZE as int == padded);
    }
    m.padding_by_strategy();
    proof {
        lemma_is_pow2_positive(n as int);
        assert forall|r: int| 0 <= r < m.height() implies #[trigger] matrix_row(m, r) == state_row(
            states@[if r < n { r } else { n - 1 }]@,
        ) by {
            let k = if r < n {
                r
            } else {
                n - 1
            };
            assert forall|j: int| 0 <= j < STATE_SIZE implies #[trigger] matrix_row(m, r)[j]
                == state_row(states@[k]@)[j] by {
                assert(m.at(r, j) == plain.padded_at(r, j));
                assert(plain.at(k, j).value == cells[STATE_SIZE * k + j].value);
                assert(cells[STATE_SIZE * k + j] == state_row(states@[k]@)[j]);
            }
            assert(matrix_row(m, r) =~= state_row(states@[k]@));
        }
    }
    m
}

proof fn lemma_is_pow2_positive(n: int)
    requires
        is_pow2(n),
    ensures
        n >= 1,
{
    let k = choose|k: nat| n == pow2(k);
    lemma_pow2_pos(k);
}

/// The committed bits of the states.
pub struct KeccakTrace {
    pub bits: RowMajorMatrix,
}

impl KeccakLayout {
    /// The committed witness.
    pub fn phase1_witness_group(&self, phase1: KeccakTrace) -> (m: RowMajorMatrix)
        ensures
            m == phase1.bits,
    {
        phase1.bits
    }
}

/// Runs `tiny_keccak::keccakf` on a copy of the lanes: its documentation calls it `keccak-f[1600]`
/// with 24 rounds, and each round of its source is the parities added to the columns, the lanes
/// rotated and moved, the nonlinear step, and the constant of the round, as in
/// [`crate::precompiles::keccak::keccak_round`].
#[verifier::external_body]
fn keccakf(state: &[u64; 25]) -> (r: [u64; 25])
    ensures
        r@ == keccak_rounds(state@, first_constants(ROUNDS as int)),
{
    let mut lanes = *state;
    tiny_keccak::keccakf(&mut lanes);
    lanes
}

/// Whether the values are the bits of the lanes: each is zero where the bit is zero, and not zero
/// where it is one.
pub fn has_bits(values: &[Goldilocks], lanes: &[u64; 25]) -> (r: bool)
    ensures
        r == (values@.len() == STATE_SIZE && forall|i: int|
            0 <= i < STATE_SIZE ==> ((#[trigger] values@[i])@ == 0 <==> state_bits(lanes@)[i]
                == 0)),
{
    if values.len() != STATE_SIZE {
        return false;
    }
    let bits = bits_of(lanes);
    let zero = Goldilocks::zero();
    let mut i: usize = 0;
    while i < STATE_SIZE
        invariant
            i <= STATE_SIZE,
            zero@ == 0,
            values@.len() == STATE_SIZE,
            bits@ == state_bits(lanes@).map_values(|b: int| gl(b)),
            forall|k: int|
                0 <= k < i ==> ((#[trigger] values@[k])@ == 0 <==> state_bits(lanes@)[k] == 0),
        decreases STATE_SIZE - i,
    {
        proof {
            lemma_bit_value(lanes@, i as int);
        }
        if (values[i] == zero) != (bits[i] == zero) {
            return false;
        }
        i = i + 1;
    }
    true
}

/// Whether the values are the bits of what the permutation makes of the lanes.
pub fn matches_keccakf(values: &[Goldilocks], state: &[u64; 25]) -> (r: bool)
    ensures
        r == (values@.len() == STATE_SIZE && forall|i: int|
            0 <= i < STATE_SIZE ==> ((#[trigger] values@[i])@ == 0 <==> state_bits(
                keccak_rounds(state@, first_constants(ROUNDS as int)),
            )[i] == 0)),
{
    let lanes = keccakf(state);
    has_bits(values, &lanes)
}

proof fn lemma_bit_value(st: Seq<u64>, i: int)
    requires
        0 <= i < STATE_SIZE,
    ensures
        0 <= state_bits(st)[i] <= 1,
        gl(state_bits(st)[i])@ == state_bits(st)[i],
{
    let word = st[i / 64];
    let z = (i % 64) as u64;
    assert((word >> z) & 1 <= 1) by (bit_vector);
}

/// The evaluations of the outputs at a point.
pub open spec fn are_out_evals(
    r: Seq<PointAndEval>,
    wits: Seq<MultilinearExtension>,
    point: Seq<GoldilocksExt2>,
) -> bool {
    &&& r.len() == wits.len()
    &&& forall|i: int|
        0 <= i < r.len() ==> (#[trigger] r[i]).point@ == point && r[i].eval@ == mle_eval(
            wits[i]@,
            ext_seq(point),
        )
}

/// The evaluations of the outputs at a point.
pub fn out_evals(wits: &[MultilinearExtension], point: &Point) -> (r: Vec<PointAndEval>)
    requires
        forall|i: int|
            0 <= i < wits@.len() ==> (#[trigger] wits@[i]).wf() && wits@[i].num_vars
                == point@.len(),
    ensures
        are_out_evals(r@, wits@, point@),
{
    let mut r: Vec<PointAndEval> = Vec::with_capacity(wits.len());
    let mut i: usize = 0;
    while i < wits.len()
        invariant
            i <= wits@.len(),
            forall|i: int|
                0 <= i < wits@.len() ==> (#[trigger] wits@[i]).wf() && wits@[i].num_vars
                    == point@.len(),
            are_out_evals(r@, wits@.take(i as int), point@),
        decreases wits@.len() - i,
    {
        let eval = wits[i].evaluate(point.as_slice()).unwrap();
        r.push(PointAndEval::new(crate::mle::slice_to_vec(point.as_slice()), eval));
        i = i + 1;
    }
    assert(wits@.take(i as int) =~= wits@);
    r
}

/// The evaluation of each output is the sum of its rows, weighted by the equality polynomial of the
/// point, and is claimed at that point.
pub proof fn lemma_out_evals(
    r: Seq<PointAndEval>,
    wits: Seq<MultilinearExtension>,
    point: Seq<GoldilocksExt2>,
    i: int,
)
    requires
        are_out_evals(r, wits, point),
        0 <= i < wits.len(),
        wits[i].wf(),
        wits[i].num_vars == point.len(),
    ensures
        r.len() == wits.len(),
        r[i].point@ == point,
        r[i].eval@ == e_sum(
            Seq::new(
                pow2(point.len()),
                |k: int| e_mul(wits[i]@[k], eq_at(ext_seq(point), k)),
            ),
        ),
{
    let terms = Seq::new(pow2(point.len()), |k: int| e_mul(wits[i]@[k], eq_at(ext_seq(point), k)));
    assert(terms =~= eq_terms(wits[i]@, ext_seq(point)));
    lemma_mle_eval_is_eq_sum(wits[i]@, ext_seq(point));
    assert(r[i].point@ == point);
}

} // verus!
