//! What a proof of Keccak instances is made from and ends in.
use vstd::arithmetic::power2::*;
use vstd::prelude::*;

use crate::field::{e_mul, group_field, Ext, GoldilocksExt2};
use crate::mle::{ext_seq, slice_to_vec, MultilinearExtension, Point, PointAndEval};
use crate::multilinear::{e_sum, eq_at, eq_terms, lemma_mle_eval_is_eq_sum, mle_eval};

use crate::precompiles::lookup_witness::{instance_state, KeccakTrace};
use crate::util::{ceil_log2, next_power_of_two, spec_ceil_log2, spec_next_power_of_two};

verus! {

broadcast use group_field;

/// The rows of an instance: the number of rounds, rounded up to a power of two.
pub const ROWS_PER_INSTANCE: usize = 32;

/// The lower and the upper half of each lane.
pub open spec fn halves(st: Seq<u64>) -> Seq<u32> {
    Seq::new(
        50,
        |i: int|
            if i % 2 == 0 {
                (st[i / 2] % 0x1_0000_0000) as u32
            } else {
                (st[i / 2] / 0x1_0000_0000) as u32
            },
    )
}

/// The halves of the lanes spell the lanes.
pub proof fn lemma_halves(st: Seq<u64>)
    requires
        st.len() == 25,
    ensures
        instance_state(halves(st)) == st,
{
    let r = instance_state(halves(st));
    assert forall|l: int| 0 <= l < 25 implies #[trigger] r[l] == st[l] by {
        assert(halves(st)[2 * l] == st[l] % 0x1_0000_0000);
        assert(halves(st)[2 * l + 1] == st[l] / 0x1_0000_0000);
    }
    assert(r =~= st);
}

/// The halves of the lanes of a state.
pub fn to_instance(state: &[u64; 25]) -> (r: [u32; 50])
    ensures
        r@ == halves(state@),
{
    let mut r: [u32; 50] = [0u32;50];
    let mut i: usize = 0;
    while i < 50
        invariant
            i <= 50,
            forall|k: int| 0 <= k < i ==> #[trigger] r@[k] == halves(state@)[k],
        decreases 50 - i,
    {
        let lane: u64 = state[i / 2];
        let half: u32 = if i % 2 == 0 {
            (lane % 0x1_0000_0000) as u32
        } else {
            (lane / 0x1_0000_0000) as u32
        };
        r[i] = half;
        i = i + 1;
    }
    assert(r@ =~= halves(state@));
    r
}

impl KeccakTrace {
    /// The trace of states.
    pub fn from_states(states: &Vec<[u64; 25]>) -> (r: KeccakTrace)
        ensures
            r.instances@.len() == states@.len(),
            forall|i: int|
                0 <= i < states@.len() ==> (#[trigger] r.instances@[i])@ == halves(states@[i]@),
    {
        let mut instances: Vec<[u32; 50]> = Vec::with_capacity(states.len());
        let mut i: usize = 0;
        while i < states.len()
            invariant
                i <= states@.len(),
                instances@.len() == i,
                forall|k: int|
                    0 <= k < i ==> (#[trigger] instances@[k])@ == halves(states@[k]@),
            decreases states@.len() - i,
        {
            instances.push(to_instance(&states[i]));
            i = i + 1;
        }
        KeccakTrace { instances }
    }
}

/// The number of variables of the columns of a proof.
pub fn log2_instance_rounds(num_instances: usize) -> (r: usize)
    requires
        num_instances * ROWS_PER_INSTANCE <= usize::MAX,
    ensures
        r == spec_ceil_log2((num_instances * ROWS_PER_INSTANCE) as nat),
{
    ceil_log2(num_instances * ROWS_PER_INSTANCE)
}

/// Whether each output has an entry for each row of the padded instances.
pub fn outputs_complete(wits: &[MultilinearExtension], num_instances: usize) -> (r: bool)
    requires
        num_instances * ROWS_PER_INSTANCE <= usize::MAX,
        spec_next_power_of_two((num_instances * ROWS_PER_INSTANCE) as nat) <= usize::MAX,
    ensures
        r == forall|i: int|
            0 <= i < wits@.len() ==> (#[trigger] wits@[i])@.len() == spec_next_power_of_two(
                (num_instances * ROWS_PER_INSTANCE) as nat,
            ),
{
    let rows: usize = next_power_of_two(num_instances * ROWS_PER_INSTANCE);
    let mut i: usize = 0;
    while i < wits.len()
        invariant
            i <= wits@.len(),
            rows == spec_next_power_of_two((num_instances * ROWS_PER_INSTANCE) as nat),
            forall|k: int| 0 <= k < i ==> (#[trigger] wits@[k])@.len() == rows,
        decreases wits@.len() - i,
    {
        if wits[i].evaluations.len() != rows {
            return false;
        }
        i = i + 1;
    }
    true
}

/// The evaluation of an output: a constant output is its own evaluation.
pub open spec fn output_eval(wit: MultilinearExtension, point: Seq<GoldilocksExt2>) -> Ext {
    if wit.num_vars == 0 {
        wit@[0]
    } else {
        mle_eval(wit@, ext_seq(point))
    }
}

/// The evaluations of the outputs at a point.
pub fn output_evals(wits: &[MultilinearExtension], point: &Point) -> (r: Vec<PointAndEval>)
    requires
        forall|i: int|
            0 <= i < wits@.len() ==> {
                let wit = #[trigger] wits@[i];
                &&& wit.wf()
                &&& wit.num_vars == 0 ==> wit.evaluations is Base
                &&& wit.num_vars != 0 ==> wit.num_vars == point@.len()
            },
    ensures
        r@.len() == wits@.len(),
        forall|i: int|
            0 <= i < wits@.len() ==> (#[trigger] r@[i]).point@ == point@ && r@[i].eval@
                == output_eval(wits@[i], point@),
{
    let mut r: Vec<PointAndEval> = Vec::with_capacity(wits.len());
    let mut i: usize = 0;
    while i < wits.len()
        invariant
            i <= wits@.len(),
            r@.len() == i,
            forall|i: int|
                0 <= i < wits@.len() ==> {
                    let wit = #[trigger] wits@[i];
                    &&& wit.wf()
                    &&& wit.num_vars == 0 ==> wit.evaluations is Base
                    &&& wit.num_vars != 0 ==> wit.num_vars == point@.len()
                },
            forall|k: int|
                0 <= k < i ==> (#[trigger] r@[k]).point@ == point@ && r@[k].eval@ == output_eval(
                    wits@[k],
                    point@,
                ),
        decreases wits@.len() - i,
    {
        let wit = &wits[i];
        assert(wits@[i as int].wf());
        let eval = if wit.num_vars() == 0 {
            proof {
                vstd::arithmetic::power2::lemma2_to64();
            }
            GoldilocksExt2::from_base(wit.get_base_field_vec()[0])
        } else {
            wit.evaluate(point.as_slice()).unwrap()
        };
        r.push(PointAndEval::new(slice_to_vec(point.as_slice()), eval));
        i = i + 1;
    }
    r
}

/// The evaluation of an output is the sum of its rows, each weighted by the equality polynomial of
/// the point; an output with one row evaluates to that row everywhere.
pub proof fn lemma_output_eval(wit: MultilinearExtension, point: Seq<GoldilocksExt2>)
    requires
        wit.wf(),
    ensures
        wit.num_vars == point.len() ==> output_eval(wit, point) == e_sum(
            Seq::new(
                pow2(point.len()),
                |i: int| e_mul(wit@[i], eq_at(ext_seq(point), i)),
            ),
        ),
        wit.num_vars == 0 ==> output_eval(wit, point) == wit@[0],
{
    if wit.num_vars == point.len() {
        let terms = Seq::new(
            pow2(point.len()),
            |i: int| e_mul(wit@[i], eq_at(ext_seq(point), i)),
        );
        assert(terms =~= eq_terms(wit@, ext_seq(point)));
        lemma_mle_eval_is_eq_sum(wit@, ext_seq(point));
        assert(point.len() == 0 ==> mle_eval(wit@, ext_seq(point)) == wit@[0]);
    }
}

} // verus!
