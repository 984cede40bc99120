//! Circuits of instructions.
use vstd::prelude::*;

use crate::circuit::gadgets::LkMultiplicity;
use crate::circuit::ZKVMError;
use crate::field::Goldilocks;
use crate::riscv::StepRecord;
use crate::util::spec_next_power_of_two;
use crate::witness::{
    lemma_cell_index, lemma_padding_is_pow2, matrix_row, spec_next_pow2_instance_padding, write_row,
    zero_row, InstancePaddingStrategy, RowMajorMatrix,
};

pub mod riscv;

verus! {

/// The circuit of an instruction and the assignment of its witnesses.
pub trait Instruction {
    /// Where the circuit has its witnesses.
    type InstructionConfig;

    /// The columns are laid out as the circuit builder gives them, below `num_witin`.
    spec fn fits(config: Self::InstructionConfig, num_witin: int) -> bool;

    /// The step has what the circuit reads.
    spec fn accepts(step: StepRecord) -> bool;

    /// The row satisfies the constraints of the circuit and holds the step.
    spec fn assigned(
        config: Self::InstructionConfig,
        row: Seq<Goldilocks>,
        step: StepRecord,
    ) -> bool;

    /// The values that the row looks up in the range table.
    spec fn lookups(config: Self::InstructionConfig, row: Seq<Goldilocks>) -> Seq<int>;

    spec fn spec_name() -> Seq<char>;

    /// The name of the instruction.
    fn name() -> (r: String)
        ensures
            r@ == Self::spec_name(),
    ;

    /// Assigns one row from a step of the trace.
    fn assign_instance(
        config: &Self::InstructionConfig,
        instance: &mut Vec<Goldilocks>,
        lk_multiplicity: &mut LkMultiplicity,
        step: &StepRecord,
    ) -> (r: Result<(), ZKVMError>)
        requires
            Self::fits(*config, old(instance)@.len() as int),
            Self::accepts(*step),
        ensures
            r is Ok,
            final(instance)@.len() == old(instance)@.len(),
            Self::assigned(*config, final(instance)@, *step),
            final(lk_multiplicity)@ == old(lk_multiplicity)@ + Self::lookups(
                *config,
                final(instance)@,
            ),
    ;

    /// How rows after the last step are filled.
    fn padding_strategy() -> (r: InstancePaddingStrategy)
        ensures
            r is RepeatLast,
    {
        InstancePaddingStrategy::RepeatLast
    }
}

/// Assigns one row for each step; the last one is repeated in the padding. Without steps all rows
/// are zero.
pub fn assign_instances<T: Instruction>(
    config: &T::InstructionConfig,
    num_witin: usize,
    steps: &Vec<StepRecord>,
) -> (r: Result<(RowMajorMatrix, LkMultiplicity), ZKVMError>)
    requires
        T::fits(*config, num_witin as int),
        num_witin > 0,
        forall|i: int| 0 <= i < steps@.len() ==> T::accepts(#[trigger] steps@[i]),
        2 * spec_next_pow2_instance_padding(steps@.len()) * num_witin <= usize::MAX,
        spec_next_power_of_two(steps@.len()) <= usize::MAX,
    ensures
        r matches Ok((m, lkm)) && {
            &&& m.wf()
            &&& m.num_rows == steps@.len()
            &&& m.width() == num_witin
            &&& m.height() == spec_next_pow2_instance_padding(steps@.len())
            &&& m.is_padded == (steps@.len() > 0)
            &&& forall|i: int|
                0 <= i < steps@.len() ==> T::assigned(
                    *config,
                    #[trigger] matrix_row(m, i),
                    steps@[i],
                )
            &&& forall|i: int|
                0 < steps@.len() <= i < m.height() ==> #[trigger] matrix_row(m, i)
                    == matrix_row(m, steps@.len() - 1)
            &&& steps@.len() == 0 ==> forall|i: int, c: int|
                0 <= i < m.height() && 0 <= c < num_witin ==> (#[trigger] m.at(i, c)).value == 0
            &&& lkm@ == all_lookups::<T>(*config, m, steps@.len() as int)
        },
{
    let mut m = RowMajorMatrix::new(steps.len(), num_witin, T::padding_strategy());
    let mut lkm = LkMultiplicity::new();
    proof {
        lemma_padding_is_pow2(steps@.len());
        crate::witness::lemma_rows(
            spec_next_pow2_instance_padding(steps@.len()) as int,
            num_witin as int,
        );
        assert(all_lookups::<T>(*config, m, 0) =~= Seq::<int>::empty());
        assert forall|i: int, c: int| 0 <= i < m.height() && 0 <= c < num_witin implies (
        #[trigger] m.at(i, c)).value == 0 by {
            lemma_cell_index(i, c, m.height() as int, num_witin as int);
        }
    }
    let ghost height = m.height();
    let mut i: usize = 0;
    while i < steps.len()
        invariant
            i <= steps@.len(),
            T::fits(*config, num_witin as int),
            num_witin > 0,
            forall|i: int| 0 <= i < steps@.len() ==> T::accepts(#[trigger] steps@[i]),
            m.wf(),
            m.num_rows == steps@.len(),
            m.width() == num_witin,
            m.height() == height,
            height == spec_next_pow2_instance_padding(steps@.len()),
            height >= steps@.len(),
            m.padding_strategy is RepeatLast,
            !m.is_padded,
            forall|k: int|
                0 <= k < i ==> T::assigned(
                    *config,
                    #[trigger] matrix_row(m, k),
                    steps@[k],
                ),
            steps@.len() == 0 ==> forall|i: int, c: int|
                0 <= i < height && 0 <= c < num_witin ==> (#[trigger] m.at(i, c)).value == 0,
            lkm@ == all_lookups::<T>(*config, m, i as int),
        decreases steps@.len() - i,
    {
        let mut row = zero_row(num_witin);
        let _ = T::assign_instance(config, &mut row, &mut lkm, &steps[i]);
        let ghost before = m;
        write_row(&mut m, i, &row);
        proof {
            assert(matrix_row(m, i as int) =~= row@);
            assert forall|k: int| 0 <= k < i implies #[trigger] matrix_row(m, k) == matrix_row(
                before,
                k,
            ) by {
                assert(matrix_row(m, k) =~= matrix_row(before, k));
            }
            lemma_all_lookups_local::<T>(*config, m, before, i as int);
        }
        i = i + 1;
    }
    let ghost filled = m;
    m.padding_by_strategy();
    proof {
        assert forall|k: int| 0 <= k < steps@.len() implies #[trigger] matrix_row(m, k)
            == matrix_row(filled, k) by {
            assert(matrix_row(m, k) =~= matrix_row(filled, k));
        }
        assert forall|k: int| 0 < steps@.len() <= k < m.height() implies #[trigger] matrix_row(
            m,
            k,
        ) == matrix_row(m, steps@.len() - 1) by {
            assert(matrix_row(m, k) =~= matrix_row(m, steps@.len() - 1));
        }
        lemma_all_lookups_local::<T>(*config, m, filled, steps@.len() as int);
    }
    Ok((m, lkm))
}

/// The lookups of the first `n` rows, one row after the other.
pub open spec fn all_lookups<T: Instruction>(
    config: T::InstructionConfig,
    m: RowMajorMatrix,
    n: int,
) -> Seq<int>
    decreases n,
{
    if n <= 0 {
        Seq::empty()
    } else {
        all_lookups::<T>(config, m, n - 1) + T::lookups(config, matrix_row(m, n - 1))
    }
}

proof fn lemma_all_lookups_local<T: Instruction>(
    config: T::InstructionConfig,
    m: RowMajorMatrix,
    other: RowMajorMatrix,
    n: int,
)
    requires
        forall|k: int| 0 <= k < n ==> #[trigger] matrix_row(m, k) == matrix_row(other, k),
    ensures
        all_lookups::<T>(config, m, n) == all_lookups::<T>(config, other, n),
    decreases n,
{
    if n > 0 {
        lemma_all_lookups_local::<T>(config, m, other, n - 1);
        assert(matrix_row(m, n - 1) == matrix_row(other, n - 1));
    }
}

/// An instruction whose circuit is proved layer by layer, besides its own rows.
pub trait GKRIOPInstruction: Instruction {
    /// Where the layered circuit has its inputs.
    type Layout;

    /// The inputs of the layered circuit, from the steps of the trace.
    fn phase1_witness_from_steps(layout: &Self::Layout, steps: &Vec<StepRecord>) -> RowMajorMatrix;

    /// Assigns one row from a step of the trace, with the lookups and the auxiliary witnesses of
    /// the layered circuit.
    fn assign_instance_with_gkr_iop(
        config: &Self::InstructionConfig,
        instance: &mut Vec<Goldilocks>,
        lk_multiplicity: &mut LkMultiplicity,
        step: &StepRecord,
        lookups: &[Goldilocks],
        aux_wits: &[Goldilocks],
    ) -> Result<(), ZKVMError>;

    /// Lookup and witness counts of the layered circuit.
    fn gkr_info() -> GKRinfo;
}

/// Lookup and witness counts of a circuit.
#[derive(Debug, Clone, Copy)]
pub struct GKRinfo {
    pub and_lookups: usize,
    pub xor_lookups: usize,
    pub range_lookups: usize,
    pub aux_wits: usize,
}

impl GKRinfo {
    /// The number of lookups.
    pub fn lookup_total(&self) -> (r: usize)
        requires
            self.and_lookups + self.xor_lookups + self.range_lookups <= usize::MAX,
        ensures
            r == self.and_lookups + self.xor_lookups + self.range_lookups,
    {
        self.and_lookups + self.xor_lookups + self.range_lookups
    }
}

/// The lookups of a trace: those of each row stand together, after those of the rows before it, and
/// the rows after the last step are not looked up.
pub proof fn lemma_all_lookups<T: Instruction>(
    config: T::InstructionConfig,
    m: RowMajorMatrix,
    n: int,
    i: int,
)
    requires
        0 <= i < n,
    ensures
        ({
            let (all, before) = (all_lookups::<T>(config, m, n), all_lookups::<T>(config, m, i));
            let here = T::lookups(config, matrix_row(m, i));
            &&& before.len() + here.len() <= all.len()
            &&& all.take(before.len() as int) == before
            &&& all.subrange(before.len() as int, (before.len() + here.len()) as int) == here
            &&& i == 0 ==> before.len() == 0
            &&& i == n - 1 ==> before.len() + here.len() == all.len()
        }),
    decreases n,
{
    let (all, before) = (all_lookups::<T>(config, m, n), all_lookups::<T>(config, m, i));
    let here = T::lookups(config, matrix_row(m, i));
    let rest = all_lookups::<T>(config, m, n - 1);
    if i < n - 1 {
        lemma_all_lookups::<T>(config, m, n - 1, i);
        assert(all.take(before.len() as int) =~= rest.take(before.len() as int));
        assert(all.subrange(before.len() as int, (before.len() + here.len()) as int)
            =~= rest.subrange(before.len() as int, (before.len() + here.len()) as int));
    } else {
        assert(all.take(before.len() as int) =~= before);
        assert(all.subrange(before.len() as int, (before.len() + here.len()) as int) =~= here);
    }
}

} // verus!
