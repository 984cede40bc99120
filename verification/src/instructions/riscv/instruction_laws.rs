//! What the circuits of instructions say about the machine, read off their records.
use vstd::arithmetic::div_mod::*;
use vstd::prelude::*;

use crate::circuit::gadgets::{col, lemma_uint_val, lemma_word_val};
use crate::circuit::CircuitBuilder;
use crate::field::{group_field, modulus, Goldilocks};
use crate::instructions::riscv::div::{
    div_words, is_div_rem, lemma_signed_division, lemma_unsigned_division, ArithInstruction,
    DivOp, DivRemConfig, DivRemInstruction, DivuOp, RemOp, RemuOp,
};
use crate::instructions::riscv::slt::{
    lemma_set_less_than, LessThanInstruction, SetLessThanConfig, SetLessThanInstruction, SltOp,
    SltuOp,
};
use crate::instructions::riscv::{kind_number, record_values, RIVInstruction};
use crate::instructions::Instruction;
use crate::riscv::{InsnKind, StepRecord};

verus! {

broadcast use group_field;

/// The instructions are of the kinds that their names say.
pub proof fn lemma_instruction_kinds()
    ensures
        DivOp::spec_inst_kind() == InsnKind::DIV,
        DivuOp::spec_inst_kind() == InsnKind::DIVU,
        RemOp::spec_inst_kind() == InsnKind::REM,
        RemuOp::spec_inst_kind() == InsnKind::REMU,
        SltOp::spec_inst_kind() == InsnKind::SLT,
        SltuOp::spec_inst_kind() == InsnKind::SLTU,
        <ArithInstruction<DivOp> as Instruction>::spec_name() == "DIV"@,
        <ArithInstruction<DivuOp> as Instruction>::spec_name() == "DIVU"@,
        <ArithInstruction<RemOp> as Instruction>::spec_name() == "REM"@,
        <ArithInstruction<RemuOp> as Instruction>::spec_name() == "REMU"@,
        <SetLessThanInstruction<SltOp> as Instruction>::spec_name() == "SLT"@,
        <SetLessThanInstruction<SltuOp> as Instruction>::spec_name() == "SLTU"@,
{
}

/// The values of a record that an instruction has added.
pub open spec fn added(
    before: CircuitBuilder,
    after: CircuitBuilder,
    k: int,
    row: Seq<Goldilocks>,
) -> Seq<int> {
    record_values(after.records@[before.records@.len() + k], row)
}

/// The records of an instruction with two sources and one destination: the machine goes from one
/// state to the next, four bytes and four cycles on; the instruction at the address of the state is
/// fetched with the kind and the registers that are read and written, and without an immediate; two
/// registers are read and one is written.
pub open spec fn are_r_records(
    before: CircuitBuilder,
    after: CircuitBuilder,
    kind: InsnKind,
    row: Seq<Goldilocks>,
) -> bool {
    let n = before.records@.len() as int;
    let (state, next) = (added(before, after, 0, row), added(before, after, 1, row));
    let fetch = added(before, after, 2, row);
    let (rs1, rs2) = (added(before, after, 3, row), added(before, after, 4, row));
    let rd = added(before, after, 5, row);
    &&& after.records@.len() == n + 6
    &&& after.records@.take(n) == before.records@
    &&& after.records@[n].kind is StateIn
    &&& after.records@[n + 1].kind is StateOut
    &&& after.records@[n + 2].kind is Fetch
    &&& after.records@[n + 3].kind is RegisterRead
    &&& after.records@[n + 4].kind is RegisterRead
    &&& after.records@[n + 5].kind is RegisterWrite
    &&& state.len() == 2
    &&& next == seq![(state[0] + 4) % modulus(), (state[1] + 4) % modulus()]
    &&& rs1.len() == 3
    &&& rs2.len() == 3
    &&& rd.len() == 5
    &&& fetch == seq![state[0], kind_number(kind), rd[0], rs1[0], rs2[0], 0int]
}

/// The word that two limbs spell.
pub open spec fn spelled(lo: int, hi: int) -> int {
    lo + 0x1_0000 * hi
}

/// The limbs are 16-bit values.
pub open spec fn are_limbs(lo: int, hi: int) -> bool {
    0 <= lo < 0x1_0000 && 0 <= hi < 0x1_0000
}

/// A row that satisfies the circuit of a division, with 32-bit sources, writes the quotient of the
/// sources for DIV and DIVU and their remainder for REM and REMU, signed for DIV and REM.
pub proof fn lemma_division_records(
    config: DivRemConfig,
    kind: InsnKind,
    before: CircuitBuilder,
    after: CircuitBuilder,
    row: Seq<Goldilocks>,
)
    requires
        is_div_rem(kind),
        config.builds(kind, before, after),
        after.satisfied(row),
        are_limbs(added(before, after, 3, row)[1], added(before, after, 3, row)[2]),
        are_limbs(added(before, after, 4, row)[1], added(before, after, 4, row)[2]),
    ensures
        are_r_records(before, after, kind, row),
        ({
            let (rs1, rs2) = (added(before, after, 3, row), added(before, after, 4, row));
            let rd = added(before, after, 5, row);
            let (a, b) = (spelled(rs1[1], rs1[2]), spelled(rs2[1], rs2[2]));
            &&& are_limbs(rd[3], rd[4])
            &&& kind == InsnKind::DIV ==> spelled(rd[3], rd[4]) == div_words(true, a, b).0
            &&& kind == InsnKind::DIVU ==> spelled(rd[3], rd[4]) == div_words(false, a, b).0
            &&& kind == InsnKind::REM ==> spelled(rd[3], rd[4]) == div_words(true, a, b).1
            &&& kind == InsnKind::REMU ==> spelled(rd[3], rd[4]) == div_words(false, a, b).1
        }),
{
    let n = before.records@.len() as int;
    assert(after.records@[n + 0].kind is StateIn);
    assert(after.records@[n + 5].kind is RegisterWrite);
    let ops = config.operands;
    let bus = config.r_insn.bus(
        kind,
        ops.dividend.lookups(row),
        ops.divisor.lookups(row),
        config.output(kind).lookups(row),
        row,
    );
    assert forall|k: int| 0 <= k < 6 implies #[trigger] added(before, after, k, row) == bus[k] by {}
    assert(added(before, after, 0, row) == bus[0]);
    assert(added(before, after, 1, row) == bus[1]);
    assert(added(before, after, 2, row) == bus[2]);
    assert(added(before, after, 3, row) == bus[3]);
    assert(added(before, after, 4, row) == bus[4]);
    assert(added(before, after, 5, row) == bus[5]);
    lemma_uint_val(col(row, ops.dividend.lo), col(row, ops.dividend.hi));
    lemma_uint_val(col(row, ops.divisor.lo), col(row, ops.divisor.hi));
    lemma_uint_val(col(row, ops.quotient.lo), col(row, ops.quotient.hi));
    lemma_uint_val(col(row, ops.remainder.lo), col(row, ops.remainder.hi));
    if kind == InsnKind::DIV || kind == InsnKind::REM {
        lemma_signed_division(config, row, before.num_witin as int);
    } else {
        lemma_unsigned_division(config, row);
    }
}

/// The records of a step of an instruction with two sources and one destination.
pub open spec fn are_step_records(
    before: CircuitBuilder,
    after: CircuitBuilder,
    step: StepRecord,
    written: int,
    row: Seq<Goldilocks>,
) -> bool {
    let (a, b, old_rd) = (step.rs1->0 as int, step.rs2->0 as int, (step.rd->0).0 as int);
    &&& added(before, after, 0, row) == seq![step.pc as int, step.cycle as int % modulus()]
    &&& added(before, after, 3, row) == seq![step.insn.rs1 as int, a % 0x1_0000, a / 0x1_0000]
    &&& added(before, after, 4, row) == seq![step.insn.rs2 as int, b % 0x1_0000, b / 0x1_0000]
    &&& added(before, after, 5, row) == seq![
        step.insn.rd as int,
        old_rd % 0x1_0000,
        old_rd / 0x1_0000,
        written % 0x1_0000,
        written / 0x1_0000,
    ]
}

/// The assigned row of a division step satisfies the circuit and records the step: its state, the
/// sources that it reads, and the word that the machine writes over the old one.
#[verifier::spinoff_prover]
#[verifier::rlimit(60)]
pub proof fn lemma_division_step<I: DivRemInstruction>(
    config: DivRemConfig,
    before: CircuitBuilder,
    after: CircuitBuilder,
    row: Seq<Goldilocks>,
    step: StepRecord,
)
    requires
        config.builds(I::spec_inst_kind(), before, after),
        before.satisfied(row),
        <ArithInstruction<I> as Instruction>::accepts(step),
        <ArithInstruction<I> as Instruction>::assigned(config, row, step),
    ensures
        after.satisfied(row),
        are_r_records(before, after, I::spec_inst_kind(), row),
        ({
            let kind = I::spec_inst_kind();
            let signed = kind == InsnKind::DIV || kind == InsnKind::REM;
            let words = div_words(signed, step.rs1->0 as int, step.rs2->0 as int);
            are_step_records(
                before,
                after,
                step,
                if kind == InsnKind::DIV || kind == InsnKind::DIVU {
                    words.0
                } else {
                    words.1
                },
                row,
            )
        }),
{
    I::lemma_kind();
    let kind = I::spec_inst_kind();
    let ops = config.operands;
    let (a, b) = (step.rs1->0, step.rs2->0);
    let signed = kind == InsnKind::DIV || kind == InsnKind::REM;
    let words = div_words(signed, a as int, b as int);
    crate::instructions::riscv::div::lemma_div_words(signed, a as int, b as int);
    lemma_word_val(ops.dividend, row, a);
    lemma_word_val(ops.divisor, row, b);
    lemma_word_val(ops.quotient, row, words.0 as u32);
    lemma_word_val(ops.remainder, row, words.1 as u32);
    lemma_word_val(config.r_insn.prev_rd, row, (step.rd->0).0);
    let bus = config.r_insn.bus(
        kind,
        ops.dividend.lookups(row),
        ops.divisor.lookups(row),
        config.output(kind).lookups(row),
        row,
    );
    assert(added(before, after, 0, row) == bus[0]);
    assert(added(before, after, 3, row) == bus[3]);
    assert(added(before, after, 4, row) == bus[4]);
    assert(added(before, after, 5, row) == bus[5]);
    lemma_division_records(config, kind, before, after, row);
    assert(added(before, after, 0, row) =~= seq![
        step.pc as int,
        step.cycle as int % modulus(),
    ]);
    assert(bus[3] =~= seq![step.insn.rs1 as int, (a % 65536) as int, (a / 65536) as int]);
    assert(bus[4] =~= seq![step.insn.rs2 as int, (b % 65536) as int, (b / 65536) as int]);
    let written = if kind == InsnKind::DIV || kind == InsnKind::DIVU {
        words.0
    } else {
        words.1
    };
    assert(bus[5] =~= seq![
        step.insn.rd as int,
        ((step.rd->0).0 % 65536) as int,
        ((step.rd->0).0 / 65536) as int,
        written % 0x1_0000,
        written / 0x1_0000,
    ]);
}

/// A row that satisfies the circuit of a comparison, with 32-bit sources, writes one if the first
/// source is less than the second and zero otherwise, signed for SLT.
pub proof fn lemma_less_than_records(
    config: SetLessThanConfig,
    kind: InsnKind,
    before: CircuitBuilder,
    after: CircuitBuilder,
    row: Seq<Goldilocks>,
)
    requires
        kind == InsnKind::SLT || kind == InsnKind::SLTU,
        config.builds(kind, before, after),
        after.satisfied(row),
        are_limbs(added(before, after, 3, row)[1], added(before, after, 3, row)[2]),
        are_limbs(added(before, after, 4, row)[1], added(before, after, 4, row)[2]),
    ensures
        are_r_records(before, after, kind, row),
        ({
            let (rs1, rs2) = (added(before, after, 3, row), added(before, after, 4, row));
            let rd = added(before, after, 5, row);
            let (a, b) = (spelled(rs1[1], rs1[2]), spelled(rs2[1], rs2[2]));
            let sa = if a >= 0x8000_0000 {
                a - 0x1_0000_0000
            } else {
                a
            };
            let sb = if b >= 0x8000_0000 {
                b - 0x1_0000_0000
            } else {
                b
            };
            &&& rd[4] == 0
            &&& rd[3] == 0 || rd[3] == 1
            &&& kind == InsnKind::SLT ==> (rd[3] == 1 <==> sa < sb)
            &&& kind == InsnKind::SLTU ==> (rd[3] == 1 <==> a < b)
        }),
{
    let n = before.records@.len() as int;
    assert(after.records@[n + 0].kind is StateIn);
    assert(after.records@[n + 5].kind is RegisterWrite);
    let bus = config.r_insn.bus(
        kind,
        config.rs1_read.lookups(row),
        config.rs2_read.lookups(row),
        config.written(row),
        row,
    );
    assert(added(before, after, 0, row) == bus[0]);
    assert(added(before, after, 1, row) == bus[1]);
    assert(added(before, after, 2, row) == bus[2]);
    assert(added(before, after, 3, row) == bus[3]);
    assert(added(before, after, 4, row) == bus[4]);
    assert(added(before, after, 5, row) == bus[5]);
    lemma_uint_val(col(row, config.rs1_read.lo), col(row, config.rs1_read.hi));
    lemma_uint_val(col(row, config.rs2_read.lo), col(row, config.rs2_read.hi));
    lemma_set_less_than(config, row, before.num_witin as int);
}

/// The assigned row of a comparison step satisfies the circuit and records the step: its state, the
/// sources that it reads, and the outcome that the machine writes over the old word.
#[verifier::spinoff_prover]
#[verifier::rlimit(40)]
pub proof fn lemma_less_than_step<I: LessThanInstruction>(
    config: SetLessThanConfig,
    before: CircuitBuilder,
    after: CircuitBuilder,
    row: Seq<Goldilocks>,
    step: StepRecord,
)
    requires
        config.builds(I::spec_inst_kind(), before, after),
        before.satisfied(row),
        <SetLessThanInstruction<I> as Instruction>::accepts(step),
        <SetLessThanInstruction<I> as Instruction>::assigned(config, row, step),
    ensures
        after.satisfied(row),
        are_r_records(before, after, I::spec_inst_kind(), row),
        ({
            let (a, b) = (step.rs1->0 as int, step.rs2->0 as int);
            let sa = if a >= 0x8000_0000 {
                a - 0x1_0000_0000
            } else {
                a
            };
            let sb = if b >= 0x8000_0000 {
                b - 0x1_0000_0000
            } else {
                b
            };
            let less = if I::spec_inst_kind() == InsnKind::SLT {
                sa < sb
            } else {
                a < b
            };
            are_step_records(
                before,
                after,
                step,
                if less {
                    1
                } else {
                    0
                },
                row,
            )
        }),
{
    I::lemma_kind();
    let kind = I::spec_inst_kind();
    let (a, b) = (step.rs1->0, step.rs2->0);
    lemma_word_val(config.rs1_read, row, a);
    lemma_word_val(config.rs2_read, row, b);
    lemma_word_val(config.r_insn.prev_rd, row, (step.rd->0).0);
    let bus = config.r_insn.bus(
        kind,
        config.rs1_read.lookups(row),
        config.rs2_read.lookups(row),
        config.written(row),
        row,
    );
    assert(added(before, after, 0, row) == bus[0]);
    assert(added(before, after, 3, row) == bus[3]);
    assert(added(before, after, 4, row) == bus[4]);
    assert(added(before, after, 5, row) == bus[5]);
    lemma_less_than_records(config, kind, before, after, row);
    assert(added(before, after, 0, row) =~= seq![
        step.pc as int,
        step.cycle as int % modulus(),
    ]);
    assert(bus[3] =~= seq![step.insn.rs1 as int, (a % 65536) as int, (a / 65536) as int]);
    assert(bus[4] =~= seq![step.insn.rs2 as int, (b % 65536) as int, (b / 65536) as int]);
    assert(bus[5] =~= seq![
        step.insn.rd as int,
        ((step.rd->0).0 % 65536) as int,
        ((step.rd->0).0 / 65536) as int,
        config.written(row)[0],
        0int,
    ]);
}

} // verus!
