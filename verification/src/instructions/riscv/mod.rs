//! Circuits of RISC-V instructions.
use vstd::prelude::*;

use crate::circuit::gadgets::{col, set_val, UInt};
use crate::circuit::plain::{constant, plus, value, witness};
use crate::circuit::{CircuitBuilder, Record, RecordKind};
use crate::expression::{Expression, WitIn};
use crate::field::{f_add, group_field, modulus, Goldilocks};
use crate::riscv::{InsnKind, StepRecord, CYCLES_PER_INSN, PC_STEP_SIZE};

pub mod div;
pub mod instruction_laws;
pub mod slt;

verus! {

broadcast use group_field;

/// An instruction of one kind.
pub trait RIVInstruction {
    spec fn spec_inst_kind() -> InsnKind;

    fn inst_kind() -> (r: InsnKind)
        ensures
            r == Self::spec_inst_kind(),
    ;
}

/// The part that instructions with two sources and one destination share: the state of the
/// machine, the fetch and the register accesses.
#[derive(Debug, Clone, Copy)]
pub struct RInstructionConfig {
    pub pc: WitIn,
    pub ts: WitIn,
    pub rs1_id: WitIn,
    pub rs2_id: WitIn,
    pub rd_id: WitIn,
    pub prev_rd: UInt,
}

/// The values of a record's fields.
pub open spec fn record_values(rec: Record, row: Seq<Goldilocks>) -> Seq<int> {
    Seq::new(rec.fields@.len(), |i: int| value(rec.fields@[i], row))
}

/// The kinds of the records of an instruction: the state of the machine before and after it, its
/// fetch, and the registers that it reads and writes.
pub open spec fn bus_kinds() -> Seq<RecordKind> {
    seq![
        RecordKind::StateIn,
        RecordKind::StateOut,
        RecordKind::Fetch,
        RecordKind::RegisterRead,
        RecordKind::RegisterRead,
        RecordKind::RegisterWrite,
    ]
}

/// The records of an instruction are added behind those that are there.
pub open spec fn adds_records(before: Seq<Record>, after: Seq<Record>) -> bool {
    &&& after.len() == before.len() + 6
    &&& after.take(before.len() as int) == before
    &&& forall|k: int|
        0 <= k < 6 ==> (#[trigger] after[before.len() + k]).kind == bus_kinds()[k]
}

/// The position of a kind in the list of kinds.
pub open spec fn kind_number(kind: InsnKind) -> int {
    match kind {
        InsnKind::INVALID => 0,
        InsnKind::ADD => 1,
        InsnKind::SUB => 2,
        InsnKind::XOR => 3,
        InsnKind::OR => 4,
        InsnKind::AND => 5,
        InsnKind::SLL => 6,
        InsnKind::SRL => 7,
        InsnKind::SRA => 8,
        InsnKind::SLT => 9,
        InsnKind::SLTU => 10,
        InsnKind::ADDI => 11,
        InsnKind::XORI => 12,
        InsnKind::ORI => 13,
        InsnKind::ANDI => 14,
        InsnKind::SLLI => 15,
        InsnKind::SRLI => 16,
        InsnKind::SRAI => 17,
        InsnKind::SLTI => 18,
        InsnKind::SLTIU => 19,
        InsnKind::BEQ => 20,
        InsnKind::BNE => 21,
        InsnKind::BLT => 22,
        InsnKind::BGE => 23,
        InsnKind::BLTU => 24,
        InsnKind::BGEU => 25,
        InsnKind::JAL => 26,
        InsnKind::JALR => 27,
        InsnKind::LUI => 28,
        InsnKind::AUIPC => 29,
        InsnKind::MUL => 30,
        InsnKind::MULH => 31,
        InsnKind::MULHSU => 32,
        InsnKind::MULHU => 33,
        InsnKind::DIV => 34,
        InsnKind::DIVU => 35,
        InsnKind::REM => 36,
        InsnKind::REMU => 37,
        InsnKind::LB => 38,
        InsnKind::LH => 39,
        InsnKind::LW => 40,
        InsnKind::LBU => 41,
        InsnKind::LHU => 42,
        InsnKind::SB => 43,
        InsnKind::SH => 44,
        InsnKind::SW => 45,
        InsnKind::ECALL => 46,
    }
}

/// The position of a kind in the list of kinds.
pub fn kind_as_u64(kind: InsnKind) -> (r: u64)
    ensures
        r == kind_number(kind),
        r <= 46,
{
    match kind {
        InsnKind::INVALID => 0,
        InsnKind::ADD => 1,
        InsnKind::SUB => 2,
        InsnKind::XOR => 3,
        InsnKind::OR => 4,
        InsnKind::AND => 5,
        InsnKind::SLL => 6,
        InsnKind::SRL => 7,
        InsnKind::SRA => 8,
        InsnKind::SLT => 9,
        InsnKind::SLTU => 10,
        InsnKind::ADDI => 11,
        InsnKind::XORI => 12,
        InsnKind::ORI => 13,
        InsnKind::ANDI => 14,
        InsnKind::SLLI => 15,
        InsnKind::SRLI => 16,
        InsnKind::SRAI => 17,
        InsnKind::SLTI => 18,
        InsnKind::SLTIU => 19,
        InsnKind::BEQ => 20,
        InsnKind::BNE => 21,
        InsnKind::BLT => 22,
        InsnKind::BGE => 23,
        InsnKind::BLTU => 24,
        InsnKind::BGEU => 25,
        InsnKind::JAL => 26,
        InsnKind::JALR => 27,
        InsnKind::LUI => 28,
        InsnKind::AUIPC => 29,
        InsnKind::MUL => 30,
        InsnKind::MULH => 31,
        InsnKind::MULHSU => 32,
        InsnKind::MULHU => 33,
        InsnKind::DIV => 34,
        InsnKind::DIVU => 35,
        InsnKind::REM => 36,
        InsnKind::REMU => 37,
        InsnKind::LB => 38,
        InsnKind::LH => 39,
        InsnKind::LW => 40,
        InsnKind::LBU => 41,
        InsnKind::LHU => 42,
        InsnKind::SB => 43,
        InsnKind::SH => 44,
        InsnKind::SW => 45,
        InsnKind::ECALL => 46,
    }
}

/// The name of a kind.
pub open spec fn spec_kind_name(kind: InsnKind) -> &'static str {
    match kind {
        InsnKind::INVALID => "INVALID",
        InsnKind::ADD => "ADD",
        InsnKind::SUB => "SUB",
        InsnKind::XOR => "XOR",
        InsnKind::OR => "OR",
        InsnKind::AND => "AND",
        InsnKind::SLL => "SLL",
        InsnKind::SRL => "SRL",
        InsnKind::SRA => "SRA",
        InsnKind::SLT => "SLT",
        InsnKind::SLTU => "SLTU",
        InsnKind::ADDI => "ADDI",
        InsnKind::XORI => "XORI",
        InsnKind::ORI => "ORI",
        InsnKind::ANDI => "ANDI",
        InsnKind::SLLI => "SLLI",
        InsnKind::SRLI => "SRLI",
        InsnKind::SRAI => "SRAI",
        InsnKind::SLTI => "SLTI",
        InsnKind::SLTIU => "SLTIU",
        InsnKind::BEQ => "BEQ",
        InsnKind::BNE => "BNE",
        InsnKind::BLT => "BLT",
        InsnKind::BGE => "BGE",
        InsnKind::BLTU => "BLTU",
        InsnKind::BGEU => "BGEU",
        InsnKind::JAL => "JAL",
        InsnKind::JALR => "JALR",
        InsnKind::LUI => "LUI",
        InsnKind::AUIPC => "AUIPC",
        InsnKind::MUL => "MUL",
        InsnKind::MULH => "MULH",
        InsnKind::MULHSU => "MULHSU",
        InsnKind::MULHU => "MULHU",
        InsnKind::DIV => "DIV",
        InsnKind::DIVU => "DIVU",
        InsnKind::REM => "REM",
        InsnKind::REMU => "REMU",
        InsnKind::LB => "LB",
        InsnKind::LH => "LH",
        InsnKind::LW => "LW",
        InsnKind::LBU => "LBU",
        InsnKind::LHU => "LHU",
        InsnKind::SB => "SB",
        InsnKind::SH => "SH",
        InsnKind::SW => "SW",
        InsnKind::ECALL => "ECALL",
    }
}

/// The name of a kind.
pub fn kind_name(kind: InsnKind) -> (r: String)
    ensures
        r@ == spec_kind_name(kind)@,
{
    let name = match kind {
        InsnKind::INVALID => "INVALID",
        InsnKind::ADD => "ADD",
        InsnKind::SUB => "SUB",
        InsnKind::XOR => "XOR",
        InsnKind::OR => "OR",
        InsnKind::AND => "AND",
        InsnKind::SLL => "SLL",
        InsnKind::SRL => "SRL",
        InsnKind::SRA => "SRA",
        InsnKind::SLT => "SLT",
        InsnKind::SLTU => "SLTU",
        InsnKind::ADDI => "ADDI",
        InsnKind::XORI => "XORI",
        InsnKind::ORI => "ORI",
        InsnKind::ANDI => "ANDI",
        InsnKind::SLLI => "SLLI",
        InsnKind::SRLI => "SRLI",
        InsnKind::SRAI => "SRAI",
        InsnKind::SLTI => "SLTI",
        InsnKind::SLTIU => "SLTIU",
        InsnKind::BEQ => "BEQ",
        InsnKind::BNE => "BNE",
        InsnKind::BLT => "BLT",
        InsnKind::BGE => "BGE",
        InsnKind::BLTU => "BLTU",
        InsnKind::BGEU => "BGEU",
        InsnKind::JAL => "JAL",
        InsnKind::JALR => "JALR",
        InsnKind::LUI => "LUI",
        InsnKind::AUIPC => "AUIPC",
        InsnKind::MUL => "MUL",
        InsnKind::MULH => "MULH",
        InsnKind::MULHSU => "MULHSU",
        InsnKind::MULHU => "MULHU",
        InsnKind::DIV => "DIV",
        InsnKind::DIVU => "DIVU",
        InsnKind::REM => "REM",
        InsnKind::REMU => "REMU",
        InsnKind::LB => "LB",
        InsnKind::LH => "LH",
        InsnKind::LW => "LW",
        InsnKind::LBU => "LBU",
        InsnKind::LHU => "LHU",
        InsnKind::SB => "SB",
        InsnKind::SH => "SH",
        InsnKind::SW => "SW",
        InsnKind::ECALL => "ECALL",
    };
    name.to_owned()
}

impl RInstructionConfig {
    pub open spec fn at(&self, base: int) -> bool {
        &&& self.pc.id == base
        &&& self.ts.id == base + 1
        &&& self.rs1_id.id == base + 2
        &&& self.rs2_id.id == base + 3
        &&& self.rd_id.id == base + 4
        &&& self.prev_rd.at(base + 5)
    }

    /// The row holds the machine state and registers of the step.
    pub open spec fn assigned(&self, row: Seq<Goldilocks>, step: StepRecord) -> bool {
        &&& col(row, self.pc) == step.pc
        &&& col(row, self.ts) == step.cycle as int % modulus()
        &&& col(row, self.rs1_id) == step.insn.rs1
        &&& col(row, self.rs2_id) == step.insn.rs2
        &&& col(row, self.rd_id) == step.insn.rd
        &&& self.prev_rd.holds_word(row, (step.rd->0).0)
    }

    /// The records that the circuit puts on the buses, by their values in a row.
    pub open spec fn bus(
        &self,
        kind: InsnKind,
        rs1: Seq<int>,
        rs2: Seq<int>,
        rd: Seq<int>,
        row: Seq<Goldilocks>,
    ) -> Seq<Seq<int>> {
        let (pc, ts) = (col(row, self.pc), col(row, self.ts));
        seq![
            seq![pc, ts],
            seq![f_add(pc, PC_STEP_SIZE as int), f_add(ts, CYCLES_PER_INSN as int)],
            seq![
                pc,
                kind_number(kind),
                col(row, self.rd_id),
                col(row, self.rs1_id),
                col(row, self.rs2_id),
                0int,
            ],
            seq![col(row, self.rs1_id)] + rs1,
            seq![col(row, self.rs2_id)] + rs2,
            seq![col(row, self.rd_id)] + self.prev_rd.lookups(row) + rd,
        ]
    }

    /// Builds the shared part for the given source and destination registers.
    pub fn construct_circuit(
        cb: &mut CircuitBuilder,
        kind: InsnKind,
        rs1_read: Vec<Expression>,
        rs2_read: Vec<Expression>,
        rd_written: Vec<Expression>,
    ) -> (r: RInstructionConfig)
        requires
            old(cb).wf(),
            old(cb).num_witin + 7 <= u16::MAX,
            rs1_read@.len() == 2,
            rs2_read@.len() == 2,
            rd_written@.len() == 2,
        ensures
            final(cb).wf(),
            r.at(old(cb).num_witin as int),
            final(cb).num_witin == old(cb).num_witin + 7,
            forall|row: Seq<Goldilocks>| #[trigger]
                final(cb).satisfied(row) == old(cb).satisfied(row),
            forall|row: Seq<Goldilocks>| #[trigger]
                final(cb).looked_up(row) == old(cb).looked_up(row),
            adds_records(old(cb).records@, final(cb).records@),
            forall|row: Seq<Goldilocks>, k: int|
                0 <= k < 6 ==> #[trigger] record_values(
                    final(cb).records@[old(cb).records@.len() + k],
                    row,
                ) == r.bus(
                    kind,
                    seq![value(rs1_read@[0], row), value(rs1_read@[1], row)],
                    seq![value(rs2_read@[0], row), value(rs2_read@[1], row)],
                    seq![value(rd_written@[0], row), value(rd_written@[1], row)],
                    row,
                )[k],
    {
        let pc = cb.create_witin();
        let ts = cb.create_witin();
        let rs1_id = cb.create_witin();
        let rs2_id = cb.create_witin();
        let rd_id = cb.create_witin();
        let prev_rd = UInt::new_unchecked(cb);
        let r = RInstructionConfig { pc, ts, rs1_id, rs2_id, rd_id, prev_rd };
        let ghost n = cb.records@.len() as int;
        let f0 = pair(witness(pc), witness(ts));
        let f1 = pair(
            plus(witness(pc), constant(PC_STEP_SIZE as u64)),
            plus(witness(ts), constant(CYCLES_PER_INSN)),
        );
        let mut f2 = pair(witness(pc), constant(kind_as_u64(kind)));
        f2.push(witness(rd_id));
        f2.push(witness(rs1_id));
        f2.push(witness(rs2_id));
        f2.push(constant(0));
        let mut f3: Vec<Expression> = Vec::new();
        f3.push(witness(rs1_id));
        f3.push(rs1_read[0].clone());
        f3.push(rs1_read[1].clone());
        let mut f4: Vec<Expression> = Vec::new();
        f4.push(witness(rs2_id));
        f4.push(rs2_read[0].clone());
        f4.push(rs2_read[1].clone());
        let mut f5: Vec<Expression> = Vec::new();
        f5.push(witness(rd_id));
        f5.push(witness(prev_rd.lo));
        f5.push(witness(prev_rd.hi));
        f5.push(rd_written[0].clone());
        f5.push(rd_written[1].clone());
        let ghost fields = seq![f0@, f1@, f2@, f3@, f4@, f5@];
        let ghost before = cb.records@;
        cb.add_record(RecordKind::StateIn, f0);
        cb.add_record(RecordKind::StateOut, f1);
        cb.add_record(RecordKind::Fetch, f2);
        cb.add_record(RecordKind::RegisterRead, f3);
        cb.add_record(RecordKind::RegisterRead, f4);
        cb.add_record(RecordKind::RegisterWrite, f5);
        proof {
            assert(cb.records@.take(n) =~= before);
            assert(adds_records(before, cb.records@));
            assert forall|row: Seq<Goldilocks>, k: int| 0 <= k < 6 implies #[trigger] record_values(
                cb.records@[n + k],
                row,
            ) == r.bus(
                kind,
                seq![value(rs1_read@[0], row), value(rs1_read@[1], row)],
                seq![value(rs2_read@[0], row), value(rs2_read@[1], row)],
                seq![value(rd_written@[0], row), value(rd_written@[1], row)],
                row,
            )[k] by {
                let want = r.bus(
                    kind,
                    seq![value(rs1_read@[0], row), value(rs1_read@[1], row)],
                    seq![value(rs2_read@[0], row), value(rs2_read@[1], row)],
                    seq![value(rd_written@[0], row), value(rd_written@[1], row)],
                    row,
                )[k];
                assert(cb.records@[n + k].fields@ == fields[k]);
                assert(record_values(cb.records@[n + k], row) =~= want);
            }
        }
        r
    }

    /// Assigns the machine state and registers of a step.
    pub fn assign_instance(&self, row: &mut Vec<Goldilocks>, step: &StepRecord)
        requires
            self.at(self.pc.id as int),
            self.pc.id + 7 <= old(row)@.len(),
            step.rd is Some,
        ensures
            final(row)@.len() == old(row)@.len(),
            self.assigned(final(row)@, *step),
            forall|i: int|
                0 <= i < final(row)@.len() && !(self.pc.id <= i < self.pc.id + 7)
                    ==> #[trigger] final(row)@[i] == old(row)@[i],
    {
        set_val(row, self.pc, step.pc as u64);
        row.set(self.ts.id as usize, Goldilocks { value: step.cycle });
        set_val(row, self.rs1_id, step.insn.rs1 as u64);
        set_val(row, self.rs2_id, step.insn.rs2 as u64);
        set_val(row, self.rd_id, step.insn.rd as u64);
        match step.rd {
            Some(change) => {
                self.prev_rd.assign(row, change.0);
            },
            None => {},
        }
    }
}

fn pair(a: Expression, b: Expression) -> (r: Vec<Expression>)
    ensures
        r@ == seq![a, b],
{
    let mut v: Vec<Expression> = Vec::new();
    v.push(a);
    v.push(b);
    assert(v@ =~= seq![a, b]);
    v
}

} // verus!
