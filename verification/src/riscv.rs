//! Instructions of the RISC-V machine and records of their execution.
use vstd::prelude::*;

verus! {

/// The size of a machine word in bytes.
pub const WORD_SIZE: usize = 4;

/// The distance between instructions.
pub const PC_STEP_SIZE: usize = 4;

/// The number of cycles that one instruction takes.
pub const CYCLES_PER_INSN: u64 = 4;

/// The register number that stands for no destination.
pub const RD_NULL: u32 = 32;

/// The kinds of instructions.
#[derive(Clone, Copy, Debug, PartialEq, Eq, Structural)]
pub enum InsnKind {
    INVALID,
    ADD,
    SUB,
    XOR,
    OR,
    AND,
    SLL,
    SRL,
    SRA,
    SLT,
    SLTU,
    ADDI,
    XORI,
    ORI,
    ANDI,
    SLLI,
    SRLI,
    SRAI,
    SLTI,
    SLTIU,
    BEQ,
    BNE,
    BLT,
    BGE,
    BLTU,
    BGEU,
    JAL,
    JALR,
    LUI,
    AUIPC,
    MUL,
    MULH,
    MULHSU,
    MULHU,
    DIV,
    DIVU,
    REM,
    REMU,
    LB,
    LH,
    LW,
    LBU,
    LHU,
    SB,
    SH,
    SW,
    ECALL,
}

/// The formats of instructions.
#[derive(Clone, Copy, Debug, PartialEq, Eq, Structural)]
pub enum InsnFormat {
    R,
    I,
    S,
    B,
    U,
    J,
}

/// A decoded instruction.
#[derive(Clone, Copy, Debug)]
pub struct Instruction {
    pub kind: InsnKind,
    pub rs1: u32,
    pub rs2: u32,
    pub rd: u32,
    pub imm: i32,
}

/// One executed step.
#[derive(Clone, Copy, Debug)]
pub struct StepRecord {
    pub cycle: u64,
    pub pc: u32,
    pub insn: Instruction,
    pub rs1: Option<u32>,
    pub rs2: Option<u32>,
    /// The value of the destination before and after the step
    pub rd: Option<(u32, u32)>,
}

impl StepRecord {
    /// The step of an instruction that reads two registers and writes one.
    pub fn new_r_instruction(
        cycle: u64,
        pc: u32,
        insn: Instruction,
        rs1_read: u32,
        rs2_read: u32,
        rd: (u32, u32),
    ) -> (r: StepRecord)
        ensures
            r.cycle == cycle,
            r.pc == pc,
            r.insn == insn,
            r.rs1 == Some(rs1_read),
            r.rs2 == Some(rs2_read),
            r.rd == Some(rd),
    {
        StepRecord { cycle, pc, insn, rs1: Some(rs1_read), rs2: Some(rs2_read), rd: Some(rd) }
    }
}

} // verus!
