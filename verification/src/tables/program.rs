//! The program table: a record for each instruction with the number of its executions.
use std::collections::HashMap;
use vstd::arithmetic::div_mod::*;
use vstd::prelude::*;
use vstd::std_specs::hash::*;

use crate::circuit::ZKVMError;
use crate::expression::convert::ToExpr;
use crate::expression::{Expression, Fixed, WitIn};
use crate::field::{gl, modulus, Goldilocks, MODULUS_U64};
use crate::instructions::riscv::{kind_as_u64, kind_number};
use crate::riscv::{InsnFormat, InsnKind, PC_STEP_SIZE, RD_NULL, WORD_SIZE};
use crate::tables::ops::multiplicity_matrix;
use crate::tables::{
    can_allocate, has_cells, row_with, set_row, zero_matrix, LookupTable, ROMType, SetTableSpec,
    TableBuilder,
};
use crate::util::{next_power_of_two, spec_next_power_of_two};
use crate::witness::{InstancePaddingStrategy, RowMajorMatrix};

verus! {

broadcast use group_hash_axioms;

/// What the program table holds of an instruction.
#[derive(Clone, Copy, Debug)]
pub struct DecodedInsn {
    pub kind: InsnKind,
    pub format: InsnFormat,
    /// The destination, or the number that stands for none
    pub rd_internal: u32,
    pub rs1_or_zero: u32,
    pub rs2_or_zero: u32,
    pub imm: i32,
}

/// A program.
#[derive(Clone, Debug)]
pub struct Program {
    pub base_address: u32,
    pub instructions: Vec<DecodedInsn>,
}

/// The fields of an instruction record in the order that the program table and the fetches of
/// circuits share: the address, the kind, the destination, the sources and the immediate.
#[derive(Clone, Debug)]
pub struct InsnRecord<T>(pub [T; 6]);

impl<T> InsnRecord<T> {
    /// The record with the given fields; without a destination it holds the number for none.
    pub fn new(pc: T, kind: T, rd: Option<T>, rs1: T, rs2: T, imm_internal: T) -> (r: Self) where
        T: From<u32>,

        ensures
            r.0@[0] == pc,
            r.0@[1] == kind,
            match rd {
                Some(rd) => r.0@[2] == rd,
                None => call_ensures(<T as From<u32>>::from, (RD_NULL,), r.0@[2]),
            },
            r.0@[3] == rs1,
            r.0@[4] == rs2,
            r.0@[5] == imm_internal,
    {
        let rd = match rd {
            Some(rd) => rd,
            None => T::from(RD_NULL),
        };
        InsnRecord([pc, kind, rd, rs1, rs2, imm_internal])
    }

    /// The fields.
    pub fn as_slice(&self) -> (r: &[T])
        ensures
            r@ == self.0@,
    {
        self.0.as_slice()
    }
}

/// The view of the immediate that is efficient for circuits: shifts hold the power of two, some
/// instructions the unsigned and the others the signed number.
pub open spec fn spec_imm_internal(insn: DecodedInsn) -> i64 {
    match insn.kind {
        InsnKind::SLLI | InsnKind::SRLI | InsnKind::SRAI => 1i64 << insn.imm,
        InsnKind::ADDI
        | InsnKind::SLTIU
        | InsnKind::ANDI
        | InsnKind::XORI
        | InsnKind::ORI => unsigned_imm(insn.imm),
        _ => if insn.format is R || insn.format is U {
            unsigned_imm(insn.imm)
        } else {
            insn.imm as i64
        },
    }
}

/// A number modulo `2^32`.
pub open spec fn unsigned_imm(imm: i32) -> i64 {
    if imm < 0 {
        (imm + 0x1_0000_0000) as i64
    } else {
        imm as i64
    }
}

/// Shifts are by an amount that a machine word has.
pub open spec fn shift_fits(insn: DecodedInsn) -> bool {
    (insn.kind is SLLI || insn.kind is SRLI || insn.kind is SRAI) ==> 0 <= insn.imm < 64
}

impl InsnRecord<()> {
    /// The internal view of the immediate in the program table.
    pub fn imm_internal(insn: &DecodedInsn) -> (r: i64)
        requires
            shift_fits(*insn),
        ensures
            r == spec_imm_internal(*insn),
    {
        match insn.kind {
            InsnKind::SLLI | InsnKind::SRLI | InsnKind::SRAI => 1i64 << insn.imm,
            InsnKind::ADDI
            | InsnKind::SLTIU
            | InsnKind::ANDI
            | InsnKind::XORI
            | InsnKind::ORI => as_unsigned(insn.imm),
            _ => match insn.format {
                InsnFormat::R | InsnFormat::U => as_unsigned(insn.imm),
                _ => insn.imm as i64,
            },
        }
    }
}

fn as_unsigned(imm: i32) -> (r: i64)
    ensures
        r == unsigned_imm(imm),
{
    if imm < 0 {
        imm as i64 + 0x1_0000_0000
    } else {
        imm as i64
    }
}

/// The element of the base field with the given number.
pub fn i64_to_base(x: i64) -> (r: Goldilocks)
    ensures
        r == gl(x as int),
{
    let wide: i128 = if x < 0 {
        x as i128 + MODULUS_U64 as i128
    } else {
        x as i128
    };
    proof {
        if x < 0 {
            lemma_mod_add_multiples_vanish(x as int, modulus());
            lemma_small_mod((x + modulus()) as nat, modulus() as nat);
        } else {
            lemma_small_mod(x as nat, modulus() as nat);
        }
    }
    Goldilocks { value: wide as u64 }
}

/// The fields of an instruction as representatives.
pub open spec fn decoded_fields(pc: u32, insn: DecodedInsn) -> Seq<u64> {
    seq![
        pc as u64,
        kind_number(insn.kind) as u64,
        insn.rd_internal as u64,
        insn.rs1_or_zero as u64,
        insn.rs2_or_zero as u64,
        gl(spec_imm_internal(insn) as int).value,
    ]
}

impl InsnRecord<Goldilocks> {
    /// The record of an instruction at an address.
    pub fn from_decoded(pc: u32, insn: &DecodedInsn) -> (r: Self)
        requires
            shift_fits(*insn),
        ensures
            r.0@.map_values(|x: Goldilocks| x.value) == decoded_fields(pc, *insn),
    {
        let fields = [
            Goldilocks { value: pc as u64 },
            Goldilocks { value: kind_as_u64(insn.kind) },
            Goldilocks { value: insn.rd_internal as u64 },
            Goldilocks { value: insn.rs1_or_zero as u64 },
            Goldilocks { value: insn.rs2_or_zero as u64 },
            i64_to_base(InsnRecord::imm_internal(insn)),
        ];
        assert(fields@.map_values(|x: Goldilocks| x.value) =~= decoded_fields(pc, *insn));
        InsnRecord(fields)
    }
}

/// Where the program table has its columns.
#[derive(Clone, Debug)]
pub struct ProgramTableConfig {
    /// The fixed table of instruction records
    pub record: InsnRecord<Fixed>,
    /// How many times an instruction is executed
    pub mlt: WitIn,
    pub program_size: usize,
}

impl ProgramTableConfig {
    /// The columns of the record.
    pub open spec fn columns(&self) -> Seq<usize> {
        self.record.0@.map_values(|f: Fixed| f.0)
    }
}

/// The circuit of the program table.
pub struct ProgramTableCircuit;

/// The program table.
pub open spec fn is_program_table(table: LookupTable, config: ProgramTableConfig) -> bool {
    &&& table.name@ == "prog table"@
    &&& table.rom_type is Instruction
    &&& table.spec.len == Some(spec_next_power_of_two(config.program_size as nat) as usize)
    &&& table.spec.structural_witins@.len() == 0
    &&& table.record@ == config.columns().map_values(|c: usize| Expression::Fixed(Fixed(c)))
    &&& table.multiplicity == Expression::WitIn(config.mlt.id)
}

/// The multiplicity of an instruction is that of an address in it that is counted, or zero if none
/// is.
pub open spec fn is_count(multiplicity: Map<u64, usize>, pc: int, count: u64) -> bool {
    ||| count == 0 && forall|k: int|
        0 <= k < WORD_SIZE ==> !(#[trigger] multiplicity.contains_key((pc + k) as u64))
    ||| exists|k: int|
        0 <= k < WORD_SIZE && #[trigger] multiplicity.contains_key((pc + k) as u64) && count
            == multiplicity[(pc + k) as u64]
}

/// The matrix holds the given multiplicities, which are those of the instructions.
pub open spec fn has_counts(
    m: RowMajorMatrix,
    config: ProgramTableConfig,
    width: int,
    multiplicity: Map<u64, usize>,
    program: Program,
    counts: Seq<u64>,
) -> bool {
    &&& counts.len() == program.instructions@.len()
    &&& forall|i: int|
        0 <= i < counts.len() ==> is_count(
            multiplicity,
            program.base_address + WORD_SIZE * i,
            #[trigger] counts[i],
        )
    &&& has_cells(
        m,
        config.program_size as int,
        width,
        |r: int, c: int|
            if r < counts.len() && c == config.mlt.id {
                counts[r]
            } else {
                0u64
            },
    )
}

fn count_at(multiplicity: &HashMap<u64, usize>, pc: u64) -> (r: u64)
    requires
        pc + WORD_SIZE <= u64::MAX,
    ensures
        is_count(multiplicity@, pc as int, r),
{
    let mut k: usize = 0;
    while k < WORD_SIZE
        invariant
            k <= WORD_SIZE,
            pc + WORD_SIZE <= u64::MAX,
            forall|j: int| 0 <= j < k ==> !(#[trigger] multiplicity@.contains_key((pc + j) as u64)),
        decreases WORD_SIZE - k,
    {
        let key: u64 = pc + k as u64;
        match multiplicity.get(&key) {
            Some(count) => {
                assert(multiplicity@.contains_key((pc + k) as u64));
                return *count as u64;
            },
            None => {},
        }
        k = k + 1;
    }
    0
}

/// The matrix holds the records of a program; the rows after them are zero.
pub open spec fn is_program_matrix(
    m: RowMajorMatrix,
    config: ProgramTableConfig,
    width: int,
    program: Program,
) -> bool {
    has_cells(
        m,
        config.program_size as int,
        width,
        |r: int, c: int|
            if r < program.instructions@.len() {
                row_with(
                    config.columns(),
                    decoded_fields(
                        (program.base_address + PC_STEP_SIZE * r) as u32,
                        program.instructions@[r],
                    ),
                    6,
                    c,
                )
            } else {
                0u64
            },
    )
}

impl ProgramTableCircuit {
    pub fn name() -> (r: String)
        ensures
            r@ == "PROGRAM"@,
    {
        "PROGRAM".to_owned()
    }

    /// Six fixed columns with the records, and their multiplicities.
    pub fn construct_circuit(cb: &mut TableBuilder) -> (r: Result<ProgramTableConfig, ZKVMError>)
        requires
            old(cb).num_fixed + 6 <= usize::MAX,
            old(cb).num_witin < u16::MAX,
            spec_next_power_of_two(old(cb).program_size as nat) <= usize::MAX,
        ensures
            r is Ok,
            ({
                let config = r->Ok_0;
                let n = old(cb).num_fixed;
                &&& config.columns() == Seq::new(6, |i: int| (n + i) as usize)
                &&& config.mlt.id == old(cb).num_witin
                &&& config.program_size == old(cb).program_size
                &&& *final(cb) == (TableBuilder {
                    num_fixed: (n + 6) as usize,
                    num_witin: (old(cb).num_witin + 1) as u16,
                    lk_tables: final(cb).lk_tables,
                    ..*old(cb)
                })
                &&& final(cb).lk_tables@.len() == old(cb).lk_tables@.len() + 1
                &&& final(cb).lk_tables@.drop_last() == old(cb).lk_tables@
                &&& is_program_table(final(cb).lk_tables@.last(), config)
            }),
    {
        let pc = cb.create_fixed();
        let kind = cb.create_fixed();
        let rd = cb.create_fixed();
        let rs1 = cb.create_fixed();
        let rs2 = cb.create_fixed();
        let imm_internal = cb.create_fixed();
        let mlt = cb.create_witin();
        let program_size: usize = cb.program_size;
        let record = vec![
            Expression::Fixed(pc),
            Expression::Fixed(kind),
            Expression::Fixed(rd),
            Expression::Fixed(rs1),
            Expression::Fixed(rs2),
            Expression::Fixed(imm_internal),
        ];
        let table = LookupTable {
            name: "prog table",
            spec: SetTableSpec {
                len: Some(next_power_of_two(program_size)),
                structural_witins: Vec::new(),
            },
            rom_type: ROMType::Instruction,
            record,
            multiplicity: mlt.expr(),
        };
        let ghost before = cb.lk_tables@;
        cb.lk_tables.push(table);
        let config = ProgramTableConfig {
            record: InsnRecord([pc, kind, rd, rs1, rs2, imm_internal]),
            mlt,
            program_size,
        };
        proof {
            assert(cb.lk_tables@.drop_last() =~= before);
            assert(config.columns() =~= Seq::new(6, |i: int| (old(cb).num_fixed + i) as usize));
            assert(table.record@ =~= config.columns().map_values(
                |c: usize| Expression::Fixed(Fixed(c)),
            ));
        }
        Ok(config)
    }

    /// The fixed table of the records of a program; the rows after them are zero.
    pub fn generate_fixed_traces(
        config: &ProgramTableConfig,
        num_fixed: usize,
        program: &Program,
    ) -> (m: RowMajorMatrix)
        requires
            program.instructions@.len() <= config.program_size,
            num_fixed > 0,
            can_allocate(config.program_size as int, num_fixed as int),
            program.instructions@.len() > 0 ==> program.base_address + PC_STEP_SIZE * (
            program.instructions@.len() - 1) <= u32::MAX,
            forall|k: int| 0 <= k < 6 ==> (#[trigger] config.columns()[k]) < num_fixed,
            forall|i: int|
                0 <= i < program.instructions@.len() ==> shift_fits(
                    #[trigger] program.instructions@[i],
                ),
        ensures
            is_program_matrix(m, *config, num_fixed as int, *program),
            m.is_padded,
    {
        let n: usize = program.instructions.len();
        let mut m = zero_matrix(config.program_size, num_fixed, InstancePaddingStrategy::Default);
        let record = &config.record.0;
        let cols: Vec<usize> = vec![
            record[0].0,
            record[1].0,
            record[2].0,
            record[3].0,
            record[4].0,
            record[5].0,
        ];
        proof {
            assert(cols@ =~= config.columns());
            crate::witness::lemma_padding_is_pow2(config.program_size as nat);
        }
        let ghost h = m.height();
        let ghost fields = |r: int|
            decoded_fields(
                (program.base_address + PC_STEP_SIZE * r) as u32,
                program.instructions@[r],
            );
        let mut i: usize = 0;
        while i < n
            invariant
                i <= n <= h,
                n == program.instructions@.len(),
                n > 0 ==> program.base_address + PC_STEP_SIZE * (n - 1) <= u32::MAX,
                cols@ == config.columns(),
                cols@.len() == 6,
                forall|k: int| 0 <= k < 6 ==> (#[trigger] cols@[k]) < num_fixed,
                forall|i: int|
                    0 <= i < program.instructions@.len() ==> shift_fits(
                        #[trigger] program.instructions@[i],
                    ),
                fields == |r: int|
                    decoded_fields(
                        (program.base_address + PC_STEP_SIZE * r) as u32,
                        program.instructions@[r],
                    ),
                m.wf(),
                m.height() == h,
                m.width() == num_fixed,
                m.num_rows == config.program_size,
                m.is_padded,
                forall|r: int, c: int|
                    0 <= r < h && 0 <= c < num_fixed ==> (#[trigger] m.at(r, c)).value == if r < i {
                        row_with(config.columns(), fields(r), 6, c)
                    } else {
                        0u64
                    },
            decreases n - i,
        {
            let pc: u32 = program.base_address + (i * PC_STEP_SIZE) as u32;
            assert(shift_fits(program.instructions@[i as int]));
            let values = InsnRecord::from_decoded(pc, &program.instructions[i]);
            let v = &values.0;
            let representatives: Vec<u64> = vec![
                v[0].value,
                v[1].value,
                v[2].value,
                v[3].value,
                v[4].value,
                v[5].value,
            ];
            assert(representatives@ =~= v@.map_values(|x: Goldilocks| x.value));
            assert(representatives@ == fields(i as int));
            set_row(&mut m, i, &cols, &representatives);
            i = i + 1;
        }
        m
    }

    /// The multiplicities of the instructions, and no structural columns. `multiplicity` counts the
    /// executions by address.
    pub fn assign_instances(
        config: &ProgramTableConfig,
        num_witin: usize,
        num_structural_witin: usize,
        multiplicity: &HashMap<u64, usize>,
        program: &Program,
    ) -> (r: Result<[RowMajorMatrix; 2], ZKVMError>)
        requires
            num_witin + num_structural_witin <= usize::MAX,
            config.mlt.id < num_witin + num_structural_witin,
            can_allocate(config.program_size as int, num_witin + num_structural_witin),
            program.instructions@.len() <= config.program_size,
            program.base_address + WORD_SIZE * program.instructions@.len() <= usize::MAX,
            forall|pc: u64| #[trigger]
                multiplicity@.contains_key(pc) ==> program.base_address <= pc
                    < program.base_address + WORD_SIZE * program.instructions@.len(),
        ensures
            r is Ok,
            exists|counts: Seq<u64>| #[trigger]
                has_counts(
                    r->Ok_0@[0],
                    *config,
                    num_witin + num_structural_witin,
                    multiplicity@,
                    *program,
                    counts,
                ),
            r->Ok_0@[0].is_padded,
            r->Ok_0@[1].cells() == Seq::<u64>::empty(),
            r->Ok_0@[1].num_rows == 0,
    {
        let n: usize = program.instructions.len();
        let mut counts: Vec<u64> = Vec::with_capacity(n);
        let mut i: usize = 0;
        while i < n
            invariant
                i <= n,
                n == program.instructions@.len(),
                program.base_address + WORD_SIZE * n <= usize::MAX,
                counts@.len() == i,
                forall|k: int|
                    0 <= k < i ==> is_count(
                        multiplicity@,
                        program.base_address + WORD_SIZE * k,
                        #[trigger] counts@[k],
                    ),
            decreases n - i,
        {
            let pc: u64 = program.base_address as u64 + (i * WORD_SIZE) as u64;
            counts.push(count_at(multiplicity, pc));
            i = i + 1;
        }
        let witness = multiplicity_matrix(
            &counts,
            config.mlt,
            num_witin + num_structural_witin,
            config.program_size,
        );
        assert(has_counts(
            witness,
            *config,
            num_witin + num_structural_witin,
            multiplicity@,
            *program,
            counts@,
        ));
        Ok([witness, RowMajorMatrix::empty()])
    }
}

} // verus!
