//! What the rows of tables record: the fields of the records, read off the matrices.
use vstd::arithmetic::div_mod::*;
use vstd::arithmetic::power2::*;
use vstd::bits::*;
use vstd::prelude::*;

use crate::expression::convert::ToExpr;
use crate::expression::{
    base_const, Env, Expression, Fixed, Instance, StructuralWitIn, WitIn,
};
use crate::field::{e_base, group_field, modulus, Ext, GoldilocksExt2};
use crate::instructions::riscv::{kind_number, spec_kind_name};
use crate::riscv::{InsnKind, CYCLES_PER_INSN, PC_STEP_SIZE, RD_NULL, WORD_SIZE};
use crate::tables::ops::{
    is_multiplicity_matrix, is_op_matrix, is_op_table, multiplicity_of, OpTableConfig,
};
use crate::tables::program::{
    decoded_fields, has_counts, is_count, is_program_matrix, is_program_table, shift_fits,
    spec_imm_internal, DecodedInsn, Program, ProgramTableConfig,
};
use crate::tables::ram::{
    fixed_exprs, limbs, memory_record, witin_exprs, zeros, DynVolatileRamTableConfig,
    MemFinalRecord, MemInitRecord, NonVolatileTableConfig, PubIOTableConfig,
};
use crate::tables::range::{is_range_matrix, is_range_table, RangeTableConfig};
use crate::tables::{row_with, LookupTable, RAMType, ROMType, TableBuilder};
use crate::util::{is_pow2, lemma_next_power_of_two, spec_next_power_of_two};
use crate::witness::RowMajorMatrix;

verus! {

broadcast use group_field;

/// A number as an element of the extension field.
pub open spec fn element(x: int) -> Ext {
    e_base(x % modulus())
}

/// The columns have the values of a row of the matrix.
pub open spec fn hold_row(cols: Seq<GoldilocksExt2>, m: RowMajorMatrix, r: int) -> bool {
    forall|c: int|
        0 <= c < m.width() ==> (#[trigger] cols[c])@ == element(m.at(r, c).value as int)
}

/// The columns are different.
pub open spec fn are_distinct(cols: Seq<usize>) -> bool {
    forall|i: int, j: int| 0 <= i < j < cols.len() ==> cols[i] != cols[j]
}

/// Different columns hold their values, and all other columns zero.
pub proof fn lemma_row_with(cols: Seq<usize>, values: Seq<u64>, n: int)
    requires
        0 <= n <= cols.len(),
        are_distinct(cols),
    ensures
        forall|k: int|
            0 <= k < n ==> row_with(cols, values, n, #[trigger] cols[k] as int) == values[k],
        forall|c: int|
            (forall|k: int| 0 <= k < n ==> cols[k] != c) ==> #[trigger] row_with(
                cols,
                values,
                n,
                c,
            ) == 0,
    decreases n,
{
    if n > 0 {
        lemma_row_with(cols, values, n - 1);
        assert forall|k: int| 0 <= k < n implies row_with(cols, values, n, #[trigger] cols[k] as int)
            == values[k] by {
            if k < n - 1 {
                assert(cols[k] != cols[n - 1]);
            }
        }
        assert forall|c: int|
            (forall|k: int| 0 <= k < n ==> cols[k] != c) implies #[trigger] row_with(
            cols,
            values,
            n,
            c,
        ) == 0 by {
            assert(cols[n - 1] != c);
            assert(row_with(cols, values, n - 1, c) == 0);
        }
    }
}

/// All kinds of instructions, in their order.
pub open spec fn kinds_in_order() -> Seq<InsnKind> {
    seq![
        InsnKind::INVALID,
        InsnKind::ADD,
        InsnKind::SUB,
        InsnKind::XOR,
        InsnKind::OR,
        InsnKind::AND,
        InsnKind::SLL,
        InsnKind::SRL,
        InsnKind::SRA,
        InsnKind::SLT,
        InsnKind::SLTU,
        InsnKind::ADDI,
        InsnKind::XORI,
        InsnKind::ORI,
        InsnKind::ANDI,
        InsnKind::SLLI,
        InsnKind::SRLI,
        InsnKind::SRAI,
        InsnKind::SLTI,
        InsnKind::SLTIU,
        InsnKind::BEQ,
        InsnKind::BNE,
        InsnKind::BLT,
        InsnKind::BGE,
        InsnKind::BLTU,
        InsnKind::BGEU,
        InsnKind::JAL,
        InsnKind::JALR,
        InsnKind::LUI,
        InsnKind::AUIPC,
        InsnKind::MUL,
        InsnKind::MULH,
        InsnKind::MULHSU,
        InsnKind::MULHU,
        InsnKind::DIV,
        InsnKind::DIVU,
        InsnKind::REM,
        InsnKind::REMU,
        InsnKind::LB,
        InsnKind::LH,
        InsnKind::LW,
        InsnKind::LBU,
        InsnKind::LHU,
        InsnKind::SB,
        InsnKind::SH,
        InsnKind::SW,
        InsnKind::ECALL,
    ]
}

/// The number of a kind is its position, so that different kinds have different numbers.
pub proof fn lemma_kind_numbers(kind: InsnKind)
    ensures
        0 <= kind_number(kind) < kinds_in_order().len(),
        kinds_in_order()[kind_number(kind)] == kind,
        kinds_in_order().len() == 47,
        forall|other: InsnKind| #[trigger] kind_number(other) == kind_number(kind) ==> other == kind,
{
    assert forall|other: InsnKind| #[trigger] kind_number(other) == kind_number(
        kind,
    ) implies other == kind by {
        assert(kinds_in_order()[kind_number(other)] == other);
    }
}

/// The internal immediate: shifts hold the power of two, immediates that are used as words their
/// residue modulo `2^32`, and all others are kept.
pub proof fn lemma_imm_internal(insn: DecodedInsn)
    requires
        shift_fits(insn),
    ensures
        insn.kind == InsnKind::SLLI && insn.imm < 63 ==> spec_imm_internal(insn) == pow2(
            insn.imm as nat,
        ),
        insn.kind == InsnKind::SRLI && insn.imm < 63 ==> spec_imm_internal(insn) == pow2(
            insn.imm as nat,
        ),
        insn.kind == InsnKind::SRAI && insn.imm < 63 ==> spec_imm_internal(insn) == pow2(
            insn.imm as nat,
        ),
        insn.kind == InsnKind::ADDI ==> spec_imm_internal(insn) == insn.imm as int
            % 0x1_0000_0000,
        insn.kind == InsnKind::SLTIU ==> spec_imm_internal(insn) == insn.imm as int
            % 0x1_0000_0000,
        insn.kind == InsnKind::ANDI ==> spec_imm_internal(insn) == insn.imm as int
            % 0x1_0000_0000,
        insn.kind == InsnKind::XORI ==> spec_imm_internal(insn) == insn.imm as int
            % 0x1_0000_0000,
        insn.kind == InsnKind::ORI ==> spec_imm_internal(insn) == insn.imm as int % 0x1_0000_0000,
        (insn.format is R || insn.format is U) && insn.kind != InsnKind::SLLI && insn.kind
            != InsnKind::SRLI && insn.kind != InsnKind::SRAI ==> spec_imm_internal(insn)
            == insn.imm as int % 0x1_0000_0000,
        !(insn.format is R) && !(insn.format is U) && insn.kind != InsnKind::SLLI && insn.kind
            != InsnKind::SRLI && insn.kind != InsnKind::SRAI && insn.kind != InsnKind::ADDI
            && insn.kind != InsnKind::SLTIU && insn.kind != InsnKind::ANDI && insn.kind
            != InsnKind::XORI && insn.kind != InsnKind::ORI ==> spec_imm_internal(insn)
            == insn.imm,
        (insn.kind is SLLI || insn.kind is SRLI || insn.kind is SRAI) && insn.imm == 63
            ==> spec_imm_internal(insn) == -0x8000_0000_0000_0000,
{
    if (insn.kind is SLLI || insn.kind is SRLI || insn.kind is SRAI) && insn.imm == 63 {
        assert((1i64 << 63u64) as int == -0x8000_0000_0000_0000) by (bit_vector);
    }
    if (insn.kind is SLLI || insn.kind is SRLI || insn.kind is SRAI) && insn.imm < 63 {
        let k = insn.imm as u64;
        lemma_pow2_strictly_increases(k as nat, 63);
        lemma2_to64_rest();
        lemma_u64_shl_is_mul(1, k);
        assert((1i64 << k) as int == (1u64 << k) as int) by (bit_vector)
            requires
                k < 63,
        ;
    }
}

/// A row of the program table records an instruction: its address, its kind, its registers and its
/// internal immediate, in this order.
pub proof fn lemma_program_record(
    table: LookupTable,
    config: ProgramTableConfig,
    m: RowMajorMatrix,
    width: int,
    program: Program,
    r: int,
    env: Env,
)
    requires
        is_program_table(table, config),
        are_distinct(config.columns()),
        forall|k: int| 0 <= k < 6 ==> (#[trigger] config.columns()[k]) < width,
        is_program_matrix(m, config, width, program),
        0 <= r < program.instructions@.len(),
        program.base_address + 4 * r <= u32::MAX,
        r < m.height(),
        hold_row(env.fixed, m, r),
    ensures
        table.rom_type is Instruction,
        table.spec.structural_witins@.len() == 0,
        table.record@.len() == 6,
        ({
            let insn = program.instructions@[r];
            &&& table.record@[0].eval(env) == element(program.base_address + 4 * r)
            &&& table.record@[1].eval(env) == element(kind_number(insn.kind))
            &&& table.record@[2].eval(env) == element(insn.rd_internal as int)
            &&& table.record@[3].eval(env) == element(insn.rs1_or_zero as int)
            &&& table.record@[4].eval(env) == element(insn.rs2_or_zero as int)
            &&& table.record@[5].eval(env) == element(spec_imm_internal(insn) as int)
        }),
{
    let cols = config.columns();
    let insn = program.instructions@[r];
    let fields = decoded_fields((program.base_address + PC_STEP_SIZE * r) as u32, insn);
    lemma_row_with(cols, fields, 6);
    lemma_kind_numbers(insn.kind);
    lemma_mod_twice(spec_imm_internal(insn) as int, modulus());
    assert forall|k: int| 0 <= k < 6 implies (#[trigger] table.record@[k]).eval(env) == element(
        fields[k] as int,
    ) by {
        assert(cols[k] < width);
        assert(m.at(r, cols[k] as int).value == fields[k]);
        assert(table.record@[k] == Expression::Fixed(Fixed(cols[k])));
        assert(env.fixed[cols[k] as int]@ == element(m.at(r, cols[k] as int).value as int));
    }
    assert(table.record@[0].eval(env) == element(fields[0] as int));
    assert(table.record@[5].eval(env) == element(fields[5] as int));
}

/// The multiplicity of a row of the program table is the count of the one address of its
/// instruction that is counted.
pub proof fn lemma_program_multiplicity(
    table: LookupTable,
    config: ProgramTableConfig,
    m: RowMajorMatrix,
    width: int,
    multiplicity: Map<u64, usize>,
    program: Program,
    counts: Seq<u64>,
    r: int,
    k: int,
    env: Env,
)
    requires
        is_program_table(table, config),
        has_counts(m, config, width, multiplicity, program, counts),
        config.mlt.id < width,
        0 <= r < program.instructions@.len(),
        r < m.height(),
        hold_row(env.wit, m, r),
        0 <= k < 4,
        multiplicity.contains_key((program.base_address + 4 * r + k) as u64),
        forall|j: int|
            0 <= j < 4 && j != k ==> !(#[trigger] multiplicity.contains_key(
                (program.base_address + 4 * r + j) as u64,
            )),
    ensures
        table.multiplicity.eval(env) == element(
            multiplicity[(program.base_address + 4 * r + k) as u64] as int,
        ),
{
    assert(is_count(multiplicity, program.base_address + 4 * r, counts[r]));
    assert(m.at(r, config.mlt.id as int).value == counts[r]);
    assert(env.wit[config.mlt.id as int]@ == element(
        m.at(r, config.mlt.id as int).value as int,
    ));
}

/// A row of the table of an operation records its operands and its result, and how often they are
/// looked up.
pub proof fn lemma_op_record(
    table: LookupTable,
    config: OpTableConfig,
    rom_type: ROMType,
    table_len: usize,
    fixed: RowMajorMatrix,
    num_fixed: int,
    content: Seq<[u64; 3]>,
    wit: RowMajorMatrix,
    num_witin: int,
    multiplicity: Map<u64, usize>,
    length: int,
    r: int,
    env: Env,
)
    requires
        is_op_table(table, config, rom_type, table_len),
        are_distinct(config.columns()),
        forall|k: int| 0 <= k < 3 ==> (#[trigger] config.columns()[k]) < num_fixed,
        config.mlt.id < num_witin,
        is_op_matrix(fixed, config, num_fixed, content),
        is_multiplicity_matrix(wit, config.mlt, num_witin, multiplicity, length, length),
        0 <= r < content.len(),
        r < length,
        r < fixed.height(),
        r < wit.height(),
        r <= u64::MAX,
        hold_row(env.fixed, fixed, r),
        hold_row(env.wit, wit, r),
    ensures
        table.rom_type == rom_type,
        table.spec.len == Some(table_len),
        table.spec.structural_witins@.len() == 0,
        table.record@.len() == 3,
        table.record@[0].eval(env) == element(content[r]@[0] as int),
        table.record@[1].eval(env) == element(content[r]@[1] as int),
        table.record@[2].eval(env) == element(content[r]@[2] as int),
        multiplicity.contains_key(r as u64) ==> table.multiplicity.eval(env) == element(
            multiplicity[r as u64] as int,
        ),
        !multiplicity.contains_key(r as u64) ==> table.multiplicity.eval(env) == element(0),
{
    let cols = config.columns();
    lemma_row_with(cols, content[r]@, 3);
    assert forall|k: int| 0 <= k < 3 implies (#[trigger] table.record@[k]).eval(env) == element(
        content[r]@[k] as int,
    ) by {
        assert(cols[k] < num_fixed);
        assert(fixed.at(r, cols[k] as int).value == content[r]@[k]);
        assert(table.record@[k] == Expression::Fixed(Fixed(cols[k])));
        assert(env.fixed[cols[k] as int]@ == element(fixed.at(r, cols[k] as int).value as int));
    }
    assert(table.record@[0].eval(env) == element(content[r]@[0] as int));
    let mlt = config.mlt.id as int;
    assert(wit.at(r, mlt).value == multiplicity_of(multiplicity, r));
    assert(env.wit[mlt]@ == element(wit.at(r, mlt).value as int));
}

/// A row of the table of a range records its number, and how often it is looked up.
pub proof fn lemma_range_record(
    table: LookupTable,
    config: RangeTableConfig,
    rom_type: ROMType,
    table_len: usize,
    wit: RowMajorMatrix,
    structural: RowMajorMatrix,
    num_witin: int,
    num_structural_witin: int,
    multiplicity: Map<u64, usize>,
    content: Seq<u64>,
    length: int,
    r: int,
    env: Env,
)
    requires
        is_range_table(table, config, rom_type, table_len),
        config.mlt.id < num_witin,
        config.range.id < num_structural_witin,
        is_multiplicity_matrix(
            wit,
            config.mlt,
            num_witin,
            multiplicity,
            length,
            content.len() as int,
        ),
        is_range_matrix(structural, config, num_structural_witin, content, length),
        0 <= r < content.len(),
        r < length,
        r < wit.height(),
        r < structural.height(),
        r <= u64::MAX,
        hold_row(env.wit, wit, r),
        hold_row(env.structural, structural, r),
    ensures
        table.rom_type == rom_type,
        table.spec.len == Some(table_len),
        table.spec.structural_witins@ == seq![config.range],
        table.record@.len() == 1,
        table.record@[0].eval(env) == element(content[r] as int),
        multiplicity.contains_key(r as u64) ==> table.multiplicity.eval(env) == element(
            multiplicity[r as u64] as int,
        ),
        !multiplicity.contains_key(r as u64) ==> table.multiplicity.eval(env) == element(0),
{
    let (range, mlt) = (config.range.id as int, config.mlt.id as int);
    assert(structural.at(r, range).value == content[r]);
    assert(env.structural[range]@ == element(structural.at(r, range).value as int));
    assert(wit.at(r, mlt).value == multiplicity_of(multiplicity, r));
    assert(env.wit[mlt]@ == element(wit.at(r, mlt).value as int));
}

/// A record of a cell has a field for the memory, one for the address, one for each limb of the
/// value, and one for the cycle; records with other fields differ.
pub proof fn lemma_memory_record(
    ram_type: RAMType,
    addr: Expression,
    value: Seq<Expression>,
    cycle: Expression,
)
    ensures
        ({
            let record = memory_record(ram_type, addr, value, cycle);
            &&& record.len() == 3 + value.len()
            &&& record[1] == addr
            &&& forall|i: int| 0 <= i < value.len() ==> record[2 + i] == #[trigger] value[i]
            &&& record[2 + value.len() as int] == cycle
            &&& forall|env: Env| #[trigger]
                record[0].eval(env) == element(
                    match ram_type {
                        RAMType::GlobalState => 0int,
                        RAMType::Register => 1,
                        RAMType::Memory => 2,
                    },
                )
        }),
        forall|other_type: RAMType, other_addr: Expression, other: Seq<Expression>, at: Expression|
            other.len() == value.len() && #[trigger] memory_record(
                other_type,
                other_addr,
                other,
                at,
            ) == memory_record(ram_type, addr, value, cycle) ==> other_type == ram_type
                && other_addr == addr && other == value && at == cycle,
{
    let record = memory_record(ram_type, addr, value, cycle);
    assert forall|other_type: RAMType, other_addr: Expression, other: Seq<Expression>, at: Expression|
        other.len() == value.len() && #[trigger] memory_record(other_type, other_addr, other, at)
            == record implies other_type == ram_type && other_addr == addr && other == value && at
        == cycle by {
        let same = memory_record(other_type, other_addr, other, at);
        assert(same[0] == record[0]);
        assert(same[1] == record[1]);
        assert(same[2 + value.len() as int] == record[2 + value.len() as int]);
        assert forall|i: int| 0 <= i < other.len() implies other[i] == value[i] by {
            assert(same[2 + i] == record[2 + i]);
        }
        assert(other =~= value);
    }
}

/// The limbs of a value spell it: one limb is the value, two are its halves.
pub proof fn lemma_limbs(value: u32)
    ensures
        limbs(value, 1).len() == 1,
        limbs(value, 1)[0] == value,
        limbs(value, 2).len() == 2,
        limbs(value, 2)[0] < 0x1_0000,
        limbs(value, 2)[1] < 0x1_0000,
        limbs(value, 2)[0] + 0x1_0000 * limbs(value, 2)[1] == value,
{
}

/// The fields of a record from the one at `2` on are the limbs of a value.
pub open spec fn records_value(record: Seq<Expression>, n: int, value: u32, env: Env) -> bool {
    if n == 1 {
        record[2].eval(env) == element(value as int)
    } else {
        &&& record[2].eval(env) == element(value as int % 0x1_0000)
        &&& record[3].eval(env) == element(value as int / 0x1_0000)
    }
}

/// A table was added for the initial records, which are written, and one for the final records,
/// which are read, both for one memory, of one length and with the number of the memory in front;
/// the tables before them stay.
pub open spec fn adds_sides(
    after: TableBuilder,
    before: TableBuilder,
    ram_type: RAMType,
    len: Option<usize>,
    structural: Seq<StructuralWitIn>,
    env: Env,
) -> bool {
    let (init, last) = (after.w_tables@.last(), after.r_tables@.last());
    let number = match ram_type {
        RAMType::GlobalState => 0int,
        RAMType::Register => 1,
        RAMType::Memory => 2,
    };
    &&& after.w_tables@.len() == before.w_tables@.len() + 1
    &&& after.r_tables@.len() == before.r_tables@.len() + 1
    &&& after.w_tables@.drop_last() == before.w_tables@
    &&& after.r_tables@.drop_last() == before.r_tables@
    &&& init.name@ == "init_table"@
    &&& last.name@ == "final_table"@
    &&& init.ram_type == ram_type
    &&& last.ram_type == ram_type
    &&& init.spec.len == len
    &&& last.spec.len == len
    &&& init.spec.structural_witins@ == structural
    &&& last.spec.structural_witins@ == structural
    &&& init.record@[0].eval(env) == element(number)
    &&& last.record@[0].eval(env) == element(number)
}

/// A row of the tables of a memory with initial values records a cell: first with its initial value
/// and cycle zero, at last with its final value, or the initial one if it cannot be written, and
/// its last cycle, both times at its address.
pub proof fn lemma_nonvolatile_record(
    before: TableBuilder,
    after: TableBuilder,
    config: NonVolatileTableConfig,
    fixed: RowMajorMatrix,
    num_fixed: int,
    init_mem: Seq<MemInitRecord>,
    wit: RowMajorMatrix,
    num_witin: int,
    final_mem: Seq<MemFinalRecord>,
    r: int,
    env: Env,
)
    requires
        config.adds_tables(after, before),
        1 <= config.init_v@.len() <= 2,
        config.final_v matches Some(v) ==> v@.len() == config.init_v@.len(),
        are_distinct(config.init_columns()),
        are_distinct(config.final_columns()),
        forall|k: int|
            0 <= k < config.init_columns().len() ==> (#[trigger] config.init_columns()[k])
                < num_fixed,
        forall|k: int|
            0 <= k < config.final_columns().len() ==> (#[trigger] config.final_columns()[k])
                < num_witin,
        config.is_init_matrix(fixed, num_fixed, init_mem),
        config.is_final_matrix(wit, num_witin, final_mem),
        0 <= r < fixed.height(),
        r < wit.height(),
        hold_row(env.fixed, fixed, r),
        hold_row(env.wit, wit, r),
    ensures
        adds_sides(after, before, config.table.ram_type, Some(config.table.len), Seq::empty(), env),
        ({
            let n = config.init_v@.len() as int;
            let (first, last) = (after.w_tables@.last().record@, after.r_tables@.last().record@);
            &&& first.len() == 3 + n
            &&& first[1].eval(env) == element(init_mem[r].addr as int)
            &&& records_value(first, n, init_mem[r].value, env)
            &&& first[2 + n].eval(env) == element(0)
            &&& last.len() == 3 + n
            &&& last[1].eval(env) == element(init_mem[r].addr as int)
            &&& records_value(
                last,
                n,
                if config.final_v is Some {
                    final_mem[r].value
                } else {
                    init_mem[r].value
                },
                env,
            )
            &&& last[2 + n].eval(env) == element(final_mem[r].cycle as int)
        }),
{
    let n = config.init_v@.len() as int;
    let addr = Expression::Fixed(config.addr);
    let cycle = Expression::WitIn(config.final_cycle.id);
    lemma_memory_record(
        config.table.ram_type,
        addr,
        fixed_exprs(config.init_v@),
        base_const(0),
    );
    lemma_memory_record(config.table.ram_type, addr, config.final_value(), cycle);
    lemma_limbs(init_mem[r].value);
    lemma_limbs(final_mem[r].value);
    let cols = config.init_columns();
    let fields = limbs(init_mem[r].value, n).push(init_mem[r].addr as u64);
    lemma_row_with(cols, fields, n + 1);
    assert forall|k: int| 0 <= k <= n implies (#[trigger] env.fixed[cols[k] as int])@ == element(
        fields[k] as int,
    ) by {
        assert(cols[k] < num_fixed);
        assert(fixed.at(r, cols[k] as int).value == row_with(cols, fields, n + 1, cols[k] as int));
    }
    let (first, last) = (after.w_tables@.last().record@, after.r_tables@.last().record@);
    assert forall|k: int| 0 <= k < n implies (#[trigger] first[2 + k]).eval(env) == element(
        fields[k] as int,
    ) by {
        assert(first[2 + k] == fixed_exprs(config.init_v@)[k]);
        assert(cols[k] == config.init_v@[k].0);
        assert(env.fixed[cols[k] as int]@ == element(fields[k] as int));
    }
    assert(cols[n] == config.addr.0);
    assert(env.fixed[cols[n] as int]@ == element(fields[n] as int));
    assert(first[2 + 0int].eval(env) == element(fields[0] as int));
    if n == 2 {
        assert(first[2 + 1int].eval(env) == element(fields[1] as int));
    }
    let last_cols = config.final_columns();
    let last_fields = config.final_fields(final_mem[r]);
    let m = last_cols.len() as int;
    lemma_row_with(last_cols, last_fields, m);
    assert forall|k: int| 0 <= k < m implies (#[trigger] env.wit[last_cols[k] as int])@ == element(
        last_fields[k] as int,
    ) by {
        assert(last_cols[k] < num_witin);
        assert(wit.at(r, last_cols[k] as int).value == row_with(
            last_cols,
            last_fields,
            m,
            last_cols[k] as int,
        ));
    }
    assert(last_cols[m - 1] == config.final_cycle.id);
    assert(env.wit[last_cols[m - 1] as int]@ == element(last_fields[m - 1] as int));
    assert forall|k: int| 0 <= k < n implies (#[trigger] last[2 + k]).eval(env) == element(
        if config.final_v is Some {
            last_fields[k] as int
        } else {
            fields[k] as int
        },
    ) by {
        assert(last[2 + k] == config.final_value()[k]);
        if config.final_v is Some {
            assert(last_cols[k] == config.final_v->0@[k].id);
            assert(env.wit[last_cols[k] as int]@ == element(last_fields[k] as int));
        } else {
            assert(cols[k] == config.init_v@[k].0);
            assert(env.fixed[cols[k] as int]@ == element(fields[k] as int));
        }
    }
    assert(last[2 + 0int].eval(env) == element(
        if config.final_v is Some {
            last_fields[0] as int
        } else {
            fields[0] as int
        },
    ));
    if n == 2 {
        assert(last[2 + 1int].eval(env) == element(
            if config.final_v is Some {
                last_fields[1] as int
            } else {
                fields[1] as int
            },
        ));
    }
}

/// A row of the tables of the public inputs and outputs records a cell with the public value, first
/// with cycle zero and at last with its last cycle.
pub proof fn lemma_public_io_record(
    before: TableBuilder,
    after: TableBuilder,
    config: PubIOTableConfig,
    fixed: RowMajorMatrix,
    num_fixed: int,
    io_addrs: Seq<u32>,
    wit: RowMajorMatrix,
    num_witin: int,
    final_cycles: Seq<u64>,
    r: int,
    env: Env,
)
    requires
        config.adds_tables(after, before),
        config.addr.0 < num_fixed,
        config.final_cycle.id < num_witin,
        config.is_init_matrix(fixed, num_fixed, io_addrs),
        config.is_final_matrix(wit, num_witin, final_cycles),
        0 <= r < fixed.height(),
        r < wit.height(),
        hold_row(env.fixed, fixed, r),
        hold_row(env.wit, wit, r),
    ensures
        adds_sides(after, before, config.table.ram_type, Some(config.table.len), Seq::empty(), env),
        ({
            let (first, last) = (after.w_tables@.last().record@, after.r_tables@.last().record@);
            let public = env.instance[before.public_io.0 as int]@;
            &&& first.len() == 4
            &&& first[1].eval(env) == element(io_addrs[r] as int)
            &&& first[2].eval(env) == public
            &&& first[3].eval(env) == element(0)
            &&& last.len() == 4
            &&& last[1].eval(env) == element(io_addrs[r] as int)
            &&& last[2].eval(env) == public
            &&& last[3].eval(env) == element(final_cycles[r] as int)
        }),
{
    let value = seq![Expression::Instance(before.public_io)];
    let addr = Expression::Fixed(config.addr);
    let cycle = Expression::WitIn(config.final_cycle.id);
    lemma_memory_record(config.table.ram_type, addr, value, base_const(0));
    lemma_memory_record(config.table.ram_type, addr, value, cycle);
    let (a, c) = (config.addr.0 as int, config.final_cycle.id as int);
    assert(fixed.at(r, a).value == io_addrs[r]);
    assert(env.fixed[a]@ == element(fixed.at(r, a).value as int));
    assert(wit.at(r, c).value == final_cycles[r]);
    assert(env.wit[c]@ == element(wit.at(r, c).value as int));
    let (first, last) = (after.w_tables@.last().record@, after.r_tables@.last().record@);
    assert(first[2 + 0int] == value[0]);
    assert(last[2 + 0int] == value[0]);
}

/// A row of the tables of a memory without initial values records a cell: first with zero, or the
/// final value, and cycle zero, at last with its final value and its last cycle. The addresses go
/// up or down by a word from row to row, also in the padding.
pub proof fn lemma_volatile_record(
    before: TableBuilder,
    after: TableBuilder,
    config: DynVolatileRamTableConfig,
    wit: RowMajorMatrix,
    num_witin: int,
    final_mem: Seq<MemFinalRecord>,
    structural: RowMajorMatrix,
    num_structural_witin: int,
    r: int,
    env: Env,
)
    requires
        config.adds_tables(after, before),
        config.table.v_limbs == config.final_v@.len(),
        1 <= config.final_v@.len() <= 2,
        are_distinct(config.final_columns()),
        forall|k: int|
            0 <= k < config.final_columns().len() ==> (#[trigger] config.final_columns()[k])
                < num_witin,
        config.addr.id < num_structural_witin,
        config.is_final_matrix(wit, num_witin, final_mem),
        config.is_address_matrix(structural, num_structural_witin, final_mem.len() as int),
        0 <= r < wit.height(),
        r < structural.height(),
        config.table.descending ==> config.table.offset_addr >= 4 * r,
        !config.table.descending ==> config.table.offset_addr + 4 * r <= u32::MAX,
        hold_row(env.wit, wit, r),
        hold_row(env.structural, structural, r),
    ensures
        adds_sides(after, before, config.table.ram_type, None, seq![config.addr], env),
        ({
            let n = config.final_v@.len() as int;
            let (first, last) = (after.w_tables@.last().record@, after.r_tables@.last().record@);
            let addr = if config.table.descending {
                config.table.offset_addr - 4 * r
            } else {
                config.table.offset_addr + 4 * r
            };
            let value = if r < final_mem.len() {
                final_mem[r].value
            } else {
                0
            };
            &&& first.len() == 3 + n
            &&& first[1].eval(env) == element(addr)
            &&& records_value(
                first,
                n,
                if config.table.zero_init {
                    0
                } else {
                    value
                },
                env,
            )
            &&& first[2 + n].eval(env) == element(0)
            &&& last.len() == 3 + n
            &&& last[1].eval(env) == element(addr)
            &&& records_value(last, n, value, env)
            &&& last[2 + n].eval(env) == element(
                if r < final_mem.len() {
                    final_mem[r].cycle as int
                } else {
                    0
                },
            )
        }),
{
    let n = config.final_v@.len() as int;
    let addr = config.addr.spec_expr();
    let cycle = Expression::WitIn(config.final_cycle.id);
    let init = if config.table.zero_init {
        zeros(n as nat)
    } else {
        witin_exprs(config.final_v@)
    };
    lemma_memory_record(config.table.ram_type, addr, init, base_const(0));
    lemma_memory_record(config.table.ram_type, addr, witin_exprs(config.final_v@), cycle);
    let a = config.addr.id as int;
    assert(env.structural[a]@ == element(structural.at(r, a).value as int));
    let cols = config.final_columns();
    let fields = if r < final_mem.len() {
        config.final_fields(final_mem[r])
    } else {
        Seq::new((n + 1) as nat, |k: int| 0u64)
    };
    if r < final_mem.len() {
        lemma_limbs(final_mem[r].value);
        lemma_row_with(cols, fields, n + 1);
    }
    assert forall|k: int| 0 <= k <= n implies (#[trigger] env.wit[cols[k] as int])@ == element(
        fields[k] as int,
    ) by {
        assert(cols[k] < num_witin);
        assert(env.wit[cols[k] as int]@ == element(wit.at(r, cols[k] as int).value as int));
        if r < final_mem.len() {
            assert(wit.at(r, cols[k] as int).value == row_with(
                cols,
                fields,
                n + 1,
                cols[k] as int,
            ));
        }
    }
    assert(cols[n] == config.final_cycle.id);
    assert(env.wit[cols[n] as int]@ == element(fields[n] as int));
    let (first, last) = (after.w_tables@.last().record@, after.r_tables@.last().record@);
    assert forall|k: int| 0 <= k < n implies (#[trigger] last[2 + k]).eval(env) == element(
        fields[k] as int,
    ) by {
        assert(last[2 + k] == witin_exprs(config.final_v@)[k]);
        assert(cols[k] == config.final_v@[k].id);
        assert(env.wit[cols[k] as int]@ == element(fields[k] as int));
    }
    assert forall|k: int| 0 <= k < n implies (#[trigger] first[2 + k]).eval(env) == element(
        if config.table.zero_init {
            0
        } else {
            fields[k] as int
        },
    ) by {
        assert(first[2 + k] == init[k]);
        assert(cols[k] == config.final_v@[k].id);
        assert(env.wit[cols[k] as int]@ == element(fields[k] as int));
    }
    assert(last[2 + 0int].eval(env) == element(fields[0] as int));
    assert(first[2 + 0int].eval(env) == element(
        if config.table.zero_init {
            0
        } else {
            fields[0] as int
        },
    ));
    if n == 2 {
        assert(last[2 + 1int].eval(env) == element(fields[1] as int));
        assert(first[2 + 1int].eval(env) == element(
            if config.table.zero_init {
                0
            } else {
                fields[1] as int
            },
        ));
    }
}

/// The names of the kinds of instructions, in their order.
pub open spec fn names_in_order() -> Seq<&'static str> {
    seq![
        "INVALID",
        "ADD",
        "SUB",
        "XOR",
        "OR",
        "AND",
        "SLL",
        "SRL",
        "SRA",
        "SLT",
        "SLTU",
        "ADDI",
        "XORI",
        "ORI",
        "ANDI",
        "SLLI",
        "SRLI",
        "SRAI",
        "SLTI",
        "SLTIU",
        "BEQ",
        "BNE",
        "BLT",
        "BGE",
        "BLTU",
        "BGEU",
        "JAL",
        "JALR",
        "LUI",
        "AUIPC",
        "MUL",
        "MULH",
        "MULHSU",
        "MULHU",
        "DIV",
        "DIVU",
        "REM",
        "REMU",
        "LB",
        "LH",
        "LW",
        "LBU",
        "LHU",
        "SB",
        "SH",
        "SW",
        "ECALL",
    ]
}

/// The name of a kind is the one at its position.
pub proof fn lemma_kind_names(kind: InsnKind)
    ensures
        names_in_order().len() == kinds_in_order().len(),
        spec_kind_name(kind)@ == names_in_order()[kind_number(kind)]@,
{
}

/// The number that stands for a missing destination is that of no register; words, addresses of
/// instructions and cycles advance by four.
pub proof fn lemma_machine_numbers(register: int)
    requires
        0 <= register < 32,
    ensures
        RD_NULL != register,
        RD_NULL == 32,
        WORD_SIZE == 4,
        PC_STEP_SIZE == 4,
        CYCLES_PER_INSN == 4,
{
}

/// The length of the program table is the least power of two that reaches the size of the program.
pub proof fn lemma_program_length(table: LookupTable, config: ProgramTableConfig, n: nat)
    requires
        is_program_table(table, config),
        spec_next_power_of_two(config.program_size as nat) <= usize::MAX,
    ensures
        table.spec.len matches Some(len) && config.program_size <= len && is_pow2(len as int) && (
        config.program_size <= pow2(n) ==> len <= pow2(n)),
{
    lemma_next_power_of_two(config.program_size as nat, n);
}

/// The rows after the content of a table of an operation or a range hold zeros and are looked up by
/// nobody.
pub proof fn lemma_table_padding(
    op: OpTableConfig,
    fixed: RowMajorMatrix,
    num_fixed: int,
    content: Seq<[u64; 3]>,
    range: RangeTableConfig,
    structural: RowMajorMatrix,
    num_structural_witin: int,
    numbers: Seq<u64>,
    length: int,
    mlt: WitIn,
    wit: RowMajorMatrix,
    num_witin: int,
    multiplicity: Map<u64, usize>,
    r: int,
    c: int,
)
    requires
        is_op_matrix(fixed, op, num_fixed, content),
        is_range_matrix(structural, range, num_structural_witin, numbers, length),
        is_multiplicity_matrix(wit, mlt, num_witin, multiplicity, length, length),
        0 <= r,
        0 <= c,
    ensures
        content.len() <= r < fixed.height() && c < num_fixed ==> fixed.at(r, c).value == 0,
        numbers.len() <= r < structural.height() && c < num_structural_witin ==> structural.at(
            r,
            c,
        ).value == 0,
        r < structural.height() && c < num_structural_witin && c != range.range.id
            ==> structural.at(r, c).value == 0,
        length <= r < wit.height() && c < num_witin ==> wit.at(r, c).value == 0,
        r < wit.height() && c < num_witin && c != mlt.id ==> wit.at(r, c).value == 0,
        fixed.num_rows == content.len(),
        structural.num_rows == length,
        wit.num_rows == length,
{
}

/// An instruction none of whose addresses is counted has multiplicity zero. The rows after the
/// program hold zeros.
pub proof fn lemma_program_padding(
    table: LookupTable,
    config: ProgramTableConfig,
    fixed: RowMajorMatrix,
    num_fixed: int,
    wit: RowMajorMatrix,
    num_witin: int,
    multiplicity: Map<u64, usize>,
    program: Program,
    counts: Seq<u64>,
    r: int,
    c: int,
    env: Env,
)
    requires
        is_program_table(table, config),
        is_program_matrix(fixed, config, num_fixed, program),
        has_counts(wit, config, num_witin, multiplicity, program, counts),
        config.mlt.id < num_witin,
        0 <= r,
        r < wit.height(),
        hold_row(env.wit, wit, r),
        0 <= c,
    ensures
        r < program.instructions@.len() && (forall|j: int|
            0 <= j < 4 ==> !(#[trigger] multiplicity.contains_key(
                (program.base_address + 4 * r + j) as u64,
            ))) ==> table.multiplicity.eval(env) == element(0),
        program.instructions@.len() <= r ==> table.multiplicity.eval(env) == element(0),
        program.instructions@.len() <= r < fixed.height() && c < num_fixed ==> fixed.at(
            r,
            c,
        ).value == 0,
        fixed.num_rows == config.program_size,
        wit.num_rows == config.program_size,
{
    let mlt = config.mlt.id as int;
    assert(env.wit[mlt]@ == element(wit.at(r, mlt).value as int));
    if r < program.instructions@.len() {
        assert(is_count(multiplicity, program.base_address + 4 * r, counts[r]));
        assert(wit.at(r, mlt).value == counts[r]);
    }
}

} // verus!
