//! Tables of the machine.
use std::collections::HashMap;

use ceno::expression::Instance;
use ceno::field::Goldilocks;
use ceno::riscv::{InsnFormat, InsnKind};
use ceno::tables::ops::OpTableConfig;
use ceno::tables::program::{
    i64_to_base, DecodedInsn, InsnRecord, Program, ProgramTableCircuit,
};
use ceno::tables::ram::{
    DynVolatileRamTable, DynVolatileRamTableConfig, MemFinalRecord, MemInitRecord,
    NonVolatileTable, NonVolatileTableConfig, PubIOTableConfig,
};
use ceno::tables::range::RangeTableConfig;
use ceno::tables::{RAMType, ROMType, TableBuilder};
use ceno::witness::{next_pow2_instance_padding, RowMajorMatrix};

const WORD_SIZE: u64 = 4;

fn f(v: u64) -> Goldilocks {
    Goldilocks::from_canonical_u64(v)
}

fn add_insn() -> DecodedInsn {
    DecodedInsn {
        kind: InsnKind::ADD,
        format: InsnFormat::R,
        rd_internal: 3,
        rs1_or_zero: 1,
        rs2_or_zero: 2,
        imm: 0,
    }
}

#[test]
fn test_program_padding() {
    let program_size = 16;
    let mut cb = TableBuilder::new(program_size, Instance(0));

    let actual_len = 3;
    let program = Program {
        base_address: 0x2000_0000,
        instructions: (0..actual_len).map(|_| add_insn()).collect(),
    };

    let config = ProgramTableCircuit::construct_circuit(&mut cb).unwrap();

    let check = |matrix: &RowMajorMatrix| {
        assert_eq!(matrix.num_instances() + matrix.num_padding_instances(), program_size);
        for row in matrix.iter_rows().iter().skip(actual_len) {
            for col in row.iter() {
                assert_eq!(*col, f(0));
            }
        }
    };

    let fixed = ProgramTableCircuit::generate_fixed_traces(&config, cb.num_fixed, &program);
    check(&fixed);
    // the record of the second instruction
    assert_eq!(fixed.get(1, 0), f(0x2000_0004));
    assert_eq!(fixed.get(1, 2), f(3));

    let lkm: HashMap<u64, usize> = HashMap::new();
    let witness = ProgramTableCircuit::assign_instances(
        &config,
        cb.num_witin as usize,
        cb.num_structural_witin as usize,
        &lkm,
        &program,
    )
    .unwrap();
    check(&witness[0]);
}

#[test]
fn program_counts_the_fetches() {
    let mut cb = TableBuilder::new(4, Instance(0));
    let config = ProgramTableCircuit::construct_circuit(&mut cb).unwrap();
    let program =
        Program { base_address: 0x100, instructions: vec![add_insn(), add_insn()] };
    let mut lkm: HashMap<u64, usize> = HashMap::new();
    lkm.insert(0x104, 7);
    let witness = ProgramTableCircuit::assign_instances(
        &config,
        cb.num_witin as usize,
        cb.num_structural_witin as usize,
        &lkm,
        &program,
    )
    .unwrap();
    let mlt = config.mlt.id as usize;
    assert_eq!(witness[0].get(0, mlt), f(0));
    assert_eq!(witness[0].get(1, mlt), f(7));
    assert_eq!(ProgramTableCircuit::name(), "PROGRAM");
}

#[test]
fn immediates_as_circuits_read_them() {
    let imm = |kind: InsnKind, format: InsnFormat, imm: i32| {
        InsnRecord::<()>::imm_internal(&DecodedInsn {
            kind,
            format,
            rd_internal: 0,
            rs1_or_zero: 0,
            rs2_or_zero: 0,
            imm,
        })
    };
    assert_eq!(imm(InsnKind::SLLI, InsnFormat::I, 31), 1 << 31);
    assert_eq!(imm(InsnKind::ADD, InsnFormat::R, 0), 0);
    assert_eq!(imm(InsnKind::ADDI, InsnFormat::I, -1), 0xffff_ffff);
    assert_eq!(imm(InsnKind::LW, InsnFormat::I, -1), -1);
    assert_eq!(imm(InsnKind::ANDI, InsnFormat::I, -1), 0xffff_ffff);
    assert_eq!(i64_to_base(-1), -f(1));
    assert_eq!(i64_to_base(5), f(5));
}

fn hints_table() -> DynVolatileRamTable {
    DynVolatileRamTable {
        ram_type: RAMType::Memory,
        v_limbs: 1,
        zero_init: false,
        descending: false,
        offset_addr: 0x4000_0000,
        max_len: 1 << 10,
    }
}

#[test]
fn test_well_formed_address_padding() {
    let mut cb = TableBuilder::new(0, Instance(0));
    let table = hints_table();
    let config = DynVolatileRamTableConfig::construct_circuit(&mut cb, table).unwrap();

    // ensure non-empty padding is required
    let some_non_2_pow = 26;
    let input: Vec<MemFinalRecord> = (0..some_non_2_pow)
        .map(|i| MemFinalRecord { addr: table.addr(i), cycle: 0, value: 0 })
        .collect();
    let [_, mut structural_witness] = config
        .assign_instances(cb.num_witin as usize, cb.num_structural_witin as usize, &input)
        .unwrap();

    let addr_column = config.addr.id as usize;

    structural_witness.padding_by_strategy();
    let mles = structural_witness.to_mles();
    let addr_padded_view = mles[addr_column].get_base_field_vec();
    // Expect addresses to proceed consecutively inside the padding as well
    let mut expected = vec![addr_padded_view[0]];
    while expected.len() < next_pow2_instance_padding(structural_witness.num_instances()) {
        let last = expected[expected.len() - 1];
        expected.push(last + f(WORD_SIZE));
    }
    assert_eq!(addr_padded_view, expected);
    assert_eq!(expected.len(), 32);
    assert_eq!(expected[0], f(0x4000_0000));
}

#[test]
fn descending_addresses() {
    let table = DynVolatileRamTable { descending: true, ..hints_table() };
    assert_eq!(table.addr(0), 0x4000_0000);
    assert_eq!(table.addr(2), 0x4000_0000 - 8);
}

#[test]
fn final_values_of_a_table_with_limbs() {
    let mut cb = TableBuilder::new(0, Instance(0));
    let table = DynVolatileRamTable { v_limbs: 2, ..hints_table() };
    let config = DynVolatileRamTableConfig::construct_circuit(&mut cb, table).unwrap();
    let input =
        vec![MemFinalRecord { addr: table.addr(0), cycle: 9, value: 0x1234_5678 }];
    let [witness, structural] = config
        .assign_instances(cb.num_witin as usize, cb.num_structural_witin as usize, &input)
        .unwrap();
    assert_eq!(witness.get(0, config.final_v[0].id as usize), f(0x5678));
    assert_eq!(witness.get(0, config.final_v[1].id as usize), f(0x1234));
    assert_eq!(witness.get(0, config.final_cycle.id as usize), f(9));
    assert_eq!(structural.get(0, config.addr.id as usize), f(0x4000_0000));
}

#[test]
fn addresses_among_other_columns() {
    let mut cb = TableBuilder::new(0, Instance(0));
    let _ = cb.create_structural_witin(4, 0, 1, false);
    let table = hints_table();
    let config = DynVolatileRamTableConfig::construct_circuit(&mut cb, table).unwrap();
    assert_eq!(config.addr.id, 1);
    // there are no padding rows
    let input: Vec<MemFinalRecord> =
        (0..4).map(|i| MemFinalRecord { addr: table.addr(i), cycle: 1, value: 7 }).collect();
    let [_, structural] = config
        .assign_instances(cb.num_witin as usize, cb.num_structural_witin as usize, &input)
        .unwrap();
    assert_eq!(structural.n_col(), 2);
    for i in 0..4 {
        assert_eq!(structural.get(i, 0), f(0));
        assert_eq!(structural.get(i, 1), f(0x4000_0000 + 4 * i as u64));
    }
}

#[test]
fn a_table_with_fixed_addresses() {
    let mut cb = TableBuilder::new(0, Instance(0));
    let table =
        NonVolatileTable { ram_type: RAMType::Register, v_limbs: 1, writable: true, len: 2 };
    let config = NonVolatileTableConfig::construct_circuit(&mut cb, table).unwrap();
    let init = [MemInitRecord { addr: 3, value: 5 }, MemInitRecord { addr: 4, value: 6 }];
    let fixed = config.gen_init_state(cb.num_fixed, &init);
    assert_eq!(fixed.get(0, config.addr.0), f(3));
    assert_eq!(fixed.get(1, config.addr.0), f(4));
    assert_eq!(fixed.get(1, config.init_v[0].0), f(6));
    let last = [
        MemFinalRecord { addr: 3, cycle: 10, value: 50 },
        MemFinalRecord { addr: 4, cycle: 11, value: 60 },
    ];
    let [witness, _] = config
        .assign_instances(cb.num_witin as usize, cb.num_structural_witin as usize, &last)
        .unwrap();
    assert_eq!(witness.get(1, config.final_cycle.id as usize), f(11));
    let final_v = config.final_v.as_ref().unwrap();
    assert_eq!(witness.get(0, final_v[0].id as usize), f(50));
}

#[test]
fn a_table_of_public_values() {
    let mut cb = TableBuilder::new(0, Instance(7));
    let table =
        NonVolatileTable { ram_type: RAMType::Memory, v_limbs: 1, writable: false, len: 2 };
    let config = PubIOTableConfig::construct_circuit(&mut cb, table).unwrap();
    let fixed = config.gen_init_state(cb.num_fixed, &[8, 12]);
    assert_eq!(fixed.get(1, config.addr.0), f(12));
    let [witness, _] = config
        .assign_instances(cb.num_witin as usize, cb.num_structural_witin as usize, &[1, 2])
        .unwrap();
    assert_eq!(witness.get(1, config.final_cycle.id as usize), f(2));
    assert_eq!(cb.query_public_io(), Instance(7));
}

#[test]
fn an_operation_table() {
    let mut cb = TableBuilder::new(0, Instance(0));
    let config = OpTableConfig::construct_circuit(&mut cb, ROMType::And, 4).unwrap();
    let content = vec![[0, 0, 0], [1, 0, 0], [0, 1, 0], [1, 1, 1]];
    let fixed = config.generate_fixed_traces(cb.num_fixed, &content);
    assert_eq!(fixed.get(3, config.abc[2].0), f(1));
    let mut lkm: HashMap<u64, usize> = HashMap::new();
    lkm.insert(2, 5);
    let [witness, _] = config
        .assign_instances(cb.num_witin as usize, cb.num_structural_witin as usize, &lkm, 4)
        .unwrap();
    assert_eq!(witness.get(2, config.mlt.id as usize), f(5));
    assert_eq!(witness.get(1, config.mlt.id as usize), f(0));
}

#[test]
fn a_range_table() {
    let mut cb = TableBuilder::new(0, Instance(0));
    let config = RangeTableConfig::construct_circuit(&mut cb, ROMType::U5, 4).unwrap();
    let mut lkm: HashMap<u64, usize> = HashMap::new();
    lkm.insert(3, 2);
    let [witness, structural] = config
        .assign_instances(
            cb.num_witin as usize,
            cb.num_structural_witin as usize,
            &lkm,
            &vec![0, 1, 2, 3],
            4,
        )
        .unwrap();
    assert_eq!(witness.get(3, config.mlt.id as usize), f(2));
    assert_eq!(structural.get(3, config.range.id as usize), f(3));
    assert_eq!(cb.num_fixed, 0);
}
