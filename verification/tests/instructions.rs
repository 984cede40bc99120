//! Circuits of instructions on concrete steps.
use ceno::circuit::gadgets::{LkMultiplicity, UInt};
use ceno::circuit::plain::{constant, eval_row};
use ceno::circuit::{CircuitBuilder, RecordKind};
use ceno::expression::Expression;
use ceno::field::Goldilocks;
use ceno::instructions::riscv::div::{
    div_rem, ArithInstruction, DivOp, DivRemConfig, DivRemInstruction, DivuOp, RemOp, RemuOp,
};
use ceno::instructions::riscv::slt::{
    LessThanInstruction, SetLessThanDependencies, SetLessThanInstruction, SltOp, SltuOp,
};
use ceno::instructions::riscv::{kind_as_u64, kind_name};
use ceno::instructions::{assign_instances, GKRinfo, Instruction as InstructionCircuit};
use ceno::riscv::{InsnKind, Instruction, StepRecord};
use rand::RngCore;

const MOCK_PC_START: u32 = 0x2000_0000;

fn r_instruction(kind: InsnKind) -> Instruction {
    Instruction { kind, rs1: 2, rs2: 3, rd: 4, imm: 0 }
}

fn require_word(cb: &mut CircuitBuilder, name: &'static str, limbs: Vec<Expression>, word: u32) {
    let expected = [word & 0xffff, word >> 16];
    for (limb, value) in limbs.into_iter().zip(expected) {
        cb.require_equal(name, limb, constant(value as u64));
    }
}

fn looked_up(cb: &CircuitBuilder, row: &[Goldilocks]) -> Vec<u64> {
    cb.ranges.iter().map(|c| eval_row(&c.expr, row).as_canonical_u64()).collect()
}

trait TestInstance: DivRemInstruction + Sized {
    fn output(config: &DivRemConfig) -> UInt;
    fn correct(dividend: u32, divisor: u32) -> u32;
    fn kind() -> InsnKind;
}

impl TestInstance for DivOp {
    fn output(config: &DivRemConfig) -> UInt {
        config.operands.quotient
    }
    fn correct(dividend: u32, divisor: u32) -> u32 {
        if divisor == 0 {
            u32::MAX
        } else {
            (dividend as i32).wrapping_div(divisor as i32) as u32
        }
    }
    fn kind() -> InsnKind {
        InsnKind::DIV
    }
}

impl TestInstance for RemOp {
    fn output(config: &DivRemConfig) -> UInt {
        config.operands.remainder
    }
    fn correct(dividend: u32, divisor: u32) -> u32 {
        if divisor == 0 {
            dividend
        } else {
            (dividend as i32).wrapping_rem(divisor as i32) as u32
        }
    }
    fn kind() -> InsnKind {
        InsnKind::REM
    }
}

impl TestInstance for DivuOp {
    fn output(config: &DivRemConfig) -> UInt {
        config.operands.quotient
    }
    fn correct(dividend: u32, divisor: u32) -> u32 {
        if divisor == 0 {
            u32::MAX
        } else {
            dividend / divisor
        }
    }
    fn kind() -> InsnKind {
        InsnKind::DIVU
    }
}

impl TestInstance for RemuOp {
    fn output(config: &DivRemConfig) -> UInt {
        config.operands.remainder
    }
    fn correct(dividend: u32, divisor: u32) -> u32 {
        if divisor == 0 {
            dividend
        } else {
            dividend % divisor
        }
    }
    fn kind() -> InsnKind {
        InsnKind::REMU
    }
}

fn verify_div<I: TestInstance>(
    name: &str,
    dividend: u32,
    divisor: u32,
    exp_outcome: u32,
    expected_errors: &[&str],
) {
    let mut cb = CircuitBuilder::new();
    let config = ArithInstruction::<I>::construct_circuit(&mut cb).unwrap();
    let outcome = I::correct(dividend, divisor);
    let step = StepRecord::new_r_instruction(
        3,
        MOCK_PC_START,
        r_instruction(I::kind()),
        dividend,
        divisor,
        (0, outcome),
    );
    let num_witin = cb.num_witin as usize;
    let (raw_witin, lkm) =
        assign_instances::<ArithInstruction<I>>(&config, num_witin, &vec![step]).unwrap();
    let rows = raw_witin.iter_rows();
    assert_eq!(rows.len(), 1, "{name}");
    assert_eq!(lkm.u16_lookups, looked_up(&cb, &rows[0]), "{name}");

    require_word(&mut cb, "assert_outcome", I::output(&config).register_expr(), exp_outcome);
    assert_eq!(cb.unsatisfied(&rows[0]), expected_errors, "{name}");
    // the padding repeats the row
    assert!(cb.unsatisfied(&raw_witin.row(1)) == expected_errors, "{name}");
}

fn verify_positive<I: TestInstance>(name: &str, dividend: u32, divisor: u32) {
    verify_div::<I>(name, dividend, divisor, I::correct(dividend, divisor), &[]);
}

#[test]
fn test_divrem_unsigned_handmade() {
    let test_cases = [
        ("10 / 2", 10, 2),
        ("10 / 11", 10, 11),
        ("11 / 2", 11, 2),
        ("large values 1", 1234 * 5678 * 100, 1234),
        ("large values 2", 1202729773, 171818539),
    ];

    for (name, dividend, divisor) in test_cases.into_iter() {
        verify_positive::<DivuOp>(name, dividend, divisor);
        verify_positive::<RemuOp>(name, dividend, divisor);
    }
}

#[test]
fn test_divrem_unsigned_edges() {
    let interesting_values = [u32::MAX, u32::MAX - 1, 0, 1, 2];

    for dividend in interesting_values {
        for divisor in interesting_values {
            let name = format!("dividend = {}, divisor = {}", dividend, divisor);
            verify_positive::<DivuOp>(&name, dividend, divisor);
            verify_positive::<RemuOp>(&name, dividend, divisor);
        }
    }
}

#[test]
fn test_divrem_unsigned_unsatisfied() {
    verify_div::<DivuOp>("assert_outcome", 10, 2, 3, &["assert_outcome"]);
}

#[test]
fn test_divrem_unsigned_random() {
    for _ in 0..10 {
        let mut rng = rand::thread_rng();
        let dividend: u32 = rng.next_u32();
        let divisor: u32 = rng.next_u32();
        let name = format!("random: dividend = {}, divisor = {}", dividend, divisor);
        verify_positive::<DivuOp>(&name, dividend, divisor);
        verify_positive::<RemuOp>(&name, dividend, divisor);
    }
}

#[test]
fn test_divrem_signed_handmade() {
    let test_cases: [(&str, i32, i32); 8] = [
        ("10 / 2", 10, 2),
        ("10 / 11", 10, 11),
        ("11 / 2", 11, 2),
        ("-10 / 3", -10, 3),
        ("-10 / -3", -10, -3),
        ("large values 1", -1234 * 5678 * 100, 5678),
        ("large values 2", 1234 * 5678 * 100, 1234),
        ("large values 3", 1202729773, 171818539),
    ];

    for (name, dividend, divisor) in test_cases.into_iter() {
        verify_positive::<DivOp>(name, dividend as u32, divisor as u32);
        verify_positive::<RemOp>(name, dividend as u32, divisor as u32);
    }
}

#[test]
fn test_divrem_signed_edges() {
    let interesting_values = [i32::MIN, i32::MAX, i32::MIN + 1, i32::MAX - 1, 0, -1, 1, 2];

    for dividend in interesting_values {
        for divisor in interesting_values {
            let name = format!("dividend = {}, divisor = {}", dividend, divisor);
            verify_positive::<DivOp>(&name, dividend as u32, divisor as u32);
            verify_positive::<RemOp>(&name, dividend as u32, divisor as u32);
        }
    }
}

#[test]
fn test_divrem_signed_random() {
    for _ in 0..10 {
        let mut rng = rand::thread_rng();
        let dividend: i32 = rng.next_u32() as i32;
        let divisor: i32 = rng.next_u32() as i32;
        let name = format!("random: dividend = {}, divisor = {}", dividend, divisor);
        verify_positive::<DivOp>(&name, dividend as u32, divisor as u32);
        verify_positive::<RemOp>(&name, dividend as u32, divisor as u32);
    }
}

#[test]
fn division_words_at_the_edges() {
    assert_eq!(div_rem(false, 7, 0), (u32::MAX, 7));
    assert_eq!(div_rem(true, 0x8000_0000, u32::MAX), (0x8000_0000, 0));
    assert_eq!(div_rem(true, (-7i32) as u32, 2), ((-3i32) as u32, (-1i32) as u32));
    assert_eq!(div_rem(false, 7, 2), (3, 1));
}

#[test]
fn division_circuit_rejects_a_changed_quotient() {
    let mut cb = CircuitBuilder::new();
    let config = ArithInstruction::<DivuOp>::construct_circuit(&mut cb).unwrap();
    let step = StepRecord::new_r_instruction(
        3,
        MOCK_PC_START,
        r_instruction(InsnKind::DIVU),
        10,
        3,
        (0, 3),
    );
    let num_witin = cb.num_witin as usize;
    let (m, _) =
        assign_instances::<ArithInstruction<DivuOp>>(&config, num_witin, &vec![step]).unwrap();
    let mut row = m.row(0);
    assert!(cb.unsatisfied(&row).is_empty());
    let quotient = config.operands.quotient.lo.id as usize;
    assert_eq!(row[quotient], Goldilocks::from_canonical_u64(3));
    row[quotient] = Goldilocks::from_canonical_u64(2);
    assert!(!cb.unsatisfied(&row).is_empty());
}

trait SltInstance: LessThanInstruction + Sized {
    fn kind() -> InsnKind;
}

impl SltInstance for SltOp {
    fn kind() -> InsnKind {
        InsnKind::SLT
    }
}

impl SltInstance for SltuOp {
    fn kind() -> InsnKind {
        InsnKind::SLTU
    }
}

fn verify_slt<I: SltInstance>(name: &'static str, rs1: u32, rs2: u32, rd: u32) {
    let mut cb = CircuitBuilder::new();
    let config = SetLessThanInstruction::<I>::construct_circuit(&mut cb).unwrap();
    let step = StepRecord::new_r_instruction(
        3,
        MOCK_PC_START,
        r_instruction(I::kind()),
        rs1,
        rs2,
        (0, rd),
    );
    let num_witin = cb.num_witin as usize;
    let (raw_witin, lkm) =
        assign_instances::<SetLessThanInstruction<I>>(&config, num_witin, &vec![step]).unwrap();
    let rows = raw_witin.iter_rows();
    assert_eq!(lkm.u16_lookups, looked_up(&cb, &rows[0]), "{name}");
    let written: Vec<Expression> = config.rd_written.iter().cloned().collect();
    require_word(&mut cb, "assert_rd_written", written, rd);
    assert!(cb.unsatisfied(&rows[0]).is_empty(), "{name}");
}

#[test]
fn test_slt_true() {
    verify_slt::<SltOp>("lt = true, 0 < 1", 0, 1, 1);
    verify_slt::<SltOp>("lt = true, 1 < 2", 1, 2, 1);
    verify_slt::<SltOp>("lt = true, -1 < 0", -1i32 as u32, 0, 1);
    verify_slt::<SltOp>("lt = true, -1 < 1", -1i32 as u32, 1, 1);
    verify_slt::<SltOp>("lt = true, -2 < -1", -2i32 as u32, -1i32 as u32, 1);
    verify_slt::<SltOp>("lt = true, large number", i32::MIN as u32, i32::MAX as u32, 1);
}

#[test]
fn test_slt_false() {
    verify_slt::<SltOp>("lt = false, 1 < 0", 1, 0, 0);
    verify_slt::<SltOp>("lt = false, 2 < 1", 2, 1, 0);
    verify_slt::<SltOp>("lt = false, 0 < -1", 0, -1i32 as u32, 0);
    verify_slt::<SltOp>("lt = false, 1 < -1", 1, -1i32 as u32, 0);
    verify_slt::<SltOp>("lt = false, -1 < -2", -1i32 as u32, -2i32 as u32, 0);
    verify_slt::<SltOp>("lt = false, 0 == 0", 0, 0, 0);
    verify_slt::<SltOp>("lt = false, 1 == 1", 1, 1, 0);
    verify_slt::<SltOp>("lt = false, -1 == -1", -1i32 as u32, -1i32 as u32, 0);
    verify_slt::<SltOp>("lt = false, large number", i32::MAX as u32, i32::MIN as u32, 0);
}

#[test]
fn test_slt_random() {
    let mut rng = rand::thread_rng();
    let a: i32 = rng.next_u32() as i32;
    let b: i32 = rng.next_u32() as i32;
    println!("random: {} <? {}", a, b);
    verify_slt::<SltOp>("random 1", a as u32, b as u32, (a < b) as u32);
    verify_slt::<SltOp>("random 2", b as u32, a as u32, (a >= b) as u32);
}

#[test]
fn test_sltu_simple() {
    verify_slt::<SltuOp>("lt = true, 0 < 1", 0, 1, 1);
    verify_slt::<SltuOp>("lt = true, 1 < 2", 1, 2, 1);
    verify_slt::<SltuOp>("lt = true, 0 < u32::MAX", 0, u32::MAX, 1);
    verify_slt::<SltuOp>("lt = true, u32::MAX - 1", u32::MAX - 1, u32::MAX, 1);
    verify_slt::<SltuOp>("lt = false, u32::MAX", u32::MAX, u32::MAX, 0);
    verify_slt::<SltuOp>("lt = false, u32::MAX - 1", u32::MAX, u32::MAX - 1, 0);
    verify_slt::<SltuOp>("lt = false, u32::MAX > 0", u32::MAX, 0, 0);
    verify_slt::<SltuOp>("lt = false, 2 > 1", 2, 1, 0);
}

#[test]
fn test_sltu_random() {
    let mut rng = rand::thread_rng();
    let a: u32 = rng.next_u32();
    let b: u32 = rng.next_u32();
    verify_slt::<SltuOp>("random 1", a, b, (a < b) as u32);
    verify_slt::<SltuOp>("random 2", b, a, (a >= b) as u32);
}

#[test]
fn less_than_circuit_rejects_a_changed_outcome() {
    let mut cb = CircuitBuilder::new();
    let config = SetLessThanInstruction::<SltuOp>::construct_circuit(&mut cb).unwrap();
    let step = StepRecord::new_r_instruction(
        3,
        MOCK_PC_START,
        r_instruction(InsnKind::SLTU),
        1,
        2,
        (0, 1),
    );
    let num_witin = cb.num_witin as usize;
    let (m, _) =
        assign_instances::<SetLessThanInstruction<SltuOp>>(&config, num_witin, &vec![step])
            .unwrap();
    let row = m.row(0);
    let outcome = match config.deps {
        SetLessThanDependencies::Sltu { is_lt } => is_lt.is_lt.id as usize,
        SetLessThanDependencies::Slt { .. } => panic!("not an unsigned comparison"),
    };
    assert_eq!(row[outcome], Goldilocks::from_canonical_u64(1));
    assert!(cb.unsatisfied(&row).is_empty());
    // neither the other outcome nor another value is accepted, nor another source
    for (column, value) in [(outcome, 0), (outcome, 2), (config.rs1_read.lo.id as usize, 7)] {
        let mut changed = row.clone();
        changed[column] = Goldilocks::from_canonical_u64(value);
        assert!(!cb.unsatisfied(&changed).is_empty());
    }
}

#[test]
fn records_of_an_instruction() {
    let mut cb = CircuitBuilder::new();
    SetLessThanInstruction::<SltuOp>::construct_circuit(&mut cb).unwrap();
    ArithInstruction::<DivuOp>::construct_circuit(&mut cb).unwrap();
    let kinds: Vec<RecordKind> = cb.records.iter().map(|record| record.kind).collect();
    let expected = [
        RecordKind::StateIn,
        RecordKind::StateOut,
        RecordKind::Fetch,
        RecordKind::RegisterRead,
        RecordKind::RegisterRead,
        RecordKind::RegisterWrite,
    ];
    assert_eq!(kinds, [expected, expected].concat());
}

#[test]
fn several_steps_share_a_matrix() {
    let mut cb = CircuitBuilder::new();
    let config = SetLessThanInstruction::<SltuOp>::construct_circuit(&mut cb).unwrap();
    let steps: Vec<StepRecord> = (0..3u32)
        .map(|i| {
            StepRecord::new_r_instruction(
                3,
                MOCK_PC_START,
                r_instruction(InsnKind::SLTU),
                i,
                1,
                (0, (i < 1) as u32),
            )
        })
        .collect();
    let num_witin = cb.num_witin as usize;
    let (m, lkm) =
        assign_instances::<SetLessThanInstruction<SltuOp>>(&config, num_witin, &steps).unwrap();
    assert_eq!(m.num_instances(), 3);
    assert_eq!(m.num_padding_instances(), 1);
    assert_eq!(m.row(3), m.row(2));
    let all: Vec<u64> = m.iter_rows().iter().flat_map(|row| looked_up(&cb, row)).collect();
    assert_eq!(lkm.u16_lookups, all);
}

#[test]
fn no_steps_leave_zero_rows() {
    let mut cb = CircuitBuilder::new();
    let config = SetLessThanInstruction::<SltuOp>::construct_circuit(&mut cb).unwrap();
    let num_witin = cb.num_witin as usize;
    let (m, lkm) =
        assign_instances::<SetLessThanInstruction<SltuOp>>(&config, num_witin, &vec![]).unwrap();
    assert_eq!(m.num_instances(), 0);
    assert_eq!(m.values().len(), 2 * num_witin);
    for row in 0..2 {
        assert!((0..num_witin).all(|col| m.get(row, col) == Goldilocks::zero()));
    }
    assert!(lkm.u16_lookups.is_empty());
}

#[test]
fn names_and_numbers_of_instructions() {
    assert_eq!(ArithInstruction::<DivuOp>::name(), "DIVU");
    assert_eq!(SetLessThanInstruction::<SltOp>::name(), "SLT");
    assert_eq!(kind_name(InsnKind::REMU), "REMU");
    assert_ne!(kind_as_u64(InsnKind::DIV), kind_as_u64(InsnKind::DIVU));
    assert!(LkMultiplicity::new().u16_lookups.is_empty());
}

#[test]
fn lookup_total_adds_up() {
    let info = GKRinfo { and_lookups: 2, xor_lookups: 3, range_lookups: 5, aux_wits: 7 };
    assert_eq!(info.lookup_total(), 10);
}
