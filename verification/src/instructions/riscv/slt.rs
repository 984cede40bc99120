//! Circuits of the SLT and SLTU instructions: the destination is one if the first source is less
//! than the second, else zero.
use std::marker::PhantomData;
use vstd::arithmetic::div_mod::*;
use vstd::prelude::*;

use crate::circuit::gadgets::{
    col, lemma_inner_lt, lemma_signed, lemma_signed_complete, lemma_uint_val, lemma_word_val,
    signed_word, IsLtConfig, LkMultiplicity, Signed, UInt,
};
use crate::circuit::plain::{constant, plain, value};
use crate::circuit::{CircuitBuilder, ZKVMError};
use crate::expression::Expression;
use crate::field::{group_field, modulus, Goldilocks};
use crate::instructions::riscv::div::{sign_bit, to_signed};
use crate::instructions::riscv::{
    adds_records, kind_name, record_values, spec_kind_name, RIVInstruction, RInstructionConfig,
};
use crate::instructions::Instruction;
use crate::riscv::{InsnKind, StepRecord};

verus! {

broadcast use group_field;

/// A comparison of two words as signed integers.
#[derive(Debug, Clone, Copy)]
pub struct SignedLtConfig {
    pub lhs: Signed,
    pub rhs: Signed,
    pub is_lt: IsLtConfig,
}

impl SignedLtConfig {
    pub open spec fn at(&self, lhs: UInt, rhs: UInt, base: int) -> bool {
        &&& self.lhs.uint == lhs
        &&& self.rhs.uint == rhs
        &&& self.lhs.is_negative.id == base
        &&& self.rhs.is_negative.id == base + 1
        &&& self.is_lt.at(base + 2)
    }

    pub open spec fn holds(&self, row: Seq<Goldilocks>) -> bool {
        &&& self.lhs.holds(row)
        &&& self.rhs.holds(row)
        &&& self.is_lt.holds(self.lhs.val(row), self.rhs.val(row), row)
    }

    pub open spec fn lookups(&self, row: Seq<Goldilocks>) -> Seq<int> {
        seq![self.lhs.shifted(row), self.rhs.shifted(row)] + self.is_lt.inner.diff.lookups(row)
    }

    pub fn construct_circuit(
        cb: &mut CircuitBuilder,
        name: &'static str,
        lhs: &UInt,
        rhs: &UInt,
    ) -> (r: SignedLtConfig)
        requires
            old(cb).wf(),
            old(cb).num_witin + 5 <= u16::MAX,
        ensures
            final(cb).wf(),
            final(cb).records == old(cb).records,
            r.at(*lhs, *rhs, old(cb).num_witin as int),
            final(cb).num_witin == old(cb).num_witin + 5,
            forall|row: Seq<Goldilocks>| #[trigger]
                final(cb).satisfied(row) == (old(cb).satisfied(row) && r.holds(row)),
            forall|row: Seq<Goldilocks>| #[trigger]
                final(cb).looked_up(row) == old(cb).looked_up(row) + r.lookups(row),
    {
        let ghost before = *cb;
        let l = Signed::construct_circuit(cb, "is_lhs_neg", lhs);
        let r = Signed::construct_circuit(cb, "is_rhs_neg", rhs);
        let is_lt = IsLtConfig::construct_circuit(cb, name, l.expr(), r.expr());
        let config = SignedLtConfig { lhs: l, rhs: r, is_lt };
        proof {
            assert forall|row: Seq<Goldilocks>| #[trigger]
                cb.looked_up(row) == before.looked_up(row) + config.lookups(row) by {
                assert(cb.looked_up(row) =~= before.looked_up(row) + config.lookups(row));
            }
        }
        config
    }

    /// The outcome as an expression.
    pub fn expr(&self) -> (r: Expression)
        ensures
            plain(r),
            forall|row: Seq<Goldilocks>| #[trigger] value(r, row) == col(row, self.is_lt.is_lt),
    {
        self.is_lt.expr()
    }

    /// Assigns the comparison of two assigned words.
    pub fn assign_instance(
        &self,
        row: &mut Vec<Goldilocks>,
        lkm: &mut LkMultiplicity,
        lhs: u32,
        rhs: u32,
    )
        requires
            self.at(self.lhs.uint, self.rhs.uint, self.lhs.is_negative.id as int),
            self.lhs.is_negative.id + 5 <= old(row)@.len(),
            self.lhs.uint.holds_word(old(row)@, lhs),
            self.rhs.uint.holds_word(old(row)@, rhs),
            self.lhs.uint.lo.id < self.lhs.is_negative.id,
            self.lhs.uint.hi.id < self.lhs.is_negative.id,
            self.rhs.uint.lo.id < self.lhs.is_negative.id,
            self.rhs.uint.hi.id < self.lhs.is_negative.id,
        ensures
            self.holds(final(row)@),
            col(final(row)@, self.is_lt.is_lt) == if signed_word(lhs as int) < signed_word(
                rhs as int,
            ) {
                1int
            } else {
                0int
            },
            final(row)@.len() == old(row)@.len(),
            forall|i: int|
                0 <= i < final(row)@.len() && !(self.lhs.is_negative.id <= i
                    < self.lhs.is_negative.id + 5) ==> #[trigger] final(row)@[i] == old(row)@[i],
            final(lkm)@ == old(lkm)@ + self.lookups(final(row)@),
    {
        self.lhs.assign_instance(row, lkm, lhs);
        self.rhs.assign_instance(row, lkm, rhs);
        self.is_lt.assign_instance_signed(row, lkm, to_signed(lhs), to_signed(rhs));
        proof {
            assert(col(row@, self.lhs.is_negative) == sign_bit(lhs));
            assert(col(row@, self.rhs.is_negative) == sign_bit(rhs));
            lemma_signed_complete(self.lhs, row@, lhs);
            lemma_signed_complete(self.rhs, row@, rhs);
            assert(lkm@ =~= old(lkm)@ + self.lookups(row@));
        }
    }
}

/// The comparison, signed or unsigned.
#[derive(Debug, Clone, Copy)]
pub enum SetLessThanDependencies {
    Slt { signed_lt: SignedLtConfig },
    Sltu { is_lt: IsLtConfig },
}

impl SetLessThanDependencies {
    pub open spec fn size(&self) -> int {
        if self is Slt {
            5
        } else {
            3
        }
    }

    pub open spec fn at(&self, rs1: UInt, rs2: UInt, base: int) -> bool {
        match self {
            SetLessThanDependencies::Slt { signed_lt } => signed_lt.at(rs1, rs2, base),
            SetLessThanDependencies::Sltu { is_lt } => is_lt.at(base),
        }
    }

    pub open spec fn holds(&self, rs1: UInt, rs2: UInt, row: Seq<Goldilocks>) -> bool {
        match self {
            SetLessThanDependencies::Slt { signed_lt } => signed_lt.holds(row),
            SetLessThanDependencies::Sltu { is_lt } => is_lt.holds(
                rs1.val(row),
                rs2.val(row),
                row,
            ),
        }
    }

    pub open spec fn lookups(&self, row: Seq<Goldilocks>) -> Seq<int> {
        match self {
            SetLessThanDependencies::Slt { signed_lt } => signed_lt.lookups(row),
            SetLessThanDependencies::Sltu { is_lt } => is_lt.inner.diff.lookups(row),
        }
    }

    /// The outcome.
    pub open spec fn outcome(&self, row: Seq<Goldilocks>) -> int {
        match self {
            SetLessThanDependencies::Slt { signed_lt } => col(row, signed_lt.is_lt.is_lt),
            SetLessThanDependencies::Sltu { is_lt } => col(row, is_lt.is_lt),
        }
    }
}

/// The witnesses of a set-less-than circuit.
#[derive(Debug)]
pub struct SetLessThanConfig {
    pub r_insn: RInstructionConfig,
    pub rs1_read: UInt,
    pub rs2_read: UInt,
    /// The limbs of the destination
    pub rd_written: Vec<Expression>,
    pub deps: SetLessThanDependencies,
}

/// The outcome of the comparison of two words.
pub open spec fn less_than(signed: bool, a: int, b: int) -> bool {
    if signed {
        signed_word(a) < signed_word(b)
    } else {
        a < b
    }
}

impl SetLessThanConfig {
    /// The number of witnesses.
    pub open spec fn size(&self) -> int {
        11 + self.deps.size()
    }

    /// The layout of the witnesses.
    pub open spec fn at(&self, base: int) -> bool {
        &&& self.rs1_read.at(base)
        &&& self.rs2_read.at(base + 2)
        &&& self.deps.at(self.rs1_read, self.rs2_read, base + 4)
        &&& self.r_insn.at(base + 4 + self.deps.size())
    }

    /// The constraints of the circuit.
    pub open spec fn holds(&self, row: Seq<Goldilocks>) -> bool {
        self.deps.holds(self.rs1_read, self.rs2_read, row)
    }

    /// The limbs of the destination.
    pub open spec fn written(&self, row: Seq<Goldilocks>) -> Seq<int> {
        seq![self.deps.outcome(row), 0int]
    }

    /// What the circuit of an instruction adds to a circuit builder.
    pub open spec fn builds(
        &self,
        kind: InsnKind,
        before: CircuitBuilder,
        after: CircuitBuilder,
    ) -> bool {
        &&& self.at(before.num_witin as int)
        &&& self.deps is Slt == (kind == InsnKind::SLT)
        &&& after.num_witin == before.num_witin + self.size()
        &&& self.rd_written@.len() == 2
        &&& plain(self.rd_written@[0])
        &&& plain(self.rd_written@[1])
        &&& forall|row: Seq<Goldilocks>| #[trigger]
            value(self.rd_written@[0], row) == self.deps.outcome(row)
        &&& forall|row: Seq<Goldilocks>| #[trigger] value(self.rd_written@[1], row) == 0
        &&& forall|row: Seq<Goldilocks>| #[trigger]
            after.satisfied(row) == (before.satisfied(row) && self.holds(row))
        &&& forall|row: Seq<Goldilocks>| #[trigger]
            after.looked_up(row) == before.looked_up(row) + self.deps.lookups(row)
        &&& adds_records(before.records@, after.records@)
        &&& forall|row: Seq<Goldilocks>, k: int|
            0 <= k < 6 ==> #[trigger] record_values(
                after.records@[before.records@.len() + k],
                row,
            ) == self.r_insn.bus(
                kind,
                self.rs1_read.lookups(row),
                self.rs2_read.lookups(row),
                self.written(row),
                row,
            )[k]
    }

    /// The row holds the comparison of a step.
    pub open spec fn assigned(&self, row: Seq<Goldilocks>, step: StepRecord) -> bool {
        &&& self.holds(row)
        &&& self.rs1_read.holds_word(row, step.rs1->0)
        &&& self.rs2_read.holds_word(row, step.rs2->0)
        &&& self.written(row) == seq![
            if less_than(self.deps is Slt, step.rs1->0 as int, step.rs2->0 as int) {
                1int
            } else {
                0int
            },
            0int,
        ]
        &&& self.r_insn.assigned(row, step)
    }
}

/// A row that satisfies the constraints, with 32-bit sources, writes the outcome of the
/// comparison.
pub proof fn lemma_set_less_than(config: SetLessThanConfig, row: Seq<Goldilocks>, base: int)
    requires
        config.at(base),
        config.holds(row),
        config.rs1_read.in_range(row),
        config.rs2_read.in_range(row),
    ensures
        config.written(row) == seq![
            if less_than(
                config.deps is Slt,
                config.rs1_read.val(row),
                config.rs2_read.val(row),
            ) {
                1int
            } else {
                0int
            },
            0int,
        ],
{
    let m = modulus();
    let (a, b) = (config.rs1_read.val(row), config.rs2_read.val(row));
    lemma_uint_val(col(row, config.rs1_read.lo), col(row, config.rs1_read.hi));
    lemma_uint_val(col(row, config.rs2_read.lo), col(row, config.rs2_read.hi));
    match config.deps {
        SetLessThanDependencies::Slt { signed_lt } => {
            lemma_signed(signed_lt.lhs, row);
            lemma_signed(signed_lt.rhs, row);
            lemma_inner_lt(
                signed_lt.is_lt.inner,
                signed_word(a),
                signed_word(b),
                col(row, signed_lt.is_lt.is_lt),
                row,
            );
        },
        SetLessThanDependencies::Sltu { is_lt } => {
            lemma_small_mod(a as nat, m as nat);
            lemma_small_mod(b as nat, m as nat);
            lemma_inner_lt(is_lt.inner, a, b, col(row, is_lt.is_lt), row);
        },
    }
}

/// The comparison instructions.
pub trait LessThanInstruction: RIVInstruction {
    proof fn lemma_kind()
        ensures
            Self::spec_inst_kind() == InsnKind::SLT || Self::spec_inst_kind() == InsnKind::SLTU,
    ;
}

pub struct SltOp {}

impl RIVInstruction for SltOp {
    open spec fn spec_inst_kind() -> InsnKind {
        InsnKind::SLT
    }

    fn inst_kind() -> (r: InsnKind) {
        InsnKind::SLT
    }
}

impl LessThanInstruction for SltOp {
    proof fn lemma_kind() {
    }
}

pub struct SltuOp {}

impl RIVInstruction for SltuOp {
    open spec fn spec_inst_kind() -> InsnKind {
        InsnKind::SLTU
    }

    fn inst_kind() -> (r: InsnKind) {
        InsnKind::SLTU
    }
}

impl LessThanInstruction for SltuOp {
    proof fn lemma_kind() {
    }
}

/// The circuit of a comparison instruction.
pub struct SetLessThanInstruction<I>(pub PhantomData<I>);

pub type SltInstruction = SetLessThanInstruction<SltOp>;

pub type SltuInstruction = SetLessThanInstruction<SltuOp>;

fn outcome_register(outcome: Expression) -> (r: Vec<Expression>)
    requires
        plain(outcome),
    ensures
        r@.len() == 2,
        plain(r@[0]),
        plain(r@[1]),
        forall|row: Seq<Goldilocks>| #[trigger] value(r@[0], row) == value(outcome, row),
        forall|row: Seq<Goldilocks>| #[trigger] value(r@[1], row) == 0,
{
    let mut limbs: Vec<Expression> = Vec::new();
    limbs.push(outcome);
    limbs.push(constant(0));
    limbs
}

impl<I: LessThanInstruction> SetLessThanInstruction<I> {
    /// Builds the circuit.
    pub fn construct_circuit(cb: &mut CircuitBuilder) -> (r: Result<SetLessThanConfig, ZKVMError>)
        requires
            old(cb).wf(),
            old(cb).num_witin + 16 <= u16::MAX,
        ensures
            final(cb).wf(),
            r matches Ok(config) && config.builds(I::spec_inst_kind(), *old(cb), *final(cb)),
    {
        proof {
            I::lemma_kind();
        }
        let kind = I::inst_kind();
        let rs1_read = UInt::new_unchecked(cb);
        let rs2_read = UInt::new_unchecked(cb);
        let signed: bool = matches!(kind, InsnKind::SLT);
        let (deps, rd_written) = if signed {
            let signed_lt = SignedLtConfig::construct_circuit(
                cb,
                "rs1 < rs2",
                &rs1_read,
                &rs2_read,
            );
            let rd_written = outcome_register(signed_lt.expr());
            (SetLessThanDependencies::Slt { signed_lt }, rd_written)
        } else {
            let is_lt = IsLtConfig::construct_circuit(
                cb,
                "rs1 < rs2",
                rs1_read.value(),
                rs2_read.value(),
            );
            let rd_written = outcome_register(is_lt.expr());
            (SetLessThanDependencies::Sltu { is_lt }, rd_written)
        };
        let mut register: Vec<Expression> = Vec::new();
        register.push(rd_written[0].clone());
        register.push(rd_written[1].clone());
        let r_insn = RInstructionConfig::construct_circuit(
            cb,
            kind,
            rs1_read.register_expr(),
            rs2_read.register_expr(),
            register,
        );
        Ok(SetLessThanConfig { r_insn, rs1_read, rs2_read, rd_written, deps })
    }
}

impl<I: LessThanInstruction> Instruction for SetLessThanInstruction<I> {
    type InstructionConfig = SetLessThanConfig;

    open spec fn fits(config: SetLessThanConfig, num_witin: int) -> bool {
        &&& config.at(config.rs1_read.lo.id as int)
        &&& config.rs1_read.lo.id + config.size() <= num_witin
    }

    open spec fn accepts(step: StepRecord) -> bool {
        step.rs1 is Some && step.rs2 is Some && step.rd is Some
    }

    open spec fn assigned(
        config: SetLessThanConfig,
        row: Seq<Goldilocks>,
        step: StepRecord,
    ) -> bool {
        config.assigned(row, step)
    }

    open spec fn lookups(config: SetLessThanConfig, row: Seq<Goldilocks>) -> Seq<int> {
        config.deps.lookups(row)
    }

    open spec fn spec_name() -> Seq<char> {
        spec_kind_name(I::spec_inst_kind())@
    }

    fn name() -> (r: String) {
        kind_name(I::inst_kind())
    }

    fn assign_instance(
        config: &SetLessThanConfig,
        instance: &mut Vec<Goldilocks>,
        lk_multiplicity: &mut LkMultiplicity,
        step: &StepRecord,
    ) -> (r: Result<(), ZKVMError>) {
        let rs1: u32 = step.rs1.unwrap();
        let rs2: u32 = step.rs2.unwrap();
        config.r_insn.assign_instance(instance, step);
        config.rs1_read.assign(instance, rs1);
        config.rs2_read.assign(instance, rs2);
        match &config.deps {
            SetLessThanDependencies::Slt { signed_lt } => {
                signed_lt.assign_instance(instance, lk_multiplicity, rs1, rs2);
            },
            SetLessThanDependencies::Sltu { is_lt } => {
                is_lt.assign_instance_signed(instance, lk_multiplicity, rs1 as i64, rs2 as i64);
            },
        }
        proof {
            let row = instance@;
            lemma_word_val(config.rs1_read, row, rs1);
            lemma_word_val(config.rs2_read, row, rs2);
            lemma_small_mod(rs1 as nat, modulus() as nat);
            lemma_small_mod(rs2 as nat, modulus() as nat);
        }
        Ok(())
    }
}

} // verus!
