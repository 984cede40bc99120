//! Circuits and their inputs as the prover sees them.
use vstd::arithmetic::power2::*;
use vstd::prelude::*;

use crate::expression::monomial::Term;
use crate::expression::Expression;
use crate::field::GoldilocksExt2;
use crate::mle::{MultilinearExtension, Point};
use crate::util::{
    ceil_log2, lemma_ceil_log2, lemma_ceil_log2_pow2, lemma_pow2_monotone, spec_ceil_log2,
    spec_next_power_of_two,
};
use crate::witness::{next_pow2_instance_padding, spec_next_pow2_instance_padding};

verus! {

/// Tables of a product layer.
pub const NUM_FANIN: usize = 2;

/// Tables of the numerators, and of the denominators, of a layer of fractions.
pub const NUM_FANIN_LOGUP: usize = 2;

/// A record of a table on a memory bus, with the length of the table where it is fixed.
#[derive(Debug)]
pub struct SetTableExpression {
    pub expr: Expression,
    pub table_len: Option<usize>,
}

/// The records of a lookup table with the multiplicities with which they are looked up.
#[derive(Debug)]
pub struct LogupTableExpression {
    pub multiplicity: Expression,
    pub values: Expression,
}

/// The constraints of a circuit.
#[derive(Debug)]
pub struct ConstraintSystem {
    pub num_witin: u16,
    pub num_structural_witin: u16,
    pub num_fixed: usize,
    pub r_table_expressions: Vec<SetTableExpression>,
    pub r_expressions: Vec<Expression>,
    pub w_table_expressions: Vec<SetTableExpression>,
    pub w_expressions: Vec<Expression>,
    pub lk_table_expressions: Vec<LogupTableExpression>,
    pub lk_expressions: Vec<Expression>,
    /// Expressions of higher degree that are zero
    pub assert_zero_sumcheck_expressions: Vec<Expression>,
    pub assert_zero_sumcheck_names: Vec<String>,
    /// The public values that the circuit refers to
    pub instance_ids: Vec<usize>,
    pub num_layer_challenges: u16,
    /// The combined main constraint as a sum of products of columns
    pub backend_expr_monomial_form: Vec<Term<Expression, Expression>>,
    /// The number of columns of the combined main constraint
    pub num_backend_witin: u16,
}

impl ConstraintSystem {
    /// Some record or lookup belongs to an instruction.
    pub open spec fn spec_is_opcode_circuit(&self) -> bool {
        self.lk_expressions@.len() > 0 || self.r_expressions@.len() > 0
            || self.w_expressions@.len() > 0
    }

    /// Some record or lookup belongs to a table.
    pub open spec fn spec_is_table_circuit(&self) -> bool {
        self.lk_table_expressions@.len() > 0 || self.r_table_expressions@.len() > 0
            || self.w_table_expressions@.len() > 0
    }

    /// Whether some record or lookup belongs to an instruction.
    pub fn is_opcode_circuit(&self) -> (r: bool)
        ensures
            r == self.spec_is_opcode_circuit(),
    {
        self.lk_expressions.len() > 0 || self.r_expressions.len() > 0 || self.w_expressions.len()
            > 0
    }

    /// Whether some record or lookup belongs to a table.
    pub fn is_table_circuit(&self) -> (r: bool)
        ensures
            r == self.spec_is_table_circuit(),
    {
        self.lk_table_expressions.len() > 0 || self.r_table_expressions.len() > 0
            || self.w_table_expressions.len() > 0
    }
}

/// The tables of a circuit.
#[derive(Debug)]
pub struct ProofInput<'a> {
    pub witness: Vec<MultilinearExtension<'a>>,
    pub structural_witness: Vec<MultilinearExtension<'a>>,
    pub fixed: Vec<MultilinearExtension<'a>>,
    pub public_input: Vec<MultilinearExtension<'a>>,
    pub num_instances: usize,
}

impl<'a> ProofInput<'a> {
    /// The number of variables of the padded instances.
    pub open spec fn spec_log2_num_instances(&self) -> nat {
        spec_ceil_log2(spec_next_pow2_instance_padding(self.num_instances as nat))
    }

    /// The number of variables of the padded instances.
    pub fn log2_num_instances(&self) -> (r: usize)
        requires
            spec_next_power_of_two(self.num_instances as nat) <= usize::MAX,
        ensures
            r == self.spec_log2_num_instances(),
    {
        ceil_log2(next_pow2_instance_padding(self.num_instances))
    }
}

/// The layers of a tower, from the output on.
#[derive(Debug)]
pub struct TowerProverSpec<'a> {
    pub witness: Vec<Vec<MultilinearExtension<'a>>>,
}

/// The evaluations of the columns that the main constraints end in.
#[derive(Debug)]
pub struct MainSumcheckEvals {
    pub wits_in_evals: Vec<GoldilocksExt2>,
    pub fixed_in_evals: Vec<GoldilocksExt2>,
}

/// The evaluations of the towers with the points at which they were taken, layer by layer.
#[derive(Debug)]
pub struct TowerProofs {
    pub prod_specs_eval: Vec<Vec<Vec<GoldilocksExt2>>>,
    pub logup_specs_eval: Vec<Vec<Vec<GoldilocksExt2>>>,
    pub prod_specs_points: Vec<Vec<Point>>,
    pub logup_specs_points: Vec<Vec<Point>>,
}

/// Why a proof cannot be made.
#[derive(Debug)]
pub enum ZKVMError {
    InvalidWitness(String),
}

/// A circuit with a record of an instruction, whether a lookup, a read or a write, is that of an
/// instruction; one with a record of a table is that of a table.
pub proof fn lemma_circuit_kinds(cs: ConstraintSystem)
    ensures
        cs.lk_expressions@.len() > 0 ==> cs.spec_is_opcode_circuit(),
        cs.r_expressions@.len() > 0 ==> cs.spec_is_opcode_circuit(),
        cs.w_expressions@.len() > 0 ==> cs.spec_is_opcode_circuit(),
        cs.lk_expressions@.len() == 0 && cs.r_expressions@.len() == 0 && cs.w_expressions@.len()
            == 0 ==> !cs.spec_is_opcode_circuit(),
        cs.lk_table_expressions@.len() > 0 ==> cs.spec_is_table_circuit(),
        cs.r_table_expressions@.len() > 0 ==> cs.spec_is_table_circuit(),
        cs.w_table_expressions@.len() > 0 ==> cs.spec_is_table_circuit(),
        cs.lk_table_expressions@.len() == 0 && cs.r_table_expressions@.len() == 0
            && cs.w_table_expressions@.len() == 0 ==> !cs.spec_is_table_circuit(),
{
}

/// A table of the inputs has the fewest variables, at least one, with a row for each instance.
pub proof fn lemma_log2_num_instances(input: ProofInput, n: nat)
    ensures
        input.spec_log2_num_instances() >= 1,
        input.num_instances <= pow2(input.spec_log2_num_instances()),
        n >= 1 && input.num_instances <= pow2(n) ==> input.spec_log2_num_instances() <= n,
{
    let m = input.num_instances as nat;
    let log = spec_ceil_log2(m);
    lemma2_to64();
    lemma_ceil_log2(m);
    lemma_ceil_log2_pow2(log);
    lemma_ceil_log2_pow2(1);
    if log >= 1 {
        lemma_pow2_monotone(1, log);
    }
    if n >= 1 && m <= pow2(n) && input.spec_log2_num_instances() > n {
        lemma_pow2_monotone(n, (log - 1) as nat);
    }
}

} // verus!
