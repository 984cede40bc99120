//! Layered circuits: each layer computes the evaluations that the layers after it claim.
use vstd::prelude::*;

use crate::expression::Expression;

pub mod booleanhypercube;
pub mod claims;
pub mod layer_laws;
pub mod rotation_laws;
pub mod sum_laws;
pub mod tower_chip;
pub mod utils;
pub mod wiring_laws;
pub mod zerocheck_layer;

verus! {

/// Where the evaluation of an output comes from.
#[derive(Debug)]
pub enum EvalExpression {
    /// The output is zero everywhere
    Zero,
    /// The evaluation with the given index
    Single(usize),
    /// The evaluation with the given index, scaled and shifted
    Linear(usize, Box<Expression>, Box<Expression>),
    /// Evaluations of the parts of a table, with the variables that tell the parts apart
    Partition(Vec<EvalExpression>, Vec<(usize, Expression)>),
}

/// How a layer is proved.
#[derive(Clone, Copy, Debug, PartialEq, Eq, Structural)]
pub enum LayerType {
    Sumcheck,
    Zerocheck,
    Linear,
}

/// A group of outputs that are claimed at one point, with the expression of the equality
/// polynomial of that point.
#[derive(Debug)]
pub struct OutputGroup {
    pub eq: Option<Expression>,
    pub evals: Vec<EvalExpression>,
}

/// Pairs of which the second expression is the first one rotated, with the equality polynomials
/// of the left, the right and the origin point.
#[derive(Debug)]
pub struct RotationExprs {
    pub eqs: Option<(Expression, Expression, Expression)>,
    pub pairs: Vec<(Expression, Expression)>,
}

/// A layer.
#[derive(Debug)]
pub struct Layer {
    pub name: String,
    pub ty: LayerType,
    /// The largest degree of an expression
    pub max_expr_degree: usize,
    /// The outputs
    pub exprs: Vec<Expression>,
    pub challenges: Vec<Expression>,
    /// Where the evaluations of the inputs are placed
    pub in_eval_expr: Vec<EvalExpression>,
    pub expr_evals: Vec<OutputGroup>,
    pub rotation_exprs: RotationExprs,
    pub rotation_cyclic_group_log2: usize,
    pub rotation_cyclic_subgroup_size: usize,
    pub expr_names: Vec<String>,
}

/// The largest degree among the first expressions.
pub open spec fn spec_max_degree(exprs: Seq<Expression>, n: int) -> nat
    decreases n,
{
    if n <= 0 {
        0
    } else {
        let rest = spec_max_degree(exprs, n - 1);
        if exprs[n - 1].spec_degree() > rest {
            exprs[n - 1].spec_degree()
        } else {
            rest
        }
    }
}

/// A number, or the largest machine integer if it is larger than that.
pub open spec fn capped(n: nat) -> int {
    if n <= usize::MAX {
        n as int
    } else {
        usize::MAX as int
    }
}

impl Layer {
    /// A layer with the given parts.
    pub fn new(
        name: String,
        ty: LayerType,
        exprs: Vec<Expression>,
        challenges: Vec<Expression>,
        in_eval_expr: Vec<EvalExpression>,
        expr_evals: Vec<OutputGroup>,
        rotation_exprs: RotationExprs,
        rotation_cyclic_group_log2: usize,
        rotation_cyclic_subgroup_size: usize,
        expr_names: Vec<String>,
    ) -> (r: Layer)
        ensures
            r.name == name,
            r.ty == ty,
            r.max_expr_degree == capped(spec_max_degree(exprs@, exprs@.len() as int)),
            r.exprs == exprs,
            r.challenges == challenges,
            r.in_eval_expr == in_eval_expr,
            r.expr_evals == expr_evals,
            r.rotation_exprs == rotation_exprs,
            r.rotation_cyclic_group_log2 == rotation_cyclic_group_log2,
            r.rotation_cyclic_subgroup_size == rotation_cyclic_subgroup_size,
            r.expr_names == expr_names,
    {
        let mut max_expr_degree: usize = 0;
        let mut i: usize = 0;
        while i < exprs.len()
            invariant
                i <= exprs@.len(),
                max_expr_degree == capped(spec_max_degree(exprs@, i as int)),
            decreases exprs@.len() - i,
        {
            let degree: usize = exprs[i].degree();
            if degree > max_expr_degree {
                max_expr_degree = degree;
            }
            i = i + 1;
        }
        Layer {
            name,
            ty,
            max_expr_degree,
            exprs,
            challenges,
            in_eval_expr,
            expr_evals,
            rotation_exprs,
            rotation_cyclic_group_log2,
            rotation_cyclic_subgroup_size,
            expr_names,
        }
    }
}

/// A circuit under construction: what has been allocated, and the layers from the output on.
#[derive(Debug)]
pub struct Chip {
    pub n_committed: usize,
    pub n_challenges: usize,
    pub n_evaluations: usize,
    /// The indices of the evaluations of the outputs
    pub final_out_evals: Vec<usize>,
    /// Which evaluation opens which committed polynomial
    pub openings: Vec<(usize, EvalExpression)>,
    pub layers: Vec<Layer>,
}

/// Consecutive evaluations.
pub open spec fn singles(from: int, n: nat) -> Seq<EvalExpression> {
    Seq::new(n, |i: int| EvalExpression::Single((from + i) as usize))
}

/// Consecutive evaluations.
pub fn single_evals(from: usize, n: usize) -> (r: Vec<EvalExpression>)
    requires
        from + n <= usize::MAX,
    ensures
        r@ == singles(from as int, n as nat),
{
    let mut r: Vec<EvalExpression> = Vec::with_capacity(n);
    let mut i: usize = 0;
    while i < n
        invariant
            i <= n,
            from + n <= usize::MAX,
            r@ == singles(from as int, i as nat),
        decreases n - i,
    {
        r.push(EvalExpression::Single(from + i));
        i = i + 1;
        assert(r@ =~= singles(from as int, i as nat));
    }
    r
}

impl Chip {
    pub fn new() -> (r: Chip)
        ensures
            r.n_committed == 0,
            r.n_challenges == 0,
            r.n_evaluations == 0,
            r.final_out_evals@ == Seq::<usize>::empty(),
            r.openings@ == Seq::<(usize, EvalExpression)>::empty(),
            r.layers@ == Seq::<Layer>::empty(),
    {
        Chip {
            n_committed: 0,
            n_challenges: 0,
            n_evaluations: 0,
            final_out_evals: Vec::new(),
            openings: Vec::new(),
            layers: Vec::new(),
        }
    }

    /// Allocates committed polynomials; returns the index of the first one.
    pub fn allocate_committed(&mut self, n: usize) -> (r: usize)
        requires
            old(self).n_committed + n <= usize::MAX,
        ensures
            r == old(self).n_committed,
            *final(self) == (Chip { n_committed: (old(self).n_committed + n) as usize, ..*old(self) }),
    {
        let r: usize = self.n_committed;
        self.n_committed = self.n_committed + n;
        r
    }

    /// Allocates the evaluations of the outputs; returns the index of the first one.
    pub fn allocate_output_evals(&mut self, n: usize) -> (r: usize)
        requires
            old(self).n_evaluations + n <= usize::MAX,
        ensures
            r == old(self).n_evaluations,
            final(self).n_committed == old(self).n_committed,
            final(self).n_challenges == old(self).n_challenges,
            final(self).n_evaluations == old(self).n_evaluations + n,
            final(self).final_out_evals@ == old(self).final_out_evals@ + Seq::new(
                n as nat,
                |i: int| (r + i) as usize,
            ),
            final(self).openings == old(self).openings,
            final(self).layers == old(self).layers,
    {
        let r: usize = self.n_evaluations;
        let mut i: usize = 0;
        let ghost before = self.final_out_evals@;
        assert(before =~= before + Seq::new(0, |i: int| (r + i) as usize));
        while i < n
            invariant
                i <= n,
                r + n <= usize::MAX,
                r == old(self).n_evaluations,
                self.n_committed == old(self).n_committed,
                self.n_challenges == old(self).n_challenges,
                self.n_evaluations == old(self).n_evaluations,
                self.openings == old(self).openings,
                self.layers == old(self).layers,
                self.final_out_evals@ == before + Seq::new(i as nat, |i: int| (r + i) as usize),
            decreases n - i,
        {
            self.final_out_evals.push(r + i);
            i = i + 1;
            assert(self.final_out_evals@ =~= before + Seq::new(i as nat, |i: int| (r + i) as usize));
        }
        self.n_evaluations = self.n_evaluations + n;
        r
    }

    /// Allocates the witnesses of a layer and the equality polynomials that it is proved with;
    /// returns the index of the evaluation of the first witness. The witnesses are the columns
    /// from zero on, the equality polynomials follow them.
    pub fn allocate_wits_in_zero_layer(&mut self, n: usize, n_eqs: usize) -> (r: usize)
        requires
            old(self).n_evaluations + n + n_eqs <= usize::MAX,
        ensures
            r == old(self).n_evaluations,
            *final(self) == (Chip {
                n_evaluations: (old(self).n_evaluations + n + n_eqs) as usize,
                ..*old(self)
            }),
    {
        let r: usize = self.n_evaluations;
        self.n_evaluations = self.n_evaluations + n + n_eqs;
        r
    }

    /// Allocates challenges; returns the index of the first one.
    pub fn allocate_challenges(&mut self, n: usize) -> (r: usize)
        requires
            old(self).n_challenges + n <= usize::MAX,
        ensures
            r == old(self).n_challenges,
            *final(self) == (Chip {
                n_challenges: (old(self).n_challenges + n) as usize,
                ..*old(self)
            }),
    {
        let r: usize = self.n_challenges;
        self.n_challenges = self.n_challenges + n;
        r
    }

    /// Opens a committed polynomial with an evaluation.
    pub fn allocate_opening(&mut self, committed: usize, eval: EvalExpression)
        ensures
            final(self).openings@ == old(self).openings@.push((committed, eval)),
            final(self).n_committed == old(self).n_committed,
            final(self).n_challenges == old(self).n_challenges,
            final(self).n_evaluations == old(self).n_evaluations,
            final(self).final_out_evals == old(self).final_out_evals,
            final(self).layers == old(self).layers,
    {
        self.openings.push((committed, eval));
    }

    /// Adds the layer below the last one.
    pub fn add_layer(&mut self, layer: Layer)
        ensures
            final(self).layers@ == old(self).layers@.push(layer),
            final(self).n_committed == old(self).n_committed,
            final(self).n_challenges == old(self).n_challenges,
            final(self).n_evaluations == old(self).n_evaluations,
            final(self).final_out_evals == old(self).final_out_evals,
            final(self).openings == old(self).openings,
    {
        self.layers.push(layer);
    }
}

} // verus!
