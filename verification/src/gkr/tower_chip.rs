//! A circuit that sums up fractions layer by layer: each layer adds the two halves of the fractions
//! below it.
use vstd::arithmetic::power2::*;
use vstd::prelude::*;

use crate::expression::laws::{lemma_eval_add, lemma_eval_mul};
use crate::expression::{Env, Expression};
use crate::field::{Goldilocks, GoldilocksExt2};
use crate::gkr::{
    capped, single_evals, singles, spec_max_degree, Chip, EvalExpression, Layer, LayerType,
    OutputGroup, RotationExprs,
};
use crate::text::{append, decimal, decimal_text};
use crate::tower::{frac_add, Frac};
use crate::util::spec_next_power_of_two;
use crate::witness::{spec_next_pow2_instance_padding, InstancePaddingStrategy, RowMajorMatrix};

verus! {

/// The number of layers that add fractions.
#[derive(Clone, Copy, Debug, Default)]
pub struct TowerParams {
    pub height: usize,
}

/// Where the parts of the circuit stand.
#[derive(Debug)]
pub struct TowerChipLayout {
    pub params: TowerParams,
    pub committed_table_id: usize,
    pub committed_count_id: usize,
    /// The denominator and the numerator of the sum
    pub output_cumulative_sum: [EvalExpression; 2],
}

/// The evaluations that a layer allocates: two denominators, two numerators and the equality
/// polynomial.
pub const TOWER_LAYER_EVALS: usize = 5;

/// A challenge.
pub open spec fn challenge(id: int) -> Expression {
    Expression::Challenge(id as u16, 1, ext_one(), ext_zero())
}

/// One as it is stored in an expression.
pub open spec fn ext_one() -> GoldilocksExt2 {
    GoldilocksExt2 { c0: Goldilocks { value: 1 }, c1: Goldilocks { value: 0 } }
}

/// Zero as it is stored in an expression.
pub open spec fn ext_zero() -> GoldilocksExt2 {
    GoldilocksExt2 { c0: Goldilocks { value: 0 }, c1: Goldilocks { value: 0 } }
}

/// The evaluation of a table from those of its halves, told apart by a challenge.
pub open spec fn joins_halves(e: EvalExpression, first: int, challenge_id: int) -> bool {
    match e {
        EvalExpression::Partition(parts, vars) => {
            &&& parts@ == singles(first, 2)
            &&& vars@ == seq![(0usize, challenge(challenge_id))]
        },
        _ => false,
    }
}

/// Where the evaluations of a layer stand.
pub open spec fn layer_base(start: int, i: int) -> int {
    start + 2 + TOWER_LAYER_EVALS * i
}

/// The claim of the denominators (`part` 0) or the numerators (`part` 1) that a layer computes:
/// an output of the circuit, or both halves in the layer above.
pub open spec fn is_claim(e: EvalExpression, part: int, start: int, c: int, i: int) -> bool {
    if i == 0 {
        e == EvalExpression::Single((start + part) as usize)
    } else {
        joins_halves(e, layer_base(start, i - 1) + 2 * part, c + i - 1)
    }
}

/// The challenges that a layer uses: that of the layer above.
pub open spec fn layer_challenges(c: int, i: int) -> Seq<Expression> {
    if i == 0 {
        Seq::empty()
    } else {
        seq![challenge(c + i - 1)]
    }
}

/// The denominator and the numerator of the sum of two fractions.
pub open spec fn sum_exprs(d0: Expression, d1: Expression, n0: Expression, n1: Expression) -> Seq<
    Expression,
> {
    seq![d0.spec_mul(d1), d0.spec_mul(n1).spec_add(d1.spec_mul(n0))]
}

/// A layer has no rotations.
pub open spec fn rotates_nothing(layer: Layer) -> bool {
    &&& layer.rotation_exprs.eqs is None
    &&& layer.rotation_exprs.pairs@ == Seq::<(Expression, Expression)>::empty()
    &&& layer.rotation_cyclic_group_log2 == 0
    &&& layer.rotation_cyclic_subgroup_size == 0
}

/// The layer that adds the two halves of the fractions below it.
pub open spec fn is_tower_layer(layer: Layer, start: int, c: int, i: int) -> bool {
    let exprs = sum_exprs(
        Expression::WitIn(0),
        Expression::WitIn(1),
        Expression::WitIn(2),
        Expression::WitIn(3),
    );
    &&& layer.name@ == "Tower_layer_"@ + decimal_text(i as nat)
    &&& layer.ty is Zerocheck
    &&& layer.max_expr_degree == capped(spec_max_degree(exprs, 2))
    &&& layer.exprs@ == exprs
    &&& layer.challenges@ == layer_challenges(c, i)
    &&& layer.in_eval_expr@ == singles(layer_base(start, i), 4)
    &&& layer.expr_evals@.len() == 1
    &&& layer.expr_evals@[0].eq == Some(Expression::WitIn(4))
    &&& layer.expr_evals@[0].evals@.len() == 2
    &&& is_claim(layer.expr_evals@[0].evals@[0], 0, start, c, i)
    &&& is_claim(layer.expr_evals@[0].evals@[1], 1, start, c, i)
    &&& rotates_nothing(layer)
    &&& layer.expr_names@.len() == 2
    &&& layer.expr_names@[0]@ == "denominator"@
    &&& layer.expr_names@[1]@ == "numerator"@
}

/// The last layer takes the denominators from the table.
pub open spec fn is_table_layer(layer: Layer, start: int, c: int, height: int) -> bool {
    &&& layer.name@ == "Update_table"@
    &&& layer.ty is Linear
    &&& layer.max_expr_degree == capped(spec_max_degree(seq![Expression::WitIn(0)], 1))
    &&& layer.exprs@ == seq![Expression::WitIn(0)]
    &&& layer.challenges@ == layer_challenges(c, height)
    &&& layer.in_eval_expr@ == singles(layer_base(start, height), 1)
    &&& layer.expr_evals@.len() == 1
    &&& layer.expr_evals@[0].eq is None
    &&& layer.expr_evals@[0].evals@.len() == 1
    &&& is_claim(layer.expr_evals@[0].evals@[0], 0, start, c, height)
    &&& rotates_nothing(layer)
    &&& layer.expr_names@.len() == 1
    &&& layer.expr_names@[0]@ == "table"@
}

/// The outputs of a layer are the denominator and the numerator of the sum of two fractions.
pub proof fn lemma_tower_layer(layer: Layer, start: int, c: int, i: int, env: Env)
    requires
        is_tower_layer(layer, start, c, i),
    ensures
        ({
            let (d0, d1) = (Expression::WitIn(0).eval(env), Expression::WitIn(1).eval(env));
            let (n0, n1) = (Expression::WitIn(2).eval(env), Expression::WitIn(3).eval(env));
            let sum = frac_add(Frac { p: n0, q: d0 }, Frac { p: n1, q: d1 });
            &&& layer.exprs@[0].eval(env) == sum.q
            &&& layer.exprs@[1].eval(env) == sum.p
        }),
{
    let (d0, d1) = (Expression::WitIn(0), Expression::WitIn(1));
    let (n0, n1) = (Expression::WitIn(2), Expression::WitIn(3));
    lemma_eval_mul(d0, d1, env);
    lemma_eval_mul(d0, n1, env);
    lemma_eval_mul(d1, n0, env);
    lemma_eval_add(d0.spec_mul(n1), d1.spec_mul(n0), env);
}

fn challenge_expr(id: usize) -> (r: Expression)
    requires
        id <= u16::MAX,
    ensures
        r == challenge(id as int),
{
    Expression::Challenge(
        id as u16,
        1,
        GoldilocksExt2 { c0: Goldilocks { value: 1 }, c1: Goldilocks { value: 0 } },
        GoldilocksExt2 { c0: Goldilocks { value: 0 }, c1: Goldilocks { value: 0 } },
    )
}

fn claim(part: usize, start: usize, c: usize, i: usize) -> (r: EvalExpression)
    requires
        part < 2,
        c + i <= 0x1_0000,
        layer_base(start as int, i as int) <= usize::MAX,
    ensures
        is_claim(r, part as int, start as int, c as int, i as int),
{
    if i == 0 {
        EvalExpression::Single(start + part)
    } else {
        let first: usize = start + 2 + TOWER_LAYER_EVALS * (i - 1) + 2 * part;
        let mut vars: Vec<(usize, Expression)> = Vec::new();
        vars.push((0, challenge_expr(c + i - 1)));
        assert(vars@ =~= seq![(0usize, challenge(c + i - 1))]);
        EvalExpression::Partition(single_evals(first, 2), vars)
    }
}

fn challenges_of(c: usize, i: usize) -> (r: Vec<Expression>)
    requires
        c + i <= 0x1_0000,
    ensures
        r@ == layer_challenges(c as int, i as int),
{
    let mut r: Vec<Expression> = Vec::new();
    if i > 0 {
        r.push(challenge_expr(c + i - 1));
    }
    assert(r@ =~= layer_challenges(c as int, i as int));
    r
}

fn tower_layer(start: usize, c: usize, i: usize) -> (r: Layer)
    requires
        c + i <= 0x1_0000,
        layer_base(start as int, i as int) + 4 <= usize::MAX,
    ensures
        is_tower_layer(r, start as int, c as int, i as int),
{
    let mut exprs: Vec<Expression> = Vec::new();
    exprs.push(Expression::WitIn(0) * Expression::WitIn(1));
    exprs.push(
        Expression::WitIn(0) * Expression::WitIn(3) + Expression::WitIn(1) * Expression::WitIn(2),
    );
    let mut evals: Vec<EvalExpression> = Vec::new();
    evals.push(claim(0, start, c, i));
    evals.push(claim(1, start, c, i));
    let mut groups: Vec<OutputGroup> = Vec::new();
    groups.push(OutputGroup { eq: Some(Expression::WitIn(4)), evals });
    let mut names: Vec<String> = Vec::new();
    names.push("denominator".to_owned());
    names.push("numerator".to_owned());
    let base: usize = start + 2 + TOWER_LAYER_EVALS * i;
    assert(exprs@ =~= sum_exprs(
        Expression::WitIn(0),
        Expression::WitIn(1),
        Expression::WitIn(2),
        Expression::WitIn(3),
    ));
    Layer::new(
        append("Tower_layer_".to_owned(), &decimal(i as u64)),
        LayerType::Zerocheck,
        exprs,
        challenges_of(c, i),
        single_evals(base, 4),
        groups,
        RotationExprs { eqs: None, pairs: Vec::new() },
        0,
        0,
        names,
    )
}

fn table_layer(start: usize, c: usize, height: usize) -> (r: Layer)
    requires
        c + height <= 0x1_0000,
        layer_base(start as int, height as int) + 1 <= usize::MAX,
    ensures
        is_table_layer(r, start as int, c as int, height as int),
{
    let mut exprs: Vec<Expression> = Vec::new();
    exprs.push(Expression::WitIn(0));
    let mut evals: Vec<EvalExpression> = Vec::new();
    evals.push(claim(0, start, c, height));
    let mut groups: Vec<OutputGroup> = Vec::new();
    groups.push(OutputGroup { eq: None, evals });
    let mut names: Vec<String> = Vec::new();
    names.push("table".to_owned());
    let base: usize = start + 2 + TOWER_LAYER_EVALS * height;
    assert(exprs@ =~= seq![Expression::WitIn(0)]);
    Layer::new(
        "Update_table".to_owned(),
        LayerType::Linear,
        exprs,
        challenges_of(c, height),
        single_evals(base, 1),
        groups,
        RotationExprs { eqs: None, pairs: Vec::new() },
        0,
        0,
        names,
    )
}

impl TowerChipLayout {
    /// A layout of which nothing is built yet.
    pub fn init(params: TowerParams) -> (r: TowerChipLayout)
        ensures
            r.params == params,
            r.committed_table_id == 0,
            r.committed_count_id == 0,
            r.output_cumulative_sum@ == seq![EvalExpression::Zero, EvalExpression::Zero],
    {
        let r = TowerChipLayout {
            params,
            committed_table_id: 0,
            committed_count_id: 0,
            output_cumulative_sum: [EvalExpression::Zero, EvalExpression::Zero],
        };
        assert(r.output_cumulative_sum@ =~= seq![EvalExpression::Zero, EvalExpression::Zero]);
        r
    }

    /// Allocates the table and the multiplicities.
    pub fn build_commit_phase(&mut self, chip: &mut Chip)
        requires
            old(chip).n_committed + 2 <= usize::MAX,
        ensures
            final(self).committed_table_id == old(chip).n_committed,
            final(self).committed_count_id == old(chip).n_committed + 1,
            final(self).params == old(self).params,
            final(self).output_cumulative_sum == old(self).output_cumulative_sum,
            *final(chip) == (Chip {
                n_committed: (old(chip).n_committed + 2) as usize,
                ..*old(chip)
            }),
    {
        let first: usize = chip.allocate_committed(2);
        self.committed_table_id = first;
        self.committed_count_id = first + 1;
    }

    /// Builds the layers from the sum down to the table.
    pub fn build_gkr_phase(&mut self, chip: &mut Chip)
        requires
            old(chip).n_challenges + old(self).params.height <= 0x1_0000,
            old(chip).n_evaluations + 3 + TOWER_LAYER_EVALS * old(self).params.height
                <= usize::MAX,
        ensures
            ({
                let (start, c) = (old(chip).n_evaluations as int, old(chip).n_challenges as int);
                let height = old(self).params.height as int;
                let kept = old(chip).layers@.len() as int;
                let layers = final(chip).layers@;
                let openings = final(chip).openings@;
                let opened = old(chip).openings@.len() as int;
                &&& final(self).params == old(self).params
                &&& final(self).committed_table_id == old(self).committed_table_id
                &&& final(self).committed_count_id == old(self).committed_count_id
                &&& final(self).output_cumulative_sum@ == singles(start, 2)
                &&& final(chip).n_committed == old(chip).n_committed
                &&& final(chip).n_challenges == c + height
                &&& final(chip).n_evaluations == layer_base(start, height) + 1
                &&& final(chip).final_out_evals@ == old(chip).final_out_evals@ + Seq::new(
                    2,
                    |i: int| (start + i) as usize,
                )
                &&& layers.len() == kept + height + 1
                &&& layers.take(kept) == old(chip).layers@
                &&& forall|i: int|
                    0 <= i < height ==> is_tower_layer(
                        #[trigger] layers.skip(kept)[i],
                        start,
                        c,
                        i,
                    )
                &&& is_table_layer(layers.last(), start, c, height)
                &&& openings.len() == opened + 2
                &&& openings.take(opened) == old(chip).openings@
                &&& openings[opened] == (
                    old(self).committed_table_id,
                    EvalExpression::Single(layer_base(start, height) as usize),
                )
                &&& openings[opened + 1].0 == old(self).committed_count_id
                &&& is_claim(openings[opened + 1].1, 1, start, c, height)
            }),
    {
        let height: usize = self.params.height;
        let c: usize = chip.n_challenges;
        let ghost kept = chip.layers@;
        let ghost opened = chip.openings@;
        let start: usize = chip.allocate_output_evals(2);
        self.output_cumulative_sum = [
            EvalExpression::Single(start),
            EvalExpression::Single(start + 1),
        ];
        assert(self.output_cumulative_sum@ =~= singles(start as int, 2));
        let mut i: usize = 0;
        assert(chip.layers@.take(kept.len() as int) =~= kept);
        while i < height
            invariant
                i <= height,
                c + height <= 0x1_0000,
                layer_base(start as int, height as int) + 1 <= usize::MAX,
                c == old(chip).n_challenges,
                chip.n_challenges == c + i,
                chip.n_committed == old(chip).n_committed,
                chip.n_evaluations == layer_base(start as int, i as int),
                chip.final_out_evals@ == old(chip).final_out_evals@ + Seq::new(
                    2,
                    |i: int| (start + i) as usize,
                ),
                chip.openings@ == opened,
                chip.layers@.len() == kept.len() + i,
                chip.layers@.take(kept.len() as int) == kept,
                forall|k: int|
                    0 <= k < i ==> is_tower_layer(
                        #[trigger] chip.layers@.skip(kept.len() as int)[k],
                        start as int,
                        c as int,
                        k,
                    ),
            decreases height - i,
        {
            let ghost before = chip.layers@;
            let _ = chip.allocate_wits_in_zero_layer(4, 1);
            chip.add_layer(tower_layer(start, c, i));
            let _ = chip.allocate_challenges(1);
            assert(chip.layers@.take(kept.len() as int) =~= before.take(kept.len() as int));
            assert forall|k: int| 0 <= k < i + 1 implies is_tower_layer(
                #[trigger] chip.layers@.skip(kept.len() as int)[k],
                start as int,
                c as int,
                k,
            ) by {
                if k < i {
                    assert(chip.layers@.skip(kept.len() as int)[k] == before.skip(
                        kept.len() as int,
                    )[k]);
                }
            }
            i = i + 1;
        }
        let ghost before = chip.layers@;
        let table: usize = chip.allocate_wits_in_zero_layer(1, 0);
        chip.add_layer(table_layer(start, c, height));
        chip.allocate_opening(self.committed_table_id, EvalExpression::Single(table));
        chip.allocate_opening(self.committed_count_id, claim(1, start, c, height));
        assert(chip.layers@.take(kept.len() as int) =~= before.take(kept.len() as int));
        assert(chip.openings@.take(opened.len() as int) =~= opened);
        assert forall|k: int| 0 <= k < height implies is_tower_layer(
            #[trigger] chip.layers@.skip(kept.len() as int)[k],
            start as int,
            c as int,
            k,
        ) by {
            assert(chip.layers@.skip(kept.len() as int)[k] == before.skip(kept.len() as int)[k]);
        }
    }

    /// The matrix of the table and the multiplicities.
    pub fn phase1_witness_group(&self, phase1: TowerChipTrace) -> (r: RowMajorMatrix)
        requires
            2 * spec_next_pow2_instance_padding(phase1.table_with_multiplicity@.len()) <= usize::MAX,
            spec_next_power_of_two(phase1.table_with_multiplicity@.len()) <= usize::MAX,
            2 * phase1.table_with_multiplicity@.len() <= usize::MAX,
        ensures
            r.wf(),
            r.num_rows == phase1.table_with_multiplicity@.len(),
            r.width() == 2,
            r.is_padded,
            r.padding_strategy is Default,
            r.cells() == pair_cells(phase1.table_with_multiplicity@) + Seq::new(
                ((spec_next_pow2_instance_padding(r.num_rows as nat) - r.num_rows) * 2) as nat,
                |i: int| 0u64,
            ),
    {
        let n: usize = phase1.table_with_multiplicity.len();
        let ghost pairs = phase1.table_with_multiplicity@;
        let mut values: Vec<Goldilocks> = Vec::new();
        let mut i: usize = 0;
        while i < n
            invariant
                i <= n,
                n == pairs.len(),
                pairs == phase1.table_with_multiplicity@,
                values@.len() == 2 * i,
                forall|k: int|
                    0 <= k < values@.len() ==> (#[trigger] values@[k]).value == pair_cells(pairs)[k],
            decreases n - i,
        {
            let (x, y) = phase1.table_with_multiplicity[i];
            values.push(Goldilocks { value: x });
            values.push(Goldilocks { value: y });
            i = i + 1;
        }
        let r = RowMajorMatrix::new_by_values(values, 2, InstancePaddingStrategy::Default);
        assert(values@.map_values(|x: Goldilocks| x.value) =~= pair_cells(pairs));
        r
    }
}

/// The entries of a table with their multiplicities.
pub struct TowerChipTrace {
    pub table_with_multiplicity: Vec<(u64, u64)>,
}

/// Pairs one after the other.
pub open spec fn pair_cells(pairs: Seq<(u64, u64)>) -> Seq<u64> {
    Seq::new(
        2 * pairs.len(),
        |k: int|
            if k % 2 == 0 {
                pairs[k / 2].0
            } else {
                pairs[k / 2].1
            },
    )
}

/// The denominator and the numerator of the sum of the two fractions at the top.
pub fn top_sum(
    d0: GoldilocksExt2,
    d1: GoldilocksExt2,
    n0: GoldilocksExt2,
    n1: GoldilocksExt2,
) -> (r: (GoldilocksExt2, GoldilocksExt2))
    ensures
        r.0@ == frac_add(Frac { p: n0@, q: d0@ }, Frac { p: n1@, q: d1@ }).q,
        r.1@ == frac_add(Frac { p: n0@, q: d0@ }, Frac { p: n1@, q: d1@ }).p,
{
    broadcast use crate::field::group_field;

    (d0 * d1, d0 * n1 + d1 * n0)
}

/// The layout and the circuit.
pub fn build_tower_chip(params: TowerParams) -> (r: (TowerChipLayout, Chip))
    requires
        params.height <= 0x1_0000,
        3 + TOWER_LAYER_EVALS * params.height <= usize::MAX,
    ensures
        r.0.params == params,
        r.0.committed_table_id == 0,
        r.0.committed_count_id == 1,
        r.0.output_cumulative_sum@ == singles(0, 2),
        r.1.n_committed == 2,
        r.1.n_challenges == params.height,
        r.1.n_evaluations == layer_base(0, params.height as int) + 1,
        r.1.final_out_evals@ == seq![0usize, 1usize],
        r.1.layers@.len() == params.height + 1,
        forall|i: int|
            0 <= i < params.height ==> is_tower_layer(#[trigger] r.1.layers@[i], 0, 0, i),
        is_table_layer(r.1.layers@.last(), 0, 0, params.height as int),
        r.1.openings@.len() == 2,
        r.1.openings@[0] == (
            0usize,
            EvalExpression::Single(layer_base(0, params.height as int) as usize),
        ),
        r.1.openings@[1].0 == 1,
        is_claim(r.1.openings@[1].1, 1, 0, 0, params.height as int),
{
    let mut chip = Chip::new();
    let mut layout = TowerChipLayout::init(params);
    layout.build_commit_phase(&mut chip);
    layout.build_gkr_phase(&mut chip);
    assert(chip.layers@.skip(0) =~= chip.layers@);
    assert(chip.final_out_evals@ =~= seq![0usize, 1usize]);
    (layout, chip)
}

} // verus!
