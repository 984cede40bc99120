//! The towers over the records of a circuit.
use vstd::arithmetic::power2::*;
use vstd::prelude::*;

use crate::expression::infer::{infer_shape, is_table_of, wit_infer_by_expr, Shape};
use crate::expression::Expression;
use crate::field::{e_mul, e_one, group_field, Ext, GoldilocksExt2};
use crate::mle::{chunk, MultilinearExtension};
use crate::multilinear::e_prod;
use crate::scheme::structs::{
    ConstraintSystem, LogupTableExpression, ProofInput, SetTableExpression, TowerProverSpec,
    NUM_FANIN, NUM_FANIN_LOGUP,
};
use crate::scheme::utils::{
    frac_view, infer_tower_logup_witness, infer_tower_product_witness, layer_view, length_above,
    masked, masked_mle_split_to_chunks,
};
use crate::ring::{lemma_e_mul_comm, lemma_e_mul_one};
use crate::tower::{
    frac_add, frac_sum, layer_product, lemma_frac_add_zero, lemma_frac_tower, lemma_prod_concat,
    lemma_product_tower, product_layer_above, Frac, FracLayer,
};
use crate::util::{is_pow2, lemma_ceil_log2_pow2, spec_ceil_log2, spec_next_power_of_two};

verus! {

broadcast use group_field;

/// The records of a circuit: reads, writes, the multiplicities and values of lookup tables, and
/// lookups, those of tables before those of instructions.
pub open spec fn record_exprs(cs: ConstraintSystem) -> Seq<Expression> {
    read_exprs(cs) + write_exprs(cs) + cs.lk_table_expressions@.map_values(
        |lk: LogupTableExpression| lk.multiplicity,
    ) + cs.lk_table_expressions@.map_values(|lk: LogupTableExpression| lk.values)
        + cs.lk_expressions@
}

/// The reads of a circuit.
pub open spec fn read_exprs(cs: ConstraintSystem) -> Seq<Expression> {
    cs.r_table_expressions@.map_values(|r: SetTableExpression| r.expr) + cs.r_expressions@
}

/// The writes of a circuit.
pub open spec fn write_exprs(cs: ConstraintSystem) -> Seq<Expression> {
    cs.w_table_expressions@.map_values(|w: SetTableExpression| w.expr) + cs.w_expressions@
}

/// The shape of the table of a record.
pub open spec fn record_shape(
    input: ProofInput,
    challenges: Seq<GoldilocksExt2>,
    expr: Expression,
) -> Option<Shape> {
    infer_shape(
        input.fixed@,
        input.witness@,
        input.structural_witness@,
        input.public_input@,
        challenges,
        expr,
    )
}

/// The tables are those of the expressions.
pub open spec fn are_records(
    records: Seq<MultilinearExtension>,
    exprs: Seq<Expression>,
    input: ProofInput,
    challenges: Seq<GoldilocksExt2>,
) -> bool {
    &&& records.len() == exprs.len()
    &&& forall|i: int|
        0 <= i < records.len() ==> {
            &&& (#[trigger] records[i]).wf()
            &&& record_shape(input, challenges, exprs[i]) == Some(
                Shape { num_vars: records[i].num_vars as nat, ext: records[i].is_ext() },
            )
            &&& is_table_of(
                records[i],
                input.fixed@,
                input.witness@,
                input.structural_witness@,
                input.public_input@,
                challenges,
                exprs[i],
            )
        }
}

fn push_set_exprs(exprs: &mut Vec<Expression>, tables: &Vec<SetTableExpression>)
    ensures
        final(exprs)@ == old(exprs)@ + tables@.map_values(|r: SetTableExpression| r.expr),
{
    let ghost before = exprs@;
    let ghost all = tables@.map_values(|r: SetTableExpression| r.expr);
    let mut i: usize = 0;
    assert(exprs@ =~= before + all.take(0));
    while i < tables.len()
        invariant
            i <= tables@.len(),
            all == tables@.map_values(|r: SetTableExpression| r.expr),
            exprs@ == before + all.take(i as int),
        decreases tables@.len() - i,
    {
        exprs.push(tables[i].expr.clone());
        i = i + 1;
        assert(exprs@ =~= before + all.take(i as int));
    }
    assert(all.take(i as int) =~= all);
}

fn push_exprs(exprs: &mut Vec<Expression>, more: &Vec<Expression>)
    ensures
        final(exprs)@ == old(exprs)@ + more@,
{
    let ghost before = exprs@;
    let mut i: usize = 0;
    assert(exprs@ =~= before + more@.take(0));
    while i < more.len()
        invariant
            i <= more@.len(),
            exprs@ == before + more@.take(i as int),
        decreases more@.len() - i,
    {
        exprs.push(more[i].clone());
        i = i + 1;
        assert(exprs@ =~= before + more@.take(i as int));
    }
    assert(more@.take(i as int) =~= more@);
}

fn push_lookup_tables(exprs: &mut Vec<Expression>, tables: &Vec<LogupTableExpression>)
    ensures
        final(exprs)@ == old(exprs)@ + tables@.map_values(
            |lk: LogupTableExpression| lk.multiplicity,
        ) + tables@.map_values(|lk: LogupTableExpression| lk.values),
{
    let ghost before = exprs@;
    let ghost multiplicities = tables@.map_values(|lk: LogupTableExpression| lk.multiplicity);
    let ghost values = tables@.map_values(|lk: LogupTableExpression| lk.values);
    let mut i: usize = 0;
    assert(exprs@ =~= before + multiplicities.take(0));
    while i < tables.len()
        invariant
            i <= tables@.len(),
            multiplicities == tables@.map_values(|lk: LogupTableExpression| lk.multiplicity),
            exprs@ == before + multiplicities.take(i as int),
        decreases tables@.len() - i,
    {
        exprs.push(tables[i].multiplicity.clone());
        i = i + 1;
        assert(exprs@ =~= before + multiplicities.take(i as int));
    }
    assert(multiplicities.take(i as int) =~= multiplicities);
    let ghost middle = exprs@;
    let mut i: usize = 0;
    assert(exprs@ =~= middle + values.take(0));
    while i < tables.len()
        invariant
            i <= tables@.len(),
            values == tables@.map_values(|lk: LogupTableExpression| lk.values),
            exprs@ == middle + values.take(i as int),
        decreases tables@.len() - i,
    {
        exprs.push(tables[i].values.clone());
        i = i + 1;
        assert(exprs@ =~= middle + values.take(i as int));
    }
    assert(values.take(i as int) =~= values);
}

/// The records of a circuit.
fn all_record_exprs(cs: &ConstraintSystem) -> (r: Vec<Expression>)
    ensures
        r@ == record_exprs(*cs),
{
    let mut exprs: Vec<Expression> = Vec::new();
    push_set_exprs(&mut exprs, &cs.r_table_expressions);
    push_exprs(&mut exprs, &cs.r_expressions);
    push_set_exprs(&mut exprs, &cs.w_table_expressions);
    push_exprs(&mut exprs, &cs.w_expressions);
    push_lookup_tables(&mut exprs, &cs.lk_table_expressions);
    push_exprs(&mut exprs, &cs.lk_expressions);
    assert(exprs@ =~= record_exprs(*cs));
    exprs
}

/// The tables of the records of a circuit.
pub fn infer_records(cs: &ConstraintSystem, input: &ProofInput, challenges: &[GoldilocksExt2]) -> (r:
    Vec<MultilinearExtension<'static>>)
    requires
        forall|i: int|
            0 <= i < record_exprs(*cs).len() ==> record_shape(
                *input,
                challenges@,
                #[trigger] record_exprs(*cs)[i],
            ) is Some,
    ensures
        are_records(r@, record_exprs(*cs), *input, challenges@),
{
    let exprs = all_record_exprs(cs);
    let mut r: Vec<MultilinearExtension<'static>> = Vec::with_capacity(exprs.len());
    let mut i: usize = 0;
    while i < exprs.len()
        invariant
            i <= exprs@.len(),
            exprs@ == record_exprs(*cs),
            forall|i: int|
                0 <= i < record_exprs(*cs).len() ==> record_shape(
                    *input,
                    challenges@,
                    #[trigger] record_exprs(*cs)[i],
                ) is Some,
            are_records(r@, exprs@.take(i as int), *input, challenges@),
        decreases exprs@.len() - i,
    {
        assert(record_shape(*input, challenges@, record_exprs(*cs)[i as int]) is Some);
        let record = wit_infer_by_expr(
            input.fixed.as_slice(),
            input.witness.as_slice(),
            input.structural_witness.as_slice(),
            input.public_input.as_slice(),
            challenges,
            &exprs[i],
        );
        let ghost before = r@;
        r.push(record);
        proof {
            assert forall|k: int| 0 <= k < i implies r@[k] == before[k] && exprs@.take(i + 1)[k]
                == exprs@.take(i as int)[k] by {}
        }
        i = i + 1;
    }
    assert(exprs@.take(i as int) =~= exprs@);
    r
}

/// The two halves of a table.
pub open spec fn halves(s: Seq<Ext>) -> Seq<Seq<Ext>> {
    seq![chunk(s, 2, 0), chunk(s, 2, 1)]
}

/// Each layer has the given number of tables, and each table of a layer has twice as many entries as
/// those of the layer above, from one entry on.
pub open spec fn has_layer_lengths(layers: Seq<Vec<MultilinearExtension>>, width: int) -> bool {
    &&& forall|k: int| 0 <= k < layers.len() ==> (#[trigger] layers[k])@.len() == width
    &&& forall|k: int, t: int|
        0 <= k < layers.len() && 0 <= t < width ==> (#[trigger] layers[k]@[t])@.len() == pow2(
            k as nat,
        )
}

/// The tower of products over the first entries of a table; the others count as one.
pub open spec fn is_product_tower(
    tower: TowerProverSpec,
    record: Seq<Ext>,
    num_instances: int,
    num_vars: int,
) -> bool {
    let layers = tower.witness@;
    &&& layers.len() == num_vars
    &&& layers.len() > 0
    &&& has_layer_lengths(layers, 2)
    &&& layer_view(layers.last()@) == halves(masked(record, num_instances, e_one()))
    &&& forall|k: int|
        0 <= k < layers.len() - 1 ==> layer_view((#[trigger] layers[k])@) == product_layer_above(
            layer_view(layers[k + 1]@),
        )
    &&& forall|t: int| 0 <= t < layers[0]@.len() ==> (#[trigger] layers[0]@[t]).is_ext()
}

/// The lengths of the layers of a tower are powers of two.
proof fn lemma_length_above(n: nat, k: nat)
    requires
        k <= n,
    ensures
        length_above(pow2(n), 2, k) == pow2((n - k) as nat),
    decreases k,
{
    if k > 0 {
        lemma_length_above(n, (k - 1) as nat);
        lemma_pow2_unfold((n - k + 1) as nat);
    }
}

proof fn lemma_half_length(num_vars: nat)
    requires
        num_vars >= 1,
    ensures
        pow2(num_vars) as int / 2 == pow2((num_vars - 1) as nat),
        is_pow2(pow2(num_vars) as int / 2),
        is_pow2(2),
        spec_ceil_log2(2) == 1,
{
    lemma_pow2_unfold(num_vars);
    lemma2_to64();
    lemma_ceil_log2_pow2(1);
    assert(is_pow2(pow2((num_vars - 1) as nat) as int));
    assert(is_pow2(pow2(1) as int));
}

/// The tower of products of a record.
pub fn product_tower(record: &MultilinearExtension, num_instances: usize) -> (r: TowerProverSpec<
    'static,
>)
    requires
        record.wf(),
        record.num_vars >= 1,
        num_instances <= record@.len(),
    ensures
        is_product_tower(r, record@, num_instances as int, record.num_vars as int),
{
    let n: usize = record.num_vars();
    proof {
        lemma_half_length(n as nat);
    }
    let last_layer = masked_mle_split_to_chunks(
        record,
        num_instances,
        NUM_FANIN,
        GoldilocksExt2::one(),
    );
    let ghost last = last_layer@;
    let ghost table = masked(record@, num_instances as int, e_one());
    proof {
        assert(layer_view(last) =~= halves(table)) by {
            assert(last[0]@ == chunk(table, 2, 0));
            assert(last[1]@ == chunk(table, 2, 1));
        }
        assert(last[0]@.len() == pow2((n - 1) as nat) && last[1]@.len() == pow2((n - 1) as nat));
        assert forall|k: nat| 1 <= k < n as int / spec_ceil_log2(NUM_FANIN as nat) as int implies
            is_pow2(#[trigger] length_above(last[0]@.len(), NUM_FANIN as nat, k) as int) by {
            lemma_length_above((n - 1) as nat, k);
        }
    }
    let witness = infer_tower_product_witness(n, last_layer, NUM_FANIN);
    proof {
        lemma_tower_lengths(witness@, n as nat);
        let first = witness@[0]@;
        assert forall|t: int| 0 <= t < first.len() implies (#[trigger] first[t]).is_ext() by {
            if n > 1 {
                assert(witness@[0]@[t].is_ext());
            } else {
                assert(witness@[0]@ == last);
            }
        }
    }
    TowerProverSpec { witness }
}

/// The lengths of the layers of a product tower.
proof fn lemma_tower_lengths(layers: Seq<Vec<MultilinearExtension>>, n: nat)
    requires
        n >= 1,
        layers.len() == n,
        layers.last()@.len() == 2,
        layers.last()@[0]@.len() == pow2((n - 1) as nat),
        layers.last()@[1]@.len() == pow2((n - 1) as nat),
        forall|k: int|
            0 <= k < layers.len() - 1 ==> layer_view((#[trigger] layers[k])@)
                == product_layer_above(layer_view(layers[k + 1]@)),
    ensures
        has_layer_lengths(layers, 2),
{
    assert forall|k: int| 0 <= k < n implies is_even_layer(#[trigger] layers[k]@, 2, k as nat) by {
        lemma_tower_length(layers, n, k);
    }
    lemma_lengths_from_layers(layers, 2);
}

/// Each table of the layer has `2^k` entries.
spec fn is_even_layer(layer: Seq<MultilinearExtension>, width: int, k: nat) -> bool {
    &&& layer.len() == width
    &&& forall|t: int| 0 <= t < width ==> (#[trigger] layer[t])@.len() == pow2(k)
}

proof fn lemma_lengths_from_layers(layers: Seq<Vec<MultilinearExtension>>, width: int)
    requires
        forall|k: int|
            0 <= k < layers.len() ==> is_even_layer(#[trigger] layers[k]@, width, k as nat),
    ensures
        has_layer_lengths(layers, width),
{
    assert forall|k: int| 0 <= k < layers.len() implies (#[trigger] layers[k])@.len() == width by {
        assert(is_even_layer(layers[k]@, width, k as nat));
    }
    assert forall|k: int, t: int| 0 <= k < layers.len() && 0 <= t < width implies (
    #[trigger] layers[k]@[t])@.len() == pow2(k as nat) by {
        assert(is_even_layer(layers[k]@, width, k as nat));
    }
}

proof fn lemma_tower_length(layers: Seq<Vec<MultilinearExtension>>, n: nat, k: int)
    requires
        n >= 1,
        0 <= k < n,
        layers.len() == n,
        layers.last()@.len() == 2,
        layers.last()@[0]@.len() == pow2((n - 1) as nat),
        layers.last()@[1]@.len() == pow2((n - 1) as nat),
        forall|k: int|
            0 <= k < layers.len() - 1 ==> layer_view((#[trigger] layers[k])@)
                == product_layer_above(layer_view(layers[k + 1]@)),
    ensures
        is_even_layer(layers[k]@, 2, k as nat),
    decreases n - k,
{
    if k < n - 1 {
        lemma_tower_length(layers, n, k + 1);
        let below = layer_view(layers[k + 1]@);
        let here = layer_view(layers[k]@);
        assert(here == product_layer_above(below));
        assert(layers[k + 1]@[0]@.len() == pow2((k + 1) as nat));
        lemma_pow2_unfold((k + 1) as nat);
        assert(below.len() == 2 && below[0] == layers[k + 1]@[0]@);
        assert(below[0].len() as int / 2 == pow2(k as nat));
        assert(here.len() == 2 && here[0].len() == pow2(k as nat) && here[1].len() == pow2(
            k as nat,
        ));
        assert(here[0] == layers[k]@[0]@ && here[1] == layers[k]@[1]@);
    }
}

proof fn lemma_frac_length(layers: Seq<Vec<MultilinearExtension>>, n: nat, k: int)
    requires
        n >= 1,
        0 <= k < n,
        layers.len() == n,
        forall|k: int| 0 <= k < layers.len() ==> (#[trigger] layers[k])@.len() == 4,
        is_even_layer(layers.last()@, 4, (n - 1) as nat),
        forall|k: int|
            0 <= k < layers.len() - 1 ==> frac_view((#[trigger] layers[k])@) == frac_view(
                layers[k + 1]@,
            ).above(),
    ensures
        is_even_layer(layers[k]@, 4, k as nat),
    decreases n - k,
{
    if k < n - 1 {
        lemma_frac_length(layers, n, k + 1);
        let below = frac_view(layers[k + 1]@);
        let here = frac_view(layers[k]@);
        assert(here == below.above());
        assert(layers[k + 1]@[2]@.len() == pow2((k + 1) as nat));
        lemma_pow2_unfold((k + 1) as nat);
        let layer = layers[k]@;
        assert(layer[0]@ == here.p1 && layer[1]@ == here.p2 && layer[2]@ == here.q1 && layer[3]@
            == here.q2);
        assert forall|t: int| 0 <= t < 4 implies (#[trigger] layer[t])@.len() == pow2(k as nat) by {
            assert(t == 0 || t == 1 || t == 2 || t == 3);
        }
    }
}

/// The fractions at the bottom of a tower: numerators that are not given are one, the entries of
/// denominators past the first ones are `default`.
pub open spec fn frac_bottom(
    numerators: Option<Seq<Ext>>,
    denominators: Seq<Ext>,
    num_instances: int,
    default: Ext,
) -> FracLayer {
    let q = masked(denominators, num_instances, default);
    let p = match numerators {
        Some(p) => masked(p, num_instances, e_one()),
        None => Seq::new(q.len(), |i: int| e_one()),
    };
    FracLayer { p1: chunk(p, 2, 0), p2: chunk(p, 2, 1), q1: chunk(q, 2, 0), q2: chunk(q, 2, 1) }
}

/// The tower of fractions over the first entries of tables.
pub open spec fn is_logup_tower(
    tower: TowerProverSpec,
    numerators: Option<Seq<Ext>>,
    denominators: Seq<Ext>,
    num_instances: int,
    default: Ext,
    num_vars: int,
) -> bool {
    let layers = tower.witness@;
    &&& layers.len() == num_vars
    &&& layers.len() > 0
    &&& has_layer_lengths(layers, 4)
    &&& frac_view(layers.last()@) == frac_bottom(numerators, denominators, num_instances, default)
    &&& forall|k: int|
        0 <= k < layers.len() - 1 ==> frac_view((#[trigger] layers[k])@) == frac_view(
            layers[k + 1]@,
        ).above()
    &&& forall|t: int| 0 <= t < 4 ==> (#[trigger] layers[0]@[t]).is_ext()
}

/// The tower of fractions of a lookup.
pub fn logup_tower(
    numerators: Option<&MultilinearExtension>,
    denominators: &MultilinearExtension,
    num_instances: usize,
    default: GoldilocksExt2,
) -> (r: TowerProverSpec<'static>)
    requires
        denominators.wf(),
        denominators.num_vars >= 1,
        num_instances <= denominators@.len(),
        numerators matches Some(p) ==> p.wf() && p.num_vars == denominators.num_vars,
    ensures
        is_logup_tower(
            r,
            match numerators {
                Some(p) => Some(p@),
                None => None,
            },
            denominators@,
            num_instances as int,
            default@,
            denominators.num_vars as int,
        ),
{
    let ghost n = denominators.num_vars as nat;
    proof {
        lemma_half_length(n);
        lemma_ceil_log2_pow2((n - 1) as nat);
    }
    let ghost half = pow2((n - 1) as nat);
    let ghost q = masked(denominators@, num_instances as int, default@);
    let lk_d = masked_mle_split_to_chunks(denominators, num_instances, NUM_FANIN_LOGUP, default);
    assert(lk_d@[0]@ == chunk(q, 2, 0) && lk_d@[1]@ == chunk(q, 2, 1));
    assert(lk_d@[0]@.len() == half && lk_d@[1]@.len() == half);
    let witness = match numerators {
        Some(p) => {
            let lk_n = masked_mle_split_to_chunks(
                p,
                num_instances,
                NUM_FANIN_LOGUP,
                GoldilocksExt2::one(),
            );
            let ghost t = masked(p@, num_instances as int, e_one());
            assert(lk_n@[0]@ == chunk(t, 2, 0) && lk_n@[1]@ == chunk(t, 2, 1));
            assert(lk_n@[0]@.len() == half && lk_n@[1]@.len() == half);
            infer_tower_logup_witness(Some(lk_n), lk_d)
        },
        None => {
            let ghost ones = Seq::new(q.len(), |i: int| e_one());
            assert(chunk(ones, 2, 0) =~= Seq::new(half, |i: int| e_one()));
            assert(chunk(ones, 2, 1) =~= Seq::new(half, |i: int| e_one()));
            infer_tower_logup_witness(None, lk_d)
        },
    };
    proof {
        let table = match numerators {
            Some(p) => Some(p@),
            None => None,
        };
        assert(frac_view(witness@.last()@) =~= frac_bottom(
            table,
            denominators@,
            num_instances as int,
            default@,
        ));
        let bottom = witness@.last()@;
        assert forall|t: int| 0 <= t < 4 implies (#[trigger] bottom[t])@.len() == half by {
            let view = frac_view(bottom);
            assert(t == 0 || t == 1 || t == 2 || t == 3);
            assert(view.p1 == bottom[0]@ && view.p2 == bottom[1]@ && view.q1 == bottom[2]@
                && view.q2 == bottom[3]@);
        }
        assert forall|k: int| 0 <= k < n implies is_even_layer(
            #[trigger] witness@[k]@,
            4,
            k as nat,
        ) by {
            lemma_frac_length(witness@, n, k);
        }
        lemma_lengths_from_layers(witness@, 4);
        assert forall|t: int| 0 <= t < 4 implies (#[trigger] witness@[0]@[t]).is_ext() by {
            if witness@.len() > 1 {
                assert(witness@[0]@[t].is_ext());
            } else {
                assert(witness@[0] == witness@.last());
            }
        }
    }
    TowerProverSpec { witness }
}

/// The first entries of the tables of a layer.
pub open spec fn are_first_entries(evals: Seq<GoldilocksExt2>, layer: Seq<MultilinearExtension>) -> bool {
    &&& evals.len() == layer.len()
    &&& forall|t: int| 0 <= t < evals.len() ==> (#[trigger] evals[t])@ == layer[t]@[0]
}

fn first_entries(layer: &Vec<MultilinearExtension>) -> (r: Vec<GoldilocksExt2>)
    requires
        forall|t: int|
            0 <= t < layer@.len() ==> (#[trigger] layer@[t]).is_ext() && layer@[t]@.len() > 0,
    ensures
        are_first_entries(r@, layer@),
{
    let mut r: Vec<GoldilocksExt2> = Vec::with_capacity(layer.len());
    let mut t: usize = 0;
    while t < layer.len()
        invariant
            t <= layer@.len(),
            forall|t: int|
                0 <= t < layer@.len() ==> (#[trigger] layer@[t]).is_ext() && layer@[t]@.len() > 0,
            r@.len() == t,
            forall|k: int| 0 <= k < t ==> (#[trigger] r@[k])@ == layer@[k]@[0],
        decreases layer@.len() - t,
    {
        assert(layer@[t as int].is_ext());
        r.push(layer[t].get_ext_field_vec()[0]);
        t = t + 1;
    }
    r
}

/// The outputs of towers: the entries of their first layers.
pub open spec fn are_outputs(
    evals: Seq<Vec<GoldilocksExt2>>,
    towers: Seq<TowerProverSpec>,
    from: int,
) -> bool {
    forall|i: int|
        0 <= i < evals.len() ==> are_first_entries(
            (#[trigger] evals[i])@,
            towers[from + i].witness@[0]@,
        )
}

/// The first layer of a tower has one entry in each table.
pub open spec fn has_output(tower: TowerProverSpec) -> bool {
    &&& tower.witness@.len() > 0
    &&& forall|t: int|
        0 <= t < tower.witness@[0]@.len() ==> (#[trigger] tower.witness@[0]@[t]).is_ext()
            && tower.witness@[0]@[t]@.len() > 0
}

fn tower_outputs(towers: &Vec<TowerProverSpec>, from: usize, to: usize) -> (r: Vec<
    Vec<GoldilocksExt2>,
>)
    requires
        from <= to <= towers@.len(),
        forall|i: int| 0 <= i < towers@.len() ==> has_output(#[trigger] towers@[i]),
    ensures
        r@.len() == to - from,
        are_outputs(r@, towers@, from as int),
{
    let mut r: Vec<Vec<GoldilocksExt2>> = Vec::with_capacity(to - from);
    let mut i: usize = from;
    while i < to
        invariant
            from <= i <= to <= towers@.len(),
            forall|i: int| 0 <= i < towers@.len() ==> has_output(#[trigger] towers@[i]),
            r@.len() == i - from,
            are_outputs(r@, towers@, from as int),
        decreases to - i,
    {
        assert(has_output(towers@[i as int]));
        r.push(first_entries(&towers[i].witness[0]));
        i = i + 1;
    }
    r
}

/// The records of a circuit have tables from which towers can be built.
pub open spec fn can_build_towers(
    cs: ConstraintSystem,
    input: ProofInput,
    challenges: Seq<GoldilocksExt2>,
) -> bool {
    let exprs = record_exprs(cs);
    let log2 = input.spec_log2_num_instances();
    let num_tables = cs.lk_table_expressions@.len();
    &&& challenges.len() == 2
    &&& spec_next_power_of_two(input.num_instances as nat) <= usize::MAX
    &&& input.witness@.len() == cs.num_witin
    &&& input.structural_witness@.len() == cs.num_structural_witin
    &&& input.fixed@.len() == cs.num_fixed
    &&& forall|i: int|
        0 <= i < input.witness@.len() ==> (#[trigger] input.witness@[i])@.len() == pow2(log2)
    &&& forall|i: int|
        0 <= i < input.structural_witness@.len() ==> (
        #[trigger] input.structural_witness@[i])@.len() == pow2(log2)
    &&& cs.spec_is_table_circuit() || cs.spec_is_opcode_circuit()
    &&& cs.r_table_expressions@.len() == cs.w_table_expressions@.len()
    &&& forall|i: int|
        0 <= i < cs.r_table_expressions@.len() ==> (
        #[trigger] cs.r_table_expressions@[i]).table_len == cs.w_table_expressions@[i].table_len
    &&& forall|i: int|
        0 <= i < exprs.len() ==> {
            let shape = record_shape(input, challenges, #[trigger] exprs[i]);
            &&& exprs[i].spec_degree() == 1
            &&& shape is Some
            &&& shape->0.num_vars >= 1
            &&& input.num_instances <= pow2(shape->0.num_vars)
            &&& i < read_exprs(cs).len() ==> shape->0.num_vars == log2
        }
    &&& forall|i: int|
        0 <= i < num_tables ==> record_shape(
            input,
            challenges,
            (#[trigger] cs.lk_table_expressions@[i]).multiplicity,
        )->0.num_vars == record_shape(
            input,
            challenges,
            cs.lk_table_expressions@[i].values,
        )->0.num_vars
}

/// The towers of the reads and writes.
pub open spec fn are_product_towers(
    towers: Seq<TowerProverSpec>,
    records: Seq<MultilinearExtension>,
    num_instances: int,
) -> bool {
    forall|i: int|
        0 <= i < towers.len() ==> is_product_tower(
            #[trigger] towers[i],
            records[i]@,
            num_instances,
            records[i].num_vars as int,
        )
}

/// The towers of the lookups: of the tables with their multiplicities, or of the lookups of
/// instructions where there is no table. `first` is the first record of a lookup.
pub open spec fn are_logup_towers(
    towers: Seq<TowerProverSpec>,
    records: Seq<MultilinearExtension>,
    first: int,
    num_tables: int,
    num_instances: int,
    alpha: Ext,
) -> bool {
    forall|i: int|
        0 <= i < towers.len() ==> is_logup_tower(
            #[trigger] towers[i],
            if num_tables > 0 {
                Some(records[first + i]@)
            } else {
                None
            },
            records[first + num_tables + i]@,
            num_instances,
            alpha,
            records[first + num_tables + i].num_vars as int,
        )
}

/// The towers of a circuit and their outputs.
pub open spec fn is_tower_witness(
    cs: ConstraintSystem,
    input: ProofInput,
    challenges: Seq<GoldilocksExt2>,
    out_evals: Seq<Vec<Vec<GoldilocksExt2>>>,
    records: Seq<MultilinearExtension>,
    prod_specs: Seq<TowerProverSpec>,
    lookup_specs: Seq<TowerProverSpec>,
) -> bool {
    let num_reads = read_exprs(cs).len() as int;
    let num_writes = write_exprs(cs).len() as int;
    let num_tables = cs.lk_table_expressions@.len() as int;
    let n = input.num_instances as int;
    &&& are_records(records, record_exprs(cs), input, challenges)
    &&& prod_specs.len() == num_reads + num_writes
    &&& are_product_towers(prod_specs, records, n)
    &&& lookup_specs.len() == (if num_tables > 0 {
        num_tables
    } else {
        cs.lk_expressions@.len() as int
    })
    &&& are_logup_towers(
        lookup_specs,
        records,
        num_reads + num_writes,
        num_tables,
        n,
        challenges[0]@,
    )
    &&& out_evals.len() == 3
    &&& out_evals[0]@.len() == num_reads
    &&& are_outputs(out_evals[0]@, prod_specs, 0)
    &&& out_evals[1]@.len() == num_writes
    &&& are_outputs(out_evals[1]@, prod_specs, num_reads)
    &&& out_evals[2]@.len() == lookup_specs.len()
    &&& are_outputs(out_evals[2]@, lookup_specs, 0)
}

/// The towers of a circuit: their outputs for the reads, the writes and the lookups, the tables of
/// the records, the product towers of the reads and writes, and the towers of fractions of the
/// lookups.
pub fn build_tower_witness(
    cs: &ConstraintSystem,
    input: &ProofInput,
    challenges: &[GoldilocksExt2; 2],
) -> (r: (
    Vec<Vec<Vec<GoldilocksExt2>>>,
    Vec<MultilinearExtension<'static>>,
    Vec<TowerProverSpec<'static>>,
    Vec<TowerProverSpec<'static>>,
))
    requires
        can_build_towers(*cs, *input, challenges@),
    ensures
        is_tower_witness(*cs, *input, challenges@, r.0@, r.1@, r.2@, r.3@),
{
    let ghost exprs = record_exprs(*cs);
    proof {
        assert forall|i: int| 0 <= i < exprs.len() implies record_shape(
            *input,
            challenges@,
            #[trigger] exprs[i],
        ) is Some by {}
    }
    let num_instances: usize = input.num_instances;
    let records = infer_records(cs, input, challenges.as_slice());
    let ghost total = records@.len();
    let num_tables: usize = cs.lk_table_expressions.len();
    let num_lookups: usize = cs.lk_expressions.len();
    let num_records: usize = records.len();
    proof {
        assert(total == read_exprs(*cs).len() + write_exprs(*cs).len() + 2 * num_tables
            + num_lookups);
    }
    let num_sets: usize = num_records - num_lookups - num_tables - num_tables;
    let num_reads: usize = cs.r_table_expressions.len() + cs.r_expressions.len();
    let prod_specs = build_product_towers(&records, num_sets, num_instances);
    let lookup_specs = build_logup_towers(
        &records,
        num_sets,
        num_tables,
        num_lookups,
        num_instances,
        challenges[0],
    );
    let out_evals = vec![
        tower_outputs(&prod_specs, 0, num_reads),
        tower_outputs(&prod_specs, num_reads, num_sets),
        tower_outputs(&lookup_specs, 0, lookup_specs.len()),
    ];
    (out_evals, records, prod_specs, lookup_specs)
}

/// The record has a table with entries for the instances.
pub open spec fn fits_instances(record: MultilinearExtension, num_instances: int) -> bool {
    record.wf() && record.num_vars >= 1 && num_instances <= record@.len()
}

proof fn lemma_product_output(tower: TowerProverSpec, record: Seq<Ext>, n: int, num_vars: int)
    requires
        is_product_tower(tower, record, n, num_vars),
    ensures
        has_output(tower),
{
    lemma2_to64();
    assert forall|t: int| 0 <= t < tower.witness@[0]@.len() implies (
    #[trigger] tower.witness@[0]@[t]).is_ext() && tower.witness@[0]@[t]@.len() > 0 by {
        assert(tower.witness@[0]@.len() == 2);
        assert(tower.witness@[0]@[t]@.len() == pow2(0));
    }
}

proof fn lemma_logup_output(
    tower: TowerProverSpec,
    numerators: Option<Seq<Ext>>,
    denominators: Seq<Ext>,
    n: int,
    default: Ext,
    num_vars: int,
)
    requires
        is_logup_tower(tower, numerators, denominators, n, default, num_vars),
    ensures
        has_output(tower),
{
    lemma2_to64();
    assert forall|t: int| 0 <= t < tower.witness@[0]@.len() implies (
    #[trigger] tower.witness@[0]@[t]).is_ext() && tower.witness@[0]@[t]@.len() > 0 by {
        assert(tower.witness@[0]@.len() == 4);
        assert(tower.witness@[0]@[t]@.len() == pow2(0));
    }
}

fn build_product_towers(records: &Vec<MultilinearExtension>, n: usize, num_instances: usize) -> (r:
    Vec<TowerProverSpec<'static>>)
    requires
        n <= records@.len(),
        forall|i: int|
            0 <= i < n ==> fits_instances(#[trigger] records@[i], num_instances as int),
    ensures
        r@.len() == n,
        are_product_towers(r@, records@, num_instances as int),
        forall|i: int| 0 <= i < r@.len() ==> has_output(#[trigger] r@[i]),
{
    let mut r: Vec<TowerProverSpec<'static>> = Vec::with_capacity(n);
    let mut i: usize = 0;
    while i < n
        invariant
            i <= n <= records@.len(),
            forall|i: int|
                0 <= i < n ==> fits_instances(#[trigger] records@[i], num_instances as int),
            r@.len() == i,
            are_product_towers(r@, records@, num_instances as int),
            forall|i: int| 0 <= i < r@.len() ==> has_output(#[trigger] r@[i]),
        decreases n - i,
    {
        assert(fits_instances(records@[i as int], num_instances as int));
        let tower = product_tower(&records[i], num_instances);
        proof {
            let record = records@[i as int];
            lemma_product_output(tower, record@, num_instances as int, record.num_vars as int);
        }
        r.push(tower);
        i = i + 1;
    }
    r
}

fn build_logup_towers(
    records: &Vec<MultilinearExtension>,
    first: usize,
    num_tables: usize,
    num_lookups: usize,
    num_instances: usize,
    alpha: GoldilocksExt2,
) -> (r: Vec<TowerProverSpec<'static>>)
    requires
        first + 2 * num_tables + num_lookups == records@.len(),
        forall|i: int|
            0 <= i < records@.len() ==> fits_instances(
                #[trigger] records@[i],
                num_instances as int,
            ),
        forall|i: int|
            first <= i < first + num_tables ==> (#[trigger] records@[i]).num_vars == records@[i
                + num_tables].num_vars,
    ensures
        r@.len() == (if num_tables > 0 {
            num_tables
        } else {
            num_lookups
        }),
        are_logup_towers(
            r@,
            records@,
            first as int,
            num_tables as int,
            num_instances as int,
            alpha@,
        ),
        forall|i: int| 0 <= i < r@.len() ==> has_output(#[trigger] r@[i]),
{
    let total: usize = records.len();
    let n: usize = if num_tables > 0 {
        num_tables
    } else {
        num_lookups
    };
    let mut r: Vec<TowerProverSpec<'static>> = Vec::with_capacity(n);
    let mut i: usize = 0;
    while i < n
        invariant
            i <= n,
            n == (if num_tables > 0 {
                num_tables
            } else {
                num_lookups
            }),
            total == records@.len(),
            first + 2 * num_tables + num_lookups == total,
            forall|i: int|
                0 <= i < records@.len() ==> fits_instances(
                    #[trigger] records@[i],
                    num_instances as int,
                ),
            forall|i: int|
                first <= i < first + num_tables ==> (#[trigger] records@[i]).num_vars == records@[i
                    + num_tables].num_vars,
            r@.len() == i,
            are_logup_towers(
                r@,
                records@,
                first as int,
                num_tables as int,
                num_instances as int,
                alpha@,
            ),
            forall|i: int| 0 <= i < r@.len() ==> has_output(#[trigger] r@[i]),
        decreases n - i,
    {
        let denominators = &records[first + num_tables + i];
        let ghost d = records@[first + num_tables + i];
        assert(fits_instances(d, num_instances as int));
        let tower = if num_tables > 0 {
            let ghost m = records@[first + i];
            assert(fits_instances(m, num_instances as int));
            assert(m.num_vars == d.num_vars);
            logup_tower(Some(&records[first + i]), denominators, num_instances, alpha)
        } else {
            logup_tower(None, denominators, num_instances, alpha)
        };
        proof {
            let numerators = if num_tables > 0 {
                Some(records@[first + i]@)
            } else {
                None
            };
            lemma_logup_output(
                tower,
                numerators,
                d@,
                num_instances as int,
                alpha@,
                d.num_vars as int,
            );
        }
        r.push(tower);
        i = i + 1;
    }
    r
}

proof fn lemma_product_of_two(a: Ext, b: Ext)
    requires
        a.valid(),
        b.valid(),
    ensures
        e_prod(seq![a, b]) == e_mul(a, b),
        e_prod(seq![a]) == a,
{
    reveal_with_fuel(e_prod, 3);
    let s = seq![a, b];
    assert(s.drop_last() =~= seq![a]);
    assert(seq![a].drop_last() =~= Seq::<Ext>::empty());
    lemma_e_mul_comm(e_one(), a);
    lemma_e_mul_one(a);
    assert(e_prod(seq![a]) == a);
}

/// The halves of a table have its product.
proof fn lemma_halves_product(s: Seq<Ext>)
    requires
        s.len() % 2 == 0,
    ensures
        layer_product(halves(s)) == e_prod(s),
{
    let (a, b) = (chunk(s, 2, 0), chunk(s, 2, 1));
    assert(a + b =~= s);
    lemma_prod_concat(a, b);
    let h = halves(s);
    assert(Seq::new(h.len(), |t: int| e_prod(h[t])) =~= seq![e_prod(a), e_prod(b)]);
    lemma_product_of_two(e_prod(a), e_prod(b));
}

/// The outputs of a product tower multiply to the product of the entries of the record, those past
/// the instances left out.
pub proof fn lemma_product_tower_output(
    tower: TowerProverSpec,
    record: MultilinearExtension,
    num_instances: int,
    evals: Seq<GoldilocksExt2>,
)
    requires
        record.wf(),
        record.num_vars >= 1,
        is_product_tower(tower, record@, num_instances, record.num_vars as int),
        are_first_entries(evals, tower.witness@[0]@),
    ensures
        evals.len() == 2,
        e_mul(evals[0]@, evals[1]@) == e_prod(masked(record@, num_instances, e_one())),
{
    let layers = tower.witness@;
    let n = layers.len() as int;
    let views = Seq::new(layers.len(), |k: int| layer_view(layers[k]@));
    assert forall|k: int| 0 <= k < n implies (#[trigger] views[k]).len() == 2 && views[k][0].len()
        == pow2(k as nat) && views[k][1].len() == pow2(k as nat) by {
        assert(layers[k]@.len() == 2);
        assert(layers[k]@[0]@.len() == pow2(k as nat));
        assert(layers[k]@[1]@.len() == pow2(k as nat));
    }
    assert forall|k: int| 0 <= k < n - 1 implies #[trigger] views[k] == product_layer_above(
        views[k + 1],
    ) by {
        assert(layer_view(layers[k]@) == product_layer_above(layer_view(layers[k + 1]@)));
    }
    assert forall|k: int| 1 <= k < n implies (#[trigger] views[k]).len() > 0 && views[k][0].len()
        as int % views[k].len() as int == 0 by {
        lemma_pow2_unfold(k as nat);
    }
    lemma_product_tower(views);
    let table = masked(record@, num_instances, e_one());
    lemma_pow2_unfold(record.num_vars as nat);
    lemma_halves_product(table);
    lemma2_to64();
    let (a, b) = (evals[0]@, evals[1]@);
    let first = views[0];
    assert(layers[0]@[0]@.len() == 1 && layers[0]@[1]@.len() == 1);
    assert(first[0] =~= seq![a]);
    assert(first[1] =~= seq![b]);
    lemma_product_of_two(a, b);
    lemma_product_of_two(b, a);
    assert(Seq::new(first.len(), |t: int| e_prod(first[t])) =~= seq![a, b]);
}

/// The outputs of a tower of fractions add up to the sum of the fractions at its bottom.
pub proof fn lemma_logup_tower_output(
    tower: TowerProverSpec,
    numerators: Option<Seq<Ext>>,
    denominators: MultilinearExtension,
    num_instances: int,
    default: Ext,
    evals: Seq<GoldilocksExt2>,
)
    requires
        denominators.wf(),
        denominators.num_vars >= 1,
        numerators matches Some(p) ==> p.len() == denominators@.len(),
        is_logup_tower(
            tower,
            numerators,
            denominators@,
            num_instances,
            default,
            denominators.num_vars as int,
        ),
        are_first_entries(evals, tower.witness@[0]@),
    ensures
        evals.len() == 4,
        frac_add(
            (Frac { p: evals[0]@, q: evals[2]@ }),
            (Frac { p: evals[1]@, q: evals[3]@ }),
        ) == frac_bottom(numerators, denominators@, num_instances, default).total(),
{
    let layers = tower.witness@;
    let n = layers.len() as int;
    let views = Seq::new(layers.len(), |k: int| frac_view(layers[k]@));
    lemma_pow2_unfold(denominators.num_vars as nat);
    assert forall|k: int| 0 <= k < n - 1 implies #[trigger] views[k] == views[k + 1].above() by {
        assert(frac_view(layers[k]@) == frac_view(layers[k + 1]@).above());
    }
    assert forall|k: int| 1 <= k < n implies (#[trigger] views[k]).q1.len() % 2 == 0 by {
        assert(layers[k]@[2]@.len() == pow2(k as nat));
        lemma_pow2_unfold(k as nat);
    }
    lemma_frac_tower(views);
    lemma2_to64();
    let first = views[0];
    assert(layers[0]@.len() == 4);
    assert(layers[0]@[2]@.len() == 1);
    let (a, b) = (Frac { p: evals[0]@, q: evals[2]@ }, Frac { p: evals[1]@, q: evals[3]@ });
    assert(first.first() =~= seq![a]);
    assert(first.second() =~= seq![b]);
    lemma_frac_of_one(a);
    lemma_frac_of_one(b);
}

proof fn lemma_frac_of_one(a: Frac)
    requires
        a.p.valid(),
        a.q.valid(),
    ensures
        frac_sum(seq![a]) == a,
{
    reveal_with_fuel(frac_sum, 2);
    assert(seq![a].drop_last() =~= Seq::<Frac>::empty());
    lemma_frac_add_zero(a);
}

} // verus!
