//! What the outputs of the towers of a circuit say of its records.
use vstd::arithmetic::power2::*;
use vstd::prelude::*;

use crate::expression::infer::row_env;
use crate::expression::Expression;
use crate::field::{e_mul, e_one, group_field, Ext, GoldilocksExt2};
use crate::mle::MultilinearExtension;
use crate::multilinear::e_prod;
use crate::ring::lemma_e_mul_one;
use crate::scheme::cpu::{
    are_first_entries, can_build_towers, frac_bottom, is_logup_tower, is_product_tower,
    is_tower_witness, lemma_logup_tower_output, lemma_product_tower_output, read_exprs,
    record_exprs, record_shape, write_exprs,
};
use crate::scheme::structs::{ConstraintSystem, ProofInput, TowerProverSpec};
use crate::scheme::utils::{frac_input, masked};
use crate::tower::{
    frac_add, frac_sum, lemma_e_prod_valid, lemma_frac_sum_concat, lemma_prod_concat,
    lemma_prod_ones, Frac,
};

verus! {

broadcast use group_field;

/// The two outputs of a product tower.
pub open spec fn product_of(evals: Seq<GoldilocksExt2>) -> Ext {
    e_mul(evals[0]@, evals[1]@)
}

/// The two outputs of a tower of fractions, the numerators before the denominators.
pub open spec fn sum_of(evals: Seq<GoldilocksExt2>) -> Frac {
    frac_add(
        Frac { p: evals[0]@, q: evals[2]@ },
        Frac { p: evals[1]@, q: evals[3]@ },
    )
}

/// The outputs of a product tower multiply to the product of the entries of the instances.
pub proof fn lemma_instances_product(
    tower: TowerProverSpec,
    record: MultilinearExtension,
    num_instances: int,
    evals: Seq<GoldilocksExt2>,
)
    requires
        record.wf(),
        record.num_vars >= 1,
        0 <= num_instances <= record@.len(),
        is_product_tower(tower, record@, num_instances, record.num_vars as int),
        are_first_entries(evals, tower.witness@[0]@),
    ensures
        evals.len() == 2,
        product_of(evals) == e_prod(record@.take(num_instances)),
{
    lemma_product_tower_output(tower, record, num_instances, evals);
    let rest = Seq::new((record@.len() - num_instances) as nat, |i: int| e_one());
    assert(masked(record@, num_instances, e_one()) =~= record@.take(num_instances) + rest);
    lemma_prod_concat(record@.take(num_instances), rest);
    lemma_prod_ones(rest);
    lemma_e_prod_valid(record@.take(num_instances));
    lemma_e_mul_one(e_prod(record@.take(num_instances)));
}

/// The outputs of a tower of fractions add up to the sum of the fractions of the instances and
/// one fraction with the numerator one and the default denominator for each row after them.
pub proof fn lemma_instances_sum(
    tower: TowerProverSpec,
    numerators: Option<Seq<Ext>>,
    denominators: MultilinearExtension,
    num_instances: int,
    default: Ext,
    evals: Seq<GoldilocksExt2>,
)
    requires
        denominators.wf(),
        denominators.num_vars >= 1,
        0 <= num_instances <= denominators@.len(),
        numerators matches Some(p) ==> p.len() == denominators@.len(),
        is_logup_tower(
            tower,
            numerators,
            denominators@,
            num_instances,
            default,
            denominators.num_vars as int,
        ),
        are_first_entries(evals, tower.witness@[0]@),
    ensures
        evals.len() == 4,
        sum_of(evals) == frac_add(
            frac_sum(
                Seq::new(
                    num_instances as nat,
                    |i: int|
                        Frac {
                            p: if numerators is Some {
                                numerators->0[i]
                            } else {
                                e_one()
                            },
                            q: denominators@[i],
                        },
                ),
            ),
            frac_sum(
                Seq::new(
                    (denominators@.len() - num_instances) as nat,
                    |i: int| Frac { p: e_one(), q: default },
                ),
            ),
        ),
{
    lemma_logup_tower_output(tower, numerators, denominators, num_instances, default, evals);
    let bottom = frac_bottom(numerators, denominators@, num_instances, default);
    let first = Seq::new(
        num_instances as nat,
        |i: int|
            Frac {
                p: if numerators is Some {
                    numerators->0[i]
                } else {
                    e_one()
                },
                q: denominators@[i],
            },
    );
    let rest = Seq::new(
        (denominators@.len() - num_instances) as nat,
        |i: int| Frac { p: e_one(), q: default },
    );
    lemma_pow2_unfold(denominators.num_vars as nat);
    assert(bottom.first() + bottom.second() =~= first + rest);
    lemma_frac_sum_concat(bottom.first(), bottom.second());
    lemma_frac_sum_concat(first, rest);
}

/// What the tables hold after the instances does not change what the outputs add up to.
pub proof fn lemma_padding_unread(
    towers: (TowerProverSpec, TowerProverSpec),
    numerators: (Option<Seq<Ext>>, Option<Seq<Ext>>),
    denominators: (MultilinearExtension, MultilinearExtension),
    num_instances: int,
    default: Ext,
    evals: (Seq<GoldilocksExt2>, Seq<GoldilocksExt2>),
)
    requires
        denominators.0.wf() && denominators.1.wf(),
        1 <= denominators.0.num_vars == denominators.1.num_vars,
        0 <= num_instances <= denominators.0@.len(),
        numerators.0 matches Some(p) ==> p.len() == denominators.0@.len(),
        numerators.1 matches Some(p) ==> p.len() == denominators.1@.len(),
        is_logup_tower(
            towers.0,
            numerators.0,
            denominators.0@,
            num_instances,
            default,
            denominators.0.num_vars as int,
        ),
        is_logup_tower(
            towers.1,
            numerators.1,
            denominators.1@,
            num_instances,
            default,
            denominators.1.num_vars as int,
        ),
        are_first_entries(evals.0, towers.0.witness@[0]@),
        are_first_entries(evals.1, towers.1.witness@[0]@),
        numerators.0 is Some <==> numerators.1 is Some,
        forall|i: int|
            0 <= i < num_instances ==> {
                &&& (#[trigger] denominators.0@[i]) == denominators.1@[i]
                &&& numerators.0 is Some ==> numerators.0->0[i] == numerators.1->0[i]
            },
    ensures
        sum_of(evals.0) == sum_of(evals.1),
{
    lemma_instances_sum(
        towers.0,
        numerators.0,
        denominators.0,
        num_instances,
        default,
        evals.0,
    );
    lemma_instances_sum(
        towers.1,
        numerators.1,
        denominators.1,
        num_instances,
        default,
        evals.1,
    );
    let first = Seq::new(
        num_instances as nat,
        |i: int|
            Frac {
                p: if numerators.0 is Some {
                    numerators.0->0[i]
                } else {
                    e_one()
                },
                q: denominators.0@[i],
            },
    );
    let second = Seq::new(
        num_instances as nat,
        |i: int|
            Frac {
                p: if numerators.1 is Some {
                    numerators.1->0[i]
                } else {
                    e_one()
                },
                q: denominators.1@[i],
            },
    );
    assert(first =~= second);
}

/// The value of an expression at a row of a circuit's tables.
pub open spec fn value_at(
    expr: Expression,
    input: ProofInput,
    challenges: Seq<GoldilocksExt2>,
    row: int,
) -> Ext {
    expr.eval(
        row_env(
            input.fixed@,
            input.witness@,
            input.structural_witness@,
            input.public_input@,
            challenges,
            row,
        ),
    )
}

/// The values of an expression at the rows of the instances.
pub open spec fn instance_values(
    expr: Expression,
    input: ProofInput,
    challenges: Seq<GoldilocksExt2>,
) -> Seq<Ext> {
    Seq::new(input.num_instances as nat, |row: int| value_at(expr, input, challenges, row))
}

/// The table of a record holds its values, row by row.
proof fn lemma_record_values(
    cs: ConstraintSystem,
    input: ProofInput,
    challenges: Seq<GoldilocksExt2>,
    out_evals: Seq<Vec<Vec<GoldilocksExt2>>>,
    records: Seq<MultilinearExtension>,
    prod_specs: Seq<TowerProverSpec>,
    lookup_specs: Seq<TowerProverSpec>,
    i: int,
)
    requires
        can_build_towers(cs, input, challenges),
        is_tower_witness(cs, input, challenges, out_evals, records, prod_specs, lookup_specs),
        0 <= i < record_exprs(cs).len(),
    ensures
        records.len() == record_exprs(cs).len(),
        records[i].wf(),
        records[i].num_vars >= 1,
        records[i]@.len() == pow2(records[i].num_vars as nat),
        input.num_instances <= records[i]@.len(),
        records[i]@.take(input.num_instances as int) == instance_values(
            record_exprs(cs)[i],
            input,
            challenges,
        ),
        forall|row: int|
            0 <= row < records[i]@.len() ==> #[trigger] records[i]@[row] == value_at(
                record_exprs(cs)[i],
                input,
                challenges,
                row,
            ),
{
    let expr = record_exprs(cs)[i];
    assert(records[i].wf());
    lemma_pow2_unfold(records[i].num_vars as nat);
    lemma_pow2_pos((records[i].num_vars - 1) as nat);
    assert forall|row: int| 0 <= row < records[i]@.len() implies #[trigger] records[i]@[row]
        == value_at(expr, input, challenges, row) by {
        let env = row_env(
            input.fixed@,
            input.witness@,
            input.structural_witness@,
            input.public_input@,
            challenges,
            row,
        );
        assert(records[i]@[row] == expr.eval(env));
    }
    assert(records[i]@.take(input.num_instances as int) =~= instance_values(
        expr,
        input,
        challenges,
    ));
}

/// The outputs of the towers of the reads and of the writes, each in its place: those of tables,
/// then those of instructions. The two outputs of a tower multiply to the product of the record's
/// values at the instances.
pub proof fn lemma_set_outputs(
    cs: ConstraintSystem,
    input: ProofInput,
    challenges: Seq<GoldilocksExt2>,
    out_evals: Seq<Vec<Vec<GoldilocksExt2>>>,
    records: Seq<MultilinearExtension>,
    prod_specs: Seq<TowerProverSpec>,
    lookup_specs: Seq<TowerProverSpec>,
    i: int,
)
    requires
        can_build_towers(cs, input, challenges),
        is_tower_witness(cs, input, challenges, out_evals, records, prod_specs, lookup_specs),
    ensures
        out_evals.len() == 3,
        out_evals[0]@.len() == cs.r_table_expressions@.len() + cs.r_expressions@.len(),
        out_evals[1]@.len() == cs.w_table_expressions@.len() + cs.w_expressions@.len(),
        0 <= i < cs.r_table_expressions@.len() ==> product_of(out_evals[0]@[i]@) == e_prod(
            instance_values(cs.r_table_expressions@[i].expr, input, challenges),
        ),
        0 <= i < cs.r_expressions@.len() ==> product_of(
            out_evals[0]@[cs.r_table_expressions@.len() + i]@,
        ) == e_prod(instance_values(cs.r_expressions@[i], input, challenges)),
        0 <= i < cs.w_table_expressions@.len() ==> product_of(out_evals[1]@[i]@) == e_prod(
            instance_values(cs.w_table_expressions@[i].expr, input, challenges),
        ),
        0 <= i < cs.w_expressions@.len() ==> product_of(
            out_evals[1]@[cs.w_table_expressions@.len() + i]@,
        ) == e_prod(instance_values(cs.w_expressions@[i], input, challenges)),
{
    let reads = read_exprs(cs).len() as int;
    let writes = write_exprs(cs).len() as int;
    let n = input.num_instances as int;
    assert forall|k: int| 0 <= k < reads + writes implies e_prod(
        instance_values(#[trigger] record_exprs(cs)[k], input, challenges),
    ) == product_of(
        (if k < reads {
            out_evals[0]@[k]
        } else {
            out_evals[1]@[k - reads]
        })@,
    ) by {
        lemma_record_values(
            cs,
            input,
            challenges,
            out_evals,
            records,
            prod_specs,
            lookup_specs,
            k,
        );
        let tower = prod_specs[k];
        assert(is_product_tower(tower, records[k]@, n, records[k].num_vars as int));
        if k < reads {
            assert(are_first_entries(out_evals[0]@[k]@, prod_specs[0 + k].witness@[0]@));
            lemma_instances_product(tower, records[k], n, out_evals[0]@[k]@);
        } else {
            let j = k - reads;
            assert(are_first_entries(out_evals[1]@[j]@, prod_specs[reads + j].witness@[0]@));
            lemma_instances_product(tower, records[k], n, out_evals[1]@[j]@);
        }
    }
    let exprs = record_exprs(cs);
    let (r, w) = (cs.r_table_expressions@.len() as int, cs.w_table_expressions@.len() as int);
    if 0 <= i < r {
        assert(exprs[i] == cs.r_table_expressions@[i].expr);
    }
    if 0 <= i < cs.r_expressions@.len() {
        assert(exprs[r + i] == cs.r_expressions@[i]);
    }
    if 0 <= i < w {
        assert(exprs[reads + i] == cs.w_table_expressions@[i].expr);
    }
    if 0 <= i < cs.w_expressions@.len() {
        assert(exprs[reads + w + i] == cs.w_expressions@[i]);
    }
}

/// The outputs of the towers of a table's lookups. They add up to the sum, over the rows of the
/// instances, of the multiplicity over the value, and one over the first challenge for each row
/// after them.
pub proof fn lemma_table_outputs(
    cs: ConstraintSystem,
    input: ProofInput,
    challenges: Seq<GoldilocksExt2>,
    out_evals: Seq<Vec<Vec<GoldilocksExt2>>>,
    records: Seq<MultilinearExtension>,
    prod_specs: Seq<TowerProverSpec>,
    lookup_specs: Seq<TowerProverSpec>,
    i: int,
) -> (height: nat)
    requires
        can_build_towers(cs, input, challenges),
        is_tower_witness(cs, input, challenges, out_evals, records, prod_specs, lookup_specs),
        0 <= i < cs.lk_table_expressions@.len(),
    ensures
        out_evals.len() == 3,
        out_evals[2]@.len() == cs.lk_table_expressions@.len(),
        input.num_instances <= height,
        record_shape(input, challenges, cs.lk_table_expressions@[i].values) matches Some(shape)
            && height == pow2(shape.num_vars),
        sum_of(out_evals[2]@[i]@) == frac_add(
            frac_sum(
                Seq::new(
                    input.num_instances as nat,
                    |row: int|
                        Frac {
                            p: value_at(
                                cs.lk_table_expressions@[i].multiplicity,
                                input,
                                challenges,
                                row,
                            ),
                            q: value_at(
                                cs.lk_table_expressions@[i].values,
                                input,
                                challenges,
                                row,
                            ),
                        },
                ),
            ),
            frac_sum(
                Seq::new(
                    (height - input.num_instances) as nat,
                    |row: int| Frac { p: e_one(), q: challenges[0]@ },
                ),
            ),
        ),
{
    let first = read_exprs(cs).len() + write_exprs(cs).len();
    let tables = cs.lk_table_expressions@.len();
    let n = input.num_instances as int;
    let (a, b) = (first + i, first + tables + i);
    lemma_record_values(cs, input, challenges, out_evals, records, prod_specs, lookup_specs, a);
    lemma_record_values(cs, input, challenges, out_evals, records, prod_specs, lookup_specs, b);
    assert(record_exprs(cs)[a] == cs.lk_table_expressions@[i].multiplicity);
    assert(record_exprs(cs)[b] == cs.lk_table_expressions@[i].values);
    assert(records[a].wf() && records[b].wf());
    assert(records[a].num_vars == records[b].num_vars);
    let tower = lookup_specs[i];
    assert(is_logup_tower(
        tower,
        Some(records[a]@),
        records[b]@,
        n,
        challenges[0]@,
        records[b].num_vars as int,
    ));
    assert(are_first_entries(out_evals[2]@[i]@, lookup_specs[0 + i].witness@[0]@));
    lemma_instances_sum(
        tower,
        Some(records[a]@),
        records[b],
        n,
        challenges[0]@,
        out_evals[2]@[i]@,
    );
    let numerators = Some(records[a]@);
    assert(Seq::new(
        n as nat,
        |i: int|
            Frac {
                p: if numerators is Some {
                    numerators->0[i]
                } else {
                    e_one()
                },
                q: records[b]@[i],
            },
    ) =~= Seq::new(
        input.num_instances as nat,
        |row: int|
            Frac {
                p: value_at(cs.lk_table_expressions@[i].multiplicity, input, challenges, row),
                q: value_at(cs.lk_table_expressions@[i].values, input, challenges, row),
            },
    ));
    records[b]@.len()
}

/// The outputs of the towers of the lookups of instructions, in a circuit without lookup tables.
/// They add up to the sum of one over the value at each row of the instances, and one over the
/// first challenge for each row after them.
pub proof fn lemma_lookup_outputs(
    cs: ConstraintSystem,
    input: ProofInput,
    challenges: Seq<GoldilocksExt2>,
    out_evals: Seq<Vec<Vec<GoldilocksExt2>>>,
    records: Seq<MultilinearExtension>,
    prod_specs: Seq<TowerProverSpec>,
    lookup_specs: Seq<TowerProverSpec>,
    i: int,
) -> (height: nat)
    requires
        can_build_towers(cs, input, challenges),
        is_tower_witness(cs, input, challenges, out_evals, records, prod_specs, lookup_specs),
        cs.lk_table_expressions@.len() == 0,
        0 <= i < cs.lk_expressions@.len(),
    ensures
        out_evals.len() == 3,
        out_evals[2]@.len() == cs.lk_expressions@.len(),
        input.num_instances <= height,
        record_shape(input, challenges, cs.lk_expressions@[i]) matches Some(shape) && height
            == pow2(shape.num_vars),
        sum_of(out_evals[2]@[i]@) == frac_add(
            frac_sum(
                Seq::new(
                    input.num_instances as nat,
                    |row: int|
                        Frac {
                            p: e_one(),
                            q: value_at(cs.lk_expressions@[i], input, challenges, row),
                        },
                ),
            ),
            frac_sum(
                Seq::new(
                    (height - input.num_instances) as nat,
                    |row: int| Frac { p: e_one(), q: challenges[0]@ },
                ),
            ),
        ),
{
    let b = read_exprs(cs).len() + write_exprs(cs).len() + i;
    let n = input.num_instances as int;
    lemma_record_values(cs, input, challenges, out_evals, records, prod_specs, lookup_specs, b);
    assert(record_exprs(cs)[b] == cs.lk_expressions@[i]);
    let tower = lookup_specs[i];
    let none = None::<Seq<Ext>>;
    assert(is_logup_tower(
        tower,
        none,
        records[b]@,
        n,
        challenges[0]@,
        records[b].num_vars as int,
    ));
    assert(are_first_entries(out_evals[2]@[i]@, lookup_specs[0 + i].witness@[0]@));
    lemma_instances_sum(tower, none, records[b], n, challenges[0]@, out_evals[2]@[i]@);
    assert(Seq::new(
        n as nat,
        |i: int|
            Frac {
                p: if none is Some {
                    none->0[i]
                } else {
                    e_one()
                },
                q: records[b]@[i],
            },
    ) =~= Seq::new(
        input.num_instances as nat,
        |row: int|
            Frac { p: e_one(), q: value_at(cs.lk_expressions@[i], input, challenges, row) },
    ));
    records[b]@.len()
}

/// What a tower of fractions adds up without numerators are the inverses of its two tables; with
/// numerators, those over the denominators, the first table of each with the first.
pub proof fn lemma_fraction_inputs(
    p_mles: Option<Vec<MultilinearExtension>>,
    q_mles: Seq<MultilinearExtension>,
)
    requires
        q_mles.len() == 2,
        q_mles[0]@.len() == q_mles[1]@.len(),
        p_mles matches Some(p) ==> p@.len() == 2,
    ensures
        frac_input(p_mles, q_mles).total() == frac_sum(
            Seq::new(
                2 * q_mles[0]@.len(),
                |i: int|
                    {
                        let t = if i < q_mles[0]@.len() {
                            0int
                        } else {
                            1int
                        };
                        let k = i - t * q_mles[0]@.len();
                        Frac {
                            p: if p_mles is Some {
                                p_mles->0@[t]@[k]
                            } else {
                                e_one()
                            },
                            q: q_mles[t]@[k],
                        }
                    },
            ),
        ),
{
    let input = frac_input(p_mles, q_mles);
    let all = Seq::new(
        2 * q_mles[0]@.len(),
        |i: int|
            {
                let t = if i < q_mles[0]@.len() {
                    0int
                } else {
                    1int
                };
                let k = i - t * q_mles[0]@.len();
                Frac {
                    p: if p_mles is Some {
                        p_mles->0@[t]@[k]
                    } else {
                        e_one()
                    },
                    q: q_mles[t]@[k],
                }
            },
    );
    assert(input.first() + input.second() =~= all);
    lemma_frac_sum_concat(input.first(), input.second());
}

} // verus!
