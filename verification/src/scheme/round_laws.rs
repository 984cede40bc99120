//! What a round proves of which tower: the layers that take part in it, their columns, their
//! coefficients, and the evaluations that are kept for them.
use vstd::prelude::*;

use crate::expression::{Env, WitnessId};
use crate::field::{e_add, e_mul, e_one, e_zero, group_field, Ext, GoldilocksExt2};
use crate::mle::{ext_seq, MultilinearExtension, Point};
use crate::multilinear::mle_eval;
use crate::ring::{lemma_e_add_zero, lemma_e_mul_one, lemma_e_mul_zero};
use crate::scheme::structs::TowerProverSpec;
use crate::scheme::tower_prover::{
    are_groups, evals_of, extends_round, first_column, flat_tables, group_value, groups_at,
    lemma_first_column, lemma_round_expr, logup_groups, max_layers, prod_groups, round_expr,
    round_value, tower_columns, GroupedMLE,
};

verus! {

broadcast use group_field;

/// The number of layers is that of the highest tower.
pub proof fn lemma_max_layers(specs: Seq<TowerProverSpec>, n: int)
    requires
        0 <= n <= specs.len(),
    ensures
        n == 0 ==> max_layers(specs, n) == 0,
        forall|i: int| 0 <= i < n ==> (#[trigger] specs[i]).witness@.len() <= max_layers(specs, n),
        n > 0 ==> exists|i: int|
            0 <= i < n && (#[trigger] specs[i]).witness@.len() == max_layers(specs, n),
    decreases n,
{
    if n > 0 {
        lemma_max_layers(specs, n - 1);
        let rest = max_layers(specs, n - 1);
        if specs[n - 1].witness@.len() <= rest && n > 1 {
            let i = choose|i: int|
                0 <= i < n - 1 && (#[trigger] specs[i]).witness@.len() == rest;
            assert(specs[i].witness@.len() == max_layers(specs, n));
        } else {
            assert(specs[n - 1].witness@.len() == max_layers(specs, n));
        }
    }
}

/// A group is the given layer of a tower that has one.
pub open spec fn is_layer_of(
    group: GroupedMLE,
    prod_specs: Seq<TowerProverSpec>,
    logup_specs: Seq<TowerProverSpec>,
    round: int,
) -> bool {
    match group {
        GroupedMLE::Prod(i, layer) => {
            &&& i < prod_specs.len()
            &&& round < prod_specs[i as int].witness@.len()
            &&& layer == prod_specs[i as int].witness@[round]
        },
        GroupedMLE::Logup(i, layer) => {
            &&& i < logup_specs.len()
            &&& round < logup_specs[i as int].witness@.len()
            &&& layer == logup_specs[i as int].witness@[round]
        },
    }
}

/// One group stands before another: product towers before those of fractions, and each in the
/// order of the towers.
pub open spec fn is_before(a: GroupedMLE, b: GroupedMLE) -> bool {
    match (a, b) {
        (GroupedMLE::Prod(i, _), GroupedMLE::Prod(j, _)) => i < j,
        (GroupedMLE::Prod(_, _), GroupedMLE::Logup(_, _)) => true,
        (GroupedMLE::Logup(_, _), GroupedMLE::Prod(_, _)) => false,
        (GroupedMLE::Logup(i, _), GroupedMLE::Logup(j, _)) => i < j,
    }
}

proof fn lemma_prod_groups(specs: Seq<TowerProverSpec>, round: int, n: int)
    requires
        0 <= n <= specs.len() <= usize::MAX,
    ensures
        ({
            let groups = prod_groups(specs, round, n);
            &&& forall|g: int|
                0 <= g < groups.len() ==> (#[trigger] groups[g]) is Prod && groups[g]->Prod_0 < n
                    && is_layer_of(groups[g], specs, Seq::empty(), round)
            &&& forall|g: int, h: int|
                0 <= g < h < groups.len() ==> is_before(#[trigger] groups[g], #[trigger] groups[h])
            &&& forall|i: int|
                0 <= i < n && round < (#[trigger] specs[i]).witness@.len() ==> groups.contains(
                    GroupedMLE::Prod(i as usize, specs[i].witness@[round]),
                )
        }),
    decreases n,
{
    if n > 0 {
        lemma_prod_groups(specs, round, n - 1);
        let (groups, rest) = (prod_groups(specs, round, n), prod_groups(specs, round, n - 1));
        assert forall|i: int|
            0 <= i < n && round < (#[trigger] specs[i]).witness@.len() implies groups.contains(
            GroupedMLE::Prod(i as usize, specs[i].witness@[round]),
        ) by {
            let group = GroupedMLE::Prod(i as usize, specs[i].witness@[round]);
            if i < n - 1 {
                let g = choose|g: int| 0 <= g < rest.len() && rest[g] == group;
                assert(groups[g] == group);
            } else {
                assert(groups[rest.len() as int] == group);
            }
        }
    }
}

proof fn lemma_logup_groups(specs: Seq<TowerProverSpec>, round: int, n: int)
    requires
        0 <= n <= specs.len() <= usize::MAX,
    ensures
        ({
            let groups = logup_groups(specs, round, n);
            &&& forall|g: int|
                0 <= g < groups.len() ==> (#[trigger] groups[g]) is Logup && groups[g]->Logup_0 < n
                    && is_layer_of(groups[g], Seq::empty(), specs, round)
            &&& forall|g: int, h: int|
                0 <= g < h < groups.len() ==> is_before(#[trigger] groups[g], #[trigger] groups[h])
            &&& forall|i: int|
                0 <= i < n && round < (#[trigger] specs[i]).witness@.len() ==> groups.contains(
                    GroupedMLE::Logup(i as usize, specs[i].witness@[round]),
                )
        }),
    decreases n,
{
    if n > 0 {
        lemma_logup_groups(specs, round, n - 1);
        let (groups, rest) = (logup_groups(specs, round, n), logup_groups(specs, round, n - 1));
        assert forall|i: int|
            0 <= i < n && round < (#[trigger] specs[i]).witness@.len() implies groups.contains(
            GroupedMLE::Logup(i as usize, specs[i].witness@[round]),
        ) by {
            let group = GroupedMLE::Logup(i as usize, specs[i].witness@[round]);
            if i < n - 1 {
                let g = choose|g: int| 0 <= g < rest.len() && rest[g] == group;
                assert(groups[g] == group);
            } else {
                assert(groups[rest.len() as int] == group);
            }
        }
    }
}

/// The groups of a round: the round's layer of each tower that has one, once, product towers
/// before those of fractions and each in the order of the towers.
pub proof fn lemma_groups_at(
    prod_specs: Seq<TowerProverSpec>,
    logup_specs: Seq<TowerProverSpec>,
    round: int,
)
    requires
        prod_specs.len() <= usize::MAX,
        logup_specs.len() <= usize::MAX,
    ensures
        ({
            let groups = groups_at(prod_specs, logup_specs, round);
            &&& forall|g: int|
                0 <= g < groups.len() ==> is_layer_of(
                    #[trigger] groups[g],
                    prod_specs,
                    logup_specs,
                    round,
                )
            &&& forall|g: int, h: int|
                0 <= g < h < groups.len() ==> is_before(#[trigger] groups[g], #[trigger] groups[h])
            &&& forall|i: int|
                0 <= i < prod_specs.len() && round < (#[trigger] prod_specs[i]).witness@.len()
                    ==> groups.contains(
                    GroupedMLE::Prod(i as usize, prod_specs[i].witness@[round]),
                )
            &&& forall|i: int|
                0 <= i < logup_specs.len() && round < (#[trigger] logup_specs[i]).witness@.len()
                    ==> groups.contains(
                    GroupedMLE::Logup(i as usize, logup_specs[i].witness@[round]),
                )
        }),
{
    let groups = groups_at(prod_specs, logup_specs, round);
    let a = prod_groups(prod_specs, round, prod_specs.len() as int);
    let b = logup_groups(logup_specs, round, logup_specs.len() as int);
    lemma_prod_groups(prod_specs, round, prod_specs.len() as int);
    lemma_logup_groups(logup_specs, round, logup_specs.len() as int);
    assert forall|g: int, h: int| 0 <= g < h < groups.len() implies is_before(
        #[trigger] groups[g],
        #[trigger] groups[h],
    ) by {
        if h < a.len() {
            assert(is_before(a[g], a[h]));
        } else if g >= a.len() {
            assert(is_before(b[g - a.len()], b[h - a.len()]));
        } else {
            assert(a[g] is Prod && b[h - a.len()] is Logup);
        }
    }
    assert forall|g: int| 0 <= g < groups.len() implies is_layer_of(
        #[trigger] groups[g],
        prod_specs,
        logup_specs,
        round,
    ) by {
        if g < a.len() {
            assert(is_layer_of(a[g], prod_specs, Seq::empty(), round));
        } else {
            assert(is_layer_of(b[g - a.len()], Seq::empty(), logup_specs, round));
        }
    }
    assert forall|i: int|
        0 <= i < prod_specs.len() && round < (
        #[trigger] prod_specs[i]).witness@.len() implies groups.contains(
        GroupedMLE::Prod(i as usize, prod_specs[i].witness@[round]),
    ) by {
        let group = GroupedMLE::Prod(i as usize, prod_specs[i].witness@[round]);
        let g = choose|g: int| 0 <= g < a.len() && a[g] == group;
        assert(groups[g] == group);
    }
    assert forall|i: int|
        0 <= i < logup_specs.len() && round < (
        #[trigger] logup_specs[i]).witness@.len() implies groups.contains(
        GroupedMLE::Logup(i as usize, logup_specs[i].witness@[round]),
    ) by {
        let group = GroupedMLE::Logup(i as usize, logup_specs[i].witness@[round]);
        let g = choose|g: int| 0 <= g < b.len() && b[g] == group;
        assert(groups[a.len() + g] == group);
    }
}

/// The tables of a group.
pub open spec fn tables_of<'a>(group: GroupedMLE<'a>) -> Seq<MultilinearExtension<'a>> {
    match group {
        GroupedMLE::Prod(_, tables) => tables@,
        GroupedMLE::Logup(_, tables) => tables@,
    }
}

/// The groups of one kind and index are no two.
pub open spec fn are_in_order(groups: Seq<GroupedMLE>) -> bool {
    forall|g: int, h: int|
        0 <= g < h < groups.len() ==> is_before(#[trigger] groups[g], #[trigger] groups[h])
}

/// After the column of the equality polynomial, the columns of a round are the tables of its
/// groups.
pub proof fn lemma_flat_tables(
    groups: Seq<GroupedMLE>,
    num_prod: int,
    num_logup: int,
    n: int,
    g: int,
    k: int,
)
    requires
        are_groups(groups, num_prod, num_logup),
        0 <= n <= groups.len(),
    ensures
        flat_tables(groups, n).len() == first_column(groups, n) - 1,
        first_column(groups, 0) == 1,
        0 <= g < n && 0 <= k < tables_of(groups[g]).len() ==> {
            &&& first_column(groups, g) + k <= flat_tables(groups, n).len()
            &&& flat_tables(groups, n)[first_column(groups, g) + k - 1] == tables_of(groups[g])[k]
        },
    decreases n,
{
    if n > 0 {
        lemma_flat_tables(groups, num_prod, num_logup, n - 1, g, k);
        assert(groups[n - 1] == groups[n - 1]);
        if 0 <= g < n {
            lemma_first_column(groups, 0, g);
            lemma_first_column(groups, g, n - 1);
        }
    }
}

/// The columns that are kept for a tower are those of its own tables, in their order, and none
/// where it has no layer in the round.
pub proof fn lemma_tower_columns(
    groups: Seq<GroupedMLE>,
    num_prod: int,
    num_logup: int,
    index: int,
    n: int,
    g: int,
)
    requires
        are_groups(groups, num_prod, num_logup),
        are_in_order(groups),
        0 <= n <= groups.len(),
        first_column(groups, n) <= u16::MAX,
    ensures
        0 <= g < n && groups[g] is Prod && groups[g]->Prod_0 == index ==> {
            let columns = tower_columns(groups, true, index, n);
            &&& columns.len() == tables_of(groups[g]).len()
            &&& forall|k: int|
                0 <= k < columns.len() ==> #[trigger] columns[k] == first_column(groups, g) + k
        },
        0 <= g < n && groups[g] is Logup && groups[g]->Logup_0 == index ==> {
            let columns = tower_columns(groups, false, index, n);
            &&& columns.len() == tables_of(groups[g]).len()
            &&& forall|k: int|
                0 <= k < columns.len() ==> #[trigger] columns[k] == first_column(groups, g) + k
        },
        (forall|h: int|
            0 <= h < n ==> !((#[trigger] groups[h]) is Prod && groups[h]->Prod_0 == index))
            ==> tower_columns(groups, true, index, n).len() == 0,
        (forall|h: int|
            0 <= h < n ==> !((#[trigger] groups[h]) is Logup && groups[h]->Logup_0 == index))
            ==> tower_columns(groups, false, index, n).len() == 0,
    decreases n,
{
    if n > 0 {
        lemma_first_column(groups, n - 1, n);
        lemma_tower_columns(groups, num_prod, num_logup, index, n - 1, g);
        let last = groups[n - 1];
        if 0 <= g < n - 1 {
            assert(is_before(groups[g], last));
        } else if g == n - 1 {
            assert forall|h: int| 0 <= h < n - 1 implies !((#[trigger] groups[h]) is Prod
                && groups[h]->Prod_0 == index) || !(last is Prod && last->Prod_0 == index) by {
                assert(is_before(groups[h], last));
            }
            assert forall|h: int| 0 <= h < n - 1 implies !((#[trigger] groups[h]) is Logup
                && groups[h]->Logup_0 == index) || !(last is Logup && last->Logup_0 == index) by {
                assert(is_before(groups[h], last));
            }
        }
    }
}

/// The evaluations that a round keeps for a product tower are those of its own layer, with the
/// point, after those of the rounds before; a tower without a layer in the round keeps what it
/// had.
pub proof fn lemma_kept_for_product(
    groups: Seq<GroupedMLE>,
    num_prod: int,
    num_logup: int,
    columns: Seq<Vec<WitnessId>>,
    evals: Seq<GoldilocksExt2>,
    point: Seq<GoldilocksExt2>,
    before: (Seq<Vec<Vec<GoldilocksExt2>>>, Seq<Vec<Point>>),
    after: (Seq<Vec<Vec<GoldilocksExt2>>>, Seq<Vec<Point>>),
    i: int,
    g: int,
)
    requires
        are_groups(groups, num_prod, num_logup),
        are_in_order(groups),
        first_column(groups, groups.len() as int) <= u16::MAX,
        columns.len() == num_prod,
        forall|j: int|
            0 <= j < num_prod ==> (#[trigger] columns[j])@ == tower_columns(
                groups,
                true,
                j,
                groups.len() as int,
            ),
        forall|c: int|
            0 <= c < flat_tables(groups, groups.len() as int).len() ==> #[trigger] evals[c + 1]@
                == mle_eval(flat_tables(groups, groups.len() as int)[c]@, ext_seq(point)),
        before.0.len() == num_prod,
        before.1.len() == num_prod,
        extends_round(after.0, after.1, before.0, before.1, columns, evals, point, num_prod),
        0 <= i < num_prod,
    ensures
        0 <= g < groups.len() && groups[g] is Prod && groups[g]->Prod_0 == i ==> {
            &&& after.0[i]@.drop_last() == before.0[i]@
            &&& after.1[i]@.drop_last() == before.1[i]@
            &&& after.0[i]@.len() == before.0[i]@.len() + 1
            &&& after.1[i]@.len() == before.1[i]@.len() + 1
            &&& after.1[i]@.last()@ == point
            &&& after.0[i]@.last()@.len() == 2
            &&& forall|k: int|
                0 <= k < 2 ==> (#[trigger] after.0[i]@.last()@[k])@ == mle_eval(
                    tables_of(groups[g])[k]@,
                    ext_seq(point),
                )
        },
        (forall|h: int|
            0 <= h < groups.len() ==> !((#[trigger] groups[h]) is Prod && groups[h]->Prod_0 == i))
            ==> after.0[i] == before.0[i] && after.1[i] == before.1[i],
{
    let n = groups.len() as int;
    let flat = flat_tables(groups, n);
    lemma_tower_columns(groups, num_prod, num_logup, i, n, g);
    assert(columns[i]@ == tower_columns(groups, true, i, n));
    assert(after.0[i] == after.0[i]);
    if 0 <= g < n && groups[g] is Prod && groups[g]->Prod_0 == i {
        let kept = evals_of(columns[i]@, evals);
        lemma_first_column(groups, 0, g);
        assert forall|k: int| 0 <= k < 2 implies (#[trigger] after.0[i]@.last()@[k])@ == mle_eval(
            tables_of(groups[g])[k]@,
            ext_seq(point),
        ) by {
            let c = first_column(groups, g) + k - 1;
            lemma_flat_tables(groups, num_prod, num_logup, n, g, k);
            assert(columns[i]@[k] == c + 1);
            assert(kept[k] == evals[c + 1]);
        }
    }
}

/// The same of a tower of fractions.
pub proof fn lemma_kept_for_fractions(
    groups: Seq<GroupedMLE>,
    num_prod: int,
    num_logup: int,
    columns: Seq<Vec<WitnessId>>,
    evals: Seq<GoldilocksExt2>,
    point: Seq<GoldilocksExt2>,
    before: (Seq<Vec<Vec<GoldilocksExt2>>>, Seq<Vec<Point>>),
    after: (Seq<Vec<Vec<GoldilocksExt2>>>, Seq<Vec<Point>>),
    i: int,
    g: int,
)
    requires
        are_groups(groups, num_prod, num_logup),
        are_in_order(groups),
        first_column(groups, groups.len() as int) <= u16::MAX,
        columns.len() == num_logup,
        forall|j: int|
            0 <= j < num_logup ==> (#[trigger] columns[j])@ == tower_columns(
                groups,
                false,
                j,
                groups.len() as int,
            ),
        forall|c: int|
            0 <= c < flat_tables(groups, groups.len() as int).len() ==> #[trigger] evals[c + 1]@
                == mle_eval(flat_tables(groups, groups.len() as int)[c]@, ext_seq(point)),
        before.0.len() == num_logup,
        before.1.len() == num_logup,
        extends_round(after.0, after.1, before.0, before.1, columns, evals, point, num_logup),
        0 <= i < num_logup,
    ensures
        0 <= g < groups.len() && groups[g] is Logup && groups[g]->Logup_0 == i ==> {
            &&& after.0[i]@.drop_last() == before.0[i]@
            &&& after.1[i]@.drop_last() == before.1[i]@
            &&& after.0[i]@.len() == before.0[i]@.len() + 1
            &&& after.1[i]@.len() == before.1[i]@.len() + 1
            &&& after.1[i]@.last()@ == point
            &&& after.0[i]@.last()@.len() == 4
            &&& forall|k: int|
                0 <= k < 4 ==> (#[trigger] after.0[i]@.last()@[k])@ == mle_eval(
                    tables_of(groups[g])[k]@,
                    ext_seq(point),
                )
        },
        (forall|h: int|
            0 <= h < groups.len() ==> !((#[trigger] groups[h]) is Logup && groups[h]->Logup_0
                == i)) ==> after.0[i] == before.0[i] && after.1[i] == before.1[i],
{
    let n = groups.len() as int;
    let flat = flat_tables(groups, n);
    lemma_tower_columns(groups, num_prod, num_logup, i, n, g);
    assert(columns[i]@ == tower_columns(groups, false, i, n));
    assert(after.0[i] == after.0[i]);
    if 0 <= g < n && groups[g] is Logup && groups[g]->Logup_0 == i {
        let kept = evals_of(columns[i]@, evals);
        lemma_first_column(groups, 0, g);
        assert forall|k: int| 0 <= k < 4 implies (#[trigger] after.0[i]@.last()@[k])@ == mle_eval(
            tables_of(groups[g])[k]@,
            ext_seq(point),
        ) by {
            let c = first_column(groups, g) + k - 1;
            lemma_flat_tables(groups, num_prod, num_logup, n, g, k);
            assert(columns[i]@[k] == c + 1);
            assert(kept[k] == evals[c + 1]);
        }
    }
}

/// All coefficients are zero but the one at `a`, which is one.
pub open spec fn is_unit(alphas: Seq<GoldilocksExt2>, a: int) -> bool {
    &&& 0 <= a < alphas.len()
    &&& alphas[a]@ == e_one()
    &&& forall|i: int| 0 <= i < alphas.len() && i != a ==> (#[trigger] alphas[i])@ == e_zero()
}

/// What the unit of coefficients picks out of a group: of product tower `i` the product at `i`,
/// of tower of fractions `i` the numerator of the sum at `num_prod + 2 * i` and the denominator
/// after it, and nothing elsewhere.
pub open spec fn picked(group: GroupedMLE, num_prod: int, a: int, id: int, env: Env) -> Ext {
    match group {
        GroupedMLE::Prod(i, _) => if i == a {
            e_mul(env.wit[0]@, e_mul(env.wit[id]@, env.wit[id + 1]@))
        } else {
            e_zero()
        },
        GroupedMLE::Logup(i, _) => if num_prod + 2 * i == a {
            e_mul(
                env.wit[0]@,
                e_add(
                    e_mul(env.wit[id]@, env.wit[id + 3]@),
                    e_mul(env.wit[id + 1]@, env.wit[id + 2]@),
                ),
            )
        } else if num_prod + 2 * i + 1 == a {
            e_mul(env.wit[0]@, e_mul(env.wit[id + 2]@, env.wit[id + 3]@))
        } else {
            e_zero()
        },
    }
}

proof fn lemma_picked(
    group: GroupedMLE,
    alphas: Seq<GoldilocksExt2>,
    num_prod: int,
    num_logup: int,
    a: int,
    id: int,
    env: Env,
)
    requires
        is_unit(alphas, a),
        alphas.len() == num_prod + 2 * num_logup,
        num_prod >= 0,
        num_logup >= 0,
        match group {
            GroupedMLE::Prod(i, _) => i < num_prod,
            GroupedMLE::Logup(i, _) => i < num_logup,
        },
    ensures
        group_value(group, alphas, num_prod, id, env) == picked(group, num_prod, a, id, env),
{
    let w = env.wit;
    match group {
        GroupedMLE::Prod(i, _) => {
            let x = e_mul(w[id]@, w[id + 1]@);
            lemma_e_mul_one(w[0]@);
            lemma_e_mul_zero(w[0]@);
            lemma_e_mul_zero(x);
        },
        GroupedMLE::Logup(i, _) => {
            let (p, q) = (num_prod + 2 * i, num_prod + 2 * i + 1);
            let num = e_add(e_mul(w[id]@, w[id + 3]@), e_mul(w[id + 1]@, w[id + 2]@));
            let den = e_mul(w[id + 2]@, w[id + 3]@);
            lemma_e_mul_one(num);
            lemma_e_mul_zero(num);
            lemma_e_mul_one(w[id + 2]@);
            lemma_e_mul_zero(w[id + 2]@);
            lemma_e_mul_zero(w[id + 3]@);
            lemma_e_add_zero(num);
            lemma_e_add_zero(den);
            lemma_e_add_zero(e_zero());
            lemma_e_mul_zero(w[0]@);
        },
    }
}

/// Each coefficient of a round stands at one relation of one tower: a unit of coefficients picks
/// that relation out of the round's expression.
pub proof fn lemma_round_picks(
    groups: Seq<GroupedMLE>,
    alphas: Seq<GoldilocksExt2>,
    num_prod: int,
    num_logup: int,
    a: int,
    n: int,
    g: int,
    env: Env,
)
    requires
        is_unit(alphas, a),
        alphas.len() == num_prod + 2 * num_logup,
        num_prod >= 0,
        num_logup >= 0,
        are_groups(groups, num_prod, num_logup),
        are_in_order(groups),
        0 <= n <= groups.len(),
        0 <= g < groups.len(),
        match groups[g] {
            GroupedMLE::Prod(i, _) => i == a,
            GroupedMLE::Logup(i, _) => num_prod + 2 * i == a || num_prod + 2 * i + 1 == a,
        },
    ensures
        round_value(groups, alphas, num_prod, n, env) == if g < n {
            picked(groups[g], num_prod, a, first_column(groups, g), env)
        } else {
            e_zero()
        },
    decreases n,
{
    if n > 0 {
        let id = first_column(groups, n - 1);
        let last = groups[n - 1];
        lemma_round_picks(groups, alphas, num_prod, num_logup, a, n - 1, g, env);
        lemma_picked(last, alphas, num_prod, num_logup, a, id, env);
        assert(groups[g] == groups[g]);
        let value = picked(groups[g], num_prod, a, first_column(groups, g), env);
        lemma_e_add_zero(value);
        lemma_e_add_zero(e_zero());
        if g < n - 1 {
            assert(is_before(groups[g], last));
        } else if g > n - 1 {
            assert(is_before(last, groups[g]));
        }
    }
}

/// The same of the expression itself, over the columns of a round.
pub proof fn lemma_round_expr_picks(
    groups: Seq<GroupedMLE>,
    alphas: Seq<GoldilocksExt2>,
    num_prod: int,
    num_logup: int,
    a: int,
    g: int,
    env: Env,
)
    requires
        is_unit(alphas, a),
        alphas.len() == num_prod + 2 * num_logup,
        num_prod >= 0,
        num_logup >= 0,
        are_groups(groups, num_prod, num_logup),
        are_in_order(groups),
        first_column(groups, groups.len() as int) <= u16::MAX,
        0 <= g < groups.len(),
        match groups[g] {
            GroupedMLE::Prod(i, _) => i == a,
            GroupedMLE::Logup(i, _) => num_prod + 2 * i == a || num_prod + 2 * i + 1 == a,
        },
    ensures
        round_expr(groups, alphas, num_prod, groups.len() as int).eval(env) == picked(
            groups[g],
            num_prod,
            a,
            first_column(groups, g),
            env,
        ),
{
    let n = groups.len() as int;
    lemma_round_expr(groups, alphas, num_prod, n, env);
    lemma_round_picks(groups, alphas, num_prod, num_logup, a, n, g, env);
}

} // verus!
