//! The rounds in which the relations between the layers of towers are proved.
//!
//! A round proves of all towers at once what their layers claim of the next ones:
//! `sum_s eq(rt, s) * (sum_i alpha_i * p_i0(s) * p_i1(s) + ...)`.
use vstd::prelude::*;

use crate::either::Either;
use crate::expression::fold::product_exprs;
use crate::expression::laws::{lemma_eval_add, lemma_eval_mul};
use crate::expression::{base_const, Env, Expression, WitnessId};
use crate::field::{e_add, e_mul, e_zero, group_field, Ext, GoldilocksExt2};
use crate::gkr::rotation_laws::eq_table;
use crate::mle::{concat_slices, ext_seq, slice_to_vec, MultilinearExtension, Point};
use crate::ring::lemma_e_mul_one;
use crate::scheme::structs::{TowerProofs, TowerProverSpec};
use crate::util::is_pow2;
use crate::virtual_poly::build_eq_x_r;

verus! {

broadcast use group_field;

/// A layer of the tower with the given index.
#[derive(Debug)]
pub enum GroupedMLE<'a> {
    Prod(usize, Vec<MultilinearExtension<'a>>),
    Logup(usize, Vec<MultilinearExtension<'a>>),
}

/// The layers of the first product towers in a round.
pub open spec fn prod_groups<'a>(specs: Seq<TowerProverSpec<'a>>, round: int, n: int) -> Seq<
    GroupedMLE<'a>,
>
    decreases n,
{
    if n <= 0 {
        Seq::empty()
    } else if round < specs[n - 1].witness@.len() {
        prod_groups(specs, round, n - 1).push(
            GroupedMLE::Prod((n - 1) as usize, specs[n - 1].witness@[round]),
        )
    } else {
        prod_groups(specs, round, n - 1)
    }
}

/// The layers of the first towers of fractions in a round.
pub open spec fn logup_groups<'a>(specs: Seq<TowerProverSpec<'a>>, round: int, n: int) -> Seq<
    GroupedMLE<'a>,
>
    decreases n,
{
    if n <= 0 {
        Seq::empty()
    } else if round < specs[n - 1].witness@.len() {
        logup_groups(specs, round, n - 1).push(
            GroupedMLE::Logup((n - 1) as usize, specs[n - 1].witness@[round]),
        )
    } else {
        logup_groups(specs, round, n - 1)
    }
}

/// The layers of all towers in a round.
pub open spec fn groups_at<'a>(
    prod_specs: Seq<TowerProverSpec<'a>>,
    logup_specs: Seq<TowerProverSpec<'a>>,
    round: int,
) -> Seq<GroupedMLE<'a>> {
    prod_groups(prod_specs, round, prod_specs.len() as int) + logup_groups(
        logup_specs,
        round,
        logup_specs.len() as int,
    )
}

/// The largest number of layers of a tower.
pub open spec fn max_layers(specs: Seq<TowerProverSpec>, n: int) -> int
    decreases n,
{
    if n <= 0 {
        0
    } else {
        let rest = max_layers(specs, n - 1);
        let here = specs[n - 1].witness@.len() as int;
        if here > rest {
            here
        } else {
            rest
        }
    }
}

fn most_layers(specs: &Vec<TowerProverSpec>) -> (r: usize)
    ensures
        r == max_layers(specs@, specs@.len() as int),
        forall|i: int| 0 <= i < specs@.len() ==> (#[trigger] specs@[i]).witness@.len() <= r,
{
    let mut r: usize = 0;
    let mut i: usize = 0;
    while i < specs.len()
        invariant
            i <= specs@.len(),
            r == max_layers(specs@, i as int),
            forall|k: int| 0 <= k < i ==> (#[trigger] specs@[k]).witness@.len() <= r,
        decreases specs@.len() - i,
    {
        let here: usize = specs[i].witness.len();
        if here > r {
            r = here;
        }
        i = i + 1;
    }
    r
}

/// The layers that are proved, grouped by rounds: all but the first one, which holds the outputs.
/// Round `k` is at index `k - 1`.
pub fn proved_layers<'a>(
    prod_specs: Vec<TowerProverSpec<'a>>,
    logup_specs: Vec<TowerProverSpec<'a>>,
) -> (r: Vec<Vec<GroupedMLE<'a>>>)
    ensures
        ({
            let a = max_layers(prod_specs@, prod_specs@.len() as int);
            let b = max_layers(logup_specs@, logup_specs@.len() as int);
            r@.len() == (if a == 0 && b == 0 {
                0
            } else if a >= b {
                a - 1
            } else {
                b - 1
            })
        }),
        forall|k: int|
            0 <= k < r@.len() ==> (#[trigger] r@[k])@ == groups_at(
                prod_specs@,
                logup_specs@,
                k + 1,
            ),
{
    let mut layers = merge_layers(prod_specs, logup_specs);
    if layers.len() > 0 {
        layers.remove(0);
    }
    layers
}

/// The layers of the towers, grouped by rounds.
pub fn merge_layers<'a>(
    prod_specs: Vec<TowerProverSpec<'a>>,
    logup_specs: Vec<TowerProverSpec<'a>>,
) -> (r: Vec<Vec<GroupedMLE<'a>>>)
    ensures
        ({
            let a = max_layers(prod_specs@, prod_specs@.len() as int);
            let b = max_layers(logup_specs@, logup_specs@.len() as int);
            r@.len() == (if a >= b {
                a
            } else {
                b
            })
        }),
        forall|k: int|
            0 <= k < r@.len() ==> (#[trigger] r@[k])@ == groups_at(prod_specs@, logup_specs@, k),
{
    let a: usize = most_layers(&prod_specs);
    let b: usize = most_layers(&logup_specs);
    let rounds: usize = if a >= b {
        a
    } else {
        b
    };
    let mut merged: Vec<Vec<GroupedMLE<'a>>> = Vec::with_capacity(rounds);
    let mut k: usize = 0;
    while k < rounds
        invariant
            k <= rounds,
            merged@.len() == k,
            forall|j: int| 0 <= j < k ==> (#[trigger] merged@[j])@ == Seq::<GroupedMLE>::empty(),
        decreases rounds - k,
    {
        merged.push(Vec::new());
        k = k + 1;
    }
    let ghost (prods, logups) = (prod_specs@, logup_specs@);
    let mut prod_specs = prod_specs;
    let mut logup_specs = logup_specs;
    let num_prod: usize = prod_specs.len();
    let num_logup: usize = logup_specs.len();
    let mut i: usize = 0;
    proof {
        assert forall|j: int| 0 <= j < rounds implies (#[trigger] merged@[j])@ == prod_groups(
            prods,
            j,
            0,
        ) by {}
        assert(prod_specs@ =~= prods.skip(0));
    }
    while i < num_prod
        invariant
            i <= num_prod,
            num_prod == prods.len(),
            prod_specs@ == prods.skip(i as int),
            merged@.len() == rounds,
            forall|j: int| 0 <= j < prods.len() ==> (#[trigger] prods[j]).witness@.len() <= rounds,
            forall|j: int|
                0 <= j < rounds ==> (#[trigger] merged@[j])@ == prod_groups(prods, j, i as int),
        decreases num_prod - i,
    {
        let spec = prod_specs.remove(0);
        proof {
            assert(spec == prods[i as int]);
            assert(prod_specs@ =~= prods.skip(i + 1));
        }
        merge_spec_witness(&mut merged, spec, i, true);
        i = i + 1;
    }
    let mut i: usize = 0;
    proof {
        assert forall|j: int| 0 <= j < rounds implies (#[trigger] merged@[j])@ == prod_groups(
            prods,
            j,
            prods.len() as int,
        ) + logup_groups(logups, j, 0) by {
            assert(merged@[j]@ =~= prod_groups(prods, j, prods.len() as int) + logup_groups(
                logups,
                j,
                0,
            ));
        }
        assert(logup_specs@ =~= logups.skip(0));
    }
    while i < num_logup
        invariant
            i <= num_logup,
            num_logup == logups.len(),
            logup_specs@ == logups.skip(i as int),
            merged@.len() == rounds,
            forall|j: int| 0 <= j < logups.len() ==> (#[trigger] logups[j]).witness@.len() <= rounds,
            forall|j: int|
                0 <= j < rounds ==> (#[trigger] merged@[j])@ == prod_groups(
                    prods,
                    j,
                    prods.len() as int,
                ) + logup_groups(logups, j, i as int),
        decreases num_logup - i,
    {
        let spec = logup_specs.remove(0);
        let ghost before = merged@;
        proof {
            assert(spec == logups[i as int]);
            assert(logup_specs@ =~= logups.skip(i + 1));
        }
        merge_spec_witness(&mut merged, spec, i, false);
        proof {
            assert forall|j: int| 0 <= j < rounds implies (#[trigger] merged@[j])@ == prod_groups(
                prods,
                j,
                prods.len() as int,
            ) + logup_groups(logups, j, i + 1) by {
                assert(before[j]@ == prod_groups(prods, j, prods.len() as int) + logup_groups(
                    logups,
                    j,
                    i as int,
                ));
                assert(merged@[j]@ =~= prod_groups(prods, j, prods.len() as int) + logup_groups(
                    logups,
                    j,
                    i + 1,
                ));
            }
        }
        i = i + 1;
    }
    merged
}

/// A layer of a tower as a group.
pub open spec fn group_of<'a>(
    prod: bool,
    index: usize,
    layer: Vec<MultilinearExtension<'a>>,
) -> GroupedMLE<'a> {
    if prod {
        GroupedMLE::Prod(index, layer)
    } else {
        GroupedMLE::Logup(index, layer)
    }
}

/// Adds the layers of a tower to the rounds.
fn merge_spec_witness<'a>(
    merged: &mut Vec<Vec<GroupedMLE<'a>>>,
    spec: TowerProverSpec<'a>,
    index: usize,
    prod: bool,
)
    requires
        spec.witness@.len() <= old(merged)@.len(),
    ensures
        final(merged)@.len() == old(merged)@.len(),
        forall|j: int|
            0 <= j < final(merged)@.len() ==> (#[trigger] final(merged)@[j])@ == if j
                < spec.witness@.len() {
                old(merged)@[j]@.push(group_of(prod, index, spec.witness@[j]))
            } else {
                old(merged)@[j]@
            },
{
    let mut witness = spec.witness;
    let ghost layers = witness@;
    let ghost before = merged@;
    let n: usize = witness.len();
    let mut left: usize = n;
    assert(layers.take(n as int) =~= layers);
    while left > 0
        invariant
            left <= n,
            n == layers.len(),
            n <= before.len(),
            witness@ == layers.take(left as int),
            merged@.len() == before.len(),
            forall|j: int|
                0 <= j < merged@.len() ==> (#[trigger] merged@[j])@ == if left <= j < n {
                    before[j]@.push(group_of(prod, index, layers[j]))
                } else {
                    before[j]@
                },
        decreases left,
    {
        let layer = witness.pop().unwrap();
        left = left - 1;
        assert(witness@ =~= layers.take(left as int));
        let group = if prod {
            GroupedMLE::Prod(index, layer)
        } else {
            GroupedMLE::Logup(index, layer)
        };
        merged[left].push(group);
    }
}

/// The number of tables of a layer.
pub open spec fn group_width(group: GroupedMLE) -> int {
    match group {
        GroupedMLE::Prod(_, _) => 2,
        GroupedMLE::Logup(_, _) => 4,
    }
}

/// The column of the first table of a layer: the equality polynomial is the first column, the tables
/// of the layers follow.
pub open spec fn first_column(groups: Seq<GroupedMLE>, g: int) -> int
    decreases g,
{
    if g <= 0 {
        1
    } else {
        first_column(groups, g - 1) + group_width(groups[g - 1])
    }
}

/// A witness column.
pub open spec fn col(id: int) -> Expression {
    Expression::WitIn(id as WitnessId)
}

/// A coefficient.
pub open spec fn coefficient(alpha: GoldilocksExt2) -> Expression {
    Expression::Constant(Either::Right(alpha))
}

/// `eq * alpha * (a * b)`.
pub open spec fn prod_term(alpha: GoldilocksExt2, id: int) -> Expression {
    col(0).spec_mul(coefficient(alpha)).spec_mul(product_exprs(seq![col(id), col(id + 1)]))
}

/// `eq * (alpha_p * (p1 * q2 + p2 * q1) + alpha_q * q1 * q2)`.
pub open spec fn logup_term(alpha_p: GoldilocksExt2, alpha_q: GoldilocksExt2, id: int) -> Expression {
    let (p1, p2, q1, q2) = (col(id), col(id + 1), col(id + 2), col(id + 3));
    col(0).spec_mul(
        coefficient(alpha_p).spec_mul(p1.spec_mul(q2).spec_add(p2.spec_mul(q1))).spec_add(
            coefficient(alpha_q).spec_mul(q1).spec_mul(q2),
        ),
    )
}

/// The term of a layer, whose first table is the column `id`.
pub open spec fn group_term(
    group: GroupedMLE,
    alphas: Seq<GoldilocksExt2>,
    num_prod: int,
    id: int,
) -> Expression {
    match group {
        GroupedMLE::Prod(i, _) => prod_term(alphas[i as int], id),
        GroupedMLE::Logup(i, _) => logup_term(
            alphas[num_prod + 2 * i],
            alphas[num_prod + 2 * i + 1],
            id,
        ),
    }
}

/// The expression of the first layers of a round.
pub open spec fn round_expr(
    groups: Seq<GroupedMLE>,
    alphas: Seq<GoldilocksExt2>,
    num_prod: int,
    n: int,
) -> Expression
    decreases n,
{
    if n <= 0 {
        base_const(0)
    } else {
        round_expr(groups, alphas, num_prod, n - 1).spec_add(
            group_term(groups[n - 1], alphas, num_prod, first_column(groups, n - 1)),
        )
    }
}

/// The columns of the layer of a tower among the first layers of a round.
pub open spec fn tower_columns(
    groups: Seq<GroupedMLE>,
    prod: bool,
    index: int,
    n: int,
) -> Seq<WitnessId>
    decreases n,
{
    if n <= 0 {
        Seq::empty()
    } else {
        let rest = tower_columns(groups, prod, index, n - 1);
        let group = groups[n - 1];
        let here = match group {
            GroupedMLE::Prod(i, _) => prod && i == index,
            GroupedMLE::Logup(i, _) => !prod && i == index,
        };
        if here {
            rest + Seq::new(
                group_width(group) as nat,
                |k: int| (first_column(groups, n - 1) + k) as WitnessId,
            )
        } else {
            rest
        }
    }
}

/// What a round proves: the expression over the equality polynomial and the tables of the layers,
/// and the columns of each tower.
#[derive(Debug)]
pub struct TowerRound {
    pub expr: Expression,
    pub prod_columns: Vec<Vec<WitnessId>>,
    pub logup_columns: Vec<Vec<WitnessId>>,
}

/// The layers of a round belong to towers, and have as many tables as the towers' layers have.
pub open spec fn are_groups(groups: Seq<GroupedMLE>, num_prod: int, num_logup: int) -> bool {
    forall|g: int|
        0 <= g < groups.len() ==> match #[trigger] groups[g] {
            GroupedMLE::Prod(i, tables) => i < num_prod && tables@.len() == 2,
            GroupedMLE::Logup(i, tables) => i < num_logup && tables@.len() == 4,
        }
}

fn prod_expr(alpha: GoldilocksExt2, id: u16) -> (r: Expression)
    requires
        id < u16::MAX,
    ensures
        r == prod_term(alpha, id as int),
{
    let columns = vec![Expression::WitIn(id), Expression::WitIn(id + 1)];
    proof {
        let s = columns@;
        assert(s =~= seq![col(id as int), col(id + 1)]);
        assert(crate::expression::fold::product_fits(s)) by {
            assert forall|i: int| 0 <= i < s.len() implies product_exprs(s.take(i)).mul_fits(
                #[trigger] s[i],
            ) by {
                lemma_column_fits(product_exprs(s.take(i)), s[i]);
            }
        }
    }
    let product = Expression::product(columns.as_slice());
    let scaled = Expression::WitIn(0) * Expression::Constant(Either::Right(alpha));
    proof {
        lemma_scaled_fits(alpha, product);
    }
    scaled * product
}

/// Anything can be multiplied with a column.
proof fn lemma_column_fits(e: Expression, c: Expression)
    requires
        c is WitIn,
    ensures
        e.mul_fits(c),
        c.mul_fits(e),
{
}

proof fn lemma_scaled_fits(alpha: GoldilocksExt2, product: Expression)
    requires
        !(product is Constant),
        !(product is Challenge),
    ensures
        col(0).spec_mul(coefficient(alpha)).mul_fits(product),
{
}

fn cross_sum(id: u16) -> (r: Expression)
    requires
        id + 3 <= u16::MAX,
    ensures
        r == col(id as int).spec_mul(col(id + 3)).spec_add(col(id + 1).spec_mul(col(id + 2))),
{
    let (p1, p2) = (Expression::WitIn(id), Expression::WitIn(id + 1));
    let (q1, q2) = (Expression::WitIn(id + 2), Expression::WitIn(id + 3));
    p1 * q2 + p2 * q1
}

fn scaled_by(alpha: GoldilocksExt2, e: Expression) -> (r: Expression)
    requires
        coefficient(alpha).mul_fits(e),
    ensures
        r == coefficient(alpha).spec_mul(e),
{
    Expression::Constant(Either::Right(alpha)) * e
}

fn logup_expr(alpha_p: GoldilocksExt2, alpha_q: GoldilocksExt2, id: u16) -> (r: Expression)
    requires
        id + 3 <= u16::MAX,
    ensures
        r == logup_term(alpha_p, alpha_q, id as int),
{
    let numerator = scaled_by(alpha_p, cross_sum(id));
    let denominator = scaled_by(alpha_q, Expression::WitIn(id + 2)) * Expression::WitIn(id + 3);
    let sum = numerator + denominator;
    proof {
        lemma_column_fits(sum, col(0));
    }
    Expression::WitIn(0) * sum
}

/// Later layers have later columns.
pub proof fn lemma_first_column(groups: Seq<GroupedMLE>, g: int, h: int)
    requires
        0 <= g <= h,
    ensures
        1 <= first_column(groups, g) <= first_column(groups, h),
        g < h ==> first_column(groups, g) + group_width(groups[g]) <= first_column(groups, h),
    decreases h - g, h,
{
    if g < h {
        lemma_first_column(groups, g, h - 1);
    } else if h > 0 {
        lemma_first_column(groups, h - 1, h - 1);
    }
}

fn add_exprs(a: Expression, b: Expression) -> (r: Expression)
    ensures
        r == a.spec_add(b),
{
    a + b
}

fn empty_lists(n: usize) -> (r: Vec<Vec<WitnessId>>)
    ensures
        r@.len() == n,
        forall|i: int| 0 <= i < n ==> (#[trigger] r@[i])@ == Seq::<WitnessId>::empty(),
{
    let mut r: Vec<Vec<WitnessId>> = Vec::with_capacity(n);
    let mut i: usize = 0;
    while i < n
        invariant
            i <= n,
            r@.len() == i,
            forall|k: int| 0 <= k < i ==> (#[trigger] r@[k])@ == Seq::<WitnessId>::empty(),
        decreases n - i,
    {
        r.push(Vec::new());
        i = i + 1;
    }
    r
}

/// Adds consecutive columns to a list.
fn push_columns(lists: &mut Vec<Vec<WitnessId>>, i: usize, first: u16, n: u16)
    requires
        i < old(lists)@.len(),
        first + n <= u16::MAX,
    ensures
        final(lists)@.len() == old(lists)@.len(),
        forall|j: int|
            0 <= j < final(lists)@.len() && j != i ==> #[trigger] final(lists)@[j]
                == old(lists)@[j],
        final(lists)@[i as int]@ == old(lists)@[i as int]@ + Seq::new(
            n as nat,
            |k: int| (first + k) as WitnessId,
        ),
{
    let ghost before = lists@;
    let ghost all = Seq::new(n as nat, |k: int| (first + k) as WitnessId);
    let mut k: u16 = 0;
    assert(before[i as int]@ =~= before[i as int]@ + all.take(0));
    while k < n
        invariant
            k <= n,
            first + n <= u16::MAX,
            i < before.len(),
            lists@.len() == before.len(),
            all == Seq::new(n as nat, |k: int| (first + k) as WitnessId),
            forall|j: int| 0 <= j < lists@.len() && j != i ==> #[trigger] lists@[j] == before[j],
            lists@[i as int]@ == before[i as int]@ + all.take(k as int),
        decreases n - k,
    {
        lists[i].push(first + k);
        k = k + 1;
        assert(lists@[i as int]@ =~= before[i as int]@ + all.take(k as int));
    }
    assert(all.take(n as int) =~= all);
}

/// What a round proves of the layers of the towers.
pub fn plan_round(
    groups: &Vec<GroupedMLE>,
    alpha_pows: &[GoldilocksExt2],
    num_prod: usize,
    num_logup: usize,
) -> (r: TowerRound)
    requires
        num_prod + 2 * num_logup <= usize::MAX,
        alpha_pows@.len() == num_prod + 2 * num_logup,
        are_groups(groups@, num_prod as int, num_logup as int),
        first_column(groups@, groups@.len() as int) <= u16::MAX,
    ensures
        r.expr == round_expr(groups@, alpha_pows@, num_prod as int, groups@.len() as int),
        r.prod_columns@.len() == num_prod,
        forall|i: int|
            0 <= i < num_prod ==> (#[trigger] r.prod_columns@[i])@ == tower_columns(
                groups@,
                true,
                i,
                groups@.len() as int,
            ),
        r.logup_columns@.len() == num_logup,
        forall|i: int|
            0 <= i < num_logup ==> (#[trigger] r.logup_columns@[i])@ == tower_columns(
                groups@,
                false,
                i,
                groups@.len() as int,
            ),
{
    let mut expr = Expression::zero();
    let mut prod_columns = empty_lists(num_prod);
    let mut logup_columns = empty_lists(num_logup);
    let mut next: u16 = 1;
    let mut g: usize = 0;
    while g < groups.len()
        invariant
            g <= groups@.len(),
            num_prod + 2 * num_logup <= usize::MAX,
            alpha_pows@.len() == num_prod + 2 * num_logup,
            are_groups(groups@, num_prod as int, num_logup as int),
            first_column(groups@, groups@.len() as int) <= u16::MAX,
            next == first_column(groups@, g as int),
            expr == round_expr(groups@, alpha_pows@, num_prod as int, g as int),
            prod_columns@.len() == num_prod,
            forall|i: int|
                0 <= i < num_prod ==> (#[trigger] prod_columns@[i])@ == tower_columns(
                    groups@,
                    true,
                    i,
                    g as int,
                ),
            logup_columns@.len() == num_logup,
            forall|i: int|
                0 <= i < num_logup ==> (#[trigger] logup_columns@[i])@ == tower_columns(
                    groups@,
                    false,
                    i,
                    g as int,
                ),
        decreases groups@.len() - g,
    {
        let ghost (prods, logups) = (prod_columns@, logup_columns@);
        proof {
            lemma_first_column(groups@, g as int, groups@.len() as int);
        }
        match &groups[g] {
            GroupedMLE::Prod(i, _) => {
                expr = add_exprs(expr, prod_expr(alpha_pows[*i], next));
                push_columns(&mut prod_columns, *i, next, 2);
                next = next + 2;
            },
            GroupedMLE::Logup(i, _) => {
                let at: usize = num_prod + 2 * *i;
                expr = add_exprs(expr, logup_expr(alpha_pows[at], alpha_pows[at + 1], next));
                push_columns(&mut logup_columns, *i, next, 4);
                next = next + 4;
            },
        }
        proof {
            assert forall|i: int| 0 <= i < num_prod implies (#[trigger] prod_columns@[i])@
                == tower_columns(groups@, true, i, g + 1) by {
                assert(prods[i]@ == tower_columns(groups@, true, i, g as int));
            }
            assert forall|i: int| 0 <= i < num_logup implies (#[trigger] logup_columns@[i])@
                == tower_columns(groups@, false, i, g + 1) by {
                assert(logups[i]@ == tower_columns(groups@, false, i, g as int));
            }
        }
        g = g + 1;
    }
    TowerRound { expr, prod_columns, logup_columns }
}

/// The tables of the first layers of a round.
pub open spec fn flat_tables<'a>(groups: Seq<GroupedMLE<'a>>, n: int) -> Seq<
    MultilinearExtension<'a>,
>
    decreases n,
{
    if n <= 0 {
        Seq::empty()
    } else {
        flat_tables(groups, n - 1) + match groups[n - 1] {
            GroupedMLE::Prod(_, tables) => tables@,
            GroupedMLE::Logup(_, tables) => tables@,
        }
    }
}

/// The tables that a round runs on: the equality polynomial of the point of the round, then the
/// tables of the layers.
pub fn round_tables<'a>(
    groups: Vec<GroupedMLE<'a>>,
    out_rt: &Point,
    num_threads: usize,
) -> (r: Vec<MultilinearExtension<'a>>)
    requires
        vstd::arithmetic::power2::pow2(out_rt@.len()) <= usize::MAX,
        is_pow2(num_threads as int),
    ensures
        r@.len() == 1 + flat_tables(groups@, groups@.len() as int).len(),
        r@[0]@ == eq_table(ext_seq(out_rt@)),
        r@[0].num_vars == out_rt@.len(),
        r@[0].is_ext(),
        r@.skip(1) == flat_tables(groups@, groups@.len() as int),
{
    let ghost all = groups@;
    let mut groups = groups;
    let mut r: Vec<MultilinearExtension<'a>> = Vec::new();
    let eq = build_eq_x_r(out_rt.as_slice(), num_threads);
    assert(eq@ =~= eq_table(ext_seq(out_rt@)));
    r.push(eq);
    let n: usize = groups.len();
    let ghost first = r@[0];
    let mut g: usize = 0;
    assert(groups@ =~= all.skip(0));
    assert(r@.skip(1) =~= flat_tables(all, 0));
    while g < n
        invariant
            g <= n,
            n == all.len(),
            groups@ == all.skip(g as int),
            r@.len() >= 1,
            r@[0] == first,
            r@.skip(1) == flat_tables(all, g as int),
        decreases n - g,
    {
        let group = groups.remove(0);
        assert(group == all[g as int]);
        assert(groups@ =~= all.skip(g + 1));
        let ghost before = r@;
        let mut tables = match group {
            GroupedMLE::Prod(_, tables) => tables,
            GroupedMLE::Logup(_, tables) => tables,
        };
        let ghost more = tables@;
        r.append(&mut tables);
        assert(r@ == before + more);
        assert(r@.skip(1) =~= before.skip(1) + more);
        g = g + 1;
    }
    r
}

impl TowerProofs {
    /// No evaluations yet.
    pub fn new(num_prod: usize, num_logup: usize) -> (r: TowerProofs)
        ensures
            r.prod_specs_eval@.len() == num_prod,
            r.prod_specs_points@.len() == num_prod,
            r.logup_specs_eval@.len() == num_logup,
            r.logup_specs_points@.len() == num_logup,
            forall|i: int|
                0 <= i < num_prod ==> (#[trigger] r.prod_specs_eval@[i])@.len() == 0
                    && r.prod_specs_points@[i]@.len() == 0,
            forall|i: int|
                0 <= i < num_logup ==> (#[trigger] r.logup_specs_eval@[i])@.len() == 0
                    && r.logup_specs_points@[i]@.len() == 0,
    {
        TowerProofs {
            prod_specs_eval: empty_vecs(num_prod),
            logup_specs_eval: empty_vecs(num_logup),
            prod_specs_points: empty_vecs(num_prod),
            logup_specs_points: empty_vecs(num_logup),
        }
    }
}

fn empty_vecs<T>(n: usize) -> (r: Vec<Vec<T>>)
    ensures
        r@.len() == n,
        forall|i: int| 0 <= i < n ==> (#[trigger] r@[i])@.len() == 0,
{
    let mut r: Vec<Vec<T>> = Vec::with_capacity(n);
    let mut i: usize = 0;
    while i < n
        invariant
            i <= n,
            r@.len() == i,
            forall|k: int| 0 <= k < i ==> (#[trigger] r@[k])@.len() == 0,
        decreases n - i,
    {
        r.push(Vec::new());
        i = i + 1;
    }
    r
}

/// The evaluations of columns.
pub open spec fn evals_of(columns: Seq<WitnessId>, evals: Seq<GoldilocksExt2>) -> Seq<GoldilocksExt2> {
    Seq::new(columns.len(), |k: int| evals[columns[k] as int])
}

/// The evaluations and points of towers are extended by those of a round, for the towers that have a
/// layer in the round.
pub open spec fn extends_round(
    new_evals: Seq<Vec<Vec<GoldilocksExt2>>>,
    new_points: Seq<Vec<Point>>,
    old_evals: Seq<Vec<Vec<GoldilocksExt2>>>,
    old_points: Seq<Vec<Point>>,
    columns: Seq<Vec<WitnessId>>,
    evals: Seq<GoldilocksExt2>,
    point: Seq<GoldilocksExt2>,
    n: int,
) -> bool {
    &&& new_evals.len() == old_evals.len()
    &&& new_points.len() == old_points.len()
    &&& forall|i: int|
        0 <= i < new_evals.len() ==> if i < n && columns[i]@.len() > 0 {
            grown_by(
                (#[trigger] new_evals[i])@,
                new_points[i]@,
                old_evals[i]@,
                old_points[i]@,
                evals_of(columns[i]@, evals),
                point,
            )
        } else {
            new_evals[i] == old_evals[i] && new_points[i] == old_points[i]
        }
}

/// One entry has been added.
pub open spec fn grown_by(
    new_evals: Seq<Vec<GoldilocksExt2>>,
    new_points: Seq<Point>,
    old_evals: Seq<Vec<GoldilocksExt2>>,
    old_points: Seq<Point>,
    evals: Seq<GoldilocksExt2>,
    point: Seq<GoldilocksExt2>,
) -> bool {
    &&& new_evals.len() == old_evals.len() + 1
    &&& new_evals.drop_last() == old_evals
    &&& new_evals.last()@ == evals
    &&& new_points.len() == old_points.len() + 1
    &&& new_points.drop_last() == old_points
    &&& new_points.last()@ == point
}

fn column_evals(columns: &Vec<WitnessId>, evals: &[GoldilocksExt2]) -> (r: Vec<GoldilocksExt2>)
    requires
        forall|k: int| 0 <= k < columns@.len() ==> (#[trigger] columns@[k]) < evals@.len(),
    ensures
        r@ == evals_of(columns@, evals@),
{
    let mut r: Vec<GoldilocksExt2> = Vec::with_capacity(columns.len());
    let mut k: usize = 0;
    while k < columns.len()
        invariant
            k <= columns@.len(),
            forall|k: int| 0 <= k < columns@.len() ==> (#[trigger] columns@[k]) < evals@.len(),
            r@ == evals_of(columns@, evals@).take(k as int),
        decreases columns@.len() - k,
    {
        r.push(evals[columns[k] as usize]);
        k = k + 1;
        assert(r@ =~= evals_of(columns@, evals@).take(k as int));
    }
    assert(r@ =~= evals_of(columns@, evals@));
    r
}

/// The columns lie among the evaluations.
pub open spec fn columns_in(columns: Seq<Vec<WitnessId>>, n: int) -> bool {
    forall|i: int, k: int|
        0 <= i < columns.len() && 0 <= k < columns[i]@.len() ==> (#[trigger] columns[i]@[k]) < n
}

type EvalsAndPoints = (Seq<Vec<Vec<GoldilocksExt2>>>, Seq<Vec<Point>>);

proof fn lemma_extended(
    start: EvalsAndPoints,
    before: EvalsAndPoints,
    after: EvalsAndPoints,
    columns: Seq<Vec<WitnessId>>,
    evals: Seq<GoldilocksExt2>,
    point: Seq<GoldilocksExt2>,
    i: int,
)
    requires
        0 <= i < start.0.len(),
        start.1.len() == start.0.len(),
        extends_round(before.0, before.1, start.0, start.1, columns, evals, point, i),
        after.0.len() == before.0.len(),
        after.1.len() == before.1.len(),
        forall|j: int|
            0 <= j < after.0.len() && j != i ==> #[trigger] after.0[j] == before.0[j],
        forall|j: int|
            0 <= j < after.1.len() && j != i ==> #[trigger] after.1[j] == before.1[j],
        if columns[i]@.len() > 0 {
            grown_by(
                after.0[i]@,
                after.1[i]@,
                start.0[i]@,
                start.1[i]@,
                evals_of(columns[i]@, evals),
                point,
            )
        } else {
            after.0[i] == before.0[i] && after.1[i] == before.1[i]
        },
    ensures
        extends_round(after.0, after.1, start.0, start.1, columns, evals, point, i + 1),
{
    assert forall|j: int| 0 <= j < after.0.len() implies if j < i + 1 && columns[j]@.len() > 0 {
        grown_by(
            (#[trigger] after.0[j])@,
            after.1[j]@,
            start.0[j]@,
            start.1[j]@,
            evals_of(columns[j]@, evals),
            point,
        )
    } else {
        after.0[j] == start.0[j] && after.1[j] == start.1[j]
    } by {
        if j != i {
            assert(after.0[j] == before.0[j] && after.1[j] == before.1[j]);
        } else {
            assert(before.0[i] == start.0[i]);
        }
    }
}

fn push_evals(
    all_evals: &mut Vec<Vec<Vec<GoldilocksExt2>>>,
    all_points: &mut Vec<Vec<Point>>,
    columns: &Vec<Vec<WitnessId>>,
    evals: &[GoldilocksExt2],
    point: &Point,
)
    requires
        old(all_evals)@.len() == columns@.len(),
        old(all_points)@.len() == columns@.len(),
        columns_in(columns@, evals@.len() as int),
    ensures
        extends_round(
            final(all_evals)@,
            final(all_points)@,
            old(all_evals)@,
            old(all_points)@,
            columns@,
            evals@,
            point@,
            columns@.len() as int,
        ),
{
    let ghost (evals0, points0) = (all_evals@, all_points@);
    let mut i: usize = 0;
    while i < columns.len()
        invariant
            i <= columns@.len(),
            evals0.len() == columns@.len(),
            points0.len() == columns@.len(),
            columns_in(columns@, evals@.len() as int),
            extends_round(
                all_evals@,
                all_points@,
                evals0,
                points0,
                columns@,
                evals@,
                point@,
                i as int,
            ),
        decreases columns@.len() - i,
    {
        let ghost (evals1, points1) = (all_evals@, all_points@);
        assert(evals1[i as int] == evals0[i as int] && points1[i as int] == points0[i as int]);
        if columns[i].len() > 0 {
            proof {
                assert forall|k: int| 0 <= k < columns@[i as int]@.len() implies (
                #[trigger] columns@[i as int]@[k]) < evals@.len() by {}
            }
            let values = column_evals(&columns[i], evals);
            all_evals[i].push(values);
            all_points[i].push(slice_to_vec(point.as_slice()));
            proof {
                assert(all_evals@[i as int]@.drop_last() =~= evals0[i as int]@);
                assert(all_points@[i as int]@.drop_last() =~= points0[i as int]@);
            }
        }
        proof {
            lemma_extended(
                (evals0, points0),
                (evals1, points1),
                (all_evals@, all_points@),
                columns@,
                evals@,
                point@,
                i as int,
            );
        }
        i = i + 1;
    }
}

impl TowerProofs {
    /// Adds the evaluations in which a round ends, at the point of the next round.
    pub fn push_round(&mut self, round: &TowerRound, evals: &[GoldilocksExt2], rt_prime: &Point)
        requires
            old(self).prod_specs_eval@.len() == round.prod_columns@.len(),
            old(self).prod_specs_points@.len() == round.prod_columns@.len(),
            old(self).logup_specs_eval@.len() == round.logup_columns@.len(),
            old(self).logup_specs_points@.len() == round.logup_columns@.len(),
            columns_in(round.prod_columns@, evals@.len() as int),
            columns_in(round.logup_columns@, evals@.len() as int),
        ensures
            extends_round(
                final(self).prod_specs_eval@,
                final(self).prod_specs_points@,
                old(self).prod_specs_eval@,
                old(self).prod_specs_points@,
                round.prod_columns@,
                evals@,
                rt_prime@,
                round.prod_columns@.len() as int,
            ),
            extends_round(
                final(self).logup_specs_eval@,
                final(self).logup_specs_points@,
                old(self).logup_specs_eval@,
                old(self).logup_specs_points@,
                round.logup_columns@,
                evals@,
                rt_prime@,
                round.logup_columns@.len() as int,
            ),
    {
        push_evals(
            &mut self.prod_specs_eval,
            &mut self.prod_specs_points,
            &round.prod_columns,
            evals,
            rt_prime,
        );
        push_evals(
            &mut self.logup_specs_eval,
            &mut self.logup_specs_points,
            &round.logup_columns,
            evals,
            rt_prime,
        );
    }
}

/// The point of the next round: that of the sum check, then the coordinates that merge two tables.
pub fn next_point(challenges: &Point, r_merge: &Point) -> (r: Point)
    requires
        challenges@.len() + r_merge@.len() <= usize::MAX,
    ensures
        r@ == challenges@ + r_merge@,
{
    concat_slices(challenges.as_slice(), r_merge.as_slice())
}

/// The value of the term of a product layer.
pub proof fn lemma_prod_term(alpha: GoldilocksExt2, id: int, env: Env)
    requires
        0 <= id < u16::MAX,
    ensures
        prod_term(alpha, id).eval(env) == e_mul(
            e_mul(env.wit[0]@, alpha@),
            e_mul(env.wit[id]@, env.wit[id + 1]@),
        ),
{
    reveal_with_fuel(product_exprs, 3);
    let (a, b) = (col(id), col(id + 1));
    let s = seq![a, b];
    assert(s.drop_last() =~= seq![a]);
    assert(seq![a].drop_last() =~= Seq::<Expression>::empty());
    let one = base_const(1);
    let product = product_exprs(s);
    assert(product == one.spec_mul(a).spec_mul(b));
    lemma_eval_mul(one, a, env);
    lemma_column_fits(one.spec_mul(a), b);
    lemma_eval_mul(one.spec_mul(a), b, env);
    lemma_e_mul_one(a.eval(env));
    let scaled = col(0).spec_mul(coefficient(alpha));
    lemma_eval_mul(col(0), coefficient(alpha), env);
    lemma_scaled_fits(alpha, product);
    lemma_eval_mul(scaled, product, env);
}

/// The value of the term of a layer of fractions.
pub proof fn lemma_logup_term(alpha_p: GoldilocksExt2, alpha_q: GoldilocksExt2, id: int, env: Env)
    requires
        0 <= id,
        id + 3 <= u16::MAX,
    ensures
        ({
            let (p1, p2) = (env.wit[id]@, env.wit[id + 1]@);
            let (q1, q2) = (env.wit[id + 2]@, env.wit[id + 3]@);
            logup_term(alpha_p, alpha_q, id).eval(env) == e_mul(
                env.wit[0]@,
                e_add(
                    e_mul(alpha_p@, e_add(e_mul(p1, q2), e_mul(p2, q1))),
                    e_mul(e_mul(alpha_q@, q1), q2),
                ),
            )
        }),
{
    let (p1, p2, q1, q2) = (col(id), col(id + 1), col(id + 2), col(id + 3));
    lemma_eval_mul(p1, q2, env);
    lemma_eval_mul(p2, q1, env);
    let cross = p1.spec_mul(q2).spec_add(p2.spec_mul(q1));
    lemma_eval_add(p1.spec_mul(q2), p2.spec_mul(q1), env);
    assert(coefficient(alpha_p).mul_fits(cross));
    lemma_eval_mul(coefficient(alpha_p), cross, env);
    lemma_eval_mul(coefficient(alpha_q), q1, env);
    lemma_column_fits(coefficient(alpha_q).spec_mul(q1), q2);
    lemma_eval_mul(coefficient(alpha_q).spec_mul(q1), q2, env);
    let numerator = coefficient(alpha_p).spec_mul(cross);
    let denominator = coefficient(alpha_q).spec_mul(q1).spec_mul(q2);
    lemma_eval_add(numerator, denominator, env);
    lemma_column_fits(numerator.spec_add(denominator), col(0));
    lemma_eval_mul(col(0), numerator.spec_add(denominator), env);
}

/// The value of a layer in a round.
pub open spec fn group_value(
    group: GroupedMLE,
    alphas: Seq<GoldilocksExt2>,
    num_prod: int,
    id: int,
    env: Env,
) -> Ext {
    match group {
        GroupedMLE::Prod(i, _) => e_mul(
            e_mul(env.wit[0]@, alphas[i as int]@),
            e_mul(env.wit[id]@, env.wit[id + 1]@),
        ),
        GroupedMLE::Logup(i, _) => e_mul(
            env.wit[0]@,
            e_add(
                e_mul(
                    alphas[num_prod + 2 * i]@,
                    e_add(
                        e_mul(env.wit[id]@, env.wit[id + 3]@),
                        e_mul(env.wit[id + 1]@, env.wit[id + 2]@),
                    ),
                ),
                e_mul(
                    e_mul(alphas[num_prod + 2 * i + 1]@, env.wit[id + 2]@),
                    env.wit[id + 3]@,
                ),
            ),
        ),
    }
}

/// The value of the first layers of a round.
pub open spec fn round_value(
    groups: Seq<GroupedMLE>,
    alphas: Seq<GoldilocksExt2>,
    num_prod: int,
    n: int,
    env: Env,
) -> Ext
    decreases n,
{
    if n <= 0 {
        e_zero()
    } else {
        e_add(
            round_value(groups, alphas, num_prod, n - 1, env),
            group_value(groups[n - 1], alphas, num_prod, first_column(groups, n - 1), env),
        )
    }
}

/// The value of the expression of a round: for each product layer the product of its tables, for
/// each layer of fractions the numerator and the denominator of their sum, with their coefficients
/// and the equality polynomial.
pub proof fn lemma_round_expr(
    groups: Seq<GroupedMLE>,
    alphas: Seq<GoldilocksExt2>,
    num_prod: int,
    n: int,
    env: Env,
)
    requires
        0 <= n <= groups.len(),
        first_column(groups, n) <= u16::MAX,
    ensures
        round_expr(groups, alphas, num_prod, n).eval(env) == round_value(
            groups,
            alphas,
            num_prod,
            n,
            env,
        ),
    decreases n,
{
    if n > 0 {
        lemma_first_column(groups, n - 1, n);
        lemma_round_expr(groups, alphas, num_prod, n - 1, env);
        let id = first_column(groups, n - 1);
        lemma_eval_add(
            round_expr(groups, alphas, num_prod, n - 1),
            group_term(groups[n - 1], alphas, num_prod, id),
            env,
        );
        match groups[n - 1] {
            GroupedMLE::Prod(i, _) => {
                lemma_prod_term(alphas[i as int], id, env);
            },
            GroupedMLE::Logup(i, _) => {
                lemma_logup_term(
                    alphas[num_prod + 2 * i],
                    alphas[num_prod + 2 * i + 1],
                    id,
                    env,
                );
            },
        }
    }
}

} // verus!
