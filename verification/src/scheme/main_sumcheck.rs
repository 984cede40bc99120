//! The main constraints of a circuit: the selector of the instances, the combined constraint as a
//! sum of products, and the evaluations that remain to be opened.
use vstd::arithmetic::power2::*;
use vstd::prelude::*;
use vstd::slice::slice_subrange;
use vstd::string::*;

use crate::expression::monomial::Term;
use crate::expression::eval::leaves_in;
use crate::expression::infer::{infer_shape, row_env, wit_infer_by_expr};
use crate::expression::{scalar_to_ext, Env, Expression};
use crate::field::{
    e_add, e_mul, e_neg, e_one, e_sub, e_zero, group_field, Ext, GoldilocksExt2,
};
use crate::gkr::sum_laws::{added, lemma_sum_added};
use crate::mle::{concat_slices, ext_seq, slice_to_vec, MultilinearExtension};
use crate::multilinear::{
    all_valid, e_sum, eq_at, eq_terms, fix_first, lemma_mle_eval_is_eq_sum, mle_eval,
};
use crate::ring::{
    lemma_e_add_assoc, lemma_e_add_comm, lemma_e_add_neg, lemma_e_add_zero, lemma_e_mul_add,
    lemma_e_mul_assoc, lemma_e_mul_comm, lemma_e_mul_zero, lemma_e_sub_is_add_neg,
};
use crate::scheme::structs::{ConstraintSystem, MainSumcheckEvals, ProofInput, ZKVMError};
use crate::scheme::utils::masked;
use crate::text::{append, decimal, decimal_text};
use crate::util::is_pow2;
use crate::virtual_poly::build_eq_x_r_vec;
use crate::witness::{next_pow2_instance_padding, spec_next_pow2_instance_padding};

verus! {

broadcast use group_field;

/// The selector of the instances: the equality polynomial of a point, zero from the first row
/// without an instance on.
pub fn main_selector(rt_tower: &[GoldilocksExt2], num_instances: usize, num_threads: usize) -> (r:
    MultilinearExtension<'static>)
    requires
        pow2(rt_tower@.len()) <= usize::MAX,
        is_pow2(num_threads as int),
    ensures
        r.wf(),
        r.is_ext(),
        r.num_vars == rt_tower@.len(),
        forall|i: int|
            0 <= i < r@.len() ==> #[trigger] r@[i] == if i < num_instances {
                eq_at(ext_seq(rt_tower@), i)
            } else {
                e_zero()
            },
{
    let mut sel = build_eq_x_r_vec(rt_tower, num_threads);
    let n: usize = sel.len();
    let mut i: usize = num_instances;
    while i < n
        invariant
            num_instances <= i,
            n == sel@.len(),
            forall|k: int|
                0 <= k < n ==> (#[trigger] sel@[k])@ == if num_instances <= k < i {
                    e_zero()
                } else {
                    eq_at(ext_seq(rt_tower@), k)
                },
        decreases n - i,
    {
        sel.set(i, GoldilocksExt2::zero());
        i = i + 1;
    }
    MultilinearExtension::from_evaluations_ext_vec(rt_tower.len(), sel)
}

/// The public values that a circuit refers to, in ascending order.
pub open spec fn are_instance_ids(ids: Seq<usize>, n: int) -> bool {
    &&& forall|i: int| 0 <= i < ids.len() ==> (#[trigger] ids[i]) < n
    &&& forall|i: int, j: int| 0 <= i < j < ids.len() ==> ids[i] < ids[j]
}

/// The public values of a circuit.
pub fn public_io_evals(instance_ids: &Vec<usize>, public_input: &[MultilinearExtension]) -> (r: Vec<
    GoldilocksExt2,
>)
    requires
        are_instance_ids(instance_ids@, public_input@.len() as int),
        forall|i: int|
            0 <= i < public_input@.len() ==> (#[trigger] public_input@[i])@.len() == 1,
    ensures
        r@.len() == instance_ids@.len(),
        forall|i: int|
            0 <= i < r@.len() ==> (#[trigger] r@[i])@ == public_input@[instance_ids@[i] as int]@[0],
{
    let mut r: Vec<GoldilocksExt2> = Vec::with_capacity(instance_ids.len());
    let mut i: usize = 0;
    while i < instance_ids.len()
        invariant
            i <= instance_ids@.len(),
            are_instance_ids(instance_ids@, public_input@.len() as int),
            forall|i: int|
                0 <= i < public_input@.len() ==> (#[trigger] public_input@[i])@.len() == 1,
            r@.len() == i,
            forall|k: int|
                0 <= k < i ==> (#[trigger] r@[k])@
                    == public_input@[instance_ids@[k] as int]@[0],
        decreases instance_ids@.len() - i,
    {
        let id: usize = instance_ids[i];
        assert(public_input@[id as int]@.len() == 1);
        r.push(public_input[id].evaluations.get(0));
        i = i + 1;
    }
    r
}

/// The challenges of the circuit, then those of its layers.
pub fn all_challenges(challenges: &[GoldilocksExt2], alpha_pow: &[GoldilocksExt2]) -> (r: Vec<
    GoldilocksExt2,
>)
    requires
        challenges@.len() + alpha_pow@.len() <= usize::MAX,
    ensures
        r@ == challenges@ + alpha_pow@,
{
    concat_slices(challenges, alpha_pow)
}

/// The values of an expression in the rows of the witness.
pub open spec fn zero_table(
    input: ProofInput,
    challenges: Seq<GoldilocksExt2>,
    expr: Expression,
) -> Seq<Ext> {
    let none = Seq::<MultilinearExtension>::empty();
    let shape = infer_shape(none, input.witness@, none, input.public_input@, challenges, expr)->0;
    Seq::new(
        pow2(shape.num_vars),
        |row: int|
            expr.eval(row_env(none, input.witness@, none, input.public_input@, challenges, row)),
    )
}

/// The first rows in which a table is not zero, at most `limit` of them.
pub open spec fn nonzero_rows(table: Seq<Ext>, n: int, limit: nat) -> Seq<int>
    decreases n,
{
    if n <= 0 {
        Seq::empty()
    } else {
        let rest = nonzero_rows(table, n - 1, limit);
        if table[n - 1] != e_zero() && rest.len() < limit {
            rest.push(n - 1)
        } else {
            rest
        }
    }
}

/// Numbers with commas between them.
pub open spec fn comma_text(rows: Seq<int>) -> Seq<char>
    decreases rows.len(),
{
    if rows.len() == 0 {
        ""@
    } else if rows.len() == 1 {
        decimal_text(rows[0] as nat)
    } else {
        comma_text(rows.drop_last()) + ","@ + decimal_text(rows.last() as nat)
    }
}

/// How many rows are reported.
pub const REPORTED_ROWS: usize = 100;

/// The rows of an expression that are reported.
pub open spec fn reported_rows(
    input: ProofInput,
    challenges: Seq<GoldilocksExt2>,
    expr: Expression,
) -> Seq<int> {
    let table = zero_table(input, challenges, expr);
    nonzero_rows(table, table.len() as int, REPORTED_ROWS as nat)
}

/// What is reported of an expression that is not zero.
pub open spec fn nonzero_text(name: Seq<char>, rows: Seq<int>) -> Seq<char> {
    "degree > 1 zero check virtual poly: expr "@ + name + " != 0 on instance indexes: "@
        + comma_text(rows) + "..."@
}

/// The tables of expressions can be inferred in the base field.
pub open spec fn can_check_zero(
    input: ProofInput,
    challenges: Seq<GoldilocksExt2>,
    exprs: Seq<Expression>,
) -> bool {
    let none = Seq::<MultilinearExtension>::empty();
    forall|i: int|
        0 <= i < exprs.len() ==> {
            let shape = infer_shape(
                none,
                input.witness@,
                none,
                input.public_input@,
                challenges,
                #[trigger] exprs[i],
            );
            shape is Some && !shape->0.ext
        }
}

fn rows_text(rows: &Vec<usize>) -> (r: String)
    ensures
        r@ == comma_text(rows@.map_values(|v: usize| v as int)),
{
    let ghost all = rows@.map_values(|v: usize| v as int);
    let mut r = "".to_owned();
    let mut i: usize = 0;
    assert(all.take(0) =~= Seq::empty());
    while i < rows.len()
        invariant
            i <= rows@.len(),
            all == rows@.map_values(|v: usize| v as int),
            r@ == comma_text(all.take(i as int)),
        decreases rows@.len() - i,
    {
        let text = decimal(rows[i] as u64);
        assert(all.take(i + 1).drop_last() =~= all.take(i as int));
        if i == 0 {
            r = text;
        } else {
            r = append(append(r, ","), text.as_str());
        }
        i = i + 1;
    }
    assert(all.take(i as int) =~= all);
    r
}

/// The first rows in which a table is not zero.
fn find_nonzero_rows(m: &MultilinearExtension) -> (r: Vec<usize>)
    requires
        m.wf(),
    ensures
        r@.map_values(|v: usize| v as int) == nonzero_rows(
            m@,
            m@.len() as int,
            REPORTED_ROWS as nat,
        ),
{
    let n: usize = m.evaluations.len();
    let zero = GoldilocksExt2::zero();
    let mut r: Vec<usize> = Vec::new();
    let mut i: usize = 0;
    assert(r@.map_values(|v: usize| v as int) =~= Seq::<int>::empty());
    while i < n
        invariant
            i <= n,
            n == m@.len(),
            m.wf(),
            zero@ == e_zero(),
            r@.map_values(|v: usize| v as int) == nonzero_rows(m@, i as int, REPORTED_ROWS as nat),
        decreases n - i,
    {
        let ghost before = r@;
        assert(before.map_values(|v: usize| v as int).len() == before.len());
        if m.evaluations.get(i) != zero && r.len() < REPORTED_ROWS {
            r.push(i);
            assert(r@.map_values(|v: usize| v as int) =~= before.map_values(
                |v: usize| v as int,
            ).push(i as int));
        }
        i = i + 1;
    }
    r
}

/// Checks that expressions are zero in every row; the first one that is not is reported with the
/// first rows in which it is not.
pub fn check_zero_expressions(
    input: &ProofInput,
    challenges: &[GoldilocksExt2],
    exprs: &Vec<Expression>,
    names: &Vec<String>,
) -> (r: Result<(), ZKVMError>)
    requires
        exprs@.len() == names@.len(),
        can_check_zero(*input, challenges@, exprs@),
    ensures
        match r {
            Ok(_) => forall|i: int|
                0 <= i < exprs@.len() ==> reported_rows(
                    *input,
                    challenges@,
                    #[trigger] exprs@[i],
                ).len() == 0,
            Err(ZKVMError::InvalidWitness(text)) => exists|i: int|
                {
                    &&& 0 <= i < exprs@.len()
                    &&& #[trigger] reported_rows(*input, challenges@, exprs@[i]).len() > 0
                    &&& text@ == nonzero_text(
                        names@[i]@,
                        reported_rows(*input, challenges@, exprs@[i]),
                    )
                    &&& forall|k: int|
                        0 <= k < i ==> reported_rows(
                            *input,
                            challenges@,
                            #[trigger] exprs@[k],
                        ).len() == 0
                },
        },
{
    let none: Vec<MultilinearExtension<'static>> = Vec::new();
    let ghost empty = Seq::<MultilinearExtension>::empty();
    assert(none@ =~= empty);
    let mut i: usize = 0;
    while i < exprs.len()
        invariant
            i <= exprs@.len(),
            exprs@.len() == names@.len(),
            none@ == empty,
            empty == Seq::<MultilinearExtension>::empty(),
            can_check_zero(*input, challenges@, exprs@),
            forall|k: int|
                0 <= k < i ==> reported_rows(*input, challenges@, #[trigger] exprs@[k]).len() == 0,
        decreases exprs@.len() - i,
    {
        let ghost e = exprs@[i as int];
        let table = wit_infer_by_expr(
            none.as_slice(),
            input.witness.as_slice(),
            none.as_slice(),
            input.public_input.as_slice(),
            challenges,
            &exprs[i],
        );
        proof {
            let expected = zero_table(*input, challenges@, e);
            assert forall|row: int| 0 <= row < expected.len() implies #[trigger] table@[row]
                == expected[row] by {
                let env = row_env(
                    empty,
                    input.witness@,
                    empty,
                    input.public_input@,
                    challenges@,
                    row,
                );
                assert(e.eval(env) == expected[row]);
            }
            assert(table@ =~= expected);
        }
        let rows = find_nonzero_rows(&table);
        let ghost reported = reported_rows(*input, challenges@, e);
        assert(rows@.map_values(|v: usize| v as int).len() == rows@.len());
        if rows.len() > 0 {
            let prefix = append(
                "degree > 1 zero check virtual poly: expr ".to_owned(),
                names[i].as_str(),
            );
            let middle = append(prefix, " != 0 on instance indexes: ");
            let text = append(append(middle, rows_text(&rows).as_str()), "...");
            assert(text@ == nonzero_text(names@[i as int]@, reported));
            return Err(ZKVMError::InvalidWitness(text));
        }
        i = i + 1;
    }
    Ok(())
}

/// No row is reported exactly if every row is zero.
pub proof fn lemma_no_rows(table: Seq<Ext>, n: int, limit: nat)
    requires
        0 <= n <= table.len(),
        limit > 0,
    ensures
        nonzero_rows(table, n, limit).len() == 0 <==> forall|i: int|
            0 <= i < n ==> #[trigger] table[i] == e_zero(),
    decreases n,
{
    if n > 0 {
        lemma_no_rows(table, n - 1, limit);
    }
}

/// The reported rows: rows of the table in ascending order, none of them zero, and every such row
/// before the last one reported. Fewer than the limit are reported only where there are no more.
pub proof fn lemma_reported_rows(table: Seq<Ext>, n: int, limit: nat, row: int)
    requires
        0 <= n <= table.len(),
        limit > 0,
    ensures
        ({
            let rows = nonzero_rows(table, n, limit);
            &&& rows.len() <= limit
            &&& forall|k: int|
                0 <= k < rows.len() ==> 0 <= (#[trigger] rows[k]) < n && table[rows[k]] != e_zero()
            &&& forall|j: int, k: int| 0 <= j < k < rows.len() ==> rows[j] < rows[k]
            &&& 0 <= row < n && table[row] != e_zero() && (rows.len() < limit || row
                <= rows.last()) ==> rows.contains(row)
        }),
    decreases n,
{
    if n > 0 {
        let rows = nonzero_rows(table, n, limit);
        let rest = nonzero_rows(table, n - 1, limit);
        lemma_reported_rows(table, n - 1, limit, row);
        if table[n - 1] != e_zero() && rest.len() < limit {
            assert(rows.last() == n - 1);
            if row == n - 1 {
                assert(rows[rest.len() as int] == row);
            } else if rest.contains(row) {
                let k = choose|k: int| 0 <= k < rest.len() && rest[k] == row;
                assert(rows[k] == row);
            }
        }
    }
}

/// A hundred rows are reported at most.
pub proof fn lemma_report(
    input: ProofInput,
    challenges: Seq<GoldilocksExt2>,
    expr: Expression,
    row: int,
)
    ensures
        ({
            let none = Seq::<MultilinearExtension>::empty();
            let table = zero_table(input, challenges, expr);
            let rows = reported_rows(input, challenges, expr);
            &&& rows.len() <= 100
            &&& forall|k: int|
                0 <= k < rows.len() ==> 0 <= (#[trigger] rows[k]) < table.len() && expr.eval(
                    row_env(none, input.witness@, none, input.public_input@, challenges, rows[k]),
                ) != e_zero()
            &&& forall|j: int, k: int| 0 <= j < k < rows.len() ==> rows[j] < rows[k]
            &&& 0 <= row < table.len() && expr.eval(
                row_env(none, input.witness@, none, input.public_input@, challenges, row),
            ) != e_zero() && (rows.len() < 100 || row <= rows.last()) ==> rows.contains(row)
        }),
{
    let table = zero_table(input, challenges, expr);
    lemma_reported_rows(table, table.len() as int, 100, row);
}

/// The rows of a report stand with commas between them.
pub proof fn lemma_comma_text(a: Seq<int>, b: Seq<int>)
    requires
        a.len() > 0,
        b.len() > 0,
    ensures
        comma_text(a + b) == comma_text(a) + seq![','] + comma_text(b),
        a.len() == 1 ==> comma_text(a) == decimal_text(a[0] as nat),
    decreases b.len(),
{
    reveal_strlit(",");
    reveal_strlit("");
    assert(","@ =~= seq![',']);
    let ab = a + b;
    assert(ab.drop_last() =~= a + b.drop_last());
    assert(ab.last() == b.last());
    if b.len() == 1 {
        assert(a + b.drop_last() =~= a);
        assert(comma_text(ab) =~= comma_text(a) + seq![','] + comma_text(b));
    } else {
        lemma_comma_text(a, b.drop_last());
        assert(comma_text(ab) =~= comma_text(a) + seq![','] + comma_text(b));
    }
}

/// The leaves of the scalars of the combined constraint.
pub open spec fn scalar_env(public_io: Seq<GoldilocksExt2>, challenges: Seq<GoldilocksExt2>) -> Env {
    Env {
        fixed: Seq::empty(),
        wit: Seq::empty(),
        structural: Seq::empty(),
        instance: public_io,
        challenges,
    }
}

/// Evaluates an expression over public values and challenges.
pub fn eval_scalar(
    public_io: &[GoldilocksExt2],
    challenges: &[GoldilocksExt2],
    expr: &Expression,
) -> (r: GoldilocksExt2)
    requires
        leaves_in(*expr, scalar_env(public_io@, challenges@)),
    ensures
        r@ == expr.eval(scalar_env(public_io@, challenges@)),
    decreases expr,
{
    match expr {
        Expression::Instance(i) => public_io[i.0],
        Expression::Constant(c) => scalar_to_ext(c),
        Expression::Sum(a, b) => {
            let x = eval_scalar(public_io, challenges, a);
            let y = eval_scalar(public_io, challenges, b);
            x + y
        },
        Expression::Product(a, b) => {
            let x = eval_scalar(public_io, challenges, a);
            let y = eval_scalar(public_io, challenges, b);
            x * y
        },
        Expression::ScaledSum(c, a, b) => {
            let x = eval_scalar(public_io, challenges, c);
            let y = eval_scalar(public_io, challenges, a);
            let z = eval_scalar(public_io, challenges, b);
            y * x + z
        },
        Expression::Challenge(id, pow, scalar, offset) => {
            challenges[*id as usize].exp_u64(*pow as u64) * *scalar + *offset
        },
        _ => vstd::pervasive::unreached(),
    }
}

fn clone_exprs(exprs: &Vec<Expression>) -> (r: Vec<Expression>)
    ensures
        r@ == exprs@,
{
    let mut r: Vec<Expression> = Vec::with_capacity(exprs.len());
    let mut i: usize = 0;
    while i < exprs.len()
        invariant
            i <= exprs@.len(),
            r@ == exprs@.take(i as int),
        decreases exprs@.len() - i,
    {
        r.push(exprs[i].clone());
        i = i + 1;
        assert(r@ =~= exprs@.take(i as int));
    }
    assert(r@ =~= exprs@);
    r
}

/// The terms with their scalars evaluated and the selector as a further factor.
pub open spec fn are_selected_terms(
    r: Seq<Term<GoldilocksExt2, Expression>>,
    terms: Seq<Term<Expression, Expression>>,
    env: Env,
    selector: u16,
) -> bool {
    &&& r.len() == terms.len()
    &&& forall|i: int|
        0 <= i < r.len() ==> (#[trigger] r[i]).scalar@ == terms[i].scalar.eval(env)
            && r[i].product@ == terms[i].product@.push(Expression::WitIn(selector))
}

/// The terms of the combined constraint, each times the selector, which is the last column.
pub fn selected_terms(
    cs: &ConstraintSystem,
    public_io: &[GoldilocksExt2],
    challenges: &[GoldilocksExt2],
) -> (r: Vec<Term<GoldilocksExt2, Expression>>)
    requires
        forall|i: int|
            0 <= i < cs.backend_expr_monomial_form@.len() ==> leaves_in(
                (#[trigger] cs.backend_expr_monomial_form@[i]).scalar,
                scalar_env(public_io@, challenges@),
            ),
    ensures
        are_selected_terms(
            r@,
            cs.backend_expr_monomial_form@,
            scalar_env(public_io@, challenges@),
            cs.num_backend_witin,
        ),
{
    let terms = &cs.backend_expr_monomial_form;
    let ghost env = scalar_env(public_io@, challenges@);
    let mut r: Vec<Term<GoldilocksExt2, Expression>> = Vec::with_capacity(terms.len());
    let mut i: usize = 0;
    while i < terms.len()
        invariant
            i <= terms@.len(),
            terms@ == cs.backend_expr_monomial_form@,
            env == scalar_env(public_io@, challenges@),
            forall|i: int|
                0 <= i < terms@.len() ==> leaves_in((#[trigger] terms@[i]).scalar, env),
            are_selected_terms(r@, terms@.take(i as int), env, cs.num_backend_witin),
        decreases terms@.len() - i,
    {
        let ghost before = r@;
        assert(leaves_in(terms@[i as int].scalar, env));
        let scalar = eval_scalar(public_io, challenges, &terms[i].scalar);
        let mut product = clone_exprs(&terms[i].product);
        product.push(Expression::WitIn(cs.num_backend_witin));
        r.push(Term { scalar, product });
        proof {
            assert forall|k: int| 0 <= k < i + 1 implies (#[trigger] r@[k]).scalar@
                == terms@.take(i + 1)[k].scalar.eval(env) && r@[k].product@ == terms@.take(
                i + 1,
            )[k].product@.push(Expression::WitIn(cs.num_backend_witin)) by {
                if k < i {
                    assert(r@[k] == before[k]);
                    assert(terms@.take(i + 1)[k] == terms@.take(i as int)[k]);
                }
            }
        }
        i = i + 1;
    }
    assert(terms@.take(i as int) =~= terms@);
    r
}

/// The value of a product of columns.
pub open spec fn product_value(product: Seq<Expression>, env: Env) -> Ext
    decreases product.len(),
{
    if product.len() == 0 {
        e_one()
    } else {
        e_mul(product_value(product.drop_last(), env), product.last().eval(env))
    }
}

/// The value of the combined constraint: its scalars over public values and challenges, its products
/// over columns.
pub open spec fn terms_value(
    terms: Seq<Term<Expression, Expression>>,
    scalars: Env,
    columns: Env,
) -> Ext
    decreases terms.len(),
{
    if terms.len() == 0 {
        e_zero()
    } else {
        e_add(
            terms_value(terms.drop_last(), scalars, columns),
            e_mul(terms.last().scalar.eval(scalars), product_value(terms.last().product@, columns)),
        )
    }
}

/// The value of evaluated terms.
pub open spec fn evaluated_terms_value(
    terms: Seq<Term<GoldilocksExt2, Expression>>,
    columns: Env,
) -> Ext
    decreases terms.len(),
{
    if terms.len() == 0 {
        e_zero()
    } else {
        e_add(
            evaluated_terms_value(terms.drop_last(), columns),
            e_mul(terms.last().scalar@, product_value(terms.last().product@, columns)),
        )
    }
}

/// The terms with the selector have the value of the combined constraint times the selector.
pub proof fn lemma_selected_terms(
    r: Seq<Term<GoldilocksExt2, Expression>>,
    terms: Seq<Term<Expression, Expression>>,
    scalars: Env,
    selector: u16,
    columns: Env,
)
    requires
        are_selected_terms(r, terms, scalars, selector),
    ensures
        evaluated_terms_value(r, columns) == e_mul(
            terms_value(terms, scalars, columns),
            columns.wit[selector as int]@,
        ),
    decreases r.len(),
{
    let sel = columns.wit[selector as int]@;
    if r.len() == 0 {
        lemma_e_mul_comm(e_zero(), sel);
        lemma_e_mul_zero(sel);
    } else {
        let n = r.len() as int;
        let (rr, tt) = (r.drop_last(), terms.drop_last());
        assert forall|i: int| 0 <= i < rr.len() implies (#[trigger] rr[i]).scalar@
            == tt[i].scalar.eval(scalars) && rr[i].product@ == tt[i].product@.push(
            Expression::WitIn(selector),
        ) by {
            assert(r[i] == rr[i] && terms[i] == tt[i]);
        }
        lemma_selected_terms(rr, tt, scalars, selector, columns);
        let p = terms[n - 1].product@;
        assert(r[n - 1].product@ == p.push(Expression::WitIn(selector)));
        assert(p.push(Expression::WitIn(selector)).drop_last() =~= p);
        let s = terms[n - 1].scalar.eval(scalars);
        let v = product_value(p, columns);
        lemma_e_mul_assoc(s, v, sel);
        let rest = terms_value(tt, scalars, columns);
        // (rest + s * v) * sel
        lemma_e_mul_comm(e_add(rest, e_mul(s, v)), sel);
        lemma_e_mul_add(sel, rest, e_mul(s, v));
        lemma_e_mul_comm(sel, rest);
        lemma_e_mul_comm(sel, e_mul(s, v));
    }
}

/// What the terms with the selector sum up to over all rows is the evaluation, at the point of the
/// selector, of the combined constraint with zeros in the rows without an instance.
#[verifier::spinoff_prover]
pub proof fn lemma_selected_sum(
    r: Seq<Term<GoldilocksExt2, Expression>>,
    terms: Seq<Term<Expression, Expression>>,
    scalars: Env,
    selector: u16,
    rows: Seq<Env>,
    num_instances: int,
    rt: Seq<Ext>,
)
    requires
        are_selected_terms(r, terms, scalars, selector),
        rows.len() == pow2(rt.len()),
        forall|s: int|
            0 <= s < rows.len() ==> (#[trigger] rows[s]).wit[selector as int]@ == if s
                < num_instances {
                eq_at(rt, s)
            } else {
                e_zero()
            },
    ensures
        e_sum(Seq::new(rows.len(), |s: int| evaluated_terms_value(r, rows[s]))) == mle_eval(
            masked(
                Seq::new(rows.len(), |s: int| terms_value(terms, scalars, rows[s])),
                num_instances,
                e_zero(),
            ),
            rt,
        ),
{
    let sums = Seq::new(rows.len(), |s: int| evaluated_terms_value(r, rows[s]));
    let values = Seq::new(rows.len(), |s: int| terms_value(terms, scalars, rows[s]));
    let table = masked(values, num_instances, e_zero());
    assert forall|s: int| 0 <= s < rows.len() implies #[trigger] sums[s] == eq_terms(
        table,
        rt,
    )[s] by {
        lemma_selected_terms(r, terms, scalars, selector, rows[s]);
        if s >= num_instances {
            lemma_e_mul_zero(values[s]);
            lemma_e_mul_comm(e_zero(), eq_at(rt, s));
            lemma_e_mul_zero(eq_at(rt, s));
        }
    }
    assert(sums =~= eq_terms(table, rt));
    lemma_mle_eval_is_eq_sum(table, rt);
}

/// The multilinear extension of a constant table is the constant.
pub proof fn lemma_constant_eval(c: Ext, point: Seq<Ext>)
    requires
        c.valid(),
    ensures
        mle_eval(Seq::new(pow2(point.len()), |i: int| c), point) == c,
    decreases point.len(),
{
    let s = Seq::new(pow2(point.len()), |i: int| c);
    lemma2_to64();
    if point.len() > 0 {
        let rest = point.drop_first();
        lemma_pow2_unfold(point.len());
        lemma_e_sub_is_add_neg(c, c);
        lemma_e_add_neg(c);
        lemma_e_mul_zero(point[0]);
        lemma_e_add_comm(e_zero(), c);
        lemma_e_add_zero(c);
        assert(fix_first(s, point[0]) =~= Seq::new(pow2(rest.len()), |i: int| c));
        lemma_constant_eval(c, rest);
    }
}

/// A table that is padded with a default evaluates to the default more than the table of the
/// differences to it, padded with zeros: so the main constraints speak of the records of a tower.
#[verifier::spinoff_prover]
pub proof fn lemma_padded_eval(s: Seq<Ext>, num_instances: int, default: Ext, point: Seq<Ext>)
    requires
        s.len() == pow2(point.len()),
        all_valid(s),
        default.valid(),
    ensures
        mle_eval(masked(s, num_instances, default), point) == e_add(
            mle_eval(
                masked(
                    Seq::new(s.len(), |i: int| e_sub(s[i], default)),
                    num_instances,
                    e_zero(),
                ),
                point,
            ),
            default,
        ),
{
    let table = masked(s, num_instances, default);
    let shifted = masked(
        Seq::new(s.len(), |i: int| e_sub(s[i], default)),
        num_instances,
        e_zero(),
    );
    let constant = Seq::new(s.len(), |i: int| default);
    lemma_mle_eval_is_eq_sum(table, point);
    lemma_mle_eval_is_eq_sum(shifted, point);
    lemma_mle_eval_is_eq_sum(constant, point);
    lemma_constant_eval(default, point);
    let (a, b) = (eq_terms(shifted, point), eq_terms(constant, point));
    assert forall|i: int| 0 <= i < s.len() implies #[trigger] eq_terms(table, point)[i] == added(
        a,
        b,
    )[i] by {
        let eq = eq_at(point, i);
        let (x, d) = (shifted[i], default);
        if i < num_instances {
            lemma_e_sub_is_add_neg(s[i], d);
            lemma_e_add_assoc(s[i], e_neg(d), d);
            lemma_e_add_comm(e_neg(d), d);
            lemma_e_add_neg(d);
            lemma_e_add_zero(s[i]);
        } else {
            lemma_e_add_comm(e_zero(), d);
            lemma_e_add_zero(d);
        }
        assert(e_add(x, d) == table[i]);
        lemma_e_mul_comm(table[i], eq);
        lemma_e_mul_add(eq, x, d);
        lemma_e_mul_comm(eq, x);
        lemma_e_mul_comm(eq, d);
    }
    assert(eq_terms(table, point) =~= added(a, b));
    lemma_sum_added(a, b);
}

/// The evaluations of the witness and of the fixed columns among those in which the sum check ends.
pub fn split_main_evals(evals: &[GoldilocksExt2], num_witin: usize, num_fixed: usize) -> (r:
    MainSumcheckEvals)
    requires
        num_witin + num_fixed <= evals@.len(),
    ensures
        r.wits_in_evals@ == evals@.take(num_witin as int),
        r.fixed_in_evals@ == evals@.subrange(num_witin as int, num_witin + num_fixed),
{
    let n: usize = evals.len();
    assert(num_witin + num_fixed <= n);
    let wits_in_evals = slice_to_vec(slice_subrange(evals, 0, num_witin));
    let fixed_in_evals = slice_to_vec(slice_subrange(evals, num_witin, num_witin + num_fixed));
    assert(wits_in_evals@ =~= evals@.take(num_witin as int));
    MainSumcheckEvals { wits_in_evals, fixed_in_evals }
}

/// The evaluations of tables at the leading coordinates of a point.
pub open spec fn are_table_evals(
    evals: Seq<GoldilocksExt2>,
    tables: Seq<MultilinearExtension>,
    point: Seq<GoldilocksExt2>,
) -> bool {
    &&& evals.len() == tables.len()
    &&& forall|i: int|
        0 <= i < evals.len() ==> (#[trigger] evals[i])@ == mle_eval(
            tables[i]@,
            ext_seq(point.take(tables[i].num_vars as int)),
        )
}

fn evals_at(tables: &Vec<MultilinearExtension>, point: &[GoldilocksExt2]) -> (r: Vec<GoldilocksExt2>)
    requires
        forall|i: int|
            0 <= i < tables@.len() ==> (#[trigger] tables@[i]).wf() && tables@[i].num_vars
                <= point@.len(),
    ensures
        are_table_evals(r@, tables@, point@),
{
    let mut r: Vec<GoldilocksExt2> = Vec::with_capacity(tables.len());
    let mut i: usize = 0;
    while i < tables.len()
        invariant
            i <= tables@.len(),
            forall|i: int|
                0 <= i < tables@.len() ==> (#[trigger] tables@[i]).wf() && tables@[i].num_vars
                    <= point@.len(),
            r@.len() == i,
            forall|k: int|
                0 <= k < i ==> (#[trigger] r@[k])@ == mle_eval(
                    tables@[k]@,
                    ext_seq(point@.take(tables@[k].num_vars as int)),
                ),
        decreases tables@.len() - i,
    {
        assert(tables@[i as int].wf());
        let n: usize = tables[i].num_vars();
        let head = slice_subrange(point, 0, n);
        assert(head@ =~= point@.take(n as int));
        r.push(tables[i].evaluate(head).unwrap());
        i = i + 1;
    }
    r
}

/// The evaluations of the columns of a table circuit at the point in which its towers end.
pub fn table_evals(input: &ProofInput, rt_tower: &[GoldilocksExt2]) -> (r: MainSumcheckEvals)
    requires
        forall|i: int|
            0 <= i < input.witness@.len() ==> (#[trigger] input.witness@[i]).wf()
                && input.witness@[i].num_vars <= rt_tower@.len(),
        forall|i: int|
            0 <= i < input.fixed@.len() ==> (#[trigger] input.fixed@[i]).wf()
                && input.fixed@[i].num_vars <= rt_tower@.len(),
    ensures
        are_table_evals(r.wits_in_evals@, input.witness@, rt_tower@),
        are_table_evals(r.fixed_in_evals@, input.fixed@, rt_tower@),
{
    MainSumcheckEvals {
        wits_in_evals: evals_at(&input.witness, rt_tower),
        fixed_in_evals: evals_at(&input.fixed, rt_tower),
    }
}

/// The largest size of a polynomial of the first traces: twice the padded number of instances.
pub open spec fn spec_largest_poly_size(num_instances: Seq<usize>, n: int) -> int
    decreases n,
{
    if n <= 0 {
        0
    } else {
        let rest = spec_largest_poly_size(num_instances, n - 1);
        let here = 2 * spec_next_pow2_instance_padding(num_instances[n - 1] as nat) as int;
        if here > rest {
            here
        } else {
            rest
        }
    }
}

/// The largest size of a polynomial of the traces.
pub fn largest_poly_size(num_instances: &[usize]) -> (r: usize)
    requires
        num_instances@.len() > 0,
        forall|i: int|
            0 <= i < num_instances@.len() ==> 2 * spec_next_pow2_instance_padding(
                (#[trigger] num_instances@[i]) as nat,
            ) <= usize::MAX,
    ensures
        r == spec_largest_poly_size(num_instances@, num_instances@.len() as int),
{
    let mut r: usize = 0;
    let mut i: usize = 0;
    while i < num_instances.len()
        invariant
            i <= num_instances@.len(),
            forall|i: int|
                0 <= i < num_instances@.len() ==> 2 * spec_next_pow2_instance_padding(
                    (#[trigger] num_instances@[i]) as nat,
                ) <= usize::MAX,
            r == spec_largest_poly_size(num_instances@, i as int),
        decreases num_instances@.len() - i,
    {
        assert(2 * spec_next_pow2_instance_padding(num_instances@[i as int] as nat) <= usize::MAX);
        let here: usize = 2 * next_pow2_instance_padding(num_instances[i]);
        if here > r {
            r = here;
        }
        i = i + 1;
    }
    r
}

/// Whether parameters for polynomials of the given size have to be made: those at hand, if any, are
/// for smaller ones.
pub fn needs_parameters(largest: Option<usize>, size: usize) -> (r: bool)
    ensures
        r == (largest is None || largest->0 < size),
{
    match largest {
        None => true,
        Some(s) => s < size,
    }
}

/// The largest table has twice as many rows as the circuit with the most padded rows.
pub proof fn lemma_largest_poly_size(num_instances: Seq<usize>, n: int)
    requires
        0 < n <= num_instances.len(),
    ensures
        forall|i: int|
            0 <= i < n ==> 2 * spec_next_pow2_instance_padding((#[trigger] num_instances[i]) as nat)
                <= spec_largest_poly_size(num_instances, n),
        exists|i: int|
            0 <= i < n && spec_largest_poly_size(num_instances, n) == 2
                * spec_next_pow2_instance_padding((#[trigger] num_instances[i]) as nat),
    decreases n,
{
    let here = 2 * spec_next_pow2_instance_padding(num_instances[n - 1] as nat) as int;
    if n == 1 {
        assert(spec_largest_poly_size(num_instances, 0) == 0);
    } else {
        lemma_largest_poly_size(num_instances, n - 1);
    }
    let rest = spec_largest_poly_size(num_instances, n - 1);
    if here > rest {
        assert(num_instances[n - 1] == num_instances[n - 1]);
    } else {
        let i = choose|i: int|
            0 <= i < n - 1 && rest == 2 * spec_next_pow2_instance_padding(
                (#[trigger] num_instances[i]) as nat,
            );
        assert(num_instances[i] == num_instances[i]);
    }
}

/// The evaluation of each table is the sum of its rows, weighted by the equality polynomial of as
/// many coordinates of the point as the table has variables.
pub proof fn lemma_table_evals(
    evals: Seq<GoldilocksExt2>,
    tables: Seq<MultilinearExtension>,
    point: Seq<GoldilocksExt2>,
    i: int,
)
    requires
        are_table_evals(evals, tables, point),
        0 <= i < tables.len(),
        tables[i].wf(),
        tables[i].num_vars <= point.len(),
    ensures
        evals.len() == tables.len(),
        evals[i]@ == e_sum(
            Seq::new(
                pow2(tables[i].num_vars as nat),
                |k: int|
                    e_mul(
                        tables[i]@[k],
                        eq_at(ext_seq(point).take(tables[i].num_vars as int), k),
                    ),
            ),
        ),
{
    let n = tables[i].num_vars as int;
    let start = ext_seq(point).take(n);
    assert(ext_seq(point.take(n)) =~= start);
    let terms = Seq::new(pow2(n as nat), |k: int| e_mul(tables[i]@[k], eq_at(start, k)));
    assert(terms =~= eq_terms(tables[i]@, start));
    lemma_mle_eval_is_eq_sum(tables[i]@, start);
    assert(evals[i]@ == mle_eval(tables[i]@, ext_seq(point.take(n))));
}

} // verus!
