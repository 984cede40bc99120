//! Witness inference: the table of an expression over the hypercube from the tables of its leaves.
use vstd::arithmetic::power2::*;
use vstd::prelude::*;

use crate::either::Either;

use crate::expression::{Env, Expression};
use crate::field::{e_add, e_base, e_mul, ge, group_field, Ext, Goldilocks, GoldilocksExt2};
use crate::mle::{base_seq, FieldType, MultilinearExtension};
use crate::ring::lemma_e_base_ops;
use crate::util::pow2_usize;

verus! {

broadcast use group_field;

/// The entry of a table at a row; a table with one entry has that entry in every row.
pub open spec fn row_value(m: MultilinearExtension, row: int) -> GoldilocksExt2 {
    ge(m@[if m@.len() == 1 { 0 } else { row }])
}

/// The leaves' values at a row.
pub open spec fn row_env(
    fixed: Seq<MultilinearExtension>,
    witnesses: Seq<MultilinearExtension>,
    structural: Seq<MultilinearExtension>,
    instance: Seq<MultilinearExtension>,
    challenges: Seq<GoldilocksExt2>,
    row: int,
) -> Env {
    Env {
        fixed: Seq::new(fixed.len(), |k: int| row_value(fixed[k], row)),
        wit: Seq::new(witnesses.len(), |k: int| row_value(witnesses[k], row)),
        structural: Seq::new(structural.len(), |k: int| row_value(structural[k], row)),
        instance: Seq::new(instance.len(), |k: int| row_value(instance[k], row)),
        challenges,
    }
}

/// The number of variables of an inferred table and whether it is over the extension.
pub struct Shape {
    pub num_vars: nat,
    pub ext: bool,
}

/// The shape of a leaf's table.
pub open spec fn leaf_shape(tables: Seq<MultilinearExtension>, id: int) -> Option<Shape> {
    if 0 <= id < tables.len() && tables[id].wf() {
        Some(Shape { num_vars: tables[id].num_vars as nat, ext: tables[id].is_ext() })
    } else {
        None
    }
}

/// The shape of a sum. Of two tables with several entries each, the one over the extension (the
/// left one if the fields agree) must not be the longer one, and gives the length.
pub open spec fn sum_shape(a: Shape, b: Shape) -> Option<Shape> {
    let ext = a.ext || b.ext;
    let (first, second) = if a.ext || !b.ext {
        (a, b)
    } else {
        (b, a)
    };
    if a.num_vars == 0 {
        Some(Shape { num_vars: b.num_vars, ext })
    } else if b.num_vars == 0 {
        Some(Shape { num_vars: a.num_vars, ext })
    } else if first.num_vars <= second.num_vars {
        Some(Shape { num_vars: first.num_vars, ext })
    } else {
        None
    }
}

/// The shape of a product: two tables with several entries each must have one length.
pub open spec fn product_shape(a: Shape, b: Shape) -> Option<Shape> {
    let ext = a.ext || b.ext;
    if a.num_vars == 0 {
        Some(Shape { num_vars: b.num_vars, ext })
    } else if b.num_vars == 0 || a.num_vars == b.num_vars {
        Some(Shape { num_vars: a.num_vars, ext })
    } else {
        None
    }
}

/// The shape of `a * x + b`: the offset and one of the factors have one entry, and the fields are
/// among the four combinations that are supported.
pub open spec fn scaled_shape(x: Shape, a: Shape, b: Shape) -> Option<Shape> {
    let ext = x.ext || a.ext || b.ext;
    let fields = (x.ext ==> !a.ext && !b.ext) && (b.ext ==> a.ext);
    if !fields || b.num_vars != 0 {
        None
    } else if a.num_vars == 0 {
        Some(Shape { num_vars: x.num_vars, ext })
    } else if x.num_vars == 0 {
        Some(Shape { num_vars: a.num_vars, ext })
    } else {
        None
    }
}

/// The shape of the table of an expression; none where inference is not supported.
pub open spec fn infer_shape(
    fixed: Seq<MultilinearExtension>,
    witnesses: Seq<MultilinearExtension>,
    structural: Seq<MultilinearExtension>,
    instance: Seq<MultilinearExtension>,
    challenges: Seq<GoldilocksExt2>,
    expr: Expression,
) -> Option<Shape>
    decreases expr,
{
    match expr {
        Expression::Fixed(f) => leaf_shape(fixed, f.0 as int),
        Expression::WitIn(id) => leaf_shape(witnesses, id as int),
        Expression::StructuralWitIn(id, _, _, _) => leaf_shape(structural, id as int),
        Expression::Instance(i) => leaf_shape(instance, i.0 as int),
        Expression::Constant(c) => if c is Left {
            Some(Shape { num_vars: 0, ext: false })
        } else {
            None
        },
        Expression::Challenge(id, _, _, _) => if (id as int) < challenges.len() {
            Some(Shape { num_vars: 0, ext: true })
        } else {
            None
        },
        Expression::Sum(a, b) => match (
            infer_shape(fixed, witnesses, structural, instance, challenges, *a),
            infer_shape(fixed, witnesses, structural, instance, challenges, *b),
        ) {
            (Some(sa), Some(sb)) => sum_shape(sa, sb),
            _ => None,
        },
        Expression::Product(a, b) => match (
            infer_shape(fixed, witnesses, structural, instance, challenges, *a),
            infer_shape(fixed, witnesses, structural, instance, challenges, *b),
        ) {
            (Some(sa), Some(sb)) => product_shape(sa, sb),
            _ => None,
        },
        Expression::ScaledSum(x, a, b) => match (
            infer_shape(fixed, witnesses, structural, instance, challenges, *x),
            infer_shape(fixed, witnesses, structural, instance, challenges, *a),
            infer_shape(fixed, witnesses, structural, instance, challenges, *b),
        ) {
            (Some(sx), Some(sa), Some(sb)) => scaled_shape(sx, sa, sb),
            _ => None,
        },
    }
}

/// The shape of a table, where it has one entry for each point of the hypercube.
fn table_shape(m: &MultilinearExtension) -> (r: Option<(usize, bool)>)
    ensures
        r == if m.wf() {
            Some((m.num_vars, m.is_ext()))
        } else {
            None
        },
{
    let ext = match &m.evaluations {
        FieldType::Base(_) => false,
        FieldType::Ext(_) => true,
        FieldType::Unreachable => return None,
    };
    let len: usize = m.evaluations.len();
    if m.num_vars >= usize::BITS as usize {
        proof {
            lemma2_to64();
            crate::util::lemma_pow2_monotone(usize::BITS as nat, m.num_vars as nat);
        }
        return None;
    }
    proof {
        lemma2_to64();
        lemma_pow2_strictly_increases(m.num_vars as nat, usize::BITS as nat);
    }
    if len == pow2_usize(m.num_vars) {
        Some((m.num_vars, ext))
    } else {
        None
    }
}

/// The shape of a leaf's table.
fn leaf_of(tables: &[MultilinearExtension], id: usize) -> (r: Option<(usize, bool)>)
    ensures
        is_shape(r, leaf_shape(tables@, id as int)),
{
    if id < tables.len() {
        table_shape(&tables[id])
    } else {
        None
    }
}

/// A pair holds the number of variables and the field of a shape.
pub open spec fn is_shape(r: Option<(usize, bool)>, shape: Option<Shape>) -> bool {
    match r {
        Some((num_vars, ext)) => shape == Some(Shape { num_vars: num_vars as nat, ext }),
        None => shape is None,
    }
}

/// The number of variables of the table of an expression and whether it is over the extension;
/// none where inference is not supported.
pub fn inferred_shape(
    fixed: &[MultilinearExtension],
    witnesses: &[MultilinearExtension],
    structural_witnesses: &[MultilinearExtension],
    instance: &[MultilinearExtension],
    challenges: &[GoldilocksExt2],
    expr: &Expression,
) -> (r: Option<(usize, bool)>)
    ensures
        is_shape(
            r,
            infer_shape(fixed@, witnesses@, structural_witnesses@, instance@, challenges@, *expr),
        ),
    decreases expr,
{
    match expr {
        Expression::Fixed(f) => leaf_of(fixed, f.0),
        Expression::WitIn(id) => leaf_of(witnesses, *id as usize),
        Expression::StructuralWitIn(id, _, _, _) => leaf_of(structural_witnesses, *id as usize),
        Expression::Instance(i) => leaf_of(instance, i.0),
        Expression::Constant(c) => match c {
            Either::Left(_) => Some((0, false)),
            Either::Right(_) => None,
        },
        Expression::Challenge(id, _, _, _) => if (*id as usize) < challenges.len() {
            Some((0, true))
        } else {
            None
        },
        Expression::Sum(ea, eb) => {
            let sa = inferred_shape(
                fixed,
                witnesses,
                structural_witnesses,
                instance,
                challenges,
                ea,
            );
            let sb = inferred_shape(
                fixed,
                witnesses,
                structural_witnesses,
                instance,
                challenges,
                eb,
            );
            match (sa, sb) {
                (Some((na, xa)), Some((nb, xb))) => {
                    let ext = xa || xb;
                    let (first, second): (usize, usize) = if xa || !xb {
                        (na, nb)
                    } else {
                        (nb, na)
                    };
                    if na == 0 {
                        Some((nb, ext))
                    } else if nb == 0 {
                        Some((na, ext))
                    } else if first <= second {
                        Some((first, ext))
                    } else {
                        None
                    }
                },
                _ => None,
            }
        },
        Expression::Product(ea, eb) => {
            let sa = inferred_shape(
                fixed,
                witnesses,
                structural_witnesses,
                instance,
                challenges,
                ea,
            );
            let sb = inferred_shape(
                fixed,
                witnesses,
                structural_witnesses,
                instance,
                challenges,
                eb,
            );
            match (sa, sb) {
                (Some((na, xa)), Some((nb, xb))) => if na == 0 {
                    Some((nb, xa || xb))
                } else if nb == 0 || na == nb {
                    Some((na, xa || xb))
                } else {
                    None
                },
                _ => None,
            }
        },
        Expression::ScaledSum(ex, ea, eb) => {
            let sx = inferred_shape(
                fixed,
                witnesses,
                structural_witnesses,
                instance,
                challenges,
                ex,
            );
            let sa = inferred_shape(
                fixed,
                witnesses,
                structural_witnesses,
                instance,
                challenges,
                ea,
            );
            let sb = inferred_shape(
                fixed,
                witnesses,
                structural_witnesses,
                instance,
                challenges,
                eb,
            );
            match (sx, sa, sb) {
                (Some((nx, xx)), Some((na, xa)), Some((nb, xb))) => {
                    let ext = xx || xa || xb;
                    let fields = (!xx || (!xa && !xb)) && (!xb || xa);
                    if !fields || nb != 0 {
                        None
                    } else if na == 0 {
                        Some((nx, ext))
                    } else if nx == 0 {
                        Some((na, ext))
                    } else {
                        None
                    }
                },
                _ => None,
            }
        },
    }
}

/// The table `m` holds the value of the expression in every row.
pub open spec fn is_table_of(
    m: MultilinearExtension,
    fixed: Seq<MultilinearExtension>,
    witnesses: Seq<MultilinearExtension>,
    structural: Seq<MultilinearExtension>,
    instance: Seq<MultilinearExtension>,
    challenges: Seq<GoldilocksExt2>,
    expr: Expression,
) -> bool {
    forall|row: int|
        0 <= row && (m@.len() == 1 || row < m@.len()) ==> m@[if m@.len() == 1 {
            0
        } else {
            row
        }] == expr.eval(
            #[trigger] row_env(fixed, witnesses, structural, instance, challenges, row),
        )
}

/// The entry of a table at an index, where a table with one entry is constant.
pub open spec fn spread(s: Seq<Ext>, i: int) -> Ext {
    s[if s.len() == 1 { 0 } else { i }]
}

fn entry_base(s: &[Goldilocks], i: usize) -> (r: Goldilocks)
    requires
        s@.len() == 1 || i < s@.len(),
    ensures
        e_base(r@) == spread(base_seq(s@), i as int),
{
    if s.len() == 1 {
        s[0]
    } else {
        s[i]
    }
}

fn entry(m: &MultilinearExtension, i: usize) -> (r: GoldilocksExt2)
    requires
        m@.len() == 1 || i < m@.len(),
    ensures
        r@ == spread(m@, i as int),
{
    if m.evaluations.len() == 1 {
        m.evaluations.get(0)
    } else {
        m.evaluations.get(i)
    }
}

/// Applies addition or multiplication entry by entry.
fn zip_tables(
    a: &MultilinearExtension,
    b: &MultilinearExtension,
    num_vars: usize,
    len: usize,
    product: bool,
) -> (r: MultilinearExtension<'static>)
    requires
        len == pow2(num_vars as nat),
        a@.len() == 1 || len <= a@.len(),
        b@.len() == 1 || len <= b@.len(),
        a.wf(),
        b.wf(),
    ensures
        r.wf(),
        r.num_vars == num_vars,
        r.is_ext() == (a.is_ext() || b.is_ext()),
        forall|i: int|
            0 <= i < len ==> #[trigger] r@[i] == if product {
                e_mul(spread(a@, i), spread(b@, i))
            } else {
                e_add(spread(a@, i), spread(b@, i))
            },
{
    match (&a.evaluations, &b.evaluations) {
        (FieldType::Base(sa), FieldType::Base(sb)) => {
            let (pa, pb) = (sa.as_slice(), sb.as_slice());
            let mut out: Vec<Goldilocks> = Vec::with_capacity(len);
            let mut i: usize = 0;
            while i < len
                invariant
                    i <= len,
                    pa@.len() == 1 || len <= pa@.len(),
                    pb@.len() == 1 || len <= pb@.len(),
                    base_seq(pa@) == a@,
                    base_seq(pb@) == b@,
                    out@.len() == i,
                    forall|k: int|
                        0 <= k < i ==> e_base((#[trigger] out@[k])@) == if product {
                            e_mul(spread(a@, k), spread(b@, k))
                        } else {
                            e_add(spread(a@, k), spread(b@, k))
                        },
                decreases len - i,
            {
                let (x, y) = (entry_base(pa, i), entry_base(pb, i));
                proof {
                    lemma_e_base_ops(x@, y@);
                }
                if product {
                    out.push(x * y);
                } else {
                    out.push(x + y);
                }
                i = i + 1;
            }
            MultilinearExtension::from_evaluations_vec(num_vars, out)
        },
        _ => {
            let mut out: Vec<GoldilocksExt2> = Vec::with_capacity(len);
            let mut i: usize = 0;
            while i < len
                invariant
                    i <= len,
                    a@.len() == 1 || len <= a@.len(),
                    b@.len() == 1 || len <= b@.len(),
                    out@.len() == i,
                    forall|k: int|
                        0 <= k < i ==> (#[trigger] out@[k])@ == if product {
                            e_mul(spread(a@, k), spread(b@, k))
                        } else {
                            e_add(spread(a@, k), spread(b@, k))
                        },
                decreases len - i,
            {
                let (x, y) = (entry(a, i), entry(b, i));
                if product {
                    out.push(x * y);
                } else {
                    out.push(x + y);
                }
                i = i + 1;
            }
            MultilinearExtension::from_evaluations_ext_vec(num_vars, out)
        },
    }
}

/// A table with one entry has no variables.
proof fn lemma_one_entry(m: MultilinearExtension)
    requires
        m.wf(),
    ensures
        m@.len() == 1 <==> m.num_vars == 0,
        m@.len() >= 1,
{
    lemma2_to64();
    lemma_pow2_pos(m.num_vars as nat);
    if m.num_vars > 0 {
        lemma_pow2_unfold(m.num_vars as nat);
        lemma_pow2_pos((m.num_vars - 1) as nat);
    }
}

/// Longer tables have more variables.
proof fn lemma_longer(m: MultilinearExtension, n: MultilinearExtension)
    requires
        m.wf(),
        n.wf(),
        m.num_vars <= n.num_vars,
    ensures
        m@.len() <= n@.len(),
{
    crate::util::lemma_pow2_monotone(m.num_vars as nat, n.num_vars as nat);
}

/// The table of an expression from the tables of its leaves: the value in a row is the value of
/// the expression at the leaves' values in that row.
pub fn wit_infer_by_expr(
    fixed: &[MultilinearExtension],
    witnesses: &[MultilinearExtension],
    structural_witnesses: &[MultilinearExtension],
    instance: &[MultilinearExtension],
    challenges: &[GoldilocksExt2],
    expr: &Expression,
) -> (r: MultilinearExtension<'static>)
    requires
        infer_shape(
            fixed@,
            witnesses@,
            structural_witnesses@,
            instance@,
            challenges@,
            *expr,
        ) is Some,
    ensures
        r.wf(),
        infer_shape(fixed@, witnesses@, structural_witnesses@, instance@, challenges@, *expr)
            == Some(Shape { num_vars: r.num_vars as nat, ext: r.is_ext() }),
        is_table_of(
            r,
            fixed@,
            witnesses@,
            structural_witnesses@,
            instance@,
            challenges@,
            *expr,
        ),
    decreases expr,
{
    proof {
        lemma2_to64();
    }
    match expr {
        Expression::Fixed(f) => fixed[f.0].as_owned(),
        Expression::WitIn(id) => witnesses[*id as usize].as_owned(),
        Expression::StructuralWitIn(id, _, _, _) => structural_witnesses[*id as usize].as_owned(),
        Expression::Instance(i) => instance[i.0].as_owned(),
        Expression::Constant(c) => {
            let scalar = match c {
                Either::Left(b) => *b,
                Either::Right(_) => vstd::pervasive::unreached(),
            };
            let mut v: Vec<Goldilocks> = Vec::new();
            v.push(scalar);
            MultilinearExtension::from_evaluations_vec(0, v)
        },
        Expression::Challenge(id, pow, scalar, offset) => {
            let challenge = challenges[*id as usize];
            let mut v: Vec<GoldilocksExt2> = Vec::new();
            v.push(challenge.exp_u64(*pow as u64) * *scalar + *offset);
            MultilinearExtension::from_evaluations_ext_vec(0, v)
        },
        Expression::Sum(ea, eb) => {
            let a = wit_infer_by_expr(
                fixed,
                witnesses,
                structural_witnesses,
                instance,
                challenges,
                ea,
            );
            let b = wit_infer_by_expr(
                fixed,
                witnesses,
                structural_witnesses,
                instance,
                challenges,
                eb,
            );
            let r = infer_pair(&a, &b, false);
            proof {
                lemma_one_entry(a);
                lemma_one_entry(b);
                lemma_one_entry(r);
                assert forall|row: int|
                    0 <= row && (r@.len() == 1 || row < r@.len()) implies r@[if r@.len() == 1 {
                    0
                } else {
                    row
                }] == expr.eval(
                    #[trigger] row_env(
                        fixed@,
                        witnesses@,
                        structural_witnesses@,
                        instance@,
                        challenges@,
                        row,
                    ),
                ) by {
                    let env = row_env(
                        fixed@,
                        witnesses@,
                        structural_witnesses@,
                        instance@,
                        challenges@,
                        row,
                    );
                    let i = if r@.len() == 1 { 0 } else { row };
                    assert(spread(r@, i) == r@[i]);
                    assert(ea.eval(env) == spread(a@, i));
                    assert(eb.eval(env) == spread(b@, i));
                }
            }
            r
        },
        Expression::Product(ea, eb) => {
            let a = wit_infer_by_expr(
                fixed,
                witnesses,
                structural_witnesses,
                instance,
                challenges,
                ea,
            );
            let b = wit_infer_by_expr(
                fixed,
                witnesses,
                structural_witnesses,
                instance,
                challenges,
                eb,
            );
            let r = infer_pair(&a, &b, true);
            proof {
                lemma_one_entry(a);
                lemma_one_entry(b);
                lemma_one_entry(r);
                assert forall|row: int|
                    0 <= row && (r@.len() == 1 || row < r@.len()) implies r@[if r@.len() == 1 {
                    0
                } else {
                    row
                }] == expr.eval(
                    #[trigger] row_env(
                        fixed@,
                        witnesses@,
                        structural_witnesses@,
                        instance@,
                        challenges@,
                        row,
                    ),
                ) by {
                    let env = row_env(
                        fixed@,
                        witnesses@,
                        structural_witnesses@,
                        instance@,
                        challenges@,
                        row,
                    );
                    let i = if r@.len() == 1 { 0 } else { row };
                    assert(spread(r@, i) == r@[i]);
                    assert(ea.eval(env) == spread(a@, i));
                    assert(eb.eval(env) == spread(b@, i));
                }
            }
            r
        },
        Expression::ScaledSum(ex, ea, eb) => {
            let x = wit_infer_by_expr(
                fixed,
                witnesses,
                structural_witnesses,
                instance,
                challenges,
                ex,
            );
            let a = wit_infer_by_expr(
                fixed,
                witnesses,
                structural_witnesses,
                instance,
                challenges,
                ea,
            );
            let b = wit_infer_by_expr(
                fixed,
                witnesses,
                structural_witnesses,
                instance,
                challenges,
                eb,
            );
            let ax = infer_pair(&a, &x, true);
            proof {
                lemma_one_entry(b);
                lemma_one_entry(ax);
            }
            let r = infer_pair(&ax, &b, false);
            proof {
                lemma_one_entry(a);
                lemma_one_entry(x);
                lemma_one_entry(r);
                assert forall|row: int|
                    0 <= row && (r@.len() == 1 || row < r@.len()) implies r@[if r@.len() == 1 {
                    0
                } else {
                    row
                }] == expr.eval(
                    #[trigger] row_env(
                        fixed@,
                        witnesses@,
                        structural_witnesses@,
                        instance@,
                        challenges@,
                        row,
                    ),
                ) by {
                    let env = row_env(
                        fixed@,
                        witnesses@,
                        structural_witnesses@,
                        instance@,
                        challenges@,
                        row,
                    );
                    let i = if r@.len() == 1 { 0 } else { row };
                    assert(spread(r@, i) == r@[i]);
                    assert(ex.eval(env) == spread(x@, i));
                    assert(ea.eval(env) == spread(a@, i));
                    assert(eb.eval(env) == spread(b@, i));
                    assert(spread(ax@, i) == e_mul(spread(a@, i), spread(x@, i)));
                }
            }
            r
        },
    }
}

/// The sum or product of two tables.
fn infer_pair(
    a: &MultilinearExtension,
    b: &MultilinearExtension,
    product: bool,
) -> (r: MultilinearExtension<'static>)
    requires
        a.wf(),
        b.wf(),
        ({
            let sa = Shape { num_vars: a.num_vars as nat, ext: a.is_ext() };
            let sb = Shape { num_vars: b.num_vars as nat, ext: b.is_ext() };
            if product {
                product_shape(sa, sb) is Some
            } else {
                sum_shape(sa, sb) is Some
            }
        }),
    ensures
        r.wf(),
        ({
            let sa = Shape { num_vars: a.num_vars as nat, ext: a.is_ext() };
            let sb = Shape { num_vars: b.num_vars as nat, ext: b.is_ext() };
            let sr = Shape { num_vars: r.num_vars as nat, ext: r.is_ext() };
            if product {
                product_shape(sa, sb) == Some(sr)
            } else {
                sum_shape(sa, sb) == Some(sr)
            }
        }),
        r@.len() <= a@.len() || a@.len() == 1,
        r@.len() <= b@.len() || b@.len() == 1,
        forall|i: int|
            0 <= i < r@.len() ==> #[trigger] spread(r@, i) == if product {
                e_mul(spread(a@, i), spread(b@, i))
            } else {
                e_add(spread(a@, i), spread(b@, i))
            },
        r@.len() == 1 ==> a@.len() == 1 && b@.len() == 1,
{
    proof {
        lemma_one_entry(*a);
        lemma_one_entry(*b);
    }
    let a_ext: bool = matches!(a.evaluations, FieldType::Ext(_));
    let b_ext: bool = matches!(b.evaluations, FieldType::Ext(_));
    if a.num_vars == 0 || (b.num_vars != 0 && b_ext && !a_ext) {
        proof {
            if a.num_vars != 0 {
                lemma_longer(*b, *a);
            }
        }
        zip_tables(a, b, b.num_vars, b.evaluations.len(), product)
    } else {
        proof {
            if b.num_vars != 0 {
                lemma_longer(*a, *b);
            }
        }
        zip_tables(a, b, a.num_vars, a.evaluations.len(), product)
    }
}

} // verus!
