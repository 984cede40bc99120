//! Keccak on single bits: each step of a round is a layer of its own.
use vstd::prelude::*;
use vstd::string::*;

use crate::circuit::plain::{lemma_plain_ops, plain};
use crate::either::Either;
use crate::expression::{base_const, Expression};
use crate::field::{gl, group_field, modulus, Goldilocks};
use crate::gkr::{
    capped, single_evals, singles, spec_max_degree, Chip, EvalExpression, Layer, LayerType,
    OutputGroup, RotationExprs,
};
use crate::precompiles::keccak::{beside, rc, round_constant, ROUNDS};
use crate::precompiles::lookup_keccakf::{index_range, indices};
use crate::precompiles::permutation::{
    from_xyz, from_xz, lemma_rho_pi, lemma_xyz, rho_and_pi_permutation, rho_pi_source,
    spec_from_xyz, to_xyz, C_SIZE, D_SIZE, STATE_SIZE, X,
};
use crate::text::{append, decimal, decimal_text};

verus! {

broadcast use group_field;

/// The conjunction of two bits.
pub open spec fn and_of(a: Expression, b: Expression) -> Expression {
    a.spec_mul(b)
}

/// The negation of a bit.
pub open spec fn not_of(a: Expression) -> Expression {
    base_const(1).spec_sub(a)
}

/// The exclusive disjunction of two bits: `a + b - 2ab`.
pub open spec fn xor_of(a: Expression, b: Expression) -> Expression {
    a.spec_add(b).spec_sub(base_const(2).spec_mul(a).spec_mul(b))
}

/// The powers of the challenges in an exclusive disjunction fit in a machine word.
pub open spec fn xor_fits(a: Expression, b: Expression) -> bool {
    base_const(2).mul_fits(a) && base_const(2).spec_mul(a).mul_fits(b)
}

/// The conjunction of two bits.
pub fn and_expr(a: Expression, b: Expression) -> (r: Expression)
    requires
        a.mul_fits(b),
    ensures
        r == and_of(a, b),
{
    a * b
}

/// The negation of a bit.
pub fn not_expr(a: Expression) -> (r: Expression)
    ensures
        r == not_of(a),
{
    one_expr() - a
}

/// The exclusive disjunction of two bits.
pub fn xor_expr(a: Expression, b: Expression) -> (r: Expression)
    requires
        xor_fits(a, b),
    ensures
        r == xor_of(a, b),
{
    let two = Expression::Constant(Either::Left(Goldilocks::from_canonical_u64(2)));
    let double = doubled_product(two, a.clone(), b.clone());
    let sum = a + b;
    sum - double
}

fn doubled_product(two: Expression, a: Expression, b: Expression) -> (r: Expression)
    requires
        two.mul_fits(a),
        two.spec_mul(a).mul_fits(b),
    ensures
        r == two.spec_mul(a).spec_mul(b),
{
    two * a * b
}

/// Zero.
pub fn zero_expr() -> (r: Expression)
    ensures
        r == base_const(0),
{
    Expression::zero()
}

/// One.
pub fn one_expr() -> (r: Expression)
    ensures
        r == base_const(1),
{
    Expression::one()
}

/// The parity of the first bits of a column.
pub open spec fn c_of(x: int, z: int, wits: Seq<Expression>, n: int) -> Expression
    decreases n,
{
    if n <= 0 {
        base_const(0)
    } else {
        xor_of(c_of(x, z, wits, n - 1), wits[spec_from_xyz(x, n - 1, z)])
    }
}

/// The parity of a column.
pub fn c_expr(x: usize, z: usize, state_wits: &[Expression]) -> (r: Expression)
    requires
        x < 5,
        z < 64,
        state_wits@.len() == STATE_SIZE,
        forall|y: int|
            0 <= y < 5 ==> #[trigger] xor_fits(
                c_of(x as int, z as int, state_wits@, y),
                state_wits@[spec_from_xyz(x as int, y, z as int)],
            ),
    ensures
        r == c_of(x as int, z as int, state_wits@, 5),
{
    let mut r = zero_expr();
    let mut y: usize = 0;
    while y < 5
        invariant
            y <= 5,
            x < 5,
            z < 64,
            state_wits@.len() == STATE_SIZE,
            forall|y: int|
                0 <= y < 5 ==> #[trigger] xor_fits(
                    c_of(x as int, z as int, state_wits@, y),
                    state_wits@[spec_from_xyz(x as int, y, z as int)],
                ),
            r == c_of(x as int, z as int, state_wits@, y as int),
        decreases 5 - y,
    {
        proof {
            let c = c_of(x as int, z as int, state_wits@, y as int);
            assert(xor_fits(c, state_wits@[spec_from_xyz(x as int, y as int, z as int)]));
        }
        r = xor_expr(r, state_wits[from_xyz(x, y, z)].clone());
        y = y + 1;
    }
    r
}

/// What is added to a column.
pub open spec fn d_of(x: int, z: int, c: Seq<Expression>) -> Expression {
    xor_of(c[64 * ((x + 4) % 5) + z], c[64 * ((x + 1) % 5) + (z + 63) % 64])
}

/// What is added to a column.
pub fn d_expr(x: usize, z: usize, c_wits: &[Expression]) -> (r: Expression)
    requires
        x < 5,
        z < 64,
        c_wits@.len() == C_SIZE,
        xor_fits(
            c_wits@[64 * ((x + 4) % 5) + z],
            c_wits@[64 * ((x + 1) % 5) + (z + 63) % 64],
        ),
    ensures
        r == d_of(x as int, z as int, c_wits@),
{
    let lhs: usize = from_xz((x + 5 - 1) % 5, z);
    let rhs: usize = from_xz((x + 1) % 5, (z + 64 - 1) % 64);
    xor_expr(c_wits[lhs].clone(), c_wits[rhs].clone())
}

/// A bit after the last step of a round.
pub open spec fn iota_of(bits: Seq<Expression>, i: int, round_value: u64) -> Expression {
    if i < 64 {
        xor_of(bits[i], base_const(bit(round_value, i)))
    } else {
        bits[i]
    }
}

/// A bit of a word.
pub open spec fn bit(w: u64, z: int) -> int {
    ((w >> (z as u64)) & 1) as int
}

/// A bit after the last step of a round.
pub fn iota_expr(bits: &[Expression], index: usize, round_value: u64) -> (r: Expression)
    requires
        bits@.len() == STATE_SIZE,
        index < STATE_SIZE,
        index < 64 ==> xor_fits(bits@[index as int], base_const(bit(round_value, index as int))),
    ensures
        r == iota_of(bits@, index as int, round_value),
{
    let (x, y, z) = to_xyz(index);
    if x > 0 || y > 0 {
        bits[index].clone()
    } else {
        let round_bit: u64 = (round_value >> (index as u64)) & 1;
        proof {
            assert(round_bit <= 1) by (bit_vector)
                requires
                    round_bit == (round_value >> (index as u64)) & 1,
            ;
        }
        let constant = Expression::Constant(Either::Left(Goldilocks::from_canonical_u64(round_bit)));
        xor_expr(bits[from_xyz(0, 0, z)].clone(), constant)
    }
}

/// The bit `by` columns further in the same row.
pub open spec fn bit_beside(i: int, by: int) -> int {
    64 * beside(i / 64, by) + i % 64
}

/// A bit after the nonlinear step.
pub open spec fn chi_of(i: int, bits: Seq<Expression>) -> Expression {
    xor_of(bits[i], and_of(not_of(bits[bit_beside(i, 1)]), bits[bit_beside(i, 2)]))
}

/// A bit after the nonlinear step.
pub fn chi_expr(i: usize, bits: &[Expression]) -> (r: Expression)
    requires
        bits@.len() == STATE_SIZE,
        i < STATE_SIZE,
        not_of(bits@[bit_beside(i as int, 1)]).mul_fits(bits@[bit_beside(i as int, 2)]),
        xor_fits(
            bits@[i as int],
            and_of(not_of(bits@[bit_beside(i as int, 1)]), bits@[bit_beside(i as int, 2)]),
        ),
    ensures
        r == chi_of(i as int, bits@),
{
    let (x, y, z) = to_xyz(i);
    let rhs = and_expr(
        not_expr(bits[from_xyz((x + 1) % X, y, z)].clone()),
        bits[from_xyz((x + 2) % X, y, z)].clone(),
    );
    xor_expr(bits[i].clone(), rhs)
}

/// Exclusive disjunctions of plain expressions are plain.
pub proof fn lemma_plain_xor(a: Expression, b: Expression)
    requires
        plain(a),
        plain(b),
    ensures
        xor_fits(a, b),
        plain(xor_of(a, b)),
{
    let two = base_const(2);
    lemma_plain_ops(two, a);
    lemma_plain_ops(two.spec_mul(a), b);
    lemma_plain_ops(a, b);
    lemma_plain_ops(a.spec_add(b), two.spec_mul(a).spec_mul(b));
}

/// The parity of a column of plain expressions is plain.
pub proof fn lemma_plain_c(x: int, z: int, wits: Seq<Expression>, n: int)
    requires
        0 <= x < 5,
        0 <= z < 64,
        0 <= n <= 5,
        wits.len() == STATE_SIZE,
        forall|i: int| 0 <= i < wits.len() ==> plain(#[trigger] wits[i]),
    ensures
        plain(c_of(x, z, wits, n)),
        n < 5 ==> xor_fits(c_of(x, z, wits, n), wits[spec_from_xyz(x, n, z)]),
    decreases n,
{
    if n > 0 {
        lemma_plain_c(x, z, wits, n - 1);
        lemma_xyz(0, x, n - 1, z);
        lemma_plain_xor(c_of(x, z, wits, n - 1), wits[spec_from_xyz(x, n - 1, z)]);
    }
    if n < 5 {
        lemma_xyz(0, x, n, z);
        lemma_plain_xor(c_of(x, z, wits, n), wits[spec_from_xyz(x, n, z)]);
    }
}

/// The first columns.
pub open spec fn columns(n: nat) -> Seq<Expression> {
    Seq::new(n, |i: int| Expression::WitIn(i as u16))
}

/// The first columns.
pub fn column_exprs(n: usize) -> (r: Vec<Expression>)
    requires
        n <= u16::MAX,
    ensures
        r@ == columns(n as nat),
{
    let mut r: Vec<Expression> = Vec::with_capacity(n);
    let mut i: usize = 0;
    while i < n
        invariant
            i <= n <= u16::MAX,
            r@ == columns(i as nat),
        decreases n - i,
    {
        r.push(Expression::WitIn(i as u16));
        i = i + 1;
        assert(r@ =~= columns(i as nat));
    }
    r
}

/// The outputs of the layer of the last step.
pub open spec fn iota_layer(round_value: u64) -> Seq<Expression> {
    Seq::new(STATE_SIZE as nat, |i: int| iota_of(columns(STATE_SIZE as nat), i, round_value))
}

/// The columns in the order of the rotation and the permutation of the lanes.
pub open spec fn permuted_columns() -> Seq<Expression> {
    Seq::new(STATE_SIZE as nat, |i: int| Expression::WitIn(rho_pi_source(i) as u16))
}

/// The outputs of the layer of the nonlinear step, which the rotation and the permutation of the
/// lanes are part of.
pub open spec fn chi_layer() -> Seq<Expression> {
    Seq::new(STATE_SIZE as nat, |i: int| chi_of(i, permuted_columns()))
}

/// The column of what is added to a bit in the layer of the first step.
pub open spec fn d_column(i: int) -> int {
    64 * (i / 64 % 5) + i % 64
}

/// The outputs of the layer of the first step: the state, which stands behind what is added to the
/// columns, with that added.
pub open spec fn theta_layer() -> Seq<Expression> {
    Seq::new(
        STATE_SIZE as nat,
        |i: int|
            xor_of(
                Expression::WitIn((D_SIZE + i) as u16),
                Expression::WitIn(d_column(i) as u16),
            ),
    )
}

/// The outputs of the layer of what is added to the columns.
pub open spec fn d_layer() -> Seq<Expression> {
    Seq::new(D_SIZE as nat, |k: int| d_of(k / 64, k % 64, columns(C_SIZE as nat)))
}

/// The outputs of the layer of the parities: the parities, then the state.
pub open spec fn c_layer() -> Seq<Expression> {
    Seq::new(C_SIZE as nat, |k: int| c_of(k / 64, k % 64, columns(STATE_SIZE as nat), 5)) + columns(
        STATE_SIZE as nat,
    )
}

fn iota_exprs(round_value: u64) -> (r: Vec<Expression>)
    ensures
        r@ == iota_layer(round_value),
{
    let bits = column_exprs(STATE_SIZE);
    let mut r: Vec<Expression> = Vec::with_capacity(STATE_SIZE);
    let mut i: usize = 0;
    while i < STATE_SIZE
        invariant
            i <= STATE_SIZE,
            bits@ == columns(STATE_SIZE as nat),
            r@ == iota_layer(round_value).take(i as int),
        decreases STATE_SIZE - i,
    {
        proof {
            lemma_plain_xor(bits@[i as int], base_const(bit(round_value, i as int)));
        }
        r.push(iota_expr(bits.as_slice(), i, round_value));
        i = i + 1;
        assert(r@ =~= iota_layer(round_value).take(i as int));
    }
    assert(r@ =~= iota_layer(round_value));
    r
}

/// The bits after the nonlinear step are plain.
pub proof fn lemma_plain_chi(i: int, bits: Seq<Expression>)
    requires
        0 <= i < STATE_SIZE,
        bits.len() == STATE_SIZE,
        forall|i: int| 0 <= i < bits.len() ==> plain(#[trigger] bits[i]),
    ensures
        0 <= bit_beside(i, 1) < STATE_SIZE,
        0 <= bit_beside(i, 2) < STATE_SIZE,
        plain(not_of(bits[bit_beside(i, 1)])),
        plain(and_of(not_of(bits[bit_beside(i, 1)]), bits[bit_beside(i, 2)])),
        not_of(bits[bit_beside(i, 1)]).mul_fits(bits[bit_beside(i, 2)]),
        xor_fits(bits[i], and_of(not_of(bits[bit_beside(i, 1)]), bits[bit_beside(i, 2)])),
        plain(chi_of(i, bits)),
{
    let (a, b) = (bits[bit_beside(i, 1)], bits[bit_beside(i, 2)]);
    lemma_plain_ops(base_const(1), a);
    lemma_plain_ops(not_of(a), b);
    lemma_plain_xor(bits[i], and_of(not_of(a), b));
}

fn chi_exprs() -> (r: Vec<Expression>)
    ensures
        r@ == chi_layer(),
{
    let perm = rho_and_pi_permutation();
    let mut permuted: Vec<Expression> = Vec::with_capacity(STATE_SIZE);
    let mut i: usize = 0;
    while i < STATE_SIZE
        invariant
            i <= STATE_SIZE,
            perm@ == Seq::new(STATE_SIZE as nat, |i: int| rho_pi_source(i) as usize),
            permuted@ == permuted_columns().take(i as int),
        decreases STATE_SIZE - i,
    {
        proof {
            lemma_rho_pi(i as int);
        }
        permuted.push(Expression::WitIn(perm[i] as u16));
        i = i + 1;
        assert(permuted@ =~= permuted_columns().take(i as int));
    }
    assert(permuted@ =~= permuted_columns());
    let mut r: Vec<Expression> = Vec::with_capacity(STATE_SIZE);
    let mut i: usize = 0;
    while i < STATE_SIZE
        invariant
            i <= STATE_SIZE,
            permuted@ == permuted_columns(),
            r@ == chi_layer().take(i as int),
        decreases STATE_SIZE - i,
    {
        proof {
            lemma_plain_chi(i as int, permuted@);
        }
        r.push(chi_expr(i, permuted.as_slice()));
        i = i + 1;
        assert(r@ =~= chi_layer().take(i as int));
    }
    assert(r@ =~= chi_layer());
    r
}

fn theta_exprs() -> (r: Vec<Expression>)
    ensures
        r@ == theta_layer(),
{
    let mut r: Vec<Expression> = Vec::with_capacity(STATE_SIZE);
    let mut i: usize = 0;
    while i < STATE_SIZE
        invariant
            i <= STATE_SIZE,
            r@ == theta_layer().take(i as int),
        decreases STATE_SIZE - i,
    {
        let (x, _, z) = to_xyz(i);
        let d: usize = from_xz(x, z);
        let a = Expression::WitIn((D_SIZE + i) as u16);
        let b = Expression::WitIn(d as u16);
        proof {
            lemma_plain_xor(a, b);
        }
        r.push(xor_expr(a, b));
        i = i + 1;
        assert(r@ =~= theta_layer().take(i as int));
    }
    assert(r@ =~= theta_layer());
    r
}

fn d_exprs() -> (r: Vec<Expression>)
    ensures
        r@ == d_layer(),
{
    let c = column_exprs(C_SIZE);
    let mut r: Vec<Expression> = Vec::with_capacity(D_SIZE);
    let mut k: usize = 0;
    while k < D_SIZE
        invariant
            k <= D_SIZE,
            c@ == columns(C_SIZE as nat),
            r@ == d_layer().take(k as int),
        decreases D_SIZE - k,
    {
        let x: usize = k / 64;
        let z: usize = k % 64;
        proof {
            lemma_plain_xor(
                c@[64 * ((x + 4) % 5) + z],
                c@[64 * ((x + 1) % 5) + (z + 63) % 64],
            );
        }
        r.push(d_expr(x, z, c.as_slice()));
        k = k + 1;
        assert(r@ =~= d_layer().take(k as int));
    }
    assert(r@ =~= d_layer());
    r
}

fn c_exprs() -> (r: Vec<Expression>)
    ensures
        r@ == c_layer(),
{
    let state = column_exprs(STATE_SIZE);
    let ghost parities = Seq::new(
        C_SIZE as nat,
        |k: int| c_of(k / 64, k % 64, columns(STATE_SIZE as nat), 5),
    );
    let mut r: Vec<Expression> = Vec::with_capacity(C_SIZE + STATE_SIZE);
    let mut k: usize = 0;
    while k < C_SIZE
        invariant
            k <= C_SIZE,
            state@ == columns(STATE_SIZE as nat),
            parities == Seq::new(
                C_SIZE as nat,
                |k: int| c_of(k / 64, k % 64, columns(STATE_SIZE as nat), 5),
            ),
            r@ == parities.take(k as int),
        decreases C_SIZE - k,
    {
        let x: usize = k / 64;
        let z: usize = k % 64;
        proof {
            assert forall|y: int| 0 <= y < 5 implies #[trigger] xor_fits(
                c_of(x as int, z as int, state@, y),
                state@[spec_from_xyz(x as int, y, z as int)],
            ) by {
                lemma_plain_c(x as int, z as int, state@, y);
            }
        }
        r.push(c_expr(x, z, state.as_slice()));
        k = k + 1;
        assert(r@ =~= parities.take(k as int));
    }
    assert(parities.take(k as int) =~= parities);
    let mut i: usize = 0;
    assert(r@ =~= parities + columns(0));
    while i < STATE_SIZE
        invariant
            i <= STATE_SIZE,
            state@ == columns(STATE_SIZE as nat),
            r@ == parities + columns(i as nat),
        decreases STATE_SIZE - i,
    {
        r.push(state[i].clone());
        i = i + 1;
        assert(r@ =~= parities + columns(i as nat));
    }
    r
}

/// A layer of one step, with the evaluations of its inputs, and its outputs in groups that are
/// claimed at one point each.
pub open spec fn is_step(
    layer: Layer,
    name: Seq<char>,
    step: Seq<char>,
    exprs: Seq<Expression>,
    inputs: Seq<EvalExpression>,
    groups: Seq<(int, Seq<EvalExpression>)>,
) -> bool {
    &&& layer.name@ == name
    &&& layer.ty is Zerocheck
    &&& layer.max_expr_degree == capped(spec_max_degree(exprs, exprs.len() as int))
    &&& layer.exprs@ == exprs
    &&& layer.challenges@ == Seq::<Expression>::empty()
    &&& layer.in_eval_expr@ == inputs
    &&& layer.expr_evals@.len() == groups.len()
    &&& forall|g: int|
        0 <= g < groups.len() ==> (#[trigger] layer.expr_evals@[g]).eq == Some(
            Expression::WitIn(groups[g].0 as u16),
        ) && layer.expr_evals@[g].evals@ == groups[g].1
    &&& layer.rotation_exprs.eqs is None
    &&& layer.rotation_exprs.pairs@ == Seq::<(Expression, Expression)>::empty()
    &&& layer.rotation_cyclic_group_log2 == 0
    &&& layer.rotation_cyclic_subgroup_size == 0
    &&& layer.expr_names@.len() == exprs.len()
    &&& forall|i: int| 0 <= i < exprs.len() ==> (#[trigger] layer.expr_names@[i])@ == step
}

/// The name of a layer of a round.
pub open spec fn step_name(round: int, step: Seq<char>) -> Seq<char> {
    "Round "@ + decimal_text(round as nat) + ": "@ + step
}

/// The number of evaluations of a round: those of the inputs of its layers, and one for each group
/// of outputs.
pub const ROUND_EVALS: usize = 7046;

/// Where the evaluations of the state before a round stand among those of the round.
pub const STATE_EVALS: usize = 5444;

/// The layers of a round from the output on, for the round's output at the evaluations from
/// `output` on and its own evaluations from `base` on.
#[verifier::opaque]
pub open spec fn is_round(layers: Seq<Layer>, round: int, output: int, base: int) -> bool {
    let (theta, ds, cs, state) = (base + 1601, base + 3202, base + 5123, base + STATE_EVALS);
    &&& layers.len() == 5
    &&& is_step(
        layers[0],
        step_name(round, "Iota:: compute output"@),
        "Iota:: compute output"@,
        iota_layer(round_constant(round)),
        singles(base, STATE_SIZE as nat),
        seq![(STATE_SIZE as int, singles(output, STATE_SIZE as nat))],
    )
    &&& is_step(
        layers[1],
        step_name(round, "Chi:: apply rho, pi and chi"@),
        "Chi:: apply rho, pi and chi"@,
        chi_layer(),
        singles(theta, STATE_SIZE as nat),
        seq![(STATE_SIZE as int, singles(base, STATE_SIZE as nat))],
    )
    &&& is_step(
        layers[2],
        step_name(round, "Theta::compute output"@),
        "Theta::compute output"@,
        theta_layer(),
        singles(ds, (D_SIZE + STATE_SIZE) as nat),
        seq![(D_SIZE + STATE_SIZE, singles(theta, STATE_SIZE as nat))],
    )
    &&& is_step(
        layers[3],
        step_name(round, "Theta::compute D[x][z]"@),
        "Theta::compute D[x][z]"@,
        d_layer(),
        singles(cs, C_SIZE as nat),
        seq![(C_SIZE as int, singles(ds, D_SIZE as nat))],
    )
    &&& is_step(
        layers[4],
        step_name(round, "Theta::compute C[x][z]"@),
        "Theta::compute C[x][z]"@,
        c_layer(),
        singles(state, STATE_SIZE as nat),
        seq![
            (STATE_SIZE as int, singles(cs, C_SIZE as nat)),
            (STATE_SIZE + 1, singles(ds + D_SIZE, STATE_SIZE as nat)),
        ],
    )
}

fn output_group(eq: u16, evals: Vec<EvalExpression>) -> (r: OutputGroup)
    ensures
        r.eq == Some(Expression::WitIn(eq)),
        r.evals == evals,
{
    OutputGroup { eq: Some(Expression::WitIn(eq)), evals }
}

fn step_layer(
    round: usize,
    step: &str,
    exprs: Vec<Expression>,
    inputs: Vec<EvalExpression>,
    groups: Vec<OutputGroup>,
    Ghost(claims): Ghost<Seq<(int, Seq<EvalExpression>)>>,
) -> (r: Layer)
    requires
        claims.len() == groups@.len(),
        forall|g: int|
            0 <= g < claims.len() ==> (#[trigger] groups@[g]).eq == Some(
                Expression::WitIn(claims[g].0 as u16),
            ) && groups@[g].evals@ == claims[g].1,
    ensures
        is_step(r, step_name(round as int, step@), step@, exprs@, inputs@, claims),
{
    let prefix = append(append("Round ".to_owned(), decimal(round as u64).as_str()), ": ");
    let name = append(prefix, step);
    let n: usize = exprs.len();
    let mut names: Vec<String> = Vec::with_capacity(n);
    let mut i: usize = 0;
    while i < n
        invariant
            i <= n,
            names@.len() == i,
            forall|k: int| 0 <= k < i ==> (#[trigger] names@[k])@ == step@,
        decreases n - i,
    {
        names.push(step.to_owned());
        i = i + 1;
    }
    Layer::new(
        name,
        LayerType::Zerocheck,
        exprs,
        Vec::new(),
        inputs,
        groups,
        RotationExprs { eqs: None, pairs: Vec::new() },
        0,
        0,
        names,
    )
}

fn iota_step(round: usize, output: usize, base: usize) -> (r: Layer)
    requires
        round < ROUNDS,
        output + STATE_SIZE <= usize::MAX,
        base + STATE_SIZE <= usize::MAX,
    ensures
        is_step(
            r,
            step_name(round as int, "Iota:: compute output"@),
            "Iota:: compute output"@,
            iota_layer(round_constant(round as int)),
            singles(base as int, STATE_SIZE as nat),
            seq![(STATE_SIZE as int, singles(output as int, STATE_SIZE as nat))],
        ),
{
    let ghost claims = seq![(STATE_SIZE as int, singles(output as int, STATE_SIZE as nat))];
    step_layer(
        round,
        "Iota:: compute output",
        iota_exprs(rc(round)),
        single_evals(base, STATE_SIZE),
        vec![output_group(1600, single_evals(output, STATE_SIZE))],
        Ghost(claims),
    )
}

fn chi_step(round: usize, base: usize, theta: usize) -> (r: Layer)
    requires
        round < ROUNDS,
        base + STATE_SIZE <= usize::MAX,
        theta + STATE_SIZE <= usize::MAX,
    ensures
        is_step(
            r,
            step_name(round as int, "Chi:: apply rho, pi and chi"@),
            "Chi:: apply rho, pi and chi"@,
            chi_layer(),
            singles(theta as int, STATE_SIZE as nat),
            seq![(STATE_SIZE as int, singles(base as int, STATE_SIZE as nat))],
        ),
{
    let ghost claims = seq![(STATE_SIZE as int, singles(base as int, STATE_SIZE as nat))];
    step_layer(
        round,
        "Chi:: apply rho, pi and chi",
        chi_exprs(),
        single_evals(theta, STATE_SIZE),
        vec![output_group(1600, single_evals(base, STATE_SIZE))],
        Ghost(claims),
    )
}

fn theta_step(round: usize, theta: usize, ds: usize) -> (r: Layer)
    requires
        round < ROUNDS,
        theta + STATE_SIZE <= usize::MAX,
        ds + D_SIZE + STATE_SIZE <= usize::MAX,
    ensures
        is_step(
            r,
            step_name(round as int, "Theta::compute output"@),
            "Theta::compute output"@,
            theta_layer(),
            singles(ds as int, (D_SIZE + STATE_SIZE) as nat),
            seq![(D_SIZE + STATE_SIZE, singles(theta as int, STATE_SIZE as nat))],
        ),
{
    let ghost claims = seq![(D_SIZE + STATE_SIZE, singles(theta as int, STATE_SIZE as nat))];
    step_layer(
        round,
        "Theta::compute output",
        theta_exprs(),
        single_evals(ds, D_SIZE + STATE_SIZE),
        vec![output_group(1920, single_evals(theta, STATE_SIZE))],
        Ghost(claims),
    )
}

fn d_step(round: usize, ds: usize, cs: usize) -> (r: Layer)
    requires
        round < ROUNDS,
        ds + D_SIZE <= usize::MAX,
        cs + C_SIZE <= usize::MAX,
    ensures
        is_step(
            r,
            step_name(round as int, "Theta::compute D[x][z]"@),
            "Theta::compute D[x][z]"@,
            d_layer(),
            singles(cs as int, C_SIZE as nat),
            seq![(C_SIZE as int, singles(ds as int, D_SIZE as nat))],
        ),
{
    let ghost claims = seq![(C_SIZE as int, singles(ds as int, D_SIZE as nat))];
    step_layer(
        round,
        "Theta::compute D[x][z]",
        d_exprs(),
        single_evals(cs, C_SIZE),
        vec![output_group(320, single_evals(ds, D_SIZE))],
        Ghost(claims),
    )
}

fn c_step(round: usize, ds: usize, cs: usize, state: usize) -> (r: Layer)
    requires
        round < ROUNDS,
        ds + D_SIZE + STATE_SIZE <= usize::MAX,
        cs + C_SIZE <= usize::MAX,
        state + STATE_SIZE <= usize::MAX,
    ensures
        is_step(
            r,
            step_name(round as int, "Theta::compute C[x][z]"@),
            "Theta::compute C[x][z]"@,
            c_layer(),
            singles(state as int, STATE_SIZE as nat),
            seq![
                (STATE_SIZE as int, singles(cs as int, C_SIZE as nat)),
                (STATE_SIZE + 1, singles(ds + D_SIZE, STATE_SIZE as nat)),
            ],
        ),
{
    let ghost claims = seq![
        (STATE_SIZE as int, singles(cs as int, C_SIZE as nat)),
        (STATE_SIZE + 1, singles(ds + D_SIZE, STATE_SIZE as nat)),
    ];
    step_layer(
        round,
        "Theta::compute C[x][z]",
        c_exprs(),
        single_evals(state, STATE_SIZE),
        vec![
            output_group(1600, single_evals(cs, C_SIZE)),
            output_group(1601, single_evals(ds + D_SIZE, STATE_SIZE)),
        ],
        Ghost(claims),
    )
}

/// The five layers of a round.
fn round_layers(round: usize, output: usize, base: usize) -> (r: Vec<Layer>)
    requires
        round < ROUNDS,
        output + STATE_SIZE <= usize::MAX,
        base + ROUND_EVALS <= usize::MAX,
    ensures
        r@.len() == 5,
        is_round(r@, round as int, output as int, base as int),
{
    let theta: usize = base + 1601;
    let ds: usize = base + 3202;
    let cs: usize = base + 5123;
    let state: usize = base + STATE_EVALS;
    let last = iota_step(round, output, base);
    let fourth = chi_step(round, base, theta);
    let third = theta_step(round, theta, ds);
    let second = d_step(round, ds, cs);
    let first = c_step(round, ds, cs, state);
    let layers: Vec<Layer> = vec![last, fourth, third, second, first];
    proof {
        reveal(is_round);
    }
    layers
}

/// Adds the layers of a round, whose output is claimed by the evaluations from `output` on; returns
/// the index of the first evaluation of the state before the round.
fn build_round(chip: &mut Chip, round: usize, output: usize) -> (r: usize)
    requires
        round < ROUNDS,
        output + STATE_SIZE <= usize::MAX,
        old(chip).n_evaluations + ROUND_EVALS <= usize::MAX,
    ensures
        r == old(chip).n_evaluations + STATE_EVALS,
        final(chip).n_evaluations == old(chip).n_evaluations + ROUND_EVALS,
        final(chip).n_committed == old(chip).n_committed,
        final(chip).n_challenges == old(chip).n_challenges,
        final(chip).final_out_evals == old(chip).final_out_evals,
        final(chip).openings == old(chip).openings,
        final(chip).layers@.len() == old(chip).layers@.len() + 5,
        final(chip).layers@.take(old(chip).layers@.len() as int) == old(chip).layers@,
        is_round(
            final(chip).layers@.skip(old(chip).layers@.len() as int),
            round as int,
            output as int,
            old(chip).n_evaluations as int,
        ),
{
    let base: usize = chip.allocate_wits_in_zero_layer(STATE_SIZE, 1);
    let _ = chip.allocate_wits_in_zero_layer(STATE_SIZE, 1);
    let _ = chip.allocate_wits_in_zero_layer(D_SIZE + STATE_SIZE, 1);
    let _ = chip.allocate_wits_in_zero_layer(C_SIZE, 1);
    let state: usize = chip.allocate_wits_in_zero_layer(STATE_SIZE, 2);
    let mut layers = round_layers(round, output, base);
    let ghost added = layers@;
    let ghost before = chip.layers@;
    chip.layers.append(&mut layers);
    proof {
        assert(chip.layers@ == before + added);
        assert(chip.layers@.take(before.len() as int) =~= before);
        assert(chip.layers@.skip(before.len() as int) =~= added);
    }
    state
}

#[derive(Clone, Debug, Default)]
pub struct KeccakParams {}

/// The committed bits of the states.
#[derive(Debug)]
pub struct KeccakLayout {
    pub committed_bits_id: Vec<usize>,
}

/// Where the evaluations of a round stand: the rounds from the last to the first, behind those of
/// the output.
pub open spec fn round_base(start: int, k: int) -> int {
    start + STATE_SIZE + ROUND_EVALS * k
}

/// The evaluations of the state after a round: the output, or the state before the round that was
/// built last.
pub open spec fn round_output(start: int, k: int) -> int {
    if k == 0 {
        start
    } else {
        round_base(start, k - 1) + STATE_EVALS
    }
}

/// The layers of the first rounds that are built.
pub open spec fn are_rounds(layers: Seq<Layer>, start: int, n: int) -> bool {
    &&& layers.len() == 5 * n
    &&& forall|k: int|
        0 <= k < n ==> is_round(
            #[trigger] layers.subrange(5 * k, 5 * k + 5),
            ROUNDS - 1 - k,
            round_output(start, k),
            round_base(start, k),
        )
}

proof fn lemma_more_rounds(layers: Seq<Layer>, more: Seq<Layer>, start: int, n: int)
    requires
        are_rounds(layers, start, n),
        0 <= n,
        more.len() == layers.len() + 5,
        more.take(layers.len() as int) == layers,
        is_round(
            more.skip(layers.len() as int),
            ROUNDS - 1 - n,
            round_output(start, n),
            round_base(start, n),
        ),
    ensures
        are_rounds(more, start, n + 1),
{
    assert forall|k: int| 0 <= k < n + 1 implies is_round(
        #[trigger] more.subrange(5 * k, 5 * k + 5),
        ROUNDS - 1 - k,
        round_output(start, k),
        round_base(start, k),
    ) by {
        if k < n {
            let (a, b) = (
                more.subrange(5 * k, 5 * k + 5),
                layers.subrange(5 * k, 5 * k + 5),
            );
            assert forall|j: int| 0 <= j < 5 implies #[trigger] a[j] == b[j] by {
                assert(more.take(layers.len() as int)[5 * k + j] == layers[5 * k + j]);
            }
            assert(a =~= b);
        } else {
            assert(more.subrange(5 * k, 5 * k + 5) =~= more.skip(layers.len() as int));
        }
    }
}

proof fn lemma_after_round(
    first: Seq<Layer>,
    before: Seq<Layer>,
    after: Seq<Layer>,
    start: int,
    k: int,
)
    requires
        0 <= k,
        first.len() <= before.len(),
        before.take(first.len() as int) == first,
        are_rounds(before.skip(first.len() as int), start, k),
        after.len() == before.len() + 5,
        after.take(before.len() as int) == before,
        is_round(
            after.skip(before.len() as int),
            ROUNDS - 1 - k,
            round_output(start, k),
            round_base(start, k),
        ),
    ensures
        after.take(first.len() as int) == first,
        are_rounds(after.skip(first.len() as int), start, k + 1),
{
    let n = first.len() as int;
    let (a, b) = (after.take(n), before.take(n));
    assert forall|j: int| 0 <= j < n implies #[trigger] a[j] == b[j] by {
        assert(after.take(before.len() as int)[j] == before[j]);
    }
    assert(a =~= b);
    let (c, d) = (after.skip(n).take(before.skip(n).len() as int), before.skip(n));
    assert forall|j: int| 0 <= j < before.len() - n implies #[trigger] c[j] == d[j] by {
        assert(after.take(before.len() as int)[n + j] == before[n + j]);
    }
    assert(c =~= d);
    assert(after.skip(n).skip(before.skip(n).len() as int) =~= after.skip(before.len() as int));
    lemma_more_rounds(before.skip(n), after.skip(n), start, k);
}

impl KeccakLayout {
    pub fn init(_params: KeccakParams) -> (r: Self)
        ensures
            r.committed_bits_id@ == Seq::new(STATE_SIZE as nat, |i: int| 0usize),
    {
        let mut ids: Vec<usize> = Vec::with_capacity(STATE_SIZE);
        let mut i: usize = 0;
        while i < STATE_SIZE
            invariant
                i <= STATE_SIZE,
                ids@ == Seq::new(i as nat, |i: int| 0usize),
            decreases STATE_SIZE - i,
        {
            ids.push(0);
            i = i + 1;
            assert(ids@ =~= Seq::new(i as nat, |i: int| 0usize));
        }
        KeccakLayout { committed_bits_id: ids }
    }

    /// Allocates the committed bits.
    pub fn build_commit_phase(&mut self, chip: &mut Chip)
        requires
            old(chip).n_committed + STATE_SIZE <= usize::MAX,
        ensures
            final(self).committed_bits_id@ == indices(
                old(chip).n_committed as int,
                STATE_SIZE as nat,
            ),
            *final(chip) == (Chip {
                n_committed: (old(chip).n_committed + STATE_SIZE) as usize,
                ..*old(chip)
            }),
    {
        let base: usize = chip.allocate_committed(STATE_SIZE);
        self.committed_bits_id = index_range(base, STATE_SIZE);
    }

    /// Builds the layers of the rounds from the output on, and opens the committed bits with the
    /// evaluations of the state before the first round.
    pub fn build_gkr_phase(&mut self, chip: &mut Chip)
        requires
            old(self).committed_bits_id@.len() == STATE_SIZE,
            old(chip).n_evaluations + STATE_SIZE + ROUND_EVALS * ROUNDS <= usize::MAX,
        ensures
            *final(self) == *old(self),
            final(chip).n_committed == old(chip).n_committed,
            final(chip).n_challenges == old(chip).n_challenges,
            final(chip).n_evaluations == old(chip).n_evaluations + STATE_SIZE + ROUND_EVALS
                * ROUNDS,
            final(chip).final_out_evals@ == old(chip).final_out_evals@ + indices(
                old(chip).n_evaluations as int,
                STATE_SIZE as nat,
            ),
            final(chip).layers@.take(old(chip).layers@.len() as int) == old(chip).layers@,
            are_rounds(
                final(chip).layers@.skip(old(chip).layers@.len() as int),
                old(chip).n_evaluations as int,
                ROUNDS as int,
            ),
            final(chip).openings@ == old(chip).openings@ + Seq::new(
                STATE_SIZE as nat,
                |i: int|
                    (
                        old(self).committed_bits_id@[i],
                        EvalExpression::Single(
                            (round_output(old(chip).n_evaluations as int, ROUNDS as int)
                                + i) as usize,
                        ),
                    ),
            ),
    {
        let ghost start = chip.n_evaluations as int;
        let ghost first = chip.layers@;
        let mut output: usize = chip.allocate_output_evals(STATE_SIZE);
        let ghost outputs = chip.final_out_evals@;
        let mut k: usize = 0;
        assert(chip.layers@.skip(first.len() as int) =~= Seq::empty());
        assert(chip.layers@.take(first.len() as int) =~= first);
        while k < ROUNDS
            invariant
                k <= ROUNDS,
                0 <= start,
                start + STATE_SIZE + ROUND_EVALS * ROUNDS <= usize::MAX,
                start == old(chip).n_evaluations,
                *self == *old(self),
                chip.n_committed == old(chip).n_committed,
                chip.n_challenges == old(chip).n_challenges,
                chip.final_out_evals@ == outputs,
                chip.openings == old(chip).openings,
                chip.n_evaluations == round_base(start, k as int),
                output == round_output(start, k as int),
                first.len() <= chip.layers@.len(),
                chip.layers@.take(first.len() as int) == first,
                are_rounds(chip.layers@.skip(first.len() as int), start, k as int),
            decreases ROUNDS - k,
        {
            let ghost before = chip.layers@;
            output = build_round(chip, ROUNDS - 1 - k, output);
            proof {
                lemma_after_round(first, before, chip.layers@, start, k as int);
            }
            k = k + 1;
        }
        let ghost built = chip.layers@;
        let ghost opened = chip.openings@;
        let ghost ids = self.committed_bits_id@;
        let ghost all = Seq::new(
            STATE_SIZE as nat,
            |i: int| (ids[i], EvalExpression::Single((output + i) as usize)),
        );
        let mut i: usize = 0;
        assert(chip.openings@ =~= opened + all.take(0));
        while i < STATE_SIZE
            invariant
                i <= STATE_SIZE,
                *self == *old(self),
                ids == self.committed_bits_id@,
                ids.len() == STATE_SIZE,
                output + STATE_SIZE <= usize::MAX,
                all == Seq::new(
                    STATE_SIZE as nat,
                    |i: int| (ids[i], EvalExpression::Single((output + i) as usize)),
                ),
                chip.n_committed == old(chip).n_committed,
                chip.n_challenges == old(chip).n_challenges,
                chip.final_out_evals@ == outputs,
                chip.n_evaluations == round_base(start, ROUNDS as int),
                chip.layers@ == built,
                chip.openings@ == opened + all.take(i as int),
            decreases STATE_SIZE - i,
        {
            chip.allocate_opening(self.committed_bits_id[i], EvalExpression::Single(output + i));
            i = i + 1;
            assert(chip.openings@ =~= opened + all.take(i as int));
        }
        assert(all.take(STATE_SIZE as int) =~= all);
    }
}

/// The circuit of the permutation and its layout.
pub open spec fn is_keccak_chip(layout: KeccakLayout, chip: Chip) -> bool {
    &&& layout.committed_bits_id@ == indices(0, STATE_SIZE as nat)
    &&& chip.n_committed == STATE_SIZE
    &&& chip.n_challenges == 0
    &&& chip.n_evaluations == round_base(0, ROUNDS as int)
    &&& chip.final_out_evals@ == indices(0, STATE_SIZE as nat)
    &&& chip.openings@ == Seq::new(
        STATE_SIZE as nat,
        |i: int|
            (i as usize, EvalExpression::Single((round_output(0, ROUNDS as int) + i) as usize)),
    )
    &&& are_rounds(chip.layers@, 0, ROUNDS as int)
}

/// The layout and the circuit.
pub fn setup_gkr_circuit() -> (r: (KeccakLayout, Chip))
    ensures
        is_keccak_chip(r.0, r.1),
{
    let mut chip = Chip::new();
    let mut layout = KeccakLayout::init(KeccakParams {  });
    layout.build_commit_phase(&mut chip);
    layout.build_gkr_phase(&mut chip);
    proof {
        assert(chip.layers@.skip(0) =~= chip.layers@);
        assert(chip.final_out_evals@ =~= indices(0, STATE_SIZE as nat));
        assert(chip.openings@ =~= Seq::new(
            STATE_SIZE as nat,
            |i: int|
                (
                    i as usize,
                    EvalExpression::Single((round_output(0, ROUNDS as int) + i) as usize),
                ),
        ));
    }
    (layout, chip)
}

/// The bits of a state, lane by lane.
pub open spec fn state_bits(st: Seq<u64>) -> Seq<int> {
    Seq::new(STATE_SIZE as nat, |i: int| bit(st[i / 64], i % 64))
}

/// The bits of a state, lane by lane.
pub fn bits_of(state: &[u64; 25]) -> (r: Vec<Goldilocks>)
    ensures
        r@ == state_bits(state@).map_values(|b: int| gl(b)),
{
    let ghost all = state_bits(state@).map_values(|b: int| gl(b));
    let mut r: Vec<Goldilocks> = Vec::with_capacity(STATE_SIZE);
    let mut i: usize = 0;
    assert(r@ =~= all.take(0));
    while i < STATE_SIZE
        invariant
            i <= STATE_SIZE,
            all == state_bits(state@).map_values(|b: int| gl(b)),
            r@ == all.take(i as int),
        decreases STATE_SIZE - i,
    {
        let word: u64 = state[i / 64];
        let z: u64 = (i % 64) as u64;
        let b: u64 = (word >> z) & 1;
        proof {
            assert(b <= 1) by (bit_vector)
                requires
                    b == (word >> z) & 1,
            ;
            vstd::arithmetic::div_mod::lemma_small_mod(b as nat, modulus() as nat);
        }
        r.push(Goldilocks { value: b });
        i = i + 1;
        assert(r@ =~= all.take(i as int));
    }
    assert(all.take(STATE_SIZE as int) =~= all);
    r
}

} // verus!
