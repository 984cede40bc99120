//! The rounds of the Keccak permutation with lookups, one row for each round. Every round adds the
//! first round constant.
//!
//! A row holds the bytes of the state before the round, of the steps of the round and of the state
//! after it, and the chunks in which words are split for their rotations.
use vstd::arithmetic::div_mod::*;
use vstd::prelude::*;

use crate::circuit::plain::{cell, constant, plain, value, witness};
use crate::expression::laws::lemma_degree_ops;
use crate::expression::{base_const, Expression, WitIn};
use crate::field::{f_sub, group_field, modulus, Goldilocks};
use crate::gkr::{
    capped, single_evals, singles, spec_max_degree, Chip, EvalExpression, Layer, LayerType,
    OutputGroup, RotationExprs,
};
use crate::precompiles::keccak::{
    lemma_rotation_constant, rc, rotation, rotation_constant, round_constant, target_lane, ROUNDS,
};
use crate::precompiles::system::{
    all_linear, chunk_ranges, expr_values, four_bytes, lemma_four_bytes, linear_lookup,
    lookup_triple, plain_lookup, rotation_sizes, rotation_split, rotation_text, rotation_values,
    texts, zero_evals, ConstraintSystem,
};
use crate::precompiles::utils::{
    expansion_expr, lemma_expansion_linear, not8_expr, rep_linear, rep_sizes, rep_values, rep_wf,
    CenoLookup,
};
use crate::precompiles::words::{bytes, expand, lemma_byte, sizes_of};
use crate::text::{append, decimal, decimal_text};

verus! {

broadcast use group_field;

/// The number of variables that tell rounds apart.
pub const ROUNDS_CEIL_LOG2: usize = 5;

pub const KECCAK_INPUT_SIZE: usize = 50;

pub const KECCAK_OUTPUT_SIZE: usize = 50;

pub const KECCAK_LAYER_BYTE_SIZE: usize = 200;

pub const AND_LOOKUPS_PER_ROUND: usize = 200;

pub const XOR_LOOKUPS_PER_ROUND: usize = 608;

pub const RANGE_LOOKUPS_PER_ROUND: usize = 290;

pub const LOOKUP_FELTS_PER_ROUND: usize = 2714;

pub const AND_LOOKUPS: usize = AND_LOOKUPS_PER_ROUND;

pub const XOR_LOOKUPS: usize = XOR_LOOKUPS_PER_ROUND;

pub const RANGE_LOOKUPS: usize = RANGE_LOOKUPS_PER_ROUND;

pub const KECCAK_OUT_EVAL_SIZE: usize = 2814;

pub const KECCAK_WIT_SIZE_PER_ROUND: usize = 1264;

pub const KECCAK_WIT_SIZE: usize = 1464;

// the first columns of the parts of a row
pub const C_AUX: usize = 200;

pub const C_TEMP: usize = 400;

pub const C_ROT: usize = 430;

pub const D: usize = 470;

pub const THETA: usize = 510;

pub const SPLITS: usize = 710;

pub const RHOPI: usize = 856;

pub const NONLINEAR: usize = 1056;

pub const CHI: usize = 1256;

pub const IOTA: usize = 1264;

/// The value in a column of a row.
pub open spec fn at(row: Seq<Goldilocks>, i: int) -> int {
    cell(row, i)@
}

/// The values in consecutive columns.
pub open spec fn columns(row: Seq<Goldilocks>, from: int, n: int) -> Seq<int> {
    Seq::new(n as nat, |k: int| at(row, from + k))
}

fn wit(i: usize) -> (r: Expression)
    requires
        i < KECCAK_WIT_SIZE,
    ensures
        r == Expression::WitIn(i as u16),
        plain(r),
        forall|row: Seq<Goldilocks>| #[trigger] value(r, row) == at(row, i as int),
{
    witness(WitIn { id: i as u16 })
}

fn wits(from: usize, n: usize) -> (r: Vec<Expression>)
    requires
        from + n <= KECCAK_WIT_SIZE,
    ensures
        r@.len() == n,
        forall|i: int| 0 <= i < n ==> plain(#[trigger] r@[i]),
        all_linear(r@),
        forall|row: Seq<Goldilocks>| #[trigger]
            expr_values(r@, row) == columns(row, from as int, n as int),
{
    let mut r: Vec<Expression> = Vec::with_capacity(n);
    let mut i: usize = 0;
    while i < n
        invariant
            i <= n,
            from + n <= KECCAK_WIT_SIZE,
            r@.len() == i,
            forall|k: int| 0 <= k < i ==> plain(#[trigger] r@[k]),
            all_linear(r@),
            forall|row: Seq<Goldilocks>, k: int|
                0 <= k < i ==> #[trigger] value(r@[k], row) == at(row, from + k),
        decreases n - i,
    {
        r.push(wit(from + i));
        i = i + 1;
    }
    proof {
        assert forall|row: Seq<Goldilocks>| #[trigger] expr_values(r@, row) == columns(
            row,
            from as int,
            n as int,
        ) by {
            assert(expr_values(r@, row) =~= columns(row, from as int, n as int));
        }
    }
    r
}

fn chunk_wits(sizes: &Vec<usize>, from: usize) -> (r: Vec<(usize, Expression)>)
    requires
        from + sizes@.len() <= KECCAK_WIT_SIZE,
        forall|i: int| 0 <= i < sizes@.len() ==> #[trigger] sizes@[i] <= 32,
    ensures
        rep_wf(r@),
        rep_sizes(r@) == sizes_of(sizes@),
        rep_linear(r@),
        forall|row: Seq<Goldilocks>| #[trigger]
            rep_values(r@, row) == columns(row, from as int, sizes@.len() as int),
{
    let n: usize = sizes.len();
    let mut r: Vec<(usize, Expression)> = Vec::with_capacity(n);
    let mut i: usize = 0;
    while i < n
        invariant
            i <= n,
            n == sizes@.len(),
            from + n <= KECCAK_WIT_SIZE,
            forall|i: int| 0 <= i < sizes@.len() ==> #[trigger] sizes@[i] <= 32,
            r@.len() == i,
            forall|k: int|
                0 <= k < i ==> (#[trigger] r@[k]).0 == sizes@[k] && plain(r@[k].1),
            rep_linear(r@),
            forall|row: Seq<Goldilocks>, k: int|
                0 <= k < i ==> #[trigger] value(r@[k].1, row) == at(row, from + k),
        decreases n - i,
    {
        r.push((sizes[i], wit(from + i)));
        i = i + 1;
    }
    proof {
        assert(rep_sizes(r@) =~= sizes_of(sizes@));
        assert forall|row: Seq<Goldilocks>| #[trigger] rep_values(r@, row) == columns(
            row,
            from as int,
            sizes@.len() as int,
        ) by {
            assert(rep_values(r@, row) =~= columns(row, from as int, sizes@.len() as int));
        }
    }
    r
}

/// The parity of one row is the first row of the state.
pub open spec fn c_aux_zero(row: Seq<Goldilocks>, t: int) -> int {
    let (x, k) = (t / 8, t % 8);
    f_sub(at(row, 8 * x + k), at(row, C_AUX + 40 * x + k))
}

/// The parity of the next row.
pub open spec fn c_aux_xor(row: Seq<Goldilocks>, t: int) -> (int, int, int) {
    let (x, y, k) = (t / 32, 1 + t % 32 / 8, t % 8);
    (
        at(row, C_AUX + 40 * x + 8 * (y - 1) + k),
        at(row, 40 * y + 8 * x + k),
        at(row, C_AUX + 40 * x + 8 * y + k),
    )
}

/// What is added to a column.
pub open spec fn d_xor(row: Seq<Goldilocks>, t: int) -> (int, int, int) {
    let (x, k) = (t / 8, t % 8);
    (
        at(row, C_AUX + 40 * ((x + 4) % 5) + 32 + k),
        at(row, C_ROT + 8 * ((x + 1) % 5) + k),
        at(row, D + 8 * x + k),
    )
}

pub open spec fn theta_xor(row: Seq<Goldilocks>, t: int) -> (int, int, int) {
    let (x, y, k) = (t / 40, t % 40 / 8, t % 8);
    (at(row, 40 * y + 8 * x + k), at(row, D + 8 * x + k), at(row, THETA + 40 * y + 8 * x + k))
}

/// The column of a byte of the state before the round constant is added: only the first lane has
/// columns of its own.
pub open spec fn chi_column(i: int) -> int {
    if i < 8 {
        CHI + i
    } else {
        IOTA + i
    }
}

pub open spec fn chi_and(row: Seq<Goldilocks>, t: int) -> (int, int, int) {
    let (x, y, k) = (t / 40, t % 40 / 8, t % 8);
    (
        f_sub(255, at(row, RHOPI + 40 * y + 8 * ((x + 1) % 5) + k)),
        at(row, RHOPI + 40 * y + 8 * ((x + 2) % 5) + k),
        at(row, NONLINEAR + 40 * y + 8 * x + k),
    )
}

pub open spec fn chi_xor(row: Seq<Goldilocks>, t: int) -> (int, int, int) {
    let (x, y, k) = (t / 40, t % 40 / 8, t % 8);
    (
        at(row, RHOPI + 40 * y + 8 * x + k),
        at(row, NONLINEAR + 40 * y + 8 * x + k),
        at(row, chi_column(40 * y + 8 * x + k)),
    )
}

pub open spec fn iota_xor(row: Seq<Goldilocks>, k: int) -> (int, int, int) {
    (at(row, CHI + k), bytes(round_constant(0))[k], at(row, IOTA + k))
}

/// The rotation of the parity of a column.
pub open spec fn theta_rotation(row: Seq<Goldilocks>, x: int) -> Seq<int> {
    rotation_values(
        columns(row, C_AUX + 40 * x + 32, 8),
        columns(row, C_TEMP + 6 * x, 6),
        columns(row, C_ROT + 8 * x, 8),
        1,
    )
}

pub open spec fn theta_ranges(row: Seq<Goldilocks>, x: int) -> Seq<int> {
    chunk_ranges(columns(row, C_TEMP + 6 * x, 6), sizes_of(rotation_sizes(1)))
}

/// The lane of a rotation, and the columns of its chunks.
pub open spec fn rotated_lane(t: int) -> int {
    5 * (t % 5) + t / 5
}

pub open spec fn split_column(t: int) -> int {
    if t == 0 {
        SPLITS as int
    } else {
        SPLITS + 2 + 6 * (t - 1)
    }
}

pub open spec fn split_len(t: int) -> int {
    if t == 0 {
        2
    } else {
        6
    }
}

/// The rotation of a lane to its place.
pub open spec fn rhopi_rotation(row: Seq<Goldilocks>, t: int) -> Seq<int> {
    let lane = rotated_lane(t);
    rotation_values(
        columns(row, THETA + 8 * lane, 8),
        columns(row, split_column(t), split_len(t)),
        columns(row, RHOPI + 8 * target_lane(lane), 8),
        rotation_constant(lane) as int,
    )
}

pub open spec fn rhopi_ranges(row: Seq<Goldilocks>, t: int) -> Seq<int> {
    chunk_ranges(
        columns(row, split_column(t), split_len(t)),
        sizes_of(rotation_sizes(rotation_constant(rotated_lane(t)) as int)),
    )
}

/// Sequences one after the other.
pub open spec fn concat(parts: spec_fn(int) -> Seq<int>, n: int) -> Seq<int>
    decreases n,
{
    if n <= 0 {
        Seq::empty()
    } else {
        concat(parts, n - 1) + parts(n - 1)
    }
}

fn constrain_c_aux(system: &mut ConstraintSystem)
    requires
        old(system).wf(),
    ensures
        final(system).wf(),
        old(system).linear() ==> final(system).linear(),
        final(system).same_lookups(old(system)),
        final(system).evals@ == old(system).evals@ + zero_evals(40),
        texts(final(system).expr_names@) == texts(old(system).expr_names@) + Seq::new(
            40,
            |t: int| "init c_aux"@,
        ),
        forall|row: Seq<Goldilocks>| #[trigger]
            final(system).values(row) == old(system).values(row) + Seq::new(
                40,
                |t: int| c_aux_zero(row, t),
            ),
{
    let ghost before = *system;
    let mut t: usize = 0;
    proof {
        assert(system.evals@ =~= before.evals@ + zero_evals(0));
        assert(texts(system.expr_names@) =~= texts(before.expr_names@) + Seq::new(
            0,
            |t: int| "init c_aux"@,
        ));
        assert forall|row: Seq<Goldilocks>| #[trigger] system.values(row) == before.values(row)
            + Seq::new(0, |t: int| c_aux_zero(row, t)) by {
            assert(system.values(row) =~= before.values(row) + Seq::new(
                0,
                |t: int| c_aux_zero(row, t),
            ));
        }
    }
    while t < 40
        invariant
            t <= 40,
            system.wf(),
            before.linear() ==> system.linear(),
            system.same_lookups(&before),
            system.evals@ == before.evals@ + zero_evals(t as nat),
            texts(system.expr_names@) == texts(before.expr_names@) + Seq::new(
                t as nat,
                |t: int| "init c_aux"@,
            ),
            forall|row: Seq<Goldilocks>| #[trigger]
                system.values(row) == before.values(row) + Seq::new(
                    t as nat,
                    |t: int| c_aux_zero(row, t),
                ),
        decreases 40 - t,
    {
        let ghost prev = *system;
        let (x, k): (usize, usize) = (t / 8, t % 8);
        system.constrain_eq(wit(8 * x + k), wit(C_AUX + 40 * x + k), "init c_aux".to_owned());
        proof {
            assert(system.evals@ =~= before.evals@ + zero_evals((t + 1) as nat));
            assert(texts(system.expr_names@) =~= texts(before.expr_names@) + Seq::new(
                (t + 1) as nat,
                |t: int| "init c_aux"@,
            ));
            assert forall|row: Seq<Goldilocks>| #[trigger] system.values(row) == before.values(row)
                + Seq::new((t + 1) as nat, |t: int| c_aux_zero(row, t)) by {
                assert(prev.values(row) == before.values(row) + Seq::new(
                    t as nat,
                    |t: int| c_aux_zero(row, t),
                ));
                assert(system.values(row) =~= before.values(row) + Seq::new(
                    (t + 1) as nat,
                    |t: int| c_aux_zero(row, t),
                ));
            }
        }
        t = t + 1;
    }
}

/// The parities of the first rows of each column.
fn lookup_c_aux(system: &mut ConstraintSystem)
    requires
        old(system).wf(),
    ensures
        final(system).wf(),
        old(system).linear() ==> final(system).linear(),
        final(system).same_expressions(old(system)),
        final(system).and_lookups == old(system).and_lookups,
        final(system).range_lookups == old(system).range_lookups,
        forall|row: Seq<Goldilocks>| #[trigger]
            final(system).xors(row) == old(system).xors(row) + Seq::new(160, |t: int| c_aux_xor(row, t)),
{
    let ghost before = *system;
    let mut t: usize = 0;
    proof {
        assert forall|row: Seq<Goldilocks>| #[trigger] system.xors(row) == before.xors(row)
            + Seq::new(0, |t: int| c_aux_xor(row, t)) by {
            assert(system.xors(row) =~= before.xors(row) + Seq::new(0, |t: int| c_aux_xor(row, t)));
        }
    }
    while t < 160
        invariant
            t <= 160,
            system.wf(),
            before.linear() ==> system.linear(),
            system.same_expressions(&before),
            system.and_lookups == before.and_lookups,
            system.range_lookups == before.range_lookups,
            forall|row: Seq<Goldilocks>| #[trigger]
                system.xors(row) == before.xors(row) + Seq::new(
                    t as nat,
                    |t: int| c_aux_xor(row, t),
                ),
        decreases 160 - t,
    {
        let ghost prev = *system;
        let (x, y, k): (usize, usize, usize) = (t / 32, 1 + t % 32 / 8, t % 8);
        system.lookup_xor8(
            wit(C_AUX + 40 * x + 8 * (y - 1) + k),
            wit(40 * y + 8 * x + k),
            wit(C_AUX + 40 * x + 8 * y + k),
        );
        proof {
            assert forall|row: Seq<Goldilocks>| #[trigger] system.xors(row) == before.xors(row)
                + Seq::new((t + 1) as nat, |t: int| c_aux_xor(row, t)) by {
                assert(prev.xors(row) == before.xors(row) + Seq::new(
                    t as nat,
                    |t: int| c_aux_xor(row, t),
                ));
                assert(system.xors(row) =~= before.xors(row) + Seq::new(
                    (t + 1) as nat,
                    |t: int| c_aux_xor(row, t),
                ));
            }
        }
        t = t + 1;
    }
}

/// What is added to each column.
fn lookup_d(system: &mut ConstraintSystem)
    requires
        old(system).wf(),
    ensures
        final(system).wf(),
        old(system).linear() ==> final(system).linear(),
        final(system).same_expressions(old(system)),
        final(system).and_lookups == old(system).and_lookups,
        final(system).range_lookups == old(system).range_lookups,
        forall|row: Seq<Goldilocks>| #[trigger]
            final(system).xors(row) == old(system).xors(row) + Seq::new(40, |t: int| d_xor(row, t)),
{
    let ghost before = *system;
    let mut t: usize = 0;
    proof {
        assert forall|row: Seq<Goldilocks>| #[trigger] system.xors(row) == before.xors(row)
            + Seq::new(0, |t: int| d_xor(row, t)) by {
            assert(system.xors(row) =~= before.xors(row) + Seq::new(0, |t: int| d_xor(row, t)));
        }
    }
    while t < 40
        invariant
            t <= 40,
            system.wf(),
            before.linear() ==> system.linear(),
            system.same_expressions(&before),
            system.and_lookups == before.and_lookups,
            system.range_lookups == before.range_lookups,
            forall|row: Seq<Goldilocks>| #[trigger]
                system.xors(row) == before.xors(row) + Seq::new(
                    t as nat,
                    |t: int| d_xor(row, t),
                ),
        decreases 40 - t,
    {
        let ghost prev = *system;
        let (x, k): (usize, usize) = (t / 8, t % 8);
        system.lookup_xor8(
            wit(C_AUX + 40 * ((x + 4) % 5) + 32 + k),
            wit(C_ROT + 8 * ((x + 1) % 5) + k),
            wit(D + 8 * x + k),
        );
        proof {
            assert forall|row: Seq<Goldilocks>| #[trigger] system.xors(row) == before.xors(row)
                + Seq::new((t + 1) as nat, |t: int| d_xor(row, t)) by {
                assert(prev.xors(row) == before.xors(row) + Seq::new(
                    t as nat,
                    |t: int| d_xor(row, t),
                ));
                assert(system.xors(row) =~= before.xors(row) + Seq::new(
                    (t + 1) as nat,
                    |t: int| d_xor(row, t),
                ));
            }
        }
        t = t + 1;
    }
}

/// The state after the first step.
fn lookup_theta(system: &mut ConstraintSystem)
    requires
        old(system).wf(),
    ensures
        final(system).wf(),
        old(system).linear() ==> final(system).linear(),
        final(system).same_expressions(old(system)),
        final(system).and_lookups == old(system).and_lookups,
        final(system).range_lookups == old(system).range_lookups,
        forall|row: Seq<Goldilocks>| #[trigger]
            final(system).xors(row) == old(system).xors(row) + Seq::new(200, |t: int| theta_xor(row, t)),
{
    let ghost before = *system;
    let mut t: usize = 0;
    proof {
        assert forall|row: Seq<Goldilocks>| #[trigger] system.xors(row) == before.xors(row)
            + Seq::new(0, |t: int| theta_xor(row, t)) by {
            assert(system.xors(row) =~= before.xors(row) + Seq::new(0, |t: int| theta_xor(row, t)));
        }
    }
    while t < 200
        invariant
            t <= 200,
            system.wf(),
            before.linear() ==> system.linear(),
            system.same_expressions(&before),
            system.and_lookups == before.and_lookups,
            system.range_lookups == before.range_lookups,
            forall|row: Seq<Goldilocks>| #[trigger]
                system.xors(row) == before.xors(row) + Seq::new(
                    t as nat,
                    |t: int| theta_xor(row, t),
                ),
        decreases 200 - t,
    {
        let ghost prev = *system;
        let (x, y, k): (usize, usize, usize) = (t / 40, t % 40 / 8, t % 8);
        system.lookup_xor8(
            wit(40 * y + 8 * x + k),
            wit(D + 8 * x + k),
            wit(THETA + 40 * y + 8 * x + k),
        );
        proof {
            assert forall|row: Seq<Goldilocks>| #[trigger] system.xors(row) == before.xors(row)
                + Seq::new((t + 1) as nat, |t: int| theta_xor(row, t)) by {
                assert(prev.xors(row) == before.xors(row) + Seq::new(
                    t as nat,
                    |t: int| theta_xor(row, t),
                ));
                assert(system.xors(row) =~= before.xors(row) + Seq::new(
                    (t + 1) as nat,
                    |t: int| theta_xor(row, t),
                ));
            }
        }
        t = t + 1;
    }
}

/// The nonlinear step, with the conjunctions as witnesses.
fn lookup_chi(system: &mut ConstraintSystem)
    requires
        old(system).wf(),
    ensures
        final(system).wf(),
        old(system).linear() ==> final(system).linear(),
        final(system).same_expressions(old(system)),
        final(system).range_lookups == old(system).range_lookups,
        forall|row: Seq<Goldilocks>| #[trigger]
            final(system).ands(row) == old(system).ands(row) + Seq::new(200, |t: int| chi_and(row, t)),
        forall|row: Seq<Goldilocks>| #[trigger]
            final(system).xors(row) == old(system).xors(row) + Seq::new(200, |t: int| chi_xor(row, t)),
{
    let ghost before = *system;
    let mut t: usize = 0;
    proof {
        assert forall|row: Seq<Goldilocks>| #[trigger] system.ands(row) == before.ands(row)
            + Seq::new(0, |t: int| chi_and(row, t)) by {
            assert(system.ands(row) =~= before.ands(row) + Seq::new(0, |t: int| chi_and(row, t)));
        }
        assert forall|row: Seq<Goldilocks>| #[trigger] system.xors(row) == before.xors(row)
            + Seq::new(0, |t: int| chi_xor(row, t)) by {
            assert(system.xors(row) =~= before.xors(row) + Seq::new(0, |t: int| chi_xor(row, t)));
        }
    }
    while t < 200
        invariant
            t <= 200,
            system.wf(),
            before.linear() ==> system.linear(),
            system.same_expressions(&before),
            system.range_lookups == before.range_lookups,
            forall|row: Seq<Goldilocks>| #[trigger]
                system.ands(row) == before.ands(row) + Seq::new(
                    t as nat,
                    |t: int| chi_and(row, t),
                ),
            forall|row: Seq<Goldilocks>| #[trigger]
                system.xors(row) == before.xors(row) + Seq::new(
                    t as nat,
                    |t: int| chi_xor(row, t),
                ),
        decreases 200 - t,
    {
        let ghost prev = *system;
        let (x, y, k): (usize, usize, usize) = (t / 40, t % 40 / 8, t % 8);
        proof {
            lemma_degree_ops(
                base_const(255),
                Expression::WitIn((RHOPI + 40 * y + 8 * ((x + 1) % 5) + k) as u16),
            );
        }
        system.lookup_and8(
            not8_expr(wit(RHOPI + 40 * y + 8 * ((x + 1) % 5) + k)),
            wit(RHOPI + 40 * y + 8 * ((x + 2) % 5) + k),
            wit(NONLINEAR + 40 * y + 8 * x + k),
        );
        let ghost mid = *system;
        let i: usize = 40 * y + 8 * x + k;
        let chi: usize = if i < 8 {
            CHI + i
        } else {
            IOTA + i
        };
        system.lookup_xor8(
            wit(RHOPI + 40 * y + 8 * x + k),
            wit(NONLINEAR + 40 * y + 8 * x + k),
            wit(chi),
        );
        proof {
            assert forall|row: Seq<Goldilocks>| #[trigger] system.ands(row) == before.ands(row)
                + Seq::new((t + 1) as nat, |t: int| chi_and(row, t)) by {
                assert(prev.ands(row) == before.ands(row) + Seq::new(
                    t as nat,
                    |t: int| chi_and(row, t),
                ));
                assert(system.ands(row) == mid.ands(row));
                assert(system.ands(row) =~= before.ands(row) + Seq::new(
                    (t + 1) as nat,
                    |t: int| chi_and(row, t),
                ));
            }
            assert forall|row: Seq<Goldilocks>| #[trigger] system.xors(row) == before.xors(row)
                + Seq::new((t + 1) as nat, |t: int| chi_xor(row, t)) by {
                assert(prev.xors(row) == mid.xors(row));
                assert(prev.xors(row) == before.xors(row) + Seq::new(
                    t as nat,
                    |t: int| chi_xor(row, t),
                ));
                assert(system.xors(row) =~= before.xors(row) + Seq::new(
                    (t + 1) as nat,
                    |t: int| chi_xor(row, t),
                ));
            }
        }
        t = t + 1;
    }
}

/// The round constant is added to the first lane. All rows have the same constraints, so it is the
/// first constant in every round.
fn lookup_iota(system: &mut ConstraintSystem)
    requires
        old(system).wf(),
    ensures
        final(system).wf(),
        old(system).linear() ==> final(system).linear(),
        final(system).same_expressions(old(system)),
        final(system).and_lookups == old(system).and_lookups,
        final(system).range_lookups == old(system).range_lookups,
        forall|row: Seq<Goldilocks>| #[trigger]
            final(system).xors(row) == old(system).xors(row) + Seq::new(8, |t: int| iota_xor(row, t)),
{
    let ghost before = *system;
    let mut t: usize = 0;
    proof {
        assert forall|row: Seq<Goldilocks>| #[trigger] system.xors(row) == before.xors(row)
            + Seq::new(0, |t: int| iota_xor(row, t)) by {
            assert(system.xors(row) =~= before.xors(row) + Seq::new(0, |t: int| iota_xor(row, t)));
        }
    }
    while t < 8
        invariant
            t <= 8,
            system.wf(),
            before.linear() ==> system.linear(),
            system.same_expressions(&before),
            system.and_lookups == before.and_lookups,
            system.range_lookups == before.range_lookups,
            forall|row: Seq<Goldilocks>| #[trigger]
                system.xors(row) == before.xors(row) + Seq::new(
                    t as nat,
                    |t: int| iota_xor(row, t),
                ),
        decreases 8 - t,
    {
        let ghost prev = *system;
        let byte: u64 = (rc(0) >> (8 * t as u64)) & 255;
        proof {
            lemma_byte(round_constant(0), t as int);
            lemma_small_mod(byte as nat, modulus() as nat);
        }
        system.lookup_xor8(wit(CHI + t), constant(byte), wit(IOTA + t));
        proof {
            assert forall|row: Seq<Goldilocks>| #[trigger] system.xors(row) == before.xors(row)
                + Seq::new((t + 1) as nat, |t: int| iota_xor(row, t)) by {
                assert(prev.xors(row) == before.xors(row) + Seq::new(
                    t as nat,
                    |t: int| iota_xor(row, t),
                ));
                assert(system.xors(row) =~= before.xors(row) + Seq::new(
                    (t + 1) as nat,
                    |t: int| iota_xor(row, t),
                ));
            }
        }
        t = t + 1;
    }
}

/// The name of a constraint on a rotated parity.
#[verifier::opaque]
pub open spec fn theta_name(k: int) -> Seq<char> {
    rotation_text("theta rotation"@, 1, k % 4)
}

/// The name of a constraint on a rotated lane.
#[verifier::opaque]
pub open spec fn rhopi_name(k: int) -> Seq<char> {
    let (x, y) = (k / 4 / 5, k / 4 % 5);
    rotation_text(rhopi_label(x, y), rotation_constant(5 * y + x) as int, k % 4)
}

/// The label of the rotation of a lane.
pub open spec fn rhopi_label(x: int, y: int) -> Seq<char> {
    "RHOPI "@ + decimal_text(x as nat) + ", "@ + decimal_text(y as nat)
}

proof fn lemma_theta_names(names: Seq<Seq<char>>, t: int)
    requires
        0 <= t,
    ensures
        names + Seq::new((4 * t) as nat, |k: int| theta_name(k)) + Seq::new(
            4,
            |k: int| rotation_text("theta rotation"@, 1, k),
        ) == names + Seq::new((4 * (t + 1)) as nat, |k: int| theta_name(k)),
{
    reveal(theta_name);
    assert forall|k: int| 0 <= k < 4 implies #[trigger] theta_name(4 * t + k) == rotation_text(
        "theta rotation"@,
        1,
        k,
    ) by {
        assert((4 * t + k) % 4 == k);
    }
    assert(names + Seq::new((4 * t) as nat, |k: int| theta_name(k)) + Seq::new(
        4,
        |k: int| rotation_text("theta rotation"@, 1, k),
    ) =~= names + Seq::new((4 * (t + 1)) as nat, |k: int| theta_name(k)));
}

proof fn lemma_rhopi_names(names: Seq<Seq<char>>, t: int)
    requires
        0 <= t < 25,
    ensures
        ({
            let (x, y) = (t / 5, t % 5);
            names + Seq::new((4 * t) as nat, |k: int| rhopi_name(k)) + Seq::new(
                4,
                |k: int|
                    rotation_text(rhopi_label(x, y), rotation_constant(5 * y + x) as int, k),
            ) == names + Seq::new((4 * (t + 1)) as nat, |k: int| rhopi_name(k))
        }),
{
    reveal(rhopi_name);
    let (x, y) = (t / 5, t % 5);
    let c = rotation_constant(5 * y + x) as int;
    assert forall|k: int| 0 <= k < 4 implies #[trigger] rhopi_name(4 * t + k) == rotation_text(
        rhopi_label(x, y),
        c,
        k,
    ) by {
        assert((4 * t + k) % 4 == k && (4 * t + k) / 4 == t);
    }
    assert(names + Seq::new((4 * t) as nat, |k: int| rhopi_name(k)) + Seq::new(
        4,
        |k: int| rotation_text(rhopi_label(x, y), c, k),
    ) =~= names + Seq::new((4 * (t + 1)) as nat, |k: int| rhopi_name(k)));
}

/// The parities of the columns rotated by one.
fn constrain_theta_rotations(system: &mut ConstraintSystem)
    requires
        old(system).wf(),
    ensures
        final(system).wf(),
        old(system).linear() ==> final(system).linear(),
        final(system).and_lookups == old(system).and_lookups,
        final(system).xor_lookups == old(system).xor_lookups,
        final(system).evals@ == old(system).evals@ + zero_evals(20),
        texts(final(system).expr_names@) == texts(old(system).expr_names@) + Seq::new(
            20,
            |k: int| theta_name(k),
        ),
        forall|row: Seq<Goldilocks>| #[trigger]
            final(system).values(row) == old(system).values(row) + concat(
                |t: int| theta_rotation(row, t),
                5,
            ),
        forall|row: Seq<Goldilocks>| #[trigger]
            final(system).ranges(row) == old(system).ranges(row) + concat(
                |t: int| theta_ranges(row, t),
                5,
            ),
{
    let ghost before = *system;
    let mut t: usize = 0;
    proof {
        assert(system.evals@ =~= before.evals@ + zero_evals(0));
        assert(texts(system.expr_names@) =~= texts(before.expr_names@) + Seq::new(
            0,
            |k: int| theta_name(k),
        ));
        assert forall|row: Seq<Goldilocks>| #[trigger] system.values(row) == before.values(row)
            + concat(|t: int| theta_rotation(row, t), 0) by {
            assert(system.values(row) =~= before.values(row) + Seq::<int>::empty());
        }
        assert forall|row: Seq<Goldilocks>| #[trigger] system.ranges(row) == before.ranges(row)
            + concat(|t: int| theta_ranges(row, t), 0) by {
            assert(system.ranges(row) =~= before.ranges(row) + Seq::<int>::empty());
        }
    }
    while t < 5
        invariant
            t <= 5,
            system.wf(),
            before.linear() ==> system.linear(),
            system.and_lookups == before.and_lookups,
            system.xor_lookups == before.xor_lookups,
            system.evals@ == before.evals@ + zero_evals((4 * t) as nat),
            texts(system.expr_names@) == texts(before.expr_names@) + Seq::new(
                (4 * t) as nat,
                |k: int| theta_name(k),
            ),
            forall|row: Seq<Goldilocks>| #[trigger]
                system.values(row) == before.values(row) + concat(
                    |t: int| theta_rotation(row, t),
                    t as int,
                ),
            forall|row: Seq<Goldilocks>| #[trigger]
                system.ranges(row) == before.ranges(row) + concat(
                    |t: int| theta_ranges(row, t),
                    t as int,
                ),
        decreases 5 - t,
    {
        let ghost prev = *system;
        let (sizes, _) = rotation_split(1);
        proof {
            lemma_split_sizes(1);
        }
        system.constrain_left_rotation64(
            &wits(C_AUX + 40 * t + 32, 8),
            &chunk_wits(&sizes, C_TEMP + 6 * t),
            &wits(C_ROT + 8 * t, 8),
            1,
            "theta rotation",
        );
        proof {
            assert(system.evals@ =~= before.evals@ + zero_evals((4 * (t + 1)) as nat));
            lemma_theta_names(texts(before.expr_names@), t as int);
            assert forall|row: Seq<Goldilocks>| #[trigger] system.values(row) == before.values(row)
                + concat(|t: int| theta_rotation(row, t), t + 1) by {
                let parts = |t: int| theta_rotation(row, t);
                assert(prev.values(row) == before.values(row) + concat(parts, t as int));
                assert(parts(t as int) == theta_rotation(row, t as int));
                assert(system.values(row) =~= before.values(row) + concat(parts, t + 1));
            }
            assert forall|row: Seq<Goldilocks>| #[trigger] system.ranges(row) == before.ranges(row)
                + concat(|t: int| theta_ranges(row, t), t + 1) by {
                let parts = |t: int| theta_ranges(row, t);
                assert(prev.ranges(row) == before.ranges(row) + concat(parts, t as int));
                assert(parts(t as int) == theta_ranges(row, t as int));
                assert(system.ranges(row) =~= before.ranges(row) + concat(parts, t + 1));
            }
        }
        t = t + 1;
    }
}

fn rhopi_label_text(x: usize, y: usize) -> (r: String)
    ensures
        r@ == rhopi_label(x as int, y as int),
{
    append(
        append(append("RHOPI ".to_owned(), decimal(x as u64).as_str()), ", "),
        decimal(y as u64).as_str(),
    )
}

/// The lanes rotated and moved to their places.
#[verifier::spinoff_prover]
#[verifier::rlimit(40)]
fn constrain_rhopi_rotations(system: &mut ConstraintSystem)
    requires
        old(system).wf(),
    ensures
        final(system).wf(),
        old(system).linear() ==> final(system).linear(),
        final(system).and_lookups == old(system).and_lookups,
        final(system).xor_lookups == old(system).xor_lookups,
        final(system).evals@ == old(system).evals@ + zero_evals(100),
        texts(final(system).expr_names@) == texts(old(system).expr_names@) + Seq::new(
            100,
            |k: int| rhopi_name(k),
        ),
        forall|row: Seq<Goldilocks>| #[trigger]
            final(system).values(row) == old(system).values(row) + concat(
                |t: int| rhopi_rotation(row, t),
                25,
            ),
        forall|row: Seq<Goldilocks>| #[trigger]
            final(system).ranges(row) == old(system).ranges(row) + concat(
                |t: int| rhopi_ranges(row, t),
                25,
            ),
{
    let ghost before = *system;
    let mut t: usize = 0;
    proof {
        assert(system.evals@ =~= before.evals@ + zero_evals(0));
        assert(texts(system.expr_names@) =~= texts(before.expr_names@) + Seq::new(
            0,
            |k: int| rhopi_name(k),
        ));
        assert forall|row: Seq<Goldilocks>| #[trigger] system.values(row) == before.values(row)
            + concat(|t: int| rhopi_rotation(row, t), 0) by {
            assert(system.values(row) =~= before.values(row) + Seq::<int>::empty());
        }
        assert forall|row: Seq<Goldilocks>| #[trigger] system.ranges(row) == before.ranges(row)
            + concat(|t: int| rhopi_ranges(row, t), 0) by {
            assert(system.ranges(row) =~= before.ranges(row) + Seq::<int>::empty());
        }
    }
    while t < 25
        invariant
            t <= 25,
            system.wf(),
            before.linear() ==> system.linear(),
            system.and_lookups == before.and_lookups,
            system.xor_lookups == before.xor_lookups,
            system.evals@ == before.evals@ + zero_evals((4 * t) as nat),
            texts(system.expr_names@) == texts(before.expr_names@) + Seq::new(
                (4 * t) as nat,
                |k: int| rhopi_name(k),
            ),
            forall|row: Seq<Goldilocks>| #[trigger]
                system.values(row) == before.values(row) + concat(
                    |t: int| rhopi_rotation(row, t),
                    t as int,
                ),
            forall|row: Seq<Goldilocks>| #[trigger]
                system.ranges(row) == before.ranges(row) + concat(
                    |t: int| rhopi_ranges(row, t),
                    t as int,
                ),
        decreases 25 - t,
    {
        let ghost prev = *system;
        let (x, y): (usize, usize) = (t / 5, t % 5);
        let lane: usize = 5 * y + x;
        let delta: usize = rotation(lane);
        let (sizes, _) = rotation_split(delta);
        let from: usize = if t == 0 {
            SPLITS
        } else {
            SPLITS + 2 + 6 * (t - 1)
        };
        let to: usize = 5 * ((2 * x + 3 * y) % 5) + y;
        proof {
            assert(lane / 5 == y && lane % 5 == x);
            lemma_split_sizes(delta as int);
            assert(delta == 0 <==> t == 0);
            lemma_small_mod(delta as nat, 64);
        }
        let label = rhopi_label_text(x, y);
        system.constrain_left_rotation64(
            &wits(THETA + 8 * lane, 8),
            &chunk_wits(&sizes, from),
            &wits(RHOPI + 8 * to, 8),
            delta,
            label.as_str(),
        );
        proof {
            assert(system.evals@ =~= before.evals@ + zero_evals((4 * (t + 1)) as nat));
            lemma_rhopi_names(texts(before.expr_names@), t as int);
            assert forall|row: Seq<Goldilocks>| #[trigger] system.values(row) == before.values(row)
                + concat(|t: int| rhopi_rotation(row, t), t + 1) by {
                let parts = |t: int| rhopi_rotation(row, t);
                assert(prev.values(row) == before.values(row) + concat(parts, t as int));
                assert(parts(t as int) == rhopi_rotation(row, t as int));
                assert(system.values(row) =~= before.values(row) + concat(parts, t + 1));
            }
            assert forall|row: Seq<Goldilocks>| #[trigger] system.ranges(row) == before.ranges(row)
                + concat(|t: int| rhopi_ranges(row, t), t + 1) by {
                let parts = |t: int| rhopi_ranges(row, t);
                assert(prev.ranges(row) == before.ranges(row) + concat(parts, t as int));
                assert(parts(t as int) == rhopi_ranges(row, t as int));
                assert(system.ranges(row) =~= before.ranges(row) + concat(parts, t + 1));
            }
        }
        t = t + 1;
    }
}

/// The sizes of the chunks for the rotations of lanes.
pub proof fn lemma_split_sizes(delta: int)
    requires
        0 <= delta < 64,
        delta != 16,
        delta != 32,
        delta != 48,
    ensures
        rotation_sizes(delta).len() == (if delta == 0 {
            2nat
        } else {
            6nat
        }),
        forall|i: int|
            0 <= i < rotation_sizes(delta).len() ==> #[trigger] rotation_sizes(delta)[i] <= 32,
{
}

/// The expressions that are zero.
#[verifier::opaque]
pub open spec fn round_zeros(row: Seq<Goldilocks>) -> Seq<int> {
    Seq::new(40, |t: int| c_aux_zero(row, t)) + concat(|t: int| theta_rotation(row, t), 5) + concat(
        |t: int| rhopi_rotation(row, t),
        25,
    )
}

/// The looked up conjunctions.
#[verifier::opaque]
pub open spec fn round_ands(row: Seq<Goldilocks>) -> Seq<(int, int, int)> {
    Seq::new(200, |t: int| chi_and(row, t))
}

/// The looked up exclusive disjunctions.
#[verifier::opaque]
pub open spec fn round_xors(row: Seq<Goldilocks>) -> Seq<(int, int, int)> {
    Seq::new(160, |t: int| c_aux_xor(row, t)) + Seq::new(40, |t: int| d_xor(row, t)) + Seq::new(
        200,
        |t: int| theta_xor(row, t),
    ) + Seq::new(200, |t: int| chi_xor(row, t)) + Seq::new(8, |t: int| iota_xor(row, t))
}

/// The looked up 16-bit values.
#[verifier::opaque]
pub open spec fn round_ranges(row: Seq<Goldilocks>) -> Seq<int> {
    concat(|t: int| theta_ranges(row, t), 5) + concat(|t: int| rhopi_ranges(row, t), 25)
}

/// A 32-bit half of a lane, from its bytes.
pub open spec fn half_lane(row: Seq<Goldilocks>, from: int, t: int) -> int {
    expand(columns(row, from + 4 * t, 4), four_bytes()) % modulus()
}

/// The parts of triples one after the other.
pub open spec fn flat(s: Seq<(int, int, int)>) -> Seq<int> {
    Seq::new(
        3 * s.len(),
        |i: int|
            if i % 3 == 0 {
                s[i / 3].0
            } else if i % 3 == 1 {
                s[i / 3].1
            } else {
                s[i / 3].2
            },
    )
}

/// The values of all expressions of the layer: those that are zero, the state after and before the
/// round in 32-bit values, and what is looked up.
pub open spec fn round_values(row: Seq<Goldilocks>) -> Seq<int> {
    round_zeros(row) + Seq::new(50, |t: int| half_lane(row, IOTA as int, t)) + Seq::new(
        50,
        |t: int| half_lane(row, 0, t),
    ) + flat(round_ands(row)) + flat(round_xors(row)) + round_ranges(row)
}

/// The name of a 32-bit half of a lane.
pub open spec fn half_lane_name(label: Seq<char>, t: int) -> Seq<char> {
    "build 32-bit "@ + label + decimal_text((t / 10) as nat) + ", "@ + decimal_text(
        (t / 2 % 5) as nat,
    ) + ", "@ + decimal_text((t % 2) as nat)
}

/// The name of a looked up value.
pub open spec fn felt_text(i: int) -> Seq<char> {
    "round 0th: "@ + decimal_text(i as nat) + "th lookup felt"@
}

/// The names of all expressions of the layer.
#[verifier::opaque]
pub open spec fn round_names() -> Seq<Seq<char>> {
    Seq::new(40, |t: int| "init c_aux"@) + Seq::new(20, |k: int| theta_name(k)) + Seq::new(
        100,
        |k: int| rhopi_name(k),
    ) + Seq::new(50, |t: int| half_lane_name("output: "@, t)) + Seq::new(
        50,
        |t: int| half_lane_name("input: "@, t),
    ) + Seq::new(LOOKUP_FELTS_PER_ROUND as nat, |i: int| felt_text(i))
}

/// Adds the 32-bit halves of the lanes at the given columns.
fn output_halves(system: &mut ConstraintSystem, from: usize, eval: usize, label: &str)
    requires
        old(system).wf(),
        from + 200 <= KECCAK_WIT_SIZE,
        eval + 50 <= usize::MAX,
    ensures
        final(system).wf(),
        old(system).linear() ==> final(system).linear(),
        final(system).same_lookups(old(system)),
        final(system).evals@ == old(system).evals@ + singles(eval as int, 50),
        texts(final(system).expr_names@) == texts(old(system).expr_names@) + Seq::new(
            50,
            |t: int| half_lane_name(label@, t),
        ),
        forall|row: Seq<Goldilocks>| #[trigger]
            final(system).values(row) == old(system).values(row) + Seq::new(
                50,
                |t: int| half_lane(row, from as int, t),
            ),
{
    let ghost before = *system;
    let mut t: usize = 0;
    proof {
        assert(system.evals@ =~= before.evals@ + singles(eval as int, 0));
        assert(texts(system.expr_names@) =~= texts(before.expr_names@) + Seq::new(
            0,
            |t: int| half_lane_name(label@, t),
        ));
        assert forall|row: Seq<Goldilocks>| #[trigger] system.values(row) == before.values(row)
            + Seq::new(0, |t: int| half_lane(row, from as int, t)) by {
            assert(system.values(row) =~= before.values(row) + Seq::new(
                0,
                |t: int| half_lane(row, from as int, t),
            ));
        }
    }
    while t < 50
        invariant
            t <= 50,
            from + 200 <= KECCAK_WIT_SIZE,
            eval + 50 <= usize::MAX,
            system.wf(),
            before.linear() ==> system.linear(),
            system.same_lookups(&before),
            system.evals@ == before.evals@ + singles(eval as int, t as nat),
            texts(system.expr_names@) == texts(before.expr_names@) + Seq::new(
                t as nat,
                |t: int| half_lane_name(label@, t),
            ),
            forall|row: Seq<Goldilocks>| #[trigger]
                system.values(row) == before.values(row) + Seq::new(
                    t as nat,
                    |t: int| half_lane(row, from as int, t),
                ),
        decreases 50 - t,
    {
        let ghost prev = *system;
        let sizes: Vec<usize> = vec![8, 8, 8, 8];
        let rep = chunk_wits(&sizes, from + 4 * t);
        proof {
            assert(sizes_of(sizes@) =~= four_bytes());
            lemma_four_bytes();
        }
        let expr = expansion_expr(rep.as_slice(), 32);
        proof {
            lemma_expansion_linear(rep@);
        }
        let first = append(append("build 32-bit ".to_owned(), label), decimal((t / 10) as u64).as_str());
        let second = append(append(first, ", "), decimal((t / 2 % 5) as u64).as_str());
        let name = append(append(second, ", "), decimal((t % 2) as u64).as_str());
        system.add_non_zero_constraint(expr, EvalExpression::Single(eval + t), name);
        proof {
            assert(system.evals@ =~= before.evals@ + singles(eval as int, (t + 1) as nat));
            assert(texts(system.expr_names@) =~= texts(before.expr_names@) + Seq::new(
                (t + 1) as nat,
                |t: int| half_lane_name(label@, t),
            ));
            assert forall|row: Seq<Goldilocks>| #[trigger] system.values(row) == before.values(row)
                + Seq::new((t + 1) as nat, |t: int| half_lane(row, from as int, t)) by {
                assert(prev.values(row) == before.values(row) + Seq::new(
                    t as nat,
                    |t: int| half_lane(row, from as int, t),
                ));
                assert(value(expr, row) == half_lane(row, from as int, t as int));
                assert(system.values(row) =~= before.values(row) + Seq::new(
                    (t + 1) as nat,
                    |t: int| half_lane(row, from as int, t),
                ));
            }
        }
        t = t + 1;
    }
}

fn felt_name(i: usize) -> (r: String)
    ensures
        r@ == felt_text(i as int),
{
    append(append("round 0th: ".to_owned(), decimal(i as u64).as_str()), "th lookup felt")
}

/// Which triples are output.
#[derive(Clone, Copy, PartialEq, Eq, Structural)]
enum Table {
    And,
    Xor,
}

/// The triples of a table.
spec fn table_triples(system: &ConstraintSystem, table: Table, row: Seq<Goldilocks>) -> Seq<
    (int, int, int),
> {
    match table {
        Table::And => system.ands(row),
        Table::Xor => system.xors(row),
    }
}

/// Adds the parts of the looked up triples of a table.
fn output_triples(system: &mut ConstraintSystem, table: Table, eval: usize, index: usize)
    requires
        old(system).wf(),
        eval + 3 * (if table == Table::And {
            old(system).and_lookups@.len()
        } else {
            old(system).xor_lookups@.len()
        }) <= usize::MAX,
        index <= eval,
    ensures
        final(system).wf(),
        old(system).linear() ==> final(system).linear(),
        final(system).same_lookups(old(system)),
        final(system).evals@ == old(system).evals@ + singles(
            eval as int,
            (3 * (if table == Table::And {
                old(system).and_lookups@.len()
            } else {
                old(system).xor_lookups@.len()
            })) as nat,
        ),
        texts(final(system).expr_names@) == texts(old(system).expr_names@) + Seq::new(
            (3 * (if table == Table::And {
                old(system).and_lookups@.len()
            } else {
                old(system).xor_lookups@.len()
            })) as nat,
            |i: int| felt_text(index + i),
        ),
        forall|row: Seq<Goldilocks>| #[trigger]
            final(system).values(row) == old(system).values(row) + flat(
                table_triples(old(system), table, row),
            ),
{
    let ghost before = *system;
    let n: usize = match table {
        Table::And => system.and_lookups.len(),
        Table::Xor => system.xor_lookups.len(),
    };
    let mut t: usize = 0;
    proof {
        assert(system.evals@ =~= before.evals@ + singles(eval as int, 0));
        assert(texts(system.expr_names@) =~= texts(before.expr_names@) + Seq::new(
            0,
            |i: int| felt_text(index + i),
        ));
        assert forall|row: Seq<Goldilocks>| #[trigger] system.values(row) == before.values(row)
            + flat(table_triples(&before, table, row).take(0)) by {
            assert(system.values(row) =~= before.values(row) + flat(
                table_triples(&before, table, row).take(0),
            ));
        }
    }
    while t < n
        invariant
            t <= n,
            n == (if table == Table::And {
                before.and_lookups@.len()
            } else {
                before.xor_lookups@.len()
            }),
            eval + 3 * n <= usize::MAX,
            index <= eval,
            system.wf(),
            before.linear() ==> system.linear(),
            system.same_lookups(&before),
            system.evals@ == before.evals@ + singles(eval as int, (3 * t) as nat),
            texts(system.expr_names@) == texts(before.expr_names@) + Seq::new(
                (3 * t) as nat,
                |i: int| felt_text(index + i),
            ),
            forall|row: Seq<Goldilocks>| #[trigger]
                system.values(row) == before.values(row) + flat(
                    table_triples(&before, table, row).take(t as int),
                ),
        decreases n - t,
    {
        let ghost prev = *system;
        let lookup = match table {
            Table::And => &system.and_lookups[t],
            Table::Xor => &system.xor_lookups[t],
        };
        let (a, b, c) = triple_exprs(lookup);
        proof {
            reveal(ConstraintSystem::linear);
        }
        system.add_non_zero_constraint(
            a,
            EvalExpression::Single(eval + 3 * t),
            felt_name(index + 3 * t),
        );
        system.add_non_zero_constraint(
            b,
            EvalExpression::Single(eval + 3 * t + 1),
            felt_name(index + 3 * t + 1),
        );
        system.add_non_zero_constraint(
            c,
            EvalExpression::Single(eval + 3 * t + 2),
            felt_name(index + 3 * t + 2),
        );
        proof {
            assert(system.evals@ =~= before.evals@ + singles(eval as int, (3 * (t + 1)) as nat));
            assert(texts(system.expr_names@) =~= texts(before.expr_names@) + Seq::new(
                (3 * (t + 1)) as nat,
                |i: int| felt_text(index + i),
            ));
            assert forall|row: Seq<Goldilocks>| #[trigger] system.values(row) == before.values(row)
                + flat(table_triples(&before, table, row).take(t + 1)) by {
                let s = table_triples(&before, table, row);
                assert(s[t as int] == (value(a, row), value(b, row), value(c, row)));
                assert(prev.values(row) == before.values(row) + flat(s.take(t as int)));
                assert(system.values(row) == prev.values(row).push(value(a, row)).push(
                    value(b, row),
                ).push(value(c, row)));
                assert(flat(s.take(t + 1)) =~= flat(s.take(t as int)).push(value(a, row)).push(
                    value(b, row),
                ).push(value(c, row)));
                assert(system.values(row) =~= before.values(row) + flat(s.take(t + 1)));
            }
        }
        t = t + 1;
    }
    proof {
        assert forall|row: Seq<Goldilocks>| #[trigger] system.values(row) == before.values(row)
            + flat(table_triples(&before, table, row)) by {
            let s = table_triples(&before, table, row);
            assert(s.take(n as int) =~= s);
        }
    }
}

fn triple_exprs(lookup: &CenoLookup) -> (r: (Expression, Expression, Expression))
    requires
        lookup is And || lookup is Xor,
        plain_lookup(*lookup),
    ensures
        plain(r.0),
        plain(r.1),
        plain(r.2),
        linear_lookup(*lookup) ==> r.0.spec_degree() <= 1 && r.1.spec_degree() <= 1
            && r.2.spec_degree() <= 1,
        forall|row: Seq<Goldilocks>| #[trigger]
            lookup_triple(*lookup, row) == (value(r.0, row), value(r.1, row), value(r.2, row)),
{
    match lookup {
        CenoLookup::And(a, b, c) => (a.clone(), b.clone(), c.clone()),
        CenoLookup::Xor(a, b, c) => (a.clone(), b.clone(), c.clone()),
        CenoLookup::U16(a) => (a.clone(), a.clone(), a.clone()),
    }
}

/// Adds the looked up 16-bit values.
fn output_ranges(system: &mut ConstraintSystem, eval: usize, index: usize)
    requires
        old(system).wf(),
        eval + old(system).range_lookups@.len() <= usize::MAX,
        index <= eval,
    ensures
        final(system).wf(),
        old(system).linear() ==> final(system).linear(),
        final(system).same_lookups(old(system)),
        final(system).evals@ == old(system).evals@ + singles(
            eval as int,
            old(system).range_lookups@.len(),
        ),
        texts(final(system).expr_names@) == texts(old(system).expr_names@) + Seq::new(
            old(system).range_lookups@.len(),
            |i: int| felt_text(index + i),
        ),
        forall|row: Seq<Goldilocks>| #[trigger]
            final(system).values(row) == old(system).values(row) + old(system).ranges(row),
{
    let ghost before = *system;
    let n: usize = system.range_lookups.len();
    let mut t: usize = 0;
    proof {
        assert(system.evals@ =~= before.evals@ + singles(eval as int, 0));
        assert(texts(system.expr_names@) =~= texts(before.expr_names@) + Seq::new(
            0,
            |i: int| felt_text(index + i),
        ));
        assert forall|row: Seq<Goldilocks>| #[trigger] system.values(row) == before.values(row)
            + before.ranges(row).take(0) by {
            assert(system.values(row) =~= before.values(row) + before.ranges(row).take(0));
        }
    }
    while t < n
        invariant
            t <= n,
            n == before.range_lookups@.len(),
            eval + n <= usize::MAX,
            index <= eval,
            system.wf(),
            before.linear() ==> system.linear(),
            system.same_lookups(&before),
            system.evals@ == before.evals@ + singles(eval as int, t as nat),
            texts(system.expr_names@) == texts(before.expr_names@) + Seq::new(
                t as nat,
                |i: int| felt_text(index + i),
            ),
            forall|row: Seq<Goldilocks>| #[trigger]
                system.values(row) == before.values(row) + before.ranges(row).take(t as int),
        decreases n - t,
    {
        let ghost prev = *system;
        let a = match &system.range_lookups[t] {
            CenoLookup::U16(a) => a.clone(),
            CenoLookup::And(a, _, _) => a.clone(),
            CenoLookup::Xor(a, _, _) => a.clone(),
        };
        proof {
            reveal(ConstraintSystem::linear);
        }
        system.add_non_zero_constraint(a, EvalExpression::Single(eval + t), felt_name(index + t));
        proof {
            assert(system.evals@ =~= before.evals@ + singles(eval as int, (t + 1) as nat));
            assert(texts(system.expr_names@) =~= texts(before.expr_names@) + Seq::new(
                (t + 1) as nat,
                |i: int| felt_text(index + i),
            ));
            assert forall|row: Seq<Goldilocks>| #[trigger] system.values(row) == before.values(row)
                + before.ranges(row).take(t + 1) by {
                assert(prev.values(row) == before.values(row) + before.ranges(row).take(t as int));
                assert(before.ranges(row)[t as int] == value(a, row));
                assert(system.values(row) =~= before.values(row) + before.ranges(row).take(t + 1));
            }
        }
        t = t + 1;
    }
    proof {
        assert forall|row: Seq<Goldilocks>| #[trigger] system.values(row) == before.values(row)
            + before.ranges(row) by {
            assert(before.ranges(row).take(n as int) =~= before.ranges(row));
        }
    }
}

/// The number of expressions that are zero and of range lookups.
pub proof fn lemma_counts(row: Seq<Goldilocks>)
    ensures
        round_zeros(row).len() == 160,
        round_ands(row).len() == 200,
        round_xors(row).len() == 608,
        round_ranges(row).len() == 290,
{
    reveal(round_zeros);
    reveal(round_ands);
    reveal(round_xors);
    reveal(round_ranges);
    lemma_zero_counts(row);
    lemma_range_counts(row);
}

proof fn lemma_zero_counts(row: Seq<Goldilocks>)
    ensures
        concat(|t: int| theta_rotation(row, t), 5).len() == 20,
        concat(|t: int| rhopi_rotation(row, t), 25).len() == 100,
{
    let theta_z = |t: int| theta_rotation(row, t);
    let rhopi_z = |t: int| rhopi_rotation(row, t);
    assert forall|t: int| 0 <= t < 5 implies #[trigger] theta_z(t).len() == 4 by {}
    assert forall|t: int| 0 <= t < 25 implies #[trigger] rhopi_z(t).len() == 4 by {}
    lemma_concat_len(theta_z, 5, 4, 4);
    lemma_concat_len(rhopi_z, 25, 4, 4);
}

proof fn lemma_range_counts(row: Seq<Goldilocks>)
    ensures
        concat(|t: int| theta_ranges(row, t), 5).len() == 50,
        concat(|t: int| rhopi_ranges(row, t), 25).len() == 240,
{
    let theta_r = |t: int| theta_ranges(row, t);
    let rhopi_r = |t: int| rhopi_ranges(row, t);
    assert forall|t: int| 0 <= t < 5 implies #[trigger] theta_r(t).len() == 10 by {
        lemma_range_count(columns(row, C_TEMP + 6 * t, 6), 1);
    }
    assert forall|t: int| 0 <= t < 25 implies #[trigger] rhopi_r(t).len() == if t == 0 {
        0nat
    } else {
        10nat
    } by {
        lemma_rotation_constant(rotated_lane(t));
        lemma_split_sizes(rotation_constant(rotated_lane(t)) as int);
        lemma_range_count(
            columns(row, split_column(t), split_len(t)),
            rotation_constant(rotated_lane(t)) as int,
        );
    }
    lemma_concat_len(theta_r, 5, 10, 10);
    lemma_concat_len(rhopi_r, 25, 0, 10);
}

proof fn lemma_concat_len(parts: spec_fn(int) -> Seq<int>, n: int, first: nat, rest: nat)
    requires
        n >= 1,
        forall|t: int|
            0 <= t < n ==> #[trigger] parts(t).len() == if t == 0 {
                first
            } else {
                rest
            },
    ensures
        concat(parts, n).len() == first + (n - 1) * rest,
    decreases n,
{
    if n == 1 {
        reveal_with_fuel(concat, 2);
        assert(parts(0).len() == first);
        assert(0 * rest == 0);
    } else {
        lemma_concat_len(parts, n - 1, first, rest);
        assert(parts(n - 1).len() == rest);
        assert((n - 1) * rest == (n - 2) * rest + rest) by (nonlinear_arith);
    }
}

proof fn lemma_range_count(v: Seq<int>, delta: int)
    requires
        0 <= delta < 64,
        delta != 16,
        delta != 32,
        delta != 48,
        v.len() == rotation_sizes(delta).len(),
    ensures
        chunk_ranges(v, sizes_of(rotation_sizes(delta))).len() == if delta == 0 {
            0nat
        } else {
            10nat
        },
{
    reveal_with_fuel(chunk_ranges, 7);
}

/// The layer of the rounds; `out` is the first evaluation of the outputs and `wit` that of the
/// witnesses.
pub open spec fn is_round_layer(layer: Layer, out: int, wit: int) -> bool {
    let pairs = layer.rotation_exprs.pairs@;
    &&& layer.name@ == "Rounds"@
    &&& layer.ty == LayerType::Zerocheck
    &&& forall|i: int| 0 <= i < layer.exprs@.len() ==> plain(#[trigger] layer.exprs@[i])
    &&& all_linear(layer.exprs@)
    &&& forall|row: Seq<Goldilocks>| #[trigger] expr_values(layer.exprs@, row) == round_values(row)
    &&& layer.challenges@.len() == 0
    &&& layer.in_eval_expr@ == singles(wit, KECCAK_WIT_SIZE as nat)
    &&& layer.expr_evals@.len() == 1
    &&& layer.expr_evals@[0].eq == Some(Expression::WitIn(1464))
    &&& layer.expr_evals@[0].evals@ == zero_evals(160) + singles(out, KECCAK_OUT_EVAL_SIZE as nat)
    // the state before the next round is the state after this one
    &&& layer.rotation_exprs.eqs == Some(
        (Expression::WitIn(1465), Expression::WitIn(1466), Expression::WitIn(1467)),
    )
    &&& pairs.len() == KECCAK_LAYER_BYTE_SIZE
    &&& forall|i: int|
        0 <= i < KECCAK_LAYER_BYTE_SIZE ==> #[trigger] pairs[i] == (
            Expression::WitIn(i as u16),
            Expression::WitIn((IOTA + i) as u16),
        )
    &&& layer.rotation_cyclic_group_log2 == 5
    &&& layer.rotation_cyclic_subgroup_size == 23
    &&& texts(layer.expr_names@) == round_names()
    &&& layer.max_expr_degree == capped(
        spec_max_degree(layer.exprs@, layer.exprs@.len() as int),
    )
}

/// The constraints and lookups of a round.
fn build_system(out: usize) -> (r: ConstraintSystem)
    requires
        out + KECCAK_OUT_EVAL_SIZE <= usize::MAX,
    ensures
        r.wf(),
        r.linear(),
        r.evals@ == zero_evals(160) + singles(out as int, KECCAK_OUT_EVAL_SIZE as nat),
        texts(r.expr_names@) == round_names(),
        forall|row: Seq<Goldilocks>| #[trigger] r.values(row) == round_values(row),
        forall|row: Seq<Goldilocks>| #[trigger] r.ands(row) == round_ands(row),
        forall|row: Seq<Goldilocks>| #[trigger] r.xors(row) == round_xors(row),
        forall|row: Seq<Goldilocks>| #[trigger] r.ranges(row) == round_ranges(row),
{
    let mut system = build_lookups();
    let ghost looked = system;
    proof {
        let row = Seq::<Goldilocks>::empty();
        lemma_counts(row);
        assert(looked.ands(row).len() == 200 && looked.xors(row).len() == 608
            && looked.ranges(row).len() == 290);
    }
    output_halves(&mut system, IOTA, out, "output: ");
    let ghost with_outputs = system;
    output_halves(&mut system, 0, out + 50, "input: ");
    let ghost with_inputs = system;
    output_triples(&mut system, Table::And, out + 100, 0);
    let ghost with_ands = system;
    output_triples(&mut system, Table::Xor, out + 700, 600);
    let ghost with_xors = system;
    output_ranges(&mut system, out + 2524, 2424);
    proof {
        assert(system.evals@ =~= zero_evals(160) + singles(out as int, 2814));
        reveal(round_names);
        assert(texts(system.expr_names@) =~= round_names());
        assert forall|row: Seq<Goldilocks>| #[trigger] system.values(row) == round_values(row) by {
            assert(looked.values(row) == round_zeros(row));
            assert(with_outputs.values(row) == looked.values(row) + Seq::new(
                50,
                |t: int| half_lane(row, IOTA as int, t),
            ));
            assert(with_inputs.values(row) == with_outputs.values(row) + Seq::new(
                50,
                |t: int| half_lane(row, 0, t),
            ));
            assert(looked.ands(row) == round_ands(row));
            assert(looked.xors(row) == round_xors(row));
            assert(looked.ranges(row) == round_ranges(row));
            assert(with_inputs.ands(row) == round_ands(row));
            assert(with_ands.values(row) == with_inputs.values(row) + flat(round_ands(row)));
            assert(with_ands.xors(row) == round_xors(row));
            assert(with_xors.values(row) == with_ands.values(row) + flat(round_xors(row)));
            assert(with_xors.ranges(row) == round_ranges(row));
        }
        assert forall|row: Seq<Goldilocks>| #[trigger] system.ands(row) == round_ands(row) by {
            assert(looked.ands(row) == round_ands(row));
        }
        assert forall|row: Seq<Goldilocks>| #[trigger] system.xors(row) == round_xors(row) by {
            assert(looked.xors(row) == round_xors(row));
        }
        assert forall|row: Seq<Goldilocks>| #[trigger] system.ranges(row) == round_ranges(row) by {
            assert(looked.ranges(row) == round_ranges(row));
        }
    }
    system
}

/// The constraints and lookups without the outputs.
fn build_lookups() -> (r: ConstraintSystem)
    ensures
        r.wf(),
        r.linear(),
        r.evals@ == zero_evals(160),
        texts(r.expr_names@) == Seq::new(40, |t: int| "init c_aux"@) + Seq::new(
            20,
            |k: int| theta_name(k),
        ) + Seq::new(100, |k: int| rhopi_name(k)),
        forall|row: Seq<Goldilocks>| #[trigger] r.values(row) == round_zeros(row),
        forall|row: Seq<Goldilocks>| #[trigger] r.ands(row) == round_ands(row),
        forall|row: Seq<Goldilocks>| #[trigger] r.xors(row) == round_xors(row),
        forall|row: Seq<Goldilocks>| #[trigger] r.ranges(row) == round_ranges(row),
{
    let mut system = ConstraintSystem::new();
    let ghost s0 = system;
    constrain_c_aux(&mut system);
    let ghost s1 = system;
    lookup_c_aux(&mut system);
    let ghost s2 = system;
    constrain_theta_rotations(&mut system);
    let ghost s3 = system;
    lookup_d(&mut system);
    let ghost s4 = system;
    lookup_theta(&mut system);
    let ghost s5 = system;
    constrain_rhopi_rotations(&mut system);
    let ghost s6 = system;
    lookup_chi(&mut system);
    let ghost s7 = system;
    lookup_iota(&mut system);
    proof {
        reveal(round_zeros);
        reveal(round_ands);
        reveal(round_xors);
        reveal(round_ranges);
        assert(system.evals@ =~= zero_evals(160));
        reveal(texts);
        assert(texts(s0.expr_names@) =~= Seq::<Seq<char>>::empty());
        assert(texts(system.expr_names@) =~= Seq::new(40, |t: int| "init c_aux"@) + Seq::new(
            20,
            |k: int| theta_name(k),
        ) + Seq::new(100, |k: int| rhopi_name(k)));
        assert forall|row: Seq<Goldilocks>| #[trigger] system.values(row) == round_zeros(row) by {
            assert(s1.values(row) == s0.values(row) + Seq::new(40, |t: int| c_aux_zero(row, t)));
            assert(s2.values(row) == s1.values(row));
            assert(s3.values(row) == s2.values(row) + concat(|t: int| theta_rotation(row, t), 5));
            assert(s5.values(row) == s3.values(row));
            assert(s6.values(row) == s5.values(row) + concat(|t: int| rhopi_rotation(row, t), 25));
            assert(system.values(row) == s6.values(row));
            assert(system.values(row) =~= round_zeros(row));
        }
        assert forall|row: Seq<Goldilocks>| #[trigger] system.ands(row) == round_ands(row) by {
            assert(s6.ands(row) == s0.ands(row));
            assert(s7.ands(row) == s6.ands(row) + Seq::new(200, |t: int| chi_and(row, t)));
            assert(system.ands(row) == s7.ands(row));
            assert(system.ands(row) =~= round_ands(row));
        }
        assert forall|row: Seq<Goldilocks>| #[trigger] system.xors(row) == round_xors(row) by {
            assert(s1.xors(row) == s0.xors(row));
            assert(s2.xors(row) == s1.xors(row) + Seq::new(160, |t: int| c_aux_xor(row, t)));
            assert(s3.xors(row) == s2.xors(row));
            assert(s4.xors(row) == s3.xors(row) + Seq::new(40, |t: int| d_xor(row, t)));
            assert(s5.xors(row) == s4.xors(row) + Seq::new(200, |t: int| theta_xor(row, t)));
            assert(s6.xors(row) == s5.xors(row));
            assert(s7.xors(row) == s6.xors(row) + Seq::new(200, |t: int| chi_xor(row, t)));
            assert(system.xors(row) =~= round_xors(row));
        }
        assert forall|row: Seq<Goldilocks>| #[trigger] system.ranges(row) == round_ranges(row) by {
            assert(s2.ranges(row) == s0.ranges(row));
            assert(s3.ranges(row) == s2.ranges(row) + concat(|t: int| theta_ranges(row, t), 5));
            assert(s5.ranges(row) == s3.ranges(row));
            assert(s6.ranges(row) == s5.ranges(row) + concat(|t: int| rhopi_ranges(row, t), 25));
            assert(system.ranges(row) == s6.ranges(row));
            assert(system.ranges(row) =~= round_ranges(row));
        }
    }
    system
}

#[derive(Clone, Copy, Debug)]
pub struct KeccakParams {}

/// Where the parts of a row are committed.
#[derive(Debug)]
pub struct KeccakLayout {
    pub input8: Vec<usize>,
    pub c_aux: Vec<usize>,
    pub c_temp: Vec<usize>,
    pub c_rot: Vec<usize>,
    pub d: Vec<usize>,
    pub theta_output: Vec<usize>,
    pub rotation_witness: Vec<usize>,
    pub rhopi_output: Vec<usize>,
    pub nonlinear: Vec<usize>,
    pub chi_output: Vec<usize>,
    pub iota_output: Vec<usize>,
}

/// Consecutive indices.
pub open spec fn indices(from: int, n: nat) -> Seq<usize> {
    Seq::new(n, |i: int| (from + i) as usize)
}

/// Consecutive indices.
pub fn index_range(from: usize, n: usize) -> (r: Vec<usize>)
    requires
        from + n <= usize::MAX,
    ensures
        r@ == indices(from as int, n as nat),
{
    let mut r: Vec<usize> = Vec::with_capacity(n);
    let mut i: usize = 0;
    while i < n
        invariant
            i <= n,
            from + n <= usize::MAX,
            r@ == indices(from as int, i as nat),
        decreases n - i,
    {
        r.push(from + i);
        i = i + 1;
        assert(r@ =~= indices(from as int, i as nat));
    }
    r
}

impl KeccakLayout {
    /// The parts are committed from `base` on, in the order of the columns.
    pub open spec fn committed_at(&self, base: int) -> bool {
        &&& self.input8@ == indices(base, 200)
        &&& self.c_aux@ == indices(base + C_AUX, 200)
        &&& self.c_temp@ == indices(base + C_TEMP, 30)
        &&& self.c_rot@ == indices(base + C_ROT, 40)
        &&& self.d@ == indices(base + D, 40)
        &&& self.theta_output@ == indices(base + THETA, 200)
        &&& self.rotation_witness@ == indices(base + SPLITS, 146)
        &&& self.rhopi_output@ == indices(base + RHOPI, 200)
        &&& self.nonlinear@ == indices(base + NONLINEAR, 200)
        &&& self.chi_output@ == indices(base + CHI, 8)
        &&& self.iota_output@ == indices(base + IOTA, 200)
    }

    pub fn init(_params: KeccakParams) -> (r: Self)
        ensures
            r.input8@.len() == 0,
            r.c_aux@.len() == 0,
            r.c_temp@.len() == 0,
            r.c_rot@.len() == 0,
            r.d@.len() == 0,
            r.theta_output@.len() == 0,
            r.rotation_witness@.len() == 0,
            r.rhopi_output@.len() == 0,
            r.nonlinear@.len() == 0,
            r.chi_output@.len() == 0,
            r.iota_output@.len() == 0,
    {
        KeccakLayout {
            input8: Vec::new(),
            c_aux: Vec::new(),
            c_temp: Vec::new(),
            c_rot: Vec::new(),
            d: Vec::new(),
            theta_output: Vec::new(),
            rotation_witness: Vec::new(),
            rhopi_output: Vec::new(),
            nonlinear: Vec::new(),
            chi_output: Vec::new(),
            iota_output: Vec::new(),
        }
    }

    /// Allocates the committed columns.
    pub fn build_commit_phase(&mut self, chip: &mut Chip)
        requires
            old(chip).n_committed + KECCAK_WIT_SIZE <= usize::MAX,
        ensures
            final(self).committed_at(old(chip).n_committed as int),
            *final(chip) == (Chip {
                n_committed: (old(chip).n_committed + KECCAK_WIT_SIZE) as usize,
                ..*old(chip)
            }),
    {
        let base: usize = chip.allocate_committed(KECCAK_WIT_SIZE);
        self.input8 = index_range(base, 200);
        self.c_aux = index_range(base + C_AUX, 200);
        self.c_temp = index_range(base + C_TEMP, 30);
        self.c_rot = index_range(base + C_ROT, 40);
        self.d = index_range(base + D, 40);
        self.theta_output = index_range(base + THETA, 200);
        self.rotation_witness = index_range(base + SPLITS, 146);
        self.rhopi_output = index_range(base + RHOPI, 200);
        self.nonlinear = index_range(base + NONLINEAR, 200);
        self.chi_output = index_range(base + CHI, 8);
        self.iota_output = index_range(base + IOTA, 200);
    }

    /// Builds the layer of the rounds.
    pub fn build_gkr_phase(&mut self, chip: &mut Chip)
        requires
            old(chip).n_evaluations + KECCAK_OUT_EVAL_SIZE + KECCAK_WIT_SIZE + 4 <= usize::MAX,
        ensures
            *final(self) == *old(self),
            final(chip).n_committed == old(chip).n_committed,
            final(chip).n_challenges == old(chip).n_challenges,
            final(chip).n_evaluations == old(chip).n_evaluations + KECCAK_OUT_EVAL_SIZE
                + KECCAK_WIT_SIZE + 4,
            final(chip).final_out_evals@ == old(chip).final_out_evals@ + indices(
                old(chip).n_evaluations as int,
                KECCAK_OUT_EVAL_SIZE as nat,
            ),
            final(chip).openings@ == old(chip).openings@ + Seq::new(
                KECCAK_WIT_SIZE as nat,
                |i: int|
                    (
                        i as usize,
                        EvalExpression::Single(
                            (old(chip).n_evaluations + KECCAK_OUT_EVAL_SIZE + i) as usize,
                        ),
                    ),
            ),
            final(chip).layers@.len() == old(chip).layers@.len() + 1,
            final(chip).layers@.drop_last() == old(chip).layers@,
            is_round_layer(
                final(chip).layers@.last(),
                old(chip).n_evaluations as int,
                old(chip).n_evaluations + KECCAK_OUT_EVAL_SIZE,
            ),
    {
        let out: usize = chip.allocate_output_evals(KECCAK_OUT_EVAL_SIZE);
        let first_wit: usize = chip.allocate_wits_in_zero_layer(KECCAK_WIT_SIZE, 4);
        open_witnesses(chip, first_wit);
        let system = build_system(out);
        let mut pairs: Vec<(Expression, Expression)> = Vec::with_capacity(KECCAK_LAYER_BYTE_SIZE);
        let mut i: usize = 0;
        while i < KECCAK_LAYER_BYTE_SIZE
            invariant
                i <= KECCAK_LAYER_BYTE_SIZE,
                pairs@.len() == i,
                forall|j: int|
                    0 <= j < i ==> #[trigger] pairs@[j] == (
                        Expression::WitIn(j as u16),
                        Expression::WitIn((IOTA + j) as u16),
                    ),
            decreases KECCAK_LAYER_BYTE_SIZE - i,
        {
            pairs.push((Expression::WitIn(i as u16), Expression::WitIn((IOTA + i) as u16)));
            i = i + 1;
        }
        let ghost exprs = system.expressions@;
        let ConstraintSystem { expressions, expr_names, evals, .. } = system;
        let mut groups: Vec<OutputGroup> = Vec::new();
        groups.push(OutputGroup { eq: Some(Expression::WitIn(1464)), evals });
        let layer = Layer::new(
            "Rounds".to_owned(),
            LayerType::Zerocheck,
            expressions,
            Vec::new(),
            single_evals(first_wit, KECCAK_WIT_SIZE),
            groups,
            RotationExprs {
                eqs: Some(
                    (Expression::WitIn(1465), Expression::WitIn(1466), Expression::WitIn(1467)),
                ),
                pairs,
            },
            ROUNDS_CEIL_LOG2,
            ROUNDS - 1,
            expr_names,
        );
        proof {
            reveal(ConstraintSystem::linear);
            assert forall|row: Seq<Goldilocks>| #[trigger] expr_values(layer.exprs@, row)
                == round_values(row) by {
                assert(system.values(row) == round_values(row));
            }
        }
        chip.add_layer(layer);
        assert(chip.layers@.drop_last() =~= old(chip).layers@);
    }
}

/// Each witness opens a committed column.
fn open_witnesses(chip: &mut Chip, first: usize)
    requires
        first + KECCAK_WIT_SIZE <= usize::MAX,
    ensures
        final(chip).openings@ == old(chip).openings@ + Seq::new(
            KECCAK_WIT_SIZE as nat,
            |i: int| (i as usize, EvalExpression::Single((first + i) as usize)),
        ),
        final(chip).n_committed == old(chip).n_committed,
        final(chip).n_challenges == old(chip).n_challenges,
        final(chip).n_evaluations == old(chip).n_evaluations,
        final(chip).final_out_evals == old(chip).final_out_evals,
        final(chip).layers == old(chip).layers,
{
    let ghost before = chip.openings@;
    let mut i: usize = 0;
    assert(chip.openings@ =~= before + Seq::new(
        0,
        |i: int| (i as usize, EvalExpression::Single((first + i) as usize)),
    ));
    while i < KECCAK_WIT_SIZE
        invariant
            i <= KECCAK_WIT_SIZE,
            first + KECCAK_WIT_SIZE <= usize::MAX,
            chip.n_committed == old(chip).n_committed,
            chip.n_challenges == old(chip).n_challenges,
            chip.n_evaluations == old(chip).n_evaluations,
            chip.final_out_evals == old(chip).final_out_evals,
            chip.layers == old(chip).layers,
            chip.openings@ == before + Seq::new(
                i as nat,
                |i: int| (i as usize, EvalExpression::Single((first + i) as usize)),
            ),
        decreases KECCAK_WIT_SIZE - i,
    {
        chip.allocate_opening(i, EvalExpression::Single(first + i));
        i = i + 1;
        assert(chip.openings@ =~= before + Seq::new(
            i as nat,
            |i: int| (i as usize, EvalExpression::Single((first + i) as usize)),
        ));
    }
}

/// The circuit of the rounds and its layout.
pub open spec fn is_keccak_chip(layout: KeccakLayout, chip: Chip) -> bool {
    &&& layout.committed_at(0)
    &&& chip.n_committed == KECCAK_WIT_SIZE
    &&& chip.n_challenges == 0
    &&& chip.n_evaluations == KECCAK_OUT_EVAL_SIZE + KECCAK_WIT_SIZE + 4
    &&& chip.final_out_evals@ == indices(0, KECCAK_OUT_EVAL_SIZE as nat)
    &&& chip.openings@ == Seq::new(
        KECCAK_WIT_SIZE as nat,
        |i: int| (i as usize, EvalExpression::Single((KECCAK_OUT_EVAL_SIZE + i) as usize)),
    )
    &&& chip.layers@.len() == 1
    &&& is_round_layer(chip.layers@[0], 0, KECCAK_OUT_EVAL_SIZE as int)
}

/// The layout and the circuit.
pub fn setup_gkr_circuit() -> (r: (KeccakLayout, Chip))
    ensures
        is_keccak_chip(r.0, r.1),
{
    let mut chip = Chip::new();
    let mut layout = KeccakLayout::init(KeccakParams {  });
    layout.build_commit_phase(&mut chip);
    layout.build_gkr_phase(&mut chip);
    proof {
        assert(chip.final_out_evals@ =~= indices(0, KECCAK_OUT_EVAL_SIZE as nat));
        assert(chip.openings@ =~= Seq::new(
            KECCAK_WIT_SIZE as nat,
            |i: int|
                (i as usize, EvalExpression::Single((KECCAK_OUT_EVAL_SIZE + i) as usize)),
        ));
    }
    (layout, chip)
}

} // verus!
