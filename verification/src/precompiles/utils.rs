//! Lookups and expressions on chunks of bits.
use vstd::arithmetic::div_mod::*;
use vstd::arithmetic::power2::*;
use vstd::prelude::*;

use crate::circuit::plain::{constant, lemma_plain_value, minus, plain, plus, times, value};
use crate::expression::laws::lemma_degree_ops;
use crate::expression::{base_const, Expression};
use crate::field::{f_add, f_mul, f_sub, group_field, modulus, Goldilocks};
use crate::precompiles::words::{expand, total_bits, two_to};

verus! {

broadcast use group_field;

/// A lookup in one of the fixed tables.
#[derive(Debug)]
pub enum CenoLookup {
    /// The third byte is the conjunction of the others
    And(Expression, Expression, Expression),
    /// The third byte is the exclusive disjunction of the others
    Xor(Expression, Expression, Expression),
    /// A 16-bit value
    U16(Expression),
}

/// The complement of a byte.
pub fn not8_expr(expr: Expression) -> (r: Expression)
    requires
        plain(expr),
    ensures
        r == base_const(255).spec_sub(expr),
        plain(r),
        forall|row: Seq<Goldilocks>| #[trigger] value(r, row) == f_sub(255, value(expr, row)),
{
    minus(constant(0xff), expr)
}

/// The sizes of the chunks of a representation.
pub open spec fn rep_sizes(rep: Seq<(usize, Expression)>) -> Seq<nat> {
    rep.map_values(|e: (usize, Expression)| e.0 as nat)
}

/// The values of the chunks of a representation.
pub open spec fn rep_values(rep: Seq<(usize, Expression)>, row: Seq<Goldilocks>) -> Seq<int> {
    rep.map_values(|e: (usize, Expression)| value(e.1, row))
}

/// The chunks are plain and small.
pub open spec fn rep_wf(rep: Seq<(usize, Expression)>) -> bool {
    forall|i: int| 0 <= i < rep.len() ==> (#[trigger] rep[i]).0 <= 32 && plain(rep[i].1)
}

proof fn lemma_horner(acc: int, e: int, p: int, v: int)
    requires
        acc == e % modulus(),
        0 < p < modulus(),
    ensures
        f_add(f_mul(acc, p), v) == (v + p * e) % modulus(),
{
    let m = modulus();
    lemma_mul_mod_noop_left(e, p, m);
    assert(e * p + v == v + p * e) by (nonlinear_arith);
    lemma_mod_twice(e * p, m);
    lemma_add_mod_noop(e * p, v, m);
    lemma_add_mod_noop(acc * p, v, m);
}

/// The expression of the number that chunks spell, the first chunk least significant.
pub open spec fn expansion(rep: Seq<(usize, Expression)>) -> Expression
    decreases rep.len(),
{
    if rep.len() == 0 {
        base_const(0)
    } else {
        expansion(rep.drop_first()).spec_mul(base_const(pow2(rep[0].0 as nat) as int)).spec_add(
            rep[0].1,
        )
    }
}

/// The chunks are linear.
pub open spec fn rep_linear(rep: Seq<(usize, Expression)>) -> bool {
    forall|i: int| 0 <= i < rep.len() ==> (#[trigger] rep[i]).1.spec_degree() <= 1
}

/// What linear chunks spell is linear.
pub proof fn lemma_expansion_linear(rep: Seq<(usize, Expression)>)
    requires
        rep_linear(rep),
    ensures
        expansion(rep).spec_degree() <= 1,
    decreases rep.len(),
{
    if rep.len() > 0 {
        let rest = rep.drop_first();
        assert forall|i: int| 0 <= i < rest.len() implies (#[trigger] rest[i]).1.spec_degree()
            <= 1 by {
            assert(rep[i + 1].1.spec_degree() <= 1);
        }
        lemma_expansion_linear(rest);
        let p = base_const(pow2(rep[0].0 as nat) as int);
        assert(rep[0].1.spec_degree() <= 1);
        lemma_degree_ops(expansion(rest), p);
        lemma_degree_ops(expansion(rest).spec_mul(p), rep[0].1);
    }
}

/// The number that the chunks spell; they have `size` bits together.
pub fn expansion_expr(expansion: &[(usize, Expression)], size: usize) -> (r: Expression)
    requires
        rep_wf(expansion@),
        total_bits(rep_sizes(expansion@)) == size,
    ensures
        r == self::expansion(expansion@),
        plain(r),
        forall|row: Seq<Goldilocks>| #[trigger]
            value(r, row) == expand(rep_values(expansion@, row), rep_sizes(expansion@)) % modulus(),
{
    let ghost rep = expansion@;
    let ghost sizes = rep_sizes(rep);
    let mut acc = constant(0);
    let mut i: usize = expansion.len();
    assert(sizes.skip(i as int).len() == 0);
    while i > 0
        invariant
            i <= rep.len(),
            rep == expansion@,
            rep_wf(rep),
            sizes == rep_sizes(rep),
            acc == self::expansion(rep.skip(i as int)),
            plain(acc),
            forall|row: Seq<Goldilocks>| #[trigger]
                value(acc, row) == expand(
                    rep_values(rep, row).skip(i as int),
                    sizes.skip(i as int),
                ) % modulus(),
        decreases i,
    {
        let ghost before = acc;
        i = i - 1;
        let sz: usize = expansion[i].0;
        let chunk = expansion[i].1.clone();
        let p: u64 = two_to(sz);
        proof {
            lemma_pow2_pos(sz as nat);
            lemma2_to64();
            if sz < 32 {
                lemma_pow2_strictly_increases(sz as nat, 32);
            }
        }
        acc = plus(times(acc, constant(p)), chunk);
        proof {
            lemma_small_mod(p as nat, modulus() as nat);
            assert(rep.skip(i as int).drop_first() =~= rep.skip(i + 1));
            assert forall|row: Seq<Goldilocks>| #[trigger] value(acc, row) == expand(
                rep_values(rep, row).skip(i as int),
                sizes.skip(i as int),
            ) % modulus() by {
                let vals = rep_values(rep, row);
                let e = expand(vals.skip(i + 1), sizes.skip(i + 1));
                assert(vals.skip(i as int).drop_first() =~= vals.skip(i + 1));
                assert(sizes.skip(i as int).drop_first() =~= sizes.skip(i + 1));
                assert(value(before, row) == e % modulus());
                lemma_plain_value(chunk, row);
                lemma_horner(value(before, row), e, p as int, value(chunk, row));
            }
        }
    }
    proof {
        assert(rep.skip(0) =~= rep);
        assert(sizes.skip(0) =~= sizes);
        assert forall|row: Seq<Goldilocks>| #[trigger] value(acc, row) == expand(
            rep_values(rep, row),
            sizes,
        ) % modulus() by {
            assert(rep_values(rep, row).skip(0) =~= rep_values(rep, row));
        }
    }
    acc
}

} // verus!
