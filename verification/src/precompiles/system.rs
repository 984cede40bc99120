//! Constraints and lookups on words in bytes and in chunks of bits, and rotations of words.
use vstd::arithmetic::div_mod::*;
use vstd::arithmetic::power2::*;
use vstd::prelude::*;
use vstd::slice::slice_subrange;

use crate::circuit::plain::{constant, minus, plain, times, value};
use crate::expression::laws::lemma_degree_ops;
use crate::expression::{base_const, Expression};
use crate::field::{f_mul, f_sub, group_field, modulus, Goldilocks};
use crate::gkr::EvalExpression;
use crate::precompiles::utils::{
    expansion, expansion_expr, lemma_expansion_linear, rep_linear, rep_sizes, rep_values, rep_wf,
    CenoLookup,
};
use crate::precompiles::words::{
    byte_sizes, bytes, chunks_fit, expand, lemma_byte_sizes, lemma_expand_append,
    lemma_expand_bound, lemma_expand_split, lemma_rotl, lemma_split_expand, lemma_split_fits,
    lemma_word_bytes, rotl, sizes_of, split, total_bits, two_to, word,
};
use crate::text::{append, decimal, decimal_text};

verus! {

broadcast use group_field;

/// The sizes of the chunks in which a word is split for a rotation by `delta`, the first chunk
/// least significant.
pub open spec fn rotation_sizes(delta: int) -> Seq<usize> {
    let e = (if delta < 32 {
        delta
    } else {
        delta - 32
    }) as usize;
    if e == 0 {
        seq![32usize, 32]
    } else if e < 16 {
        seq![16usize, (16 - e) as usize, e, 16, (16 - e) as usize, e]
    } else if e == 16 {
        seq![16usize, 16, 16, 16]
    } else {
        seq![(32 - e) as usize, 16, (e - 16) as usize, (32 - e) as usize, 16, (e - 16) as usize]
    }
}

/// How many of the last chunks make up the upper `delta` bits.
pub open spec fn rotation_suffix(delta: int) -> int {
    if delta == 0 {
        0
    } else if delta < 16 {
        1
    } else if delta == 16 {
        1
    } else if delta < 32 {
        2
    } else if delta == 32 {
        1
    } else if delta < 48 {
        4
    } else if delta == 48 {
        3
    } else {
        5
    }
}

/// Computes an adequate split of 64 bits into chunks for a rotation by `delta`: the sizes of the
/// chunks, and the number of chunks of the suffix that needs to be rotated.
pub fn rotation_split(delta: usize) -> (r: (Vec<usize>, usize))
    ensures
        r.0@ == rotation_sizes(delta as int % 64),
        r.1 == rotation_suffix(delta as int % 64),
{
    let delta: usize = delta % 64;
    if delta == 0 {
        let sizes: Vec<usize> = vec![32, 32];
        assert(sizes@ =~= rotation_sizes(0));
        return (sizes, 0);
    }
    if delta == 32 {
        let sizes: Vec<usize> = vec![32, 32];
        assert(sizes@ =~= rotation_sizes(32));
        return (sizes, 1);
    }
    let e: usize = if delta < 32 {
        delta
    } else {
        delta - 32
    };
    let upper: bool = delta > 32;
    // chunks of at most 16 bits
    let (sizes, short): (Vec<usize>, usize) = if e < 16 {
        let rest: usize = 16 - e;
        (vec![16, rest, e, 16, rest, e], 1)
    } else if e == 16 {
        (vec![16, 16, 16, 16], 1)
    } else {
        let low: usize = 32 - e;
        let rest: usize = e - 16;
        (vec![low, 16, rest, low, 16, rest], 2)
    };
    let suffix: usize = if upper {
        short + sizes.len() / 2
    } else {
        short
    };
    assert(sizes@ =~= rotation_sizes(delta as int));
    (sizes, suffix)
}

/// The last `k` entries moved to the front.
pub open spec fn rotate_right<T>(s: Seq<T>, k: int) -> Seq<T> {
    s.skip(s.len() - k) + s.take(s.len() - k)
}

/// The total of at most six sizes.
proof fn lemma_total_small(s: Seq<nat>)
    requires
        s.len() <= 6,
    ensures
        total_bits(s) == (if s.len() > 0 {
            s[0]
        } else {
            0
        }) + (if s.len() > 1 {
            s[1]
        } else {
            0
        }) + (if s.len() > 2 {
            s[2]
        } else {
            0
        }) + (if s.len() > 3 {
            s[3]
        } else {
            0
        }) + (if s.len() > 4 {
            s[4]
        } else {
            0
        }) + (if s.len() > 5 {
            s[5]
        } else {
            0
        }),
{
    reveal_with_fuel(total_bits, 7);
}

/// What makes a split fit for a rotation: the suffix has `delta` bits, and both the chunks and the
/// rotated chunks have a prefix of 32 bits. Each chunk has at most 16 bits, or all have exactly 32.
#[verifier::spinoff_prover]
#[verifier::rlimit(60)]
pub proof fn lemma_rotation_split(delta: int)
    requires
        0 <= delta < 64,
    ensures
        ({
            let s = sizes_of(rotation_sizes(delta));
            let n = s.len() as int;
            let k = rotation_suffix(delta);
            let r = rotate_right(s, k);
            &&& n == 2 || n == 4 || n == 6
            &&& 0 <= k < n
            &&& total_bits(s) == 64
            &&& total_bits(s.take(n / 2)) == 32
            &&& total_bits(s.skip(n / 2)) == 32
            &&& total_bits(s.take(n - k)) == 64 - delta
            &&& total_bits(s.skip(n - k)) == delta
            &&& total_bits(r.take(n / 2)) == 32
            &&& total_bits(r.skip(n / 2)) == 32
            &&& delta % 32 != 0 ==> forall|i: int| 0 <= i < n ==> 0 < #[trigger] s[i] <= 16
            &&& delta % 32 == 0 ==> s == seq![32nat, 32]
        }),
{
    let s = sizes_of(rotation_sizes(delta));
    let n = s.len() as int;
    let k = rotation_suffix(delta);
    let r = rotate_right(s, k);
    lemma_total_small(s);
    lemma_total_small(s.take(n / 2));
    lemma_total_small(s.skip(n / 2));
    lemma_total_small(s.take(n - k));
    lemma_total_small(s.skip(n - k));
    lemma_total_small(r.take(n / 2));
    lemma_total_small(r.skip(n / 2));
}

/// Constraints and lookups that are evaluated on one row.
#[derive(Debug)]
pub struct ConstraintSystem {
    // expressions that are zero and others, told apart by the evaluations
    pub expressions: Vec<Expression>,
    pub expr_names: Vec<String>,
    pub evals: Vec<EvalExpression>,
    pub and_lookups: Vec<CenoLookup>,
    pub xor_lookups: Vec<CenoLookup>,
    pub range_lookups: Vec<CenoLookup>,
}

/// The texts of names.
#[verifier::opaque]
pub open spec fn texts(names: Seq<String>) -> Seq<Seq<char>> {
    names.map_values(|name: String| name@)
}

proof fn lemma_texts_push(names: Seq<String>, name: String)
    ensures
        texts(names.push(name)) == texts(names).push(name@),
{
    reveal(texts);
    assert(texts(names.push(name)) =~= texts(names).push(name@));
}

/// Numbers with commas between them.
pub open spec fn list_items(s: Seq<usize>) -> Seq<char>
    decreases s.len(),
{
    if s.len() == 0 {
        Seq::empty()
    } else if s.len() == 1 {
        decimal_text(s[0] as nat)
    } else {
        list_items(s.drop_last()) + ", "@ + decimal_text(s.last() as nat)
    }
}

/// A list of numbers.
pub open spec fn list_text(s: Seq<usize>) -> Seq<char> {
    "["@ + list_items(s) + "]"@
}

fn list(s: &Vec<usize>) -> (r: String)
    ensures
        r@ == list_text(s@),
{
    let mut items = "".to_owned();
    let mut i: usize = 0;
    proof {
        reveal_strlit("");
        assert(items@ =~= list_items(s@.take(0)));
    }
    while i < s.len()
        invariant
            i <= s@.len(),
            items@ == list_items(s@.take(i as int)),
        decreases s@.len() - i,
    {
        let number = decimal(s[i] as u64);
        assert(s@.take(i + 1).drop_last() =~= s@.take(i as int));
        if i == 0 {
            items = number;
        } else {
            items = append(append(items, ", "), number.as_str());
        }
        i = i + 1;
    }
    assert(s@.take(i as int) =~= s@);
    append(append("[".to_owned(), items.as_str()), "]")
}

/// The name of a constraint on a half of the representations of a word.
#[verifier::opaque]
pub open spec fn half_text(
    label: Seq<char>,
    half: int,
    moved: int,
    delta: int,
    sizes: Seq<usize>,
) -> Seq<char> {
    "rotation internal "@ + label + ", round "@ + decimal_text(half as nat) + ", rot: "@
        + decimal_text(moved as nat) + ", delta: "@ + decimal_text(delta as nat) + ", "@
        + list_text(sizes)
}

fn half_name(label: &str, half: usize, moved: usize, delta: usize, sizes: &Vec<usize>) -> (r: String)
    ensures
        r@ == half_text(label@, half as int, moved as int, delta as int, sizes@),
{
    proof {
        reveal(half_text);
    }
    let a = append(append("rotation internal ".to_owned(), label), ", round ");
    let b = append(append(a, decimal(half as u64).as_str()), ", rot: ");
    let c = append(append(b, decimal(moved as u64).as_str()), ", delta: ");
    let d = append(append(c, decimal(delta as u64).as_str()), ", ");
    append(d, list(sizes).as_str())
}

/// The names of the four constraints of a rotation: on the halves of the word, then on those of the
/// rotated word.
#[verifier::opaque]
pub open spec fn rotation_text(label: Seq<char>, delta: int, k: int) -> Seq<char> {
    half_text(
        label,
        k % 2,
        if k < 2 {
            0
        } else {
            rotation_suffix(delta % 64)
        },
        delta,
        rotation_sizes(delta % 64),
    )
}

proof fn lemma_rotation_texts(names: Seq<Seq<char>>, label: Seq<char>, delta: int)
    ensures
        ({
            let (sizes, moved) = (rotation_sizes(delta % 64), rotation_suffix(delta % 64));
            names + seq![
                half_text(label, 0, 0, delta, sizes),
                half_text(label, 1, 0, delta, sizes),
            ] + seq![
                half_text(label, 0, moved, delta, sizes),
                half_text(label, 1, moved, delta, sizes),
            ] == names + Seq::new(4, |k: int| rotation_text(label, delta, k))
        }),
{
    reveal(rotation_text);
    let (sizes, moved) = (rotation_sizes(delta % 64), rotation_suffix(delta % 64));
    assert(names + seq![
        half_text(label, 0, 0, delta, sizes),
        half_text(label, 1, 0, delta, sizes),
    ] + seq![half_text(label, 0, moved, delta, sizes), half_text(label, 1, moved, delta, sizes)]
        =~= names + Seq::new(4, |k: int| rotation_text(label, delta, k)));
}

/// Three values that are looked up together.
pub open spec fn lookup_triple(l: CenoLookup, row: Seq<Goldilocks>) -> (int, int, int) {
    match l {
        CenoLookup::And(a, b, c) => (value(a, row), value(b, row), value(c, row)),
        CenoLookup::Xor(a, b, c) => (value(a, row), value(b, row), value(c, row)),
        CenoLookup::U16(a) => (value(a, row), 0, 0),
    }
}

pub open spec fn plain_lookup(l: CenoLookup) -> bool {
    match l {
        CenoLookup::And(a, b, c) => plain(a) && plain(b) && plain(c),
        CenoLookup::Xor(a, b, c) => plain(a) && plain(b) && plain(c),
        CenoLookup::U16(a) => plain(a),
    }
}

/// What is looked up is linear.
pub open spec fn linear_lookup(l: CenoLookup) -> bool {
    match l {
        CenoLookup::And(a, b, c) => a.spec_degree() <= 1 && b.spec_degree() <= 1
            && c.spec_degree() <= 1,
        CenoLookup::Xor(a, b, c) => a.spec_degree() <= 1 && b.spec_degree() <= 1
            && c.spec_degree() <= 1,
        CenoLookup::U16(a) => a.spec_degree() <= 1,
    }
}

impl ConstraintSystem {
    pub open spec fn wf(&self) -> bool {
        &&& self.evals@.len() == self.expressions@.len()
        &&& self.expr_names@.len() == self.expressions@.len()
        &&& forall|i: int| 0 <= i < self.expressions@.len() ==> plain(#[trigger] self.expressions@[i])
        &&& forall|i: int|
            0 <= i < self.and_lookups@.len() ==> (#[trigger] self.and_lookups@[i]) is And
                && plain_lookup(self.and_lookups@[i])
        &&& forall|i: int|
            0 <= i < self.xor_lookups@.len() ==> (#[trigger] self.xor_lookups@[i]) is Xor
                && plain_lookup(self.xor_lookups@[i])
        &&& forall|i: int|
            0 <= i < self.range_lookups@.len() ==> (#[trigger] self.range_lookups@[i]) is U16
                && plain_lookup(self.range_lookups@[i])
    }

    /// The expressions and what is looked up are linear.
    #[verifier::opaque]
    pub open spec fn linear(&self) -> bool {
        &&& forall|i: int|
            0 <= i < self.expressions@.len() ==> (#[trigger] self.expressions@[i]).spec_degree()
                <= 1
        &&& forall|i: int|
            0 <= i < self.and_lookups@.len() ==> linear_lookup(#[trigger] self.and_lookups@[i])
        &&& forall|i: int|
            0 <= i < self.xor_lookups@.len() ==> linear_lookup(#[trigger] self.xor_lookups@[i])
        &&& forall|i: int|
            0 <= i < self.range_lookups@.len() ==> linear_lookup(
                #[trigger] self.range_lookups@[i],
            )
    }

    /// The values of the expressions at a row.
    pub open spec fn values(&self, row: Seq<Goldilocks>) -> Seq<int> {
        self.expressions@.map_values(|e: Expression| value(e, row))
    }

    /// The looked up conjunctions.
    pub open spec fn ands(&self, row: Seq<Goldilocks>) -> Seq<(int, int, int)> {
        self.and_lookups@.map_values(|l: CenoLookup| lookup_triple(l, row))
    }

    /// The looked up exclusive disjunctions.
    pub open spec fn xors(&self, row: Seq<Goldilocks>) -> Seq<(int, int, int)> {
        self.xor_lookups@.map_values(|l: CenoLookup| lookup_triple(l, row))
    }

    /// The looked up 16-bit values.
    pub open spec fn ranges(&self, row: Seq<Goldilocks>) -> Seq<int> {
        self.range_lookups@.map_values(|l: CenoLookup| lookup_triple(l, row).0)
    }

    /// The lookups are the same.
    pub open spec fn same_lookups(&self, other: &Self) -> bool {
        &&& self.and_lookups == other.and_lookups
        &&& self.xor_lookups == other.xor_lookups
        &&& self.range_lookups == other.range_lookups
    }

    /// The expressions are the same.
    pub open spec fn same_expressions(&self, other: &Self) -> bool {
        &&& self.expressions == other.expressions
        &&& self.expr_names == other.expr_names
        &&& self.evals == other.evals
    }

    pub fn new() -> (r: Self)
        ensures
            r.wf(),
            r.expressions@.len() == 0,
            r.expr_names@.len() == 0,
            r.and_lookups@.len() == 0,
            r.xor_lookups@.len() == 0,
            r.range_lookups@.len() == 0,
            r.evals@.len() == 0,
            r.linear(),
    {
        proof {
            reveal(ConstraintSystem::linear);
        }
        ConstraintSystem {
            expressions: Vec::new(),
            expr_names: Vec::new(),
            evals: Vec::new(),
            and_lookups: Vec::new(),
            xor_lookups: Vec::new(),
            range_lookups: Vec::new(),
        }
    }

    /// Adds an expression that is zero.
    pub fn add_zero_constraint(&mut self, expr: Expression, name: String)
        requires
            old(self).wf(),
            plain(expr),
        ensures
            final(self).wf(),
            final(self).same_lookups(old(self)),
            final(self).expressions@ == old(self).expressions@.push(expr),
            final(self).evals@ == old(self).evals@.push(EvalExpression::Zero),
            final(self).expr_names@ == old(self).expr_names@.push(name),
            texts(final(self).expr_names@) == texts(old(self).expr_names@).push(name@),
            forall|row: Seq<Goldilocks>| #[trigger]
                final(self).values(row) == old(self).values(row).push(value(expr, row)),
            old(self).linear() && expr.spec_degree() <= 1 ==> final(self).linear(),
    {
        self.add_non_zero_constraint(expr, EvalExpression::Zero, name);
    }

    /// Adds an expression whose value goes to an output.
    pub fn add_non_zero_constraint(
        &mut self,
        expr: Expression,
        eval: EvalExpression,
        name: String,
    )
        requires
            old(self).wf(),
            plain(expr),
        ensures
            final(self).wf(),
            final(self).same_lookups(old(self)),
            final(self).expressions@ == old(self).expressions@.push(expr),
            final(self).evals@ == old(self).evals@.push(eval),
            final(self).expr_names@ == old(self).expr_names@.push(name),
            texts(final(self).expr_names@) == texts(old(self).expr_names@).push(name@),
            forall|row: Seq<Goldilocks>| #[trigger]
                final(self).values(row) == old(self).values(row).push(value(expr, row)),
            old(self).linear() && expr.spec_degree() <= 1 ==> final(self).linear(),
    {
        self.expressions.push(expr);
        self.evals.push(eval);
        proof {
            reveal(ConstraintSystem::linear);
            lemma_texts_push(self.expr_names@, name);
        }
        self.expr_names.push(name);
        assert forall|row: Seq<Goldilocks>| #[trigger] self.values(row) == old(self).values(
            row,
        ).push(value(expr, row)) by {
            assert(self.values(row) =~= old(self).values(row).push(value(expr, row)));
        }
    }

    /// Looks up a conjunction of bytes.
    pub fn lookup_and8(&mut self, a: Expression, b: Expression, c: Expression)
        requires
            old(self).wf(),
            plain(a),
            plain(b),
            plain(c),
        ensures
            final(self).wf(),
            final(self).same_expressions(old(self)),
            final(self).and_lookups@ == old(self).and_lookups@.push(CenoLookup::And(a, b, c)),
            final(self).xor_lookups == old(self).xor_lookups,
            final(self).range_lookups == old(self).range_lookups,
            forall|row: Seq<Goldilocks>| #[trigger]
                final(self).ands(row) == old(self).ands(row).push(
                    (value(a, row), value(b, row), value(c, row)),
                ),
            old(self).linear() && linear_lookup(CenoLookup::And(a, b, c)) ==> final(self).linear(),
    {
        proof {
            reveal(ConstraintSystem::linear);
        }
        self.and_lookups.push(CenoLookup::And(a, b, c));
        assert forall|row: Seq<Goldilocks>| #[trigger] self.ands(row) == old(self).ands(row).push(
            (value(a, row), value(b, row), value(c, row)),
        ) by {
            assert(self.ands(row) =~= old(self).ands(row).push(
                (value(a, row), value(b, row), value(c, row)),
            ));
        }
    }

    /// Looks up an exclusive disjunction of bytes.
    pub fn lookup_xor8(&mut self, a: Expression, b: Expression, c: Expression)
        requires
            old(self).wf(),
            plain(a),
            plain(b),
            plain(c),
        ensures
            final(self).wf(),
            final(self).same_expressions(old(self)),
            final(self).and_lookups == old(self).and_lookups,
            final(self).xor_lookups@ == old(self).xor_lookups@.push(CenoLookup::Xor(a, b, c)),
            final(self).range_lookups == old(self).range_lookups,
            forall|row: Seq<Goldilocks>| #[trigger]
                final(self).xors(row) == old(self).xors(row).push(
                    (value(a, row), value(b, row), value(c, row)),
                ),
            old(self).linear() && linear_lookup(CenoLookup::Xor(a, b, c)) ==> final(self).linear(),
    {
        proof {
            reveal(ConstraintSystem::linear);
        }
        self.xor_lookups.push(CenoLookup::Xor(a, b, c));
        assert forall|row: Seq<Goldilocks>| #[trigger] self.xors(row) == old(self).xors(row).push(
            (value(a, row), value(b, row), value(c, row)),
        ) by {
            assert(self.xors(row) =~= old(self).xors(row).push(
                (value(a, row), value(b, row), value(c, row)),
            ));
        }
    }

    fn lookup_u16(&mut self, v: Expression)
        requires
            old(self).wf(),
            plain(v),
        ensures
            final(self).wf(),
            final(self).same_expressions(old(self)),
            final(self).and_lookups == old(self).and_lookups,
            final(self).xor_lookups == old(self).xor_lookups,
            final(self).range_lookups@ == old(self).range_lookups@.push(CenoLookup::U16(v)),
            forall|row: Seq<Goldilocks>| #[trigger]
                final(self).ranges(row) == old(self).ranges(row).push(value(v, row)),
            old(self).linear() && v.spec_degree() <= 1 ==> final(self).linear(),
    {
        proof {
            reveal(ConstraintSystem::linear);
        }
        self.range_lookups.push(CenoLookup::U16(v));
        assert forall|row: Seq<Goldilocks>| #[trigger] self.ranges(row) == old(self).ranges(
            row,
        ).push(value(v, row)) by {
            assert(self.ranges(row) =~= old(self).ranges(row).push(value(v, row)));
        }
    }

    /// Generates the 16-bit lookups that prove that `v` has at most `size` bits: one of `v`, and
    /// for less than 16 bits one of `v << (16 - size)`.
    pub fn lookup_range(&mut self, v: Expression, size: usize)
        requires
            old(self).wf(),
            plain(v),
            size <= 16,
        ensures
            final(self).wf(),
            final(self).same_expressions(old(self)),
            final(self).and_lookups == old(self).and_lookups,
            final(self).xor_lookups == old(self).xor_lookups,
            final(self).range_lookups@ == old(self).range_lookups@ + range_lookups_of(
                v,
                size as int,
            ),
            forall|row: Seq<Goldilocks>| #[trigger]
                final(self).ranges(row) == old(self).ranges(row) + range_values(
                    value(v, row),
                    size as int,
                ),
            old(self).linear() && v.spec_degree() <= 1 ==> final(self).linear(),
    {
        let ghost before = *self;
        self.lookup_u16(v.clone());
        if size < 16 {
            let shift: u64 = two_to(16 - size);
            proof {
                lemma2_to64();
                lemma_pow2_strictly_increases((16 - size) as nat, 17);
                lemma_small_mod(shift as nat, modulus() as nat);
                lemma_degree_ops(v, base_const(shift as int));
            }
            self.lookup_u16(times(v, constant(shift)));
        }
        assert(self.range_lookups@ =~= before.range_lookups@ + range_lookups_of(v, size as int));
        assert forall|row: Seq<Goldilocks>| #[trigger] self.ranges(row) == before.ranges(row)
            + range_values(value(v, row), size as int) by {
            assert(self.ranges(row) =~= before.ranges(row) + range_values(
                value(v, row),
                size as int,
            ));
        }
    }

    /// Requires that both sides are equal.
    pub fn constrain_eq(&mut self, lhs: Expression, rhs: Expression, name: String)
        requires
            old(self).wf(),
            plain(lhs),
            plain(rhs),
        ensures
            final(self).wf(),
            final(self).same_lookups(old(self)),
            final(self).expressions@ == old(self).expressions@.push(lhs.spec_sub(rhs)),
            final(self).evals@ == old(self).evals@.push(EvalExpression::Zero),
            texts(final(self).expr_names@) == texts(old(self).expr_names@).push(name@),
            forall|row: Seq<Goldilocks>| #[trigger]
                final(self).values(row) == old(self).values(row).push(
                    f_sub(value(lhs, row), value(rhs, row)),
                ),
            old(self).linear() && lhs.spec_degree() <= 1 && rhs.spec_degree() <= 1
                ==> final(self).linear(),
    {
        proof {
            lemma_degree_ops(lhs, rhs);
        }
        self.add_zero_constraint(minus(lhs, rhs), name);
    }

    /// Requires that both sides encode the same value of `size` bits, provided that the chunks
    /// have their sizes.
    pub fn constrain_reps_eq(
        &mut self,
        lhs: &[(usize, Expression)],
        rhs: &[(usize, Expression)],
        size: usize,
        name: String,
    )
        requires
            old(self).wf(),
            rep_wf(lhs@),
            rep_wf(rhs@),
            total_bits(rep_sizes(lhs@)) == size,
            total_bits(rep_sizes(rhs@)) == size,
        ensures
            final(self).wf(),
            final(self).same_lookups(old(self)),
            final(self).expressions@ == old(self).expressions@.push(
                expansion(lhs@).spec_sub(expansion(rhs@)),
            ),
            final(self).evals@ == old(self).evals@.push(EvalExpression::Zero),
            texts(final(self).expr_names@) == texts(old(self).expr_names@).push(name@),
            forall|row: Seq<Goldilocks>| #[trigger]
                final(self).values(row) == old(self).values(row).push(
                    reps_diff(
                        rep_values(lhs@, row),
                        rep_sizes(lhs@),
                        rep_values(rhs@, row),
                        rep_sizes(rhs@),
                    ),
                ),
            old(self).linear() && rep_linear(lhs@) && rep_linear(rhs@) ==> final(self).linear(),
    {
        proof {
            lemma_degree_ops(expansion(lhs@), expansion(rhs@));
            if rep_linear(lhs@) && rep_linear(rhs@) {
                lemma_expansion_linear(lhs@);
                lemma_expansion_linear(rhs@);
            }
        }
        let l = expansion_expr(lhs, size);
        let r = expansion_expr(rhs, size);
        self.add_zero_constraint(minus(l, r), name);
    }

    /// Requires that the bytes and the chunks represent the same 64 bits, 32 bits at a time.
    fn constrain_halves(
        &mut self,
        rep8: &Vec<Expression>,
        rep_x: &Vec<(usize, Expression)>,
        low_name: String,
        high_name: String,
    )
        requires
            old(self).wf(),
            rep8@.len() == 8,
            forall|i: int| 0 <= i < 8 ==> plain(#[trigger] rep8@[i]),
            rep_wf(rep_x@),
            rep_x@.len() % 2 == 0,
            total_bits(rep_sizes(rep_x@).take(rep_x@.len() as int / 2)) == 32,
            total_bits(rep_sizes(rep_x@).skip(rep_x@.len() as int / 2)) == 32,
        ensures
            final(self).wf(),
            final(self).same_lookups(old(self)),
            final(self).evals@ == old(self).evals@ + seq![EvalExpression::Zero, EvalExpression::Zero],
            texts(final(self).expr_names@) == texts(old(self).expr_names@) + seq![
                low_name@,
                high_name@,
            ],
            forall|row: Seq<Goldilocks>| #[trigger]
                final(self).values(row) == old(self).values(row) + halves_diff(
                    expr_values(rep8@, row),
                    rep_values(rep_x@, row),
                    rep_sizes(rep_x@),
                ),
            old(self).linear() && all_linear(rep8@) && rep_linear(rep_x@) ==> final(self).linear(),
    {
        let cnt: usize = rep_x.len() / 2;
        let low = byte_rep(rep8, 0);
        let high = byte_rep(rep8, 4);
        let low_x = slice_subrange(rep_x.as_slice(), 0, cnt);
        let high_x = slice_subrange(rep_x.as_slice(), cnt, rep_x.len());
        proof {
            assert(rep_sizes(low_x@) =~= rep_sizes(rep_x@).take(cnt as int));
            assert(rep_sizes(high_x@) =~= rep_sizes(rep_x@).skip(cnt as int));
            lemma_total_small(four_bytes());
        }
        let ghost before = *self;
        self.constrain_reps_eq(low.as_slice(), low_x, 32, low_name);
        self.constrain_reps_eq(high.as_slice(), high_x, 32, high_name);
        proof {
            assert(self.evals@ =~= before.evals@ + seq![EvalExpression::Zero, EvalExpression::Zero]);
            assert(texts(self.expr_names@) =~= texts(before.expr_names@) + seq![
                low_name@,
                high_name@,
            ]);
            assert forall|row: Seq<Goldilocks>| #[trigger] self.values(row) == before.values(row)
                + halves_diff(
                expr_values(rep8@, row),
                rep_values(rep_x@, row),
                rep_sizes(rep_x@),
            ) by {
                assert(rep_values(low_x@, row) =~= rep_values(rep_x@, row).take(cnt as int));
                assert(rep_values(high_x@, row) =~= rep_values(rep_x@, row).skip(cnt as int));
                assert(self.values(row) =~= before.values(row) + halves_diff(
                    expr_values(rep8@, row),
                    rep_values(rep_x@, row),
                    rep_sizes(rep_x@),
                ));
            }
        }
    }

    /// Range-checks the chunks other than 32-bit ones.
    #[verifier::spinoff_prover]
    fn check_chunks(&mut self, split_rep: &Vec<(usize, Expression)>, delta: usize)
        requires
            old(self).wf(),
            rep_wf(split_rep@),
            rep_sizes(split_rep@) == sizes_of(rotation_sizes(delta as int % 64)),
        ensures
            final(self).wf(),
            final(self).same_expressions(old(self)),
            final(self).and_lookups == old(self).and_lookups,
            final(self).xor_lookups == old(self).xor_lookups,
            final(self).range_lookups@ == old(self).range_lookups@ + chunk_lookups(split_rep@),
            forall|row: Seq<Goldilocks>| #[trigger]
                final(self).ranges(row) == old(self).ranges(row) + chunk_ranges(
                    rep_values(split_rep@, row),
                    rep_sizes(split_rep@),
                ),
            old(self).linear() && rep_linear(split_rep@) ==> final(self).linear(),
    {
        let ghost rep = split_rep@;
        let ghost before = *self;
        proof {
            assert(self.range_lookups@ =~= before.range_lookups@ + chunk_lookups(rep.take(0)));
            assert(rep.len() == rep_sizes(rep).len());
            assert forall|row: Seq<Goldilocks>| #[trigger] self.ranges(row) == before.ranges(row)
                + chunk_ranges(rep_values(rep, row).take(0), rep_sizes(rep).take(0)) by {
                assert(self.ranges(row) =~= before.ranges(row) + Seq::<int>::empty());
            }
        }
        let mut i: usize = 0;
        while i < split_rep.len()
            invariant
                i <= rep.len(),
                rep == split_rep@,
                rep_wf(rep),
                rep_sizes(rep) == sizes_of(rotation_sizes(delta as int % 64)),
                self.wf(),
                self.same_expressions(&before),
                self.and_lookups == before.and_lookups,
                self.xor_lookups == before.xor_lookups,
                self.range_lookups@ == before.range_lookups@ + chunk_lookups(rep.take(i as int)),
                before.linear() && rep_linear(rep) ==> self.linear(),
                forall|row: Seq<Goldilocks>| #[trigger]
                    self.ranges(row) == before.ranges(row) + chunk_ranges(
                        rep_values(rep, row).take(i as int),
                        rep_sizes(rep).take(i as int),
                    ),
            decreases rep.len() - i,
        {
            let size: usize = split_rep[i].0;
            let ghost prev = *self;
            proof {
                lemma_rotation_split(delta as int % 64);
                assert(rep_sizes(rep)[i as int] == size as nat);
            }
            if size != 32 {
                self.lookup_range(split_rep[i].1.clone(), size);
            }
            proof {
                assert(rep.take(i + 1).drop_last() =~= rep.take(i as int));
                assert(self.range_lookups@ =~= before.range_lookups@ + chunk_lookups(
                    rep.take(i + 1),
                ));
                assert forall|row: Seq<Goldilocks>| #[trigger] self.ranges(row) == before.ranges(row)
                    + chunk_ranges(
                    rep_values(rep, row).take(i + 1),
                    rep_sizes(rep).take(i + 1),
                ) by {
                    let (v, s) = (rep_values(rep, row), rep_sizes(rep));
                    assert(v.take(i + 1).drop_last() =~= v.take(i as int));
                    assert(s.take(i + 1).drop_last() =~= s.take(i as int));
                    assert(prev.ranges(row) == before.ranges(row) + chunk_ranges(
                        v.take(i as int),
                        s.take(i as int),
                    ));
                    assert(self.ranges(row) =~= before.ranges(row) + chunk_ranges(
                        v.take(i + 1),
                        s.take(i + 1),
                    ));
                }
            }
            i = i + 1;
        }
        assert(rep.take(rep.len() as int) =~= rep);
        assert forall|row: Seq<Goldilocks>| #[trigger] self.ranges(row) == before.ranges(row)
            + chunk_ranges(rep_values(rep, row), rep_sizes(rep)) by {
            assert(rep_values(rep, row).take(rep.len() as int) =~= rep_values(rep, row));
            assert(rep_sizes(rep).take(rep.len() as int) =~= rep_sizes(rep));
        }
    }

    /// Checks that `rot8` is equal to `input8` left-rotated by `delta`; each consists of 8 bytes.
    ///
    /// `split_rep` is a chunk representation of the input which allows to reduce the required
    /// rotation to an array rotation. For example, when `delta = 2`, the 64 bits are split into
    /// chunks of sizes `[16, 14, 2, 16, 14, 2]`, the first one with the least significant bits, and
    /// the last one moves to the front.
    ///
    /// First `input8` and `split_rep` are required to represent the same 64 bits, then `rot8` and
    /// the rotated array. Each is done in two halves of 32 bits. Chunks other than 32-bit ones are
    /// range-checked; bytes are range-checked by the lookups that they occur in.
    #[verifier::spinoff_prover]
    pub fn constrain_left_rotation64(
        &mut self,
        input8: &Vec<Expression>,
        split_rep: &Vec<(usize, Expression)>,
        rot8: &Vec<Expression>,
        delta: usize,
        label: &str,
    )
        requires
            old(self).wf(),
            input8@.len() == 8,
            rot8@.len() == 8,
            forall|i: int| 0 <= i < 8 ==> plain(#[trigger] input8@[i]),
            forall|i: int| 0 <= i < 8 ==> plain(#[trigger] rot8@[i]),
            rep_wf(split_rep@),
            rep_sizes(split_rep@) == sizes_of(rotation_sizes(delta as int % 64)),
        ensures
            final(self).wf(),
            final(self).and_lookups == old(self).and_lookups,
            final(self).xor_lookups == old(self).xor_lookups,
            final(self).range_lookups@ == old(self).range_lookups@ + chunk_lookups(split_rep@),
            final(self).evals@ == old(self).evals@ + zero_evals(4),
            texts(final(self).expr_names@) == texts(old(self).expr_names@) + Seq::new(
                4,
                |k: int| rotation_text(label@, delta as int, k),
            ),
            forall|row: Seq<Goldilocks>| #[trigger]
                final(self).values(row) == old(self).values(row) + rotation_values(
                    expr_values(input8@, row),
                    rep_values(split_rep@, row),
                    expr_values(rot8@, row),
                    delta as int % 64,
                ),
            forall|row: Seq<Goldilocks>| #[trigger]
                final(self).ranges(row) == old(self).ranges(row) + chunk_ranges(
                    rep_values(split_rep@, row),
                    rep_sizes(split_rep@),
                ),
            old(self).linear() && all_linear(input8@) && rep_linear(split_rep@) && all_linear(
                rot8@,
            ) ==> final(self).linear(),
    {
        let (sizes, chunks_rotation) = rotation_split(delta);
        let ghost rep = split_rep@;
        let ghost before = *self;
        proof {
            lemma_rotation_split(delta as int % 64);
            assert(rep.len() == rep_sizes(rep).len());
        }
        self.check_chunks(split_rep, delta);
        let rotated = rotated_rep(split_rep, chunks_rotation);
        proof {
            lemma_rotation_split(delta as int % 64);
            assert(rep_linear(rep) ==> rep_linear(rotated@));
            assert(rep_sizes(rotated@) =~= rotate_right(rep_sizes(rep), chunks_rotation as int));
        }
        let ghost mid = *self;
        self.constrain_halves(
            input8,
            split_rep,
            half_name(label, 0, 0, delta, &sizes),
            half_name(label, 1, 0, delta, &sizes),
        );
        let ghost mid2 = *self;
        self.constrain_halves(
            rot8,
            &rotated,
            half_name(label, 0, chunks_rotation, delta, &sizes),
            half_name(label, 1, chunks_rotation, delta, &sizes),
        );
        proof {
            assert(self.evals@ =~= before.evals@ + zero_evals(4));
            lemma_rotation_texts(texts(before.expr_names@), label@, delta as int);
            assert forall|row: Seq<Goldilocks>| #[trigger] self.values(row) == before.values(row)
                + rotation_values(
                expr_values(input8@, row),
                rep_values(rep, row),
                expr_values(rot8@, row),
                delta as int % 64,
            ) by {
                assert(rep_values(rotated@, row) =~= rotate_right(
                    rep_values(rep, row),
                    chunks_rotation as int,
                ));
                assert(mid2.values(row) == mid.values(row) + halves_diff(
                    expr_values(input8@, row),
                    rep_values(rep, row),
                    rep_sizes(rep),
                ));
                assert(mid.values(row) == before.values(row));
                assert(self.values(row) =~= before.values(row) + rotation_values(
                    expr_values(input8@, row),
                    rep_values(rep, row),
                    expr_values(rot8@, row),
                    delta as int % 64,
                ));
            }
            assert forall|row: Seq<Goldilocks>| #[trigger] self.ranges(row) == mid.ranges(row) by {}
        }
    }
}

/// Outputs that are zero.
pub open spec fn zero_evals(n: nat) -> Seq<EvalExpression> {
    Seq::new(n, |i: int| EvalExpression::Zero)
}

/// The values of expressions at a row.
pub open spec fn expr_values(exprs: Seq<Expression>, row: Seq<Goldilocks>) -> Seq<int> {
    exprs.map_values(|e: Expression| value(e, row))
}

/// Half of the sizes of the bytes of a word.
pub open spec fn four_bytes() -> Seq<nat> {
    seq![8nat, 8, 8, 8]
}

pub proof fn lemma_four_bytes()
    ensures
        total_bits(four_bytes()) == 32,
{
    lemma_total_small(four_bytes());
}

/// The difference of two representations, in the field.
pub open spec fn reps_diff(v: Seq<int>, s: Seq<nat>, w: Seq<int>, t: Seq<nat>) -> int {
    f_sub(expand(v, s) % modulus(), expand(w, t) % modulus())
}

/// The differences of the halves of eight bytes and of chunks.
pub open spec fn halves_diff(b: Seq<int>, v: Seq<int>, s: Seq<nat>) -> Seq<int> {
    let cnt = v.len() as int / 2;
    seq![
        reps_diff(b.take(4), four_bytes(), v.take(cnt), s.take(cnt)),
        reps_diff(b.skip(4), four_bytes(), v.skip(cnt), s.skip(cnt)),
    ]
}

/// The expressions that are zero for a rotation.
pub open spec fn rotation_values(
    input: Seq<int>,
    chunks: Seq<int>,
    rotated: Seq<int>,
    delta: int,
) -> Seq<int> {
    let s = sizes_of(rotation_sizes(delta));
    let k = rotation_suffix(delta);
    halves_diff(input, chunks, s) + halves_diff(
        rotated,
        rotate_right(chunks, k),
        rotate_right(s, k),
    )
}

/// The values of the 16-bit lookups for chunks.
pub open spec fn chunk_ranges(v: Seq<int>, s: Seq<nat>) -> Seq<int>
    decreases s.len(),
{
    if s.len() == 0 {
        Seq::empty()
    } else {
        chunk_ranges(v.drop_last(), s.drop_last()) + (if s.last() == 32 {
            Seq::empty()
        } else {
            range_values(v.last(), s.last() as int)
        })
    }
}

/// The expressions are linear.
pub open spec fn all_linear(exprs: Seq<Expression>) -> bool {
    forall|i: int| 0 <= i < exprs.len() ==> (#[trigger] exprs[i]).spec_degree() <= 1
}

/// Four of eight bytes with their sizes.
fn byte_rep(rep8: &Vec<Expression>, from: usize) -> (r: Vec<(usize, Expression)>)
    requires
        rep8@.len() == 8,
        from == 0 || from == 4,
        forall|i: int| 0 <= i < 8 ==> plain(#[trigger] rep8@[i]),
    ensures
        rep_wf(r@),
        rep_sizes(r@) == four_bytes(),
        forall|row: Seq<Goldilocks>| #[trigger]
            rep_values(r@, row) == expr_values(rep8@, row).subrange(from as int, from + 4),
        forall|row: Seq<Goldilocks>|
            from == 0 ==> #[trigger] rep_values(r@, row) == expr_values(rep8@, row).take(4),
        forall|row: Seq<Goldilocks>|
            from == 4 ==> #[trigger] rep_values(r@, row) == expr_values(rep8@, row).skip(4),
        all_linear(rep8@) ==> rep_linear(r@),
{
    let mut r: Vec<(usize, Expression)> = Vec::new();
    r.push((8, rep8[from].clone()));
    r.push((8, rep8[from + 1].clone()));
    r.push((8, rep8[from + 2].clone()));
    r.push((8, rep8[from + 3].clone()));
    proof {
        assert(rep_sizes(r@) =~= four_bytes());
        assert forall|row: Seq<Goldilocks>| #[trigger] rep_values(r@, row) == expr_values(
            rep8@,
            row,
        ).subrange(from as int, from + 4) by {
            assert(rep_values(r@, row) =~= expr_values(rep8@, row).subrange(from as int, from + 4));
        }
        assert forall|row: Seq<Goldilocks>| from == 0 implies #[trigger] rep_values(r@, row)
            == expr_values(rep8@, row).take(4) by {
            assert(rep_values(r@, row) =~= expr_values(rep8@, row).take(4));
        }
        assert forall|row: Seq<Goldilocks>| from == 4 implies #[trigger] rep_values(r@, row)
            == expr_values(rep8@, row).skip(4) by {
            assert(rep_values(r@, row) =~= expr_values(rep8@, row).skip(4));
        }
    }
    r
}

/// The representation with its last `k` chunks in front.
fn rotated_rep(rep: &Vec<(usize, Expression)>, k: usize) -> (r: Vec<(usize, Expression)>)
    requires
        k <= rep@.len(),
    ensures
        r@ == rotate_right(rep@, k as int),
{
    let n: usize = rep.len();
    let mut r: Vec<(usize, Expression)> = Vec::with_capacity(n);
    let ghost want = rotate_right(rep@, k as int);
    let mut i: usize = 0;
    while i < n
        invariant
            i <= n,
            n == rep@.len(),
            k <= n,
            want == rotate_right(rep@, k as int),
            r@ == want.take(i as int),
        decreases n - i,
    {
        let from: usize = if i < k {
            n - k + i
        } else {
            i - k
        };
        r.push((rep[from].0, rep[from].1.clone()));
        assert(r@ =~= want.take(i + 1));
        i = i + 1;
    }
    assert(want.take(n as int) =~= want);
    r
}

/// The 16-bit lookups that prove that a value has at most `size` bits.
pub open spec fn range_lookups_of(v: Expression, size: int) -> Seq<CenoLookup> {
    if size < 16 {
        seq![
            CenoLookup::U16(v),
            CenoLookup::U16(v.spec_mul(base_const(pow2((16 - size) as nat) as int))),
        ]
    } else {
        seq![CenoLookup::U16(v)]
    }
}

/// The 16-bit lookups for the chunks other than 32-bit ones.
pub open spec fn chunk_lookups(rep: Seq<(usize, Expression)>) -> Seq<CenoLookup>
    decreases rep.len(),
{
    if rep.len() == 0 {
        Seq::empty()
    } else {
        chunk_lookups(rep.drop_last()) + (if rep.last().0 == 32 {
            Seq::empty()
        } else {
            range_lookups_of(rep.last().1, rep.last().0 as int)
        })
    }
}

/// The values of the 16-bit lookups for a chunk.
pub open spec fn range_values(v: int, size: int) -> Seq<int> {
    if size < 16 {
        seq![v, f_mul(v, pow2((16 - size) as nat) as int)]
    } else {
        seq![v]
    }
}

/// All entries are 16-bit values.
pub open spec fn all_u16(v: Seq<int>) -> bool {
    forall|i: int| 0 <= i < v.len() ==> 0 <= #[trigger] v[i] < 65536
}

/// All entries are zero.
pub open spec fn all_zero(v: Seq<int>) -> bool {
    forall|i: int| 0 <= i < v.len() ==> #[trigger] v[i] == 0
}

/// The lookups for a value hold exactly if the value has at most `size` bits.
pub proof fn lemma_range_values(v: int, size: int)
    requires
        0 <= v < modulus(),
        0 <= size <= 16,
    ensures
        all_u16(range_values(v, size)) <==> v < pow2(size as nat),
{
    let p = pow2((16 - size) as nat) as int;
    let q = pow2(size as nat) as int;
    lemma2_to64();
    lemma_pow2_adds(size as nat, (16 - size) as nat);
    lemma_pow2_pos((16 - size) as nat);
    lemma_pow2_pos(size as nat);
    let r = range_values(v, size);
    assert(r[0] == v);
    if size < 16 {
        lemma_pow2_strictly_increases(size as nat, 16);
        lemma_pow2_strictly_increases((16 - size) as nat, 17);
        assert(p <= 65536);
        assert(r[1] == f_mul(v, p));
        if v < 65536 {
            assert(0 <= v * p < 0x1_0000_0000) by (nonlinear_arith)
                requires
                    0 <= v < 65536,
                    0 < p <= 65536,
            ;
            lemma_small_mod((v * p) as nat, modulus() as nat);
            assert(v * p < 65536 <==> v < q) by (nonlinear_arith)
                requires
                    q * p == 65536,
                    0 < p,
                    0 <= v,
            ;
        }
    }
}

/// The lookups for chunks hold exactly if the chunks have their sizes.
proof fn lemma_chunk_ranges(v: Seq<int>, s: Seq<nat>)
    requires
        v.len() == s.len(),
        forall|i: int| 0 <= i < v.len() ==> 0 <= #[trigger] v[i] < modulus(),
        forall|i: int| 0 <= i < s.len() ==> 0 < #[trigger] s[i] <= 16,
    ensures
        all_u16(chunk_ranges(v, s)) <==> chunks_fit(v, s),
    decreases s.len(),
{
    if s.len() > 0 {
        let (w, t) = (v.drop_last(), s.drop_last());
        lemma_chunk_ranges(w, t);
        lemma_range_values(v.last(), s.last() as int);
        let (a, b) = (chunk_ranges(w, t), range_values(v.last(), s.last() as int));
        assert(all_u16(a + b) <==> all_u16(a) && all_u16(b)) by {
            if all_u16(a + b) {
                assert forall|i: int| 0 <= i < a.len() implies 0 <= #[trigger] a[i] < 65536 by {
                    assert((a + b)[i] == a[i]);
                }
                assert forall|i: int| 0 <= i < b.len() implies 0 <= #[trigger] b[i] < 65536 by {
                    assert((a + b)[a.len() + i] == b[i]);
                }
            }
        }
        if chunks_fit(v, s) {
            assert forall|i: int| 0 <= i < t.len() implies 0 <= #[trigger] w[i] < pow2(t[i]) by {
                assert(w[i] == v[i]);
            }
            assert(0 <= v[v.len() - 1] < pow2(s[v.len() - 1]));
        }
        if chunks_fit(w, t) && v.last() < pow2(s.last()) {
            assert forall|i: int| 0 <= i < s.len() implies 0 <= #[trigger] v[i] < pow2(s[i]) by {
                if i < t.len() {
                    assert(w[i] == v[i]);
                }
            }
        }
    }
}

/// The bytes of a word in two halves.
pub proof fn lemma_word_halves(b: Seq<int>)
    requires
        chunks_fit(b, byte_sizes()),
    ensures
        word(b) == expand(b.take(4), four_bytes()) + pow2(32) * expand(b.skip(4), four_bytes()),
        0 <= expand(b.take(4), four_bytes()) < pow2(32),
        0 <= expand(b.skip(4), four_bytes()) < pow2(32),
{
    let f = four_bytes();
    lemma_total_small(f);
    assert(byte_sizes() =~= f + f);
    assert(b =~= b.take(4) + b.skip(4));
    lemma_expand_append(b.take(4), f, b.skip(4), f);
    assert forall|i: int| 0 <= i < 4 implies 0 <= #[trigger] b.take(4)[i] < pow2(f[i]) by {
        assert(b.take(4)[i] == b[i]);
    }
    assert forall|i: int| 0 <= i < 4 implies 0 <= #[trigger] b.skip(4)[i] < pow2(f[i]) by {
        assert(b.skip(4)[i] == b[i + 4]);
    }
    lemma_expand_bound(b.take(4), f);
    lemma_expand_bound(b.skip(4), f);
}

/// Equal halves make equal words.
proof fn lemma_halves_equal(b: Seq<int>, v: Seq<int>, s: Seq<nat>)
    requires
        chunks_fit(b, byte_sizes()),
        v.len() == s.len(),
        total_bits(s.take(v.len() as int / 2)) == 32,
        0 <= expand(v.take(v.len() as int / 2), s.take(v.len() as int / 2)) < modulus(),
        0 <= expand(v.skip(v.len() as int / 2), s.skip(v.len() as int / 2)) < modulus(),
        all_zero(halves_diff(b, v, s)),
    ensures
        word(b) == expand(v, s),
{
    let m = modulus();
    let cnt = v.len() as int / 2;
    let d = halves_diff(b, v, s);
    lemma_word_halves(b);
    lemma2_to64();
    let (a0, a1) = (expand(b.take(4), four_bytes()), expand(b.skip(4), four_bytes()));
    let (x0, x1) = (expand(v.take(cnt), s.take(cnt)), expand(v.skip(cnt), s.skip(cnt)));
    lemma_small_mod(a0 as nat, m as nat);
    lemma_small_mod(a1 as nat, m as nat);
    lemma_small_mod(x0 as nat, m as nat);
    lemma_small_mod(x1 as nat, m as nat);
    assert(d[0] == 0 && d[1] == 0);
    lemma_difference_zero(a0, x0);
    lemma_difference_zero(a1, x1);
    assert(v =~= v.take(cnt) + v.skip(cnt));
    assert(s =~= s.take(cnt) + s.skip(cnt));
    lemma_expand_append(v.take(cnt), s.take(cnt), v.skip(cnt), s.skip(cnt));
}

proof fn lemma_difference_zero(a: int, b: int)
    requires
        0 <= a < modulus(),
        0 <= b < modulus(),
    ensures
        f_sub(a, b) == 0 <==> a == b,
{
    if a < b {
        lemma_mod_add_multiples_vanish(a - b, modulus());
        lemma_small_mod((a - b + modulus()) as nat, modulus() as nat);
    } else {
        lemma_small_mod((a - b) as nat, modulus() as nat);
    }
}

/// Equal words make equal halves.
proof fn lemma_halves_zero(b: Seq<int>, v: Seq<int>, s: Seq<nat>)
    requires
        chunks_fit(b, byte_sizes()),
        chunks_fit(v, s),
        total_bits(s.take(v.len() as int / 2)) == 32,
        total_bits(s.skip(v.len() as int / 2)) == 32,
        word(b) == expand(v, s),
    ensures
        all_zero(halves_diff(b, v, s)),
{
    let cnt = v.len() as int / 2;
    lemma_word_halves(b);
    let (a0, a1) = (expand(b.take(4), four_bytes()), expand(b.skip(4), four_bytes()));
    let (x0, x1) = (expand(v.take(cnt), s.take(cnt)), expand(v.skip(cnt), s.skip(cnt)));
    assert(v =~= v.take(cnt) + v.skip(cnt));
    assert(s =~= s.take(cnt) + s.skip(cnt));
    lemma_expand_append(v.take(cnt), s.take(cnt), v.skip(cnt), s.skip(cnt));
    lemma_fit_parts(v, s, cnt);
    lemma_expand_bound(v.take(cnt), s.take(cnt));
    lemma_expand_bound(v.skip(cnt), s.skip(cnt));
    lemma2_to64();
    lemma_halves_unique(a0, a1, x0, x1);
    let d = halves_diff(b, v, s);
    assert(d[0] == 0 && d[1] == 0);
}

proof fn lemma_halves_unique(a0: int, a1: int, x0: int, x1: int)
    requires
        0 <= a0 < pow2(32),
        0 <= x0 < pow2(32),
        a0 + pow2(32) * a1 == x0 + pow2(32) * x1,
    ensures
        a0 == x0,
        a1 == x1,
{
    let p = pow2(32) as int;
    lemma_pow2_pos(32);
    assert(a1 * p == p * a1 && x1 * p == p * x1) by (nonlinear_arith);
    lemma_fundamental_div_mod_converse(a0 + p * a1, p, a1, a0);
    lemma_fundamental_div_mod_converse(x0 + p * x1, p, x1, x0);
}

proof fn lemma_fit_parts(v: Seq<int>, s: Seq<nat>, k: int)
    requires
        chunks_fit(v, s),
        0 <= k <= v.len(),
    ensures
        chunks_fit(v.take(k), s.take(k)),
        chunks_fit(v.skip(k), s.skip(k)),
        chunks_fit(rotate_right(v, v.len() - k), rotate_right(s, v.len() - k)),
{
    assert forall|i: int| 0 <= i < k implies 0 <= #[trigger] v.take(k)[i] < pow2(s.take(k)[i]) by {
        assert(v.take(k)[i] == v[i]);
    }
    assert forall|i: int| 0 <= i < v.len() - k implies 0 <= #[trigger] v.skip(k)[i] < pow2(
        s.skip(k)[i],
    ) by {
        assert(v.skip(k)[i] == v[i + k]);
    }
    let (rv, rs) = (rotate_right(v, v.len() - k), rotate_right(s, v.len() - k));
    assert forall|i: int| 0 <= i < v.len() implies 0 <= #[trigger] rv[i] < pow2(rs[i]) by {
        if i < v.len() - k {
            assert(rv[i] == v.skip(k)[i]);
        } else {
            assert(rv[i] == v.take(k)[i - (v.len() - k)]);
        }
    }
}

/// The rotated chunks spell the rotated word.
proof fn lemma_rotated_chunks(v: Seq<int>, delta: int)
    requires
        0 <= delta < 64,
        chunks_fit(v, sizes_of(rotation_sizes(delta))),
    ensures
        ({
            let s = sizes_of(rotation_sizes(delta));
            let k = rotation_suffix(delta);
            &&& 0 <= expand(v, s) <= u64::MAX
            &&& expand(rotate_right(v, k), rotate_right(s, k)) == rotl(
                expand(v, s) as u64,
                delta as nat,
            )
        }),
{
    let s = sizes_of(rotation_sizes(delta));
    let k = rotation_suffix(delta);
    let n = v.len() - k;
    lemma_rotation_split(delta);
    assert(v =~= v.take(n) + v.skip(n));
    assert(s =~= s.take(n) + s.skip(n));
    lemma_expand_append(v.take(n), s.take(n), v.skip(n), s.skip(n));
    lemma_expand_append(v.skip(n), s.skip(n), v.take(n), s.take(n));
    lemma_fit_parts(v, s, n);
    lemma_expand_bound(v.take(n), s.take(n));
    lemma_expand_bound(v.skip(n), s.skip(n));
    lemma_rotl(
        expand(v.take(n), s.take(n)),
        expand(v.skip(n), s.skip(n)),
        delta as nat,
    );
}

/// Chunks of 32 bits that are equal to four bytes each have their size.
proof fn lemma_unchecked_chunks(b: Seq<int>, v: Seq<int>)
    requires
        chunks_fit(b, byte_sizes()),
        v.len() == 2,
        forall|i: int| 0 <= i < 2 ==> 0 <= #[trigger] v[i] < modulus(),
        all_zero(halves_diff(b, v, seq![32nat, 32])),
    ensures
        chunks_fit(v, seq![32nat, 32]),
{
    let m = modulus();
    let s = seq![32nat, 32];
    let d = halves_diff(b, v, s);
    lemma_word_halves(b);
    lemma2_to64();
    let (a0, a1) = (expand(b.take(4), four_bytes()), expand(b.skip(4), four_bytes()));
    reveal_with_fuel(expand, 3);
    assert(pow2(32) * 0 == 0);
    assert(expand(v.take(1), s.take(1)) == v[0]);
    assert(expand(v.skip(1), s.skip(1)) == v[1]);
    lemma_small_mod(a0 as nat, m as nat);
    lemma_small_mod(a1 as nat, m as nat);
    lemma_small_mod(v[0] as nat, m as nat);
    lemma_small_mod(v[1] as nat, m as nat);
    assert(d[0] == 0 && d[1] == 0);
    lemma_difference_zero(a0, v[0]);
    lemma_difference_zero(a1, v[1]);
}

/// If the constraints and lookups of a rotation hold of bytes, then the chunks are those of the
/// first word, and the second word is the first one rotated.
pub proof fn lemma_rotation_sound(
    input: Seq<int>,
    chunks: Seq<int>,
    rotated: Seq<int>,
    delta: int,
)
    requires
        0 <= delta < 64,
        chunks_fit(input, byte_sizes()),
        chunks_fit(rotated, byte_sizes()),
        chunks.len() == rotation_sizes(delta).len(),
        forall|i: int| 0 <= i < chunks.len() ==> 0 <= #[trigger] chunks[i] < modulus(),
        all_zero(rotation_values(input, chunks, rotated, delta)),
        all_u16(chunk_ranges(chunks, sizes_of(rotation_sizes(delta)))),
    ensures
        0 <= word(input) <= u64::MAX,
        chunks == split(word(input), sizes_of(rotation_sizes(delta))),
        word(rotated) == rotl(word(input) as u64, delta as nat),
{
    let s = sizes_of(rotation_sizes(delta));
    let k = rotation_suffix(delta);
    let cnt = chunks.len() as int / 2;
    let (rv, rs) = (rotate_right(chunks, k), rotate_right(s, k));
    lemma_rotation_split(delta);
    lemma_byte_sizes();
    lemma2_to64();
    lemma2_to64_rest();
    lemma_expand_bound(input, byte_sizes());
    let all = rotation_values(input, chunks, rotated, delta);
    let (d0, d1) = (halves_diff(input, chunks, s), halves_diff(rotated, rv, rs));
    assert(all_zero(d0)) by {
        assert forall|i: int| 0 <= i < d0.len() implies #[trigger] d0[i] == 0 by {
            assert(all[i] == d0[i]);
        }
    }
    assert(all_zero(d1)) by {
        assert forall|i: int| 0 <= i < d1.len() implies #[trigger] d1[i] == 0 by {
            assert(all[i + 2] == d1[i]);
        }
    }
    if delta % 32 == 0 {
        lemma_unchecked_chunks(input, chunks);
    } else {
        lemma_chunk_ranges(chunks, s);
    }
    lemma_fit_parts(chunks, s, cnt);
    lemma_fit_parts(chunks, s, chunks.len() - k);
    lemma_fit_parts(rv, rs, cnt);
    lemma_expand_bound(chunks.take(cnt), s.take(cnt));
    lemma_expand_bound(chunks.skip(cnt), s.skip(cnt));
    lemma_expand_bound(rv.take(cnt), rs.take(cnt));
    lemma_expand_bound(rv.skip(cnt), rs.skip(cnt));
    lemma_halves_equal(input, chunks, s);
    lemma_halves_equal(rotated, rv, rs);
    lemma_split_expand(chunks, s);
    lemma_rotated_chunks(chunks, delta);
}

/// The chunks of a word satisfy the constraints and lookups of its rotation.
pub proof fn lemma_rotation_complete(w: u64, delta: int)
    requires
        0 <= delta < 64,
    ensures
        ({
            let chunks = split(w as int, sizes_of(rotation_sizes(delta)));
            &&& all_zero(
                rotation_values(bytes(w), chunks, bytes(rotl(w, delta as nat)), delta),
            )
            &&& all_u16(chunk_ranges(chunks, sizes_of(rotation_sizes(delta))))
        }),
{
    let s = sizes_of(rotation_sizes(delta));
    let k = rotation_suffix(delta);
    let chunks = split(w as int, s);
    let (rv, rs) = (rotate_right(chunks, k), rotate_right(s, k));
    let (b, r) = (bytes(w), bytes(rotl(w, delta as nat)));
    lemma_rotation_split(delta);
    lemma2_to64();
    lemma2_to64_rest();
    lemma_word_bytes(w);
    lemma_word_bytes(rotl(w, delta as nat));
    lemma_split_fits(w as int, s);
    lemma_expand_split(w as int, s);
    lemma_rotated_chunks(chunks, delta);
    lemma_fit_parts(chunks, s, chunks.len() - k);
    lemma_halves_zero(b, chunks, s);
    lemma_halves_zero(r, rv, rs);
    let (d0, d1) = (halves_diff(b, chunks, s), halves_diff(r, rv, rs));
    assert forall|i: int| 0 <= i < (d0 + d1).len() implies #[trigger] (d0 + d1)[i] == 0 by {
        if i < 2 {
            assert((d0 + d1)[i] == d0[i]);
        } else {
            assert((d0 + d1)[i] == d1[i - 2]);
        }
    }
    if delta % 32 == 0 {
        reveal_with_fuel(chunk_ranges, 3);
        assert(chunk_ranges(chunks, s) =~= Seq::<int>::empty());
    } else {
        assert forall|i: int| 0 <= i < chunks.len() implies 0 <= #[trigger] chunks[i] < modulus() by {
            assert(0 < s[i] <= 16);
            lemma_pow2_strictly_increases(s[i], 17);
        }
        lemma_chunk_ranges(chunks, s);
    }
}

} // verus!
