//! Circuits over one row of witnesses: constraints and range lookups.
use vstd::arithmetic::div_mod::*;
use vstd::prelude::*;

use crate::circuit::plain::{
    cell, constant, eval_row, lemma_plain_value, minus, plain, plus, times, value, witness,
};
use crate::expression::{base_const, Expression, WitIn};
use crate::field::{f_add, f_mul, f_sub, group_field, modulus, Goldilocks};

pub mod gadgets;
pub mod plain;

verus! {

broadcast use group_field;

/// Why a circuit could not be built or assigned.
#[derive(Debug, Clone, Copy, PartialEq, Eq)]
pub enum ZKVMError {
    CircuitError,
    InvalidWitness,
}

/// A named expression.
#[derive(Debug)]
pub struct Constraint {
    pub name: &'static str,
    pub expr: Expression,
}

/// What a record says about the machine.
#[derive(Debug, Clone, Copy, PartialEq, Eq, Structural)]
pub enum RecordKind {
    StateIn,
    StateOut,
    RegisterRead,
    RegisterWrite,
    Fetch,
}

/// A record on the buses that connect circuits.
#[derive(Debug)]
pub struct Record {
    pub kind: RecordKind,
    pub fields: Vec<Expression>,
}

/// A circuit under construction.
#[derive(Debug)]
pub struct CircuitBuilder {
    /// The number of witness columns
    pub num_witin: u16,
    /// Expressions that are zero
    pub zeros: Vec<Constraint>,
    /// Expressions that are below `2^16`
    pub ranges: Vec<Constraint>,
    /// Records on the buses
    pub records: Vec<Record>,
}

/// What is zero where the target is the first expression if the condition is one, and the second
/// if it is zero.
#[verifier::opaque]
pub open spec fn selection_constraint(
    condition: Expression,
    target: Expression,
    true_expr: Expression,
    false_expr: Expression,
) -> Expression {
    target.spec_sub(
        condition.spec_mul(true_expr).spec_add(
            base_const(1).spec_sub(condition).spec_mul(false_expr),
        ),
    )
}

impl CircuitBuilder {
    /// All constraints are plain expressions.
    pub open spec fn wf(&self) -> bool {
        &&& forall|i: int| 0 <= i < self.zeros@.len() ==> plain((#[trigger] self.zeros@[i]).expr)
        &&& forall|i: int| 0 <= i < self.ranges@.len() ==> plain((#[trigger] self.ranges@[i]).expr)
    }

    /// The row satisfies all constraints and lookups.
    pub open spec fn satisfied(&self, row: Seq<Goldilocks>) -> bool {
        &&& forall|i: int|
            0 <= i < self.zeros@.len() ==> value((#[trigger] self.zeros@[i]).expr, row) == 0
        &&& forall|i: int|
            0 <= i < self.ranges@.len() ==> value((#[trigger] self.ranges@[i]).expr, row) < 65536
    }

    /// The values that the row looks up in the range table, in the order of the lookups.
    pub open spec fn looked_up(&self, row: Seq<Goldilocks>) -> Seq<int> {
        Seq::new(self.ranges@.len(), |i: int| value(self.ranges@[i].expr, row))
    }

    /// An empty circuit.
    pub fn new() -> (r: CircuitBuilder)
        ensures
            r.wf(),
            r.num_witin == 0,
            r.zeros@.len() == 0,
            r.ranges@.len() == 0,
            r.records@.len() == 0,
            forall|row: Seq<Goldilocks>| #[trigger] r.satisfied(row),
    {
        CircuitBuilder { num_witin: 0, zeros: Vec::new(), ranges: Vec::new(), records: Vec::new() }
    }

    /// A new witness column.
    pub fn create_witin(&mut self) -> (r: WitIn)
        requires
            old(self).wf(),
            old(self).num_witin < u16::MAX,
        ensures
            r.id == old(self).num_witin,
            final(self).num_witin == old(self).num_witin + 1,
            final(self).wf(),
            final(self).zeros == old(self).zeros,
            final(self).ranges == old(self).ranges,
            final(self).records == old(self).records,
            forall|row: Seq<Goldilocks>| #[trigger]
                final(self).satisfied(row) == old(self).satisfied(row),
            forall|row: Seq<Goldilocks>| #[trigger]
                final(self).looked_up(row) == old(self).looked_up(row),
    {
        let id: u16 = self.num_witin;
        self.num_witin = id + 1;
        WitIn { id }
    }

    /// Requires the expression to be zero.
    pub fn require_zero(&mut self, name: &'static str, expr: Expression)
        requires
            old(self).wf(),
            plain(expr),
        ensures
            final(self).wf(),
            final(self).num_witin == old(self).num_witin,
            final(self).zeros@ == old(self).zeros@.push(Constraint { name, expr }),
            final(self).ranges == old(self).ranges,
            final(self).records == old(self).records,
            forall|row: Seq<Goldilocks>| #[trigger]
                final(self).satisfied(row) == (old(self).satisfied(row) && value(expr, row) == 0),
            forall|row: Seq<Goldilocks>| #[trigger]
                final(self).looked_up(row) == old(self).looked_up(row),
    {
        let ghost before = *self;
        self.zeros.push(Constraint { name, expr });
        proof {
            assert forall|row: Seq<Goldilocks>| #[trigger]
                self.satisfied(row) == (before.satisfied(row) && value(expr, row) == 0) by {
                let n = before.zeros@.len() as int;
                assert(self.zeros@[n].expr == expr);
                if self.satisfied(row) {
                    assert forall|i: int| 0 <= i < n implies value(
                        (#[trigger] before.zeros@[i]).expr,
                        row,
                    ) == 0 by {
                        assert(self.zeros@[i] == before.zeros@[i]);
                    }
                }
            }
        }
    }

    /// Looks the expression up in the table of 16-bit values.
    pub fn assert_u16(&mut self, name: &'static str, expr: Expression)
        requires
            old(self).wf(),
            plain(expr),
        ensures
            final(self).wf(),
            final(self).num_witin == old(self).num_witin,
            final(self).zeros == old(self).zeros,
            final(self).ranges@ == old(self).ranges@.push(Constraint { name, expr }),
            final(self).records == old(self).records,
            forall|row: Seq<Goldilocks>| #[trigger]
                final(self).satisfied(row) == (old(self).satisfied(row) && value(expr, row)
                    < 65536),
            forall|row: Seq<Goldilocks>| #[trigger]
                final(self).looked_up(row) == old(self).looked_up(row).push(value(expr, row)),
    {
        let ghost before = *self;
        self.ranges.push(Constraint { name, expr });
        proof {
            assert forall|row: Seq<Goldilocks>| #[trigger]
                self.satisfied(row) == (before.satisfied(row) && value(expr, row) < 65536) by {
                let n = before.ranges@.len() as int;
                assert(self.ranges@[n].expr == expr);
                if self.satisfied(row) {
                    assert forall|i: int| 0 <= i < n implies value(
                        (#[trigger] before.ranges@[i]).expr,
                        row,
                    ) < 65536 by {
                        assert(self.ranges@[i] == before.ranges@[i]);
                    }
                }
            }
            assert forall|row: Seq<Goldilocks>| #[trigger]
                self.looked_up(row) == before.looked_up(row).push(value(expr, row)) by {
                assert(self.looked_up(row) =~= before.looked_up(row).push(value(expr, row)));
            }
        }
    }

    /// Requires two expressions to be equal.
    pub fn require_equal(&mut self, name: &'static str, lhs: Expression, rhs: Expression)
        requires
            old(self).wf(),
            plain(lhs),
            plain(rhs),
        ensures
            final(self).wf(),
            final(self).num_witin == old(self).num_witin,
            final(self).ranges == old(self).ranges,
            final(self).records == old(self).records,
            final(self).zeros@ == old(self).zeros@.push(
                Constraint { name, expr: lhs.spec_sub(rhs) },
            ),
            forall|row: Seq<Goldilocks>| #[trigger]
                final(self).satisfied(row) == (old(self).satisfied(row) && value(lhs, row) == value(
                    rhs,
                    row,
                )),
            forall|row: Seq<Goldilocks>| #[trigger]
                final(self).looked_up(row) == old(self).looked_up(row),
    {
        let ghost (l, r) = (lhs, rhs);
        let ghost before = *self;
        self.require_zero(name, minus(lhs, rhs));
        proof {
            assert forall|row: Seq<Goldilocks>| #[trigger]
                self.satisfied(row) == (before.satisfied(row) && value(l, row) == value(r, row)) by {
                lemma_plain_value(l, row);
                lemma_plain_value(r, row);
                lemma_equal_iff_difference_zero(value(l, row), value(r, row));
            }
        }
    }

    /// Requires the target to be the first expression where the condition is one and the second
    /// where it is zero.
    pub fn condition_require_equal(
        &mut self,
        name: &'static str,
        condition: Expression,
        target: Expression,
        true_expr: Expression,
        false_expr: Expression,
    )
        requires
            old(self).wf(),
            plain(condition),
            plain(target),
            plain(true_expr),
            plain(false_expr),
        ensures
            final(self).wf(),
            final(self).num_witin == old(self).num_witin,
            final(self).ranges == old(self).ranges,
            final(self).records == old(self).records,
            final(self).zeros@ == old(self).zeros@.push(
                Constraint {
                    name,
                    expr: selection_constraint(condition, target, true_expr, false_expr),
                },
            ),
            forall|row: Seq<Goldilocks>| #[trigger]
                final(self).satisfied(row) == (old(self).satisfied(row) && value(target, row)
                    == choose_value(
                    value(condition, row),
                    value(true_expr, row),
                    value(false_expr, row),
                )),
            forall|row: Seq<Goldilocks>| #[trigger]
                final(self).looked_up(row) == old(self).looked_up(row),
    {
        reveal(selection_constraint);
        let when_true = times(condition.clone(), true_expr);
        let when_false = times(minus(constant(1), condition), false_expr);
        self.require_equal(name, target, plus(when_true, when_false));
    }

    /// Requires the expression to be zero or one.
    pub fn assert_bit(&mut self, name: &'static str, expr: Expression)
        requires
            old(self).wf(),
            plain(expr),
        ensures
            final(self).wf(),
            final(self).num_witin == old(self).num_witin,
            final(self).ranges == old(self).ranges,
            final(self).records == old(self).records,
            final(self).zeros@ == old(self).zeros@.push(
                Constraint { name, expr: expr.spec_mul(base_const(1).spec_sub(expr)) },
            ),
            forall|row: Seq<Goldilocks>| #[trigger]
                final(self).satisfied(row) == (old(self).satisfied(row) && (value(expr, row) == 0
                    || value(expr, row) == 1)),
            forall|row: Seq<Goldilocks>| #[trigger]
                final(self).looked_up(row) == old(self).looked_up(row),
    {
        let ghost e = expr;
        let ghost before = *self;
        let other = minus(constant(1), expr.clone());
        self.require_zero(name, times(expr, other));
        proof {
            assert forall|row: Seq<Goldilocks>| #[trigger]
                self.satisfied(row) == (before.satisfied(row) && (value(e, row) == 0 || value(
                    e,
                    row,
                ) == 1)) by {
                lemma_plain_value(e, row);
                lemma_bit(value(e, row));
            }
        }
    }

    /// A new witness that equals the expression.
    pub fn flatten_expr(&mut self, name: &'static str, expr: Expression) -> (r: WitIn)
        requires
            old(self).wf(),
            plain(expr),
            old(self).num_witin < u16::MAX,
        ensures
            r.id == old(self).num_witin,
            final(self).num_witin == old(self).num_witin + 1,
            final(self).wf(),
            final(self).ranges == old(self).ranges,
            final(self).records == old(self).records,
            final(self).zeros@ == old(self).zeros@.push(
                Constraint { name, expr: Expression::WitIn(r.id).spec_sub(expr) },
            ),
            forall|row: Seq<Goldilocks>| #[trigger]
                final(self).satisfied(row) == (old(self).satisfied(row) && cell(row, r.id as int)@
                    == value(expr, row)),
            forall|row: Seq<Goldilocks>| #[trigger]
                final(self).looked_up(row) == old(self).looked_up(row),
    {
        let wit = self.create_witin();
        self.require_equal(name, witness(wit), expr);
        wit
    }

    /// Puts a record on a bus.
    pub fn add_record(&mut self, kind: RecordKind, fields: Vec<Expression>)
        requires
            old(self).wf(),
        ensures
            final(self).wf(),
            final(self).num_witin == old(self).num_witin,
            final(self).zeros == old(self).zeros,
            final(self).ranges == old(self).ranges,
            final(self).records@ == old(self).records@.push(Record { kind, fields }),
            forall|row: Seq<Goldilocks>| #[trigger]
                final(self).satisfied(row) == old(self).satisfied(row),
            forall|row: Seq<Goldilocks>| #[trigger]
                final(self).looked_up(row) == old(self).looked_up(row),
    {
        self.records.push(Record { kind, fields });
    }

    /// The names of the constraints and lookups that the row does not satisfy, in order.
    pub fn unsatisfied(&self, row: &[Goldilocks]) -> (r: Vec<&'static str>)
        requires
            self.wf(),
        ensures
            r@ == self.failing_zeros(row@, self.zeros@.len() as int) + self.failing_ranges(
                row@,
                self.ranges@.len() as int,
            ),
            r@.len() == 0 <==> self.satisfied(row@),
    {
        let mut out: Vec<&'static str> = Vec::new();
        let mut i: usize = 0;
        while i < self.zeros.len()
            invariant
                i <= self.zeros@.len(),
                self.wf(),
                out@ == self.failing_zeros(row@, i as int),
                out@.len() == 0 <==> forall|k: int|
                    0 <= k < i ==> value((#[trigger] self.zeros@[k]).expr, row@) == 0,
            decreases self.zeros@.len() - i,
        {
            assert(plain(self.zeros@[i as int].expr));
            let v: u64 = eval_row(&self.zeros[i].expr, row).as_canonical_u64();
            if v != 0 {
                out.push(self.zeros[i].name);
            }
            i = i + 1;
        }
        let ghost zeros = out@;
        let mut j: usize = 0;
        while j < self.ranges.len()
            invariant
                j <= self.ranges@.len(),
                self.wf(),
                out@ == zeros + self.failing_ranges(row@, j as int),
                out@.len() == 0 <==> zeros.len() == 0 && forall|k: int|
                    0 <= k < j ==> value((#[trigger] self.ranges@[k]).expr, row@) < 65536,
            decreases self.ranges@.len() - j,
        {
            assert(plain(self.ranges@[j as int].expr));
            let v: u64 = eval_row(&self.ranges[j].expr, row).as_canonical_u64();
            if v >= 65536 {
                out.push(self.ranges[j].name);
            }
            j = j + 1;
            assert(out@ =~= zeros + self.failing_ranges(row@, j as int));
        }
        out
    }

    /// The names of the first `n` constraints that fail.
    pub open spec fn failing_zeros(&self, row: Seq<Goldilocks>, n: int) -> Seq<&'static str>
        decreases n,
    {
        if n <= 0 {
            Seq::empty()
        } else if value(self.zeros@[n - 1].expr, row) != 0 {
            self.failing_zeros(row, n - 1).push(self.zeros@[n - 1].name)
        } else {
            self.failing_zeros(row, n - 1)
        }
    }

    /// The names of the first `n` lookups that fail.
    pub open spec fn failing_ranges(&self, row: Seq<Goldilocks>, n: int) -> Seq<&'static str>
        decreases n,
    {
        if n <= 0 {
            Seq::empty()
        } else if value(self.ranges@[n - 1].expr, row) >= 65536 {
            self.failing_ranges(row, n - 1).push(self.ranges@[n - 1].name)
        } else {
            self.failing_ranges(row, n - 1)
        }
    }
}

/// `t` for the condition one and `f` for the condition zero: `c * t + (1 - c) * f`.
pub open spec fn choose_value(c: int, t: int, f: int) -> int {
    f_add(f_mul(c, t), f_mul(f_sub(1, c), f))
}

/// With a boolean condition the choice is one of the two values.
pub proof fn lemma_choose_value(c: int, t: int, f: int)
    requires
        0 <= t < modulus(),
        0 <= f < modulus(),
    ensures
        c == 1 ==> choose_value(c, t, f) == t,
        c == 0 ==> choose_value(c, t, f) == f,
{
    lemma_small_mod(t as nat, modulus() as nat);
    lemma_small_mod(f as nat, modulus() as nat);
    if c == 1 {
        assert(1 * t == t && f_sub(1, 1) == 0 && 0 * f == 0);
    }
    if c == 0 {
        assert(0 * t == 0 && f_sub(1, 0) == 1 && 1 * f == f);
    }
}

/// Two elements are equal exactly if their difference is zero.
pub proof fn lemma_equal_iff_difference_zero(a: int, b: int)
    requires
        0 <= a < modulus(),
        0 <= b < modulus(),
    ensures
        f_sub(a, b) == 0 <==> a == b,
{
    if a >= b {
        lemma_small_mod((a - b) as nat, modulus() as nat);
    } else {
        lemma_mod_add_multiples_vanish(a - b, modulus());
        lemma_small_mod((a - b + modulus()) as nat, modulus() as nat);
    }
}

/// `x * (1 - x)` vanishes exactly on zero and one.
pub proof fn lemma_bit(x: int)
    requires
        0 <= x < modulus(),
    ensures
        f_mul(x, f_sub(1, x)) == 0 <==> x == 0 || x == 1,
{
    let y = f_sub(1, x);
    lemma_mod_bound(1 - x, modulus());
    if f_mul(x, y) == 0 {
        crate::prime::lemma_no_zero_divisors(x, y);
        lemma_equal_iff_difference_zero(1, x);
    }
    if x == 1 {
        assert(y == 0);
        assert(1 * 0 == 0);
    }
    if x == 0 {
        assert(0 * y == 0);
    }
}

/// One of the first constraints of zero has the name and fails.
pub open spec fn names_a_zero(
    cb: CircuitBuilder,
    row: Seq<Goldilocks>,
    n: int,
    name: &'static str,
) -> bool {
    exists|i: int|
        0 <= i < n && value((#[trigger] cb.zeros@[i]).expr, row) != 0 && cb.zeros@[i].name == name
}

/// One of the first constraints of range has the name and fails.
pub open spec fn names_a_range(
    cb: CircuitBuilder,
    row: Seq<Goldilocks>,
    n: int,
    name: &'static str,
) -> bool {
    exists|i: int|
        0 <= i < n && value((#[trigger] cb.ranges@[i]).expr, row) >= 65536 && cb.ranges@[i].name
            == name
}

/// A name is reported for each constraint that a row does not satisfy and for no other, in the
/// order of the constraints, those of zero before those of range.
pub proof fn lemma_reported_names(cb: CircuitBuilder, row: Seq<Goldilocks>, k: int)
    ensures
        ({
            let zeros = cb.failing_zeros(row, cb.zeros@.len() as int);
            let ranges = cb.failing_ranges(row, cb.ranges@.len() as int);
            &&& 0 <= k < cb.zeros@.len() && value(cb.zeros@[k].expr, row) != 0 ==> {
                let before = cb.failing_zeros(row, k);
                &&& before.len() < zeros.len()
                &&& zeros[before.len() as int] == cb.zeros@[k].name
            }
            &&& 0 <= k < cb.ranges@.len() && value(cb.ranges@[k].expr, row) >= 65536 ==> {
                let before = cb.failing_ranges(row, k);
                &&& before.len() < ranges.len()
                &&& ranges[before.len() as int] == cb.ranges@[k].name
            }
            &&& forall|j: int|
                0 <= j < zeros.len() ==> names_a_zero(
                    cb,
                    row,
                    cb.zeros@.len() as int,
                    #[trigger] zeros[j],
                )
            &&& forall|j: int|
                0 <= j < ranges.len() ==> names_a_range(
                    cb,
                    row,
                    cb.ranges@.len() as int,
                    #[trigger] ranges[j],
                )
        }),
{
    lemma_failing_zeros(cb, row, cb.zeros@.len() as int, k);
    lemma_failing_ranges(cb, row, cb.ranges@.len() as int, k);
}

proof fn lemma_failing_zeros(cb: CircuitBuilder, row: Seq<Goldilocks>, n: int, k: int)
    requires
        0 <= n <= cb.zeros@.len(),
    ensures
        ({
            let names = cb.failing_zeros(row, n);
            &&& 0 <= k < n ==> cb.failing_zeros(row, k).len() <= names.len()
            &&& 0 <= k < n && value(cb.zeros@[k].expr, row) != 0 ==> {
                let before = cb.failing_zeros(row, k);
                &&& before.len() < names.len()
                &&& names[before.len() as int] == cb.zeros@[k].name
            }
            &&& forall|j: int|
                0 <= j < names.len() ==> names_a_zero(cb, row, n, #[trigger] names[j])
        }),
    decreases n,
{
    if n > 0 {
        lemma_failing_zeros(cb, row, n - 1, k);
        let names = cb.failing_zeros(row, n);
        let rest = cb.failing_zeros(row, n - 1);
        assert forall|j: int| 0 <= j < names.len() implies names_a_zero(
            cb,
            row,
            n,
            #[trigger] names[j],
        ) by {
            if j < rest.len() {
                assert(names_a_zero(cb, row, n - 1, rest[j]));
            } else {
                assert(cb.zeros@[n - 1].name == names[j]);
            }
        }
    }
}

proof fn lemma_failing_ranges(cb: CircuitBuilder, row: Seq<Goldilocks>, n: int, k: int)
    requires
        0 <= n <= cb.ranges@.len(),
    ensures
        ({
            let names = cb.failing_ranges(row, n);
            &&& 0 <= k < n ==> cb.failing_ranges(row, k).len() <= names.len()
            &&& 0 <= k < n && value(cb.ranges@[k].expr, row) >= 65536 ==> {
                let before = cb.failing_ranges(row, k);
                &&& before.len() < names.len()
                &&& names[before.len() as int] == cb.ranges@[k].name
            }
            &&& forall|j: int|
                0 <= j < names.len() ==> names_a_range(cb, row, n, #[trigger] names[j])
        }),
    decreases n,
{
    if n > 0 {
        lemma_failing_ranges(cb, row, n - 1, k);
        let names = cb.failing_ranges(row, n);
        let rest = cb.failing_ranges(row, n - 1);
        assert forall|j: int| 0 <= j < names.len() implies names_a_range(
            cb,
            row,
            n,
            #[trigger] names[j],
        ) by {
            if j < rest.len() {
                assert(names_a_range(cb, row, n - 1, rest[j]));
            } else {
                assert(cb.ranges@[n - 1].name == names[j]);
            }
        }
    }
}

} // verus!
