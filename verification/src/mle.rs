//! Multilinear extensions in dense evaluation form.
use vstd::arithmetic::power2::*;
use vstd::prelude::*;

use crate::field::{e_base, ge, group_field, Ext, Goldilocks, GoldilocksExt2};
use crate::multilinear::{all_valid, fix_all, fix_first, lerp, lemma_fix_all_append, mle_eval};

use crate::util::{
    ceil_log2, is_pow2, lemma_ceil_log2_pow2, lemma_pow2_monotone, spec_ceil_log2,
    spec_trailing_zeros, trailing_zeros,
};

verus! {

broadcast use group_field;

/// A point has one coordinate for each variable.
pub type Point = Vec<GoldilocksExt2>;

/// A point and the evaluation at this point.
#[derive(Clone, Debug, PartialEq)]
pub struct PointAndEval {
    pub point: Point,
    pub eval: GoldilocksExt2,
}

impl PointAndEval {
    pub fn new(point: Point, eval: GoldilocksExt2) -> (r: Self)
        ensures
            r.point == point,
            r.eval == eval,
    {
        PointAndEval { point, eval }
    }
}

/// Why a polynomial is not evaluated.
#[derive(Clone, Copy, Debug, PartialEq, Eq, Structural)]
pub enum MleError {
    /// The number of variables and the different number of coordinates of the point
    PointSize(usize, usize),
}

/// The values of a sequence of base elements.
pub open spec fn base_seq(s: Seq<Goldilocks>) -> Seq<Ext> {
    Seq::new(s.len(), |i: int| e_base(s[i]@))
}

/// The values of a sequence of extension elements.
pub open spec fn ext_seq(s: Seq<GoldilocksExt2>) -> Seq<Ext> {
    Seq::new(s.len(), |i: int| s[i]@)
}

/// A slice that is borrowed or owned.
#[derive(Debug)]
pub enum SmartSlice<'a, T> {
    Borrowed(&'a [T]),
    BorrowedMut(&'a mut [T]),
    Owned(Vec<T>),
}

impl<'a, T> View for SmartSlice<'a, T> {
    type V = Seq<T>;

    open spec fn view(&self) -> Seq<T> {
        match self {
            SmartSlice::Borrowed(s) => s@,
            SmartSlice::BorrowedMut(s) => s@,
            SmartSlice::Owned(v) => v@,
        }
    }
}

impl<'a, T> SmartSlice<'a, T> {
    /// The elements.
    pub fn as_slice(&self) -> (r: &[T])
        ensures
            r@ == self@,
    {
        match self {
            SmartSlice::Borrowed(s) => s,
            SmartSlice::BorrowedMut(s) => s,
            SmartSlice::Owned(v) => v.as_slice(),
        }
    }

    /// The number of elements.
    pub fn len(&self) -> (r: usize)
        ensures
            r == self@.len(),
    {
        match self {
            SmartSlice::Borrowed(s) => s.len(),
            SmartSlice::BorrowedMut(s) => s.len(),
            SmartSlice::Owned(v) => v.len(),
        }
    }
}

/// A mutable part of a slice.
pub fn slice_part_mut<T>(s: &mut [T], start: usize, end: usize) -> (r: &mut [T])
    requires
        start <= end <= old(s)@.len(),
    ensures
        r@ == old(s)@.subrange(start as int, end as int),
        final(s)@ == old(s)@.take(start as int) + final(r)@ + old(s)@.skip(end as int),
{
    let (_, tail) = s.split_at_mut(start);
    let (part, _) = tail.split_at_mut(end - start);
    part
}

/// A copy of the elements of a slice.
pub fn slice_to_vec<T: Copy>(s: &[T]) -> (r: Vec<T>)
    ensures
        r@ == s@,
{
    let mut r: Vec<T> = Vec::with_capacity(s.len());
    let mut i: usize = 0;
    while i < s.len()
        invariant
            i <= s@.len(),
            r@ == s@.subrange(0, i as int),
        decreases s@.len() - i,
    {
        r.push(s[i]);
        i = i + 1;
        assert(s@.subrange(0, i as int) =~= s@.subrange(0, i - 1).push(s@[i - 1]));
    }
    assert(s@.subrange(0, i as int) =~= s@);
    r
}

/// Evaluations over the base field or over the extension.
#[derive(Debug)]
pub enum FieldType<'a> {
    Base(SmartSlice<'a, Goldilocks>),
    Ext(SmartSlice<'a, GoldilocksExt2>),
    Unreachable,
}

impl<'a> View for FieldType<'a> {
    type V = Seq<Ext>;

    open spec fn view(&self) -> Seq<Ext> {
        match self {
            FieldType::Base(s) => base_seq(s@),
            FieldType::Ext(s) => ext_seq(s@),
            FieldType::Unreachable => Seq::empty(),
        }
    }
}

impl<'a> FieldType<'a> {
    /// The number of evaluations.
    pub fn len(&self) -> (r: usize)
        ensures
            r == self@.len(),
    {
        match self {
            FieldType::Base(s) => s.len(),
            FieldType::Ext(s) => s.len(),
            FieldType::Unreachable => 0,
        }
    }

    /// Whether there are no evaluations.
    pub fn is_empty(&self) -> (r: bool)
        ensures
            r == (self@.len() == 0),
    {
        self.len() == 0
    }

    /// The same evaluations, borrowed again from where they are borrowed.
    pub fn as_borrowed_view(&self) -> (r: FieldType<'a>)
        requires
            self matches FieldType::Base(s) ==> s is Borrowed,
            self matches FieldType::Ext(s) ==> s is Borrowed,
            !(self is Unreachable),
        ensures
            r == *self,
    {
        match self {
            FieldType::Base(SmartSlice::Borrowed(s)) => FieldType::Base(SmartSlice::Borrowed(*s)),
            FieldType::Ext(SmartSlice::Borrowed(s)) => FieldType::Ext(SmartSlice::Borrowed(*s)),
            _ => vstd::pervasive::unreached(),
        }
    }

    /// The name of the variant.
    pub fn variant_name(&self) -> (r: &'static str)
        ensures
            r@ == match self {
                FieldType::Base(_) => "Base"@,
                FieldType::Ext(_) => "Ext"@,
                FieldType::Unreachable => "Unreachable"@,
            },
    {
        match self {
            FieldType::Base(_) => "Base",
            FieldType::Ext(_) => "Ext",
            FieldType::Unreachable => "Unreachable",
        }
    }

    /// The evaluation at an index, as an element of the extension.
    pub fn get(&self, i: usize) -> (r: GoldilocksExt2)
        requires
            i < self@.len(),
        ensures
            r@ == self@[i as int],
    {
        match self {
            FieldType::Base(s) => GoldilocksExt2::from_base(s.as_slice()[i]),
            FieldType::Ext(s) => s.as_slice()[i],
            FieldType::Unreachable => vstd::pervasive::unreached(),
        }
    }
}

/// A multilinear polynomial in dense evaluation form.
#[derive(Debug)]
pub struct MultilinearExtension<'a> {
    /// The evaluations over `{0,1}^num_vars`
    pub evaluations: FieldType<'a>,
    /// Number of variables
    pub num_vars: usize,
}

impl<'a> View for MultilinearExtension<'a> {
    type V = Seq<Ext>;

    open spec fn view(&self) -> Seq<Ext> {
        self.evaluations@
    }
}

/// Entries of a table are valid.
pub broadcast proof fn lemma_mle_view_valid(m: MultilinearExtension)
    ensures
        #[trigger] all_valid(m@),
{
}

impl<'a> MultilinearExtension<'a> {
    /// The table has one entry for each point of the hypercube.
    pub open spec fn wf(&self) -> bool {
        &&& self@.len() == pow2(self.num_vars as nat)
        &&& !(self.evaluations is Unreachable)
    }

    /// The evaluations are in the extension field.
    pub open spec fn is_ext(&self) -> bool {
        self.evaluations is Ext
    }

    /// The evaluations are owned or mutably borrowed.
    pub open spec fn spec_is_mut(&self) -> bool {
        match self.evaluations {
            FieldType::Base(s) => !(s is Borrowed),
            FieldType::Ext(s) => !(s is Borrowed),
            FieldType::Unreachable => false,
        }
    }

    /// Whether the evaluations are owned or mutably borrowed, so that they can be changed in place.
    pub fn is_mut(&self) -> (r: bool)
        ensures
            r == self.spec_is_mut(),
    {
        match &self.evaluations {
            FieldType::Base(s) => !matches!(s, SmartSlice::Borrowed(_)),
            FieldType::Ext(s) => !matches!(s, SmartSlice::Borrowed(_)),
            FieldType::Unreachable => false,
        }
    }

    /// The polynomial with the given evaluations, taken as they are.
    pub fn from_field_type(num_vars: usize, field_type: FieldType<'a>) -> (r: Self)
        ensures
            r.num_vars == num_vars,
            r.evaluations == field_type,
    {
        MultilinearExtension { evaluations: field_type, num_vars }
    }

    /// The polynomial that borrows evaluations which are borrowed already.
    pub fn from_field_type_borrowed(num_vars: usize, field_type: &FieldType<'a>) -> (r: Self)
        requires
            field_type matches FieldType::Base(s) ==> s is Borrowed,
            field_type matches FieldType::Ext(s) ==> s is Borrowed,
            !(field_type is Unreachable),
        ensures
            r.num_vars == num_vars,
            r.evaluations == *field_type,
    {
        MultilinearExtension { evaluations: field_type.as_borrowed_view(), num_vars }
    }

    /// A polynomial from its evaluations, where the index represents a point of
    /// `{0,1}^num_vars` in little endian form: `0b1011` represents `P(1,1,0,1)`.
    pub fn from_evaluations_slice(num_vars: usize, evaluations: &'a [Goldilocks]) -> (r: Self)
        requires
            evaluations@.len() == pow2(num_vars as nat),
        ensures
            r.wf(),
            r.num_vars == num_vars,
            r.evaluations == FieldType::Base(SmartSlice::Borrowed(evaluations)),
    {
        MultilinearExtension {
            evaluations: FieldType::Base(SmartSlice::Borrowed(evaluations)),
            num_vars,
        }
    }

    /// A polynomial from its evaluations in the base field.
    pub fn from_evaluations_vec(num_vars: usize, evaluations: Vec<Goldilocks>) -> (r: Self)
        requires
            evaluations@.len() == pow2(num_vars as nat),
        ensures
            r.wf(),
            r.num_vars == num_vars,
            r.evaluations == FieldType::Base(SmartSlice::Owned(evaluations)),
    {
        MultilinearExtension {
            evaluations: FieldType::Base(SmartSlice::Owned(evaluations)),
            num_vars,
        }
    }

    /// A polynomial from its evaluations in the extension field.
    pub fn from_evaluations_ext_slice(
        num_vars: usize,
        evaluations: &'a [GoldilocksExt2],
    ) -> (r: Self)
        requires
            evaluations@.len() == pow2(num_vars as nat),
        ensures
            r.wf(),
            r.num_vars == num_vars,
            r.evaluations == FieldType::Ext(SmartSlice::Borrowed(evaluations)),
    {
        MultilinearExtension {
            evaluations: FieldType::Ext(SmartSlice::Borrowed(evaluations)),
            num_vars,
        }
    }

    /// A polynomial from its evaluations in the extension field.
    pub fn from_evaluations_ext_vec(num_vars: usize, evaluations: Vec<GoldilocksExt2>) -> (r: Self)
        requires
            evaluations@.len() == pow2(num_vars as nat),
        ensures
            r.wf(),
            r.num_vars == num_vars,
            r.evaluations == FieldType::Ext(SmartSlice::Owned(evaluations)),
    {
        MultilinearExtension {
            evaluations: FieldType::Ext(SmartSlice::Owned(evaluations)),
            num_vars,
        }
    }

    /// The number of variables.
    pub fn num_vars(&self) -> (r: usize)
        ensures
            r == self.num_vars,
    {
        self.num_vars
    }

    /// The evaluations.
    pub fn evaluations(&self) -> (r: &FieldType<'a>)
        ensures
            *r == self.evaluations,
    {
        &self.evaluations
    }

    /// The evaluations, taken out.
    pub fn evaluations_to_owned(self) -> (r: FieldType<'a>)
        ensures
            r == self.evaluations,
    {
        self.evaluations
    }

    /// The evaluations, borrowed again from where they are borrowed.
    pub fn as_evaluations_view(&self) -> (r: FieldType<'a>)
        requires
            self.evaluations matches FieldType::Base(s) ==> s is Borrowed,
            self.evaluations matches FieldType::Ext(s) ==> s is Borrowed,
            !(self.evaluations is Unreachable),
        ensures
            r == self.evaluations,
    {
        self.evaluations.as_borrowed_view()
    }

    /// The evaluations, which are in the extension field.
    pub fn get_ext_field_vec(&self) -> (r: &[GoldilocksExt2])
        requires
            self.is_ext(),
        ensures
            self.evaluations matches FieldType::Ext(s) && r@ == s@,
            self@ == ext_seq(r@),
    {
        match &self.evaluations {
            FieldType::Ext(s) => s.as_slice(),
            _ => &[],
        }
    }

    /// The evaluations, which are in the base field.
    pub fn get_base_field_vec(&self) -> (r: &[Goldilocks])
        requires
            self.evaluations is Base,
        ensures
            self.evaluations matches FieldType::Base(s) && r@ == s@,
            self@ == base_seq(r@),
    {
        match &self.evaluations {
            FieldType::Base(s) => s.as_slice(),
            _ => &[],
        }
    }

    /// A copy with owned evaluations.
    pub fn as_owned(&self) -> (r: MultilinearExtension<'static>)
        ensures
            r@ == self@,
            r.num_vars == self.num_vars,
            r.is_ext() == self.is_ext(),
            r.evaluations is Unreachable == self.evaluations is Unreachable,
            !(self.evaluations is Unreachable) ==> r.spec_is_mut(),
            self.evaluations matches FieldType::Base(s) ==> r.evaluations matches FieldType::Base(t)
                && t@ == s@,
            self.evaluations matches FieldType::Ext(s) ==> r.evaluations matches FieldType::Ext(t)
                && t@ == s@,
    {
        let evaluations = match &self.evaluations {
            FieldType::Base(s) => FieldType::Base(SmartSlice::Owned(slice_to_vec(s.as_slice()))),
            FieldType::Ext(s) => FieldType::Ext(SmartSlice::Owned(slice_to_vec(s.as_slice()))),
            FieldType::Unreachable => FieldType::Unreachable,
        };
        MultilinearExtension { evaluations, num_vars: self.num_vars }
    }

    /// The table with the first variable fixed.
    fn fix_first_variable(&self, point: GoldilocksExt2) -> (r: Vec<GoldilocksExt2>)
        requires
            self@.len() % 2 == 0,
        ensures
            r@ == fix_first(self@, point@).map_values(|e: Ext| ge(e)),
            ext_seq(r@) == fix_first(self@, point@),
    {
        let len: usize = self.evaluations.len();
        let half: usize = len / 2;
        let mut out: Vec<GoldilocksExt2> = Vec::with_capacity(half);
        let mut i: usize = 0;
        while i < half
            invariant
                i <= half,
                2 * half == len,
                len == self@.len(),
                out@.len() == i,
                forall|k: int| 0 <= k < i ==> #[trigger] out@[k] == ge(
                    lerp(self@[2 * k], self@[2 * k + 1], point@),
                ),
            decreases half - i,
        {
            let lo = self.evaluations.get(2 * i);
            let hi = self.evaluations.get(2 * i + 1);
            out.push(point * (hi - lo) + lo);
            i = i + 1;
        }
        assert(out@ =~= fix_first(self@, point@).map_values(|e: Ext| ge(e)));
        assert(ext_seq(out@) =~= fix_first(self@, point@));
        out
    }

    /// The polynomial with the leading variables fixed at `partial_point`.
    pub fn fix_variables(&self, partial_point: &[GoldilocksExt2]) -> (r: MultilinearExtension<'static>)
        requires
            self.wf(),
            partial_point@.len() <= self.num_vars,
        ensures
            r@ == fix_all(self@, ext_seq(partial_point@)),
            r.num_vars == self.num_vars - partial_point@.len(),
            r.wf(),
            r.spec_is_mut(),
            r.is_ext() == (partial_point@.len() > 0 || self.is_ext()),
    {
        if partial_point.len() == 0 {
            return self.as_owned();
        }
        proof {
            lemma_pow2_unfold(self.num_vars as nat);
        }
        let mut poly: MultilinearExtension<'static> = MultilinearExtension::from_evaluations_ext_vec(
            self.num_vars - 1,
            self.fix_first_variable(partial_point[0]),
        );
        let mut k: usize = 1;
        let ghost p = ext_seq(partial_point@);
        proof {
            reveal_with_fuel(fix_all, 2);
            assert(p.subrange(0, 1).drop_first() =~= Seq::empty());
        }
        while k < partial_point.len()
            invariant
                1 <= k <= partial_point@.len() <= self.num_vars,
                p == ext_seq(partial_point@),
                poly.wf(),
                poly.is_ext(),
                poly.spec_is_mut(),
                poly.num_vars == self.num_vars - k,
                poly@ == fix_all(self@, p.subrange(0, k as int)),
            decreases partial_point@.len() - k,
        {
            proof {
                lemma_pow2_unfold(poly.num_vars as nat);
            }
            let next = poly.fix_first_variable(partial_point[k]);
            proof {
                let q = seq![p[k as int]];
                assert(q.drop_first() =~= Seq::empty());
                reveal_with_fuel(fix_all, 2);
                assert(fix_all(poly@, q) == fix_first(poly@, p[k as int]));
                lemma_fix_all_append(self@, p.subrange(0, k as int), q);
                assert(p.subrange(0, k as int) + q =~= p.subrange(0, k + 1));
            }
            poly = MultilinearExtension::from_evaluations_ext_vec(poly.num_vars - 1, next);
            k = k + 1;
        }
        assert(p.subrange(0, k as int) =~= p);
        poly
    }

    /// Fixes the leading variables at `partial_point` in place. Evaluations in the base field
    /// move to the extension, so that at least one variable must be fixed there; mutably borrowed
    /// evaluations in the extension stay where they are.
    pub fn fix_variables_in_place(&mut self, partial_point: &[GoldilocksExt2])
        requires
            old(self).wf(),
            old(self).spec_is_mut(),
            partial_point@.len() <= old(self).num_vars,
            old(self).is_ext() || partial_point@.len() > 0,
        ensures
            final(self)@ == fix_all(old(self)@, ext_seq(partial_point@)),
            final(self).num_vars == old(self).num_vars - partial_point@.len(),
            final(self).wf(),
            final(self).spec_is_mut(),
            final(self).is_ext(),
            match old(self).evaluations {
                FieldType::Ext(SmartSlice::BorrowedMut(a)) => match final(self).evaluations {
                    FieldType::Ext(SmartSlice::BorrowedMut(b)) => {
                        &&& final(b)@.len() <= final(a)@.len()
                        &&& final(a)@.take(final(b)@.len() as int) == final(b)@
                    },
                    _ => false,
                },
                _ => true,
            },
    {
        let fixed = self.fix_variables(partial_point);
        let n: usize = fixed.evaluations.len();
        let ghost table = fixed@;
        proof {
            lemma_pow2_monotone(fixed.num_vars as nat, self.num_vars as nat);
        }
        self.num_vars = fixed.num_vars;
        let mut taken: FieldType<'a> = FieldType::Unreachable;
        std::mem::swap(&mut taken, &mut self.evaluations);
        match taken {
            FieldType::Ext(SmartSlice::BorrowedMut(s)) => {
                let (head, _) = s.split_at_mut(n);
                let mut i: usize = 0;
                while i < n
                    invariant
                        i <= n,
                        n == table.len(),
                        fixed@ == table,
                        head@.len() == n,
                        forall|k: int| 0 <= k < i ==> (#[trigger] head@[k])@ == table[k],
                    decreases n - i,
                {
                    head[i] = fixed.evaluations.get(i);
                    i = i + 1;
                }
                assert(ext_seq(head@) =~= table);
                self.evaluations = FieldType::Ext(SmartSlice::BorrowedMut(head));
            },
            _ => {
                self.evaluations = fixed.evaluations;
            },
        }
    }

    /// The same as [`Self::fix_variables`]; entries do not depend on each other.
    pub fn fix_variables_parallel(
        &self,
        partial_point: &[GoldilocksExt2],
    ) -> (r: MultilinearExtension<'static>)
        requires
            self.wf(),
            partial_point@.len() <= self.num_vars,
        ensures
            r@ == fix_all(self@, ext_seq(partial_point@)),
            r.num_vars == self.num_vars - partial_point@.len(),
            r.wf(),
            r.spec_is_mut(),
            r.is_ext() == (partial_point@.len() > 0 || self.is_ext()),
    {
        self.fix_variables(partial_point)
    }

    /// The same as [`Self::fix_variables_in_place`]; entries do not depend on each other.
    pub fn fix_variables_in_place_parallel(&mut self, partial_point: &[GoldilocksExt2])
        requires
            old(self).wf(),
            old(self).spec_is_mut(),
            partial_point@.len() <= old(self).num_vars,
            old(self).is_ext() || partial_point@.len() > 0,
        ensures
            final(self)@ == fix_all(old(self)@, ext_seq(partial_point@)),
            final(self).num_vars == old(self).num_vars - partial_point@.len(),
            final(self).wf(),
            final(self).spec_is_mut(),
            final(self).is_ext(),
            match old(self).evaluations {
                FieldType::Ext(SmartSlice::BorrowedMut(a)) => match final(self).evaluations {
                    FieldType::Ext(SmartSlice::BorrowedMut(b)) => {
                        &&& final(b)@.len() <= final(a)@.len()
                        &&& final(a)@.take(final(b)@.len() as int) == final(b)@
                    },
                    _ => false,
                },
                _ => true,
            },
    {
        self.fix_variables_in_place(partial_point)
    }

    /// The value at a point; an error if the point does not have one coordinate for each variable.
    pub fn evaluate(&self, point: &[GoldilocksExt2]) -> (r: Result<GoldilocksExt2, MleError>)
        requires
            self.wf(),
        ensures
            match r {
                Ok(value) => {
                    &&& point@.len() == self.num_vars
                    &&& value@ == mle_eval(self@, ext_seq(point@))
                },
                Err(MleError::PointSize(num_vars, len)) => {
                    &&& point@.len() != self.num_vars
                    &&& num_vars == self.num_vars
                    &&& len == point@.len()
                },
            },
    {
        if point.len() != self.num_vars {
            return Err(MleError::PointSize(self.num_vars, point.len()));
        }
        let mle = self.fix_variables_parallel(point);
        proof {
            lemma2_to64();
        }
        Ok(mle.evaluations.get(0))
    }

    /// Appends the table of `rhs`; both must be over one field. A polynomial without evaluations
    /// becomes `rhs`.
    pub fn merge(&mut self, rhs: MultilinearExtension<'a>)
        requires
            old(self)@.len() + rhs@.len() <= usize::MAX,
            match (old(self).evaluations, rhs.evaluations) {
                (FieldType::Base(_), FieldType::Base(_)) => true,
                (FieldType::Ext(_), FieldType::Ext(_)) => true,
                (FieldType::Unreachable, FieldType::Base(_)) => true,
                (FieldType::Unreachable, FieldType::Ext(_)) => true,
                _ => false,
            },
        ensures
            final(self)@ == old(self)@ + rhs@,
            final(self).is_ext() == rhs.is_ext(),
            old(self).evaluations is Unreachable ==> *final(self) == rhs,
            !(old(self).evaluations is Unreachable) ==> final(self).num_vars == spec_ceil_log2(
                final(self)@.len(),
            ),
    {
        let ghost before = self@;
        match (&self.evaluations, &rhs.evaluations) {
            (FieldType::Base(a), FieldType::Base(b)) => {
                let joined = concat_slices(a.as_slice(), b.as_slice());
                let num_vars: usize = ceil_log2(joined.len());
                assert(base_seq(joined@) =~= base_seq(a@) + base_seq(b@));
                self.num_vars = num_vars;
                self.evaluations = FieldType::Base(SmartSlice::Owned(joined));
            },
            (FieldType::Ext(a), FieldType::Ext(b)) => {
                let joined = concat_slices(a.as_slice(), b.as_slice());
                let num_vars: usize = ceil_log2(joined.len());
                assert(ext_seq(joined@) =~= ext_seq(a@) + ext_seq(b@));
                self.num_vars = num_vars;
                self.evaluations = FieldType::Ext(SmartSlice::Owned(joined));
            },
            _ => {
                assert(before + rhs@ =~= rhs@);
                self.num_vars = rhs.num_vars;
                self.evaluations = rhs.evaluations;
            },
        }
    }

    /// A view of the whole polynomial.
    pub fn as_view(&self) -> (r: MultilinearExtension<'_>)
        requires
            self@.len() > 0,
        ensures
            r@ == self@,
            r.num_vars == self.num_vars,
            r.is_ext() == self.is_ext(),
            !(r.evaluations is Unreachable),
            !r.spec_is_mut(),
    {
        let r = self.as_view_slice(1, 0);
        assert(self@.subrange(0, self@.len() as int) =~= self@);
        r
    }

    /// A view of one of `num_chunks` chunks of equal length.
    pub fn as_view_slice(&self, num_chunks: usize, chunk_index: usize) -> (r: MultilinearExtension<
        '_,
    >)
        requires
            num_chunks > 0,
            self@.len() > 0,
            self@.len() as int % num_chunks as int == 0,
            chunk_index < num_chunks,
            spec_trailing_zeros(num_chunks as nat) <= self.num_vars,
        ensures
            r@ == chunk(self@, num_chunks as int, chunk_index as int),
            r.num_vars == self.num_vars - spec_trailing_zeros(num_chunks as nat),
            r.is_ext() == self.is_ext(),
            !(r.evaluations is Unreachable),
            !r.spec_is_mut(),
    {
        let total: usize = self.evaluations.len();
        let size: usize = total / num_chunks;
        proof {
            lemma_chunk_bounds(total as int, num_chunks as int, chunk_index as int);
        }
        let start: usize = size * chunk_index;
        let num_vars: usize = self.num_vars - trailing_zeros(num_chunks);
        MultilinearExtension { evaluations: self.view_range(start, start + size), num_vars }
    }

    /// A mutable view of one of `num_chunks` chunks of equal length: what is written to the view is
    /// written to that chunk.
    pub fn as_view_slice_mut(&mut self, num_chunks: usize, chunk_index: usize) -> (r:
        MultilinearExtension<'_>)
        requires
            old(self).spec_is_mut(),
            num_chunks > 0,
            old(self)@.len() > 0,
            old(self)@.len() as int % num_chunks as int == 0,
            chunk_index < num_chunks,
            spec_trailing_zeros(num_chunks as nat) <= old(self).num_vars,
        ensures
            r@ == chunk(old(self)@, num_chunks as int, chunk_index as int),
            r.num_vars == old(self).num_vars - spec_trailing_zeros(num_chunks as nat),
            r.is_ext() == old(self).is_ext(),
            r.spec_is_mut(),
            final(self).num_vars == old(self).num_vars,
            ({
                let size = old(self)@.len() as int / num_chunks as int;
                let start = size * chunk_index;
                match (old(self).evaluations, r.evaluations, final(self).evaluations) {
                    (
                        FieldType::Base(before),
                        FieldType::Base(SmartSlice::BorrowedMut(part)),
                        FieldType::Base(after),
                    ) => after@ == before@.take(start) + final(part)@ + before@.skip(start + size),
                    (
                        FieldType::Ext(before),
                        FieldType::Ext(SmartSlice::BorrowedMut(part)),
                        FieldType::Ext(after),
                    ) => after@ == before@.take(start) + final(part)@ + before@.skip(start + size),
                    _ => false,
                }
            }),
    {
        let total: usize = self.evaluations.len();
        let size: usize = total / num_chunks;
        proof {
            lemma_chunk_bounds(total as int, num_chunks as int, chunk_index as int);
        }
        let start: usize = size * chunk_index;
        let num_vars: usize = self.num_vars - trailing_zeros(num_chunks);
        let ghost before = self@;
        let evaluations = match &mut self.evaluations {
            FieldType::Base(SmartSlice::BorrowedMut(s)) => {
                let part = slice_part_mut(s, start, start + size);
                assert(base_seq(part@) =~= before.subrange(start as int, start + size));
                FieldType::Base(SmartSlice::BorrowedMut(part))
            },
            FieldType::Base(SmartSlice::Owned(v)) => {
                let part = slice_part_mut(v.as_mut_slice(), start, start + size);
                assert(base_seq(part@) =~= before.subrange(start as int, start + size));
                FieldType::Base(SmartSlice::BorrowedMut(part))
            },
            FieldType::Ext(SmartSlice::BorrowedMut(s)) => {
                let part = slice_part_mut(s, start, start + size);
                assert(ext_seq(part@) =~= before.subrange(start as int, start + size));
                FieldType::Ext(SmartSlice::BorrowedMut(part))
            },
            FieldType::Ext(SmartSlice::Owned(v)) => {
                let part = slice_part_mut(v.as_mut_slice(), start, start + size);
                assert(ext_seq(part@) =~= before.subrange(start as int, start + size));
                FieldType::Ext(SmartSlice::BorrowedMut(part))
            },
            _ => vstd::pervasive::unreached(),
        };
        MultilinearExtension { evaluations, num_vars }
    }

    /// A mutable view of the whole polynomial.
    pub fn as_view_mut(&mut self) -> (r: MultilinearExtension<'_>)
        requires
            old(self).spec_is_mut(),
            old(self)@.len() > 0,
        ensures
            r@ == old(self)@,
            r.num_vars == old(self).num_vars,
            r.is_ext() == old(self).is_ext(),
            r.spec_is_mut(),
            final(self).num_vars == old(self).num_vars,
            match (r.evaluations, final(self).evaluations) {
                (
                    FieldType::Base(SmartSlice::BorrowedMut(part)),
                    FieldType::Base(after),
                ) => after@ == final(part)@,
                (
                    FieldType::Ext(SmartSlice::BorrowedMut(part)),
                    FieldType::Ext(after),
                ) => after@ == final(part)@,
                _ => false,
            },
    {
        self.as_view_slice_mut(1, 0)
    }

    /// Views of the `num_chunks` chunks of equal length.
    pub fn as_view_chunks(&self, num_chunks: usize) -> (r: Vec<MultilinearExtension<'_>>)
        requires
            num_chunks > 0,
            self@.len() > 0,
            self@.len() as int % num_chunks as int == 0,
            spec_ceil_log2(num_chunks as nat) <= self.num_vars,
        ensures
            r@.len() == num_chunks,
            forall|c: int|
                0 <= c < num_chunks ==> {
                    &&& (#[trigger] r@[c])@ == chunk(self@, num_chunks as int, c)
                    &&& r@[c].num_vars == self.num_vars - spec_ceil_log2(num_chunks as nat)
                    &&& r@[c].is_ext() == self.is_ext()
                    &&& !(r@[c].evaluations is Unreachable)
                    &&& !r@[c].spec_is_mut()
                },
    {
        let total: usize = self.evaluations.len();
        let size: usize = total / num_chunks;
        let num_vars: usize = self.num_vars - ceil_log2(num_chunks);
        let mut out: Vec<MultilinearExtension<'_>> = Vec::with_capacity(num_chunks);
        let mut c: usize = 0;
        while c < num_chunks
            invariant
                c <= num_chunks,
                total == self@.len(),
                total > 0,
                total % num_chunks == 0,
                size == total / num_chunks,
                num_vars == self.num_vars - spec_ceil_log2(num_chunks as nat),
                out@.len() == c,
                forall|k: int|
                    0 <= k < c ==> {
                        &&& (#[trigger] out@[k])@ == chunk(self@, num_chunks as int, k)
                        &&& out@[k].num_vars == num_vars
                        &&& out@[k].is_ext() == self.is_ext()
                        &&& !(out@[k].evaluations is Unreachable)
                        &&& !out@[k].spec_is_mut()
                    },
            decreases num_chunks - c,
        {
            proof {
                lemma_chunk_bounds(total as int, num_chunks as int, c as int);
            }
            let start: usize = size * c;
            out.push(
                MultilinearExtension { evaluations: self.view_range(start, start + size), num_vars },
            );
            c = c + 1;
        }
        out
    }

    fn view_range(&self, start: usize, end: usize) -> (r: FieldType<'_>)
        requires
            start <= end <= self@.len(),
            !(self.evaluations is Unreachable),
        ensures
            r@ == self@.subrange(start as int, end as int),
            r is Ext == self.is_ext(),
            !(r is Unreachable),
            r matches FieldType::Base(s) ==> s is Borrowed,
            r matches FieldType::Ext(s) ==> s is Borrowed,
    {
        match &self.evaluations {
            FieldType::Base(s) => {
                let part = vstd::slice::slice_subrange(s.as_slice(), start, end);
                assert(base_seq(part@) =~= self@.subrange(start as int, end as int));
                FieldType::Base(SmartSlice::Borrowed(part))
            },
            FieldType::Ext(s) => {
                let part = vstd::slice::slice_subrange(s.as_slice(), start, end);
                assert(ext_seq(part@) =~= self@.subrange(start as int, end as int));
                FieldType::Ext(SmartSlice::Borrowed(part))
            },
            FieldType::Unreachable => FieldType::Unreachable,
        }
    }
}

/// One of `num_chunks` chunks of equal length.
pub open spec fn chunk<T>(s: Seq<T>, num_chunks: int, index: int) -> Seq<T> {
    let size = s.len() as int / num_chunks;
    s.subrange(size * index, size * index + size)
}

/// The chunks of a table lie inside it.
pub proof fn lemma_chunk_bounds(total: int, num_chunks: int, index: int)
    requires
        0 <= index < num_chunks,
        total >= 0,
    ensures
        0 <= (total / num_chunks) * index <= (total / num_chunks) * index + total / num_chunks
            <= total,
{
    let size = total / num_chunks;
    vstd::arithmetic::div_mod::lemma_fundamental_div_mod(total, num_chunks);
    assert(size >= 0) by {
        vstd::arithmetic::div_mod::lemma_div_pos_is_pos(total, num_chunks);
    }
    assert(size * index + size <= num_chunks * size) by (nonlinear_arith)
        requires
            index + 1 <= num_chunks,
            size >= 0,
    ;
    assert(0 <= size * index) by (nonlinear_arith)
        requires
            index >= 0,
            size >= 0,
    ;
    vstd::arithmetic::div_mod::lemma_mod_bound(total, num_chunks);
}

/// The first `k` chunks, one after the other.
pub open spec fn join_chunks<T>(s: Seq<T>, num_chunks: int, k: int) -> Seq<T>
    decreases k,
{
    if k <= 0 {
        Seq::empty()
    } else {
        join_chunks(s, num_chunks, k - 1) + chunk(s, num_chunks, k - 1)
    }
}

/// The chunks of a table, one after the other, are the table.
pub proof fn lemma_chunks_join<T>(s: Seq<T>, num_chunks: int)
    requires
        num_chunks > 0,
        s.len() as int % num_chunks == 0,
    ensures
        join_chunks(s, num_chunks, num_chunks) == s,
{
    lemma_join_prefix(s, num_chunks, num_chunks);
    vstd::arithmetic::div_mod::lemma_fundamental_div_mod(s.len() as int, num_chunks);
    let size = s.len() as int / num_chunks;
    assert(size * num_chunks == num_chunks * size) by (nonlinear_arith);
    assert(s.subrange(0, s.len() as int) =~= s);
}

proof fn lemma_join_prefix<T>(s: Seq<T>, num_chunks: int, k: int)
    requires
        0 <= k <= num_chunks,
        num_chunks > 0,
    ensures
        0 <= (s.len() as int / num_chunks) * k <= s.len(),
        join_chunks(s, num_chunks, k) == s.subrange(0, (s.len() as int / num_chunks) * k),
    decreases k,
{
    let size = s.len() as int / num_chunks;
    if k > 0 {
        lemma_join_prefix(s, num_chunks, k - 1);
        lemma_chunk_bounds(s.len() as int, num_chunks, k - 1);
        assert(size * (k - 1) + size == size * k) by (nonlinear_arith);
        assert(join_chunks(s, num_chunks, k) =~= s.subrange(0, size * k));
    } else {
        assert(join_chunks(s, num_chunks, k) =~= s.subrange(0, 0));
    }
}

/// The elements of two slices, one after the other.
pub fn concat_slices<T: Copy>(a: &[T], b: &[T]) -> (r: Vec<T>)
    requires
        a@.len() + b@.len() <= usize::MAX,
    ensures
        r@ == a@ + b@,
{
    let mut r = slice_to_vec(a);
    let mut i: usize = 0;
    while i < b.len()
        invariant
            i <= b@.len(),
            r@ == a@ + b@.subrange(0, i as int),
        decreases b@.len() - i,
    {
        r.push(b[i]);
        i = i + 1;
        assert(b@.subrange(0, i as int) =~= b@.subrange(0, i - 1).push(b@[i - 1]));
        assert(r@ =~= a@ + b@.subrange(0, i as int));
    }
    assert(b@.subrange(0, i as int) =~= b@);
    r
}

/// Conversion of a vector of evaluations, whose length is a power of two.
pub trait IntoMLE: Sized {
    /// The evaluations.
    spec fn values(self) -> Seq<Ext>;

    /// The evaluations are in the extension field.
    spec fn over_ext(self) -> bool;

    /// The multilinear extension with these evaluations.
    fn into_mle(self) -> (r: MultilinearExtension<'static>)
        requires
            is_pow2(self.values().len() as int),
        ensures
            r.wf(),
            r@ == self.values(),
            r.is_ext() == self.over_ext(),
            r.spec_is_mut(),
            r.num_vars == spec_ceil_log2(self.values().len()),
    ;
}

proof fn lemma_log_of_pow2(len: nat)
    requires
        is_pow2(len as int),
    ensures
        len == pow2(spec_ceil_log2(len)),
{
    let n = choose|n: nat| len == #[trigger] pow2(n);
    lemma_ceil_log2_pow2(n);
}

impl IntoMLE for Vec<Goldilocks> {
    open spec fn values(self) -> Seq<Ext> {
        base_seq(self@)
    }

    open spec fn over_ext(self) -> bool {
        false
    }

    fn into_mle(self) -> (r: MultilinearExtension<'static>)
        ensures
            r.evaluations == FieldType::Base(SmartSlice::Owned(self)),
    {
        proof {
            lemma_log_of_pow2(self@.len());
        }
        let num_vars: usize = ceil_log2(self.len());
        MultilinearExtension::from_evaluations_vec(num_vars, self)
    }
}

impl IntoMLE for Vec<GoldilocksExt2> {
    open spec fn values(self) -> Seq<Ext> {
        ext_seq(self@)
    }

    open spec fn over_ext(self) -> bool {
        true
    }

    fn into_mle(self) -> (r: MultilinearExtension<'static>)
        ensures
            r.evaluations == FieldType::Ext(SmartSlice::Owned(self)),
    {
        proof {
            lemma_log_of_pow2(self@.len());
        }
        let num_vars: usize = ceil_log2(self.len());
        MultilinearExtension::from_evaluations_ext_vec(num_vars, self)
    }
}

/// Conversion of several vectors of evaluations.
pub trait IntoMLEs: Sized {
    /// The evaluations of each polynomial.
    spec fn tables(self) -> Seq<Seq<Ext>>;

    /// One multilinear extension for each vector.
    fn into_mles(self) -> (r: Vec<MultilinearExtension<'static>>)
        requires
            forall|k: int|
                0 <= k < self.tables().len() ==> is_pow2((#[trigger] self.tables()[k]).len() as int),
        ensures
            r@.len() == self.tables().len(),
            forall|k: int|
                0 <= k < r@.len() ==> (#[trigger] r@[k]).wf() && r@[k]@ == self.tables()[k],
    ;
}

impl IntoMLEs for Vec<Vec<Goldilocks>> {
    open spec fn tables(self) -> Seq<Seq<Ext>> {
        Seq::new(self@.len(), |k: int| base_seq(self@[k]@))
    }

    fn into_mles(self) -> (r: Vec<MultilinearExtension<'static>>)
        ensures
            forall|k: int| 0 <= k < r@.len() ==> (#[trigger] r@[k]).evaluations is Base,
    {
        let mut out: Vec<MultilinearExtension<'static>> = Vec::new();
        let mut k: usize = 0;
        while k < self.len()
            invariant
                k <= self@.len(),
                forall|j: int|
                    0 <= j < self.tables().len() ==> is_pow2(
                        (#[trigger] self.tables()[j]).len() as int,
                    ),
                out@.len() == k,
                forall|j: int|
                    0 <= j < k ==> {
                        &&& (#[trigger] out@[j]).wf()
                        &&& out@[j]@ == self.tables()[j]
                        &&& out@[j].evaluations is Base
                    },
            decreases self@.len() - k,
        {
            let column = slice_to_vec(self[k].as_slice());
            assert(base_seq(column@) == self.tables()[k as int]);
            out.push(column.into_mle());
            k = k + 1;
        }
        out
    }
}

} // verus!
