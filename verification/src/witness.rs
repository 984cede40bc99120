//! Witness matrices, padded to a power of two of rows.
use p3_matrix::dense::DenseMatrix;
use vstd::arithmetic::div_mod::*;
use vstd::arithmetic::power2::*;
use vstd::prelude::*;

use crate::dense::{
    dense_cells, dense_full, dense_height, dense_height_of, dense_new, dense_pad_to_height,
    dense_set, dense_values_of, dense_width, dense_width_of,
};
use crate::field::{gl, Goldilocks, GoldilocksExt2};
use crate::mle::{FieldType, IntoMLE, MultilinearExtension};
use crate::util::{is_pow2, lemma_ceil_log2, next_power_of_two, spec_next_power_of_two};

verus! {

/// The blowup for which a new matrix reserves space.
pub const CAPACITY_RESERVED_FACTOR: usize = 2;

/// The next power of two, but at least 2.
pub open spec fn spec_next_pow2_instance_padding(n: nat) -> nat {
    if spec_next_power_of_two(n) < 2 {
        2
    } else {
        spec_next_power_of_two(n)
    }
}

/// The next power of two, but at least 2.
pub fn next_pow2_instance_padding(num_instance: usize) -> (r: usize)
    requires
        spec_next_power_of_two(num_instance as nat) <= usize::MAX,
    ensures
        r == spec_next_pow2_instance_padding(num_instance as nat),
        r >= num_instance,
        r >= 2,
        is_pow2(r as int),
{
    let n: usize = next_power_of_two(num_instance);
    proof {
        lemma2_to64();
        assert(is_pow2(2)) by {
            assert(pow2(1) == 2);
        }
    }
    if n < 2 {
        2
    } else {
        n
    }
}

/// Padded heights are powers of two.
pub proof fn lemma_padding_is_pow2(n: nat)
    ensures
        is_pow2(spec_next_pow2_instance_padding(n) as int),
        spec_next_pow2_instance_padding(n) >= n,
        spec_next_pow2_instance_padding(n) >= 2,
{
    lemma2_to64();
    lemma_ceil_log2(n);
    assert(pow2(1) == 2);
}

/// A power of two is its own padded height.
pub proof fn lemma_pow2_padding(n: nat)
    requires
        is_pow2(n as int),
        n >= 2,
    ensures
        spec_next_power_of_two(n) == n,
        spec_next_pow2_instance_padding(n) == n,
{
    let k = choose|k: nat| n == pow2(k);
    crate::util::lemma_ceil_log2_pow2(k);
}

/// A rule for the cells of padding rows.
pub trait PaddingFn {
    /// The cells for which the rule gives a value.
    spec fn covers(&self, row: u64, col: u64) -> bool;

    /// The value for the cell at a row and a column.
    spec fn cell(&self, row: u64, col: u64) -> u64;

    /// The value for the cell at a row and a column.
    fn pad(&self, row: u64, col: u64) -> (r: u64)
        requires
            self.covers(row, col),
        ensures
            r == self.cell(row, col),
    ;
}

/// How the rows after the last instance are filled.
pub enum InstancePaddingStrategy {
    /// With zeros
    Default,
    /// With copies of the last row
    RepeatLast,
    /// With `pad(i, j)` for the cell at row `i` and column `j`
    Custom(Box<dyn PaddingFn>),
}

/// A matrix of witnesses, one row for each instance and padding rows after them.
pub struct RowMajorMatrix {
    pub inner: DenseMatrix<u64, Vec<u64>>,
    /// The number of instances before padding
    pub num_rows: usize,
    pub is_padded: bool,
    pub padding_strategy: InstancePaddingStrategy,
}

impl RowMajorMatrix {
    /// The representatives of the cells, row by row.
    pub open spec fn cells(&self) -> Seq<u64> {
        dense_cells(self.inner)
    }

    /// The number of columns.
    pub open spec fn width(&self) -> nat {
        dense_width(self.inner)
    }

    /// The number of rows with padding.
    pub open spec fn height(&self) -> nat {
        dense_height(self.inner)
    }

    /// The rows are full and there is one for each instance.
    pub open spec fn wf(&self) -> bool {
        &&& dense_full(self.inner)
        &&& self.width() > 0 ==> self.num_rows <= self.height()
        &&& spec_next_power_of_two(self.num_rows as nat) <= usize::MAX
    }

    /// The cell at a row and a column.
    pub open spec fn at(&self, row: int, col: int) -> Goldilocks {
        Goldilocks { value: self.cells()[row * self.width() + col] }
    }

    /// The matrix without rows and columns.
    pub fn empty() -> (r: RowMajorMatrix)
        ensures
            r.wf(),
            r.cells() == Seq::<u64>::empty(),
            r.width() == 0,
            r.num_rows == 0,
            r.is_padded,
            r.padding_strategy is Default,
    {
        proof {
            lemma2_to64();
        }
        RowMajorMatrix {
            inner: dense_new(Vec::new(), 0),
            num_rows: 0,
            is_padded: true,
            padding_strategy: InstancePaddingStrategy::Default,
        }
    }

    /// A padded matrix of sampled cells.
    pub fn rand(samples: Vec<Goldilocks>, rows: usize, cols: usize) -> (r: RowMajorMatrix)
        requires
            spec_next_power_of_two(rows as nat) <= usize::MAX,
            rows > 0,
            samples@.len() == spec_next_pow2_instance_padding(rows as nat) * cols,
        ensures
            r.wf(),
            r.num_rows == rows,
            r.width() == cols,
            r.cells() == samples@.map_values(|x: Goldilocks| x.value),
            r.is_padded,
            r.padding_strategy is Default,
    {
        let values = representatives(&samples);
        proof {
            lemma_padding_is_pow2(rows as nat);
            lemma_rows(spec_next_pow2_instance_padding(rows as nat) as int, cols as int);
        }
        RowMajorMatrix {
            inner: dense_new(values, cols),
            num_rows: rows,
            is_padded: true,
            padding_strategy: InstancePaddingStrategy::Default,
        }
    }

    /// A matrix of zeros for the given number of instances.
    pub fn new(
        num_rows: usize,
        num_cols: usize,
        padding_strategy: InstancePaddingStrategy,
    ) -> (r: RowMajorMatrix)
        requires
            CAPACITY_RESERVED_FACTOR * spec_next_pow2_instance_padding(num_rows as nat) * num_cols
                <= usize::MAX,
            spec_next_power_of_two(num_rows as nat) <= usize::MAX,
        ensures
            r.wf(),
            r.num_rows == num_rows,
            r.width() == num_cols,
            r.cells() == Seq::new(
                spec_next_pow2_instance_padding(num_rows as nat) * num_cols as nat,
                |i: int| 0u64,
            ),
            r.is_padded == (padding_strategy is Default),
            r.padding_strategy == padding_strategy,
    {
        let num_row_padded: usize = next_pow2_instance_padding(num_rows);
        proof {
            lemma_rows(num_row_padded as int, num_cols as int);
            assert(2 * num_row_padded * num_cols == 2 * (num_row_padded * num_cols))
                by (nonlinear_arith);
            assert(num_row_padded * num_cols >= 0) by (nonlinear_arith);
        }
        let len: usize = num_row_padded * num_cols;
        let mut value: Vec<u64> = Vec::with_capacity(CAPACITY_RESERVED_FACTOR * len);
        let mut i: usize = 0;
        while i < len
            invariant
                i <= len,
                value@ == Seq::new(i as nat, |i: int| 0u64),
            decreases len - i,
        {
            value.push(0);
            i = i + 1;
            assert(value@ =~= Seq::new(i as nat, |i: int| 0u64));
        }
        let is_padded: bool = matches!(padding_strategy, InstancePaddingStrategy::Default);
        RowMajorMatrix { inner: dense_new(value, num_cols), num_rows, is_padded, padding_strategy }
    }

    /// A matrix whose rows are instances, padded with zero rows.
    pub fn new_by_inner_matrix(
        m: DenseMatrix<u64, Vec<u64>>,
        padding_strategy: InstancePaddingStrategy,
    ) -> (r: RowMajorMatrix)
        requires
            dense_full(m),
            spec_next_power_of_two(dense_height(m)) <= usize::MAX,
            dense_width(m) * spec_next_pow2_instance_padding(dense_height(m)) <= usize::MAX,
        ensures
            r.wf(),
            r.num_rows == dense_height(m),
            r.width() == dense_width(m),
            r.cells() == dense_cells(m) + Seq::new(
                ((spec_next_pow2_instance_padding(dense_height(m)) - dense_height(m))
                    * dense_width(m)) as nat,
                |i: int| 0u64,
            ),
            r.is_padded == (padding_strategy is Default),
            r.padding_strategy == padding_strategy,
    {
        let mut m = m;
        let num_rows: usize = dense_height_of(&m);
        let num_row_padded: usize = next_pow2_instance_padding(num_rows);
        let ghost cells = dense_cells(m);
        let ghost w = dense_width(m) as int;
        proof {
            lemma_full(m);
            assert(w * num_row_padded - num_rows * w == (num_row_padded - num_rows) * w)
                by (nonlinear_arith);
            assert(num_rows * w == w * num_rows) by (nonlinear_arith);
        }
        if num_row_padded > num_rows {
            dense_pad_to_height(&mut m, num_row_padded, 0);
            proof {
                assert(dense_cells(m).len() == w * num_row_padded);
                assert(w * num_row_padded == num_row_padded * w) by (nonlinear_arith);
                lemma_rows(num_row_padded as int, w);
            }
        } else {
            proof {
                assert((num_row_padded - num_rows) * w == 0) by (nonlinear_arith)
                    requires
                        num_row_padded == num_rows,
                ;
                assert(cells + Seq::new(0, |i: int| 0u64) =~= cells);
            }
        }
        let is_padded: bool = matches!(padding_strategy, InstancePaddingStrategy::Default);
        RowMajorMatrix { inner: m, num_rows, is_padded, padding_strategy }
    }

    /// A matrix from the cells of its instances, padded with zero rows. Without columns there are no
    /// instances and no cells.
    pub fn new_by_values(
        values: Vec<Goldilocks>,
        num_cols: usize,
        padding_strategy: InstancePaddingStrategy,
    ) -> (r: RowMajorMatrix)
        requires
            num_cols > 0 ==> {
                let rows = values@.len() / (num_cols as nat);
                &&& values@.len() % (num_cols as nat) == 0
                &&& spec_next_power_of_two(rows) <= usize::MAX
                &&& num_cols * spec_next_pow2_instance_padding(rows) <= usize::MAX
            },
        ensures
            r.wf(),
            r.width() == num_cols,
            num_cols == 0 ==> r.num_rows == 0 && r.cells() == Seq::<u64>::empty(),
            num_cols > 0 ==> {
                &&& r.num_rows == values@.len() / (num_cols as nat)
                &&& r.cells() == values@.map_values(|x: Goldilocks| x.value) + Seq::new(
                    ((spec_next_pow2_instance_padding(r.num_rows as nat) - r.num_rows)
                        * num_cols) as nat,
                    |i: int| 0u64,
                )
            },
            r.is_padded == (padding_strategy is Default),
            r.padding_strategy == padding_strategy,
    {
        if num_cols == 0 {
            proof {
                lemma2_to64();
                assert((spec_next_pow2_instance_padding(0) - 0) * 0 == 0) by (nonlinear_arith);
            }
            return RowMajorMatrix::new_by_inner_matrix(dense_new(Vec::new(), 0), padding_strategy);
        }
        let cells = representatives(&values);
        proof {
            lemma_fundamental_div_mod(values@.len() as int, num_cols as int);
            let h = values@.len() as int / num_cols as int;
            assert(num_cols * h == h * num_cols) by (nonlinear_arith);
        }
        RowMajorMatrix::new_by_inner_matrix(dense_new(cells, num_cols), padding_strategy)
    }

    /// The number of columns.
    pub fn n_col(&self) -> (r: usize)
        ensures
            r == self.width(),
    {
        dense_width_of(&self.inner)
    }

    /// The number of instances.
    pub fn num_instances(&self) -> (r: usize)
        ensures
            r == self.num_rows,
    {
        self.num_rows
    }

    /// The number of rows that pad the instances to a power of two.
    pub fn num_padding_instances(&self) -> (r: usize)
        requires
            self.wf(),
        ensures
            r == spec_next_pow2_instance_padding(self.num_rows as nat) - self.num_rows,
    {
        next_pow2_instance_padding(self.num_rows) - self.num_rows
    }

    /// The logarithm of the number of rows, rounded down.
    pub fn num_vars(&self) -> (r: usize)
        requires
            self.height() > 0,
        ensures
            pow2(r as nat) <= self.height() < pow2((r + 1) as nat),
    {
        let height: usize = dense_height_of(&self.inner);
        let mut n: usize = 0;
        let mut rest: usize = height;
        proof {
            lemma2_to64();
        }
        while rest > 1
            invariant
                rest > 0,
                n + rest <= height,
                pow2(n as nat) * rest <= height < pow2(n as nat) * (rest + 1),
            decreases rest,
        {
            proof {
                lemma_pow2_unfold((n + 1) as nat);
                let p = pow2(n as nat) as int;
                let h = rest as int / 2;
                assert((2 * p) * h <= p * rest) by (nonlinear_arith)
                    requires
                        2 * h <= rest,
                        p >= 0,
                ;
                assert((2 * p) * (h + 1) >= p * (rest + 1)) by (nonlinear_arith)
                    requires
                        2 * h + 1 >= rest,
                        p >= 0,
                ;
            }
            n = n + 1;
            rest = rest / 2;
        }
        proof {
            lemma_pow2_unfold((n + 1) as nat);
            assert(rest == 1);
        }
        n
    }

    /// The representatives of the cells.
    pub fn values(&self) -> (r: &Vec<u64>)
        ensures
            r@ == self.cells(),
    {
        dense_values_of(&self.inner)
    }

    /// The matrix without its padding state.
    pub fn into_inner(self) -> (r: DenseMatrix<u64, Vec<u64>>)
        ensures
            r == self.inner,
    {
        self.inner
    }

    /// The cell at a row and a column.
    pub fn get(&self, row: usize, col: usize) -> (r: Goldilocks)
        requires
            self.wf(),
            row < self.height(),
            col < self.width(),
        ensures
            r == self.at(row as int, col as int),
    {
        let width: usize = dense_width_of(&self.inner);
        let values = dense_values_of(&self.inner);
        let len: usize = values.len();
        proof {
            lemma_full(self.inner);
            lemma_cell_index(row as int, col as int, self.height() as int, width as int);
            assert(len == self.cells().len());
        }
        Goldilocks { value: values[row * width + col] }
    }

    /// Changes the cell at a row and a column.
    pub fn set(&mut self, row: usize, col: usize, value: Goldilocks)
        requires
            old(self).wf(),
            row < old(self).height(),
            col < old(self).width(),
        ensures
            final(self).wf(),
            final(self).width() == old(self).width(),
            final(self).height() == old(self).height(),
            final(self).num_rows == old(self).num_rows,
            final(self).is_padded == old(self).is_padded,
            final(self).padding_strategy == old(self).padding_strategy,
            final(self).cells() == old(self).cells().update(
                row * old(self).width() + col,
                value.value,
            ),
            forall|r: int, c: int|
                0 <= r < old(self).height() && 0 <= c < old(self).width()
                    ==> #[trigger] final(self).at(r, c) == if r == row && c == col {
                    value
                } else {
                    old(self).at(r, c)
                },
    {
        proof {
            lemma_full(self.inner);
            lemma_cell_index(
                row as int,
                col as int,
                self.height() as int,
                self.width() as int,
            );
        }
        dense_set(&mut self.inner, row, col, value.value);
        proof {
            assert forall|r: int, c: int|
                0 <= r < old(self).height() && 0 <= c < old(self).width() implies #[trigger] self.at(
                r,
                c,
            ) == if r == row && c == col {
                value
            } else {
                old(self).at(r, c)
            } by {
                lemma_cell_index(r, c, old(self).height() as int, old(self).width() as int);
                let w = old(self).width() as int;
                if r * w + c == row * w + col {
                    lemma_cell_unique(r, c, row as int, col as int, w);
                }
            }
        }
    }

    /// The cell at a row and a column after padding.
    pub open spec fn padded_at(&self, row: int, col: int) -> Goldilocks {
        if row < self.num_rows {
            self.at(row, col)
        } else {
            match self.padding_strategy {
                InstancePaddingStrategy::Default => self.at(row, col),
                InstancePaddingStrategy::RepeatLast => if self.num_rows == 0 {
                    self.at(row, col)
                } else {
                    self.at(self.num_rows - 1, col)
                },
                InstancePaddingStrategy::Custom(f) => Goldilocks {
                    value: f.cell(row as u64, col as u64),
                },
            }
        }
    }

    /// Fills the padding rows by the strategy of the matrix.
    pub fn padding_by_strategy(&mut self)
        requires
            old(self).wf(),
            old(self).padding_strategy matches InstancePaddingStrategy::Custom(f) ==> forall|
                row: int,
                col: int,
            |
                old(self).num_rows <= row < old(self).height() && 0 <= col < old(self).width()
                    ==> #[trigger] f.covers(row as u64, col as u64),
        ensures
            final(self).wf(),
            final(self).width() == old(self).width(),
            final(self).height() == old(self).height(),
            final(self).num_rows == old(self).num_rows,
            final(self).padding_strategy == old(self).padding_strategy,
            final(self).is_padded == (old(self).is_padded || !(old(self).padding_strategy is RepeatLast)
                || old(self).num_rows > 0),
            forall|r: int, c: int|
                0 <= r < old(self).height() && 0 <= c < old(self).width()
                    ==> #[trigger] final(self).at(r, c) == old(self).padded_at(r, c),
    {
        let height: usize = dense_height_of(&self.inner);
        let width: usize = dense_width_of(&self.inner);
        let start: usize = self.num_rows;
        let plain: bool = match &self.padding_strategy {
            InstancePaddingStrategy::Default => true,
            _ => false,
        };
        let repeat: bool = match &self.padding_strategy {
            InstancePaddingStrategy::RepeatLast => true,
            _ => false,
        };
        if repeat && start == 0 {
            return;
        }
        if plain {
            self.is_padded = true;
            return;
        }
        let mut row: usize = start;
        while row < height
            invariant
                start <= row,
                height == old(self).height(),
                width == old(self).width(),
                start == old(self).num_rows,
                row <= height || row == start,
                old(self).wf(),
                repeat == (old(self).padding_strategy is RepeatLast),
                repeat ==> start > 0,
                !(old(self).padding_strategy is Default),
                self.wf(),
                self.width() == width,
                self.height() == height,
                self.num_rows == start,
                self.padding_strategy == old(self).padding_strategy,
                old(self).padding_strategy matches InstancePaddingStrategy::Custom(f) ==> forall|
                    row: int,
                    col: int,
                |
                    start <= row < height && 0 <= col < width ==> #[trigger] f.covers(
                        row as u64,
                        col as u64,
                    ),
                forall|r: int, c: int|
                    0 <= r < height && 0 <= c < width ==> #[trigger] self.at(r, c) == if r < row {
                        old(self).padded_at(r, c)
                    } else {
                        old(self).at(r, c)
                    },
            decreases height - row,
        {
            let mut col: usize = 0;
            while col < width
                invariant
                    col <= width,
                    start <= row < height,
                    height == old(self).height(),
                    width == old(self).width(),
                    start == old(self).num_rows,
                    repeat == (old(self).padding_strategy is RepeatLast),
                    repeat ==> start > 0,
                    !(old(self).padding_strategy is Default),
                    self.wf(),
                    self.width() == width,
                    self.height() == height,
                    self.num_rows == start,
                    self.padding_strategy == old(self).padding_strategy,
                    old(self).padding_strategy matches InstancePaddingStrategy::Custom(f)
                        ==> forall|row: int, col: int|
                        start <= row < height && 0 <= col < width ==> #[trigger] f.covers(
                            row as u64,
                            col as u64,
                        ),
                    forall|r: int, c: int|
                        0 <= r < height && 0 <= c < width ==> #[trigger] self.at(r, c) == if r < row
                            || (r == row && c < col) {
                            old(self).padded_at(r, c)
                        } else {
                            old(self).at(r, c)
                        },
                decreases width - col,
            {
                let value: Goldilocks = match &self.padding_strategy {
                    InstancePaddingStrategy::Custom(f) => {
                        assert(f.covers(row as int as u64, col as int as u64));
                        Goldilocks { value: f.pad(row as u64, col as u64) }
                    },
                    _ => self.get(start - 1, col),
                };
                assert(value == old(self).padded_at(row as int, col as int));
                self.set(row, col, value);
                col = col + 1;
            }
            row = row + 1;
        }
        let ghost filled = *self;
        self.is_padded = true;
        proof {
            assert forall|r: int, c: int|
                0 <= r < height && 0 <= c < width implies #[trigger] self.at(r, c) == old(
                self,
            ).padded_at(r, c) by {
                assert(self.at(r, c) == filled.at(r, c));
            }
        }
    }

    /// The cells of one column.
    pub open spec fn col(&self, j: int) -> Seq<Goldilocks> {
        Seq::new(self.height(), |i: int| self.at(i, j))
    }

    /// The columns, over the base field.
    pub fn to_cols_base(&self) -> (r: Vec<Vec<Goldilocks>>)
        requires
            self.wf(),
            self.is_padded,
        ensures
            r@.len() == self.width(),
            forall|j: int| 0 <= j < r@.len() ==> (#[trigger] r@[j])@ == self.col(j),
    {
        let width: usize = dense_width_of(&self.inner);
        let mut out: Vec<Vec<Goldilocks>> = Vec::with_capacity(width);
        let mut j: usize = 0;
        while j < width
            invariant
                j <= width,
                width == self.width(),
                self.wf(),
                out@.len() == j,
                forall|k: int| 0 <= k < j ==> (#[trigger] out@[k])@ == self.col(k),
            decreases width - j,
        {
            let col = self.column(j);
            out.push(col);
            j = j + 1;
        }
        out
    }

    fn column(&self, j: usize) -> (r: Vec<Goldilocks>)
        requires
            self.wf(),
            j < self.width(),
        ensures
            r@ == self.col(j as int),
    {
        let height: usize = dense_height_of(&self.inner);
        let mut col: Vec<Goldilocks> = Vec::with_capacity(height);
        let mut i: usize = 0;
        while i < height
            invariant
                i <= height,
                height == self.height(),
                self.wf(),
                j < self.width(),
                col@.len() == i,
                forall|k: int| 0 <= k < i ==> #[trigger] col@[k] == self.at(k, j as int),
            decreases height - i,
        {
            col.push(self.get(i, j));
            i = i + 1;
        }
        assert(col@ =~= self.col(j as int));
        col
    }

    /// The columns, over the extension field.
    pub fn to_cols_ext(&self) -> (r: Vec<Vec<GoldilocksExt2>>)
        requires
            self.wf(),
            self.is_padded,
        ensures
            r@.len() == self.width(),
            forall|j: int|
                0 <= j < r@.len() ==> (#[trigger] r@[j])@ == self.col(j).map_values(
                    |x: Goldilocks| GoldilocksExt2 { c0: x, c1: gl(0) },
                ),
    {
        let width: usize = dense_width_of(&self.inner);
        let mut out: Vec<Vec<GoldilocksExt2>> = Vec::with_capacity(width);
        let mut j: usize = 0;
        while j < width
            invariant
                j <= width,
                width == self.width(),
                self.wf(),
                out@.len() == j,
                forall|k: int|
                    0 <= k < j ==> (#[trigger] out@[k])@ == self.col(k).map_values(
                        |x: Goldilocks| GoldilocksExt2 { c0: x, c1: gl(0) },
                    ),
            decreases width - j,
        {
            let col = self.column(j);
            let mut lifted: Vec<GoldilocksExt2> = Vec::with_capacity(col.len());
            let mut i: usize = 0;
            while i < col.len()
                invariant
                    i <= col@.len(),
                    lifted@.len() == i,
                    forall|k: int|
                        0 <= k < i ==> #[trigger] lifted@[k] == (GoldilocksExt2 {
                            c0: col@[k],
                            c1: gl(0),
                        }),
                decreases col@.len() - i,
            {
                lifted.push(GoldilocksExt2::from_base(col[i]));
                i = i + 1;
            }
            assert(lifted@ =~= self.col(j as int).map_values(
                |x: Goldilocks| GoldilocksExt2 { c0: x, c1: gl(0) },
            ));
            out.push(lifted);
            j = j + 1;
        }
        out
    }

    /// The columns as multilinear extensions.
    pub fn to_mles(&self) -> (r: Vec<MultilinearExtension<'static>>)
        requires
            self.wf(),
            self.is_padded,
            self.width() > 0 ==> is_pow2(self.height() as int),
        ensures
            r@.len() == self.width(),
            forall|j: int|
                0 <= j < r@.len() ==> {
                    &&& (#[trigger] r@[j]).wf()
                    &&& r@[j].evaluations matches FieldType::Base(s)
                    &&& s@ == self.col(j)
                },
    {
        let width: usize = dense_width_of(&self.inner);
        let mut out: Vec<MultilinearExtension<'static>> = Vec::with_capacity(width);
        let mut j: usize = 0;
        while j < width
            invariant
                j <= width,
                width == self.width(),
                self.wf(),
                self.width() > 0 ==> is_pow2(self.height() as int),
                out@.len() == j,
                forall|k: int|
                    0 <= k < j ==> {
                        &&& (#[trigger] out@[k]).wf()
                        &&& out@[k].evaluations matches FieldType::Base(s)
                        &&& s@ == self.col(k)
                    },
            decreases width - j,
        {
            let col = self.column(j);
            out.push(col.into_mle());
            j = j + 1;
        }
        out
    }

    /// The cells of one row.
    pub fn row(&self, idx: usize) -> (r: Vec<Goldilocks>)
        requires
            self.wf(),
            idx < self.height(),
        ensures
            r@ == Seq::new(self.width(), |j: int| self.at(idx as int, j)),
    {
        let width: usize = dense_width_of(&self.inner);
        let mut out: Vec<Goldilocks> = Vec::with_capacity(width);
        let mut j: usize = 0;
        while j < width
            invariant
                j <= width,
                width == self.width(),
                self.wf(),
                idx < self.height(),
                out@.len() == j,
                forall|k: int| 0 <= k < j ==> #[trigger] out@[k] == self.at(idx as int, k),
            decreases width - j,
        {
            out.push(self.get(idx, j));
            j = j + 1;
        }
        assert(out@ =~= Seq::new(self.width(), |j: int| self.at(idx as int, j)));
        out
    }

    /// The rows of the instances.
    pub fn iter_rows(&self) -> (r: Vec<Vec<Goldilocks>>)
        requires
            self.wf(),
            self.width() > 0,
        ensures
            r@.len() == self.num_rows,
            forall|i: int|
                0 <= i < r@.len() ==> (#[trigger] r@[i])@ == Seq::new(
                    self.width(),
                    |j: int| self.at(i, j),
                ),
    {
        let mut out: Vec<Vec<Goldilocks>> = Vec::with_capacity(self.num_rows);
        let mut i: usize = 0;
        while i < self.num_rows
            invariant
                i <= self.num_rows,
                self.wf(),
                self.width() > 0,
                out@.len() == i,
                forall|k: int|
                    0 <= k < i ==> (#[trigger] out@[k])@ == Seq::new(
                        self.width(),
                        |j: int| self.at(k, j),
                    ),
            decreases self.num_rows - i,
        {
            let row = self.row(i);
            out.push(row);
            i = i + 1;
        }
        out
    }

    /// Extends the matrix to the given height.
    pub fn pad_to_height(&mut self, new_height: usize, fill: Goldilocks)
        requires
            old(self).wf(),
            new_height >= old(self).height(),
            old(self).width() * new_height <= usize::MAX,
        ensures
            final(self).wf(),
            final(self).width() == old(self).width(),
            final(self).num_rows == old(self).num_rows,
            final(self).is_padded == old(self).is_padded,
            final(self).padding_strategy == old(self).padding_strategy,
            final(self).cells() == old(self).cells() + Seq::new(
                ((new_height - old(self).height()) * old(self).width()) as nat,
                |i: int| fill.value,
            ),
            old(self).width() > 0 ==> final(self).height() == new_height,
    {
        let ghost w = self.width() as int;
        let ghost h = self.height() as int;
        proof {
            lemma_full(self.inner);
            assert(w * new_height - h * w == (new_height - h) * w) by (nonlinear_arith);
            assert(w * h == h * w) by (nonlinear_arith);
        }
        dense_pad_to_height(&mut self.inner, new_height, fill.value);
        proof {
            assert(self.cells().len() == w * new_height);
            assert(w * new_height == new_height * w) by (nonlinear_arith);
            lemma_rows(new_height as int, w);
        }
    }

    /// The matrix with zero rows up to the padded number of instances times the blowup.
    pub fn into_default_padded_p3_rmm(self, blowup_factor: Option<usize>) -> (r: DenseMatrix<
        u64,
        Vec<u64>,
    >)
        requires
            self.wf(),
            ({
                let blowup = if blowup_factor is Some { blowup_factor->0 } else { 1 };
                let height = spec_next_pow2_instance_padding(self.num_rows as nat) * blowup;
                &&& self.height() <= height <= usize::MAX
                &&& self.width() * height <= usize::MAX
            }),
        ensures
            dense_width(r) == self.width(),
            ({
                let blowup = if blowup_factor is Some { blowup_factor->0 } else { 1 };
                let height = spec_next_pow2_instance_padding(self.num_rows as nat) * blowup;
                dense_cells(r) == self.cells() + Seq::new(
                    ((height - self.height()) * self.width()) as nat,
                    |i: int| 0u64,
                )
            }),
    {
        let mut this = self;
        let padded_height: usize = next_pow2_instance_padding(this.num_rows);
        let blowup: usize = match blowup_factor {
            Some(b) => b,
            None => 1,
        };
        this.pad_to_height(padded_height * blowup, Goldilocks { value: 0 });
        this.inner
    }
}

/// The representatives of a sequence of elements.
pub fn representatives(values: &Vec<Goldilocks>) -> (r: Vec<u64>)
    ensures
        r@ == values@.map_values(|x: Goldilocks| x.value),
{
    let mut r: Vec<u64> = Vec::with_capacity(values.len());
    let mut i: usize = 0;
    while i < values.len()
        invariant
            i <= values@.len(),
            r@.len() == i,
            forall|k: int| 0 <= k < i ==> #[trigger] r@[k] == values@[k].value,
        decreases values@.len() - i,
    {
        r.push(values[i].value);
        i = i + 1;
    }
    assert(r@ =~= values@.map_values(|x: Goldilocks| x.value));
    r
}

/// The cells are the rows, one after the other.
pub proof fn lemma_full(m: DenseMatrix<u64, Vec<u64>>)
    requires
        dense_full(m),
    ensures
        dense_cells(m).len() == dense_height(m) * dense_width(m),
{
    let (h, w) = (dense_height(m) as int, dense_width(m) as int);
    if w > 0 {
        lemma_fundamental_div_mod(dense_cells(m).len() as int, w);
        assert(w * h == h * w) by (nonlinear_arith);
    } else {
        assert(h * w == 0) by (nonlinear_arith)
            requires
                w == 0,
        ;
    }
}

/// Full rows: the width divides the number of cells.
pub proof fn lemma_rows(height: int, width: int)
    requires
        height >= 0,
        width >= 0,
    ensures
        width > 0 ==> (height * width) % width == 0 && (height * width) / width == height,
        height * width >= 0,
        width == 0 ==> height * width == 0,
{
    if width > 0 {
        lemma_mod_multiples_basic(height, width);
        lemma_div_by_multiple(height, width);
    }
    assert(height * width >= 0) by (nonlinear_arith)
        requires
            height >= 0,
            width >= 0,
    ;
}

/// Different cells have different positions.
pub proof fn lemma_cell_unique(r1: int, c1: int, r2: int, c2: int, width: int)
    requires
        0 <= c1 < width,
        0 <= c2 < width,
        r1 * width + c1 == r2 * width + c2,
    ensures
        r1 == r2,
        c1 == c2,
{
    lemma_fundamental_div_mod_converse(r1 * width + c1, width, r1, c1);
    lemma_fundamental_div_mod_converse(r2 * width + c2, width, r2, c2);
}

/// A cell lies inside the matrix.
pub proof fn lemma_cell_index(row: int, col: int, height: int, width: int)
    requires
        0 <= row < height,
        0 <= col < width,
    ensures
        0 <= row * width <= row * width + col < height * width,
{
    assert(0 <= row * width && row * width + col < height * width) by (nonlinear_arith)
        requires
            0 <= row < height,
            0 <= col < width,
    ;
}

/// The cells of one row of a matrix.
pub open spec fn matrix_row(m: RowMajorMatrix, i: int) -> Seq<Goldilocks> {
    Seq::new(m.width(), |j: int| m.at(i, j))
}

/// A row of zeros.
pub fn zero_row(n: usize) -> (r: Vec<Goldilocks>)
    ensures
        r@ == Seq::new(n as nat, |i: int| Goldilocks { value: 0 }),
{
    let mut r: Vec<Goldilocks> = Vec::with_capacity(n);
    let mut i: usize = 0;
    assert(r@ =~= Seq::new(0, |i: int| Goldilocks { value: 0 }));
    while i < n
        invariant
            i <= n,
            r@ == Seq::new(i as nat, |i: int| Goldilocks { value: 0 }),
        decreases n - i,
    {
        r.push(Goldilocks { value: 0 });
        i = i + 1;
        assert(r@ =~= Seq::new(i as nat, |i: int| Goldilocks { value: 0 }));
    }
    r
}

/// Writes a row.
pub fn write_row(m: &mut RowMajorMatrix, i: usize, row: &Vec<Goldilocks>)
    requires
        old(m).wf(),
        i < old(m).height(),
        row@.len() == old(m).width(),
    ensures
        final(m).wf(),
        final(m).width() == old(m).width(),
        final(m).height() == old(m).height(),
        final(m).num_rows == old(m).num_rows,
        final(m).is_padded == old(m).is_padded,
        final(m).padding_strategy == old(m).padding_strategy,
        forall|r: int, c: int|
            0 <= r < old(m).height() && 0 <= c < old(m).width() ==> #[trigger] final(m).at(r, c)
                == if r == i {
                row@[c]
            } else {
                old(m).at(r, c)
            },
{
    let mut j: usize = 0;
    while j < row.len()
        invariant
            j <= row@.len(),
            m.wf(),
            m.width() == old(m).width(),
            m.height() == old(m).height(),
            m.num_rows == old(m).num_rows,
            m.is_padded == old(m).is_padded,
            m.padding_strategy == old(m).padding_strategy,
            i < m.height(),
            row@.len() == m.width(),
            forall|r: int, c: int|
                0 <= r < old(m).height() && 0 <= c < old(m).width() ==> #[trigger] m.at(r, c)
                    == if r == i && c < j {
                    row@[c]
                } else {
                    old(m).at(r, c)
                },
        decreases row@.len() - j,
    {
        m.set(i, j, row[j]);
        j = j + 1;
    }
}

/// The padded number of instances is the least power of two, from two on, that reaches their number.
pub proof fn lemma_least_padding(n: nat, k: nat)
    ensures
        n <= spec_next_pow2_instance_padding(n),
        2 <= spec_next_pow2_instance_padding(n),
        is_pow2(spec_next_pow2_instance_padding(n) as int),
        n <= pow2(k) && 2 <= pow2(k) ==> spec_next_pow2_instance_padding(n) <= pow2(k),
{
    lemma_padding_is_pow2(n);
    crate::util::lemma_next_power_of_two(n, k);
}

/// What padding does to a matrix: the rows of the instances stay as they are. After them, a matrix
/// that repeats its last instance holds that row, one that is padded by a rule holds what the rule
/// gives for the row and the column, and any other keeps what it held.
pub proof fn lemma_padding_rows(before: RowMajorMatrix, after: RowMajorMatrix, row: int, col: int)
    requires
        before.wf(),
        after.width() == before.width(),
        after.height() == before.height(),
        forall|r: int, c: int|
            0 <= r < before.height() && 0 <= c < before.width() ==> #[trigger] after.at(r, c)
                == before.padded_at(r, c),
        0 <= row < before.height(),
        0 <= col < before.width(),
    ensures
        row < before.num_rows ==> after.at(row, col) == before.at(row, col),
        row >= before.num_rows > 0 && before.padding_strategy is RepeatLast ==> after.at(row, col)
            == after.at(before.num_rows - 1, col),
        row >= before.num_rows && before.padding_strategy is Default ==> after.at(row, col)
            == before.at(row, col),
        row >= before.num_rows ==> (before.padding_strategy matches InstancePaddingStrategy::Custom(f)
            ==> after.at(row, col).value == f.cell(row as u64, col as u64)),
        before.num_rows == 0 && before.padding_strategy is RepeatLast ==> after.at(row, col)
            == before.at(row, col),
{
    assert(after.at(row, col) == before.padded_at(row, col));
    if before.num_rows > 0 {
        assert(after.at(before.num_rows - 1, col) == before.padded_at(before.num_rows - 1, col));
    }
}

/// The columns of a matrix are its rows read the other way.
pub proof fn lemma_columns_and_rows(m: RowMajorMatrix, i: int, j: int)
    requires
        0 <= i < m.height(),
        0 <= j < m.width(),
    ensures
        m.col(j).len() == m.height(),
        matrix_row(m, i).len() == m.width(),
        m.col(j)[i] == matrix_row(m, i)[j],
        m.col(j)[i].value == m.cells()[i * m.width() + j],
{
}

} // verus!
