//! Tables: of operations, of ranges, of the program and of memory.
use vstd::prelude::*;

use crate::expression::{Expression, Fixed, Instance, StructuralWitIn, WitIn};
use crate::field::{group_field, Goldilocks};
use crate::util::spec_next_power_of_two;
use crate::witness::{
    lemma_rows, spec_next_pow2_instance_padding, InstancePaddingStrategy, RowMajorMatrix,
    CAPACITY_RESERVED_FACTOR,
};

pub mod ops;
pub mod program;
pub mod ram;
pub mod range;
pub mod table_laws;

verus! {

broadcast use group_field;

/// The tables that are looked up.
#[derive(Clone, Copy, Debug, PartialEq, Eq, Structural)]
pub enum ROMType {
    U5,
    U8,
    U14,
    U16,
    And,
    Or,
    Xor,
    Ltu,
    Pow,
    Instruction,
}

/// The memories.
#[derive(Clone, Copy, Debug, PartialEq, Eq, Structural)]
pub enum RAMType {
    GlobalState,
    Register,
    Memory,
}

impl RAMType {
    /// The position of the memory in the list of memories.
    pub open spec fn number(self) -> int {
        match self {
            RAMType::GlobalState => 0,
            RAMType::Register => 1,
            RAMType::Memory => 2,
        }
    }

    /// The position of the memory in the list of memories.
    pub fn as_usize(self) -> (r: usize)
        ensures
            r == self.number(),
    {
        match self {
            RAMType::GlobalState => 0,
            RAMType::Register => 1,
            RAMType::Memory => 2,
        }
    }
}

/// The length of a table, where it is fixed, and its structural columns.
#[derive(Debug)]
pub struct SetTableSpec {
    pub len: Option<usize>,
    pub structural_witins: Vec<StructuralWitIn>,
}

/// A table that is looked up.
#[derive(Debug)]
pub struct LookupTable {
    pub name: &'static str,
    pub spec: SetTableSpec,
    pub rom_type: ROMType,
    pub record: Vec<Expression>,
    pub multiplicity: Expression,
}

/// A table of initial or final records of a memory.
#[derive(Debug)]
pub struct MemoryTable {
    pub name: &'static str,
    pub ram_type: RAMType,
    pub spec: SetTableSpec,
    pub record: Vec<Expression>,
}

/// A table circuit under construction.
#[derive(Debug)]
pub struct TableBuilder {
    pub num_fixed: usize,
    pub num_witin: u16,
    pub num_structural_witin: u16,
    pub lk_tables: Vec<LookupTable>,
    pub w_tables: Vec<MemoryTable>,
    pub r_tables: Vec<MemoryTable>,
    /// The number of instructions that the program table has room for
    pub program_size: usize,
    /// The public value of the public inputs and outputs
    pub public_io: Instance,
}

impl TableBuilder {
    /// An empty circuit.
    pub fn new(program_size: usize, public_io: Instance) -> (r: TableBuilder)
        ensures
            r.num_fixed == 0,
            r.num_witin == 0,
            r.num_structural_witin == 0,
            r.lk_tables@.len() == 0,
            r.w_tables@.len() == 0,
            r.r_tables@.len() == 0,
            r.program_size == program_size,
            r.public_io == public_io,
    {
        TableBuilder {
            num_fixed: 0,
            num_witin: 0,
            num_structural_witin: 0,
            lk_tables: Vec::new(),
            w_tables: Vec::new(),
            r_tables: Vec::new(),
            program_size,
            public_io,
        }
    }

    /// A new fixed column.
    pub fn create_fixed(&mut self) -> (r: Fixed)
        requires
            old(self).num_fixed < usize::MAX,
        ensures
            r == Fixed(old(self).num_fixed),
            *final(self) == (TableBuilder {
                num_fixed: (old(self).num_fixed + 1) as usize,
                ..*old(self)
            }),
    {
        let r = Fixed(self.num_fixed);
        self.num_fixed = self.num_fixed + 1;
        r
    }

    /// New fixed columns.
    pub fn create_fixed_list(&mut self, n: usize) -> (r: Vec<Fixed>)
        requires
            old(self).num_fixed + n <= usize::MAX,
        ensures
            r@ == Seq::new(n as nat, |i: int| Fixed((old(self).num_fixed + i) as usize)),
            *final(self) == (TableBuilder {
                num_fixed: (old(self).num_fixed + n) as usize,
                ..*old(self)
            }),
    {
        let mut r: Vec<Fixed> = Vec::with_capacity(n);
        let ghost start = self.num_fixed as int;
        let mut i: usize = 0;
        while i < n
            invariant
                i <= n,
                start == old(self).num_fixed,
                start + n <= usize::MAX,
                r@ == Seq::new(i as nat, |i: int| Fixed((start + i) as usize)),
                *self == (TableBuilder {
                    num_fixed: (old(self).num_fixed + i) as usize,
                    ..*old(self)
                }),
            decreases n - i,
        {
            r.push(self.create_fixed());
            i = i + 1;
            assert(r@ =~= Seq::new(i as nat, |i: int| Fixed((start + i) as usize)));
        }
        r
    }

    /// A new witness column.
    pub fn create_witin(&mut self) -> (r: WitIn)
        requires
            old(self).num_witin < u16::MAX,
        ensures
            r.id == old(self).num_witin,
            *final(self) == (TableBuilder {
                num_witin: (old(self).num_witin + 1) as u16,
                ..*old(self)
            }),
    {
        let r = WitIn { id: self.num_witin };
        self.num_witin = self.num_witin + 1;
        r
    }

    /// New witness columns.
    pub fn create_witin_list(&mut self, n: u16) -> (r: Vec<WitIn>)
        requires
            old(self).num_witin + n <= u16::MAX,
        ensures
            r@ == Seq::new(n as nat, |i: int| WitIn { id: (old(self).num_witin + i) as u16 }),
            *final(self) == (TableBuilder {
                num_witin: (old(self).num_witin + n) as u16,
                ..*old(self)
            }),
    {
        let mut r: Vec<WitIn> = Vec::with_capacity(n as usize);
        let ghost start = self.num_witin as int;
        let mut i: u16 = 0;
        while i < n
            invariant
                i <= n,
                start == old(self).num_witin,
                start + n <= u16::MAX,
                r@ == Seq::new(i as nat, |i: int| WitIn { id: (start + i) as u16 }),
                *self == (TableBuilder {
                    num_witin: (old(self).num_witin + i) as u16,
                    ..*old(self)
                }),
            decreases n - i,
        {
            r.push(self.create_witin());
            i = i + 1;
            assert(r@ =~= Seq::new(i as nat, |i: int| WitIn { id: (start + i) as u16 }));
        }
        r
    }

    /// A new structural column: an arithmetic progression, which can be descending.
    pub fn create_structural_witin(
        &mut self,
        max_len: usize,
        offset: u32,
        multi_factor: usize,
        descending: bool,
    ) -> (r: StructuralWitIn)
        requires
            old(self).num_structural_witin < u16::MAX,
        ensures
            r.id == old(self).num_structural_witin,
            r.max_len == max_len,
            r.offset == offset,
            r.multi_factor == multi_factor,
            r.descending == descending,
            *final(self) == (TableBuilder {
                num_structural_witin: (old(self).num_structural_witin + 1) as u16,
                ..*old(self)
            }),
    {
        let r = StructuralWitIn {
            id: self.num_structural_witin,
            max_len,
            offset,
            multi_factor,
            descending,
        };
        self.num_structural_witin = self.num_structural_witin + 1;
        r
    }

    /// The public value of the public inputs and outputs.
    pub fn query_public_io(&self) -> (r: Instance)
        ensures
            r == self.public_io,
    {
        self.public_io
    }
}

/// The matrix has the given cells.
pub open spec fn has_cells(
    m: RowMajorMatrix,
    num_rows: int,
    width: int,
    cell: spec_fn(int, int) -> u64,
) -> bool {
    &&& m.wf()
    &&& m.num_rows == num_rows
    &&& m.width() == width
    &&& m.height() == spec_next_pow2_instance_padding(num_rows as nat)
    &&& forall|r: int, c: int|
        0 <= r < m.height() && 0 <= c < width ==> (#[trigger] m.at(r, c)).value == cell(r, c)
}

/// A matrix of the given size can be allocated.
pub open spec fn can_allocate(num_rows: int, width: int) -> bool {
    &&& CAPACITY_RESERVED_FACTOR * spec_next_pow2_instance_padding(num_rows as nat) * width
        <= usize::MAX
    &&& spec_next_power_of_two(num_rows as nat) <= usize::MAX
}

/// A matrix of zeros.
pub fn zero_matrix(num_rows: usize, width: usize, strategy: InstancePaddingStrategy) -> (r:
    RowMajorMatrix)
    requires
        width > 0,
        can_allocate(num_rows as int, width as int),
    ensures
        has_cells(r, num_rows as int, width as int, |r: int, c: int| 0u64),
        r.is_padded == (strategy is Default),
        r.padding_strategy == strategy,
{
    let m = RowMajorMatrix::new(num_rows, width, strategy);
    proof {
        let h = spec_next_pow2_instance_padding(num_rows as nat) as int;
        lemma_rows(h, width as int);
        assert forall|r: int, c: int| 0 <= r < m.height() && 0 <= c < width implies (
        #[trigger] m.at(r, c)).value == 0 by {
            assert(0 <= r * width + c < h * width) by (nonlinear_arith)
                requires
                    0 <= r < h,
                    0 <= c < width,
            ;
        }
    }
    m
}

/// A cell of a row in which the given columns are set one after the other.
pub open spec fn row_with(cols: Seq<usize>, values: Seq<u64>, n: int, c: int) -> u64
    decreases n,
{
    if n <= 0 {
        0
    } else if cols[n - 1] == c {
        values[n - 1]
    } else {
        row_with(cols, values, n - 1, c)
    }
}

/// Sets columns of a row of zeros one after the other.
pub fn set_row(m: &mut RowMajorMatrix, i: usize, cols: &Vec<usize>, values: &Vec<u64>)
    requires
        old(m).wf(),
        i < old(m).height(),
        cols@.len() == values@.len(),
        forall|k: int| 0 <= k < cols@.len() ==> (#[trigger] cols@[k]) < old(m).width(),
        forall|c: int| 0 <= c < old(m).width() ==> (#[trigger] old(m).at(i as int, c)).value == 0,
    ensures
        final(m).wf(),
        final(m).width() == old(m).width(),
        final(m).height() == old(m).height(),
        final(m).num_rows == old(m).num_rows,
        final(m).is_padded == old(m).is_padded,
        final(m).padding_strategy == old(m).padding_strategy,
        forall|r: int, c: int|
            0 <= r < old(m).height() && 0 <= c < old(m).width() ==> (#[trigger] final(m).at(
                r,
                c,
            )).value == if r == i {
                row_with(cols@, values@, cols@.len() as int, c)
            } else {
                old(m).at(r, c).value
            },
{
    let mut k: usize = 0;
    while k < cols.len()
        invariant
            k <= cols@.len(),
            cols@.len() == values@.len(),
            i < old(m).height(),
            forall|k: int| 0 <= k < cols@.len() ==> (#[trigger] cols@[k]) < old(m).width(),
            m.wf(),
            m.width() == old(m).width(),
            m.height() == old(m).height(),
            m.num_rows == old(m).num_rows,
            m.is_padded == old(m).is_padded,
            m.padding_strategy == old(m).padding_strategy,
            forall|r: int, c: int|
                0 <= r < old(m).height() && 0 <= c < old(m).width() ==> (#[trigger] m.at(
                    r,
                    c,
                )).value == if r == i {
                    row_with(cols@, values@, k as int, c)
                } else {
                    old(m).at(r, c).value
                },
        decreases cols@.len() - k,
    {
        let ghost before = *m;
        m.set(i, cols[k], Goldilocks { value: values[k] });
        proof {
            assert forall|r: int, c: int|
                0 <= r < old(m).height() && 0 <= c < old(m).width() implies (#[trigger] m.at(
                r,
                c,
            )).value == if r == i {
                row_with(cols@, values@, k + 1, c)
            } else {
                old(m).at(r, c).value
            } by {
                assert(before.at(r, c).value == if r == i {
                    row_with(cols@, values@, k as int, c)
                } else {
                    old(m).at(r, c).value
                });
            }
        }
        k = k + 1;
    }
}

} // verus!
