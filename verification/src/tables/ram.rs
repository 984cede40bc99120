//! Tables of memories: initial records with cycle zero, and final records.
use vstd::prelude::*;

use crate::circuit::ZKVMError;
use crate::expression::convert::{unsigned_const, ToExpr};
use crate::expression::{base_const, Expression, Fixed, StructuralWitIn, WitIn};
use crate::mle::slice_to_vec;
use crate::riscv::WORD_SIZE;
use crate::tables::{
    can_allocate, has_cells, row_with, set_row, zero_matrix, MemoryTable, RAMType, SetTableSpec,
    TableBuilder,
};
use crate::util::is_pow2;
use crate::witness::{
    lemma_padding_is_pow2, lemma_pow2_padding, spec_next_pow2_instance_padding,
    InstancePaddingStrategy, PaddingFn, RowMajorMatrix,
};

verus! {

/// The bits of a limb.
pub const LIMB_BITS: usize = 16;

/// The initial value of a memory cell.
#[derive(Clone, Copy, Debug)]
pub struct MemInitRecord {
    pub addr: u32,
    pub value: u32,
}

/// The final value of a memory cell and the cycle in which it was last accessed.
#[derive(Clone, Copy, Debug)]
pub struct MemFinalRecord {
    pub addr: u32,
    pub cycle: u64,
    pub value: u32,
}

/// A memory with initial values.
#[derive(Clone, Copy, Debug)]
pub struct NonVolatileTable {
    pub ram_type: RAMType,
    /// The number of limbs of a value
    pub v_limbs: u16,
    pub writable: bool,
    /// The number of cells
    pub len: usize,
}

/// A memory without initial values, of which a varying number of cells is used.
#[derive(Clone, Copy, Debug)]
pub struct DynVolatileRamTable {
    pub ram_type: RAMType,
    /// The number of limbs of a value
    pub v_limbs: u16,
    /// Initial values are zero
    pub zero_init: bool,
    /// Addresses go down from the first one
    pub descending: bool,
    /// The address of the first cell
    pub offset_addr: u32,
    /// The largest number of cells
    pub max_len: usize,
}

impl DynVolatileRamTable {
    /// The address of a cell.
    pub open spec fn spec_addr(&self, i: int) -> int {
        if self.descending {
            self.offset_addr - WORD_SIZE * i
        } else {
            self.offset_addr + WORD_SIZE * i
        }
    }

    /// The address of a cell.
    pub fn addr(&self, i: usize) -> (r: u32)
        requires
            0 <= self.spec_addr(i as int) <= u32::MAX,
        ensures
            r == self.spec_addr(i as int),
    {
        let steps: u32 = (WORD_SIZE * i) as u32;
        if self.descending {
            self.offset_addr - steps
        } else {
            self.offset_addr + steps
        }
    }
}

/// The limbs of a value: itself if there is one limb, else its lowest bits in groups.
pub open spec fn limbs(value: u32, n: int) -> Seq<u64> {
    if n == 1 {
        seq![value as u64]
    } else {
        Seq::new(
            n as nat,
            |l: int|
                if l == 0 {
                    (value % 0x1_0000) as u64
                } else {
                    (value / 0x1_0000) as u64
                },
        )
    }
}

/// The limbs of a value.
fn limb_values(value: u32, n: usize) -> (r: Vec<u64>)
    requires
        n <= 2,
    ensures
        r@ == limbs(value, n as int),
{
    let mut r: Vec<u64> = Vec::with_capacity(n);
    if n == 1 {
        r.push(value as u64);
    } else if n == 2 {
        r.push((value % 0x1_0000) as u64);
        r.push((value / 0x1_0000) as u64);
    }
    assert(r@ =~= limbs(value, n as int));
    r
}

/// The record of a cell: the memory, the address, the value and the cycle.
pub open spec fn memory_record(
    ram_type: RAMType,
    addr: Expression,
    value: Seq<Expression>,
    cycle: Expression,
) -> Seq<Expression> {
    seq![unsigned_const(ram_type.number()), addr] + value + seq![cycle]
}

fn record_of(
    ram_type: RAMType,
    addr: Expression,
    value: &Vec<Expression>,
    cycle: Expression,
) -> (r: Vec<Expression>)
    ensures
        r@ == memory_record(ram_type, addr, value@, cycle),
{
    let mut r: Vec<Expression> = vec![Expression::from(ram_type.as_usize()), addr];
    let ghost head = r@;
    let mut i: usize = 0;
    assert(r@ =~= head + value@.take(0));
    while i < value.len()
        invariant
            i <= value@.len(),
            r@ == head + value@.take(i as int),
        decreases value@.len() - i,
    {
        r.push(value[i].clone());
        i = i + 1;
        assert(r@ =~= head + value@.take(i as int));
    }
    assert(value@.take(i as int) =~= value@);
    r.push(cycle);
    assert(r@ =~= memory_record(ram_type, addr, value@, cycle));
    r
}

/// A table of a memory.
pub open spec fn is_memory_table(
    table: MemoryTable,
    name: Seq<char>,
    ram_type: RAMType,
    len: Option<usize>,
    structural: Seq<StructuralWitIn>,
    record: Seq<Expression>,
) -> bool {
    &&& table.name@ == name
    &&& table.ram_type == ram_type
    &&& table.spec.len == len
    &&& table.spec.structural_witins@ == structural
    &&& table.record@ == record
}

/// One table has been added to each side: the initial records are written, the final ones are read.
pub open spec fn adds_memory_tables(
    after: TableBuilder,
    before: TableBuilder,
    ram_type: RAMType,
    len: Option<usize>,
    structural: Seq<StructuralWitIn>,
    init_record: Seq<Expression>,
    final_record: Seq<Expression>,
) -> bool {
    &&& after.w_tables@.len() == before.w_tables@.len() + 1
    &&& after.w_tables@.drop_last() == before.w_tables@
    &&& is_memory_table(
        after.w_tables@.last(),
        "init_table"@,
        ram_type,
        len,
        structural,
        init_record,
    )
    &&& after.r_tables@.len() == before.r_tables@.len() + 1
    &&& after.r_tables@.drop_last() == before.r_tables@
    &&& is_memory_table(
        after.r_tables@.last(),
        "final_table"@,
        ram_type,
        len,
        structural,
        final_record,
    )
}

fn add_memory_tables(
    cb: &mut TableBuilder,
    ram_type: RAMType,
    len: Option<usize>,
    structural: Option<StructuralWitIn>,
    init_record: Vec<Expression>,
    final_record: Vec<Expression>,
)
    ensures
        *final(cb) == (TableBuilder {
            w_tables: final(cb).w_tables,
            r_tables: final(cb).r_tables,
            ..*old(cb)
        }),
        adds_memory_tables(
            *final(cb),
            *old(cb),
            ram_type,
            len,
            match structural {
                Some(s) => seq![s],
                None => Seq::empty(),
            },
            init_record@,
            final_record@,
        ),
{
    let ghost (w0, r0) = (cb.w_tables@, cb.r_tables@);
    let ghost columns = match structural {
        Some(s) => seq![s],
        None => Seq::empty(),
    };
    let (a, b) = match structural {
        Some(s) => (vec![s], vec![s]),
        None => (Vec::new(), Vec::new()),
    };
    assert(a@ =~= columns && b@ =~= columns);
    cb.w_tables.push(
        MemoryTable {
            name: "init_table",
            ram_type,
            spec: SetTableSpec { len, structural_witins: a },
            record: init_record,
        },
    );
    cb.r_tables.push(
        MemoryTable {
            name: "final_table",
            ram_type,
            spec: SetTableSpec { len, structural_witins: b },
            record: final_record,
        },
    );
    assert(cb.w_tables@.drop_last() =~= w0);
    assert(cb.r_tables@.drop_last() =~= r0);
}

/// The expressions of fixed columns.
pub open spec fn fixed_exprs(cols: Seq<Fixed>) -> Seq<Expression> {
    cols.map_values(|f: Fixed| Expression::Fixed(f))
}

/// The expressions of witness columns.
pub open spec fn witin_exprs(cols: Seq<WitIn>) -> Seq<Expression> {
    cols.map_values(|w: WitIn| Expression::WitIn(w.id))
}

fn exprs_of_fixed(cols: &Vec<Fixed>) -> (r: Vec<Expression>)
    ensures
        r@ == fixed_exprs(cols@),
{
    let mut r: Vec<Expression> = Vec::with_capacity(cols.len());
    let mut i: usize = 0;
    while i < cols.len()
        invariant
            i <= cols@.len(),
            r@ == fixed_exprs(cols@).take(i as int),
        decreases cols@.len() - i,
    {
        r.push(Expression::Fixed(cols[i]));
        i = i + 1;
        assert(r@ =~= fixed_exprs(cols@).take(i as int));
    }
    assert(r@ =~= fixed_exprs(cols@));
    r
}

fn exprs_of_witin(cols: &Vec<WitIn>) -> (r: Vec<Expression>)
    ensures
        r@ == witin_exprs(cols@),
{
    let mut r: Vec<Expression> = Vec::with_capacity(cols.len());
    let mut i: usize = 0;
    while i < cols.len()
        invariant
            i <= cols@.len(),
            r@ == witin_exprs(cols@).take(i as int),
        decreases cols@.len() - i,
    {
        r.push(cols[i].expr());
        i = i + 1;
        assert(r@ =~= witin_exprs(cols@).take(i as int));
    }
    assert(r@ =~= witin_exprs(cols@));
    r
}

/// Where the table of a memory with initial values has its columns.
#[derive(Clone, Debug)]
pub struct NonVolatileTableConfig {
    pub init_v: Vec<Fixed>,
    pub addr: Fixed,
    pub final_v: Option<Vec<WitIn>>,
    pub final_cycle: WitIn,
    pub table: NonVolatileTable,
}

/// The numbers of fixed columns.
pub open spec fn fixed_columns(cols: Seq<Fixed>) -> Seq<usize> {
    cols.map_values(|f: Fixed| f.0)
}

/// The numbers of witness columns.
pub open spec fn witin_columns(cols: Seq<WitIn>) -> Seq<usize> {
    cols.map_values(|w: WitIn| w.id as usize)
}

impl NonVolatileTableConfig {
    /// The tables that the circuit adds.
    pub open spec fn adds_tables(&self, after: TableBuilder, before: TableBuilder) -> bool {
        adds_memory_tables(
            after,
            before,
            self.table.ram_type,
            Some(self.table.len),
            Seq::empty(),
            memory_record(
                self.table.ram_type,
                Expression::Fixed(self.addr),
                fixed_exprs(self.init_v@),
                base_const(0),
            ),
            memory_record(
                self.table.ram_type,
                Expression::Fixed(self.addr),
                self.final_value(),
                Expression::WitIn(self.final_cycle.id),
            ),
        )
    }

    /// The matrix holds initial values and addresses.
    pub open spec fn is_init_matrix(
        &self,
        m: RowMajorMatrix,
        width: int,
        init_mem: Seq<MemInitRecord>,
    ) -> bool {
        has_cells(
            m,
            self.table.len as int,
            width,
            |r: int, c: int|
                row_with(
                    self.init_columns(),
                    limbs(init_mem[r].value, self.init_v@.len() as int).push(
                        init_mem[r].addr as u64,
                    ),
                    self.init_v@.len() as int + 1,
                    c,
                ),
        )
    }

    /// The matrix holds final values and cycles.
    pub open spec fn is_final_matrix(
        &self,
        m: RowMajorMatrix,
        width: int,
        final_mem: Seq<MemFinalRecord>,
    ) -> bool {
        has_cells(
            m,
            self.table.len as int,
            width,
            |r: int, c: int|
                row_with(
                    self.final_columns(),
                    self.final_fields(final_mem[r]),
                    self.final_columns().len() as int,
                    c,
                ),
        )
    }

    /// Where the final value of a cell is recorded.
    pub open spec fn final_value(&self) -> Seq<Expression> {
        match self.final_v {
            Some(v) => witin_exprs(v@),
            None => fixed_exprs(self.init_v@),
        }
    }

    /// Fixed columns with the initial values and addresses, and witnesses for the last cycle and,
    /// if the memory can be written, the final values.
    pub fn construct_circuit(cb: &mut TableBuilder, table: NonVolatileTable) -> (r: Result<
        Self,
        ZKVMError,
    >)
        requires
            old(cb).num_fixed + table.v_limbs + 1 <= usize::MAX,
            old(cb).num_witin + table.v_limbs + 1 <= u16::MAX,
        ensures
            r is Ok,
            ({
                let config = r->Ok_0;
                let n = table.v_limbs as int;
                let (f, w) = (old(cb).num_fixed as int, old(cb).num_witin as int);
                &&& config.table == table
                &&& config.init_v@ == Seq::new(n as nat, |i: int| Fixed((f + i) as usize))
                &&& config.addr == Fixed((f + n) as usize)
                &&& config.final_cycle.id == w
                &&& config.final_v is Some <==> table.writable
                &&& config.final_v matches Some(v) ==> v@ == Seq::new(
                    n as nat,
                    |i: int| WitIn { id: (w + 1 + i) as u16 },
                )
                &&& *final(cb) == (TableBuilder {
                    num_fixed: (f + n + 1) as usize,
                    num_witin: (w + 1 + if table.writable {
                        n
                    } else {
                        0
                    }) as u16,
                    w_tables: final(cb).w_tables,
                    r_tables: final(cb).r_tables,
                    ..*old(cb)
                })
                &&& config.adds_tables(*final(cb), *old(cb))
            }),
    {
        let init_v = cb.create_fixed_list(table.v_limbs as usize);
        let addr = cb.create_fixed();
        let final_cycle = cb.create_witin();
        let final_v = if table.writable {
            Some(cb.create_witin_list(table.v_limbs))
        } else {
            None
        };
        let init_value = exprs_of_fixed(&init_v);
        let final_value = match &final_v {
            Some(v) => exprs_of_witin(v),
            None => exprs_of_fixed(&init_v),
        };
        let init_table = record_of(
            table.ram_type,
            Expression::Fixed(addr),
            &init_value,
            Expression::zero(),
        );
        let final_table = record_of(
            table.ram_type,
            Expression::Fixed(addr),
            &final_value,
            final_cycle.expr(),
        );
        add_memory_tables(cb, table.ram_type, Some(table.len), None, init_table, final_table);
        Ok(NonVolatileTableConfig { init_v, addr, final_v, final_cycle, table })
    }

    /// The columns of the initial records.
    pub open spec fn init_columns(&self) -> Seq<usize> {
        fixed_columns(self.init_v@).push(self.addr.0)
    }

    /// The columns of the final records.
    pub open spec fn final_columns(&self) -> Seq<usize> {
        match self.final_v {
            Some(v) => witin_columns(v@).push(self.final_cycle.id as usize),
            None => seq![self.final_cycle.id as usize],
        }
    }

    /// The fields of a final record.
    pub open spec fn final_fields(&self, rec: MemFinalRecord) -> Seq<u64> {
        match self.final_v {
            Some(v) => limbs(rec.value, v@.len() as int).push(rec.cycle),
            None => seq![rec.cycle],
        }
    }

    /// The fixed table of initial values and addresses.
    pub fn gen_init_state(&self, num_fixed: usize, init_mem: &[MemInitRecord]) -> (m: RowMajorMatrix)
        requires
            is_pow2(self.table.len as int),
            self.table.len >= 2,
            init_mem@.len() == self.table.len,
            self.init_v@.len() <= 2,
            num_fixed > 0,
            forall|k: int|
                0 <= k < self.init_columns().len() ==> (#[trigger] self.init_columns()[k])
                    < num_fixed,
            can_allocate(self.table.len as int, num_fixed as int),
        ensures
            self.is_init_matrix(m, num_fixed as int, init_mem@),
            m.is_padded,
    {
        let len: usize = self.table.len;
        let limb_count: usize = self.init_v.len();
        let mut m = zero_matrix(len, num_fixed, InstancePaddingStrategy::Default);
        let mut cols: Vec<usize> = Vec::with_capacity(3);
        let mut k: usize = 0;
        while k < limb_count
            invariant
                k <= limb_count,
                limb_count == self.init_v@.len(),
                cols@ == fixed_columns(self.init_v@).take(k as int),
            decreases limb_count - k,
        {
            cols.push(self.init_v[k].0);
            k = k + 1;
            assert(cols@ =~= fixed_columns(self.init_v@).take(k as int));
        }
        cols.push(self.addr.0);
        proof {
            assert(cols@ =~= self.init_columns());
            lemma_pow2_padding(len as nat);
        }
        let ghost fields = |r: int|
            limbs(init_mem@[r].value, self.init_v@.len() as int).push(init_mem@[r].addr as u64);
        let mut i: usize = 0;
        while i < len
            invariant
                i <= len,
                len == init_mem@.len(),
                len == self.table.len,
                limb_count == self.init_v@.len(),
                limb_count <= 2,
                cols@ == self.init_columns(),
                forall|k: int| 0 <= k < cols@.len() ==> (#[trigger] cols@[k]) < num_fixed,
                fields == |r: int|
                    limbs(init_mem@[r].value, self.init_v@.len() as int).push(
                        init_mem@[r].addr as u64,
                    ),
                m.wf(),
                m.height() == len,
                m.width() == num_fixed,
                m.num_rows == len,
                m.is_padded,
                forall|r: int, c: int|
                    0 <= r < len && 0 <= c < num_fixed ==> (#[trigger] m.at(r, c)).value == if r
                        < i {
                        row_with(self.init_columns(), fields(r), self.init_v@.len() as int + 1, c)
                    } else {
                        0u64
                    },
            decreases len - i,
        {
            let mut values = limb_values(init_mem[i].value, limb_count);
            values.push(init_mem[i].addr as u64);
            assert(values@ =~= fields(i as int));
            set_row(&mut m, i, &cols, &values);
            i = i + 1;
        }
        m
    }

    /// The final values and cycles, and no structural columns.
    pub fn assign_instances(
        &self,
        num_witin: usize,
        num_structural_witin: usize,
        final_mem: &[MemFinalRecord],
    ) -> (r: Result<[RowMajorMatrix; 2], ZKVMError>)
        requires
            num_structural_witin == 0,
            num_witin > 0,
            self.final_v matches Some(v) ==> v@.len() <= 2,
            forall|k: int|
                0 <= k < self.final_columns().len() ==> (#[trigger] self.final_columns()[k])
                    < num_witin,
            can_allocate(self.table.len as int, num_witin as int),
            final_mem@.len() == spec_next_pow2_instance_padding(self.table.len as nat),
        ensures
            r is Ok,
            self.is_final_matrix(r->Ok_0@[0], num_witin as int, final_mem@),
            r->Ok_0@[0].is_padded,
            r->Ok_0@[1].cells() == Seq::<u64>::empty(),
            r->Ok_0@[1].num_rows == 0,
    {
        let mut cols: Vec<usize> = Vec::with_capacity(3);
        let limb_count: usize = match &self.final_v {
            Some(v) => {
                push_witin_columns(&mut cols, v);
                v.len()
            },
            None => 0,
        };
        cols.push(self.final_cycle.id as usize);
        assert(cols@ =~= self.final_columns());
        let n: usize = final_mem.len();
        let mut m = zero_matrix(self.table.len, num_witin, InstancePaddingStrategy::Default);
        proof {
            lemma_padding_is_pow2(self.table.len as nat);
        }
        let ghost h = m.height();
        let mut i: usize = 0;
        while i < n
            invariant
                i <= n <= h,
                n == final_mem@.len(),
                limb_count <= 2,
                limb_count == (match self.final_v {
                    Some(v) => v@.len(),
                    None => 0,
                }),
                self.final_v is None ==> limb_count == 0,
                cols@ == self.final_columns(),
                forall|k: int| 0 <= k < cols@.len() ==> (#[trigger] cols@[k]) < num_witin,
                m.wf(),
                m.height() == h,
                m.width() == num_witin,
                m.num_rows == self.table.len,
                m.is_padded,
                forall|r: int, c: int|
                    0 <= r < h && 0 <= c < num_witin ==> (#[trigger] m.at(r, c)).value == if r < i {
                        row_with(
                            self.final_columns(),
                            self.final_fields(final_mem@[r]),
                            self.final_columns().len() as int,
                            c,
                        )
                    } else {
                        0u64
                    },
            decreases n - i,
        {
            let mut values = match &self.final_v {
                Some(_) => limb_values(final_mem[i].value, limb_count),
                None => Vec::new(),
            };
            values.push(final_mem[i].cycle);
            assert(values@ =~= self.final_fields(final_mem@[i as int]));
            set_row(&mut m, i, &cols, &values);
            i = i + 1;
        }
        Ok([m, RowMajorMatrix::empty()])
    }
}

/// Appends the numbers of witness columns.
fn push_witin_columns(cols: &mut Vec<usize>, witins: &Vec<WitIn>)
    ensures
        final(cols)@ == old(cols)@ + witin_columns(witins@),
{
    let ghost before = cols@;
    let mut k: usize = 0;
    assert(cols@ =~= before + witin_columns(witins@).take(0));
    while k < witins.len()
        invariant
            k <= witins@.len(),
            cols@ == before + witin_columns(witins@).take(k as int),
        decreases witins@.len() - k,
    {
        cols.push(witins[k].id as usize);
        k = k + 1;
        assert(cols@ =~= before + witin_columns(witins@).take(k as int));
    }
    assert(witin_columns(witins@).take(k as int) =~= witin_columns(witins@));
}

/// Where the table of the public inputs and outputs has its columns; their values are a public value.
#[derive(Clone, Debug)]
pub struct PubIOTableConfig {
    pub addr: Fixed,
    pub final_cycle: WitIn,
    pub table: NonVolatileTable,
}

impl PubIOTableConfig {
    /// The tables that the circuit adds.
    pub open spec fn adds_tables(&self, after: TableBuilder, before: TableBuilder) -> bool {
        let value = seq![Expression::Instance(before.public_io)];
        adds_memory_tables(
            after,
            before,
            self.table.ram_type,
            Some(self.table.len),
            Seq::empty(),
            memory_record(
                self.table.ram_type,
                Expression::Fixed(self.addr),
                value,
                base_const(0),
            ),
            memory_record(
                self.table.ram_type,
                Expression::Fixed(self.addr),
                value,
                Expression::WitIn(self.final_cycle.id),
            ),
        )
    }

    /// The matrix holds addresses.
    pub open spec fn is_init_matrix(
        &self,
        m: RowMajorMatrix,
        width: int,
        io_addrs: Seq<u32>,
    ) -> bool {
        has_cells(
            m,
            self.table.len as int,
            width,
            |r: int, c: int|
                if c == self.addr.0 {
                    io_addrs[r] as u64
                } else {
                    0u64
                },
        )
    }

    /// The matrix holds cycles.
    pub open spec fn is_final_matrix(
        &self,
        m: RowMajorMatrix,
        width: int,
        final_cycles: Seq<u64>,
    ) -> bool {
        has_cells(
            m,
            self.table.len as int,
            width,
            |r: int, c: int|
                if c == self.final_cycle.id {
                    final_cycles[r]
                } else {
                    0u64
                },
        )
    }

    /// A fixed column with the addresses and a witness for the last cycle.
    pub fn construct_circuit(cb: &mut TableBuilder, table: NonVolatileTable) -> (r: Result<
        Self,
        ZKVMError,
    >)
        requires
            !table.writable,
            old(cb).num_fixed < usize::MAX,
            old(cb).num_witin < u16::MAX,
        ensures
            r is Ok,
            ({
                let config = r->Ok_0;
                &&& config.table == table
                &&& config.addr == Fixed(old(cb).num_fixed)
                &&& config.final_cycle.id == old(cb).num_witin
                &&& *final(cb) == (TableBuilder {
                    num_fixed: (old(cb).num_fixed + 1) as usize,
                    num_witin: (old(cb).num_witin + 1) as u16,
                    w_tables: final(cb).w_tables,
                    r_tables: final(cb).r_tables,
                    ..*old(cb)
                })
                &&& config.adds_tables(*final(cb), *old(cb))
            }),
    {
        let init_v = cb.query_public_io();
        let addr = cb.create_fixed();
        let final_cycle = cb.create_witin();
        let value = vec![init_v.expr()];
        assert(value@ =~= seq![Expression::Instance(old(cb).public_io)]);
        let init_table = record_of(
            table.ram_type,
            Expression::Fixed(addr),
            &value,
            Expression::zero(),
        );
        let final_table = record_of(
            table.ram_type,
            Expression::Fixed(addr),
            &value,
            final_cycle.expr(),
        );
        add_memory_tables(cb, table.ram_type, Some(table.len), None, init_table, final_table);
        Ok(PubIOTableConfig { addr, final_cycle, table })
    }

    /// The fixed table of addresses.
    pub fn gen_init_state(&self, num_fixed: usize, io_addrs: &[u32]) -> (m: RowMajorMatrix)
        requires
            is_pow2(self.table.len as int),
            self.table.len >= 2,
            io_addrs@.len() == self.table.len,
            self.addr.0 < num_fixed,
            can_allocate(self.table.len as int, num_fixed as int),
        ensures
            self.is_init_matrix(m, num_fixed as int, io_addrs@),
            m.is_padded,
    {
        proof {
            lemma_pow2_padding(self.table.len as nat);
        }
        let mut values: Vec<u64> = Vec::with_capacity(io_addrs.len());
        let mut i: usize = 0;
        while i < io_addrs.len()
            invariant
                i <= io_addrs@.len(),
                values@.len() == i,
                forall|k: int| 0 <= k < i ==> #[trigger] values@[k] == io_addrs@[k],
            decreases io_addrs@.len() - i,
        {
            values.push(io_addrs[i] as u64);
            i = i + 1;
        }
        column_matrix(&values, self.addr.0, num_fixed, self.table.len)
    }

    /// The last cycles, and no structural columns.
    pub fn assign_instances(
        &self,
        num_witin: usize,
        num_structural_witin: usize,
        final_cycles: &[u64],
    ) -> (r: Result<[RowMajorMatrix; 2], ZKVMError>)
        requires
            num_structural_witin == 0,
            self.final_cycle.id < num_witin,
            can_allocate(self.table.len as int, num_witin as int),
            final_cycles@.len() == spec_next_pow2_instance_padding(self.table.len as nat),
        ensures
            r is Ok,
            self.is_final_matrix(r->Ok_0@[0], num_witin as int, final_cycles@),
            r->Ok_0@[0].is_padded,
            r->Ok_0@[1].cells() == Seq::<u64>::empty(),
            r->Ok_0@[1].num_rows == 0,
    {
        let cycles = slice_to_vec(final_cycles);
        let witness = column_matrix(
            &cycles,
            self.final_cycle.id as usize,
            num_witin,
            self.table.len,
        );
        Ok([witness, RowMajorMatrix::empty()])
    }
}

/// The matrix with the given values in one column, one for each row.
fn column_matrix(values: &Vec<u64>, col: usize, width: usize, num_rows: usize) -> (m: RowMajorMatrix)
    requires
        col < width,
        can_allocate(num_rows as int, width as int),
        values@.len() == spec_next_pow2_instance_padding(num_rows as nat),
    ensures
        has_cells(
            m,
            num_rows as int,
            width as int,
            |r: int, c: int|
                if c == col {
                    values@[r]
                } else {
                    0u64
                },
        ),
        m.is_padded,
{
    let mut m = zero_matrix(num_rows, width, InstancePaddingStrategy::Default);
    let ghost h = m.height();
    let cols: Vec<usize> = vec![col];
    let mut i: usize = 0;
    while i < values.len()
        invariant
            i <= values@.len() == h,
            cols@ == seq![col],
            col < width,
            m.wf(),
            m.height() == h,
            m.width() == width,
            m.num_rows == num_rows,
            m.is_padded,
            forall|r: int, c: int|
                0 <= r < h && 0 <= c < width ==> (#[trigger] m.at(r, c)).value == if r < i && c
                    == col {
                    values@[r]
                } else {
                    0u64
                },
        decreases values@.len() - i,
    {
        let one: Vec<u64> = vec![values[i]];
        set_row(&mut m, i, &cols, &one);
        proof {
            reveal_with_fuel(row_with, 2);
        }
        i = i + 1;
    }
    m
}

/// Where the table of a memory without initial values has its columns.
#[derive(Clone, Debug)]
pub struct DynVolatileRamTableConfig {
    pub addr: StructuralWitIn,
    pub final_v: Vec<WitIn>,
    pub final_cycle: WitIn,
    pub table: DynVolatileRamTable,
}

/// Padding with the addresses of the cells that follow.
pub struct AddressPadding {
    pub table: DynVolatileRamTable,
    pub addr_id: u64,
}

impl PaddingFn for AddressPadding {
    open spec fn covers(&self, row: u64, col: u64) -> bool {
        &&& col == self.addr_id
        &&& row <= usize::MAX
        &&& 0 <= self.table.spec_addr(row as int) <= u32::MAX
    }

    open spec fn cell(&self, row: u64, col: u64) -> u64 {
        self.table.spec_addr(row as int) as u64
    }

    fn pad(&self, row: u64, col: u64) -> (r: u64) {
        self.table.addr(row as usize) as u64
    }
}

/// Zeros.
pub open spec fn zeros(n: nat) -> Seq<Expression> {
    Seq::new(n, |i: int| base_const(0))
}

fn zero_exprs(n: usize) -> (r: Vec<Expression>)
    ensures
        r@ == zeros(n as nat),
{
    let mut r: Vec<Expression> = Vec::with_capacity(n);
    let mut i: usize = 0;
    while i < n
        invariant
            i <= n,
            r@ == zeros(i as nat),
        decreases n - i,
    {
        r.push(Expression::zero());
        i = i + 1;
        assert(r@ =~= zeros(i as nat));
    }
    r
}

impl DynVolatileRamTableConfig {
    /// The tables that the circuit adds.
    pub open spec fn adds_tables(&self, after: TableBuilder, before: TableBuilder) -> bool {
        adds_memory_tables(
            after,
            before,
            self.table.ram_type,
            None,
            seq![self.addr],
            memory_record(
                self.table.ram_type,
                self.addr.spec_expr(),
                if self.table.zero_init {
                    zeros(self.table.v_limbs as nat)
                } else {
                    witin_exprs(self.final_v@)
                },
                base_const(0),
            ),
            memory_record(
                self.table.ram_type,
                self.addr.spec_expr(),
                witin_exprs(self.final_v@),
                Expression::WitIn(self.final_cycle.id),
            ),
        )
    }

    /// The matrix holds final values and cycles; the rows after them are zero.
    pub open spec fn is_final_matrix(
        &self,
        m: RowMajorMatrix,
        width: int,
        final_mem: Seq<MemFinalRecord>,
    ) -> bool {
        has_cells(
            m,
            final_mem.len() as int,
            width,
            |r: int, c: int|
                if r < final_mem.len() {
                    row_with(
                        self.final_columns(),
                        self.final_fields(final_mem[r]),
                        self.final_columns().len() as int,
                        c,
                    )
                } else {
                    0u64
                },
        )
    }

    /// The matrix holds the addresses of the first cells and of those that follow them.
    pub open spec fn is_address_matrix(&self, m: RowMajorMatrix, width: int, n: int) -> bool {
        has_cells(
            m,
            n,
            width,
            |r: int, c: int|
                if c == self.addr.id {
                    self.table.spec_addr(r) as u64
                } else {
                    0u64
                },
        )
    }

    /// A structural column with the addresses, and witnesses for the final values and the last
    /// cycle. Initial values are zero, or the final ones.
    pub fn construct_circuit(cb: &mut TableBuilder, table: DynVolatileRamTable) -> (r: Result<
        Self,
        ZKVMError,
    >)
        requires
            old(cb).num_structural_witin < u16::MAX,
            old(cb).num_witin + table.v_limbs + 1 <= u16::MAX,
        ensures
            r is Ok,
            ({
                let config = r->Ok_0;
                let n = table.v_limbs as int;
                let w = old(cb).num_witin as int;
                &&& config.table == table
                &&& config.addr == (StructuralWitIn {
                    id: old(cb).num_structural_witin,
                    max_len: table.max_len,
                    offset: table.offset_addr,
                    multi_factor: WORD_SIZE,
                    descending: table.descending,
                })
                &&& config.final_v@ == Seq::new(n as nat, |i: int| WitIn { id: (w + i) as u16 })
                &&& config.final_cycle.id == w + n
                &&& *final(cb) == (TableBuilder {
                    num_structural_witin: (old(cb).num_structural_witin + 1) as u16,
                    num_witin: (w + n + 1) as u16,
                    w_tables: final(cb).w_tables,
                    r_tables: final(cb).r_tables,
                    ..*old(cb)
                })
                &&& config.adds_tables(*final(cb), *old(cb))
            }),
    {
        let addr = cb.create_structural_witin(
            table.max_len,
            table.offset_addr,
            WORD_SIZE,
            table.descending,
        );
        let final_v = cb.create_witin_list(table.v_limbs);
        let final_cycle = cb.create_witin();
        let final_expr = exprs_of_witin(&final_v);
        let init_expr = if table.zero_init {
            zero_exprs(table.v_limbs as usize)
        } else {
            exprs_of_witin(&final_v)
        };
        let init_table = record_of(table.ram_type, addr.expr(), &init_expr, Expression::zero());
        let final_table = record_of(table.ram_type, addr.expr(), &final_expr, final_cycle.expr());
        add_memory_tables(cb, table.ram_type, None, Some(addr), init_table, final_table);
        Ok(DynVolatileRamTableConfig { addr, final_v, final_cycle, table })
    }

    /// The columns of the final records.
    pub open spec fn final_columns(&self) -> Seq<usize> {
        witin_columns(self.final_v@).push(self.final_cycle.id as usize)
    }

    /// The fields of a final record.
    pub open spec fn final_fields(&self, rec: MemFinalRecord) -> Seq<u64> {
        limbs(rec.value, self.final_v@.len() as int).push(rec.cycle)
    }

    /// The final values and cycles, and the addresses, which go on in the padding.
    pub fn assign_instances(
        &self,
        num_witin: usize,
        num_structural_witin: usize,
        final_mem: &[MemFinalRecord],
    ) -> (r: Result<[RowMajorMatrix; 2], ZKVMError>)
        requires
            final_mem@.len() <= self.table.max_len,
            is_pow2(self.table.max_len as int),
            self.final_v@.len() <= 2,
            num_witin > 0,
            forall|k: int|
                0 <= k < self.final_columns().len() ==> (#[trigger] self.final_columns()[k])
                    < num_witin,
            self.addr.id < num_structural_witin,
            // the padding rule knows of the addresses only
            final_mem@.len() < spec_next_pow2_instance_padding(final_mem@.len())
                ==> num_structural_witin == 1,
            can_allocate(final_mem@.len() as int, num_witin as int),
            can_allocate(final_mem@.len() as int, num_structural_witin as int),
            forall|i: int|
                0 <= i < final_mem@.len() ==> (#[trigger] final_mem@[i]).addr
                    == self.table.spec_addr(i),
            forall|i: int|
                0 <= i < spec_next_pow2_instance_padding(final_mem@.len()) ==> 0
                    <= #[trigger] self.table.spec_addr(i) <= u32::MAX,
        ensures
            r is Ok,
            self.is_final_matrix(r->Ok_0@[0], num_witin as int, final_mem@),
            r->Ok_0@[0].is_padded,
            self.is_address_matrix(
                r->Ok_0@[1],
                num_structural_witin as int,
                final_mem@.len() as int,
            ),
            r->Ok_0@[1].is_padded,
    {
        let n: usize = final_mem.len();
        let limb_count: usize = self.final_v.len();
        let mut witness = zero_matrix(n, num_witin, InstancePaddingStrategy::Default);
        let padding = AddressPadding { table: self.table, addr_id: self.addr.id as u64 };
        let mut structural = zero_matrix(
            n,
            num_structural_witin,
            InstancePaddingStrategy::Custom(Box::new(padding)),
        );
        proof {
            lemma_padding_is_pow2(n as nat);
        }
        let ghost h = witness.height();
        let ghost strategy = structural.padding_strategy;
        let mut cols: Vec<usize> = Vec::with_capacity(3);
        push_witin_columns(&mut cols, &self.final_v);
        cols.push(self.final_cycle.id as usize);
        assert(cols@ =~= self.final_columns());
        let addr_cols: Vec<usize> = vec![self.addr.id as usize];
        let mut i: usize = 0;
        while i < n
            invariant
                i <= n <= h,
                n == final_mem@.len(),
                limb_count == self.final_v@.len(),
                limb_count <= 2,
                cols@ == self.final_columns(),
                forall|k: int| 0 <= k < cols@.len() ==> (#[trigger] cols@[k]) < num_witin,
                addr_cols@ == seq![self.addr.id as usize],
                self.addr.id < num_structural_witin,
                forall|i: int|
                    0 <= i < final_mem@.len() ==> (#[trigger] final_mem@[i]).addr
                        == self.table.spec_addr(i),
                witness.wf(),
                witness.height() == h,
                witness.width() == num_witin,
                witness.num_rows == n,
                witness.is_padded,
                forall|r: int, c: int|
                    0 <= r < h && 0 <= c < num_witin ==> (#[trigger] witness.at(r, c)).value == if r
                        < i {
                        row_with(
                            self.final_columns(),
                            self.final_fields(final_mem@[r]),
                            self.final_columns().len() as int,
                            c,
                        )
                    } else {
                        0u64
                    },
                structural.wf(),
                structural.height() == h,
                structural.width() == num_structural_witin,
                structural.num_rows == n,
                structural.padding_strategy == strategy,
                forall|r: int, c: int|
                    0 <= r < h && 0 <= c < num_structural_witin ==> (#[trigger] structural.at(
                        r,
                        c,
                    )).value == if r < i && c == self.addr.id {
                        self.table.spec_addr(r) as u64
                    } else {
                        0u64
                    },
            decreases n - i,
        {
            let mut values = limb_values(final_mem[i].value, limb_count);
            values.push(final_mem[i].cycle);
            assert(values@ =~= self.final_fields(final_mem@[i as int]));
            set_row(&mut witness, i, &cols, &values);
            let addr: Vec<u64> = vec![final_mem[i].addr as u64];
            set_row(&mut structural, i, &addr_cols, &addr);
            proof {
                reveal_with_fuel(row_with, 2);
            }
            i = i + 1;
        }
        let ghost filled = structural;
        structural.padding_by_strategy();
        proof {
            assert forall|r: int, c: int|
                0 <= r < h && 0 <= c < num_structural_witin implies (#[trigger] structural.at(
                r,
                c,
            )).value == if c == self.addr.id {
                self.table.spec_addr(r) as u64
            } else {
                0u64
            } by {
                assert(structural.at(r, c) == filled.padded_at(r, c));
            }
        }
        Ok([witness, structural])
    }
}

} // verus!
