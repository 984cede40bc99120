//! Tables of binary operations: a fixed table of operands and results with multiplicities.
use std::collections::HashMap;
use vstd::prelude::*;
use vstd::std_specs::hash::*;

use crate::circuit::ZKVMError;
use crate::expression::convert::ToExpr;
use crate::expression::{Expression, Fixed, WitIn};
use crate::tables::{
    can_allocate, has_cells, row_with, set_row, zero_matrix, LookupTable, ROMType, SetTableSpec,
    TableBuilder,
};
use crate::witness::{InstancePaddingStrategy, RowMajorMatrix};

verus! {

broadcast use group_hash_axioms;

/// Where a table of operations has its columns.
#[derive(Clone, Debug)]
pub struct OpTableConfig {
    pub abc: [Fixed; 3],
    pub mlt: WitIn,
}

/// How often the entry with the given index is looked up.
pub open spec fn multiplicity_of(multiplicity: Map<u64, usize>, idx: int) -> u64 {
    if multiplicity.contains_key(idx as u64) {
        multiplicity[idx as u64] as u64
    } else {
        0
    }
}

/// How often the entries are looked up.
pub fn multiplicities(multiplicity: &HashMap<u64, usize>, length: usize) -> (r: Vec<u64>)
    ensures
        r@ == Seq::new(length as nat, |i: int| multiplicity_of(multiplicity@, i)),
{
    let mut r: Vec<u64> = Vec::with_capacity(length);
    let mut i: usize = 0;
    while i < length
        invariant
            i <= length,
            r@ == Seq::new(i as nat, |i: int| multiplicity_of(multiplicity@, i)),
        decreases length - i,
    {
        let key: u64 = i as u64;
        let count: u64 = match multiplicity.get(&key) {
            Some(m) => *m as u64,
            None => 0,
        };
        r.push(count);
        i = i + 1;
        assert(r@ =~= Seq::new(i as nat, |i: int| multiplicity_of(multiplicity@, i)));
    }
    r
}

impl OpTableConfig {
    /// The columns of the operands and the result.
    pub open spec fn columns(&self) -> Seq<usize> {
        seq![self.abc@[0].0, self.abc@[1].0, self.abc@[2].0]
    }

    /// Three fixed columns with the operands and the result, and their multiplicities.
    pub fn construct_circuit(cb: &mut TableBuilder, rom_type: ROMType, table_len: usize) -> (r: Result<
        Self,
        ZKVMError,
    >)
        requires
            old(cb).num_fixed + 3 <= usize::MAX,
            old(cb).num_witin < u16::MAX,
        ensures
            r is Ok,
            ({
                let config = r->Ok_0;
                let n = old(cb).num_fixed;
                &&& config.columns() == seq![n, (n + 1) as usize, (n + 2) as usize]
                &&& config.mlt.id == old(cb).num_witin
                &&& *final(cb) == (TableBuilder {
                    num_fixed: (n + 3) as usize,
                    num_witin: (old(cb).num_witin + 1) as u16,
                    lk_tables: final(cb).lk_tables,
                    ..*old(cb)
                })
                &&& final(cb).lk_tables@.len() == old(cb).lk_tables@.len() + 1
                &&& final(cb).lk_tables@.drop_last() == old(cb).lk_tables@
                &&& is_op_table(final(cb).lk_tables@.last(), config, rom_type, table_len)
            }),
    {
        let a = cb.create_fixed();
        let b = cb.create_fixed();
        let c = cb.create_fixed();
        let mlt = cb.create_witin();
        let record = vec![Expression::Fixed(a), Expression::Fixed(b), Expression::Fixed(c)];
        let table = LookupTable {
            name: "record",
            spec: SetTableSpec { len: Some(table_len), structural_witins: Vec::new() },
            rom_type,
            record,
            multiplicity: mlt.expr(),
        };
        let ghost before = cb.lk_tables@;
        cb.lk_tables.push(table);
        let config = OpTableConfig { abc: [a, b, c], mlt };
        proof {
            assert(cb.lk_tables@.drop_last() =~= before);
            assert(table.record@ =~= config.columns().map_values(
                |c: usize| Expression::Fixed(Fixed(c)),
            ));
        }
        Ok(config)
    }

    /// The fixed table of operands and results.
    pub fn generate_fixed_traces(&self, num_fixed: usize, content: &Vec<[u64; 3]>) -> (m:
        RowMajorMatrix)
        requires
            num_fixed > 0,
            can_allocate(content@.len() as int, num_fixed as int),
            forall|k: int| 0 <= k < 3 ==> (#[trigger] self.abc@[k]).0 < num_fixed,
        ensures
            is_op_matrix(m, *self, num_fixed as int, content@),
            m.is_padded,
    {
        let mut m = zero_matrix(content.len(), num_fixed, InstancePaddingStrategy::Default);
        let cols: Vec<usize> = vec![self.abc[0].0, self.abc[1].0, self.abc[2].0];
        proof {
            assert(cols@ =~= self.columns());
            assert(self.abc@[0].0 < num_fixed && self.abc@[1].0 < num_fixed && self.abc@[2].0
                < num_fixed);
        }
        let ghost h = m.height();
        let mut i: usize = 0;
        while i < content.len()
            invariant
                i <= content@.len() <= h,
                cols@ == self.columns(),
                cols@.len() == 3,
                forall|k: int| 0 <= k < 3 ==> (#[trigger] cols@[k]) < num_fixed,
                m.wf(),
                m.height() == h,
                m.width() == num_fixed,
                m.num_rows == content@.len(),
                m.is_padded,
                forall|r: int, c: int|
                    0 <= r < h && 0 <= c < num_fixed ==> (#[trigger] m.at(r, c)).value == if r < i {
                        row_with(self.columns(), content@[r]@, 3, c)
                    } else {
                        0u64
                    },
            decreases content@.len() - i,
        {
            let abc = &content[i];
            let values: Vec<u64> = vec![abc[0], abc[1], abc[2]];
            assert(values@ =~= content@[i as int]@);
            set_row(&mut m, i, &cols, &values);
            i = i + 1;
        }
        m
    }

    /// The multiplicities, and no structural columns.
    pub fn assign_instances(
        &self,
        num_witin: usize,
        num_structural_witin: usize,
        multiplicity: &HashMap<u64, usize>,
        length: usize,
    ) -> (r: Result<[RowMajorMatrix; 2], ZKVMError>)
        requires
            num_structural_witin == 0,
            self.mlt.id < num_witin,
            can_allocate(length as int, num_witin as int),
            forall|key: u64| #[trigger] multiplicity@.contains_key(key) ==> key < length,
        ensures
            r is Ok,
            is_multiplicity_matrix(
                r->Ok_0@[0],
                self.mlt,
                num_witin as int,
                multiplicity@,
                length as int,
                length as int,
            ),
            r->Ok_0@[0].is_padded,
            r->Ok_0@[1].cells() == Seq::<u64>::empty(),
            r->Ok_0@[1].num_rows == 0,
    {
        let mlts = multiplicities(multiplicity, length);
        let witness = multiplicity_matrix(&mlts, self.mlt, num_witin, length);
        Ok([witness, RowMajorMatrix::empty()])
    }
}

/// The matrix with the multiplicities in one column.
pub fn multiplicity_matrix(mlts: &Vec<u64>, mlt: WitIn, num_witin: usize, length: usize) -> (m:
    RowMajorMatrix)
    requires
        mlt.id < num_witin,
        mlts@.len() <= length,
        can_allocate(length as int, num_witin as int),
    ensures
        has_cells(
            m,
            length as int,
            num_witin as int,
            |r: int, c: int|
                if r < mlts@.len() && c == mlt.id {
                    mlts@[r]
                } else {
                    0u64
                },
        ),
        m.is_padded,
{
    let mut m = zero_matrix(length, num_witin, InstancePaddingStrategy::Default);
    let ghost h = m.height();
    proof {
        crate::witness::lemma_padding_is_pow2(length as nat);
    }
    let cols: Vec<usize> = vec![mlt.id as usize];
    let mut i: usize = 0;
    while i < mlts.len()
        invariant
            i <= mlts@.len() <= length <= h,
            cols@ == seq![mlt.id as usize],
            mlt.id < num_witin,
            m.wf(),
            m.height() == h,
            m.width() == num_witin,
            m.num_rows == length,
            m.is_padded,
            forall|r: int, c: int|
                0 <= r < h && 0 <= c < num_witin ==> (#[trigger] m.at(r, c)).value == if r < i && c
                    == mlt.id {
                    mlts@[r]
                } else {
                    0u64
                },
        decreases mlts@.len() - i,
    {
        let values: Vec<u64> = vec![mlts[i]];
        set_row(&mut m, i, &cols, &values);
        proof {
            reveal_with_fuel(row_with, 2);
        }
        i = i + 1;
    }
    m
}

/// The matrix holds operands and results; the rows after them are zero.
pub open spec fn is_op_matrix(
    m: RowMajorMatrix,
    config: OpTableConfig,
    width: int,
    content: Seq<[u64; 3]>,
) -> bool {
    has_cells(
        m,
        content.len() as int,
        width,
        |r: int, c: int|
            if r < content.len() {
                row_with(config.columns(), content[r]@, 3, c)
            } else {
                0u64
            },
    )
}

/// The matrix holds how often the first `n` entries are looked up.
pub open spec fn is_multiplicity_matrix(
    m: RowMajorMatrix,
    mlt: WitIn,
    width: int,
    multiplicity: Map<u64, usize>,
    length: int,
    n: int,
) -> bool {
    has_cells(
        m,
        length,
        width,
        |r: int, c: int|
            if r < length && r < n && c == mlt.id {
                multiplicity_of(multiplicity, r)
            } else {
                0u64
            },
    )
}

/// The table of an operation.
pub open spec fn is_op_table(
    table: LookupTable,
    config: OpTableConfig,
    rom_type: ROMType,
    table_len: usize,
) -> bool {
    &&& table.name@ == "record"@
    &&& table.rom_type == rom_type
    &&& table.spec.len == Some(table_len)
    &&& table.spec.structural_witins@.len() == 0
    &&& table.record@ == config.columns().map_values(|c: usize| Expression::Fixed(Fixed(c)))
    &&& table.multiplicity == Expression::WitIn(config.mlt.id)
}

} // verus!
