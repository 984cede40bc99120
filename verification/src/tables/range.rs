//! Tables of ranges: consecutive numbers with multiplicities.
use std::collections::HashMap;
use vstd::prelude::*;

use crate::circuit::ZKVMError;
use crate::expression::convert::ToExpr;
use crate::expression::{Expression, StructuralWitIn, WitIn};
use crate::tables::ops::{is_multiplicity_matrix, multiplicities, multiplicity_matrix};
use crate::tables::{can_allocate, has_cells, LookupTable, ROMType, SetTableSpec, TableBuilder};
use crate::witness::RowMajorMatrix;

verus! {

/// Where a table of a range has its columns.
#[derive(Clone, Debug)]
pub struct RangeTableConfig {
    pub range: StructuralWitIn,
    pub mlt: WitIn,
}

/// The table of a range.
pub open spec fn is_range_table(
    table: LookupTable,
    config: RangeTableConfig,
    rom_type: ROMType,
    table_len: usize,
) -> bool {
    &&& table.name@ == "record"@
    &&& table.rom_type == rom_type
    &&& table.spec.len == Some(table_len)
    &&& table.spec.structural_witins@ == seq![config.range]
    &&& table.record@ == seq![config.range.spec_expr()]
    &&& table.multiplicity == Expression::WitIn(config.mlt.id)
}

/// The matrix holds the numbers of a range.
pub open spec fn is_range_matrix(
    m: RowMajorMatrix,
    config: RangeTableConfig,
    width: int,
    content: Seq<u64>,
    length: int,
) -> bool {
    has_cells(
        m,
        length,
        width,
        |r: int, c: int|
            if r < length && r < content.len() && c == config.range.id {
                content[r]
            } else {
                0u64
            },
    )
}

impl RangeTableConfig {
    /// A structural column that counts from zero, and its multiplicities.
    pub fn construct_circuit(cb: &mut TableBuilder, rom_type: ROMType, table_len: usize) -> (r: Result<
        Self,
        ZKVMError,
    >)
        requires
            old(cb).num_structural_witin < u16::MAX,
            old(cb).num_witin < u16::MAX,
        ensures
            r is Ok,
            ({
                let config = r->Ok_0;
                &&& config.range == (StructuralWitIn {
                    id: old(cb).num_structural_witin,
                    max_len: table_len,
                    offset: 0,
                    multi_factor: 1,
                    descending: false,
                })
                &&& config.mlt.id == old(cb).num_witin
                &&& *final(cb) == (TableBuilder {
                    num_structural_witin: (old(cb).num_structural_witin + 1) as u16,
                    num_witin: (old(cb).num_witin + 1) as u16,
                    lk_tables: final(cb).lk_tables,
                    ..*old(cb)
                })
                &&& final(cb).lk_tables@.len() == old(cb).lk_tables@.len() + 1
                &&& final(cb).lk_tables@.drop_last() == old(cb).lk_tables@
                &&& is_range_table(final(cb).lk_tables@.last(), config, rom_type, table_len)
            }),
    {
        let range = cb.create_structural_witin(table_len, 0, 1, false);
        let mlt = cb.create_witin();
        let table = LookupTable {
            name: "record",
            spec: SetTableSpec { len: Some(table_len), structural_witins: vec![range] },
            rom_type,
            record: vec![range.expr()],
            multiplicity: mlt.expr(),
        };
        let ghost before = cb.lk_tables@;
        cb.lk_tables.push(table);
        proof {
            assert(cb.lk_tables@.drop_last() =~= before);
            assert(table.record@ =~= seq![range.spec_expr()]);
            assert(table.spec.structural_witins@ =~= seq![range]);
        }
        Ok(RangeTableConfig { range, mlt })
    }

    /// The multiplicities and the numbers of the range, for the rows that have content.
    pub fn assign_instances(
        &self,
        num_witin: usize,
        num_structural_witin: usize,
        multiplicity: &HashMap<u64, usize>,
        content: &Vec<u64>,
        length: usize,
    ) -> (r: Result<[RowMajorMatrix; 2], ZKVMError>)
        requires
            self.mlt.id < num_witin,
            self.range.id < num_structural_witin,
            can_allocate(length as int, num_witin as int),
            can_allocate(length as int, num_structural_witin as int),
            forall|key: u64| #[trigger] multiplicity@.contains_key(key) ==> key < length,
        ensures
            r is Ok,
            is_multiplicity_matrix(
                r->Ok_0@[0],
                self.mlt,
                num_witin as int,
                multiplicity@,
                length as int,
                content@.len() as int,
            ),
            r->Ok_0@[0].is_padded,
            is_range_matrix(
                r->Ok_0@[1],
                *self,
                num_structural_witin as int,
                content@,
                length as int,
            ),
            r->Ok_0@[1].is_padded,
    {
        let all = multiplicities(multiplicity, length);
        let n: usize = if content.len() < length {
            content.len()
        } else {
            length
        };
        let mlts = first_entries(&all, n);
        let numbers = first_entries(content, n);
        let witness = multiplicity_matrix(&mlts, self.mlt, num_witin, length);
        let structural = multiplicity_matrix(
            &numbers,
            WitIn { id: self.range.id },
            num_structural_witin,
            length,
        );
        Ok([witness, structural])
    }
}

fn first_entries(v: &Vec<u64>, n: usize) -> (r: Vec<u64>)
    requires
        n <= v@.len(),
    ensures
        r@ == v@.take(n as int),
{
    let mut r: Vec<u64> = Vec::with_capacity(n);
    let mut i: usize = 0;
    while i < n
        invariant
            i <= n <= v@.len(),
            r@ == v@.take(i as int),
        decreases n - i,
    {
        r.push(v[i]);
        i = i + 1;
        assert(r@ =~= v@.take(i as int));
    }
    r
}

} // verus!
