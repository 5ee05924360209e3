//! Table schemas: a table name, typed columns, and the columns of the primary key.
use crate::cell::{CellType, CellValue};
use crate::row::Row;
use vstd::prelude::*;

verus! {

/// A table's layout.
#[derive(Debug, Clone, PartialEq)]
pub struct Schema {
    /// The table's name; its bytes prefix every key of the table.
    pub table: String,
    /// The columns, in declaration order.
    pub cols: Vec<Column>,
    /// Indices into `cols` of the primary-key columns, in key order.
    pub pkey: Vec<usize>,
}

/// A named column; the variant of `data_types` is its type, whatever it holds.
#[derive(Debug, Clone, PartialEq)]
pub struct Column {
    pub name: String,
    pub data_types: CellType,
}

/// The default cell of a type: zero, or the empty string.
pub open spec fn default_cell(t: CellValue) -> CellValue {
    match t {
        CellValue::I64(_) => CellValue::I64(0),
        CellValue::Str(_) => CellValue::Str(Seq::empty()),
    }
}

impl Schema {
    /// The type witness of each column, in declaration order.
    pub open spec fn types(&self) -> Seq<CellValue> {
        Seq::new(self.cols@.len(), |i: int| self.cols@[i].data_types@)
    }

    /// Every primary-key index names a column.
    pub open spec fn keys_in_range(&self) -> bool {
        forall|i: int| 0 <= i < self.pkey@.len() ==> #[trigger] self.pkey@[i] < self.cols@.len()
    }

    /// The cells of a fresh row: the default of each column's type.
    pub open spec fn default_cells(&self) -> Seq<CellValue> {
        Seq::new(self.cols@.len(), |i: int| default_cell(self.types()[i]))
    }

    /// The bytes of the table name that start every key of the table.
    pub open spec fn table_bytes(&self) -> Seq<u8> {
        vstd::utf8::encode_utf8(self.table@)
    }

    /// A row with one type-correct default cell per column, to decode into.
    pub fn new_row(&self) -> (r: Row)
        ensures
            r@ == self.default_cells(),
    {
        let mut cells: Vec<CellType> = Vec::new();
        let mut i: usize = 0;
        while i < self.cols.len()
            invariant
                i <= self.cols@.len(),
                cells@.len() == i,
                forall|j: int| 0 <= j < i ==> (#[trigger] cells@[j])@ == self.default_cells()[j],
            decreases self.cols@.len() - i,
        {
            let c = match self.cols[i].data_types {
                CellType::I64(_) => CellType::I64(0),
                CellType::Str(_) => CellType::Str(Vec::new()),
            };
            cells.push(c);
            i = i + 1;
        }
        let r = Row { cells };
        assert(r@ =~= self.default_cells());
        r
    }
}

} // verus!
