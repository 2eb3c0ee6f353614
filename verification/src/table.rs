//! Rows of a collection of columns.
//!
//! A row is never stored: row `i` is the tuple of the cells at position `i`
//! of every column.

use vstd::prelude::*;
use crate::packers::{Cell, Kind, Packers};

verus! {

/// One row: its cells, in column order.
pub type Row = Seq<Cell>;

/// Number of rows of the collection: that of its first column, none without
/// columns.
pub open spec fn num_rows(columns: Seq<Packers>) -> nat {
    if columns.len() == 0 {
        0
    } else {
        columns[0]@.len()
    }
}

/// Every column has the same number of rows.
pub open spec fn aligned(columns: Seq<Packers>) -> bool {
    forall|c: int| 0 <= c < columns.len() ==> (#[trigger] columns[c])@.len() == num_rows(columns)
}

/// The kind of each column.
pub open spec fn kinds(columns: Seq<Packers>) -> Seq<Kind> {
    Seq::new(columns.len(), |c: int| columns[c].kind())
}

/// Row `i` of the collection.
pub open spec fn row(columns: Seq<Packers>, i: int) -> Row {
    Seq::new(columns.len(), |c: int| columns[c]@[i])
}

/// The rows of the collection, top to bottom.
pub open spec fn rows(columns: Seq<Packers>) -> Seq<Row> {
    Seq::new(num_rows(columns), |i: int| row(columns, i))
}

/// The row has one cell of each of the kinds, in their order.
pub open spec fn conforms(row: Row, kinds: Seq<Kind>) -> bool {
    &&& row.len() == kinds.len()
    &&& forall|c: int| 0 <= c < row.len() ==> (#[trigger] row[c]).kind() == kinds[c]
}

/// Every row of the table conforms to the column kinds `kinds`.
pub open spec fn typed(table: Seq<Row>, kinds: Seq<Kind>) -> bool {
    forall|i: int| 0 <= i < table.len() ==> conforms(#[trigger] table[i], kinds)
}

/// Entry `i` of the rows of a collection is its row `i`.
pub proof fn lemma_rows_index(columns: Seq<Packers>, i: int)
    requires
        0 <= i < num_rows(columns),
    ensures
        rows(columns)[i] == row(columns, i),
{
}

/// The rows of a collection conform to the kinds of its columns.
pub proof fn lemma_rows_typed(columns: Seq<Packers>)
    requires
        aligned(columns),
    ensures
        typed(rows(columns), kinds(columns)),
{
}

} // verus!
