use vstd::prelude::*;

verus! {

/// What a table holds besides its rows.
pub struct TableData<'a> {
    /// Formulas attached to the table, if any.
    tblfm: Option<&'a str>,
}

/// What a table row holds.
pub struct TableRowData {
    table_row_type: TableRowType,
}

/// The kind of a table row.
pub enum TableRowType {
    Standard,
    Rule,
}

} // verus!
