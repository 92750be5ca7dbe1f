//! What can go wrong.
use crate::table::TableId;
use vstd::prelude::*;

verus! {

/// Why an operation was refused.
#[derive(Clone, Copy, PartialEq, Eq, Structural, Debug)]
pub enum Error {
    /// The file of this table is not in the directory.
    MissingTable(TableId),
    /// The file of this table is not what the table of contents says of it.
    CorruptTable(TableId),
    /// The table of contents cannot be read.
    CorruptToc,
    /// No number is left for a new table.
    IdsExhausted,
}

} // verus!
