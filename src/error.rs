use vstd::prelude::*;

verus! {

/// The ways an operation of this library can fail.
#[derive(Debug, Clone, Copy, PartialEq, Eq, Structural)]
pub enum DbError {
    /// The file is missing, unreadable or shorter than a page it must hold.
    Io,
    /// A header, page, varint or record is structurally invalid.
    Format,
    /// A table or column named by a query does not exist.
    Schema,
    /// The SQL text does not match the supported grammar.
    Parse,
}

} // verus!
