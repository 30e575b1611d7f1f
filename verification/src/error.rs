//! The failures that the table, the shape checks and the trainer report.

use vstd::prelude::*;

verus! {

/// Why an operation of this library failed.
#[derive(Debug, Clone, Copy, PartialEq, Eq, Structural)]
pub enum SgdError {
    /// Row `row` does not have one value per column.
    Schema { row: usize },
    /// A feature vector does not have one value per coefficient, or a batch
    /// does not have one target per feature vector.
    DimensionMismatch,
    /// A batch without rows reached a computation that averages over it.
    EmptyBatch,
    /// The least value of a column is not below its greatest: the column
    /// has no spread to divide by.
    DegenerateColumn,
    /// A parameter stopped being finite during epoch `epoch`.
    Diverged { epoch: u32 },
}

} // verus!
