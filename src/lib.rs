//! Bit-level inspection engine: take/skip micro-operations, interleavers,
//! approximate bit-pattern search and frame-width statistics, over bit
//! buffers read most significant bit first.

pub mod analysis;
pub mod bits;
pub mod processing;
pub mod text;
pub mod types;
pub mod utils;

pub use analysis::{Pattern, PatternFormat, PatternMatch};
pub use bits::Bits;
pub use processing::{BitOperation, Operation, OperationSequence, WorksheetOperation};
pub use types::{OperationType, ViewMode};
