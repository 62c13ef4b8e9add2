//! Bit transforms: the take/skip interpreter, the interleavers and the
//! pipeline stages built from them.

pub mod operations;

pub use operations::{run_pipeline, BitOperation, Operation, OperationSequence, WorksheetOperation};
pub mod interleaver;

pub use interleaver::{
    BlockInterleaverConfig, ConvolutionalInterleaverConfig, InterleaverDirection, InterleaverType,
    SymbolInterleaverConfig,
};
