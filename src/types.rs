//! Small enumerations shared by the editors and viewers.

use vstd::prelude::*;

verus! {

/// How the buffer is shown.
#[derive(Debug, Clone, Copy, PartialEq, Eq, Structural)]
pub enum ViewMode {
    Bit,
    Byte,
    Ascii,
}

impl Default for ViewMode {
    fn default() -> (r: Self)
        ensures
            r == ViewMode::Bit,
    {
        ViewMode::Bit
    }
}

/// The kinds of pipeline stage that can be added.
#[derive(Debug, Clone, Copy, PartialEq, Eq, Structural)]
pub enum OperationType {
    LoadFile,
    TakeSkipSequence,
    InvertBits,
    MultiWorksheetLoad,
    TruncateBits,
}

impl OperationType {
    pub fn name(&self) -> (r: &'static str)
        ensures
            r@ == match self {
                OperationType::LoadFile => "Load File"@,
                OperationType::TakeSkipSequence => "Take/Skip Sequence"@,
                OperationType::InvertBits => "Invert Bits"@,
                OperationType::MultiWorksheetLoad => "Multi-Worksheet Load"@,
                OperationType::TruncateBits => "Truncate Bits"@,
            },
    {
        match self {
            OperationType::LoadFile => "Load File",
            OperationType::TakeSkipSequence => "Take/Skip Sequence",
            OperationType::InvertBits => "Invert Bits",
            OperationType::MultiWorksheetLoad => "Multi-Worksheet Load",
            OperationType::TruncateBits => "Truncate Bits",
        }
    }

    pub fn icon(&self) -> (r: &'static str)
        ensures
            r@ == match self {
                OperationType::LoadFile => "\u{1f4c2}"@,
                OperationType::TakeSkipSequence => "\u{1f4dd}"@,
                OperationType::InvertBits => "\u{1f504}"@,
                OperationType::MultiWorksheetLoad => "\u{1f4da}"@,
                OperationType::TruncateBits => "\u{2702}\u{fe0f}"@,
            },
    {
        match self {
            OperationType::LoadFile => "\u{1f4c2}",
            OperationType::TakeSkipSequence => "\u{1f4dd}",
            OperationType::InvertBits => "\u{1f504}",
            OperationType::MultiWorksheetLoad => "\u{1f4da}",
            OperationType::TruncateBits => "\u{2702}\u{fe0f}",
        }
    }

    pub fn description(&self) -> (r: &'static str)
        ensures
            r@ == match self {
                OperationType::LoadFile => "Load bits from a file"@,
                OperationType::TakeSkipSequence => "Pattern-based bit extraction (t4r3i8s1)"@,
                OperationType::InvertBits => "Invert all bits (0\u{2192}1, 1\u{2192}0)"@,
                OperationType::MultiWorksheetLoad => "Load bits from multiple worksheets with operations"@,
                OperationType::TruncateBits => "Keep bits in a range and discard the rest"@,
            },
    {
        match self {
            OperationType::LoadFile => "Load bits from a file",
            OperationType::TakeSkipSequence => "Pattern-based bit extraction (t4r3i8s1)",
            OperationType::InvertBits => "Invert all bits (0\u{2192}1, 1\u{2192}0)",
            OperationType::MultiWorksheetLoad => "Load bits from multiple worksheets with operations",
            OperationType::TruncateBits => "Keep bits in a range and discard the rest",
        }
    }

    /// Every kind, in menu order.
    pub fn all() -> (r: &'static [OperationType])
        ensures
            r@ == seq![
                OperationType::LoadFile,
                OperationType::TakeSkipSequence,
                OperationType::InvertBits,
                OperationType::MultiWorksheetLoad,
                OperationType::TruncateBits,
            ],
    {
        let r: &'static [OperationType] = &[
            OperationType::LoadFile,
            OperationType::TakeSkipSequence,
            OperationType::InvertBits,
            OperationType::MultiWorksheetLoad,
            OperationType::TruncateBits,
        ];
        assert(r@ =~= seq![
            OperationType::LoadFile,
            OperationType::TakeSkipSequence,
            OperationType::InvertBits,
            OperationType::MultiWorksheetLoad,
            OperationType::TruncateBits,
        ]);
        r
    }
}

} // verus!
