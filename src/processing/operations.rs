//! The take/skip micro-operation language: parsing `t4r3i8s1`, printing it
//! back, and replaying a sequence cyclically over a bit buffer.

use crate::bits::{complement, reversed, Bits, MAX_BITS};
use crate::processing::interleaver::{
    BlockInterleaverConfig, ConvolutionalInterleaverConfig, InterleaverDirection, InterleaverType,
    SymbolInterleaverConfig,
};
use crate::text::{
    decimal, digit_run, is_digit, lemma_decimal, lemma_digit_run_prefix, message_with, numeral_value, push_decimal,
};
use vstd::prelude::*;
use vstd::string::*;

verus! {

/// One primitive micro-operation with its bit count.
#[derive(Debug, Clone, Copy, PartialEq, Eq, Structural)]
pub enum Operation {
    Take(usize),
    Reverse(usize),
    Invert(usize),
    Skip(usize),
}

impl Operation {
    /// The bit count the operation carries.
    pub open spec fn count(self) -> usize {
        match self {
            Operation::Take(n) => n,
            Operation::Reverse(n) => n,
            Operation::Invert(n) => n,
            Operation::Skip(n) => n,
        }
    }

    /// The operation's letter in the textual grammar.
    pub open spec fn letter(self) -> char {
        match self {
            Operation::Take(_) => 't',
            Operation::Reverse(_) => 'r',
            Operation::Invert(_) => 'i',
            Operation::Skip(_) => 's',
        }
    }

    /// The operation's text: its letter followed by its count in decimal.
    pub open spec fn text(self) -> Seq<char> {
        seq![self.letter()] + decimal(self.count() as nat)
    }

    fn bit_count(&self) -> (r: usize)
        ensures
            r == self.count(),
    {
        match self {
            Operation::Take(n) => *n,
            Operation::Reverse(n) => *n,
            Operation::Invert(n) => *n,
            Operation::Skip(n) => *n,
        }
    }

    /// The operation written as its letter and count, e.g. `t4`.
    pub fn to_string(&self) -> (r: String)
        ensures
            r@ == self.text(),
    {
        let mut s = String::new();
        let letter = match self {
            Operation::Take(_) => "t",
            Operation::Reverse(_) => "r",
            Operation::Invert(_) => "i",
            Operation::Skip(_) => "s",
        };
        proof {
            reveal_strlit("t");
            reveal_strlit("r");
            reveal_strlit("i");
            reveal_strlit("s");
        }
        s.append(letter);
        push_decimal(&mut s, self.bit_count());
        assert(s@ =~= self.text());
        s
    }
}

/// The operation that letter `c` names, case-insensitively, with count `n`.
pub open spec fn op_named(c: char, n: usize) -> Option<Operation> {
    if c == 't' || c == 'T' {
        Some(Operation::Take(n))
    } else if c == 'r' || c == 'R' {
        Some(Operation::Reverse(n))
    } else if c == 'i' || c == 'I' {
        Some(Operation::Invert(n))
    } else if c == 's' || c == 'S' {
        Some(Operation::Skip(n))
    } else {
        None
    }
}

/// The operations that `s` denotes: each token is one letter followed by
/// a run of decimal digits whose value fits a `usize`; `None` if `s` is
/// malformed.
pub open spec fn parse_ops(s: Seq<char>) -> Option<Seq<Operation>>
    decreases s.len(),
{
    if s.len() == 0 {
        Some(Seq::empty())
    } else {
        let j = 1 + digit_run(s.drop_first());
        let v = numeral_value(s.subrange(1, j as int));
        if j == 1 || j > s.len() || v > usize::MAX {
            None
        } else {
            match op_named(s[0], v as usize) {
                None => None,
                Some(op) => match parse_ops(s.subrange(j as int, s.len() as int)) {
                    None => None,
                    Some(rest) => Some(seq![op] + rest),
                },
            }
        }
    }
}

/// The message of the first malformed token of `s` (empty if there is none):
/// a letter without digits, a count that does not fit, or an unknown letter.
pub open spec fn parse_failure(s: Seq<char>) -> Seq<char>
    decreases s.len(),
{
    if s.len() == 0 {
        Seq::empty()
    } else {
        let j = 1 + digit_run(s.drop_first());
        let v = numeral_value(s.subrange(1, j as int));
        if j == 1 || j > s.len() {
            "Expected number after '"@ + seq![s[0]] + "'"@
        } else if v > usize::MAX {
            "Invalid number: "@ + s.subrange(1, j as int)
        } else if op_named(s[0], v as usize) is None {
            "Unknown operation: "@ + seq![s[0]]
        } else {
            parse_failure(s.subrange(j as int, s.len() as int))
        }
    }
}

/// The text of a list of operations, tokens concatenated in order.
pub open spec fn ops_text(ops: Seq<Operation>) -> Seq<char>
    decreases ops.len(),
{
    if ops.len() == 0 {
        Seq::empty()
    } else {
        ops[0].text() + ops_text(ops.drop_first())
    }
}

/// A nonempty text of operations starts with a letter, not a digit.
proof fn lemma_ops_text_starts_with_letter(ops: Seq<Operation>)
    ensures
        ops.len() == 0 ==> ops_text(ops).len() == 0,
        ops.len() > 0 ==> ops_text(ops).len() > 0 && ops_text(ops)[0] == ops[0].letter()
            && !is_digit(ops_text(ops)[0]),
{
    if ops.len() > 0 {
        assert((ops[0].text() + ops_text(ops.drop_first()))[0] == ops[0].letter());
    }
}

/// Printing a list of operations and parsing the text gives the same list
/// back.
pub proof fn lemma_to_string_parses_back(ops: Seq<Operation>)
    ensures
        parse_ops(ops_text(ops)) == Some(ops),
    decreases ops.len(),
{
    if ops.len() == 0 {
    } else {
        let op = ops[0];
        let rest = ops.drop_first();
        let n = op.count() as nat;
        let d = decimal(n);
        let s = ops_text(ops);
        lemma_decimal(n);
        lemma_ops_text_starts_with_letter(rest);
        assert(s =~= seq![op.letter()] + d + ops_text(rest));
        assert(s.drop_first() =~= d + ops_text(rest));
        lemma_digit_run_prefix(d, ops_text(rest));
        let j = 1 + d.len();
        assert(s.subrange(1, j as int) =~= d);
        assert(s.subrange(j as int, s.len() as int) =~= ops_text(rest));
        lemma_to_string_parses_back(rest);
        assert(seq![op] + rest =~= ops);
    }
}

/// `end` of the window `pos..pos + n`, clamped to the input length.
pub open spec fn window_end(pos: int, n: int, len: int) -> int {
    if pos + n < len {
        pos + n
    } else {
        len
    }
}

/// One operation at cursor `pos`: where the cursor goes and what is appended.
pub open spec fn op_step(op: Operation, input: Seq<bool>, pos: int) -> (int, Seq<bool>) {
    let n = op.count() as int;
    if n == 0 {
        (pos, Seq::empty())
    } else {
        let end = window_end(pos, n, input.len() as int);
        let window = input.subrange(pos, end);
        match op {
            Operation::Take(_) => (end, window),
            Operation::Reverse(_) => (end, reversed(window)),
            Operation::Invert(_) => (end, complement(window)),
            Operation::Skip(_) => (end, Seq::empty()),
        }
    }
}

/// The operations from index `k` on, started at cursor `pos`; a pass stops
/// as soon as the cursor reaches the end of the input.
pub open spec fn pass_from(ops: Seq<Operation>, input: Seq<bool>, k: int, pos: int) -> (int, Seq<bool>)
    decreases ops.len() - k,
{
    if k < 0 || k >= ops.len() || pos >= input.len() {
        (pos, Seq::empty())
    } else {
        let first = op_step(ops[k], input, pos);
        let rest = pass_from(ops, input, k + 1, first.0);
        (rest.0, first.1 + rest.1)
    }
}

/// Whole passes repeated from cursor `pos` until the input is used up or a
/// pass makes no progress.
pub open spec fn run_from(ops: Seq<Operation>, input: Seq<bool>, pos: int) -> Seq<bool>
    decreases input.len() - pos,
{
    if pos >= input.len() {
        Seq::empty()
    } else {
        let pass = pass_from(ops, input, 0, pos);
        if pass.0 <= pos || pass.0 > input.len() {
            pass.1
        } else {
            pass.1 + run_from(ops, input, pass.0)
        }
    }
}

/// The output of a sequence replayed over `input`.
pub open spec fn apply_ops(ops: Seq<Operation>, input: Seq<bool>) -> Seq<bool> {
    run_from(ops, input, 0)
}

/// A pass of operations that all count zero leaves the cursor where it was
/// and appends nothing.
proof fn lemma_zero_pass(ops: Seq<Operation>, input: Seq<bool>, k: int, pos: int)
    requires
        forall|i: int| 0 <= i < ops.len() ==> (#[trigger] ops[i]).count() == 0,
    ensures
        pass_from(ops, input, k, pos) == (pos, Seq::<bool>::empty()),
    decreases ops.len() - k,
{
    if k < 0 || k >= ops.len() || pos >= input.len() {
    } else {
        lemma_zero_pass(ops, input, k + 1, pos);
        assert(Seq::<bool>::empty() + Seq::<bool>::empty() =~= Seq::<bool>::empty());
    }
}

/// A sequence made only of zero counts (`t0`, `s0`, ...) stops at once and
/// produces no bits, whatever the input.
pub proof fn lemma_zero_counts_produce_nothing(ops: Seq<Operation>, input: Seq<bool>)
    requires
        forall|i: int| 0 <= i < ops.len() ==> (#[trigger] ops[i]).count() == 0,
    ensures
        apply_ops(ops, input) == Seq::<bool>::empty(),
{
    lemma_zero_pass(ops, input, 0, 0);
}

/// An ordered list of micro-operations.
#[derive(Debug, Clone)]
pub struct OperationSequence {
    pub operations: Vec<Operation>,
}

impl OperationSequence {
    /// Parses the grammar `([tTrRiIsS][0-9]+)*`.
    pub fn from_string(s: &str) -> (r: Result<OperationSequence, String>)
        ensures
            r is Ok <==> parse_ops(s@) is Some,
            r is Ok ==> parse_ops(s@) == Some(r->Ok_0.operations@),
            r matches Err(e) ==> e@ == parse_failure(s@),
    {
        let n = s.unicode_len();
        let mut operations: Vec<Operation> = Vec::new();
        let mut i: usize = 0;
        proof {
            assert(s@.subrange(0, n as int) =~= s@);
            if let Some(rest) = parse_ops(s@) {
                assert(operations@ + rest =~= rest);
            }
        }
        while i < n
            invariant
                n == s@.len(),
                i <= n,
                parse_ops(s@) == match parse_ops(s@.subrange(i as int, n as int)) {
                    None => None,
                    Some(rest) => Some(operations@ + rest),
                },
                parse_failure(s@) == parse_failure(s@.subrange(i as int, n as int)),
            decreases n - i,
        {
            let ghost t = s@.subrange(i as int, n as int);
            let c = s.get_char(i);
            let mut j: usize = i + 1;
            let mut value: usize = 0;
            let mut too_large = false;
            while j < n && (s.get_char(j) as u32) >= 48 && (s.get_char(j) as u32) <= 57
                invariant
                    n == s@.len(),
                    i < j <= n,
                    forall|m: int| i < m < j ==> is_digit(#[trigger] s@[m]),
                    !too_large ==> value == numeral_value(s@.subrange(i + 1, j as int)),
                    too_large ==> numeral_value(s@.subrange(i + 1, j as int)) > usize::MAX,
                decreases n - j,
            {
                let d = (s.get_char(j) as u32 - 48) as usize;
                let ghost before = numeral_value(s@.subrange(i + 1, j as int));
                assert(s@.subrange(i + 1, j + 1).drop_last() =~= s@.subrange(i + 1, j as int));
                assert(numeral_value(s@.subrange(i + 1, j + 1)) == before * 10 + d);
                if !too_large {
                    if value > (usize::MAX - d) / 10 {
                        too_large = true;
                        assert(before * 10 + d > usize::MAX) by (nonlinear_arith)
                            requires
                                before == value,
                                value > (usize::MAX - d) / 10,
                                d <= 9,
                        ;
                    } else {
                        assert(value * 10 + d <= usize::MAX) by (nonlinear_arith)
                            requires
                                value <= (usize::MAX - d) / 10,
                                d <= 9,
                        ;
                        value = value * 10 + d;
                    }
                } else {
                    assert(before * 10 + d >= before) by (nonlinear_arith);
                }
                j = j + 1;
            }
            proof {
                let u = t.drop_first();
                let run = (j - i - 1) as int;
                assert(u =~= s@.subrange(i + 1, j as int) + s@.subrange(j as int, n as int));
                lemma_digit_run_prefix(s@.subrange(i + 1, j as int), s@.subrange(j as int, n as int));
                assert(digit_run(u) == run);
                assert(t.subrange(1, 1 + run) =~= s@.subrange(i + 1, j as int));
                assert(t.subrange(1 + run, t.len() as int) =~= s@.subrange(j as int, n as int));
            }
            proof {
                reveal_strlit("Expected number after '");
                reveal_strlit("'");
                reveal_strlit("");
                reveal_strlit("Invalid number: ");
                reveal_strlit("Unknown operation: ");
                assert(s@.subrange(i as int, i + 1) =~= seq![t[0]]);
            }
            if j == i + 1 {
                return Err(message_with("Expected number after '", s, i, i + 1, "'"));
            }
            if too_large {
                let m = message_with("Invalid number: ", s, i + 1, j, "");
                assert(m@ =~= "Invalid number: "@ + t.subrange(1, j - i));
                return Err(m);
            }
            let op = if c == 't' || c == 'T' {
                Operation::Take(value)
            } else if c == 'r' || c == 'R' {
                Operation::Reverse(value)
            } else if c == 'i' || c == 'I' {
                Operation::Invert(value)
            } else if c == 's' || c == 'S' {
                Operation::Skip(value)
            } else {
                let m = message_with("Unknown operation: ", s, i, i + 1, "");
                assert(m@ =~= "Unknown operation: "@ + seq![t[0]]);
                return Err(m);
            };
            let ghost prev = operations@;
            operations.push(op);
            proof {
                if let Some(rest) = parse_ops(s@.subrange(j as int, n as int)) {
                    assert(prev + (seq![op] + rest) =~= operations@ + rest);
                }
            }
            i = j;
        }
        assert(s@.subrange(n as int, n as int) =~= Seq::<char>::empty());
        assert(operations@ + Seq::<Operation>::empty() =~= operations@);
        Ok(OperationSequence { operations })
    }

    /// The sequence written back in the grammar, tokens in order.
    pub fn to_string(&self) -> (r: String)
        ensures
            r@ == ops_text(self.operations@),
    {
        let mut s = String::new();
        let mut k: usize = 0;
        assert(self.operations@.subrange(0, self.operations@.len() as int) =~= self.operations@);
        assert(s@ + ops_text(self.operations@) =~= ops_text(self.operations@));
        while k < self.operations.len()
            invariant
                k <= self.operations@.len(),
                s@ + ops_text(self.operations@.subrange(k as int, self.operations@.len() as int))
                    == ops_text(self.operations@),
            decreases self.operations@.len() - k,
        {
            let ghost rest = self.operations@.subrange(k as int, self.operations@.len() as int);
            let t = self.operations[k].to_string();
            let ghost before = s@;
            s.append(t.as_str());
            proof {
                assert(rest.drop_first() =~= self.operations@.subrange(k + 1, self.operations@.len() as int));
                assert(before + ops_text(rest) =~= s@ + ops_text(rest.drop_first()));
            }
            k = k + 1;
        }
        assert(self.operations@.subrange(k as int, k as int) =~= Seq::<Operation>::empty());
        assert(s@ + Seq::<char>::empty() =~= s@);
        s
    }

    /// Replays the whole sequence from its first operation, over and over,
    /// until the input is used up or a pass makes no progress.
    pub fn apply(&self, input: &Bits) -> (r: Bits)
        ensures
            r@ == apply_ops(self.operations@, input@),
    {
        let ghost ops = self.operations@;
        let ghost total = apply_ops(ops, input@);
        let len = input.len();
        let mut result = Bits::new();
        let mut pos: usize = 0;
        let mut stalled = false;
        while pos < len && !stalled
            invariant
                len == input@.len(),
                len <= MAX_BITS,
                pos <= len,
                ops == self.operations@,
                result@.len() <= pos,
                !stalled ==> result@ + run_from(ops, input@, pos as int) == total,
                stalled ==> result@ == total,
            decreases len - pos + if stalled { 0int } else { 1int },
        {
            let start = pos;
            let ghost res0 = result@;
            let mut k: usize = 0;
            while k < self.operations.len() && pos < len
                invariant
                    len == input@.len(),
                    len <= MAX_BITS,
                    start <= pos <= len,
                    start < len,
                    k <= ops.len(),
                    ops == self.operations@,
                    result@.len() <= pos,
                    pass_from(ops, input@, 0, start as int).0 == pass_from(ops, input@, k as int, pos as int).0,
                    res0 + pass_from(ops, input@, 0, start as int).1
                        == result@ + pass_from(ops, input@, k as int, pos as int).1,
                decreases ops.len() - k,
            {
                let op = self.operations[k];
                let n = op.bit_count();
                let ghost step = op_step(op, input@, pos as int);
                let ghost before = result@;
                if n > 0 {
                    let end = if n >= len - pos { len } else { pos + n };
                    assert(end == window_end(pos as int, n as int, len as int));
                    match op {
                        Operation::Take(_) => {
                            result.extend_range(input, pos, end);
                        },
                        Operation::Reverse(_) => {
                            let mut w = input.slice(pos, end);
                            w.reverse();
                            let wl = w.len();
                            result.extend_range(&w, 0, wl);
                            assert(w@.subrange(0, wl as int) =~= w@);
                        },
                        Operation::Invert(_) => {
                            let w = input.slice(pos, end);
                            let w = w.inverted();
                            let wl = w.len();
                            result.extend_range(&w, 0, wl);
                            assert(w@.subrange(0, wl as int) =~= w@);
                        },
                        Operation::Skip(_) => {},
                    }
                    pos = end;
                } else {
                    assert(result@ =~= before + step.1);
                }
                proof {
                    assert(result@ =~= before + step.1);
                    let rest = pass_from(ops, input@, k + 1, pos as int);
                    assert(before + (step.1 + rest.1) =~= result@ + rest.1);
                }
                k = k + 1;
            }
            proof {
                assert(result@ + Seq::<bool>::empty() =~= result@);
                let pass = pass_from(ops, input@, 0, start as int);
                assert(pass.0 == pos);
                assert(res0 + pass.1 == result@);
                if pos > start {
                    assert(res0 + (pass.1 + run_from(ops, input@, pos as int))
                        =~= result@ + run_from(ops, input@, pos as int));
                }
            }
            if pos == start {
                stalled = true;
            }
        }
        proof {
            if !stalled {
                assert(result@ + Seq::<bool>::empty() =~= result@);
            }
        }
        result
    }
}

/// The last component of a path, as `Path::file_name` gives it (empty when
/// there is none).
pub uninterp spec fn file_name_text(path: Seq<char>) -> Seq<char>;

/// Relies on `Path::file_name`: the result depends on the path's characters
/// alone.
#[verifier::external_body]
fn file_name(path: &str) -> (r: String)
    ensures
        r@ == file_name_text(path@),
{
    std::path::Path::new(path).file_name().map(|n| n.to_string_lossy().into_owned()).unwrap_or_default()
}

/// A take/skip sequence to apply to another worksheet's data.
#[derive(Debug, Clone)]
pub struct WorksheetOperation {
    pub worksheet_index: usize,
    pub sequence: OperationSequence,
}

/// One named, toggleable stage of the pipeline.
#[derive(Debug, Clone)]
pub enum BitOperation {
    /// Appends a file's bits; the host reads the file.
    LoadFile { name: String, file_path: String, enabled: bool },
    /// Replays a take/skip sequence over the buffer.
    TakeSkipSequence { name: String, sequence: OperationSequence, enabled: bool },
    /// Complements every bit.
    InvertBits { name: String, enabled: bool },
    /// Appends, for each entry, its sequence applied to another worksheet's
    /// data; the host supplies that data.
    MultiWorksheetLoad { name: String, worksheet_operations: Vec<WorksheetOperation>, enabled: bool },
    /// Keeps the bits `start..end`, both clamped to the buffer's length.
    TruncateBits { name: String, start: usize, end: usize, enabled: bool },
    /// Runs the interleaver of the chosen type with its configuration; the
    /// buffer is unchanged when that configuration is missing.
    InterleaveBits {
        name: String,
        interleaver_type: InterleaverType,
        block_config: Option<BlockInterleaverConfig>,
        convolutional_config: Option<ConvolutionalInterleaverConfig>,
        symbol_config: Option<SymbolInterleaverConfig>,
        enabled: bool,
    },
}

/// The bits `start..end` of `input`, both bounds clamped to its length;
/// empty when the clamped start is not before the clamped end.
pub open spec fn truncated(input: Seq<bool>, start: int, end: int) -> Seq<bool> {
    let s = if start < input.len() { start } else { input.len() as int };
    let e = if end < input.len() { end } else { input.len() as int };
    if s >= e {
        Seq::empty()
    } else {
        input.subrange(s, e)
    }
}

/// The name of a direction as descriptions show it.
pub open spec fn direction_text(d: InterleaverDirection) -> Seq<char> {
    match d {
        InterleaverDirection::Interleave => "Interleave"@,
        InterleaverDirection::Deinterleave => "Deinterleave"@,
    }
}

/// The description of a file-loading stage, given the file's name.
pub open spec fn load_text(file_name: Seq<char>) -> Seq<char> {
    "Load: "@ + file_name
}

impl BitOperation {
    pub open spec fn spec_name(self) -> String {
        match self {
            BitOperation::LoadFile { name, .. } => name,
            BitOperation::TakeSkipSequence { name, .. } => name,
            BitOperation::InvertBits { name, .. } => name,
            BitOperation::MultiWorksheetLoad { name, .. } => name,
            BitOperation::TruncateBits { name, .. } => name,
            BitOperation::InterleaveBits { name, .. } => name,
        }
    }

    pub open spec fn spec_enabled(self) -> bool {
        match self {
            BitOperation::LoadFile { enabled, .. } => enabled,
            BitOperation::TakeSkipSequence { enabled, .. } => enabled,
            BitOperation::InvertBits { enabled, .. } => enabled,
            BitOperation::MultiWorksheetLoad { enabled, .. } => enabled,
            BitOperation::TruncateBits { enabled, .. } => enabled,
            BitOperation::InterleaveBits { enabled, .. } => enabled,
        }
    }

    /// What the stage does to the buffer by itself: loading stages leave it
    /// as it is (multi-worksheet loading yields an empty buffer), the
    /// others transform it.
    pub open spec fn stage_output(self, input: Seq<bool>) -> Seq<bool> {
        match self {
            BitOperation::LoadFile { .. } => input,
            BitOperation::TakeSkipSequence { sequence, .. } => apply_ops(sequence.operations@, input),
            BitOperation::InvertBits { .. } => complement(input),
            BitOperation::MultiWorksheetLoad { .. } => Seq::empty(),
            BitOperation::TruncateBits { start, end, .. } => truncated(input, start as int, end as int),
            BitOperation::InterleaveBits {
                interleaver_type,
                block_config,
                convolutional_config,
                symbol_config,
                ..
            } => match interleaver_type {
                InterleaverType::Block => match block_config {
                    Some(cfg) => cfg.spec_apply(input),
                    None => input,
                },
                InterleaverType::Convolutional => match convolutional_config {
                    Some(cfg) => cfg.spec_apply(input),
                    None => input,
                },
                InterleaverType::Symbol => match symbol_config {
                    Some(cfg) => cfg.spec_apply(input),
                    None => input,
                },
            },
        }
    }

    pub fn name(&self) -> (r: &str)
        ensures
            r@ == self.spec_name()@,
    {
        match self {
            BitOperation::LoadFile { name, .. } => name.as_str(),
            BitOperation::TakeSkipSequence { name, .. } => name.as_str(),
            BitOperation::InvertBits { name, .. } => name.as_str(),
            BitOperation::MultiWorksheetLoad { name, .. } => name.as_str(),
            BitOperation::TruncateBits { name, .. } => name.as_str(),
            BitOperation::InterleaveBits { name, .. } => name.as_str(),
        }
    }

    pub fn is_enabled(&self) -> (r: bool)
        ensures
            r == self.spec_enabled(),
    {
        match self {
            BitOperation::LoadFile { enabled, .. } => *enabled,
            BitOperation::TakeSkipSequence { enabled, .. } => *enabled,
            BitOperation::InvertBits { enabled, .. } => *enabled,
            BitOperation::MultiWorksheetLoad { enabled, .. } => *enabled,
            BitOperation::TruncateBits { enabled, .. } => *enabled,
            BitOperation::InterleaveBits { enabled, .. } => *enabled,
        }
    }

    /// Switches the stage on or off, leaving everything else as it was.
    pub fn set_enabled(&mut self, new_enabled: bool)
        ensures
            final(self).spec_enabled() == new_enabled,
            final(self).spec_name() == old(self).spec_name(),
            forall|input: Seq<bool>| #[trigger] final(self).stage_output(input) == old(self).stage_output(input),
    {
        match self {
            BitOperation::LoadFile { enabled, .. } => *enabled = new_enabled,
            BitOperation::TakeSkipSequence { enabled, .. } => *enabled = new_enabled,
            BitOperation::InvertBits { enabled, .. } => *enabled = new_enabled,
            BitOperation::MultiWorksheetLoad { enabled, .. } => *enabled = new_enabled,
            BitOperation::TruncateBits { enabled, .. } => *enabled = new_enabled,
            BitOperation::InterleaveBits { enabled, .. } => *enabled = new_enabled,
        }
    }

    /// Applies the stage to `input` by itself (see `stage_output`).
    pub fn apply(&self, input: &Bits) -> (r: Bits)
        ensures
            r@ == self.stage_output(input@),
    {
        match self {
            BitOperation::LoadFile { .. } => input.clone(),
            BitOperation::TakeSkipSequence { sequence, .. } => sequence.apply(input),
            BitOperation::InvertBits { .. } => input.clone().inverted(),
            BitOperation::MultiWorksheetLoad { .. } => Bits::new(),
            BitOperation::TruncateBits { start, end, .. } => {
                let len = input.len();
                let s = if *start < len { *start } else { len };
                let e = if *end < len { *end } else { len };
                if s >= e {
                    Bits::new()
                } else {
                    input.slice(s, e)
                }
            },
            BitOperation::InterleaveBits {
                interleaver_type,
                block_config,
                convolutional_config,
                symbol_config,
                ..
            } => match interleaver_type {
                InterleaverType::Block => match block_config {
                    Some(cfg) => cfg.apply(input),
                    None => input.clone(),
                },
                InterleaverType::Convolutional => match convolutional_config {
                    Some(cfg) => cfg.apply(input),
                    None => input.clone(),
                },
                InterleaverType::Symbol => match symbol_config {
                    Some(cfg) => cfg.apply(input),
                    None => input.clone(),
                },
            },
        }
    }
}

/// Inverting twice gives the buffer back.
pub proof fn lemma_invert_twice(op: BitOperation, input: Seq<bool>)
    requires
        op is InvertBits,
    ensures
        op.stage_output(op.stage_output(input)) == input,
{
    assert(complement(complement(input)) =~= input);
}

/// Truncation clamps both bounds to the buffer's length: empty when the
/// clamped start is not before the clamped end, else exactly the bits
/// between them; in bounds, exactly `input[start..end]`.
pub proof fn lemma_truncate_bounds(op: BitOperation, input: Seq<bool>)
    requires
        op is TruncateBits,
    ensures
        ({
            let s = op->TruncateBits_start as int;
            let e = op->TruncateBits_end as int;
            let n = input.len() as int;
            let cs = if s < n { s } else { n };
            let ce = if e < n { e } else { n };
            &&& cs >= ce ==> op.stage_output(input).len() == 0
            &&& cs < ce ==> op.stage_output(input) == input.subrange(cs, ce)
            &&& s < e <= n ==> op.stage_output(input) == input.subrange(s, e)
        }),
{
}

/// The description of a stage, loading stages being described by their
/// file's name as `Path::file_name` gives it.
pub open spec fn description_text(op: BitOperation) -> Seq<char> {
    match op {
        BitOperation::LoadFile { file_path, .. } => load_text(file_name_text(file_path@)),
        BitOperation::TakeSkipSequence { sequence, .. } => ops_text(sequence.operations@),
        BitOperation::InvertBits { .. } => "Inverts all bits"@,
        BitOperation::MultiWorksheetLoad { worksheet_operations, .. } =>
            "Load from "@ + decimal(worksheet_operations@.len()) + " worksheet(s)"@,
        BitOperation::TruncateBits { start, end, .. } =>
            "Keep bits "@ + decimal(start as nat) + "-"@ + decimal(end as nat),
        BitOperation::InterleaveBits {
            interleaver_type,
            block_config,
            convolutional_config,
            symbol_config,
            ..
        } => match interleaver_type {
            InterleaverType::Block => match block_config {
                Some(c) => "Block "@ + decimal(c.block_size as nat) + "\u{d7}"@ + decimal(c.depth as nat)
                    + " "@ + direction_text(c.direction),
                None => "Block interleaver"@,
            },
            InterleaverType::Convolutional => match convolutional_config {
                Some(c) => "Conv B="@ + decimal(c.branches as nat) + " M="@ + decimal(c.delay_increment as nat)
                    + " "@ + direction_text(c.direction),
                None => "Convolutional interleaver"@,
            },
            InterleaverType::Symbol => match symbol_config {
                Some(c) => "Symbol "@ + decimal(c.block_size as nat) + "\u{d7}"@ + decimal(c.depth as nat)
                    + " ("@ + decimal(c.symbol_size as nat) + "bit) "@ + direction_text(c.direction),
                None => "Symbol interleaver"@,
            },
        },
    }
}

/// Appends `lit` to `out`.
fn push_text(out: &mut String, lit: &str)
    ensures
        final(out)@ == old(out)@ + lit@,
{
    out.append(lit);
}

/// Appends the name of a direction to `out`.
fn push_direction(out: &mut String, d: InterleaverDirection)
    ensures
        final(out)@ == old(out)@ + direction_text(d),
{
    proof {
        reveal_strlit("Interleave");
        reveal_strlit("Deinterleave");
    }
    match d {
        InterleaverDirection::Interleave => out.append("Interleave"),
        InterleaverDirection::Deinterleave => out.append("Deinterleave"),
    }
}

/// The description of a file-loading stage whose file is called
/// `file_name`.
pub fn load_description(file_name: &str) -> (r: String)
    ensures
        r@ == load_text(file_name@),
{
    let mut s = String::from_str("Load: ");
    s.append(file_name);
    s
}

impl BitOperation {
    /// A one-line summary of what the stage does.
    pub fn description(&self) -> (r: String)
        ensures
            r@ == description_text(*self),
    {
        match self {
            BitOperation::LoadFile { file_path, .. } => {
                let f = file_name(file_path.as_str());
                load_description(f.as_str())
            },
            BitOperation::TakeSkipSequence { sequence, .. } => sequence.to_string(),
            BitOperation::InvertBits { .. } => String::from_str("Inverts all bits"),
            BitOperation::MultiWorksheetLoad { worksheet_operations, .. } => {
                let mut s = String::from_str("Load from ");
                push_decimal(&mut s, worksheet_operations.len());
                push_text(&mut s, " worksheet(s)");
                s
            },
            BitOperation::TruncateBits { start, end, .. } => {
                let mut s = String::from_str("Keep bits ");
                push_decimal(&mut s, *start);
                push_text(&mut s, "-");
                push_decimal(&mut s, *end);
                s
            },
            BitOperation::InterleaveBits {
                interleaver_type,
                block_config,
                convolutional_config,
                symbol_config,
                ..
            } => match interleaver_type {
                InterleaverType::Block => match block_config {
                    Some(c) => {
                        let mut s = String::from_str("Block ");
                        push_decimal(&mut s, c.block_size);
                        push_text(&mut s, "\u{d7}");
                        push_decimal(&mut s, c.depth);
                        push_text(&mut s, " ");
                        push_direction(&mut s, c.direction);
                        s
                    },
                    None => String::from_str("Block interleaver"),
                },
                InterleaverType::Convolutional => match convolutional_config {
                    Some(c) => {
                        let mut s = String::from_str("Conv B=");
                        push_decimal(&mut s, c.branches);
                        push_text(&mut s, " M=");
                        push_decimal(&mut s, c.delay_increment);
                        push_text(&mut s, " ");
                        push_direction(&mut s, c.direction);
                        s
                    },
                    None => String::from_str("Convolutional interleaver"),
                },
                InterleaverType::Symbol => match symbol_config {
                    Some(c) => {
                        let mut s = String::from_str("Symbol ");
                        push_decimal(&mut s, c.block_size);
                        push_text(&mut s, "\u{d7}");
                        push_decimal(&mut s, c.depth);
                        push_text(&mut s, " (");
                        push_decimal(&mut s, c.symbol_size);
                        push_text(&mut s, "bit) ");
                        push_direction(&mut s, c.direction);
                        s
                    },
                    None => String::from_str("Symbol interleaver"),
                },
            },
        }
    }
}

/// The bits a worksheet entry appends: its sequence applied to the source
/// worksheet's data, nothing when that data is missing.
pub open spec fn sheet_output(wo: WorksheetOperation, sheets: Seq<Option<Bits>>) -> Seq<bool> {
    let i = wo.worksheet_index as int;
    if i < sheets.len() && sheets[i] is Some {
        apply_ops(wo.sequence.operations@, sheets[i]->Some_0@)
    } else {
        Seq::empty()
    }
}

/// `acc` followed by `extra`, unless the result would not fit a bit vector,
/// in which case `acc` alone.
pub open spec fn append_fitting(acc: Seq<bool>, extra: Seq<bool>) -> Seq<bool> {
    if acc.len() + extra.len() <= MAX_BITS {
        acc + extra
    } else {
        acc
    }
}

/// The buffer after the first `k` entries of a multi-worksheet load.
pub open spec fn sheets_upto(wos: Seq<WorksheetOperation>, sheets: Seq<Option<Bits>>, acc: Seq<bool>, k: int) -> Seq<bool>
    decreases k,
{
    if k <= 0 {
        acc
    } else {
        append_fitting(sheets_upto(wos, sheets, acc, k - 1), sheet_output(wos[k - 1], sheets))
    }
}

/// What an enabled stage makes of the accumulated buffer in the pipeline:
/// a file load appends the file's bits (nothing if the host could not read
/// it), a multi-worksheet load appends each entry's output, any other stage
/// transforms the buffer. Bits that would overflow a bit vector are not
/// appended.
pub open spec fn pipeline_step(op: BitOperation, loaded: Option<Bits>, sheets: Seq<Option<Bits>>, acc: Seq<bool>) -> Seq<bool> {
    match op {
        BitOperation::LoadFile { .. } => match loaded {
            Some(b) => append_fitting(acc, b@),
            None => acc,
        },
        BitOperation::MultiWorksheetLoad { worksheet_operations, .. } =>
            sheets_upto(worksheet_operations@, sheets, acc, worksheet_operations@.len() as int),
        _ => op.stage_output(acc),
    }
}

/// The file contents supplied for stage `i`, if any.
pub open spec fn loaded_for(loaded: Seq<Option<Bits>>, i: int) -> Option<Bits> {
    if i < loaded.len() {
        loaded[i]
    } else {
        None
    }
}

/// The buffer after the first `k` stages, disabled ones skipped.
pub open spec fn pipeline_upto(
    ops: Seq<BitOperation>,
    loaded: Seq<Option<Bits>>,
    sheets: Seq<Option<Bits>>,
    start: Seq<bool>,
    k: int,
) -> Seq<bool>
    decreases k,
{
    if k <= 0 {
        start
    } else {
        let prev = pipeline_upto(ops, loaded, sheets, start, k - 1);
        if ops[k - 1].spec_enabled() {
            pipeline_step(ops[k - 1], loaded_for(loaded, k - 1), sheets, prev)
        } else {
            prev
        }
    }
}

/// Whether stage `op` is enabled and loads data.
pub open spec fn loads(op: BitOperation) -> bool {
    op.spec_enabled() && (op is LoadFile || op is MultiWorksheetLoad)
}

/// Whether some enabled stage loads data, so that the pipeline builds its
/// buffer from scratch instead of from the worksheet's source data.
pub open spec fn loads_data(ops: Seq<BitOperation>) -> bool {
    exists|i: int| 0 <= i < ops.len() && loads(#[trigger] ops[i])
}

/// The pipeline's result: enabled stages in order over the source data,
/// or over an empty buffer when some enabled stage loads data.
pub open spec fn pipeline_result(
    ops: Seq<BitOperation>,
    source: Seq<bool>,
    loaded: Seq<Option<Bits>>,
    sheets: Seq<Option<Bits>>,
) -> Seq<bool> {
    let start = if loads_data(ops) { Seq::empty() } else { source };
    pipeline_upto(ops, loaded, sheets, start, ops.len() as int)
}

/// Appends `extra` to `acc` when the result fits a bit vector.
fn append_if_fits(acc: &mut Bits, extra: &Bits)
    ensures
        final(acc)@ == append_fitting(old(acc)@, extra@),
{
    let a = acc.len();
    let e = extra.len();
    if e <= MAX_BITS - a {
        acc.extend_range(extra, 0, e);
        assert(extra@.subrange(0, e as int) =~= extra@);
    }
}

/// Runs the pipeline. `loaded[i]` holds the contents of the file of stage
/// `i` when it is a file load that the host could read; `sheets[w]` holds
/// the data of worksheet `w` when it can serve as a source.
pub fn run_pipeline(
    ops: &Vec<BitOperation>,
    source: &Bits,
    loaded: &Vec<Option<Bits>>,
    sheets: &Vec<Option<Bits>>,
) -> (r: Bits)
    ensures
        r@ == pipeline_result(ops@, source@, loaded@, sheets@),
{
    let mut scratch = false;
    let mut i: usize = 0;
    while i < ops.len()
        invariant
            i <= ops@.len(),
            scratch <==> exists|j: int| 0 <= j < i && loads(#[trigger] ops@[j]),
        decreases ops@.len() - i,
    {
        let op = &ops[i];
        if op.is_enabled() {
            match op {
                BitOperation::LoadFile { .. } => {
                    scratch = true;
                },
                BitOperation::MultiWorksheetLoad { .. } => {
                    scratch = true;
                },
                _ => {},
            }
        }
        i = i + 1;
    }
    let mut acc = if scratch { Bits::new() } else { source.clone() };
    let ghost start = acc@;
    let mut k: usize = 0;
    while k < ops.len()
        invariant
            k <= ops@.len(),
            start == if loads_data(ops@) { Seq::<bool>::empty() } else { source@ },
            acc@ == pipeline_upto(ops@, loaded@, sheets@, start, k as int),
        decreases ops@.len() - k,
    {
        let op = &ops[k];
        if op.is_enabled() {
            match op {
                BitOperation::LoadFile { .. } => {
                    if k < loaded.len() {
                        match &loaded[k] {
                            Some(b) => append_if_fits(&mut acc, b),
                            None => {},
                        }
                    }
                },
                BitOperation::MultiWorksheetLoad { worksheet_operations, .. } => {
                    let ghost acc0 = acc@;
                    let mut w: usize = 0;
                    while w < worksheet_operations.len()
                        invariant
                            w <= worksheet_operations@.len(),
                            acc@ == sheets_upto(worksheet_operations@, sheets@, acc0, w as int),
                        decreases worksheet_operations@.len() - w,
                    {
                        let wo = &worksheet_operations[w];
                        let idx = wo.worksheet_index;
                        let ghost before = acc@;
                        if idx < sheets.len() {
                            match &sheets[idx] {
                                Some(src) => {
                                    let out = wo.sequence.apply(src);
                                    append_if_fits(&mut acc, &out);
                                },
                                None => {},
                            }
                        }
                        proof {
                            if !(idx < sheets.len()) || sheets@[idx as int] is None {
                                assert(append_fitting(before, Seq::<bool>::empty()) =~= before);
                            }
                        }
                        w = w + 1;
                    }
                },
                _ => {
                    acc = op.apply(&acc);
                },
            }
        }
        k = k + 1;
    }
    acc
}

} // verus!
