use bit::analysis::frame_width::{column_agreements, column_ones, frame_count};
use bit::analysis::{Pattern, PatternFormat};
use bit::processing::{
    run_pipeline, BitOperation, BlockInterleaverConfig, ConvolutionalInterleaverConfig,
    InterleaverDirection, InterleaverType, Operation, OperationSequence, SymbolInterleaverConfig,
    WorksheetOperation,
};
use bit::types::{OperationType, ViewMode};
use bit::utils::math_eval::eval_expression;
use bit::Bits;

fn bv(bits: &[u8]) -> Bits {
    let mut b = Bits::new();
    for x in bits {
        b.push(*x != 0);
    }
    b
}

fn seq(s: &str) -> OperationSequence {
    OperationSequence::from_string(s).unwrap()
}

#[test]
fn block_round_trip_on_whole_chunks() {
    let x = bv(&[1, 0, 1, 1, 0, 0, 1, 0, 1, 1, 1, 0]);
    let i = BlockInterleaverConfig::new(3, 2, InterleaverDirection::Interleave);
    let d = BlockInterleaverConfig::new(3, 2, InterleaverDirection::Deinterleave);
    let y = i.apply(&x);
    assert_eq!(y, bv(&[1, 1, 0, 0, 1, 0, 1, 1, 0, 1, 1, 0]));
    assert_eq!(d.apply(&y), x);
}

#[test]
fn block_two_by_two_example() {
    let i = BlockInterleaverConfig::new(2, 2, InterleaverDirection::Interleave);
    let d = BlockInterleaverConfig::new(2, 2, InterleaverDirection::Deinterleave);
    assert_eq!(i.apply(&bv(&[1, 0, 1, 1])), bv(&[1, 1, 0, 1]));
    assert_eq!(d.apply(&bv(&[1, 1, 0, 1])), bv(&[1, 0, 1, 1]));
}

#[test]
fn block_partial_chunk_skips_missing_cells() {
    let i = BlockInterleaverConfig::new(2, 2, InterleaverDirection::Interleave);
    assert_eq!(i.apply(&bv(&[1, 0, 1])), bv(&[1, 1, 0]));
    let d = BlockInterleaverConfig::new(3, 2, InterleaverDirection::Deinterleave);
    assert_eq!(d.apply(&bv(&[1, 0, 1, 1])), bv(&[1, 1, 0, 0]));
}

#[test]
fn block_degenerate_config_keeps_input() {
    let x = bv(&[1, 0, 0]);
    assert_eq!(BlockInterleaverConfig::new(0, 2, InterleaverDirection::Interleave).apply(&x), x);
    assert_eq!(BlockInterleaverConfig::new(2, 0, InterleaverDirection::Deinterleave).apply(&x), x);
}

#[test]
fn symbol_round_trip_on_whole_chunks() {
    let x = Bits::from_bytes(&[0x12, 0x34, 0x56, 0x78, 0x9a, 0xbc]);
    let i = SymbolInterleaverConfig::new(4, 3, 2, InterleaverDirection::Interleave);
    let d = SymbolInterleaverConfig::new(4, 3, 2, InterleaverDirection::Deinterleave);
    let y = i.apply(&x);
    assert_eq!(y, Bits::from_bytes(&[0x14, 0x25, 0x36, 0x7a, 0x8b, 0x9c]));
    assert_eq!(d.apply(&y), x);
}

#[test]
fn symbol_reshuffle_example() {
    let x = Bits::from_bytes(&[0x41, 0x41, 0x42, 0x42, 0x43, 0x43, 0x44, 0x44]);
    let i = SymbolInterleaverConfig::new(8, 2, 4, InterleaverDirection::Interleave);
    assert_eq!(i.apply(&x), Bits::from_bytes(&[0x41, 0x42, 0x43, 0x44, 0x41, 0x42, 0x43, 0x44]));
}

#[test]
fn symbol_partial_symbol_is_dropped() {
    let x = bv(&[1, 1, 0, 0, 1]);
    let i = SymbolInterleaverConfig::new(2, 2, 1, InterleaverDirection::Interleave);
    assert_eq!(i.apply(&x), bv(&[1, 1, 0, 0]));
}

#[test]
fn convolutional_without_delay_round_trips() {
    let x = bv(&[1, 0, 1, 1, 0, 1, 0]);
    let i = ConvolutionalInterleaverConfig::new(3, 0, InterleaverDirection::Interleave);
    let d = ConvolutionalInterleaverConfig::new(3, 0, InterleaverDirection::Deinterleave);
    assert_eq!(d.apply(&i.apply(&x)), x);
}

#[test]
fn convolutional_round_trip_is_delayed() {
    let x = bv(&[1, 0, 1, 1, 0, 1]);
    let i = ConvolutionalInterleaverConfig::new(2, 1, InterleaverDirection::Interleave);
    let d = ConvolutionalInterleaverConfig::new(2, 1, InterleaverDirection::Deinterleave);
    let y = i.apply(&x);
    assert_eq!(y, bv(&[1, 0, 1, 0, 0, 1]));
    assert_eq!(d.apply(&y), bv(&[0, 0, 1, 0, 1, 1]));
}

#[test]
fn convolutional_total_delay_without_branches() {
    let c = ConvolutionalInterleaverConfig::new(0, 5, InterleaverDirection::Interleave);
    assert_eq!(c.total_delay(), 0);
    let x = bv(&[1, 0]);
    assert_eq!(c.apply(&x), x);
}

#[test]
fn grammar_round_trip() {
    let s = seq("T4r3I8s1t0");
    assert_eq!(s.to_string(), "t4r3i8s1t0");
    let back = OperationSequence::from_string(&s.to_string()).unwrap();
    assert_eq!(back.operations, s.operations);
    assert_eq!(
        s.operations,
        vec![
            Operation::Take(4),
            Operation::Reverse(3),
            Operation::Invert(8),
            Operation::Skip(1),
            Operation::Take(0)
        ]
    );
}

#[test]
fn parse_errors_name_the_problem() {
    let e = OperationSequence::from_string("t99999999999999999999999").unwrap_err();
    assert_eq!(e, "Invalid number: 99999999999999999999999");
    assert_eq!(OperationSequence::from_string("x5").unwrap_err(), "Unknown operation: x");
    assert_eq!(OperationSequence::from_string("t4s").unwrap_err(), "Expected number after 's'");
    assert!(OperationSequence::from_string("").unwrap().operations.is_empty());
}

#[test]
fn zero_counts_stop_at_once() {
    let x = bv(&[1, 0, 1, 1, 0, 0, 1, 0]);
    assert_eq!(seq("t0s0").apply(&x).len(), 0);
    assert_eq!(seq("s0").apply(&x).len(), 0);
}

#[test]
fn alternating_extraction() {
    let x = bv(&[1, 0, 1, 0, 1, 0, 1, 0]);
    assert_eq!(seq("t1s1").apply(&x), bv(&[1, 1, 1, 1]));
    assert_eq!(seq("s1t1").apply(&x), bv(&[0, 0, 0, 0]));
}

#[test]
fn invert_windows_and_invert_twice() {
    let x = bv(&[1, 0, 1, 0, 1, 1, 0, 0]);
    assert_eq!(seq("i4i4").apply(&x), bv(&[0, 1, 0, 1, 0, 0, 1, 1]));
    let op = BitOperation::InvertBits { name: "inv".to_string(), enabled: true };
    assert_eq!(op.apply(&op.apply(&x)), x);
    assert_eq!(op.apply(&x), bv(&[0, 1, 0, 1, 0, 0, 1, 1]));
}

#[test]
fn reverse_count_past_the_end_truncates() {
    let x = bv(&[1, 1, 0, 1, 0]);
    assert_eq!(seq("r3").apply(&x), bv(&[0, 1, 1, 0, 1]));
    assert_eq!(seq("t1r9").apply(&x), bv(&[1, 0, 1, 0, 1]));
}

#[test]
fn pattern_exactness_and_tolerance() {
    let hay = bv(&[1, 1, 1, 0]);
    let mut p = Pattern::new("p".to_string(), PatternFormat::Bits, "1111".to_string(), 0).unwrap();
    p.search(&hay);
    assert_eq!(p.matches.len(), 0);
    let mut q = Pattern::new("q".to_string(), PatternFormat::Bits, "1111".to_string(), 1).unwrap();
    q.search(&hay);
    assert_eq!(q.matches.len(), 1);
    assert_eq!(q.matches[0].position, 0);
    assert_eq!(q.matches[0].mismatches, 1);
    assert_eq!(q.matches[0].delta, None);
    assert_eq!(q.matches[0].bits_string(), "1110");
}

#[test]
fn pattern_search_clears_previous_matches() {
    let mut p = Pattern::new("p".to_string(), PatternFormat::Bits, "10".to_string(), 0).unwrap();
    p.search(&bv(&[1, 0, 1, 0]));
    assert_eq!(p.matches.len(), 2);
    assert_eq!(p.matches[1].delta, Some(2));
    p.search(&bv(&[0, 0]));
    assert_eq!(p.matches.len(), 0);
}

#[test]
fn pattern_needle_longer_or_empty_haystack() {
    let mut p = Pattern::new("p".to_string(), PatternFormat::Hex, "0xF".to_string(), 4).unwrap();
    p.search(&bv(&[1, 1, 1]));
    assert_eq!(p.matches.len(), 0);
    p.search(&Bits::new());
    assert_eq!(p.matches.len(), 0);
}

#[test]
fn pattern_formats_parse_exactly() {
    let h = Pattern::new("h".to_string(), PatternFormat::Hex, "  0Xa5 ".to_string(), 0).unwrap();
    assert_eq!(h.bits, bv(&[1, 0, 1, 0, 0, 1, 0, 1]));
    let a = Pattern::new("a".to_string(), PatternFormat::Ascii, "A".to_string(), 0).unwrap();
    assert_eq!(a.bits, bv(&[0, 1, 0, 0, 0, 0, 0, 1]));
    let b = Pattern::new("b".to_string(), PatternFormat::Bits, " 1_0 1 ".to_string(), 0).unwrap();
    assert_eq!(b.bits, bv(&[1, 0, 1]));
    assert_eq!(Pattern::hex_bits("0x1").unwrap(), bv(&[0, 0, 0, 1]));
    assert_eq!(Pattern::bit_string("_").unwrap_err(), "Bit pattern is empty");
}

#[test]
fn pattern_update_bits_keeps_needle_on_error() {
    let mut p = Pattern::new("p".to_string(), PatternFormat::Bits, "11".to_string(), 0).unwrap();
    p.input = "1x".to_string();
    assert_eq!(p.update_bits().unwrap_err(), "Invalid bit character: x. Use only 0 and 1");
    assert_eq!(p.bits, bv(&[1, 1]));
    p.input = "0".to_string();
    assert!(p.update_bits().is_ok());
    assert_eq!(p.bits, bv(&[0]));
}

#[test]
fn truncate_clamps_both_bounds() {
    let x = bv(&[1, 0, 1, 1, 0]);
    let t = |start: usize, end: usize| BitOperation::TruncateBits {
        name: "t".to_string(),
        start,
        end,
        enabled: true,
    };
    assert_eq!(t(1, 4).apply(&x), bv(&[0, 1, 1]));
    assert_eq!(t(3, 100).apply(&x), bv(&[1, 0]));
    assert_eq!(t(4, 2).apply(&x).len(), 0);
    assert_eq!(t(7, 9).apply(&x).len(), 0);
}

#[test]
fn stage_descriptions() {
    let block = BitOperation::InterleaveBits {
        name: "b".to_string(),
        interleaver_type: InterleaverType::Block,
        block_config: Some(BlockInterleaverConfig::new(2, 4, InterleaverDirection::Interleave)),
        convolutional_config: None,
        symbol_config: None,
        enabled: true,
    };
    assert_eq!(block.description(), "Block 2\u{d7}4 Interleave");
    let conv = BitOperation::InterleaveBits {
        name: "c".to_string(),
        interleaver_type: InterleaverType::Convolutional,
        block_config: None,
        convolutional_config: Some(ConvolutionalInterleaverConfig::new(3, 1, InterleaverDirection::Deinterleave)),
        symbol_config: None,
        enabled: true,
    };
    assert_eq!(conv.description(), "Conv B=3 M=1 Deinterleave");
    let sym = BitOperation::InterleaveBits {
        name: "s".to_string(),
        interleaver_type: InterleaverType::Symbol,
        block_config: None,
        convolutional_config: None,
        symbol_config: Some(SymbolInterleaverConfig::new(8, 2, 4, InterleaverDirection::Interleave)),
        enabled: true,
    };
    assert_eq!(sym.description(), "Symbol 2\u{d7}4 (8bit) Interleave");
    let missing = BitOperation::InterleaveBits {
        name: "m".to_string(),
        interleaver_type: InterleaverType::Symbol,
        block_config: None,
        convolutional_config: None,
        symbol_config: None,
        enabled: true,
    };
    assert_eq!(missing.description(), "Symbol interleaver");
    assert_eq!(missing.apply(&bv(&[1, 0])), bv(&[1, 0]));
    let tr = BitOperation::TruncateBits { name: "t".to_string(), start: 2, end: 15, enabled: true };
    assert_eq!(tr.description(), "Keep bits 2-15");
    let multi = BitOperation::MultiWorksheetLoad {
        name: "m".to_string(),
        worksheet_operations: vec![],
        enabled: true,
    };
    assert_eq!(multi.description(), "Load from 0 worksheet(s)");
    let load = BitOperation::LoadFile { name: "l".to_string(), file_path: "data/in.bin".to_string(), enabled: true };
    assert_eq!(load.description(), "Load: in.bin");
    let ts = BitOperation::TakeSkipSequence { name: "ts".to_string(), sequence: seq("T2S1"), enabled: true };
    assert_eq!(ts.description(), "t2s1");
}

#[test]
fn enabling_and_names() {
    let mut op = BitOperation::InvertBits { name: "flip".to_string(), enabled: true };
    assert!(op.is_enabled());
    op.set_enabled(false);
    assert!(!op.is_enabled());
    assert_eq!(op.name(), "flip");
}

#[test]
fn pipeline_over_original_data() {
    let ops = vec![
        BitOperation::InvertBits { name: "i".to_string(), enabled: true },
        BitOperation::TruncateBits { name: "t".to_string(), start: 1, end: 3, enabled: true },
        BitOperation::InvertBits { name: "off".to_string(), enabled: false },
    ];
    let r = run_pipeline(&ops, &bv(&[1, 1, 0, 1]), &vec![], &vec![]);
    assert_eq!(r, bv(&[0, 1]));
}

#[test]
fn pipeline_with_loads_starts_from_scratch() {
    let ops = vec![
        BitOperation::LoadFile { name: "a".to_string(), file_path: "a.bin".to_string(), enabled: true },
        BitOperation::LoadFile { name: "b".to_string(), file_path: "b.bin".to_string(), enabled: true },
        BitOperation::MultiWorksheetLoad {
            name: "m".to_string(),
            worksheet_operations: vec![
                WorksheetOperation { worksheet_index: 0, sequence: seq("t1s1") },
                WorksheetOperation { worksheet_index: 5, sequence: seq("t1") },
            ],
            enabled: true,
        },
        BitOperation::InvertBits { name: "i".to_string(), enabled: true },
    ];
    let loaded = vec![Some(bv(&[1, 1])), None, None, None];
    let sheets = vec![Some(bv(&[0, 1, 1, 1]))];
    let r = run_pipeline(&ops, &bv(&[1, 1, 1, 1, 1]), &loaded, &sheets);
    assert_eq!(r, bv(&[0, 0, 1, 0]));
}

#[test]
fn bytes_round_trip_with_zero_padding() {
    let b = Bits::from_bytes(&[0xA5, 0x0F]);
    assert_eq!(b.len(), 16);
    assert_eq!(b.to_bytes(), vec![0xA5, 0x0F]);
    let odd = bv(&[1, 0, 1]);
    assert_eq!(odd.to_bytes(), vec![0xA0]);
    let flipped = BitOperation::InvertBits { name: "i".to_string(), enabled: true }.apply(&odd);
    assert_eq!(flipped.to_bytes(), vec![0x40]);
    assert_eq!(Bits::new().to_bytes(), Vec::<u8>::new());
}

#[test]
fn column_statistics() {
    let x = bv(&[1, 0, 1, 1, 1, 0, 0, 1, 1, 0, 1]);
    assert_eq!(frame_count(&x, 3), 3);
    assert_eq!(column_ones(&x, 3), vec![2, 2, 2]);
    assert_eq!(column_agreements(&x, 3, 1), vec![1, 1, 0]);
    assert_eq!(column_agreements(&x, 3, 5), vec![0, 0, 0]);
}

#[test]
fn expressions_follow_precedence() {
    assert_eq!(eval_expression("+5").unwrap(), 5);
    assert_eq!(eval_expression(" 8 * 8 ").unwrap(), 64);
    assert_eq!(eval_expression("7-2-1*3").unwrap(), 2);
    assert_eq!(eval_expression("9/2*2").unwrap(), 8);
    assert!(eval_expression("18446744073709551615+1").is_err());
    assert!(eval_expression("4294967296*4294967296").is_err());
    assert!(eval_expression("5-10+20").is_err());
    assert!(eval_expression("").is_err());
    assert!(eval_expression("5*").is_err());
}

#[test]
fn core_type_names() {
    assert_eq!(ViewMode::default(), ViewMode::Bit);
    assert_eq!(OperationType::all().len(), 5);
    assert_eq!(OperationType::all()[4], OperationType::TruncateBits);
    assert_eq!(OperationType::TakeSkipSequence.name(), "Take/Skip Sequence");
    assert_eq!(OperationType::InvertBits.description(), "Invert all bits (0\u{2192}1, 1\u{2192}0)");
    assert_eq!(OperationType::LoadFile.icon(), "\u{1f4c2}");
    assert_eq!(PatternFormat::Bits.name(), "Bits (0/1)");
}
