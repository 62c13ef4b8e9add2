use bit::processing::{
    BlockInterleaverConfig, ConvolutionalInterleaverConfig, InterleaverDirection, SymbolInterleaverConfig,
};
use bit::Bits;

fn bv(bits: &[u8]) -> Bits {
    let mut b = Bits::new();
    for x in bits {
        b.push(*x != 0);
    }
    b
}


#[test]
fn test_block_interleave_simple() {
    // 2x2 block interleaver
    // Input:  AB CD (row-wise)
    // Matrix: A B
    //         C D
    // Output: AC BD (column-wise)
    let input = bv(&[1, 0, 1, 1]); // ABCD = 1011
    let config = BlockInterleaverConfig::new(2, 2, InterleaverDirection::Interleave);
    let result = config.apply(&input);
    
    assert_eq!(result, bv(&[1, 1, 0, 1])); // ACBD = 1101
}

#[test]
fn test_block_deinterleave_simple() {
    // Reverse of the above
    let input = bv(&[1, 1, 0, 1]); // ACBD = 1101
    let config = BlockInterleaverConfig::new(2, 2, InterleaverDirection::Deinterleave);
    let result = config.apply(&input);
    
    assert_eq!(result, bv(&[1, 0, 1, 1])); // ABCD = 1011
}

#[test]
fn test_block_interleave_roundtrip() {
    let input = bv(&[1, 0, 1, 0, 1, 1, 0, 0]);
    
    let interleave_config = BlockInterleaverConfig::new(4, 2, InterleaverDirection::Interleave);
    let interleaved = interleave_config.apply(&input);
    
    let deinterleave_config = BlockInterleaverConfig::new(4, 2, InterleaverDirection::Deinterleave);
    let recovered = deinterleave_config.apply(&interleaved);
    
    assert_eq!(input, recovered);
}

#[test]
fn test_convolutional_interleave_basic() {
    // 3 branches, delay increment of 1
    // Branch 0: delay 0
    // Branch 1: delay 1
    // Branch 2: delay 2
    let input = bv(&[1, 0, 1, 1, 0, 1]);
    let config = ConvolutionalInterleaverConfig::new(3, 1, InterleaverDirection::Interleave);
    let result = config.apply(&input);
    
    // Result should have same length or slightly less due to delay initialization
    assert!(result.len() <= input.len());
}

#[test]
fn test_convolutional_total_delay() {
    let config = ConvolutionalInterleaverConfig::new(4, 2, InterleaverDirection::Interleave);
    assert_eq!(config.total_delay(), 6); // (4-1) * 2 = 6
}

#[test]
fn interleaver_test_empty_input() {
    let empty = Bits::new();
    
    let block_config = BlockInterleaverConfig::new(4, 2, InterleaverDirection::Interleave);
    assert_eq!(block_config.apply(&empty), empty);
    
    let conv_config = ConvolutionalInterleaverConfig::new(3, 1, InterleaverDirection::Interleave);
    assert_eq!(conv_config.apply(&empty), empty);
}

#[test]
fn test_symbol_interleave_bytes() {
    // Test with bytes (8-bit symbols)
    // Input: AA BB CC DD (4 bytes = 32 bits)
    // With 2x2 matrix of symbols:
    // Write row-wise:  AA BB
    //                  CC DD
    // Read column-wise: AA CC BB DD
    let input = Bits::from_bytes(&[0x41u8, 0x41, 0x42, 0x42]); // AABB as bytes
    
    let config = SymbolInterleaverConfig::new(8, 2, 2, InterleaverDirection::Interleave);
    let result = config.apply(&input);
    
    // Expected: byte0, byte2, byte1, byte3 = 0x41, 0x42, 0x41, 0x42 = ABAB
    let expected = Bits::from_bytes(&[0x41u8, 0x42, 0x41, 0x42]);
    
    assert_eq!(result, expected);
}

#[test]
fn test_symbol_interleave_aabbccdd_to_abcdabcd() {
    // AABBCCDD to ABCDABCD using symbol interleaver
    // Input: AA BB CC DD (each letter is ASCII character)
    // A = 0x41, B = 0x42, C = 0x43, D = 0x44
    let input = Bits::from_bytes(&[0x41u8, 0x41, 0x42, 0x42, 0x43, 0x43, 0x44, 0x44]); // AABBCCDD
    
    // Use 2x4 matrix (2 cols, 4 rows):
    // Write row-wise:  A A
    //                  B B
    //                  C C
    //                  D D
    // Read column-wise: A B C D | A B C D → ABCD ABCD ✓
    
    let config = SymbolInterleaverConfig::new(8, 2, 4, InterleaverDirection::Interleave);
    let result = config.apply(&input);
    
    let expected = Bits::from_bytes(&[0x41u8, 0x42, 0x43, 0x44, 0x41, 0x42, 0x43, 0x44]); // ABCDABCD
    
    assert_eq!(result, expected);
}

#[test]
fn test_symbol_interleave_roundtrip() {
    let input = Bits::from_bytes(&[0xAAu8, 0xBB, 0xCC, 0xDD]);
    
    let interleave_config = SymbolInterleaverConfig::new(8, 2, 2, InterleaverDirection::Interleave);
    let interleaved = interleave_config.apply(&input);
    
    let deinterleave_config = SymbolInterleaverConfig::new(8, 2, 2, InterleaverDirection::Deinterleave);
    let recovered = deinterleave_config.apply(&interleaved);
    
    assert_eq!(input, recovered);
}
