use flexcomp::algorithms::{Algorithm, Delta, Hybrid, Lookup, ParChunked, RLE, VRLE};
use flexcomp::compressor::{CompressError, Compressor, NaiveCompressor};

fn u32_bytes(values: &[u32]) -> Vec<u8> {
    let mut out = Vec::new();
    for v in values {
        out.extend_from_slice(&v.to_ne_bytes());
    }
    out
}

fn read_u64(bytes: &[u8], at: usize) -> u64 {
    let mut field = [0u8; 8];
    field.copy_from_slice(&bytes[at..at + 8]);
    u64::from_ne_bytes(field)
}

// A non-empty constant input is one run: eight count bytes plus one element,
// whatever the input length.
#[test]
fn test_rle_single_run_compactness() {
    let rle = RLE::new(4);
    let input = u32_bytes(&vec![7u32; 1000]);
    let mut compressed = Vec::new();
    rle.compress(&input, &mut compressed);
    assert_eq!(compressed.len(), 8 + 4);

    let input = u32_bytes(&vec![7u32; 250_000]);
    let mut compressed = Vec::new();
    rle.compress(&input, &mut compressed);
    assert_eq!(compressed.len(), 8 + 4);
}

// Three runs of 32-bit elements cost exactly three records of twelve bytes.
#[test]
fn test_rle_exact_bytes_u32() {
    let rle = RLE::new(4);
    let input = u32_bytes(&[1u32, 1, 1, 2, 2, 3]);
    let mut compressed = Vec::new();
    rle.compress(&input, &mut compressed);
    assert_eq!(compressed.len(), 3 * (8 + 4));

    let mut expected = Vec::new();
    expected.extend_from_slice(&3u64.to_ne_bytes());
    expected.extend_from_slice(&1u32.to_ne_bytes());
    expected.extend_from_slice(&2u64.to_ne_bytes());
    expected.extend_from_slice(&2u32.to_ne_bytes());
    expected.extend_from_slice(&1u64.to_ne_bytes());
    expected.extend_from_slice(&3u32.to_ne_bytes());
    assert_eq!(compressed, expected);

    let mut decompressed = Vec::new();
    rle.decompress(&compressed, &mut decompressed).unwrap();
    assert_eq!(decompressed, input);
}

// Empty input compresses to an empty or header-only buffer and decompresses
// to an empty sequence, for every codec.
#[test]
fn test_empty_input_all_codecs() {
    let input: Vec<u8> = Vec::new();

    let rle = RLE::new(4);
    let mut compressed = Vec::new();
    rle.compress(&input, &mut compressed);
    assert!(compressed.is_empty());
    let mut decompressed = Vec::new();
    rle.decompress(&compressed, &mut decompressed).unwrap();
    assert!(decompressed.is_empty());

    let vrle = VRLE::new(4);
    let mut compressed = Vec::new();
    vrle.compress(&input, &mut compressed);
    assert!(compressed.is_empty());
    let mut decompressed = Vec::new();
    vrle.decompress(&compressed, &mut decompressed).unwrap();
    assert!(decompressed.is_empty());

    let delta = Delta::new(4);
    let mut compressed = Vec::new();
    delta.compress(&input, &mut compressed);
    assert!(compressed.is_empty());
    let mut decompressed = Vec::new();
    delta.decompress(&compressed, &mut decompressed).unwrap();
    assert!(decompressed.is_empty());

    let naive = NaiveCompressor::new(4);
    let mut compressed = Vec::new();
    naive.compress(&input, &mut compressed);
    assert!(compressed.is_empty());
    let mut decompressed = Vec::new();
    naive.decompress(&compressed, &mut decompressed).unwrap();
    assert!(decompressed.is_empty());

    let lookup = Lookup::new(4);
    let mut compressed = Vec::new();
    lookup.compress(&input, &mut compressed);
    assert_eq!(compressed.len(), 40);
    let mut decompressed = Vec::new();
    lookup.decompress(&compressed, &mut decompressed).unwrap();
    assert!(decompressed.is_empty());

    let par = ParChunked::new_with(RLE::new(4), None);
    let mut compressed = Vec::new();
    par.compress(&input, &mut compressed);
    assert_eq!(compressed.len(), 8);
    let mut decompressed = Vec::new();
    par.decompress(&compressed, &mut decompressed).unwrap();
    assert!(decompressed.is_empty());

    let hybrid = Hybrid::new(4).add(Algorithm::Rle(RLE::new(4)));
    let mut compressed = Vec::new();
    hybrid.compress(&input, &mut compressed);
    assert_eq!(compressed.len(), 1);
    let mut decompressed = Vec::new();
    hybrid.decompress(&compressed, &mut decompressed).unwrap();
    assert!(decompressed.is_empty());
}

// A million-element constant array through the chunked decorator with default
// sizing still decompresses to the original array exactly.
#[test]
fn test_parchunked_default_sizing_large_constant() {
    let par = ParChunked::new_with(RLE::new(1), None);
    let input: Vec<u8> = vec![42u8; 1_000_000];
    let mut compressed = Vec::new();
    par.compress(&input, &mut compressed);
    let chunk_count = read_u64(&compressed, 0);
    assert!(chunk_count >= 1);
    assert_eq!(compressed.len() as u64, 8 + 16 * chunk_count + 9 * chunk_count);

    let mut decompressed = Vec::new();
    par.decompress(&compressed, &mut decompressed).unwrap();
    assert_eq!(decompressed, input);
}

// With a fixed chunk size the chunk table is fully predictable: the count
// fields sum to the data region and the offsets are the running sums.
#[test]
fn test_parchunked_chunk_table_consistency() {
    let par = ParChunked::new_with(RLE::new(1), Some(100_000));
    let input: Vec<u8> = vec![42u8; 1_000_000];
    let mut compressed = Vec::new();
    par.compress(&input, &mut compressed);

    let chunk_count = read_u64(&compressed, 0);
    assert_eq!(chunk_count, 10);
    let table_byte_size = 16 * chunk_count as usize;
    let mut sum_counts = 0u64;
    let mut expected_offset = 0u64;
    for i in 0..chunk_count as usize {
        let offset = read_u64(&compressed, 8 + 16 * i);
        let count = read_u64(&compressed, 8 + 16 * i + 8);
        assert_eq!(offset, expected_offset);
        expected_offset += count;
        sum_counts += count;
    }
    assert_eq!(sum_counts as usize + 8 + table_byte_size, compressed.len());

    let mut decompressed = Vec::new();
    par.decompress(&compressed, &mut decompressed).unwrap();
    assert_eq!(decompressed, input);
}

// Repeated compression of the same input with the same candidate list gives
// byte-identical output, and the first smallest candidate wins.
#[test]
fn test_hybrid_deterministic_and_picks_smallest() {
    let input: Vec<u8> = vec![9u8; 100];

    let hybrid = Hybrid::new(1).add(Algorithm::Rle(RLE::new(1))).add(Algorithm::Vrle(VRLE::new(1)));
    let mut first = Vec::new();
    hybrid.compress(&input, &mut first);
    let mut second = Vec::new();
    hybrid.compress(&input, &mut second);
    assert_eq!(first, second);
    // One run: the variable-count codec stores it in 3 bytes, the fixed-count
    // codec in 9, so the candidate at index 1 wins.
    assert_eq!(first[0], 1);
    assert_eq!(first.len(), 1 + 3);

    let reversed = Hybrid::new(1).add(Algorithm::Vrle(VRLE::new(1))).add(
        Algorithm::Rle(RLE::new(1)),
    );
    let mut third = Vec::new();
    reversed.compress(&input, &mut third);
    assert_eq!(third[0], 0);
    assert_eq!(&third[1..], &first[1..]);

    let mut decompressed = Vec::new();
    hybrid.decompress(&first, &mut decompressed).unwrap();
    assert_eq!(decompressed, input);
}

#[test]
fn test_hybrid_round_trip_mixed() {
    let mut input = Vec::new();
    for i in 0..500u32 {
        input.extend_from_slice(&(i % 7).to_ne_bytes());
    }
    let hybrid = Hybrid::new(4)
        .add(Algorithm::Rle(RLE::new(4)))
        .add(Algorithm::Vrle(VRLE::new(4)))
        .add(Algorithm::ChunkedRle(ParChunked::new_with(RLE::new(4), Some(64))));
    let mut compressed = Vec::new();
    hybrid.compress(&input, &mut compressed);
    let mut decompressed = Vec::new();
    hybrid.decompress(&compressed, &mut decompressed).unwrap();
    assert_eq!(decompressed, input);
}

#[test]
fn test_hybrid_invalid_codec_index() {
    let hybrid = Hybrid::new(1).add(Algorithm::Rle(RLE::new(1))).add(Algorithm::Vrle(VRLE::new(1)));
    let mut decompressed = Vec::new();
    let result = hybrid.decompress(&[200u8, 1, 2, 3], &mut decompressed);
    assert_eq!(result, Err(CompressError::InvalidCodecIndex));
    assert!(decompressed.is_empty());

    let result = hybrid.decompress(&[], &mut decompressed);
    assert_eq!(result, Err(CompressError::MalformedInput));
}

#[test]
fn test_rle_malformed_input() {
    let rle = RLE::new(4);
    let mut decompressed = Vec::new();
    let result = rle.decompress(&[1u8, 2, 3], &mut decompressed);
    assert_eq!(result, Err(CompressError::MalformedInput));
    assert!(decompressed.is_empty());
}

#[test]
fn test_vrle_malformed_input() {
    let vrle = VRLE::new(4);
    let mut decompressed = Vec::new();
    let result = vrle.decompress(&[0u8], &mut decompressed);
    assert_eq!(result, Err(CompressError::MalformedInput));
    assert!(decompressed.is_empty());
}

#[test]
fn test_parchunked_malformed_input() {
    let par = ParChunked::new_with(RLE::new(1), Some(5));
    let mut decompressed = Vec::new();
    let result = par.decompress(&[1u8, 2, 3], &mut decompressed);
    assert_eq!(result, Err(CompressError::MalformedInput));

    // A corrupted offset field must be rejected.
    let input: Vec<u8> = vec![1u8; 10];
    let mut compressed = Vec::new();
    par.compress(&input, &mut compressed);
    compressed[8] = compressed[8].wrapping_add(1);
    let result = par.decompress(&compressed, &mut decompressed);
    assert_eq!(result, Err(CompressError::MalformedInput));
    assert!(decompressed.is_empty());
}

// The dictionary codec's header for a constant byte input: window size one at
// phase zero wins, and one dictionary entry covers everything.
#[test]
fn test_lookup_header_fields_constant_input() {
    let lookup = Lookup::new(1);
    let input: Vec<u8> = vec![42u8; 6];
    let mut compressed = Vec::new();
    lookup.compress(&input, &mut compressed);
    assert_eq!(compressed.len(), 32 + 1 + 8 + 6);
    assert_eq!(read_u64(&compressed, 0), 1); // window size
    assert_eq!(read_u64(&compressed, 8), 0); // phase
    assert_eq!(read_u64(&compressed, 16), 6); // element count
    assert_eq!(read_u64(&compressed, 24), 1); // dictionary entries
    assert_eq!(compressed[32], 42); // the single entry
    assert_eq!(read_u64(&compressed, 33), 0); // index mode: one byte
    assert_eq!(&compressed[41..], &[0u8; 6]); // six references to entry 0

    let mut decompressed = Vec::new();
    lookup.decompress(&compressed, &mut decompressed).unwrap();
    assert_eq!(decompressed, input);
}

#[test]
fn test_lookup_round_trip_patterned() {
    let lookup = Lookup::new(4);
    let mut input = Vec::new();
    for i in 0..24u32 {
        input.extend_from_slice(&(i % 3).to_ne_bytes());
    }
    let mut compressed = Vec::new();
    lookup.compress(&input, &mut compressed);
    let mut decompressed = Vec::new();
    lookup.decompress(&compressed, &mut decompressed).unwrap();
    assert_eq!(decompressed, input);
}

#[test]
fn test_lookup_round_trip_with_trailing_short_window() {
    // 11 elements: a window size above one leaves a short trailing window.
    let lookup = Lookup::new(2);
    let mut input = Vec::new();
    for v in [5u16, 6, 5, 6, 5, 6, 5, 6, 5, 6, 7] {
        input.extend_from_slice(&v.to_ne_bytes());
    }
    let mut compressed = Vec::new();
    lookup.compress(&input, &mut compressed);
    let mut decompressed = Vec::new();
    lookup.decompress(&compressed, &mut decompressed).unwrap();
    assert_eq!(decompressed, input);
}

#[test]
fn test_lookup_malformed_input() {
    let lookup = Lookup::new(4);
    let mut decompressed = Vec::new();
    let result = lookup.decompress(&[0u8; 12], &mut decompressed);
    assert_eq!(result, Err(CompressError::MalformedInput));
}

#[test]
fn test_delta_round_trip_u32() {
    let delta = Delta::new(4);
    let input = u32_bytes(&[5u32, 7, 6, 6, 100, 0, u32::MAX]);
    let mut compressed = Vec::new();
    delta.compress(&input, &mut compressed);
    assert_eq!(compressed.len(), input.len());
    let mut decompressed = Vec::new();
    delta.decompress(&compressed, &mut decompressed).unwrap();
    assert_eq!(decompressed, input);
}

#[test]
fn test_delta_exact_bytes() {
    let delta = Delta::new(4);
    let input = u32_bytes(&[5u32, 7, 6]);
    let mut compressed = Vec::new();
    delta.compress(&input, &mut compressed);
    // First element verbatim, then 7-5 and the wrapped 6-7.
    assert_eq!(compressed, u32_bytes(&[5u32, 2, u32::MAX]));
}

#[test]
fn test_delta_round_trip_u64() {
    let delta = Delta::new(8);
    let mut input = Vec::new();
    for v in [u64::MAX, 0u64, 1, u64::MAX - 1, 12345678901234] {
        input.extend_from_slice(&v.to_ne_bytes());
    }
    let mut compressed = Vec::new();
    delta.compress(&input, &mut compressed);
    let mut decompressed = Vec::new();
    delta.decompress(&compressed, &mut decompressed).unwrap();
    assert_eq!(decompressed, input);
}

#[test]
fn test_delta_malformed_input() {
    let delta = Delta::new(4);
    let mut decompressed = Vec::new();
    let result = delta.decompress(&[1u8, 2, 3], &mut decompressed);
    assert_eq!(result, Err(CompressError::MalformedInput));
}

#[test]
fn test_naive_round_trip() {
    let naive = NaiveCompressor::new(2);
    let input: Vec<u8> = vec![1, 2, 3, 4, 5, 6];
    let mut compressed = Vec::new();
    naive.compress(&input, &mut compressed);
    assert_eq!(compressed, input);
    let mut decompressed = Vec::new();
    naive.decompress(&compressed, &mut decompressed).unwrap();
    assert_eq!(decompressed, input);

    let result = naive.decompress(&[1u8], &mut decompressed);
    assert_eq!(result, Err(CompressError::MalformedInput));
}

// Variable-count runs spend two bytes on short runs and nine on a run that
// needs the full 64-bit width.
#[test]
fn test_vrle_exact_bytes() {
    let vrle = VRLE::new(1);
    let input: Vec<u8> = vec![9u8; 100];
    let mut compressed = Vec::new();
    vrle.compress(&input, &mut compressed);
    assert_eq!(compressed, vec![0u8, 100, 9]);
}

#[test]
fn test_hybrid_with_lookup_candidate() {
    let mut input = Vec::new();
    for i in 0..24u32 {
        input.extend_from_slice(&(i % 2).to_ne_bytes());
    }
    let hybrid = Hybrid::new(4)
        .add(Algorithm::Rle(RLE::new(4)))
        .add(Algorithm::Lookup(Lookup::new(4)))
        .add(Algorithm::Vrle(VRLE::new(4)));
    let mut compressed = Vec::new();
    hybrid.compress(&input, &mut compressed);
    let mut decompressed = Vec::new();
    hybrid.decompress(&compressed, &mut decompressed).unwrap();
    assert_eq!(decompressed, input);
}

// The decorator composes: a hybrid can sit inside the chunker, which then
// lets every chunk pick its own winning codec.
#[test]
fn test_parchunked_hybrid_composition() {
    let mut input = Vec::new();
    for i in 0..64u32 {
        input.extend_from_slice(&(if i < 32 { 5u32 } else { i }).to_ne_bytes());
    }
    let inner = Hybrid::new(4).add(Algorithm::Rle(RLE::new(4))).add(Algorithm::Vrle(VRLE::new(4)));
    let par = ParChunked::new_with(inner, Some(32));
    let mut compressed = Vec::new();
    par.compress(&input, &mut compressed);
    let mut decompressed = Vec::new();
    par.decompress(&compressed, &mut decompressed).unwrap();
    assert_eq!(decompressed, input);
}
