use flexcomp::algorithms::{ParChunked, RLE, VRLE};
use flexcomp::compressor::Compressor;

fn u32_bytes(values: &[u32]) -> Vec<u8> {
    let mut out = Vec::new();
    for v in values {
        out.extend_from_slice(&v.to_ne_bytes());
    }
    out
}

fn u64_bytes(values: &[u64]) -> Vec<u8> {
    let mut out = Vec::new();
    for v in values {
        out.extend_from_slice(&v.to_ne_bytes());
    }
    out
}

/// A point record of two 32-bit coordinates, as its raw bytes.
fn point_bytes(points: &[(u32, u32)]) -> Vec<u8> {
    let mut out = Vec::new();
    for (x, y) in points {
        out.extend_from_slice(&x.to_ne_bytes());
        out.extend_from_slice(&y.to_ne_bytes());
    }
    out
}

#[test]
fn tests_test_rle_compress_large_data() {
    let rle = RLE::new(1);
    let input: Vec<u8> = vec![42u8; 100_000];
    let mut compressed = Vec::new();
    rle.compress(&input, &mut compressed);
    assert!(!compressed.is_empty());
    assert!(compressed.len() < input.len());
}

#[test]
fn tests_test_rle_decompress_large_data() {
    let rle = RLE::new(1);
    let input: Vec<u8> = vec![42u8; 100_000];
    let mut compressed = Vec::new();
    rle.compress(&input, &mut compressed);

    let mut decompressed = Vec::new();
    rle.decompress(&compressed, &mut decompressed).unwrap();
    assert_eq!(decompressed, input);
}

#[test]
fn tests_test_rle_u32() {
    let rle = RLE::new(4);
    let input = u32_bytes(&[1u32, 1, 1, 2, 2, 3]);
    let mut compressed = Vec::new();
    rle.compress(&input, &mut compressed);

    let mut decompressed = Vec::new();
    rle.decompress(&compressed, &mut decompressed).unwrap();
    assert_eq!(decompressed, input);
}

#[test]
fn tests_test_rle_u64() {
    let rle = RLE::new(8);
    let input = u64_bytes(&[100u64, 100, 200, 200, 200]);
    let mut compressed = Vec::new();
    rle.compress(&input, &mut compressed);

    let mut decompressed = Vec::new();
    rle.decompress(&compressed, &mut decompressed).unwrap();
    assert_eq!(decompressed, input);
}

#[test]
fn test_vrle_compress_large_data() {
    let rle = VRLE::new(1);
    let input: Vec<u8> = vec![42u8; 100_000];
    let mut compressed = Vec::new();
    rle.compress(&input, &mut compressed);
    assert!(!compressed.is_empty());
    assert!(compressed.len() < input.len());
}

#[test]
fn test_vrle_decompress_large_data() {
    let rle = VRLE::new(1);
    let input: Vec<u8> = vec![42u8; 100_000];
    let mut compressed = Vec::new();
    rle.compress(&input, &mut compressed);

    let mut decompressed = Vec::new();
    rle.decompress(&compressed, &mut decompressed).unwrap();
    assert_eq!(decompressed, input);
}

#[test]
fn test_vrle_u32() {
    let rle = VRLE::new(4);
    let input = u32_bytes(&[1u32, 1, 1, 2, 2, 3]);
    let mut compressed = Vec::new();
    rle.compress(&input, &mut compressed);

    let mut decompressed = Vec::new();
    rle.decompress(&compressed, &mut decompressed).unwrap();
    assert_eq!(decompressed, input);
}

#[test]
fn test_vrle_u64() {
    let rle = VRLE::new(8);
    let input = u64_bytes(&[100u64, 100, 200, 200, 200]);
    let mut compressed = Vec::new();
    rle.compress(&input, &mut compressed);

    let mut decompressed = Vec::new();
    rle.decompress(&compressed, &mut decompressed).unwrap();
    assert_eq!(decompressed, input);
}

#[test]
fn tests_test_rle_custom_struct() {
    let rle = RLE::new(8);
    let input = point_bytes(&[(1, 1), (1, 1), (2, 2)]);
    let mut compressed = Vec::new();
    rle.compress(&input, &mut compressed);

    let mut decompressed = Vec::new();
    rle.decompress(&compressed, &mut decompressed).unwrap();
    assert_eq!(decompressed, input);
}

#[test]
fn tests_test_rle_large_custom_struct() {
    let rle = RLE::new(8);
    let input = point_bytes(&vec![(42u32, 99u32); 50_000]);
    let mut compressed = Vec::new();
    rle.compress(&input, &mut compressed);

    let mut decompressed = Vec::new();
    rle.decompress(&compressed, &mut decompressed).unwrap();
    assert_eq!(decompressed, input);
}

#[test]
fn tests_test_parchunked_rle_compress_large_data() {
    let par_rle = ParChunked::new_with(RLE::new(1), None);
    let input: Vec<u8> = vec![42u8; 1_000_000];
    let mut compressed = Vec::new();
    par_rle.compress(&input, &mut compressed);
    assert!(!compressed.is_empty());
    assert!(compressed.len() < input.len());
}

#[test]
fn tests_test_parchunked_rle_decompress_large_data() {
    let par_rle = ParChunked::new_with(RLE::new(1), None);
    let input: Vec<u8> = vec![42u8; 1_000_000];
    let mut compressed = Vec::new();
    par_rle.compress(&input, &mut compressed);

    let mut decompressed = Vec::new();
    par_rle.decompress(&compressed, &mut decompressed).unwrap();
    assert_eq!(decompressed, input);
}

#[test]
fn tests_test_parchunked_rle_short_data() {
    let par_rle = ParChunked::new_with(RLE::new(1), None);
    let input: Vec<u8> = vec![7u8; 5];
    let mut compressed = Vec::new();
    par_rle.compress(&input, &mut compressed);

    let mut decompressed = Vec::new();
    par_rle.decompress(&compressed, &mut decompressed).unwrap();
    assert_eq!(decompressed, input);
}

#[test]
fn tests_test_parchunked_rle_u32() {
    let par_rle = ParChunked::new_with(RLE::new(4), None);
    let input = u32_bytes(&[1u32, 1, 1, 2, 2, 3]);
    let mut compressed = Vec::new();
    par_rle.compress(&input, &mut compressed);

    let mut decompressed = Vec::new();
    par_rle.decompress(&compressed, &mut decompressed).unwrap();
    assert_eq!(decompressed, input);
}

#[test]
fn tests_test_parchunked_rle_custom_struct() {
    let par_rle = ParChunked::new_with(RLE::new(8), None);
    let input = point_bytes(&[(1, 1), (1, 1), (2, 2)]);
    let mut compressed = Vec::new();
    par_rle.compress(&input, &mut compressed);

    let mut decompressed = Vec::new();
    par_rle.decompress(&compressed, &mut decompressed).unwrap();
    assert_eq!(decompressed, input);
}

#[test]
fn tests_test_parchunked_rle_large_custom_struct() {
    let par_rle = ParChunked::new_with(RLE::new(8), None);
    let input = point_bytes(&vec![(42u32, 99u32); 100_000]);
    let mut compressed = Vec::new();
    par_rle.compress(&input, &mut compressed);

    let mut decompressed = Vec::new();
    par_rle.decompress(&compressed, &mut decompressed).unwrap();
    assert_eq!(decompressed, input);
}
