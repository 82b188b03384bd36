use flexcomp::algorithms::{get_mode, read_count_bytes, write_count_bytes};
use flexcomp::pseudo_random;

#[test]
fn test_write_and_read_count_u8() {
    let mut buffer = Vec::new();
    write_count_bytes(100, &mut buffer);
    let (count, bytes_read) = read_count_bytes(&buffer);
    assert_eq!(count, 100);
    assert_eq!(bytes_read, 2);
}

#[test]
fn test_write_and_read_count_u16() {
    let mut buffer = Vec::new();
    write_count_bytes(1000, &mut buffer);
    let (count, bytes_read) = read_count_bytes(&buffer);
    assert_eq!(count, 1000);
    assert_eq!(bytes_read, 3);
}

#[test]
fn test_write_and_read_count_u32() {
    let mut buffer = Vec::new();
    write_count_bytes(100000, &mut buffer);
    let (count, bytes_read) = read_count_bytes(&buffer);
    assert_eq!(count, 100000);
    assert_eq!(bytes_read, 5);
}

#[test]
fn test_write_and_read_count_u64() {
    let mut buffer = Vec::new();
    write_count_bytes(10000000000, &mut buffer);
    let (count, bytes_read) = read_count_bytes(&buffer);
    assert_eq!(count, 10000000000);
    assert_eq!(bytes_read, 9);
}

#[test]
fn test_write_and_read_count_boundary_u8_max() {
    let mut buffer = Vec::new();
    write_count_bytes(u8::MAX as u64, &mut buffer);
    let (count, _) = read_count_bytes(&buffer);
    assert_eq!(count, u8::MAX as u64);
}

#[test]
fn test_write_and_read_count_boundary_u16_max() {
    let mut buffer = Vec::new();
    write_count_bytes(u16::MAX as u64, &mut buffer);
    let (count, _) = read_count_bytes(&buffer);
    assert_eq!(count, u16::MAX as u64);
}

#[test]
fn test_write_and_read_count_boundary_u32_max() {
    let mut buffer = Vec::new();
    write_count_bytes(u32::MAX as u64, &mut buffer);
    let (count, bytes_read) = read_count_bytes(&buffer);
    assert_eq!(count, u32::MAX as u64);
    assert_eq!(bytes_read, 9);
}

#[test]
fn test_mode_boundaries_select_next_mode_up() {
    assert_eq!(get_mode(0), 0);
    assert_eq!(get_mode(254), 0);
    assert_eq!(get_mode(u8::MAX as u64), 1);
    assert_eq!(get_mode(u16::MAX as u64 - 1), 1);
    assert_eq!(get_mode(u16::MAX as u64), 2);
    assert_eq!(get_mode(u32::MAX as u64 - 1), 2);
    assert_eq!(get_mode(u32::MAX as u64), 3);
    assert_eq!(get_mode(u64::MAX), 3);
}

#[test]
fn test_count_exact_bytes() {
    let mut buffer = Vec::new();
    write_count_bytes(100, &mut buffer);
    assert_eq!(buffer, vec![0u8, 100]);

    let mut buffer = Vec::new();
    write_count_bytes(1000, &mut buffer);
    assert_eq!(buffer, vec![1u8, 0xe8, 0x03]);

    let mut buffer = Vec::new();
    write_count_bytes(100000, &mut buffer);
    assert_eq!(buffer, vec![2u8, 0xa0, 0x86, 0x01, 0x00]);

    let mut buffer = Vec::new();
    write_count_bytes(10000000000, &mut buffer);
    assert_eq!(buffer, vec![3u8, 0x00, 0xe4, 0x0b, 0x54, 0x02, 0x00, 0x00, 0x00]);
}

#[test]
fn test_count_round_trip_many_values() {
    let values = [
        0u64,
        1,
        2,
        127,
        128,
        254,
        255,
        256,
        65534,
        65535,
        65536,
        1000000,
        4294967294,
        4294967295,
        4294967296,
        u64::MAX - 1,
        u64::MAX,
    ];
    let mut i = 0;
    while i < values.len() {
        let n = values[i];
        let mut buffer = Vec::new();
        write_count_bytes(n, &mut buffer);
        let (count, bytes_read) = read_count_bytes(&buffer);
        assert_eq!(count, n);
        assert_eq!(bytes_read, buffer.len());
        i += 1;
    }
}

#[test]
fn test_pseudo_random_exact() {
    assert_eq!(pseudo_random(0), 2654435769);
    assert_eq!(pseudo_random(1), 2508785932);
    assert_eq!(pseudo_random(42), 608078042);
    assert_eq!(pseudo_random(42), pseudo_random(42));
}
