use diamond_types::dot::{name_of, DotColor};
use diamond_types::encoding::{
    calc_checksum, push_chunk, push_chunk_header, push_str, push_u32, push_usize, ChunkType,
    ExtendFromSlice,
};
use diamond_types::rle::{try_trim, trim, KVPair};
use diamond_types::span::TimeSpan;

#[test]
fn varints_encode_in_base_128_groups() {
    let mut out: Vec<u8> = Vec::new();
    push_usize(&mut out, 0);
    assert_eq!(out, vec![0]);

    let mut out: Vec<u8> = Vec::new();
    push_usize(&mut out, 127);
    assert_eq!(out, vec![127]);

    let mut out: Vec<u8> = Vec::new();
    push_usize(&mut out, 128);
    assert_eq!(out, vec![128, 1]);

    let mut out: Vec<u8> = Vec::new();
    push_u32(&mut out, 300);
    assert_eq!(out, vec![(300 % 128 + 128) as u8, 2]);
}

#[test]
fn strings_carry_a_length_prefix() {
    let mut out: Vec<u8> = Vec::new();
    push_str(&mut out, "hi");
    assert_eq!(out, vec![2, b'h', b'i']);
}

#[test]
fn chunks_frame_their_body() {
    let mut out: Vec<u8> = Vec::new();
    push_chunk_header(&mut out, ChunkType::FileInfo, 5);
    assert_eq!(out, vec![0, 5]);

    let mut out: Vec<u8> = Vec::new();
    push_chunk(&mut out, ChunkType::Operations, &[9, 8]);
    assert_eq!(out, vec![2, 2, 9, 8]);
}

#[test]
fn checksum_matches_the_crc32c_check_value() {
    // The standard check value for CRC-32/ISCSI.
    assert_eq!(calc_checksum(b"123456789"), 0xE3069283);
    assert_ne!(calc_checksum(b"123456780"), calc_checksum(b"123456789"));
}

#[test]
fn trim_clips_a_run_to_a_window() {
    let kv = KVPair(5, TimeSpan { start: 10, end: 20 });
    let clipped = trim(kv, TimeSpan { start: 7, end: 9 });
    assert_eq!(clipped.0, 7);
    assert_eq!(clipped.1.start, 12);
    assert_eq!(clipped.1.end, 14);

    let miss = try_trim(kv, TimeSpan { start: 20, end: 30 });
    assert!(miss.is_none());

    let inside = try_trim(kv, TimeSpan { start: 0, end: 100 }).unwrap();
    assert_eq!(inside.0, 5);
    assert_eq!(inside.1.start, 10);
    assert_eq!(inside.1.end, 20);
}

#[test]
fn times_label_as_decimal_or_root() {
    assert_eq!(name_of(0), "0");
    assert_eq!(name_of(7), "7");
    assert_eq!(name_of(123), "123");
    assert_eq!(name_of(diamond_types::ROOT_TIME), "ROOT");
    let c = DotColor::Red;
    assert!(matches!(c, DotColor::Red));
}
