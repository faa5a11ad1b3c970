use prefix_decoder::decoder::{decode, decode_byte, decode_file, DecodeCursor, DecodeError};
use prefix_decoder::table::{load, CodeTable};

fn entry_bytes(pattern: u64, length: i32, symbol: u8) -> Vec<u8> {
    let mut out = Vec::new();
    out.extend_from_slice(&pattern.to_le_bytes());
    out.extend_from_slice(&length.to_le_bytes());
    out.push(symbol);
    out
}

fn file_bytes(decoded_len: u64, entries: &[(u64, i32, u8)], stream: &[u8]) -> Vec<u8> {
    let mut out = Vec::new();
    out.extend_from_slice(&decoded_len.to_le_bytes());
    out.extend_from_slice(&(entries.len() as u64 * 13).to_le_bytes());
    for &(p, l, s) in entries {
        out.extend_from_slice(&entry_bytes(p, l, s));
    }
    out.extend_from_slice(stream);
    out
}

fn table_of(entries: &[(u64, i32, u8)]) -> CodeTable {
    let mut data = Vec::new();
    for &(p, l, s) in entries {
        data.extend_from_slice(&entry_bytes(p, l, s));
    }
    load(&data, 0, entries.len() as u64)
}

#[test]
fn single_bit_codes() {
    let data = file_bytes(3, &[(0b1, 1, b'a'), (0b0, 1, b'b')], &[0b1010_0000]);
    let out = decode_file(&data).unwrap();
    assert_eq!(out, b"aba".to_vec());
}

#[test]
fn multi_length_collision() {
    let data = file_bytes(2, &[(1, 1, b'x'), (1, 2, b'y')], &[0b1010_0000]);
    let out = decode_file(&data).unwrap();
    assert_eq!(out, b"xy".to_vec());
}

#[test]
fn round_trip_small_huffman() {
    // e = 0, t = 10, a = 110, _ = 111; "tea_tea" packs to 0x9B 0xCC.
    let entries = [(0, 1, b'e'), (2, 2, b't'), (6, 3, b'a'), (7, 3, b'_')];
    let data = file_bytes(7, &entries, &[0x9B, 0xCC]);
    let out = decode_file(&data).unwrap();
    assert_eq!(out, b"tea_tea".to_vec());
}

#[test]
fn zero_decoded_len_emits_nothing() {
    let data = file_bytes(0, &[(0b1, 1, b'a')], &[0xFF, 0xFF, 0xFF]);
    let out = decode_file(&data).unwrap();
    assert_eq!(out, Vec::<u8>::new());
}

#[test]
fn trailing_pad_bits_are_ignored() {
    // After three symbols the remaining five bits would all decode, but the
    // declared length stops the run mid-byte.
    let data = file_bytes(3, &[(0b1, 1, b'a'), (0b0, 1, b'b')], &[0b1011_1111, 0xFF]);
    let out = decode_file(&data).unwrap();
    assert_eq!(out.len(), 3);
    assert_eq!(out, b"aba".to_vec());
}

#[test]
fn empty_dictionary_is_rejected() {
    let data = file_bytes(5, &[], &[0xFF]);
    assert_eq!(decode_file(&data), Err(DecodeError::EmptyTable));
}

#[test]
fn dictionary_shorter_than_one_record_is_rejected() {
    // A declared dictionary of 12 bytes holds no complete record.
    let mut data = Vec::new();
    data.extend_from_slice(&5u64.to_le_bytes());
    data.extend_from_slice(&12u64.to_le_bytes());
    data.extend_from_slice(&[0u8; 12]);
    assert_eq!(decode_file(&data), Err(DecodeError::EmptyTable));
}

#[test]
fn missing_headers_are_fatal() {
    assert_eq!(decode_file(&Vec::new()), Err(DecodeError::TruncatedHeader));
    assert_eq!(decode_file(&vec![0u8; 15]), Err(DecodeError::TruncatedHeader));
}

#[test]
fn short_stream_gives_short_output() {
    let data = file_bytes(10, &[(0b1, 1, b'a')], &[0xFF]);
    let out = decode_file(&data).unwrap();
    assert_eq!(out, b"aaaaaaaa".to_vec());
}

#[test]
fn truncated_dictionary_decodes_with_partial_table() {
    // The header promises two records but the file ends inside the second:
    // only the first is loaded, and no bitstream bytes remain.
    let mut data = Vec::new();
    data.extend_from_slice(&4u64.to_le_bytes());
    data.extend_from_slice(&26u64.to_le_bytes());
    data.extend_from_slice(&entry_bytes(0b1, 1, b'a'));
    data.extend_from_slice(&[0u8; 5]);
    let out = decode_file(&data).unwrap();
    assert_eq!(out, Vec::<u8>::new());
}

#[test]
fn bitstream_starts_after_declared_dictionary_length() {
    // The dictionary section declares 14 bytes: one record and one slack
    // byte.  The stream must begin after the slack byte, not after the
    // record.
    let mut data = Vec::new();
    data.extend_from_slice(&1u64.to_le_bytes());
    data.extend_from_slice(&14u64.to_le_bytes());
    data.extend_from_slice(&entry_bytes(0b1, 1, b'a'));
    data.push(0x00);
    data.push(0x80);
    let out = decode_file(&data).unwrap();
    assert_eq!(out, b"a".to_vec());
}

#[test]
fn code_spanning_byte_boundary() {
    let table = table_of(&[(0b1_0000_0001, 9, b'w')]);
    let stream = vec![0x80, 0x80];
    let out = decode(&stream, 0, &table, 1);
    assert_eq!(out, b"w".to_vec());
}

#[test]
fn negative_length_entry_never_matches() {
    let table = table_of(&[(1, -1, b'q')]);
    let stream = vec![0x80];
    let out = decode(&stream, 0, &table, 5);
    assert_eq!(out, Vec::<u8>::new());
}

#[test]
fn decode_byte_accumulates_and_resets() {
    let table = table_of(&[(0b11, 2, b'z')]);
    let mut cursor = DecodeCursor { bits: 0, len: 0 };
    let mut out = Vec::new();
    decode_byte(0b1100_0000, &mut cursor, &table, &mut out, 4);
    assert_eq!(out, b"z".to_vec());
    assert_eq!(cursor.bits, 0);
    assert_eq!(cursor.len, 6);
}

#[test]
fn decode_byte_stops_at_target_mid_byte() {
    let table = table_of(&[(0b1, 1, b'a')]);
    let mut cursor = DecodeCursor { bits: 0, len: 0 };
    let mut out = Vec::new();
    decode_byte(0xFF, &mut cursor, &table, &mut out, 3);
    assert_eq!(out, b"aaa".to_vec());
    assert_eq!(cursor.bits, 0);
    assert_eq!(cursor.len, 0);
}
