use prefix_decoder::table::{load, parse_entry, CodeEntry, CodeTable, ENTRY_SIZE};
use prefix_decoder::wire::{read_i32_le, read_u64_le};

fn entry_bytes(pattern: u64, length: i32, symbol: u8) -> Vec<u8> {
    let mut out = Vec::new();
    out.extend_from_slice(&pattern.to_le_bytes());
    out.extend_from_slice(&length.to_le_bytes());
    out.push(symbol);
    out
}

#[test]
fn record_size_matches_field_layout() {
    assert_eq!(ENTRY_SIZE, 13);
    assert_eq!(entry_bytes(0, 0, 0).len(), ENTRY_SIZE);
}

#[test]
fn read_u64_le_exact_values() {
    let data = vec![1, 0, 0, 0, 0, 0, 0, 0, 0xFF, 0xFF, 0xFF, 0xFF, 0xFF, 0xFF, 0xFF, 0xFF];
    assert_eq!(read_u64_le(&data, 0), 1);
    assert_eq!(read_u64_le(&data, 8), u64::MAX);
    let data2 = vec![0x78, 0x56, 0x34, 0x12, 0, 0, 0, 0];
    assert_eq!(read_u64_le(&data2, 0), 0x1234_5678);
}

#[test]
fn read_i32_le_signed_values() {
    let data = vec![0xFF, 0xFF, 0xFF, 0xFF];
    assert_eq!(read_i32_le(&data, 0), -1);
    let data = vec![0x00, 0x00, 0x00, 0x80];
    assert_eq!(read_i32_le(&data, 0), i32::MIN);
    let data = vec![0xFE, 0xFF, 0xFF, 0x7F];
    assert_eq!(read_i32_le(&data, 0), 0x7FFF_FFFE);
    let data = vec![40, 0, 0, 0];
    assert_eq!(read_i32_le(&data, 0), 40);
}

#[test]
fn parse_entry_reads_fields_at_their_offsets() {
    let data = entry_bytes(0xDEAD_BEEF_0123_4567, -5, b'k');
    let e = parse_entry(&data, 0);
    assert_eq!(
        e,
        CodeEntry { pattern: 0xDEAD_BEEF_0123_4567, length: -5, symbol: b'k' },
    );
}

#[test]
fn load_reads_all_complete_records() {
    let mut data = entry_bytes(0b10, 2, b'a');
    data.extend_from_slice(&entry_bytes(0b11, 2, b'b'));
    let t = load(&data, 0, 2);
    assert_eq!(t.count, 2);
    assert_eq!(t.lookup(0b10, 2), Some(b'a'));
    assert_eq!(t.lookup(0b11, 2), Some(b'b'));
    assert_eq!(t.lookup(0b10, 1), None);
    assert_eq!(t.lookup(0b01, 2), None);
}

#[test]
fn load_stops_at_truncated_record() {
    let mut data = entry_bytes(0b1, 1, b'a');
    data.extend_from_slice(&[0u8; 7]);
    let t = load(&data, 0, 2);
    assert_eq!(t.count, 1);
    assert_eq!(t.lookup(0b1, 1), Some(b'a'));
}

#[test]
fn load_respects_entry_count_over_available_bytes() {
    let mut data = entry_bytes(0b1, 1, b'a');
    data.extend_from_slice(&entry_bytes(0b0, 1, b'b'));
    let t = load(&data, 0, 1);
    assert_eq!(t.count, 1);
    assert_eq!(t.lookup(0b0, 1), None);
}

#[test]
fn lookup_takes_first_match_in_encounter_order() {
    let mut t = CodeTable::new();
    t.push_entry(CodeEntry { pattern: 9, length: 4, symbol: b'p' });
    t.push_entry(CodeEntry { pattern: 9, length: 4, symbol: b'q' });
    t.push_entry(CodeEntry { pattern: 9, length: 5, symbol: b'r' });
    assert_eq!(t.count, 3);
    assert_eq!(t.lookup(9, 4), Some(b'p'));
    assert_eq!(t.lookup(9, 5), Some(b'r'));
    assert_eq!(t.lookup(9, 6), None);
}

#[test]
fn empty_table_matches_nothing() {
    let t = CodeTable::new();
    assert_eq!(t.count, 0);
    assert_eq!(t.lookup(0, 1), None);
}
