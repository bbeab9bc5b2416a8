use countrydb::builder::Builder;
use countrydb::codec::{checksum_of, decode_table, encode_table, TABLE_MAGIC};
use countrydb::table::Table;

fn build(pairs: &[(&str, &str)]) -> Table {
    let mut b = Builder::new();
    for (k, v) in pairs {
        b.emit(k.as_bytes().to_vec(), v.as_bytes().to_vec());
    }
    b.finalize()
}

#[test]
fn checksum_exact_values() {
    assert_eq!(checksum_of(b"", 0), 0);
    assert_eq!(checksum_of(b"a", 1), 97);
    assert_eq!(checksum_of(b"ab", 2), 25027);
    assert_eq!(checksum_of(b"abc", 2), 25027);
}

#[test]
fn encode_exact_bytes() {
    let t = build(&[("a", "b")]);
    let bytes = encode_table(&t);
    let mut expected: Vec<u8> = vec![1, 0, 0, 0, 0, 0, 0, 0, 97, 1, 0, 0, 0, 0, 0, 0, 0, 98];
    expected.extend_from_slice(&[1, 0, 0, 0, 0, 0, 0, 0]);
    expected.extend_from_slice(&[58, 12, 79, 78, 0, 0, 0, 0]);
    expected.extend_from_slice(&TABLE_MAGIC.to_le_bytes());
    assert_eq!(bytes, expected);
    assert_eq!(TABLE_MAGIC.to_le_bytes(), [1, 0, 0, 0, 76, 66, 84, 83]);
}

#[test]
fn empty_table_round_trip() {
    let t = Table::empty();
    let bytes = encode_table(&t);
    assert_eq!(bytes.len(), 24);
    let back = decode_table(&bytes).expect("stored empty table opens");
    assert_eq!(back.len(), 0);
}

#[test]
fn round_trip_keeps_entries() {
    let t = build(&[("DEU", "germany"), ("FRA", "france"), ("Germany", "germany"), ("", "")]);
    let bytes = encode_table(&t);
    let back = decode_table(&bytes).expect("stored table opens");
    let a: Vec<(Vec<u8>, Vec<u8>)> = t.scan().into_iter().map(|e| (e.key, e.value)).collect();
    let b: Vec<(Vec<u8>, Vec<u8>)> = back.scan().into_iter().map(|e| (e.key, e.value)).collect();
    assert_eq!(a, b);
    assert_eq!(encode_table(&back), bytes);
}

#[test]
fn corrupted_byte_is_refused() {
    let t = build(&[("DEU", "germany"), ("FRA", "france")]);
    let bytes = encode_table(&t);
    for i in 0..bytes.len() {
        let mut bad = bytes.clone();
        bad[i] ^= 0x01;
        assert!(decode_table(&bad).is_none(), "flipped byte {} accepted", i);
    }
}

#[test]
fn truncated_or_extended_is_refused() {
    let t = build(&[("DEU", "germany")]);
    let bytes = encode_table(&t);
    for n in 0..bytes.len() {
        assert!(decode_table(&bytes[..n]).is_none());
    }
    let mut longer = bytes.clone();
    longer.push(0);
    assert!(decode_table(&longer).is_none());
}

#[test]
fn unsorted_entries_are_refused() {
    let t = build(&[("b", "1"), ("a", "2")]);
    let bytes = encode_table(&t);
    // swap the two entries (each 18 bytes) and fix the checksum
    let mut swapped = Vec::new();
    swapped.extend_from_slice(&bytes[18..36]);
    swapped.extend_from_slice(&bytes[0..18]);
    let sum = checksum_of(&swapped, 36);
    swapped.extend_from_slice(&2u64.to_le_bytes());
    swapped.extend_from_slice(&sum.to_le_bytes());
    swapped.extend_from_slice(&TABLE_MAGIC.to_le_bytes());
    assert!(decode_table(&swapped).is_none());
}

#[test]
fn identical_builds_store_identical_bytes() {
    let pairs = [("FRA", "f"), ("DEU", "g"), ("FRA", "again"), ("Germany", "g")];
    let a = encode_table(&build(&pairs));
    let b = encode_table(&build(&pairs));
    assert_eq!(a, b);
}
