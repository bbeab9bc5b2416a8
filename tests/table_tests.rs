use countrydb::builder::Builder;
use countrydb::keys::compare_keys;
use countrydb::table::Table;
use std::cmp::Ordering;

fn build(pairs: &[(&str, &str)]) -> Table {
    let mut b = Builder::new();
    for (k, v) in pairs {
        b.emit(k.as_bytes().to_vec(), v.as_bytes().to_vec());
    }
    b.finalize()
}

fn keys_of(t: &Table) -> Vec<Vec<u8>> {
    t.scan().into_iter().map(|e| e.key).collect()
}

#[test]
fn compare_keys_orders_bytewise() {
    assert_eq!(compare_keys(b"abc", b"abd"), Ordering::Less);
    assert_eq!(compare_keys(b"abd", b"abc"), Ordering::Greater);
    assert_eq!(compare_keys(b"ab", b"abc"), Ordering::Less);
    assert_eq!(compare_keys(b"abc", b"ab"), Ordering::Greater);
    assert_eq!(compare_keys(b"", b""), Ordering::Equal);
    assert_eq!(compare_keys(b"DEU", b"DEU"), Ordering::Equal);
    assert_eq!(compare_keys(b"Z", b"a"), Ordering::Less);
    assert_eq!(compare_keys(&[0xff], &[0x00, 0x01]), Ordering::Greater);
}

#[test]
fn finalize_sorts_keys() {
    let t = build(&[("FRA", "1"), ("DEU", "2"), ("Germany", "3"), ("AUT", "4")]);
    assert_eq!(
        keys_of(&t),
        vec![b"AUT".to_vec(), b"DEU".to_vec(), b"FRA".to_vec(), b"Germany".to_vec()]
    );
    assert_eq!(t.len(), 4);
}

#[test]
fn first_write_wins_on_duplicate_keys() {
    let t = build(&[("Congo", "first"), ("COG", "x"), ("Congo", "second"), ("Congo", "third")]);
    assert_eq!(t.len(), 2);
    assert_eq!(t.get(b"Congo"), Some(b"first".to_vec()));
    assert_eq!(t.get(b"COG"), Some(b"x".to_vec()));
}

#[test]
fn get_on_absent_key_is_none() {
    let t = build(&[("DEU", "g"), ("FRA", "f")]);
    assert_eq!(t.get(b"POL"), None);
    assert_eq!(t.get(b""), None);
    assert_eq!(t.get(b"DE"), None);
    assert_eq!(t.get(b"DEUX"), None);
    assert_eq!(t.get(b"FRA"), Some(b"f".to_vec()));
}

#[test]
fn empty_builder_gives_empty_table() {
    let t = Builder::new().finalize();
    assert_eq!(t.len(), 0);
    assert!(t.scan().is_empty());
    assert_eq!(t.get(b"DEU"), None);
    assert_eq!(Table::empty().len(), 0);
}

#[test]
fn scan_is_ascending_and_restartable() {
    let t = build(&[("b", "2"), ("a", "1"), ("c", "3"), ("ab", "4"), ("", "5")]);
    let first = t.scan();
    let second = t.scan();
    let k1: Vec<Vec<u8>> = first.iter().map(|e| e.key.clone()).collect();
    let k2: Vec<Vec<u8>> = second.iter().map(|e| e.key.clone()).collect();
    assert_eq!(k1, k2);
    for w in k1.windows(2) {
        assert!(w[0] < w[1]);
    }
    let v1: Vec<Vec<u8>> = first.iter().map(|e| e.value.clone()).collect();
    assert_eq!(v1, vec![b"5".to_vec(), b"1".to_vec(), b"4".to_vec(), b"2".to_vec(), b"3".to_vec()]);
}

#[test]
fn builder_counts_emitted_pairs() {
    let mut b = Builder::new();
    b.emit(b"k".to_vec(), b"1".to_vec());
    b.emit(b"k".to_vec(), b"2".to_vec());
    assert_eq!(b.len(), 2);
    let t = b.finalize();
    assert_eq!(t.len(), 1);
    assert_eq!(t.entry_at(0).value, b"1".to_vec());
}
