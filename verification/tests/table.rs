use std::sync::Arc;

use bytes::Bytes;
use mini_lsm::iterators::concat_iterator::SstConcatIterator;
use mini_lsm::iterators::StorageIterator;
use mini_lsm::key::{bytes_less, bytes_same, KeySlice, UserKeys};
use mini_lsm::lsm_storage::get::keep_table;
use mini_lsm::table::bloom::Bloom;
use mini_lsm::table::fingerprint::key_fingerprint;
use mini_lsm::table::iterator::SsTableIterator;
use mini_lsm::table::{SsTable, SsTableBuilder};

fn bytes(s: &str) -> Bytes {
    Bytes::copy_from_slice(s.as_bytes())
}

fn entries(list: &[(&str, &str)]) -> Vec<(Bytes, Bytes)> {
    list.iter().map(|(k, v)| (bytes(k), bytes(v))).collect()
}

fn table(id: usize, list: &[(&str, &str)]) -> Arc<SsTable> {
    Arc::new(SsTable::open(id, &entries(list)).unwrap())
}

fn keys<I: StorageIterator<Keys = UserKeys>>(mut iter: I) -> Vec<String> {
    let mut out = Vec::new();
    while iter.is_valid() {
        out.push(String::from_utf8(iter.key().raw_ref().to_vec()).unwrap());
        assert!(iter.next().is_ok());
    }
    out
}

fn seek(list: &[(&str, &str)], key: &str) -> Vec<String> {
    let key = KeySlice::from_slice(key.as_bytes());
    keys(SsTableIterator::create_and_seek_to_key(table(1, list), key))
}

#[test]
fn strings_are_ordered_as_in_a_dictionary() {
    assert!(bytes_less(b"a", b"ab"));
    assert!(bytes_less(b"ab", b"b"));
    assert!(bytes_less(b"", b"a"));
    assert!(!bytes_less(b"a", b"a"));
    assert!(!bytes_less(b"b", b"ab"));
    assert!(bytes_less(&[1], &[255]));
    assert!(bytes_same(b"ab", b"ab"));
    assert!(!bytes_same(b"ab", b"abc"));
}

#[test]
fn a_table_needs_increasing_keys() {
    assert!(SsTable::open(1, &entries(&[])).is_none());
    assert!(SsTable::open(1, &entries(&[("b", "1"), ("a", "2")])).is_none());
    assert!(SsTable::open(1, &entries(&[("a", "1"), ("a", "2")])).is_none());
    let t = table(5, &[("a", "1"), ("b", ""), ("z", "3")]);
    assert_eq!(t.sst_id(), 5);
    assert_eq!(t.first_key().raw_ref(), b"a");
    assert_eq!(t.last_key().raw_ref(), b"z");
}

#[test]
fn seeking_finds_the_first_key_not_before_the_target() {
    let list = [("a", "1"), ("c", "3"), ("e", "5")];
    assert_eq!(seek(&list, "a"), ["a", "c", "e"]);
    assert_eq!(seek(&list, "b"), ["c", "e"]);
    assert_eq!(seek(&list, "e"), ["e"]);
    assert!(seek(&list, "z").is_empty());
    assert_eq!(keys(SsTableIterator::create_and_seek_to_first(table(1, &list))), ["a", "c", "e"]);
}

#[test]
fn concatenation_crosses_tables() {
    let tables = vec![
        table(1, &[("a", "1"), ("f", "1")]),
        table(2, &[("m", "2"), ("r", "2")]),
        table(3, &[("x", "3")]),
    ];
    let at = |key: &str| {
        let key = KeySlice::from_slice(key.as_bytes());
        keys(SstConcatIterator::create_and_seek_to_key(tables.clone(), key))
    };
    assert_eq!(at("h"), ["m", "r", "x"]);
    assert_eq!(at("a"), ["a", "f", "m", "r", "x"]);
    assert_eq!(at(""), ["a", "f", "m", "r", "x"]);
    assert_eq!(at("r"), ["r", "x"]);
    assert_eq!(at("s"), ["x"]);
    assert!(at("y").is_empty());
    let all = SstConcatIterator::create_and_seek_to_first(tables.clone());
    assert_eq!(all.num_active_iterators(), 1);
    assert_eq!(keys(all), ["a", "f", "m", "r", "x"]);
}

#[test]
fn concatenation_of_no_tables_is_invalid() {
    assert!(!SstConcatIterator::create_and_seek_to_first(Vec::new()).is_valid());
    let key = KeySlice::from_slice(b"a");
    assert!(!SstConcatIterator::create_and_seek_to_key(Vec::new(), key).is_valid());
}

#[test]
fn fingerprints_are_those_of_farmhash() {
    assert_eq!(key_fingerprint(b"hello world"), Some(430397466));
    assert_eq!(key_fingerprint(b"a"), Some(farmhash::fingerprint32(b"a")));
    assert_eq!(key_fingerprint(&[7; 30]), Some(farmhash::fingerprint32(&[7; 30])));
}

#[test]
fn strings_whose_sums_overflow_have_no_fingerprint() {
    assert_eq!(key_fingerprint(&[255; 8]), None);
    assert!(key_fingerprint(&[255; 4]).is_some());
    assert!(key_fingerprint(&[255; 25]).is_some());
}

#[test]
fn filters_let_their_keys_through() {
    let hashes: Vec<u32> = (0..200u32).map(|i| i.wrapping_mul(2654435761)).collect();
    let bloom = Bloom::build_from_key_hashes(&hashes);
    for h in &hashes {
        assert!(bloom.may_contain(*h));
    }
    let passed = (1_000_000..1_001_000u32).filter(|h| bloom.may_contain(*h)).count();
    assert!(passed < 200);
}

#[test]
fn an_empty_filter_rules_everything_out() {
    let bloom = Bloom::build_from_key_hashes(&Vec::new());
    assert!(!bloom.may_contain(0));
    assert!(!bloom.may_contain(12345));
}

#[test]
fn a_filter_sets_the_bits_of_its_probes() {
    // One fingerprint of zero has all its probes on bit zero of 64.
    let bloom = Bloom::build_from_key_hashes(&vec![0]);
    assert!(bloom.may_contain(0));
    assert!(!bloom.may_contain(1));
    assert!(!bloom.may_contain(65));
    // So has a fingerprint of 64, which cannot be told apart.
    assert!(bloom.may_contain(64));
}

#[test]
fn tables_are_pruned_by_range_and_filter() {
    let t = table(1, &[("b", "1"), ("d", ""), ("f", "3")]);
    assert!(keep_table(b"b", &t));
    assert!(keep_table(b"d", &t));
    assert!(keep_table(b"f", &t));
    assert!(!keep_table(b"a", &t));
    assert!(!keep_table(b"g", &t));
    let absent = ["c", "e", "ba", "bb", "da", "db", "ca", "cb"];
    assert!(absent.iter().any(|k| !keep_table(k.as_bytes(), &t)));
}

#[test]
fn a_key_without_fingerprint_disables_the_filter() {
    let mut builder = SsTableBuilder::new();
    builder.add(KeySlice::from_slice(b"a"), b"1");
    builder.add(KeySlice::from_slice(&[255; 8]), b"2");
    let t = builder.build(1);
    assert!(t.may_contain(b"a"));
    assert!(t.may_contain(b"anything"));
    assert!(t.may_contain(&[255; 8]));
}
