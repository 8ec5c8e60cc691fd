use std::ops::Bound;

use bytes::Bytes;
use mini_lsm::bound::map_bound;
use mini_lsm::iterators::StorageIterator;
use mini_lsm::mem_table::{MemTable, MemTableIterator};
use mini_lsm::table::SsTableBuilder;

fn bytes(s: &str) -> Bytes {
    Bytes::copy_from_slice(s.as_bytes())
}

fn drain(mut iter: MemTableIterator<'_>) -> Vec<(String, String)> {
    let mut out = Vec::new();
    while iter.is_valid() {
        out.push((
            String::from_utf8(iter.key().raw_ref().to_vec()).unwrap(),
            String::from_utf8(iter.value().to_vec()).unwrap(),
        ));
        assert!(iter.next().is_ok());
    }
    out
}

fn pairs(entries: &[(&str, &str)]) -> Vec<(String, String)> {
    entries.iter().map(|(k, v)| (k.to_string(), v.to_string())).collect()
}

fn sample() -> MemTable {
    let mut table = MemTable::create(0);
    for (k, v) in [("e", "5"), ("a", "1"), ("c", "")] {
        table.put(k.as_bytes(), v.as_bytes());
    }
    table
}

#[test]
fn get_tells_absent_from_deleted() {
    let table = sample();
    assert_eq!(table.get(b"a"), Some(bytes("1")));
    assert_eq!(table.get(b"c"), Some(Bytes::new()));
    assert_eq!(table.get(b"b"), None);
}

#[test]
fn put_overwrites_and_counts_every_submission() {
    let mut table = MemTable::create(7);
    assert_eq!(table.id(), 7);
    assert!(table.is_empty());
    assert_eq!(table.approximate_size(), 0);
    assert_eq!(table.for_testing_put_slice(b"a", b"1"), None);
    assert_eq!(table.for_testing_put_slice(b"a", b"22"), None);
    assert_eq!(table.for_testing_get_slice(b"a"), Some(bytes("22")));
    assert_eq!(table.approximate_size(), 5);
    assert!(!table.is_empty());
}

#[test]
fn scan_takes_both_bounds() {
    let table = sample();
    let all = pairs(&[("a", "1"), ("c", ""), ("e", "5")]);
    assert_eq!(drain(table.scan(Bound::Unbounded, Bound::Unbounded)), all);
    assert_eq!(
        drain(table.scan(Bound::Excluded(b"a"), Bound::Included(b"e"))),
        pairs(&[("c", ""), ("e", "5")])
    );
    assert_eq!(
        drain(table.for_testing_scan_slice(Bound::Included(b"b"), Bound::Excluded(b"e"))),
        pairs(&[("c", "")])
    );
    assert_eq!(drain(table.scan(Bound::Included(b"f"), Bound::Unbounded)), pairs(&[]));
}

#[test]
fn scan_with_bounds_that_leave_no_room() {
    let table = sample();
    assert_eq!(drain(table.scan(Bound::Included(b"e"), Bound::Included(b"a"))), pairs(&[]));
    assert_eq!(drain(table.scan(Bound::Excluded(b"c"), Bound::Excluded(b"c"))), pairs(&[]));
}

#[test]
fn scan_takes_an_empty_key_for_the_end() {
    let mut table = sample();
    table.put(b"", b"x");
    assert!(!table.scan(Bound::Unbounded, Bound::Unbounded).is_valid());
    assert_eq!(
        drain(table.scan(Bound::Excluded(b""), Bound::Included(b"a"))),
        pairs(&[("a", "1")])
    );
}

#[test]
fn exhausted_scan_stays_exhausted() {
    let table = sample();
    let mut iter = table.scan(Bound::Included(b"e"), Bound::Unbounded);
    assert!(iter.is_valid());
    assert_eq!(iter.num_active_iterators(), 1);
    for _ in 0..3 {
        assert!(iter.next().is_ok());
        assert!(!iter.is_valid());
    }
}

#[test]
fn a_table_with_a_log_names_it() {
    let mut table = MemTable::create_with_wal(3);
    assert_eq!(table.sync_wal(), Some(3));
    assert_eq!(table.put(b"a", b"1"), Some(3));
    assert_eq!(MemTable::create(3).sync_wal(), None);
}

#[test]
fn a_log_is_replayed_in_order() {
    let records = vec![
        (bytes("a"), bytes("1")),
        (bytes("b"), bytes("2")),
        (bytes("a"), bytes("3")),
        (bytes("b"), Bytes::new()),
    ];
    let table = MemTable::recover_from_wal(9, &records);
    assert_eq!(table.id(), 9);
    assert_eq!(table.sync_wal(), Some(9));
    assert_eq!(table.approximate_size(), 0);
    assert_eq!(table.get(b"a"), Some(bytes("3")));
    assert_eq!(table.get(b"b"), Some(Bytes::new()));
    assert!(MemTable::recover_from_wal(9, &Vec::new()).is_empty());
}

#[test]
fn flush_writes_every_entry_in_order() {
    let table = sample();
    let mut builder = SsTableBuilder::new();
    table.flush(&mut builder);
    let sst = builder.build(4);
    assert_eq!(sst.sst_id(), 4);
    assert_eq!(sst.num_of_entries(), 3);
    assert_eq!(sst.key_at(0).raw_ref(), b"a");
    assert_eq!(sst.key_at(1).raw_ref(), b"c");
    assert_eq!(sst.value_at(1), b"");
    assert_eq!(sst.value_at(2), b"5");
}

#[test]
fn bounds_are_copied() {
    assert_eq!(map_bound(Bound::Included(b"a")), Bound::Included(bytes("a")));
    assert_eq!(map_bound(Bound::Excluded(b"b")), Bound::Excluded(bytes("b")));
    assert_eq!(map_bound(Bound::Unbounded), Bound::Unbounded);
}
