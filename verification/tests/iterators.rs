use std::ops::Bound;

use bytes::Bytes;
use mini_lsm::error::StorageError;
use mini_lsm::iterators::merge_iterator::MergeIterator;
use mini_lsm::iterators::two_merge_iterator::TwoMergeIterator;
use mini_lsm::iterators::StorageIterator;
use mini_lsm::key::{KeyFamily, KeySlice, UserKeys};
use mini_lsm::lsm_iterator::{FusedIterator, LsmIterator};
use mini_lsm::lsm_storage::get::{exact_match, merge_lookup};
use mini_lsm::lsm_storage::scan::merge_scan;
use mini_lsm::run::Run;

/// A cursor over a list, which fails when it would move to the entry with index `fail_at`.
struct ListIterator {
    entries: Vec<(Vec<u8>, Vec<u8>)>,
    at: usize,
    fail_at: usize,
}

impl StorageIterator for ListIterator {
    type Keys = UserKeys;

    fn inv(&self) -> bool {
        unreachable!()
    }

    fn remaining(&self) -> Run<<UserKeys as KeyFamily>::Model> {
        unreachable!()
    }

    fn inv_facts(&self) {
        unreachable!()
    }

    fn value(&self) -> &[u8] {
        &self.entries[self.at].1
    }

    fn key(&self) -> KeySlice<'_> {
        KeySlice::from_slice(&self.entries[self.at].0)
    }

    fn is_valid(&self) -> bool {
        self.at < self.entries.len()
    }

    fn next(&mut self) -> Result<(), StorageError> {
        if self.at + 1 == self.fail_at {
            return Err(StorageError::Source(String::from("disk failure")));
        }
        self.at += 1;
        Ok(())
    }

    fn num_active_iterators(&self) -> usize {
        1
    }
}

fn failing(entries: &[(&str, &str)], fail_at: usize) -> ListIterator {
    let entries = entries
        .iter()
        .map(|(k, v)| (k.as_bytes().to_vec(), v.as_bytes().to_vec()))
        .collect();
    ListIterator { entries, at: 0, fail_at }
}

fn list(entries: &[(&str, &str)]) -> ListIterator {
    failing(entries, usize::MAX)
}

fn drain<I: StorageIterator<Keys = UserKeys>>(mut iter: I) -> Vec<(String, String)> {
    let mut out = Vec::new();
    while iter.is_valid() {
        out.push((
            String::from_utf8(iter.key().raw_ref().to_vec()).unwrap(),
            String::from_utf8(iter.value().to_vec()).unwrap(),
        ));
        iter.next().unwrap();
    }
    out
}

fn drain_scan<I: StorageIterator<Keys = UserKeys>>(
    mut iter: FusedIterator<LsmIterator<I>>,
) -> Vec<(String, String)> {
    let mut out = Vec::new();
    while iter.is_valid() {
        out.push((
            String::from_utf8(iter.key().to_vec()).unwrap(),
            String::from_utf8(iter.value().to_vec()).unwrap(),
        ));
        iter.next().unwrap();
    }
    out
}

fn pairs(entries: &[(&str, &str)]) -> Vec<(String, String)> {
    entries.iter().map(|(k, v)| (k.to_string(), v.to_string())).collect()
}

fn bytes(s: &str) -> Bytes {
    Bytes::copy_from_slice(s.as_bytes())
}

fn scan(entries: &[(&str, &str)], upper: Bound<Bytes>) -> Vec<(String, String)> {
    drain_scan(FusedIterator::new(LsmIterator::new(list(entries), upper).unwrap()))
}

#[test]
fn two_merge_prefers_first_on_equal_keys() {
    let a = list(&[("b", "9"), ("d", "4")]);
    let b = list(&[("b", "2"), ("c", "3")]);
    let iter = TwoMergeIterator::create(a, b).unwrap();
    assert_eq!(iter.num_active_iterators(), 2);
    assert_eq!(drain(iter), pairs(&[("b", "9"), ("c", "3"), ("d", "4")]));
}

#[test]
fn two_merge_keeps_winning_tombstones() {
    let a = list(&[("b", ""), ("d", "4")]);
    let b = list(&[("b", "2"), ("c", "3")]);
    let iter = TwoMergeIterator::create(a, b).unwrap();
    assert_eq!(drain(iter), pairs(&[("b", ""), ("c", "3"), ("d", "4")]));
}

#[test]
fn two_merge_with_the_order_of_inputs_changed() {
    let a = list(&[("b", "2"), ("c", "3")]);
    let b = list(&[("b", "9"), ("d", "4")]);
    let iter = TwoMergeIterator::create(a, b).unwrap();
    assert_eq!(drain(iter), pairs(&[("b", "2"), ("c", "3"), ("d", "4")]));
}

#[test]
fn two_merge_with_empty_inputs() {
    let iter = TwoMergeIterator::create(list(&[]), list(&[("a", "1")])).unwrap();
    assert_eq!(drain(iter), pairs(&[("a", "1")]));
    let iter = TwoMergeIterator::create(list(&[("a", "1")]), list(&[])).unwrap();
    assert_eq!(drain(iter), pairs(&[("a", "1")]));
    let iter = TwoMergeIterator::create(list(&[]), list(&[])).unwrap();
    assert!(!iter.is_valid());
}

#[test]
fn two_merge_reports_a_failure_while_skipping_a_duplicate() {
    let a = list(&[("a", "1")]);
    let b = failing(&[("a", "0"), ("b", "2")], 1);
    assert!(matches!(TwoMergeIterator::create(a, b), Err(StorageError::Source(_))));
}

#[test]
fn merge_orders_keys_and_prefers_the_smaller_index() {
    let iter = MergeIterator::create(vec![
        list(&[("b", "9"), ("d", "4")]),
        list(&[("a", "1"), ("b", "2"), ("c", "3")]),
    ]);
    assert_eq!(iter.num_active_iterators(), 2);
    assert_eq!(drain(iter), pairs(&[("a", "1"), ("b", "9"), ("c", "3"), ("d", "4")]));
}

#[test]
fn merge_consumes_all_copies_of_a_key() {
    let iter = MergeIterator::create(vec![
        list(&[("a", ""), ("c", "1")]),
        list(&[("a", "2"), ("b", "2"), ("c", "2")]),
        list(&[]),
        list(&[("a", "3"), ("b", "3"), ("e", "3")]),
    ]);
    assert_eq!(drain(iter), pairs(&[("a", ""), ("b", "2"), ("c", "1"), ("e", "3")]));
}

#[test]
fn merge_of_nothing_is_invalid() {
    let none: Vec<ListIterator> = Vec::new();
    assert!(!MergeIterator::create(none).is_valid());
    assert!(!MergeIterator::create(vec![list(&[]), list(&[])]).is_valid());
}

#[test]
fn merge_reports_a_failing_child() {
    let mut iter = MergeIterator::create(vec![
        list(&[("a", "1")]),
        failing(&[("a", "2"), ("b", "2")], 1),
    ]);
    assert!(iter.is_valid());
    assert_eq!(iter.key().raw_ref(), b"a");
    match iter.next() {
        Err(e) => assert_eq!(e.message(), "disk failure"),
        Ok(()) => panic!("the failure was lost"),
    }
}

#[test]
fn scan_hides_tombstones() {
    let raw = [("a", "1"), ("b", ""), ("c", ""), ("d", "4"), ("e", "")];
    assert_eq!(scan(&raw, Bound::Unbounded), pairs(&[("a", "1"), ("d", "4")]));
    assert_eq!(scan(&[("a", ""), ("b", "")], Bound::Unbounded), pairs(&[]));
}

#[test]
fn scan_ends_at_its_upper_bound() {
    let raw = [("a", "1"), ("b", "2"), ("c", "3")];
    assert_eq!(scan(&raw, Bound::Included(bytes("b"))), pairs(&[("a", "1"), ("b", "2")]));
    assert_eq!(scan(&raw, Bound::Excluded(bytes("b"))), pairs(&[("a", "1")]));
    assert_eq!(scan(&raw, Bound::Included(bytes("bb"))), pairs(&[("a", "1"), ("b", "2")]));
}

#[test]
fn scan_checks_the_bound_at_its_first_position() {
    assert_eq!(scan(&[("c", "3")], Bound::Included(bytes("b"))), pairs(&[]));
    assert_eq!(scan(&[("b", ""), ("c", "3")], Bound::Included(bytes("b"))), pairs(&[]));
}

#[test]
fn scan_construction_can_fail_on_a_tombstone() {
    let iter = failing(&[("a", ""), ("b", "2")], 1);
    assert!(matches!(LsmIterator::new(iter, Bound::Unbounded), Err(StorageError::Source(_))));
    // Without a tombstone at the start nothing has to be moved.
    let iter = failing(&[("a", "1"), ("b", "2")], 1);
    assert!(LsmIterator::new(iter, Bound::Unbounded).unwrap().is_valid());
}

#[test]
fn fused_exhaustion_is_harmless() {
    let mut iter = FusedIterator::new(list(&[("a", "1")]));
    assert!(iter.is_valid());
    assert_eq!(iter.num_active_iterators(), 1);
    assert_eq!(iter.key().raw_ref(), b"a");
    assert_eq!(iter.value(), b"1");
    for _ in 0..5 {
        assert!(iter.next().is_ok());
        assert!(!iter.is_valid());
    }
}

#[test]
fn fused_failure_is_permanent() {
    let mut iter = FusedIterator::new(failing(&[("a", "1"), ("b", "2")], 1));
    assert!(iter.is_valid());
    match iter.next() {
        Err(e) => assert_eq!(e.message(), "disk failure"),
        Ok(()) => panic!("the failure was lost"),
    }
    for _ in 0..3 {
        assert!(!iter.is_valid());
        match iter.next() {
            Err(e) => assert_eq!(e.message(), "the iterator is tainted"),
            Ok(()) => panic!("a tainted iterator advanced"),
        }
    }
}

#[test]
fn fused_settles_by_the_outcome() {
    let mut iter = FusedIterator::new(list(&[("a", "1")]));
    assert!(iter.settle(Ok(())).is_ok());
    assert!(iter.is_valid());
    assert!(matches!(iter.settle(Err(StorageError::KeyTooLarge)), Err(StorageError::KeyTooLarge)));
    assert!(!iter.is_valid());
    assert!(iter.settle(Ok(())).is_ok());
    assert!(!iter.is_valid());
}

#[test]
fn errors_have_messages() {
    assert_eq!(StorageError::Tainted.message(), "the iterator is tainted");
    assert_eq!(StorageError::KeyTooLarge.message(), "key is too large for the on-disk format");
    assert_eq!(StorageError::ValueTooLarge.message(), "value is too large for the on-disk format");
    assert_eq!(StorageError::Source(String::from("x")).message(), "x");
}

#[test]
fn exact_match_wants_the_key_and_a_value() {
    assert_eq!(exact_match(&list(&[("b", "2")]), b"b"), Some(bytes("2")));
    assert_eq!(exact_match(&list(&[("c", "3")]), b"b"), None);
    assert_eq!(exact_match(&list(&[("b", "")]), b"b"), None);
    assert_eq!(exact_match(&list(&[]), b"b"), None);
}

#[test]
fn lookup_takes_the_smallest_candidate() {
    let l0 = vec![list(&[("c", "3")]), list(&[("b", "2")])];
    let levels = vec![list(&[("b", "old")])];
    assert_eq!(merge_lookup(l0, levels, b"b").unwrap(), Some(bytes("2")));
    let l0 = vec![list(&[("c", "3")]), list(&[("b", "")])];
    let levels = vec![list(&[("b", "old")])];
    assert_eq!(merge_lookup(l0, levels, b"b").unwrap(), None);
    let l0 = vec![list(&[("c", "3")])];
    let levels = vec![list(&[("d", "4")])];
    assert_eq!(merge_lookup(l0, levels, b"b").unwrap(), None);
}

#[test]
fn lookup_reports_a_failing_level() {
    let l0 = vec![list(&[("b", "2")])];
    let levels = vec![failing(&[("b", "old"), ("c", "3")], 1)];
    assert!(matches!(merge_lookup(l0, levels, b"b"), Err(StorageError::Source(_))));
}

#[test]
fn scan_of_cursors_prefers_memory_to_l0_to_levels() {
    let memory = vec![list(&[("b", ""), ("d", "4")]), list(&[("a", "1"), ("b", "2")])];
    let l0 = vec![list(&[("a", "0"), ("c", "3"), ("d", "3")])];
    let levels = vec![list(&[("b", "x"), ("c", "x"), ("e", "5")])];
    let iter = merge_scan(memory, l0, levels, Bound::Excluded(b"e")).unwrap();
    assert_eq!(iter.num_active_iterators(), 4);
    assert_eq!(drain_scan(iter), pairs(&[("a", "1"), ("c", "3"), ("d", "4")]));
}

#[test]
fn scan_of_cursors_is_tainted_by_a_failure() {
    let memory = vec![list(&[("a", "1")])];
    let l0 = vec![failing(&[("b", "2"), ("c", "3")], 1)];
    let levels: Vec<ListIterator> = Vec::new();
    let mut iter = merge_scan(memory, l0, levels, Bound::Unbounded).unwrap();
    assert_eq!(iter.key(), b"a");
    assert!(iter.next().is_ok());
    assert_eq!(iter.key(), b"b");
    assert!(matches!(iter.next(), Err(StorageError::Source(_))));
    assert!(!iter.is_valid());
    assert!(matches!(iter.next(), Err(StorageError::Tainted)));
}

#[test]
fn two_merge_moves_one_child_and_then_over_a_tie() {
    // The second cursor may be moved once, over its copy of b, and no further.
    let a = list(&[("a", "1"), ("b", "2")]);
    let b = failing(&[("b", "x"), ("c", "3"), ("d", "4")], 2);
    let mut iter = TwoMergeIterator::create(a, b).unwrap();
    assert_eq!(iter.key().raw_ref(), b"a");
    assert!(iter.next().is_ok());
    assert_eq!((iter.key().raw_ref(), iter.value()), (&b"b"[..], &b"2"[..]));
    assert!(iter.next().is_ok());
    assert_eq!((iter.key().raw_ref(), iter.value()), (&b"c"[..], &b"3"[..]));
    assert!(matches!(iter.next(), Err(StorageError::Source(_))));
}

#[test]
fn scan_of_cursors_that_starts_ready_moves_nothing() {
    let memory = vec![failing(&[("a", "1"), ("d", "4")], 1)];
    let l0 = vec![failing(&[("b", "2"), ("c", "3")], 1)];
    let levels = vec![failing(&[("c", "9"), ("e", "5")], 1)];
    let iter = merge_scan(memory, l0, levels, Bound::Unbounded).unwrap();
    assert_eq!(iter.key(), b"a");
    assert_eq!(iter.num_active_iterators(), 3);
}
