use mini_lsm::lsm_storage::file_names::{sst_file_name, wal_file_name};

#[test]
fn ids_are_padded_to_five_digits() {
    assert_eq!(sst_file_name(0), "00000.sst");
    assert_eq!(sst_file_name(42), "00042.sst");
    assert_eq!(wal_file_name(99999), "99999.wal");
}

#[test]
fn longer_ids_are_kept_whole() {
    assert_eq!(sst_file_name(100000), "100000.sst");
    assert_eq!(wal_file_name(1234567890), "1234567890.wal");
}
