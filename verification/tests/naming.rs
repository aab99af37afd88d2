//! Table file naming and configuration.

use rocksdb_clone::config::Config;
use rocksdb_clone::error::Error;
use rocksdb_clone::filenames::{sst_filename, sst_id_of_filename};

#[test]
fn test_sst_filename_zero_padded() {
    assert_eq!(sst_filename(42), b"00000000000000000042.sst".to_vec());
    assert_eq!(sst_filename(0), b"00000000000000000000.sst".to_vec());
    assert_eq!(
        sst_filename(u64::MAX - 1),
        b"18446744073709551614.sst".to_vec()
    );
}

#[test]
fn test_sst_id_of_filename_parses() {
    assert_eq!(sst_id_of_filename(b"00000000000000000042.sst"), Some(42));
    assert_eq!(sst_id_of_filename(b"7.sst"), Some(7));
    assert_eq!(sst_id_of_filename(b"18446744073709551615.sst"), Some(u64::MAX));
    // Files that are not tables are ignored.
    assert_eq!(sst_id_of_filename(b"wal.log"), None);
    assert_eq!(sst_id_of_filename(b"abc.sst"), None);
    assert_eq!(sst_id_of_filename(b"42.txt"), None);
    assert_eq!(sst_id_of_filename(b".sst"), None);
    assert_eq!(sst_id_of_filename(b"4 2.sst"), None);
    // A number too large for an id is ignored.
    assert_eq!(sst_id_of_filename(b"18446744073709551616.sst"), None);
    // The formatter and the parser agree.
    assert_eq!(sst_id_of_filename(&sst_filename(123456789)), Some(123456789));
}

#[test]
fn test_config_builder() {
    let config = Config::new()
        .path("data".to_string())
        .memtable_size(4096)
        .sync(true)
        .create_if_missing(false);
    assert_eq!(config.path, "data");
    assert_eq!(config.memtable_size, 4096);
    assert!(config.sync);
    assert!(!config.create_if_missing);

    let defaults = Config::default();
    assert_eq!(defaults.path, "rocksdb_data");
    assert_eq!(defaults.memtable_size, 64 * 1024 * 1024);
    assert!(!defaults.sync);
    assert!(defaults.create_if_missing);
}

#[test]
fn test_error_constructors() {
    let e = Error::custom("something broke".to_string());
    assert!(matches!(e, Error::Custom(_)));
    let e = Error::serialization("bad record".to_string());
    assert!(matches!(e, Error::Serialization(_)));
}
