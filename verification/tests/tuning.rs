use indexstore::config::CompactionStyle;
use indexstore::config::CompressionType;
use indexstore::config::Config;
use indexstore::config::build_db_options;

#[test]
fn tuning_for_writable_mode() {
    let o = build_db_options(&Config { read_only: false, light_mode: false });
    assert!(o.create_if_missing);
    assert_eq!(o.max_open_files, 100_000);
    assert!(matches!(o.compaction_style, CompactionStyle::Level));
    assert!(matches!(o.compression, CompressionType::Snappy));
    assert_eq!(o.target_file_size_base, 1_073_741_824);
    assert_eq!(o.write_buffer_size, 256 << 20);
    assert!(o.disable_auto_compactions);
    assert_eq!(o.compaction_readahead_size, 1 << 20);
    assert_eq!(o.parallelism, 2);
}

#[test]
fn tuning_never_creates_in_read_only_mode() {
    let o = build_db_options(&Config { read_only: true, light_mode: false });
    assert!(!o.create_if_missing);
}

#[test]
fn key_order_is_bytewise_lexicographic() {
    assert!(indexstore::order::key_le(b"", b"a"));
    assert!(indexstore::order::key_le(b"a", b"a"));
    assert!(indexstore::order::key_le(b"a", b"ab"));
    assert!(!indexstore::order::key_le(b"ab", b"a"));
    assert!(indexstore::order::key_le(b"a:1", b"a:2"));
    assert!(indexstore::order::key_le(b"a:\xfe", b"a:\xff"));
    assert!(!indexstore::order::key_le(b"b", b"a:\xff"));
}

#[test]
fn prefix_test_is_exact() {
    assert!(indexstore::order::starts_with_bytes(b"a:1", b"a:"));
    assert!(indexstore::order::starts_with_bytes(b"a:", b"a:"));
    assert!(!indexstore::order::starts_with_bytes(b"a", b"a:"));
    assert!(!indexstore::order::starts_with_bytes(b"b:1", b"a:"));
    assert!(indexstore::order::starts_with_bytes(b"anything", b""));
}
