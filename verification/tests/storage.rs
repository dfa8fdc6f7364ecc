use indexstore::config::Config;
use indexstore::db::DB;
use indexstore::db::DBError;
use indexstore::db::DBFlush;
use indexstore::db::DBRow;

fn row(key: &[u8], value: &[u8]) -> DBRow {
    DBRow { key: key.to_vec(), value: value.to_vec() }
}

fn writable() -> Config {
    Config { read_only: false, light_mode: false }
}

fn fresh_db() -> DB {
    DB::open(None, &writable()).expect("fresh writable open must succeed")
}

#[test]
fn p1_durable_write_survives_restart() {
    let mut db = fresh_db();
    let batch = vec![row(b"k1", b"v1"), row(b"k2", b"v2"), row(b"k3", b"v3")];
    db.write(batch, DBFlush::Enable);
    let surviving = db.persisted_rows();
    drop(db);
    let db2 = DB::open(Some(surviving), &writable()).expect("reopen of surviving rows");
    assert_eq!(db2.get(b"k1"), Some(b"v1".to_vec()));
    assert_eq!(db2.get(b"k2"), Some(b"v2".to_vec()));
    assert_eq!(db2.get(b"k3"), Some(b"v3".to_vec()));
}

#[test]
fn p2_fast_write_visible_in_same_process() {
    let mut db = fresh_db();
    db.write(vec![row(b"f1", b"a"), row(b"f2", b"b")], DBFlush::Disable);
    assert_eq!(db.get(b"f1"), Some(b"a".to_vec()));
    assert_eq!(db.get(b"f2"), Some(b"b".to_vec()));
}

#[test]
fn p3_write_atomic_all_rows_visible() {
    let mut db = fresh_db();
    let keys: Vec<Vec<u8>> = (0..5).map(|i| format!("a{}", i).into_bytes()).collect();
    for k in &keys {
        assert_eq!(db.get(k), None);
    }
    let batch: Vec<DBRow> = keys.iter().map(|k| row(k, b"x")).collect();
    db.write(batch, DBFlush::Enable);
    for k in &keys {
        assert_eq!(db.get(k), Some(b"x".to_vec()));
    }
}

#[test]
fn p4_iter_scan_ascending_within_prefix() {
    let mut db = fresh_db();
    db.write(
        vec![
            row(b"b:1", b"vb1"),
            row(b"a:3", b"va3"),
            row(b"a:1", b"va1"),
            row(b"a:2", b"va2"),
        ],
        DBFlush::Disable,
    );
    let mut it = db.iter_scan(b"a:");
    let r1 = it.next().expect("first row");
    assert_eq!(r1.key, b"a:1".to_vec());
    assert_eq!(r1.value, b"va1".to_vec());
    let r2 = it.next().expect("second row");
    assert_eq!(r2.key, b"a:2".to_vec());
    assert_eq!(r2.value, b"va2".to_vec());
    let r3 = it.next().expect("third row");
    assert_eq!(r3.key, b"a:3".to_vec());
    assert_eq!(r3.value, b"va3".to_vec());
    assert!(it.next().is_none());
    // exhaustion latches: the cursor stays empty
    assert!(it.next().is_none());
}

#[test]
fn p4_iter_scan_skips_nothing() {
    let mut db = fresh_db();
    let mut expected: Vec<Vec<u8>> = Vec::new();
    for i in (0..50).rev() {
        let key = format!("p:{:03}", i).into_bytes();
        expected.push(key.clone());
        db.put(&key, b"v");
    }
    db.put(b"q:0", b"other");
    expected.sort();
    let mut it = db.iter_scan(b"p:");
    let mut seen: Vec<Vec<u8>> = Vec::new();
    while let Some(r) = it.next() {
        seen.push(r.key);
    }
    assert_eq!(seen, expected);
}

#[test]
fn p5_iter_scan_reverse_descending() {
    let mut db = fresh_db();
    db.write(
        vec![
            row(b"a:1", b"va1"),
            row(b"a:2", b"va2"),
            row(b"a:3", b"va3"),
            row(b"b:1", b"vb1"),
        ],
        DBFlush::Disable,
    );
    let mut it = db.iter_scan_reverse(b"a:", b"a:\xff");
    let r1 = it.next().expect("first row");
    assert_eq!(r1.key, b"a:3".to_vec());
    assert_eq!(r1.value, b"va3".to_vec());
    let r2 = it.next().expect("second row");
    assert_eq!(r2.key, b"a:2".to_vec());
    let r3 = it.next().expect("third row");
    assert_eq!(r3.key, b"a:1".to_vec());
    assert!(it.next().is_none());
    assert!(it.next().is_none());
}

#[test]
fn p5_reverse_includes_upper_bound_itself() {
    let mut db = fresh_db();
    db.write(vec![row(b"a:1", b"1"), row(b"a:2", b"2"), row(b"a:3", b"3")], DBFlush::Disable);
    let mut it = db.iter_scan_reverse(b"a:", b"a:2");
    assert_eq!(it.next().expect("bound row").key, b"a:2".to_vec());
    assert_eq!(it.next().expect("next down").key, b"a:1".to_vec());
    assert!(it.next().is_none());
}

#[test]
fn p5_reverse_empty_below_all_keys() {
    let mut db = fresh_db();
    db.write(vec![row(b"a:1", b"1")], DBFlush::Disable);
    let mut it = db.iter_scan_reverse(b"a:", b"a:0");
    assert!(it.next().is_none());
}

#[test]
fn p6_fresh_open_writes_matching_marker() {
    let db = fresh_db();
    // version 1, little endian, no light-mode byte
    assert_eq!(db.get(b"V"), Some(vec![1u8, 0, 0, 0]));
}

#[test]
fn p6_light_mode_marker_has_extra_byte() {
    let config = Config { read_only: false, light_mode: true };
    let db = DB::open(None, &config).expect("fresh light-mode open");
    assert_eq!(db.get(b"V"), Some(vec![1u8, 0, 0, 0, 1]));
}

#[test]
fn p6_second_open_same_config_succeeds() {
    let db = fresh_db();
    let surviving = db.persisted_rows();
    let db2 = DB::open(Some(surviving), &writable()).expect("same config must reopen");
    assert_eq!(db2.get(b"V"), Some(vec![1u8, 0, 0, 0]));
}

#[test]
fn p6_changed_config_is_rejected() {
    let db = fresh_db();
    let surviving = db.persisted_rows();
    let light = Config { read_only: false, light_mode: true };
    match DB::open(Some(surviving), &light) {
        Err(e) => assert_eq!(e, DBError::Incompatible),
        Ok(_) => panic!("a differing marker must be rejected"),
    }
}

#[test]
fn p7_read_only_mutations_are_noops() {
    let mut db = fresh_db();
    db.write(vec![row(b"k", b"old")], DBFlush::Enable);
    let surviving = db.persisted_rows();
    let ro = Config { read_only: true, light_mode: false };
    let mut rdb = DB::open(Some(surviving), &ro).expect("read-only open of existing rows");
    rdb.put(b"k", b"new");
    rdb.put(b"extra", b"x");
    rdb.put_sync(b"extra2", b"y");
    rdb.write(vec![row(b"k", b"batch"), row(b"extra3", b"z")], DBFlush::Enable);
    rdb.flush();
    rdb.full_compaction();
    rdb.enable_auto_compaction();
    assert_eq!(rdb.get(b"k"), Some(b"old".to_vec()));
    assert_eq!(rdb.get(b"extra"), None);
    assert_eq!(rdb.get(b"extra2"), None);
    assert_eq!(rdb.get(b"extra3"), None);
}

#[test]
fn p7_read_only_missing_directory_fails() {
    let ro = Config { read_only: true, light_mode: false };
    match DB::open(None, &ro) {
        Err(e) => assert_eq!(e, DBError::OpenFailed),
        Ok(_) => panic!("read-only open must not create a missing directory"),
    }
}

#[test]
fn p8_bulk_import_then_compaction_serves_all() {
    let mut db = fresh_db();
    for chunk in 0..10 {
        let mut batch = Vec::new();
        for i in 0..1000 {
            let n = chunk * 1000 + i;
            batch.push(row(format!("k:{:05}", n).as_bytes(), format!("v{}", n).as_bytes()));
        }
        db.write(batch, DBFlush::Disable);
    }
    db.enable_auto_compaction();
    db.full_compaction();
    for n in (0..10000).step_by(97) {
        let key = format!("k:{:05}", n).into_bytes();
        assert_eq!(db.get(&key), Some(format!("v{}", n).into_bytes()));
    }
    assert_eq!(db.get(b"k:00000"), Some(b"v0".to_vec()));
    assert_eq!(db.get(b"k:09999"), Some(b"v9999".to_vec()));
    assert_eq!(db.get(b"k:10000"), None);
}

#[test]
fn iter_scan_from_resumes_mid_prefix() {
    let mut db = fresh_db();
    db.write(
        vec![row(b"a:1", b"1"), row(b"a:2", b"2"), row(b"a:3", b"3"), row(b"b:1", b"4")],
        DBFlush::Disable,
    );
    let mut it = db.iter_scan_from(b"a:", b"a:2");
    assert_eq!(it.next().expect("resume point").key, b"a:2".to_vec());
    assert_eq!(it.next().expect("following row").key, b"a:3".to_vec());
    assert!(it.next().is_none());
}

#[test]
fn put_overwrites_previous_value() {
    let mut db = fresh_db();
    db.put(b"k", b"first");
    db.put(b"k", b"second");
    assert_eq!(db.get(b"k"), Some(b"second".to_vec()));
}

#[test]
fn get_absent_key_is_none_not_error() {
    let db = fresh_db();
    assert_eq!(db.get(b"no such key"), None);
}

#[test]
fn reopen_keeps_every_committed_row() {
    let mut db = fresh_db();
    db.put_sync(b"critical", b"c");
    db.put(b"buffered", b"b");
    db.write(vec![row(b"fastrow", b"f")], DBFlush::Disable);
    db.reopen().expect("reopen over a valid marker");
    assert_eq!(db.get(b"critical"), Some(b"c".to_vec()));
    assert_eq!(db.get(b"buffered"), Some(b"b".to_vec()));
    assert_eq!(db.get(b"fastrow"), Some(b"f".to_vec()));
    // the clean close persisted the buffered writes on the way
    let surviving = db.persisted_rows();
    let db2 = DB::open(Some(surviving), &writable()).expect("open of surviving rows");
    assert_eq!(db2.get(b"buffered"), Some(b"b".to_vec()));
    assert_eq!(db2.get(b"fastrow"), Some(b"f".to_vec()));
}

#[test]
fn unflushed_fast_write_does_not_survive_a_crash() {
    let mut db = fresh_db();
    db.put_sync(b"critical", b"c");
    db.write(vec![row(b"fastrow", b"f")], DBFlush::Disable);
    // a crash keeps only what was write-ahead-logged and fsynced
    let surviving = db.persisted_rows();
    drop(db);
    let db2 = DB::open(Some(surviving), &writable()).expect("open of surviving rows");
    assert_eq!(db2.get(b"critical"), Some(b"c".to_vec()));
    assert_eq!(db2.get(b"fastrow"), None);
}

#[test]
fn flush_makes_fast_writes_durable() {
    let mut db = fresh_db();
    db.write(vec![row(b"fast", b"f")], DBFlush::Disable);
    db.flush();
    db.reopen().expect("reopen over a valid marker");
    assert_eq!(db.get(b"fast"), Some(b"f".to_vec()));
}

#[test]
fn reopen_detects_corrupted_marker() {
    let mut db = fresh_db();
    db.write(vec![row(b"V", b"garbage")], DBFlush::Enable);
    match db.reopen() {
        Err(e) => assert_eq!(e, DBError::Incompatible),
        Ok(()) => panic!("a corrupted durable marker must be rejected on reopen"),
    }
}

#[test]
fn write_empty_batch_changes_nothing() {
    let mut db = fresh_db();
    db.put(b"k", b"v");
    db.write(Vec::new(), DBFlush::Enable);
    assert_eq!(db.get(b"k"), Some(b"v".to_vec()));
    assert_eq!(db.get(b"V"), Some(vec![1u8, 0, 0, 0]));
}

#[test]
fn write_duplicate_keys_last_row_wins() {
    let mut db = fresh_db();
    db.write(
        vec![row(b"dup", b"first"), row(b"other", b"o"), row(b"dup", b"last")],
        DBFlush::Enable,
    );
    assert_eq!(db.get(b"dup"), Some(b"last".to_vec()));
    assert_eq!(db.get(b"other"), Some(b"o".to_vec()));
}

#[test]
fn empty_prefix_scans_whole_store_ascending() {
    let mut db = fresh_db();
    db.write(vec![row(b"b", b"2"), row(b"a", b"1"), row(b"c", b"3")], DBFlush::Disable);
    let mut it = db.iter_scan(b"");
    let mut keys: Vec<Vec<u8>> = Vec::new();
    while let Some(r) = it.next() {
        keys.push(r.key);
    }
    // the compatibility marker "V" is a stored row like any other
    assert_eq!(keys, vec![b"V".to_vec(), b"a".to_vec(), b"b".to_vec(), b"c".to_vec()]);
}

#[test]
fn rows_compare_structurally() {
    assert_eq!(row(b"k", b"v"), row(b"k", b"v"));
    assert_ne!(row(b"k", b"v"), row(b"k", b"w"));
    assert_ne!(row(b"k", b"v"), row(b"j", b"v"));
}
