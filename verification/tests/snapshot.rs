use indexstore::codec::decode_rows;
use indexstore::codec::encode_rows;
use indexstore::config::Config;
use indexstore::db::DB;
use indexstore::db::DBFlush;
use indexstore::db::DBRow;

fn row(key: &[u8], value: &[u8]) -> DBRow {
    DBRow { key: key.to_vec(), value: value.to_vec() }
}

#[test]
fn codec_round_trip_preserves_rows() {
    let rows = vec![row(b"", b""), row(b"a", b"1"), row(b"longer key", b"longer value")];
    let bytes = encode_rows(&rows);
    let back = decode_rows(&bytes).expect("an encoding must decode");
    assert_eq!(back, rows);
}

#[test]
fn codec_empty_table_is_empty_bytes() {
    let bytes = encode_rows(&Vec::new());
    assert_eq!(bytes, Vec::<u8>::new());
    let back = decode_rows(&bytes).expect("empty bytes are a valid snapshot");
    assert_eq!(back, Vec::new());
}

#[test]
fn codec_layout_is_length_prefixed_little_endian() {
    let bytes = encode_rows(&vec![row(b"ab", b"c")]);
    assert_eq!(
        bytes,
        vec![2, 0, 0, 0, 0, 0, 0, 0, b'a', b'b', 1, 0, 0, 0, 0, 0, 0, 0, b'c']
    );
}

#[test]
fn codec_rejects_malformed_bytes() {
    // stray bytes that are not a whole record
    assert_eq!(decode_rows(&[1, 2, 3, 4]), None);
    // a valid encoding with its last byte cut off
    let mut bytes = encode_rows(&vec![row(b"key", b"value")]);
    bytes.pop();
    assert_eq!(decode_rows(&bytes), None);
    // a length prefix pointing past the end
    assert_eq!(decode_rows(&[255, 0, 0, 0, 0, 0, 0, 0, b'x']), None);
}

#[test]
fn snapshot_of_store_reopens_identically() {
    let config = Config { read_only: false, light_mode: false };
    let mut db = DB::open(None, &config).expect("fresh open");
    db.write(vec![row(b"h:1", b"x"), row(b"h:2", b"y")], DBFlush::Enable);
    let bytes = encode_rows(&db.persisted_rows());
    drop(db);
    let surviving = decode_rows(&bytes).expect("a snapshot must decode");
    let db2 = DB::open(Some(surviving), &config).expect("open of decoded snapshot");
    assert_eq!(db2.get(b"h:1"), Some(b"x".to_vec()));
    assert_eq!(db2.get(b"h:2"), Some(b"y".to_vec()));
    assert_eq!(db2.get(b"V"), Some(vec![1u8, 0, 0, 0]));
}
