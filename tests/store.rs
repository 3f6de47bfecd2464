use kvs::codec::{decode, read_text, write_text};
use kvs::{KvStore, KvsError};

fn s(x: &str) -> String {
    x.to_owned()
}

#[test]
fn scenario_set_get_remove() {
    let mut store = KvStore::new();
    assert_eq!(store.set(s("key1"), s("value1")), Ok(()));
    assert_eq!(store.get(s("key1")), Ok(Some(s("value1"))));
    assert_eq!(store.remove(s("key1")), Ok(s("removed")));
    assert_eq!(store.get(s("key1")), Ok(None));
    assert_eq!(store.remove(s("key1")), Err(KvsError::KeyNotFound));
}

#[test]
fn get_after_set_returns_value() {
    let mut store = KvStore::new();
    store.set(s("a"), s("1")).unwrap();
    store.set(s("b"), s("2")).unwrap();
    assert_eq!(store.get(s("a")), Ok(Some(s("1"))));
    assert_eq!(store.get(s("b")), Ok(Some(s("2"))));
}

#[test]
fn get_before_set_is_absent() {
    let mut store = KvStore::new();
    assert_eq!(store.get(s("k")), Ok(None));
    store.set(s("other"), s("v")).unwrap();
    assert_eq!(store.get(s("k")), Ok(None));
    store.remove(s("other")).unwrap();
    assert_eq!(store.get(s("k")), Ok(None));
}

#[test]
fn overwrite_gives_new_value() {
    let mut store = KvStore::new();
    store.set(s("k"), s("v1")).unwrap();
    store.set(s("k"), s("v2")).unwrap();
    store.set(s("x"), s("y")).unwrap();
    assert_eq!(store.get(s("k")), Ok(Some(s("v2"))));
    assert_eq!(store.get(s("x")), Ok(Some(s("y"))));
}

#[test]
fn remove_absent_key_is_not_found() {
    let mut store = KvStore::new();
    assert_eq!(store.remove(s("nope")), Err(KvsError::KeyNotFound));
    store.set(s("k"), s("v")).unwrap();
    assert_eq!(store.remove(s("nope")), Err(KvsError::KeyNotFound));
    assert_eq!(store.get(s("k")), Ok(Some(s("v"))));
}

#[test]
fn remove_present_key_then_absent() {
    let mut store = KvStore::new();
    store.set(s("a"), s("1")).unwrap();
    store.set(s("b"), s("2")).unwrap();
    store.set(s("c"), s("3")).unwrap();
    assert_eq!(store.remove(s("b")), Ok(s("removed")));
    assert_eq!(store.get(s("b")), Ok(None));
    assert_eq!(store.get(s("a")), Ok(Some(s("1"))));
    assert_eq!(store.get(s("c")), Ok(Some(s("3"))));
}

#[test]
fn empty_key_and_value() {
    let mut store = KvStore::new();
    store.set(s(""), s("")).unwrap();
    assert_eq!(store.get(s("")), Ok(Some(s(""))));
    let reopened = KvStore::open(Some(&store.to_bytes())).unwrap();
    assert_eq!(reopened.get(s("")), Ok(Some(s(""))));
}

#[test]
fn open_nothing_saved_is_empty() {
    let store = KvStore::open(None).unwrap();
    assert_eq!(store.get(s("key1")), Ok(None));
}

#[test]
fn reopen_round_trip() {
    let mut store = KvStore::new();
    store.set(s("alpha"), s("1")).unwrap();
    store.set(s("beta"), s("two")).unwrap();
    store.set(s("gamma"), s("héllo wörld")).unwrap();
    store.set(s("alpha"), s("one")).unwrap();
    let bytes = store.to_bytes();
    let reopened = KvStore::open(Some(&bytes)).unwrap();
    assert_eq!(reopened.get(s("alpha")), Ok(Some(s("one"))));
    assert_eq!(reopened.get(s("beta")), Ok(Some(s("two"))));
    assert_eq!(reopened.get(s("gamma")), Ok(Some(s("héllo wörld"))));
    assert_eq!(reopened.get(s("delta")), Ok(None));
    assert_eq!(reopened.to_bytes(), bytes);
}

#[test]
fn empty_store_bytes() {
    let store = KvStore::new();
    assert_eq!(store.to_bytes(), vec![0x6b, 0x76, 0x73, 0x01]);
    let reopened = KvStore::open(Some(&[0x6b, 0x76, 0x73, 0x01])).unwrap();
    assert_eq!(reopened.get(s("a")), Ok(None));
}

#[test]
fn saved_bytes_layout() {
    let mut store = KvStore::new();
    store.set(s("a"), s("é")).unwrap();
    let expected: Vec<u8> = vec![
        0x6b, 0x76, 0x73, 0x01, //
        1, 0, 0, 0, 0, 0, 0, 0, b'a', //
        2, 0, 0, 0, 0, 0, 0, 0, 0xc3, 0xa9,
    ];
    assert_eq!(store.to_bytes(), expected);
}

#[test]
fn open_rejects_foreign_format() {
    assert_eq!(KvStore::open(Some(b"hello world")).err(), Some(KvsError::CorruptedStore));
    assert_eq!(KvStore::open(Some(&[])).err(), Some(KvsError::CorruptedStore));
    assert_eq!(KvStore::open(Some(&[0x6b, 0x76, 0x73])).err(), Some(KvsError::CorruptedStore));
}

#[test]
fn open_rejects_truncated_record() {
    let mut store = KvStore::new();
    store.set(s("key"), s("value")).unwrap();
    let bytes = store.to_bytes();
    for cut in 5..bytes.len() {
        assert_eq!(
            KvStore::open(Some(&bytes[..cut])).err(),
            Some(KvsError::CorruptedStore),
            "cut at {}",
            cut
        );
    }
}

#[test]
fn open_rejects_invalid_utf8() {
    let bytes: Vec<u8> = vec![
        0x6b, 0x76, 0x73, 0x01, //
        1, 0, 0, 0, 0, 0, 0, 0, 0xff, //
        1, 0, 0, 0, 0, 0, 0, 0, b'v',
    ];
    assert_eq!(KvStore::open(Some(&bytes)).err(), Some(KvsError::CorruptedStore));
}

#[test]
fn open_rejects_repeated_key() {
    let bytes: Vec<u8> = vec![
        0x6b, 0x76, 0x73, 0x01, //
        1, 0, 0, 0, 0, 0, 0, 0, b'k', 1, 0, 0, 0, 0, 0, 0, 0, b'1', //
        1, 0, 0, 0, 0, 0, 0, 0, b'k', 1, 0, 0, 0, 0, 0, 0, 0, b'2',
    ];
    assert_eq!(KvStore::open(Some(&bytes)).err(), Some(KvsError::CorruptedStore));
    let entries = decode(&bytes).unwrap();
    assert_eq!(entries, vec![(s("k"), s("1")), (s("k"), s("2"))]);
}

#[test]
fn open_rejects_huge_length() {
    let bytes: Vec<u8> = vec![
        0x6b, 0x76, 0x73, 0x01, //
        0xff, 0xff, 0xff, 0xff, 0xff, 0xff, 0xff, 0xff, b'k',
    ];
    assert_eq!(KvStore::open(Some(&bytes)).err(), Some(KvsError::CorruptedStore));
}

#[test]
fn text_write_and_read() {
    let mut out: Vec<u8> = vec![9];
    write_text(&mut out, &s("hé"));
    assert_eq!(out, vec![9, 3, 0, 0, 0, 0, 0, 0, 0, b'h', 0xc3, 0xa9]);
    assert_eq!(read_text(&out, 1), Some((s("hé"), 12)));
    assert_eq!(read_text(&out, 0), None);
}

#[test]
fn error_messages() {
    assert_eq!(KvsError::KeyNotFound.message(), "key not found");
    assert_eq!(KvsError::CorruptedStore.message(), "stored data is not a valid store");
    assert_eq!(KvsError::Io.message(), "durable storage is unreachable or unwritable");
}

#[test]
fn default_is_empty() {
    let store = KvStore::default();
    assert_eq!(store.get(s("key1")), Ok(None));
    assert_eq!(store.to_bytes(), KvStore::new().to_bytes());
}
