use kvs::order::{compare_bytes, compare_keys};
use kvs::KvStore;
use std::cmp::Ordering;

fn s(x: &str) -> String {
    x.to_owned()
}

#[test]
fn compare_bytes_cases() {
    assert_eq!(compare_bytes(b"", b""), Ordering::Equal);
    assert_eq!(compare_bytes(b"", b"a"), Ordering::Less);
    assert_eq!(compare_bytes(b"a", b""), Ordering::Greater);
    assert_eq!(compare_bytes(b"ab", b"b"), Ordering::Less);
    assert_eq!(compare_bytes(b"abc", b"abd"), Ordering::Less);
    assert_eq!(compare_bytes(b"abd", b"abc"), Ordering::Greater);
    assert_eq!(compare_bytes(b"ab", b"abc"), Ordering::Less);
    assert_eq!(compare_bytes(b"abc", b"abc"), Ordering::Equal);
}

#[test]
fn compare_keys_matches_string_order() {
    let keys = ["", "a", "ab", "b", "z", "é", "éa", "\u{1F600}", "Z", "0"];
    for a in keys.iter() {
        for b in keys.iter() {
            assert_eq!(compare_keys(&s(a), &s(b)), a.cmp(b), "{} vs {}", a, b);
        }
    }
}

#[test]
fn saved_entries_are_in_key_order() {
    let mut store = KvStore::new();
    store.set(s("b"), s("2")).unwrap();
    store.set(s("a"), s("1")).unwrap();
    let expected: Vec<u8> = vec![
        0x6b, 0x76, 0x73, 0x01, //
        1, 0, 0, 0, 0, 0, 0, 0, b'a', 1, 0, 0, 0, 0, 0, 0, 0, b'1', //
        1, 0, 0, 0, 0, 0, 0, 0, b'b', 1, 0, 0, 0, 0, 0, 0, 0, b'2',
    ];
    assert_eq!(store.to_bytes(), expected);
}

#[test]
fn open_accepts_entries_in_any_order() {
    let bytes: Vec<u8> = vec![
        0x6b, 0x76, 0x73, 0x01, //
        1, 0, 0, 0, 0, 0, 0, 0, b'b', 1, 0, 0, 0, 0, 0, 0, 0, b'2', //
        1, 0, 0, 0, 0, 0, 0, 0, b'a', 1, 0, 0, 0, 0, 0, 0, 0, b'1',
    ];
    let store = KvStore::open(Some(&bytes)).unwrap();
    assert_eq!(store.get(s("a")), Ok(Some(s("1"))));
    assert_eq!(store.get(s("b")), Ok(Some(s("2"))));
    let mut sorted = bytes[..4].to_vec();
    sorted.extend_from_slice(&bytes[22..]);
    sorted.extend_from_slice(&bytes[4..22]);
    assert_eq!(store.to_bytes(), sorted);
}

#[test]
fn many_keys_set_get_remove() {
    let mut store = KvStore::new();
    for i in 0..200u32 {
        let k = format!("key{}", (i * 37) % 200);
        store.set(k, format!("v{}", i)).unwrap();
    }
    for i in 0..200u32 {
        let k = format!("key{}", (i * 37) % 200);
        assert_eq!(store.get(k), Ok(Some(format!("v{}", i))));
    }
    for i in (0..200u32).step_by(2) {
        assert_eq!(store.remove(format!("key{}", i)), Ok(s("removed")));
    }
    for i in 0..200u32 {
        let got = store.get(format!("key{}", i)).unwrap();
        assert_eq!(got.is_some(), i % 2 == 1);
    }
    let reopened = KvStore::open(Some(&store.to_bytes())).unwrap();
    for i in 0..200u32 {
        assert_eq!(reopened.get(format!("key{}", i)), store.get(format!("key{}", i)));
    }
}
