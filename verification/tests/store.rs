use bytes::Bytes;
use resp_kv::store::{Store, StoredValue};

fn entry(v: &'static [u8], expiry: Option<u128>) -> StoredValue {
    StoredValue { value: Bytes::from_static(v), expiry }
}

#[test]
fn new_store_is_empty() {
    let s = Store::new();
    assert_eq!(s.len(), 0);
    assert!(!s.contains_key(b"k"));
    assert!(s.get(b"k").is_none());
    assert!(!s.contains_key(b""));
}

#[test]
fn insert_then_get() {
    let mut s = Store::new();
    s.insert(Bytes::from_static(b"k"), entry(b"v", Some(9)));
    let got = s.get(b"k").unwrap();
    assert_eq!(&got.value[..], b"v");
    assert_eq!(got.expiry, Some(9));
    assert_eq!(s.len(), 1);
}

#[test]
fn insert_replaces() {
    let mut s = Store::new();
    s.insert(Bytes::from_static(b"k"), entry(b"one", Some(9)));
    s.insert(Bytes::from(b"k".to_vec()), entry(b"two", None));
    assert_eq!(s.len(), 1);
    let got = s.get(b"k").unwrap();
    assert_eq!(&got.value[..], b"two");
    assert_eq!(got.expiry, None);
}

#[test]
fn keys_are_compared_by_bytes() {
    let mut s = Store::new();
    s.insert(Bytes::from_static(b""), entry(b"empty", None));
    s.insert(Bytes::from_static(b"a"), entry(b"1", None));
    s.insert(Bytes::from_static(b"ab"), entry(b"2", None));
    s.insert(Bytes::from_static(b"A"), entry(b"3", None));
    s.insert(Bytes::from_static(b"a\0"), entry(b"4", None));
    assert_eq!(s.len(), 5);
    assert_eq!(&s.get(b"").unwrap().value[..], b"empty");
    assert_eq!(&s.get(b"a").unwrap().value[..], b"1");
    assert_eq!(&s.get(b"ab").unwrap().value[..], b"2");
    assert_eq!(&s.get(b"A").unwrap().value[..], b"3");
    assert_eq!(&s.get(b"a\0").unwrap().value[..], b"4");
    assert!(s.get(b"b").is_none());
}

#[test]
fn remove_takes_one_key() {
    let mut s = Store::new();
    for k in [&b"a"[..], b"b", b"c", b"d"] {
        s.insert(Bytes::copy_from_slice(k), entry(b"v", None));
    }
    s.remove(b"b");
    assert_eq!(s.len(), 3);
    assert!(!s.contains_key(b"b"));
    for k in [&b"a"[..], b"c", b"d"] {
        assert!(s.contains_key(k));
    }
    s.remove(b"a");
    s.remove(b"d");
    assert_eq!(s.len(), 1);
    assert!(s.contains_key(b"c"));
}

#[test]
fn remove_of_absent_key_changes_nothing() {
    let mut s = Store::new();
    s.insert(Bytes::from_static(b"a"), entry(b"v", None));
    s.remove(b"zz");
    assert_eq!(s.len(), 1);
    assert!(s.contains_key(b"a"));
    let mut empty = Store::new();
    empty.remove(b"a");
    assert_eq!(empty.len(), 0);
}

#[test]
fn many_keys() {
    let mut s = Store::new();
    for i in 0..200u32 {
        s.insert(Bytes::from(i.to_string().into_bytes()), entry(b"v", Some(i as u128)));
    }
    assert_eq!(s.len(), 200);
    for i in 0..200u32 {
        assert_eq!(s.get(i.to_string().as_bytes()).unwrap().expiry, Some(i as u128));
    }
    for i in (0..200u32).step_by(2) {
        s.remove(i.to_string().as_bytes());
    }
    assert_eq!(s.len(), 100);
    for i in 0..200u32 {
        assert_eq!(s.contains_key(i.to_string().as_bytes()), i % 2 == 1);
    }
}
