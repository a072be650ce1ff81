use prime_ledger::store::{bytes_equal, Partition};

#[test]
fn put_then_get() {
    let mut p = Partition::new();
    assert_eq!(p.len(), 0);
    assert_eq!(p.get(b"a"), None);
    p.put(b"a".to_vec(), b"1".to_vec());
    p.put(b"b".to_vec(), b"2".to_vec());
    assert_eq!(p.get(b"a"), Some(&b"1".to_vec()));
    assert_eq!(p.get(b"b"), Some(&b"2".to_vec()));
    assert_eq!(p.get(b"c"), None);
    assert_eq!(p.len(), 2);
}

#[test]
fn put_replaces_the_value() {
    let mut p = Partition::new();
    p.put(b"k".to_vec(), b"1".to_vec());
    p.put(b"other".to_vec(), b"x".to_vec());
    p.put(b"k".to_vec(), b"2".to_vec());
    assert_eq!(p.get(b"k"), Some(&b"2".to_vec()));
    assert_eq!(p.get(b"other"), Some(&b"x".to_vec()));
    assert_eq!(p.len(), 2);
}

#[test]
fn byte_strings_compare_by_content() {
    assert!(bytes_equal(b"", b""));
    assert!(bytes_equal(b"1:3", b"1:3"));
    assert!(!bytes_equal(b"1:3", b"1:30"));
    assert!(!bytes_equal(b"1:3", b"3:1"));
    assert!(!bytes_equal(b"", b"0"));
}
