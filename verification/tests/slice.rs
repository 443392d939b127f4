use kvcore::slice::Slice;
use std::cmp::Ordering;

#[test]
fn construction_and_size() {
    let s = Slice::new(b"abc".to_vec());
    assert_eq!(s.size(), 3);
    assert!(!s.empty());
    assert_eq!(s.slice_data(), b"abc");

    let e = Slice::new_empty();
    assert_eq!(e.size(), 0);
    assert!(e.empty());

    let t = Slice::new_from_string("hello".to_string());
    assert_eq!(t.slice_data(), b"hello");
    assert_eq!(t.to_string(), "hello");
}

#[test]
fn clear_and_remove_prefix() {
    let mut s = Slice::new(b"abcdef".to_vec());
    s.remove_prefix(2);
    assert_eq!(s.slice_data(), b"cdef");
    s.remove_prefix(4);
    assert!(s.empty());

    let mut t = Slice::new(b"xyz".to_vec());
    t.clear();
    assert_eq!(t.size(), 0);
}

#[test]
fn starts_with() {
    let s = Slice::new(b"hello world".to_vec());
    assert!(s.starts_with(&Slice::new(b"hello".to_vec())));
    assert!(s.starts_with(&Slice::new_empty()));
    assert!(s.starts_with(&Slice::new(b"hello world".to_vec())));
    assert!(!s.starts_with(&Slice::new(b"world".to_vec())));
    assert!(!s.starts_with(&Slice::new(b"hello world!".to_vec())));
}

#[test]
fn compare() {
    let a = Slice::new(b"abc".to_vec());
    let b = Slice::new(b"abd".to_vec());
    let ab = Slice::new(b"ab".to_vec());
    assert_eq!(a.compare(&b), Ordering::Less);
    assert_eq!(b.compare(&a), Ordering::Greater);
    assert_eq!(a.compare(&a), Ordering::Equal);
    assert_eq!(ab.compare(&a), Ordering::Less);
    assert_eq!(a.compare(&ab), Ordering::Greater);
    assert_eq!(Slice::new_empty().compare(&Slice::new_empty()), Ordering::Equal);
    assert_eq!(Slice::new_empty().compare(&a), Ordering::Less);
}

#[test]
fn equality_and_clone() {
    let a = Slice::new(b"key".to_vec());
    let b = Slice::new(b"key".to_vec());
    let c = Slice::new(b"other".to_vec());
    assert!(a == b);
    assert!(a != c);
    let d = a.clone();
    assert!(d == a);
}
