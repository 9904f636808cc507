use std::cmp::Ordering;

use bufdb::comparator::IDXComparator;
use bufdb::comparator::KeyComparator;
use bufdb::comparator::PKComparator;
use bufdb::entry::BufferEntry;
use bufdb::error::ErrorKind;
use bufdb::suffix::append_suffix;

fn entry(bytes: &[u8]) -> BufferEntry {
    BufferEntry::from_vec(bytes.to_vec())
}

#[test]
fn test_pk_comparator() {
    let c = PKComparator;
    assert_eq!(Ordering::Less, c.compare(&entry(b"ab"), &entry(b"ac")).unwrap());
    assert_eq!(Ordering::Less, c.compare(&entry(b"ab"), &entry(b"abc")).unwrap());
    assert_eq!(Ordering::Equal, c.compare(&entry(b"ab"), &entry(b"ab")).unwrap());
    assert_eq!(Ordering::Greater, c.compare(&entry(b"b"), &entry(b"ab")).unwrap());
}

#[test]
fn test_idx_comparator_orders_high_ordinals_first() {
    let c = IDXComparator;
    let k1 = append_suffix(entry(b"x"), 1).unwrap();
    let k2 = append_suffix(entry(b"x"), 2).unwrap();
    let probe = append_suffix(entry(b"x"), 0).unwrap();
    let other = append_suffix(entry(b"y"), 1).unwrap();

    // Higher ordinals come first within a group.
    assert_eq!(Ordering::Less, c.compare(&k2, &k1).unwrap());
    // The zero ordinal is the seek sentinel at the group's head.
    assert_eq!(Ordering::Less, c.compare(&probe, &k2).unwrap());
    // Prefixes dominate.
    assert_eq!(Ordering::Less, c.compare(&k1, &other).unwrap());
    assert_eq!(Ordering::Equal, c.compare(&k1, &k1).unwrap());
}

#[test]
fn test_idx_comparator_rejects_bad_suffix() {
    let c = IDXComparator;
    let k1 = append_suffix(entry(b"x"), 1).unwrap();
    let e = c.compare(&BufferEntry::empty(), &k1).unwrap_err();
    assert!(matches!(e.inner, ErrorKind::OutOfBounds));
}

#[test]
fn test_phantom_error_message() {
    let p = bufdb::error::PhantomError::from_str("engine closed");
    assert_eq!(Some(String::from("engine closed")), p.message);
    let e = bufdb::error::Error::new_datatype_err();
    assert!(matches!(e.kind(), ErrorKind::DataType));
}
