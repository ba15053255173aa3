use backup_stream::keys::{key_less, KeySet};
use backup_stream::segments::SegmentSet;

fn range(start: &[u8], end: &[u8]) -> (Vec<u8>, Vec<u8>) {
    (start.to_vec(), end.to_vec())
}

#[test]
fn keys_are_in_lexicographic_order() {
    let keys: [&[u8]; 6] = [b"", b"\x00", b"a", b"aa", b"b", b"\xff"];
    for (i, a) in keys.iter().enumerate() {
        for (j, b) in keys.iter().enumerate() {
            assert_eq!(key_less(a, b), i < j);
        }
    }
}

#[test]
fn a_key_set_holds_each_key_once() {
    let mut set = KeySet::new();
    assert!(set.is_empty());
    assert!(!set.remove(b"a"));
    for key in [b"c", b"a", b"b", b"a"] {
        set.insert(key.to_vec());
    }
    assert!(!set.is_empty());
    for key in [b"a", b"b", b"c"] {
        assert!(set.remove(key));
        assert!(!set.remove(key));
    }
    assert!(set.is_empty());
    set.insert(b"z".to_vec());
    set.clear();
    assert!(set.is_empty());
}

#[test]
fn overlapping_ranges_are_refused() {
    let mut set = SegmentSet::default();
    assert!(!set.is_overlapping((b"a", b"z")));
    assert!(set.add(range(b"b", b"d")));
    assert!(!set.add(range(b"b", b"d")));
    assert!(!set.add(range(b"a", b"z")));
    assert!(!set.add(range(b"c", b"ca")));
    assert!(set.add(range(b"d", b"e")));
    assert!(set.add(range(b"a", b"b")));
    assert!(set.is_overlapping((b"ca", b"cb")));
    assert!(set.is_overlapping((b"", b"z")));
    assert!(!set.is_overlapping((b"e", b"f")));
    assert!(!set.is_overlapping((b"", b"a")));
}

#[test]
fn an_empty_end_overlaps_with_all_that_follows() {
    let mut set = SegmentSet::default();
    assert!(!set.is_overlapping_from(b"", b""));
    assert!(set.add(range(b"b", b"d")));
    assert!(set.is_overlapping_from(b"", b""));
    assert!(set.is_overlapping_from(b"c", b""));
    assert!(!set.is_overlapping_from(b"d", b""));
    for (start, end) in [(b"a", b"b"), (b"a", b"c"), (b"c", b"e"), (b"d", b"e")] {
        assert_eq!(
            set.is_overlapping_from(start, end),
            set.is_overlapping((start, end))
        );
    }
}
