use crud_demo_backend::id::Id;
use crud_demo_backend::text_order::{compare_bytes, Place};
use std::cmp::Ordering;

#[test]
fn equal_byte_strings_stand_at_the_same_place() {
    assert_eq!(compare_bytes(b"", b""), Place::Same);
    assert_eq!(compare_bytes(b"abc", b"abc"), Place::Same);
    assert_eq!(compare_bytes(&[0, 255], &[0, 255]), Place::Same);
}

#[test]
fn first_difference_decides() {
    assert_eq!(compare_bytes(b"abc", b"abd"), Place::Before);
    assert_eq!(compare_bytes(b"abd", b"abc"), Place::After);
    assert_eq!(compare_bytes(b"b", b"abc"), Place::After);
    assert_eq!(compare_bytes(b"azzz", b"b"), Place::Before);
    assert_eq!(compare_bytes(&[1, 127], &[1, 128]), Place::Before);
    assert_eq!(compare_bytes(&[255], &[0, 0]), Place::After);
}

#[test]
fn a_proper_prefix_comes_first() {
    assert_eq!(compare_bytes(b"", b"a"), Place::Before);
    assert_eq!(compare_bytes(b"a", b""), Place::After);
    assert_eq!(compare_bytes(b"ab", b"abc"), Place::Before);
    assert_eq!(compare_bytes(b"abc", b"ab"), Place::After);
    assert_eq!(compare_bytes(b"ab", &[b'a', b'b', 0]), Place::Before);
}

#[test]
fn comparison_agrees_with_the_order_of_slices() {
    let samples: [&[u8]; 8] = [b"", b"a", b"ab", b"abc", b"abd", b"b", &[0], &[200, 1]];
    for a in samples {
        for b in samples {
            let expected = match a.cmp(b) {
                Ordering::Less => Place::Before,
                Ordering::Equal => Place::Same,
                Ordering::Greater => Place::After,
            };
            assert_eq!(compare_bytes(a, b), expected);
        }
    }
}

#[test]
fn identifiers_are_ordered_as_their_texts() {
    let texts = ["", "A", "AB", "B", "a", "ab", "b", "z", "\u{e9}", "\u{e9}a", "\u{2603}", "0"];
    for a in texts {
        for b in texts {
            let x = Id::from(a.to_string());
            let y = Id::from(b.to_string());
            assert_eq!(x.partial_cmp(&y), Some(a.cmp(b)));
            assert_eq!(x.cmp(&y), a.cmp(b));
            assert_eq!(x < y, a < b);
            assert_eq!(x == y, a == b);
        }
    }
}

#[test]
fn generated_identifiers_are_ordered_as_their_texts() {
    let a = Id::new(1);
    let b = Id::new(2);
    assert_eq!(a.partial_cmp(&b), Some(Ordering::Less));
    assert_eq!(b.partial_cmp(&a), Some(Ordering::Greater));
    assert_eq!(a.partial_cmp(&Id::new(1)), Some(Ordering::Equal));
    assert!(Id::new(62) < Id::new(1));
}
