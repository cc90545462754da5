use crud_demo_backend::id::{Id, ALPHABET_LEN};
use std::collections::HashSet;

const ALPHABET: &str = "ABCDEFGHIJKLMNOPQRSTUVWXYZabcdefghijklmnopqrstuvwxyz0123456789";

#[test]
fn token_of_seed_zero() {
    assert_eq!(
        Id::new(0).as_str(),
        "AAAAAAAAAAAAAAAAAAAAAAAAAAAAAAAAAAAAAAAAAAAAAAAAAAAAAAAAAAAAAA"
    );
}

#[test]
fn token_of_small_seeds() {
    assert_eq!(
        Id::new(1).as_str(),
        "BAAAAAAAAAAAAAAAAAAAAAAAAAAAAAAABAAAAAAAAAAAAAAAAAAAAAAAAAAAAA"
    );
    assert_eq!(
        Id::new(62).as_str(),
        "APDAAAAAAAAAAAAAAAAAAAAAAAAAAAAAAPDAAAAAAAAAAAAAAAAAAAAAAAAAAA"
    );
    assert_eq!(
        Id::new(256).as_str(),
        "ACQEBAAAAAAAAAAAAAAAAAAAAAAAAAAAACQEBAAAAAAAAAAAAAAAAAAAAAAAAA"
    );
}

#[test]
fn token_of_large_seeds() {
    assert_eq!(
        Id::new(u64::MAX).as_str(),
        "HHHHHHHHHHHHHHHHHHHHHHHHHHHHHBPDHHHHHHHHHHHHHHHHHHHHHHHHHHHHHB"
    );
    assert_eq!(
        Id::new(0x0123_4567_89ab_cdef).as_str(),
        "19k3T5CzvsemNo6ipbYVHX0RjKSEBAAA19k3T5CzvsemNo6ipbYVHX0RjKSEBA"
    );
    assert_eq!(
        Id::new(1_700_000_000_000_000_000).as_str(),
        "AAAAAEksqOke2RpAGBV1gt7gbr7gXFBAAAAAAEksqOke2RpAGBV1gt7gbr7gXF"
    );
}

#[test]
fn token_matches_the_formula_position_by_position() {
    let alphabet: Vec<char> = ALPHABET.chars().collect();
    for seed in [5u64, 0xdead_beef, 1 << 63, 0x00ff_00ff_00ff_00ff, 987_654_321_987] {
        let expected: String = (0..62)
            .map(|i| alphabet[(((seed >> ((i * 2) % 64)) & 0xff) % 62) as usize])
            .collect();
        assert_eq!(Id::new(seed).as_str(), expected);
    }
}

#[test]
fn token_has_the_length_of_the_alphabet() {
    assert_eq!(ALPHABET_LEN, 62);
    assert_eq!(ALPHABET.len(), ALPHABET_LEN);
    for seed in [0u64, 1, 42, u64::MAX, 1 << 40] {
        let id = Id::new(seed);
        assert_eq!(id.as_str().chars().count(), ALPHABET_LEN);
        assert!(id.as_str().chars().all(|c| c.is_ascii_alphanumeric()));
    }
}

#[test]
fn same_seed_gives_the_same_identifier() {
    assert_eq!(Id::new(123_456_789), Id::new(123_456_789));
    assert_eq!(
        Id::new(123_456_789).as_str(),
        Id::new(123_456_789).as_str()
    );
}

#[test]
fn nearby_seeds_give_different_identifiers() {
    let mut seen = HashSet::new();
    for seed in 1_700_000_000_000_000_000u64..1_700_000_000_000_001_000 {
        assert!(seen.insert(Id::new(seed)));
    }
}

#[test]
fn identifier_from_text_keeps_the_text() {
    let id = Id::from("abc".to_string());
    assert_eq!(id.as_str(), "abc");
    assert_eq!(id.to_string(), "abc".to_string());
    assert_eq!(Id::from(String::new()).as_str(), "");
}

#[test]
fn identifiers_compare_as_their_text() {
    let a = Id::from("abc".to_string());
    let b = Id::from("abd".to_string());
    assert_eq!(a, a.clone());
    assert_eq!(a, Id::from("abc".to_string()));
    assert_ne!(a, b);
    assert!(a < b);
    assert!(Id::from("B".to_string()) < Id::from("a".to_string()));
    assert!(Id::from("ab".to_string()) < a);
    assert_eq!(a.clone().max(b.clone()), b);
}

#[test]
fn equal_identifiers_hash_alike() {
    let mut set = HashSet::new();
    assert!(set.insert(Id::new(9)));
    assert!(!set.insert(Id::new(9)));
    assert!(set.contains(&Id::from(Id::new(9).to_string())));
}

#[test]
fn debug_shows_the_text() {
    assert!(format!("{:?}", Id::from("abc".to_string())).contains("abc"));
}
