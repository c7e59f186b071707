use sail::rolling_hash::RollingHashDefault;

#[test]
fn debug() {
    let s: Vec<char> = String::from("abracadabra").chars().collect();
    let h = RollingHashDefault::new(s);
    assert_eq!(h.hash(0..4), h.hash(7..11));
}

#[test]
fn equal_substrings_hash_equal() {
    let s: Vec<char> = "abracadabra".chars().collect();
    let h = RollingHashDefault::new(s);
    assert_eq!(h.len(), 11);
    // "abra" at 0 and at 7.
    assert!(h.is_same(0..4, 7..11));
    // A substring always equals itself.
    assert!(h.is_same(2..6, 2..6));
    assert_eq!(h.hash(3..3), h.hash(8..8));
}

#[test]
fn different_lengths_are_never_same() {
    let s: Vec<char> = "abracadabra".chars().collect();
    let h = RollingHashDefault::new(s);
    assert!(!h.is_same(0..4, 0..5));
    assert!(!h.is_same(0..0, 0..1));
}

#[test]
fn unequal_substrings_differ() {
    let s: Vec<char> = "abcdefgh".chars().collect();
    let h = RollingHashDefault::new(s);
    // All substrings of a text with pairwise distinct characters differ.
    for i in 0..8 {
        for j in 0..8 {
            if i != j {
                assert!(!h.is_same(i..i + 1, j..j + 1));
            }
        }
    }
}
