use sail::atkin::SieveOfAtkin;
use sail::comb::CombTable;
use sail::counter::Counter;
use sail::induced_sort::{classify, lms_positions, sa_is, LS};
use sail::output::{polar_question, yn, Yn, YN};
use sail::suffix_order::check_suffix_array;

#[test]
fn comb_table_values() {
    let t = CombTable::<1000000007>::new(10);
    assert_eq!(t.factorial(0), 1);
    assert_eq!(t.factorial(5), 120);
    assert_eq!(t.factorial(10), 3628800);
    assert_eq!(t.permutation(5, 2), 20);
    assert_eq!(t.combination(10, 3), 120);
    assert_eq!(t.binomial(6, 3), 20);
    assert_eq!(t.combination(10, 0), 1);
    assert_eq!(t.combination(10, 10), 1);
}

#[test]
fn comb_table_inverse_really_inverts() {
    // With a prime modulus, inv(k!) * k! must reduce to 1.
    let m: u64 = 1000000007;
    let t = CombTable::<1000000007>::new(8);
    for k in 0..=8usize {
        let prod = (t.factorial(k) as u128) * (t.factorial_inversed(k) as u128) % (m as u128);
        assert_eq!(prod, 1);
    }
}

#[test]
fn sieve_of_atkin_small() {
    let sieve = SieveOfAtkin::new(100);
    assert_eq!(sieve.limit(), 100);
    let expected = vec![
        2usize, 3, 5, 7, 11, 13, 17, 19, 23, 29, 31, 37, 41, 43, 47, 53, 59, 61, 67, 71, 73, 79,
        83, 89, 97,
    ];
    assert_eq!(sieve.primes(), &expected);
    assert!(sieve.is_prime(2));
    assert!(sieve.is_prime(97));
    assert!(!sieve.is_prime(0));
    assert!(!sieve.is_prime(1));
    assert!(!sieve.is_prime(91));
    assert!(!sieve.is_prime(100));
}

#[test]
fn sieve_of_atkin_tiny_limit() {
    let sieve = SieveOfAtkin::new(5);
    assert_eq!(sieve.primes(), &vec![2usize, 3, 5]);
}

#[test]
fn counter_basics() {
    let mut c: Counter<&str> = Counter::new();
    assert!(c.is_empty());
    assert_eq!(c.len(), 0);
    c.0.push(("foo", 2));
    c.0.push(("bar", 1));
    assert_eq!(c.len(), 2);
    assert!(!c.is_empty());
    let pairs = c.iter();
    assert_eq!(pairs[0], ("foo", 2));
    assert_eq!(pairs[1], ("bar", 1));
    c.clear();
    assert!(c.is_empty());
    let d: Counter<u32> = Default::default();
    assert!(d.is_empty());
}

#[test]
fn counter_counts() {
    let mut c: Counter<&str> = Counter::new();
    assert_eq!(c.get(&"foo"), 0);
    c.increment("foo");
    assert_eq!(c.get(&"foo"), 1);
    c.increment("foo");
    assert_eq!(c.get(&"foo"), 2);
    c.increment("bar");
    assert_eq!(c.get(&"foo"), 2);
    assert_eq!(c.get(&"bar"), 1);
    assert_eq!(c.get(&"baz"), 0);
    assert_eq!(c.len(), 2);
}

#[test]
fn answer_strings() {
    assert_eq!(yn(true), "yes");
    assert_eq!(yn(false), "no");
    assert_eq!(Yn(true), "Yes");
    assert_eq!(Yn(false), "No");
    assert_eq!(YN(true), "YES");
    assert_eq!(YN(false), "NO");
    assert_eq!(polar_question(true, "Alice".to_owned(), "Bob".to_owned()), "Alice");
    assert_eq!(polar_question(false, "Alice".to_owned(), "Bob".to_owned()), "Bob");
}

#[test]
fn checker_accepts_only_the_suffix_array() {
    // "banana" as codes; its suffix array is [5, 3, 1, 0, 4, 2].
    let s: Vec<u32> = "banana".chars().map(|c| c as u32).collect();
    assert!(check_suffix_array(&s, &vec![5, 3, 1, 0, 4, 2]));
    // Wrong order, duplicate entry, wrong length, out-of-range entry.
    assert!(!check_suffix_array(&s, &vec![3, 5, 1, 0, 4, 2]));
    assert!(!check_suffix_array(&s, &vec![5, 3, 1, 0, 4, 4]));
    assert!(!check_suffix_array(&s, &vec![5, 3, 1, 0, 4]));
    assert!(!check_suffix_array(&s, &vec![5, 3, 1, 0, 4, 6]));
}

#[test]
fn classification_of_banana() {
    let s: Vec<u32> = "banana".chars().map(|c| c as u32).collect();
    let ty = classify(&s);
    assert_eq!(ty, vec![LS::L, LS::LMS, LS::L, LS::LMS, LS::L, LS::L]);
    assert!(ty[1].is_lms() && ty[1].is_s() && !ty[1].is_l());
    assert!(ty[0].is_l() && !ty[0].is_s() && !ty[0].is_lms());
    let rep = lms_positions(&s, &ty);
    assert_eq!(rep, vec![1, 3]);
}

#[test]
fn driver_matches_checker() {
    for text in ["banana", "abracadabra", "aaaa", "x"] {
        let s: Vec<u32> = text.chars().map(|c| c as u32).collect();
        let cand = sa_is(&s, 0x110000);
        assert!(check_suffix_array(&s, &cand), "text: {}", text);
    }
}
