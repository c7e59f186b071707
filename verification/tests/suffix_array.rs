use sail::suffix_array::{DefaultSort, SuffixArray};
use sail::induced_sort::SaIs;

#[test]
fn lib_debug() {
    let s: Vec<char> = "safikkusuarei".chars().collect();
    let n = s.len();
    let sa_is = SaIs::new(s);
    for i in 0..n {
        println!("{:?}", sa_is.index(i));
    }
    println!("{:?}", sa_is.find("re"));
}

fn positions_by_rank(text: &str) -> Vec<usize> {
    // The suffix of rank k uniquely determines its start by its length.
    let s: Vec<char> = text.chars().collect();
    let n = s.len();
    let sa = SaIs::new(s);
    (0..n).map(|k| n - sa.index(k).len()).collect()
}

fn brute_positions(text: &str) -> Vec<usize> {
    let s: Vec<char> = text.chars().collect();
    let n = s.len();
    let mut order: Vec<usize> = (0..n).collect();
    order.sort_by(|&a, &b| s[a..].cmp(&s[b..]));
    order
}

#[test]
fn cross_check_with_reference() {
    for text in [
        "abracadabra",
        "mississippi",
        "banana",
        "aaaa",
        "abcabcabc",
        "zyxwvu",
        "aabaaab",
        "cacao",
        "a",
        "ab",
        "ba",
    ] {
        assert_eq!(positions_by_rank(text), brute_positions(text), "text: {}", text);
    }
}

#[test]
fn default_sort_agrees_with_induced_sort() {
    for text in ["abracadabra", "mississippi", "banana", "aaaa", "abcabc"] {
        let s1: Vec<char> = text.chars().collect();
        let s2: Vec<char> = text.chars().collect();
        let a = SuffixArray::<DefaultSort>::new(s1);
        let b = SaIs::new(s2);
        for k in 0..text.len() {
            assert_eq!(a.index(k), b.index(k));
        }
    }
}

#[test]
fn abracadabra_scenario() {
    let s: Vec<char> = "abracadabra".chars().collect();
    let sa = SaIs::new(s);
    assert_eq!(sa.len(), 11);
    // The five suffixes that start with 'a' come first.
    for k in 0..5 {
        assert_eq!(sa.index(k)[0], 'a');
    }
    for k in 5..11 {
        assert_ne!(sa.index(k)[0], 'a');
    }
    // "ra" occurs at 2 and at 9; the search must return one of them.
    let hit = sa.find("ra");
    assert!(hit == Some(2) || hit == Some(9));
    assert_eq!(sa.find("xyz"), None);
}

#[test]
fn repeated_character_scenario() {
    let s: Vec<char> = "aaaa".chars().collect();
    let n = s.len();
    let sa = SaIs::new(s);
    // Shorter all-'a' suffixes sort first: the order is n-1, ..., 1, 0.
    for k in 0..n {
        assert_eq!(n - sa.index(k).len(), n - 1 - k);
    }
}

#[test]
fn empty_text() {
    let s: Vec<char> = Vec::new();
    let sa = SaIs::new(s);
    assert_eq!(sa.len(), 0);
    assert_eq!(sa.find("a"), None);
    assert_eq!(sa.find(""), None);
}

#[test]
fn single_character_text() {
    let s: Vec<char> = "a".chars().collect();
    let sa = SaIs::new(s);
    assert_eq!(sa.len(), 1);
    assert_eq!(sa.index(0), &['a']);
    assert_eq!(sa.find("a"), Some(0));
    assert_eq!(sa.find("b"), None);
}

#[test]
fn search_finds_every_substring() {
    let text = "mississippi";
    let s: Vec<char> = text.chars().collect();
    let n = s.len();
    let sa = SaIs::new(s.clone());
    for i in 0..n {
        for j in i..=n {
            let pat: String = s[i..j].iter().collect();
            let hit = sa.find(&pat);
            match hit {
                Some(k) => {
                    assert!(k + pat.len() <= n);
                    let found: String = s[k..k + pat.len()].iter().collect();
                    assert_eq!(found, pat);
                }
                None => panic!("pattern {:?} not found", pat),
            }
        }
    }
    assert_eq!(sa.find("xyz"), None);
    assert_eq!(sa.find("ssb"), None);
    assert_eq!(sa.find("ippix"), None);
}

#[test]
fn find_returns_least_match() {
    let sa = SaIs::new("abracadabra".chars().collect());
    // Among the suffixes a pattern prefixes, the lexicographically least
    // one is returned.
    assert_eq!(sa.find("a"), Some(10));
    assert_eq!(sa.find("abra"), Some(7));
    assert_eq!(sa.find("ra"), Some(9));
    assert_eq!(sa.find("abracadabra"), Some(0));
}

#[test]
fn find_empty_pattern() {
    let sa = SaIs::new("abracadabra".chars().collect());
    // The empty pattern matches at the first position in sort order: the
    // shortest suffix "a".
    assert_eq!(sa.find(""), Some(10));
    let sb = SaIs::new("banana".chars().collect());
    assert_eq!(sb.find(""), Some(5));
}

#[test]
fn reconstruction_is_deterministic() {
    for text in ["abracadabra", "mississippi", "aaaa"] {
        let a = SaIs::new(text.chars().collect());
        let b = SaIs::new(text.chars().collect());
        for k in 0..text.len() {
            assert_eq!(a.index(k), b.index(k));
        }
    }
}

#[test]
fn suffix_view() {
    let s: Vec<char> = "banana".chars().collect();
    let sa = SaIs::new(s);
    assert_eq!(sa.suffix(0).len(), 6);
    let tail: String = sa.suffix(4).iter().collect();
    assert_eq!(tail, "na");
    assert_eq!(sa.suffix(6).len(), 0);
}
