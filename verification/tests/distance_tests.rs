use shiritori::distance::levenshtein;

#[test]
fn lev_identical_words() {
    assert_eq!(levenshtein("abc", "abc"), 0);
    assert_eq!(levenshtein("", ""), 0);
}

#[test]
fn lev_empty_sides() {
    assert_eq!(levenshtein("", "abc"), 3);
    assert_eq!(levenshtein("abc", ""), 3);
}

#[test]
fn lev_classic_pairs() {
    assert_eq!(levenshtein("kitten", "sitting"), 3);
    assert_eq!(levenshtein("flaw", "lawn"), 2);
    assert_eq!(levenshtein("cat", "cats"), 1);
    assert_eq!(levenshtein("cat", "dog"), 3);
}

#[test]
fn lev_is_symmetric_on_samples() {
    let pairs = [("kitten", "sitting"), ("apple", "ample"), ("", "xyz")];
    for (a, b) in pairs {
        assert_eq!(levenshtein(a, b), levenshtein(b, a));
    }
}

#[test]
fn lev_counts_characters_not_bytes() {
    // multi-byte characters count once each
    assert_eq!(levenshtein("しりとり", "しりと"), 1);
    assert_eq!(levenshtein("りんご", "りんごあめ"), 2);
}
