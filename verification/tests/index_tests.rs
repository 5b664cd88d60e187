use shiritori::distance::levenshtein;
use shiritori::fuzzy_index::FuzzyIndex;
use shiritori::fuzzy_index::MatchMode;
use shiritori::fuzzy_index::SearchOptions;
use shiritori::fuzzy_index::default_find;
use shiritori::fuzzy_index::find_words;

fn sample_index(words: &[&str]) -> FuzzyIndex {
    let mut idx = FuzzyIndex::new();
    for w in words {
        idx.add_word(w.to_string());
    }
    idx
}

fn sorted(mut v: Vec<String>) -> Vec<String> {
    v.sort();
    v
}

#[test]
fn fuzzy_matches_brute_force() {
    let words = ["book", "books", "cake", "boo", "boon", "cook", "cape", "cart"];
    let idx = sample_index(&words);
    for query in ["book", "ca", "book", "", "zzz"] {
        for k in 0..4usize {
            let got = sorted(idx.search_fuzzy(query, k));
            let want: Vec<String> = {
                let mut v: Vec<String> = words
                    .iter()
                    .filter(|w| levenshtein(query, w) <= k)
                    .map(|w| w.to_string())
                    .collect();
                v.sort();
                v
            };
            assert_eq!(got, want, "query {:?} within {}", query, k);
        }
    }
}

#[test]
fn fuzzy_search_returns_each_word_once() {
    let idx = sample_index(&["cat", "cats", "dog"]);
    let got = idx.search_fuzzy("cat", 1);
    assert_eq!(sorted(got), vec!["cat".to_string(), "cats".to_string()]);
}

#[test]
fn duplicate_insertion_is_rejected() {
    let mut idx = FuzzyIndex::new();
    idx.add_word("cat".to_string());
    idx.add_word("cat".to_string());
    idx.add_word("cat".to_string());
    assert_eq!(idx.search_fuzzy("cat", 0), vec!["cat".to_string()]);
    assert_eq!(idx.search_match("cat", MatchMode::Exact), vec!["cat".to_string()]);
}

#[test]
fn match_modes_select_expected_words() {
    let idx = sample_index(&["apple", "grape", "applesauce", "pineapple", "leap"]);
    assert_eq!(sorted(idx.search_match("apple", MatchMode::Exact)), vec!["apple".to_string()]);
    assert_eq!(
        sorted(idx.search_match("apple", MatchMode::Prefix)),
        vec!["apple".to_string(), "applesauce".to_string()]
    );
    assert_eq!(
        sorted(idx.search_match("apple", MatchMode::Suffix)),
        vec!["apple".to_string(), "pineapple".to_string()]
    );
    assert_eq!(
        sorted(idx.search_match("apple", MatchMode::Substring)),
        vec!["apple".to_string(), "applesauce".to_string(), "pineapple".to_string()]
    );
    assert_eq!(sorted(idx.search_match("ap", MatchMode::Suffix)), vec!["leap".to_string()]);
    assert_eq!(idx.search_match("zzz", MatchMode::Substring), Vec::<String>::new());
}

#[test]
fn empty_index_answers_nothing() {
    let idx = FuzzyIndex::new();
    assert_eq!(idx.search_fuzzy("anything", 10), Vec::<String>::new());
    assert_eq!(idx.search_match("", MatchMode::Prefix), Vec::<String>::new());
}

#[test]
fn contains_word_follows_the_metric_branch() {
    let idx = sample_index(&["cat", "cats", "dog", "door"]);
    assert!(idx.contains_word("cat"));
    assert!(idx.contains_word("door"));
    assert!(!idx.contains_word("doors"));
    assert!(!idx.contains_word(""));
}

#[test]
fn add_words_reports_only_new_words() {
    let mut idx = sample_index(&["cat"]);
    let batch = vec![
        "cat".to_string(),
        "dog".to_string(),
        "dog".to_string(),
        "bird".to_string(),
    ];
    let added = idx.add_words(&batch);
    assert_eq!(sorted(added), vec!["bird".to_string(), "dog".to_string()]);
    assert!(idx.contains_word("bird"));
    let again = idx.add_words(&batch);
    assert_eq!(again, Vec::<String>::new());
}

#[test]
fn find_words_merges_without_repeats() {
    let idx = sample_index(&["cat", "cats", "concatenate", "dog"]);
    let options = SearchOptions {
        fuzzy_distance: Some(1),
        match_mode: Some(MatchMode::Substring),
    };
    // "cat" answers both passes but appears once
    let got = sorted(find_words(&idx, "cat", &options));
    assert_eq!(
        got,
        vec!["cat".to_string(), "cats".to_string(), "concatenate".to_string()]
    );
}

#[test]
fn find_words_with_no_passes_is_empty() {
    let idx = sample_index(&["cat"]);
    let options = SearchOptions { fuzzy_distance: None, match_mode: None };
    assert_eq!(find_words(&idx, "cat", &options), Vec::<String>::new());
}

#[test]
fn default_find_uses_quarter_distance_and_substring() {
    let idx = sample_index(&["sunflower", "sunflowers", "sun", "flower"]);
    // query of 9 characters: distance bound 2, plus substring matches
    let got = sorted(default_find(&idx, "sunflower"));
    assert_eq!(got, vec!["sunflower".to_string(), "sunflowers".to_string()]);
}

#[test]
fn fuzzy_search_handles_multibyte_words() {
    let idx = sample_index(&["しりとり", "しりと", "りんご"]);
    assert_eq!(
        sorted(idx.search_fuzzy("しりとり", 1)),
        vec!["しりと".to_string(), "しりとり".to_string()]
    );
    assert_eq!(idx.search_fuzzy("りんご", 0), vec!["りんご".to_string()]);
}
