use shiritori::codec::IndexError;
use shiritori::codec::decode_index;
use shiritori::codec::encode_index;
use shiritori::fuzzy_index::FuzzyIndex;
use shiritori::fuzzy_index::MatchMode;

fn sample_index(words: &[&str]) -> FuzzyIndex {
    let mut idx = FuzzyIndex::new();
    for w in words {
        idx.add_word(w.to_string());
    }
    idx
}

fn sorted(mut v: Vec<String>) -> Vec<String> {
    v.sort();
    v
}

#[test]
fn round_trip_preserves_all_search_results() {
    let idx = sample_index(&["cat", "cats", "dog"]);
    let bytes = encode_index(&idx);
    let back = decode_index(&bytes).expect("decoding an encoding must succeed");
    for query in ["cat", "cats", "dog", "dot", "", "ca"] {
        for k in 0..3usize {
            assert_eq!(
                sorted(idx.search_fuzzy(query, k)),
                sorted(back.search_fuzzy(query, k)),
                "fuzzy {:?} within {}",
                query,
                k
            );
        }
        for mode in [MatchMode::Exact, MatchMode::Prefix, MatchMode::Suffix, MatchMode::Substring]
        {
            assert_eq!(
                sorted(idx.search_match(query, mode)),
                sorted(back.search_match(query, mode)),
                "match {:?}",
                query
            );
        }
    }
}

#[test]
fn round_trip_of_empty_index() {
    let idx = FuzzyIndex::new();
    let bytes = encode_index(&idx);
    assert_eq!(bytes, Vec::<u8>::new());
    let back = decode_index(&bytes).expect("an empty file is an empty index");
    assert_eq!(back.search_fuzzy("x", 5), Vec::<String>::new());
}

#[test]
fn round_trip_keeps_unicode_words() {
    let idx = sample_index(&["しりとり", "りんご", "ごりら"]);
    let bytes = encode_index(&idx);
    let back = decode_index(&bytes).expect("decoding an encoding must succeed");
    assert!(back.contains_word("しりとり"));
    assert!(back.contains_word("りんご"));
    assert!(back.contains_word("ごりら"));
    assert!(!back.contains_word("らっぱ"));
}

#[test]
fn truncated_file_is_rejected() {
    let idx = sample_index(&["cat"]);
    let mut bytes = encode_index(&idx);
    bytes.pop();
    assert!(matches!(decode_index(&bytes), Err(IndexError::Decode)));
}

#[test]
fn garbage_file_is_rejected() {
    let bytes = vec![1u8, 2, 3];
    assert!(matches!(decode_index(&bytes), Err(IndexError::Decode)));
}

#[test]
fn file_with_invalid_character_code_is_rejected() {
    // one word of one character whose code is a surrogate, not a
    // Unicode scalar value
    let mut bytes = vec![1u8, 0, 0, 0, 0, 0, 0, 0];
    bytes.extend_from_slice(&0xD800u32.to_le_bytes());
    assert!(matches!(decode_index(&bytes), Err(IndexError::Decode)));
}

#[test]
fn trailing_bytes_are_rejected() {
    let idx = sample_index(&["cat"]);
    let mut bytes = encode_index(&idx);
    bytes.push(0);
    assert!(matches!(decode_index(&bytes), Err(IndexError::Decode)));
}
