use poolwords::chunker::{chunk, render_segment, MESSAGE_CAP_BYTES};
use poolwords::letters::LetterMultiset;
use poolwords::matching::{get_word_difference, MatchPolicy};
use poolwords::scanner::{scan, RequestError, ScanError, SearchRequest};

fn bytes(s: &str) -> Vec<u8> {
    s.as_bytes().to_vec()
}

fn words(ws: &[&str]) -> Vec<Vec<u8>> {
    ws.iter().map(|w| bytes(w)).collect()
}

fn request(pool: &str, min: usize, max: usize, policy: MatchPolicy) -> SearchRequest {
    SearchRequest::new(bytes(pool), min, max, policy, bytes("words")).unwrap()
}

#[test]
fn exact_subset_example_scan() {
    let req = request("aabbccx", 4, 7, MatchPolicy::ExactSubset);
    let text = bytes("abc\nabcc\naabbcc\nxx\nab");
    let result = scan(&req, Some(&text)).unwrap();
    assert_eq!(result, words(&["abcc", "aabbcc"]));
}

#[test]
fn bounded_difference_deficits() {
    let pool = LetterMultiset::build(&bytes("cat"));
    let cats = LetterMultiset::build(&bytes("cats"));
    let cards = LetterMultiset::build(&bytes("cards"));
    assert_eq!(get_word_difference(&pool, &cats), 1);
    assert_eq!(get_word_difference(&pool, &cards), 3);
    let policy = MatchPolicy::BoundedDifference { max_excess: 1 };
    assert!(poolwords::matching::matches(&pool, &cats, &policy));
    assert!(!poolwords::matching::matches(&pool, &cards, &policy));
}

#[test]
fn bounded_zero_agrees_with_exact_subset() {
    let pool = LetterMultiset::build(&bytes("aabbccx"));
    let zero = MatchPolicy::BoundedDifference { max_excess: 0 };
    for cand in ["abcc", "aabbcc", "xx", "abd", ""] {
        let cm = LetterMultiset::build(&bytes(cand));
        assert_eq!(
            poolwords::matching::matches(&pool, &cm, &zero),
            poolwords::matching::matches(&pool, &cm, &MatchPolicy::ExactSubset),
        );
    }
}

#[test]
fn bounded_difference_monotonic_in_allowance() {
    let pool = LetterMultiset::build(&bytes("cat"));
    let cand = LetterMultiset::build(&bytes("cards"));
    let d = get_word_difference(&pool, &cand);
    assert_eq!(d, 3);
    for k in 0..5usize {
        let hit = poolwords::matching::matches(
            &pool,
            &cand,
            &MatchPolicy::BoundedDifference { max_excess: k },
        );
        assert_eq!(hit, k >= d);
    }
}

#[test]
fn exact_subset_per_letter_counts() {
    let pool = LetterMultiset::build(&bytes("aab"));
    let ok = LetterMultiset::build(&bytes("aba"));
    let too_many = LetterMultiset::build(&bytes("aaab"));
    let absent = LetterMultiset::build(&bytes("abz"));
    assert!(poolwords::matching::matches(&pool, &ok, &MatchPolicy::ExactSubset));
    assert!(!poolwords::matching::matches(&pool, &too_many, &MatchPolicy::ExactSubset));
    assert!(!poolwords::matching::matches(&pool, &absent, &MatchPolicy::ExactSubset));
}

#[test]
fn matching_lowercases_ascii() {
    let pool = LetterMultiset::build(&bytes("CAT"));
    let cand = LetterMultiset::build(&bytes("tac"));
    assert!(poolwords::matching::matches(&pool, &cand, &MatchPolicy::ExactSubset));
}

#[test]
fn scan_sorts_by_length_then_lexicographic() {
    let req = request("zzyyxxww", 1, 8, MatchPolicy::BoundedDifference { max_excess: 100 });
    let text = bytes("bb\nc\naa\nccc\na\nbbb");
    let result = scan(&req, Some(&text)).unwrap();
    assert_eq!(result, words(&["a", "c", "aa", "bb", "bbb", "ccc"]));
}

#[test]
fn scan_keeps_duplicates() {
    let req = request("abc", 1, 3, MatchPolicy::ExactSubset);
    let text = bytes("ab\nab\nc");
    let result = scan(&req, Some(&text)).unwrap();
    assert_eq!(result, words(&["c", "ab", "ab"]));
}

#[test]
fn scan_skips_blank_lines_and_lowercases() {
    let req = request("AABBCCX", 2, 7, MatchPolicy::ExactSubset);
    let text = bytes("AbCc\n\n   \n\t\nXA");
    let result = scan(&req, Some(&text)).unwrap();
    assert_eq!(result, words(&["xa", "abcc"]));
}

#[test]
fn scan_applies_length_bounds_inclusively() {
    let req = request("aaaaaaaa", 2, 3, MatchPolicy::ExactSubset);
    let text = bytes("a\naa\naaa\naaaa");
    let result = scan(&req, Some(&text)).unwrap();
    assert_eq!(result, words(&["aa", "aaa"]));
}

#[test]
fn scan_of_empty_text_is_empty() {
    let req = request("abc", 1, 5, MatchPolicy::ExactSubset);
    let text = bytes("");
    let result = scan(&req, Some(&text)).unwrap();
    assert_eq!(result, words(&[]));
}

#[test]
fn scan_without_dictionary_fails() {
    let req = request("abc", 1, 5, MatchPolicy::ExactSubset);
    let err = scan(&req, None).unwrap_err();
    assert_eq!(err, ScanError::DictionaryNotFound);
}

#[test]
fn request_rejects_empty_pool_word() {
    let err = SearchRequest::new(bytes(""), 1, 5, MatchPolicy::ExactSubset, bytes("words"))
        .unwrap_err();
    assert_eq!(err, RequestError::EmptyPoolWord);
}

#[test]
fn request_rejects_zero_minimum() {
    let err = SearchRequest::new(bytes("abc"), 0, 5, MatchPolicy::ExactSubset, bytes("words"))
        .unwrap_err();
    assert_eq!(err, RequestError::InvalidBounds);
}

#[test]
fn request_rejects_crossed_bounds() {
    let err = SearchRequest::new(bytes("abc"), 6, 5, MatchPolicy::ExactSubset, bytes("words"))
        .unwrap_err();
    assert_eq!(err, RequestError::InvalidBounds);
}

#[test]
fn chunk_carries_overflow_forward() {
    // Costs run 3, 6, 9 against a cap of 6: the second word already reaches
    // the cap, opens the second segment with no carry, and lands there.
    let segments = chunk(words(&["aa", "bb", "cc"]), 6);
    assert_eq!(segments, vec![words(&["aa"]), words(&["bb", "cc"])]);
}

#[test]
fn chunk_reduces_by_cap_not_to_zero() {
    // Costs 5 and 4 against a cap of 7: the second word brings the counter to
    // 9, which carries 2 forward into the new segment.
    let segments = chunk(words(&["word", "abc", "ab"]), 7);
    assert_eq!(segments, vec![words(&["word"]), words(&["abc", "ab"])]);
}

#[test]
fn chunk_concatenation_restores_input() {
    let input = words(&["aa", "bb", "cc", "dd", "ee", "f", "ggg"]);
    let segments = chunk(input.clone(), 8);
    let flat: Vec<Vec<u8>> = segments.into_iter().flatten().collect();
    assert_eq!(flat, input);
}

#[test]
fn chunk_of_empty_input_is_one_empty_segment() {
    let segments = chunk(words(&[]), 500);
    assert_eq!(segments, vec![words(&[])]);
}

#[test]
fn chunk_segments_render_nonempty() {
    let input = words(&["aaa", "bb", "c", "dddd", "ee"]);
    let segments = chunk(input, 5);
    assert!(segments.len() > 1);
    for seg in &segments {
        assert!(!render_segment(seg).is_empty());
    }
}

#[test]
fn render_joins_with_single_spaces() {
    assert_eq!(render_segment(&words(&["aa", "bb", "c"])), bytes("aa bb c"));
    assert_eq!(render_segment(&words(&["aa"])), bytes("aa"));
    assert_eq!(render_segment(&words(&[])), bytes(""));
}

#[test]
fn carriage_returns_stay_in_lines() {
    // Lines split on the newline byte alone: a carriage return stays in its
    // line and counts toward its length and letters.
    let req = request("abcd", 2, 3, MatchPolicy::BoundedDifference { max_excess: 1 });
    let text = bytes("AB\r\ncd");
    let result = scan(&req, Some(&text)).unwrap();
    assert_eq!(result, vec![bytes("cd"), bytes("ab\r")]);
}

#[test]
fn pipeline_under_default_cap() {
    let req = request("aabbccx", 2, 6, MatchPolicy::ExactSubset);
    let text = bytes("ab\nba\ncab\nabcc\nxx");
    let result = scan(&req, Some(&text)).unwrap();
    assert_eq!(result, words(&["ab", "ba", "cab", "abcc"]));
    let segments = chunk(result, MESSAGE_CAP_BYTES);
    assert_eq!(segments.len(), 1);
    assert_eq!(render_segment(&segments[0]), bytes("ab ba cab abcc"));
}
