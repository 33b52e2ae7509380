use minspan::minspan::is_subsequence;
use minspan::minspan::span;

#[test]
fn test_minimal_match() {
    // Helper to convert string slices to Vec<char> and call span
    let run_span = |needle: &str, haystack: &str| {
        let query: Vec<char> = needle.chars().collect();
        let history: Vec<char> = haystack.chars().collect();
        span(&query, &history)
    };

    // Helper to get span length or None
    let get_span_len =
        |needle: &str, haystack: &str| run_span(needle, haystack).map(|(from, to)| 1 + to - from);

    assert_eq!(get_span_len("ab", "ab"), Some(2));
    assert_eq!(get_span_len("a", "ab"), Some(1));
    assert_eq!(get_span_len("ab", "abc"), Some(2));
    assert_eq!(get_span_len("abc", "abcd"), Some(3));
    assert_eq!(get_span_len("curl", "curly"), Some(4));
    assert_eq!(get_span_len("curl", "acccccurlycurrelly"), Some(4));
    assert_eq!(get_span_len("z", "acccccurlycurrelly"), None);
    assert_eq!(get_span_len("ssh", "testssh"), Some(3));
    assert_eq!(get_span_len("aba", "abababa"), Some(3));
    assert_eq!(run_span("", "abc"), Some((0, 0))); // Empty query
    assert_eq!(run_span("a", ""), None); // Empty history
    assert_eq!(run_span("", ""), None); // Both empty
}

#[test]
fn test_is_subsequence_consumes_main_seq() {
    let sub: Vec<char> = vec!['a', 'a', 'a'];
    let main_seq: Vec<char> = vec!['a', 'a'];
    assert!(
        !is_subsequence(&sub, &main_seq),
        "is_subsequence should return false when main_seq is consumed before sub is fully matched"
    );

    let sub_ok: Vec<char> = vec!['a', 'a'];
    let main_seq_ok: Vec<char> = vec!['a', 'a', 'a'];
    assert!(
        is_subsequence(&sub_ok, &main_seq_ok),
        "is_subsequence should return true when sub is shorter or equal and matches"
    );

    let sub_diff: Vec<char> = vec!['a', 'b'];
    let main_seq_diff: Vec<char> = vec!['a', 'a'];
    assert!(
        !is_subsequence(&sub_diff, &main_seq_diff),
        "is_subsequence should return false for non-matching elements"
    );
}

#[test]
fn test_exact_indices() {
    let run_span = |needle: &str, haystack: &str| {
        let query: Vec<char> = needle.chars().collect();
        let history: Vec<char> = haystack.chars().collect();
        span(&query, &history)
    };

    // the shortest occurrence of "curl" sits at positions 5..=8
    assert_eq!(run_span("curl", "acccccurlycurrelly"), Some((5, 8)));
    // a whole-history match
    assert_eq!(run_span("ab", "ab"), Some((0, 1)));
    // a single element is found at its first position
    assert_eq!(run_span("a", "ab"), Some((0, 0)));
    // the later, tighter occurrence wins over the earlier, wider one
    assert_eq!(run_span("ab", "axxxbab"), Some((5, 6)));
}

#[test]
fn test_tie_break_keeps_first_window() {
    let run_span = |needle: &str, haystack: &str| {
        let query: Vec<char> = needle.chars().collect();
        let history: Vec<char> = haystack.chars().collect();
        span(&query, &history)
    };

    // two minimal windows: (0, 1) and (2, 3); the scan finds (0, 1) first
    assert_eq!(run_span("ab", "abab"), Some((0, 1)));
    // three minimal windows for a repeated pattern; again the first is kept
    assert_eq!(run_span("aba", "abababa"), Some((0, 2)));
}

#[test]
fn test_repeated_elements_use_distinct_positions() {
    let run_span = |needle: &str, haystack: &str| {
        let query: Vec<char> = needle.chars().collect();
        let history: Vec<char> = haystack.chars().collect();
        span(&query, &history)
    };

    // one 'a' in history cannot serve two query positions
    assert_eq!(run_span("aa", "a"), None);
    assert_eq!(run_span("aa", "aba"), Some((0, 2)));
    assert_eq!(run_span("aa", "aab"), Some((0, 1)));
}

#[test]
fn test_integer_elements() {
    let query: Vec<u64> = vec![3, 5];
    let history: Vec<u64> = vec![3, 1, 3, 5, 2];
    assert_eq!(span(&query, &history), Some((2, 3)));

    let missing: Vec<u64> = vec![7];
    assert_eq!(span(&missing, &history), None);
}

#[test]
fn test_is_subsequence_edges() {
    let empty: Vec<u64> = Vec::new();
    let some: Vec<u64> = vec![1, 2, 3];
    assert!(is_subsequence(&empty, &empty));
    assert!(is_subsequence(&empty, &some));
    assert!(!is_subsequence(&some, &empty));
    assert!(is_subsequence(&some, &some));

    let sparse: Vec<u64> = vec![0, 1, 0, 2, 0, 3, 0];
    assert!(is_subsequence(&some, &sparse));

    let reordered: Vec<u64> = vec![3, 2, 1];
    assert!(!is_subsequence(&some, &reordered));
}
