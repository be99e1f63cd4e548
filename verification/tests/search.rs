use zipfr::WordAnalyzer;
use zipfr::search::compute_search_results;

fn table() -> Vec<zipfr::WordCount> {
    let mut analyzer = WordAnalyzer::new();
    analyzer.analyze(vec![
        "the".to_string(),
        "the".to_string(),
        "theory".to_string(),
        "lathe".to_string(),
        "dog".to_string(),
    ])
}

#[test]
fn test_empty_query_yields_no_results() {
    let t = table();
    let results = compute_search_results(&String::new(), &t);
    assert!(results.is_empty());
}

#[test]
fn test_whole_word_query_is_top_scored() {
    let t = table();
    // ranked: the(2) at index 0, then theory, lathe, dog (count 1 each)
    let results = compute_search_results(&"THE".to_string(), &t);
    // "the", "theory" and "lathe" match; "dog" does not
    assert_eq!(results.len(), 3);
    // "the" and "theory" both match at position zero; "the" has the smaller
    // index, so it comes first; "lathe" matches at position two and comes last
    assert_eq!(results[0], 0);
    assert_eq!(t[results[0]].word, "the");
    assert_eq!(t[results[1]].word, "theory");
    assert_eq!(t[results[2]].word, "lathe");
}

#[test]
fn test_scores_order_by_match_position() {
    let mut analyzer = WordAnalyzer::new();
    let t = analyzer.analyze(vec!["xxab".to_string(), "xabx".to_string(), "abxx".to_string()]);
    let results = compute_search_results(&"ab".to_string(), &t);
    assert_eq!(results.len(), 3);
    assert_eq!(t[results[0]].word, "abxx");
    assert_eq!(t[results[1]].word, "xabx");
    assert_eq!(t[results[2]].word, "xxab");
}

#[test]
fn test_no_match_query() {
    let t = table();
    let results = compute_search_results(&"zebra".to_string(), &t);
    assert!(results.is_empty());
}
