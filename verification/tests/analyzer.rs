use zipfr::{WordAnalyzer, TagMatcher};
use zipfr::analyzer::TagDef;

fn scenario_tokens() -> Vec<String> {
    vec![
        "the".to_string(),
        "quick".to_string(),
        "brown".to_string(),
        "fox".to_string(),
        "jumps".to_string(),
        "over".to_string(),
        "the".to_string(),
        "lazy".to_string(),
        "dog".to_string(),
        "the".to_string(),
    ]
}

#[test]
fn test_word_analysis() {
    let mut analyzer = WordAnalyzer::new();
    let words = vec![
        "the".to_string(),
        "quick".to_string(),
        "brown".to_string(),
        "fox".to_string(),
        "jumps".to_string(),
        "over".to_string(),
        "the".to_string(),
        "lazy".to_string(),
        "dog".to_string(),
        "the".to_string(),
    ];

    let results = analyzer.analyze(words);

    assert_eq!(results[0].word, "the");
    assert_eq!(results[0].count, 3);
    assert_eq!(results[0].rank, 1);
    assert!(results[0].tags.is_empty()); // No tags when no TagMatcher

    assert_eq!(analyzer.total_words(), 10);
    assert_eq!(analyzer.unique_words(), 8);
}

#[test]
fn test_full_ranked_table() {
    let mut analyzer = WordAnalyzer::new();
    let results = analyzer.analyze(scenario_tokens());

    assert_eq!(results.len(), 8);
    assert_eq!(results[0].word, "the");
    assert_eq!(results[0].count, 3);
    assert_eq!(results[0].rank, 1);
    // seven other distinct words, each of count one, at ranks 2 through 8
    for (i, wc) in results.iter().enumerate().skip(1) {
        assert_eq!(wc.count, 1);
        assert_eq!(wc.rank, i + 1);
    }
    // ranks are a permutation of 1..=8 with counts non-increasing
    let mut ranks: Vec<usize> = results.iter().map(|wc| wc.rank).collect();
    ranks.sort();
    assert_eq!(ranks, (1..=8).collect::<Vec<usize>>());
    for w in results.windows(2) {
        assert!(w[0].count >= w[1].count);
    }
    assert_eq!(analyzer.total_words(), 10);
    assert_eq!(analyzer.unique_words(), 8);
}

#[test]
fn test_ties_break_by_first_occurrence() {
    let mut analyzer = WordAnalyzer::new();
    let words = vec![
        "bee".to_string(),
        "ant".to_string(),
        "bee".to_string(),
        "ant".to_string(),
        "cat".to_string(),
    ];
    let results = analyzer.analyze(words);
    assert_eq!(results[0].word, "bee");
    assert_eq!(results[0].count, 2);
    assert_eq!(results[1].word, "ant");
    assert_eq!(results[1].count, 2);
    assert_eq!(results[2].word, "cat");
    assert_eq!(results[2].count, 1);
}

#[test]
fn test_tag_matcher_lookup_is_case_insensitive() {
    let defs = vec![TagDef {
        name: "Stop Words".to_string(),
        color: Some("gray".to_string()),
        description: None,
        words: vec!["THE".to_string(), "a".to_string()],
    }];
    let matcher = TagMatcher::from_entries(defs);

    assert_eq!(matcher.available_tags().len(), 1);
    assert_eq!(matcher.available_tags()[0].name, "Stop Words");

    let tags = matcher.get_tags("The");
    assert_eq!(tags.len(), 1);
    assert_eq!(tags[0].name, "Stop Words");

    assert!(matcher.get_tags("dog").is_empty());
    assert!(matcher.get_tag_by_name("Stop Words").is_some());
    assert!(matcher.get_tag_by_name("Rare Words").is_none());
}

#[test]
fn test_analyzer_attaches_tags() {
    let defs = vec![TagDef {
        name: "Stop Words".to_string(),
        color: None,
        description: None,
        words: vec!["the".to_string()],
    }];
    let matcher = TagMatcher::from_entries(defs);
    let mut analyzer = WordAnalyzer::with_tags(matcher);
    let results = analyzer.analyze(scenario_tokens());
    assert_eq!(results[0].word, "the");
    assert_eq!(results[0].tags.len(), 1);
    assert_eq!(results[0].tags[0].name, "Stop Words");
    assert!(results[1].tags.is_empty());
}

#[test]
fn test_empty_analysis() {
    let mut analyzer = WordAnalyzer::default();
    let results = analyzer.analyze(Vec::new());
    assert!(results.is_empty());
    assert_eq!(analyzer.total_words(), 0);
    assert_eq!(analyzer.unique_words(), 0);
}
