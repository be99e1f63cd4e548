use zipfr::{FilterSet, WordAnalyzer, Tag};
use zipfr::filter::apply_filter;
use zipfr::analyzer::has_tag_named;

fn scenario_table() -> Vec<zipfr::WordCount> {
    let mut analyzer = WordAnalyzer::new();
    analyzer.analyze(vec![
        "the".to_string(),
        "quick".to_string(),
        "brown".to_string(),
        "fox".to_string(),
        "jumps".to_string(),
        "over".to_string(),
        "the".to_string(),
        "lazy".to_string(),
        "dog".to_string(),
        "the".to_string(),
    ])
}

fn tag(name: &str) -> Tag {
    Tag { name: name.to_string(), color: None, description: None }
}

#[test]
fn test_exclude_singletons_scenario() {
    let table = scenario_table();
    let mut filter = FilterSet::new();
    filter.set_exclude_single(true);
    let filtered = apply_filter(&filter, &table);
    assert_eq!(filtered.len(), 1);
    assert_eq!(filtered[0].word, "the");
    assert_eq!(filtered[0].count, 3);
    assert_eq!(filtered[0].rank, 1);
}

#[test]
fn test_filtering_is_idempotent() {
    let table = scenario_table();
    let mut filter = FilterSet::new();
    filter.set_exclude_single(true);
    let once = apply_filter(&filter, &table);
    let twice = apply_filter(&filter, &once);
    assert_eq!(once.len(), twice.len());
    for (a, b) in once.iter().zip(twice.iter()) {
        assert_eq!(a.word, b.word);
        assert_eq!(a.count, b.count);
        assert_eq!(a.rank, b.rank);
    }
}

#[test]
fn test_filtered_ranks_are_dense_and_ordered() {
    let mut analyzer = WordAnalyzer::new();
    let table = analyzer.analyze(vec![
        "aa".to_string(),
        "aa".to_string(),
        "aa".to_string(),
        "bb".to_string(),
        "cc".to_string(),
        "cc".to_string(),
        "dd".to_string(),
    ]);
    // ranked: aa(3), cc(2), bb(1), dd(1)
    let mut filter = FilterSet::new();
    filter.set_exclude_single(true);
    let filtered = apply_filter(&filter, &table);
    assert_eq!(filtered.len(), 2);
    assert_eq!(filtered[0].word, "aa");
    assert_eq!(filtered[0].rank, 1);
    assert_eq!(filtered[1].word, "cc");
    assert_eq!(filtered[1].rank, 2);
}

#[test]
fn test_exclude_and_include_are_mutually_exclusive() {
    let mut filter = FilterSet::new();
    let name = "Stop Words".to_string();

    filter.add_exclude_tag(tag("Stop Words"));
    assert!(has_tag_named(&filter.exclude_tags, &name));
    assert!(!has_tag_named(&filter.include_only_tags, &name));

    filter.add_include_tag(tag("Stop Words"));
    assert!(!has_tag_named(&filter.exclude_tags, &name));
    assert!(has_tag_named(&filter.include_only_tags, &name));

    filter.add_exclude_tag(tag("Stop Words"));
    assert!(has_tag_named(&filter.exclude_tags, &name));
    assert!(!has_tag_named(&filter.include_only_tags, &name));
}

#[test]
fn test_matches_evaluation_order() {
    let mut wc = zipfr::WordCount {
        word: "the".to_string(),
        count: 1,
        rank: 1,
        tags: vec![tag("Stop Words")],
    };

    let mut filter = FilterSet::new();
    assert!(filter.matches(&wc));

    filter.set_exclude_single(true);
    assert!(!filter.matches(&wc));

    wc.count = 5;
    assert!(filter.matches(&wc));

    filter.add_exclude_tag(tag("Stop Words"));
    assert!(!filter.matches(&wc));
}

#[test]
fn test_include_only_semantics() {
    let mut filter = FilterSet::new();
    filter.add_include_tag(tag("Animals"));

    let tagged = zipfr::WordCount {
        word: "fox".to_string(),
        count: 2,
        rank: 1,
        tags: vec![tag("Animals")],
    };
    let untagged = zipfr::WordCount {
        word: "the".to_string(),
        count: 9,
        rank: 2,
        tags: Vec::new(),
    };
    assert!(filter.matches(&tagged));
    assert!(!filter.matches(&untagged));

    filter.clear();
    assert!(filter.is_empty());
    assert!(filter.matches(&untagged));
}
