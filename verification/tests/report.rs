use zipfr::{WordAnalyzer, Dataset};
use zipfr::report::{format_usize, csv_line, dataset_report_lines, truncate_string, sum_counts};

#[test]
fn test_format_usize() {
    assert_eq!(format_usize(0), "0");
    assert_eq!(format_usize(7), "7");
    assert_eq!(format_usize(10), "10");
    assert_eq!(format_usize(12345), "12345");
}

#[test]
fn test_csv_lines() {
    let mut analyzer = WordAnalyzer::new();
    let word_counts = analyzer.analyze(vec![
        "the".to_string(),
        "the".to_string(),
        "dog".to_string(),
    ]);
    let d = Dataset {
        name: "sample".to_string(),
        word_counts,
        total_words: analyzer.total_words(),
        unique_words: analyzer.unique_words(),
        parse_nanos: 0,
        analyze_nanos: 0,
    };
    assert_eq!(csv_line(&d.word_counts[0]), "1,the,2");
    let lines = dataset_report_lines(&d);
    assert_eq!(lines, vec!["1,the,2".to_string(), "2,dog,1".to_string()]);
}

#[test]
fn test_truncate_string() {
    assert_eq!(truncate_string("short", 10), "short");
    assert_eq!(truncate_string("exactly", 7), "exactly");
    assert_eq!(truncate_string("a longer name", 8), "a lon...");
}

#[test]
fn test_sum_counts() {
    let mut analyzer = WordAnalyzer::new();
    let t = analyzer.analyze(vec![
        "a".to_string(),
        "a".to_string(),
        "b".to_string(),
    ]);
    assert_eq!(sum_counts(&t), Some(3));
    let empty: Vec<zipfr::WordCount> = Vec::new();
    assert_eq!(sum_counts(&empty), Some(0));
}
