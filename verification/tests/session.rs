use zipfr::{App, Dataset, TagMatcher, WordAnalyzer};
use zipfr::analyzer::TagDef;
use zipfr::session::{Key, InputMode, NormalizationMode};
use zipfr::zipf::{ChartScope, ZipfBasis, ZipfReference};

fn dataset(name: &str, total: usize, distinct: usize) -> Dataset {
    let mut words = Vec::new();
    for i in 0..total {
        words.push(format!("w{}", i % distinct));
    }
    let mut analyzer = WordAnalyzer::new();
    let word_counts = analyzer.analyze(words);
    Dataset {
        name: name.to_string(),
        word_counts,
        total_words: analyzer.total_words(),
        unique_words: analyzer.unique_words(),
        parse_nanos: 0,
        analyze_nanos: 0,
    }
}

fn single_app() -> App {
    App::new(vec![dataset("A", 10, 8)], 0)
}

#[test]
fn test_navigation_is_clamped() {
    let mut app = single_app();
    let len = app.filtered_word_counts.len();
    assert_eq!(len, 8);

    // moving up from index zero is a no-op
    app.handle_normal_input(Key::Up);
    assert_eq!(app.selected_index, 0);

    // moving down sticks at the last index
    for _ in 0..20 {
        app.handle_normal_input(Key::Down);
    }
    assert_eq!(app.selected_index, len - 1);
    app.handle_normal_input(Key::Char('j'));
    assert_eq!(app.selected_index, len - 1);

    // jump to line zero clamps to the first index
    app.jump_to_line(0);
    assert_eq!(app.selected_index, 0);

    // a jump beyond the end clamps to the last index
    app.jump_to_line(999);
    assert_eq!(app.selected_index, len - 1);

    app.handle_normal_input(Key::Home);
    assert_eq!(app.selected_index, 0);
    app.handle_normal_input(Key::End);
    assert_eq!(app.selected_index, len - 1);
}

#[test]
fn test_line_jump_via_number_input() {
    let mut app = single_app();
    app.handle_normal_input(Key::Char('3'));
    assert_eq!(app.input_mode, InputMode::NumberInput);
    app.handle_number_input(Key::Char('g'));
    assert_eq!(app.input_mode, InputMode::Normal);
    // 1-based line 3 is index 2
    assert_eq!(app.selected_index, 2);

    // `Esc` discards the buffer without moving
    app.handle_normal_input(Key::Char('9'));
    app.handle_number_input(Key::Esc);
    assert_eq!(app.selected_index, 2);
}

#[test]
fn test_dataset_switch_changes_totals_and_restores_cursor() {
    let a = dataset("A", 100, 10);
    let b = dataset("B", 50, 5);
    let mut app = App::new(vec![a, b], 0);
    assert_eq!(app.datasets[app.active_dataset_index].total_words, 100);

    // remember a selection (and the scroll window it dragged along) inside A
    app.set_visible_height(4);
    app.jump_to_line(6);
    assert_eq!(app.selected_index, 5);
    let remembered_scroll = app.scroll_offset;

    app.next_dataset();
    assert_eq!(app.active_dataset_index, 1);
    assert_eq!(app.datasets[app.active_dataset_index].total_words, 50);

    app.next_dataset();
    assert_eq!(app.active_dataset_index, 0);
    assert_eq!(app.datasets[app.active_dataset_index].total_words, 100);
    // A's cursor and scroll were restored unchanged
    assert_eq!(app.selected_index, 5);
    assert_eq!(app.scroll_offset, remembered_scroll);
}

#[test]
fn test_quit_and_mode_keys() {
    let mut app = single_app();
    app.handle_normal_input(Key::Char('/'));
    assert_eq!(app.input_mode, InputMode::Search);
    app.handle_search_input(Key::Esc);
    assert_eq!(app.input_mode, InputMode::Normal);
    assert!(app.search_results.is_empty());

    app.handle_normal_input(Key::Char('F'));
    assert_eq!(app.input_mode, InputMode::Filter);
    app.handle_filter_input(Key::Esc);
    assert_eq!(app.input_mode, InputMode::Normal);

    app.handle_normal_input(Key::Char('q'));
    assert!(app.should_quit);
}

#[test]
fn test_search_enter_jumps_to_top_match() {
    let mut app = single_app();
    app.handle_normal_input(Key::Char('/'));
    app.handle_search_input(Key::Char('w'));
    app.handle_search_input(Key::Char('3'));
    assert!(!app.search_results.is_empty());
    let top = app.search_results[0];
    app.handle_search_input(Key::Enter);
    assert_eq!(app.input_mode, InputMode::Normal);
    assert_eq!(app.selected_index, top);
    assert_eq!(app.filtered_word_counts[top].word, "w3");
}

#[test]
fn test_display_toggles() {
    let mut app = single_app();
    assert!(!app.log_scale);
    app.handle_normal_input(Key::Char('L'));
    assert!(app.log_scale);

    assert!(!app.zipf.enabled);
    // once enabled, the overlay anchors on the unfiltered table by default
    assert_eq!(app.zipf.basis, ZipfBasis::Unfiltered);
    app.handle_normal_input(Key::Char('Z'));
    assert!(app.zipf.enabled);
    assert_eq!(app.zipf.reference, ZipfReference::Absolute);
    app.handle_normal_input(Key::Char('Z'));
    assert_eq!(app.zipf.reference, ZipfReference::Relative);
    app.handle_normal_input(Key::Char('Z'));
    assert!(!app.zipf.enabled);

    assert_eq!(app.chart_scope, ChartScope::Relative);
    app.handle_normal_input(Key::Char('A'));
    assert_eq!(app.chart_scope, ChartScope::Absolute);

    assert_eq!(app.normalization_mode, NormalizationMode::Raw);
    app.handle_normal_input(Key::Char('%'));
    assert_eq!(app.normalization_mode, NormalizationMode::Percentage);
}

#[test]
fn test_singleton_filter_key_rebuilds_caches() {
    let mut app = single_app();
    // scenario-like data: "w0" and "w1" occur twice, the rest once
    assert_eq!(app.filtered_word_counts.len(), 8);
    app.handle_normal_input(Key::Char('U'));
    assert!(app.filter_set.exclude_single);
    assert_eq!(app.filtered_word_counts.len(), 2);
    assert_eq!(app.filtered_word_counts[0].rank, 1);
    assert_eq!(app.filtered_word_counts[1].rank, 2);
    app.handle_normal_input(Key::Char('U'));
    assert_eq!(app.filtered_word_counts.len(), 8);
}

#[test]
fn test_two_step_filter_flow_excludes_picked_tag() {
    let matcher = TagMatcher::from_entries(vec![TagDef {
        name: "Stop Words".to_string(),
        color: None,
        description: None,
        words: vec!["w0".to_string()],
    }]);
    let mut analyzer = WordAnalyzer::with_tags(matcher);
    let mut words = Vec::new();
    for i in 0..10 {
        words.push(format!("w{}", i % 8));
    }
    let word_counts = analyzer.analyze(words);
    let d = Dataset {
        name: "A".to_string(),
        word_counts,
        total_words: analyzer.total_words(),
        unique_words: analyzer.unique_words(),
        parse_nanos: 0,
        analyze_nanos: 0,
    };
    let mut app = App::new(vec![d], 0);
    assert_eq!(app.available_tags.len(), 1);
    assert_eq!(app.filtered_word_counts.len(), 8);

    // pick tag 1, then exclude it
    app.handle_normal_input(Key::Char('F'));
    assert_eq!(app.input_mode, InputMode::Filter);
    app.handle_filter_input(Key::Char('1'));
    app.handle_filter_input(Key::Char('e'));
    assert_eq!(app.input_mode, InputMode::Normal);
    assert_eq!(app.filter_set.exclude_tags.len(), 1);
    // "w0" is hidden and the survivors are re-ranked densely
    assert_eq!(app.filtered_word_counts.len(), 7);
    for (i, wc) in app.filtered_word_counts.iter().enumerate() {
        assert_ne!(wc.word, "w0");
        assert_eq!(wc.rank, i + 1);
    }

    // clear all filters through the flow
    app.handle_normal_input(Key::Char('F'));
    app.handle_filter_input(Key::Char('c'));
    assert!(app.filter_set.is_empty());
    assert_eq!(app.filtered_word_counts.len(), 8);
}

#[test]
fn test_stopword_key_toggles_exclusion() {
    let matcher = TagMatcher::from_entries(vec![TagDef {
        name: "Stop Words".to_string(),
        color: None,
        description: None,
        words: vec!["w1".to_string()],
    }]);
    let mut analyzer = WordAnalyzer::with_tags(matcher);
    let mut words = Vec::new();
    for i in 0..10 {
        words.push(format!("w{}", i % 8));
    }
    let word_counts = analyzer.analyze(words);
    let d = Dataset {
        name: "A".to_string(),
        word_counts,
        total_words: analyzer.total_words(),
        unique_words: analyzer.unique_words(),
        parse_nanos: 0,
        analyze_nanos: 0,
    };
    let mut app = App::new(vec![d], 0);
    app.handle_normal_input(Key::Char('S'));
    assert_eq!(app.filter_set.exclude_tags.len(), 1);
    assert_eq!(app.filtered_word_counts.len(), 7);
    app.handle_normal_input(Key::Char('S'));
    assert!(app.filter_set.exclude_tags.is_empty());
    assert_eq!(app.filtered_word_counts.len(), 8);
}

#[test]
fn test_empty_filtered_list_selection_is_noop() {
    let mut app = App::new(vec![dataset("A", 3, 3)], 0);
    // every word is a singleton, so the singleton filter empties the list
    app.toggle_single_words_filter();
    assert_eq!(app.filtered_word_counts.len(), 0);
    assert_eq!(app.selected_index, 0);
    app.handle_normal_input(Key::Down);
    assert_eq!(app.selected_index, 0);
    app.handle_normal_input(Key::Up);
    assert_eq!(app.selected_index, 0);
}
