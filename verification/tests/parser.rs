use zipfr::TextParser;

#[test]
fn test_extract_words() {
    let text = "Hello, world! This is a test.";
    let words = TextParser::extract_words(text);
    assert_eq!(words, vec!["hello", "world", "this", "is", "a", "test"]);
}

#[test]
fn test_extract_words_with_numbers() {
    let text = "Test123 with numbers456 and symbols!@#";
    let words = TextParser::extract_words(text);
    assert_eq!(words, vec!["test", "with", "numbers", "and", "symbols"]);
}

#[test]
fn test_extract_words_empty_input() {
    let words = TextParser::extract_words("");
    assert!(words.is_empty());
    let only_spaces = TextParser::extract_words("   \t  \n ");
    assert!(only_spaces.is_empty());
}

#[test]
fn test_extract_words_drops_tokens_without_letters() {
    let words = TextParser::extract_words("123 456 ok 789");
    assert_eq!(words, vec!["ok"]);
}
