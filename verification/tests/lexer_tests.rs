use tfidf::lexer::Lexer;
use tfidf::lexer::tokenize_all;

fn chars_of(s: &str) -> Vec<char> {
    s.chars().collect()
}

fn tokens(s: &str) -> Vec<String> {
    tokenize_all(&chars_of(s))
}

#[test]
fn tokenizer_mixed_scenario() {
    assert_eq!(tokens("Hello, World! 42"), vec!["HELLO", ",", "WORLD", "!", "42"]);
}

#[test]
fn tokenizing_twice_is_identical() {
    let content = chars_of("The  quick brown-fox, 12 jumps!  ");
    let first = tokenize_all(&content);
    let second = tokenize_all(&content);
    assert_eq!(first, second);
}

#[test]
fn empty_input_yields_no_tokens() {
    assert_eq!(tokens(""), Vec::<String>::new());
    assert_eq!(tokens("   \t\n  "), Vec::<String>::new());
}

#[test]
fn digit_run_then_letters_split() {
    assert_eq!(tokens("42abc"), vec!["42", "ABC"]);
}

#[test]
fn letter_run_swallows_digits() {
    assert_eq!(tokens("a1b2"), vec!["A1B2"]);
}

#[test]
fn case_folding_is_ascii_only() {
    assert_eq!(tokens("héllo"), vec!["HéLLO"]);
}

#[test]
fn punctuation_is_single_char_tokens() {
    assert_eq!(tokens("a+b=c"), vec!["A", "+", "B", "=", "C"]);
}

#[test]
fn whitespace_between_terms_is_skipped() {
    assert_eq!(tokens("  one\ttwo\nthree "), vec!["ONE", "TWO", "THREE"]);
}

#[test]
fn next_token_yields_terms_then_none() {
    let content = chars_of("cat 7!");
    let mut lexer = Lexer::new(&content);
    assert_eq!(lexer.next_token(), Some("CAT".to_string()));
    assert_eq!(lexer.next_token(), Some("7".to_string()));
    assert_eq!(lexer.next_token(), Some("!".to_string()));
    assert_eq!(lexer.next_token(), None);
    assert_eq!(lexer.next_token(), None);
}
