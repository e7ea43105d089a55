use gamo::rule::{is_max, is_min, Word};
use gamo::text::{parse_word, English, Str};

#[test]
fn get_word_test() {
    let max_letter = "a".repeat(Word::max() + 1);
    let min_letter = "a".repeat(Word::min() - 1);
    assert!(Str::get_word(&max_letter).is_none());
    assert!(Str::get_word(&min_letter).is_none());
    assert_eq!(Str::get_word("hello"), Some("hello"));
}

#[test]
fn is_plural_test() {
    assert!(!Str::is_plural("es"));
    assert!(!Str::is_plural("discuss"));
    assert!(Str::is_plural("houses"));
}

#[test]
fn is_ed_test() {
    assert!(Str::is_ed("worked"));
    assert!(!Str::is_ed("ed"));
}

#[test]
fn is_ing_test() {
    assert!(Str::is_ing("working"));
    assert!(!Str::is_ing("worknng"));
    assert!(!Str::is_ing(""));
}

#[test]
fn valid_english_test() {
    assert!(Str::valid_english("z"));
    assert!(Str::valid_english("ab"));
    assert!(!Str::valid_english(""));
}

#[test]
fn rm_start_end_test() {
    assert_eq!(Str::rm_start_end("  "), "");
    assert_eq!(Str::rm_start_end(" hello "), "hello");
    assert_eq!(Str::rm_start_end("1/#*hello1/#*"), "hello");
}

#[test]
fn rm_start_test() {
    assert_eq!(Str::rm_start("  "), "");
    assert_eq!(Str::rm_start(" hello"), "hello");
    assert_eq!(Str::rm_start("1/#*hello"), "hello");
}

#[test]
fn rm_end_test() {
    assert_eq!(Str::rm_end("  "), "");
    assert_eq!(Str::rm_end("hello "), "hello");
    assert_eq!(Str::rm_end("hello1/#*"), "hello");
}

#[test]
fn normalize_examples() {
    assert_eq!(parse_word(" HeLLo "), "hello");
    assert_eq!(parse_word("1/#*hello1/#*"), "hello");
    assert_eq!(parse_word("  "), "");
    assert!(!Str::valid_english(&parse_word("  ")));
}

#[test]
fn normalize_idempotent() {
    let once = parse_word(" HeLLo ");
    assert_eq!(parse_word(&once), once);
    let w = parse_word("canonical");
    assert_eq!(parse_word(&w), w);
}

#[test]
fn length_bounds_inclusive() {
    let at_min = "a".repeat(Word::min());
    let at_max = "a".repeat(Word::max());
    let below = "a".repeat(Word::min() - 1);
    let above = "a".repeat(Word::max() + 1);
    assert_eq!(Str::get_word(&at_min), Some(at_min.as_str()));
    assert_eq!(Str::get_word(&at_max), Some(at_max.as_str()));
    assert!(Str::get_word(&below).is_none());
    assert!(Str::get_word(&above).is_none());
    assert!(is_min(&below));
    assert!(!is_min(&at_min));
    assert!(is_max(&above));
    assert!(!is_max(&at_max));
}

#[test]
fn match_pattern_anchors() {
    assert!(Str::is_match("working", "ing", true));
    assert!(!Str::is_match("working", "ing", false));
    assert!(Str::is_match("workday", "work", false));
    assert!(!Str::is_match("dog", "dog", true));
    assert!(!Str::is_match("working", "", true));
    assert!(!Str::is_match("ing", "working", true));
}

#[test]
fn utf_count_bytes() {
    assert_eq!(Str::utf_count("hello"), 5);
    assert_eq!(Str::utf_count("h\u{e9}llo"), 6);
    assert_eq!(Str::utf_count(""), 0);
}

#[test]
fn english_range() {
    assert_eq!(English::start(), 97);
    assert_eq!(English::end(), 122);
    assert!(English::is_range('a' as i32));
    assert!(English::is_range('z' as i32));
    assert!(!English::is_range('A' as i32));
}
