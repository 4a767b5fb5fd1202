use rust_russian_wordle::pattern::parse_pattern_marked;
use rust_russian_wordle::{append_chars_to_comma_delimited_str, is_valid_pattern, parse_pattern, WordleQuery};

#[test]
fn test_parse_pattern_with_multiple_cyrillic_rejects() {
    let (_, rejects) = parse_pattern("_о*_т**А");
    assert_eq!(rejects, vec!['о', 'т']);
}

#[test]
fn test_parse_pattern_modifies_pattern_correctly_with_cyrillic_rejects() {
    let (modified_pattern, _) = parse_pattern("_о*_т*А");
    assert_eq!(modified_pattern, "****А");
}

#[test]
fn test_parse_pattern_with_only_wildcards() {
    let (_, rejects) = parse_pattern("*****");
    assert_eq!(rejects.len(), 0);
}

#[test]
fn test_parse_pattern_with_only_cyrillic_letters() {
    let (modified_pattern, _) = parse_pattern("АБВГД");
    assert_eq!(modified_pattern, "АБВГД");
}

#[test]
fn test_parse_pattern_with_no_rejects_and_only_wildcards_and_letters() {
    let (modified_pattern, _) = parse_pattern("А*Б*В");
    assert_eq!(modified_pattern, "А*Б*В");
}

#[test]
fn test_parse_pattern_with_cyrillic_reject_at_start() {
    let (_, rejects) = parse_pattern("_о****");
    assert_eq!(rejects, vec!['о']);
}

#[test]
fn test_parse_pattern_with_cyrillic_reject_at_end() {
    let (_, rejects) = parse_pattern("****_т");
    assert_eq!(rejects, vec!['т']);
}

#[test]
fn test_append_chars_to_str() {
    let rejects = "о,с,и,н";
    let additional_rejects = vec!['а', 'т'];
    let actual = append_chars_to_comma_delimited_str(rejects, additional_rejects);
    let expected = "о,с,и,н,а,т";
    assert_eq!(actual, expected);
}

#[test]
fn test_extract_rejects() {
    let mut input = String::from("**_н**");
    let collected_letters = WordleQuery::extract_rejects(&mut input).unwrap();
    assert_eq!(input, "****");
    assert_eq!(collected_letters, vec!['н']);
}

#[test]
fn test_valid_pattern_length_with_rejects() {
    assert_eq!(is_valid_pattern("_о_т***"), true);
}

#[test]
fn test_not_valid_pattern_length_with_rejects() {
    assert_eq!(is_valid_pattern("_а_б_ф_рдт"), false);
}

#[test]
fn test_valid_pattern_length_without_rejects() {
    assert_eq!(is_valid_pattern("*****"), true);
}

#[test]
fn test_valid_pattern_without_rejcts_has_letters() {
    assert_eq!(is_valid_pattern("**И*а"), true);
}

#[test]
fn append_to_empty_start_has_no_leading_comma() {
    assert_eq!(append_chars_to_comma_delimited_str("", vec!['а', 'б']), "а,б");
    assert_eq!(append_chars_to_comma_delimited_str("в", vec![]), "в,");
}

#[test]
fn one_marker_becomes_one_wildcard() {
    let (canonical, rejects) = parse_pattern("ab_дcd");
    assert_eq!(canonical, "ab*cd");
    assert_eq!(rejects, vec!['д']);
}

#[test]
fn underscore_before_latin_letter_is_no_marker() {
    let (canonical, rejects) = parse_pattern("_a***");
    assert_eq!(canonical, "_a***");
    assert!(rejects.is_empty());
    assert!(!is_valid_pattern("_a****"));
}

#[test]
fn trailing_underscore_is_kept() {
    let (canonical, rejects) = parse_pattern("****_");
    assert_eq!(canonical, "****_");
    assert!(rejects.is_empty());
}

#[test]
fn canonical_pattern_normalizes_to_itself() {
    for p in ["*****", "А*б*В", "мирно"] {
        let (canonical, rejects) = parse_pattern(p);
        assert_eq!(canonical, p);
        assert!(rejects.is_empty());
    }
}

#[test]
fn validity_counts_four_five_six() {
    assert!(!is_valid_pattern("****"));
    assert!(is_valid_pattern("*****"));
    assert!(!is_valid_pattern("******"));
    assert!(!is_valid_pattern("_о_т****"));
}

#[test]
fn combining_mark_is_one_cluster() {
    assert!(is_valid_pattern("е\u{301}****"));
}

#[test]
fn parse_with_given_marks() {
    let cs: Vec<char> = "_x*_y".chars().collect();
    let (canonical, rejects) = parse_pattern_marked(&cs, &vec![false, true, false, false, false]);
    assert_eq!(canonical, "**_y");
    assert_eq!(rejects, vec!['x']);
}
