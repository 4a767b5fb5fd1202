use rust_russian_wordle::convert_latin_to_cyrillic;
use rust_russian_wordle::Wordle;

fn score_value(factors: &[u32]) -> f64 {
    factors.iter().map(|&w| w as f64 / 100.0).product()
}

#[test]
fn test_replace_yo() {
    let input = "ёлка";
    let expected = "елка";
    assert_eq!(Wordle::replace_yo(input), expected);
}

#[test]
fn test_calculate_score() {
    let lemma = "привет";
    let ru_letter_freqs = vec![('п', 100), ('р', 100), ('и', 100), ('в', 100), ('е', 100), ('т', 100)];
    let score = score_value(&Wordle::calculate_score(lemma, &ru_letter_freqs));
    assert_eq!(score, 1.0);
}

#[test]
fn test_convert_latin_to_cyrillic() {
    assert_eq!(convert_latin_to_cyrillic('e'), 'е');
    assert_eq!(convert_latin_to_cyrillic('o'), 'о');
    assert_eq!(convert_latin_to_cyrillic('a'), 'a');
    assert_eq!(convert_latin_to_cyrillic('z'), 'z');
    assert_eq!(convert_latin_to_cyrillic('я'), 'я');
}

#[test]
fn calculate_score_stops_at_first_unweighted_letter() {
    let freqs = vec![('к', 349), ('о', 1097), ('т', 626)];
    assert_eq!(Wordle::calculate_score("кoт", &freqs), vec![349]);
    assert_eq!(Wordle::calculate_score("кот", &freqs), vec![349, 1097, 626]);
    assert_eq!(Wordle::calculate_score("xкот", &freqs), Vec::<u32>::new());
}

#[test]
fn calculate_score_later_entry_overrides() {
    let freqs = vec![('а', 1), ('а', 7)];
    assert_eq!(Wordle::calculate_score("аа", &freqs), vec![7, 7]);
}

#[test]
fn letter_table_weights() {
    let freqs = Wordle::init_letter_freqs();
    assert_eq!(freqs.len(), 32);
    assert_eq!(freqs[0], ('о', 1097));
    assert_eq!(freqs[31], ('ъ', 4));
}

#[test]
fn wordle_new_folds_and_scores() {
    let w = Wordle::new("ёж".to_string());
    assert_eq!(w.lemma, "еж");
    // е = 8.45, ж = 1.01, three more slots at 1.00: 845 * 101 * 100^3
    assert_eq!(w.score, 845 * 101 * 1_000_000);
    let full = Wordle::new("мирно".to_string());
    assert_eq!(full.score, 321 * 735 * 440 * 670 * 1097);
}

#[test]
fn calculate_score_folds_yo() {
    let freqs = vec![('е', 845), ('ж', 101)];
    assert_eq!(Wordle::calculate_score("ёж", &freqs), vec![845, 101]);
    assert_eq!(Wordle::calculate_score("ёж", &freqs), Wordle::calculate_score("еж", &freqs));
}
