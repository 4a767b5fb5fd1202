use rusqlite::{Connection, Result};
use rust_russian_wordle::{process_rejects, WordleQuery, WordleQueryError};

type TestResult = Result<(), WordleQueryError>;

fn run_query(conn: &Connection, query: &str) -> Result<Vec<String>, WordleQueryError> {
    let mut stmt = conn.prepare(query)?;
    let word_iter = stmt.query_map([], |row| {
        let word: String = row.get(0)?;
        Ok(word)
    })?;
    Ok(word_iter.filter_map(|word_result| word_result.ok()).collect())
}

fn corpus(words: &[&str]) -> Result<Connection, WordleQueryError> {
    let conn = Connection::open_in_memory()?;
    conn.execute("CREATE TABLE words (word TEXT NOT NULL)", [])?;
    for word in words {
        conn.execute("INSERT INTO words (word) VALUES (?1)", [word])?;
    }
    Ok(conn)
}

#[test]
fn test_query_excludes_uppercase_words() -> TestResult {
    let conn = corpus(&["мирно", "Мирно", "слово", "Слово"])?;
    let wordle_query = WordleQuery::new("*****", "")?;
    let results = run_query(&conn, &wordle_query.build_query())?;
    let expected_results: Vec<&str> = vec!["мирно", "слово"];
    assert_eq!(results, expected_results);
    Ok(())
}

#[test]
fn test_query_returns_only_5_letter_words() -> TestResult {
    let conn = corpus(&["мирно", "Привет", "слово", "Слово", "тест", "тестирование"])?;
    let wordle_query = WordleQuery::new("*****", "")?;
    let results = run_query(&conn, &wordle_query.build_query())?;
    for word in &results {
        assert_eq!(word.chars().count(), 5, "Word '{}' does not have 5 letters", word);
    }
    Ok(())
}

#[test]
fn test_query_excludes_words_with_rejected_letters() -> TestResult {
    let conn = corpus(&["мирно", "слово", "тесто", "гром", "кубик"])?;
    let wordle_query = WordleQuery::new("*****", "о,е")?;
    let results = run_query(&conn, &wordle_query.build_query())?;
    let expected_results: Vec<&str> = vec!["кубик"];
    assert_eq!(results, expected_results);
    Ok(())
}

#[test]
fn test_query_excludes_words_with_yellow_letters_in_correct_position() -> TestResult {
    let conn = corpus(&["мирно", "минор", "слово", "морни", "ранки"])?;
    let wordle_query = WordleQuery::new("**н**", "")?;
    let results = run_query(&conn, &wordle_query.build_query())?;
    let expected_results: Vec<&str> = vec!["мирно", "морни"];
    assert_eq!(results, expected_results);
    Ok(())
}

#[test]
fn test_query_with_limit() -> TestResult {
    let conn = corpus(&[
        "мирно", "слово", "пятью", "игрок", "шахи",
        "домик", "улица", "горы", "книга", "рыбак",
        "цветы", "почта", "карта", "снегу", "птицы",
    ])?;
    let wordle_query = WordleQuery::new("*****", "")?;
    let query = format!("{} LIMIT 10", wordle_query.build_query());
    let results = run_query(&conn, &query)?;
    assert_eq!(results.len(), 10, "Expected 10 items, but got {}", results.len());
    Ok(())
}

#[test]
fn test_query_confirmed_letter_at_position() -> TestResult {
    let conn = corpus(&["мирно", "минор", "слово", "морни", "ранки"])?;
    let wordle_query = WordleQuery::new("М****", "")?;
    let results = run_query(&conn, &wordle_query.build_query())?;
    assert_eq!(results, vec!["мирно", "минор", "морни"]);
    Ok(())
}

#[test]
fn test_process_rejects() {
    let input = "ё,E,д,Я,O";
    let expected: Vec<char> = vec!['е', 'е', 'д', 'я', 'о'];
    assert_eq!(process_rejects(input), expected);
}

fn assert_length_error(result: Result<WordleQuery, WordleQueryError>) {
    assert!(result.is_err());
    match result.unwrap_err() {
        WordleQueryError::QueryError(msg) => {
            assert_eq!(msg, "Pattern must contain exactly 5 Cyrillic (or *) characters.")
        }
        _ => panic!("Unexpected error type"),
    }
}

#[test]
fn test_wordle_query_invalid_pattern_too_short() -> Result<(), WordleQueryError> {
    assert_length_error(WordleQuery::new("****", "EoABCё"));
    Ok(())
}

#[test]
fn test_wordle_query_invalid_pattern_way_too_long() -> Result<(), WordleQueryError> {
    assert_length_error(WordleQuery::new("яшертыуидйд", "к"));
    Ok(())
}

#[test]
fn test_wordle_query_invalid_pattern_just_too_long() -> Result<(), WordleQueryError> {
    assert_length_error(WordleQuery::new("**яшей", "к"));
    Ok(())
}

#[test]
fn build_query_text_for_each_slot_kind() {
    let q = WordleQuery::new("А*б**", "ё").unwrap();
    let expected = [
        "SELECT w.word FROM words w WHERE LENGTH(w.word) = 5",
        " AND w.word GLOB '[а-я][а-я][а-я][а-я][а-я]'",
        " AND w.word NOT LIKE '%-%' AND w.word NOT LIKE '%.%'",
        " AND SUBSTR(w.word, 1, 1) = 'а'",
        " AND w.word LIKE '%б%' AND SUBSTR(w.word, 3, 1) != 'б'",
        " AND w.word NOT LIKE '%е%' ESCAPE '\\'",
    ]
    .concat();
    assert_eq!(q.build_query(), expected);
}

#[test]
fn build_query_uses_two_digit_positions() {
    let q = WordleQuery { pattern: "*********Я".to_string(), rejects: vec![] };
    assert!(q.build_query().ends_with(" AND SUBSTR(w.word, 10, 1) = 'я'"));
}

#[test]
fn query_new_keeps_pattern_and_folds_rejects() {
    let q = WordleQuery::new("**н**", "O,Ё").unwrap();
    assert_eq!(q.pattern, "**н**");
    assert_eq!(q.rejects, vec!['о', 'е']);
}

#[test]
fn sqlite_error_converts_to_database_error() {
    let e = WordleQueryError::from(rusqlite::Error::InvalidQuery);
    assert!(matches!(e, WordleQueryError::DatabaseError(rusqlite::Error::InvalidQuery)));
}

#[test]
fn malformed_sql_reports_database_error() {
    let conn = Connection::open_in_memory().unwrap();
    let q = WordleQuery::new("*****", "").unwrap();
    match run_query(&conn, &q.build_query()) {
        Err(WordleQueryError::DatabaseError(_)) => {}
        _ => panic!("expected a database error for a missing table"),
    }
}

#[test]
fn sql_special_rejects_are_literal() -> TestResult {
    let conn = corpus(&["мирно", "слово"])?;
    let q = WordleQuery { pattern: "*****".to_string(), rejects: vec!['_', '%', '\'', '\\'] };
    let sql = q.build_query();
    assert!(sql.ends_with(" AND w.word NOT LIKE '%''%' ESCAPE '\\' AND w.word NOT LIKE '%\\\\%' ESCAPE '\\'"));
    let results = run_query(&conn, &sql)?;
    assert_eq!(results, vec!["мирно", "слово"]);
    let in_memory = q.filter_words(&vec!["мирно".to_string(), "слово".to_string()]);
    assert_eq!(in_memory, results);
    Ok(())
}
