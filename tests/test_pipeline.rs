use rust_russian_wordle::pipeline::intersect_words;
use rust_russian_wordle::rank::{apply_limit, rank_words, sort_by_score};
use rust_russian_wordle::{prepare_queries, Search, Wordle, WordleQuery, WordleQueryError};

fn strings(ws: &[&str]) -> Vec<String> {
    ws.iter().map(|w| w.to_string()).collect()
}

#[test]
fn present_letter_filter_in_memory() {
    let q = WordleQuery::new("**н**", "").unwrap();
    let corpus = strings(&["мирно", "минор", "слово", "морни", "ранки"]);
    assert_eq!(q.filter_words(&corpus), strings(&["мирно", "морни"]));
}

#[test]
fn reject_filter_in_memory() {
    let q = WordleQuery::new("*****", "о,е").unwrap();
    let corpus = strings(&["мирно", "слово", "тесто", "гром", "кубик"]);
    assert_eq!(q.filter_words(&corpus), strings(&["кубик"]));
}

#[test]
fn word_hygiene_in_memory() {
    let q = WordleQuery::new("*****", "").unwrap();
    assert!(q.matches_word("слово"));
    assert!(!q.matches_word("Слово"));
    assert!(!q.matches_word("сло-о"));
    assert!(!q.matches_word("сло.о"));
    assert!(!q.matches_word("слов"));
    assert!(!q.matches_word("ёлочк"));
}

#[test]
fn confirmed_letter_in_memory() {
    let q = WordleQuery::new("**Р**", "").unwrap();
    assert!(q.matches_word("перец"));
    assert!(!q.matches_word("слово"));
}

#[test]
fn intersection_keeps_common_words_in_order() {
    let a = strings(&["мирно", "слово", "кубик"]);
    let b = strings(&["кубик", "мирно", "тесто"]);
    assert_eq!(intersect_words(&a, &b), strings(&["мирно", "кубик"]));
    assert!(intersect_words(&a, &Vec::new()).is_empty());
}

#[test]
fn prepare_rejects_any_invalid_pattern() {
    let patterns = strings(&["*****", "****", "***"]);
    match prepare_queries(&patterns, "") {
        Err(WordleQueryError::QueryError(m)) => assert_eq!(m, "Incorrect pattern format: ****"),
        _ => panic!("expected a validation error"),
    }
}

#[test]
fn prepare_merges_rejects_of_all_patterns() {
    let patterns = strings(&["_о****", "**А_ё*"]);
    let qs = prepare_queries(&patterns, "E,к").unwrap();
    assert_eq!(qs.len(), 2);
    assert_eq!(qs[0].pattern, "*****");
    assert_eq!(qs[1].pattern, "**А**");
    assert_eq!(qs[0].rejects, vec!['о', 'е', 'е', 'к']);
    assert_eq!(qs[1].rejects, qs[0].rejects);
}

fn run(search: &mut Search, corpus: &[Vec<String>]) -> usize {
    let mut runs = 0;
    while let Some(_sql) = search.next_query() {
        let words = corpus[search.next].clone();
        search.record(words);
        runs += 1;
    }
    runs
}

#[test]
fn search_intersects_results() {
    let patterns = strings(&["*****", "М****"]);
    let qs = prepare_queries(&patterns, "").unwrap();
    let mut search = Search::new(qs);
    let corpus = vec![
        strings(&["мирно", "слово", "минор"]),
        strings(&["минор", "мирно", "морни"]),
    ];
    assert_eq!(run(&mut search, &corpus), 2);
    assert_eq!(search.running, strings(&["мирно", "минор"]));
}

#[test]
fn search_stops_after_empty_result() {
    let patterns = strings(&["*****", "*****", "*****"]);
    let qs = prepare_queries(&patterns, "").unwrap();
    let mut search = Search::new(qs);
    let corpus = vec![strings(&["мирно"]), strings(&["слово"]), strings(&["мирно"])];
    assert_eq!(run(&mut search, &corpus), 2);
    assert!(search.running.is_empty());
    assert!(search.next_query().is_none());
}

#[test]
fn ranking_orders_by_score_and_limits() {
    let words = strings(&["кубик", "тесто", "мирно"]);
    let ranked = rank_words(words.clone(), 0);
    let lemmas: Vec<&str> = ranked.iter().map(|w| w.lemma.as_str()).collect();
    assert_eq!(lemmas, vec!["тесто", "мирно", "кубик"]);
    assert!(ranked.windows(2).all(|p| p[0].score >= p[1].score));
    assert_eq!(rank_words(words.clone(), -3).len(), 3);
    let top = rank_words(words.clone(), 2);
    let top_lemmas: Vec<&str> = top.iter().map(|w| w.lemma.as_str()).collect();
    assert_eq!(top_lemmas, vec!["тесто", "мирно"]);
    assert_eq!(rank_words(words, 10).len(), 3);
}

#[test]
fn sort_and_limit_directly() {
    let v = vec![
        Wordle { lemma: "а".to_string(), score: 1 },
        Wordle { lemma: "б".to_string(), score: 3 },
        Wordle { lemma: "в".to_string(), score: 2 },
    ];
    let sorted = sort_by_score(v);
    let scores: Vec<u64> = sorted.iter().map(|w| w.score).collect();
    assert_eq!(scores, vec![3, 2, 1]);
    assert_eq!(apply_limit(sorted, 1).len(), 1);
}

#[test]
fn finish_ranks_running_result() {
    let patterns = strings(&["*****"]);
    let qs = prepare_queries(&patterns, "").unwrap();
    let mut search = Search::new(qs);
    run(&mut search, &[strings(&["кубик", "тесто"])]);
    let ranked = search.finish(0);
    assert_eq!(ranked[0].lemma, "тесто");
    assert_eq!(ranked.len(), 2);
}
