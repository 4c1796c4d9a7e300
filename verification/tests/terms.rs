use search_ranker::terms::{contains_term, count_term, distinct_terms};
use search_ranker::text::lemmanize;

fn strings(items: &[&str]) -> Vec<String> {
    items.iter().map(|s| s.to_string()).collect()
}

#[test]
fn counts_occurrences_of_a_term() {
    let terms = strings(&["cat", "dog", "cat", "bird", "cat"]);
    assert_eq!(count_term(&terms, &"cat".to_string()), 3);
    assert_eq!(count_term(&terms, &"dog".to_string()), 1);
    assert_eq!(count_term(&terms, &"fish".to_string()), 0);
    assert_eq!(count_term(&Vec::new(), &"cat".to_string()), 0);
}

#[test]
fn contains_term_finds_only_whole_terms() {
    let terms = strings(&["cat", "dog"]);
    assert!(contains_term(&terms, &"dog".to_string()));
    assert!(!contains_term(&terms, &"do".to_string()));
    assert!(!contains_term(&Vec::new(), &"dog".to_string()));
}

#[test]
fn distinct_terms_keep_first_occurrence_order() {
    let terms = strings(&["dog", "cat", "dog", "bird", "cat"]);
    assert_eq!(distinct_terms(&terms), strings(&["dog", "cat", "bird"]));
    assert_eq!(distinct_terms(&Vec::new()), Vec::<String>::new());
}

#[test]
fn counts_of_distinct_terms_add_up_to_the_length() {
    let terms = lemmanize("a b a c b a d".to_string());
    let total: usize = distinct_terms(&terms).iter().map(|t| count_term(&terms, t)).sum();
    assert_eq!(total, terms.len());
    assert_eq!(total, 7);
}

#[test]
fn term_frequencies_add_up_to_one() {
    let terms = lemmanize("cat dog cat".to_string());
    let sum: f64 = distinct_terms(&terms)
        .iter()
        .map(|t| count_term(&terms, t) as f64 / terms.len() as f64)
        .sum();
    assert!((sum - 1.0).abs() < 1e-12);
}
