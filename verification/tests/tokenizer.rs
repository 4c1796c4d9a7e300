use search_ranker::text::{lemmanize, words};

fn strings(items: &[&str]) -> Vec<String> {
    items.iter().map(|s| s.to_string()).collect()
}

#[test]
fn lowercases_and_strips_punctuation() {
    assert_eq!(lemmanize("Hello, World!".to_string()), strings(&["hello", "world"]));
}

#[test]
fn empty_text_has_no_terms() {
    assert_eq!(lemmanize(String::new()), Vec::<String>::new());
}

#[test]
fn punctuation_only_has_no_terms() {
    assert_eq!(lemmanize("...".to_string()), Vec::<String>::new());
}

#[test]
fn white_space_only_has_no_terms() {
    assert_eq!(lemmanize(" \t\n ".to_string()), Vec::<String>::new());
}

#[test]
fn terms_keep_order_and_repeats() {
    assert_eq!(
        lemmanize("Dog cat DOG  bird\tcat".to_string()),
        strings(&["dog", "cat", "dog", "bird", "cat"])
    );
}

#[test]
fn punctuation_inside_a_word_joins_its_parts() {
    assert_eq!(lemmanize("don't stop-me".to_string()), strings(&["dont", "stopme"]));
}

#[test]
fn punctuation_between_spaces_leaves_no_empty_term() {
    assert_eq!(lemmanize("a , b".to_string()), strings(&["a", "b"]));
}

#[test]
fn every_ascii_punctuation_character_is_removed() {
    let text = "a!\"#$%&'()*+,-./b:;<=>?@c[\\]^_`d{|}~e".to_string();
    assert_eq!(lemmanize(text), strings(&["abcde"]));
}

#[test]
fn digits_and_letters_stay() {
    assert_eq!(lemmanize("Route 66".to_string()), strings(&["route", "66"]));
}

#[test]
fn lowercase_is_unicode_aware() {
    assert_eq!(lemmanize("ÄPFEL Über".to_string()), strings(&["äpfel", "über"]));
}

#[test]
fn non_ascii_punctuation_stays() {
    assert_eq!(lemmanize("¿qué?".to_string()), strings(&["¿qué"]));
}

#[test]
fn unicode_white_space_splits() {
    assert_eq!(lemmanize("a\u{00A0}b\u{2003}c".to_string()), strings(&["a", "b", "c"]));
}

#[test]
fn leading_and_trailing_white_space_is_dropped() {
    assert_eq!(lemmanize("  cat  ".to_string()), strings(&["cat"]));
}

#[test]
fn normalising_a_term_again_gives_the_term() {
    for term in lemmanize("Hello, World! It's a  fine-day".to_string()) {
        assert_eq!(lemmanize(term.clone()), vec![term]);
    }
}

#[test]
fn normalising_the_joined_terms_again_gives_the_terms() {
    let terms = lemmanize("The quick, BROWN fox; the lazy dog.".to_string());
    assert_eq!(lemmanize(terms.join(" ")), terms);
}

#[test]
fn words_does_not_change_case() {
    assert_eq!(words("Hello, World!"), strings(&["Hello", "World"]));
}
