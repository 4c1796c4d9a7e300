use search_ranker::documents::{group_by_document, keywords_for};
use search_ranker::posting::{Keyword, Website};

fn row(url: &str, word: &str, position: i32) -> Keyword {
    Keyword {
        url: url.to_string(),
        word_count: 100,
        title: format!("{} title", url),
        description: format!("{} description", url),
        word: word.to_string(),
        occurrences: 2,
        position,
        documents_containing_word: 7,
    }
}

#[test]
fn keywords_for_keeps_only_rows_of_the_url() {
    let rows = vec![row("a", "x", 1), row("b", "x", 2), row("a", "y", 3)];
    let found = keywords_for(&rows, &"a".to_string());
    assert_eq!(found.len(), 2);
    assert_eq!(found[0].position, 1);
    assert_eq!(found[1].position, 3);
    assert_eq!(found[1].word, "y");
    assert_eq!(keywords_for(&rows, &"c".to_string()).len(), 0);
}

#[test]
fn duplicate_copies_every_field() {
    let k = row("a", "x", 4);
    let d = k.duplicate();
    assert_eq!(d.url, "a");
    assert_eq!(d.word_count, 100);
    assert_eq!(d.title, "a title");
    assert_eq!(d.description, "a description");
    assert_eq!(d.word, "x");
    assert_eq!(d.occurrences, 2);
    assert_eq!(d.position, 4);
    assert_eq!(d.documents_containing_word, 7);
}

#[test]
fn website_of_keyword_takes_the_page_fields() {
    let site = Website::of_keyword(&row("a", "x", 0));
    assert_eq!(site.url, "a");
    assert_eq!(site.title, "a title");
    assert_eq!(site.description, "a description");
    let copy = site.duplicate();
    assert_eq!(copy.url, "a");
    assert_eq!(copy.title, "a title");
    assert_eq!(copy.description, "a description");
}

#[test]
fn every_row_lands_in_exactly_one_document() {
    let rows = vec![
        row("a", "x", 1),
        row("b", "x", 2),
        row("a", "y", 3),
        row("c", "z", 4),
        row("b", "z", 5),
    ];
    let docs = group_by_document(&rows);
    let total: usize = docs.iter().map(|d| d.keywords.len()).sum();
    assert_eq!(total, rows.len());
    for d in &docs {
        assert!(d.keywords.iter().all(|k| k.url == d.website.url));
    }
    let mut positions: Vec<i32> =
        docs.iter().flat_map(|d| d.keywords.iter().map(|k| k.position)).collect();
    assert_eq!(positions, vec![1, 3, 2, 5, 4]);
    positions.sort();
    assert_eq!(positions, vec![1, 2, 3, 4, 5]);
}

#[test]
fn title_and_description_come_from_the_first_row() {
    let mut rows = vec![row("a", "x", 1), row("a", "y", 2)];
    rows[1].title = "later title".to_string();
    rows[1].description = "later description".to_string();
    let docs = group_by_document(&rows);
    assert_eq!(docs.len(), 1);
    assert_eq!(docs[0].website.title, "a title");
    assert_eq!(docs[0].website.description, "a description");
}
