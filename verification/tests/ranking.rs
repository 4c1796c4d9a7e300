use search_ranker::documents::group_by_document;
use search_ranker::posting::{Keyword, Website};
use search_ranker::ranking::{
    order_results, plan_query, rank_of_bits, score_inputs, sort_by_rank, QueryPlan, ScoredPage,
    TermStats,
};
use search_ranker::text::lemmanize;

fn strings(items: &[&str]) -> Vec<String> {
    items.iter().map(|s| s.to_string()).collect()
}

fn row(url: &str, word: &str, occurrences: i32, word_count: i32, containing: i64) -> Keyword {
    Keyword {
        url: url.to_string(),
        word_count,
        title: format!("title of {} by {}", url, word),
        description: format!("about {} by {}", url, word),
        word: word.to_string(),
        occurrences,
        position: 0,
        documents_containing_word: containing,
    }
}

fn site(url: &str) -> Website {
    Website { title: format!("title of {}", url), description: String::new(), url: url.to_string() }
}

fn similarity(stats: &[TermStats], document_count: i64) -> f32 {
    let mut query_sum: f32 = 0.0;
    let mut document_sum: f32 = 0.0;
    let mut dot: f32 = 0.0;
    for s in stats {
        let tf = s.occurrences as f32 / s.word_count as f32;
        let idf = 1.0 + (document_count as f32 / s.documents_containing_word as f32).ln();
        let weight = tf * idf;
        let query_weight = (s.query_occurrences as f32 / s.query_length as f32) * idf;
        query_sum += query_weight.powi(2);
        document_sum += weight.powi(2);
        dot += query_weight * weight;
    }
    dot / (query_sum.sqrt() * document_sum.sqrt())
}

fn urls(sites: &[Website]) -> Vec<String> {
    sites.iter().map(|s| s.url.clone()).collect()
}

#[test]
fn query_without_terms_asks_nothing() {
    assert!(matches!(plan_query(String::new()), QueryPlan::Empty));
    assert!(matches!(plan_query("...".to_string()), QueryPlan::Empty));
    assert!(matches!(plan_query(" ?! ".to_string()), QueryPlan::Empty));
}

#[test]
fn query_with_terms_asks_for_its_distinct_terms() {
    match plan_query("Cat, dog & CAT!".to_string()) {
        QueryPlan::Lookup { terms, distinct } => {
            assert_eq!(terms, strings(&["cat", "dog", "cat"]));
            assert_eq!(distinct, strings(&["cat", "dog"]));
        }
        QueryPlan::Empty => panic!("the query has terms"),
    }
}

#[test]
fn groups_rows_by_url_in_first_seen_order() {
    let rows = vec![
        row("b", "cat", 2, 5, 2),
        row("a", "cat", 1, 10, 2),
        row("b", "dog", 3, 5, 1),
        row("c", "dog", 1, 7, 1),
        row("a", "dog", 1, 10, 1),
    ];
    let docs = group_by_document(&rows);
    assert_eq!(docs.len(), 3);
    assert_eq!(docs[0].website.url, "b");
    assert_eq!(docs[1].website.url, "a");
    assert_eq!(docs[2].website.url, "c");
    let words: Vec<Vec<String>> =
        docs.iter().map(|d| d.keywords.iter().map(|k| k.word.clone()).collect()).collect();
    assert_eq!(words, vec![strings(&["cat", "dog"]), strings(&["cat", "dog"]), strings(&["dog"])]);
    assert_eq!(docs[0].keywords[1].occurrences, 3);
    assert_eq!(docs[0].website.title, "title of b by cat");
    assert_eq!(docs[0].website.description, "about b by cat");
    assert_eq!(docs[2].website.title, "title of c by dog");
}

#[test]
fn no_rows_give_no_documents() {
    assert_eq!(group_by_document(&Vec::new()).len(), 0);
    assert_eq!(score_inputs(&Vec::new(), &strings(&["cat"])).len(), 0);
}

#[test]
fn statistics_carry_query_counts_and_row_numbers() {
    let terms = lemmanize("cat dog cat".to_string());
    let rows = vec![row("a", "dog", 4, 20, 3), row("a", "cat", 1, 20, 9)];
    let scorings = score_inputs(&rows, &terms);
    assert_eq!(scorings.len(), 1);
    assert_eq!(scorings[0].website.url, "a");
    assert_eq!(
        scorings[0].stats,
        vec![
            TermStats {
                query_occurrences: 1,
                query_length: 3,
                occurrences: 4,
                word_count: 20,
                documents_containing_word: 3,
            },
            TermStats {
                query_occurrences: 2,
                query_length: 3,
                occurrences: 1,
                word_count: 20,
                documents_containing_word: 9,
            },
        ]
    );
}

#[test]
fn two_documents_scenario() {
    let document_count: i64 = 2;
    let (terms, distinct) = match plan_query("cat dog".to_string()) {
        QueryPlan::Lookup { terms, distinct } => (terms, distinct),
        QueryPlan::Empty => panic!("the query has terms"),
    };
    assert_eq!(distinct, strings(&["cat", "dog"]));
    let rows =
        vec![row("doc-a", "cat", 1, 10, 2), row("doc-a", "dog", 1, 10, 1), row("doc-b", "cat", 2, 5, 2)];
    let scorings = score_inputs(&rows, &terms);
    assert_eq!(scorings.len(), 2);
    assert_eq!(scorings[0].website.url, "doc-a");
    assert_eq!(scorings[1].website.url, "doc-b");
    assert_eq!(scorings[0].stats.len(), 2);
    assert_eq!(scorings[1].stats.len(), 1);
    assert_eq!(
        scorings[1].stats[0],
        TermStats {
            query_occurrences: 1,
            query_length: 2,
            occurrences: 2,
            word_count: 5,
            documents_containing_word: 2,
        }
    );

    // Doc A: cat has idf 1, dog has idf 1 + ln 2; both vectors are parallel.
    let idf_dog = 1.0 + 2.0_f32.ln();
    let dot = 0.5 * 0.1 + (0.5 * idf_dog) * (0.1 * idf_dog);
    let q = (0.25 + (0.5 * idf_dog).powi(2)).sqrt();
    let d = (0.01 + (0.1 * idf_dog).powi(2)).sqrt();
    let expected_a = dot / (q * d);
    let a = similarity(&scorings[0].stats, document_count);
    let b = similarity(&scorings[1].stats, document_count);
    assert!((a - expected_a).abs() < 1e-6);
    assert!((a - 1.0).abs() < 1e-6);
    // Doc B: one term, weight 0.5 in the query and 0.4 in the page.
    assert!((b - (0.5 * 0.4) / (0.5 * 0.4)).abs() < 1e-6);
    assert!(a.is_finite() && b.is_finite());
    assert!((0.0..=1.0 + 1e-6).contains(&a) && (0.0..=1.0 + 1e-6).contains(&b));
    assert_eq!(a.to_bits(), similarity(&score_inputs(&rows, &terms)[0].stats, document_count).to_bits());

    let scored: Vec<ScoredPage> = scorings
        .into_iter()
        .map(|s| ScoredPage {
            rank: rank_of_bits(similarity(&s.stats, document_count).to_bits()),
            website: s.website,
        })
        .collect();
    let mut found = urls(&order_results(&scored));
    found.sort();
    assert_eq!(found, strings(&["doc-a", "doc-b"]));
}

#[test]
fn partial_match_scores_below_one_when_terms_weigh_differently() {
    let terms = strings(&["cat", "dog"]);
    let rows = vec![row("a", "cat", 1, 10, 1), row("a", "dog", 5, 10, 1)];
    let s = similarity(&score_inputs(&rows, &terms)[0].stats, 1);
    // q = (0.5, 0.5), d = (0.1, 0.5): cosine = 0.3 / (sqrt(0.5) * sqrt(0.26)).
    let expected = 0.3_f32 / (0.5_f32.sqrt() * 0.26_f32.sqrt());
    assert!((s - expected).abs() < 1e-6);
    assert!(s > 0.0 && s < 1.0);
}

#[test]
fn results_are_ordered_least_similar_first() {
    let scored = vec![
        ScoredPage { rank: rank_of_bits(0.9_f32.to_bits()), website: site("high") },
        ScoredPage { rank: rank_of_bits(0.3_f32.to_bits()), website: site("low") },
    ];
    assert_eq!(urls(&order_results(&scored)), strings(&["low", "high"]));
    let scored = vec![
        ScoredPage { rank: rank_of_bits(0.3_f32.to_bits()), website: site("low") },
        ScoredPage { rank: rank_of_bits(0.9_f32.to_bits()), website: site("high") },
    ];
    assert_eq!(urls(&order_results(&scored)), strings(&["low", "high"]));
}

#[test]
fn equal_ranks_keep_their_order() {
    let scored = vec![
        ScoredPage { rank: 5, website: site("first") },
        ScoredPage { rank: 1, website: site("least") },
        ScoredPage { rank: 5, website: site("second") },
        ScoredPage { rank: 9, website: site("most") },
        ScoredPage { rank: 5, website: site("third") },
    ];
    assert_eq!(
        urls(&order_results(&scored)),
        strings(&["least", "first", "second", "third", "most"])
    );
    let sorted = sort_by_rank(&scored);
    assert_eq!(sorted.iter().map(|s| s.rank).collect::<Vec<u32>>(), vec![1, 5, 5, 5, 9]);
    assert_eq!(sorted[0].website.title, "title of least");
}

#[test]
fn ordering_nothing_gives_nothing() {
    assert_eq!(order_results(&Vec::new()).len(), 0);
}

#[test]
fn rank_follows_the_similarity() {
    let values: [f32; 9] =
        [f32::NEG_INFINITY, -2.5, -1.0e-30, 0.0, 1.0e-40, 0.3, 0.9, 1.0, f32::INFINITY];
    for pair in values.windows(2) {
        assert!(rank_of_bits(pair[0].to_bits()) < rank_of_bits(pair[1].to_bits()));
    }
}

#[test]
fn rank_has_exact_values() {
    assert_eq!(rank_of_bits(0), 0x8000_0000);
    assert_eq!(rank_of_bits(1.0_f32.to_bits()), 0xBF80_0000);
    assert_eq!(rank_of_bits((-1.0_f32).to_bits()), 0x407F_FFFF);
    assert_eq!(rank_of_bits(f32::INFINITY.to_bits()), 0xFF80_0000);
    assert_eq!(rank_of_bits(f32::NEG_INFINITY.to_bits()), 0x007F_FFFF);
}

#[test]
fn zero_has_one_rank() {
    assert_eq!(rank_of_bits((-0.0_f32).to_bits()), rank_of_bits(0.0_f32.to_bits()));
}

#[test]
fn undefined_similarity_ranks_lowest() {
    assert_eq!(rank_of_bits(f32::NAN.to_bits()), 0);
    assert_eq!(rank_of_bits((0.0_f32 / 0.0_f32).to_bits()), 0);
    assert_eq!(rank_of_bits(0xFFC0_0001), 0);
    assert!(rank_of_bits(f32::NEG_INFINITY.to_bits()) > 0);
    let scored = vec![
        ScoredPage { rank: rank_of_bits(0.5_f32.to_bits()), website: site("defined") },
        ScoredPage { rank: rank_of_bits(f32::NAN.to_bits()), website: site("undefined") },
    ];
    assert_eq!(urls(&order_results(&scored)), strings(&["undefined", "defined"]));
}

#[test]
fn page_without_weight_has_an_undefined_similarity() {
    let terms = strings(&["cat"]);
    let rows = vec![row("a", "cat", 0, 10, 1)];
    let s = similarity(&score_inputs(&rows, &terms)[0].stats, 1);
    assert!(s.is_nan());
    assert_eq!(rank_of_bits(s.to_bits()), 0);
}
