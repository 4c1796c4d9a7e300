//! The steps of one query around the index lookup: what to ask the index
//! for, the exact quantities from which each page is scored, and the order
//! of the scored pages.

use vstd::prelude::*;
use vstd::seq_lib::*;
use crate::posting::{Keyword, Website, Posting, Page, postings_of};
use crate::text::{views_of, terms_of, lemmanize};
use crate::terms::{count_of, count_term, distinct, distinct_terms};
use crate::documents::{Document, grouped, group_by_document, documents_of, Matched};

verus! {

/// What a query asks of the index.
pub enum QueryPlan {
    /// The query has no term: the answer is empty and the index is not asked.
    Empty,
    /// The terms of the query in order, and the distinct terms to look up.
    Lookup { terms: Vec<String>, distinct: Vec<String> },
}

/// Decides from the query text whether the index is asked at all, and for
/// which terms. A text without a term gives `Empty`; any other gives its
/// terms and, in the order of first occurrence, its distinct terms.
pub fn plan_query(text: String) -> (r: QueryPlan)
    ensures
        terms_of(text@).len() == 0 <==> r is Empty,
        match r {
            QueryPlan::Empty => true,
            QueryPlan::Lookup { terms, distinct: asked } => {
                &&& views_of(terms@) == terms_of(text@)
                &&& views_of(asked@) == distinct(terms_of(text@))
            },
        },
{
    let terms = lemmanize(text);
    if terms.len() == 0 {
        QueryPlan::Empty
    } else {
        let asked = distinct_terms(&terms);
        QueryPlan::Lookup { terms, distinct: asked }
    }
}

/// The integers from which the weights of one term in one page are computed:
/// the term makes up `query_occurrences / query_length` of the query and
/// `occurrences / word_count` of the page, and `documents_containing_word`
/// pages of the corpus hold it.
#[derive(Clone, Copy, Debug, PartialEq, Eq, Structural)]
pub struct TermStats {
    pub query_occurrences: usize,
    pub query_length: usize,
    pub occurrences: i32,
    pub word_count: i32,
    pub documents_containing_word: i64,
}

/// The statistics of the term of one posting, for a query with the given terms.
pub open spec fn stats_match(stats: TermStats, terms: Seq<Seq<char>>, posting: Posting) -> bool {
    &&& stats.query_occurrences == count_of(terms, posting.word)
    &&& stats.query_length == terms.len()
    &&& stats.occurrences == posting.occurrences
    &&& stats.word_count == posting.word_count
    &&& stats.documents_containing_word == posting.documents_containing_word
}

/// A page with the statistics of each of its postings, in their order.
pub struct Scoring {
    pub website: Website,
    pub stats: Vec<TermStats>,
}

/// Whether a scoring is that of the matched page `doc` for a query with the
/// given terms.
pub open spec fn scoring_matches(scoring: Scoring, terms: Seq<Seq<char>>, doc: Matched) -> bool {
    &&& scoring.website@ == doc.page
    &&& scoring.stats@.len() == doc.postings.len()
    &&& forall|k: int|
        0 <= k < doc.postings.len() ==> stats_match(
            #[trigger] scoring.stats@[k],
            terms,
            doc.postings[k],
        )
}

/// The statistics of each posting of a page: only the terms that the page
/// holds take part in its score.
pub fn score_terms(doc: &Document, terms: &Vec<String>) -> (r: Vec<TermStats>)
    ensures
        r@.len() == doc@.postings.len(),
        forall|k: int|
            0 <= k < r@.len() ==> stats_match(#[trigger] r@[k], views_of(terms@), doc@.postings[k]),
{
    let mut stats: Vec<TermStats> = Vec::new();
    let mut i: usize = 0;
    while i < doc.keywords.len()
        invariant
            i <= doc.keywords.len(),
            stats@.len() == i,
            forall|k: int|
                0 <= k < i ==> stats_match(
                    #[trigger] stats@[k],
                    views_of(terms@),
                    doc@.postings[k],
                ),
        decreases doc.keywords.len() - i,
    {
        let keyword = &doc.keywords[i];
        assert(doc@.postings[i as int] == keyword@);
        stats.push(
            TermStats {
                query_occurrences: count_term(terms, &keyword.word),
                query_length: terms.len(),
                occurrences: keyword.occurrences,
                word_count: keyword.word_count,
                documents_containing_word: keyword.documents_containing_word,
            },
        );
        i += 1;
    }
    stats
}

/// Groups the rows of a lookup by page and gives, for each page, the
/// statistics of its postings. The pages come in the order in which their
/// URLs first occur among the rows, so equal rows give equal scorings.
pub fn score_inputs(rows: &Vec<Keyword>, terms: &Vec<String>) -> (r: Vec<Scoring>)
    ensures
        r@.len() == grouped(postings_of(rows@)).len(),
        forall|i: int|
            0 <= i < r@.len() ==> scoring_matches(
                #[trigger] r@[i],
                views_of(terms@),
                grouped(postings_of(rows@))[i],
            ),
{
    let docs = group_by_document(rows);
    let mut scorings: Vec<Scoring> = Vec::new();
    let mut i: usize = 0;
    while i < docs.len()
        invariant
            i <= docs.len(),
            scorings@.len() == i,
            documents_of(docs@) == grouped(postings_of(rows@)),
            forall|j: int|
                0 <= j < i ==> scoring_matches(
                    #[trigger] scorings@[j],
                    views_of(terms@),
                    grouped(postings_of(rows@))[j],
                ),
        decreases docs.len() - i,
    {
        assert(documents_of(docs@)[i as int] == docs@[i as int]@);
        let stats = score_terms(&docs[i], terms);
        let website = docs[i].website.duplicate();
        scorings.push(Scoring { website, stats });
        i += 1;
    }
    scorings
}

/// Whether the bits of a single-precision number stand for no number: all
/// exponent bits set and a fraction that is not zero.
pub open spec fn is_undefined(bits: u32) -> bool {
    (bits & 0x7FFF_FFFF) > 0x7F80_0000
}

/// The rank of a similarity given by its single-precision bits. An undefined
/// similarity has rank 0, below every other; zero has one rank whatever its
/// sign; a number below zero has the complement of its bits, and any other
/// its bits with the sign bit set.
pub open spec fn rank_of(bits: u32) -> u32 {
    if is_undefined(bits) {
        0
    } else if bits == 0x8000_0000 {
        0x8000_0000
    } else if bits > 0x8000_0000 {
        !bits
    } else {
        bits | 0x8000_0000
    }
}

/// The rank of a similarity, from the bits of its single-precision value.
pub fn rank_of_bits(bits: u32) -> (r: u32)
    ensures
        r == rank_of(bits),
{
    if (bits & 0x7FFF_FFFF) > 0x7F80_0000 {
        0
    } else if bits == 0x8000_0000 {
        0x8000_0000
    } else if bits > 0x8000_0000 {
        !bits
    } else {
        bits | 0x8000_0000
    }
}

/// Ranks order similarities as their values do. An undefined similarity
/// ranks below every defined one. Of two defined similarities that are not
/// below zero, the one with the greater bits ranks higher; of two below zero,
/// the one with the greater bits, which is further from zero, ranks lower;
/// and one below zero ranks below one that is not.
pub proof fn lemma_rank_orders(a: u32, b: u32)
    ensures
        is_undefined(a) ==> rank_of(a) == 0,
        !is_undefined(a) ==> rank_of(a) > 0,
        !is_undefined(a) && !is_undefined(b) && a < 0x8000_0000 && b < 0x8000_0000 ==> (a < b
            <==> rank_of(a) < rank_of(b)),
        !is_undefined(a) && !is_undefined(b) && a > 0x8000_0000 && b > 0x8000_0000 ==> (a < b
            <==> rank_of(a) > rank_of(b)),
        !is_undefined(a) && !is_undefined(b) && a > 0x8000_0000 && b <= 0x8000_0000 ==> rank_of(a)
            < rank_of(b),
        rank_of(0x8000_0000) == rank_of(0),
{
    assert(0u32 | 0x8000_0000 == 0x8000_0000) by (bit_vector);
    assert((0x8000_0000u32 & 0x7FFF_FFFF) == 0) by (bit_vector);
    assert((0u32 & 0x7FFF_FFFF) == 0) by (bit_vector);
    assert(a <= 0x8000_0000 ==> (a | 0x8000_0000) >= 0x8000_0000) by (bit_vector);
    assert(b <= 0x8000_0000 ==> (b | 0x8000_0000) >= 0x8000_0000) by (bit_vector);
    assert(a > 0x8000_0000 && (a & 0x7FFF_FFFF) <= 0x7F80_0000 ==> 0 < !a < 0x8000_0000)
        by (bit_vector);
    assert(a < 0x8000_0000 && b < 0x8000_0000 ==> (a < b <==> (a | 0x8000_0000) < (b
        | 0x8000_0000))) by (bit_vector);
    assert(a < b <==> !a > !b) by (bit_vector);
}

/// A page with the rank of its similarity: a greater similarity has a
/// greater rank, and an undefined one the least.
pub struct ScoredPage {
    pub rank: u32,
    pub website: Website,
}

/// The mathematical content of a [`ScoredPage`].
pub ghost struct Ranked {
    pub rank: int,
    pub page: Page,
}

impl View for ScoredPage {
    type V = Ranked;

    open spec fn view(&self) -> Ranked {
        Ranked { rank: self.rank as int, page: self.website@ }
    }
}

/// The ranked pages that a vector of scored pages stands for.
pub open spec fn ranked_of(scored: Seq<ScoredPage>) -> Seq<Ranked> {
    scored.map_values(|s: ScoredPage| s@)
}

/// The pages that a vector of websites stands for.
pub open spec fn pages_of(sites: Seq<Website>) -> Seq<Page> {
    sites.map_values(|w: Website| w@)
}

/// Whether the ranks never fall from left to right.
pub open spec fn is_ascending(items: Seq<Ranked>) -> bool {
    forall|i: int, j: int| 0 <= i < j < items.len() ==> items[i].rank <= items[j].rank
}

/// Where a page of the given rank goes in an ascending sequence: behind
/// the last page whose rank is not greater.
pub open spec fn place_of(sorted: Seq<Ranked>, rank: int) -> int
    decreases sorted.len(),
{
    if sorted.len() == 0 {
        0
    } else if sorted.last().rank <= rank {
        sorted.len() as int
    } else {
        place_of(sorted.drop_last(), rank)
    }
}

/// The pages in ascending order of rank, least similar first; pages of
/// equal rank keep the order in which they came.
pub open spec fn ascending(items: Seq<Ranked>) -> Seq<Ranked>
    decreases items.len(),
{
    if items.len() == 0 {
        Seq::empty()
    } else {
        let sorted = ascending(items.drop_last());
        sorted.insert(place_of(sorted, items.last().rank), items.last())
    }
}

/// The place of a rank lies within the sequence; before it no rank is
/// greater, and from it on, in an ascending sequence, every rank is greater.
pub proof fn lemma_place_of(sorted: Seq<Ranked>, rank: int)
    ensures
        0 <= place_of(sorted, rank) <= sorted.len(),
        forall|k: int| place_of(sorted, rank) <= k < sorted.len() ==> sorted[k].rank > rank,
        is_ascending(sorted) ==> forall|k: int|
            0 <= k < place_of(sorted, rank) ==> sorted[k].rank <= rank,
    decreases sorted.len(),
{
    if sorted.len() > 0 && sorted.last().rank > rank {
        lemma_place_of(sorted.drop_last(), rank);
        assert forall|k: int| 0 <= k < sorted.drop_last().len() implies sorted.drop_last()[k]
            == sorted[k] by {}
        if is_ascending(sorted) {
            assert(is_ascending(sorted.drop_last()));
        }
    }
}

/// The ordering is ascending, and it holds the same pages as often as the
/// input does.
pub proof fn lemma_ascending(items: Seq<Ranked>)
    ensures
        is_ascending(ascending(items)),
        ascending(items).len() == items.len(),
        ascending(items).to_multiset() == items.to_multiset(),
    decreases items.len(),
{
    broadcast use {to_multiset_build, to_multiset_insert};

    if items.len() > 0 {
        let front = items.drop_last();
        let last = items.last();
        let sorted = ascending(front);
        let p = place_of(sorted, last.rank);
        lemma_ascending(front);
        lemma_place_of(sorted, last.rank);
        assert(items =~= front.push(last));
        let out = sorted.insert(p, last);
        assert forall|i: int, j: int| 0 <= i < j < out.len() implies out[i].rank
            <= out[j].rank by {
            if j < p {
                assert(out[i] == sorted[i] && out[j] == sorted[j]);
            } else if j == p {
                assert(out[i] == sorted[i]);
            } else if i < p {
                assert(out[i] == sorted[i] && out[j] == sorted[j - 1]);
            } else if i == p {
                assert(out[j] == sorted[j - 1]);
            } else {
                assert(out[i] == sorted[i - 1] && out[j] == sorted[j - 1]);
            }
        }
    } else {
        assert(ascending(items) =~= items);
    }
}

/// The pages of one rank, in their order.
pub open spec fn of_rank(items: Seq<Ranked>, rank: int) -> Seq<Ranked> {
    items.filter(|x: Ranked| x.rank == rank)
}

proof fn lemma_none_of_rank(items: Seq<Ranked>, rank: int)
    requires
        forall|k: int| 0 <= k < items.len() ==> items[k].rank != rank,
    ensures
        of_rank(items, rank) == Seq::<Ranked>::empty(),
    decreases items.len(),
{
    reveal(Seq::filter);
    if items.len() > 0 {
        lemma_none_of_rank(items.drop_last(), rank);
    }
}

/// The ordering is stable: the pages of any one rank stand in it in the
/// order in which they came.
pub proof fn lemma_ascending_is_stable(items: Seq<Ranked>, rank: int)
    ensures
        of_rank(ascending(items), rank) == of_rank(items, rank),
    decreases items.len(),
{
    reveal(Seq::filter);
    if items.len() > 0 {
        let pred = |x: Ranked| x.rank == rank;
        let front = items.drop_last();
        let last = items.last();
        let sorted = ascending(front);
        let p = place_of(sorted, last.rank);
        lemma_ascending_is_stable(front, rank);
        lemma_ascending(front);
        lemma_place_of(sorted, last.rank);
        let low = sorted.take(p);
        let high = sorted.skip(p);
        assert(sorted =~= low + high);
        assert(sorted.insert(p, last) =~= low.push(last) + high);
        Seq::filter_distributes_over_add(low, high, pred);
        Seq::filter_distributes_over_add(low.push(last), high, pred);
        assert(low.push(last).drop_last() =~= low);
        if last.rank == rank {
            lemma_none_of_rank(high, rank);
            assert(of_rank(low.push(last), rank) + of_rank(high, rank) =~= of_rank(low, rank).push(
                last,
            ));
            assert(of_rank(low, rank) + of_rank(high, rank) =~= of_rank(low, rank));
        }
    }
}

/// Two scorings of one page for one query agree: the page and the
/// statistics are determined by the postings and the terms alone.
pub proof fn lemma_scoring_is_determined(
    a: Scoring,
    b: Scoring,
    terms: Seq<Seq<char>>,
    doc: Matched,
)
    requires
        scoring_matches(a, terms, doc),
        scoring_matches(b, terms, doc),
    ensures
        a.website@ == b.website@,
        a.stats@ == b.stats@,
{
    assert(a.stats@ =~= b.stats@);
}

fn place(sorted: &Vec<ScoredPage>, rank: u32) -> (r: usize)
    ensures
        r == place_of(ranked_of(sorted@), rank as int),
        r <= sorted.len(),
{
    let ghost all = ranked_of(sorted@);
    let mut j: usize = sorted.len();
    assert(all.take(j as int) =~= all);
    while j > 0 && sorted[j - 1].rank > rank
        invariant
            j <= sorted.len(),
            all == ranked_of(sorted@),
            place_of(all, rank as int) == place_of(all.take(j as int), rank as int),
        decreases j,
    {
        assert(all.take(j as int).drop_last() =~= all.take(j - 1));
        j -= 1;
    }
    proof {
        if j > 0 {
            assert(all.take(j as int).last() == sorted@[j - 1]@);
        }
    }
    j
}

/// Sorts scored pages by ascending rank, least similar first. Pages of equal
/// rank keep their order.
pub fn sort_by_rank(scored: &Vec<ScoredPage>) -> (r: Vec<ScoredPage>)
    ensures
        ranked_of(r@) == ascending(ranked_of(scored@)),
        r@.len() == scored@.len(),
        is_ascending(ranked_of(r@)),
        ranked_of(r@).to_multiset() == ranked_of(scored@).to_multiset(),
{
    let ghost all = ranked_of(scored@);
    let mut sorted: Vec<ScoredPage> = Vec::new();
    let mut i: usize = 0;
    proof {
        assert(all.take(0) =~= Seq::<Ranked>::empty());
        assert(ranked_of(sorted@) =~= Seq::<Ranked>::empty());
    }
    while i < scored.len()
        invariant
            i <= scored.len(),
            all == ranked_of(scored@),
            ranked_of(sorted@) == ascending(all.take(i as int)),
        decreases scored.len() - i,
    {
        let item = ScoredPage { rank: scored[i].rank, website: scored[i].website.duplicate() };
        let at = place(&sorted, item.rank);
        let ghost before = ranked_of(sorted@);
        proof {
            assert(all.take(i + 1).drop_last() =~= all.take(i as int));
            assert(all.take(i + 1).last() == item@);
        }
        sorted.insert(at, item);
        assert(ranked_of(sorted@) =~= before.insert(at as int, item@));
        i += 1;
    }
    proof {
        assert(all.take(scored.len() as int) =~= all);
        lemma_ascending(all);
    }
    sorted
}

/// The answer to a query: the pages in ascending order of rank, least
/// similar first, without their ranks.
pub fn order_results(scored: &Vec<ScoredPage>) -> (r: Vec<Website>)
    ensures
        pages_of(r@) == ascending(ranked_of(scored@)).map_values(|s: Ranked| s.page),
        r@.len() == scored@.len(),
{
    let sorted = sort_by_rank(scored);
    let mut sites: Vec<Website> = Vec::new();
    let mut i: usize = 0;
    while i < sorted.len()
        invariant
            i <= sorted.len(),
            sites@.len() == i,
            forall|j: int| 0 <= j < i ==> (#[trigger] sites@[j])@ == sorted@[j]@.page,
        decreases sorted.len() - i,
    {
        sites.push(sorted[i].website.duplicate());
        i += 1;
    }
    assert(pages_of(sites@) =~= ranked_of(sorted@).map_values(|s: Ranked| s.page));
    sites
}

} // verus!
