//! Aggregation of the lookup's postings into one record per page.

use vstd::prelude::*;
use crate::posting::{Keyword, Website, Posting, Page, page_of, postings_of};
use crate::text::views_of;
use crate::terms::{distinct, distinct_terms, lemma_distinct};

verus! {

/// A page that matched the query, with its postings in the order of the lookup.
pub struct Document {
    pub website: Website,
    pub keywords: Vec<Keyword>,
}

/// The mathematical content of a [`Document`].
pub ghost struct Matched {
    pub page: Page,
    pub postings: Seq<Posting>,
}

impl View for Document {
    type V = Matched;

    open spec fn view(&self) -> Matched {
        Matched { page: self.website@, postings: postings_of(self.keywords@) }
    }
}

/// The matched pages that a vector of documents stands for.
pub open spec fn documents_of(docs: Seq<Document>) -> Seq<Matched> {
    docs.map_values(|d: Document| d@)
}

/// The URL of each posting, in order.
pub open spec fn urls_of(postings: Seq<Posting>) -> Seq<Seq<char>> {
    postings.map_values(|p: Posting| p.url)
}

/// The postings of the page at `url`, in order.
pub open spec fn with_url(postings: Seq<Posting>, url: Seq<char>) -> Seq<Posting> {
    postings.filter(|p: Posting| p.url == url)
}

/// The page at `url` as the postings describe it: all its postings, and the
/// title and description of the first of them.
pub open spec fn document_at(postings: Seq<Posting>, url: Seq<char>) -> Matched {
    Matched { page: page_of(with_url(postings, url)[0]), postings: with_url(postings, url) }
}

/// One document for each distinct URL, in the order in which the URLs first occur.
pub open spec fn grouped(postings: Seq<Posting>) -> Seq<Matched> {
    Seq::new(
        distinct(urls_of(postings)).len(),
        |i: int| document_at(postings, distinct(urls_of(postings))[i]),
    )
}

/// A URL that occurs among the postings has at least one posting.
pub proof fn lemma_with_url_nonempty(postings: Seq<Posting>, url: Seq<char>)
    requires
        urls_of(postings).contains(url),
    ensures
        with_url(postings, url).len() > 0,
        with_url(postings, url)[0].url == url,
{
    let i = choose|i: int| 0 <= i < urls_of(postings).len() && urls_of(postings)[i] == url;
    let pred = |p: Posting| p.url == url;
    assert(pred(postings[i]));
    postings.lemma_filter_contains(pred, i);
    postings.lemma_filter_pred(pred, 0);
}

/// Every document of a grouping holds postings of its own URL only, and at
/// least one; no two documents share a URL.
pub proof fn lemma_grouped(postings: Seq<Posting>)
    ensures
        forall|i: int|
            0 <= i < grouped(postings).len() ==> {
                &&& (#[trigger] grouped(postings)[i]).postings.len() > 0
                &&& grouped(postings)[i].page.url == distinct(urls_of(postings))[i]
                &&& forall|k: int|
                    0 <= k < grouped(postings)[i].postings.len() ==> (
                    #[trigger] grouped(postings)[i].postings[k]).url == grouped(
                        postings,
                    )[i].page.url
            },
        forall|i: int, j: int|
            0 <= i < j < grouped(postings).len() ==> (#[trigger] grouped(postings)[i]).page.url != (
            #[trigger] grouped(postings)[j]).page.url,
{
    let urls = distinct(urls_of(postings));
    lemma_distinct(urls_of(postings));
    assert forall|i: int| 0 <= i < grouped(postings).len() implies {
        &&& (#[trigger] grouped(postings)[i]).postings.len() > 0
        &&& grouped(postings)[i].page.url == urls[i]
        &&& forall|k: int|
            0 <= k < grouped(postings)[i].postings.len() ==> (
            #[trigger] grouped(postings)[i].postings[k]).url == grouped(postings)[i].page.url
    } by {
        assert(urls.contains(urls[i]));
        lemma_with_url_nonempty(postings, urls[i]);
        let pred = |p: Posting| p.url == urls[i];
        assert forall|k: int| 0 <= k < with_url(postings, urls[i]).len() implies (
        #[trigger] with_url(postings, urls[i])[k]).url == urls[i] by {
            postings.lemma_filter_pred(pred, k);
        }
    }
}

/// Every posting stands in the document of its URL.
pub proof fn lemma_grouped_covers(postings: Seq<Posting>, k: int)
    requires
        0 <= k < postings.len(),
    ensures
        exists|i: int|
            0 <= i < grouped(postings).len() && (#[trigger] grouped(postings)[i]).page.url
                == postings[k].url && grouped(postings)[i].postings.contains(postings[k]),
{
    let url = postings[k].url;
    let urls = distinct(urls_of(postings));
    lemma_distinct(urls_of(postings));
    assert(urls_of(postings)[k] == url);
    assert(urls_of(postings).contains(url));
    assert(urls.contains(url));
    let i = choose|i: int| 0 <= i < urls.len() && urls[i] == url;
    lemma_grouped(postings);
    let pred = |p: Posting| p.url == url;
    assert(pred(postings[k]));
    postings.lemma_filter_contains(pred, k);
    assert(grouped(postings)[i].postings == with_url(postings, url));
}

/// The URL of each row, in order.
fn urls_of_rows(rows: &Vec<Keyword>) -> (r: Vec<String>)
    ensures
        views_of(r@) == urls_of(postings_of(rows@)),
{
    let mut urls: Vec<String> = Vec::new();
    let mut i: usize = 0;
    while i < rows.len()
        invariant
            i <= rows.len(),
            urls.len() == i,
            forall|j: int| 0 <= j < i ==> (#[trigger] urls@[j])@ == rows@[j]@.url,
        decreases rows.len() - i,
    {
        urls.push(rows[i].url.clone());
        i += 1;
    }
    assert(views_of(urls@) =~= urls_of(postings_of(rows@)));
    urls
}

/// The rows of the page at `url`, in their order.
pub fn keywords_for(rows: &Vec<Keyword>, url: &String) -> (r: Vec<Keyword>)
    ensures
        postings_of(r@) == with_url(postings_of(rows@), url@),
{
    let mut found: Vec<Keyword> = Vec::new();
    let mut i: usize = 0;
    let ghost all = postings_of(rows@);
    proof {
        reveal(Seq::filter);
        assert(all.take(0) =~= Seq::<Posting>::empty());
        assert(postings_of(found@) =~= Seq::<Posting>::empty());
    }
    while i < rows.len()
        invariant
            i <= rows.len(),
            all == postings_of(rows@),
            postings_of(found@) == with_url(all.take(i as int), url@),
        decreases rows.len() - i,
    {
        proof {
            reveal(Seq::filter);
            assert(all.take(i + 1).drop_last() =~= all.take(i as int));
            assert(all.take(i + 1).last() == rows@[i as int]@);
        }
        if rows[i].url == *url {
            let ghost before = postings_of(found@);
            found.push(rows[i].duplicate());
            assert(postings_of(found@) =~= before.push(rows@[i as int]@));
        }
        i += 1;
    }
    assert(all.take(rows.len() as int) =~= all);
    found
}

/// Groups the rows of a lookup by page. There is one document for each
/// distinct URL, in the order in which the URLs first occur; it holds all
/// the rows of that URL in their order, and the title and description of
/// the first of them.
pub fn group_by_document(rows: &Vec<Keyword>) -> (r: Vec<Document>)
    ensures
        documents_of(r@) == grouped(postings_of(rows@)),
{
    let all_urls = urls_of_rows(rows);
    let urls = distinct_terms(&all_urls);
    let ghost postings = postings_of(rows@);
    let mut docs: Vec<Document> = Vec::new();
    let mut i: usize = 0;
    while i < urls.len()
        invariant
            i <= urls.len(),
            postings == postings_of(rows@),
            views_of(urls@) == distinct(urls_of(postings)),
            docs.len() == i,
            forall|j: int| 0 <= j < i ==> (#[trigger] docs@[j])@ == document_at(postings, urls@[j]@),
        decreases urls.len() - i,
    {
        let keywords = keywords_for(rows, &urls[i]);
        proof {
            lemma_distinct(urls_of(postings));
            assert(views_of(urls@)[i as int] == urls@[i as int]@);
            assert(distinct(urls_of(postings)).contains(urls@[i as int]@));
            lemma_with_url_nonempty(postings, urls@[i as int]@);
            assert(postings_of(keywords@)[0] == keywords@[0]@);
        }
        let website = Website::of_keyword(&keywords[0]);
        docs.push(Document { website, keywords });
        i += 1;
    }
    proof {
        assert forall|j: int| 0 <= j < docs.len() implies documents_of(docs@)[j] == grouped(
            postings,
        )[j] by {
            assert(views_of(urls@)[j] == urls@[j]@);
        }
        assert(documents_of(docs@) =~= grouped(postings));
    }
    docs
}

} // verus!
