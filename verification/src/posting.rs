//! The records that the index lookup returns and the pages they describe.

use vstd::prelude::*;

verus! {

/// One row of the index lookup: a term occurs in a page.
pub struct Keyword {
    pub url: String,
    pub word_count: i32,
    pub title: String,
    pub description: String,
    pub word: String,
    pub occurrences: i32,
    pub position: i32,
    pub documents_containing_word: i64,
}

/// The mathematical content of a [`Keyword`].
pub ghost struct Posting {
    pub url: Seq<char>,
    pub word_count: int,
    pub title: Seq<char>,
    pub description: Seq<char>,
    pub word: Seq<char>,
    pub occurrences: int,
    pub position: int,
    pub documents_containing_word: int,
}

impl View for Keyword {
    type V = Posting;

    open spec fn view(&self) -> Posting {
        Posting {
            url: self.url@,
            word_count: self.word_count as int,
            title: self.title@,
            description: self.description@,
            word: self.word@,
            occurrences: self.occurrences as int,
            position: self.position as int,
            documents_containing_word: self.documents_containing_word as int,
        }
    }
}

impl Keyword {
    /// A copy that stands for the same posting.
    pub fn duplicate(&self) -> (r: Keyword)
        ensures
            r@ == self@,
    {
        Keyword {
            url: self.url.clone(),
            word_count: self.word_count,
            title: self.title.clone(),
            description: self.description.clone(),
            word: self.word.clone(),
            occurrences: self.occurrences,
            position: self.position,
            documents_containing_word: self.documents_containing_word,
        }
    }
}

/// What a search result shows of a page. The URL identifies the page.
pub struct Website {
    pub title: String,
    pub description: String,
    pub url: String,
}

/// The mathematical content of a [`Website`].
pub ghost struct Page {
    pub title: Seq<char>,
    pub description: Seq<char>,
    pub url: Seq<char>,
}

impl View for Website {
    type V = Page;

    open spec fn view(&self) -> Page {
        Page { title: self.title@, description: self.description@, url: self.url@ }
    }
}

/// The page that a posting belongs to.
pub open spec fn page_of(p: Posting) -> Page {
    Page { title: p.title, description: p.description, url: p.url }
}

impl Website {
    /// A copy that stands for the same page.
    pub fn duplicate(&self) -> (r: Website)
        ensures
            r@ == self@,
    {
        Website {
            title: self.title.clone(),
            description: self.description.clone(),
            url: self.url.clone(),
        }
    }

    /// The page summary that a posting carries.
    pub fn of_keyword(keyword: &Keyword) -> (r: Website)
        ensures
            r@ == page_of(keyword@),
    {
        Website {
            title: keyword.title.clone(),
            description: keyword.description.clone(),
            url: keyword.url.clone(),
        }
    }
}

/// The postings that a vector of lookup rows stands for.
pub open spec fn postings_of(rows: Seq<Keyword>) -> Seq<Posting> {
    rows.map_values(|k: Keyword| k@)
}

} // verus!
