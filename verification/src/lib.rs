//! Ranking core of a small web search service: query normalisation,
//! per-document aggregation of index postings, exact query term statistics,
//! the ordering of scored pages, and the text of the index lookup statement.

pub mod text;
pub mod posting;
pub mod terms;
pub mod documents;
pub mod ranking;
pub mod lookup;
