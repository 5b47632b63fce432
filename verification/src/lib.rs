//! A small web search engine's core: URL resolution for crawled links, page
//! extraction, crawl decisions, and the shapes of the search API's answers.
use vstd::prelude::*;

pub mod text;
pub mod url;
pub mod page;
pub mod crawl;
pub mod api;

verus! {

/// How many downloads run at once.
pub const CONCURRENT_INDEXING_AMOUNT: u16 = 10;

/// How many staged sites the crawler takes from the staging table per round.
pub const STAGED_BATCH_SIZE: u16 = 100;

/// The number of staged sites the crawler takes per round.
pub fn batch_size() -> (n: u16)
    ensures
        n == STAGED_BATCH_SIZE,
{
    STAGED_BATCH_SIZE
}

/// The number of downloads the crawler runs at once.
pub fn concurrent_requests() -> (n: u16)
    ensures
        n == CONCURRENT_INDEXING_AMOUNT,
{
    CONCURRENT_INDEXING_AMOUNT
}

} // verus!
