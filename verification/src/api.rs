//! The answers of the search API: recommended search terms, a page of search
//! results, and the stored information about one site.
use vstd::prelude::*;
use crate::text::{string_views, split_on, join_with, lemma_join_split, chars_of, chars_to_string, split_chars};

verus! {

/// A recommended search term.
pub struct Recommendation {
    pub text: String,
}

impl Recommendation {
    /// A recommendation of `text`.
    pub fn new(text: &str) -> (r: Recommendation)
        ensures
            r.text@ == text@,
    {
        Recommendation { text: String::from_str(text) }
    }
}

pub open spec fn str_opt_view(q: Option<&str>) -> Option<Seq<char>> {
    match q {
        Some(s) => Some(s@),
        None => None,
    }
}

/// The recommended search terms for a query: the query itself (`foo` when
/// there is none), then `bar`.
pub fn recommended(query: Option<&str>) -> (rs: Vec<Recommendation>)
    ensures
        rs@.len() == 2,
        rs@[0].text@ == (match str_opt_view(query) {
            Some(q) => q,
            None => "foo"@,
        }),
        rs@[1].text@ == "bar"@,
{
    let first = match query {
        Some(q) => Recommendation::new(q),
        None => Recommendation::new("foo"),
    };
    let mut rs: Vec<Recommendation> = Vec::new();
    rs.push(first);
    rs.push(Recommendation::new("bar"));
    rs
}

/// One search hit.
pub struct Site {
    pub title: String,
    pub url: String,
}

impl Site {
    /// The hit from a result row's columns; a missing column reads as
    /// `Unknown`.
    pub fn from_columns(title: Option<String>, url: Option<String>) -> (s: Site)
        ensures
            s.title@ == (match title {
                Some(t) => t@,
                None => "Unknown"@,
            }),
            s.url@ == (match url {
                Some(u) => u@,
                None => "Unknown"@,
            }),
    {
        let title = match title {
            Some(t) => t,
            None => String::from_str("Unknown"),
        };
        let url = match url {
            Some(u) => u,
            None => String::from_str("Unknown"),
        };
        Site { title, url }
    }
}

/// A page of search hits and the number of all hits.
pub struct SearchResults {
    pub sites: Vec<Site>,
    pub count: u32,
}

/// Hits shown on one page of search results.
pub const RESULTS_PER_PAGE: u32 = 30;

pub open spec fn page_offset(page: int) -> int {
    (page - 1) * RESULTS_PER_PAGE
}

/// The number of hits that come before page `page` (pages count from 1).
pub fn search_offset(page: u32) -> (offset: u32)
    requires
        page >= 1,
        page_offset(page as int) <= u32::MAX,
    ensures
        offset == page_offset(page as int),
{
    (page - 1) * RESULTS_PER_PAGE
}

/// Consecutive result pages adjoin: page `p + 1` starts where page `p` ends.
pub proof fn law_result_pages_adjoin(page: int)
    requires
        page >= 1,
    ensures
        page_offset(page + 1) == page_offset(page) + RESULTS_PER_PAGE,
        page_offset(1) == 0,
{
}

/// Page `page` holds the hits at positions `page_offset(page)` up to, but not
/// including, `page_offset(page) + RESULTS_PER_PAGE`.
pub open spec fn on_page(k: int, page: int) -> bool {
    page_offset(page) <= k < page_offset(page) + RESULTS_PER_PAGE
}

/// Every hit, at any position, is on exactly one result page.
pub proof fn law_each_hit_on_one_page(k: int, p: int, q: int)
    requires
        k >= 0,
        p >= 1,
        q >= 1,
    ensures
        on_page(k, k / 30 + 1),
        on_page(k, p) && on_page(k, q) ==> p == q,
{
    assert(on_page(k, k / 30 + 1)) by (nonlinear_arith)
        requires
            k >= 0,
    {
    }
    if on_page(k, p) && on_page(k, q) && p != q {
        if p < q {
            assert((q - 1) * 30 >= p * 30) by (nonlinear_arith)
                requires
                    q >= p + 1,
            {
            }
        } else {
            assert((p - 1) * 30 >= q * 30) by (nonlinear_arith)
                requires
                    p >= q + 1,
            {
            }
        }
    }
}

/// The `LIKE` pattern that matches titles containing `query`.
pub fn title_like_pattern(query: &str) -> (p: String)
    ensures
        p@ == "%"@ + query@ + "%"@,
{
    let mut p = String::from_str("%");
    p.append(query);
    p.append("%");
    p
}

/// What is stored about one site.
pub struct SiteInformation {
    pub title: String,
    pub keywords: Vec<String>,
    pub rank: u32,
}

impl SiteInformation {
    /// The information from a stored row: the keywords column holds the
    /// keywords separated by `,`.
    pub fn from_columns(title: &str, keywords: &str, rank: u32) -> (info: SiteInformation)
        ensures
            info.title@ == title@,
            string_views(info.keywords@) == split_on(keywords@, ','),
            info.rank == rank,
    {
        let parts = split_chars(&chars_of(keywords), ',');
        let mut words: Vec<String> = Vec::new();
        let mut i: usize = 0;
        while i < parts.len()
            invariant
                i <= parts.len(),
                words@.len() == i,
                forall|k: int| 0 <= k < i ==> #[trigger] words@[k]@ == parts@[k]@,
            decreases parts.len() - i,
        {
            words.push(chars_to_string(&parts[i]));
            i = i + 1;
        }
        assert(string_views(words@) =~= split_on(keywords@, ','));
        SiteInformation { title: String::from_str(title), keywords: words, rank }
    }

    /// The answer for a site that is not stored: empty title, no keywords,
    /// rank 0.
    pub fn not_found() -> (info: SiteInformation)
        ensures
            info.title@ == Seq::<char>::empty(),
            info.keywords@.len() == 0,
            info.rank == 0,
    {
        SiteInformation { title: String::new(), keywords: Vec::new(), rank: 0 }
    }
}

/// Joining a site's keywords with `,` gives back the stored keywords text.
pub proof fn law_keywords_rejoin(stored: Seq<char>)
    ensures
        join_with(split_on(stored, ','), ',') == stored,
{
    lemma_join_split(stored, ',');
}

} // verus!
