//! What the crawler keeps of a downloaded page: its title, its keywords, and
//! the distinct crawlable links it holds.
use vstd::prelude::*;
use crate::text::{string_views, chars_of, split_chars, vec_starts_with, lemma_split_on_nonempty};
use crate::url::{
    opt_view, needs_base, has_host_part, crawlable_link, parse_relative_url, is_http_url,
    strip_query_fragment, captures_site_path, http_prefix, https_prefix, slash, dot_slash,
};

verus! {

/// The text of the first `title` element of the document, as scraper's
/// `Html::parse_document` and `Selector` `title` find it.
pub uninterp spec fn html_first_title(html: Seq<char>) -> Option<Seq<char>>;

/// The `content` attribute of the first `meta[name='keywords']` element, as
/// scraper finds it: outer `None` when there is no such element.
pub uninterp spec fn html_keywords_meta(html: Seq<char>) -> Option<Option<Seq<char>>>;

/// The `href` attribute of each `a` element, in document order, as scraper
/// finds them.
pub uninterp spec fn html_link_hrefs(html: Seq<char>) -> Seq<Option<Seq<char>>>;

/// Calls `scraper::Html::parse_document` on `html`, selects `title` with
/// `scraper::Selector::parse("title")` and `Html::select`, and collects the
/// text (`ElementRef::text`) of the first match. The contract claims only
/// that the result is a function of the document text, named
/// `html_first_title`.
#[verifier::external_body]
fn first_title_text(html: &str) -> (r: Option<String>)
    ensures
        opt_view(r) == html_first_title(html@),
{
    let doc = scraper::Html::parse_document(html);
    let selector = scraper::Selector::parse("title").unwrap();
    match doc.select(&selector).next() {
        Some(e) => Some(e.text().collect::<String>()),
        None => None,
    }
}

/// Calls `scraper::Html::parse_document` on `html`, selects
/// `meta[name='keywords']`, and reads the `content` attribute
/// (`Element::attr`) of the first match. The contract claims only that the
/// result is a function of the document text, named `html_keywords_meta`.
#[verifier::external_body]
fn first_keywords_content(html: &str) -> (r: Option<Option<String>>)
    ensures
        match r {
            None => html_keywords_meta(html@) is None,
            Some(a) => html_keywords_meta(html@) == Some(opt_view(a)),
        },
{
    let doc = scraper::Html::parse_document(html);
    let selector = scraper::Selector::parse("meta[name='keywords']").unwrap();
    match doc.select(&selector).next() {
        Some(e) => Some(e.value().attr("content").map(String::from)),
        None => None,
    }
}

/// Views of a list of optional strings.
pub open spec fn opt_views(v: Seq<Option<String>>) -> Seq<Option<Seq<char>>> {
    v.map_values(|h: Option<String>| opt_view(h))
}

/// Calls `scraper::Html::parse_document` on `html`, selects `a` and reads
/// the `href` attribute (`Element::attr`) of every match, in document order.
/// The contract claims only that the result is a function of the document
/// text, named `html_link_hrefs`.
#[verifier::external_body]
fn link_hrefs(html: &str) -> (r: Vec<Option<String>>)
    ensures
        opt_views(r@) == html_link_hrefs(html@),
{
    let doc = scraper::Html::parse_document(html);
    let selector = scraper::Selector::parse("a").unwrap();
    let mut hrefs = Vec::new();
    for e in doc.select(&selector) {
        hrefs.push(e.value().attr("href").map(String::from));
    }
    hrefs
}

/// An absent `href` reads as the empty link.
pub open spec fn href_text(h: Option<Seq<char>>) -> Seq<char> {
    match h {
        Some(t) => t,
        None => Seq::<char>::empty(),
    }
}

/// The distinct, non-empty crawlable links of the `href`s, in the order of
/// their first appearance.
pub open spec fn page_links_of(base: Seq<char>, hrefs: Seq<Option<Seq<char>>>) -> Seq<Seq<char>>
    decreases hrefs.len(),
{
    if hrefs.len() == 0 {
        Seq::<Seq<char>>::empty()
    } else {
        let prev = page_links_of(base, hrefs.drop_last());
        let link = crawlable_link(base, href_text(hrefs.last()));
        if link.len() == 0 || prev.contains(link) {
            prev
        } else {
            prev.push(link)
        }
    }
}

/// Every `href` can be resolved against `base` without reading a host part
/// that `base` lacks.
pub open spec fn links_resolvable(base: Seq<char>, hrefs: Seq<Option<Seq<char>>>) -> bool {
    forall|i: int| 0 <= i < hrefs.len() && needs_base(href_text(#[trigger] hrefs[i])) ==> has_host_part(base)
}

/// The title the page is indexed under.
pub open spec fn page_title(html: Seq<char>) -> Seq<char> {
    match html_first_title(html) {
        Some(t) => t,
        None => "No title"@,
    }
}

/// The keywords the page is indexed under.
pub open spec fn page_keywords(html: Seq<char>) -> Seq<char> {
    match html_keywords_meta(html) {
        None => "No keywords"@,
        Some(Some(k)) => k,
        Some(None) => ""@,
    }
}

/// What the crawler keeps of a page.
pub struct PageInfo {
    pub title: String,
    pub keywords: String,
    pub links: Vec<String>,
}

/// Whether resolving `relative_url` reads the host part of the page address.
pub fn link_needs_base(relative_url: &str) -> (b: bool)
    ensures
        b == needs_base(relative_url@),
{
    let all = chars_of(relative_url);
    let by_query = split_chars(&all, '?');
    proof {
        lemma_split_on_nonempty(all@, '?');
    }
    let by_hash = split_chars(&by_query[0], '#');
    proof {
        lemma_split_on_nonempty(by_query@[0]@, '#');
    }
    let rel = &by_hash[0];
    assert(rel@ == strip_query_fragment(relative_url@));
    let http: Vec<char> = vec!['h', 't', 't', 'p', ':', '/', '/'];
    let https: Vec<char> = vec!['h', 't', 't', 'p', 's', ':', '/', '/'];
    let sl: Vec<char> = vec!['/'];
    let dot_sl: Vec<char> = vec!['.', '/'];
    assert(http@ == http_prefix());
    assert(https@ == https_prefix());
    assert(sl@ == slash());
    assert(dot_sl@ == dot_slash());
    if vec_starts_with(rel, &http) || vec_starts_with(rel, &https) {
        return false;
    }
    if vec_starts_with(rel, &sl) || vec_starts_with(rel, &dot_sl) {
        return true;
    }
    let rel_text = crate::text::chars_to_string(rel);
    captures_site_path(&rel_text).is_none()
}

/// Whether the page address has a scheme and a host part.
pub fn base_has_host_part(base_url: &str) -> (b: bool)
    ensures
        b == has_host_part(base_url@),
{
    let parts = split_chars(&chars_of(base_url), '/');
    parts.len() >= 3
}

/// Whether every `href` can be resolved against `base_url`.
fn hrefs_resolvable(base_url: &str, hrefs: &Vec<Option<String>>) -> (b: bool)
    ensures
        b == links_resolvable(base_url@, opt_views(hrefs@)),
{
    if base_has_host_part(base_url) {
        return true;
    }
    let mut i: usize = 0;
    while i < hrefs.len()
        invariant
            i <= hrefs.len(),
            !has_host_part(base_url@),
            forall|j: int| 0 <= j < i ==> !needs_base(href_text(#[trigger] opt_views(hrefs@)[j])),
        decreases hrefs.len() - i,
    {
        proof {
            reveal_strlit("");
        }
        let needs = match &hrefs[i] {
            Some(h) => link_needs_base(h.as_str()),
            None => link_needs_base(""),
        };
        if needs {
            assert(needs_base(href_text(opt_views(hrefs@)[i as int])));
            return false;
        }
        i = i + 1;
    }
    true
}

/// The distinct crawlable links among `hrefs`, resolved against the page
/// address `base_url`, in order of first appearance; empty results dropped.
pub fn page_links(base_url: &str, hrefs: &Vec<Option<String>>) -> (links: Vec<String>)
    requires
        links_resolvable(base_url@, opt_views(hrefs@)),
    ensures
        string_views(links@) == page_links_of(base_url@, opt_views(hrefs@)),
{
    let ghost hv = opt_views(hrefs@);
    let mut links: Vec<String> = Vec::new();
    let mut i: usize = 0;
    while i < hrefs.len()
        invariant
            i <= hrefs.len(),
            hv == opt_views(hrefs@),
            links_resolvable(base_url@, hv),
            string_views(links@) == page_links_of(base_url@, hv.take(i as int)),
        decreases hrefs.len() - i,
    {
        proof {
            reveal_strlit("");
            assert(hv.take(i + 1).drop_last() =~= hv.take(i as int));
            assert(hv.take(i + 1).last() == hv[i as int]);
        }
        let link = match &hrefs[i] {
            Some(h) => parse_relative_url(base_url, h.as_str()),
            None => parse_relative_url(base_url, ""),
        };
        assert(link@ == crawlable_link(base_url@, href_text(hv[i as int])));
        if !link.as_str().is_empty() {
            let mut seen = false;
            let mut k: usize = 0;
            while k < links.len()
                invariant
                    k <= links.len(),
                    seen == exists|j: int| 0 <= j < k && links@[j]@ == link@,
                decreases links.len() - k,
            {
                if links[k] == link {
                    seen = true;
                }
                k = k + 1;
            }
            proof {
                let prev = string_views(links@);
                if seen {
                    let j = choose|j: int| 0 <= j < links.len() && links@[j]@ == link@;
                    assert(prev[j] == link@);
                } else {
                    assert forall|j: int| 0 <= j < prev.len() implies prev[j] != link@ by {
                        assert(prev[j] == links@[j]@);
                    }
                }
            }
            if !seen {
                let ghost before = links@;
                links.push(link);
                assert(string_views(links@) =~= string_views(before).push(links@[links.len() - 1]@));
            }
        }
        i = i + 1;
    }
    assert(hv.take(hrefs.len() as int) =~= hv);
    links
}

/// The links kept from a page are distinct, each is a non-empty crawlable
/// `http(s)` address that one of the page's `href`s resolves to, and every
/// `href` that resolves to a non-empty crawlable address has it among them.
pub proof fn law_page_links_distinct_and_complete(base: Seq<char>, hrefs: Seq<Option<Seq<char>>>)
    ensures
        forall|i: int, j: int|
            0 <= i < j < page_links_of(base, hrefs).len() ==> page_links_of(base, hrefs)[i] != page_links_of(base, hrefs)[j],
        forall|k: int|
            0 <= k < page_links_of(base, hrefs).len() ==> {
                &&& (#[trigger] page_links_of(base, hrefs)[k]).len() > 0
                &&& is_http_url(page_links_of(base, hrefs)[k])
                &&& exists|i: int| 0 <= i < hrefs.len() && crawlable_link(base, href_text(hrefs[i])) == page_links_of(base, hrefs)[k]
            },
        forall|i: int|
            0 <= i < hrefs.len() && crawlable_link(base, href_text(#[trigger] hrefs[i])).len() > 0
                ==> page_links_of(base, hrefs).contains(crawlable_link(base, href_text(hrefs[i]))),
    decreases hrefs.len(),
{
    if hrefs.len() > 0 {
        let init = hrefs.drop_last();
        law_page_links_distinct_and_complete(base, init);
        let prev = page_links_of(base, init);
        let cur = page_links_of(base, hrefs);
        let link = crawlable_link(base, href_text(hrefs.last()));
        assert forall|k: int| 0 <= k < cur.len() implies {
            &&& (#[trigger] cur[k]).len() > 0
            &&& is_http_url(cur[k])
            &&& exists|i: int| 0 <= i < hrefs.len() && crawlable_link(base, href_text(hrefs[i])) == cur[k]
        } by {
            if k < prev.len() {
                assert(cur[k] == prev[k]);
                let i = choose|i: int| 0 <= i < init.len() && crawlable_link(base, href_text(init[i])) == prev[k];
                assert(hrefs[i] == init[i]);
            } else {
                assert(cur[k] == link);
                assert(hrefs[hrefs.len() - 1] == hrefs.last());
            }
        }
        assert forall|i: int|
            0 <= i < hrefs.len() && crawlable_link(base, href_text(#[trigger] hrefs[i])).len() > 0
                implies cur.contains(crawlable_link(base, href_text(hrefs[i]))) by {
            if i < init.len() {
                assert(hrefs[i] == init[i]);
                let l = crawlable_link(base, href_text(init[i]));
                assert(prev.contains(l));
                let k = choose|k: int| 0 <= k < prev.len() && prev[k] == l;
                assert(cur[k] == l);
            } else {
                assert(hrefs[i] == hrefs.last());
                if !prev.contains(link) {
                    assert(cur[prev.len() as int] == link);
                }
            }
        }
    }
}

/// What is kept of the page at `url`, from what was found in its document:
/// the first title's text (`No title` when there is none), the first
/// keywords `meta` element's `content` (empty when it has none; `No
/// keywords` when there is no such element), and the page's links.
pub fn page_info(url: &str, title: Option<String>, keywords_meta: Option<Option<String>>, hrefs: &Vec<Option<String>>) -> (p: PageInfo)
    requires
        links_resolvable(url@, opt_views(hrefs@)),
    ensures
        p.title@ == (match opt_view(title) {
            Some(t) => t,
            None => "No title"@,
        }),
        p.keywords@ == (match keywords_meta {
            None => "No keywords"@,
            Some(Some(k)) => k@,
            Some(None) => ""@,
        }),
        string_views(p.links@) == page_links_of(url@, opt_views(hrefs@)),
{
    let title = match title {
        Some(t) => t,
        None => String::from_str("No title"),
    };
    let keywords = match keywords_meta {
        None => String::from_str("No keywords"),
        Some(Some(k)) => k,
        Some(None) => String::from_str(""),
    };
    let links = page_links(url, hrefs);
    PageInfo { title, keywords, links }
}

/// `p` is what is kept of the page at `url` whose HTML is `html`.
pub open spec fn is_page_of(p: PageInfo, url: Seq<char>, html: Seq<char>) -> bool {
    &&& links_resolvable(url, html_link_hrefs(html))
    &&& p.title@ == page_title(html)
    &&& p.keywords@ == page_keywords(html)
    &&& string_views(p.links@) == page_links_of(url, html_link_hrefs(html))
}

/// Title, keywords and distinct crawlable links of the page at `url` whose
/// HTML is `html`. The title is that of the first `title` element, or
/// `No title`; the keywords are the `content` of the first keywords `meta`
/// element (empty when it has none), or `No keywords` when there is no such
/// element. `None` exactly when some link would have to be placed on the
/// page's host while `url` has no host part.
pub fn extract_page(url: &str, html: &str) -> (r: Option<PageInfo>)
    ensures
        match r {
            None => !links_resolvable(url@, html_link_hrefs(html@)),
            Some(p) => is_page_of(p, url@, html@),
        },
        r matches Some(p) ==> forall|i: int|
            0 <= i < html_link_hrefs(html@).len() && crawlable_link(url@, href_text(#[trigger] html_link_hrefs(html@)[i])).len() > 0
                ==> string_views(p.links@).contains(crawlable_link(url@, href_text(html_link_hrefs(html@)[i]))),
{
    let title = first_title_text(html);
    let keywords = first_keywords_content(html);
    let hrefs = link_hrefs(html);
    if !hrefs_resolvable(url, &hrefs) {
        return None;
    }
    let p = page_info(url, title, keywords, &hrefs);
    proof {
        law_page_keeps_every_link(p, url@, html@);
    }
    Some(p)
}

/// What is kept of a page holds every distinct non-empty crawlable link of
/// its document, each once, and nothing else: every `href` of the document
/// whose crawlable link is non-empty has that link among the page's links,
/// and every kept link is the crawlable link of one of its `href`s.
pub proof fn law_page_keeps_every_link(p: PageInfo, url: Seq<char>, html: Seq<char>)
    requires
        is_page_of(p, url, html),
    ensures
        forall|i: int|
            0 <= i < html_link_hrefs(html).len() && crawlable_link(url, href_text(#[trigger] html_link_hrefs(html)[i])).len() > 0
                ==> string_views(p.links@).contains(crawlable_link(url, href_text(html_link_hrefs(html)[i]))),
        forall|k: int|
            0 <= k < p.links@.len() ==> exists|i: int|
                0 <= i < html_link_hrefs(html).len() && crawlable_link(url, href_text(html_link_hrefs(html)[i])) == #[trigger] p.links@[k]@,
        forall|j: int, k: int| 0 <= j < k < p.links@.len() ==> p.links@[j]@ != p.links@[k]@,
{
    let hs = html_link_hrefs(html);
    law_page_links_distinct_and_complete(url, hs);
    let lv = string_views(p.links@);
    assert forall|k: int| 0 <= k < p.links@.len() implies exists|i: int|
        0 <= i < hs.len() && crawlable_link(url, href_text(hs[i])) == #[trigger] p.links@[k]@ by {
        assert(lv[k] == p.links@[k]@);
        assert(page_links_of(url, hs)[k] == lv[k]);
    }
    assert forall|j: int, k: int| 0 <= j < k < p.links@.len() implies p.links@[j]@ != p.links@[k]@ by {
        assert(lv[j] == p.links@[j]@);
        assert(lv[k] == p.links@[k]@);
    }
}

/// What a downloaded body leads to.
pub enum BodyOutcome {
    /// The body could not be read as text: the site is dropped.
    Skip,
    /// The page to store and whose links to record.
    Index(PageInfo),
}

/// The decision on a downloaded body (`None` when it could not be read as
/// text): an unreadable body is skipped, a readable one is extracted. `None`
/// exactly when extraction would have to place a link on a host that `url`
/// lacks.
pub fn body_outcome(url: &str, body: Option<String>) -> (r: Option<BodyOutcome>)
    ensures
        body is None ==> r matches Some(BodyOutcome::Skip),
        body matches Some(text) ==> match r {
            None => !links_resolvable(url@, html_link_hrefs(text@)),
            Some(BodyOutcome::Skip) => false,
            Some(BodyOutcome::Index(p)) => is_page_of(p, url@, text@),
        },
{
    match body {
        None => Some(BodyOutcome::Skip),
        Some(text) => match extract_page(url, text.as_str()) {
            None => None,
            Some(p) => Some(BodyOutcome::Index(p)),
        },
    }
}

/// An `href` that adds no new crawlable link leaves the page's links
/// unchanged wherever it is inserted after the links it repeats: a
/// duplicated link is recorded once.
pub proof fn law_redundant_href(base: Seq<char>, hrefs: Seq<Option<Seq<char>>>, i: int, h: Option<Seq<char>>)
    requires
        0 <= i <= hrefs.len(),
        crawlable_link(base, href_text(h)).len() == 0
            || page_links_of(base, hrefs.take(i)).contains(crawlable_link(base, href_text(h))),
    ensures
        page_links_of(base, hrefs.insert(i, h)) == page_links_of(base, hrefs),
{
    let n = hrefs.len() as int;
    lemma_redundant_prefix(base, hrefs, i, h, n);
    assert(hrefs.insert(i, h).take(n + 1) =~= hrefs.insert(i, h));
    assert(hrefs.take(n) =~= hrefs);
}

proof fn lemma_redundant_prefix(base: Seq<char>, hrefs: Seq<Option<Seq<char>>>, i: int, h: Option<Seq<char>>, k: int)
    requires
        0 <= i <= k <= hrefs.len(),
        crawlable_link(base, href_text(h)).len() == 0
            || page_links_of(base, hrefs.take(i)).contains(crawlable_link(base, href_text(h))),
    ensures
        page_links_of(base, hrefs.insert(i, h).take(k + 1)) == page_links_of(base, hrefs.take(k)),
    decreases k - i,
{
    let ins = hrefs.insert(i, h);
    if k == i {
        assert(ins.take(k + 1).drop_last() =~= hrefs.take(i));
        assert(ins.take(k + 1).last() == h);
    } else {
        lemma_redundant_prefix(base, hrefs, i, h, k - 1);
        assert(ins.take(k + 1).drop_last() =~= ins.take(k));
        assert(ins.take(k + 1).last() == hrefs[k - 1]);
        assert(hrefs.take(k).drop_last() =~= hrefs.take(k - 1));
        assert(hrefs.take(k).last() == hrefs[k - 1]);
    }
}

} // verus!
