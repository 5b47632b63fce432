use crawlsearch::api::{recommended, search_offset, title_like_pattern, Recommendation, Site, SiteInformation};
use crawlsearch::{batch_size, concurrent_requests};
use crawlsearch::crawl::{
    has_flag, is_html_content, links_to_record, sql_quote, keep_crawling, link_action, needs_seed, parse_u64, retry_after_secs, seed_site,
    staging_delete_query, status_action, CrawlProgress, LinkAction, StagedSite, StatusAction,
};
use crawlsearch::page::{base_has_host_part, body_outcome, extract_page, BodyOutcome, link_needs_base, page_info, page_links};
use crawlsearch::url::{get_relative_url, parse_relative_url};

const BASE: &str = "https://github.com/rust-lang/rust";

fn strings(v: &[&str]) -> Vec<String> {
    v.iter().map(|s| s.to_string()).collect()
}

#[test]
fn absolute_link_loses_query_and_fragment() {
    assert_eq!(get_relative_url(BASE, "https://example.com/a/b?x=1#top"), "https://example.com/a/b");
    assert_eq!(get_relative_url(BASE, "http://example.com#frag"), "http://example.com");
}

#[test]
fn rooted_link_goes_on_page_host() {
    assert_eq!(get_relative_url(BASE, "/about"), "https://github.com/about");
    assert_eq!(get_relative_url(BASE, "/"), "https://github.com/");
}

#[test]
fn dot_slash_link_goes_on_page_host() {
    assert_eq!(get_relative_url(BASE, "./docs/x.html"), "https://github.com/docs/x.html");
}

#[test]
fn host_with_path_gets_http() {
    assert_eq!(get_relative_url(BASE, "example.org/page"), "http://example.org//page");
}

#[test]
fn bare_host_gets_http() {
    assert_eq!(get_relative_url(BASE, "example.org"), "http://example.org/");
    assert_eq!(get_relative_url(BASE, "page.html?q=2"), "http://page.html/");
}

#[test]
fn other_link_goes_on_page_host() {
    assert_eq!(get_relative_url(BASE, "mailto:me@example.org"), "https://github.com/mailto:me@example.org");
    assert_eq!(get_relative_url(BASE, ""), "https://github.com/");
    assert_eq!(get_relative_url(BASE, "#top"), "https://github.com/");
}

#[test]
fn crawlable_link_kept() {
    assert_eq!(parse_relative_url(BASE, "/about?x"), "https://github.com/about");
    assert_eq!(parse_relative_url(BASE, "https://a-b.example.org"), "https://a-b.example.org");
}

#[test]
fn uncrawlable_link_dropped() {
    assert_eq!(parse_relative_url(BASE, "http://"), "");
    assert_eq!(parse_relative_url(BASE, "https://bad_host/x"), "");
    assert_eq!(parse_relative_url(BASE, "ftp://example.org/file"), "https://github.com/ftp://example.org/file");
}

#[test]
fn crawlable_address_is_fixed_point() {
    let url = "https://example.org/a/b";
    assert_eq!(parse_relative_url(BASE, url), url);
    assert_eq!(parse_relative_url("http://other.net/", url), url);
}

#[test]
fn query_and_fragment_ignored() {
    assert_eq!(parse_relative_url(BASE, "/a?b#c"), parse_relative_url(BASE, "/a"));
    assert_eq!(get_relative_url(BASE, "x.org/p#q"), get_relative_url(BASE, "x.org/p"));
}

#[test]
fn base_irrelevant_for_absolute_links() {
    assert_eq!(get_relative_url("nohost", "example.org/x"), get_relative_url(BASE, "example.org/x"));
    assert_eq!(get_relative_url("nohost", "https://e.org"), "https://e.org");
}

#[test]
fn needs_base_decided() {
    assert!(link_needs_base("/x"));
    assert!(link_needs_base("./x"));
    assert!(link_needs_base("a b"));
    assert!(!link_needs_base("https://e.org/x"));
    assert!(!link_needs_base("e.org/x"));
    assert!(base_has_host_part("https://e.org/"));
    assert!(base_has_host_part("https://e.org"));
    assert!(!base_has_host_part("https:/e.org"));
}

const PAGE: &str = "<html><head><title>Rust Lang</title><meta name=\"keywords\" content=\"rust,lang\"></head>\
<body><a href=\"/learn\">learn</a><a href=\"https://crates.io/\">crates</a><a href=\"/learn#top\">again</a>\
<a>nothing</a><a href=\"http://\">bad</a></body></html>";

#[test]
fn page_title_keywords_links() {
    let page = extract_page(BASE, PAGE).expect("page");
    assert_eq!(page.title, "Rust Lang");
    assert_eq!(page.keywords, "rust,lang");
    assert_eq!(page.links, strings(&["https://github.com/learn", "https://crates.io/", "https://github.com/"]));
}

#[test]
fn page_links_are_distinct() {
    let page = extract_page(BASE, PAGE).expect("page");
    for i in 0..page.links.len() {
        assert!(!page.links[i].is_empty());
        for j in (i + 1)..page.links.len() {
            assert_ne!(page.links[i], page.links[j]);
        }
    }
}

#[test]
fn page_without_title_or_keywords() {
    let page = extract_page(BASE, "<html><body><p>hi</p></body></html>").expect("page");
    assert_eq!(page.title, "No title");
    assert_eq!(page.keywords, "No keywords");
    assert!(page.links.is_empty());
}

#[test]
fn keywords_meta_without_content() {
    let page = extract_page(BASE, "<html><head><meta name=\"keywords\"></head></html>").expect("page");
    assert_eq!(page.keywords, "");
}

#[test]
fn page_on_address_without_host() {
    assert!(extract_page("nohost", "<a href=\"/x\">x</a>").is_none());
    let page = extract_page("nohost", "<a href=\"https://e.org/\">x</a>").expect("page");
    assert_eq!(page.links, strings(&["https://e.org/"]));
}

#[test]
fn links_from_hrefs() {
    let hrefs = vec![Some("/a".to_string()), None, Some("/a?x".to_string()), Some("e.org".to_string())];
    assert_eq!(
        page_links(BASE, &hrefs),
        strings(&["https://github.com/a", "https://github.com/", "http://e.org/"])
    );
}

#[test]
fn parse_u64_as_std() {
    assert_eq!(parse_u64("120"), Some(120));
    assert_eq!(parse_u64("+5"), Some(5));
    assert_eq!(parse_u64("007"), Some(7));
    assert_eq!(parse_u64("18446744073709551615"), Some(u64::MAX));
    assert_eq!(parse_u64("18446744073709551616"), None);
    assert_eq!(parse_u64(""), None);
    assert_eq!(parse_u64("+"), None);
    assert_eq!(parse_u64("-1"), None);
    assert_eq!(parse_u64("12a"), None);
    assert_eq!(parse_u64(" 1"), None);
    for s in ["0", "42", "+9", "99999999999999999999", "x", "+-1"] {
        assert_eq!(parse_u64(s), s.parse::<u64>().ok());
    }
}

#[test]
fn retry_after_defaults_to_sixty() {
    assert_eq!(retry_after_secs(&None), 60);
    assert_eq!(retry_after_secs(&Some(None)), 60);
    assert_eq!(retry_after_secs(&Some(Some("30".to_string()))), 30);
    assert_eq!(retry_after_secs(&Some(Some("Wed, 21 Oct 2015 07:28:00 GMT".to_string()))), 60);
}

#[test]
fn status_decisions() {
    assert!(matches!(status_action(200, &None), StatusAction::Proceed));
    assert!(matches!(status_action(299, &None), StatusAction::Proceed));
    assert!(matches!(status_action(199, &None), StatusAction::Skip));
    assert!(matches!(status_action(301, &None), StatusAction::Skip));
    assert!(matches!(status_action(404, &Some(Some("5".to_string()))), StatusAction::Skip));
    assert!(matches!(status_action(429, &Some(Some("5".to_string()))), StatusAction::Retry { wait_secs: 5 }));
    assert!(matches!(status_action(429, &None), StatusAction::Retry { wait_secs: 60 }));
}

#[test]
fn html_content_type() {
    assert!(is_html_content("text/html"));
    assert!(is_html_content("text/html; charset=utf-8"));
    assert!(is_html_content("application/xhtml, text/html"));
    assert!(!is_html_content("application/json"));
    assert!(!is_html_content("text/htm"));
    assert!(!is_html_content(""));
}

#[test]
fn link_actions() {
    assert!(matches!(link_action(true, true), LinkAction::BumpStagedRank));
    assert!(matches!(link_action(true, false), LinkAction::BumpStagedRank));
    assert!(matches!(link_action(false, true), LinkAction::BumpSiteRank));
    assert!(matches!(link_action(false, false), LinkAction::Stage));
}

#[test]
fn seed_site_from_args() {
    assert_eq!(seed_site(&strings(&["prog"])), Some("https://github.com/".to_string()));
    assert_eq!(
        seed_site(&strings(&["prog", "--default-site", "https://x.org/", "--default-site", "y"])),
        Some("https://x.org/".to_string())
    );
    assert_eq!(seed_site(&strings(&["prog", "--debug", "--default-site"])), None);
}

#[test]
fn flags() {
    let args = strings(&["prog", "--debug"]);
    assert!(has_flag(&args, "--debug"));
    assert!(!has_flag(&args, "--no-index"));
    assert!(needs_seed(0));
    assert!(!needs_seed(3));
    assert!(keep_crawling(1));
    assert!(!keep_crawling(0));
    assert_eq!(batch_size(), 100);
    assert_eq!(concurrent_requests(), 10);
}

#[test]
fn staged_rows() {
    let s = StagedSite::from_columns(None, None);
    assert_eq!(s.url, "Unknown");
    assert_eq!(s.rank, 0);
    let s = StagedSite::from_columns(Some("https://a.org/".to_string()), Some(4));
    assert_eq!(s.url, "https://a.org/");
    assert_eq!(s.rank, 4);
}

#[test]
fn delete_query_names_every_url() {
    let sites = vec![
        StagedSite::from_columns(Some("https://a.org/".to_string()), Some(1)),
        StagedSite::from_columns(Some("https://b.org/x".to_string()), None),
    ];
    assert_eq!(
        staging_delete_query(&sites),
        "DELETE FROM staging WHERE url IN ('https://a.org/', 'https://b.org/x');"
    );
    assert_eq!(staging_delete_query(&Vec::new()), "DELETE FROM staging WHERE url IN ();");
}

#[test]
fn progress_counts() {
    let mut p = CrawlProgress::new();
    p.record_download();
    p.record_download();
    assert_eq!(p.sites_scanned(), 2);
    p.finish_round();
    assert_eq!(p.sites_scanned(), 0);
    assert_eq!(p.total_sites_scanned(), 2);
    p.record_download();
    assert_eq!(p.sites_scanned(), 1);
    assert_eq!(p.total_sites_scanned(), 3);
    assert!(p.sites_scanned() <= p.total_sites_scanned());
}

#[test]
fn recommendations() {
    assert_eq!(Recommendation::new("x").text, "x");
    let r = recommended(Some("rust"));
    assert_eq!(r.len(), 2);
    assert_eq!(r[0].text, "rust");
    assert_eq!(r[1].text, "bar");
    let r = recommended(None);
    assert_eq!(r[0].text, "foo");
    assert_eq!(r[1].text, "bar");
}

#[test]
fn search_helpers() {
    assert_eq!(search_offset(1), 0);
    assert_eq!(search_offset(3), 60);
    assert_eq!(search_offset(4) - search_offset(3), 30);
    assert_eq!(title_like_pattern("rust"), "%rust%");
    assert_eq!(title_like_pattern(""), "%%");
    let s = Site::from_columns(None, Some("https://a.org/".to_string()));
    assert_eq!(s.title, "Unknown");
    assert_eq!(s.url, "https://a.org/");
}

#[test]
fn site_information_keywords() {
    let info = SiteInformation::from_columns("T", "a,b,,c", 5);
    assert_eq!(info.title, "T");
    assert_eq!(info.keywords, strings(&["a", "b", "", "c"]));
    assert_eq!(info.rank, 5);
    assert_eq!(info.keywords.join(","), "a,b,,c");
    let info = SiteInformation::from_columns("T", "", 0);
    assert_eq!(info.keywords, strings(&[""]));
    let none = SiteInformation::not_found();
    assert_eq!(none.title, "");
    assert!(none.keywords.is_empty());
    assert_eq!(none.rank, 0);
}

#[test]
fn page_info_defaults() {
    let hrefs = vec![Some("https://e.org/".to_string())];
    let p = page_info(BASE, None, None, &hrefs);
    assert_eq!(p.title, "No title");
    assert_eq!(p.keywords, "No keywords");
    assert_eq!(p.links, strings(&["https://e.org/"]));
    let p = page_info(BASE, Some("T".to_string()), Some(None), &Vec::new());
    assert_eq!(p.title, "T");
    assert_eq!(p.keywords, "");
    let p = page_info(BASE, None, Some(Some("k1,k2".to_string())), &Vec::new());
    assert_eq!(p.keywords, "k1,k2");
}

#[test]
fn delete_query_escapes_quotes() {
    let sites = vec![
        StagedSite::from_columns(Some("https://a.com/it's".to_string()), None),
        StagedSite::from_columns(Some("x') OR ('1'='1".to_string()), None),
    ];
    assert_eq!(
        staging_delete_query(&sites),
        "DELETE FROM staging WHERE url IN ('https://a.com/it''s', 'x'') OR (''1''=''1');"
    );
}

#[test]
fn sql_literals() {
    assert_eq!(sql_quote(""), "''");
    assert_eq!(sql_quote("abc"), "'abc'");
    assert_eq!(sql_quote("'"), "''''");
    assert_eq!(sql_quote("a''b"), "'a''''b'");
}

#[test]
fn links_recorded_only_after_store() {
    let links = strings(&["https://a.org/", "https://b.org/"]);
    assert_eq!(links_to_record(true, links.clone()), links);
    assert!(links_to_record(false, links).is_empty());
}

#[test]
fn body_decisions() {
    assert!(matches!(body_outcome(BASE, None), Some(BodyOutcome::Skip)));
    match body_outcome(BASE, Some(PAGE.to_string())) {
        Some(BodyOutcome::Index(p)) => {
            assert_eq!(p.title, "Rust Lang");
            assert_eq!(p.links.len(), 3);
        }
        _ => panic!("expected a page"),
    }
    assert!(body_outcome("nohost", Some("<a href=\"/x\">x</a>".to_string())).is_none());
}

#[test]
fn duplicated_link_recorded_once() {
    let once = extract_page(BASE, PAGE).expect("page");
    let twice_html = PAGE.replace("</body>", "<a href=\"https://crates.io/#x\">dup</a><a href=\"/learn\">dup</a></body>");
    let twice = extract_page(BASE, &twice_html).expect("page");
    assert_eq!(once.links, twice.links);
}

#[test]
fn each_hit_on_one_page() {
    for k in 0u32..200 {
        let pages: Vec<u32> = (1u32..10)
            .filter(|&p| search_offset(p) <= k && k < search_offset(p) + 30)
            .collect();
        assert_eq!(pages, vec![k / 30 + 1]);
    }
}
