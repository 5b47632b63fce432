# crawlsearch

The core of a small web search engine, verified with Verus.

- `src/text.rs`: splitting text on a separator, prefixes, and conversions
  between `str`, `String` and `Vec<char>`.
- `src/url.rs`: resolving a link found on a page against the page's address,
  and deciding whether the result is a crawlable `http(s)` address (the
  `regex` crate makes that match).
- `src/page.rs`: title, keywords and the distinct crawlable links of a page
  (the `scraper` crate reads the HTML).
- `src/crawl.rs`: the crawler's decisions (status codes, `Retry-After`,
  content type, link bookkeeping, seeding, staged rows, round counters).
- `src/api.rs`: the answers of the search API.
- `app/main.rs`: the Rocket server, the SQLite database and the HTTP
  downloads; it hands plain values to the library and acts on its answers.
