//! The crawler's decisions: what to do with a response, how long to wait
//! before retrying, how a found link updates the tables, which site seeds an
//! empty index, how staged rows are read and removed, and the counts of
//! downloaded sites.
use vstd::prelude::*;
use crate::text::{contains_seq, string_views};

verus! {

pub open spec fn is_digit(c: char) -> bool {
    '0' <= c && c <= '9'
}

pub open spec fn digit_value(c: char) -> int {
    c as int - '0' as int
}

/// The number a string of decimal digits denotes.
pub open spec fn decimal_value(d: Seq<char>) -> int
    decreases d.len(),
{
    if d.len() == 0 {
        0
    } else {
        decimal_value(d.drop_last()) * 10 + digit_value(d.last())
    }
}

/// The digits of an unsigned number's text: one leading `+` is allowed.
pub open spec fn unsigned_digits(s: Seq<char>) -> Seq<char> {
    if s.len() > 0 && s[0] == '+' {
        s.skip(1)
    } else {
        s
    }
}

/// `s` read as a `u64` the way `str::parse::<u64>` reads it: an optional `+`,
/// then one or more ASCII digits, denoting a value that fits in a `u64`.
pub open spec fn parse_u64_text(s: Seq<char>) -> Option<u64> {
    let d = unsigned_digits(s);
    if d.len() > 0 && (forall|i: int| 0 <= i < d.len() ==> is_digit(#[trigger] d[i])) && decimal_value(d) <= u64::MAX {
        Some(decimal_value(d) as u64)
    } else {
        None
    }
}

/// A longer run of digits denotes at least as much as any of its prefixes.
proof fn lemma_decimal_prefix_le(d: Seq<char>, j: int)
    requires
        0 <= j <= d.len(),
        forall|i: int| 0 <= i < d.len() ==> is_digit(#[trigger] d[i]),
    ensures
        decimal_value(d.take(j)) <= decimal_value(d),
        decimal_value(d) >= 0,
    decreases d.len(),
{
    if d.len() == 0 {
        assert(d.take(j) =~= d);
    } else if j == d.len() {
        assert(d.take(j) =~= d);
        lemma_decimal_prefix_le(d.drop_last(), 0);
    } else {
        assert(is_digit(d[d.len() - 1]));
        lemma_decimal_prefix_le(d.drop_last(), j);
        assert(d.drop_last().take(j) =~= d.take(j));
    }
}

/// Reads `s` as a `u64` exactly as `str::parse::<u64>` does; `None` where
/// that parse fails.
pub fn parse_u64(s: &str) -> (r: Option<u64>)
    ensures
        r == parse_u64_text(s@),
{
    let all = crate::text::chars_of(s);
    let start: usize = if all.len() > 0 && all[0] == '+' { 1 } else { 0 };
    let d = crate::text::vec_skip(&all, start);
    assert(d@ == unsigned_digits(s@));
    if d.len() == 0 {
        return None;
    }
    let mut acc: u64 = 0;
    let mut i: usize = 0;
    assert(d@.take(0) =~= Seq::<char>::empty());
    while i < d.len()
        invariant
            i <= d.len(),
            forall|j: int| 0 <= j < i ==> is_digit(#[trigger] d@[j]),
            d@ == unsigned_digits(s@),
            d.len() > 0,
            acc as int == decimal_value(d@.take(i as int)),
        decreases d.len() - i,
    {
        let c = d[i];
        if !('0' <= c && c <= '9') {
            assert(!is_digit(d@[i as int]));
            return None;
        }
        proof {
            assert(d@.take(i + 1).drop_last() =~= d@.take(i as int));
        }
        let digit: u64 = (c as u32 - '0' as u32) as u64;
        let next = match acc.checked_mul(10) {
            Some(m) => m.checked_add(digit),
            None => None,
        };
        match next {
            Some(n) => {
                acc = n;
            },
            None => {
                proof {
                    assert(decimal_value(d@.take(i + 1)) > u64::MAX);
                    if forall|j: int| 0 <= j < d@.len() ==> is_digit(#[trigger] d@[j]) {
                        lemma_decimal_prefix_le(d@, i + 1);
                    }
                }
                return None;
            },
        }
        i = i + 1;
    }
    assert(d@.take(d.len() as int) =~= d@);
    Some(acc)
}

/// Seconds to wait before retrying a site that answered 429: the
/// `Retry-After` header read as a number, or 60 when the header is absent
/// (`None`), not readable as text (`Some(None)`), or not a number.
pub open spec fn retry_wait(header: Option<Option<Seq<char>>>) -> u64 {
    match header {
        Some(Some(text)) => match parse_u64_text(text) {
            Some(n) => n,
            None => 60,
        },
        _ => 60,
    }
}

pub open spec fn header_view(h: Option<Option<String>>) -> Option<Option<Seq<char>>> {
    match h {
        Some(Some(s)) => Some(Some(s@)),
        Some(None) => Some(None),
        None => None,
    }
}

/// Seconds to wait before retrying after a 429 answer.
pub fn retry_after_secs(header: &Option<Option<String>>) -> (secs: u64)
    ensures
        secs == retry_wait(header_view(*header)),
        forall|t: Seq<char>| header_view(*header) == Some(Some(t)) && #[trigger] parse_u64_text(t) is Some ==> secs == parse_u64_text(t)->0,
        !(exists|t: Seq<char>| header_view(*header) == Some(Some(t)) && parse_u64_text(t) is Some) ==> secs == 60,
{
    proof {
        law_retry_wait_is_header_number(header_view(*header));
    }
    match header {
        Some(Some(text)) => match parse_u64(text.as_str()) {
            Some(n) => n,
            None => 60,
        },
        _ => 60,
    }
}

/// The wait is the number the `Retry-After` text denotes whenever it reads as
/// a `u64`, and 60 seconds otherwise.
pub proof fn law_retry_wait_is_header_number(header: Option<Option<Seq<char>>>)
    ensures
        forall|t: Seq<char>| header == Some(Some(t)) && #[trigger] parse_u64_text(t) is Some ==> retry_wait(header) == parse_u64_text(t)->0,
        !(exists|t: Seq<char>| header == Some(Some(t)) && parse_u64_text(t) is Some) ==> retry_wait(header) == 60,
{
    if let Some(Some(t)) = header {
        if parse_u64_text(t) is Some {
            assert(exists|t2: Seq<char>| header == Some(Some(t2)) && parse_u64_text(t2) is Some);
        }
    }
}

/// The character of a decimal digit.
pub open spec fn digit_char(d: nat) -> char {
    (d + 48) as char
}

/// The decimal text of `n`, most significant digit first, with no leading
/// zero.
pub open spec fn decimal_text(n: nat) -> Seq<char>
    decreases n,
{
    if n < 10 {
        seq![digit_char(n)]
    } else {
        decimal_text(n / 10).push(digit_char(n % 10))
    }
}

proof fn lemma_decimal_text(n: nat)
    ensures
        decimal_text(n).len() > 0,
        forall|i: int| 0 <= i < decimal_text(n).len() ==> is_digit(#[trigger] decimal_text(n)[i]),
        decimal_value(decimal_text(n)) == n,
    decreases n,
{
    let c = digit_char(n % 10);
    assert(c as int == n % 10 + 48);
    if n < 10 {
        let t = seq![c];
        assert(t.drop_last() =~= Seq::<char>::empty());
        assert(decimal_value(Seq::<char>::empty()) == 0);
        assert(n % 10 == n);
        assert(decimal_value(t) == decimal_value(t.drop_last()) * 10 + digit_value(t.last()));
    } else {
        lemma_decimal_text(n / 10);
        let t = decimal_text(n / 10).push(c);
        assert(t.drop_last() =~= decimal_text(n / 10));
        assert(decimal_value(t) == decimal_value(t.drop_last()) * 10 + digit_value(t.last()));
        assert((n / 10) * 10 + n % 10 == n) by (nonlinear_arith);
        assert forall|i: int| 0 <= i < t.len() implies is_digit(#[trigger] t[i]) by {
            if i < t.len() - 1 {
                assert(t[i] == decimal_text(n / 10)[i]);
            }
        }
    }
}

/// Reading the decimal text of any `u64` gives back that number, and so
/// does the same text after a `+`; a `Retry-After` of that text waits
/// exactly that long.
pub proof fn law_decimal_text_reads_back(n: u64)
    ensures
        parse_u64_text(decimal_text(n as nat)) == Some(n),
        parse_u64_text(seq!['+'] + decimal_text(n as nat)) == Some(n),
        retry_wait(Some(Some(decimal_text(n as nat)))) == n,
{
    let t = decimal_text(n as nat);
    lemma_decimal_text(n as nat);
    assert(is_digit(t[0]));
    assert(unsigned_digits(t) == t);
    let pt = seq!['+'] + t;
    assert(pt.skip(1) =~= t);
    assert(unsigned_digits(pt) == t);
}

/// A text is not read as a number when it is empty, is a lone `+`, or holds a
/// character that is neither a digit nor a leading `+`.
pub proof fn law_parse_rejects_non_numbers(t: Seq<char>, i: int)
    requires
        0 <= i < t.len(),
        !is_digit(t[i]),
        !(i == 0 && t[i] == '+'),
    ensures
        parse_u64_text(t) is None,
        parse_u64_text(Seq::<char>::empty()) is None,
        parse_u64_text(seq!['+']) is None,
{
    let d = unsigned_digits(t);
    if t.len() > 0 && t[0] == '+' {
        assert(i >= 1);
        assert(d[i - 1] == t[i]);
    } else {
        assert(d[i] == t[i]);
    }
    assert(seq!['+'].skip(1).len() == 0);
}

/// A success status proceeds, 429 is retried, and every other status is
/// skipped, whatever the `Retry-After` header holds.
pub proof fn law_status_decisions(status: u16, retry_after: Option<Option<Seq<char>>>)
    ensures
        (status_action_of(status, retry_after) is Proceed) <==> (200 <= status && status <= 299),
        (status_action_of(status, retry_after) is Retry) <==> status == 429,
        (status_action_of(status, retry_after) is Skip) <==> !(200 <= status && status <= 299) && status != 429,
        status == 429 ==> status_action_of(status, retry_after) == (StatusAction::Retry { wait_secs: retry_wait(retry_after) }),
{
}

/// What to do with a response before reading its body.
pub enum StatusAction {
    /// Wait this many seconds, then put the site back on the staging table.
    Retry { wait_secs: u64 },
    /// Drop the site.
    Skip,
    /// Go on to the content type and the body.
    Proceed,
}

/// A status in 200..=299 counts as success.
pub open spec fn is_success(status: u16) -> bool {
    200 <= status && status <= 299
}

pub open spec fn status_action_of(status: u16, retry_after: Option<Option<Seq<char>>>) -> StatusAction {
    if is_success(status) {
        StatusAction::Proceed
    } else if status == 429 {
        StatusAction::Retry { wait_secs: retry_wait(retry_after) }
    } else {
        StatusAction::Skip
    }
}

/// The decision on a response's status: success goes on, 429 ("too many
/// requests") is retried after the `Retry-After` wait, anything else is
/// skipped.
pub fn status_action(status: u16, retry_after: &Option<Option<String>>) -> (a: StatusAction)
    ensures
        a == status_action_of(status, header_view(*retry_after)),
        (a is Proceed) <==> (200 <= status && status <= 299),
        (a is Retry) <==> status == 429,
        (a is Skip) <==> !(200 <= status && status <= 299) && status != 429,
{
    proof {
        law_status_decisions(status, header_view(*retry_after));
    }
    if 200 <= status && status <= 299 {
        StatusAction::Proceed
    } else if status == 429 {
        StatusAction::Retry { wait_secs: retry_after_secs(retry_after) }
    } else {
        StatusAction::Skip
    }
}

/// A content type names an HTML page when it holds `text/html`.
pub fn is_html_content(content_type: &str) -> (b: bool)
    ensures
        b == contains_seq(content_type@, "text/html"@),
{
    let hay = crate::text::chars_of(content_type);
    let needle: Vec<char> = vec!['t', 'e', 'x', 't', '/', 'h', 't', 'm', 'l'];
    proof {
        reveal_strlit("text/html");
    }
    assert(needle@ == "text/html"@);
    if hay.len() < needle.len() {
        assert forall|i: int| 0 <= i && i + needle@.len() <= hay@.len() implies #[trigger] hay@.subrange(i, i + needle@.len()) != needle@ by {}
        return false;
    }
    let last: usize = hay.len() - needle.len();
    let mut i: usize = 0;
    while i <= last
        invariant
            last + needle.len() == hay.len(),
            i <= last + 1,
            needle@ == "text/html"@,
            hay@ == content_type@,
            forall|k: int| 0 <= k < i ==> #[trigger] hay@.subrange(k, k + needle@.len()) != needle@,
        decreases last + 1 - i,
    {
        let mut j: usize = 0;
        let mut same = true;
        while j < needle.len()
            invariant
                i <= last,
                last + needle.len() == hay.len(),
                j <= needle.len(),
                same == forall|m: int| 0 <= m < j ==> hay@[i + m] == needle@[m],
            decreases needle.len() - j,
        {
            if hay[i + j] != needle[j] {
                same = false;
            }
            j = j + 1;
        }
        if same {
            assert(hay@.subrange(i as int, i + needle@.len()) =~= needle@);
            return true;
        }
        proof {
            let m = choose|m: int| 0 <= m < needle.len() && hay@[i + m] != needle@[m];
            assert(hay@.subrange(i as int, i + needle@.len())[m] != needle@[m]);
        }
        i = i + 1;
    }
    false
}

/// How a link found on an indexed page updates the tables.
pub enum LinkAction {
    /// The link is already staged: raise its staged rank by one.
    BumpStagedRank,
    /// The link is already indexed: raise its rank by one.
    BumpSiteRank,
    /// The link is new: put it on the staging table.
    Stage,
}

pub open spec fn link_action_of(in_staging: bool, in_sitedata: bool) -> LinkAction {
    if in_staging {
        LinkAction::BumpStagedRank
    } else if in_sitedata {
        LinkAction::BumpSiteRank
    } else {
        LinkAction::Stage
    }
}

/// A staged link gains staged rank; otherwise an indexed link gains rank;
/// otherwise the link is staged. `in_sitedata` is only read when the link
/// is not staged.
pub fn link_action(in_staging: bool, in_sitedata: bool) -> (a: LinkAction)
    ensures
        a == link_action_of(in_staging, in_sitedata),
        in_staging ==> a == LinkAction::BumpStagedRank,
        !in_staging && in_sitedata ==> a == LinkAction::BumpSiteRank,
        !in_staging && !in_sitedata ==> a == LinkAction::Stage,
{
    if in_staging {
        LinkAction::BumpStagedRank
    } else if in_sitedata {
        LinkAction::BumpSiteRank
    } else {
        LinkAction::Stage
    }
}

/// The staging and sitedata tables, by url: the staged rank of each staged
/// url, and the rank of each indexed url.
pub struct Tables {
    pub staged: Map<Seq<char>, int>,
    pub indexed: Map<Seq<char>, int>,
}

/// The tables after a found link is recorded as `link_action` decides: a
/// staged link's staged rank and an indexed link's rank grow by one, a new
/// link is staged with staged rank 0.
pub open spec fn apply_link(t: Tables, link: Seq<char>) -> Tables {
    match link_action_of(t.staged.dom().contains(link), t.indexed.dom().contains(link)) {
        LinkAction::BumpStagedRank => Tables { staged: t.staged.insert(link, t.staged[link] + 1), indexed: t.indexed },
        LinkAction::BumpSiteRank => Tables { staged: t.staged, indexed: t.indexed.insert(link, t.indexed[link] + 1) },
        LinkAction::Stage => Tables { staged: t.staged.insert(link, 0), indexed: t.indexed },
    }
}

/// The tables after the links are recorded one after another.
pub open spec fn apply_links(t: Tables, links: Seq<Seq<char>>) -> Tables
    decreases links.len(),
{
    if links.len() == 0 {
        t
    } else {
        apply_link(apply_links(t, links.drop_last()), links.last())
    }
}

/// The tables after a page is indexed: when its row was stored, the page is
/// indexed with its rank and its links are recorded; when storing failed,
/// nothing changes.
pub open spec fn index_effect(t: Tables, url: Seq<char>, rank: int, stored: bool, links: Seq<Seq<char>>) -> Tables {
    if stored {
        apply_links(Tables { staged: t.staged, indexed: t.indexed.insert(url, rank) }, links)
    } else {
        t
    }
}

/// No url is both staged and indexed.
pub open spec fn tables_disjoint(t: Tables) -> bool {
    forall|u: Seq<char>| !(#[trigger] t.staged.dom().contains(u) && t.indexed.dom().contains(u))
}

/// Nothing of `t` is gone from `t2` and no rank dropped.
pub open spec fn tables_grow(t: Tables, t2: Tables) -> bool {
    &&& forall|u: Seq<char>| #[trigger] t.staged.dom().contains(u) ==> t2.staged.dom().contains(u) && t2.staged[u] >= t.staged[u]
    &&& forall|u: Seq<char>| #[trigger] t.indexed.dom().contains(u) ==> t2.indexed.dom().contains(u) && t2.indexed[u] >= t.indexed[u]
}

proof fn lemma_links_keep_and_grow(t: Tables, links: Seq<Seq<char>>)
    ensures
        tables_disjoint(t) ==> tables_disjoint(apply_links(t, links)),
        tables_grow(t, apply_links(t, links)),
    decreases links.len(),
{
    if links.len() > 0 {
        lemma_links_keep_and_grow(t, links.drop_last());
        let m = apply_links(t, links.drop_last());
        let l = links.last();
        let n = apply_link(m, l);
        assert forall|u: Seq<char>| #[trigger] t.staged.dom().contains(u) implies n.staged.dom().contains(u) && n.staged[u] >= t.staged[u] by {
            assert(m.staged.dom().contains(u));
        }
        assert forall|u: Seq<char>| #[trigger] t.indexed.dom().contains(u) implies n.indexed.dom().contains(u) && n.indexed[u] >= t.indexed[u] by {
            assert(m.indexed.dom().contains(u));
        }
        if tables_disjoint(t) {
            assert forall|u: Seq<char>| !(#[trigger] n.staged.dom().contains(u) && n.indexed.dom().contains(u)) by {
                assert(!(m.staged.dom().contains(u) && m.indexed.dom().contains(u)));
            }
        }
    }
}

/// Indexing a page that is not staged keeps every url out of one of the two
/// tables: no url is ever both staged and indexed.
pub proof fn law_never_staged_and_indexed(t: Tables, url: Seq<char>, rank: int, stored: bool, links: Seq<Seq<char>>)
    requires
        tables_disjoint(t),
        !t.staged.dom().contains(url),
    ensures
        tables_disjoint(index_effect(t, url, rank, stored, links)),
{
    if stored {
        let t1 = Tables { staged: t.staged, indexed: t.indexed.insert(url, rank) };
        assert forall|u: Seq<char>| !(#[trigger] t1.staged.dom().contains(u) && t1.indexed.dom().contains(u)) by {
            if u != url {
                assert(!(t.staged.dom().contains(u) && t.indexed.dom().contains(u)));
            }
        }
        lemma_links_keep_and_grow(t1, links);
    }
}

/// Indexing a page deletes nothing and lowers no rank. (Storing the page's
/// row only succeeds when the page is not yet indexed.)
pub proof fn law_indexing_only_grows(t: Tables, url: Seq<char>, rank: int, stored: bool, links: Seq<Seq<char>>)
    requires
        stored ==> !t.indexed.dom().contains(url),
    ensures
        tables_grow(t, index_effect(t, url, rank, stored, links)),
{
    if stored {
        let t1 = Tables { staged: t.staged, indexed: t.indexed.insert(url, rank) };
        lemma_links_keep_and_grow(t1, links);
        let t2 = apply_links(t1, links);
        assert forall|u: Seq<char>| #[trigger] t.indexed.dom().contains(u) implies t2.indexed.dom().contains(u) && t2.indexed[u] >= t.indexed[u] by {
            assert(t1.indexed.dom().contains(u));
            assert(t1.indexed[u] == t.indexed[u]);
        }
        assert forall|u: Seq<char>| #[trigger] t.staged.dom().contains(u) implies t2.staged.dom().contains(u) && t2.staged[u] >= t.staged[u] by {
            assert(t1.staged.dom().contains(u));
        }
    }
}

/// Which links a page records: all of them when its row was stored, none
/// when storing the row failed.
pub fn links_to_record(stored: bool, links: Vec<String>) -> (r: Vec<String>)
    ensures
        stored ==> r@ == links@,
        !stored ==> r@.len() == 0,
{
    if stored {
        links
    } else {
        Vec::new()
    }
}

/// The site that seeds an empty index: the argument after the first
/// `--default-site`, or `https://github.com/` when there is no such flag;
/// `None` when the flag is the last argument and has no value.
pub open spec fn seed_site_of(args: Seq<Seq<char>>) -> Option<Seq<char>> {
    if exists|i: int| 0 <= i < args.len() && args[i] == "--default-site"@ {
        let p = choose|i: int| 0 <= i < args.len() && args[i] == "--default-site"@ && forall|j: int| 0 <= j < i ==> args[j] != "--default-site"@;
        if p + 1 < args.len() {
            Some(args[p + 1])
        } else {
            None
        }
    } else {
        Some("https://github.com/"@)
    }
}

/// The site that seeds an empty index, from the program's arguments.
pub fn seed_site(args: &Vec<String>) -> (r: Option<String>)
    ensures
        match r {
            Some(s) => seed_site_of(string_views(args@)) == Some(s@),
            None => seed_site_of(string_views(args@)) is None,
        },
{
    let flag = String::from_str("--default-site");
    let ghost av = string_views(args@);
    let mut i: usize = 0;
    while i < args.len()
        invariant
            i <= args.len(),
            flag@ == "--default-site"@,
            av == string_views(args@),
            forall|j: int| 0 <= j < i ==> av[j] != "--default-site"@,
        decreases args.len() - i,
    {
        if args[i] == flag {
            assert(av[i as int] == "--default-site"@);
            let ghost p = choose|k: int| 0 <= k < av.len() && av[k] == "--default-site"@ && forall|j: int| 0 <= j < k ==> av[j] != "--default-site"@;
            proof {
                assert(p == i) by {
                    if p < i {
                        assert(av[p] != "--default-site"@);
                    }
                    if p > i {
                        assert(av[i as int] != "--default-site"@);
                    }
                }
            }
            if i + 1 < args.len() {
                return Some(args[i + 1].clone());
            } else {
                return None;
            }
        }
        i = i + 1;
    }
    Some(String::from_str("https://github.com/"))
}

/// `flag` is one of the arguments.
pub fn has_flag(args: &Vec<String>, flag: &str) -> (b: bool)
    ensures
        b == string_views(args@).contains(flag@),
{
    let f = String::from_str(flag);
    let ghost av = string_views(args@);
    let mut i: usize = 0;
    while i < args.len()
        invariant
            i <= args.len(),
            f@ == flag@,
            av == string_views(args@),
            forall|j: int| 0 <= j < i ==> av[j] != flag@,
        decreases args.len() - i,
    {
        if args[i] == f {
            assert(av[i as int] == flag@);
            return true;
        }
        i = i + 1;
    }
    false
}

/// An empty index is seeded with the default site.
pub fn needs_seed(indexed_sites: usize) -> (b: bool)
    ensures
        b == (indexed_sites == 0),
{
    indexed_sites == 0
}

/// The crawl goes on while the staging table still holds sites.
pub fn keep_crawling(staged_rows: usize) -> (b: bool)
    ensures
        b == (staged_rows > 0),
{
    staged_rows > 0
}

/// A row of the staging table: a site waiting to be indexed and the rank it
/// gathered while waiting.
pub struct StagedSite {
    pub url: String,
    pub rank: u32,
}

impl StagedSite {
    /// The staged site from the row's columns: a missing url reads as
    /// `Unknown`, a missing rank as 0.
    pub fn from_columns(url: Option<String>, temprank: Option<u32>) -> (s: StagedSite)
        ensures
            s.url@ == (match url {
                Some(u) => u@,
                None => "Unknown"@,
            }),
            s.rank == (match temprank {
                Some(r) => r,
                None => 0,
            }),
    {
        let url = match url {
            Some(u) => u,
            None => String::from_str("Unknown"),
        };
        let rank = match temprank {
            Some(r) => r,
            None => 0,
        };
        StagedSite { url, rank }
    }
}

/// The text of an SQL string literal's body: every `'` doubled.
pub open spec fn sql_escape(u: Seq<char>) -> Seq<char>
    decreases u.len(),
{
    if u.len() == 0 {
        Seq::<char>::empty()
    } else if u.last() == '\'' {
        sql_escape(u.drop_last()).push('\'').push('\'')
    } else {
        sql_escape(u.drop_last()).push(u.last())
    }
}

/// The text an SQL string literal's body stands for: each `''` read as one
/// `'`.
pub open spec fn sql_unescape(s: Seq<char>) -> Seq<char>
    decreases s.len(),
{
    if s.len() == 0 {
        Seq::<char>::empty()
    } else if s.len() >= 2 && s.last() == '\'' && s[s.len() - 2] == '\'' {
        sql_unescape(s.take(s.len() - 2)).push('\'')
    } else {
        sql_unescape(s.drop_last()).push(s.last())
    }
}

/// `u` as one SQL string literal.
pub open spec fn quoted(u: Seq<char>) -> Seq<char> {
    "'"@ + sql_escape(u) + "'"@
}

/// The body of the literal that quotes a url reads back as exactly that url,
/// so no text of the url escapes the literal.
pub proof fn law_sql_literal_reads_back(u: Seq<char>)
    ensures
        sql_unescape(sql_escape(u)) == u,
    decreases u.len(),
{
    if u.len() > 0 {
        law_sql_literal_reads_back(u.drop_last());
        let e = sql_escape(u.drop_last());
        if u.last() == '\'' {
            let s = e.push('\'').push('\'');
            assert(s.take(s.len() - 2) =~= e);
        } else {
            let s = e.push(u.last());
            assert(s.drop_last() =~= e);
        }
        assert(u.drop_last().push(u.last()) =~= u);
    }
}

/// Read from the left as the body of an SQL string literal, `s` never ends
/// the literal: every `'` in it is the first of a `''` pair.
pub open spec fn stays_in_literal(s: Seq<char>) -> bool
    decreases s.len(),
{
    if s.len() == 0 {
        true
    } else if s[0] == '\'' {
        s.len() >= 2 && s[1] == '\'' && stays_in_literal(s.skip(2))
    } else {
        stays_in_literal(s.skip(1))
    }
}

proof fn lemma_stays_concat(a: Seq<char>, b: Seq<char>)
    requires
        stays_in_literal(a),
        stays_in_literal(b),
    ensures
        stays_in_literal(a + b),
    decreases a.len(),
{
    if a.len() == 0 {
        assert(a + b =~= b);
    } else if a[0] == '\'' {
        lemma_stays_concat(a.skip(2), b);
        assert((a + b).skip(2) =~= a.skip(2) + b);
    } else {
        lemma_stays_concat(a.skip(1), b);
        assert((a + b).skip(1) =~= a.skip(1) + b);
    }
}

/// The escaped url never closes its literal early: the literal that quotes a
/// url ends exactly at its last `'`.
pub proof fn law_sql_literal_is_closed(u: Seq<char>)
    ensures
        stays_in_literal(sql_escape(u)),
    decreases u.len(),
{
    if u.len() > 0 {
        law_sql_literal_is_closed(u.drop_last());
        let e = sql_escape(u.drop_last());
        if u.last() == '\'' {
            let p = seq!['\'', '\''];
            assert(p.skip(2) =~= Seq::<char>::empty());
            assert(stays_in_literal(p.skip(2)));
            assert(stays_in_literal(p));
            lemma_stays_concat(e, p);
            assert(e + p =~= sql_escape(u));
        } else {
            let p = seq![u.last()];
            assert(p.skip(1) =~= Seq::<char>::empty());
            assert(stays_in_literal(p.skip(1)));
            assert(p[0] != '\'');
            assert(stays_in_literal(p));
            lemma_stays_concat(e, p);
            assert(e + p =~= sql_escape(u));
        }
    }
}

/// `url` as one SQL string literal: in single quotes, each `'` doubled.
pub fn sql_quote(url: &str) -> (q: String)
    ensures
        q@ == quoted(url@),
{
    let cs = crate::text::chars_of(url);
    let mut body = String::new();
    let mut i: usize = 0;
    assert(cs@.take(0) =~= Seq::<char>::empty());
    while i < cs.len()
        invariant
            i <= cs.len(),
            body@ == sql_escape(cs@.take(i as int)),
        decreases cs.len() - i,
    {
        proof {
            assert(cs@.take(i + 1).drop_last() =~= cs@.take(i as int));
        }
        let c = cs[i];
        if c == '\'' {
            crate::text::push_char(&mut body, c);
            crate::text::push_char(&mut body, c);
        } else {
            crate::text::push_char(&mut body, c);
        }
        i = i + 1;
    }
    assert(cs@.take(cs.len() as int) =~= cs@);
    let mut q = String::from_str("'");
    q.append(body.as_str());
    q.append("'");
    q
}

/// The urls, each in single quotes, separated by `, `.
pub open spec fn quoted_list(urls: Seq<Seq<char>>) -> Seq<char>
    decreases urls.len(),
{
    if urls.len() == 0 {
        Seq::<char>::empty()
    } else if urls.len() == 1 {
        quoted(urls[0])
    } else {
        quoted_list(urls.drop_last()) + ", "@ + quoted(urls.last())
    }
}

pub open spec fn staged_urls(sites: Seq<StagedSite>) -> Seq<Seq<char>> {
    sites.map_values(|s: StagedSite| s.url@)
}

/// The statement that removes the staged sites of a round: each url is one
/// SQL string literal in the `IN` list.
pub open spec fn delete_statement(urls: Seq<Seq<char>>) -> Seq<char> {
    "DELETE FROM staging WHERE url IN ("@ + quoted_list(urls) + ");"@
}

/// A piece found in `a` is found in any text that has `a` inside it.
proof fn lemma_contains_in_middle(pre: Seq<char>, a: Seq<char>, post: Seq<char>, needle: Seq<char>)
    requires
        contains_seq(a, needle),
    ensures
        contains_seq(pre + a + post, needle),
{
    let i = choose|i: int| 0 <= i && i + needle.len() <= a.len() && #[trigger] a.subrange(i, i + needle.len()) == needle;
    let whole = pre + a + post;
    let j: int = pre.len() + i;
    assert(whole.subrange(j, j + needle.len()) =~= a.subrange(i, i + needle.len()));
}

/// Each url of the list appears, in quotes, in the quoted list.
proof fn lemma_quoted_list_names_all(urls: Seq<Seq<char>>, k: int)
    requires
        0 <= k < urls.len(),
    ensures
        contains_seq(quoted_list(urls), quoted(urls[k])),
    decreases urls.len(),
{
    let q = quoted(urls[k]);
    assert(contains_seq(q, q)) by {
        assert(q.subrange(0int, 0int + q.len()) =~= q);
    }
    if urls.len() == 1 {
        assert(q == quoted_list(urls));
    } else if k == urls.len() - 1 {
        let pre = quoted_list(urls.drop_last()) + ", "@;
        lemma_contains_in_middle(pre, q, Seq::<char>::empty(), q);
        assert(pre + q + Seq::<char>::empty() =~= quoted_list(urls));
    } else {
        lemma_quoted_list_names_all(urls.drop_last(), k);
        assert(urls.drop_last()[k] == urls[k]);
        lemma_contains_in_middle(Seq::<char>::empty(), quoted_list(urls.drop_last()), ", "@ + quoted(urls.last()), q);
        assert(Seq::<char>::empty() + quoted_list(urls.drop_last()) + (", "@ + quoted(urls.last())) =~= quoted_list(urls));
    }
}

/// The removal statement of a round names every staged url of the round, in
/// quotes.
pub proof fn law_delete_names_every_url(urls: Seq<Seq<char>>, k: int)
    requires
        0 <= k < urls.len(),
    ensures
        contains_seq(delete_statement(urls), quoted(urls[k])),
{
    lemma_quoted_list_names_all(urls, k);
    lemma_contains_in_middle("DELETE FROM staging WHERE url IN ("@, quoted_list(urls), ");"@, quoted(urls[k]));
}

/// The SQL statement that removes the given staged sites from the staging
/// table.
pub fn staging_delete_query(sites: &Vec<StagedSite>) -> (q: String)
    ensures
        q@ == delete_statement(staged_urls(sites@)),
{
    let ghost urls = staged_urls(sites@);
    let mut list = String::new();
    let mut i: usize = 0;
    assert(urls.take(0) =~= Seq::<Seq<char>>::empty());
    while i < sites.len()
        invariant
            i <= sites.len(),
            urls == staged_urls(sites@),
            list@ == quoted_list(urls.take(i as int)),
        decreases sites.len() - i,
    {
        proof {
            assert(urls.take(i + 1).drop_last() =~= urls.take(i as int));
            assert(urls.take(i + 1).last() == sites@[i as int].url@);
        }
        if i > 0 {
            list.append(", ");
        }
        let lit = sql_quote(sites[i].url.as_str());
        list.append(lit.as_str());
        proof {
            if i == 0 {
                assert(list@ =~= quoted(urls.take(1)[0]));
            } else {
                assert(list@ =~= quoted_list(urls.take(i as int)) + ", "@ + quoted(urls.take(i + 1).last()));
            }
        }
        i = i + 1;
    }
    assert(urls.take(sites.len() as int) =~= urls);
    let mut q = String::from_str("DELETE FROM staging WHERE url IN (");
    q.append(list.as_str());
    q.append(");");
    q
}

/// Counts of downloaded sites: in the current round, and since the crawl
/// began. The round count never exceeds the total.
pub struct CrawlProgress {
    sites_scanned: u64,
    total_sites_scanned: u64,
}

impl CrawlProgress {
    #[verifier::type_invariant]
    spec fn round_within_total(self) -> bool {
        self.sites_scanned <= self.total_sites_scanned
    }

    /// Sites downloaded in the current round.
    pub closed spec fn round(self) -> u64 {
        self.sites_scanned
    }

    /// Sites downloaded since the crawl began.
    pub closed spec fn total(self) -> u64 {
        self.total_sites_scanned
    }

    /// No site downloaded yet.
    pub fn new() -> (p: CrawlProgress)
        ensures
            p.round() == 0,
            p.total() == 0,
    {
        CrawlProgress { sites_scanned: 0, total_sites_scanned: 0 }
    }

    /// One more site downloaded: both counts grow by one.
    pub fn record_download(&mut self)
        requires
            old(self).total() < u64::MAX,
        ensures
            final(self).round() == old(self).round() + 1,
            final(self).total() == old(self).total() + 1,
    {
        proof {
            use_type_invariant(&*self);
        }
        self.total_sites_scanned = self.total_sites_scanned + 1;
        self.sites_scanned = self.sites_scanned + 1;
    }

    /// The round is over: its count starts again from zero; the total stays.
    pub fn finish_round(&mut self)
        ensures
            final(self).round() == 0,
            final(self).total() == old(self).total(),
    {
        self.sites_scanned = 0;
    }

    /// Sites downloaded in the current round; never more than the total.
    pub fn sites_scanned(&self) -> (n: u64)
        ensures
            n == self.round(),
            n <= self.total(),
    {
        proof {
            use_type_invariant(self);
        }
        self.sites_scanned
    }

    /// Sites downloaded since the crawl began.
    pub fn total_sites_scanned(&self) -> (n: u64)
        ensures
            n == self.total(),
    {
        self.total_sites_scanned
    }
}

} // verus!
