//! Resolution of the links found on a crawled page against the page's own
//! address, and the check that a resolved link is a crawlable web address.
use vstd::prelude::*;
use crate::text::{lemma_split_concat, lemma_split_without_sep, split_on, starts_with, has_char, lemma_split_on_nonempty, lemma_first_piece, lemma_split_on_pieces_free, chars_of, chars_to_string, split_chars, vec_starts_with, vec_skip, push_all};

verus! {

/// The characters that a host name may hold: ASCII letters, digits, `.` and `-`.
pub open spec fn is_site_char(c: char) -> bool {
    ('a' <= c && c <= 'z') || ('A' <= c && c <= 'Z') || ('0' <= c && c <= '9') || c == '.' || c == '-'
}

/// Every character of `s` may stand in a host name.
pub open spec fn all_site_chars(s: Seq<char>) -> bool {
    forall|i: int| 0 <= i < s.len() ==> is_site_char(#[trigger] s[i])
}

pub open spec fn http_prefix() -> Seq<char> {
    seq!['h', 't', 't', 'p', ':', '/', '/']
}

pub open spec fn https_prefix() -> Seq<char> {
    seq!['h', 't', 't', 'p', 's', ':', '/', '/']
}

pub open spec fn slash() -> Seq<char> {
    seq!['/']
}

pub open spec fn dot_slash() -> Seq<char> {
    seq!['.', '/']
}

/// A text read as a host name optionally followed by a path: the host is the
/// non-empty run of host characters before the first `/`, the path (when the
/// text goes on) is everything from that `/` on and holds no line break.
/// `None` when the text has no such form.
pub open spec fn site_path_split(t: Seq<char>) -> Option<(Seq<char>, Option<Seq<char>>)> {
    let site = split_on(t, '/')[0];
    if site.len() == 0 || !all_site_chars(site) {
        None
    } else if site.len() == t.len() {
        Some((site, None))
    } else {
        let path = t.skip(site.len() as int);
        if has_char(path, '\n') {
            None
        } else {
            Some((site, Some(path)))
        }
    }
}

/// `t` is an `http://` or `https://` address whose remainder is a host name
/// optionally followed by a path.
pub open spec fn is_http_url(t: Seq<char>) -> bool {
    ||| starts_with(t, http_prefix()) && site_path_split(t.skip(7)) is Some
    ||| starts_with(t, https_prefix()) && site_path_split(t.skip(8)) is Some
}

/// A link with its query (from the first `?`) and fragment (from the first
/// `#`) cut off.
pub open spec fn strip_query_fragment(rel: Seq<char>) -> Seq<char> {
    split_on(split_on(rel, '?')[0], '#')[0]
}

/// The link, once stripped, is already a full `http://` or `https://` address.
pub open spec fn is_absolute(r: Seq<char>) -> bool {
    starts_with(r, http_prefix()) || starts_with(r, https_prefix())
}

/// Resolving the link reads the scheme and host of the page's address.
pub open spec fn needs_base(rel: Seq<char>) -> bool {
    let r = strip_query_fragment(rel);
    !is_absolute(r) && (starts_with(r, slash()) || starts_with(r, dot_slash()) || site_path_split(r) is None)
}

/// The page's address has a scheme and a host part: split on `/` it has at
/// least three pieces.
pub open spec fn has_host_part(base: Seq<char>) -> bool {
    split_on(base, '/').len() >= 3
}

/// `scheme//host/` + `tail`, with scheme and host taken from the page address.
pub open spec fn on_base(base: Seq<char>, tail: Seq<char>) -> Seq<char> {
    let parts = split_on(base, '/');
    parts[0] + seq!['/', '/'] + parts[2] + slash() + tail
}

/// The address a link on the page at `base` points to.
pub open spec fn resolve_target(base: Seq<char>, rel: Seq<char>) -> Seq<char> {
    let r = strip_query_fragment(rel);
    if is_absolute(r) {
        r
    } else if starts_with(r, dot_slash()) {
        on_base(base, r.skip(2))
    } else if starts_with(r, slash()) {
        on_base(base, r.skip(1))
    } else {
        match site_path_split(r) {
            Some((site, Some(path))) => http_prefix() + site + slash() + path,
            Some((site, None)) => http_prefix() + site + slash(),
            None => on_base(base, r),
        }
    }
}

/// The resolved link when it is a crawlable address, else the empty text.
pub open spec fn crawlable_link(base: Seq<char>, rel: Seq<char>) -> Seq<char> {
    let t = resolve_target(base, rel);
    if is_http_url(t) {
        t
    } else {
        Seq::<char>::empty()
    }
}

pub open spec fn opt_view(o: Option<String>) -> Option<Seq<char>> {
    match o {
        Some(s) => Some(s@),
        None => None,
    }
}

/// A text without the separator is its own first piece.
proof fn lemma_first_piece_without_sep(s: Seq<char>, sep: char)
    requires
        !has_char(s, sep),
    ensures
        split_on(s, sep)[0] == s,
{
    lemma_first_piece(s, sep);
    if split_on(s, sep).len() > 1 {
        assert(s[split_on(s, sep)[0].len() as int] == sep);
    }
}

/// A stripped link holds neither `?` nor `#`.
proof fn lemma_stripped_is_clean(rel: Seq<char>)
    ensures
        !has_char(strip_query_fragment(rel), '?'),
        !has_char(strip_query_fragment(rel), '#'),
{
    let x = split_on(rel, '?')[0];
    lemma_split_on_nonempty(rel, '?');
    lemma_split_on_pieces_free(rel, '?');
    assert(!has_char(split_on(rel, '?')[0], '?'));
    let y = split_on(x, '#')[0];
    lemma_first_piece(x, '#');
    lemma_split_on_pieces_free(x, '#');
    assert(!has_char(split_on(x, '#')[0], '#'));
    assert forall|i: int| 0 <= i < y.len() implies y[i] != '?' by {
        assert(y[i] == x.take(y.len() as int)[i]);
        assert(y[i] == x[i]);
    }
}

/// Stripping query and fragment twice is stripping them once.
pub proof fn lemma_strip_idempotent(rel: Seq<char>)
    ensures
        strip_query_fragment(strip_query_fragment(rel)) == strip_query_fragment(rel),
{
    let y = strip_query_fragment(rel);
    lemma_stripped_is_clean(rel);
    lemma_first_piece_without_sep(y, '?');
    lemma_first_piece_without_sep(y, '#');
}

/// A link's query and fragment never change where it leads: resolving the
/// link and resolving it without them give the same address, and the same
/// crawlable link.
pub proof fn law_query_and_fragment_ignored(base: Seq<char>, rel: Seq<char>)
    ensures
        resolve_target(base, rel) == resolve_target(base, strip_query_fragment(rel)),
        crawlable_link(base, rel) == crawlable_link(base, strip_query_fragment(rel)),
        needs_base(rel) == needs_base(strip_query_fragment(rel)),
{
    lemma_strip_idempotent(rel);
}

/// A link that needs no page address resolves the same on every page.
pub proof fn law_base_irrelevant(base1: Seq<char>, base2: Seq<char>, rel: Seq<char>)
    requires
        !needs_base(rel),
    ensures
        resolve_target(base1, rel) == resolve_target(base2, rel),
        crawlable_link(base1, rel) == crawlable_link(base2, rel),
{
}

/// A crawlable link is either empty or an `http(s)` address with a host.
pub proof fn law_crawlable_is_http(base: Seq<char>, rel: Seq<char>)
    ensures
        crawlable_link(base, rel).len() == 0 || is_http_url(crawlable_link(base, rel)),
{
}

/// A crawlable address without query or fragment, found on any page, is
/// kept exactly as written.
pub proof fn law_crawlable_address_fixed(base: Seq<char>, url: Seq<char>)
    requires
        is_http_url(url),
        !has_char(url, '?'),
        !has_char(url, '#'),
    ensures
        crawlable_link(base, url) == url,
        !needs_base(url),
{
    lemma_first_piece_without_sep(url, '?');
    lemma_first_piece_without_sep(url, '#');
    assert(strip_query_fragment(url) == url);
}

/// The page address `scheme//host/rest` splits on `/` into the scheme, an
/// empty piece, the host, and then the pieces of `rest`.
proof fn lemma_base_parts(s: Seq<char>, h: Seq<char>, rest: Seq<char>)
    requires
        !has_char(s, '/'),
        !has_char(h, '/'),
    ensures
        split_on(s + seq!['/', '/'] + h + slash() + rest, '/').len() >= 3,
        split_on(s + seq!['/', '/'] + h + slash() + rest, '/')[0] == s,
        split_on(s + seq!['/', '/'] + h + slash() + rest, '/')[2] == h,
{
    let base = s + seq!['/', '/'] + h + slash() + rest;
    let e = Seq::<char>::empty();
    let inner = h.push('/') + rest;
    let mid = e.push('/') + inner;
    assert(base =~= s.push('/') + mid);
    lemma_split_concat(s, mid, '/');
    lemma_split_concat(e, inner, '/');
    lemma_split_concat(h, rest, '/');
    lemma_split_without_sep(s, '/');
    lemma_split_without_sep(h, '/');
    lemma_split_on_nonempty(rest, '/');
    assert(split_on(e, '/') =~= seq![e]);
    let pieces = seq![s] + (seq![e] + (seq![h] + split_on(rest, '/')));
    assert(split_on(base, '/') == pieces);
    assert(pieces[0] == s);
    assert(pieces[2] == h);
}

/// `c` followed by `p` holds neither `?` nor `#` when `c` is neither and `p`
/// holds neither; stripping query and fragment then changes nothing.
proof fn lemma_strip_clean(r: Seq<char>)
    requires
        !has_char(r, '?'),
        !has_char(r, '#'),
    ensures
        strip_query_fragment(r) == r,
{
    lemma_first_piece_without_sep(r, '?');
    lemma_first_piece_without_sep(r, '#');
}

/// A link that starts with `/` resolves to the page's scheme, `//`, the
/// page's host, `/` and everything after the leading `/`; a link that starts
/// with `./` resolves to the same with everything after the `./`.
pub proof fn law_rooted_link_resolution(s: Seq<char>, h: Seq<char>, rest: Seq<char>, p: Seq<char>)
    requires
        !has_char(s, '/'),
        !has_char(h, '/'),
        !has_char(p, '?'),
        !has_char(p, '#'),
    ensures
        resolve_target(s + seq!['/', '/'] + h + slash() + rest, slash() + p) == s + seq!['/', '/'] + h + slash() + p,
        resolve_target(s + seq!['/', '/'] + h + slash() + rest, dot_slash() + p) == s + seq!['/', '/'] + h + slash() + p,
        has_host_part(s + seq!['/', '/'] + h + slash() + rest),
{
    let base = s + seq!['/', '/'] + h + slash() + rest;
    lemma_base_parts(s, h, rest);
    let r1 = slash() + p;
    let r2 = dot_slash() + p;
    assert(!has_char(r1, '?') && !has_char(r1, '#')) by {
        assert forall|i: int| 0 <= i < r1.len() implies r1[i] != '?' && r1[i] != '#' by {
            if i > 0 {
                assert(r1[i] == p[i - 1]);
            }
        }
    }
    assert(!has_char(r2, '?') && !has_char(r2, '#')) by {
        assert forall|i: int| 0 <= i < r2.len() implies r2[i] != '?' && r2[i] != '#' by {
            if i > 1 {
                assert(r2[i] == p[i - 2]);
            }
        }
    }
    lemma_strip_clean(r1);
    lemma_strip_clean(r2);
    assert(!is_absolute(r1)) by {
        if 7 <= r1.len() {
            assert(r1.take(7)[0] != http_prefix()[0]);
        }
        if 8 <= r1.len() {
            assert(r1.take(8)[0] != https_prefix()[0]);
        }
    }
    assert(!is_absolute(r2)) by {
        if 7 <= r2.len() {
            assert(r2.take(7)[0] != http_prefix()[0]);
        }
        if 8 <= r2.len() {
            assert(r2.take(8)[0] != https_prefix()[0]);
        }
    }
    assert(!starts_with(r1, dot_slash())) by {
        if 2 <= r1.len() {
            assert(r1.take(2)[0] != dot_slash()[0]);
        }
    }
    assert(r1.take(1) =~= slash());
    assert(r2.take(2) =~= dot_slash());
    assert(r1.skip(1) =~= p);
    assert(r2.skip(2) =~= p);
}

/// `r` does not start with `pre` when they differ at a position within both.
proof fn lemma_not_prefixed(r: Seq<char>, pre: Seq<char>, q: int)
    requires
        0 <= q < pre.len(),
        q < r.len() ==> r[q] != pre[q],
    ensures
        !starts_with(r, pre),
{
    if pre.len() <= r.len() {
        assert(r.take(pre.len() as int)[q] == r[q]);
    }
}

/// A text that starts with a host name never starts with `http://` or
/// `https://`: the `:` of the scheme is not a host character.
proof fn lemma_host_not_absolute(h: Seq<char>, rest: Seq<char>)
    requires
        h.len() > 0,
        all_site_chars(h),
        rest.len() == 0 || rest[0] == '/',
    ensures
        !is_absolute(h + rest),
{
    let r = h + rest;
    let q1: int = if h.len() < 4 { h.len() as int } else { 4 };
    let q2: int = if h.len() < 5 { h.len() as int } else { 5 };
    if q1 < r.len() {
        if q1 < h.len() {
            assert(r[q1] == h[q1]);
            assert(is_site_char(h[q1]));
        } else {
            assert(r[q1] == rest[0]);
        }
    }
    lemma_not_prefixed(r, http_prefix(), q1);
    if q2 < r.len() {
        if q2 < h.len() {
            assert(r[q2] == h[q2]);
            assert(is_site_char(h[q2]));
        } else {
            assert(r[q2] == rest[0]);
        }
    }
    lemma_not_prefixed(r, https_prefix(), q2);
}

/// A link that reads as a host followed by a path gets `http://`, the host,
/// `/` and the path (which itself starts with `/`); a bare host gets
/// `http://`, the host and `/`. The page address plays no part.
pub proof fn law_host_link_resolution(base: Seq<char>, h: Seq<char>, p: Seq<char>)
    requires
        h.len() > 0,
        all_site_chars(h),
        h != seq!['.'],
        !has_char(p, '?'),
        !has_char(p, '#'),
        !has_char(p, '\n'),
    ensures
        resolve_target(base, h + slash() + p) == http_prefix() + h + slash() + slash() + p,
        resolve_target(base, h) == http_prefix() + h + slash(),
{
    assert(!has_char(h, '/') && !has_char(h, '?') && !has_char(h, '#')) by {
        assert forall|i: int| 0 <= i < h.len() implies h[i] != '/' && h[i] != '?' && h[i] != '#' by {
            assert(is_site_char(h[i]));
        }
    }
    let sp = slash() + p;
    let r = h + sp;
    assert(h + slash() + p =~= r);
    assert(!has_char(r, '?') && !has_char(r, '#')) by {
        assert forall|i: int| 0 <= i < r.len() implies r[i] != '?' && r[i] != '#' by {
            if i < h.len() {
                assert(r[i] == h[i]);
            } else if i > h.len() {
                assert(r[i] == p[i - h.len() - 1]);
            }
        }
    }
    lemma_strip_clean(r);
    lemma_strip_clean(h);
    lemma_host_not_absolute(h, sp);
    assert(h + Seq::<char>::empty() =~= h);
    lemma_host_not_absolute(h, Seq::<char>::empty());
    assert(is_site_char(h[0]));
    lemma_not_prefixed(r, slash(), 0);
    lemma_not_prefixed(h, slash(), 0);
    if h.len() == 1 {
        assert(h[0] != '.') by {
            if h[0] == '.' {
                assert(h =~= seq!['.']);
            }
        }
        lemma_not_prefixed(r, dot_slash(), 0);
    } else {
        assert(r[1] == h[1]);
        assert(is_site_char(h[1]));
        lemma_not_prefixed(r, dot_slash(), 1);
    }
    if h.len() >= 2 {
        assert(is_site_char(h[1]));
    }
    lemma_not_prefixed(h, dot_slash(), 1);
    // the host-with-path link
    assert(r =~= h.push('/') + p);
    lemma_split_concat(h, p, '/');
    lemma_split_without_sep(h, '/');
    lemma_split_on_nonempty(p, '/');
    assert(split_on(r, '/')[0] == h);
    assert(r.skip(h.len() as int) =~= sp);
    assert(!has_char(sp, '\n')) by {
        assert forall|i: int| 0 <= i < sp.len() implies sp[i] != '\n' by {
            if i > 0 {
                assert(sp[i] == p[i - 1]);
            }
        }
    }
    assert(site_path_split(r) == Some((h, Some(sp))));
    assert(http_prefix() + h + slash() + sp =~= http_prefix() + h + slash() + slash() + p);
    // the bare host
    assert(split_on(h, '/')[0] == h);
    assert(site_path_split(h) == Some((h, None::<Seq<char>>)));
}

/// A link that neither is a full address, nor starts with `/`, nor reads as a
/// host, is placed as it stands after the page's scheme, `//`, host and `/`.
pub proof fn law_other_link_resolution(s: Seq<char>, h: Seq<char>, rest: Seq<char>, r: Seq<char>)
    requires
        !has_char(s, '/'),
        !has_char(h, '/'),
        !has_char(r, '?'),
        !has_char(r, '#'),
        r.len() == 0 || (!is_site_char(r[0]) && r[0] != '/'),
    ensures
        resolve_target(s + seq!['/', '/'] + h + slash() + rest, r) == s + seq!['/', '/'] + h + slash() + r,
{
    lemma_base_parts(s, h, rest);
    lemma_strip_clean(r);
    if r.len() > 0 {
        lemma_not_prefixed(r, http_prefix(), 0);
        lemma_not_prefixed(r, https_prefix(), 0);
        lemma_not_prefixed(r, slash(), 0);
        lemma_not_prefixed(r, dot_slash(), 0);
        lemma_first_piece(r, '/');
        let site = split_on(r, '/')[0];
        if site.len() > 0 {
            assert(site[0] == r[0]);
            assert(!all_site_chars(site));
        } else if split_on(r, '/').len() > 1 {
            assert(r[0] == '/');
        }
        assert(site_path_split(r) is None);
    } else {
        assert(split_on(r, '/')[0].len() == 0);
    }
}

/// A full `http://` or `https://` link without query or fragment resolves to
/// itself on every page.
pub proof fn law_absolute_link_kept(base: Seq<char>, u: Seq<char>)
    requires
        is_absolute(u),
        !has_char(u, '?'),
        !has_char(u, '#'),
    ensures
        resolve_target(base, u) == u,
{
    lemma_strip_clean(u);
}

/// A crawlable link is the resolved link exactly when the resolved link is an
/// `http(s)` address with a host, and empty otherwise.
pub proof fn law_crawlable_is_resolved(base: Seq<char>, rel: Seq<char>)
    ensures
        is_http_url(resolve_target(base, rel)) ==> crawlable_link(base, rel) == resolve_target(base, rel),
        !is_http_url(resolve_target(base, rel)) ==> crawlable_link(base, rel).len() == 0,
{
}

/// On a page `http(s)://host/...` with a valid host, the links `/p` and
/// `./p` (for a path `p` without `?`, `#` or line break) are kept as
/// `http(s)://host/p`.
pub proof fn law_rooted_link_crawlable(secure: bool, h: Seq<char>, rest: Seq<char>, p: Seq<char>)
    requires
        h.len() > 0,
        all_site_chars(h),
        !has_char(p, '?'),
        !has_char(p, '#'),
        !has_char(p, '\n'),
    ensures
        ({
            let prefix = if secure { https_prefix() } else { http_prefix() };
            &&& crawlable_link(prefix + h + slash() + rest, slash() + p) == prefix + h + slash() + p
            &&& crawlable_link(prefix + h + slash() + rest, dot_slash() + p) == prefix + h + slash() + p
        }),
{
    let prefix = if secure { https_prefix() } else { http_prefix() };
    let s = prefix.take(prefix.len() - 2);
    assert(prefix =~= s + seq!['/', '/']);
    assert(!has_char(h, '/')) by {
        assert forall|i: int| 0 <= i < h.len() implies h[i] != '/' by {
            assert(is_site_char(h[i]));
        }
    }
    assert(!has_char(s, '/')) by {
        assert forall|i: int| 0 <= i < s.len() implies s[i] != '/' by {}
    }
    law_rooted_link_resolution(s, h, rest, p);
    assert(s + seq!['/', '/'] + h + slash() + rest =~= prefix + h + slash() + rest);
    let t = prefix + h + slash() + p;
    assert(s + seq!['/', '/'] + h + slash() + p =~= t);
    let after = h.push('/') + p;
    assert(t.take(prefix.len() as int) =~= prefix);
    assert(t.skip(prefix.len() as int) =~= after);
    lemma_split_concat(h, p, '/');
    lemma_split_without_sep(h, '/');
    lemma_split_on_nonempty(p, '/');
    assert(split_on(after, '/')[0] == h);
    assert(after.skip(h.len() as int) =~= slash() + p);
    assert(!has_char(slash() + p, '\n')) by {
        assert forall|i: int| 0 <= i < (slash() + p).len() implies (slash() + p)[i] != '\n' by {
            if i > 0 {
                assert((slash() + p)[i] == p[i - 1]);
            }
        }
    }
    assert(site_path_split(after) is Some);
    assert(is_http_url(t));
}

/// Whether `text` is an `http`/`https` address with a host and an optional
/// path, as the regular expression
/// `^(?P<protocol>http|https)://(?P<site>[a-zA-Z0-9\.\-]+)(?P<path>/.*)?$` of
/// the `regex` crate decides it.
///
/// Trusted: `regex::Regex::new` on this fixed, valid pattern and
/// `Regex::captures`. By the crate's documented syntax, `.` matches any
/// character but `\n`, `^`/`$` anchor at the ends of the whole text, and a
/// match exists exactly when the text has the form that `is_http_url` states.
#[verifier::external_body]
fn captures_http_url(text: &str) -> (b: bool)
    ensures
        b == is_http_url(text@),
{
    let re = regex::Regex::new(r"^(?P<protocol>http|https)://(?P<site>[a-zA-Z0-9\.\-]+)(?P<path>/.*)?$").unwrap();
    re.captures(text).is_some()
}

/// The `site` and `path` groups of the regular expression
/// `^(?P<site>[a-zA-Z0-9\.\-]+)(?P<path>/.*)?$` of the `regex` crate on
/// `text`, or `None` when it does not match.
///
/// Trusted: `regex::Regex::new` on this fixed, valid pattern,
/// `Regex::captures` and `Captures::name`. By the crate's documented syntax
/// the match exists exactly when `site_path_split` gives `Some`; the `site`
/// group always takes part in a match and holds the host (the greedy run of
/// host characters, which stops at the first `/`), and the optional `path`
/// group takes part exactly when text follows the host, holding all of it.
#[verifier::external_body]
pub(crate) fn captures_site_path(text: &str) -> (r: Option<(Option<String>, Option<String>)>)
    ensures
        match r {
            None => site_path_split(text@) is None,
            Some((site, path)) => site_path_split(text@) == Some((site->0@, opt_view(path))) && site is Some,
        },
{
    let re = regex::Regex::new(r"^(?P<site>[a-zA-Z0-9\.\-]+)(?P<path>/.*)?$").unwrap();
    let caps = re.captures(text)?;
    let site = match caps.name("site") {
        Some(m) => Some(m.as_str().to_string()),
        None => None,
    };
    let path = match caps.name("path") {
        Some(m) => Some(m.as_str().to_string()),
        None => None,
    };
    Some((site, path))
}

/// `scheme//host/` of the page address followed by `tail`.
fn join_on_base(parts: &Vec<Vec<char>>, tail: &Vec<char>) -> (r: Vec<char>)
    requires
        parts@.len() >= 3,
    ensures
        r@ == parts@[0]@ + seq!['/', '/'] + parts@[2]@ + slash() + tail@,
{
    let mut out: Vec<char> = Vec::new();
    push_all(&mut out, &parts[0]);
    out.push('/');
    out.push('/');
    push_all(&mut out, &parts[2]);
    out.push('/');
    push_all(&mut out, tail);
    assert(out@ =~= parts@[0]@ + seq!['/', '/'] + parts@[2]@ + slash() + tail@);
    out
}

/// The absolute address that the link `relative_url`, found on the page at
/// `base_url`, points to. Query and fragment are dropped; a full `http(s)://`
/// link is kept; `/x` and `./x` are placed on the page's scheme and host; a
/// link that reads as `host/path` or `host` gets `http://`; anything else is
/// placed on the page's scheme and host as it stands.
pub fn get_relative_url(base_url: &str, relative_url: &str) -> (r: String)
    requires
        needs_base(relative_url@) ==> has_host_part(base_url@),
    ensures
        r@ == resolve_target(base_url@, relative_url@),
{
    let all = chars_of(relative_url);
    let by_query = split_chars(&all, '?');
    proof {
        lemma_split_on_nonempty(all@, '?');
    }
    let by_hash = split_chars(&by_query[0], '#');
    proof {
        lemma_split_on_nonempty(by_query@[0]@, '#');
    }
    let rel = &by_hash[0];
    assert(rel@ == strip_query_fragment(relative_url@));

    let http: Vec<char> = vec!['h', 't', 't', 'p', ':', '/', '/'];
    let https: Vec<char> = vec!['h', 't', 't', 'p', 's', ':', '/', '/'];
    assert(http@ == http_prefix());
    assert(https@ == https_prefix());
    if vec_starts_with(rel, &http) || vec_starts_with(rel, &https) {
        return chars_to_string(rel);
    }

    let base = split_chars(&chars_of(base_url), '/');
    let sl: Vec<char> = vec!['/'];
    let dot_sl: Vec<char> = vec!['.', '/'];
    assert(sl@ == slash());
    assert(dot_sl@ == dot_slash());
    if vec_starts_with(rel, &sl) || vec_starts_with(rel, &dot_sl) {
        if vec_starts_with(rel, &dot_sl) {
            let tail = vec_skip(rel, 2);
            return chars_to_string(&join_on_base(&base, &tail));
        } else {
            let tail = vec_skip(rel, 1);
            return chars_to_string(&join_on_base(&base, &tail));
        }
    }

    let rel_text = chars_to_string(rel);
    match captures_site_path(&rel_text) {
        Some((Some(site), Some(path))) => {
            let mut out = http;
            push_all(&mut out, &chars_of(&site));
            out.push('/');
            push_all(&mut out, &chars_of(&path));
            assert(out@ =~= http_prefix() + site@ + slash() + path@);
            return chars_to_string(&out);
        },
        Some((Some(site), None)) => {
            let mut out = http;
            push_all(&mut out, &chars_of(&site));
            out.push('/');
            assert(out@ =~= http_prefix() + site@ + slash());
            return chars_to_string(&out);
        },
        _ => {},
    }
    chars_to_string(&join_on_base(&base, rel))
}

/// The link resolved as `get_relative_url` does, kept only when it is a
/// crawlable `http(s)` address; otherwise the empty string.
pub fn parse_relative_url(base_url: &str, relative_url: &str) -> (r: String)
    requires
        needs_base(relative_url@) ==> has_host_part(base_url@),
    ensures
        r@ == crawlable_link(base_url@, relative_url@),
{
    let url = get_relative_url(base_url, relative_url);
    if !captures_http_url(&url) {
        return String::new();
    }
    url
}

} // verus!
