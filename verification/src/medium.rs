//! Recognition of Medium article URLs: Medium itself and its subdomains,
//! the publications Medium hosts on custom domains, and article paths that
//! end in Medium's hexadecimal article id.
use vstd::prelude::*;

use crate::text::{chars_of, ends_with_chars, has_suffix, str_eq};

verus! {

/// What `url::Url::parse` gives for a text: `None` when it is no URL, else
/// the URL's host (`host_str`) and path (`path`).
pub uninterp spec fn url_host_and_path(url: Seq<char>) -> Option<(Option<Seq<char>>, Seq<char>)>;

/// What `str::to_lowercase` gives for a text.
pub uninterp spec fn lowercased(s: Seq<char>) -> Seq<char>;

/// url: `Url::parse(url)`, then `host_str()` and `path()` of the parsed URL.
/// The contract claims only that the result is `url_host_and_path` of the
/// argument, `None` exactly when parsing fails.
#[verifier::external_body]
fn parse_url_parts(url: &str) -> (r: Option<(Option<String>, String)>)
    ensures
        url_host_and_path(url@) == match r {
            Some((h, p)) => Some(
                (
                    match h {
                        Some(hs) => Some(hs@),
                        None => None,
                    },
                    p@,
                ),
            ),
            None => None,
        },
{
    match url::Url::parse(url) {
        Ok(u) => Some((u.host_str().map(|h| h.to_string()), u.path().to_string())),
        Err(_) => None,
    }
}

/// std: `str::to_lowercase`. The contract claims only that the result is
/// `lowercased` of the argument.
#[verifier::external_body]
pub(crate) fn to_lowercase(s: &str) -> (r: String)
    ensures
        r@ == lowercased(s@),
{
    s.to_lowercase()
}

/// Known Medium publication domains (custom domains that host Medium content)
pub open spec fn medium_domains() -> Seq<Seq<char>> {
    seq![
        "medium.com"@,
        "towardsdatascience.com"@,
        "betterprogramming.pub"@,
        "levelup.gitconnected.com"@,
        "javascript.plainenglish.io"@,
        "python.plainenglish.io"@,
        "blog.devgenius.io"@,
        "uxdesign.cc"@,
        "bootcamp.uxdesign.cc"@,
        "betterhumans.pub"@,
        "eand.co"@,
        "entrepreneurshandbook.co"@,
        "writingcooperative.com"@,
        "psiloveyou.xyz"@,
        "hackernoon.com"@,
        "codeburst.io"@,
        "itnext.io"@,
        "medium.freecodecamp.org"@,
    ]
}

fn medium_domain_table() -> (v: Vec<&'static str>)
    ensures
        v@.map_values(|d: &str| d@) == medium_domains(),
{
    let v = vec![
        "medium.com",
        "towardsdatascience.com",
        "betterprogramming.pub",
        "levelup.gitconnected.com",
        "javascript.plainenglish.io",
        "python.plainenglish.io",
        "blog.devgenius.io",
        "uxdesign.cc",
        "bootcamp.uxdesign.cc",
        "betterhumans.pub",
        "eand.co",
        "entrepreneurshandbook.co",
        "writingcooperative.com",
        "psiloveyou.xyz",
        "hackernoon.com",
        "codeburst.io",
        "itnext.io",
        "medium.freecodecamp.org",
    ];
    assert(v@.map_values(|d: &str| d@) =~= medium_domains());
    v
}

/// `host` is `domain` or one of its subdomains.
pub open spec fn is_domain_or_subdomain(host: Seq<char>, domain: Seq<char>) -> bool {
    host == domain || has_suffix(host, seq!['.'] + domain)
}

/// A (lower-cased) host that serves Medium articles.
pub open spec fn is_medium_host(host: Seq<char>) -> bool {
    ||| is_domain_or_subdomain(host, "medium.com"@)
    ||| exists|i: int|
        0 <= i < medium_domains().len() && is_domain_or_subdomain(
            host,
            #[trigger] medium_domains()[i],
        )
}

pub open spec fn is_lower_hex(c: char) -> bool {
    ('a' <= c && c <= 'f') || ('0' <= c && c <= '9')
}

/// The path ends with `-` and 10 to 12 lower-case hexadecimal digits
/// (the pattern `-[a-f0-9]{10,12}$`).
pub open spec fn has_medium_article_id(path: Seq<char>) -> bool {
    exists|k: int| 10 <= k <= 12 && #[trigger] ends_with_dash_hex(path, k)
}

/// The path ends with `-` followed by exactly `k` lower-case hexadecimal digits.
pub open spec fn ends_with_dash_hex(path: Seq<char>, k: int) -> bool {
    k + 1 <= path.len() && path[path.len() - k - 1] == '-' && (forall|j: int|
        path.len() - k <= j < path.len() ==> is_lower_hex(#[trigger] path[j]))
}

/// Whether the URL is accepted as a Medium article URL.
pub open spec fn medium_url_accepted(url: Seq<char>) -> bool {
    url.len() > 0 && match url_host_and_path(url) {
        Some((Some(host), path)) => is_medium_host(lowercased(host)) || has_medium_article_id(path),
        _ => false,
    }
}

fn ends_with_hex_id(path: &Vec<char>, k: usize) -> (b: bool)
    requires
        10 <= k <= 12,
    ensures
        b == ends_with_dash_hex(path@, k as int),
{
    if path.len() < k + 1 {
        return false;
    }
    if path[path.len() - k - 1] != '-' {
        return false;
    }
    let mut j: usize = path.len() - k;
    while j < path.len()
        invariant
            k + 1 <= path@.len(),
            path@.len() - k <= j <= path@.len(),
            forall|m: int| path@.len() - k <= m < j ==> is_lower_hex(#[trigger] path@[m]),
        decreases path@.len() - j,
    {
        let c = path[j];
        if !(('a' <= c && c <= 'f') || ('0' <= c && c <= '9')) {
            return false;
        }
        j = j + 1;
    }
    true
}

/// Whether a URL with this (lower-cased) host and this path is accepted:
/// the host is Medium's, a subdomain of it, or a known publication domain
/// (or a subdomain of one), or the path ends in an article id.
pub fn accepts_medium_host_or_path(host: &str, path: &str) -> (b: bool)
    ensures
        b == (is_medium_host(host@) || has_medium_article_id(path@)),
{
    let hv = chars_of(host);
    if str_eq(host, "medium.com") || ends_with_chars(&hv, &chars_of(".medium.com")) {
        proof {
            reveal_strlit(".medium.com");
            reveal_strlit("medium.com");
            assert(".medium.com"@ =~= seq!['.'] + "medium.com"@);
        }
        return true;
    }
    let domains = medium_domain_table();
    let mut i: usize = 0;
    while i < domains.len()
        invariant
            i <= domains@.len(),
            domains@.map_values(|d: &str| d@) == medium_domains(),
            hv@ == host@,
            forall|j: int| 0 <= j < i ==> !is_domain_or_subdomain(host@, #[trigger] medium_domains()[j]),
        decreases domains@.len() - i,
    {
        let d = domains[i];
        let mut dotted = vec!['.'];
        crate::text::append_str(&mut dotted, d);
        assert(medium_domains()[i as int] == d@);
        if str_eq(host, d) || ends_with_chars(&hv, &dotted) {
            assert(dotted@ =~= seq!['.'] + d@);
            return true;
        }
        assert(dotted@ =~= seq!['.'] + d@);
        i = i + 1;
    }
    proof {
        reveal_strlit(".medium.com");
        reveal_strlit("medium.com");
        assert(".medium.com"@ =~= seq!['.'] + "medium.com"@);
    }
    let pv = chars_of(path);
    let r = ends_with_hex_id(&pv, 10) || ends_with_hex_id(&pv, 11) || ends_with_hex_id(&pv, 12);
    proof {
        if has_medium_article_id(path@) {
            let k = choose|k: int| 10 <= k <= 12 && #[trigger] ends_with_dash_hex(path@, k);
            assert(k == 10 || k == 11 || k == 12);
        }
    }
    r
}

/// Check if a URL is a valid Medium article URL
pub fn is_valid_medium_url(url: &str) -> (b: bool)
    ensures
        b == medium_url_accepted(url@),
{
    if url.is_empty() {
        return false;
    }
    match parse_url_parts(url) {
        Some((Some(h), path)) => {
            let host = to_lowercase(h.as_str());
            accepts_medium_host_or_path(host.as_str(), path.as_str())
        },
        _ => false,
    }
}

} // verus!
