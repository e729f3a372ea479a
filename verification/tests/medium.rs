use wallflower::medium::{accepts_medium_host_or_path, is_valid_medium_url};

#[test]
fn test_valid_medium_urls() {
    assert!(is_valid_medium_url("https://medium.com/@user/article-abc123def4"));
    assert!(is_valid_medium_url("https://towardsdatascience.com/article-abc123def4"));
    assert!(is_valid_medium_url("https://betterprogramming.pub/article-abc123def4"));
}

#[test]
fn test_invalid_urls() {
    assert!(!is_valid_medium_url(""));
    assert!(!is_valid_medium_url("not a url"));
    assert!(!is_valid_medium_url("https://google.com"));
    assert!(!is_valid_medium_url("https://example.com/article"));
}

#[test]
fn test_medium_subdomains() {
    assert!(is_valid_medium_url("https://blog.medium.com/article-abc123def4"));
    assert!(is_valid_medium_url("https://engineering.medium.com/article-abc123def4"));
}

#[test]
fn article_id_heuristic_and_case() {
    // Any host, if the path ends in a 10 to 12 digit hex id.
    assert!(is_valid_medium_url("https://example.com/post-0123456789"));
    assert!(is_valid_medium_url("https://example.com/post-0123456789ab"));
    assert!(!is_valid_medium_url("https://example.com/post-0123456789abc"));
    assert!(!is_valid_medium_url("https://example.com/post-012345678"));
    assert!(!is_valid_medium_url("https://example.com/post-0123456789AB"));
    // Hosts are compared in lower case; look-alike hosts are not Medium's.
    assert!(is_valid_medium_url("https://MEDIUM.com/x"));
    assert!(is_valid_medium_url("https://sub.itnext.io/x"));
    assert!(!is_valid_medium_url("https://notmedium.com/x"));
    assert!(!is_valid_medium_url("https://medium.com.evil.example/x"));
}

#[test]
fn host_or_path_decision() {
    assert!(accepts_medium_host_or_path("hackernoon.com", "/"));
    assert!(accepts_medium_host_or_path("a.b.uxdesign.cc", "/"));
    assert!(!accepts_medium_host_or_path("hackernoon.co", "/"));
    assert!(accepts_medium_host_or_path("x.org", "/a/b-abcdef012345"));
    assert!(!accepts_medium_host_or_path("x.org", "/a/b_abcdef012345"));
}
