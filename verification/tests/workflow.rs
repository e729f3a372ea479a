use wallflower::export::{export_file_name, export_markdown};
use wallflower::freedium::{Article, FetchError};
use wallflower::workflow::{
    article_step, status_failure, ArticleAction, ArticleEvent, ArticleStage, EndpointFailover,
};

#[test]
fn status_codes() {
    assert!(status_failure(200).is_none());
    assert!(status_failure(299).is_none());
    assert!(matches!(status_failure(404), Some(FetchError::HttpError(404))));
    assert!(matches!(status_failure(199), Some(FetchError::HttpError(199))));
    assert!(matches!(status_failure(300), Some(FetchError::HttpError(300))));
}

#[test]
fn failover_tries_endpoints_in_order_and_reports_last_error() {
    let mut f = EndpointFailover::new(vec!["https://a/".to_string(), "https://b/".to_string()]);
    let (url, ep) = f.next_attempt("https://medium.com/x y").unwrap();
    assert_eq!(ep, "https://a/");
    assert_eq!(url, "https://a/https%3A%2F%2Fmedium.com%2Fx%20y/__data.json");
    f.record_outcome(Err(FetchError::HttpError(502)));
    let (_, ep) = f.next_attempt("u").unwrap();
    assert_eq!(ep, "https://b/");
    f.record_outcome(Err(FetchError::Network("timed out".to_string())));
    assert!(f.next_attempt("u").is_none());
    assert!(matches!(f.into_result(), Err(FetchError::Network(m)) if m == "timed out"));

    let mut none = EndpointFailover::new(vec![]);
    assert!(none.next_attempt("u").is_none());
    assert!(matches!(none.into_result(), Err(FetchError::NoEndpointsConfigured)));

    let untried = EndpointFailover::new(vec!["https://a/".to_string()]);
    assert!(matches!(untried.into_result(), Err(FetchError::AllEndpointsFailed)));
}

#[test]
fn article_flow_serves_fresh_cache_without_fetching() {
    let (s, a) = article_step(
        ArticleStage::Start,
        ArticleEvent::Requested { url_recognized: true, force_refresh: None },
    );
    assert_eq!(a, ArticleAction::CheckFreshness { max_age_hours: 48 });
    let (s, a) = article_step(s, ArticleEvent::FreshnessChecked { fresh: true });
    assert_eq!(a, ArticleAction::ReadCachedCopy);
    let (s, a) = article_step(s, ArticleEvent::CopyRead { found: true });
    assert_eq!((s, a), (ArticleStage::Done, ArticleAction::ServeCachedCopy));
}

#[test]
fn article_flow_other_paths() {
    assert_eq!(
        article_step(
            ArticleStage::Start,
            ArticleEvent::Requested { url_recognized: false, force_refresh: Some(true) }
        ),
        (ArticleStage::Done, ArticleAction::RejectUrl)
    );
    assert_eq!(
        article_step(
            ArticleStage::Start,
            ArticleEvent::Requested { url_recognized: true, force_refresh: Some(true) }
        ),
        (ArticleStage::Fetching, ArticleAction::Fetch)
    );
    assert_eq!(
        article_step(ArticleStage::CheckingFreshCopy, ArticleEvent::FreshnessChecked { fresh: false }),
        (ArticleStage::Fetching, ArticleAction::Fetch)
    );
    assert_eq!(
        article_step(ArticleStage::ReadingFreshCopy, ArticleEvent::CopyRead { found: false }),
        (ArticleStage::Fetching, ArticleAction::Fetch)
    );
    assert_eq!(
        article_step(ArticleStage::Fetching, ArticleEvent::Fetched { ok: true }),
        (ArticleStage::Done, ArticleAction::SaveFetched)
    );
    assert_eq!(
        article_step(ArticleStage::Fetching, ArticleEvent::Fetched { ok: false }),
        (ArticleStage::ReadingFallbackCopy, ArticleAction::ReadCachedCopy)
    );
    assert_eq!(
        article_step(ArticleStage::ReadingFallbackCopy, ArticleEvent::CopyRead { found: true }),
        (ArticleStage::Done, ArticleAction::ServeCachedCopy)
    );
    assert_eq!(
        article_step(ArticleStage::ReadingFallbackCopy, ArticleEvent::CopyRead { found: false }),
        (ArticleStage::Done, ArticleAction::ReportFetchError)
    );
}

#[test]
fn export_file_names() {
    assert_eq!(export_file_name("Hello, World: A Story").unwrap(), "hello_-world_-a-story.md");
    assert_eq!(export_file_name("  spaced   out\ttab ").unwrap(), "spaced-out_tab.md");
    let long = "x".repeat(80);
    assert_eq!(export_file_name(&long).unwrap(), format!("{}.md", "x".repeat(50)));
    // A multi-byte character across byte 50 cannot be cut there.
    let awkward = format!("{}é", "a".repeat(49));
    assert!(export_file_name(&awkward).is_none());
    let fits = format!("{}é", "a".repeat(48));
    assert_eq!(export_file_name(&fits).unwrap(), format!("{}é.md", "a".repeat(48)));
}

#[test]
fn export_document_layout() {
    let doc = export_markdown("T", "A", "https://m/x", "2024-01-02 03:04", "<p>Hi &amp; bye</p>");
    assert_eq!(doc, "# T\n\nBy: A\nURL: https://m/x\nSaved: 2024-01-02 03:04\n\n---\n\n\nHi & bye");
}

fn article_from(endpoint: &str) -> Article {
    Article {
        title: "T".to_string(),
        author: "A".to_string(),
        author_url: None,
        header_image_url: None,
        content_html: "<p>x</p>".to_string(),
        original_url: "u".to_string(),
        fetched_from: endpoint.to_string(),
    }
}

#[test]
fn failover_stops_at_first_success() {
    let mut f = EndpointFailover::new(vec![
        "https://a/".to_string(),
        "https://b/".to_string(),
        "https://c/".to_string(),
    ]);
    let (_, ep) = f.next_attempt("u").unwrap();
    assert_eq!(ep, "https://a/");
    f.record_outcome(Err(FetchError::HttpError(500)));
    let (_, ep) = f.next_attempt("u").unwrap();
    assert_eq!(ep, "https://b/");
    f.record_outcome(Ok(article_from(&ep)));
    // No later endpoint is handed out once an attempt succeeded.
    assert!(f.next_attempt("u").is_none());
    match f.into_result() {
        Ok(a) => assert_eq!(a.fetched_from, "https://b/"),
        Err(e) => panic!("unexpected {:?}", e),
    }
}

#[test]
fn article_step_is_total() {
    // An event that does not fit the stage leaves the stage and reports the error.
    assert_eq!(
        article_step(ArticleStage::Done, ArticleEvent::Fetched { ok: true }),
        (ArticleStage::Done, ArticleAction::ReportFetchError)
    );
    assert_eq!(
        article_step(ArticleStage::Start, ArticleEvent::CopyRead { found: true }),
        (ArticleStage::Start, ArticleAction::ReportFetchError)
    );
}
