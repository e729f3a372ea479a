//! The decisions of the fetch workflow, apart from the network and the
//! database that carry them out: which proxy URL to request, in what order
//! endpoints are tried and which error is reported when all fail, what an
//! HTTP status means, and the steps of serving an article from the cache or
//! the proxy.
use vstd::prelude::*;

use crate::freedium::{Article, FetchError};
use crate::text::{append_str, chars_of, string_of};
use vstd::utf8::encode_utf8;

verus! {

/// A byte that URL encoding leaves as it is: ASCII letters and digits,
/// `-`, `.`, `_` and `~`.
pub open spec fn is_unreserved_byte(b: u8) -> bool {
    ||| (48 <= b && b <= 57)
    ||| (65 <= b && b <= 90)
    ||| (97 <= b && b <= 122)
    ||| b == 45
    ||| b == 46
    ||| b == 95
    ||| b == 126
}

/// The upper-case hexadecimal digit for `d < 16`.
pub open spec fn hex_digit(d: u8) -> char {
    if d < 10 {
        ((48 + d) as u8) as char
    } else {
        ((55 + d) as u8) as char
    }
}

/// Percent-encoding of bytes: every byte but the unreserved ones becomes
/// `%` and two upper-case hexadecimal digits.
pub open spec fn percent_encoded(bytes: Seq<u8>) -> Seq<char>
    decreases bytes.len(),
{
    if bytes.len() == 0 {
        Seq::empty()
    } else {
        let b = bytes[0];
        (if is_unreserved_byte(b) {
            seq![b as char]
        } else {
            seq!['%', hex_digit(b / 16), hex_digit(b % 16)]
        }) + percent_encoded(bytes.skip(1))
    }
}

/// urlencoding: `encode`, which percent-encodes the UTF-8 bytes of its
/// argument, leaving ASCII alphanumerics and `-`, `.`, `_`, `~` as they are.
/// The contract claims exactly that.
#[verifier::external_body]
fn url_encode(s: &str) -> (r: String)
    ensures
        r@ == percent_encoded(encode_utf8(s@)),
{
    urlencoding::encode(s).into_owned()
}

/// Where a proxy serves an article: its `__data.json` under the
/// URL-encoded article URL.
pub open spec fn data_json_target(endpoint: Seq<char>, medium_url: Seq<char>) -> Seq<char> {
    endpoint + percent_encoded(encode_utf8(medium_url)) + "/__data.json"@
}

/// Freedium is a SvelteKit SSR app: the rendered article is served as
/// devalue-encoded JSON at `<endpoint><urlencoded medium url>/__data.json`.
pub fn data_json_url(endpoint: &str, medium_url: &str) -> (r: String)
    ensures
        r@ == data_json_target(endpoint@, medium_url@),
{
    let encoded = url_encode(medium_url);
    let mut out = chars_of(endpoint);
    append_str(&mut out, encoded.as_str());
    append_str(&mut out, "/__data.json");
    string_of(&out)
}

/// The error for a proxy response status, `None` for a success status
/// (200 to 299).
pub fn status_failure(status: u16) -> (r: Option<FetchError>)
    ensures
        200 <= status <= 299 ==> r is None,
        !(200 <= status <= 299) ==> r == Some(FetchError::HttpError(status)),
{
    if 200 <= status && status <= 299 {
        None
    } else {
        Some(FetchError::HttpError(status))
    }
}

/// Trying the configured endpoints one after the other until one serves
/// the article: the first success ends the fetch, and after it no further
/// endpoint is handed out.
pub struct EndpointFailover {
    endpoints: Vec<String>,
    next: usize,
    last_error: Option<FetchError>,
    served: Option<Article>,
}

impl EndpointFailover {
    /// The endpoints, in the order they are tried.
    pub closed spec fn endpoint_list(&self) -> Seq<Seq<char>> {
        self.endpoints@.map_values(|e: String| e@)
    }

    /// How many endpoints have been handed out.
    pub closed spec fn attempts(&self) -> nat {
        self.next as nat
    }

    /// The error of the last failed attempt.
    pub closed spec fn last_failure(&self) -> Option<FetchError> {
        self.last_error
    }

    /// The article of the attempt that succeeded, once one has.
    pub closed spec fn served_article(&self) -> Option<Article> {
        self.served
    }

    /// Start trying `endpoints`, first to last.
    pub fn new(endpoints: Vec<String>) -> (f: Self)
        ensures
            f.endpoint_list() == endpoints@.map_values(|e: String| e@),
            f.attempts() == 0,
            f.last_failure() is None,
            f.served_article() is None,
    {
        EndpointFailover { endpoints, next: 0, last_error: None, served: None }
    }

    /// The next request to make, `(url, endpoint)`: the article's
    /// `__data.json` on the next endpoint; `None` once an attempt has
    /// succeeded or all endpoints were tried.
    pub fn next_attempt(&mut self, medium_url: &str) -> (r: Option<(String, String)>)
        ensures
            final(self).endpoint_list() == old(self).endpoint_list(),
            final(self).last_failure() == old(self).last_failure(),
            final(self).served_article() == old(self).served_article(),
            old(self).served_article() is None && old(self).attempts() < old(
                self,
            ).endpoint_list().len() ==> {
                &&& r matches Some((url, endpoint))
                &&& endpoint@ == old(self).endpoint_list()[old(self).attempts() as int]
                &&& url@ == data_json_target(endpoint@, medium_url@)
                &&& final(self).attempts() == old(self).attempts() + 1
            },
            old(self).served_article() is Some || old(self).attempts() >= old(
                self,
            ).endpoint_list().len() ==> {
                &&& r is None
                &&& final(self).attempts() == old(self).attempts()
            },
    {
        if self.served.is_none() && self.next < self.endpoints.len() {
            let endpoint = self.endpoints[self.next].clone();
            let url = data_json_url(endpoint.as_str(), medium_url);
            self.next = self.next + 1;
            Some((url, endpoint))
        } else {
            None
        }
    }

    /// Take in what the last attempt gave: an article ends the fetch with
    /// it; an error is kept as the last failure and the fetch goes on.
    pub fn record_outcome(&mut self, outcome: Result<Article, FetchError>)
        ensures
            final(self).endpoint_list() == old(self).endpoint_list(),
            final(self).attempts() == old(self).attempts(),
            match outcome {
                Ok(a) => {
                    &&& final(self).served_article() == Some(a)
                    &&& final(self).last_failure() == old(self).last_failure()
                },
                Err(e) => {
                    &&& final(self).served_article() == old(self).served_article()
                    &&& final(self).last_failure() == Some(e)
                },
            },
    {
        match outcome {
            Ok(a) => {
                self.served = Some(a);
            },
            Err(e) => {
                self.last_error = Some(e);
            },
        }
    }

    /// The result of the fetch: the article of the successful attempt; with
    /// none, the error: no endpoints at all, else the last attempt's error.
    pub fn into_result(self) -> (r: Result<Article, FetchError>)
        ensures
            self.served_article() matches Some(a) ==> r == Ok::<Article, FetchError>(a),
            self.served_article() is None && self.endpoint_list().len() == 0 ==> r == Err::<
                Article,
                FetchError,
            >(FetchError::NoEndpointsConfigured),
            self.served_article() is None && self.endpoint_list().len() > 0 ==> r == Err::<
                Article,
                FetchError,
            >(
                match self.last_failure() {
                    Some(x) => x,
                    None => FetchError::AllEndpointsFailed,
                },
            ),
    {
        if let Some(a) = self.served {
            return Ok(a);
        }
        if self.endpoints.len() == 0 {
            return Err(FetchError::NoEndpointsConfigured);
        }
        match self.last_error {
            Some(e) => Err(e),
            None => Err(FetchError::AllEndpointsFailed),
        }
    }
}

/// How old, in hours, a cached article may be and still be served without
/// asking the proxy.
pub const CACHE_MAX_AGE_HOURS: i64 = 48;

/// Where a request for an article stands.
#[derive(Debug, Clone, Copy, PartialEq, Eq, Structural)]
pub enum ArticleStage {
    /// Nothing done yet.
    Start,
    /// Asked whether a fresh copy is cached.
    CheckingFreshCopy,
    /// Reading the fresh cached copy.
    ReadingFreshCopy,
    /// Fetching through the proxies.
    Fetching,
    /// The fetch failed; reading whatever copy is cached.
    ReadingFallbackCopy,
    /// Answered.
    Done,
}

/// What the caller reports back after carrying out an action.
#[derive(Debug, Clone, Copy, PartialEq, Eq, Structural)]
pub enum ArticleEvent {
    /// The request: whether the URL is a recognized Medium URL, and the
    /// caller's `force_refresh`.
    Requested { url_recognized: bool, force_refresh: Option<bool> },
    /// Whether a copy cached less than [`CACHE_MAX_AGE_HOURS`] ago exists
    /// (a failed check counts as no).
    FreshnessChecked { fresh: bool },
    /// Whether reading the cached copy gave an article (a failed read
    /// counts as no).
    CopyRead { found: bool },
    /// Whether the proxy fetch gave an article.
    Fetched { ok: bool },
}

/// What the caller is to do next.
#[derive(Debug, Clone, Copy, PartialEq, Eq, Structural)]
pub enum ArticleAction {
    /// Answer that the URL is not a recognized Medium URL.
    RejectUrl,
    /// Check whether a copy cached less than the given hours ago exists.
    CheckFreshness { max_age_hours: i64 },
    /// Read the cached copy.
    ReadCachedCopy,
    /// Record the read (last read time, read count) and answer with the
    /// cached copy.
    ServeCachedCopy,
    /// Fetch the article through the proxies.
    Fetch,
    /// Save the fetched article and answer with what was stored (or with
    /// the save error).
    SaveFetched,
    /// Answer with the fetch error.
    ReportFetchError,
}

/// The next stage and action for an event.
pub open spec fn article_transition(stage: ArticleStage, event: ArticleEvent) -> (
    ArticleStage,
    ArticleAction,
) {
    match (stage, event) {
        (ArticleStage::Start, ArticleEvent::Requested { url_recognized, force_refresh }) => {
            if !url_recognized {
                (ArticleStage::Done, ArticleAction::RejectUrl)
            } else if force_refresh == Some(true) {
                (ArticleStage::Fetching, ArticleAction::Fetch)
            } else {
                (
                    ArticleStage::CheckingFreshCopy,
                    ArticleAction::CheckFreshness { max_age_hours: CACHE_MAX_AGE_HOURS },
                )
            }
        },
        (ArticleStage::CheckingFreshCopy, ArticleEvent::FreshnessChecked { fresh }) => {
            if fresh {
                (ArticleStage::ReadingFreshCopy, ArticleAction::ReadCachedCopy)
            } else {
                (ArticleStage::Fetching, ArticleAction::Fetch)
            }
        },
        (ArticleStage::ReadingFreshCopy, ArticleEvent::CopyRead { found }) => {
            if found {
                (ArticleStage::Done, ArticleAction::ServeCachedCopy)
            } else {
                (ArticleStage::Fetching, ArticleAction::Fetch)
            }
        },
        (ArticleStage::Fetching, ArticleEvent::Fetched { ok }) => {
            if ok {
                (ArticleStage::Done, ArticleAction::SaveFetched)
            } else {
                (ArticleStage::ReadingFallbackCopy, ArticleAction::ReadCachedCopy)
            }
        },
        (ArticleStage::ReadingFallbackCopy, ArticleEvent::CopyRead { found }) => {
            if found {
                (ArticleStage::Done, ArticleAction::ServeCachedCopy)
            } else {
                (ArticleStage::Done, ArticleAction::ReportFetchError)
            }
        },
        _ => (stage, ArticleAction::ReportFetchError),
    }
}

/// Serving an article (with caching): an unrecognized URL is refused; unless
/// a refresh is forced, a copy cached less than 48 hours ago is served;
/// otherwise the article is fetched and saved, and when the fetch fails a
/// cached copy of any age is served instead of the error.
pub fn article_step(stage: ArticleStage, event: ArticleEvent) -> (r: (ArticleStage, ArticleAction))
    ensures
        r == article_transition(stage, event),
{
    match (stage, event) {
        (ArticleStage::Start, ArticleEvent::Requested { url_recognized, force_refresh }) => {
            let force = match force_refresh {
                Some(f) => f,
                None => false,
            };
            if !url_recognized {
                (ArticleStage::Done, ArticleAction::RejectUrl)
            } else if force {
                (ArticleStage::Fetching, ArticleAction::Fetch)
            } else {
                (
                    ArticleStage::CheckingFreshCopy,
                    ArticleAction::CheckFreshness { max_age_hours: CACHE_MAX_AGE_HOURS },
                )
            }
        },
        (ArticleStage::CheckingFreshCopy, ArticleEvent::FreshnessChecked { fresh }) => {
            if fresh {
                (ArticleStage::ReadingFreshCopy, ArticleAction::ReadCachedCopy)
            } else {
                (ArticleStage::Fetching, ArticleAction::Fetch)
            }
        },
        (ArticleStage::ReadingFreshCopy, ArticleEvent::CopyRead { found }) => {
            if found {
                (ArticleStage::Done, ArticleAction::ServeCachedCopy)
            } else {
                (ArticleStage::Fetching, ArticleAction::Fetch)
            }
        },
        (ArticleStage::Fetching, ArticleEvent::Fetched { ok }) => {
            if ok {
                (ArticleStage::Done, ArticleAction::SaveFetched)
            } else {
                (ArticleStage::ReadingFallbackCopy, ArticleAction::ReadCachedCopy)
            }
        },
        (ArticleStage::ReadingFallbackCopy, ArticleEvent::CopyRead { found }) => {
            if found {
                (ArticleStage::Done, ArticleAction::ServeCachedCopy)
            } else {
                (ArticleStage::Done, ArticleAction::ReportFetchError)
            }
        },
        _ => (stage, ArticleAction::ReportFetchError),
    }
}

/// The actions for a sequence of events, from `stage` on.
pub open spec fn article_run(stage: ArticleStage, events: Seq<ArticleEvent>) -> Seq<ArticleAction>
    decreases events.len(),
{
    if events.len() == 0 {
        Seq::empty()
    } else {
        let (next, action) = article_transition(stage, events[0]);
        seq![action] + article_run(next, events.skip(1))
    }
}

proof fn lemma_done_stays_done(events: Seq<ArticleEvent>)
    ensures
        forall|i: int|
            0 <= i < events.len() ==> #[trigger] article_run(ArticleStage::Done, events)[i]
                == ArticleAction::ReportFetchError,
        article_run(ArticleStage::Done, events).len() == events.len(),
    decreases events.len(),
{
    if events.len() > 0 {
        lemma_done_stays_done(events.skip(1));
        let r = article_run(ArticleStage::Done, events);
        assert forall|i: int| 0 <= i < events.len() implies #[trigger] r[i]
            == ArticleAction::ReportFetchError by {
            if i > 0 {
                assert(r[i] == article_run(ArticleStage::Done, events.skip(1))[i - 1]);
            }
        }
    }
}

/// A URL that is not recognized as a Medium URL is refused and never fetched,
/// whatever is reported afterwards.
pub proof fn law_unrecognized_url_never_fetched(force_refresh: Option<bool>, later: Seq<ArticleEvent>)
    ensures
        ({
            let run = article_run(
                ArticleStage::Start,
                seq![ArticleEvent::Requested { url_recognized: false, force_refresh }] + later,
            );
            &&& run[0] == ArticleAction::RejectUrl
            &&& forall|i: int| 0 <= i < run.len() ==> #[trigger] run[i] != ArticleAction::Fetch
        }),
{
    let events = seq![ArticleEvent::Requested { url_recognized: false, force_refresh }] + later;
    assert(events.skip(1) =~= later);
    lemma_done_stays_done(later);
    let run = article_run(ArticleStage::Start, events);
    assert forall|i: int| 0 <= i < run.len() implies #[trigger] run[i] != ArticleAction::Fetch by {
        if i > 0 {
            assert(run[i] == article_run(ArticleStage::Done, later)[i - 1]);
        }
    }
}

/// Unless a refresh is forced, a copy cached less than 48 hours ago is
/// served as it is: the proxy is not asked.
pub proof fn law_fresh_copy_served_without_fetch(force_refresh: Option<bool>)
    requires
        force_refresh != Some(true),
    ensures
        article_run(
            ArticleStage::Start,
            seq![
                ArticleEvent::Requested { url_recognized: true, force_refresh },
                ArticleEvent::FreshnessChecked { fresh: true },
                ArticleEvent::CopyRead { found: true },
            ],
        ) == seq![
            ArticleAction::CheckFreshness { max_age_hours: 48 },
            ArticleAction::ReadCachedCopy,
            ArticleAction::ServeCachedCopy,
        ],
{
    let events = seq![
        ArticleEvent::Requested { url_recognized: true, force_refresh },
        ArticleEvent::FreshnessChecked { fresh: true },
        ArticleEvent::CopyRead { found: true },
    ];
    assert(events.skip(1) =~= seq![
        ArticleEvent::FreshnessChecked { fresh: true },
        ArticleEvent::CopyRead { found: true },
    ]);
    assert(events.skip(1).skip(1) =~= seq![ArticleEvent::CopyRead { found: true }]);
    assert(events.skip(1).skip(1).skip(1) =~= Seq::<ArticleEvent>::empty());
    reveal_with_fuel(article_run, 4);
    assert(article_run(ArticleStage::Start, events) =~= seq![
        ArticleAction::CheckFreshness { max_age_hours: 48 },
        ArticleAction::ReadCachedCopy,
        ArticleAction::ServeCachedCopy,
    ]);
}

/// A forced refresh of a recognized URL goes to the proxy first.
pub proof fn law_forced_refresh_fetches()
    ensures
        article_transition(
            ArticleStage::Start,
            ArticleEvent::Requested { url_recognized: true, force_refresh: Some(true) },
        ) == (ArticleStage::Fetching, ArticleAction::Fetch),
{
}

/// When the fetch fails and a copy of the article is cached (of any age),
/// that copy is served instead of the error; only without one is the fetch
/// error reported.
pub proof fn law_failed_fetch_falls_back_to_cache(found: bool)
    ensures
        article_run(
            ArticleStage::Fetching,
            seq![ArticleEvent::Fetched { ok: false }, ArticleEvent::CopyRead { found }],
        ) == seq![
            ArticleAction::ReadCachedCopy,
            if found {
                ArticleAction::ServeCachedCopy
            } else {
                ArticleAction::ReportFetchError
            },
        ],
{
    let events = seq![ArticleEvent::Fetched { ok: false }, ArticleEvent::CopyRead { found }];
    assert(events.skip(1) =~= seq![ArticleEvent::CopyRead { found }]);
    assert(events.skip(1).skip(1) =~= Seq::<ArticleEvent>::empty());
    reveal_with_fuel(article_run, 3);
    assert(article_run(ArticleStage::Fetching, events) =~= seq![
        ArticleAction::ReadCachedCopy,
        if found {
            ArticleAction::ServeCachedCopy
        } else {
            ArticleAction::ReportFetchError
        },
    ]);
}

} // verus!
