//! Reader configuration: proxy endpoints, theme and layout, and the rules
//! a configuration must meet before it is accepted.
use vstd::prelude::*;

verus! {

/// Theme options for the UI
#[derive(Debug, Clone, Copy, PartialEq, Eq, Structural)]
pub enum Theme {
    System,
    Light,
    Dark,
    Sepia,
}

impl Default for Theme {
    fn default() -> (t: Self)
        ensures
            t == Theme::System,
    {
        Theme::System
    }
}

/// Application configuration
#[derive(Debug, Clone)]
pub struct AppConfig {
    /// List of Freedium proxy endpoints to try
    pub endpoints: Vec<String>,
    /// UI theme
    pub theme: Theme,
    /// Article font size in pixels
    pub font_size: u32,
    /// Maximum article width in pixels
    pub max_width: u32,
}

/// Configuration validation errors
#[derive(Debug, Clone)]
pub enum ConfigError {
    NoEndpoints,
    InvalidFontSize(u32),
    InvalidMaxWidth(u32),
    InvalidEndpoint(String),
}

pub open spec fn is_prefix_of(p: Seq<char>, s: Seq<char>) -> bool {
    p.len() <= s.len() && s.subrange(0, p.len() as int) == p
}

/// An endpoint is accepted when it names an HTTP or HTTPS URL.
pub open spec fn endpoint_has_http_scheme(e: Seq<char>) -> bool {
    is_prefix_of(seq!['h', 't', 't', 'p', ':', '/', '/'], e)
        || is_prefix_of(seq!['h', 't', 't', 'p', 's', ':', '/', '/'], e)
}

pub open spec fn font_size_in_range(n: u32) -> bool {
    10 <= n <= 32
}

pub open spec fn max_width_in_range(n: u32) -> bool {
    400 <= n <= 1200
}

/// The first endpoint (in order) without an HTTP(S) scheme, if any.
pub open spec fn first_bad_endpoint(es: Seq<String>, from: int) -> Option<int>
    decreases es.len() - from,
{
    if from >= es.len() || from < 0 {
        None
    } else if !endpoint_has_http_scheme(es[from]@) {
        Some(from)
    } else {
        first_bad_endpoint(es, from + 1)
    }
}

impl AppConfig {
    /// What `validate` answers: the checks are made in a fixed order and
    /// the first that fails names the error.
    pub open spec fn validation(&self) -> Result<(), ConfigError> {
        if self.endpoints@.len() == 0 {
            Err(ConfigError::NoEndpoints)
        } else if !font_size_in_range(self.font_size) {
            Err(ConfigError::InvalidFontSize(self.font_size))
        } else if !max_width_in_range(self.max_width) {
            Err(ConfigError::InvalidMaxWidth(self.max_width))
        } else {
            match first_bad_endpoint(self.endpoints@, 0) {
                Some(i) => Err(ConfigError::InvalidEndpoint(self.endpoints@[i])),
                None => Ok(()),
            }
        }
    }

    /// Validate the configuration
    pub fn validate(&self) -> (r: Result<(), ConfigError>)
        ensures
            r == self.validation(),
            r is Ok <==> {
                &&& self.endpoints@.len() > 0
                &&& font_size_in_range(self.font_size)
                &&& max_width_in_range(self.max_width)
                &&& forall|i: int|
                    0 <= i < self.endpoints@.len() ==> endpoint_has_http_scheme(
                        #[trigger] self.endpoints@[i]@,
                    )
            },
    {
        if self.endpoints.len() == 0 {
            return Err(ConfigError::NoEndpoints);
        }
        if self.font_size < 10 || self.font_size > 32 {
            return Err(ConfigError::InvalidFontSize(self.font_size));
        }
        if self.max_width < 400 || self.max_width > 1200 {
            return Err(ConfigError::InvalidMaxWidth(self.max_width));
        }
        let mut i: usize = 0;
        while i < self.endpoints.len()
            invariant
                i <= self.endpoints@.len(),
                self.endpoints@.len() > 0,
                font_size_in_range(self.font_size),
                max_width_in_range(self.max_width),
                first_bad_endpoint(self.endpoints@, 0) == first_bad_endpoint(
                    self.endpoints@,
                    i as int,
                ),
                forall|j: int|
                    0 <= j < i ==> endpoint_has_http_scheme(#[trigger] self.endpoints@[j]@),
            decreases self.endpoints@.len() - i,
        {
            let e = &self.endpoints[i];
            if !(has_http_scheme(e.as_str())) {
                let bad = e.clone();
                assert(first_bad_endpoint(self.endpoints@, i as int) == Some(i as int));
                assert(bad == self.endpoints@[i as int]);
                return Err(ConfigError::InvalidEndpoint(bad));
            }
            i = i + 1;
        }
        proof {
            lemma_no_bad_endpoint_from(self.endpoints@, i as int);
        }
        Ok(())
    }
}

proof fn lemma_no_bad_endpoint_from(es: Seq<String>, from: int)
    requires
        from >= es.len(),
    ensures
        first_bad_endpoint(es, from) is None,
{
}

fn has_http_scheme(e: &str) -> (b: bool)
    ensures
        b == endpoint_has_http_scheme(e@),
{
    let http = "http://";
    let https = "https://";
    proof {
        reveal_strlit("http://");
        reveal_strlit("https://");
        assert(http@ =~= seq!['h', 't', 't', 'p', ':', '/', '/']);
        assert(https@ =~= seq!['h', 't', 't', 'p', 's', ':', '/', '/']);
    }
    crate::text::starts_with(e, http) || crate::text::starts_with(e, https)
}

impl Default for AppConfig {
    fn default() -> (c: Self)
        ensures
            c.endpoints@.len() == 1,
            c.endpoints@[0]@ == "https://freedium-mirror.cfd/"@,
            c.theme == Theme::System,
            c.font_size == 17,
            c.max_width == 680,
    {
        let mut endpoints: Vec<String> = Vec::new();
        endpoints.push("https://freedium-mirror.cfd/".to_string());
        AppConfig { endpoints, theme: Theme::System, font_size: 17, max_width: 680 }
    }
}

} // verus!
