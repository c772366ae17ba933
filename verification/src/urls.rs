//! Plain-value view of URLs. Parsing and resolving are done by the `url`
//! crate behind trusted wrappers; the library keeps only what its logic
//! reads: the normalized URL string, the domain, and the scheme.

use vstd::prelude::*;

verus! {

/// What the crawler knows about one URL.
pub struct UrlParts {
    /// The normalized serialization of the URL.
    pub url: String,
    /// The registrable domain, absent for IP-address or opaque hosts.
    pub domain: Option<String>,
    /// The URL scheme, lower-cased.
    pub scheme: String,
}

/// Ghost model of a URL: (normalized text, domain, scheme).
pub open spec fn parts_model(p: UrlParts) -> (Seq<char>, Option<Seq<char>>, Seq<char>) {
    (
        p.url@,
        match p.domain {
            Some(d) => Some(d@),
            None => None,
        },
        p.scheme@,
    )
}

impl Clone for UrlParts {
    fn clone(&self) -> (r: UrlParts)
        ensures
            r == *self,
    {
        UrlParts {
            url: self.url.clone(),
            domain: match &self.domain {
                Some(d) => Some(d.clone()),
                None => None,
            },
            scheme: self.scheme.clone(),
        }
    }
}

/// What parsing an absolute URL yields: its normalized text, domain and
/// scheme — a pure function of the input text.
pub uninterp spec fn url_parse_spec(s: Seq<char>) -> Option<
    (Seq<char>, Option<Seq<char>>, Seq<char>),
>;

/// What resolving a reference against a base URL yields — a pure function
/// of the two texts.
pub uninterp spec fn url_join_spec(base: Seq<char>, href: Seq<char>) -> Option<
    (Seq<char>, Option<Seq<char>>, Seq<char>),
>;

/// Relies on `url::Url::parse`, with `Url::as_str`, `Url::domain` and
/// `Url::scheme` converting the parsed value to plain strings. Parsing is
/// deterministic in the input text, so the result carries the name
/// `url_parse_spec`.
#[verifier::external_body]
pub fn parse_url(s: &str) -> (r: Option<UrlParts>)
    ensures
        match r {
            Some(p) => url_parse_spec(s@) == Some(parts_model(p)),
            None => url_parse_spec(s@) is None,
        },
{
    match url::Url::parse(s) {
        Ok(u) => Some(
            UrlParts {
                url: u.as_str().to_owned(),
                domain: u.domain().map(|d| d.to_owned()),
                scheme: u.scheme().to_owned(),
            },
        ),
        Err(_) => None,
    }
}

/// Relies on `url::Url::join` (after `url::Url::parse` re-parses the base
/// from its text), with the same accessors converting the result. Resolving
/// is deterministic in the two texts, so the result carries the name
/// `url_join_spec`.
#[verifier::external_body]
pub fn join_url(base: &str, href: &str) -> (r: Option<UrlParts>)
    ensures
        match r {
            Some(p) => url_join_spec(base@, href@) == Some(parts_model(p)),
            None => url_join_spec(base@, href@) is None,
        },
{
    match url::Url::parse(base) {
        Ok(b) => match b.join(href) {
            Ok(u) => Some(
                UrlParts {
                    url: u.as_str().to_owned(),
                    domain: u.domain().map(|d| d.to_owned()),
                    scheme: u.scheme().to_owned(),
                },
            ),
            Err(_) => None,
        },
        Err(_) => None,
    }
}

/// An empty allow-list admits every domain; otherwise the URL must have a
/// domain on the list.
pub open spec fn domain_allowed(domain: Option<Seq<char>>, allowed: Seq<Seq<char>>) -> bool {
    allowed.len() == 0 || (domain matches Some(d) && allowed.contains(d))
}

/// Whether this URL's domain passes the allow-list.
pub fn is_allowed_domain(parts: &UrlParts, allowed: &Vec<String>) -> (r: bool)
    ensures
        r == domain_allowed(parts_model(*parts).1, allowed.deep_view()),
{
    if allowed.len() == 0 {
        return true;
    }
    match &parts.domain {
        None => false,
        Some(d) => {
            let mut i: usize = 0;
            while i < allowed.len()
                invariant
                    i <= allowed@.len(),
                    parts_model(*parts).1 == Some(d@),
                    allowed@.len() > 0,
                    forall|j: int| 0 <= j < i ==> allowed.deep_view()[j] != d@,
                decreases allowed@.len() - i,
            {
                proof {
                    assert(allowed@[i as int].deep_view() == allowed@[i as int]@);
                    assert(allowed.deep_view()[i as int] == allowed@[i as int]@);
                }
                if allowed[i] == *d {
                    proof {
                        assert(allowed.deep_view().contains(d@));
                    }
                    return true;
                }
                i += 1;
            }
            proof {
                if allowed.deep_view().contains(d@) {
                    let j = choose|j: int|
                        0 <= j < allowed.deep_view().len() && allowed.deep_view()[j] == d@;
                    assert(allowed.deep_view()[j] != d@);
                }
            }
            false
        },
    }
}

} // verus!
