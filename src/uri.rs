//! Absolute references (URLs, parsed by the `url` crate) and the locators that
//! pair a verb with an absolute reference or a relative path.
use vstd::prelude::*;
use crate::verbs::{verb_token, ReqVerb};

verus! {

/// The serialization of the absolute URL that `s` parses to, or `None` where
/// `s` is no absolute URL.
pub uninterp spec fn url_parse(s: Seq<char>) -> Option<Seq<char>>;

/// Relies on `url::Url::parse` (which `Url::from_str` calls) and on
/// `Url::as_str`: whether `s` parses, and the serialization it parses to,
/// depend on the text alone.
#[verifier::external_body]
pub(crate) fn parse_url(s: &str) -> (r: Option<String>)
    ensures
        match r {
            Some(u) => url_parse(s@) == Some(u@),
            None => url_parse(s@) is None,
        },
{
    match url::Url::parse(s) {
        Ok(u) => Some(u.as_str().to_string()),
        Err(_) => None,
    }
}

/// A verb paired with either an absolute reference or a relative path.
pub struct DIDUri {
    pub url: Option<String>,
    pub path: Option<String>,
    pub verb: ReqVerb,
}

impl DIDUri {
    /// Exactly one of the reference and the path is there.
    pub open spec fn wf(&self) -> bool {
        self.url.is_some() != self.path.is_some()
    }

    /// The locator of `verb` on the absolute reference `text`; `None` where
    /// `text` is no absolute URL.
    pub fn absolute(verb: ReqVerb, text: &str) -> (r: Option<DIDUri>)
        ensures
            r.is_some() == url_parse(text@).is_some(),
            r matches Some(l) ==> l.wf() && l.verb == verb && l.path is None && (l.url matches Some(
                u,
            ) && url_parse(text@) == Some(u@)),
    {
        match parse_url(text) {
            Some(u) => Some(DIDUri { url: Some(u), path: None, verb }),
            None => None,
        }
    }

    /// The locator of `verb` on the relative path `path`.
    pub fn relative(verb: ReqVerb, path: &str) -> (r: DIDUri)
        ensures
            r.wf(),
            r.verb == verb,
            r.url is None,
            r.path matches Some(p) && p@ == path@,
    {
        DIDUri { url: None, path: Some(path.to_string()), verb }
    }

    /// The verb's token, a space, then the reference or the path.
    pub fn to_string(&self) -> (r: String)
        requires
            self.wf(),
        ensures
            r@ == verb_token(self.verb) + seq![' '] + match self.url {
                Some(u) => u@,
                None => self.path->Some_0@,
            },
    {
        let mut r = self.verb.to_string();
        r.append(" ");
        proof {
            reveal_strlit(" ");
        }
        match &self.url {
            Some(u) => r.append(u.as_str()),
            None => match &self.path {
                Some(p) => r.append(p.as_str()),
                None => {},
            },
        }
        r
    }
}

} // verus!
