//! The payjoin endpoint: a URL held as the plain values that this library
//! reads and writes.

use vstd::prelude::*;

use crate::codec::{char_is_lowercase, is_lowercase_char, parse_url_parts, url_parts};
use crate::fragment::opt_view;
use crate::text::chars_of;

verus! {

/// A parsed URL: its scheme, host, domain, the text before the fragment and
/// the fragment.
pub struct Endpoint {
    scheme: String,
    host: Option<String>,
    domain: Option<String>,
    base: String,
    fragment: Option<String>,
}

/// What an [`Endpoint`] holds, as sequences of characters.
pub ghost struct EndpointView {
    pub scheme: Seq<char>,
    pub host: Option<Seq<char>>,
    pub domain: Option<Seq<char>>,
    pub base: Seq<char>,
    pub fragment: Option<Seq<char>>,
}

impl EndpointView {
    /// The URL text: the part before the fragment, then `#` and the fragment
    /// where there is one.
    pub open spec fn text(self) -> Seq<char> {
        match self.fragment {
            Some(f) => self.base + seq!['#'] + f,
            None => self.base,
        }
    }
}

impl View for Endpoint {
    type V = EndpointView;

    closed spec fn view(&self) -> EndpointView {
        EndpointView {
            scheme: self.scheme@,
            host: crate::fragment::opt_string_view(self.host),
            domain: crate::fragment::opt_string_view(self.domain),
            base: self.base@,
            fragment: crate::fragment::opt_string_view(self.fragment),
        }
    }
}

fn borrow_opt(s: &Option<String>) -> (r: Option<&str>)
    ensures
        opt_view(r) == crate::fragment::opt_string_view(*s),
{
    match s {
        Some(t) => Some(t.as_str()),
        None => None,
    }
}

/// The endpoint that URL parts describe.
pub open spec fn view_of_parts(
    p: (Seq<char>, Option<Seq<char>>, Option<Seq<char>>, Seq<char>, Option<Seq<char>>),
) -> EndpointView {
    EndpointView { scheme: p.0, host: p.1, domain: p.2, base: p.3, fragment: p.4 }
}

/// The endpoint has a fragment that holds a lower-case letter.
pub open spec fn fragment_has_lowercase(e: EndpointView) -> bool {
    match e.fragment {
        Some(f) => has_lowercase(f),
        None => false,
    }
}

impl Endpoint {
    /// Parses an absolute URL.
    pub fn parse(text: &str) -> (r: Result<Endpoint, url::ParseError>)
        ensures
            r is Err <==> url_parts(text@) is None,
            r matches Ok(e) ==> e@ == view_of_parts(url_parts(text@)->Some_0),
    {
        let (scheme, host, domain, base, fragment) = parse_url_parts(text)?;
        Ok(Endpoint { scheme, host, domain, base, fragment })
    }

    /// The scheme, as the URL parser normalised it.
    pub fn scheme(&self) -> (r: &str)
        ensures
            r@ == self@.scheme,
    {
        self.scheme.as_str()
    }

    /// The host, where there is one.
    pub fn host_str(&self) -> (r: Option<&str>)
        ensures
            opt_view(r) == self@.host,
    {
        borrow_opt(&self.host)
    }

    /// The host where it is a domain name (not an IP address).
    pub fn domain(&self) -> (r: Option<&str>)
        ensures
            opt_view(r) == self@.domain,
    {
        borrow_opt(&self.domain)
    }

    /// The fragment, where there is one.
    pub fn fragment(&self) -> (r: Option<&str>)
        ensures
            opt_view(r) == self@.fragment,
    {
        borrow_opt(&self.fragment)
    }

    /// Replaces the fragment; everything else is kept.
    pub(crate) fn set_fragment(&mut self, fragment: Option<String>)
        ensures
            final(self)@ == (EndpointView {
                fragment: crate::fragment::opt_string_view(fragment),
                ..old(self)@
            }),
    {
        self.fragment = fragment;
    }

    /// The URL text.
    pub fn as_str(&self) -> (r: String)
        ensures
            r@ == self@.text(),
    {
        match &self.fragment {
            Some(f) => {
                let mut out = self.base.clone();
                out.append("#");
                proof {
                    reveal_strlit("#");
                }
                out.append(f.as_str());
                assert(out@ =~= self@.text());
                out
            },
            None => self.base.clone(),
        }
    }
}

/// Why a `pj` endpoint was refused.
#[derive(Debug, Clone, Copy)]
pub enum BadEndpointError {
    /// The URL parser refused the text.
    UrlParse(url::ParseError),
    /// The fragment holds a lower-case letter.
    LowercaseFragment,
}

/// Whether a text holds a lower-case character.
pub open spec fn has_lowercase(s: Seq<char>) -> bool {
    exists|i: int| 0 <= i < s.len() && is_lowercase_char(#[trigger] s[i])
}

fn any_lowercase(s: &str) -> (r: bool)
    ensures
        r == has_lowercase(s@),
{
    let v = chars_of(s);
    let mut i: usize = 0;
    while i < v.len()
        invariant
            v@ == s@,
            i <= v@.len(),
            forall|j: int| 0 <= j < i ==> !is_lowercase_char(v@[j]),
        decreases v.len() - i,
    {
        if char_is_lowercase(v[i]) {
            return true;
        }
        i = i + 1;
    }
    false
}

/// Refuses an endpoint whose fragment holds a lower-case letter: the
/// fragment's parameters are upper case, and a lower-case letter means a
/// case-folding intermediary has corrupted them.
pub fn check_fragment_case(endpoint: Endpoint) -> (r: Result<Endpoint, BadEndpointError>)
    ensures
        match endpoint@.fragment {
            Some(f) => if has_lowercase(f) {
                r matches Err(BadEndpointError::LowercaseFragment)
            } else {
                r matches Ok(e) && e@ == endpoint@
            },
            None => r matches Ok(e) && e@ == endpoint@,
        },
{
    let lower = match endpoint.fragment() {
        Some(f) => any_lowercase(f),
        None => false,
    };
    if lower {
        Err(BadEndpointError::LowercaseFragment)
    } else {
        Ok(endpoint)
    }
}

/// Parses a `pj` endpoint: an absolute URL whose fragment, if any, holds no
/// lower-case letter.
pub fn parse_with_fragment(endpoint: &str) -> (r: Result<Endpoint, BadEndpointError>)
    ensures
        match url_parts(endpoint@) {
            None => r matches Err(BadEndpointError::UrlParse(_)),
            Some(p) => if fragment_has_lowercase(view_of_parts(p)) {
                r matches Err(BadEndpointError::LowercaseFragment)
            } else {
                r matches Ok(e) && e@ == view_of_parts(p)
            },
        },
{
    match Endpoint::parse(endpoint) {
        Ok(e) => check_fragment_case(e),
        Err(err) => Err(BadEndpointError::UrlParse(err)),
    }
}

} // verus!
