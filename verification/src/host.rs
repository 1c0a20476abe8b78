//! The calls into the `url` crate that the normalizer makes: the host of a
//! URL, and the parse of a host name.

use vstd::prelude::*;

verus! {

/// The host that `url::Url::parse` finds in `text`, as `Url::host_str` gives
/// it; `None` when `text` is no absolute URL or the URL has no host.
pub uninterp spec fn url_host_of(text: Seq<char>) -> Option<Seq<char>>;

/// Calls `url::Url::parse` on `text` and then `Url::host_str` on the URL.
/// The contract claims only that the result is the value that `url_host_of`
/// names, a function of `text` alone; what that value is (WHATWG URL
/// parsing, IDNA processing of the host) is left to the `url` crate.
#[verifier::external_body]
pub(crate) fn url_host(text: &str) -> (r: Option<String>)
    ensures
        match r {
            Some(h) => url_host_of(text@) == Some(h@),
            None => url_host_of(text@) is None,
        },
{
    match url::Url::parse(text) {
        Ok(parsed) => parsed.host_str().map(String::from),
        Err(_) => None,
    }
}

/// What `url::Host::parse` makes of a host name: a domain (its text), an IP
/// address, or a rejection.
#[derive(Debug, Clone)]
pub enum ParsedHost {
    Domain(String),
    Address,
    Invalid,
}

/// The plain value of a parsed host: `Some(Some(d))` for the domain `d`,
/// `Some(None)` for an IPv4 or IPv6 address, `None` for a rejection.
pub open spec fn parsed_host_value(h: ParsedHost) -> Option<Option<Seq<char>>> {
    match h {
        ParsedHost::Domain(d) => Some(Some(d@)),
        ParsedHost::Address => Some(None),
        ParsedHost::Invalid => None,
    }
}

/// What `url::Host::parse` returns for `text`, in the form of
/// `parsed_host_value`.
pub uninterp spec fn host_parse_of(text: Seq<char>) -> Option<Option<Seq<char>>>;

/// Calls `url::Host::parse` on `text`. The contract claims that the result is
/// the value that `host_parse_of` names, a function of `text` alone, and that
/// a domain result is never empty (`Host::parse` returns `EmptyHost` for an
/// empty domain). Which texts are domains, addresses or errors, and how a
/// domain is transformed (percent decoding, IDNA), is left to the `url` crate.
#[verifier::external_body]
pub(crate) fn parse_host(text: &str) -> (r: ParsedHost)
    ensures
        parsed_host_value(r) == host_parse_of(text@),
        r matches ParsedHost::Domain(d) ==> d@.len() > 0,
{
    match url::Host::parse(text) {
        Ok(url::Host::Domain(d)) => ParsedHost::Domain(d),
        Ok(url::Host::Ipv4(_)) => ParsedHost::Address,
        Ok(url::Host::Ipv6(_)) => ParsedHost::Address,
        Err(_) => ParsedHost::Invalid,
    }
}

} // verus!
