//! The Spamhaus DBL return codes and the DNS names that are queried.

use vstd::prelude::*;
use crate::text::{chars_between, chars_of, count_lead, count_trail, lemma_lead_len, lemma_trail_len, str_equals, trim, CharSet};

verus! {

/// What a DBL return code means.
#[derive(Debug, Clone, PartialEq, Eq)]
pub enum DblCategory {
    Spam,
    Phishing,
    Malware,
    BotnetC2,
    AbusedLegitSpam,
    AbusedRedirector,
    AbusedLegitPhishing,
    AbusedLegitMalware,
    AbusedLegitBotnetC2,
    IpQueryProhibited,
    DnsblNameError,
    PublicResolverError,
    QueryLimitExceeded,
    Unknown(String),
}

/// The label under which a category is reported.
pub open spec fn category_label(c: DblCategory) -> Seq<char> {
    match c {
        DblCategory::Spam => "Spam domain"@,
        DblCategory::Phishing => "Phishing domain"@,
        DblCategory::Malware => "Malware domain"@,
        DblCategory::BotnetC2 => "Botnet C&C domain"@,
        DblCategory::AbusedLegitSpam => "Abused legitimate domain - Spam"@,
        DblCategory::AbusedRedirector => "Abused/spammed redirector domain"@,
        DblCategory::AbusedLegitPhishing => "Abused legitimate domain - Phishing"@,
        DblCategory::AbusedLegitMalware => "Abused legitimate domain - Malware"@,
        DblCategory::AbusedLegitBotnetC2 => "Abused legitimate domain - Botnet C&C"@,
        DblCategory::IpQueryProhibited => "IP query prohibited"@,
        DblCategory::DnsblNameError => "DNSBL name error"@,
        DblCategory::PublicResolverError => "Query via public/open resolver"@,
        DblCategory::QueryLimitExceeded => "Query limit exceeded"@,
        DblCategory::Unknown(_) => "Unknown Spamhaus response"@,
    }
}

/// The categories that report a reputation listing of the domain.
pub open spec fn category_is_listing(c: DblCategory) -> bool {
    match c {
        DblCategory::Spam | DblCategory::Phishing | DblCategory::Malware | DblCategory::BotnetC2
        | DblCategory::AbusedLegitSpam | DblCategory::AbusedRedirector
        | DblCategory::AbusedLegitPhishing | DblCategory::AbusedLegitMalware
        | DblCategory::AbusedLegitBotnetC2 => true,
        _ => false,
    }
}

/// The categories that report an operational problem with the query itself.
pub open spec fn category_is_error(c: DblCategory) -> bool {
    match c {
        DblCategory::IpQueryProhibited | DblCategory::DnsblNameError
        | DblCategory::PublicResolverError | DblCategory::QueryLimitExceeded => true,
        _ => false,
    }
}

impl DblCategory {
    pub fn label(&self) -> (r: &str)
        ensures
            r@ == category_label(*self),
    {
        match self {
            DblCategory::Spam => "Spam domain",
            DblCategory::Phishing => "Phishing domain",
            DblCategory::Malware => "Malware domain",
            DblCategory::BotnetC2 => "Botnet C&C domain",
            DblCategory::AbusedLegitSpam => "Abused legitimate domain - Spam",
            DblCategory::AbusedRedirector => "Abused/spammed redirector domain",
            DblCategory::AbusedLegitPhishing => "Abused legitimate domain - Phishing",
            DblCategory::AbusedLegitMalware => "Abused legitimate domain - Malware",
            DblCategory::AbusedLegitBotnetC2 => "Abused legitimate domain - Botnet C&C",
            DblCategory::IpQueryProhibited => "IP query prohibited",
            DblCategory::DnsblNameError => "DNSBL name error",
            DblCategory::PublicResolverError => "Query via public/open resolver",
            DblCategory::QueryLimitExceeded => "Query limit exceeded",
            DblCategory::Unknown(_) => "Unknown Spamhaus response",
        }
    }

    pub fn is_listing(&self) -> (r: bool)
        ensures
            r == category_is_listing(*self),
    {
        match self {
            DblCategory::Spam | DblCategory::Phishing | DblCategory::Malware
            | DblCategory::BotnetC2 | DblCategory::AbusedLegitSpam
            | DblCategory::AbusedRedirector | DblCategory::AbusedLegitPhishing
            | DblCategory::AbusedLegitMalware | DblCategory::AbusedLegitBotnetC2 => true,
            _ => false,
        }
    }

    pub fn is_error(&self) -> (r: bool)
        ensures
            r == category_is_error(*self),
    {
        match self {
            DblCategory::IpQueryProhibited | DblCategory::DnsblNameError
            | DblCategory::PublicResolverError | DblCategory::QueryLimitExceeded => true,
            _ => false,
        }
    }
}

/// The category of each return code that the DBL documents; `None` for any
/// other text.
pub open spec fn documented_category(code: Seq<char>) -> Option<DblCategory> {
    if code == "127.0.1.2"@ {
        Some(DblCategory::Spam)
    } else if code == "127.0.1.4"@ {
        Some(DblCategory::Phishing)
    } else if code == "127.0.1.5"@ {
        Some(DblCategory::Malware)
    } else if code == "127.0.1.6"@ {
        Some(DblCategory::BotnetC2)
    } else if code == "127.0.1.102"@ {
        Some(DblCategory::AbusedLegitSpam)
    } else if code == "127.0.1.103"@ {
        Some(DblCategory::AbusedRedirector)
    } else if code == "127.0.1.104"@ {
        Some(DblCategory::AbusedLegitPhishing)
    } else if code == "127.0.1.105"@ {
        Some(DblCategory::AbusedLegitMalware)
    } else if code == "127.0.1.106"@ {
        Some(DblCategory::AbusedLegitBotnetC2)
    } else if code == "127.0.1.255"@ {
        Some(DblCategory::IpQueryProhibited)
    } else if code == "127.255.255.252"@ {
        Some(DblCategory::DnsblNameError)
    } else if code == "127.255.255.254"@ {
        Some(DblCategory::PublicResolverError)
    } else if code == "127.255.255.255"@ {
        Some(DblCategory::QueryLimitExceeded)
    } else {
        None
    }
}

/// `category` is what the text `code` of a return code means: the documented
/// category, or `Unknown` carrying the code itself.
pub open spec fn classifies_as(code: Seq<char>, category: DblCategory) -> bool {
    match documented_category(code) {
        Some(k) => category == k,
        None => category matches DblCategory::Unknown(t) && t@ == code,
    }
}

/// The category of a DBL return code, given as its dotted-decimal text.
pub fn classify_return_code(ip: &str) -> (r: DblCategory)
    ensures
        classifies_as(ip@, r),
{
    if str_equals(ip, "127.0.1.2") {
        DblCategory::Spam
    } else if str_equals(ip, "127.0.1.4") {
        DblCategory::Phishing
    } else if str_equals(ip, "127.0.1.5") {
        DblCategory::Malware
    } else if str_equals(ip, "127.0.1.6") {
        DblCategory::BotnetC2
    } else if str_equals(ip, "127.0.1.102") {
        DblCategory::AbusedLegitSpam
    } else if str_equals(ip, "127.0.1.103") {
        DblCategory::AbusedRedirector
    } else if str_equals(ip, "127.0.1.104") {
        DblCategory::AbusedLegitPhishing
    } else if str_equals(ip, "127.0.1.105") {
        DblCategory::AbusedLegitMalware
    } else if str_equals(ip, "127.0.1.106") {
        DblCategory::AbusedLegitBotnetC2
    } else if str_equals(ip, "127.0.1.255") {
        DblCategory::IpQueryProhibited
    } else if str_equals(ip, "127.255.255.252") {
        DblCategory::DnsblNameError
    } else if str_equals(ip, "127.255.255.254") {
        DblCategory::PublicResolverError
    } else if str_equals(ip, "127.255.255.255") {
        DblCategory::QueryLimitExceeded
    } else {
        DblCategory::Unknown(String::from_str(ip))
    }
}

/// Every category's label has a length of its own.
proof fn lemma_label_len(c: DblCategory)
    ensures
        category_label(c).len() == match c {
            DblCategory::Spam => 11nat,
            DblCategory::Phishing => 15nat,
            DblCategory::Malware => 14nat,
            DblCategory::BotnetC2 => 17nat,
            DblCategory::AbusedLegitSpam => 31nat,
            DblCategory::AbusedRedirector => 32nat,
            DblCategory::AbusedLegitPhishing => 35nat,
            DblCategory::AbusedLegitMalware => 34nat,
            DblCategory::AbusedLegitBotnetC2 => 37nat,
            DblCategory::IpQueryProhibited => 19nat,
            DblCategory::DnsblNameError => 16nat,
            DblCategory::PublicResolverError => 30nat,
            DblCategory::QueryLimitExceeded => 20nat,
            DblCategory::Unknown(_) => 25nat,
        },
{
    match c {
        DblCategory::Spam => {
            reveal_strlit("Spam domain");
            assert(category_label(c).len() == 11);
        },
        DblCategory::Phishing => {
            reveal_strlit("Phishing domain");
            assert(category_label(c).len() == 15);
        },
        DblCategory::Malware => {
            reveal_strlit("Malware domain");
            assert(category_label(c).len() == 14);
        },
        DblCategory::BotnetC2 => {
            reveal_strlit("Botnet C&C domain");
            assert(category_label(c).len() == 17);
        },
        DblCategory::AbusedLegitSpam => {
            reveal_strlit("Abused legitimate domain - Spam");
            assert(category_label(c).len() == 31);
        },
        DblCategory::AbusedRedirector => {
            reveal_strlit("Abused/spammed redirector domain");
            assert(category_label(c).len() == 32);
        },
        DblCategory::AbusedLegitPhishing => {
            reveal_strlit("Abused legitimate domain - Phishing");
            assert(category_label(c).len() == 35);
        },
        DblCategory::AbusedLegitMalware => {
            reveal_strlit("Abused legitimate domain - Malware");
            assert(category_label(c).len() == 34);
        },
        DblCategory::AbusedLegitBotnetC2 => {
            reveal_strlit("Abused legitimate domain - Botnet C&C");
            assert(category_label(c).len() == 37);
        },
        DblCategory::IpQueryProhibited => {
            reveal_strlit("IP query prohibited");
            assert(category_label(c).len() == 19);
        },
        DblCategory::DnsblNameError => {
            reveal_strlit("DNSBL name error");
            assert(category_label(c).len() == 16);
        },
        DblCategory::PublicResolverError => {
            reveal_strlit("Query via public/open resolver");
            assert(category_label(c).len() == 30);
        },
        DblCategory::QueryLimitExceeded => {
            reveal_strlit("Query limit exceeded");
            assert(category_label(c).len() == 20);
        },
        DblCategory::Unknown(_) => {
            reveal_strlit("Unknown Spamhaus response");
            assert(category_label(c).len() == 25);
        },
    }
}

/// Each label names one category: two categories with the same label are the
/// same category (all unknown codes share one label).
pub proof fn lemma_labels_distinct(a: DblCategory, b: DblCategory)
    requires
        category_label(a) == category_label(b),
    ensures
        a == b || (a is Unknown && b is Unknown),
{
    lemma_label_len(a);
    lemma_label_len(b);
}

/// Every label is longer than the `-` that marks a result without category.
pub proof fn lemma_label_longer_than_dash(c: DblCategory)
    ensures
        category_label(c).len() > 1,
{
    lemma_label_len(c);
}

/// No category is both a listing and an error: an answer code either reports
/// reputation data or an operational problem, never both.
pub proof fn lemma_listing_excludes_error(c: DblCategory)
    ensures
        !(category_is_listing(c) && category_is_error(c)),
{
}

/// A return code in `127.255.255.0/24` is never classified as a malicious
/// listing: the operational codes of that range are errors, and every other
/// code of the range is unknown.
pub proof fn lemma_operational_range_never_listing(code: Seq<char>, c: DblCategory)
    requires
        code.len() >= 12,
        code.take(12) == "127.255.255."@,
        classifies_as(code, c),
    ensures
        !category_is_listing(c),
{
    reveal_strlit("127.255.255.");
    reveal_strlit("127.0.1.2");
    reveal_strlit("127.0.1.4");
    reveal_strlit("127.0.1.5");
    reveal_strlit("127.0.1.6");
    reveal_strlit("127.0.1.102");
    reveal_strlit("127.0.1.103");
    reveal_strlit("127.0.1.104");
    reveal_strlit("127.0.1.105");
    reveal_strlit("127.0.1.106");
    assert(code[4] == '2') by {
        assert(code.take(12)[4] == code[4]);
    }
}

/// The DNS name under which the DBL is asked about `domain`: under the DQS
/// zone of the key when a key that is not blank after trimming is given,
/// under the public zone otherwise.
pub open spec fn dbl_query_name(domain: Seq<char>, dqs_key: Option<Seq<char>>) -> Seq<char> {
    match dqs_key {
        Some(key) if trim(key, CharSet::Space).len() > 0 => domain + "."@ + trim(key, CharSet::Space)
            + ".dbl.dq.spamhaus.net."@,
        _ => domain + ".dbl.spamhaus.org."@,
    }
}

/// `s` without leading and trailing white space.
pub fn trim_space(s: &str) -> (r: &str)
    ensures
        r@ == trim(s@, CharSet::Space),
{
    let v = chars_of(s);
    let lead = count_lead(&v, CharSet::Space);
    proof {
        lemma_lead_len(v@, CharSet::Space);
    }
    let rest = chars_between(&v, lead, v.len());
    let trail = count_trail(&rest, CharSet::Space);
    proof {
        lemma_trail_len(rest@, CharSet::Space);
        assert(v@.subrange(lead as int, v@.len() - trail) =~= rest@.take(rest@.len() - trail));
    }
    s.substring_char(lead, v.len() - trail)
}

pub fn query_name(domain: &str, dqs_key: Option<&str>) -> (r: String)
    ensures
        r@ == dbl_query_name(
            domain@,
            match dqs_key {
                Some(k) => Some(k@),
                None => None,
            },
        ),
{
    match dqs_key {
        Some(key) => {
            let k = trim_space(key);
            if k.unicode_len() > 0 {
                let mut r = String::from_str(domain);
                r.append(".");
                r.append(k);
                r.append(".dbl.dq.spamhaus.net.");
                return r;
            }
        },
        None => {},
    }
    let mut r = String::from_str(domain);
    r.append(".dbl.spamhaus.org.");
    r
}

} // verus!
