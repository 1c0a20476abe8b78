//! The verdict on one domain, from the outcome of its DBL query.

use vstd::prelude::*;
use crate::addresses::{lemma_sorted_unique, a_addresses, ipv4_text, ipv4_to_text, sorted_addresses, sorted_unique, DnsRecord};
use crate::spamhaus::{
    category_is_error, category_is_listing, category_label, classifies_as, classify_return_code,
    lemma_label_longer_than_dash, DblCategory,
};
use crate::text::{join, join_strings, lemma_join_contains_part, lemma_join_starts_with_first, contains_text, views_of};

verus! {

/// The verdict on a domain.
#[derive(Debug, Clone, Copy)]
pub enum CheckStatus {
    Listed,
    NotListed,
    Error,
}

/// The result of checking one domain.
#[derive(Debug, Clone)]
pub struct CheckResult {
    pub domain: String,
    pub status: CheckStatus,
    pub categories: Vec<DblCategory>,
    pub return_codes: Vec<String>,
    pub query: String,
    pub detail: String,
}

/// How the DNS lookup of a query name ended.
#[derive(Debug, Clone)]
pub enum LookupOutcome {
    /// The server answered with these records.
    Records(Vec<DnsRecord>),
    /// The server answered that the name does not exist (NXDOMAIN).
    NxDomain,
    /// The lookup failed in any other way; the text describes the failure.
    Failed(String),
}

/// The label under which a verdict is reported.
pub open spec fn status_text(s: CheckStatus) -> Seq<char> {
    match s {
        CheckStatus::Listed => "LISTED"@,
        CheckStatus::NotListed => "NOT LISTED"@,
        CheckStatus::Error => "ERROR"@,
    }
}

pub open spec fn labels_of(cs: Seq<DblCategory>) -> Seq<Seq<char>> {
    cs.map_values(|c: DblCategory| category_label(c))
}

/// The category column of a result: `-` for no category, the labels joined
/// with `; ` otherwise.
pub open spec fn categories_text(cs: Seq<DblCategory>) -> Seq<char> {
    if cs.len() == 0 {
        "-"@
    } else {
        join(labels_of(cs), "; "@)
    }
}

pub open spec fn any_error(cs: Seq<DblCategory>) -> bool {
    exists|i: int| 0 <= i < cs.len() && category_is_error(#[trigger] cs[i])
}

pub open spec fn any_listing(cs: Seq<DblCategory>) -> bool {
    exists|i: int| 0 <= i < cs.len() && category_is_listing(#[trigger] cs[i])
}

/// An address in `127.255.255.0/24`, the range of the DBL's operational
/// (error) responses.
pub open spec fn operational_address(ip: u32) -> bool {
    ip / 256 == 0x7fffff
}

pub open spec fn any_operational(ips: Seq<u32>) -> bool {
    exists|i: int| 0 <= i < ips.len() && operational_address(#[trigger] ips[i])
}

/// The verdict on a DNS answer with the distinct `A` addresses `ips`, whose
/// return codes mean `cs`: no `A` record means the domain is not listed; an
/// error code or any code in `127.255.255.0/24` makes it an error; else a
/// listing code makes it a listing; only unknown codes make it an error too.
pub open spec fn answer_status(ips: Seq<u32>, cs: Seq<DblCategory>) -> CheckStatus {
    if ips.len() == 0 {
        CheckStatus::NotListed
    } else if any_error(cs) || any_operational(ips) {
        CheckStatus::Error
    } else if any_listing(cs) {
        CheckStatus::Listed
    } else {
        CheckStatus::Error
    }
}

pub open spec fn no_address_detail() -> Seq<char> {
    "No A record returned by the DBL zone: domain is not listed."@
}

pub open spec fn nxdomain_detail() -> Seq<char> {
    "NXDOMAIN returned by the DBL zone: domain is not listed."@
}

pub open spec fn failure_detail(error: Seq<char>) -> Seq<char> {
    "DNS lookup failed or returned a non-NXDOMAIN condition: "@ + error
}

/// The detail text for a DNS answer with the distinct `A` addresses `ips`,
/// whose return codes `codes` mean `cs`. A documented error code, or a code
/// in `127.255.255.0/24` that comes with a listing code, is reported as an
/// operational code; codes that are neither errors nor listings are reported
/// as unexpected.
pub open spec fn answer_detail(
    codes: Seq<Seq<char>>,
    ips: Seq<u32>,
    cs: Seq<DblCategory>,
) -> Seq<char> {
    if codes.len() == 0 {
        no_address_detail()
    } else if any_error(cs) || (any_operational(ips) && any_listing(cs)) {
        "Spamhaus returned an operational/error code: "@ + join(codes, ", "@)
            + ". Do not interpret this as reputation data."@
    } else if any_listing(cs) {
        "Spamhaus DBL returned listing code(s): "@ + join(codes, ", "@) + "."@
    } else {
        "Unexpected Spamhaus response code(s): "@ + join(codes, ", "@)
            + ". Review before using the result."@
    }
}

/// The distinct `A` addresses of a DNS answer, in ascending order.
pub open spec fn answer_addresses(records: Seq<DnsRecord>) -> Seq<u32> {
    sorted_unique(a_addresses(records))
}

/// The return codes of a DNS answer: the text of each distinct `A` address,
/// in ascending address order.
pub open spec fn answer_codes(records: Seq<DnsRecord>) -> Seq<Seq<char>> {
    answer_addresses(records).map_values(|ip: u32| ipv4_text(ip))
}

/// Everything that `interpret_lookup` puts into a result, as a relation
/// between the lookup and the result.
pub open spec fn interprets(
    domain: Seq<char>,
    query: Seq<char>,
    outcome: LookupOutcome,
    r: CheckResult,
) -> bool {
    &&& r.domain@ == domain
    &&& r.query@ == query
    &&& match outcome {
        LookupOutcome::Records(records) => {
            let codes = answer_codes(records@);
            &&& views_of(r.return_codes@) == codes
            &&& r.categories@.len() == codes.len()
            &&& forall|i: int|
                0 <= i < codes.len() ==> classifies_as(codes[i], #[trigger] r.categories@[i])
            &&& r.status == answer_status(answer_addresses(records@), r.categories@)
            &&& r.detail@ == answer_detail(codes, answer_addresses(records@), r.categories@)
        },
        LookupOutcome::NxDomain => {
            &&& r.status == CheckStatus::NotListed
            &&& r.categories@.len() == 0
            &&& r.return_codes@.len() == 0
            &&& r.detail@ == nxdomain_detail()
        },
        LookupOutcome::Failed(error) => {
            &&& r.status == CheckStatus::Error
            &&& r.categories@.len() == 0
            &&& r.return_codes@.len() == 0
            &&& r.detail@ == failure_detail(error@)
        },
    }
}

/// A domain is NOT LISTED exactly when the DBL zone answered NXDOMAIN or
/// answered without any `A` record; a failed lookup never yields NOT LISTED.
pub proof fn lemma_not_listed_exactly_without_address(
    domain: Seq<char>,
    query: Seq<char>,
    outcome: LookupOutcome,
    r: CheckResult,
)
    requires
        interprets(domain, query, outcome, r),
    ensures
        (r.status == CheckStatus::NotListed) <==> (outcome is NxDomain || (outcome matches LookupOutcome::Records(records) && a_addresses(records@).len() == 0)),
{
    if let LookupOutcome::Records(records) = outcome {
        lemma_sorted_unique(a_addresses(records@));
        if a_addresses(records@).len() > 0 {
            assert(a_addresses(records@).contains(a_addresses(records@)[0]));
            assert(answer_addresses(records@).contains(a_addresses(records@)[0]));
        } else {
            assert(a_addresses(records@) =~= Seq::<u32>::empty());
        }
    }
}

/// A domain is LISTED exactly when the DBL answered with at least one listing
/// code, no operational error code and no code in `127.255.255.0/24`.
pub proof fn lemma_listed_means_clean_listing(
    domain: Seq<char>,
    query: Seq<char>,
    outcome: LookupOutcome,
    r: CheckResult,
)
    requires
        interprets(domain, query, outcome, r),
    ensures
        (r.status == CheckStatus::Listed) <==> (outcome matches LookupOutcome::Records(records)
            && any_listing(r.categories@) && !any_error(r.categories@) && !any_operational(
            answer_addresses(records@),
        )),
{
}

/// An answer without an `A` record means the domain is not listed, with no
/// category and no return code.
pub proof fn lemma_answer_without_address_is_not_listed(
    domain: Seq<char>,
    query: Seq<char>,
    records: Vec<DnsRecord>,
    r: CheckResult,
)
    requires
        interprets(domain, query, LookupOutcome::Records(records), r),
        a_addresses(records@).len() == 0,
    ensures
        r.status == CheckStatus::NotListed,
        r.categories@.len() == 0,
        r.return_codes@.len() == 0,
        r.detail@ == no_address_detail(),
{
    assert(a_addresses(records@) =~= Seq::<u32>::empty());
    assert(sorted_unique(a_addresses(records@)) =~= Seq::<u32>::empty());
}

/// Any `A` record in `127.255.255.0/24` makes the result an error: such a
/// response is never reported as a listing, whatever codes come with it.
pub proof fn lemma_operational_range_makes_error(
    domain: Seq<char>,
    query: Seq<char>,
    records: Vec<DnsRecord>,
    r: CheckResult,
    ip: u32,
)
    requires
        interprets(domain, query, LookupOutcome::Records(records), r),
        a_addresses(records@).contains(ip),
        operational_address(ip),
    ensures
        r.status == CheckStatus::Error,
{
    lemma_sorted_unique(a_addresses(records@));
    let ips = answer_addresses(records@);
    assert(ips.contains(ip));
    let k = choose|k: int| 0 <= k < ips.len() && ips[k] == ip;
    assert(operational_address(ips[k]));
}

/// An operational error code makes the result an error, whatever listing
/// codes come with it.
pub proof fn lemma_error_code_dominates(
    domain: Seq<char>,
    query: Seq<char>,
    outcome: LookupOutcome,
    r: CheckResult,
)
    requires
        interprets(domain, query, outcome, r),
        any_error(r.categories@),
    ensures
        r.status == CheckStatus::Error,
{
}

/// The category column shows `-` exactly when a result has no category; a
/// result with one category shows that category's label; otherwise the
/// column starts with the label of the first category and shows the label of
/// every category.
pub proof fn lemma_category_text_shows_categories(cs: Seq<DblCategory>)
    ensures
        (categories_text(cs) == "-"@) <==> (cs.len() == 0),
        cs.len() == 1 ==> categories_text(cs) == category_label(cs[0]),
        cs.len() > 0 ==> categories_text(cs).take(category_label(cs[0]).len() as int)
            == category_label(cs[0]),
        forall|i: int|
            0 <= i < cs.len() ==> contains_text(categories_text(cs), category_label(#[trigger] cs[i])),
{
    reveal_strlit("-");
    if cs.len() > 0 {
        lemma_label_longer_than_dash(cs[0]);
        lemma_join_starts_with_first(labels_of(cs), "; "@);
        assert(labels_of(cs)[0] == category_label(cs[0]));
    }
    assert forall|i: int| 0 <= i < cs.len() implies contains_text(
        categories_text(cs),
        category_label(#[trigger] cs[i]),
    ) by {
        lemma_join_contains_part(labels_of(cs), "; "@, i);
        assert(labels_of(cs)[i] == category_label(cs[i]));
    }
}

impl CheckResult {
    pub fn is_listed(&self) -> (r: bool)
        ensures
            r == (self.status == CheckStatus::Listed),
    {
        matches!(self.status, CheckStatus::Listed)
    }

    pub fn is_not_listed(&self) -> (r: bool)
        ensures
            r == (self.status == CheckStatus::NotListed),
    {
        matches!(self.status, CheckStatus::NotListed)
    }

    pub fn status_label(&self) -> (r: &'static str)
        ensures
            r@ == status_text(self.status),
    {
        match self.status {
            CheckStatus::Listed => "LISTED",
            CheckStatus::NotListed => "NOT LISTED",
            CheckStatus::Error => "ERROR",
        }
    }

    pub fn category_text(&self) -> (r: String)
        ensures
            r@ == categories_text(self.categories@),
    {
        if self.categories.len() == 0 {
            return String::from_str("-");
        }
        let mut r = String::new();
        let mut i: usize = 0;
        while i < self.categories.len()
            invariant
                0 < self.categories@.len(),
                i <= self.categories@.len(),
                r@ == join(labels_of(self.categories@).take(i as int), "; "@),
            decreases self.categories@.len() - i,
        {
            if i > 0 {
                r.append("; ");
            }
            r.append(self.categories[i].label());
            proof {
                let t = labels_of(self.categories@).take(i + 1);
                assert(t.drop_last() =~= labels_of(self.categories@).take(i as int));
            }
            i = i + 1;
        }
        assert(labels_of(self.categories@).take(self.categories@.len() as int) =~= labels_of(
            self.categories@,
        ));
        r
    }
}

fn make_result(
    domain: &str,
    status: CheckStatus,
    query: String,
    detail: String,
) -> (r: CheckResult)
    ensures
        r.domain@ == domain@,
        r.status == status,
        r.categories@.len() == 0,
        r.return_codes@.len() == 0,
        r.query == query,
        r.detail == detail,
{
    CheckResult {
        domain: String::from_str(domain),
        status,
        categories: Vec::new(),
        return_codes: Vec::new(),
        query,
        detail,
    }
}

/// The result for `domain`, whose DBL query name `query` was looked up with
/// the given outcome. NXDOMAIN and an answer without `A` records make the
/// domain NOT LISTED; any other failure makes it an error.
pub fn interpret_lookup(domain: &str, query: String, outcome: LookupOutcome) -> (r: CheckResult)
    ensures
        interprets(domain@, query@, outcome, r),
{
    match outcome {
        LookupOutcome::NxDomain => make_result(
            domain,
            CheckStatus::NotListed,
            query,
            String::from_str("NXDOMAIN returned by the DBL zone: domain is not listed."),
        ),
        LookupOutcome::Failed(error) => {
            let mut detail = String::from_str(
                "DNS lookup failed or returned a non-NXDOMAIN condition: ",
            );
            detail.append(error.as_str());
            make_result(domain, CheckStatus::Error, query, detail)
        },
        LookupOutcome::Records(records) => interpret_answer(domain, query, &records),
    }
}

fn interpret_answer(domain: &str, query: String, records: &Vec<DnsRecord>) -> (r: CheckResult)
    ensures
        interprets(domain@, query@, LookupOutcome::Records(*records), r),
{
    let ips = sorted_addresses(records);
    let ghost codes = answer_codes(records@);
    if ips.len() == 0 {
        let r = make_result(
            domain,
            CheckStatus::NotListed,
            query,
            String::from_str("No A record returned by the DBL zone: domain is not listed."),
        );
        assert(views_of(r.return_codes@) =~= codes);
        return r;
    }
    let mut has_operational = false;
    let mut j: usize = 0;
    while j < ips.len()
        invariant
            j <= ips@.len(),
            has_operational == any_operational(ips@.take(j as int)),
        decreases ips@.len() - j,
    {
        proof {
            let t = ips@.take(j + 1);
            assert(t[j as int] == ips@[j as int]);
            if any_operational(ips@.take(j as int)) {
                let k = choose|k: int|
                    0 <= k < j && operational_address(#[trigger] ips@.take(j as int)[k]);
                assert(t[k] == ips@.take(j as int)[k]);
            }
            if any_operational(t) {
                let k = choose|k: int| 0 <= k < t.len() && operational_address(#[trigger] t[k]);
                if k < j {
                    assert(ips@.take(j as int)[k] == t[k]);
                }
            }
        }
        if ips[j] / 256 == 0x7fffff {
            has_operational = true;
        }
        j = j + 1;
    }
    assert(ips@.take(ips@.len() as int) =~= ips@);
    let mut return_codes: Vec<String> = Vec::new();
    let mut categories: Vec<DblCategory> = Vec::new();
    let mut has_error = false;
    let mut has_listing = false;
    let mut i: usize = 0;
    while i < ips.len()
        invariant
            ips@ == sorted_unique(a_addresses(records@)),
            codes == answer_codes(records@),
            codes.len() == ips@.len(),
            i <= ips@.len(),
            return_codes@.len() == i,
            views_of(return_codes@) == codes.take(i as int),
            categories@.len() == i,
            forall|j: int| 0 <= j < i ==> classifies_as(codes[j], #[trigger] categories@[j]),
            has_error == any_error(categories@),
            has_listing == any_listing(categories@),
        decreases ips@.len() - i,
    {
        let code = ipv4_to_text(ips[i]);
        let category = classify_return_code(code.as_str());
        let ghost before = categories@;
        let ghost before_codes = return_codes@;
        let ghost code_view = code@;
        if category.is_error() {
            has_error = true;
        }
        if category.is_listing() {
            has_listing = true;
        }
        return_codes.push(code);
        categories.push(category);
        proof {
            assert(categories@ == before.push(category));
            assert(codes[i as int] == ipv4_text(ips@[i as int]));
            assert(return_codes@ == before_codes.push(return_codes@[i as int]));
            assert(return_codes@[i as int]@ == code_view);
            assert(views_of(return_codes@).drop_last() =~= views_of(before_codes));
            assert(views_of(return_codes@) =~= codes.take(i + 1));
            if category_is_error(category) {
                assert(category_is_error(categories@[i as int]));
            }
            if category_is_listing(category) {
                assert(category_is_listing(categories@[i as int]));
            }
            if any_error(categories@) && !category_is_error(category) {
                let k = choose|k: int|
                    0 <= k < categories@.len() && category_is_error(#[trigger] categories@[k]);
                assert(category_is_error(before[k]));
            }
            if any_listing(categories@) && !category_is_listing(category) {
                let k = choose|k: int|
                    0 <= k < categories@.len() && category_is_listing(#[trigger] categories@[k]);
                assert(category_is_listing(before[k]));
            }
            if any_error(before) {
                let k = choose|k: int| 0 <= k < before.len() && category_is_error(#[trigger] before[k]);
                assert(category_is_error(categories@[k]));
            }
            if any_listing(before) {
                let k = choose|k: int| 0 <= k < before.len() && category_is_listing(#[trigger] before[k]);
                assert(category_is_listing(categories@[k]));
            }
        }
        i = i + 1;
    }
    assert(codes.take(ips@.len() as int) =~= codes);
    let joined = join_strings(&return_codes, ", ");
    let status;
    let mut detail;
    if has_error || (has_operational && has_listing) {
        status = CheckStatus::Error;
        detail = String::from_str("Spamhaus returned an operational/error code: ");
        detail.append(joined.as_str());
        detail.append(". Do not interpret this as reputation data.");
    } else if has_listing {
        status = CheckStatus::Listed;
        detail = String::from_str("Spamhaus DBL returned listing code(s): ");
        detail.append(joined.as_str());
        detail.append(".");
    } else {
        // Also the case of undocumented codes in 127.255.255.0/24 alone.
        status = CheckStatus::Error;
        detail = String::from_str("Unexpected Spamhaus response code(s): ");
        detail.append(joined.as_str());
        detail.append(". Review before using the result.");
    }
    CheckResult {
        domain: String::from_str(domain),
        status,
        categories,
        return_codes,
        query,
        detail,
    }
}

} // verus!
