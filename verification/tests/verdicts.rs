use db_guard::addresses::DnsRecord;
use db_guard::checker::{interpret_lookup, CheckResult, CheckStatus, LookupOutcome};
use db_guard::input::load_domains_from_lines;
use db_guard::report::{order_by_domain, report_row, report_rows, summarize_results};
use db_guard::run::{check_concurrency, check_domains_loaded, mode_label, RunError};
use db_guard::spamhaus::DblCategory;

fn ip(a: u8, b: u8, c: u8, d: u8) -> DnsRecord {
    DnsRecord::A(u32::from_be_bytes([a, b, c, d]))
}

fn check(domain: &str, outcome: LookupOutcome) -> CheckResult {
    interpret_lookup(domain, format!("{}.dbl.spamhaus.org.", domain), outcome)
}

#[test]
fn nxdomain_is_not_listed() {
    let r = check("example.com", LookupOutcome::NxDomain);
    assert!(matches!(r.status, CheckStatus::NotListed));
    assert!(r.is_not_listed());
    assert!(!r.is_listed());
    assert_eq!(r.status_label(), "NOT LISTED");
    assert_eq!(r.domain, "example.com");
    assert_eq!(r.query, "example.com.dbl.spamhaus.org.");
    assert!(r.categories.is_empty());
    assert!(r.return_codes.is_empty());
    assert_eq!(r.category_text(), "-");
    assert_eq!(r.detail, "NXDOMAIN returned by the DBL zone: domain is not listed.");
}

#[test]
fn failed_lookup_is_an_error() {
    let r = check("example.com", LookupOutcome::Failed("timed out".into()));
    assert!(matches!(r.status, CheckStatus::Error));
    assert_eq!(r.status_label(), "ERROR");
    assert_eq!(
        r.detail,
        "DNS lookup failed or returned a non-NXDOMAIN condition: timed out"
    );
}

#[test]
fn answer_without_a_record_is_not_listed() {
    let r = check("example.com", LookupOutcome::Records(vec![DnsRecord::Other]));
    assert!(matches!(r.status, CheckStatus::NotListed));
    assert!(r.is_not_listed());
    assert!(r.categories.is_empty());
    assert!(r.return_codes.is_empty());
    assert_eq!(r.detail, "No A record returned by the DBL zone: domain is not listed.");
    let r = check("example.com", LookupOutcome::Records(Vec::new()));
    assert!(matches!(r.status, CheckStatus::NotListed));
    assert!(r.categories.is_empty());
    assert!(r.return_codes.is_empty());
}

#[test]
fn listing_codes_make_a_listing() {
    let r = check(
        "dbltest.com",
        LookupOutcome::Records(vec![ip(127, 0, 1, 4), DnsRecord::Other, ip(127, 0, 1, 2), ip(127, 0, 1, 4)]),
    );
    assert!(r.is_listed());
    assert_eq!(r.status_label(), "LISTED");
    assert_eq!(r.return_codes, vec!["127.0.1.2".to_string(), "127.0.1.4".into()]);
    assert_eq!(r.categories, vec![DblCategory::Spam, DblCategory::Phishing]);
    assert_eq!(r.category_text(), "Spam domain; Phishing domain");
    assert_eq!(r.detail, "Spamhaus DBL returned listing code(s): 127.0.1.2, 127.0.1.4.");
}

#[test]
fn error_code_overrides_listing() {
    let r = check(
        "example.com",
        LookupOutcome::Records(vec![ip(127, 0, 1, 2), ip(127, 255, 255, 254)]),
    );
    assert!(matches!(r.status, CheckStatus::Error));
    assert_eq!(
        r.detail,
        "Spamhaus returned an operational/error code: 127.0.1.2, 127.255.255.254. Do not interpret this as reputation data."
    );
    assert_eq!(r.category_text(), "Spam domain; Query via public/open resolver");
}

#[test]
fn unknown_code_is_an_error() {
    let r = check("example.com", LookupOutcome::Records(vec![ip(127, 0, 0, 2)]));
    assert!(matches!(r.status, CheckStatus::Error));
    assert_eq!(r.categories, vec![DblCategory::Unknown("127.0.0.2".into())]);
    assert_eq!(
        r.detail,
        "Unexpected Spamhaus response code(s): 127.0.0.2. Review before using the result."
    );
}

#[test]
fn operational_range_is_always_an_error() {
    for last in 0..=255u8 {
        let r = check("example.com", LookupOutcome::Records(vec![ip(127, 255, 255, last)]));
        assert!(matches!(r.status, CheckStatus::Error));
        let r = check(
            "example.com",
            LookupOutcome::Records(vec![ip(127, 0, 1, 2), ip(127, 255, 255, last)]),
        );
        assert!(matches!(r.status, CheckStatus::Error));
        assert!(r.detail.starts_with("Spamhaus returned an operational/error code: 127.0.1.2, 127.255.255."));
    }
}

#[test]
fn undocumented_operational_code_alone_is_unexpected() {
    let r = check("example.com", LookupOutcome::Records(vec![ip(127, 255, 255, 253)]));
    assert!(matches!(r.status, CheckStatus::Error));
    assert_eq!(r.categories, vec![DblCategory::Unknown("127.255.255.253".into())]);
    assert_eq!(
        r.detail,
        "Unexpected Spamhaus response code(s): 127.255.255.253. Review before using the result."
    );
    let r = check("example.com", LookupOutcome::Records(vec![ip(127, 255, 255, 252)]));
    assert_eq!(
        r.detail,
        "Spamhaus returned an operational/error code: 127.255.255.252. Do not interpret this as reputation data."
    );
}

#[test]
fn undocumented_operational_code_with_listing_is_an_error() {
    let r = check(
        "example.com",
        LookupOutcome::Records(vec![ip(127, 0, 1, 2), ip(127, 255, 255, 253)]),
    );
    assert!(matches!(r.status, CheckStatus::Error));
    assert_eq!(r.categories, vec![DblCategory::Spam, DblCategory::Unknown("127.255.255.253".into())]);
    assert_eq!(
        r.detail,
        "Spamhaus returned an operational/error code: 127.0.1.2, 127.255.255.253. Do not interpret this as reputation data."
    );
}

#[test]
fn report_row_cells() {
    let r = check(
        "dbltest.com",
        LookupOutcome::Records(vec![ip(127, 0, 1, 2), ip(127, 0, 1, 102)]),
    );
    let row = report_row(&r);
    assert_eq!(row.domain, "dbltest.com");
    assert_eq!(row.status, "LISTED");
    assert_eq!(row.category, "Spam domain; Abused legitimate domain - Spam");
    assert_eq!(row.return_codes, "127.0.1.2; 127.0.1.102");
    assert_eq!(row.query, "dbltest.com.dbl.spamhaus.org.");
    assert!(matches!(row.tone, CheckStatus::Listed));
    let clean = report_row(&check("a.com", LookupOutcome::NxDomain));
    assert_eq!(clean.return_codes, "-");
    assert_eq!(clean.category, "-");
    assert_eq!(report_rows(&vec![r]).len(), 1);
}

#[test]
fn summary_counts_partition_the_results() {
    let results = vec![
        check("a.com", LookupOutcome::NxDomain),
        check("b.com", LookupOutcome::Records(vec![ip(127, 0, 1, 2)])),
        check("c.com", LookupOutcome::Failed("x".into())),
        check("d.com", LookupOutcome::NxDomain),
        check("e.com", LookupOutcome::Records(vec![ip(127, 255, 255, 255)])),
    ];
    let s = summarize_results(&results);
    assert_eq!(s.checked, 5);
    assert_eq!(s.listed, 1);
    assert_eq!(s.not_listed, 2);
    assert_eq!(s.errors, 2);
    let empty = summarize_results(&Vec::new());
    assert_eq!((empty.checked, empty.listed, empty.not_listed, empty.errors), (0, 0, 0, 0));
}

#[test]
fn results_are_ordered_by_domain_stably() {
    let results = vec![
        check("c.com", LookupOutcome::NxDomain),
        check("a.com", LookupOutcome::Failed("first".into())),
        check("b.com", LookupOutcome::NxDomain),
        check("a.com", LookupOutcome::Failed("second".into())),
    ];
    let ordered = order_by_domain(results);
    let domains: Vec<&str> = ordered.iter().map(|r| r.domain.as_str()).collect();
    assert_eq!(domains, vec!["a.com", "a.com", "b.com", "c.com"]);
    assert!(ordered[0].detail.ends_with("first"));
    assert!(ordered[1].detail.ends_with("second"));
}

#[test]
fn run_settings_are_checked() {
    assert!(matches!(check_concurrency(0), Err(RunError::ZeroConcurrency)));
    assert!(check_concurrency(10).is_ok());
    assert_eq!(RunError::ZeroConcurrency.message(), "--concurrency must be greater than zero");
    assert_eq!(RunError::NoDomains.message(), "input file contains no valid domains");
    let none = load_domains_from_lines(&vec!["# only a comment".to_string()]);
    assert!(matches!(check_domains_loaded(&none), Err(RunError::NoDomains)));
    let some = load_domains_from_lines(&vec!["example.com".to_string()]);
    assert!(check_domains_loaded(&some).is_ok());
    assert_eq!(mode_label(Some("k")), "DQS");
    assert_eq!(mode_label(None), "Public DBL");
}
