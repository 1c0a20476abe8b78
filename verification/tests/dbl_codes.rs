use db_guard::addresses::{ipv4_to_text, sorted_addresses, DnsRecord};
use db_guard::spamhaus::{classify_return_code, query_name, trim_space, DblCategory};

#[test]
fn classifies_listing_codes() {
    let listings = [
        ("127.0.1.2", DblCategory::Spam),
        ("127.0.1.4", DblCategory::Phishing),
        ("127.0.1.5", DblCategory::Malware),
        ("127.0.1.6", DblCategory::BotnetC2),
        ("127.0.1.102", DblCategory::AbusedLegitSpam),
        ("127.0.1.103", DblCategory::AbusedRedirector),
        ("127.0.1.104", DblCategory::AbusedLegitPhishing),
        ("127.0.1.105", DblCategory::AbusedLegitMalware),
        ("127.0.1.106", DblCategory::AbusedLegitBotnetC2),
    ];
    for (code, expected) in listings {
        let c = classify_return_code(code);
        assert_eq!(c, expected);
        assert!(c.is_listing());
        assert!(!c.is_error());
    }
}

#[test]
fn classifies_error_codes() {
    let errors = [
        ("127.0.1.255", DblCategory::IpQueryProhibited),
        ("127.255.255.252", DblCategory::DnsblNameError),
        ("127.255.255.254", DblCategory::PublicResolverError),
        ("127.255.255.255", DblCategory::QueryLimitExceeded),
    ];
    for (code, expected) in errors {
        let c = classify_return_code(code);
        assert_eq!(c, expected);
        assert!(c.is_error());
        assert!(!c.is_listing());
    }
}

#[test]
fn unknown_codes_carry_their_text() {
    let c = classify_return_code("127.255.255.253");
    assert_eq!(c, DblCategory::Unknown("127.255.255.253".into()));
    assert!(!c.is_listing());
    assert!(!c.is_error());
    assert_eq!(c.label(), "Unknown Spamhaus response");
    assert_eq!(classify_return_code(""), DblCategory::Unknown(String::new()));
    assert_eq!(classify_return_code("127.0.1.2 "), DblCategory::Unknown("127.0.1.2 ".into()));
}

#[test]
fn category_labels() {
    assert_eq!(DblCategory::Spam.label(), "Spam domain");
    assert_eq!(DblCategory::BotnetC2.label(), "Botnet C&C domain");
    assert_eq!(DblCategory::AbusedRedirector.label(), "Abused/spammed redirector domain");
    assert_eq!(DblCategory::AbusedLegitBotnetC2.label(), "Abused legitimate domain - Botnet C&C");
    assert_eq!(DblCategory::PublicResolverError.label(), "Query via public/open resolver");
    assert_eq!(DblCategory::QueryLimitExceeded.label(), "Query limit exceeded");
}

#[test]
fn query_names_for_public_zone_and_dqs() {
    assert_eq!(query_name("example.com", None), "example.com.dbl.spamhaus.org.");
    assert_eq!(
        query_name("example.com", Some(" KEY123 ")),
        "example.com.KEY123.dbl.dq.spamhaus.net."
    );
    assert_eq!(query_name("example.com", Some("  ")), "example.com.dbl.spamhaus.org.");
    assert_eq!(query_name("example.com", Some("")), "example.com.dbl.spamhaus.org.");
}

#[test]
fn trims_unicode_space() {
    assert_eq!(trim_space("\u{3000}\t a b \u{85}"), "a b");
    assert_eq!(trim_space("   "), "");
}

#[test]
fn address_text_is_dotted_decimal() {
    assert_eq!(ipv4_to_text(0x7f000102), "127.0.1.2");
    assert_eq!(ipv4_to_text(0x7fffffff), "127.255.255.255");
    assert_eq!(ipv4_to_text(0), "0.0.0.0");
    assert_eq!(ipv4_to_text(0x0a09630c), "10.9.99.12");
}

#[test]
fn addresses_are_sorted_and_deduplicated() {
    let records = vec![
        DnsRecord::A(0x7f000168),
        DnsRecord::Other,
        DnsRecord::A(0x7f000102),
        DnsRecord::A(0x7f000168),
        DnsRecord::A(0x7f000104),
    ];
    assert_eq!(sorted_addresses(&records), vec![0x7f000102, 0x7f000104, 0x7f000168]);
    assert!(sorted_addresses(&vec![DnsRecord::Other]).is_empty());
}
