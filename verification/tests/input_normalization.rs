use db_guard::host::ParsedHost;
use db_guard::input::{
    clean_host_text, domain_from_host, extract_candidate, load_domains_from_lines,
    normalize_domain, HostSource,
};

#[test]
fn normalizes_plain_domains() {
    assert_eq!(normalize_domain("Example.COM."), Some("example.com".into()));
    assert_eq!(normalize_domain("envios.suantc.com"), Some("envios.suantc.com".into()));
}

#[test]
fn extracts_domain_from_email_address() {
    assert_eq!(
        normalize_domain("bounce-776092e70d5348f5e3bd65fbe069bed3@envios.suantc.com"),
        Some("envios.suantc.com".into())
    );
    assert_eq!(
        normalize_domain("<user@MAIL.Example.COM>"),
        Some("mail.example.com".into())
    );
}

#[test]
fn extracts_hostname_from_urls_and_ports() {
    assert_eq!(
        normalize_domain("https://Sub.Example.com/path?q=1"),
        Some("sub.example.com".into())
    );
    assert_eq!(
        normalize_domain("mail.example.com:443/path"),
        Some("mail.example.com".into())
    );
}

#[test]
fn rejects_ips() {
    assert_eq!(normalize_domain("1.2.3.4"), None);
}

fn plain(s: &str) -> Option<String> {
    match extract_candidate(s) {
        Some(HostSource::Plain(t)) => Some(t),
        _ => None,
    }
}

#[test]
fn candidate_of_empty_entries_is_none() {
    assert!(extract_candidate("").is_none());
    assert!(extract_candidate("   \t ").is_none());
    assert!(extract_candidate("\u{feff}").is_none());
    assert!(extract_candidate(" <\"'> ").is_none());
    assert_eq!(normalize_domain("<>"), None);
}

#[test]
fn candidate_of_url_keeps_the_whole_text() {
    match extract_candidate("  https://Sub.Example.com/path?q=1 ") {
        Some(HostSource::Url(t)) => assert_eq!(t, "https://Sub.Example.com/path?q=1"),
        other => panic!("unexpected {:?}", other),
    }
    match extract_candidate("bounce@https://x.org") {
        Some(HostSource::Url(t)) => assert_eq!(t, "https://x.org"),
        other => panic!("unexpected {:?}", other),
    }
}

#[test]
fn candidate_takes_text_after_last_at() {
    assert_eq!(plain("a@b@Host.Example"), Some("Host.Example".into()));
    assert_eq!(plain("user@ mail.example.com "), Some("mail.example.com".into()));
}

#[test]
fn candidate_strips_slashes_path_and_port() {
    assert_eq!(plain("//example.com/a/b"), Some("example.com".into()));
    assert_eq!(plain("////example.com?x#y"), Some("example.com".into()));
    assert_eq!(plain("example.com#frag"), Some("example.com".into()));
    assert_eq!(plain("example.com:8080"), Some("example.com".into()));
    assert_eq!(plain("example.com:+80"), Some("example.com".into()));
    assert_eq!(plain("example.com:0065535"), Some("example.com".into()));
}

#[test]
fn candidate_keeps_invalid_ports() {
    assert_eq!(plain("example.com:65536"), Some("example.com:65536".into()));
    assert_eq!(plain("example.com:"), Some("example.com:".into()));
    assert_eq!(plain("example.com:+"), Some("example.com:+".into()));
    assert_eq!(plain("example.com:-1"), Some("example.com:-1".into()));
    assert_eq!(plain("example.com:8a"), Some("example.com:8a".into()));
    assert_eq!(plain("a:b:80"), Some("a:b:80".into()));
}

#[test]
fn clean_host_text_trims_and_lowercases() {
    assert_eq!(clean_host_text(" <Mail.EXAMPLE.com>,; "), Some("mail.example.com".into()));
    assert_eq!(clean_host_text("example.com..."), Some("example.com".into()));
    assert_eq!(clean_host_text("ÄBC.de"), Some("Äbc.de".into()));
    assert_eq!(clean_host_text(" ... "), None);
    assert_eq!(clean_host_text(""), None);
}

#[test]
fn domain_from_host_keeps_only_domains() {
    assert_eq!(domain_from_host(ParsedHost::Domain("a.b".into())), Some("a.b".into()));
    assert_eq!(domain_from_host(ParsedHost::Address), None);
    assert_eq!(domain_from_host(ParsedHost::Invalid), None);
}

#[test]
fn normalize_rejects_ipv6_and_bad_hosts() {
    assert_eq!(normalize_domain("[::1]"), None);
    assert_eq!(normalize_domain("http://[::1]/"), None);
    assert_eq!(normalize_domain("http://127.0.0.1/"), None);
    assert_eq!(normalize_domain("example.com:99999"), None);
    assert_eq!(normalize_domain("exa mple.com"), None);
}

#[test]
fn normalize_handles_bom_quotes_and_urls() {
    assert_eq!(normalize_domain("\u{feff}Example.org"), Some("example.org".into()));
    assert_eq!(normalize_domain("'\"WWW.Example.org\"'"), Some("www.example.org".into()));
    assert_eq!(normalize_domain("ftp://user@Files.Example.net:21/x"), Some("files.example.net".into()));
    assert_eq!(normalize_domain("mailto:someone"), None);
}

fn lines(v: &[&str]) -> Vec<String> {
    v.iter().map(|s| s.to_string()).collect()
}

#[test]
fn load_counts_and_deduplicates() {
    let r = load_domains_from_lines(&lines(&[
        "example.com",
        "",
        "  # a comment",
        "bounce-1@Example.COM",
        "\u{feff}zeta.org",
        "1.2.3.4",
        "alpha.net",
        "   ",
        "https://example.com/x",
    ]));
    assert_eq!(r.total_lines, 9);
    assert_eq!(r.accepted_entries, 5);
    assert_eq!(r.invalid_entries, 1);
    assert_eq!(r.duplicates_removed, 2);
    assert_eq!(r.domains, vec!["alpha.net".to_string(), "example.com".into(), "zeta.org".into()]);
}

#[test]
fn load_of_no_lines_is_empty() {
    let r = load_domains_from_lines(&Vec::new());
    assert_eq!(r.total_lines, 0);
    assert_eq!(r.accepted_entries, 0);
    assert_eq!(r.invalid_entries, 0);
    assert_eq!(r.duplicates_removed, 0);
    assert!(r.domains.is_empty());
}

#[test]
fn load_orders_by_code_point() {
    let r = load_domains_from_lines(&lines(&["b.com", "a-b.com", "a.com", "ab.com", "a.com"]));
    assert_eq!(
        r.domains,
        vec!["a-b.com".to_string(), "a.com".into(), "ab.com".into(), "b.com".into()]
    );
    assert_eq!(r.duplicates_removed, 1);
}

#[test]
fn normalize_applies_idna_to_unicode_domains() {
    assert_eq!(normalize_domain("Bücher.DE"), Some("xn--bcher-kva.de".into()));
    assert_eq!(normalize_domain("http://Bücher.de/"), Some("xn--bcher-kva.de".into()));
}

#[test]
fn load_ignores_blank_and_comment_lines() {
    let base = load_domains_from_lines(&lines(&["example.com", "bad entry"]));
    let more = load_domains_from_lines(&lines(&["", "example.com", "# note", "bad entry", " \t", "\u{feff}#x"]));
    assert_eq!(base.domains, more.domains);
    assert_eq!(base.accepted_entries, more.accepted_entries);
    assert_eq!(base.invalid_entries, more.invalid_entries);
    assert_eq!(more.total_lines, 6);
}

#[test]
fn load_reports_rejected_lines() {
    let (r, rejected) = db_guard::input::load_domain_lines(&lines(&["ok.com", " 10.0.0.1 ", "#c", "bad entry"]));
    assert_eq!(r.invalid_entries, 2);
    assert_eq!(rejected.len(), 2);
    assert_eq!((rejected[0].line, rejected[0].text.as_str()), (2, "10.0.0.1"));
    assert_eq!((rejected[1].line, rejected[1].text.as_str()), (4, "bad entry"));
}
