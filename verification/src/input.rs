//! Normalization of the entries of a domain list: plain domains, mailbox
//! addresses and URL or host forms all become the domain to query; IP
//! addresses are rejected.

use vstd::prelude::*;
use crate::ordering::{insert_text_sorted, lemma_sorted_texts, sorted_texts};
use crate::host::{host_parse_of, parse_host, parsed_host_value, url_host, url_host_of, ParsedHost};
use crate::text::{
    views_of, chars_between, chars_of, count_lead, find_last, has_char, contains_char, in_set,
    lemma_lead_len, lemma_last_index_of, lemma_trim_untouched, last_index_of, lead_len,
    lower_ascii_of, string_from_chars, ascii_lower, to_ascii_lower, trail_len, trim, trim_end, trim_end_of,
    trim_of, trim_start, trim_start_of, CharSet,
};

verus! {

pub open spec fn opt_text(o: Option<String>) -> Option<Seq<char>> {
    match o {
        Some(s) => Some(s@),
        None => None,
    }
}

/// The entry with white space, a byte order mark, enclosing angle brackets
/// and quotes, and white space again removed from its ends.
pub open spec fn outer_text(input: Seq<char>) -> Seq<char> {
    trim(
        trim(trim_start(trim(input, CharSet::Space), CharSet::ByteOrderMark), CharSet::Quote),
        CharSet::Space,
    )
}

/// For a mailbox address, the part after the last `@`, trimmed; any other
/// text unchanged.
pub open spec fn mailbox_domain(c: Seq<char>) -> Seq<char> {
    match last_index_of(c, '@') {
        Some(i) => trim(c.skip(i + 1), CharSet::Space),
        None => c,
    }
}

/// Whether `c` holds `://`.
pub open spec fn has_scheme_separator(c: Seq<char>) -> bool {
    exists|i: int| 0 <= i && i + 3 <= c.len() && #[trigger] c[i] == ':' && c[i + 1] == '/' && c[
        i + 2
    ] == '/'
}

/// `c` without the repeated `//` at its start.
pub open spec fn strip_leading_slashes(c: Seq<char>) -> Seq<char>
    decreases c.len(),
{
    if c.len() >= 2 && c[0] == '/' && c[1] == '/' {
        strip_leading_slashes(c.skip(2))
    } else {
        c
    }
}

/// The part of `c` before its first `/`, `?` or `#`.
pub open spec fn first_segment(c: Seq<char>) -> Seq<char> {
    c.take(lead_len(c, CharSet::NonDelimiter) as int)
}

pub open spec fn is_digit(c: char) -> bool {
    '0' <= c && c <= '9'
}

/// The value of a text of decimal digits.
pub open spec fn decimal_value(d: Seq<char>) -> nat
    decreases d.len(),
{
    if d.len() == 0 {
        0
    } else {
        decimal_value(d.drop_last()) * 10 + ((d.last() as nat) - 48) as nat
    }
}

/// The digits of a port text: without one leading `+`.
pub open spec fn port_digits(p: Seq<char>) -> Seq<char> {
    if p.len() > 0 && p[0] == '+' {
        p.drop_first()
    } else {
        p
    }
}

/// Whether `p` parses as a `u16`: an optional `+` and at least one decimal
/// digit, of value at most 65535.
pub open spec fn is_port(p: Seq<char>) -> bool {
    let d = port_digits(p);
    &&& d.len() > 0
    &&& forall|i: int| 0 <= i < d.len() ==> is_digit(#[trigger] d[i])
    &&& decimal_value(d) <= 65535
}

/// `c` without a `:port` suffix: the part before the last `:`, when that part
/// holds no other `:` and the rest is a port.
pub open spec fn without_port(c: Seq<char>) -> Seq<char> {
    match last_index_of(c, ':') {
        Some(i) => if !has_char(c.take(i), ':') && is_port(c.skip(i + 1)) {
            c.take(i)
        } else {
            c
        },
        None => c,
    }
}

/// Where the host of an entry is: in a URL, which the `url` crate parses, or
/// in the text itself.
#[derive(Debug, Clone)]
pub enum HostSource {
    Url(String),
    Plain(String),
}

pub open spec fn source_value(s: HostSource) -> (bool, Seq<char>) {
    match s {
        HostSource::Url(t) => (true, t@),
        HostSource::Plain(t) => (false, t@),
    }
}

/// The text in which an entry names its host, and whether it is a URL;
/// `None` for an entry that is empty after trimming.
pub open spec fn candidate_of(input: Seq<char>) -> Option<(bool, Seq<char>)> {
    let c0 = outer_text(input);
    if c0.len() == 0 {
        None
    } else {
        let c1 = mailbox_domain(c0);
        if has_scheme_separator(c1) {
            Some((true, c1))
        } else {
            Some((false, without_port(first_segment(strip_leading_slashes(c1)))))
        }
    }
}

/// A host text with white space, angle brackets, quotes, `,` and `;` removed
/// from its ends, trailing dots removed, and ASCII letters in lower case;
/// `None` if nothing is left.
pub open spec fn cleaned_host(c: Seq<char>) -> Option<Seq<char>> {
    let d = to_ascii_lower(
        trim_end(trim(trim(c, CharSet::Space), CharSet::SpaceOrPunct), CharSet::Dot),
    );
    if d.len() == 0 {
        None
    } else {
        Some(d)
    }
}

/// The domain that a parsed host names; `None` for an IP address or a
/// rejection.
pub open spec fn host_domain_value(h: Option<Option<Seq<char>>>) -> Option<Seq<char>> {
    match h {
        Some(Some(d)) => Some(d),
        _ => None,
    }
}

/// The domain of a host text: cleaned, then parsed as a host.
pub open spec fn host_text_domain(c: Seq<char>) -> Option<Seq<char>> {
    match cleaned_host(c) {
        Some(d) => host_domain_value(host_parse_of(d)),
        None => None,
    }
}

/// The domain to query for an entry of the list, or `None` for an invalid
/// entry.
pub open spec fn normalized(input: Seq<char>) -> Option<Seq<char>> {
    match candidate_of(input) {
        None => None,
        Some((true, c)) => match url_host_of(c) {
            Some(h) => host_text_domain(h),
            None => None,
        },
        Some((false, c)) => host_text_domain(c),
    }
}

fn has_scheme_separator_of(v: &Vec<char>) -> (r: bool)
    ensures
        r == has_scheme_separator(v@),
{
    let mut i: usize = 0;
    while v.len() >= 3 && i <= v.len() - 3
        invariant
            forall|j: int|
                0 <= j < i && j + 3 <= v@.len() ==> !(#[trigger] v@[j] == ':' && v@[j + 1] == '/'
                    && v@[j + 2] == '/'),
        decreases v@.len() - i,
    {
        if v[i] == ':' && v[i + 1] == '/' && v[i + 2] == '/' {
            return true;
        }
        i = i + 1;
    }
    false
}

fn strip_leading_slashes_of(v: &Vec<char>) -> (r: Vec<char>)
    ensures
        r@ == strip_leading_slashes(v@),
{
    let mut i: usize = 0;
    assert(v@.skip(0) =~= v@);
    while i < v.len() && i + 1 < v.len() && v[i] == '/' && v[i + 1] == '/'
        invariant
            i <= v@.len(),
            strip_leading_slashes(v@) == strip_leading_slashes(v@.skip(i as int)),
        decreases v@.len() - i,
    {
        assert(v@.skip(i as int).skip(2) =~= v@.skip(i + 2));
        assert(v@.skip(i as int)[0] == v@[i as int]);
        assert(v@.skip(i as int)[1] == v@[i + 1]);
        i = i + 2;
    }
    proof {
        let s = v@.skip(i as int);
        if s.len() >= 2 {
            assert(s[0] == v@[i as int]);
            assert(s[1] == v@[i + 1]);
        }
    }
    chars_between(v, i, v.len())
}

fn first_segment_of(v: &Vec<char>) -> (r: Vec<char>)
    ensures
        r@ == first_segment(v@),
{
    let k = count_lead(v, CharSet::NonDelimiter);
    proof {
        lemma_lead_len(v@, CharSet::NonDelimiter);
    }
    chars_between(v, 0, k)
}

proof fn lemma_decimal_value_grows(d: Seq<char>, k: int)
    requires
        0 <= k <= d.len(),
    ensures
        decimal_value(d.take(k)) <= decimal_value(d),
    decreases d.len(),
{
    if k < d.len() {
        lemma_decimal_value_grows(d.drop_last(), k);
        assert(d.drop_last().take(k) =~= d.take(k));
    } else {
        assert(d.take(k) =~= d);
    }
}

/// Whether `v[from..]` parses as a `u16`.
fn is_port_of(v: &Vec<char>, from: usize) -> (r: bool)
    requires
        from <= v@.len(),
    ensures
        r == is_port(v@.skip(from as int)),
{
    let ghost p = v@.skip(from as int);
    let start = if from < v.len() && v[from] == '+' {
        from + 1
    } else {
        from
    };
    let ghost d = port_digits(p);
    assert(d =~= v@.skip(start as int));
    if start == v.len() {
        return false;
    }
    let mut value: u32 = 0;
    let mut i: usize = start;
    while i < v.len()
        invariant
            start <= i <= v@.len(),
            p == v@.skip(from as int),
            d == port_digits(p),
            d == v@.skip(start as int),
            forall|j: int| 0 <= j < i - start ==> is_digit(#[trigger] d[j]),
            value == decimal_value(d.take(i - start)),
            value <= 65535,
        decreases v@.len() - i,
    {
        let c = v[i];
        if !('0' <= c && c <= '9') {
            assert(d[i - start] == c);
            assert(!is_digit(d[i - start]));
            assert(!is_port(p));
            return false;
        }
        proof {
            assert(d.take(i - start + 1).drop_last() =~= d.take(i - start));
            assert(d[i - start] == c);
            assert(d.take(i - start + 1).last() == c);
        }
        value = value * 10 + ((c as u32) - 48);
        assert(value == decimal_value(d.take(i - start + 1)));
        if value > 65535 {
            proof {
                lemma_decimal_value_grows(d, i - start + 1);
            }
            return false;
        }
        i = i + 1;
    }
    assert(d.take(i - start) =~= d);
    true
}

fn without_port_of(v: Vec<char>) -> (r: Vec<char>)
    ensures
        r@ == without_port(v@),
{
    match find_last(&v, ':') {
        None => v,
        Some(i) => {
            proof {
                lemma_last_index_of(v@, ':');
            }
            assert(i < v.len());
            let port_start = i + 1;
            let host = chars_between(&v, 0, i);
            if !contains_char(&host, ':') && is_port_of(&v, port_start) {
                host
            } else {
                v
            }
        },
    }
}

/// The text in which an entry names its host, and whether that text is a
/// URL (it holds `://`). `None` for an entry that is empty after trimming.
pub fn extract_candidate(input: &str) -> (r: Option<HostSource>)
    ensures
        match r {
            Some(s) => candidate_of(input@) == Some(source_value(s)),
            None => candidate_of(input@) is None,
        },
{
    let v = chars_of(input);
    let v = trim_of(&v, CharSet::Space);
    let v = trim_start_of(&v, CharSet::ByteOrderMark);
    let v = trim_of(&v, CharSet::Quote);
    let c0 = trim_of(&v, CharSet::Space);
    if c0.len() == 0 {
        return None;
    }
    let c1 = match find_last(&c0, '@') {
        Some(i) => {
            proof {
                lemma_last_index_of(c0@, '@');
            }
            let part = chars_between(&c0, i + 1, c0.len());
            assert(part@ == c0@.skip(i + 1));
            trim_of(&part, CharSet::Space)
        },
        None => c0,
    };
    if has_scheme_separator_of(&c1) {
        Some(HostSource::Url(string_from_chars(c1.as_slice())))
    } else {
        let c2 = strip_leading_slashes_of(&c1);
        let c3 = first_segment_of(&c2);
        let c4 = without_port_of(c3);
        Some(HostSource::Plain(string_from_chars(c4.as_slice())))
    }
}

/// A host text cleaned for the host parser: trimmed of white space, angle
/// brackets, quotes, `,` and `;`, without trailing dots, in ASCII lower case.
/// `None` if nothing is left.
pub fn clean_host_text(candidate: &str) -> (r: Option<String>)
    ensures
        opt_text(r) == cleaned_host(candidate@),
{
    let v = chars_of(candidate);
    let v = trim_of(&v, CharSet::Space);
    let v = trim_of(&v, CharSet::SpaceOrPunct);
    let v = trim_end_of(&v, CharSet::Dot);
    let d = lower_ascii_of(&v);
    if d.len() == 0 {
        None
    } else {
        Some(string_from_chars(d.as_slice()))
    }
}

/// The domain that a parsed host names: `None` for an IP address or a
/// rejected host.
pub fn domain_from_host(host: ParsedHost) -> (r: Option<String>)
    ensures
        opt_text(r) == host_domain_value(parsed_host_value(host)),
        r matches Some(d) ==> (host matches ParsedHost::Domain(h) && h == d),
{
    match host {
        ParsedHost::Domain(d) => Some(d),
        ParsedHost::Address => None,
        ParsedHost::Invalid => None,
    }
}

/// The domain of a host text: cleaned by `clean_host_text`, then parsed by
/// the `url` crate's host parser; only a domain is kept.
pub fn host_text_to_domain(candidate: &str) -> (r: Option<String>)
    ensures
        opt_text(r) == host_text_domain(candidate@),
        r matches Some(d) ==> d@.len() > 0,
{
    match clean_host_text(candidate) {
        None => None,
        Some(d) => {
            let parsed = parse_host(d.as_str());
            domain_from_host(parsed)
        },
    }
}

/// The domain to query for one entry of a domain list, or `None` when the
/// entry names no domain (it is empty, an IP address, or not a valid host).
pub fn normalize_domain(input: &str) -> (r: Option<String>)
    ensures
        opt_text(r) == normalized(input@),
        r matches Some(d) ==> d@.len() > 0,
{
    match extract_candidate(input) {
        None => None,
        Some(HostSource::Url(c)) => match url_host(c.as_str()) {
            None => None,
            Some(h) => host_text_to_domain(h.as_str()),
        },
        Some(HostSource::Plain(c)) => host_text_to_domain(c.as_str()),
    }
}

/// Counts and the sorted, duplicate-free domains of a domain list.
#[derive(Debug)]
pub struct DomainLoadResult {
    pub domains: Vec<String>,
    pub total_lines: usize,
    pub accepted_entries: usize,
    pub duplicates_removed: usize,
    pub invalid_entries: usize,
}

/// The entry of a line: the line without surrounding white space and a
/// leading byte order mark; `None` for a blank line or a `#` comment.
pub open spec fn line_entry(raw: Seq<char>) -> Option<Seq<char>> {
    let t = trim_start(trim(raw, CharSet::Space), CharSet::ByteOrderMark);
    if t.len() == 0 || t[0] == '#' {
        None
    } else {
        Some(t)
    }
}

/// The domains of the valid entries of `lines`, in line order, repetitions
/// included.
pub open spec fn accepted_domains(lines: Seq<Seq<char>>) -> Seq<Seq<char>>
    decreases lines.len(),
{
    if lines.len() == 0 {
        Seq::empty()
    } else {
        let prev = accepted_domains(lines.drop_last());
        match line_entry(lines.last()) {
            Some(t) => match normalized(t) {
                Some(d) => prev.push(d),
                None => prev,
            },
            None => prev,
        }
    }
}

/// The number of entries of `lines` that name no domain.
pub open spec fn invalid_count(lines: Seq<Seq<char>>) -> nat
    decreases lines.len(),
{
    if lines.len() == 0 {
        0
    } else {
        let prev = invalid_count(lines.drop_last());
        match line_entry(lines.last()) {
            Some(t) => if normalized(t) is None {
                prev + 1
            } else {
                prev
            },
            None => prev,
        }
    }
}

/// The entries of `lines` that name no domain, each with its line number
/// (counted from 1), in line order.
pub open spec fn rejected_entries(lines: Seq<Seq<char>>) -> Seq<(int, Seq<char>)>
    decreases lines.len(),
{
    if lines.len() == 0 {
        Seq::empty()
    } else {
        let prev = rejected_entries(lines.drop_last());
        match line_entry(lines.last()) {
            Some(t) => if normalized(t) is None {
                prev.push((lines.len() as int, t))
            } else {
                prev
            },
            None => prev,
        }
    }
}

/// An entry of a domain list that names no domain.
#[derive(Debug, Clone)]
pub struct InvalidEntry {
    /// The line number, counted from 1.
    pub line: usize,
    /// The entry, trimmed.
    pub text: String,
}

pub open spec fn rejected_view(v: Seq<InvalidEntry>) -> Seq<(int, Seq<char>)> {
    v.map_values(|e: InvalidEntry| (e.line as int, e.text@))
}

pub open spec fn texts_of(v: Seq<Vec<char>>) -> Seq<Seq<char>> {
    v.map_values(|t: Vec<char>| t@)
}

proof fn lemma_counts_bounded(lines: Seq<Seq<char>>)
    ensures
        accepted_domains(lines).len() + invalid_count(lines) <= lines.len(),
    decreases lines.len(),
{
    if lines.len() > 0 {
        lemma_counts_bounded(lines.drop_last());
    }
}

/// What loading a domain list promises: the domains are in ascending order
/// without repetition, they are exactly the domains of the valid entries,
/// the duplicates removed and the distinct domains add up to the valid
/// entries, and valid and invalid entries together are at most the lines.
pub proof fn lemma_loaded_domains(lines: Seq<Seq<char>>)
    ensures
        crate::ordering::ascending(sorted_texts(accepted_domains(lines))),
        forall|d: Seq<char>| #[trigger]
            sorted_texts(accepted_domains(lines)).contains(d) <==> accepted_domains(
                lines,
            ).contains(d),
        sorted_texts(accepted_domains(lines)).len() <= accepted_domains(lines).len(),
        accepted_domains(lines).len() + invalid_count(lines) <= lines.len(),
{
    lemma_sorted_texts(accepted_domains(lines));
    lemma_counts_bounded(lines);
}

/// Blank lines and `#` comments change nothing: no domain, no count.
pub proof fn lemma_skipped_lines_ignored(lines: Seq<Seq<char>>, raw: Seq<char>)
    requires
        line_entry(raw) is None,
    ensures
        accepted_domains(lines.push(raw)) == accepted_domains(lines),
        invalid_count(lines.push(raw)) == invalid_count(lines),
        rejected_entries(lines.push(raw)) == rejected_entries(lines),
{
    assert(lines.push(raw).drop_last() =~= lines);
}

/// A host that the host parser reads as an IPv4 or IPv6 address is never
/// taken as a domain: the DBL lists domains only.
pub proof fn lemma_addresses_rejected(c: Seq<char>, d: Seq<char>)
    requires
        cleaned_host(c) == Some(d),
        host_parse_of(d) == Some(None::<Seq<char>>),
    ensures
        host_text_domain(c) is None,
{
}

/// A character that the trimming of an entry never removes: no white space,
/// byte order mark, angle bracket or quote.
pub open spec fn kept_char(c: char) -> bool {
    !in_set(CharSet::Space, c) && !in_set(CharSet::ByteOrderMark, c) && !in_set(CharSet::Quote, c)
}

/// A character of a host name in its usual form: a small ASCII letter, a
/// digit, `-` or `.`.
pub open spec fn is_host_name_char(c: char) -> bool {
    ('a' <= c && c <= 'z') || is_digit(c) || c == '-' || c == '.'
}

proof fn lemma_outer_text_untouched(s: Seq<char>)
    requires
        forall|i: int| 0 <= i < s.len() ==> kept_char(#[trigger] s[i]),
    ensures
        outer_text(s) == s,
{
    lemma_trim_untouched(s, CharSet::Space);
    lemma_trim_untouched(s, CharSet::ByteOrderMark);
    lemma_trim_untouched(s, CharSet::Quote);
}

/// In a mailbox address the host text is the part after the last `@`,
/// trimmed, whatever stands before that `@`, nothing included.
pub proof fn lemma_mailbox_domain_after_last_at(c: Seq<char>, i: int)
    requires
        0 <= i < c.len(),
        c[i] == '@',
        forall|j: int| i < j < c.len() ==> #[trigger] c[j] != '@',
    ensures
        mailbox_domain(c) == trim(c.skip(i + 1), CharSet::Space),
{
    lemma_last_index_of(c, '@');
    match last_index_of(c, '@') {
        Some(k) => {
            if k < i {
                assert(c[i] != '@');
            } else if k > i {
                assert(c[k] != '@');
            }
        },
        None => {
            assert(c[i] != '@');
        },
    }
}

/// An address is normalized as its domain part alone would be: the local
/// part, empty or not, never changes the domain that is queried.
pub proof fn lemma_local_part_ignored(local: Seq<char>, domain: Seq<char>)
    requires
        domain.len() > 0,
        forall|i: int| 0 <= i < local.len() ==> kept_char(#[trigger] local[i]),
        forall|i: int| 0 <= i < domain.len() ==> kept_char(#[trigger] domain[i]) && domain[i] != '@',
    ensures
        normalized(local + seq!['@'] + domain) == normalized(domain),
{
    let x = local + seq!['@'] + domain;
    let n = local.len() as int;
    assert forall|i: int| 0 <= i < x.len() implies kept_char(#[trigger] x[i]) by {
        if i < n {
            assert(x[i] == local[i]);
        } else if i > n {
            assert(x[i] == domain[i - n - 1]);
        } else {
            assert(x[i] == '@');
        }
    }
    lemma_outer_text_untouched(x);
    lemma_outer_text_untouched(domain);
    assert forall|j: int| n < j < x.len() implies #[trigger] x[j] != '@' by {
        assert(x[j] == domain[j - n - 1]);
    }
    assert(x[n] == '@');
    lemma_mailbox_domain_after_last_at(x, n);
    assert(x.skip(n + 1) =~= domain);
    assert forall|i: int| 0 <= i < domain.len() implies !in_set(
        CharSet::Space,
        #[trigger] domain[i],
    ) by {
        assert(kept_char(domain[i]));
    }
    lemma_trim_untouched(domain, CharSet::Space);
    lemma_last_index_of(domain, '@');
    assert(mailbox_domain(domain) == domain);
    assert(candidate_of(x) == candidate_of(domain));
}

/// A URL entry is normalized to the host of the URL with every label kept:
/// for a URL whose host is a lower-case ASCII name without a trailing dot,
/// the domain queried is what the host parser makes of that very name, and
/// it is the name itself where the parser keeps the name as it is.
pub proof fn lemma_url_host_kept(entry: Seq<char>, k: int, host: Seq<char>)
    requires
        0 <= k && k + 3 <= entry.len(),
        entry[k] == ':' && entry[k + 1] == '/' && entry[k + 2] == '/',
        forall|i: int| 0 <= i < entry.len() ==> kept_char(#[trigger] entry[i]) && entry[i] != '@',
        url_host_of(entry) == Some(host),
        host.len() > 0,
        host.last() != '.',
        forall|i: int| 0 <= i < host.len() ==> is_host_name_char(#[trigger] host[i]),
    ensures
        normalized(entry) == host_domain_value(host_parse_of(host)),
        host_parse_of(host) == Some(Some(host)) ==> normalized(entry) == Some(host),
{
    lemma_outer_text_untouched(entry);
    lemma_last_index_of(entry, '@');
    assert(mailbox_domain(entry) == entry);
    assert(has_scheme_separator(entry));
    assert forall|i: int| 0 <= i < host.len() implies !in_set(CharSet::Space, #[trigger] host[i])
        && !in_set(CharSet::SpaceOrPunct, host[i]) && ascii_lower(host[i]) == host[i] by {
        assert(is_host_name_char(host[i]));
    }
    lemma_trim_untouched(host, CharSet::Space);
    lemma_trim_untouched(host, CharSet::SpaceOrPunct);
    assert(trail_len(host, CharSet::Dot) == 0);
    assert(host.take(host.len() as int) =~= host);
    assert(to_ascii_lower(host) =~= host);
    assert(cleaned_host(host) == Some(host));
}

/// The text of a line with white space around it and a leading byte order
/// mark removed.
pub open spec fn trimmed_line(raw: Seq<char>) -> Seq<char> {
    trim_start(trim(raw, CharSet::Space), CharSet::ByteOrderMark)
}

/// A line whose trimmed text is not empty and does not begin with `#` is an
/// entry, wherever else a `#` stands in it: it is normalized and counted,
/// either its domain is accepted and kept in the loaded list, or it is
/// counted as invalid and reported under its line number.
pub proof fn lemma_entry_line_counted(lines: Seq<Seq<char>>, raw: Seq<char>)
    requires
        trimmed_line(raw).len() > 0,
        trimmed_line(raw)[0] != '#',
    ensures
        match normalized(trimmed_line(raw)) {
            Some(d) => {
                &&& accepted_domains(lines.push(raw)) == accepted_domains(lines).push(d)
                &&& invalid_count(lines.push(raw)) == invalid_count(lines)
                &&& rejected_entries(lines.push(raw)) == rejected_entries(lines)
                &&& sorted_texts(accepted_domains(lines.push(raw))).contains(d)
            },
            None => {
                &&& accepted_domains(lines.push(raw)) == accepted_domains(lines)
                &&& invalid_count(lines.push(raw)) == invalid_count(lines) + 1
                &&& rejected_entries(lines.push(raw)) == rejected_entries(lines).push(
                    ((lines.len() + 1) as int, trimmed_line(raw)),
                )
            },
        },
{
    let all = lines.push(raw);
    assert(all.drop_last() =~= lines);
    assert(all.last() == raw);
    lemma_sorted_texts(accepted_domains(all));
    if let Some(d) = normalized(trimmed_line(raw)) {
        let acc = accepted_domains(lines).push(d);
        assert(acc[acc.len() - 1] == d);
    }
}

fn chars_to_strings(v: &Vec<Vec<char>>) -> (r: Vec<String>)
    ensures
        views_of(r@) == texts_of(v@),
{
    let mut r: Vec<String> = Vec::new();
    let mut i: usize = 0;
    while i < v.len()
        invariant
            i <= v@.len(),
            r@.len() == i,
            views_of(r@) == texts_of(v@).take(i as int),
        decreases v@.len() - i,
    {
        let ghost before = r@;
        r.push(string_from_chars(v[i].as_slice()));
        assert(views_of(r@) =~= texts_of(v@).take(i + 1)) by {
            assert(r@ == before.push(r@[i as int]));
            assert(views_of(r@).drop_last() =~= views_of(before));
        }
        i = i + 1;
    }
    assert(texts_of(v@).take(v@.len() as int) =~= texts_of(v@));
    r
}

/// Reads a domain list given as its lines: blank lines and `#` comments are
/// skipped, every other line is normalized; the domains come out in
/// ascending order, each once.
pub fn load_domains_from_lines(lines: &Vec<String>) -> (r: DomainLoadResult)
    ensures
        r.total_lines == lines@.len(),
        r.accepted_entries == accepted_domains(views_of(lines@)).len(),
        r.invalid_entries == invalid_count(views_of(lines@)),
        views_of(r.domains@) == sorted_texts(accepted_domains(views_of(lines@))),
        r.duplicates_removed == r.accepted_entries - r.domains@.len(),
{
    let (r, _) = load_domain_lines(lines);
    r
}

/// `load_domains_from_lines`, together with the entries that name no domain.
pub fn load_domain_lines(lines: &Vec<String>) -> (out: (DomainLoadResult, Vec<InvalidEntry>))
    ensures
        out.0.total_lines == lines@.len(),
        out.0.accepted_entries == accepted_domains(views_of(lines@)).len(),
        out.0.invalid_entries == invalid_count(views_of(lines@)),
        views_of(out.0.domains@) == sorted_texts(accepted_domains(views_of(lines@))),
        out.0.duplicates_removed == out.0.accepted_entries - out.0.domains@.len(),
        rejected_view(out.1@) == rejected_entries(views_of(lines@)),
{
    let ghost all = views_of(lines@);
    let mut unique: Vec<Vec<char>> = Vec::new();
    let mut accepted: usize = 0;
    let mut invalid: usize = 0;
    let mut rejected: Vec<InvalidEntry> = Vec::new();
    let mut i: usize = 0;
    while i < lines.len()
        invariant
            all == views_of(lines@),
            i <= lines@.len(),
            accepted == accepted_domains(all.take(i as int)).len(),
            invalid == invalid_count(all.take(i as int)),
            rejected_view(rejected@) == rejected_entries(all.take(i as int)),
            texts_of(unique@) == sorted_texts(accepted_domains(all.take(i as int))),
        decreases lines@.len() - i,
    {
        let ghost prefix = all.take(i as int);
        let ghost next = all.take(i + 1);
        proof {
            assert(next.drop_last() =~= prefix);
            assert(next.last() == lines@[i as int]@);
            lemma_counts_bounded(prefix);
            lemma_sorted_texts(accepted_domains(prefix));
        }
        let raw = chars_of(lines[i].as_str());
        let t = trim_of(&raw, CharSet::Space);
        let t = trim_start_of(&t, CharSet::ByteOrderMark);
        if t.len() == 0 || t[0] == '#' {
        } else {
            let entry = string_from_chars(t.as_slice());
            match normalize_domain(entry.as_str()) {
                Some(domain) => {
                    accepted = accepted + 1;
                    let d = chars_of(domain.as_str());
                    insert_text_sorted(&mut unique, d);
                    assert(accepted_domains(next) =~= accepted_domains(prefix).push(d@));
                    assert(accepted_domains(prefix).push(d@).drop_last() =~= accepted_domains(prefix));
                    assert(sorted_texts(accepted_domains(next)) == crate::ordering::insert_text(
                        sorted_texts(accepted_domains(prefix)),
                        d@,
                    ));
                },
                None => {
                    invalid = invalid + 1;
                    let ghost before = rejected@;
                    rejected.push(InvalidEntry { line: i + 1, text: entry });
                    assert(rejected_view(rejected@) =~= rejected_view(before).push(
                        ((i + 1) as int, t@),
                    ));
                    assert(next.len() == i + 1);
                },
            }
        }
        i = i + 1;
    }
    assert(all.take(lines@.len() as int) =~= all);
    proof {
        lemma_sorted_texts(accepted_domains(all));
    }
    let domains = chars_to_strings(&unique);
    let result = DomainLoadResult {
        domains,
        total_lines: lines.len(),
        accepted_entries: accepted,
        duplicates_removed: accepted - unique.len(),
        invalid_entries: invalid,
    };
    (result, rejected)
}

} // verus!
