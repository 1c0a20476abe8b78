//! IPv4 addresses of DBL answers: their ordered, duplicate-free collection and
//! their dotted-decimal text.

use vstd::prelude::*;
use crate::text::string_from_chars;

verus! {

/// A DNS answer record, reduced to what the DBL check reads: the address of
/// an `A` record, or a record of any other type.
#[derive(Debug, Clone, Copy)]
pub enum DnsRecord {
    A(u32),
    Other,
}

/// The addresses of the `A` records of `records`, in answer order.
pub open spec fn a_addresses(records: Seq<DnsRecord>) -> Seq<u32>
    decreases records.len(),
{
    if records.len() == 0 {
        Seq::empty()
    } else {
        let prev = a_addresses(records.drop_last());
        match records.last() {
            DnsRecord::A(ip) => prev.push(ip),
            DnsRecord::Other => prev,
        }
    }
}

pub open spec fn strictly_increasing(r: Seq<u32>) -> bool {
    forall|i: int, j: int| 0 <= i < j < r.len() ==> r[i] < r[j]
}

/// `r` with `x` added at its place in ascending order, unless `r` already
/// holds it.
pub open spec fn insert_sorted(r: Seq<u32>, x: u32) -> Seq<u32>
    decreases r.len(),
{
    if r.len() == 0 {
        seq![x]
    } else if x < r[0] {
        seq![x] + r
    } else if x == r[0] {
        r
    } else {
        seq![r[0]] + insert_sorted(r.drop_first(), x)
    }
}

/// The values of `s` in ascending order, each once.
pub open spec fn sorted_unique(s: Seq<u32>) -> Seq<u32>
    decreases s.len(),
{
    if s.len() == 0 {
        Seq::empty()
    } else {
        insert_sorted(sorted_unique(s.drop_last()), s.last())
    }
}

pub proof fn lemma_insert_sorted(r: Seq<u32>, x: u32)
    requires
        strictly_increasing(r),
    ensures
        strictly_increasing(insert_sorted(r, x)),
        forall|y: u32| #[trigger] insert_sorted(r, x).contains(y) <==> (r.contains(y) || y == x),
    decreases r.len(),
{
    if r.len() == 0 {
        assert(insert_sorted(r, x) =~= seq![x]);
        assert forall|y: u32| insert_sorted(r, x).contains(y) <==> (r.contains(y) || y == x) by {
            if y == x {
                assert(insert_sorted(r, x)[0] == y);
            }
        }
    } else if x < r[0] {
        let t = seq![x] + r;
        assert forall|y: u32| t.contains(y) <==> (r.contains(y) || y == x) by {
            if t.contains(y) {
                let k = choose|k: int| 0 <= k < t.len() && t[k] == y;
                if k > 0 {
                    assert(r[k - 1] == y);
                }
            }
            if r.contains(y) {
                let k = choose|k: int| 0 <= k < r.len() && r[k] == y;
                assert(t[k + 1] == y);
            }
            if y == x {
                assert(t[0] == y);
            }
        }
    } else if x == r[0] {
    } else {
        let d = r.drop_first();
        lemma_insert_sorted(d, x);
        let rest = insert_sorted(d, x);
        let t = seq![r[0]] + rest;
        assert forall|y: u32| rest.contains(y) implies r[0] < y by {
            if d.contains(y) {
                let k = choose|k: int| 0 <= k < d.len() && d[k] == y;
                assert(r[k + 1] == y);
            }
        }
        assert forall|i: int, j: int| 0 <= i < j < t.len() implies t[i] < t[j] by {
            if i == 0 {
                assert(rest.contains(t[j]));
            }
        }
        assert forall|y: u32| t.contains(y) <==> (r.contains(y) || y == x) by {
            if t.contains(y) {
                let k = choose|k: int| 0 <= k < t.len() && t[k] == y;
                if k > 0 {
                    assert(rest.contains(y));
                    if d.contains(y) {
                        let m = choose|m: int| 0 <= m < d.len() && d[m] == y;
                        assert(r[m + 1] == y);
                    }
                } else {
                    assert(r[0] == y);
                }
            }
            if r.contains(y) {
                let k = choose|k: int| 0 <= k < r.len() && r[k] == y;
                if k == 0 {
                    assert(t[0] == y);
                } else {
                    assert(d[k - 1] == y);
                    assert(d.contains(y));
                    assert(rest.contains(y));
                    let m = choose|m: int| 0 <= m < rest.len() && rest[m] == y;
                    assert(t[m + 1] == y);
                }
            }
            if y == x {
                assert(rest.contains(y));
                let m = choose|m: int| 0 <= m < rest.len() && rest[m] == y;
                assert(t[m + 1] == y);
            }
        }
    }
}

/// The addresses of `s` in ascending order without repetition, holding
/// exactly the values that occur in `s`.
pub proof fn lemma_sorted_unique(s: Seq<u32>)
    ensures
        strictly_increasing(sorted_unique(s)),
        forall|y: u32| #[trigger] sorted_unique(s).contains(y) <==> s.contains(y),
    decreases s.len(),
{
    if s.len() > 0 {
        let p = s.drop_last();
        lemma_sorted_unique(p);
        lemma_insert_sorted(sorted_unique(p), s.last());
        assert forall|y: u32| sorted_unique(s).contains(y) <==> s.contains(y) by {
            if p.contains(y) {
                let k = choose|k: int| 0 <= k < p.len() && p[k] == y;
                assert(s[k] == y);
            }
            if s.contains(y) {
                let k = choose|k: int| 0 <= k < s.len() && s[k] == y;
                if k < s.len() - 1 {
                    assert(p[k] == y);
                }
            }
            if y == s.last() {
                assert(s[s.len() - 1] == y);
            }
        }
    }
}

proof fn lemma_insert_sorted_at(r: Seq<u32>, x: u32, p: int)
    requires
        strictly_increasing(r),
        0 <= p <= r.len(),
        forall|i: int| 0 <= i < p ==> r[i] < x,
        p < r.len() ==> x <= r[p],
    ensures
        insert_sorted(r, x) == (if p < r.len() && r[p] == x {
            r
        } else {
            r.insert(p, x)
        }),
    decreases r.len(),
{
    if p == 0 {
        if r.len() == 0 {
            assert(r.insert(0, x) =~= seq![x]);
        } else if x < r[0] {
            assert(r.insert(0, x) =~= seq![x] + r);
        }
    } else {
        let d = r.drop_first();
        assert(r[0] < x);
        lemma_insert_sorted_at(d, x, p - 1);
        if p < r.len() && r[p] == x {
            assert(d[p - 1] == x);
            assert(seq![r[0]] + d =~= r);
        } else {
            assert(seq![r[0]] + d.insert(p - 1, x) =~= r.insert(p, x));
        }
    }
}

/// Adds `x` to the ascending, duplicate-free `v` at its place, unless `v`
/// already holds it.
pub fn insert_address(v: &mut Vec<u32>, x: u32)
    requires
        strictly_increasing(old(v)@),
    ensures
        final(v)@ == insert_sorted(old(v)@, x),
{
    let mut p: usize = 0;
    while p < v.len() && v[p] < x
        invariant
            p <= v@.len(),
            forall|i: int| 0 <= i < p ==> v@[i] < x,
        decreases v@.len() - p,
    {
        p = p + 1;
    }
    proof {
        lemma_insert_sorted_at(v@, x, p as int);
    }
    if p < v.len() && v[p] == x {
    } else {
        v.insert(p, x);
    }
}

/// The addresses of the `A` records among `records`, ascending, each once.
pub fn sorted_addresses(records: &Vec<DnsRecord>) -> (r: Vec<u32>)
    ensures
        r@ == sorted_unique(a_addresses(records@)),
{
    let mut r: Vec<u32> = Vec::new();
    let mut i: usize = 0;
    while i < records.len()
        invariant
            i <= records@.len(),
            r@ == sorted_unique(a_addresses(records@.take(i as int))),
        decreases records@.len() - i,
    {
        let ghost prev = records@.take(i as int);
        let ghost next = records@.take(i + 1);
        assert(next.drop_last() =~= prev);
        proof {
            lemma_sorted_unique(a_addresses(prev));
        }
        match records[i] {
            DnsRecord::A(ip) => {
                assert(a_addresses(next).drop_last() =~= a_addresses(prev));
                insert_address(&mut r, ip);
            },
            DnsRecord::Other => {},
        }
        i = i + 1;
    }
    assert(records@.take(records@.len() as int) =~= records@);
    r
}

/// The character of decimal digit `d`.
pub open spec fn digit_char(d: u8) -> char {
    ((d + 48) as u8) as char
}

/// Decimal text of `n`, without leading zeros.
pub open spec fn decimal_text(n: u8) -> Seq<char> {
    if n < 10 {
        seq![digit_char(n)]
    } else if n < 100 {
        seq![digit_char(n / 10), digit_char(n % 10)]
    } else {
        seq![digit_char(n / 100), digit_char((n / 10) % 10), digit_char(n % 10)]
    }
}

/// The four octets of an address, most significant first.
pub open spec fn octet(ip: u32, k: int) -> u8 {
    if k == 0 {
        (ip / 16777216) as u8
    } else if k == 1 {
        ((ip / 65536) % 256) as u8
    } else if k == 2 {
        ((ip / 256) % 256) as u8
    } else {
        (ip % 256) as u8
    }
}

/// Dotted-decimal text of an IPv4 address, as `Ipv4Addr` displays it.
pub open spec fn ipv4_text(ip: u32) -> Seq<char> {
    decimal_text(octet(ip, 0)) + "."@ + decimal_text(octet(ip, 1)) + "."@ + decimal_text(
        octet(ip, 2),
    ) + "."@ + decimal_text(octet(ip, 3))
}

fn push_decimal(out: &mut Vec<char>, n: u8)
    ensures
        final(out)@ == old(out)@ + decimal_text(n),
{
    if n < 10 {
        out.push((n + 48) as char);
    } else if n < 100 {
        out.push((n / 10 + 48) as char);
        out.push((n % 10 + 48) as char);
    } else {
        out.push((n / 100 + 48) as char);
        out.push(((n / 10) % 10 + 48) as char);
        out.push((n % 10 + 48) as char);
    }
    assert(final(out)@ =~= old(out)@ + decimal_text(n));
}

/// Dotted-decimal text of an IPv4 address.
pub fn ipv4_to_text(ip: u32) -> (r: String)
    ensures
        r@ == ipv4_text(ip),
{
    let mut v: Vec<char> = Vec::new();
    push_decimal(&mut v, (ip / 16777216) as u8);
    v.push('.');
    push_decimal(&mut v, ((ip / 65536) % 256) as u8);
    v.push('.');
    push_decimal(&mut v, ((ip / 256) % 256) as u8);
    v.push('.');
    push_decimal(&mut v, (ip % 256) as u8);
    proof {
        reveal_strlit(".");
    }
    assert(v@ =~= ipv4_text(ip));
    string_from_chars(v.as_slice())
}

} // verus!
