//! What the report shows: the order of the results, the cells of each result
//! row, and the counts of the summary.

use vstd::prelude::*;
use crate::checker::{categories_text, status_text, CheckResult, CheckStatus};
use crate::ordering::{chars_less, lemma_lex_total, lemma_lex_transitive, lex_le, lex_lt};
use crate::text::{chars_of, join, join_strings, views_of};

verus! {

broadcast use vstd::seq_lib::to_multiset_insert;

/// The cells of one result row of the report.
#[derive(Debug, Clone)]
pub struct ReportRow {
    pub domain: String,
    pub status: String,
    pub category: String,
    pub return_codes: String,
    pub query: String,
    pub detail: String,
    /// The verdict, which decides the colour of the row.
    pub tone: CheckStatus,
}

/// The return-code column of a result: `-` for no code, the codes joined
/// with `; ` otherwise.
pub open spec fn codes_text(codes: Seq<Seq<char>>) -> Seq<char> {
    if codes.len() == 0 {
        "-"@
    } else {
        join(codes, "; "@)
    }
}

/// The cells of the report row of a result.
pub fn report_row(r: &CheckResult) -> (row: ReportRow)
    ensures
        row.domain@ == r.domain@,
        row.status@ == status_text(r.status),
        row.category@ == categories_text(r.categories@),
        row.return_codes@ == codes_text(views_of(r.return_codes@)),
        row.query@ == r.query@,
        row.detail@ == r.detail@,
        row.tone == r.status,
{
    let codes = if r.return_codes.len() == 0 {
        String::from_str("-")
    } else {
        join_strings(&r.return_codes, "; ")
    };
    ReportRow {
        domain: r.domain.clone(),
        status: String::from_str(r.status_label()),
        category: r.category_text(),
        return_codes: codes,
        query: r.query.clone(),
        detail: r.detail.clone(),
        tone: r.status,
    }
}

/// The report rows of `results`, in the same order.
pub fn report_rows(results: &Vec<CheckResult>) -> (rows: Vec<ReportRow>)
    ensures
        rows@.len() == results@.len(),
        forall|i: int|
            0 <= i < results@.len() ==> {
                let row = #[trigger] rows@[i];
                let r = results@[i];
                &&& row.domain@ == r.domain@
                &&& row.status@ == status_text(r.status)
                &&& row.category@ == categories_text(r.categories@)
                &&& row.return_codes@ == codes_text(views_of(r.return_codes@))
                &&& row.query@ == r.query@
                &&& row.detail@ == r.detail@
                &&& row.tone == r.status
            },
{
    let mut rows: Vec<ReportRow> = Vec::new();
    let mut i: usize = 0;
    while i < results.len()
        invariant
            i <= results@.len(),
            rows@.len() == i,
            forall|j: int|
                0 <= j < i ==> {
                    let row = #[trigger] rows@[j];
                    let r = results@[j];
                    &&& row.domain@ == r.domain@
                    &&& row.status@ == status_text(r.status)
                    &&& row.category@ == categories_text(r.categories@)
                    &&& row.return_codes@ == codes_text(views_of(r.return_codes@))
                    &&& row.query@ == r.query@
                    &&& row.detail@ == r.detail@
                    &&& row.tone == r.status
                },
        decreases results@.len() - i,
    {
        let row = report_row(&results[i]);
        rows.push(row);
        i = i + 1;
    }
    rows
}

/// The number of results in `rs` with verdict `s`.
pub open spec fn count_status(rs: Seq<CheckResult>, s: CheckStatus) -> nat
    decreases rs.len(),
{
    if rs.len() == 0 {
        0
    } else {
        count_status(rs.drop_last(), s) + if rs.last().status == s {
            1nat
        } else {
            0nat
        }
    }
}

/// The counts of the scan summary.
#[derive(Debug, Clone, Copy)]
pub struct ScanSummary {
    pub checked: usize,
    pub listed: usize,
    pub not_listed: usize,
    pub errors: usize,
}

/// The counts of the scan summary: all results, the listed ones, the ones
/// not listed, and the rest, which are the errors.
pub fn summarize_results(results: &Vec<CheckResult>) -> (s: ScanSummary)
    ensures
        s.checked == results@.len(),
        s.listed == count_status(results@, CheckStatus::Listed),
        s.not_listed == count_status(results@, CheckStatus::NotListed),
        s.errors == results@.len() - s.listed - s.not_listed,
{
    let mut listed: usize = 0;
    let mut clean: usize = 0;
    let mut i: usize = 0;
    while i < results.len()
        invariant
            i <= results@.len(),
            listed == count_status(results@.take(i as int), CheckStatus::Listed),
            clean == count_status(results@.take(i as int), CheckStatus::NotListed),
            listed + clean <= i,
        decreases results@.len() - i,
    {
        assert(results@.take(i + 1).drop_last() =~= results@.take(i as int));
        if results[i].is_listed() {
            listed = listed + 1;
        } else if results[i].is_not_listed() {
            clean = clean + 1;
        }
        i = i + 1;
    }
    assert(results@.take(results@.len() as int) =~= results@);
    ScanSummary {
        checked: results.len(),
        listed,
        not_listed: clean,
        errors: results.len() - listed - clean,
    }
}

/// Every result counts exactly once in the summary: as listed, as not
/// listed, or as an error.
pub proof fn lemma_counts_partition(rs: Seq<CheckResult>)
    ensures
        count_status(rs, CheckStatus::Listed) + count_status(rs, CheckStatus::NotListed)
            + count_status(rs, CheckStatus::Error) == rs.len(),
    decreases rs.len(),
{
    if rs.len() > 0 {
        lemma_counts_partition(rs.drop_last());
    }
}

/// `x` placed into `r` after every result whose domain does not come after
/// its own.
pub open spec fn insert_by_domain(r: Seq<CheckResult>, x: CheckResult) -> Seq<CheckResult>
    decreases r.len(),
{
    if r.len() == 0 {
        seq![x]
    } else if lex_lt(x.domain@, r[0].domain@) {
        seq![x] + r
    } else {
        seq![r[0]] + insert_by_domain(r.drop_first(), x)
    }
}

/// The results of `s` ordered by domain; results with equal domains keep
/// their order (a stable sort).
pub open spec fn sorted_by_domain(s: Seq<CheckResult>) -> Seq<CheckResult>
    decreases s.len(),
{
    if s.len() == 0 {
        Seq::empty()
    } else {
        insert_by_domain(sorted_by_domain(s.drop_last()), s.last())
    }
}

pub open spec fn domain_ordered(r: Seq<CheckResult>) -> bool {
    forall|i: int, j: int| 0 <= i < j < r.len() ==> lex_le(r[i].domain@, r[j].domain@)
}

proof fn lemma_insert_by_domain_position(r: Seq<CheckResult>, x: CheckResult)
    ensures
        exists|p: int| 0 <= p <= r.len() && insert_by_domain(r, x) == r.insert(p, x),
    decreases r.len(),
{
    if r.len() == 0 {
        assert(insert_by_domain(r, x) == r.insert(0, x));
    } else if lex_lt(x.domain@, r[0].domain@) {
        assert(insert_by_domain(r, x) == r.insert(0, x));
    } else {
        let d = r.drop_first();
        lemma_insert_by_domain_position(d, x);
        let p = choose|p: int| 0 <= p <= d.len() && insert_by_domain(d, x) == d.insert(p, x);
        assert(seq![r[0]] + d.insert(p, x) =~= r.insert(p + 1, x));
    }
}

proof fn lemma_insert_by_domain_ordered(r: Seq<CheckResult>, x: CheckResult)
    requires
        domain_ordered(r),
    ensures
        domain_ordered(insert_by_domain(r, x)),
    decreases r.len(),
{
    if r.len() == 0 {
    } else if lex_lt(x.domain@, r[0].domain@) {
        let t = seq![x] + r;
        assert forall|i: int, j: int| 0 <= i < j < t.len() implies lex_le(
            t[i].domain@,
            t[j].domain@,
        ) by {
            assert(t[j] == r[j - 1]);
            if i == 0 {
                assert(t[0] == x);
                if j > 1 {
                    assert(lex_le(r[0].domain@, r[j - 1].domain@));
                    if lex_lt(r[0].domain@, r[j - 1].domain@) {
                        lemma_lex_transitive(x.domain@, r[0].domain@, r[j - 1].domain@);
                    }
                }
            } else {
                assert(t[i] == r[i - 1]);
            }
        }
    } else {
        lemma_lex_total(x.domain@, r[0].domain@);
        let d = r.drop_first();
        lemma_insert_by_domain_ordered(d, x);
        lemma_insert_by_domain_position(d, x);
        let p = choose|p: int| 0 <= p <= d.len() && insert_by_domain(d, x) == d.insert(p, x);
        let rest = insert_by_domain(d, x);
        let t = seq![r[0]] + rest;
        assert forall|i: int, j: int| 0 <= i < j < t.len() implies lex_le(
            t[i].domain@,
            t[j].domain@,
        ) by {
            let k = j - 1;
            assert(t[j] == rest[k]);
            if i == 0 {
                assert(t[0] == r[0]);
                if k < p {
                    assert(rest[k] == d[k]);
                    assert(d[k] == r[k + 1]);
                } else if k > p {
                    assert(rest[k] == d[k - 1]);
                    assert(d[k - 1] == r[k]);
                } else {
                    assert(rest[k] == x);
                }
            } else {
                assert(t[i] == rest[i - 1]);
            }
        }
    }
}

/// `sorted_by_domain(s)` orders the results by domain and is a permutation of
/// `s`.
pub proof fn lemma_sorted_by_domain(s: Seq<CheckResult>)
    ensures
        domain_ordered(sorted_by_domain(s)),
        sorted_by_domain(s).to_multiset() == s.to_multiset(),
    decreases s.len(),
{
    if s.len() > 0 {
        let p = s.drop_last();
        lemma_sorted_by_domain(p);
        lemma_insert_by_domain_ordered(sorted_by_domain(p), s.last());
        lemma_insert_by_domain_position(sorted_by_domain(p), s.last());
        let q = choose|q: int|
            0 <= q <= sorted_by_domain(p).len() && insert_by_domain(sorted_by_domain(p), s.last())
                == sorted_by_domain(p).insert(q, s.last());
        assert(sorted_by_domain(p).insert(q, s.last()).to_multiset() == sorted_by_domain(
            p,
        ).to_multiset().insert(s.last()));
        vstd::seq_lib::to_multiset_build(p, s.last());
        assert(p.push(s.last()) =~= s);
        assert(sorted_by_domain(s) == insert_by_domain(sorted_by_domain(p), s.last()));
        assert(sorted_by_domain(s).to_multiset() =~= p.to_multiset().insert(s.last()));
        assert(s.to_multiset() =~= p.to_multiset().insert(s.last()));
    } else {
        assert(s =~= Seq::<CheckResult>::empty());
    }
}

proof fn lemma_insert_by_domain_at(r: Seq<CheckResult>, x: CheckResult, p: int)
    requires
        0 <= p <= r.len(),
        forall|i: int| 0 <= i < p ==> !lex_lt(x.domain@, #[trigger] r[i].domain@),
        p < r.len() ==> lex_lt(x.domain@, r[p].domain@),
    ensures
        insert_by_domain(r, x) == r.insert(p, x),
    decreases r.len(),
{
    if p == 0 {
        if r.len() == 0 {
            assert(r.insert(0, x) =~= seq![x]);
        } else {
            assert(r.insert(0, x) =~= seq![x] + r);
        }
    } else {
        let d = r.drop_first();
        assert forall|i: int| 0 <= i < p - 1 implies !lex_lt(x.domain@, #[trigger] d[i].domain@) by {
            assert(d[i] == r[i + 1]);
        }
        lemma_insert_by_domain_at(d, x, p - 1);
        assert(seq![r[0]] + d.insert(p - 1, x) =~= r.insert(p, x));
    }
}

/// The results ordered by domain, results with equal domains in their
/// original order.
pub fn order_by_domain(results: Vec<CheckResult>) -> (r: Vec<CheckResult>)
    ensures
        r@ == sorted_by_domain(results@),
{
    let mut out: Vec<CheckResult> = Vec::new();
    let mut keys: Vec<Vec<char>> = Vec::new();
    let mut rest = results;
    let ghost all = rest@;
    let ghost n = all.len();
    while rest.len() > 0
        invariant
            n == all.len(),
            rest@.len() <= n,
            rest@ == all.skip(n - rest@.len()),
            out@ == sorted_by_domain(all.take(n - rest@.len())),
            keys@.len() == out@.len(),
            forall|i: int| 0 <= i < keys@.len() ==> #[trigger] keys@[i]@ == out@[i].domain@,
            domain_ordered(out@),
        decreases rest@.len(),
    {
        let ghost k = n - rest@.len();
        let ghost before = rest@;
        let x = rest.remove(0);
        proof {
            assert(before[0] == all[k]);
            assert(rest@ =~= all.skip(n - rest@.len()));
            assert(all.take(k + 1).drop_last() =~= all.take(k));
            lemma_sorted_by_domain(all.take(k));
        }
        let key = chars_of(x.domain.as_str());
        let mut p: usize = out.len();
        while p > 0 && chars_less(&key, &keys[p - 1])
            invariant
                p <= out@.len(),
                keys@.len() == out@.len(),
                forall|i: int| 0 <= i < keys@.len() ==> #[trigger] keys@[i]@ == out@[i].domain@,
                key@ == x.domain@,
                domain_ordered(out@),
                forall|i: int| p <= i < out@.len() ==> lex_lt(x.domain@, #[trigger] out@[i].domain@),
            decreases p,
        {
            p = p - 1;
        }
        proof {
            assert forall|i: int| 0 <= i < p implies !lex_lt(x.domain@, #[trigger] out@[i].domain@) by {
                assert(keys@[p - 1]@ == out@[p - 1].domain@);
                let last = out@[p - 1].domain@;
                assert(!lex_lt(key@, keys@[p - 1]@));
                assert(!lex_lt(x.domain@, last));
                if i < p - 1 {
                    assert(lex_le(out@[i].domain@, last));
                    if lex_lt(out@[i].domain@, last) {
                        if lex_lt(x.domain@, out@[i].domain@) {
                            lemma_lex_transitive(x.domain@, out@[i].domain@, last);
                        }
                    }
                }
            }
            lemma_insert_by_domain_at(out@, x, p as int);
            lemma_insert_by_domain_ordered(out@, x);
        }
        out.insert(p, x);
        keys.insert(p, key);
        proof {
            assert(all.take(k + 1).last() == x);
            assert forall|i: int| 0 <= i < keys@.len() implies #[trigger] keys@[i]@ == out@[i].domain@ by {
                if i < p {
                } else if i > p {
                } else {
                }
            }
        }
    }
    assert(all.take(n as int) =~= all);
    out
}

} // verus!
