//! The lexicographic order of texts (the order of `String`, since UTF-8 keeps
//! the order of code points) and ordered, duplicate-free collections of texts.

use vstd::prelude::*;

verus! {

/// `a` comes strictly before `b` in lexicographic order of code points.
pub open spec fn lex_lt(a: Seq<char>, b: Seq<char>) -> bool
    decreases a.len(),
{
    if a.len() == 0 {
        b.len() > 0
    } else if b.len() == 0 {
        false
    } else if a[0] < b[0] {
        true
    } else if a[0] == b[0] {
        lex_lt(a.drop_first(), b.drop_first())
    } else {
        false
    }
}

/// `a` comes before `b` or equals it.
pub open spec fn lex_le(a: Seq<char>, b: Seq<char>) -> bool {
    lex_lt(a, b) || a == b
}

pub proof fn lemma_lex_irreflexive(a: Seq<char>)
    ensures
        !lex_lt(a, a),
    decreases a.len(),
{
    if a.len() > 0 {
        lemma_lex_irreflexive(a.drop_first());
    }
}

pub proof fn lemma_lex_transitive(a: Seq<char>, b: Seq<char>, c: Seq<char>)
    requires
        lex_lt(a, b),
        lex_lt(b, c),
    ensures
        lex_lt(a, c),
    decreases a.len(),
{
    if a.len() > 0 && b.len() > 0 && c.len() > 0 && a[0] == b[0] && b[0] == c[0] {
        lemma_lex_transitive(a.drop_first(), b.drop_first(), c.drop_first());
    }
}

pub proof fn lemma_lex_total(a: Seq<char>, b: Seq<char>)
    ensures
        lex_lt(a, b) || lex_lt(b, a) || a == b,
    decreases a.len(),
{
    if a.len() > 0 && b.len() > 0 && a[0] == b[0] {
        lemma_lex_total(a.drop_first(), b.drop_first());
        if a.drop_first() == b.drop_first() {
            assert(a =~= seq![a[0]] + a.drop_first());
            assert(b =~= seq![b[0]] + b.drop_first());
        }
    } else if a.len() == 0 && b.len() == 0 {
        assert(a =~= b);
    }
}

pub proof fn lemma_lex_asymmetric(a: Seq<char>, b: Seq<char>)
    requires
        lex_lt(a, b),
    ensures
        !lex_lt(b, a),
        a != b,
{
    if lex_lt(b, a) {
        lemma_lex_transitive(a, b, a);
        lemma_lex_irreflexive(a);
    }
    lemma_lex_irreflexive(a);
}

proof fn lemma_lex_common_prefix(a: Seq<char>, b: Seq<char>, k: int)
    requires
        0 <= k <= a.len(),
        k <= b.len(),
        forall|i: int| 0 <= i < k ==> a[i] == b[i],
    ensures
        lex_lt(a, b) == lex_lt(a.skip(k), b.skip(k)),
    decreases k,
{
    if k > 0 {
        lemma_lex_common_prefix(a.drop_first(), b.drop_first(), k - 1);
        assert(a.drop_first().skip(k - 1) =~= a.skip(k));
        assert(b.drop_first().skip(k - 1) =~= b.skip(k));
    } else {
        assert(a.skip(0) =~= a);
        assert(b.skip(0) =~= b);
    }
}

/// Whether `a` comes strictly before `b`.
pub fn chars_less(a: &Vec<char>, b: &Vec<char>) -> (r: bool)
    ensures
        r == lex_lt(a@, b@),
{
    let mut i: usize = 0;
    while i < a.len() && i < b.len() && a[i] == b[i]
        invariant
            i <= a@.len(),
            i <= b@.len(),
            forall|j: int| 0 <= j < i ==> a@[j] == b@[j],
        decreases a@.len() - i,
    {
        i = i + 1;
    }
    proof {
        lemma_lex_common_prefix(a@, b@, i as int);
        let x = a@.skip(i as int);
        let y = b@.skip(i as int);
        if x.len() > 0 && y.len() > 0 {
            assert(x[0] == a@[i as int]);
            assert(y[0] == b@[i as int]);
        }
    }
    if i == a.len() {
        i < b.len()
    } else if i == b.len() {
        false
    } else {
        a[i] < b[i]
    }
}

/// Whether `a` and `b` hold the same characters.
pub fn chars_equal(a: &Vec<char>, b: &Vec<char>) -> (r: bool)
    ensures
        r == (a@ == b@),
{
    if a.len() != b.len() {
        return false;
    }
    let mut i: usize = 0;
    while i < a.len()
        invariant
            a@.len() == b@.len(),
            i <= a@.len(),
            forall|j: int| 0 <= j < i ==> a@[j] == b@[j],
        decreases a@.len() - i,
    {
        if a[i] != b[i] {
            return false;
        }
        i = i + 1;
    }
    assert(a@ =~= b@);
    true
}

pub open spec fn ascending(r: Seq<Seq<char>>) -> bool {
    forall|i: int, j: int| 0 <= i < j < r.len() ==> lex_lt(r[i], r[j])
}

/// `r` with `x` added at its place in ascending order, unless `r` already
/// holds it.
pub open spec fn insert_text(r: Seq<Seq<char>>, x: Seq<char>) -> Seq<Seq<char>>
    decreases r.len(),
{
    if r.len() == 0 {
        seq![x]
    } else if lex_lt(x, r[0]) {
        seq![x] + r
    } else if x == r[0] {
        r
    } else {
        seq![r[0]] + insert_text(r.drop_first(), x)
    }
}

/// The texts of `s` in ascending order, each once.
pub open spec fn sorted_texts(s: Seq<Seq<char>>) -> Seq<Seq<char>>
    decreases s.len(),
{
    if s.len() == 0 {
        Seq::empty()
    } else {
        insert_text(sorted_texts(s.drop_last()), s.last())
    }
}

pub proof fn lemma_insert_text(r: Seq<Seq<char>>, x: Seq<char>)
    requires
        ascending(r),
    ensures
        ascending(insert_text(r, x)),
        forall|y: Seq<char>| #[trigger] insert_text(r, x).contains(y) <==> (r.contains(y) || y == x),
    decreases r.len(),
{
    if r.len() == 0 {
        assert(insert_text(r, x) =~= seq![x]);
        assert forall|y: Seq<char>| #[trigger] insert_text(r, x).contains(y) <==> (r.contains(y)
            || y == x) by {
            if y == x {
                assert(insert_text(r, x)[0] == y);
            }
        }
    } else if lex_lt(x, r[0]) {
        let t = seq![x] + r;
        assert forall|i: int, j: int| 0 <= i < j < t.len() implies lex_lt(t[i], t[j]) by {
            if i == 0 && j > 1 {
                lemma_lex_transitive(x, r[0], r[j - 1]);
            }
        }
        assert forall|y: Seq<char>| t.contains(y) <==> (r.contains(y) || y == x) by {
            if t.contains(y) {
                let k = choose|k: int| 0 <= k < t.len() && t[k] == y;
                if k > 0 {
                    assert(r[k - 1] == y);
                }
            }
            if r.contains(y) {
                let k = choose|k: int| 0 <= k < r.len() && r[k] == y;
                assert(t[k + 1] == y);
            }
            if y == x {
                assert(t[0] == y);
            }
        }
    } else if x == r[0] {
    } else {
        lemma_lex_total(x, r[0]);
        let d = r.drop_first();
        lemma_insert_text(d, x);
        let rest = insert_text(d, x);
        let t = seq![r[0]] + rest;
        assert forall|y: Seq<char>| rest.contains(y) implies lex_lt(r[0], y) by {
            if d.contains(y) {
                let k = choose|k: int| 0 <= k < d.len() && d[k] == y;
                assert(r[k + 1] == y);
            }
        }
        assert forall|i: int, j: int| 0 <= i < j < t.len() implies lex_lt(t[i], t[j]) by {
            if i == 0 {
                assert(rest.contains(t[j]));
            }
        }
        assert forall|y: Seq<char>| t.contains(y) <==> (r.contains(y) || y == x) by {
            if t.contains(y) {
                let k = choose|k: int| 0 <= k < t.len() && t[k] == y;
                if k > 0 {
                    assert(rest.contains(y));
                    if d.contains(y) {
                        let m = choose|m: int| 0 <= m < d.len() && d[m] == y;
                        assert(r[m + 1] == y);
                    }
                } else {
                    assert(r[0] == y);
                }
            }
            if r.contains(y) {
                let k = choose|k: int| 0 <= k < r.len() && r[k] == y;
                if k == 0 {
                    assert(t[0] == y);
                } else {
                    assert(d[k - 1] == y);
                    assert(d.contains(y));
                    assert(rest.contains(y));
                    let m = choose|m: int| 0 <= m < rest.len() && rest[m] == y;
                    assert(t[m + 1] == y);
                }
            }
            if y == x {
                assert(rest.contains(y));
                let m = choose|m: int| 0 <= m < rest.len() && rest[m] == y;
                assert(t[m + 1] == y);
            }
        }
    }
}

/// The texts of `s`, ascending and without repetition, holding exactly the
/// texts that occur in `s`.
pub proof fn lemma_sorted_texts(s: Seq<Seq<char>>)
    ensures
        ascending(sorted_texts(s)),
        forall|y: Seq<char>| #[trigger] sorted_texts(s).contains(y) <==> s.contains(y),
        sorted_texts(s).len() <= s.len(),
    decreases s.len(),
{
    if s.len() > 0 {
        let p = s.drop_last();
        lemma_sorted_texts(p);
        lemma_insert_text(sorted_texts(p), s.last());
        lemma_insert_text_len(sorted_texts(p), s.last());
        assert forall|y: Seq<char>| #[trigger] sorted_texts(s).contains(y) <==> s.contains(y) by {
            if p.contains(y) {
                let k = choose|k: int| 0 <= k < p.len() && p[k] == y;
                assert(s[k] == y);
            }
            if s.contains(y) {
                let k = choose|k: int| 0 <= k < s.len() && s[k] == y;
                if k < s.len() - 1 {
                    assert(p[k] == y);
                }
            }
            if y == s.last() {
                assert(s[s.len() - 1] == y);
            }
        }
    }
}

proof fn lemma_insert_text_len(r: Seq<Seq<char>>, x: Seq<char>)
    ensures
        insert_text(r, x).len() <= r.len() + 1,
    decreases r.len(),
{
    if r.len() > 0 && !lex_lt(x, r[0]) && x != r[0] {
        lemma_insert_text_len(r.drop_first(), x);
    }
}

proof fn lemma_insert_text_at(r: Seq<Seq<char>>, x: Seq<char>, p: int)
    requires
        ascending(r),
        0 <= p <= r.len(),
        forall|i: int| 0 <= i < p ==> lex_lt(#[trigger] r[i], x),
        p < r.len() ==> !lex_lt(r[p], x),
    ensures
        insert_text(r, x) == (if p < r.len() && r[p] == x {
            r
        } else {
            r.insert(p, x)
        }),
    decreases r.len(),
{
    if p == 0 {
        if r.len() == 0 {
            assert(r.insert(0, x) =~= seq![x]);
        } else {
            lemma_lex_total(x, r[0]);
            if lex_lt(x, r[0]) {
                assert(r.insert(0, x) =~= seq![x] + r);
            }
        }
    } else {
        let d = r.drop_first();
        assert(lex_lt(r[0], x));
        lemma_lex_asymmetric(r[0], x);
        assert forall|i: int| 0 <= i < p - 1 implies lex_lt(#[trigger] d[i], x) by {
            assert(d[i] == r[i + 1]);
        }
        lemma_insert_text_at(d, x, p - 1);
        if p < r.len() && r[p] == x {
            assert(d[p - 1] == x);
            assert(seq![r[0]] + d =~= r);
        } else {
            assert(seq![r[0]] + d.insert(p - 1, x) =~= r.insert(p, x));
        }
    }
}

/// Adds `x` to the ascending, duplicate-free `v` at its place, unless `v`
/// already holds it.
pub fn insert_text_sorted(v: &mut Vec<Vec<char>>, x: Vec<char>)
    requires
        ascending(old(v)@.map_values(|t: Vec<char>| t@)),
    ensures
        final(v)@.map_values(|t: Vec<char>| t@) == insert_text(
            old(v)@.map_values(|t: Vec<char>| t@),
            x@,
        ),
{
    let ghost views = v@.map_values(|t: Vec<char>| t@);
    let mut lo: usize = 0;
    let mut hi: usize = v.len();
    while lo < hi
        invariant
            views == v@.map_values(|t: Vec<char>| t@),
            ascending(views),
            lo <= hi <= v@.len(),
            forall|i: int| 0 <= i < lo ==> lex_lt(#[trigger] views[i], x@),
            forall|i: int| hi <= i < v@.len() ==> !lex_lt(#[trigger] views[i], x@),
        decreases hi - lo,
    {
        let mid = lo + (hi - lo) / 2;
        if chars_less(&v[mid], &x) {
            proof {
                assert(views[mid as int] == v@[mid as int]@);
                assert forall|i: int| 0 <= i <= mid implies lex_lt(#[trigger] views[i], x@) by {
                    if i < mid {
                        lemma_lex_transitive(views[i], views[mid as int], x@);
                    }
                }
            }
            lo = mid + 1;
        } else {
            proof {
                assert(views[mid as int] == v@[mid as int]@);
                assert forall|i: int| mid <= i < v@.len() implies !lex_lt(#[trigger] views[i], x@) by {
                    if i > mid && lex_lt(views[i], x@) {
                        lemma_lex_transitive(views[mid as int], views[i], x@);
                    }
                }
            }
            hi = mid;
        }
    }
    let p = lo;
    proof {
        lemma_insert_text_at(views, x@, p as int);
    }
    if p < v.len() && chars_equal(&v[p], &x) {
    } else {
        v.insert(p, x);
        assert(v@.map_values(|t: Vec<char>| t@) =~= views.insert(p as int, x@));
    }
}

} // verus!
