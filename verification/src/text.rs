//! Character-level text operations used by the input normalizer and by the
//! builders of query names and report texts. Texts are modelled as `Seq<char>`.

use vstd::prelude::*;

verus! {

/// The Unicode `White_Space` property, which `char::is_whitespace` and
/// `str::trim` go by.
pub open spec fn is_space(c: char) -> bool {
    ||| ('\u{9}' <= c && c <= '\u{d}')
    ||| c == ' '
    ||| c == '\u{85}'
    ||| c == '\u{a0}'
    ||| c == '\u{1680}'
    ||| ('\u{2000}' <= c && c <= '\u{200a}')
    ||| c == '\u{2028}'
    ||| c == '\u{2029}'
    ||| c == '\u{202f}'
    ||| c == '\u{205f}'
    ||| c == '\u{3000}'
}

/// Whether `c` has the Unicode `White_Space` property.
pub fn is_space_char(c: char) -> (r: bool)
    ensures
        r == is_space(c),
{
    ('\u{9}' <= c && c <= '\u{d}') || c == ' ' || c == '\u{85}' || c == '\u{a0}' || c
        == '\u{1680}' || ('\u{2000}' <= c && c <= '\u{200a}') || c == '\u{2028}' || c
        == '\u{2029}' || c == '\u{202f}' || c == '\u{205f}' || c == '\u{3000}'
}

/// The sets of characters that the normalizer trims or splits at.
#[derive(Clone, Copy)]
pub enum CharSet {
    /// Unicode white space.
    Space,
    /// The byte order mark U+FEFF.
    ByteOrderMark,
    /// Angle brackets and quotes: `<`, `>`, `"`, `'`.
    Quote,
    /// White space, angle brackets, quotes, `,` and `;`.
    SpaceOrPunct,
    /// The full stop `.`.
    Dot,
    /// Anything but the path, query and fragment delimiters `/`, `?`, `#`.
    NonDelimiter,
}

pub open spec fn in_set(set: CharSet, c: char) -> bool {
    match set {
        CharSet::Space => is_space(c),
        CharSet::ByteOrderMark => c == '\u{feff}',
        CharSet::Quote => c == '<' || c == '>' || c == '"' || c == '\'',
        CharSet::SpaceOrPunct => is_space(c) || c == '<' || c == '>' || c == '"' || c == '\''
            || c == ',' || c == ';',
        CharSet::Dot => c == '.',
        CharSet::NonDelimiter => !(c == '/' || c == '?' || c == '#'),
    }
}

pub fn set_contains(set: CharSet, c: char) -> (r: bool)
    ensures
        r == in_set(set, c),
{
    match set {
        CharSet::Space => is_space_char(c),
        CharSet::ByteOrderMark => c == '\u{feff}',
        CharSet::Quote => c == '<' || c == '>' || c == '"' || c == '\'',
        CharSet::SpaceOrPunct => is_space_char(c) || c == '<' || c == '>' || c == '"' || c
            == '\'' || c == ',' || c == ';',
        CharSet::Dot => c == '.',
        CharSet::NonDelimiter => !(c == '/' || c == '?' || c == '#'),
    }
}

/// Number of leading characters of `s` that lie in `set`.
pub open spec fn lead_len(s: Seq<char>, set: CharSet) -> nat
    decreases s.len(),
{
    if s.len() > 0 && in_set(set, s[0]) {
        1 + lead_len(s.drop_first(), set)
    } else {
        0
    }
}

/// Number of trailing characters of `s` that lie in `set`.
pub open spec fn trail_len(s: Seq<char>, set: CharSet) -> nat
    decreases s.len(),
{
    if s.len() > 0 && in_set(set, s.last()) {
        1 + trail_len(s.drop_last(), set)
    } else {
        0
    }
}

/// `s` without its leading characters from `set`.
pub open spec fn trim_start(s: Seq<char>, set: CharSet) -> Seq<char> {
    s.skip(lead_len(s, set) as int)
}

/// `s` without its trailing characters from `set`.
pub open spec fn trim_end(s: Seq<char>, set: CharSet) -> Seq<char> {
    s.take(s.len() - trail_len(s, set))
}

/// `s` without its leading and trailing characters from `set`.
pub open spec fn trim(s: Seq<char>, set: CharSet) -> Seq<char> {
    trim_end(trim_start(s, set), set)
}

pub proof fn lemma_lead_len(s: Seq<char>, set: CharSet)
    ensures
        lead_len(s, set) <= s.len(),
        forall|i: int| 0 <= i < lead_len(s, set) ==> in_set(set, #[trigger] s[i]),
        lead_len(s, set) < s.len() ==> !in_set(set, s[lead_len(s, set) as int]),
    decreases s.len(),
{
    if s.len() > 0 && in_set(set, s[0]) {
        lemma_lead_len(s.drop_first(), set);
        assert forall|i: int| 0 <= i < lead_len(s, set) implies in_set(set, #[trigger] s[i]) by {
            if i > 0 {
                assert(s[i] == s.drop_first()[i - 1]);
            }
        }
        if lead_len(s, set) < s.len() {
            assert(s[lead_len(s, set) as int] == s.drop_first()[lead_len(s.drop_first(), set) as int]);
        }
    }
}

/// Trimming removes nothing from a text none of whose characters lie in the
/// set.
pub proof fn lemma_trim_untouched(s: Seq<char>, set: CharSet)
    requires
        forall|i: int| 0 <= i < s.len() ==> !in_set(set, #[trigger] s[i]),
    ensures
        trim_start(s, set) == s,
        trim_end(s, set) == s,
        trim(s, set) == s,
{
    if s.len() > 0 {
        assert(!in_set(set, s[0]));
        assert(!in_set(set, s[s.len() - 1]));
    }
    assert(lead_len(s, set) == 0);
    assert(trail_len(s, set) == 0);
    assert(s.skip(0) =~= s);
    assert(s.take(s.len() as int) =~= s);
}

pub proof fn lemma_trail_len(s: Seq<char>, set: CharSet)
    ensures
        trail_len(s, set) <= s.len(),
        forall|i: int| s.len() - trail_len(s, set) <= i < s.len() ==> in_set(set, #[trigger] s[i]),
        trail_len(s, set) < s.len() ==> !in_set(set, s[s.len() - 1 - trail_len(s, set)]),
    decreases s.len(),
{
    if s.len() > 0 && in_set(set, s.last()) {
        lemma_trail_len(s.drop_last(), set);
        assert forall|i: int| s.len() - trail_len(s, set) <= i < s.len() implies in_set(
            set,
            #[trigger] s[i],
        ) by {
            if i < s.len() - 1 {
                assert(s[i] == s.drop_last()[i]);
            }
        }
    }
}

/// The characters of `s`.
pub fn chars_of(s: &str) -> (r: Vec<char>)
    ensures
        r@ == s@,
{
    let n = s.unicode_len();
    let mut r: Vec<char> = Vec::new();
    let mut i: usize = 0;
    while i < n
        invariant
            n == s@.len(),
            i <= n,
            r@ == s@.take(i as int),
        decreases n - i,
    {
        r.push(s.get_char(i));
        i = i + 1;
        assert(r@ == s@.take(i as int));
    }
    assert(s@.take(n as int) == s@);
    r
}

/// `String::from_iter` over a slice of characters: a string that holds
/// exactly these characters, in this order.
#[verifier::external_body]
pub fn string_from_chars(chars: &[char]) -> (r: String)
    ensures
        r@ == chars@,
{
    String::from_iter(chars.iter())
}

/// The characters `v[from..to]`.
pub fn chars_between(v: &Vec<char>, from: usize, to: usize) -> (r: Vec<char>)
    requires
        from <= to <= v@.len(),
    ensures
        r@ == v@.subrange(from as int, to as int),
{
    let mut r: Vec<char> = Vec::new();
    let mut i: usize = from;
    while i < to
        invariant
            from <= i <= to <= v@.len(),
            r@ == v@.subrange(from as int, i as int),
        decreases to - i,
    {
        r.push(v[i]);
        i = i + 1;
        assert(r@ == v@.subrange(from as int, i as int));
    }
    r
}

/// Number of leading characters of `v` that lie in `set`.
pub fn count_lead(v: &Vec<char>, set: CharSet) -> (k: usize)
    ensures
        k == lead_len(v@, set),
{
    let mut k: usize = 0;
    while k < v.len() && set_contains(set, v[k])
        invariant
            k <= v@.len(),
            forall|i: int| 0 <= i < k ==> in_set(set, #[trigger] v@[i]),
        decreases v@.len() - k,
    {
        k = k + 1;
    }
    proof {
        lemma_lead_len(v@, set);
        if k < lead_len(v@, set) {
            assert(in_set(set, v@[k as int]));
        }
        if lead_len(v@, set) < k {
            assert(in_set(set, v@[lead_len(v@, set) as int]));
        }
    }
    k
}

/// Number of trailing characters of `v` that lie in `set`.
pub fn count_trail(v: &Vec<char>, set: CharSet) -> (k: usize)
    ensures
        k == trail_len(v@, set),
{
    let n = v.len();
    let mut k: usize = 0;
    while k < n && set_contains(set, v[n - 1 - k])
        invariant
            n == v@.len(),
            k <= n,
            forall|i: int| n - k <= i < n ==> in_set(set, #[trigger] v@[i]),
        decreases n - k,
    {
        k = k + 1;
    }
    proof {
        lemma_trail_len(v@, set);
        let t = trail_len(v@, set);
        if k < t {
            assert(in_set(set, v@[n - 1 - k]));
        }
        if t < k {
            assert(in_set(set, v@[n - 1 - t]));
        }
    }
    k
}

pub fn trim_start_of(v: &Vec<char>, set: CharSet) -> (r: Vec<char>)
    ensures
        r@ == trim_start(v@, set),
{
    let k = count_lead(v, set);
    proof {
        lemma_lead_len(v@, set);
    }
    chars_between(v, k, v.len())
}

pub fn trim_end_of(v: &Vec<char>, set: CharSet) -> (r: Vec<char>)
    ensures
        r@ == trim_end(v@, set),
{
    let k = count_trail(v, set);
    proof {
        lemma_trail_len(v@, set);
    }
    chars_between(v, 0, v.len() - k)
}

pub fn trim_of(v: &Vec<char>, set: CharSet) -> (r: Vec<char>)
    ensures
        r@ == trim(v@, set),
{
    let s = trim_start_of(v, set);
    trim_end_of(&s, set)
}

/// Whether `a` and `b` hold the same characters.
pub fn str_equals(a: &str, b: &str) -> (r: bool)
    ensures
        r == (a@ == b@),
{
    let n = a.unicode_len();
    if n != b.unicode_len() {
        return false;
    }
    let mut i: usize = 0;
    while i < n
        invariant
            n == a@.len(),
            n == b@.len(),
            i <= n,
            forall|j: int| 0 <= j < i ==> a@[j] == b@[j],
        decreases n - i,
    {
        if a.get_char(i) != b.get_char(i) {
            return false;
        }
        i = i + 1;
    }
    assert(a@ =~= b@);
    true
}

/// `s` with every ASCII capital letter replaced by its small letter.
pub open spec fn ascii_lower(c: char) -> char {
    if 'A' <= c && c <= 'Z' {
        ((c as u32) + 32) as char
    } else {
        c
    }
}

pub open spec fn to_ascii_lower(s: Seq<char>) -> Seq<char> {
    s.map_values(|c: char| ascii_lower(c))
}

pub fn lower_ascii_of(v: &Vec<char>) -> (r: Vec<char>)
    ensures
        r@ == to_ascii_lower(v@),
{
    let mut r: Vec<char> = Vec::new();
    let mut i: usize = 0;
    while i < v.len()
        invariant
            i <= v@.len(),
            r@ == to_ascii_lower(v@.take(i as int)),
        decreases v@.len() - i,
    {
        let c = v[i];
        let l = if 'A' <= c && c <= 'Z' {
            ((c as u8) + 32) as char
        } else {
            c
        };
        r.push(l);
        i = i + 1;
        assert(r@ =~= to_ascii_lower(v@.take(i as int)));
    }
    assert(v@.take(v@.len() as int) == v@);
    r
}

/// Position of the last `c` in `s`, if there is one.
pub open spec fn last_index_of(s: Seq<char>, c: char) -> Option<int>
    decreases s.len(),
{
    if s.len() == 0 {
        None
    } else if s.last() == c {
        Some(s.len() - 1)
    } else {
        last_index_of(s.drop_last(), c)
    }
}

pub proof fn lemma_last_index_of(s: Seq<char>, c: char)
    ensures
        match last_index_of(s, c) {
            Some(i) => 0 <= i < s.len() && s[i] == c && forall|j: int|
                i < j < s.len() ==> #[trigger] s[j] != c,
            None => forall|j: int| 0 <= j < s.len() ==> #[trigger] s[j] != c,
        },
    decreases s.len(),
{
    if s.len() > 0 && s.last() != c {
        let t = s.drop_last();
        lemma_last_index_of(t, c);
        assert forall|j: int| 0 <= j < s.len() - 1 implies s[j] == #[trigger] t[j] by {}
        match last_index_of(t, c) {
            Some(i) => {
                assert forall|j: int| i < j < s.len() implies #[trigger] s[j] != c by {
                    if j < s.len() - 1 {
                        assert(s[j] == t[j]);
                    }
                }
            },
            None => {
                assert forall|j: int| 0 <= j < s.len() implies #[trigger] s[j] != c by {
                    if j < s.len() - 1 {
                        assert(s[j] == t[j]);
                    }
                }
            },
        }
    }
}

/// Position of the last `c` in `v`, if there is one.
pub fn find_last(v: &Vec<char>, c: char) -> (r: Option<usize>)
    ensures
        match r {
            Some(i) => last_index_of(v@, c) == Some(i as int),
            None => last_index_of(v@, c) is None,
        },
{
    let mut k: usize = v.len();
    while k > 0 && v[k - 1] != c
        invariant
            k <= v@.len(),
            forall|j: int| k <= j < v@.len() ==> #[trigger] v@[j] != c,
        decreases k,
    {
        k = k - 1;
    }
    proof {
        lemma_last_index_of(v@, c);
    }
    if k == 0 {
        None
    } else {
        proof {
            let i = last_index_of(v@, c);
            if let Some(i) = i {
                if i < k - 1 {
                    assert(v@[k - 1] != c);
                }
            }
        }
        Some(k - 1)
    }
}

pub open spec fn has_char(s: Seq<char>, c: char) -> bool {
    exists|i: int| 0 <= i < s.len() && s[i] == c
}

pub fn contains_char(v: &Vec<char>, c: char) -> (r: bool)
    ensures
        r == has_char(v@, c),
{
    let mut i: usize = 0;
    while i < v.len()
        invariant
            i <= v@.len(),
            forall|j: int| 0 <= j < i ==> v@[j] != c,
        decreases v@.len() - i,
    {
        if v[i] == c {
            return true;
        }
        i = i + 1;
    }
    false
}

/// `parts` joined with `sep` between neighbours.
pub open spec fn join(parts: Seq<Seq<char>>, sep: Seq<char>) -> Seq<char>
    decreases parts.len(),
{
    if parts.len() == 0 {
        Seq::empty()
    } else if parts.len() == 1 {
        parts[0]
    } else {
        join(parts.drop_last(), sep) + sep + parts.last()
    }
}

/// A join of parts starts with its first part.
pub proof fn lemma_join_starts_with_first(parts: Seq<Seq<char>>, sep: Seq<char>)
    requires
        parts.len() > 0,
    ensures
        join(parts, sep).len() >= parts[0].len(),
        join(parts, sep).take(parts[0].len() as int) == parts[0],
    decreases parts.len(),
{
    if parts.len() > 1 {
        let p = parts.drop_last();
        lemma_join_starts_with_first(p, sep);
        let j = join(p, sep);
        assert((j + sep + parts.last()).take(parts[0].len() as int) =~= j.take(
            parts[0].len() as int,
        ));
    } else {
        assert(parts[0].take(parts[0].len() as int) =~= parts[0]);
    }
}

/// `t` occurs in `s` starting at position `k`.
pub open spec fn occurs_at(s: Seq<char>, t: Seq<char>, k: int) -> bool {
    0 <= k && k + t.len() <= s.len() && s.subrange(k, k + t.len()) == t
}

/// `t` occurs somewhere in `s`.
pub open spec fn contains_text(s: Seq<char>, t: Seq<char>) -> bool {
    exists|k: int| #[trigger] occurs_at(s, t, k)
}

/// Every part occurs in a join of the parts.
pub proof fn lemma_join_contains_part(parts: Seq<Seq<char>>, sep: Seq<char>, i: int)
    requires
        0 <= i < parts.len(),
    ensures
        contains_text(join(parts, sep), parts[i]),
    decreases parts.len(),
{
    let j = join(parts, sep);
    if parts.len() == 1 {
        assert(j.subrange(0, parts[i].len() as int) =~= parts[i]);
        assert(occurs_at(j, parts[i], 0));
    } else {
        let p = parts.drop_last();
        let jp = join(p, sep);
        if i == parts.len() - 1 {
            let k = (jp.len() + sep.len()) as int;
            assert(j.subrange(k, k + parts[i].len()) =~= parts[i]);
            assert(occurs_at(j, parts[i], k));
        } else {
            lemma_join_contains_part(p, sep, i);
            let k = choose|k: int| #[trigger] occurs_at(jp, p[i], k);
            assert(j.subrange(k, k + parts[i].len()) =~= jp.subrange(k, k + p[i].len()));
            assert(occurs_at(j, parts[i], k));
        }
    }
}

pub open spec fn views_of(v: Seq<String>) -> Seq<Seq<char>> {
    v.map_values(|s: String| s@)
}

/// The strings of `parts` joined with `sep` between neighbours.
pub fn join_strings(parts: &Vec<String>, sep: &str) -> (r: String)
    ensures
        r@ == join(views_of(parts@), sep@),
{
    let mut r = String::new();
    let mut i: usize = 0;
    while i < parts.len()
        invariant
            i <= parts@.len(),
            r@ == join(views_of(parts@).take(i as int), sep@),
        decreases parts@.len() - i,
    {
        if i > 0 {
            r.append(sep);
        }
        r.append(parts[i].as_str());
        proof {
            let t = views_of(parts@).take(i + 1);
            assert(t.drop_last() =~= views_of(parts@).take(i as int));
            if i == 0 {
                assert(t[0] == parts@[0]@);
            }
        }
        i = i + 1;
    }
    assert(views_of(parts@).take(parts@.len() as int) =~= views_of(parts@));
    r
}

} // verus!
