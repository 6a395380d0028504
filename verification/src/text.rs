//! Small text utilities shared by the redaction engine, the
//! configuration parser and the streaming transform: character-buffer
//! bridges, comparison, trimming and scanning.

use vstd::prelude::*;

verus! {

/// Relies on str::chars: yields exactly the characters of the string, in order.
#[verifier::external_body]
pub(crate) fn chars_vec(s: &str) -> (v: Vec<char>)
    ensures
        v@ == s@,
{
    s.chars().collect()
}

/// Relies on String's FromIterator over char: builds the string holding
/// exactly these characters, in order.
#[verifier::external_body]
pub(crate) fn chars_string(v: &Vec<char>) -> (s: String)
    ensures
        s@ == v@,
{
    v.iter().collect()
}

/// Character-exact string comparison.
pub(crate) fn str_eq(a: &str, b: &str) -> (r: bool)
    ensures
        r == (a@ == b@),
{
    let va = chars_vec(a);
    let vb = chars_vec(b);
    if va.len() != vb.len() {
        return false;
    }
    let n = va.len();
    let mut i: usize = 0;
    while i < n
        invariant
            0 <= i <= n,
            n == va@.len() == vb@.len(),
            va@ == a@,
            vb@ == b@,
            forall|q: int| 0 <= q < i ==> va@[q] == vb@[q],
        decreases n - i,
    {
        if va[i] != vb[i] {
            return false;
        }
        i = i + 1;
    }
    proof {
        assert(a@ =~= b@);
    }
    true
}

/// The whitespace characters recognised when trimming: the Unicode
/// white-space set, as Rust's `str::trim` uses.
pub open spec fn is_space(c: char) -> bool {
    ||| c == ' '
    ||| ('\u{09}' <= c && c <= '\u{0D}')
    ||| c == '\u{85}'
    ||| c == '\u{A0}'
    ||| c == '\u{1680}'
    ||| ('\u{2000}' <= c && c <= '\u{200A}')
    ||| c == '\u{2028}'
    ||| c == '\u{2029}'
    ||| c == '\u{202F}'
    ||| c == '\u{205F}'
    ||| c == '\u{3000}'
}

pub(crate) fn is_space_exec(c: char) -> (r: bool)
    ensures
        r == is_space(c),
{
    c == ' ' || ('\u{09}' <= c && c <= '\u{0D}') || c == '\u{85}' || c == '\u{A0}' || c
        == '\u{1680}' || ('\u{2000}' <= c && c <= '\u{200A}') || c == '\u{2028}' || c == '\u{2029}'
        || c == '\u{202F}' || c == '\u{205F}' || c == '\u{3000}'
}

/// Index of the first non-space character at or after `i`.
pub open spec fn trim_start_idx(s: Seq<char>, i: int) -> int
    decreases s.len() - i when 0 <= i <= s.len()
{
    if i >= s.len() {
        i
    } else if is_space(s[i]) {
        trim_start_idx(s, i + 1)
    } else {
        i
    }
}

/// Index one past the last non-space character at or before `e - 1`,
/// never below `a`.
pub open spec fn trim_end_idx(s: Seq<char>, a: int, e: int) -> int
    decreases e - a when 0 <= a <= e <= s.len()
{
    if e <= a {
        e
    } else if is_space(s[e - 1]) {
        trim_end_idx(s, a, e - 1)
    } else {
        e
    }
}

/// A sequence with leading and trailing whitespace removed.
pub open spec fn spec_trim(s: Seq<char>) -> Seq<char> {
    let a = trim_start_idx(s, 0);
    if a == s.len() {
        Seq::empty()
    } else {
        s.subrange(a, trim_end_idx(s, a, s.len() as int))
    }
}

pub proof fn lemma_trim_start_idx(s: Seq<char>, i: int)
    requires
        0 <= i <= s.len(),
    ensures
        i <= trim_start_idx(s, i) <= s.len(),
        trim_start_idx(s, i) < s.len() ==> !is_space(s[trim_start_idx(s, i)]),
    decreases s.len() - i,
{
    if i < s.len() && is_space(s[i]) {
        lemma_trim_start_idx(s, i + 1);
    }
}

pub proof fn lemma_trim_end_idx(s: Seq<char>, a: int, e: int)
    requires
        0 <= a <= e <= s.len(),
    ensures
        a <= trim_end_idx(s, a, e) <= e,
        trim_end_idx(s, a, e) > a ==> !is_space(s[trim_end_idx(s, a, e) - 1]),
    decreases e - a,
{
    if e > a && is_space(s[e - 1]) {
        lemma_trim_end_idx(s, a, e - 1);
    }
}

/// The bounds of the trimmed interior of the window `[lo, hi)` of `s`:
/// returns `(a, b)` with the window's trim equal to `s[a..b]`.
pub(crate) fn trim_window(s: &Vec<char>, lo: usize, hi: usize) -> (r: (usize, usize))
    requires
        lo <= hi <= s@.len(),
    ensures
        lo <= r.0 <= r.1 <= hi,
        spec_trim(s@.subrange(lo as int, hi as int)) == s@.subrange(r.0 as int, r.1 as int),
{
    let ghost w = s@.subrange(lo as int, hi as int);
    proof {
        lemma_trim_start_idx(w, 0);
    }
    let mut a = lo;
    while a < hi && is_space_exec(s[a])
        invariant
            lo <= a <= hi <= s@.len(),
            w == s@.subrange(lo as int, hi as int),
            trim_start_idx(w, 0) == trim_start_idx(w, (a - lo) as int),
        decreases hi - a,
    {
        proof {
            assert(w[(a - lo) as int] == s@[a as int]);
        }
        a = a + 1;
    }
    proof {
        assert(a < hi ==> w[(a - lo) as int] == s@[a as int]);
        assert(trim_start_idx(w, (a - lo) as int) == a - lo);
    }
    if a == hi {
        proof {
            assert(spec_trim(w) =~= s@.subrange(hi as int, hi as int));
        }
        return (hi, hi);
    }
    proof {
        lemma_trim_end_idx(w, (a - lo) as int, w.len() as int);
    }
    let mut b = hi;
    while b > a && is_space_exec(s[b - 1])
        invariant
            a <= b <= hi <= s@.len(),
            lo <= a,
            w == s@.subrange(lo as int, hi as int),
            trim_end_idx(w, (a - lo) as int, w.len() as int) == trim_end_idx(
                w,
                (a - lo) as int,
                (b - lo) as int,
            ),
        decreases b,
    {
        proof {
            assert(w[(b - 1 - lo) as int] == s@[(b - 1) as int]);
        }
        b = b - 1;
    }
    proof {
        assert(b > a ==> w[(b - 1 - lo) as int] == s@[(b - 1) as int]);
        assert(trim_end_idx(w, (a - lo) as int, (b - lo) as int) == b - lo);
        assert(spec_trim(w) =~= s@.subrange(a as int, b as int));
    }
    (a, b)
}

/// Index of the first occurrence of `c` at or after `i`, or the length
/// when there is none.
pub open spec fn find_from(s: Seq<char>, i: int, c: char) -> int
    decreases s.len() - i when 0 <= i <= s.len()
{
    if i >= s.len() {
        i
    } else if s[i] == c {
        i
    } else {
        find_from(s, i + 1, c)
    }
}

pub proof fn lemma_find_from(s: Seq<char>, i: int, c: char)
    requires
        0 <= i <= s.len(),
    ensures
        i <= find_from(s, i, c) <= s.len(),
        find_from(s, i, c) < s.len() ==> s[find_from(s, i, c)] == c,
        forall|q: int| i <= q < find_from(s, i, c) ==> s[q] != c,
    decreases s.len() - i,
{
    if i < s.len() && s[i] != c {
        lemma_find_from(s, i + 1, c);
    }
}

pub(crate) fn find_char(s: &Vec<char>, i: usize, c: char) -> (m: usize)
    requires
        i <= s@.len(),
    ensures
        m == find_from(s@, i as int, c),
        i <= m <= s@.len(),
{
    proof {
        lemma_find_from(s@, i as int, c);
    }
    let mut j = i;
    while j < s.len() && !(s[j] == c)
        invariant
            i <= j <= s@.len(),
            find_from(s@, i as int, c) == find_from(s@, j as int, c),
        decreases s@.len() - j,
    {
        j = j + 1;
    }
    proof {
        assert(find_from(s@, j as int, c) == j);
    }
    j
}

/// Character-exact buffer comparison.
pub(crate) fn vecs_eq(a: &Vec<char>, b: &Vec<char>) -> (r: bool)
    ensures
        r == (a@ == b@),
{
    if a.len() != b.len() {
        return false;
    }
    let n = a.len();
    let mut i: usize = 0;
    while i < n
        invariant
            0 <= i <= n,
            n == a@.len() == b@.len(),
            forall|q: int| 0 <= q < i ==> a@[q] == b@[q],
        decreases n - i,
    {
        if a[i] != b[i] {
            return false;
        }
        i = i + 1;
    }
    proof {
        assert(a@ =~= b@);
    }
    true
}

/// A fresh buffer holding the window `[from, to)` of `s`.
pub(crate) fn vec_range(s: &Vec<char>, from: usize, to: usize) -> (v: Vec<char>)
    requires
        from <= to <= s@.len(),
    ensures
        v@ == s@.subrange(from as int, to as int),
{
    let mut v: Vec<char> = Vec::new();
    let mut p = from;
    while p < to
        invariant
            from <= p <= to <= s@.len(),
            v@ == s@.subrange(from as int, p as int),
        decreases to - p,
    {
        v.push(s[p]);
        proof {
            assert(s@.subrange(from as int, (p + 1) as int) =~= s@.subrange(
                from as int,
                p as int,
            ).push(s@[p as int]));
        }
        p = p + 1;
    }
    v
}

} // verus!
