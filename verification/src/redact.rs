//! Redaction engine: pure text transforms that detect and mask email
//! addresses, payment-card-like digit sequences (validated by the Luhn
//! checksum), and phone-number-like digit runs.

use vstd::prelude::*;

verus! {

use crate::text::{chars_vec, chars_string};

/// Count of redactions applied by one or more passes over a text.
#[derive(Debug, Clone, Copy)]
pub struct RedactionStats {
    pub matches: usize,
}

impl RedactionStats {
    pub fn new() -> (s: Self)
        ensures
            s.matches == 0,
    {
        RedactionStats { matches: 0 }
    }

    /// Combine two counts; accumulation is plain addition.
    pub fn plus(self, rhs: Self) -> (s: Self)
        requires
            self.matches + rhs.matches <= usize::MAX,
        ensures
            s.matches == self.matches + rhs.matches,
    {
        RedactionStats { matches: self.matches + rhs.matches }
    }
}

impl Default for RedactionStats {
    fn default() -> (s: Self)
        ensures
            s.matches == 0,
    {
        RedactionStats { matches: 0 }
    }
}

/// Accumulating redaction counts is commutative and associative, so the
/// total for a request does not depend on the order the parts were counted.
pub proof fn lemma_stats_accumulation(a: RedactionStats, b: RedactionStats, c: RedactionStats)
    ensures
        a.matches + b.matches == b.matches + a.matches,
        (a.matches + b.matches) + c.matches == a.matches + (b.matches + c.matches),
{
}

pub open spec fn is_digit(c: char) -> bool {
    '0' <= c && c <= '9'
}

pub open spec fn is_alpha(c: char) -> bool {
    ('a' <= c && c <= 'z') || ('A' <= c && c <= 'Z')
}

/// Word characters delimit matches: a match may not start or end in the
/// middle of a run of letters, digits and underscores.
pub open spec fn is_word_char(c: char) -> bool {
    is_alpha(c) || is_digit(c) || c == '_'
}

/// Characters allowed in the local part of an email address.
pub open spec fn is_local_char(c: char) -> bool {
    is_alpha(c) || is_digit(c) || c == '.' || c == '_' || c == '%' || c == '+' || c == '-'
}

/// Characters allowed in the domain of an email address.
pub open spec fn is_domain_char(c: char) -> bool {
    is_alpha(c) || is_digit(c) || c == '.' || c == '-'
}

/// Characters that may appear inside a card-like or phone-like digit run:
/// digits with embedded spaces or dashes.
pub open spec fn is_digit_sep(c: char) -> bool {
    is_digit(c) || c == ' ' || c == '-'
}

/// The character classes the scanner takes maximal runs of.
#[derive(Clone, Copy)]
pub enum CharClass {
    Local,
    Domain,
    DigitSep,
}

pub open spec fn class_holds(cls: CharClass, c: char) -> bool {
    match cls {
        CharClass::Local => is_local_char(c),
        CharClass::Domain => is_domain_char(c),
        CharClass::DigitSep => is_digit_sep(c),
    }
}

/// End of the maximal run of characters of class `cls` starting at `i`.
pub open spec fn run_end(s: Seq<char>, i: int, cls: CharClass) -> int
    decreases s.len() - i when 0 <= i <= s.len()
{
    if i >= s.len() {
        i
    } else if class_holds(cls, s[i]) {
        run_end(s, i + 1, cls)
    } else {
        i
    }
}

pub proof fn lemma_run_end(s: Seq<char>, i: int, cls: CharClass)
    requires
        0 <= i <= s.len(),
    ensures
        i <= run_end(s, i, cls) <= s.len(),
        forall|q: int| i <= q < run_end(s, i, cls) ==> class_holds(cls, #[trigger] s[q]),
        run_end(s, i, cls) == s.len() || !class_holds(cls, s[run_end(s, i, cls)]),
    decreases s.len() - i,
{
    if i < s.len() && class_holds(cls, s[i]) {
        lemma_run_end(s, i + 1, cls);
    }
}

/// Walk back from `e` to the last digit at or after `i`, so a matched span
/// never ends with a separator.
pub open spec fn trim_to_digit(s: Seq<char>, i: int, e: int) -> int
    decreases e - i when 0 <= i <= e <= s.len()
{
    if e <= i {
        i
    } else if is_digit(s[e - 1]) {
        e
    } else {
        trim_to_digit(s, i, e - 1)
    }
}

pub proof fn lemma_trim_to_digit(s: Seq<char>, i: int, e: int)
    requires
        0 <= i <= e <= s.len(),
    ensures
        i <= trim_to_digit(s, i, e) <= e,
        trim_to_digit(s, i, e) > i ==> is_digit(s[trim_to_digit(s, i, e) - 1]),
    decreases e - i,
{
    if e > i && !is_digit(s[e - 1]) {
        lemma_trim_to_digit(s, i, e - 1);
    }
}

/// The digits of a sequence, in order, with everything else dropped.
pub open spec fn digits_of(s: Seq<char>) -> Seq<char>
    decreases s.len(),
{
    if s.len() == 0 {
        Seq::empty()
    } else if is_digit(s.last()) {
        digits_of(s.drop_last()).push(s.last())
    } else {
        digits_of(s.drop_last())
    }
}

pub proof fn lemma_digits_of_len(s: Seq<char>)
    ensures
        digits_of(s).len() <= s.len(),
        all_digits(s) ==> digits_of(s) == s,
        all_digits(digits_of(s)),
    decreases s.len(),
{
    if s.len() > 0 {
        lemma_digits_of_len(s.drop_last());
        if all_digits(s) {
            assert(all_digits(s.drop_last()));
            assert(digits_of(s) =~= s);
        }
        if is_digit(s.last()) {
            let d = digits_of(s.drop_last());
            assert(forall|q: int|
                0 <= q < d.len() ==> #[trigger] d.push(s.last())[q] == d[q]);
            assert(d.push(s.last())[d.len() as int] == s.last());
        }
    }
}

pub open spec fn digit_val(c: char) -> int {
    c as int - '0' as int
}

pub open spec fn all_digits(s: Seq<char>) -> bool {
    forall|i: int| 0 <= i < s.len() ==> is_digit(#[trigger] s[i])
}

/// One digit's contribution to the Luhn total: doubled on every second
/// position from the right, with 9 subtracted when the double exceeds 9.
pub open spec fn luhn_digit(d: int, doubled: bool) -> int {
    if doubled {
        if 2 * d > 9 {
            2 * d - 9
        } else {
            2 * d
        }
    } else {
        d
    }
}

/// Luhn total of a digit string, accumulated from the rightmost digit.
/// `doubled` tells whether the rightmost remaining digit is in a doubled
/// position.
pub open spec fn luhn_sum(s: Seq<char>, doubled: bool) -> int
    decreases s.len(),
{
    if s.len() == 0 {
        0
    } else {
        luhn_digit(digit_val(s.last()), doubled) + luhn_sum(s.drop_last(), !doubled)
    }
}

/// A digit sequence passes the card check when it is 12 to 19 digits long
/// and its Luhn total is divisible by 10.
pub open spec fn spec_luhn(s: Seq<char>) -> bool {
    &&& 12 <= s.len() <= 19
    &&& all_digits(s)
    &&& luhn_sum(s, false) % 10 == 0
}

fn char_in_class(c: char, cls: CharClass) -> (r: bool)
    ensures
        r == class_holds(cls, c),
{
    match cls {
        CharClass::Local => ('a' <= c && c <= 'z') || ('A' <= c && c <= 'Z') || ('0' <= c && c
            <= '9') || c == '.' || c == '_' || c == '%' || c == '+' || c == '-',
        CharClass::Domain => ('a' <= c && c <= 'z') || ('A' <= c && c <= 'Z') || ('0' <= c && c
            <= '9') || c == '.' || c == '-',
        CharClass::DigitSep => ('0' <= c && c <= '9') || c == ' ' || c == '-',
    }
}

fn is_word_char_exec(c: char) -> (r: bool)
    ensures
        r == is_word_char(c),
{
    ('a' <= c && c <= 'z') || ('A' <= c && c <= 'Z') || ('0' <= c && c <= '9') || c == '_'
}

fn is_digit_exec(c: char) -> (r: bool)
    ensures
        r == is_digit(c),
{
    '0' <= c && c <= '9'
}

fn find_run_end(s: &Vec<char>, i: usize, cls: CharClass) -> (e: usize)
    requires
        i <= s@.len(),
    ensures
        e == run_end(s@, i as int, cls),
        i <= e <= s@.len(),
{
    proof {
        lemma_run_end(s@, i as int, cls);
    }
    let mut j = i;
    while j < s.len() && char_in_class(s[j], cls)
        invariant
            i <= j <= s@.len(),
            run_end(s@, i as int, cls) == run_end(s@, j as int, cls),
        decreases s@.len() - j,
    {
        j = j + 1;
    }
    proof {
        assert(run_end(s@, j as int, cls) == j);
    }
    j
}

fn find_trim_to_digit(s: &Vec<char>, i: usize, e0: usize) -> (e: usize)
    requires
        i <= e0 <= s@.len(),
    ensures
        e == trim_to_digit(s@, i as int, e0 as int),
        i <= e <= e0,
{
    proof {
        lemma_trim_to_digit(s@, i as int, e0 as int);
    }
    let mut e = e0;
    while e > i && !is_digit_exec(s[e - 1])
        invariant
            i <= e <= e0 <= s@.len(),
            trim_to_digit(s@, i as int, e0 as int) == trim_to_digit(s@, i as int, e as int),
        decreases e,
    {
        e = e - 1;
    }
    e
}

/// Mask the middle of a sequence: keep the first and last `keep`
/// characters, replace the rest with `*`; if the sequence is no longer
/// than `keep`, mask it entirely.
pub open spec fn spec_mask_mid(s: Seq<char>, keep: int) -> Seq<char> {
    Seq::new(
        s.len(),
        |q: int|
            if s.len() <= keep {
                '*'
            } else if q < keep || q >= s.len() - keep {
                s[q]
            } else {
                '*'
            },
    )
}

/// Mask the digits of a sequence from the third digit onward with `x`,
/// keeping the first two digits and every non-digit character.
pub open spec fn spec_mask_digits(s: Seq<char>) -> Seq<char> {
    Seq::new(
        s.len(),
        |q: int|
            if is_digit(s[q]) && digits_of(s.take(q)).len() >= 2 {
                'x'
            } else {
                s[q]
            },
    )
}

fn push_range(out: &mut Vec<char>, src: &Vec<char>, from: usize, to: usize)
    requires
        from <= to <= src@.len(),
    ensures
        final(out)@ == old(out)@ + src@.subrange(from as int, to as int),
{
    let mut p = from;
    while p < to
        invariant
            from <= p <= to <= src@.len(),
            out@ == old(out)@ + src@.subrange(from as int, p as int),
        decreases to - p,
    {
        out.push(src[p]);
        proof {
            assert(src@.subrange(from as int, (p + 1) as int) =~= src@.subrange(
                from as int,
                p as int,
            ).push(src@[p as int]));
        }
        p = p + 1;
    }
    proof {
        assert(out@ =~= old(out)@ + src@.subrange(from as int, to as int));
    }
}

fn push_mask_mid(out: &mut Vec<char>, src: &Vec<char>, from: usize, to: usize, keep: usize)
    requires
        from <= to <= src@.len(),
    ensures
        final(out)@ == old(out)@ + spec_mask_mid(src@.subrange(from as int, to as int), keep as int),
{
    let ghost t = spec_mask_mid(src@.subrange(from as int, to as int), keep as int);
    let n = to - from;
    let mut p: usize = 0;
    while p < n
        invariant
            0 <= p <= n,
            n == to - from,
            from <= to <= src@.len(),
            t == spec_mask_mid(src@.subrange(from as int, to as int), keep as int),
            t.len() == n,
            out@ == old(out)@ + t.subrange(0, p as int),
        decreases n - p,
    {
        let c: char = if n <= keep {
            '*'
        } else if p < keep || p >= n - keep {
            src[from + p]
        } else {
            '*'
        };
        proof {
            assert(src@.subrange(from as int, to as int)[p as int] == src@[(from + p) as int]);
            assert(t[p as int] == c);
        }
        out.push(c);
        proof {
            assert(t.subrange(0, (p + 1) as int) =~= t.subrange(0, p as int).push(t[p as int]));
        }
        p = p + 1;
    }
    proof {
        assert(t.subrange(0, n as int) =~= t);
    }
}

fn push_mask_digits(out: &mut Vec<char>, src: &Vec<char>, from: usize, to: usize)
    requires
        from <= to <= src@.len(),
    ensures
        final(out)@ == old(out)@ + spec_mask_digits(src@.subrange(from as int, to as int)),
{
    let ghost d = src@.subrange(from as int, to as int);
    let ghost t = spec_mask_digits(d);
    let n = to - from;
    let mut p: usize = 0;
    let mut cnt: usize = 0;
    while p < n
        invariant
            0 <= p <= n,
            n == to - from,
            from <= to <= src@.len(),
            d == src@.subrange(from as int, to as int),
            t == spec_mask_digits(d),
            t.len() == n,
            cnt <= p,
            cnt == digits_of(d.take(p as int)).len(),
            out@ == old(out)@ + t.subrange(0, p as int),
        decreases n - p,
    {
        let c0 = src[from + p];
        proof {
            assert(d[p as int] == src@[(from + p) as int]);
        }
        let c: char = if is_digit_exec(c0) {
            if cnt >= 2 {
                'x'
            } else {
                c0
            }
        } else {
            c0
        };
        proof {
            assert(t[p as int] == c);
        }
        out.push(c);
        proof {
            assert(d.take((p + 1) as int).drop_last() =~= d.take(p as int));
            assert(d.take((p + 1) as int).last() == d[p as int]);
            assert(t.subrange(0, (p + 1) as int) =~= t.subrange(0, p as int).push(t[p as int]));
        }
        if is_digit_exec(c0) {
            cnt = cnt + 1;
        }
        p = p + 1;
    }
    proof {
        assert(t.subrange(0, n as int) =~= t);
    }
}

/// Keep the first and last `keep` characters of `s` and mask the interior
/// with `*`; a string of length at most `keep` is masked entirely.
pub fn mask_mid(s: &str, keep: usize) -> (r: String)
    ensures
        r@ == spec_mask_mid(s@, keep as int),
{
    let cs = chars_vec(s);
    let mut out: Vec<char> = Vec::new();
    push_mask_mid(&mut out, &cs, 0, cs.len(), keep);
    proof {
        assert(cs@.subrange(0, cs@.len() as int) =~= cs@);
    }
    chars_string(&out)
}

/// Mask every digit after the second with `x`, keeping the first two
/// digits and all non-digit characters.
pub fn mask_digits(s: &str) -> (r: String)
    ensures
        r@ == spec_mask_digits(s@),
{
    let cs = chars_vec(s);
    let mut out: Vec<char> = Vec::new();
    push_mask_digits(&mut out, &cs, 0, cs.len());
    proof {
        assert(cs@.subrange(0, cs@.len() as int) =~= cs@);
    }
    chars_string(&out)
}

fn collect_digits(src: &Vec<char>, from: usize, to: usize) -> (ds: Vec<char>)
    requires
        from <= to <= src@.len(),
    ensures
        ds@ == digits_of(src@.subrange(from as int, to as int)),
{
    let ghost d = src@.subrange(from as int, to as int);
    let n = to - from;
    let mut ds: Vec<char> = Vec::new();
    let mut p: usize = 0;
    while p < n
        invariant
            0 <= p <= n,
            n == to - from,
            from <= to <= src@.len(),
            d == src@.subrange(from as int, to as int),
            ds@ == digits_of(d.take(p as int)),
        decreases n - p,
    {
        let c = src[from + p];
        proof {
            assert(d[p as int] == src@[(from + p) as int]);
            assert(d.take((p + 1) as int).drop_last() =~= d.take(p as int));
            assert(d.take((p + 1) as int).last() == d[p as int]);
        }
        if is_digit_exec(c) {
            ds.push(c);
        }
        p = p + 1;
    }
    proof {
        assert(d.take(n as int) =~= d);
    }
    ds
}

fn luhn_chars(cs: &Vec<char>) -> (valid: bool)
    ensures
        valid == spec_luhn(cs@),
{
    let n = cs.len();
    if n < 12 || n > 19 {
        return false;
    }
    let mut sum: u32 = 0;
    let mut k: usize = 0;
    proof {
        assert(cs@.subrange(0, n as int) =~= cs@);
        assert(cs@.subrange(n as int, n as int) =~= Seq::<char>::empty());
    }
    while k < n
        invariant
            0 <= k <= n,
            n == cs@.len(),
            12 <= n <= 19,
            all_digits(cs@.subrange((n - k) as int, n as int)),
            sum <= 9 * k,
            sum == luhn_sum(cs@, false) - luhn_sum(cs@.subrange(0, (n - k) as int), (k % 2 == 1)),
        decreases n - k,
    {
        let c = cs[n - 1 - k];
        if !('0' <= c && c <= '9') {
            proof {
                assert(!is_digit(cs@[(n - 1 - k) as int]));
                assert(!all_digits(cs@));
            }
            return false;
        }
        let d: u32 = (c as u32) - ('0' as u32);
        let dd: u32 = if k % 2 == 1 {
            if 2 * d > 9 {
                2 * d - 9
            } else {
                2 * d
            }
        } else {
            d
        };
        proof {
            let pre = cs@.subrange(0, (n - k) as int);
            assert(pre.drop_last() =~= cs@.subrange(0, (n - k - 1) as int));
            assert(pre.last() == cs@[(n - 1 - k) as int]);
            assert(luhn_sum(pre, (k % 2 == 1)) == luhn_digit(digit_val(pre.last()), (k % 2 == 1))
                + luhn_sum(pre.drop_last(), !(k % 2 == 1)));
            assert(dd == luhn_digit(digit_val(c), (k % 2 == 1)));
            assert(all_digits(cs@.subrange((n - k - 1) as int, n as int))) by {
                let post = cs@.subrange((n - k - 1) as int, n as int);
                assert(forall|i: int| 0 <= i < post.len() ==> is_digit(#[trigger] post[i])) by {
                    assert(forall|i: int| 1 <= i < post.len() ==> post[i] == cs@.subrange(
                        (n - k) as int, n as int)[i - 1]);
                }
            }
        }
        sum = sum + dd;
        k = k + 1;
    }
    proof {
        assert(cs@.subrange(0, (n - n) as int) =~= Seq::<char>::empty());
        assert(luhn_sum(cs@.subrange(0, 0), (n % 2 == 1)) == 0);
        assert(cs@.subrange(0, n as int) =~= cs@);
    }
    sum % 10 == 0
}

/// Position of the last `.` in a sequence, or -1 when there is none.
pub open spec fn last_dot(d: Seq<char>) -> int
    decreases d.len(),
{
    if d.len() == 0 {
        -1
    } else if d.last() == '.' {
        d.len() - 1
    } else {
        last_dot(d.drop_last())
    }
}

pub proof fn lemma_last_dot(d: Seq<char>)
    ensures
        -1 <= last_dot(d) < d.len(),
        last_dot(d) >= 0 ==> d[last_dot(d)] == '.',
        forall|q: int| last_dot(d) < q < d.len() ==> #[trigger] d[q] != '.',
    decreases d.len(),
{
    if d.len() > 0 && d.last() != '.' {
        lemma_last_dot(d.drop_last());
        assert(forall|q: int| 0 <= q < d.len() - 1 ==> #[trigger] d[q] == d.drop_last()[q]);
    }
}

/// A valid email domain: at least one character before its last dot, and
/// a final label of at least two letters after it.
pub open spec fn valid_domain(d: Seq<char>) -> bool {
    let p = last_dot(d);
    &&& 1 <= p
    &&& p + 3 <= d.len()
    &&& forall|q: int| p < q < d.len() ==> is_alpha(#[trigger] d[q])
}

/// The end of the longest valid domain inside `[j1, m)`: the largest
/// cut at or before `m` whose span is a valid domain ending on a word
/// boundary, or `j1` when no cut works. Trimming back lets a domain be
/// followed by punctuation such as a sentence-final dot or dash.
pub open spec fn email_domain_end(s: Seq<char>, j1: int, m: int) -> int
    decreases m when 0 <= j1 <= m <= s.len()
{
    if m <= j1 {
        j1
    } else if valid_domain(s.subrange(j1, m)) && (m == s.len() || !is_word_char(s[m])) {
        m
    } else {
        email_domain_end(s, j1, m - 1)
    }
}

pub proof fn lemma_email_domain_end(s: Seq<char>, j1: int, m: int)
    requires
        0 <= j1 <= m <= s.len(),
    ensures
        j1 <= email_domain_end(s, j1, m) <= m,
        email_domain_end(s, j1, m) > j1 ==> valid_domain(
            s.subrange(j1, email_domain_end(s, j1, m)),
        ) && (email_domain_end(s, j1, m) == s.len() || !is_word_char(
            s[email_domain_end(s, j1, m)],
        )),
    decreases m - j1,
{
    if m > j1 && !(valid_domain(s.subrange(j1, m)) && (m == s.len() || !is_word_char(s[m]))) {
        lemma_email_domain_end(s, j1, m - 1);
    }
}

/// An email match starts at `i` on a word boundary: a run of local-part
/// characters beginning with a word character sits there, immediately
/// followed by `@` and a valid domain.
pub open spec fn email_at(s: Seq<char>, i: int) -> bool {
    &&& 0 <= i < s.len()
    &&& is_word_char(s[i])
    &&& (i == 0 || !is_word_char(s[i - 1]))
    &&& {
        let j = run_end(s, i, CharClass::Local);
        &&& j < s.len()
        &&& s[j] == '@'
        &&& email_domain_end(s, j + 1, run_end(s, j + 1, CharClass::Domain)) > j + 1
    }
}

/// Where an email match starting at `i` ends: after the longest valid
/// domain inside its domain run.
pub open spec fn email_end(s: Seq<char>, i: int) -> int {
    let j = run_end(s, i, CharClass::Local);
    email_domain_end(s, j + 1, run_end(s, j + 1, CharClass::Domain))
}

/// The replacement for an email match: local part masked keeping its
/// first and last character, the `@` and the domain verbatim.
pub open spec fn email_replacement(s: Seq<char>, i: int) -> Seq<char> {
    let j = run_end(s, i, CharClass::Local);
    let k = email_end(s, i);
    spec_mask_mid(s.subrange(i, j), 1) + seq!['@'] + s.subrange(j + 1, k)
}

/// The email pass over `s` from position `i` on: the rewritten suffix and
/// the number of matches replaced.
pub open spec fn spec_redact_emails_from(s: Seq<char>, i: int) -> (Seq<char>, nat)
    decreases s.len() - i when 0 <= i <= s.len()
{
    if i >= s.len() {
        (Seq::empty(), 0)
    } else if email_at(s, i) && i < email_end(s, i) <= s.len() {
        let rest = spec_redact_emails_from(s, email_end(s, i));
        (email_replacement(s, i) + rest.0, (rest.1 + 1) as nat)
    } else {
        let rest = spec_redact_emails_from(s, i + 1);
        (seq![s[i]] + rest.0, rest.1)
    }
}

pub open spec fn spec_redact_emails(s: Seq<char>) -> (Seq<char>, nat) {
    spec_redact_emails_from(s, 0)
}

fn valid_domain_check(s: &Vec<char>, from: usize, to: usize) -> (r: bool)
    requires
        from <= to <= s@.len(),
    ensures
        r == valid_domain(s@.subrange(from as int, to as int)),
{
    let ghost d = s@.subrange(from as int, to as int);
    proof {
        lemma_last_dot(d);
        assert(d.take((to - from) as int) =~= d);
    }
    let mut q = to;
    while q > from && !(s[q - 1] == '.')
        invariant
            from <= q <= to <= s@.len(),
            d == s@.subrange(from as int, to as int),
            last_dot(d) == last_dot(d.take((q - from) as int)),
            forall|z: int| q - from <= z < d.len() ==> is_alpha(#[trigger] d[z]),
        decreases q,
    {
        let c = s[q - 1];
        proof {
            assert(d[(q - 1 - from) as int] == s@[(q - 1) as int]);
            assert(d.take((q - from) as int).last() == d[(q - 1 - from) as int]);
            assert(d.take((q - from) as int).drop_last() =~= d.take((q - 1 - from) as int));
        }
        if !(('a' <= c && c <= 'z') || ('A' <= c && c <= 'Z')) {
            proof {
                lemma_last_dot(d.take((q - from) as int));
                assert(!is_alpha(d[(q - 1 - from) as int]));
                assert(last_dot(d) < (q - 1 - from));
            }
            return false;
        }
        q = q - 1;
    }
    if q == from {
        proof {
            assert(d.take((q - from) as int) =~= Seq::<char>::empty());
        }
        return false;
    }
    proof {
        assert(d.take((q - from) as int).last() == d[(q - 1 - from) as int]);
        assert(last_dot(d) == q - 1 - from);
    }
    q - 1 > from && to - q >= 2
}

fn find_domain_end(s: &Vec<char>, j1: usize, k0: usize) -> (e: usize)
    requires
        j1 <= k0 <= s@.len(),
    ensures
        e == email_domain_end(s@, j1 as int, k0 as int),
        j1 <= e <= k0,
{
    proof {
        lemma_email_domain_end(s@, j1 as int, k0 as int);
    }
    let mut m = k0;
    while m > j1
        invariant
            j1 <= m <= k0 <= s@.len(),
            email_domain_end(s@, j1 as int, k0 as int) == email_domain_end(
                s@,
                j1 as int,
                m as int,
            ),
        decreases m,
    {
        let boundary_ok = m == s.len() || !is_word_char_exec(s[m]);
        if boundary_ok && valid_domain_check(s, j1, m) {
            proof {
                assert(email_domain_end(s@, j1 as int, m as int) == m);
            }
            return m;
        }
        m = m - 1;
    }
    proof {
        assert(email_domain_end(s@, j1 as int, j1 as int) == j1);
    }
    j1
}

/// Find an email match starting at `i`: returns the end of the match.
fn email_match(s: &Vec<char>, i: usize) -> (m: Option<usize>)
    requires
        i < s@.len(),
    ensures
        match m {
            Some(k) => email_at(s@, i as int) && k == email_end(s@, i as int) && i < k <= s@.len(),
            None => !email_at(s@, i as int),
        },
{
    if !is_word_char_exec(s[i]) {
        return None;
    }
    if i > 0 && is_word_char_exec(s[i - 1]) {
        return None;
    }
    let j = find_run_end(s, i, CharClass::Local);
    if j >= s.len() {
        return None;
    }
    if !(s[j] == '@') {
        return None;
    }
    let k0 = find_run_end(s, j + 1, CharClass::Domain);
    let e = find_domain_end(s, j + 1, k0);
    if e > j + 1 {
        Some(e)
    } else {
        None
    }
}

/// The email pass over a character buffer: mask the local part of every
/// email address, keep domains verbatim, count one per address.
fn redact_emails_chars(s: &Vec<char>) -> (r: (Vec<char>, usize))
    ensures
        r.0@ == spec_redact_emails(s@).0,
        r.1 == spec_redact_emails(s@).1,
        3 * r.1 <= s@.len(),
{
    let mut out: Vec<char> = Vec::new();
    let mut cnt: usize = 0;
    let mut i: usize = 0;
    proof {
        assert(out@ + spec_redact_emails_from(s@, 0).0 =~= spec_redact_emails_from(s@, 0).0);
    }
    while i < s.len()
        invariant
            0 <= i <= s@.len(),
            3 * cnt <= i,
            spec_redact_emails(s@).0 == out@ + spec_redact_emails_from(s@, i as int).0,
            spec_redact_emails(s@).1 == cnt + spec_redact_emails_from(s@, i as int).1,
        decreases s@.len() - i,
    {
        let ghost pre = out@;
        match email_match(s, i) {
            Some(k) => {
                let j = find_run_end(s, i, CharClass::Local);
                push_mask_mid(&mut out, s, i, j, 1);
                out.push('@');
                push_range(&mut out, s, j + 1, k);
                cnt = cnt + 1;
                proof {
                    assert(is_local_char(s@[i as int]));
                    lemma_run_end(s@, i as int + 1, CharClass::Local);
                    assert(run_end(s@, i as int, CharClass::Local) == run_end(
                        s@,
                        i as int + 1,
                        CharClass::Local,
                    ));
                    assert(out@ =~= pre + email_replacement(s@, i as int));
                    assert(spec_redact_emails_from(s@, i as int).0 == email_replacement(
                        s@,
                        i as int,
                    ) + spec_redact_emails_from(s@, k as int).0);
                    assert(pre + (email_replacement(s@, i as int) + spec_redact_emails_from(
                        s@,
                        k as int,
                    ).0) =~= out@ + spec_redact_emails_from(s@, k as int).0);
                }
                i = k;
            },
            None => {
                out.push(s[i]);
                proof {
                    assert(spec_redact_emails_from(s@, i as int).0 == seq![s@[i as int]]
                        + spec_redact_emails_from(s@, i as int + 1).0);
                    assert(pre + (seq![s@[i as int]] + spec_redact_emails_from(
                        s@,
                        i as int + 1,
                    ).0) =~= out@ + spec_redact_emails_from(s@, i as int + 1).0);
                }
                i = i + 1;
            },
        }
    }
    proof {
        assert(out@ + spec_redact_emails_from(s@, i as int).0 =~= out@);
    }
    (out, cnt)
}

/// Where a card-like span starting at `i` ends: after the maximal run of
/// digits, spaces and dashes, trimmed back to its last digit.
pub open spec fn card_end(s: Seq<char>, i: int) -> int {
    trim_to_digit(s, i, run_end(s, i, CharClass::DigitSep))
}

/// A card-like match starts at `i` when a word-bounded run of digits with
/// embedded spaces or dashes sits there, holding 12 to 19 digits.
pub open spec fn card_at(s: Seq<char>, i: int) -> bool {
    &&& 0 <= i < s.len()
    &&& is_digit(s[i])
    &&& (i == 0 || !is_word_char(s[i - 1]))
    &&& {
        let e = card_end(s, i);
        &&& (e == s.len() || !is_word_char(s[e]))
        &&& 12 <= digits_of(s.subrange(i, e)).len() <= 19
    }
}

/// The literal prefix of the tag a validated card number is replaced by.
pub open spec fn card_tag_prefix() -> Seq<char> {
    seq!['C', 'C', '_', 'M', 'A', 'S', 'K', 'E', 'D', '_', 'L', 'A', 'S', 'T', '4', '_']
}

/// The tag a validated card number with digits `d` is replaced by: the
/// literal prefix followed by the last four digits.
pub open spec fn card_tag(d: Seq<char>) -> Seq<char> {
    card_tag_prefix() + d.subrange(d.len() - 4, d.len() as int)
}

/// The card pass over `s` from position `i` on: every card-like span
/// whose digits pass the Luhn check is replaced by a tag keeping only its
/// last four digits; spans that fail the check are left untouched.
pub open spec fn spec_redact_cards_from(s: Seq<char>, i: int) -> (Seq<char>, nat)
    decreases s.len() - i when 0 <= i <= s.len()
{
    if i >= s.len() {
        (Seq::empty(), 0)
    } else if card_at(s, i) && i < card_end(s, i) <= s.len() {
        let e = card_end(s, i);
        let d = digits_of(s.subrange(i, e));
        let rest = spec_redact_cards_from(s, e);
        if spec_luhn(d) {
            (card_tag(d) + rest.0, (rest.1 + 1) as nat)
        } else {
            (s.subrange(i, e) + rest.0, rest.1)
        }
    } else {
        let rest = spec_redact_cards_from(s, i + 1);
        (seq![s[i]] + rest.0, rest.1)
    }
}

pub open spec fn spec_redact_cards(s: Seq<char>) -> (Seq<char>, nat) {
    spec_redact_cards_from(s, 0)
}

/// Find a card-like match starting at `i`: returns the end of the span.
fn card_match(s: &Vec<char>, i: usize) -> (m: Option<usize>)
    requires
        i < s@.len(),
    ensures
        match m {
            Some(e) => card_at(s@, i as int) && e == card_end(s@, i as int) && i + 12 <= e
                <= s@.len(),
            None => !card_at(s@, i as int),
        },
{
    if !is_digit_exec(s[i]) {
        return None;
    }
    if i > 0 && is_word_char_exec(s[i - 1]) {
        return None;
    }
    let e0 = find_run_end(s, i, CharClass::DigitSep);
    let e = find_trim_to_digit(s, i, e0);
    if e < s.len() && is_word_char_exec(s[e]) {
        return None;
    }
    let ds = collect_digits(s, i, e);
    if ds.len() < 12 || ds.len() > 19 {
        return None;
    }
    proof {
        lemma_digits_of_len(s@.subrange(i as int, e as int));
    }
    Some(e)
}

/// The card pass over a character buffer.
fn redact_cards_chars(s: &Vec<char>) -> (r: (Vec<char>, usize))
    ensures
        r.0@ == spec_redact_cards(s@).0,
        r.1 == spec_redact_cards(s@).1,
        3 * r.1 <= s@.len(),
{
    let mut out: Vec<char> = Vec::new();
    let mut cnt: usize = 0;
    let mut i: usize = 0;
    proof {
        assert(out@ + spec_redact_cards_from(s@, 0).0 =~= spec_redact_cards_from(s@, 0).0);
    }
    while i < s.len()
        invariant
            0 <= i <= s@.len(),
            3 * cnt <= i,
            spec_redact_cards(s@).0 == out@ + spec_redact_cards_from(s@, i as int).0,
            spec_redact_cards(s@).1 == cnt + spec_redact_cards_from(s@, i as int).1,
        decreases s@.len() - i,
    {
        let ghost pre = out@;
        match card_match(s, i) {
            Some(e) => {
                let ds = collect_digits(s, i, e);
                if luhn_chars(&ds) {
                    out.push('C');
                    out.push('C');
                    out.push('_');
                    out.push('M');
                    out.push('A');
                    out.push('S');
                    out.push('K');
                    out.push('E');
                    out.push('D');
                    out.push('_');
                    out.push('L');
                    out.push('A');
                    out.push('S');
                    out.push('T');
                    out.push('4');
                    out.push('_');
                    proof {
                        assert(out@ =~= pre + card_tag_prefix());
                    }
                    push_range(&mut out, &ds, ds.len() - 4, ds.len());
                    cnt = cnt + 1;
                    proof {
                        assert(out@ =~= pre + card_tag(ds@));
                        assert(spec_redact_cards_from(s@, i as int).0 == card_tag(ds@)
                            + spec_redact_cards_from(s@, e as int).0);
                        assert(pre + (card_tag(ds@) + spec_redact_cards_from(s@, e as int).0)
                            =~= out@ + spec_redact_cards_from(s@, e as int).0);
                    }
                } else {
                    push_range(&mut out, s, i, e);
                    proof {
                        assert(spec_redact_cards_from(s@, i as int).0 == s@.subrange(
                            i as int,
                            e as int,
                        ) + spec_redact_cards_from(s@, e as int).0);
                        assert(pre + (s@.subrange(i as int, e as int) + spec_redact_cards_from(
                            s@,
                            e as int,
                        ).0) =~= out@ + spec_redact_cards_from(s@, e as int).0);
                    }
                }
                i = e;
            },
            None => {
                out.push(s[i]);
                proof {
                    assert(spec_redact_cards_from(s@, i as int).0 == seq![s@[i as int]]
                        + spec_redact_cards_from(s@, i as int + 1).0);
                    assert(pre + (seq![s@[i as int]] + spec_redact_cards_from(
                        s@,
                        i as int + 1,
                    ).0) =~= out@ + spec_redact_cards_from(s@, i as int + 1).0);
                }
                i = i + 1;
            },
        }
    }
    proof {
        assert(out@ + spec_redact_cards_from(s@, i as int).0 =~= out@);
    }
    (out, cnt)
}

/// Where the digit body of a phone-like match starting at `i` begins:
/// after an optional leading `+`.
pub open spec fn phone_body_start(s: Seq<char>, i: int) -> int {
    if s[i] == '+' {
        i + 1
    } else {
        i
    }
}

/// Where a phone-like match starting at `i` ends.
pub open spec fn phone_end(s: Seq<char>, i: int) -> int {
    trim_to_digit(
        s,
        phone_body_start(s, i),
        run_end(s, phone_body_start(s, i), CharClass::DigitSep),
    )
}

/// A phone-like match starts at `i` when a run of at least 7 digits with
/// embedded spaces or dashes sits there, optionally led by `+`, and not
/// preceded by another digit.
pub open spec fn phone_at(s: Seq<char>, i: int) -> bool {
    &&& 0 <= i < s.len()
    &&& (i == 0 || !is_digit(s[i - 1]))
    &&& {
        let b = phone_body_start(s, i);
        &&& b < s.len()
        &&& is_digit(s[b])
        &&& digits_of(s.subrange(b, phone_end(s, i))).len() >= 7
    }
}

/// The replacement for a phone-like match: the optional `+` and all
/// separators kept, digits masked from the third digit onward.
pub open spec fn phone_replacement(s: Seq<char>, i: int) -> Seq<char> {
    let b = phone_body_start(s, i);
    let e = phone_end(s, i);
    if s[i] == '+' {
        seq!['+'] + spec_mask_digits(s.subrange(b, e))
    } else {
        spec_mask_digits(s.subrange(b, e))
    }
}

/// The phone pass over `s` from position `i` on.
pub open spec fn spec_redact_phones_from(s: Seq<char>, i: int) -> (Seq<char>, nat)
    decreases s.len() - i when 0 <= i <= s.len()
{
    if i >= s.len() {
        (Seq::empty(), 0)
    } else if phone_at(s, i) && i < phone_end(s, i) <= s.len() {
        let rest = spec_redact_phones_from(s, phone_end(s, i));
        (phone_replacement(s, i) + rest.0, (rest.1 + 1) as nat)
    } else {
        let rest = spec_redact_phones_from(s, i + 1);
        (seq![s[i]] + rest.0, rest.1)
    }
}

pub open spec fn spec_redact_phones(s: Seq<char>) -> (Seq<char>, nat) {
    spec_redact_phones_from(s, 0)
}

/// Find a phone-like match starting at `i`: returns the end of the span.
fn phone_match(s: &Vec<char>, i: usize) -> (m: Option<usize>)
    requires
        i < s@.len(),
    ensures
        match m {
            Some(e) => phone_at(s@, i as int) && e == phone_end(s@, i as int) && i + 7 <= e
                <= s@.len(),
            None => !phone_at(s@, i as int),
        },
{
    if i > 0 && is_digit_exec(s[i - 1]) {
        return None;
    }
    let n = s.len();
    let b: usize = if s[i] == '+' {
        i + 1
    } else {
        i
    };
    if b >= n {
        return None;
    }
    if !is_digit_exec(s[b]) {
        return None;
    }
    let e0 = find_run_end(s, b, CharClass::DigitSep);
    let e = find_trim_to_digit(s, b, e0);
    let ds = collect_digits(s, b, e);
    if ds.len() < 7 {
        return None;
    }
    proof {
        lemma_digits_of_len(s@.subrange(b as int, e as int));
    }
    Some(e)
}

/// The phone pass over a character buffer.
fn redact_phones_chars(s: &Vec<char>) -> (r: (Vec<char>, usize))
    ensures
        r.0@ == spec_redact_phones(s@).0,
        r.1 == spec_redact_phones(s@).1,
        3 * r.1 <= s@.len(),
{
    let mut out: Vec<char> = Vec::new();
    let mut cnt: usize = 0;
    let mut i: usize = 0;
    proof {
        assert(out@ + spec_redact_phones_from(s@, 0).0 =~= spec_redact_phones_from(s@, 0).0);
    }
    while i < s.len()
        invariant
            0 <= i <= s@.len(),
            3 * cnt <= i,
            spec_redact_phones(s@).0 == out@ + spec_redact_phones_from(s@, i as int).0,
            spec_redact_phones(s@).1 == cnt + spec_redact_phones_from(s@, i as int).1,
        decreases s@.len() - i,
    {
        let ghost pre = out@;
        match phone_match(s, i) {
            Some(e) => {
                let b: usize = if s[i] == '+' {
                    out.push('+');
                    i + 1
                } else {
                    i
                };
                push_mask_digits(&mut out, s, b, e);
                cnt = cnt + 1;
                proof {
                    assert(out@ =~= pre + phone_replacement(s@, i as int));
                    assert(spec_redact_phones_from(s@, i as int).0 == phone_replacement(
                        s@,
                        i as int,
                    ) + spec_redact_phones_from(s@, e as int).0);
                    assert(pre + (phone_replacement(s@, i as int) + spec_redact_phones_from(
                        s@,
                        e as int,
                    ).0) =~= out@ + spec_redact_phones_from(s@, e as int).0);
                }
                i = e;
            },
            None => {
                out.push(s[i]);
                proof {
                    assert(spec_redact_phones_from(s@, i as int).0 == seq![s@[i as int]]
                        + spec_redact_phones_from(s@, i as int + 1).0);
                    assert(pre + (seq![s@[i as int]] + spec_redact_phones_from(
                        s@,
                        i as int + 1,
                    ).0) =~= out@ + spec_redact_phones_from(s@, i as int + 1).0);
                }
                i = i + 1;
            },
        }
    }
    proof {
        assert(out@ + spec_redact_phones_from(s@, i as int).0 =~= out@);
    }
    (out, cnt)
}

/// The full redaction transform: the email pass, then the card pass,
/// then the phone pass, each over the previous pass's output; the count
/// is the total of matches across the three passes.
pub open spec fn spec_redact(s: Seq<char>) -> (Seq<char>, nat) {
    let e = spec_redact_emails(s);
    let c = spec_redact_cards(e.0);
    let p = spec_redact_phones(c.0);
    (p.0, (e.1 + c.1 + p.1) as nat)
}

/// Redact a text: mask email local parts, replace Luhn-valid card-like
/// digit runs with a tag keeping the last four digits, and mask
/// phone-like digit runs from the third digit onward. Pure and
/// deterministic; returns the rewritten text and the number of matches.
pub fn redact_text(input: &str) -> (r: (String, RedactionStats))
    ensures
        r.0@ == spec_redact(input@).0,
        r.1.matches == spec_redact(input@).1,
{
    let cs = chars_vec(input);
    let n0 = cs.len();
    let (v1, c1) = redact_emails_chars(&cs);
    let n1 = v1.len();
    let (v2, c2) = redact_cards_chars(&v1);
    let n2 = v2.len();
    let (v3, c3) = redact_phones_chars(&v2);
    proof {
        assert(3 * c1 <= n0 && 3 * c2 <= n1 && 3 * c3 <= n2);
        assert(c1 + c2 + c3 <= usize::MAX);
    }
    let out = chars_string(&v3);
    (out, RedactionStats { matches: c1 + c2 + c3 })
}

proof fn lemma_emails_identity(s: Seq<char>, i: int)
    requires
        0 <= i <= s.len(),
        forall|q: int| i <= q < s.len() ==> !email_at(s, q),
    ensures
        spec_redact_emails_from(s, i).0 == s.subrange(i, s.len() as int),
        spec_redact_emails_from(s, i).1 == 0,
    decreases s.len() - i,
{
    if i >= s.len() {
        assert(s.subrange(i, s.len() as int) =~= Seq::<char>::empty());
    } else {
        lemma_emails_identity(s, i + 1);
        assert(seq![s[i]] + s.subrange(i + 1, s.len() as int) =~= s.subrange(i, s.len() as int));
    }
}

proof fn lemma_cards_identity(s: Seq<char>, i: int)
    requires
        0 <= i <= s.len(),
        forall|q: int| i <= q < s.len() ==> !card_at(s, q),
    ensures
        spec_redact_cards_from(s, i).0 == s.subrange(i, s.len() as int),
        spec_redact_cards_from(s, i).1 == 0,
    decreases s.len() - i,
{
    if i >= s.len() {
        assert(s.subrange(i, s.len() as int) =~= Seq::<char>::empty());
    } else {
        lemma_cards_identity(s, i + 1);
        assert(seq![s[i]] + s.subrange(i + 1, s.len() as int) =~= s.subrange(i, s.len() as int));
    }
}

proof fn lemma_phones_identity(s: Seq<char>, i: int)
    requires
        0 <= i <= s.len(),
        forall|q: int| i <= q < s.len() ==> !phone_at(s, q),
    ensures
        spec_redact_phones_from(s, i).0 == s.subrange(i, s.len() as int),
        spec_redact_phones_from(s, i).1 == 0,
    decreases s.len() - i,
{
    if i >= s.len() {
        assert(s.subrange(i, s.len() as int) =~= Seq::<char>::empty());
    } else {
        lemma_phones_identity(s, i + 1);
        assert(seq![s[i]] + s.subrange(i + 1, s.len() as int) =~= s.subrange(i, s.len() as int));
    }
}

proof fn lemma_emails_zero_count(s: Seq<char>, i: int)
    requires
        0 <= i <= s.len(),
        spec_redact_emails_from(s, i).1 == 0,
    ensures
        spec_redact_emails_from(s, i).0 == s.subrange(i, s.len() as int),
    decreases s.len() - i,
{
    if i >= s.len() {
        assert(s.subrange(i, s.len() as int) =~= Seq::<char>::empty());
    } else {
        assert(!(email_at(s, i) && i < email_end(s, i) <= s.len()));
        lemma_emails_zero_count(s, i + 1);
        assert(seq![s[i]] + s.subrange(i + 1, s.len() as int) =~= s.subrange(i, s.len() as int));
    }
}

proof fn lemma_cards_zero_count(s: Seq<char>, i: int)
    requires
        0 <= i <= s.len(),
        spec_redact_cards_from(s, i).1 == 0,
    ensures
        spec_redact_cards_from(s, i).0 == s.subrange(i, s.len() as int),
    decreases s.len() - i,
{
    if i >= s.len() {
        assert(s.subrange(i, s.len() as int) =~= Seq::<char>::empty());
    } else {
        if card_at(s, i) && i < card_end(s, i) <= s.len() {
            let e = card_end(s, i);
            let d = digits_of(s.subrange(i, e));
            assert(!spec_luhn(d));
            lemma_cards_zero_count(s, e);
            assert(s.subrange(i, e) + s.subrange(e, s.len() as int) =~= s.subrange(
                i,
                s.len() as int,
            ));
        } else {
            lemma_cards_zero_count(s, i + 1);
            assert(seq![s[i]] + s.subrange(i + 1, s.len() as int) =~= s.subrange(
                i,
                s.len() as int,
            ));
        }
    }
}

proof fn lemma_phones_zero_count(s: Seq<char>, i: int)
    requires
        0 <= i <= s.len(),
        spec_redact_phones_from(s, i).1 == 0,
    ensures
        spec_redact_phones_from(s, i).0 == s.subrange(i, s.len() as int),
    decreases s.len() - i,
{
    if i >= s.len() {
        assert(s.subrange(i, s.len() as int) =~= Seq::<char>::empty());
    } else {
        assert(!(phone_at(s, i) && i < phone_end(s, i) <= s.len()));
        lemma_phones_zero_count(s, i + 1);
        assert(seq![s[i]] + s.subrange(i + 1, s.len() as int) =~= s.subrange(i, s.len() as int));
    }
}

/// An input in which no email, card or phone match starts anywhere is
/// returned by `redact_text` unchanged, with a zero match count.
pub proof fn lemma_redact_unmatched_input_unchanged(s: Seq<char>)
    requires
        forall|q: int| 0 <= q < s.len() ==> !email_at(s, q),
        forall|q: int| 0 <= q < s.len() ==> !card_at(s, q),
        forall|q: int| 0 <= q < s.len() ==> !phone_at(s, q),
    ensures
        spec_redact(s).0 == s,
        spec_redact(s).1 == 0,
{
    lemma_emails_identity(s, 0);
    assert(s.subrange(0, s.len() as int) =~= s);
    lemma_cards_identity(s, 0);
    lemma_phones_identity(s, 0);
}

/// Redaction never changes a text without counting a match: a zero match
/// count means the output is the input, so re-running redaction on such
/// an output changes nothing and counts nothing further.
pub proof fn lemma_redact_idempotent_when_clean(s: Seq<char>)
    requires
        spec_redact(s).1 == 0,
    ensures
        spec_redact(s).0 == s,
        spec_redact(spec_redact(s).0) == spec_redact(s),
{
    lemma_emails_zero_count(s, 0);
    assert(s.subrange(0, s.len() as int) =~= s);
    lemma_cards_zero_count(s, 0);
    lemma_phones_zero_count(s, 0);
}

proof fn lemma_cards_copy_region(s: Seq<char>, i: int, j: int)
    requires
        0 <= i <= j <= s.len(),
        forall|q: int| i <= q < j ==> !card_at(s, q),
    ensures
        spec_redact_cards_from(s, i).0 == s.subrange(i, j) + spec_redact_cards_from(s, j).0,
        spec_redact_cards_from(s, i).1 == spec_redact_cards_from(s, j).1,
    decreases j - i,
{
    if i < j {
        assert(!card_at(s, i));
        lemma_cards_copy_region(s, i + 1, j);
        assert(seq![s[i]] + (s.subrange(i + 1, j) + spec_redact_cards_from(s, j).0)
            =~= s.subrange(i, j) + spec_redact_cards_from(s, j).0);
    } else {
        assert(s.subrange(i, i) =~= Seq::<char>::empty());
        assert(s.subrange(i, i) + spec_redact_cards_from(s, i).0 =~= spec_redact_cards_from(
            s,
            i,
        ).0);
    }
}

proof fn lemma_run_end_ge(s: Seq<char>, i: int, j: int, cls: CharClass)
    requires
        0 <= i <= j <= s.len(),
        forall|q: int| i <= q < j ==> class_holds(cls, #[trigger] s[q]),
    ensures
        j <= run_end(s, i, cls) <= s.len(),
    decreases j - i,
{
    lemma_run_end(s, i, cls);
    if run_end(s, i, cls) < j {
        assert(class_holds(cls, s[run_end(s, i, cls)]));
        assert(false);
    }
}

proof fn lemma_trim_no_digits(s: Seq<char>, i: int, m: int, e0: int)
    requires
        0 <= i < m <= e0 <= s.len(),
        is_digit(s[m - 1]),
        forall|q: int| m <= q < e0 ==> !is_digit(#[trigger] s[q]),
    ensures
        trim_to_digit(s, i, e0) == m,
    decreases e0 - m,
{
    if e0 > m {
        lemma_trim_no_digits(s, i, m, e0 - 1);
    }
}

proof fn lemma_run_end_prefix(s: Seq<char>, i: int, m: int, cls: CharClass)
    requires
        0 <= i <= m <= s.len(),
        forall|q: int| i <= q < m ==> class_holds(cls, #[trigger] s[q]),
    ensures
        run_end(s, i, cls) == run_end(s, m, cls),
    decreases m - i,
{
    if i < m {
        lemma_run_end_prefix(s, i + 1, m, cls);
    }
}

/// A word-bounded card-like span `[i, m)` of `s`: digits with embedded
/// spaces or dashes, starting and ending on a digit, holding 12 to 19
/// digits, delimited by word boundaries, with no further digit in the
/// separator stretch that follows it.
pub open spec fn card_span(s: Seq<char>, i: int, m: int) -> bool {
    &&& 0 <= i < m <= s.len()
    &&& is_digit(s[i])
    &&& is_digit(s[m - 1])
    &&& (forall|q: int| i <= q < m ==> is_digit_sep(#[trigger] s[q]))
    &&& (i == 0 || !is_word_char(s[i - 1]))
    &&& (m == s.len() || !is_word_char(s[m]))
    &&& (forall|q: int|
        m <= q < run_end(s, m, CharClass::DigitSep) ==> !is_digit(#[trigger] s[q]))
    &&& 12 <= digits_of(s.subrange(i, m)).len() <= 19
}

proof fn lemma_card_span_at(s: Seq<char>, i: int, m: int)
    requires
        card_span(s, i, m),
    ensures
        card_at(s, i),
        card_end(s, i) == m,
{
    assert(forall|q: int| i <= q < m ==> class_holds(CharClass::DigitSep, #[trigger] s[q]));
    lemma_run_end_prefix(s, i, m, CharClass::DigitSep);
    lemma_run_end(s, m, CharClass::DigitSep);
    lemma_trim_no_digits(s, i, m, run_end(s, m, CharClass::DigitSep));
    assert(card_end(s, i) == m);
    assert(card_at(s, i));
}

/// A card-like span whose digits pass the Luhn check, in a text where
/// no other card-like match starts anywhere, is replaced by the card
/// pass with the tag holding exactly its last four digits; all the
/// surrounding text is kept byte-identical, and one match is counted.
pub proof fn lemma_card_pass_masks_valid_span(s: Seq<char>, i: int, m: int)
    requires
        card_span(s, i, m),
        spec_luhn(digits_of(s.subrange(i, m))),
        forall|q: int| 0 <= q < i ==> !card_at(s, q),
        forall|q: int| m <= q < s.len() ==> !card_at(s, q),
    ensures
        spec_redact_cards(s).0 == s.subrange(0, i) + card_tag(digits_of(s.subrange(i, m)))
            + s.subrange(m, s.len() as int),
        spec_redact_cards(s).1 == 1,
{
    let d = digits_of(s.subrange(i, m));
    lemma_card_span_at(s, i, m);
    lemma_cards_copy_region(s, 0, i);
    assert(spec_redact_cards_from(s, i).0 == card_tag(d) + spec_redact_cards_from(s, m).0);
    assert(spec_redact_cards_from(s, i).1 == 1 + spec_redact_cards_from(s, m).1);
    lemma_cards_identity(s, m);
    assert(s.subrange(0, i) + (card_tag(d) + s.subrange(m, s.len() as int)) =~= s.subrange(0, i)
        + card_tag(d) + s.subrange(m, s.len() as int));
}

/// A card-like span whose digits fail the Luhn check, in a text where
/// no other card-like match starts anywhere, passes through the card
/// pass completely untouched and uncounted.
pub proof fn lemma_card_pass_leaves_invalid_span(s: Seq<char>, i: int, m: int)
    requires
        card_span(s, i, m),
        !spec_luhn(digits_of(s.subrange(i, m))),
        forall|q: int| 0 <= q < i ==> !card_at(s, q),
        forall|q: int| m <= q < s.len() ==> !card_at(s, q),
    ensures
        spec_redact_cards(s).0 == s,
        spec_redact_cards(s).1 == 0,
{
    lemma_card_span_at(s, i, m);
    lemma_cards_copy_region(s, 0, i);
    assert(spec_redact_cards_from(s, i).0 == s.subrange(i, m) + spec_redact_cards_from(s, m).0);
    assert(spec_redact_cards_from(s, i).1 == spec_redact_cards_from(s, m).1);
    lemma_cards_identity(s, m);
    assert(s.subrange(0, i) + (s.subrange(i, m) + s.subrange(m, s.len() as int)) =~= s);
}

proof fn lemma_no_at_no_email(s: Seq<char>)
    requires
        forall|q: int| 0 <= q < s.len() ==> #[trigger] s[q] != '@',
    ensures
        forall|q: int| 0 <= q < s.len() ==> !email_at(s, q),
{
    assert forall|q: int| 0 <= q < s.len() implies !email_at(s, q) by {
        lemma_run_end(s, q, CharClass::Local);
    }
}

/// No phone-like match exists anywhere in a card tag embedded in
/// digit-free surrounding text: the tag's digits never reach the seven a
/// phone match needs.
proof fn lemma_no_phone_around_tag(u: Seq<char>, d: Seq<char>, v: Seq<char>)
    requires
        all_digits(d),
        12 <= d.len() <= 19,
        forall|q: int| 0 <= q < u.len() ==> !is_digit(#[trigger] u[q]),
        forall|q: int| 0 <= q < v.len() ==> !is_digit(#[trigger] v[q]),
    ensures
        forall|q: int|
            0 <= q < (u + card_tag(d) + v).len() ==> !phone_at(u + card_tag(d) + v, q),
{
    let t = u + card_tag(d) + v;
    let i = u.len() as int;
    let tag = card_tag(d);
    assert(tag.len() == 20);
    assert(forall|q: int| 0 <= q < i ==> t[q] == u[q]);
    assert(forall|q: int| i <= q < i + 20 ==> t[q] == tag[q - i]);
    assert(forall|q: int| i + 20 <= q < t.len() ==> t[q] == v[q - i - 20]);
    assert(forall|r: int| 16 <= r < 20 ==> tag[r] == d[d.len() - 4 + (r - 16)]);
    assert forall|p: int| 0 <= p < t.len() && is_digit(#[trigger] t[p]) implies (p == i + 14 || (i
        + 16 <= p < i + 20)) by {
        if p < i || p >= i + 20 {
            assert(false);
        } else {
            let r = p - i;
            if r < 16 && r != 14 {
                assert(!is_digit(tag[r]));
            }
        }
    }
    assert forall|q: int| 0 <= q < t.len() implies !phone_at(t, q) by {
        if phone_at(t, q) {
            let b = phone_body_start(t, q);
            assert(is_digit(t[b]));
            assert(b == i + 14 || (i + 16 <= b < i + 20));
            if b == i + 14 {
                assert(t[b + 1] == '_');
                assert(run_end(t, b + 1, CharClass::DigitSep) == b + 1);
                assert(run_end(t, b, CharClass::DigitSep) == b + 1);
                assert(trim_to_digit(t, b, b + 1) == b + 1);
                lemma_digits_of_len(t.subrange(b, b + 1));
                assert(digits_of(t.subrange(b, phone_end(t, q))).len() <= 1);
                assert(false);
            } else {
                assert(forall|z: int|
                    b <= z < i + 20 ==> class_holds(CharClass::DigitSep, #[trigger] t[z]));
                lemma_run_end(t, b, CharClass::DigitSep);
                lemma_run_end_ge(t, b, i + 20, CharClass::DigitSep);
                assert(forall|z: int| i + 20 <= z < t.len() ==> !is_digit(#[trigger] t[z]));
                lemma_trim_no_digits(t, b, i + 20, run_end(t, b, CharClass::DigitSep));
                assert(phone_end(t, q) == i + 20);
                lemma_digits_of_len(t.subrange(b, i + 20));
                assert(digits_of(t.subrange(b, phone_end(t, q))).len() <= 4);
                assert(false);
            }
        }
    }
}

/// No card-like match exists anywhere in a card tag embedded in
/// digit-free surrounding text: the tag's digits never reach the twelve
/// a card match needs.
proof fn lemma_no_card_around_tag(u: Seq<char>, d: Seq<char>, v: Seq<char>)
    requires
        all_digits(d),
        12 <= d.len() <= 19,
        forall|q: int| 0 <= q < u.len() ==> !is_digit(#[trigger] u[q]),
        forall|q: int| 0 <= q < v.len() ==> !is_digit(#[trigger] v[q]),
    ensures
        forall|q: int| 0 <= q < (u + card_tag(d) + v).len() ==> !card_at(u + card_tag(d) + v, q),
{
    let t = u + card_tag(d) + v;
    let i = u.len() as int;
    let tag = card_tag(d);
    assert(tag.len() == 20);
    assert(forall|q: int| 0 <= q < i ==> t[q] == u[q]);
    assert(forall|q: int| i <= q < i + 20 ==> t[q] == tag[q - i]);
    assert(forall|q: int| i + 20 <= q < t.len() ==> t[q] == v[q - i - 20]);
    assert(forall|r: int| 16 <= r < 20 ==> tag[r] == d[d.len() - 4 + (r - 16)]);
    assert forall|p: int| 0 <= p < t.len() && is_digit(#[trigger] t[p]) implies (p == i + 14 || (i
        + 16 <= p < i + 20)) by {
        if p < i || p >= i + 20 {
            assert(false);
        } else {
            let r = p - i;
            if r < 16 && r != 14 {
                assert(!is_digit(tag[r]));
            }
        }
    }
    assert forall|q: int| 0 <= q < t.len() implies !card_at(t, q) by {
        if card_at(t, q) {
            assert(is_digit(t[q]));
            if q == i + 14 {
                assert(t[q + 1] == '_');
                assert(run_end(t, q + 1, CharClass::DigitSep) == q + 1);
                assert(run_end(t, q, CharClass::DigitSep) == q + 1);
                assert(trim_to_digit(t, q, q + 1) == q + 1);
                lemma_digits_of_len(t.subrange(q, q + 1));
                assert(digits_of(t.subrange(q, card_end(t, q))).len() <= 1);
                assert(false);
            } else {
                assert(forall|z: int|
                    q <= z < i + 20 ==> class_holds(CharClass::DigitSep, #[trigger] t[z]));
                lemma_run_end(t, q, CharClass::DigitSep);
                lemma_run_end_ge(t, q, i + 20, CharClass::DigitSep);
                assert(forall|z: int| i + 20 <= z < t.len() ==> !is_digit(#[trigger] t[z]));
                lemma_trim_no_digits(t, q, i + 20, run_end(t, q, CharClass::DigitSep));
                assert(card_end(t, q) == i + 20);
                lemma_digits_of_len(t.subrange(q, i + 20));
                assert(digits_of(t.subrange(q, card_end(t, q))).len() <= 4);
                assert(false);
            }
        }
    }
}

/// A word-bounded card-like span (digits with embedded spaces or
/// dashes) whose digits pass the Luhn check, embedded in surrounding
/// text that holds no digits and no `@`, is redacted by the full
/// transform to the tag holding exactly its last four digits; all
/// surrounding text is kept byte-identical, and exactly one match is
/// counted.
pub proof fn lemma_redact_masks_embedded_card(u: Seq<char>, d: Seq<char>, v: Seq<char>)
    requires
        d.len() > 0,
        is_digit(d[0]),
        is_digit(d.last()),
        forall|q: int| 0 <= q < d.len() ==> is_digit_sep(#[trigger] d[q]),
        12 <= digits_of(d).len() <= 19,
        spec_luhn(digits_of(d)),
        forall|q: int| 0 <= q < u.len() ==> !is_digit(#[trigger] u[q]) && u[q] != '@',
        u.len() > 0 ==> !is_word_char(u.last()),
        forall|q: int| 0 <= q < v.len() ==> !is_digit(#[trigger] v[q]) && v[q] != '@',
        v.len() > 0 ==> !is_word_char(v[0]),
    ensures
        spec_redact(u + d + v).0 == u + card_tag(digits_of(d)) + v,
        spec_redact(u + d + v).1 == 1,
{
    let s = u + d + v;
    let i = u.len() as int;
    let m = i + d.len();
    let dd = digits_of(d);
    assert(s.subrange(0, i) =~= u);
    assert(s.subrange(i, m) =~= d);
    assert(s.subrange(m, s.len() as int) =~= v);
    assert(forall|q: int| 0 <= q < i ==> s[q] == u[q]);
    assert(forall|q: int| i <= q < m ==> s[q] == d[q - i]);
    assert(forall|q: int| m <= q < s.len() ==> s[q] == v[q - m]);
    assert(forall|q: int| 0 <= q < s.len() ==> #[trigger] s[q] != '@');
    lemma_no_at_no_email(s);
    lemma_emails_identity(s, 0);
    assert(s.subrange(0, s.len() as int) =~= s);
    lemma_run_end(s, m, CharClass::DigitSep);
    assert(card_span(s, i, m));
    assert(forall|q: int| 0 <= q < i ==> !card_at(s, q));
    assert(forall|q: int| m <= q < s.len() ==> !card_at(s, q));
    lemma_card_pass_masks_valid_span(s, i, m);
    let t = u + card_tag(dd) + v;
    assert(spec_redact_cards(s).0 == t);
    lemma_digits_of_len(d);
    lemma_no_phone_around_tag(u, dd, v);
    lemma_phones_identity(t, 0);
    assert(t.subrange(0, t.len() as int) =~= t);
}

/// Redacting the output of a card redaction again changes nothing and
/// counts nothing: the tag's digits are too few to re-match, so the
/// transform is idempotent on these outputs.
pub proof fn lemma_redact_card_output_idempotent(u: Seq<char>, d: Seq<char>, v: Seq<char>)
    requires
        d.len() > 0,
        is_digit(d[0]),
        is_digit(d.last()),
        forall|q: int| 0 <= q < d.len() ==> is_digit_sep(#[trigger] d[q]),
        12 <= digits_of(d).len() <= 19,
        spec_luhn(digits_of(d)),
        forall|q: int| 0 <= q < u.len() ==> !is_digit(#[trigger] u[q]) && u[q] != '@',
        u.len() > 0 ==> !is_word_char(u.last()),
        forall|q: int| 0 <= q < v.len() ==> !is_digit(#[trigger] v[q]) && v[q] != '@',
        v.len() > 0 ==> !is_word_char(v[0]),
    ensures
        spec_redact(u + d + v).0 == u + card_tag(digits_of(d)) + v,
        spec_redact(spec_redact(u + d + v).0).0 == spec_redact(u + d + v).0,
        spec_redact(spec_redact(u + d + v).0).1 == 0,
{
    lemma_redact_masks_embedded_card(u, d, v);
    lemma_digits_of_len(d);
    let dd = digits_of(d);
    let t = u + card_tag(dd) + v;
    let i = u.len() as int;
    let tag = card_tag(dd);
    assert(forall|q: int| 0 <= q < i ==> t[q] == u[q]);
    assert(forall|q: int| i <= q < i + 20 ==> t[q] == tag[q - i]);
    assert(forall|q: int| i + 20 <= q < t.len() ==> t[q] == v[q - i - 20]);
    assert(forall|r: int| 16 <= r < 20 ==> tag[r] == dd[dd.len() - 4 + (r - 16)]);
    assert forall|q: int| 0 <= q < t.len() implies #[trigger] t[q] != '@' by {
        if i <= q < i + 20 {
            let r = q - i;
            if r >= 16 {
                assert(is_digit(tag[r]));
            } else {
                assert(tag[r] != '@');
            }
        }
    }
    lemma_no_at_no_email(t);
    lemma_emails_identity(t, 0);
    assert(t.subrange(0, t.len() as int) =~= t);
    lemma_no_card_around_tag(u, dd, v);
    lemma_cards_identity(t, 0);
    lemma_no_phone_around_tag(u, dd, v);
    lemma_phones_identity(t, 0);
}

/// Luhn checksum validation for card-like digit strings: valid iff the
/// input is 12 to 19 characters, all digits, and the checksum total
/// (doubling every second digit from the right, subtracting 9 when the
/// doubled value exceeds 9) is divisible by 10.
pub fn luhn_check(digits: &str) -> (valid: bool)
    ensures
        valid == spec_luhn(digits@),
{
    let cs = chars_vec(digits);
    luhn_chars(&cs)
}

} // verus!
