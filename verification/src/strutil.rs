//! Verified helpers for working with strings as sequences of characters:
//! character classes, equality, lexicographic order, substring search,
//! trimming, decimal parsing and formatting, and joining.

use vstd::prelude::*;
use vstd::string::StrSliceExecFns;
use vstd::string::StringExecFns;

verus! {

// ---------------------------------------------------------------------------
// Character classes
// ---------------------------------------------------------------------------

/// A decimal digit `0..=9`.
pub open spec fn is_ascii_digit_char(c: char) -> bool {
    '0' <= c && c <= '9'
}

/// A hexadecimal digit as accepted by registry identifiers.
pub open spec fn is_hex_digit_char(c: char) -> bool {
    ('0' <= c && c <= '9') || ('a' <= c && c <= 'f') || ('A' <= c && c <= 'F')
}

/// The Unicode `White_Space` code points, as trimmed from status file content.
pub open spec fn is_whitespace_char(c: char) -> bool {
    ||| c == ' '
    ||| c == '\t'
    ||| c == '\n'
    ||| c == '\r'
    ||| c == '\u{b}'
    ||| c == '\u{c}'
    ||| c == '\u{85}'
    ||| c == '\u{a0}'
    ||| c == '\u{1680}'
    ||| ('\u{2000}' <= c && c <= '\u{200a}')
    ||| c == '\u{2028}'
    ||| c == '\u{2029}'
    ||| c == '\u{202f}'
    ||| c == '\u{205f}'
    ||| c == '\u{3000}'
}

pub fn ascii_digit(c: char) -> (r: bool)
    ensures
        r == is_ascii_digit_char(c),
{
    '0' <= c && c <= '9'
}

pub fn hex_digit(c: char) -> (r: bool)
    ensures
        r == is_hex_digit_char(c),
{
    ('0' <= c && c <= '9') || ('a' <= c && c <= 'f') || ('A' <= c && c <= 'F')
}

pub fn whitespace(c: char) -> (r: bool)
    ensures
        r == is_whitespace_char(c),
{
    c == ' ' || c == '\t' || c == '\n' || c == '\r' || c == '\u{b}' || c == '\u{c}' || c == '\u{85}'
        || c == '\u{a0}' || c == '\u{1680}' || ('\u{2000}' <= c && c <= '\u{200a}') || c
        == '\u{2028}' || c == '\u{2029}' || c == '\u{202f}' || c == '\u{205f}' || c == '\u{3000}'
}

// ---------------------------------------------------------------------------
// Equality and lexicographic order
// ---------------------------------------------------------------------------

/// Character-wise string equality.
pub fn str_eq(a: &str, b: &str) -> (r: bool)
    ensures
        r == (a@ == b@),
{
    let an = a.unicode_len();
    let bn = b.unicode_len();
    if an != bn {
        return false;
    }
    let mut i: usize = 0;
    while i < an
        invariant
            an == a@.len(),
            an == b@.len(),
            i <= an,
            forall|j: int| 0 <= j < i ==> a@[j] == b@[j],
        decreases an - i,
    {
        if a.get_char(i) != b.get_char(i) {
            return false;
        }
        i = i + 1;
    }
    proof {
        assert(a@ =~= b@);
    }
    true
}

/// Lexicographic order on character sequences by code point, which agrees
/// with the byte-wise order `str` values have in Rust.
pub open spec fn lex_leq(a: Seq<char>, b: Seq<char>) -> bool
    decreases a.len(),
{
    if a.len() == 0 {
        true
    } else if b.len() == 0 {
        false
    } else if a[0] != b[0] {
        a[0] < b[0]
    } else {
        lex_leq(a.drop_first(), b.drop_first())
    }
}

/// `lex_leq` is unchanged by dropping an equal prefix.
proof fn lemma_lex_leq_skip(a: Seq<char>, b: Seq<char>, k: int)
    requires
        0 <= k <= a.len(),
        k <= b.len(),
        forall|j: int| 0 <= j < k ==> a[j] == b[j],
    ensures
        lex_leq(a, b) == lex_leq(a.skip(k), b.skip(k)),
    decreases k,
{
    if k > 0 {
        assert(a.len() > 0 && b.len() > 0);
        lemma_lex_leq_skip(a.drop_first(), b.drop_first(), k - 1);
        assert(a.drop_first().skip(k - 1) =~= a.skip(k));
        assert(b.drop_first().skip(k - 1) =~= b.skip(k));
    } else {
        assert(a.skip(0) =~= a);
        assert(b.skip(0) =~= b);
    }
}

/// `lex_leq` is reflexive.
pub proof fn lemma_lex_leq_refl(a: Seq<char>)
    ensures
        lex_leq(a, a),
    decreases a.len(),
{
    if a.len() > 0 {
        lemma_lex_leq_refl(a.drop_first());
    }
}

/// `lex_leq` is total: any two sequences are comparable.
pub proof fn lemma_lex_leq_total(a: Seq<char>, b: Seq<char>)
    ensures
        lex_leq(a, b) || lex_leq(b, a),
    decreases a.len(),
{
    if a.len() > 0 && b.len() > 0 && a[0] == b[0] {
        lemma_lex_leq_total(a.drop_first(), b.drop_first());
    }
}

/// `lex_leq` is transitive.
pub proof fn lemma_lex_leq_trans(a: Seq<char>, b: Seq<char>, c: Seq<char>)
    requires
        lex_leq(a, b),
        lex_leq(b, c),
    ensures
        lex_leq(a, c),
    decreases a.len(),
{
    if a.len() > 0 && b.len() > 0 && c.len() > 0 {
        if a[0] == b[0] && b[0] == c[0] {
            lemma_lex_leq_trans(a.drop_first(), b.drop_first(), c.drop_first());
        }
    }
}

/// Character-wise comparison deciding `lex_leq` on the views.
pub fn str_leq(a: &str, b: &str) -> (r: bool)
    ensures
        r == lex_leq(a@, b@),
{
    let an = a.unicode_len();
    let bn = b.unicode_len();
    let n = if an < bn {
        an
    } else {
        bn
    };
    let mut i: usize = 0;
    while i < n
        invariant
            an == a@.len(),
            bn == b@.len(),
            n == if an < bn {
                an
            } else {
                bn
            },
            i <= n,
            forall|j: int| 0 <= j < i ==> a@[j] == b@[j],
        decreases n - i,
    {
        let ca = a.get_char(i);
        let cb = b.get_char(i);
        if ca != cb {
            proof {
                lemma_lex_leq_skip(a@, b@, i as int);
            }
            return ca < cb;
        }
        i = i + 1;
    }
    proof {
        lemma_lex_leq_skip(a@, b@, n as int);
    }
    an <= bn
}

// ---------------------------------------------------------------------------
// Substring search
// ---------------------------------------------------------------------------

/// `pat` occurs in `s` at position `i`.
pub open spec fn match_at(s: Seq<char>, pat: Seq<char>, i: int) -> bool {
    0 <= i && i + pat.len() <= s.len() && s.subrange(i, i + pat.len()) == pat
}

/// Whether `pat` occurs at position `i` of `s`, by comparing characters.
fn check_match_at(s: &str, pat: &str, i: usize) -> (r: bool)
    requires
        i + pat@.len() <= s@.len(),
    ensures
        r == match_at(s@, pat@, i as int),
{
    let sn = s.unicode_len();
    let pn = pat.unicode_len();
    let mut j: usize = 0;
    while j < pn
        invariant
            sn == s@.len(),
            pn == pat@.len(),
            i + pn <= sn,
            j <= pn,
            forall|k: int| 0 <= k < j ==> s@[i + k] == pat@[k],
        decreases pn - j,
    {
        if s.get_char(i + j) != pat.get_char(j) {
            proof {
                assert(s@.subrange(i as int, i + pat@.len())[j as int] != pat@[j as int]);
            }
            return false;
        }
        j = j + 1;
    }
    proof {
        assert(s@.subrange(i as int, i + pat@.len()) =~= pat@);
    }
    true
}

/// First occurrence of `pat` in `s`, like `str::find` on a literal pattern.
pub fn find(s: &str, pat: &str) -> (r: Option<usize>)
    ensures
        match r {
            Some(i) => match_at(s@, pat@, i as int) && forall|j: int|
                0 <= j < i ==> !match_at(s@, pat@, j),
            None => forall|j: int| !match_at(s@, pat@, j),
        },
{
    let sn = s.unicode_len();
    let pn = pat.unicode_len();
    if pn > sn {
        return None;
    }
    if pn == 0 {
        proof {
            assert(s@.subrange(0, 0) =~= pat@);
        }
        return Some(0);
    }
    let mut i: usize = 0;
    while i <= sn - pn
        invariant
            sn == s@.len(),
            pn == pat@.len(),
            0 < pn <= sn,
            i <= sn - pn + 1,
            forall|j: int| 0 <= j < i ==> !match_at(s@, pat@, j),
        decreases sn - i,
    {
        if check_match_at(s, pat, i) {
            return Some(i);
        }
        i = i + 1;
    }
    proof {
        assert(forall|j: int| j > sn - pn ==> !match_at(s@, pat@, j));
    }
    None
}

/// First occurrence of the character `c` in `s`.
pub fn find_char(s: &str, c: char) -> (r: Option<usize>)
    ensures
        match r {
            Some(i) => 0 <= i < s@.len() && s@[i as int] == c && forall|j: int|
                0 <= j < i ==> s@[j] != c,
            None => forall|j: int| 0 <= j < s@.len() ==> s@[j] != c,
        },
{
    let sn = s.unicode_len();
    let mut i: usize = 0;
    while i < sn
        invariant
            sn == s@.len(),
            i <= sn,
            forall|j: int| 0 <= j < i ==> s@[j] != c,
        decreases sn - i,
    {
        if s.get_char(i) == c {
            return Some(i);
        }
        i = i + 1;
    }
    None
}

/// Does `s` start with `pre`?
pub fn str_starts_with(s: &str, pre: &str) -> (r: bool)
    ensures
        r == pre@.is_prefix_of(s@),
{
    let sn = s.unicode_len();
    let pn = pre.unicode_len();
    if pn > sn {
        return false;
    }
    let r = check_match_at(s, pre, 0);
    proof {
        assert(s@.subrange(0, pre@.len() as int) =~= s@.take(pre@.len() as int));
    }
    r
}

/// Does `s` end with `suf`?
pub fn str_ends_with(s: &str, suf: &str) -> (r: bool)
    ensures
        r == suf@.is_suffix_of(s@),
{
    let sn = s.unicode_len();
    let fn_ = suf.unicode_len();
    if fn_ > sn {
        return false;
    }
    let r = check_match_at(s, suf, sn - fn_);
    proof {
        assert(s@.subrange(sn - fn_, sn as int) =~= s@.skip(sn - fn_));
    }
    r
}

/// Index of the first occurrence of `pat` in `s`; `s.len()` can mean that
/// there is none (see `lemma_first_match_idx`).
pub open spec fn first_match_idx(s: Seq<char>, pat: Seq<char>) -> int
    decreases s.len(),
{
    if s.len() == 0 {
        0
    } else if s.len() < pat.len() {
        s.len() as int
    } else if s.take(pat.len() as int) == pat {
        0
    } else {
        1 + first_match_idx(s.drop_first(), pat)
    }
}

/// Shifting a match over the dropped first character.
proof fn lemma_match_at_shift(s: Seq<char>, pat: Seq<char>, j: int)
    requires
        j >= 0,
        s.len() > 0,
    ensures
        match_at(s, pat, j + 1) == match_at(s.drop_first(), pat, j),
{
    if j + 1 + pat.len() <= s.len() {
        assert(s.subrange(j + 1, j + 1 + pat.len()) =~= s.drop_first().subrange(
            j,
            j + pat.len(),
        ));
    }
}

/// `first_match_idx` finds the first occurrence: a match is at the index
/// whenever one fits, and no match lies before it.
pub proof fn lemma_first_match_idx(s: Seq<char>, pat: Seq<char>)
    ensures
        0 <= first_match_idx(s, pat) <= s.len(),
        first_match_idx(s, pat) + pat.len() <= s.len() ==> match_at(
            s,
            pat,
            first_match_idx(s, pat),
        ),
        forall|j: int| 0 <= j < first_match_idx(s, pat) ==> !match_at(s, pat, j),
        first_match_idx(s, pat) + pat.len() > s.len() ==> forall|j: int| !match_at(s, pat, j),
    decreases s.len(),
{
    let i = first_match_idx(s, pat);
    if s.len() == 0 {
        if pat.len() == 0 {
            assert(s.subrange(0, 0) =~= pat);
        }
    } else if s.len() < pat.len() {
        assert(forall|j: int| !match_at(s, pat, j));
    } else if s.take(pat.len() as int) == pat {
        assert(s.subrange(0, pat.len() as int) == s.take(pat.len() as int));
    } else {
        lemma_first_match_idx(s.drop_first(), pat);
        let ir = first_match_idx(s.drop_first(), pat);
        assert(!match_at(s, pat, 0)) by {
            assert(s.subrange(0, pat.len() as int) == s.take(pat.len() as int));
        }
        assert(forall|j: int| 0 <= j < i ==> !match_at(s, pat, j)) by {
            assert(forall|j: int|
                1 <= j < i ==> !match_at(s.drop_first(), pat, j - 1) && (match_at(
                    s,
                    pat,
                    j,
                ) == match_at(s.drop_first(), pat, (j - 1) as int))) by {
                assert forall|j: int| 1 <= j < i implies match_at(s, pat, j) == match_at(
                    s.drop_first(),
                    pat,
                    (j - 1) as int,
                ) by {
                    lemma_match_at_shift(s, pat, j - 1);
                }
            }
        }
        if i + pat.len() <= s.len() {
            lemma_match_at_shift(s, pat, ir);
        }
        if i + pat.len() > s.len() {
            assert forall|j: int| !match_at(s, pat, j) by {
                if j >= 1 {
                    lemma_match_at_shift(s, pat, j - 1);
                }
            }
        }
    }
}

/// A first occurrence in the sense of `find` is where `first_match_idx` points.
pub proof fn lemma_first_match_agrees(s: Seq<char>, pat: Seq<char>, i: int)
    requires
        match_at(s, pat, i),
        forall|j: int| 0 <= j < i ==> !match_at(s, pat, j),
    ensures
        first_match_idx(s, pat) == i,
{
    let f = first_match_idx(s, pat);
    lemma_first_match_idx(s, pat);
    if f < i {
        assert(f + pat.len() < i + pat.len());
        assert(match_at(s, pat, f));
        assert(false);
    }
    if f > i {
        assert(!match_at(s, pat, i));
        assert(false);
    }
}

/// When `s` holds no occurrence of `pat`, `first_match_idx` leaves no room
/// for one.
pub proof fn lemma_no_match_agrees(s: Seq<char>, pat: Seq<char>)
    requires
        forall|j: int| !match_at(s, pat, j),
    ensures
        first_match_idx(s, pat) + pat.len() > s.len(),
{
    lemma_first_match_idx(s, pat);
}

// ---------------------------------------------------------------------------
// Line splitting
// ---------------------------------------------------------------------------

/// A carriage return left at the end of a line by a `\r\n` ending.
pub open spec fn strip_cr(l: Seq<char>) -> Seq<char> {
    if l.len() > 0 && l.last() == '\r' {
        l.drop_last()
    } else {
        l
    }
}

/// The lines of `s`, as `str::lines` yields them: split at `\n`, with a
/// `\r` before the `\n` stripped, and no empty line after a final `\n`.
pub open spec fn lines_spec(s: Seq<char>) -> Seq<Seq<char>>
    decreases s.len(),
{
    if s.len() == 0 {
        Seq::empty()
    } else {
        let i = first_match_idx(s, seq!['\n']);
        if 0 <= i < s.len() {
            seq![strip_cr(s.take(i))] + lines_spec(s.skip(i + 1))
        } else {
            seq![s]
        }
    }
}

/// Split `s` into lines, as `str::lines` does.
pub fn lines(s: &str) -> (r: Vec<String>)
    ensures
        r.deep_view() == lines_spec(s@),
{
    let mut r: Vec<String> = Vec::new();
    let mut cur: &str = s;
    let ghost whole = s@;
    proof {
        assert(r.deep_view() =~= Seq::<Seq<char>>::empty());
        assert(r.deep_view() + lines_spec(cur@) =~= lines_spec(whole));
    }
    let mut n = cur.unicode_len();
    while n > 0
        invariant
            n == cur@.len(),
            r.deep_view() + lines_spec(cur@) == lines_spec(whole),
        decreases n,
    {
        let ghost old_dv = r.deep_view();
        let line: &str;
        let rest_start: usize;
        match find_char(cur, '\n') {
            Some(i) => {
                proof {
                    assert(match_at(cur@, seq!['\n'], i as int)) by {
                        assert(cur@.subrange(i as int, i + 1) =~= seq!['\n']);
                    }
                    assert forall|j: int| 0 <= j < i implies !match_at(
                        cur@,
                        seq!['\n'],
                        j,
                    ) by {
                        if match_at(cur@, seq!['\n'], j) {
                            assert(cur@.subrange(j, j + 1)[0] == cur@[j]);
                        }
                    }
                    lemma_first_match_agrees(cur@, seq!['\n'], i as int);
                }
                if i > 0 && cur.get_char(i - 1) == '\r' {
                    line = cur.substring_char(0, i - 1);
                    proof {
                        assert(cur@.take(i as int).last() == cur@[i - 1]);
                        assert(line@ =~= strip_cr(cur@.take(i as int)));
                    }
                } else {
                    line = cur.substring_char(0, i);
                    proof {
                        if cur@.take(i as int).len() > 0 {
                            assert(cur@.take(i as int).last() == cur@[i - 1]);
                        }
                        assert(line@ =~= strip_cr(cur@.take(i as int)));
                    }
                }
                rest_start = i + 1;
            },
            None => {
                proof {
                    assert forall|j: int| !match_at(cur@, seq!['\n'], j) by {
                        if 0 <= j < cur@.len() && match_at(cur@, seq!['\n'], j) {
                            assert(cur@.subrange(j, j + 1)[0] == cur@[j]);
                        }
                    }
                    lemma_no_match_agrees(cur@, seq!['\n']);
                }
                line = cur;
                rest_start = n;
            },
        }
        r.push(line.to_owned());
        proof {
            assert(r.deep_view() =~= old_dv.push(line@));
        }
        let rest = cur.substring_char(rest_start, n);
        proof {
            assert(rest@ =~= cur@.skip(rest_start as int));
            if rest_start < n {
                assert(old_dv.push(line@) + lines_spec(rest@) =~= old_dv + lines_spec(cur@));
            } else {
                assert(lines_spec(rest@) =~= Seq::<Seq<char>>::empty());
                assert(old_dv.push(line@) + lines_spec(rest@) =~= old_dv + lines_spec(cur@));
            }
        }
        cur = rest;
        n = cur.unicode_len();
    }
    proof {
        assert(lines_spec(cur@) =~= Seq::<Seq<char>>::empty());
        assert(r.deep_view() =~= lines_spec(whole));
    }
    r
}

// ---------------------------------------------------------------------------
// Trimming
// ---------------------------------------------------------------------------

/// `s` without leading whitespace.
pub open spec fn trim_start_spec(s: Seq<char>) -> Seq<char>
    decreases s.len(),
{
    if s.len() > 0 && is_whitespace_char(s[0]) {
        trim_start_spec(s.drop_first())
    } else {
        s
    }
}

/// `s` without trailing whitespace.
pub open spec fn trim_end_spec(s: Seq<char>) -> Seq<char>
    decreases s.len(),
{
    if s.len() > 0 && is_whitespace_char(s.last()) {
        trim_end_spec(s.drop_last())
    } else {
        s
    }
}

/// `s` without leading and trailing whitespace, as `str::trim` strips it.
pub open spec fn trim_spec(s: Seq<char>) -> Seq<char> {
    trim_end_spec(trim_start_spec(s))
}

/// Dropping a fully-whitespace prefix leaves `trim_start_spec` unchanged.
proof fn lemma_trim_start_eq(s: Seq<char>, k: int)
    requires
        0 <= k <= s.len(),
        forall|j: int| 0 <= j < k ==> is_whitespace_char(s[j]),
    ensures
        trim_start_spec(s) == trim_start_spec(s.skip(k)),
    decreases k,
{
    if k > 0 {
        lemma_trim_start_eq(s.drop_first(), k - 1);
        assert(s.drop_first().skip(k - 1) =~= s.skip(k));
    } else {
        assert(s.skip(0) =~= s);
    }
}

/// Dropping a fully-whitespace suffix leaves `trim_end_spec` unchanged.
proof fn lemma_trim_end_eq(s: Seq<char>, k: int)
    requires
        0 <= k <= s.len(),
        forall|j: int| k <= j < s.len() ==> is_whitespace_char(s[j]),
    ensures
        trim_end_spec(s) == trim_end_spec(s.take(k)),
    decreases s.len() - k,
{
    if k < s.len() {
        lemma_trim_end_eq(s.drop_last(), k);
        assert(s.drop_last().take(k) =~= s.take(k));
    } else {
        assert(s.take(s.len() as int) =~= s);
    }
}

/// `str::trim` over characters: strips leading and trailing whitespace.
pub fn trim(s: &str) -> (r: &str)
    ensures
        r@ == trim_spec(s@),
{
    let sn = s.unicode_len();
    let mut a: usize = 0;
    while a < sn && whitespace(s.get_char(a))
        invariant
            sn == s@.len(),
            a <= sn,
            forall|j: int| 0 <= j < a ==> is_whitespace_char(s@[j]),
        decreases sn - a,
    {
        a = a + 1;
    }
    proof {
        lemma_trim_start_eq(s@, a as int);
        if a < sn {
            assert(s@.skip(a as int)[0] == s@[a as int]);
        }
        assert(trim_start_spec(s@) == s@.skip(a as int));
    }
    if a == sn {
        let r = s.substring_char(sn, sn);
        proof {
            assert(r@ =~= s@.skip(a as int));
        }
        return r;
    }
    let mut b: usize = sn;
    while b > a && whitespace(s.get_char(b - 1))
        invariant
            sn == s@.len(),
            a <= b <= sn,
            a < sn,
            !is_whitespace_char(s@[a as int]),
            forall|j: int| b <= j < sn ==> is_whitespace_char(s@[j]),
        decreases b,
    {
        b = b - 1;
    }
    let r = s.substring_char(a, b);
    proof {
        let start = s@.skip(a as int);
        lemma_trim_end_eq(start, b - a);
        assert(forall|j: int| b - a <= j < start.len() ==> is_whitespace_char(#[trigger] start[j]));
        assert(b > a);
        assert(!is_whitespace_char(start[b - a - 1]));
        assert(start.take(b - a).last() == start[b - a - 1]);
        assert(trim_end_spec(start.take(b - a)) == start.take(b - a));
        assert(r@ =~= start.take(b - a));
    }
    r
}

// ---------------------------------------------------------------------------
// Decimal parsing
// ---------------------------------------------------------------------------

/// The value of a sequence of decimal digits, most significant first.
pub open spec fn dec_value(s: Seq<char>) -> int
    decreases s.len(),
{
    if s.len() == 0 {
        0
    } else {
        dec_value(s.drop_last()) * 10 + (s.last() as int - '0' as int)
    }
}

pub open spec fn all_digits(s: Seq<char>) -> bool {
    forall|i: int| 0 <= i < s.len() ==> is_ascii_digit_char(#[trigger] s[i])
}

/// The digits of an unsigned decimal literal: an optional leading `+` sign
/// followed by the digits themselves.
pub open spec fn digits_part(s: Seq<char>) -> Seq<char> {
    if s.len() > 0 && s[0] == '+' {
        s.drop_first()
    } else {
        s
    }
}

/// What `str::parse` returns for an unsigned integer type with maximum
/// value `max`: the digits' value when the shape is right and the value
/// fits, nothing otherwise.
pub open spec fn parse_uint_spec(s: Seq<char>, max: int) -> Option<int> {
    let d = digits_part(s);
    if d.len() > 0 && all_digits(d) && dec_value(d) <= max {
        Some(dec_value(d))
    } else {
        None
    }
}

proof fn lemma_dec_value_nonneg(s: Seq<char>)
    requires
        all_digits(s),
    ensures
        dec_value(s) >= 0,
    decreases s.len(),
{
    if s.len() > 0 {
        assert(all_digits(s.drop_last())) by {
            assert(forall|i: int|
                0 <= i < s.len() - 1 ==> #[trigger] s.drop_last()[i] == s[i]);
        }
        lemma_dec_value_nonneg(s.drop_last());
    }
}

/// A digit string is worth at least any of its prefixes.
proof fn lemma_dec_value_prefix(s: Seq<char>, k: int)
    requires
        all_digits(s),
        0 <= k <= s.len(),
    ensures
        dec_value(s) >= dec_value(s.take(k)),
    decreases s.len() - k,
{
    if k < s.len() {
        lemma_dec_value_prefix(s, k + 1);
        let p = s.take(k + 1);
        assert(all_digits(p)) by {
            assert(forall|i: int| 0 <= i < p.len() ==> #[trigger] p[i] == s[i]);
        }
        assert(p.drop_last() =~= s.take(k));
        assert(all_digits(p.drop_last()));
        lemma_dec_value_nonneg(p.drop_last());
        assert(is_ascii_digit_char(p.last()));
        assert(dec_value(p) >= dec_value(s.take(k)));
    } else {
        assert(s.take(k) =~= s);
    }
}

/// Parse an unsigned decimal integer no greater than `max`, with
/// `str::parse`'s shape: an optional `+`, then at least one digit.
fn parse_uint(s: &str, max: u64) -> (r: Option<u64>)
    ensures
        match parse_uint_spec(s@, max as int) {
            Some(v) => r == Some(v as u64) && 0 <= v <= max,
            None => r is None,
        },
{
    let sn = s.unicode_len();
    let start: usize = if sn > 0 && s.get_char(0) == '+' {
        1
    } else {
        0
    };
    let ghost d = digits_part(s@);
    proof {
        assert(d =~= s@.skip(start as int));
    }
    if start == sn {
        return None;
    }
    let mut i: usize = start;
    let mut acc: u64 = 0;
    while i < sn
        invariant
            sn == s@.len(),
            start <= i <= sn,
            start < sn,
            d == s@.skip(start as int),
            d == digits_part(s@),
            all_digits(d.take(i - start)),
            acc <= max,
            acc as int == dec_value(d.take(i - start)),
        decreases sn - i,
    {
        let c = s.get_char(i);
        proof {
            assert(d[i - start] == s@[i as int]);
        }
        if !ascii_digit(c) {
            proof {
                assert(!is_ascii_digit_char(d[i - start]));
                assert(!all_digits(d));
            }
            return None;
        }
        let dv: u64 = (c as u32) as u64 - 48;
        let ghost p = d.take(i + 1 - start);
        proof {
            assert(p.drop_last() =~= d.take(i - start));
            assert(p.last() == d[i - start]);
            assert(dec_value(p) == acc as int * 10 + dv as int);
            assert(all_digits(p)) by {
                assert(forall|j: int| 0 <= j < p.len() - 1 ==> p[j] == d.take(i - start)[j]);
            }
        }
        let next = match acc.checked_mul(10) {
            Some(m) => m.checked_add(dv),
            None => None,
        };
        let fits: Option<u64> = match next {
            Some(v) => if v <= max {
                Some(v)
            } else {
                None
            },
            None => None,
        };
        match fits {
            Some(v) => {
                acc = v;
            },
            None => {
                proof {
                    assert(dec_value(p) > max as int);
                    if all_digits(d) {
                        lemma_dec_value_prefix(d, i + 1 - start);
                        assert(dec_value(d) >= dec_value(p));
                    }
                }
                return None;
            },
        }
        i = i + 1;
    }
    proof {
        assert(d.take(sn - start) =~= d);
    }
    Some(acc)
}

/// `str::parse::<u64>`.
pub fn parse_u64(s: &str) -> (r: Option<u64>)
    ensures
        match parse_uint_spec(s@, u64::MAX as int) {
            Some(v) => r == Some(v as u64),
            None => r is None,
        },
{
    parse_uint(s, u64::MAX)
}

/// `str::parse::<u32>`.
pub fn parse_u32(s: &str) -> (r: Option<u32>)
    ensures
        match parse_uint_spec(s@, u32::MAX as int) {
            Some(v) => r == Some(v as u32),
            None => r is None,
        },
{
    match parse_uint(s, u32::MAX as u64) {
        Some(v) => Some(v as u32),
        None => None,
    }
}

/// `str::parse::<u16>`.
pub fn parse_u16(s: &str) -> (r: Option<u16>)
    ensures
        match parse_uint_spec(s@, u16::MAX as int) {
            Some(v) => r == Some(v as u16),
            None => r is None,
        },
{
    match parse_uint(s, u16::MAX as u64) {
        Some(v) => Some(v as u16),
        None => None,
    }
}

// ---------------------------------------------------------------------------
// Decimal formatting
// ---------------------------------------------------------------------------

/// The character for the decimal digit `d`.
pub open spec fn dec_digit_char(d: int) -> char {
    if d == 0 {
        '0'
    } else if d == 1 {
        '1'
    } else if d == 2 {
        '2'
    } else if d == 3 {
        '3'
    } else if d == 4 {
        '4'
    } else if d == 5 {
        '5'
    } else if d == 6 {
        '6'
    } else if d == 7 {
        '7'
    } else if d == 8 {
        '8'
    } else {
        '9'
    }
}

/// The decimal digits of `n`, most significant first, without leading zeros
/// (except for `n == 0` itself).
pub open spec fn dec_digits(n: int) -> Seq<char>
    decreases n,
{
    if n < 10 {
        seq![dec_digit_char(n)]
    } else {
        dec_digits(n / 10).push(dec_digit_char(n % 10))
    }
}

/// The single-character string for the decimal digit `d`.
fn dec_digit_str(d: u64) -> (r: &'static str)
    requires
        d < 10,
    ensures
        r@ =~= seq![dec_digit_char(d as int)],
{
    proof {
        reveal_strlit("0");
        reveal_strlit("1");
        reveal_strlit("2");
        reveal_strlit("3");
        reveal_strlit("4");
        reveal_strlit("5");
        reveal_strlit("6");
        reveal_strlit("7");
        reveal_strlit("8");
        reveal_strlit("9");
    }
    if d == 0 {
        "0"
    } else if d == 1 {
        "1"
    } else if d == 2 {
        "2"
    } else if d == 3 {
        "3"
    } else if d == 4 {
        "4"
    } else if d == 5 {
        "5"
    } else if d == 6 {
        "6"
    } else if d == 7 {
        "7"
    } else if d == 8 {
        "8"
    } else {
        "9"
    }
}

/// `n` written in decimal, as `{}` formats an unsigned integer.
pub fn u64_to_string(n: u64) -> (r: String)
    ensures
        r@ == dec_digits(n as int),
    decreases n,
{
    if n < 10 {
        let r = dec_digit_str(n).to_owned();
        proof {
            assert(r@ =~= dec_digits(n as int));
        }
        r
    } else {
        let mut r = u64_to_string(n / 10);
        r.append(dec_digit_str(n % 10));
        proof {
            assert(r@ =~= dec_digits(n as int));
        }
        r
    }
}

// ---------------------------------------------------------------------------
// Case folding
// ---------------------------------------------------------------------------

/// What Unicode lowercasing makes of a sequence of characters. The mapping
/// depends on the characters alone, so it can bear a name without a body.
pub uninterp spec fn lower_of(s: Seq<char>) -> Seq<char>;

/// Relies on str::to_lowercase: the Unicode lowercase mapping of the
/// string, a function of its characters alone; an empty string stays empty.
#[verifier::external_body]
pub(crate) fn to_lowercase(s: &str) -> (r: String)
    ensures
        r@ == lower_of(s@),
        s@.len() == 0 ==> r@.len() == 0,
{
    s.to_lowercase()
}

// ---------------------------------------------------------------------------
// Joining
// ---------------------------------------------------------------------------

/// The parts joined with `", "`, as `[String]::join` builds it.
pub open spec fn join_comma(parts: Seq<Seq<char>>) -> Seq<char>
    decreases parts.len(),
{
    if parts.len() == 0 {
        Seq::empty()
    } else if parts.len() == 1 {
        parts[0]
    } else {
        join_comma(parts.drop_last()) + ", "@ + parts.last()
    }
}

/// Join the parts with a comma and a space between consecutive parts.
pub fn join_with_comma(parts: &Vec<String>) -> (r: String)
    ensures
        r@ == join_comma(parts.deep_view()),
{
    let mut r = String::new();
    let mut i: usize = 0;
    while i < parts.len()
        invariant
            i <= parts.len(),
            parts.deep_view().len() == parts.len(),
            forall|j: int|
                0 <= j < parts.len() ==> parts.deep_view()[j] == #[trigger] parts@[j]@,
            r@ == join_comma(parts.deep_view().take(i as int)),
        decreases parts.len() - i,
    {
        if i > 0 {
            r.append(", ");
        }
        r.append(parts[i].as_str());
        proof {
            let pv = parts.deep_view();
            assert(pv.take(i + 1).drop_last() =~= pv.take(i as int));
            assert(pv.take(i + 1).last() == pv[i as int]);
            assert(r@ =~= join_comma(pv.take(i + 1)));
        }
        i = i + 1;
    }
    proof {
        assert(parts.deep_view().take(parts.len() as int) =~= parts.deep_view());
    }
    r
}

} // verus!

