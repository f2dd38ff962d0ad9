//! Characters: the Unicode classes the scanner uses, and helpers on character vectors.

use vstd::prelude::*;
use vstd::string::StrSliceExecFns;

verus! {

/// Unicode's `White_Space` characters, which `char::is_whitespace` is documented to test.
pub open spec fn white_space(c: char) -> bool {
    ('\u{9}' <= c <= '\u{d}') || c == ' ' || c == '\u{85}' || c == '\u{a0}' || c == '\u{1680}'
        || ('\u{2000}' <= c <= '\u{200a}') || c == '\u{2028}' || c == '\u{2029}' || c == '\u{202f}'
        || c == '\u{205f}' || c == '\u{3000}'
}

/// What `char::is_alphabetic` says of a character (Unicode `Alphabetic`).
pub uninterp spec fn alphabetic(c: char) -> bool;

/// What `char::is_numeric` says of a character (Unicode general categories `Nd`, `Nl`, `No`).
pub uninterp spec fn numeric(c: char) -> bool;

/// `char::is_alphanumeric` is documented as `is_alphabetic() || is_numeric()`.
pub open spec fn alphanumeric(c: char) -> bool {
    alphabetic(c) || numeric(c)
}

pub fn is_white_space(c: char) -> (r: bool)
    ensures
        r == white_space(c),
{
    ('\u{9}' <= c && c <= '\u{d}') || c == ' ' || c == '\u{85}' || c == '\u{a0}' || c == '\u{1680}'
        || ('\u{2000}' <= c && c <= '\u{200a}') || c == '\u{2028}' || c == '\u{2029}' || c == '\u{202f}'
        || c == '\u{205f}' || c == '\u{3000}'
}

/// Relies on `char::is_alphabetic`: ASCII letters are alphabetic; ASCII digits, the space
/// and ASCII punctuation are not.
#[verifier::external_body]
pub fn is_alphabetic(c: char) -> (r: bool)
    ensures
        r == alphabetic(c),
        ('a' <= c <= 'z') || ('A' <= c <= 'Z') ==> r,
        ('0' <= c <= '9') || c == ' ' || c == '(' || c == ')' || c == '_' || c == ',' ==> !r,
{
    c.is_alphabetic()
}

/// Relies on `char::is_numeric`: ASCII digits are numeric; ASCII letters, the space and
/// ASCII punctuation are not.
#[verifier::external_body]
pub fn is_numeric(c: char) -> (r: bool)
    ensures
        r == numeric(c),
        '0' <= c <= '9' ==> r,
        ('a' <= c <= 'z') || ('A' <= c <= 'Z') || c == ' ' || c == '.' || c == '(' || c == ')' || c == '_' || c == ',' ==> !r,
{
    c.is_numeric()
}

pub fn is_alphanumeric(c: char) -> (r: bool)
    ensures
        r == alphanumeric(c),
{
    is_alphabetic(c) || is_numeric(c)
}

pub open spec fn is_ascii_digit(c: char) -> bool {
    '0' <= c <= '9'
}

/// The characters of a string, one by one.
pub fn to_chars(s: &str) -> (v: Vec<char>)
    ensures
        v@ == s@,
{
    let n = s.unicode_len();
    let mut v: Vec<char> = Vec::new();
    let mut i: usize = 0;
    while i < n
        invariant
            n == s@.len(),
            i <= n,
            v@ == s@.subrange(0, i as int),
        decreases n - i,
    {
        v.push(s.get_char(i));
        i += 1;
    }
    assert(v@ =~= s@);
    v
}

/// Whether the characters `a[lo..hi]` spell the string `b`.
pub fn spells(a: &Vec<char>, lo: usize, hi: usize, b: &str) -> (r: bool)
    requires
        lo <= hi <= a@.len(),
    ensures
        r == (a@.subrange(lo as int, hi as int) == b@),
{
    let n = b.unicode_len();
    if hi - lo != n {
        proof {
            assert(a@.subrange(lo as int, hi as int).len() != b@.len());
        }
        return false;
    }
    let mut i: usize = 0;
    while i < n
        invariant
            n == b@.len(),
            hi - lo == n,
            lo <= hi <= a@.len(),
            i <= n,
            forall|k: int| 0 <= k < i ==> a@[lo + k] == b@[k],
        decreases n - i,
    {
        if a[lo + i] != b.get_char(i) {
            proof {
                assert(a@.subrange(lo as int, hi as int)[i as int] != b@[i as int]);
            }
            return false;
        }
        i += 1;
    }
    assert(a@.subrange(lo as int, hi as int) =~= b@);
    true
}

/// A copy of `a[lo..hi]`.
pub fn copy_range(a: &Vec<char>, lo: usize, hi: usize) -> (r: Vec<char>)
    requires
        lo <= hi <= a@.len(),
    ensures
        r@ == a@.subrange(lo as int, hi as int),
{
    let mut r: Vec<char> = Vec::new();
    let mut i: usize = lo;
    while i < hi
        invariant
            lo <= i <= hi <= a@.len(),
            r@ == a@.subrange(lo as int, i as int),
        decreases hi - i,
    {
        r.push(a[i]);
        i += 1;
    }
    r
}

/// The first index at or after `lo` (and before `hi`) that is not white space, or `hi`.
pub open spec fn skip_space_from(s: Seq<char>, lo: int, hi: int) -> int
    decreases hi - lo,
{
    if lo < hi && white_space(s[lo]) {
        skip_space_from(s, lo + 1, hi)
    } else {
        lo
    }
}

/// The index after the last character before `hi` (and at or after `lo`) that is not white space, or `lo`.
pub open spec fn skip_space_back(s: Seq<char>, lo: int, hi: int) -> int
    decreases hi - lo,
{
    if lo < hi && white_space(s[hi - 1]) {
        skip_space_back(s, lo, hi - 1)
    } else {
        hi
    }
}

/// The bounds of `s[lo..hi]` with white space taken off both ends, as `str::trim` does.
pub open spec fn trimmed(s: Seq<char>, lo: int, hi: int) -> (int, int) {
    let a = skip_space_from(s, lo, hi);
    (a, skip_space_back(s, a, hi))
}

proof fn lemma_skip_from_bounds(s: Seq<char>, lo: int, hi: int)
    requires
        lo <= hi,
    ensures
        lo <= skip_space_from(s, lo, hi) <= hi,
    decreases hi - lo,
{
    if lo < hi && white_space(s[lo]) {
        lemma_skip_from_bounds(s, lo + 1, hi);
    }
}

proof fn lemma_skip_back_bounds(s: Seq<char>, lo: int, hi: int)
    requires
        lo <= hi,
    ensures
        lo <= skip_space_back(s, lo, hi) <= hi,
    decreases hi - lo,
{
    if lo < hi && white_space(s[hi - 1]) {
        lemma_skip_back_bounds(s, lo, hi - 1);
    }
}

/// The bounds of `a[lo..hi]` without its leading and trailing white space.
pub fn trim(a: &Vec<char>, lo: usize, hi: usize) -> (r: (usize, usize))
    requires
        lo <= hi <= a@.len(),
    ensures
        r.0 as int == trimmed(a@, lo as int, hi as int).0,
        r.1 as int == trimmed(a@, lo as int, hi as int).1,
        lo <= r.0 <= r.1 <= hi,
{
    let mut i = lo;
    while i < hi && is_white_space(a[i])
        invariant
            lo <= i <= hi <= a@.len(),
            skip_space_from(a@, lo as int, hi as int) == skip_space_from(a@, i as int, hi as int),
        decreases hi - i,
    {
        i += 1;
    }
    let mut j = hi;
    proof {
        lemma_skip_back_bounds(a@, i as int, hi as int);
    }
    while j > i && is_white_space(a[j - 1])
        invariant
            lo <= i <= j <= hi <= a@.len(),
            skip_space_back(a@, i as int, hi as int) == skip_space_back(a@, i as int, j as int),
        decreases j - i,
    {
        j -= 1;
    }
    (i, j)
}

} // verus!
