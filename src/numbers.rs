//! Numbers without floating point: the order of 64-bit floats on their bit patterns, the
//! number readers that the host supplies, and integer and boolean literals.

use vstd::prelude::*;
use crate::text::copy_range;

verus! {

/// The bits of a 64-bit float below its sign bit.
pub const MAGNITUDE_MASK: u64 = 0x7fff_ffff_ffff_ffff;

/// The mantissa bits of a 64-bit float.
pub const MANTISSA_MASK: u64 = 0x000f_ffff_ffff_ffff;

/// Whether the bit pattern encodes a NaN of IEEE 754 binary64.
pub open spec fn is_nan(b: u64) -> bool {
    (b >> 52u64) & 0x7ffu64 == 0x7ffu64 && b & MANTISSA_MASK != 0
}

/// A key whose integer order is the IEEE 754 order of the non-NaN values that bit
/// patterns encode: the magnitude bits, negated where the sign bit is set (both zeros map to 0).
pub open spec fn order_key(b: u64) -> int {
    if b >> 63u64 == 1 {
        -((b & MAGNITUDE_MASK) as int)
    } else {
        (b & MAGNITUDE_MASK) as int
    }
}

/// `a < b` on the floats that the bit patterns encode.
pub open spec fn float_lt(a: u64, b: u64) -> bool {
    !is_nan(a) && !is_nan(b) && order_key(a) < order_key(b)
}

/// `a <= b` on the floats that the bit patterns encode.
pub open spec fn float_le(a: u64, b: u64) -> bool {
    !is_nan(a) && !is_nan(b) && order_key(a) <= order_key(b)
}

/// `a == b` on the floats that the bit patterns encode.
pub open spec fn float_eq(a: u64, b: u64) -> bool {
    !is_nan(a) && !is_nan(b) && order_key(a) == order_key(b)
}

pub fn nan(b: u64) -> (r: bool)
    ensures
        r == is_nan(b),
{
    (b >> 52u64) & 0x7ffu64 == 0x7ffu64 && b & MANTISSA_MASK != 0
}

fn key(b: u64) -> (r: i128)
    ensures
        r as int == order_key(b),
{
    if b >> 63u64 == 1 {
        -((b & MAGNITUDE_MASK) as i128)
    } else {
        (b & MAGNITUDE_MASK) as i128
    }
}

pub fn less_than(a: u64, b: u64) -> (r: bool)
    ensures
        r == float_lt(a, b),
{
    !nan(a) && !nan(b) && key(a) < key(b)
}

pub fn at_most(a: u64, b: u64) -> (r: bool)
    ensures
        r == float_le(a, b),
{
    !nan(a) && !nan(b) && key(a) <= key(b)
}

pub fn equal(a: u64, b: u64) -> (r: bool)
    ensures
        r == float_eq(a, b),
{
    !nan(a) && !nan(b) && key(a) == key(b)
}

/// A number reader: a function from text to the bit pattern of the number that the
/// text denotes (`None` where it denotes none), which may be called on any text and
/// gives the same answer for the same text.
pub open spec fn is_reader<F: Fn(&[char]) -> Option<u64>>(read: F) -> bool {
    &&& forall|s: &[char]| #[trigger] read.requires((s,))
    &&& forall|s1: &[char], s2: &[char], a: Option<u64>, b: Option<u64>|
        s1@ == s2@ && #[trigger] read.ensures((s1,), a) && #[trigger] read.ensures((s2,), b)
            ==> a == b
}

/// Whether the reader may give `r` for the text.
pub open spec fn reads_as<F: Fn(&[char]) -> Option<u64>>(read: F, text: Seq<char>, r: Option<u64>) -> bool {
    exists|s: &[char]| s@ == text && #[trigger] read.ensures((s,), r)
}

/// What the reader gives for the text.
pub open spec fn reading<F: Fn(&[char]) -> Option<u64>>(read: F, text: Seq<char>) -> Option<u64> {
    choose|r: Option<u64>| #[trigger] reads_as(read, text, r)
}

/// Reads the number written in `text[lo..hi]`.
pub fn read_range<F: Fn(&[char]) -> Option<u64>>(read: &F, text: &Vec<char>, lo: usize, hi: usize) -> (r: Option<u64>)
    requires
        is_reader(*read),
        lo <= hi <= text@.len(),
    ensures
        r == reading(*read, text@.subrange(lo as int, hi as int)),
{
    let piece = copy_range(text, lo, hi);
    let s = piece.as_slice();
    let r = read(s);
    proof {
        let t = text@.subrange(lo as int, hi as int);
        assert(reads_as(*read, t, r));
        let c = reading(*read, t);
        assert(reads_as(*read, t, c));
        let s2 = choose|s2: &[char]| s2@ == t && #[trigger] read.ensures((s2,), c);
        assert(read.ensures((s2,), c));
        assert(read.ensures((s,), r));
    }
    r
}

/// What `str::parse::<bool>` gives: exactly the texts `true` and `false` are booleans.
pub open spec fn bool_text(s: Seq<char>) -> Option<bool> {
    if s == "true"@ {
        Some(true)
    } else if s == "false"@ {
        Some(false)
    } else {
        None
    }
}

pub fn read_bool(text: &Vec<char>, lo: usize, hi: usize) -> (r: Option<bool>)
    requires
        lo <= hi <= text@.len(),
    ensures
        r == bool_text(text@.subrange(lo as int, hi as int)),
{
    if crate::text::spells(text, lo, hi, "true") {
        Some(true)
    } else if crate::text::spells(text, lo, hi, "false") {
        Some(false)
    } else {
        None
    }
}

/// The value of a sequence of ASCII digits.
pub open spec fn digits_value(s: Seq<char>) -> int
    decreases s.len(),
{
    if s.len() == 0 {
        0
    } else {
        10 * digits_value(s.drop_last()) + (s.last() as int - '0' as int)
    }
}

pub open spec fn all_digits(s: Seq<char>) -> bool {
    forall|i: int| 0 <= i < s.len() ==> crate::text::is_ascii_digit(#[trigger] s[i])
}

/// Whether `str::parse::<u64>` accepts the text: an optional `+`, then at least one ASCII
/// digit, with a value that fits in 64 bits.
pub open spec fn is_u64_text(s: Seq<char>) -> bool {
    let d = if s.len() > 0 && s[0] == '+' { s.drop_first() } else { s };
    d.len() > 0 && all_digits(d) && digits_value(d) <= u64::MAX
}

pub fn check_u64_text(text: &Vec<char>, lo: usize, hi: usize) -> (r: bool)
    requires
        lo <= hi <= text@.len(),
    ensures
        r == is_u64_text(text@.subrange(lo as int, hi as int)),
{
    let ghost s = text@.subrange(lo as int, hi as int);
    let start = if lo < hi && text[lo] == '+' { lo + 1 } else { lo };
    let ghost d = text@.subrange(start as int, hi as int);
    assert(d =~= (if s.len() > 0 && s[0] == '+' { s.drop_first() } else { s }));
    assert(is_u64_text(s) == (d.len() > 0 && all_digits(d) && digits_value(d) <= u64::MAX));
    if start == hi {
        return false;
    }
    let mut value: u64 = 0;
    let mut i = start;
    while i < hi
        invariant
            start <= i <= hi <= text@.len(),
            d == text@.subrange(start as int, hi as int),
            s == text@.subrange(lo as int, hi as int),
            is_u64_text(s) == (d.len() > 0 && all_digits(d) && digits_value(d) <= u64::MAX),
            all_digits(text@.subrange(start as int, i as int)),
            value as int == digits_value(text@.subrange(start as int, i as int)),
        decreases hi - i,
    {
        let c = text[i];
        let ghost prefix = text@.subrange(start as int, i as int);
        let ghost next = text@.subrange(start as int, i + 1);
        assert(next.drop_last() =~= prefix);
        if !('0' <= c && c <= '9') {
            assert(d[i - start] == c);
            assert(!crate::text::is_ascii_digit(d[i - start]));
            assert(!all_digits(d));
            assert(!is_u64_text(s));
            return false;
        }
        let digit = (c as u64) - ('0' as u64);
        if value > (u64::MAX - digit) / 10 {
            assert(next == d.subrange(0, i + 1 - start));
            assert(digits_value(next) > u64::MAX) by (nonlinear_arith)
                requires
                    digits_value(next) == 10 * value + digit,
                    value > (u64::MAX - digit) / 10,
                    digit <= 9;
            proof {
                if all_digits(d) {
                    lemma_digits_grow(d, (i + 1 - start) as int);
                }
            }
            assert(!is_u64_text(s));
            return false;
        }
        value = value * 10 + digit;
        i += 1;
    }
    true
}

proof fn lemma_digits_nonneg(s: Seq<char>)
    requires
        all_digits(s),
    ensures
        digits_value(s) >= 0,
    decreases s.len(),
{
    if s.len() > 0 {
        assert(all_digits(s.drop_last())) by {
            assert forall|i: int| 0 <= i < s.drop_last().len() implies crate::text::is_ascii_digit(#[trigger] s.drop_last()[i]) by {
                assert(s.drop_last()[i] == s[i]);
            }
        }
        lemma_digits_nonneg(s.drop_last());
        assert(crate::text::is_ascii_digit(s[s.len() - 1]));
    }
}

proof fn lemma_digits_grow(d: Seq<char>, k: int)
    requires
        0 <= k <= d.len(),
        all_digits(d),
    ensures
        digits_value(d) >= digits_value(d.subrange(0, k)),
    decreases d.len() - k,
{
    if k < d.len() {
        lemma_digits_grow(d, k + 1);
        let p = d.subrange(0, k + 1);
        assert(p.drop_last() =~= d.subrange(0, k));
        assert(crate::text::is_ascii_digit(p.last()));
        lemma_digits_nonneg(d.subrange(0, k));
    } else {
        assert(d.subrange(0, k) =~= d);
    }
}

} // verus!
