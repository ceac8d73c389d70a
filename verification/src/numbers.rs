//! Decimal numbers as they appear in project files and node names.
//!
//! The integer grammar is the one accepted by `i32::from_str`: an optional
//! `+` or `-`, then at least one decimal digit, the value fitting in 32 bits.
use vstd::prelude::*;

verus! {

/// A decimal digit.
pub open spec fn is_digit(c: char) -> bool {
    '0' <= c && c <= '9'
}

/// The value of a decimal digit.
pub open spec fn digit_value(c: char) -> int {
    (c as int) - ('0' as int)
}

/// Every character of `s` is a decimal digit.
pub open spec fn all_digits(s: Seq<char>) -> bool {
    forall|i: int| 0 <= i < s.len() ==> is_digit(#[trigger] s[i])
}

/// The number written by a run of decimal digits.
pub open spec fn digits_value(s: Seq<char>) -> int
    decreases s.len(),
{
    if s.len() == 0 {
        0
    } else {
        10 * digits_value(s.drop_last()) + digit_value(s.last())
    }
}

/// A sign character.
pub open spec fn is_sign(c: char) -> bool {
    c == '+' || c == '-'
}

/// `s` without its leading sign, if it has one.
pub open spec fn strip_sign(s: Seq<char>) -> Seq<char> {
    if s.len() > 0 && is_sign(s[0]) {
        s.skip(1)
    } else {
        s
    }
}

/// The integer that `i32::from_str` reads from `s`, or `None` where it
/// rejects `s`.
pub open spec fn spec_parse_i32(s: Seq<char>) -> Option<i32> {
    let digits = strip_sign(s);
    let magnitude = digits_value(digits);
    let value = if s.len() > 0 && s[0] == '-' {
        -magnitude
    } else {
        magnitude
    };
    if digits.len() > 0 && all_digits(digits) && i32::MIN <= value <= i32::MAX {
        Some(value as i32)
    } else {
        None
    }
}

proof fn lemma_digits_value_nonneg(s: Seq<char>)
    requires
        all_digits(s),
    ensures
        digits_value(s) >= 0,
    decreases s.len(),
{
    if s.len() > 0 {
        assert(all_digits(s.drop_last()));
        lemma_digits_value_nonneg(s.drop_last());
        assert(is_digit(s[s.len() - 1]));
    }
}

/// Reads the integer written in `chars[start..end]` as `i32::from_str`
/// would.
pub fn parse_i32_range(chars: &Vec<char>, start: usize, end: usize) -> (r: Option<i32>)
    requires
        start <= end <= chars@.len(),
    ensures
        r == spec_parse_i32(chars@.subrange(start as int, end as int)),
{
    let ghost s = chars@.subrange(start as int, end as int);
    let mut i = start;
    let mut negative = false;
    if i < end && (chars[i] == '+' || chars[i] == '-') {
        negative = chars[i] == '-';
        i = i + 1;
    }
    let first = i;
    let ghost digits = strip_sign(s);
    assert(digits =~= chars@.subrange(first as int, end as int));
    if first == end {
        return None;
    }
    // The magnitude read so far, held at `cap` once it exceeds every 32-bit value.
    let cap: i64 = 0x8000_0001;
    let mut magnitude: i64 = 0;
    while i < end
        invariant
            start <= first <= i <= end <= chars@.len(),
            digits == chars@.subrange(first as int, end as int),
            s == chars@.subrange(start as int, end as int),
            digits == strip_sign(s),
            negative == (s.len() > 0 && s[0] == '-'),
            all_digits(chars@.subrange(first as int, i as int)),
            cap == 0x8000_0001,
            magnitude == if digits_value(chars@.subrange(first as int, i as int)) < cap {
                digits_value(chars@.subrange(first as int, i as int))
            } else {
                cap as int
            },
        decreases end - i,
    {
        let c = chars[i];
        let ghost prefix = chars@.subrange(first as int, i as int);
        let ghost next = chars@.subrange(first as int, i + 1);
        assert(next.drop_last() =~= prefix);
        assert(next.last() == c);
        if !('0' <= c && c <= '9') {
            assert(digits[i - first] == c);
            assert(!is_digit(digits[i - first]));
            assert(!all_digits(digits));
            return None;
        }
        proof {
            lemma_digits_value_nonneg(prefix);
            assert(all_digits(next)) by {
                assert forall|j: int| 0 <= j < next.len() implies is_digit(#[trigger] next[j]) by {
                    if j < prefix.len() {
                        assert(next[j] == prefix[j]);
                    }
                }
            }
        }
        let d = (c as u32 - '0' as u32) as i64;
        if magnitude < cap {
            let candidate = magnitude * 10 + d;
            if candidate < cap {
                magnitude = candidate;
            } else {
                magnitude = cap;
            }
        }
        i = i + 1;
    }
    assert(chars@.subrange(first as int, end as int) =~= digits);
    proof {
        lemma_digits_value_nonneg(digits);
    }
    if negative {
        if magnitude <= 0x8000_0000 {
            Some((0 - magnitude) as i32)
        } else {
            None
        }
    } else {
        if magnitude <= 0x7fff_ffff {
            Some(magnitude as i32)
        } else {
            None
        }
    }
}


/// An exponent marker.
pub open spec fn is_exp_marker(c: char) -> bool {
    c == 'e' || c == 'E'
}

/// The part of a decimal floating-point literal before its exponent:
/// digits, or digits around a single `.`, with at least one digit.
pub open spec fn valid_mantissa(m: Seq<char>) -> bool {
    ||| m.len() > 0 && all_digits(m)
    ||| exists|k: int|
        0 <= k < m.len() && m.len() >= 2 && #[trigger] m[k] == '.' && all_digits(m.take(k))
            && all_digits(m.skip(k + 1))
}

/// An exponent: `e` or `E`, an optional sign, at least one digit.
pub open spec fn valid_exponent(e: Seq<char>) -> bool {
    &&& e.len() > 0
    &&& is_exp_marker(e[0])
    &&& strip_sign(e.skip(1)).len() > 0
    &&& all_digits(strip_sign(e.skip(1)))
}

/// `b` is a mantissa of length `k` followed by nothing or by an exponent.
pub open spec fn float_split(b: Seq<char>, k: int) -> bool {
    &&& 0 <= k <= b.len()
    &&& valid_mantissa(b.take(k))
    &&& (k == b.len() || valid_exponent(b.skip(k)))
}

/// `s` is a decimal floating-point literal in the grammar of `f32::from_str`
/// (an optional sign, a mantissa, an optional exponent). The textual forms
/// `inf`, `infinity` and `nan` of that grammar use letters that no lexeme of
/// a project file holds, so they are left out.
pub open spec fn is_float_literal(s: Seq<char>) -> bool {
    exists|k: int| #[trigger] float_split(strip_sign(s), k)
}

/// A mantissa holds at most one character that is not a digit, and that
/// character is a `.`.
proof fn lemma_mantissa_chars(m: Seq<char>, j: int)
    requires
        valid_mantissa(m),
        0 <= j < m.len(),
        !is_digit(m[j]),
    ensures
        m[j] == '.',
        forall|i: int| 0 <= i < m.len() && i != j ==> is_digit(#[trigger] m[i]),
{
    if m.len() > 0 && all_digits(m) {
        assert(is_digit(m[j]));
    } else {
        let k = choose|k: int|
            0 <= k < m.len() && m.len() >= 2 && #[trigger] m[k] == '.' && all_digits(m.take(k))
                && all_digits(m.skip(k + 1));
        if j < k {
            assert(m.take(k)[j] == m[j]);
        } else if j > k {
            assert(m.skip(k + 1)[j - k - 1] == m[j]);
        }
        assert(j == k);
        assert forall|i: int| 0 <= i < m.len() && i != j implies is_digit(#[trigger] m[i]) by {
            if i < k {
                assert(m.take(k)[i] == m[i]);
            } else {
                assert(m.skip(k + 1)[i - k - 1] == m[i]);
            }
        }
    }
}

/// Scans the digits of `chars` from `i` up to `end`.
fn skip_digits(chars: &Vec<char>, i: usize, end: usize) -> (r: usize)
    requires
        i <= end <= chars@.len(),
    ensures
        i <= r <= end,
        all_digits(chars@.subrange(i as int, r as int)),
        r == end || !is_digit(chars@[r as int]),
{
    let mut j = i;
    while j < end && '0' <= chars[j] && chars[j] <= '9'
        invariant
            i <= j <= end <= chars@.len(),
            all_digits(chars@.subrange(i as int, j as int)),
        decreases end - j,
    {
        proof {
            let a = chars@.subrange(i as int, j as int);
            let b = chars@.subrange(i as int, j + 1);
            assert forall|t: int| 0 <= t < b.len() implies is_digit(#[trigger] b[t]) by {
                if t < a.len() {
                    assert(b[t] == a[t]);
                }
            }
        }
        j = j + 1;
    }
    j
}

/// The shape of the longest prefix of `b` made of digits around at most one
/// `.`: `i1` digits, then, when `dot`, a `.` and the digits up to `i2`.
pub open spec fn scanned_prefix(b: Seq<char>, i1: int, i2: int, dot: bool) -> bool {
    &&& 0 <= i1 <= i2 <= b.len()
    &&& all_digits(b.take(i1))
    &&& (i1 == b.len() || !is_digit(b[i1]))
    &&& if dot {
        &&& i1 < i2
        &&& b[i1] == '.'
        &&& all_digits(b.subrange(i1 + 1, i2))
        &&& (i2 == b.len() || !is_digit(b[i2]))
    } else {
        &&& i2 == i1
        &&& (i1 == b.len() || b[i1] != '.')
    }
}

/// Only the end `i2` of the scanned prefix can end a mantissa, and it does
/// exactly when the prefix holds a digit.
proof fn lemma_mantissa_end(b: Seq<char>, i1: int, i2: int, dot: bool)
    requires
        scanned_prefix(b, i1, i2, dot),
    ensures
        forall|k: int| i2 < k <= b.len() ==> !valid_mantissa(#[trigger] b.take(k)),
        forall|k: int| 0 <= k < i2 ==> !valid_exponent(#[trigger] b.skip(k)),
        valid_mantissa(b.take(i2)) == (if dot { i2 - 1 > 0 } else { i2 > 0 }),
{
    assert forall|k: int| i2 < k <= b.len() implies !valid_mantissa(#[trigger] b.take(k)) by {
        let m = b.take(k);
        if valid_mantissa(m) {
            assert(m[i2] == b[i2]);
            if !dot {
                assert(!is_digit(m[i2]));
                lemma_mantissa_chars(m, i2);
            } else {
                assert(!is_digit(m[i2]));
                lemma_mantissa_chars(m, i2);
                assert(m[i1] == b[i1]);
                assert(!is_digit(m[i1]));
            }
        }
    }
    assert forall|k: int| 0 <= k < i2 implies !valid_exponent(#[trigger] b.skip(k)) by {
        assert(b.skip(k)[0] == b[k]);
        if k < i1 {
            assert(b.take(i1)[k] == b[k]);
        } else if k > i1 {
            assert(b.subrange(i1 + 1, i2)[k - i1 - 1] == b[k]);
        }
    }
    let m = b.take(i2);
    if dot {
        assert(m[i1] == '.');
        assert(m.take(i1) =~= b.take(i1));
        assert(m.skip(i1 + 1) =~= b.subrange(i1 + 1, i2));
        if i2 - 1 > 0 {
            assert(valid_mantissa(m));
        } else {
            if m.len() > 0 && all_digits(m) {
                assert(is_digit(m[0]));
            }
        }
    } else {
        assert(m =~= b.take(i1));
    }
}

/// Whether `b` is a float literal, given its scanned prefix.
proof fn lemma_float_decision(b: Seq<char>, i1: int, i2: int, dot: bool)
    requires
        scanned_prefix(b, i1, i2, dot),
    ensures
        (exists|k: int| #[trigger] float_split(b, k)) == ((if dot { i2 - 1 > 0 } else { i2 > 0 })
            && (i2 == b.len() || valid_exponent(b.skip(i2)))),
{
    lemma_mantissa_end(b, i1, i2, dot);
    assert forall|k: int| #[trigger] float_split(b, k) implies k == i2 by {
        if k < i2 {
            assert(k < b.len());
        }
    }
    if (if dot { i2 - 1 > 0 } else { i2 > 0 }) && (i2 == b.len() || valid_exponent(b.skip(i2))) {
        assert(float_split(b, i2));
    }
}

/// Whether `chars[i..end]` is an exponent.
fn exponent_range(chars: &Vec<char>, i: usize, end: usize) -> (r: bool)
    requires
        i <= end <= chars@.len(),
    ensures
        r == valid_exponent(chars@.subrange(i as int, end as int)),
{
    let ghost e = chars@.subrange(i as int, end as int);
    if i == end {
        return false;
    }
    assert(e[0] == chars@[i as int]);
    if !(chars[i] == 'e' || chars[i] == 'E') {
        return false;
    }
    let mut j = i + 1;
    if j < end && (chars[j] == '+' || chars[j] == '-') {
        j = j + 1;
    }
    let ghost d = strip_sign(e.skip(1));
    assert(d =~= chars@.subrange(j as int, end as int));
    let j1 = skip_digits(chars, j, end);
    proof {
        if j1 == end {
            assert(d =~= chars@.subrange(j as int, j1 as int));
        } else {
            assert(d[j1 - j] == chars@[j1 as int]);
        }
    }
    j1 > j && j1 == end
}

/// Whether `chars[start..end]` is a decimal floating-point literal.
pub fn is_float_literal_range(chars: &Vec<char>, start: usize, end: usize) -> (r: bool)
    requires
        start <= end <= chars@.len(),
    ensures
        r == is_float_literal(chars@.subrange(start as int, end as int)),
{
    let ghost s = chars@.subrange(start as int, end as int);
    let mut b0 = start;
    if b0 < end && (chars[b0] == '+' || chars[b0] == '-') {
        b0 = b0 + 1;
    }
    let ghost b = strip_sign(s);
    assert(b =~= chars@.subrange(b0 as int, end as int));
    let i1 = skip_digits(chars, b0, end);
    let mut i2 = i1;
    let mut dot = false;
    if i1 < end && chars[i1] == '.' {
        dot = true;
        i2 = skip_digits(chars, i1 + 1, end);
    }
    proof {
        assert(b.take(i1 - b0) =~= chars@.subrange(b0 as int, i1 as int));
        if dot {
            assert(b.subrange(i1 - b0 + 1, i2 - b0) =~= chars@.subrange(i1 + 1, i2 as int));
        }
        assert(scanned_prefix(b, i1 - b0, i2 - b0, dot));
        lemma_float_decision(b, i1 - b0, i2 - b0, dot);
        assert(b.skip(i2 - b0) =~= chars@.subrange(i2 as int, end as int));
    }
    let has_digit = if dot { i2 - b0 - 1 > 0 } else { i2 - b0 > 0 };
    has_digit && (i2 == end || exponent_range(chars, i2, end))
}

} // verus!
