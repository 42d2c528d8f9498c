//! Parsing of decimal signed 32-bit integer literals.
//!
//! The parser accepts an optional leading `+` or `-` sign followed by one or
//! more ASCII decimal digits, with no surrounding whitespace and no partial
//! matches, and reports absence on any other input or on a value outside the
//! 32-bit signed range.

use vstd::prelude::*;

verus! {

/// `c` is an ASCII decimal digit.
pub open spec fn is_dec_digit(c: char) -> bool {
    '0' as u32 <= c as u32 && c as u32 <= '9' as u32
}

/// The numeric value of the decimal digit `c`.
pub open spec fn digit_value(c: char) -> int {
    c as u32 - '0' as u32
}

/// Every character of `s` is a decimal digit.
pub open spec fn all_dec_digits(s: Seq<char>) -> bool {
    forall|i: int| 0 <= i < s.len() ==> is_dec_digit(#[trigger] s[i])
}

/// The value of the digit string `s` read in base 10, most significant
/// digit first. The empty string reads as 0.
pub open spec fn dec_value(s: Seq<char>) -> int
    decreases s.len(),
{
    if s.len() == 0 {
        0
    } else {
        dec_value(s.drop_last()) * 10 + digit_value(s.last())
    }
}

/// `s` opens with an explicit sign character.
pub open spec fn has_sign(s: Seq<char>) -> bool {
    s.len() > 0 && (s[0] == '+' || s[0] == '-')
}

/// The digits of `s`: all of it, less the optional leading sign.
pub open spec fn digit_part(s: Seq<char>) -> Seq<char> {
    if has_sign(s) {
        s.drop_first()
    } else {
        s
    }
}

/// `s` is a decimal integer literal: an optional leading sign followed by
/// one or more decimal digits, and nothing else.
pub open spec fn is_int_literal(s: Seq<char>) -> bool {
    digit_part(s).len() > 0 && all_dec_digits(digit_part(s))
}

/// The mathematical value denoted by the literal `s`.
pub open spec fn literal_value(s: Seq<char>) -> int {
    if s.len() > 0 && s[0] == '-' {
        -dec_value(digit_part(s))
    } else {
        dec_value(digit_part(s))
    }
}

/// A digit string never reads as a negative value.
proof fn lemma_dec_value_nonneg(s: Seq<char>)
    requires
        all_dec_digits(s),
    ensures
        dec_value(s) >= 0,
    decreases s.len(),
{
    if s.len() > 0 {
        assert forall|i: int| 0 <= i < s.drop_last().len() implies is_dec_digit(
            #[trigger] s.drop_last()[i],
        ) by {
            assert(s.drop_last()[i] == s[i]);
        }
        lemma_dec_value_nonneg(s.drop_last());
    }
}

/// Reading more digits never shrinks the value: the value of a digit string
/// is at least the value of any of its prefixes.
proof fn lemma_dec_value_prefix(s: Seq<char>, i: int)
    requires
        all_dec_digits(s),
        0 <= i <= s.len(),
    ensures
        dec_value(s.take(i)) <= dec_value(s),
    decreases s.len() - i,
{
    assert forall|j: int, k: int| 0 <= j <= s.len() && 0 <= k < s.take(j).len() implies is_dec_digit(
        #[trigger] s.take(j)[k],
    ) by {
        assert(s.take(j)[k] == s[k]);
    }
    if i == s.len() {
        assert(s.take(i) =~= s);
    } else {
        assert(s.take(i + 1).drop_last() =~= s.take(i));
        assert(s.take(i + 1).last() == s[i]);
        lemma_dec_value_nonneg(s.take(i));
        assert(dec_value(s.take(i)) <= dec_value(s.take(i + 1)));
        lemma_dec_value_prefix(s, i + 1);
    }
}

/// Parses the whole of `text` as a base-10 signed 32-bit integer literal.
///
/// The result is present exactly when `text` is an optional sign followed by
/// one or more decimal digits and the denoted value fits in an `i32`; it then
/// carries that value. Any other input — empty, stray characters, whitespace,
/// a lone sign, or a value out of range — yields `None`.
pub fn maybe_parse(text: &str) -> (r: Option<i32>)
    ensures
        r is Some <==> is_int_literal(text@) && i32::MIN <= literal_value(text@) <= i32::MAX,
        r matches Some(v) ==> v as int == literal_value(text@),
{
    let n = text.unicode_len();
    let mut i: usize = 0;
    let mut negative = false;
    if n > 0 {
        let c0 = text.get_char(0);
        if c0 == '-' {
            negative = true;
            i = 1;
        } else if c0 == '+' {
            i = 1;
        }
    }
    let ghost start = i as int;
    let ghost dp = digit_part(text@);
    proof {
        assert(dp =~= text@.subrange(start, n as int));
    }
    if i == n {
        // No digits at all: not a literal.
        return None;
    }
    // The largest admissible magnitude: one more for a negative literal,
    // since -2^31 fits in an i32 while 2^31 does not.
    let bound: u64 = if negative {
        2147483648
    } else {
        2147483647
    };
    let mut acc: u64 = 0;
    while i < n
        invariant
            start <= i <= n,
            start < n,
            n == text@.len(),
            dp == digit_part(text@),
            dp =~= text@.subrange(start, n as int),
            negative == (text@.len() > 0 && text@[0] == '-'),
            start == (if has_sign(text@) { 1int } else { 0int }),
            bound == (if negative { 2147483648u64 } else { 2147483647u64 }),
            all_dec_digits(dp.take(i - start)),
            acc == dec_value(dp.take(i - start)),
            acc <= bound,
        decreases n - i,
    {
        let c = text.get_char(i);
        let u: u32 = c as u32;
        if u < 48 || u > 57 {
            // A non-digit inside the digit part: not a literal.
            proof {
                assert(dp[i - start] == text@[i as int]);
                assert(!is_dec_digit(dp[i - start]));
            }
            return None;
        }
        let d: u64 = (u - 48) as u64;
        proof {
            assert(dp.take(i + 1 - start).drop_last() =~= dp.take(i - start));
            assert(dp.take(i + 1 - start).last() == text@[i as int]);
        }
        acc = acc * 10 + d;
        i = i + 1;
        if acc > bound {
            // The digits read so far already exceed the 32-bit range, and
            // further digits can only grow the magnitude.
            proof {
                if is_int_literal(text@) {
                    lemma_dec_value_prefix(dp, i - start);
                }
            }
            return None;
        }
    }
    proof {
        assert(dp.take(n - start) =~= dp);
    }
    let v: i32 = if negative {
        if acc == 2147483648 {
            i32::MIN
        } else {
            -(acc as i32)
        }
    } else {
        acc as i32
    };
    Some(v)
}

} // verus!
