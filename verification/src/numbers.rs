//! Parsing decimal integers out of strings, as the summation step needs it:
//! an optional sign followed by one or more ASCII digits, rejected when the
//! value falls outside the `i32` range.

use vstd::prelude::*;
use crate::text::{digit_val, is_digit_char};

verus! {

/// Every character of `s` is an ASCII digit.
pub open spec fn all_digit_chars(s: Seq<char>) -> bool {
    forall|i: int| 0 <= i < s.len() ==> is_digit_char(s[i])
}

/// The value of a string of ASCII digits read in base 10.
pub open spec fn digits_value(s: Seq<char>) -> int
    decreases s.len(),
{
    if s.len() == 0 {
        0
    } else {
        10 * digits_value(s.drop_last()) + digit_val(s.last())
    }
}

/// The digits of a decimal literal: everything after a leading sign, if any.
pub open spec fn int_body(s: Seq<char>) -> Seq<char> {
    if s.len() > 0 && (s[0] == '-' || s[0] == '+') {
        s.drop_first()
    } else {
        s
    }
}

/// Whether a decimal literal carries a leading minus sign.
pub open spec fn is_negative_literal(s: Seq<char>) -> bool {
    s.len() > 0 && s[0] == '-'
}

/// What parsing `s` as an `i32` yields: `Some` exactly when `s` is an
/// optional sign followed by one or more ASCII digits and the signed value
/// fits in `i32`; `None` otherwise.
pub open spec fn parsed_i32(s: Seq<char>) -> Option<i32> {
    let body = int_body(s);
    if body.len() > 0 && all_digit_chars(body) {
        let v = if is_negative_literal(s) {
            -digits_value(body)
        } else {
            digits_value(body)
        };
        if i32::MIN <= v <= i32::MAX {
            Some(v as i32)
        } else {
            None
        }
    } else {
        None
    }
}

/// A string of digits has a nonnegative value.
pub proof fn lemma_digits_value_nonneg(s: Seq<char>)
    requires
        all_digit_chars(s),
    ensures
        0 <= digits_value(s),
    decreases s.len(),
{
    if s.len() > 0 {
        assert(all_digit_chars(s.drop_last()));
        lemma_digits_value_nonneg(s.drop_last());
    }
}

/// The running magnitude of the parser is capped here: a magnitude that
/// reaches 2^32 is already out of range for `i32`, whatever digits follow.
const MAGNITUDE_CAP: u64 = 0x1_0000_0000;

/// Parses `s` as an `i32`, accepting an optional leading sign followed by
/// one or more ASCII digits, and rejecting values out of range.
pub fn parse_i32(s: &str) -> (r: Option<i32>)
    ensures
        r == parsed_i32(s@),
{
    let n = s.unicode_len();
    if n == 0 {
        return None;
    }
    let c0 = s.get_char(0);
    let negative = c0 == '-';
    let start: usize = if c0 == '-' || c0 == '+' {
        1
    } else {
        0
    };
    let ghost body = int_body(s@);
    proof {
        assert(body =~= s@.subrange(start as int, n as int));
    }
    if start == n {
        return None;
    }
    let mut mag: u64 = 0;
    let mut i: usize = start;
    while i < n
        invariant
            start <= i <= n,
            start < n,
            n == s@.len(),
            body == int_body(s@),
            body =~= s@.subrange(start as int, n as int),
            all_digit_chars(s@.subrange(start as int, i as int)),
            mag <= MAGNITUDE_CAP,
            digits_value(s@.subrange(start as int, i as int)) <= MAGNITUDE_CAP ==> mag
                == digits_value(s@.subrange(start as int, i as int)),
            digits_value(s@.subrange(start as int, i as int)) > MAGNITUDE_CAP ==> mag
                == MAGNITUDE_CAP,
        decreases n - i,
    {
        let c = s.get_char(i);
        let u = c as u32;
        if u < 48 || u > 57 {
            proof {
                assert(body[i - start] == s@[i as int]);
                assert(!all_digit_chars(body));
            }
            return None;
        }
        let ghost pref = s@.subrange(start as int, i as int);
        let ghost pref1 = s@.subrange(start as int, i + 1);
        proof {
            assert(pref1.drop_last() =~= pref);
            assert(pref1.last() == s@[i as int]);
            lemma_digits_value_nonneg(pref);
        }
        mag = mag * 10 + ((u - 48) as u64);
        if mag > MAGNITUDE_CAP {
            mag = MAGNITUDE_CAP;
        }
        proof {
            assert(all_digit_chars(pref1));
            assert(digits_value(pref1) == 10 * digits_value(pref) + digit_val(s@[i as int]));
        }
        i += 1;
    }
    proof {
        assert(s@.subrange(start as int, n as int) =~= body);
        lemma_digits_value_nonneg(body);
    }
    if negative {
        if mag <= 0x8000_0000 {
            Some((-(mag as i64)) as i32)
        } else {
            None
        }
    } else {
        if mag <= 0x7FFF_FFFF {
            Some(mag as i32)
        } else {
            None
        }
    }
}

} // verus!
