//! The decimal shift parser: turns the request's `shift_val` text into an
//! `i32` shift, accepting an optional leading `+` or `-` followed by one or
//! more ASCII digits, exactly when the value fits in `i32`.

use vstd::prelude::*;
use crate::errors::ExchangeError;

verus! {

/// A byte is an ASCII decimal digit.
pub open spec fn is_digit(b: u8) -> bool {
    48 <= b && b <= 57
}

/// Every byte of the sequence is an ASCII decimal digit.
pub open spec fn all_digits(s: Seq<u8>) -> bool {
    forall|i: int| 0 <= i < s.len() ==> is_digit(s[i])
}

/// The non-negative value of a digit sequence read in base 10 (0 for the
/// empty sequence).
pub open spec fn digits_value(s: Seq<u8>) -> int
    decreases s.len(),
{
    if s.len() == 0 {
        0
    } else {
        digits_value(s.drop_last()) * 10 + (s.last() - 48)
    }
}

/// The sequence is a decimal integer literal: an optional sign followed by
/// at least one digit.
pub open spec fn is_int_literal(s: Seq<u8>) -> bool {
    if s.len() == 0 {
        false
    } else if s[0] == 43 || s[0] == 45 {
        s.len() >= 2 && all_digits(s.drop_first())
    } else {
        all_digits(s)
    }
}

/// The mathematical value of a decimal integer literal.
pub open spec fn literal_value(s: Seq<u8>) -> int
    recommends
        is_int_literal(s),
{
    if s.len() > 0 && s[0] == 45 {
        -digits_value(s.drop_first())
    } else if s.len() > 0 && s[0] == 43 {
        digits_value(s.drop_first())
    } else {
        digits_value(s)
    }
}

/// The sequence is a shift value the protocol accepts: a decimal integer
/// literal whose value fits in `i32`.
pub open spec fn is_valid_shift(s: Seq<u8>) -> bool {
    is_int_literal(s) && i32::MIN <= literal_value(s) <= i32::MAX
}

/// Parses the decimal shift text. Succeeds exactly on valid shifts: an
/// optional sign, one or more digits, value within `i32`; the result is the
/// literal's value. Everything else is a `ShiftParseError`.
pub fn parse_shift(s: &[u8]) -> (r: Result<i32, ExchangeError>)
    ensures
        match r {
            Ok(v) => is_valid_shift(s@) && v as int == literal_value(s@),
            Err(e) => e == ExchangeError::ShiftParseError && !is_valid_shift(s@),
        },
{
    let n = s.len();
    if n == 0 {
        return Err(ExchangeError::ShiftParseError);
    }
    let negative: bool = s[0] == 45;
    let ds: usize = if s[0] == 43 || s[0] == 45 {
        1
    } else {
        0
    };
    if n == ds {
        // a bare sign has no digits
        return Err(ExchangeError::ShiftParseError);
    }
    let ghost digits: Seq<u8> = s@.subrange(ds as int, n as int);
    proof {
        if ds == 1 {
            assert(s@.drop_first() =~= digits);
        } else {
            assert(s@ =~= digits);
        }
    }
    let mut acc: i64 = 0;
    let mut big: bool = false;
    let mut i: usize = ds;
    while i < n
        invariant
            ds <= i <= n,
            n == s@.len(),
            digits == s@.subrange(ds as int, n as int),
            ds < n,
            ds == (if s@[0] == 43 || s@[0] == 45 {
                1int
            } else {
                0int
            }),
            all_digits(digits.take(i - ds)),
            !big ==> 0 <= acc <= 2147483648 && acc as int == digits_value(digits.take(i - ds)),
            big ==> digits_value(digits.take(i - ds)) > 2147483648,
        decreases n - i,
    {
        let b = s[i];
        if b < 48 || b > 57 {
            proof {
                // a non-digit inside the digit run refutes the literal shape
                assert(!is_digit(digits[i - ds]));
                if ds == 1 {
                    assert(s@.drop_first() =~= digits);
                    assert(!is_digit(s@.drop_first()[i - 1]));
                } else {
                    assert(!is_digit(s@[i as int]));
                }
            }
            return Err(ExchangeError::ShiftParseError);
        }
        proof {
            assert(digits.take(i - ds + 1).drop_last() =~= digits.take(i - ds));
            assert(digits.take(i - ds + 1).last() == digits[i - ds]);
        }
        let d: i64 = (b - 48) as i64;
        if big {
            proof {
                let v = digits_value(digits.take(i - ds));
                assert(digits_value(digits.take(i - ds + 1)) == v * 10 + (digits[i - ds] - 48));
                assert(v * 10 == v + 9 * v);
            }
        } else {
            acc = acc * 10 + d;
            if acc > 2147483648 {
                big = true;
            }
        }
        i += 1;
    }
    proof {
        assert(digits.take(n - ds) =~= digits);
        assert(all_digits(digits));
        assert(is_int_literal(s@));
        if negative {
            assert(literal_value(s@) == -digits_value(digits));
        } else {
            assert(literal_value(s@) == digits_value(digits));
        }
    }
    if big {
        return Err(ExchangeError::ShiftParseError);
    }
    let v: i64 = if negative {
        -acc
    } else {
        acc
    };
    if v < -2147483648 || v > 2147483647 {
        return Err(ExchangeError::ShiftParseError);
    }
    Ok(v as i32)
}

} // verus!
