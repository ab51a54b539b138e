use vstd::prelude::*;
use vstd::string::StringSliceAdditionalSpecFns;

use crate::color::ZERO;

verus! {

pub const DASH: u8 = 45;

pub const LETTER_J: u8 = 106;

pub open spec fn is_digit(b: u8) -> bool {
    ZERO <= b <= ZERO + 9
}

pub open spec fn all_digits(s: Seq<u8>) -> bool {
    forall|i: int| 0 <= i < s.len() ==> is_digit(#[trigger] s[i])
}

/// The number that a string of decimal digits spells.
pub open spec fn digits_value(s: Seq<u8>) -> nat
    decreases s.len(),
{
    if s.len() == 0 {
        0
    } else {
        digits_value(s.drop_last()) * 10 + (s.last() - ZERO) as nat
    }
}

/// The worker count that the flag `-j<N>` selects: `N` written in decimal
/// digits, from 1 up to the largest `usize`. Anything else selects none.
pub open spec fn jobs_flag(arg: Seq<u8>) -> Option<nat> {
    let digits = arg.subrange(2, arg.len() as int);
    if arg.len() > 2 && arg[0] == DASH && arg[1] == LETTER_J && all_digits(digits) && 1
        <= digits_value(digits) <= usize::MAX {
        Some(digits_value(digits))
    } else {
        None
    }
}

/// A longer string of digits spells a number at least as large.
proof fn lemma_digits_value_grows(s: Seq<u8>, i: int)
    requires
        0 <= i <= s.len(),
        all_digits(s),
    ensures
        digits_value(s.take(i)) <= digits_value(s),
    decreases s.len() - i,
{
    if i < s.len() {
        lemma_digits_value_grows(s, i + 1);
        assert(s.take(i + 1).drop_last() =~= s.take(i));
        assert(is_digit(s[i]));
    } else {
        assert(s.take(i) =~= s);
    }
}

/// The worker count selected by a command-line argument of the form
/// `-j<N>`.
pub fn parse_jobs_flag(arg: &str) -> (r: Option<usize>)
    ensures
        r is Some <==> jobs_flag(arg.spec_bytes()) is Some,
        r is Some ==> r->Some_0 == jobs_flag(arg.spec_bytes())->Some_0,
{
    let bytes = arg.as_bytes();
    let n = bytes.len();
    let ghost s = bytes@;
    let ghost digits = s.subrange(2, n as int);
    if n <= 2 || bytes[0] != DASH || bytes[1] != LETTER_J {
        return None;
    }
    let mut value: usize = 0;
    let mut i: usize = 2;
    while i < n
        invariant
            s == bytes@,
            s == arg.spec_bytes(),
            n == s.len(),
            n > 2,
            digits == s.subrange(2, n as int),
            2 <= i <= n,
            all_digits(digits.take(i - 2)),
            value == digits_value(digits.take(i - 2)),
        decreases n - i,
    {
        let b = bytes[i];
        if b < ZERO || b > ZERO + 9 {
            proof {
                assert(digits[i - 2] == b);
            }
            return None;
        }
        let d = (b - ZERO) as usize;
        proof {
            assert(digits.take(i - 1).drop_last() =~= digits.take(i - 2));
            assert(digits.take(i - 1).last() == b);
        }
        if value > (usize::MAX - d) / 10 {
            proof {
                assert(value * 10 + d > usize::MAX) by (nonlinear_arith)
                    requires
                        value > (usize::MAX - d) / 10,
                        0 <= d <= 9,
                ;
                if all_digits(digits) {
                    lemma_digits_value_grows(digits, i - 1);
                }
            }
            return None;
        }
        proof {
            assert(value * 10 + d <= usize::MAX) by (nonlinear_arith)
                requires
                    value <= (usize::MAX - d) / 10,
                    0 <= d <= 9,
            ;
        }
        value = value * 10 + d;
        i += 1;
    }
    proof {
        assert(digits.take(n - 2) =~= digits);
    }
    if value == 0 {
        None
    } else {
        Some(value)
    }
}

} // verus!
