//! Whole numbers written in decimal digits: reading them and writing them.

use vstd::prelude::*;
use crate::chars::{char_of_digit, digit_char, digit_of, digit_value, is_digit};
use crate::text::push_char;

verus! {

/// Every character of `s` is a digit.
pub open spec fn all_digits(s: Seq<char>) -> bool {
    forall|i: int| 0 <= i < s.len() ==> is_digit(#[trigger] s[i])
}

/// The number that the digits of `s` write, most significant first.
pub open spec fn decimal_value(s: Seq<char>) -> nat
    recommends
        all_digits(s),
    decreases s.len(),
{
    if s.len() == 0 {
        0
    } else {
        (decimal_value(s.drop_last()) * 10 + digit_value(s.last())) as nat
    }
}

/// The integer that `s` writes: at least one digit, and nothing else but
/// one `+` or `-` in front of them.
pub open spec fn integer_value(s: Seq<char>) -> Option<int> {
    if s.len() > 0 && (s[0] == '+' || s[0] == '-') {
        let digits = s.drop_first();
        if digits.len() > 0 && all_digits(digits) {
            Some(
                if s[0] == '-' {
                    -(decimal_value(digits) as int)
                } else {
                    decimal_value(digits) as int
                },
            )
        } else {
            None
        }
    } else if s.len() > 0 && all_digits(s) {
        Some(decimal_value(s) as int)
    } else {
        None
    }
}

/// The integer that `s` writes, where 32 bits with a sign hold it.
pub open spec fn i32_value(s: Seq<char>) -> Option<int> {
    match integer_value(s) {
        Some(v) if i32::MIN <= v <= i32::MAX => Some(v),
        _ => None,
    }
}

/// The digits of `n`, most significant first and without leading zeros.
pub open spec fn decimal_digits(n: nat) -> Seq<char>
    decreases n,
{
    if n < 10 {
        seq![digit_char(n as int)]
    } else {
        decimal_digits(n / 10).push(digit_char(n as int % 10))
    }
}

/// `v` in decimal digits, behind a `-` where it is negative.
pub open spec fn integer_text(v: int) -> Seq<char> {
    if v < 0 {
        seq!['-'] + decimal_digits((-v) as nat)
    } else {
        decimal_digits(v as nat)
    }
}

/// Reads `s` as a 32-bit integer.
pub fn parse_i32(s: &[char]) -> (r: Option<i32>)
    ensures
        match r {
            Some(v) => i32_value(s@) == Some(v as int),
            None => i32_value(s@) is None,
        },
{
    let n = s.len();
    if n == 0 {
        return None;
    }
    let negative = s[0] == '-';
    let start: usize = if negative || s[0] == '+' {
        1
    } else {
        0
    };
    if start == n {
        return None;
    }
    let ghost digits = if start == 1 {
        s@.drop_first()
    } else {
        s@
    };
    // The value read so far, held at `cap` once it has passed every
    // number that 32 bits hold: more digits can only raise it.
    let cap: i64 = 2147483649;
    let mut acc: i64 = 0;
    let mut i: usize = start;
    assert(digits.take(0) =~= Seq::<char>::empty());
    while i < n
        invariant
            start <= i <= n == s.len(),
            start == if s@[0] == '+' || s@[0] == '-' {
                1usize
            } else {
                0usize
            },
            digits == if start == 1 {
                s@.drop_first()
            } else {
                s@
            },
            cap == 2147483649,
            all_digits(digits.take(i - start)),
            0 <= acc <= cap,
            acc == if decimal_value(digits.take(i - start)) < cap {
                decimal_value(digits.take(i - start)) as int
            } else {
                cap as int
            },
        decreases n - i,
    {
        match digit_of(s[i]) {
            None => {
                assert(!is_digit(digits[i - start]));
                return None;
            },
            Some(d) => {
                let next = acc * 10 + d as i64;
                proof {
                    let now = digits.take(i - start + 1);
                    assert(now.drop_last() =~= digits.take(i - start));
                    assert(now.last() == s@[i as int]);
                    assert forall|k: int| 0 <= k < now.len() implies is_digit(
                        #[trigger] now[k],
                    ) by {
                        if k < i - start {
                            assert(now[k] == digits.take(i - start)[k]);
                        }
                    }
                }
                acc = if next > cap {
                    cap
                } else {
                    next
                };
            },
        }
        i += 1;
    }
    assert(digits.take(n - start) =~= digits);
    if negative {
        if acc <= 2147483648 {
            Some((-acc) as i32)
        } else {
            None
        }
    } else {
        if acc <= 2147483647 {
            Some(acc as i32)
        } else {
            None
        }
    }
}

/// Adds the digits of `n` at the end of `out`.
pub fn push_decimal(out: &mut String, n: u64)
    ensures
        final(out)@ == old(out)@ + decimal_digits(n as nat),
    decreases n,
{
    if n >= 10 {
        push_decimal(out, n / 10);
    }
    push_char(out, char_of_digit((n % 10) as u8));
    proof {
        if n < 10 {
            assert(old(out)@.push(digit_char(n as int)) =~= old(out)@ + decimal_digits(n as nat));
        } else {
            assert((old(out)@ + decimal_digits((n / 10) as nat)).push(digit_char(n as int % 10))
                =~= old(out)@ + decimal_digits(n as nat));
        }
    }
}

/// Adds `v` in decimal at the end of `out`.
pub fn push_i32(out: &mut String, v: i32)
    ensures
        final(out)@ == old(out)@ + integer_text(v as int),
{
    if v < 0 {
        push_char(out, '-');
        push_decimal(out, (-(v as i64)) as u64);
        assert(old(out)@.push('-') + decimal_digits((-v) as nat) =~= old(out)@ + integer_text(
            v as int,
        ));
    } else {
        push_decimal(out, v as u64);
    }
}

/// The digits of a number are digits, and write that number.
pub proof fn lemma_decimal_digits(n: nat)
    ensures
        decimal_digits(n).len() > 0,
        all_digits(decimal_digits(n)),
        decimal_value(decimal_digits(n)) == n,
    decreases n,
{
    if n < 10 {
        let s = decimal_digits(n);
        assert(s.drop_last() =~= Seq::<char>::empty());
        assert(decimal_value(s.drop_last()) == 0);
    } else {
        lemma_decimal_digits(n / 10);
        let s = decimal_digits(n);
        assert(s.drop_last() =~= decimal_digits(n / 10));
    }
}

/// A written integer holds digits and, at most, a `-` at its start.
pub proof fn lemma_integer_text_chars(v: int)
    ensures
        integer_text(v).len() > 0,
        forall|i: int|
            0 <= i < integer_text(v).len() ==> is_digit(#[trigger] integer_text(v)[i])
                || integer_text(v)[i] == '-',
{
    let t = integer_text(v);
    if v < 0 {
        let d = decimal_digits((-v) as nat);
        lemma_decimal_digits((-v) as nat);
        assert forall|i: int| 0 <= i < t.len() implies is_digit(#[trigger] t[i]) || t[i]
            == '-' by {
            if i > 0 {
                assert(t[i] == d[i - 1]);
            }
        }
    } else {
        lemma_decimal_digits(v as nat);
    }
}

/// Reading what was written gives the number back.
pub proof fn lemma_integer_text_value(v: int)
    ensures
        integer_value(integer_text(v)) == Some(v),
{
    if v < 0 {
        lemma_decimal_digits((-v) as nat);
        assert(integer_text(v).drop_first() =~= decimal_digits((-v) as nat));
    } else {
        lemma_decimal_digits(v as nat);
    }
}

} // verus!
