//! Duration tokens (`90m`, `2h`, `30s`, `45`) and the human duration format
//! `[-][<h>h][<m>m]<s>s`.
use vstd::prelude::*;
use crate::decimal::{all_digits, digits_value, is_digit, unsigned_value, parse_unsigned, sub_bytes};

verus! {

/// The largest duration, in seconds, whose millisecond count fits in a `u64`.
pub const MAX_DURATION_SECS: u64 = 18446744073709551;

#[derive(Clone, Copy, Debug, PartialEq, Eq, Structural)]
pub enum DurationError {
    /// The token is empty.
    Empty,
    /// The token ends in a letter other than `h`, `m` or `s`.
    UnknownUnit,
    /// The part before the unit is not a run of digits.
    BadNumber,
    /// The duration exceeds `MAX_DURATION_SECS`.
    TooLarge,
}

/// Seconds per unit for a unit suffix byte.
pub open spec fn unit_seconds(b: u8) -> Option<nat> {
    if b == 104 {
        Some(3600)
    } else if b == 109 {
        Some(60)
    } else if b == 115 {
        Some(1)
    } else {
        None
    }
}

pub open spec fn scaled_duration(digits: Seq<u8>, unit: nat) -> Result<nat, DurationError> {
    match unsigned_value(digits) {
        None => Err(DurationError::BadNumber),
        Some(v) => if v * unit <= MAX_DURATION_SECS {
            Ok(v * unit)
        } else {
            Err(DurationError::TooLarge)
        },
    }
}

/// What a duration token denotes, in seconds.
pub open spec fn duration_value(s: Seq<u8>) -> Result<nat, DurationError> {
    if s.len() == 0 {
        Err(DurationError::Empty)
    } else if is_digit(s.last()) {
        scaled_duration(s, 1)
    } else {
        match unit_seconds(s.last()) {
            Some(u) => scaled_duration(s.drop_last(), u),
            None => Err(DurationError::UnknownUnit),
        }
    }
}

/// Parses a duration token: digits, optionally followed by `h`, `m` or `s`;
/// without a suffix the digits are seconds.
pub fn parse_duration(token: &[u8]) -> (r: Result<u64, DurationError>)
    ensures
        match r {
            Ok(v) => duration_value(token@) == Ok::<nat, DurationError>(v as nat),
            Err(e) => duration_value(token@) == Err::<nat, DurationError>(e),
        },
{
    let n = token.len();
    if n == 0 {
        return Err(DurationError::Empty);
    }
    let last = token[n - 1];
    let unit: u64;
    let digits: Vec<u8>;
    if last >= 48 && last <= 57 {
        unit = 1;
        digits = sub_bytes(token, 0, n);
        assert(digits@ =~= token@);
    } else if last == 104 || last == 109 || last == 115 {
        unit = if last == 104 {
            3600
        } else if last == 109 {
            60
        } else {
            1
        };
        digits = sub_bytes(token, 0, n - 1);
        assert(digits@ =~= token@.drop_last());
    } else {
        return Err(DurationError::UnknownUnit);
    }
    let v = match parse_unsigned(digits.as_slice()) {
        Some(v) => v,
        None => {
            return Err(DurationError::BadNumber);
        },
    };
    if v > MAX_DURATION_SECS / unit {
        assert(v * unit > MAX_DURATION_SECS) by (nonlinear_arith)
            requires
                v > MAX_DURATION_SECS / unit,
                unit > 0,
        ;
        return Err(DurationError::TooLarge);
    }
    assert(v * unit <= MAX_DURATION_SECS) by (nonlinear_arith)
        requires
            v <= MAX_DURATION_SECS / unit,
            unit > 0,
    ;
    Ok(v * unit)
}

/// The character of a decimal digit.
pub open spec fn digit_char(d: nat) -> char {
    ((48 + d) as u8) as char
}

/// The decimal digits of `n`, most significant first.
pub open spec fn decimal_chars(n: nat) -> Seq<char>
    decreases n,
{
    if n < 10 {
        seq![digit_char(n)]
    } else {
        decimal_chars(n / 10).push(digit_char(n % 10))
    }
}

/// Relies on `String::push`: the character is appended at the end.
#[verifier::external_body]
pub(crate) fn push_char(s: &mut String, c: char)
    ensures
        final(s)@ == old(s)@.push(c),
{
    s.push(c);
}

/// Appends the decimal digits of `n` to `out`.
pub fn push_decimal_chars(out: &mut String, n: u64)
    ensures
        final(out)@ == old(out)@ + decimal_chars(n as nat),
    decreases n,
{
    if n >= 10 {
        push_decimal_chars(out, n / 10);
    }
    let d: u8 = (n % 10) as u8;
    push_char(out, (48 + d) as char);
    assert(final(out)@ =~= old(out)@ + decimal_chars(n as nat));
}

pub open spec fn abs(x: int) -> nat {
    if x < 0 {
        (-x) as nat
    } else {
        x as nat
    }
}

/// `[-][<h>h][<m>m]<s>s`: hours and minutes are left out when zero, seconds always shown.
pub open spec fn duration_text(seconds: int) -> Seq<char> {
    let a = abs(seconds);
    let h = a / 3600;
    let m = (a % 3600) / 60;
    let s = a % 60;
    (if seconds < 0 { seq!['-'] } else { Seq::empty() })
        + (if h > 0 { decimal_chars(h).push('h') } else { Seq::empty() })
        + (if m > 0 { decimal_chars(m).push('m') } else { Seq::empty() })
        + decimal_chars(s).push('s')
}

/// Formats a signed number of seconds in the human duration format.
pub fn seconds_to_string(seconds: i64) -> (r: String)
    ensures
        r@ == duration_text(seconds as int),
{
    let negative = seconds < 0;
    let a: u64 = if negative {
        ((-(seconds + 1)) as u64) + 1
    } else {
        seconds as u64
    };
    let hours = a / 3600;
    let minutes = (a % 3600) / 60;
    let secs = a % 60;
    let mut out = String::new();
    if negative {
        push_char(&mut out, '-');
    }
    if hours > 0 {
        push_decimal_chars(&mut out, hours);
        push_char(&mut out, 'h');
    }
    if minutes > 0 {
        push_decimal_chars(&mut out, minutes);
        push_char(&mut out, 'm');
    }
    push_decimal_chars(&mut out, secs);
    push_char(&mut out, 's');
    assert(out@ =~= duration_text(seconds as int));
    out
}

} // verus!
