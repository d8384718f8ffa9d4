//! Durations written the ISO 8601 way, such as `P1DT10H10M10S`.
//!
//! A duration here is a count of milliseconds between `-i64::MAX` and
//! `i64::MAX`.

use crate::duration_days::signed;
use vstd::prelude::*;
use vstd::string::{StrSliceExecFns, StringExecFns};

verus! {

/// Why a text is not a duration.
#[derive(Debug, Clone, Copy, PartialEq, Eq)]
pub enum DurationError {
    /// The text does not start with `P`.
    MissingPrefix,
    /// A number does not fit 64 bits.
    NumberTooLarge,
    /// The text ends after a number.
    MissingUnit,
    /// No digit follows the decimal point of the seconds.
    MissingFraction,
    /// A number is followed by something other than `D`, `H`, `M` or `S`.
    UnknownUnit(char),
    /// The duration is longer than can be represented.
    OutOfRange,
}

/// `c` is one of the digits `0` to `9`.
pub open spec fn is_digit(c: char) -> bool {
    48 <= c as u32 <= 57
}

/// The value of the digit `c`.
pub open spec fn digit_value(c: char) -> int {
    c as u32 - 48
}

/// The digit that stands for `d`, for `d` from 0 to 9.
pub open spec fn digit_char(d: int) -> char {
    ((48 + d) as u8) as char
}

/// `n` in decimal digits, without leading zeros.
pub open spec fn decimal(n: nat) -> Seq<char>
    decreases n,
{
    if n < 10 {
        seq![digit_char(n as int)]
    } else {
        decimal(n / 10).push(digit_char((n % 10) as int))
    }
}

/// `n`, which is less than 1000, in three decimal digits.
pub open spec fn three_digits(n: int) -> Seq<char> {
    seq![digit_char(n / 100), digit_char(n / 10 % 10), digit_char(n % 10)]
}

/// `text` where `present`, else nothing.
pub open spec fn part(present: bool, text: Seq<char>) -> Seq<char> {
    if present {
        text
    } else {
        Seq::empty()
    }
}

/// A duration of `millis` milliseconds as text: `P`, the whole days with
/// `D`, then `T` where a time of day follows, and the hours with `H`, the
/// minutes with `M` and the seconds with `S`, each only where it is not
/// zero. Milliseconds follow the seconds after a point, where neither is
/// zero. A duration that is not positive is written `P`.
pub open spec fn written(millis: int) -> Seq<char> {
    if millis <= 0 {
        seq!['P']
    } else {
        let secs = millis / 1000;
        let ms = millis % 1000;
        let days = secs / 86_400;
        let hours = secs % 86_400 / 3600;
        let minutes = secs % 3600 / 60;
        let seconds = secs % 60;
        seq!['P'] + part(days > 0, decimal(days as nat).push('D')) + part(
            hours > 0 || minutes > 0 || seconds > 0 || ms > 0,
            seq!['T'],
        ) + part(hours > 0, decimal(hours as nat).push('H')) + part(
            minutes > 0,
            decimal(minutes as nat).push('M'),
        ) + part(
            seconds > 0,
            decimal(seconds as nat) + part(ms > 0, seq!['.'] + three_digits(ms)) + seq!['S'],
        )
    }
}

/// The place of the first character from `i` on that is not a digit.
pub open spec fn digits_end(s: Seq<char>, i: int) -> int
    decreases s.len() - i,
{
    if 0 <= i < s.len() && is_digit(s[i]) {
        digits_end(s, i + 1)
    } else {
        i
    }
}

/// The number that the digits from `i` up to `j` stand for.
pub open spec fn number_value(s: Seq<char>, i: int, j: int) -> int
    decreases j - i,
{
    if j <= i {
        0
    } else {
        number_value(s, i, j - 1) * 10 + digit_value(s[j - 1])
    }
}

/// A 64-bit number read as a signed one.
pub open spec fn as_signed(n: int) -> int {
    if n <= i64::MAX {
        n
    } else {
        n - 0x1_0000_0000_0000_0000
    }
}

/// `amount` units of `unit` seconds each make a duration.
pub open spec fn units_fit(amount: int, unit: int) -> bool {
    -9_223_372_036_854_775 <= amount * unit <= 9_223_372_036_854_775
}

/// `millis` milliseconds make a duration.
pub open spec fn millis_fit(millis: int) -> bool {
    -i64::MAX <= millis <= i64::MAX
}

/// The place of the first character from `i` on that is neither `P` nor `T`.
pub open spec fn prefix_end(s: Seq<char>, i: int) -> int
    decreases s.len() - i,
{
    if 0 <= i < s.len() && (s[i] == 'P' || s[i] == 'T') {
        prefix_end(s, i + 1)
    } else {
        i
    }
}

/// What one number with its unit adds to a duration, in milliseconds, and
/// where the text goes on; the number stands from `i` up to `j`, and its
/// unit at `j`.
pub open spec fn segment(s: Seq<char>, i: int, j: int) -> Result<(int, int), DurationError> {
    let amount = as_signed(number_value(s, i, j));
    let unit = s[j];
    if unit == 'D' {
        if units_fit(amount, 86_400) {
            Ok(
                (
                    amount * 86_400_000,
                    if j + 1 < s.len() && s[j + 1] == 'T' {
                        j + 2
                    } else {
                        j + 1
                    },
                ),
            )
        } else {
            Err(DurationError::OutOfRange)
        }
    } else if unit == 'H' {
        if units_fit(amount, 3600) {
            Ok((amount * 3_600_000, j + 1))
        } else {
            Err(DurationError::OutOfRange)
        }
    } else if unit == 'M' {
        if units_fit(amount, 60) {
            Ok((amount * 60_000, j + 1))
        } else {
            Err(DurationError::OutOfRange)
        }
    } else if unit == 'S' {
        if j + 1 < s.len() && s[j + 1] == '.' {
            let k = digits_end(s, j + 2);
            if k == j + 2 {
                Err(DurationError::MissingFraction)
            } else if number_value(s, j + 2, k) > u64::MAX {
                Err(DurationError::NumberTooLarge)
            } else {
                let fraction = as_signed(number_value(s, j + 2, k));
                if units_fit(amount, 1) && millis_fit(fraction) && millis_fit(
                    amount * 1000 + fraction,
                ) {
                    Ok((amount * 1000 + fraction, k))
                } else {
                    Err(DurationError::OutOfRange)
                }
            }
        } else if units_fit(amount, 1) {
            Ok((amount * 1000, j + 1))
        } else {
            Err(DurationError::OutOfRange)
        }
    } else {
        Err(DurationError::UnknownUnit(unit))
    }
}

/// The duration that the text from `i` on adds up to on top of `total`
/// milliseconds: numbers with their units are read until no digit follows,
/// and what follows then is not looked at.
pub open spec fn read_from(s: Seq<char>, i: int, total: int) -> Result<int, DurationError>
    decreases s.len() - i,
{
    let j = digits_end(s, i);
    if j == i || i < 0 {
        Ok(total)
    } else if number_value(s, i, j) > u64::MAX {
        Err(DurationError::NumberTooLarge)
    } else if j >= s.len() {
        Err(DurationError::MissingUnit)
    } else {
        match segment(s, i, j) {
            Ok((millis, next)) => {
                if !millis_fit(total + millis) {
                    Err(DurationError::OutOfRange)
                } else if next <= i || next > s.len() {
                    Ok(total)
                } else {
                    read_from(s, next, total + millis)
                }
            },
            Err(error) => Err(error),
        }
    }
}

/// The duration in milliseconds that a text stands for. The text starts
/// with `P`; after that `P` and any `P` or `T` that follow it come numbers,
/// each with a unit: `D` for days, which a `T` may follow, `H` for hours,
/// `M` for minutes and `S` for seconds. A point may follow the `S` of the
/// seconds, and the number after the point counts milliseconds.
pub open spec fn read(s: Seq<char>) -> Result<int, DurationError> {
    if s.len() == 0 || s[0] != 'P' {
        Err(DurationError::MissingPrefix)
    } else {
        read_from(s, prefix_end(s, 0), 0)
    }
}

/// The digits from `i` end at or after `i` and within the text.
pub proof fn lemma_digits_end(s: Seq<char>, i: int)
    requires
        0 <= i <= s.len(),
    ensures
        i <= digits_end(s, i) <= s.len(),
        forall|k: int| i <= k < digits_end(s, i) ==> is_digit(#[trigger] s[k]),
        digits_end(s, i) < s.len() ==> !is_digit(s[digits_end(s, i)]),
    decreases s.len() - i,
{
    if i < s.len() && is_digit(s[i]) {
        lemma_digits_end(s, i + 1);
    }
}

/// Where all characters from `i` up to `j` are digits and the one at `j`
/// is not, the digits from `i` end at `j`.
pub proof fn lemma_digits_end_is(s: Seq<char>, i: int, j: int)
    requires
        0 <= i <= j <= s.len(),
        forall|k: int| i <= k < j ==> is_digit(#[trigger] s[k]),
        j < s.len() ==> !is_digit(s[j]),
    ensures
        digits_end(s, i) == j,
    decreases j - i,
{
    if i < j {
        assert(is_digit(s[i]));
        lemma_digits_end_is(s, i + 1, j);
    }
}

/// More digits make a number no smaller.
pub proof fn lemma_number_value_grows(s: Seq<char>, i: int, j: int, k: int)
    requires
        0 <= i <= j <= k <= s.len(),
        forall|m: int| i <= m < k ==> is_digit(#[trigger] s[m]),
    ensures
        0 <= number_value(s, i, j) <= number_value(s, i, k),
    decreases k - j,
{
    lemma_number_value_nonnegative(s, i, j);
    if j < k {
        lemma_number_value_grows(s, i, j, k - 1);
        assert(is_digit(s[k - 1]));
    }
}

/// A number is not negative.
pub proof fn lemma_number_value_nonnegative(s: Seq<char>, i: int, j: int)
    requires
        0 <= i <= j <= s.len(),
        forall|m: int| i <= m < j ==> is_digit(#[trigger] s[m]),
    ensures
        0 <= number_value(s, i, j),
    decreases j - i,
{
    if i < j {
        lemma_number_value_nonnegative(s, i, j - 1);
        assert(is_digit(s[j - 1]));
    }
}

/// The digit `d` as text.
fn digit_text(d: u8) -> (text: &'static str)
    requires
        d < 10,
    ensures
        text@ == seq![digit_char(d as int)],
{
    proof {
        reveal_strlit("0");
        reveal_strlit("1");
        reveal_strlit("2");
        reveal_strlit("3");
        reveal_strlit("4");
        reveal_strlit("5");
        reveal_strlit("6");
        reveal_strlit("7");
        reveal_strlit("8");
        reveal_strlit("9");
    }
    let text = if d == 0 {
        "0"
    } else if d == 1 {
        "1"
    } else if d == 2 {
        "2"
    } else if d == 3 {
        "3"
    } else if d == 4 {
        "4"
    } else if d == 5 {
        "5"
    } else if d == 6 {
        "6"
    } else if d == 7 {
        "7"
    } else if d == 8 {
        "8"
    } else {
        "9"
    };
    assert(text@ =~= seq![digit_char(d as int)]);
    text
}

/// Writes `n` in decimal digits at the end of `out`.
fn push_decimal(out: &mut String, n: u64)
    ensures
        final(out)@ == old(out)@ + decimal(n as nat),
    decreases n,
{
    if n >= 10 {
        push_decimal(out, n / 10);
    }
    let ghost before = out@;
    out.append(digit_text((n % 10) as u8));
    proof {
        if n >= 10 {
            assert(out@ =~= old(out)@ + decimal(n as nat));
        } else {
            assert(out@ =~= old(out)@ + decimal(n as nat));
        }
    }
}

/// Writes a duration of `millis` milliseconds the ISO 8601 way.
pub fn serialize(millis: i64) -> (text: String)
    ensures
        text@ == written(millis as int),
{
    proof {
        reveal_strlit("P");
        reveal_strlit("D");
        reveal_strlit("T");
        reveal_strlit("H");
        reveal_strlit("M");
        reveal_strlit("S");
        reveal_strlit(".");
    }
    let mut text = String::from_str("P");
    assert(text@ =~= seq!['P']);
    if millis <= 0 {
        return text;
    }
    let secs: u64 = (millis / 1000) as u64;
    let ms: u64 = (millis % 1000) as u64;
    let days = secs / 86_400;
    let hours = secs % 86_400 / 3600;
    let minutes = secs % 3600 / 60;
    let seconds = secs % 60;
    let ghost lead = seq!['P'];
    let ghost days_part = part(days > 0, decimal(days as nat).push('D'));
    let ghost time_mark = part(hours > 0 || minutes > 0 || seconds > 0 || ms > 0, seq!['T']);
    let ghost hours_part = part(hours > 0, decimal(hours as nat).push('H'));
    let ghost minutes_part = part(minutes > 0, decimal(minutes as nat).push('M'));
    let ghost seconds_part = part(
        seconds > 0,
        decimal(seconds as nat) + part(ms > 0, seq!['.'] + three_digits(ms as int)) + seq!['S'],
    );
    if days > 0 {
        push_decimal(&mut text, days);
        text.append("D");
    }
    assert(text@ =~= lead + days_part);
    if hours > 0 || minutes > 0 || seconds > 0 || ms > 0 {
        text.append("T");
    }
    assert(text@ =~= lead + days_part + time_mark);
    if hours > 0 {
        push_decimal(&mut text, hours);
        text.append("H");
    }
    assert(text@ =~= lead + days_part + time_mark + hours_part);
    if minutes > 0 {
        push_decimal(&mut text, minutes);
        text.append("M");
    }
    assert(text@ =~= lead + days_part + time_mark + hours_part + minutes_part);
    if seconds > 0 {
        push_decimal(&mut text, seconds);
        if ms > 0 {
            text.append(".");
            text.append(digit_text((ms / 100) as u8));
            text.append(digit_text((ms / 10 % 10) as u8));
            text.append(digit_text((ms % 10) as u8));
        }
        text.append("S");
    }
    assert(text@ =~= lead + days_part + time_mark + hours_part + minutes_part + seconds_part);
    text
}

/// Whether the character at `i` is a digit.
fn digit_at(text: &str, i: usize) -> (digit: bool)
    requires
        i < text@.len(),
    ensures
        digit == is_digit(text@[i as int]),
{
    let c = text.get_char(i);
    c >= '0' && c <= '9'
}

/// Reads the digits from `i` on. Gives the place where they end and the
/// number that they stand for, or `None` for the number where it does not
/// fit 64 bits.
fn read_number(text: &str, len: usize, i: usize) -> (result: (usize, Option<u64>))
    requires
        len == text@.len(),
        i <= len,
    ensures
        result.0 == digits_end(text@, i as int),
        i <= result.0 <= len,
        match result.1 {
            Some(n) => n == number_value(text@, i as int, result.0 as int),
            None => number_value(text@, i as int, result.0 as int) > u64::MAX,
        },
{
    let mut j: usize = i;
    let mut value: Option<u64> = Some(0);
    while j < len && digit_at(text, j)
        invariant
            len == text@.len(),
            i <= j <= len,
            forall|k: int| i <= k < j ==> is_digit(#[trigger] text@[k]),
            match value {
                Some(n) => n == number_value(text@, i as int, j as int),
                None => exists|m: int|
                    i <= m <= j && number_value(text@, i as int, m) > u64::MAX,
            },
        decreases len - j,
    {
        let c = text.get_char(j);
        let digit: u64 = (c as u32 - 48) as u64;
        value = match value {
            Some(n) => {
                if n > (u64::MAX - digit) / 10 {
                    proof {
                        assert(number_value(text@, i as int, j as int + 1) > u64::MAX);
                    }
                    None
                } else {
                    Some(n * 10 + digit)
                }
            },
            None => None,
        };
        j = j + 1;
    }
    proof {
        lemma_digits_end_is(text@, i as int, j as int);
        if value is None {
            let m = choose|m: int| i <= m <= j && number_value(text@, i as int, m) > u64::MAX;
            lemma_number_value_grows(text@, i as int, m, j as int);
        }
    }
    (j, value)
}

/// `amount` units of `unit` seconds each in milliseconds, where they make
/// a duration.
fn units(amount: i64, unit: i64) -> (millis: Option<i64>)
    requires
        1 <= unit <= 86_400,
    ensures
        match millis {
            Some(value) => units_fit(amount as int, unit as int) && value == amount * unit * 1000,
            None => !units_fit(amount as int, unit as int),
        },
{
    assert(-0x8000_0000_0000_0000 * 86_400 <= amount * unit <= 0x8000_0000_0000_0000 * 86_400)
        by (nonlinear_arith)
        requires
            -0x8000_0000_0000_0000 <= amount <= 0x8000_0000_0000_0000,
            1 <= unit <= 86_400,
    ;
    let seconds: i128 = amount as i128 * unit as i128;
    if seconds < -9_223_372_036_854_775 || seconds > 9_223_372_036_854_775 {
        None
    } else {
        Some((seconds * 1000) as i64)
    }
}

/// Reads a duration written the ISO 8601 way.
pub fn deserialize(text: &str) -> (result: Result<i64, DurationError>)
    ensures
        match result {
            Ok(millis) => read(text@) == Ok::<int, DurationError>(millis as int),
            Err(error) => read(text@) == Err::<int, DurationError>(error),
        },
{
    let len = text.unicode_len();
    if len == 0 || text.get_char(0) != 'P' {
        return Err(DurationError::MissingPrefix);
    }
    let mut i: usize = 0;
    while i < len && (text.get_char(i) == 'P' || text.get_char(i) == 'T')
        invariant
            len == text@.len(),
            i <= len,
            prefix_end(text@, 0) == prefix_end(text@, i as int),
        decreases len - i,
    {
        i = i + 1;
    }
    let mut total: i64 = 0;
    loop
        invariant
            len == text@.len(),
            i <= len,
            millis_fit(total as int),
            read(text@) == read_from(text@, i as int, total as int),
        decreases len - i,
    {
        let (j, number) = read_number(text, len, i);
        if j == i {
            return Ok(total);
        }
        let n = match number {
            Some(n) => n,
            None => {
                return Err(DurationError::NumberTooLarge);
            },
        };
        if j >= len {
            return Err(DurationError::MissingUnit);
        }
        let amount = signed(n);
        let unit = text.get_char(j);
        let mut next: usize = j + 1;
        let added: Option<i64> = if unit == 'D' {
            if j + 1 < len && text.get_char(j + 1) == 'T' {
                next = j + 2;
            }
            units(amount, 86_400)
        } else if unit == 'H' {
            units(amount, 3600)
        } else if unit == 'M' {
            units(amount, 60)
        } else if unit == 'S' {
            if j + 1 < len && text.get_char(j + 1) == '.' {
                let (k, fraction) = read_number(text, len, j + 2);
                if k == j + 2 {
                    return Err(DurationError::MissingFraction);
                }
                let fraction = match fraction {
                    Some(n) => signed(n),
                    None => {
                        return Err(DurationError::NumberTooLarge);
                    },
                };
                next = k;
                match units(amount, 1) {
                    Some(whole) => {
                        let sum: i128 = whole as i128 + fraction as i128;
                        if fraction < -0x7fff_ffff_ffff_ffff || sum < -0x7fff_ffff_ffff_ffff || sum
                            > 0x7fff_ffff_ffff_ffff {
                            None
                        } else {
                            Some(sum as i64)
                        }
                    },
                    None => None,
                }
            } else {
                units(amount, 1)
            }
        } else {
            return Err(DurationError::UnknownUnit(unit));
        };
        let millis = match added {
            Some(millis) => millis,
            None => {
                return Err(DurationError::OutOfRange);
            },
        };
        let sum: i128 = total as i128 + millis as i128;
        if sum < -0x7fff_ffff_ffff_ffff || sum > 0x7fff_ffff_ffff_ffff {
            return Err(DurationError::OutOfRange);
        }
        total = sum as i64;
        i = next;
    }
}

} // verus!
