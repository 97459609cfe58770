//! Small helpers: clock-face rendering of timestamps, and the random port
//! draw.

use vstd::prelude::*;
use crate::endpoint::digit_char;

verus! {

/// The two-digit, zero-padded rendering of `n` (`n` below 100).
pub open spec fn two_digit_chars(n: int) -> Seq<char> {
    seq![digit_char((n / 10) as nat), digit_char((n % 10) as nat)]
}

/// The "HH:MM:SS" clock face for second `secs` of a day.
pub open spec fn clock_chars(secs: int) -> Seq<char> {
    two_digit_chars(secs / 3600) + seq![':'] + two_digit_chars((secs % 3600) / 60) + seq![':']
        + two_digit_chars(secs % 60)
}

/// Appends the two-digit rendering of `n`.
fn push_two_digits(s: &mut String, n: u64)
    requires
        n < 100,
    ensures
        final(s)@ == old(s)@ + two_digit_chars(n as int),
{
    crate::endpoint::push_digit(s, (n / 10) as u8);
    crate::endpoint::push_digit(s, (n % 10) as u8);
    proof {
        assert(s@ =~= old(s)@ + two_digit_chars(n as int));
    }
}

/// The clock face of `timestamp` shifted into the fixed timezone
/// `offset_hours` east of UTC: "HH:MM:SS" of the shifted time's second of
/// day.
pub fn display_time_from_timestamp_with_tz(timestamp: i64, offset_hours: i32) -> (r: String)
    requires
        -24 < offset_hours < 24,
        i64::MIN + 90000 < timestamp < i64::MAX - 90000,
    ensures
        r@ == clock_chars((timestamp + offset_hours * 3600) % 86400),
{
    let shifted: i64 = timestamp + (offset_hours as i64) * 3600;
    let day_second: i64 = match shifted.checked_rem_euclid(86400) {
        Some(m) => m,
        None => 0,
    };
    proof {
        assert(day_second == shifted as int % 86400);
        assert(0 <= day_second < 86400);
    }
    let secs = day_second as u64;
    let mut out = String::new();
    push_two_digits(&mut out, secs / 3600);
    out.push(':');
    push_two_digits(&mut out, (secs % 3600) / 60);
    out.push(':');
    push_two_digits(&mut out, secs % 60);
    proof {
        assert(out@ =~= clock_chars(day_second as int));
    }
    out
}

/// The clock face of `timestamp` in the default timezone, UTC+8.
pub fn display_time_from_timestamp(timestamp: i64) -> (r: String)
    requires
        i64::MIN + 90000 < timestamp < i64::MAX - 90000,
    ensures
        r@ == clock_chars((timestamp + 8 * 3600) % 86400),
{
    display_time_from_timestamp_with_tz(timestamp, 8)
}

/// Relies on rand's `random_range` over an inclusive range: a port drawn
/// uniformly between the bounds. The draw is random, so only the bounds are
/// promised.
#[verifier::external_body]
pub fn get_random_port(min: u16, max: u16) -> (r: u16)
    requires
        min <= max,
    ensures
        min <= r <= max,
{
    let mut rng = rand::rng();
    rand::Rng::random_range(&mut rng, min..=max)
}

} // verus!
