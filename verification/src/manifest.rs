//! Timestamps for the run record written beside a generated world:
//! days-since-epoch to proleptic Gregorian date, and Unix seconds to an
//! ISO-8601 UTC string.

use crate::text::{dec_padded, dec_padded_chars, push_char, push_chars};
use vstd::prelude::*;

verus! {

broadcast use vstd::string::group_string_axioms;

/// Proleptic Gregorian `(year, month, day)` of the day `z` days after
/// 1970-01-01 (Howard Hinnant's `civil_from_days`: count from 0000-03-01 in
/// 400-year eras of 146097 days, then year-of-era, day-of-year from March,
/// and month from a 153-day five-month cycle).
pub open spec fn civil_spec(z0: int) -> (int, int, int) {
    let z = z0 + 719468;
    let era = z / 146097;
    let doe = z - era * 146097;
    let yoe = (doe - doe / 1460 + doe / 36524 - doe / 146096) / 365;
    let y = yoe + era * 400;
    let doy = doe - (365 * yoe + yoe / 4 - yoe / 100);
    let mp = (5 * doy + 2) / 153;
    let d = doy - (153 * mp + 2) / 5 + 1;
    let m = if mp < 10 { mp + 3 } else { mp - 9 };
    (if m <= 2 { y + 1 } else { y }, m, d)
}

/// Year, month and day of the day `z` days after 1970-01-01: exactly
/// [`civil_spec`], with the month in 1..=12 and the day in 1..=31.
pub fn civil_from_days(z: i64) -> (r: (i64, u32, u32))
    requires
        z <= i64::MAX - 719468,
    ensures
        (r.0 as int, r.1 as int, r.2 as int) == civil_spec(z as int),
        1 <= r.1 <= 12,
        1 <= r.2 <= 31,
{
    let z = z + 719468;
    let era: i64 = if z >= 0 { z } else { z - 146096 } / 146097;
    assert(era == z / 146097);
    let doe = (z - era * 146097) as u64;
    assert(0 <= doe <= 146096);
    let yoe = (doe - doe / 1460 + doe / 36524 - doe / 146096) / 365;
    assert(yoe <= 399);
    let y = yoe as i64 + era * 400;
    let doy = doe - (365 * yoe + yoe / 4 - yoe / 100);
    assert(doy <= 365);
    let mp = (5 * doy + 2) / 153;
    let d = (doy - (153 * mp + 2) / 5 + 1) as u32;
    let m = if mp < 10 {
        mp + 3
    } else {
        mp - 9
    } as u32;
    let y = if m <= 2 {
        y + 1
    } else {
        y
    };
    (y, m, d)
}

/// Days from 1970-01-01 to the proleptic Gregorian date `(y, m, d)`
/// (Howard Hinnant's `days_from_civil`, the inverse of [`civil_spec`]).
pub open spec fn days_from_civil(y: int, m: int, d: int) -> int {
    let y1 = if m <= 2 { y - 1 } else { y };
    let era = y1 / 400;
    let yoe = y1 - era * 400;
    let doy = (153 * (if m > 2 { m - 3 } else { m + 9 }) + 2) / 5 + d - 1;
    let doe = yoe * 365 + yoe / 4 - yoe / 100 + doy;
    era * 146097 + doe - 719468
}

proof fn lemma_day_of_era(doe: int)
    requires
        0 <= doe < 146097,
    ensures
        ({
            let yoe = (doe - doe / 1460 + doe / 36524 - doe / 146096) / 365;
            let doy = doe - (365 * yoe + yoe / 4 - yoe / 100);
            let mp = (5 * doy + 2) / 153;
            &&& 0 <= yoe <= 399
            &&& 0 <= doy <= 365
            &&& 0 <= mp <= 11
            &&& (153 * mp + 2) / 5 <= doy
            &&& yoe * 365 + yoe / 4 - yoe / 100 + doy == doe
        }),
{
}

/// Converting a day count to a calendar date and back gives the same day
/// count: [`civil_spec`] loses nothing.
pub proof fn lemma_civil_round_trip(z: int)
    ensures
        days_from_civil(civil_spec(z).0, civil_spec(z).1, civil_spec(z).2) == z,
{
    let zz = z + 719468;
    let era = zz / 146097;
    let doe = zz - era * 146097;
    assert(0 <= doe < 146097) by {
        vstd::arithmetic::div_mod::lemma_fundamental_div_mod(zz, 146097);
    }
    lemma_day_of_era(doe);
    let yoe = (doe - doe / 1460 + doe / 36524 - doe / 146096) / 365;
    let doy = doe - (365 * yoe + yoe / 4 - yoe / 100);
    let mp = (5 * doy + 2) / 153;
    let (y, m, d) = civil_spec(z);
    let y1 = if m <= 2 { y - 1 } else { y };
    assert(y1 == yoe + era * 400);
    assert(y1 / 400 == era) by {
        vstd::arithmetic::div_mod::lemma_fundamental_div_mod_converse(y1, 400, era, yoe);
    }
    let mm = if m > 2 { m - 3 } else { m + 9 };
    assert(mm == mp);
    assert(d == doy - (153 * mp + 2) / 5 + 1);
    assert((153 * mm + 2) / 5 + d - 1 == doy);
}

/// The ISO-8601 UTC rendering `YYYY-MM-DDTHH:MM:SSZ` of the instant `secs`
/// seconds after 1970-01-01T00:00:00Z: the day is `secs` floor-divided by
/// 86400 and the time of day the non-negative remainder.
pub open spec fn iso8601_spec(secs: int) -> Seq<char> {
    let days = secs / 86400;
    let sod = secs % 86400;
    let (y, m, d) = civil_spec(days);
    dec_padded(y, 4) + seq!['-'] + dec_padded(m, 2) + seq!['-'] + dec_padded(d, 2) + seq!['T']
        + dec_padded(sod / 3600, 2) + seq![':'] + dec_padded((sod % 3600) / 60, 2) + seq![':']
        + dec_padded(sod % 60, 2) + seq!['Z']
}

/// `secs` (Unix seconds, possibly negative) as an ISO-8601 UTC timestamp.
pub fn unix_seconds_to_iso8601_utc(secs: i64) -> (s: String)
    ensures
        s@ == iso8601_spec(secs as int),
{
    let q = secs / 86400;
    let r = secs % 86400;
    let (days, sod) = if r < 0 {
        (q - 1, r + 86400)
    } else {
        (q, r)
    };
    assert(days == secs as int / 86400 && sod == secs as int % 86400) by {
        vstd::arithmetic::div_mod::lemma_fundamental_div_mod_converse(
            secs as int,
            86400,
            days as int,
            sod as int,
        );
    }
    let (y, m, d) = civil_from_days(days);
    let hh = sod / 3600;
    let mm = (sod % 3600) / 60;
    let ss = sod % 60;
    let mut s = String::new();
    push_chars(&mut s, dec_padded_chars(y, 4).as_slice());
    push_char(&mut s, '-');
    push_chars(&mut s, dec_padded_chars(m as i64, 2).as_slice());
    push_char(&mut s, '-');
    push_chars(&mut s, dec_padded_chars(d as i64, 2).as_slice());
    push_char(&mut s, 'T');
    push_chars(&mut s, dec_padded_chars(hh, 2).as_slice());
    push_char(&mut s, ':');
    push_chars(&mut s, dec_padded_chars(mm, 2).as_slice());
    push_char(&mut s, ':');
    push_chars(&mut s, dec_padded_chars(ss, 2).as_slice());
    push_char(&mut s, 'Z');
    assert(s@ =~= iso8601_spec(secs as int));
    s
}

} // verus!
