//! Feed timestamps: the status feed reports instants as
//! `YYYY-MM-DD HH:MM:SS` (a `T` may stand between date and time, and
//! anything after the seconds is ignored). The engine compares instants
//! as epoch seconds, so the text is converted here, by the standard civil
//! calendar arithmetic.

use vstd::prelude::*;
use vstd::string::StrSliceExecFns;

verus! {

/// Days from 1970-01-01 to the civil date `y-m-d`, by the usual
/// 400-year-era computation of the proleptic Gregorian calendar.
pub open spec fn days_from_civil(y: int, m: int, d: int) -> int {
    let yy = if m <= 2 {
        y - 1
    } else {
        y
    };
    let era = yy / 400;
    let yoe = yy - era * 400;
    let mp = if m > 2 {
        m - 3
    } else {
        m + 9
    };
    let doy = (153 * mp + 2) / 5 + d - 1;
    let doe = yoe * 365 + yoe / 4 - yoe / 100 + doy;
    era * 146097 + doe - 719468
}

/// The digit value of `c`, or -1 when it is no digit.
pub open spec fn digit_of(c: char) -> int {
    if '0' <= c && c <= '9' {
        (c as u32) - 48
    } else {
        -1
    }
}

/// Whether the first nineteen characters read `YYYY-MM-DD HH:MM:SS` with
/// `T` or a space in the middle and every field in calendar range.
pub open spec fn ts_shape_ok(s: Seq<char>) -> bool {
    &&& s.len() >= 19
    &&& (forall|k: int|
        #![trigger s[k]]
        0 <= k < 19 && k != 4 && k != 7 && k != 10 && k != 13 && k != 16 ==> digit_of(s[k]) >= 0)
    &&& s[4] == '-'
    &&& s[7] == '-'
    &&& (s[10] == 'T' || s[10] == ' ')
    &&& s[13] == ':'
    &&& s[16] == ':'
    &&& 1 <= ts_year(s)
    &&& 1 <= ts_month(s) <= 12
    &&& 1 <= ts_day(s) <= 31
    &&& ts_hour(s) <= 23
    &&& ts_minute(s) <= 59
    &&& ts_second(s) <= 59
}

pub open spec fn ts_year(s: Seq<char>) -> int {
    digit_of(s[0]) * 1000 + digit_of(s[1]) * 100 + digit_of(s[2]) * 10 + digit_of(s[3])
}

pub open spec fn ts_month(s: Seq<char>) -> int {
    digit_of(s[5]) * 10 + digit_of(s[6])
}

pub open spec fn ts_day(s: Seq<char>) -> int {
    digit_of(s[8]) * 10 + digit_of(s[9])
}

pub open spec fn ts_hour(s: Seq<char>) -> int {
    digit_of(s[11]) * 10 + digit_of(s[12])
}

pub open spec fn ts_minute(s: Seq<char>) -> int {
    digit_of(s[14]) * 10 + digit_of(s[15])
}

pub open spec fn ts_second(s: Seq<char>) -> int {
    digit_of(s[17]) * 10 + digit_of(s[18])
}

/// The instant a well-shaped timestamp denotes, epoch seconds.
pub open spec fn ts_epoch(s: Seq<char>) -> int {
    days_from_civil(ts_year(s), ts_month(s), ts_day(s)) * 86400 + ts_hour(s) * 3600 + ts_minute(
        s,
    ) * 60 + ts_second(s)
}

/// Reads the digit at position `k`.
fn digit_at(s: &str, k: usize) -> (r: Option<i64>)
    requires
        k < s@.len(),
    ensures
        match r {
            Some(v) => digit_of(s@[k as int]) == v && 0 <= v <= 9,
            None => digit_of(s@[k as int]) < 0,
        },
{
    let c = s.get_char(k);
    if '0' <= c && c <= '9' {
        Some(((c as u32) - 48) as i64)
    } else {
        None
    }
}

/// Parses a feed timestamp to epoch seconds: `Some` exactly for
/// well-shaped text, and then the civil-calendar instant it denotes.
#[verifier::rlimit(60)]
pub fn parse_timestamp(s: &str) -> (r: Option<i64>)
    ensures
        match r {
            Some(v) => ts_shape_ok(s@) && v == ts_epoch(s@),
            None => !ts_shape_ok(s@),
        },
{
    if s.unicode_len() < 19 {
        return None;
    }
    let mut digits: [i64; 19] = [0; 19];
    let mut k: usize = 0;
    while k < 19
        invariant
            k <= 19,
            s@.len() >= 19,
            forall|j: int|
                #![trigger digits@[j]]
                0 <= j < k && j != 4 && j != 7 && j != 10 && j != 13 && j != 16 ==> digits@[j]
                    == digit_of(s@[j]) && 0 <= digits@[j] <= 9,
        decreases 19 - k,
    {
        if k != 4 && k != 7 && k != 10 && k != 13 && k != 16 {
            match digit_at(s, k) {
                Some(v) => {
                    digits[k] = v;
                },
                None => {
                    return None;
                },
            }
        }
        k += 1;
    }
    if s.get_char(4) != '-' || s.get_char(7) != '-' {
        return None;
    }
    let sep = s.get_char(10);
    if sep != 'T' && sep != ' ' {
        return None;
    }
    if s.get_char(13) != ':' || s.get_char(16) != ':' {
        return None;
    }
    let y: i64 = digits[0] * 1000 + digits[1] * 100 + digits[2] * 10 + digits[3];
    let mo: i64 = digits[5] * 10 + digits[6];
    let d: i64 = digits[8] * 10 + digits[9];
    let h: i64 = digits[11] * 10 + digits[12];
    let mi: i64 = digits[14] * 10 + digits[15];
    let sec: i64 = digits[17] * 10 + digits[18];
    if !(1 <= y && 1 <= mo && mo <= 12 && 1 <= d && d <= 31 && h <= 23 && mi <= 59 && sec
        <= 59) {
        return None;
    }
    let yy: i64 = if mo <= 2 {
        y - 1
    } else {
        y
    };
    let era: i64 = yy / 400;
    let yoe: i64 = yy - era * 400;
    let mp: i64 = if mo > 2 {
        mo - 3
    } else {
        mo + 9
    };
    let doy: i64 = (153 * mp + 2) / 5 + d - 1;
    let doe: i64 = yoe * 365 + yoe / 4 - yoe / 100 + doy;
    let days: i64 = era * 146097 + doe - 719468;
    let v: i64 = days * 86400 + h * 3600 + mi * 60 + sec;
    proof {
        assert(ts_shape_ok(s@));
        assert(v == ts_epoch(s@));
    }
    Some(v)
}

} // verus!
