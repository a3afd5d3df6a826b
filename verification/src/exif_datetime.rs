use vstd::prelude::*;

use vstd::string::StrSliceExecFns;

use crate::timestamp::{
    days_in_month, month_length, timestamp_from_ymd_hms, timestamp_of_ymd_hms, valid_ymd,
    TIMESTAMP_MAX, TIMESTAMP_MIN,
};

verus! {

// EXIF date-time values use the fixed grammar `YYYY:MM:DD HH:MM:SS`; any
// characters past the nineteenth are ignored. A value parses when the grammar
// matches and the fields name a real calendar date and time of day.
pub open spec fn is_digit(c: char) -> bool {
    '0' <= c && c <= '9'
}

pub open spec fn digit_val(c: char) -> int {
    c as int - '0' as int
}

pub open spec fn digits_at(s: Seq<char>, start: int, len: int) -> bool {
    forall|k: int| start <= k < start + len ==> is_digit(#[trigger] s[k])
}

/// Value of the `len` digits beginning at `start`.
pub open spec fn num_at(s: Seq<char>, start: int, len: int) -> int
    decreases len,
{
    if len <= 0 {
        0
    } else {
        num_at(s, start, len - 1) * 10 + digit_val(s[start + len - 1])
    }
}

pub open spec fn dt_shape_ok(s: Seq<char>) -> bool {
    &&& s.len() >= 19
    &&& digits_at(s, 0, 4)
    &&& s[4] == ':'
    &&& digits_at(s, 5, 2)
    &&& s[7] == ':'
    &&& digits_at(s, 8, 2)
    &&& s[10] == ' '
    &&& digits_at(s, 11, 2)
    &&& s[13] == ':'
    &&& digits_at(s, 14, 2)
    &&& s[16] == ':'
    &&& digits_at(s, 17, 2)
}

pub open spec fn dt_year(s: Seq<char>) -> int {
    num_at(s, 0, 4)
}

pub open spec fn dt_month(s: Seq<char>) -> int {
    num_at(s, 5, 2)
}

pub open spec fn dt_dom(s: Seq<char>) -> int {
    num_at(s, 8, 2)
}

pub open spec fn dt_hour(s: Seq<char>) -> int {
    num_at(s, 11, 2)
}

pub open spec fn dt_minute(s: Seq<char>) -> int {
    num_at(s, 14, 2)
}

pub open spec fn dt_second(s: Seq<char>) -> int {
    num_at(s, 17, 2)
}

pub open spec fn dt_fields_ok(s: Seq<char>) -> bool {
    &&& valid_ymd(dt_year(s), dt_month(s), dt_dom(s))
    &&& dt_hour(s) <= 23
    &&& dt_minute(s) <= 59
    &&& dt_second(s) <= 59
}

/// The timestamp an EXIF date-time string denotes, when it denotes one.
pub open spec fn exif_datetime_value(s: Seq<char>) -> Option<int> {
    if dt_shape_ok(s) && dt_fields_ok(s) {
        Option::Some(
            timestamp_of_ymd_hms(
                dt_year(s),
                dt_month(s),
                dt_dom(s),
                dt_hour(s),
                dt_minute(s),
                dt_second(s),
            ),
        )
    } else {
        Option::None
    }
}

/// The digit value at one position of the string, or nothing if another
/// character stands there.
fn digit_of(s: &str, i: usize) -> (r: Option<u16>)
    requires
        i < s@.len(),
    ensures
        r matches Some(v) ==> is_digit(s@[i as int]) && v == digit_val(s@[i as int]) && v <= 9,
        r is None ==> !is_digit(s@[i as int]),
{
    let c = s.get_char(i);
    if c >= '0' && c <= '9' {
        Some((c as u32 - '0' as u32) as u16)
    } else {
        None
    }
}

fn char_at_is(s: &str, i: usize, expected: char) -> (r: bool)
    requires
        i < s@.len(),
    ensures
        r == (s@[i as int] == expected),
{
    s.get_char(i) == expected
}

fn num2_at(s: &str, start: usize) -> (r: Option<u16>)
    requires
        start + 2 <= s@.len(),
        s@.len() <= usize::MAX,
    ensures
        r matches Some(v) ==> digits_at(s@, start as int, 2) && v == num_at(s@, start as int, 2)
            && v <= 99,
        r is None ==> !digits_at(s@, start as int, 2),
{
    let d0 = digit_of(s, start);
    let d1 = digit_of(s, start + 1);
    match (d0, d1) {
        (Some(a), Some(b)) => {
            assert forall|k: int| start <= k < start + 2 implies is_digit(#[trigger] s@[k]) by {
                assert(k == start || k == start + 1);
            }
            assert(num_at(s@, start as int, 2) == a * 10 + b) by {
                reveal_with_fuel(num_at, 3);
            }
            Some(a * 10 + b)
        },
        _ => None,
    }
}

fn num4_at(s: &str, start: usize) -> (r: Option<u16>)
    requires
        start + 4 <= s@.len(),
        s@.len() <= usize::MAX,
    ensures
        r matches Some(v) ==> digits_at(s@, start as int, 4) && v == num_at(s@, start as int, 4)
            && v <= 9999,
        r is None ==> !digits_at(s@, start as int, 4),
{
    let d0 = digit_of(s, start);
    let d1 = digit_of(s, start + 1);
    let d2 = digit_of(s, start + 2);
    let d3 = digit_of(s, start + 3);
    match (d0, d1, d2, d3) {
        (Some(a), Some(b), Some(c), Some(d)) => {
            assert forall|k: int| start <= k < start + 4 implies is_digit(#[trigger] s@[k]) by {
                assert(k == start || k == start + 1 || k == start + 2 || k == start + 3);
            }
            assert(num_at(s@, start as int, 4) == ((a * 10 + b) * 10 + c) * 10 + d) by {
                reveal_with_fuel(num_at, 5);
            }
            Some(((a * 10 + b) * 10 + c) * 10 + d)
        },
        _ => None,
    }
}

/// Parse an EXIF `YYYY:MM:DD HH:MM:SS` string into the timestamp it denotes.
pub fn parse_exif_datetime(s: &str) -> (r: Option<i64>)
    ensures
        r matches Some(ts) ==> exif_datetime_value(s@) == Option::Some(ts as int)
            && TIMESTAMP_MIN <= ts <= TIMESTAMP_MAX,
        r is None ==> exif_datetime_value(s@) is None,
{
    let n = s.unicode_len();
    if n < 19 {
        return None;
    }
    if !(char_at_is(s, 4, ':') && char_at_is(s, 7, ':') && char_at_is(s, 10, ' ') && char_at_is(
        s,
        13,
        ':',
    ) && char_at_is(s, 16, ':')) {
        return None;
    }
    let y = match num4_at(s, 0) {
        Some(v) => v,
        None => {
            return None;
        },
    };
    let mo = match num2_at(s, 5) {
        Some(v) => v,
        None => {
            return None;
        },
    };
    let d = match num2_at(s, 8) {
        Some(v) => v,
        None => {
            return None;
        },
    };
    let h = match num2_at(s, 11) {
        Some(v) => v,
        None => {
            return None;
        },
    };
    let mi = match num2_at(s, 14) {
        Some(v) => v,
        None => {
            return None;
        },
    };
    let sec = match num2_at(s, 17) {
        Some(v) => v,
        None => {
            return None;
        },
    };
    if y < 1 || mo < 1 || mo > 12 || d < 1 {
        return None;
    }
    if d > month_length(y, mo as u8) as u16 {
        return None;
    }
    if h > 23 || mi > 59 || sec > 59 {
        return None;
    }
    Some(timestamp_from_ymd_hms(y, mo as u8, d as u8, h as u8, mi as u8, sec as u8))
}

} // verus!
