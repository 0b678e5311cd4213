use vstd::prelude::*;
use crate::text::digit_val;
use crate::text::is_digit;

verus! {

/// A calendar timestamp, held as plain field values.
#[derive(PartialEq, Eq, Structural, Clone, Copy, Debug)]
pub struct Timestamp {
    pub year: u32,
    pub month: u32,
    pub day: u32,
    pub hour: u32,
    pub minute: u32,
    pub second: u32,
}

/// Whether `y` is a leap year of the Gregorian calendar.
pub open spec fn is_leap_year(y: int) -> bool {
    (y % 4 == 0 && y % 100 != 0) || y % 400 == 0
}

/// How many days month `m` of year `y` has.
pub open spec fn days_in_month(y: int, m: int) -> int {
    if m == 2 {
        if is_leap_year(y) {
            29
        } else {
            28
        }
    } else if m == 4 || m == 6 || m == 9 || m == 11 {
        30
    } else {
        31
    }
}

impl Timestamp {
    /// A well-formed timestamp names an existing calendar date and time
    /// of day.
    pub open spec fn wf(self) -> bool {
        &&& self.year <= 9999
        &&& 1 <= self.month <= 12
        &&& 1 <= self.day <= days_in_month(self.year as int, self.month as int)
        &&& self.hour <= 23
        &&& self.minute <= 59
        &&& self.second <= 59
    }
}

/// How many days month `m` of year `y` has.
pub fn days_in_month_of(y: u32, m: u32) -> (d: u32)
    requires
        1 <= m <= 12,
    ensures
        d as int == days_in_month(y as int, m as int),
{
    if m == 2 {
        if (y % 4 == 0 && y % 100 != 0) || y % 400 == 0 {
            29
        } else {
            28
        }
    } else if m == 4 || m == 6 || m == 9 || m == 11 {
        30
    } else {
        31
    }
}

/// Whether `s` is laid out as `YYYY-MM-DD HH:MM:SS`: nineteen characters,
/// digits and separators in their fixed places.
pub open spec fn ts_shape_ok(s: Seq<char>) -> bool {
    &&& s.len() == 19
    &&& is_digit(s[0]) && is_digit(s[1]) && is_digit(s[2]) && is_digit(s[3])
    &&& s[4] == '-'
    &&& is_digit(s[5]) && is_digit(s[6])
    &&& s[7] == '-'
    &&& is_digit(s[8]) && is_digit(s[9])
    &&& s[10] == ' '
    &&& is_digit(s[11]) && is_digit(s[12])
    &&& s[13] == ':'
    &&& is_digit(s[14]) && is_digit(s[15])
    &&& s[16] == ':'
    &&& is_digit(s[17]) && is_digit(s[18])
}

/// The timestamp written in a well-shaped `YYYY-MM-DD HH:MM:SS` string.
pub open spec fn ts_of(s: Seq<char>) -> Timestamp {
    Timestamp {
        year: (digit_val(s[0]) * 1000 + digit_val(s[1]) * 100 + digit_val(s[2]) * 10
            + digit_val(s[3])) as u32,
        month: (digit_val(s[5]) * 10 + digit_val(s[6])) as u32,
        day: (digit_val(s[8]) * 10 + digit_val(s[9])) as u32,
        hour: (digit_val(s[11]) * 10 + digit_val(s[12])) as u32,
        minute: (digit_val(s[14]) * 10 + digit_val(s[15])) as u32,
        second: (digit_val(s[17]) * 10 + digit_val(s[18])) as u32,
    }
}

/// Whether `s` spells a well-formed timestamp in the fixed
/// `YYYY-MM-DD HH:MM:SS` format.
pub open spec fn ts_valid(s: Seq<char>) -> bool {
    ts_shape_ok(s) && ts_of(s).wf()
}

fn digit_at(s: &str, i: usize) -> (r: Option<u32>)
    requires
        (i as int) < s@.len(),
    ensures
        r is Some <==> is_digit(s@[i as int]),
        r matches Some(v) ==> v as int == digit_val(s@[i as int]) && v <= 9,
{
    let c = s.get_char(i);
    let u = c as u32;
    if 48 <= u && u <= 57 {
        Some(u - 48)
    } else {
        None
    }
}

/// Parses the fixed `YYYY-MM-DD HH:MM:SS` format, accepting exactly the
/// strings that spell a well-formed timestamp.
pub fn parse_timestamp(s: &str) -> (r: Option<Timestamp>)
    ensures
        r is Some <==> ts_valid(s@),
        r matches Some(t) ==> t == ts_of(s@) && t.wf(),
{
    let n: usize = s.unicode_len();
    if n != 19 {
        return None;
    }
    if s.get_char(4) != '-' || s.get_char(7) != '-' || s.get_char(10) != ' '
        || s.get_char(13) != ':' || s.get_char(16) != ':' {
        return None;
    }
    let y0 = match digit_at(s, 0) { Some(v) => v, None => return None };
    let y1 = match digit_at(s, 1) { Some(v) => v, None => return None };
    let y2 = match digit_at(s, 2) { Some(v) => v, None => return None };
    let y3 = match digit_at(s, 3) { Some(v) => v, None => return None };
    let mo0 = match digit_at(s, 5) { Some(v) => v, None => return None };
    let mo1 = match digit_at(s, 6) { Some(v) => v, None => return None };
    let d0 = match digit_at(s, 8) { Some(v) => v, None => return None };
    let d1 = match digit_at(s, 9) { Some(v) => v, None => return None };
    let h0 = match digit_at(s, 11) { Some(v) => v, None => return None };
    let h1 = match digit_at(s, 12) { Some(v) => v, None => return None };
    let mi0 = match digit_at(s, 14) { Some(v) => v, None => return None };
    let mi1 = match digit_at(s, 15) { Some(v) => v, None => return None };
    let s0 = match digit_at(s, 17) { Some(v) => v, None => return None };
    let s1 = match digit_at(s, 18) { Some(v) => v, None => return None };
    let year: u32 = y0 * 1000 + y1 * 100 + y2 * 10 + y3;
    let month: u32 = mo0 * 10 + mo1;
    let day: u32 = d0 * 10 + d1;
    let hour: u32 = h0 * 10 + h1;
    let minute: u32 = mi0 * 10 + mi1;
    let second: u32 = s0 * 10 + s1;
    let t = Timestamp { year, month, day, hour, minute, second };
    proof {
        assert(ts_shape_ok(s@));
        assert(t == ts_of(s@));
    }
    if month < 1 || month > 12 {
        return None;
    }
    if day < 1 || day > days_in_month_of(year, month) {
        return None;
    }
    if hour > 23 || minute > 59 || second > 59 {
        return None;
    }
    Some(t)
}

} // verus!
