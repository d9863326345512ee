//! Reading the text timestamps `YYYY-MM-DD HH:MM:SS` (UTC) that an SQLite
//! store writes, as seconds since the Unix epoch.
use vstd::prelude::*;
use crate::text::chars_of;

verus! {

/// The days from 1970-01-01 to the given date of the proleptic Gregorian
/// calendar, for years from 1970 on.
pub open spec fn days_from_civil(y: int, m: int, d: int) -> int {
    let y2 = if m <= 2 { y - 1 } else { y };
    let era = y2 / 400;
    let yoe = y2 - era * 400;
    let mp = if m > 2 { m - 3 } else { m + 9 };
    let doy = (153 * mp + 2) / 5 + d - 1;
    let doe = yoe * 365 + yoe / 4 - yoe / 100 + doy;
    era * 146097 + doe - 719468
}

pub open spec fn is_digit(c: char) -> bool {
    '0' <= c <= '9'
}

pub open spec fn dval(c: char) -> int {
    (c as u32) - ('0' as u32)
}

/// The number the digits at `from .. from + n` spell.
pub open spec fn field(s: Seq<char>, from: int, n: int) -> int
    decreases n,
{
    if n <= 0 {
        0
    } else {
        field(s, from, n - 1) * 10 + dval(s[from + n - 1])
    }
}

/// `s` has the shape `DDDD-DD-DD DD:DD:DD`.
pub open spec fn timestamp_shape(s: Seq<char>) -> bool {
    &&& s.len() == 19
    &&& s[4] == '-' && s[7] == '-' && s[10] == ' ' && s[13] == ':' && s[16] == ':'
    &&& forall|i: int| 0 <= i < 19 && i != 4 && i != 7 && i != 10 && i != 13 && i != 16 ==> is_digit(#[trigger] s[i])
}

/// The seconds since the epoch that a timestamp text names, when it has the
/// shape, a year from 1970, a month 1-12, a day 1-31, an hour below 24 and
/// minutes and seconds below 60.
pub open spec fn timestamp_seconds(s: Seq<char>) -> Option<int> {
    if timestamp_shape(s) {
        let y = field(s, 0, 4);
        let mo = field(s, 5, 2);
        let d = field(s, 8, 2);
        let h = field(s, 11, 2);
        let mi = field(s, 14, 2);
        let se = field(s, 17, 2);
        if y >= 1970 && 1 <= mo <= 12 && 1 <= d <= 31 && h < 24 && mi < 60 && se < 60 {
            Some(days_from_civil(y, mo, d) * 86400 + h * 3600 + mi * 60 + se)
        } else {
            None
        }
    } else {
        None
    }
}

fn read_field(cs: &Vec<char>, from: usize, n: usize) -> (r: u64)
    requires
        from + n <= cs@.len(),
        cs@.len() == 19,
        n <= 4,
        forall|i: int| from <= i < from + n ==> is_digit(#[trigger] cs@[i]),
    ensures
        r == field(cs@, from as int, n as int),
        r < 10000,
{
    let mut v: u64 = 0;
    let mut k: usize = 0;
    while k < n
        invariant
            from + n <= cs@.len(),
            cs@.len() == 19,
            n <= 4,
            k <= n,
            forall|i: int| from <= i < from + n ==> is_digit(#[trigger] cs@[i]),
            v == field(cs@, from as int, k as int),
            v < 10000,
            k < 4 ==> v < 1000,
            k < 3 ==> v < 100,
            k < 2 ==> v < 10,
            k < 1 ==> v < 1,
        decreases n - k,
    {
        let c = cs[from + k];
        assert(is_digit(cs@[from + k]));
        v = v * 10 + (c as u32 - '0' as u32) as u64;
        k = k + 1;
    }
    v
}

/// Reads a text timestamp as seconds since the Unix epoch.
pub fn parse_timestamp(text: &str) -> (r: Option<u64>)
    ensures
        r is Some <==> timestamp_seconds(text@) is Some,
        r matches Some(t) ==> t == timestamp_seconds(text@).unwrap(),
{
    let cs = chars_of(text);
    if cs.len() != 19 || cs[4] != '-' || cs[7] != '-' || cs[10] != ' ' || cs[13] != ':' || cs[16] != ':' {
        return None;
    }
    let mut i: usize = 0;
    while i < 19
        invariant
            cs@ == text@,
            cs@.len() == 19,
            i <= 19,
            forall|k: int| 0 <= k < i && k != 4 && k != 7 && k != 10 && k != 13 && k != 16 ==> is_digit(#[trigger] cs@[k]),
        decreases 19 - i,
    {
        if i != 4 && i != 7 && i != 10 && i != 13 && i != 16 {
            let c = cs[i];
            if !('0' <= c && c <= '9') {
                return None;
            }
        }
        i = i + 1;
    }
    let y = read_field(&cs, 0, 4);
    let mo = read_field(&cs, 5, 2);
    let d = read_field(&cs, 8, 2);
    let h = read_field(&cs, 11, 2);
    let mi = read_field(&cs, 14, 2);
    let se = read_field(&cs, 17, 2);
    if !(y >= 1970 && 1 <= mo && mo <= 12 && 1 <= d && d <= 31 && h < 24 && mi < 60 && se < 60) {
        return None;
    }
    let y2: u64 = if mo <= 2 { y - 1 } else { y };
    let era: u64 = y2 / 400;
    let yoe: u64 = y2 - era * 400;
    let mp: u64 = if mo > 2 { mo - 3 } else { mo + 9 };
    let doy: u64 = (153 * mp + 2) / 5 + d - 1;
    let doe: u64 = yoe * 365 + yoe / 4 - yoe / 100 + doy;
    assert(era * 146097 + doe >= 719468) by {
        assert(y2 >= 1969);
        assert(era >= 4);
    }
    let days: u64 = era * 146097 + doe - 719468;
    Some(days * 86400 + h * 3600 + mi * 60 + se)
}

} // verus!
