//! Snapshot timestamps: seconds since the epoch and their canonical text
//! `YYYY-MM-DDTHH:MM:SSZ`.

use vstd::prelude::*;
use crate::error::Error;
use crate::text::{lemma_code_point_injective, push_char, to_chars};

verus! {

/// Seconds in a day.
pub const SECONDS_PER_DAY: i64 = 86400;

/// Days from 0000-01-01 to 1970-01-01.
pub const DAYS_TO_EPOCH: i64 = 719528;

/// The epoch of `0000-01-01T00:00:00Z`, the first timestamp that has a text.
pub const MIN_EPOCH: i64 = -62167219200;

/// The epoch of `9999-12-31T23:59:59Z`, the last timestamp that has a text.
pub const MAX_EPOCH: i64 = 253402300799;

/// The Gregorian leap year rule.
pub open spec fn is_leap_year(y: int) -> bool {
    y % 4 == 0 && (y % 100 != 0 || y % 400 == 0)
}

/// The number of days of year `y`.
pub open spec fn days_in_year(y: int) -> int {
    if is_leap_year(y) {
        366
    } else {
        365
    }
}

/// The number of days of month `m` (1 to 12) of year `y`.
pub open spec fn days_in_month(y: int, m: int) -> int {
    if m == 2 {
        if is_leap_year(y) {
            29
        } else {
            28
        }
    } else if m == 4 || m == 6 || m == 9 || m == 11 {
        30
    } else {
        31
    }
}

/// The number of days from 0000-01-01 to the first day of year `y`.
pub open spec fn days_before_year(y: int) -> int
    decreases y,
{
    if y <= 0 {
        0
    } else {
        days_before_year(y - 1) + days_in_year(y - 1)
    }
}

/// The number of days from the first day of year `y` to the first day of
/// its month `m`.
pub open spec fn days_before_month(y: int, m: int) -> int
    decreases m,
{
    if m <= 1 {
        0
    } else {
        days_before_month(y, m - 1) + days_in_month(y, m - 1)
    }
}

/// A day of the calendar, in a year that has four digits.
pub open spec fn valid_date(y: int, m: int, d: int) -> bool {
    0 <= y <= 9999 && 1 <= m <= 12 && 1 <= d <= days_in_month(y, m)
}

/// A time of day, without leap seconds.
pub open spec fn valid_time(h: int, mi: int, s: int) -> bool {
    0 <= h <= 23 && 0 <= mi <= 59 && 0 <= s <= 59
}

/// Seconds since 1970-01-01T00:00:00Z of a date and a time of day.
pub open spec fn epoch_of(y: int, m: int, d: int, h: int, mi: int, s: int) -> int {
    (days_before_year(y) + days_before_month(y, m) + d - 1 - 719528) * 86400 + h * 3600 + mi * 60
        + s
}

/// The character of a decimal digit.
pub open spec fn digit_char(d: int) -> char {
    if d == 0 {
        '0'
    } else if d == 1 {
        '1'
    } else if d == 2 {
        '2'
    } else if d == 3 {
        '3'
    } else if d == 4 {
        '4'
    } else if d == 5 {
        '5'
    } else if d == 6 {
        '6'
    } else if d == 7 {
        '7'
    } else if d == 8 {
        '8'
    } else {
        '9'
    }
}

/// Whether `c` is one of `0` to `9`.
pub open spec fn is_digit(c: char) -> bool {
    48 <= c as u32 <= 57
}

/// The value of the digit `c`.
pub open spec fn digit_value(c: char) -> int {
    c as u32 - 48
}

/// The canonical text of a date and a time of day.
pub open spec fn rfc3339_text(y: int, m: int, d: int, h: int, mi: int, s: int) -> Seq<char> {
    seq![
        digit_char(y / 100 / 10),
        digit_char(y / 100 % 10),
        digit_char(y % 100 / 10),
        digit_char(y % 100 % 10),
        '-',
        digit_char(m / 10),
        digit_char(m % 10),
        '-',
        digit_char(d / 10),
        digit_char(d % 10),
        'T',
        digit_char(h / 10),
        digit_char(h % 10),
        ':',
        digit_char(mi / 10),
        digit_char(mi % 10),
        ':',
        digit_char(s / 10),
        digit_char(s % 10),
        'Z',
    ]
}

/// The number that two digits at `i` stand for.
pub open spec fn number_at(s: Seq<char>, i: int) -> int {
    digit_value(s[i]) * 10 + digit_value(s[i + 1])
}

/// The strict shape of a snapshot's directory name: four digits, `-`, two
/// digits, `-`, two digits, `T`, two digits, `:`, two digits, `:`, two
/// digits, `Z`, and nothing else.
pub open spec fn is_backup_date(s: Seq<char>) -> bool {
    &&& s.len() == 20
    &&& is_digit(s[0]) && is_digit(s[1]) && is_digit(s[2]) && is_digit(s[3])
    &&& s[4] == '-'
    &&& is_digit(s[5]) && is_digit(s[6])
    &&& s[7] == '-'
    &&& is_digit(s[8]) && is_digit(s[9])
    &&& s[10] == 'T'
    &&& is_digit(s[11]) && is_digit(s[12])
    &&& s[13] == ':'
    &&& is_digit(s[14]) && is_digit(s[15])
    &&& s[16] == ':'
    &&& is_digit(s[17]) && is_digit(s[18])
    &&& s[19] == 'Z'
}

/// The timestamp that a text stands for: the text has the strict shape and
/// names a day of the calendar and a time of day.
pub open spec fn parse_rfc3339_spec(s: Seq<char>) -> Option<int> {
    if is_backup_date(s) {
        let y = number_at(s, 0) * 100 + number_at(s, 2);
        let m = number_at(s, 5);
        let d = number_at(s, 8);
        let h = number_at(s, 11);
        let mi = number_at(s, 14);
        let sec = number_at(s, 17);
        if valid_date(y, m, d) && valid_time(h, mi, sec) {
            Some(epoch_of(y, m, d, h, mi, sec))
        } else {
            None
        }
    } else {
        None
    }
}

/// The text of a timestamp: the one text that stands for it, if any does.
pub open spec fn format_rfc3339_spec(t: int) -> Option<Seq<char>> {
    if exists|s: Seq<char>| parse_rfc3339_spec(s) == Some(t) {
        Some(choose|s: Seq<char>| parse_rfc3339_spec(s) == Some(t))
    } else {
        None
    }
}

/// The days before a year, in closed form.
pub proof fn lemma_days_before_year_closed(y: int)
    requires
        0 <= y,
    ensures
        days_before_year(y) == 365 * y + (y + 3) / 4 - (y + 99) / 100 + (y + 399) / 400,
    decreases y,
{
    if y > 0 {
        lemma_days_before_year_closed(y - 1);
    }
}

/// Later years begin later, by at least 365 days a year.
pub proof fn lemma_days_before_year_monotonic(a: int, b: int)
    requires
        0 <= a <= b,
    ensures
        days_before_year(a) + 365 * (b - a) <= days_before_year(b),
    decreases b - a,
{
    if a < b {
        lemma_days_before_year_monotonic(a, b - 1);
    }
}

/// The months of a year, laid end to end, fill the year.
pub proof fn lemma_months_fill_year(y: int)
    ensures
        days_before_month(y, 1) == 0,
        days_before_month(y, 2) == 31,
        days_before_month(y, 3) == 31 + days_in_month(y, 2),
        days_before_month(y, 4) == 62 + days_in_month(y, 2),
        days_before_month(y, 5) == 92 + days_in_month(y, 2),
        days_before_month(y, 6) == 123 + days_in_month(y, 2),
        days_before_month(y, 7) == 153 + days_in_month(y, 2),
        days_before_month(y, 8) == 184 + days_in_month(y, 2),
        days_before_month(y, 9) == 215 + days_in_month(y, 2),
        days_before_month(y, 10) == 245 + days_in_month(y, 2),
        days_before_month(y, 11) == 276 + days_in_month(y, 2),
        days_before_month(y, 12) == 306 + days_in_month(y, 2),
        days_before_month(y, 13) == days_in_year(y),
{
    reveal_with_fuel(days_before_month, 14);
}

/// A date and a time of day are determined by their epoch.
pub proof fn lemma_epoch_injective(
    y1: int,
    m1: int,
    d1: int,
    h1: int,
    mi1: int,
    s1: int,
    y2: int,
    m2: int,
    d2: int,
    h2: int,
    mi2: int,
    s2: int,
)
    requires
        valid_date(y1, m1, d1),
        valid_time(h1, mi1, s1),
        valid_date(y2, m2, d2),
        valid_time(h2, mi2, s2),
        epoch_of(y1, m1, d1, h1, mi1, s1) == epoch_of(y2, m2, d2, h2, mi2, s2),
    ensures
        y1 == y2 && m1 == m2 && d1 == d2 && h1 == h2 && mi1 == mi2 && s1 == s2,
{
    let day1 = days_before_year(y1) + days_before_month(y1, m1) + d1 - 1;
    let day2 = days_before_year(y2) + days_before_month(y2, m2) + d2 - 1;
    let sod1 = h1 * 3600 + mi1 * 60 + s1;
    let sod2 = h2 * 3600 + mi2 * 60 + s2;
    assert(0 <= sod1 < 86400 && 0 <= sod2 < 86400);
    assert(day1 == day2 && sod1 == sod2);
    assert(h1 == h2 && mi1 == mi2 && s1 == s2);
    lemma_months_fill_year(y1);
    lemma_months_fill_year(y2);
    let doy1 = days_before_month(y1, m1) + d1 - 1;
    let doy2 = days_before_month(y2, m2) + d2 - 1;
    assert(0 <= doy1 < days_in_year(y1));
    assert(0 <= doy2 < days_in_year(y2));
    if y1 < y2 {
        lemma_days_before_year_monotonic(y1 + 1, y2);
        assert(false);
    }
    if y2 < y1 {
        lemma_days_before_year_monotonic(y2 + 1, y1);
        assert(false);
    }
    assert(doy1 == doy2);
}

/// The digit of a value below ten is a digit with that value.
pub proof fn lemma_digit_char(d: int)
    requires
        0 <= d <= 9,
    ensures
        is_digit(digit_char(d)),
        digit_value(digit_char(d)) == d,
{
}

/// A digit is the character of its value.
pub proof fn lemma_digit_value(c: char)
    requires
        is_digit(c),
    ensures
        0 <= digit_value(c) <= 9,
        digit_char(digit_value(c)) == c,
{
    lemma_code_point_injective(c, digit_char(digit_value(c)));
}

/// The two digits of a number below a hundred stand for that number.
pub proof fn lemma_two_digits(n: int)
    requires
        0 <= n <= 99,
    ensures
        is_digit(digit_char(n / 10)),
        is_digit(digit_char(n % 10)),
        digit_value(digit_char(n / 10)) * 10 + digit_value(digit_char(n % 10)) == n,
{
    lemma_digit_char(n / 10);
    lemma_digit_char(n % 10);
}

/// Two digits are the digits of the number they stand for.
pub proof fn lemma_digits_of_number(a: char, b: char)
    requires
        is_digit(a),
        is_digit(b),
    ensures
        0 <= digit_value(a) * 10 + digit_value(b) <= 99,
        digit_char((digit_value(a) * 10 + digit_value(b)) / 10) == a,
        digit_char((digit_value(a) * 10 + digit_value(b)) % 10) == b,
{
    lemma_digit_value(a);
    lemma_digit_value(b);
}

/// The canonical text of a valid date and time stands for its epoch.
pub proof fn lemma_parse_of_text(y: int, m: int, d: int, h: int, mi: int, s: int)
    requires
        valid_date(y, m, d),
        valid_time(h, mi, s),
    ensures
        parse_rfc3339_spec(rfc3339_text(y, m, d, h, mi, s)) == Some(epoch_of(y, m, d, h, mi, s)),
{
    let t = rfc3339_text(y, m, d, h, mi, s);
    lemma_two_digits(y / 100);
    lemma_two_digits(y % 100);
    lemma_two_digits(m);
    lemma_two_digits(d);
    lemma_two_digits(h);
    lemma_two_digits(mi);
    lemma_two_digits(s);
    assert(is_backup_date(t));
    assert(number_at(t, 0) == y / 100);
    assert(number_at(t, 2) == y % 100);
    assert(number_at(t, 5) == m);
    assert(number_at(t, 8) == d);
    assert(number_at(t, 11) == h);
    assert(number_at(t, 14) == mi);
    assert(number_at(t, 17) == s);
}

/// A text that stands for a timestamp is the canonical text of its date and
/// time.
pub proof fn lemma_text_of_parse(s: Seq<char>)
    requires
        parse_rfc3339_spec(s) is Some,
    ensures
        s == rfc3339_text(
            number_at(s, 0) * 100 + number_at(s, 2),
            number_at(s, 5),
            number_at(s, 8),
            number_at(s, 11),
            number_at(s, 14),
            number_at(s, 17),
        ),
{
    let yh = number_at(s, 0);
    let yl = number_at(s, 2);
    let y = yh * 100 + yl;
    lemma_digits_of_number(s[0], s[1]);
    lemma_digits_of_number(s[2], s[3]);
    lemma_digits_of_number(s[5], s[6]);
    lemma_digits_of_number(s[8], s[9]);
    lemma_digits_of_number(s[11], s[12]);
    lemma_digits_of_number(s[14], s[15]);
    lemma_digits_of_number(s[17], s[18]);
    assert(y / 100 == yh && y % 100 == yl);
    let t = rfc3339_text(
        y,
        number_at(s, 5),
        number_at(s, 8),
        number_at(s, 11),
        number_at(s, 14),
        number_at(s, 17),
    );
    assert(t.len() == 20);
    assert forall|i: int| 0 <= i < 20 implies t[i] == s[i] by {}
    assert(s =~= t);
}

/// Two texts that stand for the same timestamp are the same text.
pub proof fn lemma_parse_injective(a: Seq<char>, b: Seq<char>)
    requires
        parse_rfc3339_spec(a) is Some,
        parse_rfc3339_spec(a) == parse_rfc3339_spec(b),
    ensures
        a == b,
{
    lemma_text_of_parse(a);
    lemma_text_of_parse(b);
    lemma_epoch_injective(
        number_at(a, 0) * 100 + number_at(a, 2),
        number_at(a, 5),
        number_at(a, 8),
        number_at(a, 11),
        number_at(a, 14),
        number_at(a, 17),
        number_at(b, 0) * 100 + number_at(b, 2),
        number_at(b, 5),
        number_at(b, 8),
        number_at(b, 11),
        number_at(b, 14),
        number_at(b, 17),
    );
}

/// Round trip of timestamps: a text that is accepted is given back when the
/// timestamp it stands for is written out again.
pub proof fn law_rfc3339_round_trip(text: Seq<char>)
    requires
        parse_rfc3339_spec(text) is Some,
    ensures
        format_rfc3339_spec(parse_rfc3339_spec(text)->0) == Some(text),
{
    lemma_parse_injective(
        text,
        choose|s: Seq<char>| parse_rfc3339_spec(s) == parse_rfc3339_spec(text),
    );
}

/// Round trip the other way: the text of a timestamp stands for it.
pub proof fn law_rfc3339_text_parses(t: int)
    requires
        format_rfc3339_spec(t) is Some,
    ensures
        parse_rfc3339_spec(format_rfc3339_spec(t)->0) == Some(t),
{
}

/// The epochs of texts lie between the first and the last second of the
/// years 0000 to 9999.
pub proof fn lemma_epoch_range(y: int, m: int, d: int, h: int, mi: int, s: int)
    requires
        valid_date(y, m, d),
        valid_time(h, mi, s),
    ensures
        MIN_EPOCH <= epoch_of(y, m, d, h, mi, s) <= MAX_EPOCH,
{
    lemma_months_fill_year(y);
    lemma_days_before_year_monotonic(0, y);
    lemma_days_before_year_monotonic(y + 1, 10000);
    lemma_days_before_year_closed(10000);
    assert(days_before_year(0) == 0);
}

fn digit_of(c: char) -> (r: Option<u8>)
    ensures
        r is Some <==> is_digit(c),
        r matches Some(v) ==> v == digit_value(c),
{
    let u: u32 = c as u32;
    if 48 <= u && u <= 57 {
        Some((u - 48) as u8)
    } else {
        None
    }
}

pub(crate) fn char_of_digit(d: u64) -> (c: char)
    requires
        d <= 9,
    ensures
        c == digit_char(d as int),
{
    if d == 0 {
        '0'
    } else if d == 1 {
        '1'
    } else if d == 2 {
        '2'
    } else if d == 3 {
        '3'
    } else if d == 4 {
        '4'
    } else if d == 5 {
        '5'
    } else if d == 6 {
        '6'
    } else if d == 7 {
        '7'
    } else if d == 8 {
        '8'
    } else {
        '9'
    }
}

fn two_digits_at(s: &Vec<char>, i: usize) -> (r: Option<u64>)
    requires
        i + 1 < s.len(),
    ensures
        r is Some <==> is_digit(s@[i as int]) && is_digit(s@[i + 1]),
        r matches Some(v) ==> v == number_at(s@, i as int) && v <= 99,
{
    match digit_of(s[i]) {
        None => None,
        Some(a) => match digit_of(s[i + 1]) {
            None => None,
            Some(b) => Some(a as u64 * 10 + b as u64),
        },
    }
}

/// Whether `y` is a leap year.
pub fn leap_year(y: u64) -> (r: bool)
    ensures
        r == is_leap_year(y as int),
{
    y % 4 == 0 && (y % 100 != 0 || y % 400 == 0)
}

/// The number of days of month `m` of year `y`.
pub fn month_length(y: u64, m: u64) -> (r: u64)
    ensures
        r == days_in_month(y as int, m as int),
{
    if m == 2 {
        if leap_year(y) {
            29
        } else {
            28
        }
    } else if m == 4 || m == 6 || m == 9 || m == 11 {
        30
    } else {
        31
    }
}

fn year_start(y: u64) -> (r: u64)
    requires
        y <= 10000,
    ensures
        r == days_before_year(y as int),
{
    proof {
        lemma_days_before_year_closed(y as int);
    }
    365 * y + (y + 3) / 4 - (y + 99) / 100 + (y + 399) / 400
}

fn month_start(y: u64, m: u64) -> (r: u64)
    requires
        1 <= m <= 13,
    ensures
        r == days_before_month(y as int, m as int),
        r <= 366,
{
    proof {
        lemma_months_fill_year(y as int);
    }
    let feb: u64 = month_length(y, 2);
    if m == 1 {
        0
    } else if m == 2 {
        31
    } else if m == 3 {
        31 + feb
    } else if m == 4 {
        62 + feb
    } else if m == 5 {
        92 + feb
    } else if m == 6 {
        123 + feb
    } else if m == 7 {
        153 + feb
    } else if m == 8 {
        184 + feb
    } else if m == 9 {
        215 + feb
    } else if m == 10 {
        245 + feb
    } else if m == 11 {
        276 + feb
    } else if m == 12 {
        306 + feb
    } else {
        337 + feb
    }
}

/// Whether `name` has the strict shape of a snapshot's directory name.
pub fn matches_backup_date(name: &Vec<char>) -> (r: bool)
    ensures
        r == is_backup_date(name@),
{
    if name.len() != 20 {
        return false;
    }
    two_digits_at(name, 0).is_some() && two_digits_at(name, 2).is_some() && name[4] == '-'
        && two_digits_at(name, 5).is_some() && name[7] == '-' && two_digits_at(name, 8).is_some()
        && name[10] == 'T' && two_digits_at(name, 11).is_some() && name[13] == ':'
        && two_digits_at(name, 14).is_some() && name[16] == ':' && two_digits_at(
        name,
        17,
    ).is_some() && name[19] == 'Z'
}

/// Reads a timestamp in its canonical text.
///
/// Fails with `InvalidInput` on every text that does not have the strict
/// shape or does not name a day of the calendar and a time of day.
pub fn parse_rfc3339(text: &str) -> (r: Result<i64, Error>)
    ensures
        match parse_rfc3339_spec(text@) {
            Some(t) => r == Ok::<i64, Error>(t as i64) && i64::MIN <= t <= i64::MAX,
            None => r == Err::<i64, Error>(Error::InvalidInput),
        },
{
    let s = to_chars(text);
    parse_rfc3339_chars(&s)
}

/// Reads a timestamp from the characters of its canonical text.
pub fn parse_rfc3339_chars(s: &Vec<char>) -> (r: Result<i64, Error>)
    ensures
        match parse_rfc3339_spec(s@) {
            Some(t) => r == Ok::<i64, Error>(t as i64) && MIN_EPOCH <= t <= MAX_EPOCH,
            None => r == Err::<i64, Error>(Error::InvalidInput),
        },
{
    if !matches_backup_date(s) {
        return Err(Error::InvalidInput);
    }
    let yh: u64 = two_digits_at(s, 0).unwrap();
    let yl: u64 = two_digits_at(s, 2).unwrap();
    let y: u64 = yh * 100 + yl;
    let m: u64 = two_digits_at(s, 5).unwrap();
    let d: u64 = two_digits_at(s, 8).unwrap();
    let h: u64 = two_digits_at(s, 11).unwrap();
    let mi: u64 = two_digits_at(s, 14).unwrap();
    let sec: u64 = two_digits_at(s, 17).unwrap();
    if m < 1 || m > 12 || d < 1 || d > month_length(y, m) || h > 23 || mi > 59 || sec > 59 {
        return Err(Error::InvalidInput);
    }
    proof {
        lemma_epoch_range(y as int, m as int, d as int, h as int, mi as int, sec as int);
        lemma_days_before_year_monotonic(0, y as int);
        lemma_days_before_year_monotonic(y as int, 10000);
        lemma_days_before_year_closed(10000);
    }
    let days: u64 = year_start(y) + month_start(y, m) + d - 1;
    let day: i64 = days as i64 - DAYS_TO_EPOCH;
    Ok(day * SECONDS_PER_DAY + (h * 3600 + mi * 60 + sec) as i64)
}

/// The year, month and day of the day that lies `days` days after
/// 0000-01-01.
fn civil_from_days(days: u64) -> (r: (u64, u64, u64))
    requires
        days < days_before_year(10000),
    ensures
        valid_date(r.0 as int, r.1 as int, r.2 as int),
        days_before_year(r.0 as int) + days_before_month(r.0 as int, r.1 as int) + r.2 - 1
            == days,
{
    proof {
        assert(days_before_year(0) == 0);
    }
    let mut y: u64 = 0;
    while y < 9999 && year_start(y + 1) <= days
        invariant
            y <= 9999,
            days_before_year(y as int) <= days,
        decreases 9999 - y,
    {
        y += 1;
    }
    assert(days < days_before_year(y + 1));
    let doy: u64 = days - year_start(y);
    proof {
        lemma_months_fill_year(y as int);
        assert(days_before_year(y + 1) == days_before_year(y as int) + days_in_year(y as int));
    }
    let mut m: u64 = 1;
    while m < 12 && month_start(y, m + 1) <= doy
        invariant
            1 <= m <= 12,
            days_before_month(y as int, m as int) <= doy,
        decreases 12 - m,
    {
        m += 1;
    }
    let d: u64 = doy - month_start(y, m) + 1;
    proof {
        assert(days_before_month(y as int, m + 1) == days_before_month(y as int, m as int)
            + days_in_month(y as int, m as int));
        assert(doy < days_before_month(y as int, m + 1));
    }
    (y, m, d)
}

/// Writes out the canonical text of a date and a time of day.
fn write_rfc3339(y: u64, m: u64, d: u64, h: u64, mi: u64, sec: u64) -> (out: String)
    requires
        y <= 9999,
        m <= 99,
        d <= 99,
        h <= 99,
        mi <= 99,
        sec <= 99,
    ensures
        out@ == rfc3339_text(y as int, m as int, d as int, h as int, mi as int, sec as int),
{
    let mut out = String::new();
    push_char(&mut out, char_of_digit(y / 100 / 10));
    push_char(&mut out, char_of_digit(y / 100 % 10));
    push_char(&mut out, char_of_digit(y % 100 / 10));
    push_char(&mut out, char_of_digit(y % 100 % 10));
    push_char(&mut out, '-');
    push_char(&mut out, char_of_digit(m / 10));
    push_char(&mut out, char_of_digit(m % 10));
    push_char(&mut out, '-');
    push_char(&mut out, char_of_digit(d / 10));
    push_char(&mut out, char_of_digit(d % 10));
    push_char(&mut out, 'T');
    push_char(&mut out, char_of_digit(h / 10));
    push_char(&mut out, char_of_digit(h % 10));
    push_char(&mut out, ':');
    push_char(&mut out, char_of_digit(mi / 10));
    push_char(&mut out, char_of_digit(mi % 10));
    push_char(&mut out, ':');
    push_char(&mut out, char_of_digit(sec / 10));
    push_char(&mut out, char_of_digit(sec % 10));
    push_char(&mut out, 'Z');
    assert(out@ =~= rfc3339_text(
        y as int,
        m as int,
        d as int,
        h as int,
        mi as int,
        sec as int,
    ));
    out
}

/// No timestamp outside the years 0000 to 9999 has a text.
pub proof fn lemma_format_range(t: int)
    requires
        format_rfc3339_spec(t) is Some,
    ensures
        MIN_EPOCH <= t <= MAX_EPOCH,
{
    let s = format_rfc3339_spec(t)->0;
    lemma_epoch_range(
        number_at(s, 0) * 100 + number_at(s, 2),
        number_at(s, 5),
        number_at(s, 8),
        number_at(s, 11),
        number_at(s, 14),
        number_at(s, 17),
    );
}

/// A text that stands for a timestamp is the text of that timestamp.
pub proof fn lemma_format_of_parse(s: Seq<char>, t: int)
    requires
        parse_rfc3339_spec(s) == Some(t),
    ensures
        format_rfc3339_spec(t) == Some(s),
{
    let c = choose|x: Seq<char>| parse_rfc3339_spec(x) == Some(t);
    lemma_parse_injective(s, c);
}

/// Writes a timestamp in its canonical text.
///
/// Fails with `InvalidInput` exactly on the timestamps outside the years
/// 0000 to 9999, which have no text.
pub fn epoch_to_rfc3339_utc(epoch: i64) -> (r: Result<String, Error>)
    ensures
        match format_rfc3339_spec(epoch as int) {
            Some(t) => r is Ok && r->Ok_0@ == t,
            None => r == Err::<String, Error>(Error::InvalidInput),
        },
        r is Ok <==> MIN_EPOCH <= epoch <= MAX_EPOCH,
{
    if epoch < MIN_EPOCH || epoch > MAX_EPOCH {
        proof {
            if format_rfc3339_spec(epoch as int) is Some {
                lemma_format_range(epoch as int);
            }
        }
        return Err(Error::InvalidInput);
    }
    let shifted: u64 = (epoch - MIN_EPOCH) as u64;
    let days: u64 = shifted / 86400;
    let sod: u64 = shifted % 86400;
    proof {
        lemma_days_before_year_closed(10000);
    }
    let (y, m, d) = civil_from_days(days);
    let h: u64 = sod / 3600;
    let mi: u64 = sod % 3600 / 60;
    let sec: u64 = sod % 60;
    let out = write_rfc3339(y, m, d, h, mi, sec);
    proof {
        assert(sod == h * 3600 + mi * 60 + sec);
        assert(shifted == days * 86400 + sod);
        assert(epoch_of(y as int, m as int, d as int, h as int, mi as int, sec as int) == epoch);
        lemma_parse_of_text(y as int, m as int, d as int, h as int, mi as int, sec as int);
        lemma_format_of_parse(out@, epoch as int);
    }
    Ok(out)
}

} // verus!
