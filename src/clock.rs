use vstd::prelude::*;
use chrono::NaiveDate;
use crate::report::is_log_name;
use crate::text::{digit, push_char};

verus! {

/// A local wall-clock instant as calendar fields.
#[derive(Clone, Copy, Debug, PartialEq, Eq)]
pub struct Timestamp {
    pub year: i32,
    pub month: u32,
    pub day: u32,
    pub hour: u32,
    pub minute: u32,
    pub second: u32,
}

pub open spec fn is_leap_year(y: int) -> bool {
    (y % 4 == 0 && y % 100 != 0) || y % 400 == 0
}

pub open spec fn days_in_month(y: int, m: int) -> int {
    if m == 2 {
        if is_leap_year(y) {
            29
        } else {
            28
        }
    } else if m == 4 || m == 6 || m == 9 || m == 11 {
        30
    } else {
        31
    }
}

/// Two decimal digits, zero-padded.
pub open spec fn pad2(n: int) -> Seq<char> {
    seq![digit((n / 10) as nat), digit((n % 10) as nat)]
}

/// Four decimal digits, zero-padded.
pub open spec fn pad4(n: int) -> Seq<char> {
    seq![digit((n / 1000) as nat), digit(((n / 100) % 10) as nat), digit(((n / 10) % 10) as nat), digit((n % 10) as nat)]
}

/// The text `YYYY-MM-DD HH:MM:SS` of an instant.
pub open spec fn datetime_text(y: int, mo: int, d: int, h: int, mi: int, s: int) -> Seq<char> {
    pad4(y) + seq!['-'] + pad2(mo) + seq!['-'] + pad2(d) + seq![' '] + pad2(h) + seq![':'] + pad2(mi)
        + seq![':'] + pad2(s)
}

/// The calendar date exists, the time of day is an ordinary second, and the
/// year has four digits.
pub open spec fn is_valid_datetime(y: int, mo: int, d: int, h: int, mi: int, s: int) -> bool {
    &&& 0 <= y <= 9999
    &&& 1 <= mo <= 12
    &&& 1 <= d <= days_in_month(y, mo)
    &&& 0 <= h < 24
    &&& 0 <= mi < 60
    &&& 0 <= s < 60
}

/// Relies on chrono's `NaiveDate::from_ymd_opt` and `NaiveDate::and_hms_opt`,
/// which accept exactly the existing proleptic Gregorian dates and the times
/// with hour < 24, minute < 60 and second < 60, and on the `%Y-%m-%d %H:%M:%S`
/// format, which writes each field zero-padded (the year to four digits).
#[verifier::external_body]
fn chrono_datetime_text(y: i32, mo: u32, d: u32, h: u32, mi: u32, s: u32) -> (r: Option<String>)
    requires
        0 <= y <= 9999,
    ensures
        r is Some <==> is_valid_datetime(y as int, mo as int, d as int, h as int, mi as int, s as int),
        r matches Some(t) ==> t@ == datetime_text(y as int, mo as int, d as int, h as int, mi as int, s as int),
{
    let dt = NaiveDate::from_ymd_opt(y, mo, d)?.and_hms_opt(h, mi, s)?;
    Some(dt.format("%Y-%m-%d %H:%M:%S").to_string())
}

impl Timestamp {
    pub open spec fn is_valid(&self) -> bool {
        is_valid_datetime(
            self.year as int,
            self.month as int,
            self.day as int,
            self.hour as int,
            self.minute as int,
            self.second as int,
        )
    }

    pub open spec fn spec_text(&self) -> Seq<char> {
        datetime_text(
            self.year as int,
            self.month as int,
            self.day as int,
            self.hour as int,
            self.minute as int,
            self.second as int,
        )
    }

    /// The instant as `YYYY-MM-DD HH:MM:SS`, or `None` when it is not a valid
    /// instant with a four-digit year.
    pub fn text(&self) -> (r: Option<String>)
        ensures
            r is Some <==> self.is_valid(),
            r matches Some(t) ==> t@ == self.spec_text(),
    {
        if self.year < 0 || self.year > 9999 {
            return None;
        }
        chrono_datetime_text(self.year, self.month, self.day, self.hour, self.minute, self.second)
    }

    /// Name of the log file for the day of this instant: `metrics_YYYY-MM-DD.csv`.
    pub fn log_file_name(&self) -> (r: Option<String>)
        ensures
            r is Some <==> self.is_valid(),
            r matches Some(n) ==> n@ == log_file_name_of(self.spec_text()) && is_log_name(n@),
    {
        let t = match self.text() {
            Some(t) => t,
            None => {
                return None;
            },
        };
        let mut n = String::new();
        push_char(&mut n, 'm');
        push_char(&mut n, 'e');
        push_char(&mut n, 't');
        push_char(&mut n, 'r');
        push_char(&mut n, 'i');
        push_char(&mut n, 'c');
        push_char(&mut n, 's');
        push_char(&mut n, '_');
        let date = t.as_str().substring_char(0, 10);
        n.append(date);
        push_char(&mut n, '.');
        push_char(&mut n, 'c');
        push_char(&mut n, 's');
        push_char(&mut n, 'v');
        assert(n@ =~= log_file_name_of(self.spec_text()));
        assert(n@.subrange(n@.len() - 4, n@.len() as int) =~= seq!['.', 'c', 's', 'v']);
        Some(n)
    }
}

/// `metrics_` followed by the date part of the timestamp text and `.csv`.
pub open spec fn log_file_name_of(text: Seq<char>) -> Seq<char> {
    seq!['m', 'e', 't', 'r', 'i', 'c', 's', '_'] + text.take(10) + seq!['.', 'c', 's', 'v']
}

} // verus!
