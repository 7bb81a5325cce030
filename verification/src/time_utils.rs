//! Calendar dates, natural-language date input, and clock-style duration
//! formatting at minute or second resolution.
use vstd::prelude::*;
use vstd::string::StringExecFns;
use chrono::Datelike;
use crate::text::{pad2, pad2_u64, pad4, pad4_u64};

verus! {

/// A date argument that matches no recognized natural-language pattern.
#[derive(Debug)]
pub struct ParseError {
    pub message: String,
}

/// A calendar date in the proleptic Gregorian calendar, held as plain
/// year / month / day fields.
#[derive(Clone, Copy, PartialEq, Eq, Structural, Debug)]
pub struct Date {
    pub year: i32,
    pub month: u8,
    pub day: u8,
}

/// A year divisible by 4, except century years not divisible by 400.
pub open spec fn spec_is_leap_year(y: int) -> bool {
    y % 4 == 0 && (y % 100 != 0 || y % 400 == 0)
}

/// Days in a month of the proleptic Gregorian calendar.
pub open spec fn spec_days_in_month(y: int, m: int) -> int {
    if m == 2 {
        if spec_is_leap_year(y) {
            29
        } else {
            28
        }
    } else if m == 4 || m == 6 || m == 9 || m == 11 {
        30
    } else {
        31
    }
}

impl Date {
    /// A real calendar date whose year stays far from the arithmetic limits.
    pub open spec fn valid(self) -> bool {
        &&& -400000 <= self.year <= 400000
        &&& 1 <= self.month <= 12
        &&& 1 <= self.day <= spec_days_in_month(self.year as int, self.month as int)
    }

    /// The calendar day after `self`.
    pub open spec fn spec_next_day(self) -> Date {
        if self.day < spec_days_in_month(self.year as int, self.month as int) {
            Date { year: self.year, month: self.month, day: (self.day + 1) as u8 }
        } else if self.month < 12 {
            Date { year: self.year, month: (self.month + 1) as u8, day: 1 }
        } else {
            Date { year: (self.year + 1) as i32, month: 1, day: 1 }
        }
    }

    /// ISO form `YYYY-MM-DD`: the year zero-padded to at least four digits
    /// (a leading `-` for negative years), month and day to two.
    pub open spec fn spec_iso(self) -> Seq<char> {
        let year_part = if self.year < 0 {
            seq!['-'].add(pad4(-(self.year as int)))
        } else {
            pad4(self.year as int)
        };
        year_part + seq!['-'] + pad2(self.month as int) + seq!['-'] + pad2(self.day as int)
    }

    fn days_in_month(&self) -> (r: u8)
        requires
            1 <= self.month <= 12,
        ensures
            r as int == spec_days_in_month(self.year as int, self.month as int),
    {
        if self.month == 2 {
            let y = self.year;
            if y % 4 == 0 && (y % 100 != 0 || y % 400 == 0) {
                29
            } else {
                28
            }
        } else if self.month == 4 || self.month == 6 || self.month == 9 || self.month == 11 {
            30
        } else {
            31
        }
    }

    /// Decides `valid`, for callers outside verified code.
    pub fn check_valid(&self) -> (r: bool)
        ensures
            r == self.valid(),
    {
        if self.year < -400000 || self.year > 400000 {
            return false;
        }
        if self.month < 1 || self.month > 12 {
            return false;
        }
        if self.day < 1 {
            return false;
        }
        self.day <= self.days_in_month()
    }

    /// Steps a date forward by one calendar day.
    pub fn next_day(&self) -> (r: Date)
        requires
            self.valid(),
            self.year < 400000,
        ensures
            r == self.spec_next_day(),
            r.valid(),
    {
        if self.day < self.days_in_month() {
            Date { year: self.year, month: self.month, day: self.day + 1 }
        } else if self.month < 12 {
            Date { year: self.year, month: self.month + 1, day: 1 }
        } else {
            Date { year: self.year + 1, month: 1, day: 1 }
        }
    }

    /// Renders the date in ISO `YYYY-MM-DD` form.
    pub fn format_iso(&self) -> (r: String)
        requires
            self.valid(),
        ensures
            r@ == self.spec_iso(),
    {
        proof {
            reveal_strlit("-");
        }
        let mut s = if self.year < 0 {
            let mut t = "-".to_owned();
            t.append(pad4_u64((-(self.year as i64)) as u64).as_str());
            proof {
                assert(t@ =~= seq!['-'].add(pad4(-(self.year as int))));
            }
            t
        } else {
            pad4_u64(self.year as u64)
        };
        s.append("-");
        s.append(pad2_u64(self.month as u64).as_str());
        s.append("-");
        s.append(pad2_u64(self.day as u64).as_str());
        proof {
            assert(s@ =~= self.spec_iso());
        }
        s
    }
}

/// The display granularity for formatted durations.
#[derive(Clone, Copy, PartialEq, Eq, Structural, Debug)]
pub enum TimeResolution {
    Minutes,
    Seconds,
}

/// `HH:MM:SS` of a duration in seconds: hours, then minutes and seconds
/// within the hour, each zero-padded to two digits.
pub open spec fn spec_format_seconds(t: int) -> Seq<char> {
    pad2(t / 3600) + seq![':'] + pad2((t / 60) % 60) + seq![':'] + pad2(t % 60)
}

/// The duration in whole minutes, rounded to the nearest minute with ties
/// (30 s within the minute) rounding up.
pub open spec fn spec_rounded_minutes(t: int) -> int {
    t / 60 + if t % 60 >= 30 {
        1int
    } else {
        0int
    }
}

/// `HH:MM` of a duration in seconds, rounded to the nearest minute,
/// carrying into the hour field when the minutes round up to 60.
pub open spec fn spec_format_minutes(t: int) -> Seq<char> {
    let m = spec_rounded_minutes(t);
    pad2(m / 60) + seq![':'] + pad2(m % 60)
}

/// How a duration of `t` seconds prints at resolution `res`.
pub open spec fn spec_format_duration(res: TimeResolution, t: int) -> Seq<char> {
    match res {
        TimeResolution::Minutes => spec_format_minutes(t),
        TimeResolution::Seconds => spec_format_seconds(t),
    }
}

impl TimeResolution {
    /// Formats a duration of `total_seconds` as a fixed-width clock string:
    /// `HH:MM:SS` at second resolution, `HH:MM` rounded to the nearest
    /// minute (ties up) at minute resolution.
    pub fn format_duration(&self, total_seconds: u64) -> (r: String)
        ensures
            r@ == spec_format_duration(*self, total_seconds as int),
    {
        proof {
            reveal_strlit(":");
        }
        match self {
            TimeResolution::Minutes => {
                let m = total_seconds / 60 + if total_seconds % 60 >= 30 {
                    1
                } else {
                    0
                };
                let mut s = pad2_u64(m / 60);
                s.append(":");
                s.append(pad2_u64(m % 60).as_str());
                proof {
                    assert(s@ =~= spec_format_minutes(total_seconds as int));
                }
                s
            },
            TimeResolution::Seconds => {
                let mut s = pad2_u64(total_seconds / 3600);
                s.append(":");
                s.append(pad2_u64((total_seconds / 60) % 60).as_str());
                s.append(":");
                s.append(pad2_u64(total_seconds % 60).as_str());
                proof {
                    assert(s@ =~= spec_format_seconds(total_seconds as int));
                }
                s
            },
        }
    }

    /// The resolution's name, as its command-line selector spells it.
    pub fn label(&self) -> (r: &'static str)
        ensures
            *self is Minutes ==> r@ == "minutes"@,
            *self is Seconds ==> r@ == "seconds"@,
    {
        match self {
            TimeResolution::Minutes => "minutes",
            TimeResolution::Seconds => "seconds",
        }
    }
}

/// An ASCII decimal digit.
pub open spec fn is_digit_char(c: char) -> bool {
    48 <= c as int && c as int <= 57
}

/// Within the five-character window starting at `i`, at least one
/// character is not a decimal digit.
pub open spec fn digit_window_broken(s: Seq<char>, i: int) -> bool {
    exists|k: int| i <= k < i + 5 && !is_digit_char(s[k])
}

/// No run of five or more consecutive decimal digits: every numeral in the
/// text has at most four digits.
pub open spec fn numerals_bounded(s: Seq<char>) -> bool {
    forall|i: int| 0 <= i && i + 5 <= s.len() ==> #[trigger] digit_window_broken(s, i)
}

/// Decides `numerals_bounded`.
fn numerals_bounded_check(s: &str) -> (r: bool)
    ensures
        r == numerals_bounded(s@),
{
    let n = s.unicode_len();
    let mut i: usize = 0;
    let mut run: usize = 0;
    while i < n
        invariant
            n == s@.len(),
            i <= n,
            run <= 4,
            run <= i,
            forall|k: int| i - run <= k < i ==> is_digit_char(s@[k]),
            run < i ==> !is_digit_char(s@[i - run - 1]),
            forall|p: int| 0 <= p && p + 5 <= i ==> #[trigger] digit_window_broken(s@, p),
        decreases n - i,
    {
        let c = s.get_char(i);
        let u = c as u32;
        let digit = 48 <= u && u <= 57;
        if digit {
            if run == 4 {
                proof {
                    let p = i - 4;
                    assert(forall|k: int| p <= k < p + 5 ==> is_digit_char(s@[k])) by {
                        assert(forall|k: int| i - run <= k < i ==> is_digit_char(s@[k]));
                        assert(is_digit_char(s@[i as int]));
                    }
                    assert(!digit_window_broken(s@, p));
                    assert(0 <= p && p + 5 <= s@.len());
                    assert(!numerals_bounded(s@));
                }
                return false;
            }
            run = run + 1;
        } else {
            run = 0;
        }
        proof {
            if i + 1 >= 5 {
                let p = i + 1 - 5;
                if !digit {
                    assert(!is_digit_char(s@[i as int]));
                    assert(digit_window_broken(s@, p));
                } else {
                    // the character just before the current digit run breaks
                    // the window: the run is at most four digits long here
                    let q = i - run;
                    assert(p <= q < i + 1);
                    assert(!is_digit_char(s@[q]));
                    assert(digit_window_broken(s@, p));
                }
            }
            assert(forall|p: int|
                0 <= p && p + 5 <= i + 1 ==> #[trigger] digit_window_broken(s@, p));
        }
        i += 1;
    }
    true
}

/// Parses a relaxed natural-language date expression ("today", "yesterday",
/// "3 days ago", explicit day/month/year forms) against the current local
/// time, in the UK dialect, keeping only the calendar date. Every
/// recognized pattern is ASCII with numerals of at most four digits (a
/// year, a day count, an hour), so text outside that shape is rejected up
/// front: the grammar underneath must not see it (see `parse_ascii_date`).
pub fn parse_human_date(text: &str) -> (r: Result<Date, ParseError>)
    ensures
        r is Ok ==> r->Ok_0.valid() && -400000 < r->Ok_0.year < 400000,
        !text.is_ascii() ==> r is Err,
        !numerals_bounded(text@) ==> r is Err,
{
    if !text.is_ascii() {
        return Err(ParseError { message: "unrecognized date expression".to_owned() });
    }
    if !numerals_bounded_check(text) {
        return Err(ParseError { message: "numeral too long in date expression".to_owned() });
    }
    parse_ascii_date(text)
}

/// Relies on chrono_english::parse_date_string with chrono::Local::now():
/// on success the result is a real date of chrono's calendar, so its month
/// is 1..=12, its day fits the month, and its year stays within chrono's
/// documented ±262143-year range. The result depends on the clock, so
/// nothing more is promised of which date comes back. Two input shapes are
/// excluded because the grammar would misbehave on them: non-ASCII text
/// (it slices the leading bytes of identifier words, which can split a
/// character and panic), and numerals of five or more digits (it negates
/// and multiplies numerals in 32-bit arithmetic, which a large value can
/// overflow; four-digit values stay safely inside every such computation).
#[verifier::external_body]
fn parse_ascii_date(text: &str) -> (r: Result<Date, ParseError>)
    requires
        text.is_ascii(),
        numerals_bounded(text@),
    ensures
        r is Ok ==> r->Ok_0.valid() && -400000 < r->Ok_0.year < 400000,
{
    match chrono_english::parse_date_string(text, chrono::Local::now(), chrono_english::Dialect::Uk)
    {
        Ok(dt) => {
            let d = dt.date_naive();
            Ok(Date { year: d.year(), month: d.month() as u8, day: d.day() as u8 })
        },
        Err(e) => Err(ParseError { message: e.to_string() }),
    }
}

/// Today's date on the local clock.
///
/// Relies on chrono::Local::now().date_naive(): a real date of chrono's
/// calendar, within its documented ±262143-year range, provided the system
/// clock reads 1970 or later (chrono refuses an earlier clock). The result
/// depends on the clock, so nothing more is promised of which date it is.
#[verifier::external_body]
pub fn today() -> (r: Date)
    ensures
        r.valid(),
        -400000 < r.year < 400000,
{
    let d = chrono::Local::now().date_naive();
    Date { year: d.year(), month: d.month() as u8, day: d.day() as u8 }
}

/// A duration of `h` hours, `m` minutes and `s` seconds formats at second
/// resolution as `HH:MM:SS`: each field zero-padded to two digits (hours
/// take more digits only past 99).
pub proof fn lemma_seconds_format_fields(h: int, m: int, s: int)
    requires
        0 <= h,
        0 <= m < 60,
        0 <= s < 60,
    ensures
        spec_format_seconds(h * 3600 + m * 60 + s) == pad2(h) + seq![':'] + pad2(m) + seq![':']
            + pad2(s),
{
    let t = h * 3600 + m * 60 + s;
    assert(t / 3600 == h && (t / 60) % 60 == m && t % 60 == s) by (nonlinear_arith)
        requires
            0 <= h,
            0 <= m < 60,
            0 <= s < 60,
            t == h * 3600 + m * 60 + s,
    ;
}

} // verus!
