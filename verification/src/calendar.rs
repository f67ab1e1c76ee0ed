use vstd::prelude::*;
use vstd::arithmetic::div_mod::*;
use vstd::string::StrSliceExecFns;
use crate::error::GtfsError;

verus! {

/// Whether `c` is a decimal digit.
pub open spec fn is_digit(c: char) -> bool {
    '0' <= c <= '9'
}

/// Whether `s` is a number: one decimal digit or more, and nothing else.
pub open spec fn is_number(s: Seq<char>) -> bool {
    s.len() > 0 && forall|i: int| 0 <= i < s.len() ==> is_digit(#[trigger] s[i])
}

/// The value of a string of decimal digits.
pub open spec fn number_value(s: Seq<char>) -> nat
    decreases s.len(),
{
    if s.len() == 0 {
        0
    } else {
        number_value(s.drop_last()) * 10 + (s.last() as nat - '0' as nat) as nat
    }
}

/// A number is at least as large as the number that any of its first digits
/// form.
pub proof fn lemma_number_value_grows(s: Seq<char>, n: int)
    requires
        0 <= n <= s.len(),
    ensures
        number_value(s.subrange(0, n)) <= number_value(s),
    decreases s.len() - n,
{
    if n == s.len() {
        assert(s.subrange(0, n) == s);
    } else {
        lemma_number_value_grows(s.drop_last(), n);
        assert(s.drop_last().subrange(0, n) == s.subrange(0, n));
    }
}

/// Whether `s` is a time of day written with colons at `i` and `j`: hours,
/// minutes and seconds, each a number.
pub open spec fn is_time_text(s: Seq<char>, i: int, j: int) -> bool {
    &&& 0 <= i < j < s.len()
    &&& s[i] == ':'
    &&& s[j] == ':'
    &&& is_number(s.subrange(0, i))
    &&& is_number(s.subrange(i + 1, j))
    &&& is_number(s.subrange(j + 1, s.len() as int))
}

/// The seconds since midnight that such a text stands for.
pub open spec fn time_value(s: Seq<char>, i: int, j: int) -> nat {
    3600 * number_value(s.subrange(0, i)) + 60 * number_value(s.subrange(i + 1, j)) + number_value(
        s.subrange(j + 1, s.len() as int),
    )
}

/// The characters of `text`.
fn chars_of(text: &str) -> (chars: Vec<char>)
    ensures
        chars@ == text@,
{
    let count = text.unicode_len();
    let mut chars: Vec<char> = Vec::new();
    let mut i: usize = 0;
    while i < count
        invariant
            count == text@.len(),
            i <= count,
            chars@ == text@.subrange(0, i as int),
        decreases count - i,
    {
        chars.push(text.get_char(i));
        i += 1;
    }
    chars
}

/// Reads the number that the characters from `from` up to `to` form, if
/// they form one that fits.
pub fn parse_number(chars: &Vec<char>, from: usize, to: usize) -> (value: Option<u32>)
    requires
        from <= to <= chars.len(),
    ensures
        value matches Some(v) ==> is_number(chars@.subrange(from as int, to as int)) && v
            == number_value(chars@.subrange(from as int, to as int)),
        value is None ==> !is_number(chars@.subrange(from as int, to as int)) || number_value(
            chars@.subrange(from as int, to as int),
        ) > u32::MAX,
{
    let ghost field = chars@.subrange(from as int, to as int);
    if from == to {
        return None;
    }
    let mut total: u64 = 0;
    let mut i: usize = from;
    assert(field.subrange(0, 0) == Seq::<char>::empty());
    while i < to
        invariant
            from <= i <= to <= chars.len(),
            field == chars@.subrange(from as int, to as int),
            total == number_value(field.subrange(0, i - from)),
            total <= u32::MAX,
            forall|k: int| 0 <= k < i - from ==> is_digit(#[trigger] field[k]),
        decreases to - i,
    {
        let c = chars[i];
        assert(field[i - from] == c);
        if !('0' <= c && c <= '9') {
            return None;
        }
        let digit: u64 = (c as u32 - '0' as u32) as u64;
        let next: u64 = total * 10 + digit;
        proof {
            let longer = field.subrange(0, i - from + 1);
            assert(longer.drop_last() == field.subrange(0, i - from));
            assert(longer.last() == c);
            assert(next == number_value(longer));
        }
        if next > u32::MAX as u64 {
            proof {
                lemma_number_value_grows(field, i - from + 1);
            }
            return None;
        }
        total = next;
        i += 1;
    }
    assert(field.subrange(0, to - from) == field);
    Some(total as u32)
}

/// The position of the first colon at or after `from`, or the length of
/// `chars` if there is none.
fn find_colon(chars: &Vec<char>, from: usize) -> (at: usize)
    requires
        from <= chars.len(),
    ensures
        from <= at <= chars.len(),
        at < chars.len() ==> chars@[at as int] == ':',
        forall|k: int| from <= k < at ==> chars@[k] != ':',
{
    let mut at: usize = from;
    while at < chars.len() && chars[at] != ':'
        invariant
            from <= at <= chars.len(),
            forall|k: int| from <= k < at ==> chars@[k] != ':',
        decreases chars.len() - at,
    {
        at += 1;
    }
    at
}

/// Reads a time of day written `HH:MM:SS` as seconds since midnight.
///
/// Each of the three fields is a number of any length, so hours of 24 and
/// more are read as they stand. A text of another shape, or one whose value
/// does not fit, is malformed.
pub fn parse_time(text: &str) -> (result: Result<u32, GtfsError>)
    ensures
        result matches Ok(seconds) ==> exists|i: int, j: int| #[trigger]
            is_time_text(text@, i, j) && seconds == time_value(text@, i, j),
        result matches Err(e) ==> e == GtfsError::MalformedTime && forall|i: int, j: int| #[trigger]
            is_time_text(text@, i, j) ==> time_value(text@, i, j) > u32::MAX,
{
    let chars = chars_of(text);
    let count = chars.len();
    let first = find_colon(&chars, 0);
    proof {
        assert forall|i: int, j: int| #[trigger] is_time_text(text@, i, j) implies i == first by {
            let hours = text@.subrange(0, i);
            if first < i {
                assert(is_digit(hours[first as int]));
            }
        }
    }
    if first >= count {
        return Err(GtfsError::MalformedTime);
    }
    let second = find_colon(&chars, first + 1);
    proof {
        assert forall|i: int, j: int| #[trigger] is_time_text(text@, i, j) implies j == second by {
            let minutes = text@.subrange(i + 1, j);
            if second < j {
                assert(is_digit(minutes[second - (i + 1)]));
            }
        }
    }
    if second >= count {
        return Err(GtfsError::MalformedTime);
    }
    let hours = parse_number(&chars, 0, first);
    let minutes = parse_number(&chars, first + 1, second);
    let seconds = parse_number(&chars, second + 1, count);
    match (hours, minutes, seconds) {
        (Some(h), Some(m), Some(s)) => {
            let total: u64 = 3600 * (h as u64) + 60 * (m as u64) + (s as u64);
            if total > u32::MAX as u64 {
                Err(GtfsError::MalformedTime)
            } else {
                assert(is_time_text(text@, first as int, second as int));
                Ok(total as u32)
            }
        },
        _ => Err(GtfsError::MalformedTime),
    }
}

/// The first year that a date can lie in.
pub const MIN_YEAR: i32 = -262143;

/// The last year that a date can lie in.
pub const MAX_YEAR: i32 = 262142;

/// Whether `year` is a leap year of the Gregorian calendar, extended
/// backwards over all years.
pub open spec fn is_leap_year(year: int) -> bool {
    year % 4 == 0 && (year % 100 != 0 || year % 400 == 0)
}

/// The number of days of a month.
pub open spec fn days_in_month(year: int, month: int) -> int {
    if month == 2 {
        if is_leap_year(year) {
            29
        } else {
            28
        }
    } else if month == 4 || month == 6 || month == 9 || month == 11 {
        30
    } else {
        31
    }
}

/// Whether a year, a month and a day name a day of the calendar.
pub open spec fn is_calendar_date(year: int, month: int, day: int) -> bool {
    &&& MIN_YEAR <= year <= MAX_YEAR
    &&& 1 <= month <= 12
    &&& 1 <= day <= days_in_month(year, month)
}

/// The number of days of a year that lie before the first of a month.
pub open spec fn days_before_month(year: int, month: int) -> int {
    let common: int = if month <= 1 {
        0
    } else if month == 2 {
        31
    } else if month == 3 {
        59
    } else if month == 4 {
        90
    } else if month == 5 {
        120
    } else if month == 6 {
        151
    } else if month == 7 {
        181
    } else if month == 8 {
        212
    } else if month == 9 {
        243
    } else if month == 10 {
        273
    } else if month == 11 {
        304
    } else {
        334
    };
    if month > 2 && is_leap_year(year) {
        common + 1
    } else {
        common
    }
}

/// The number of leap days from the first day of year 1 to the first day
/// of `year`; for earlier years, the negated number of leap days between.
pub open spec fn leap_days_before(year: int) -> int {
    (year - 1) / 4 - (year - 1) / 100 + (year - 1) / 400
}

/// The number of a day, counted from 1 January of year 1 as day 1.
pub open spec fn day_number(year: int, month: int, day: int) -> int {
    365 * (year - 1) + leap_days_before(year) + days_before_month(year, month) + day
}

/// The day of the week of a calendar date, counted from Monday as 0: day 1
/// is a Monday, and the days of the week follow each other without a break.
pub open spec fn weekday_number(year: int, month: int, day: int) -> int {
    (day_number(year, month, day) - 1) % 7
}

/// The year, month and day that `chrono` reads from a text under the format
/// `%Y%m%d`; `None` where it rejects the text.
pub uninterp spec fn chrono_parse_ymd(text: Seq<char>) -> Option<(i32, u32, u32)>;

/// Declares `chrono::ParseError`, the error that
/// `chrono::NaiveDate::parse_from_str` hands out. Nothing is claimed of its
/// values; they are only told apart from a date that was read.
#[verifier::external_type_specification]
#[verifier::external_body]
pub struct ExParseError(chrono::ParseError);

/// Calls `chrono::NaiveDate::from_ymd_opt` and tells whether it made a date.
///
/// Trusted: that `chrono` makes a date exactly for the days of the
/// proleptic Gregorian calendar between its first and last year.
#[verifier::external_body]
fn calendar_has(year: i32, month: u32, day: u32) -> (known: bool)
    ensures
        known == is_calendar_date(year as int, month as int, day as int),
{
    chrono::NaiveDate::from_ymd_opt(year, month, day).is_some()
}

/// The quotient of `n` by `d`, rounded down, and the remainder that is left.
fn divide_down(n: i64, d: i64) -> (parts: (i64, i64))
    requires
        0 < d <= 1000,
        -1_000_000_000_000 <= n <= 1_000_000_000_000,
    ensures
        parts.0 == n as int / d as int,
        parts.1 == n as int % d as int,
        0 <= parts.1 < d,
{
    proof {
        lemma_fundamental_div_mod(n as int, d as int);
        lemma_mod_bound(n as int, d as int);
    }
    if n >= 0 {
        (n / d, n % d)
    } else {
        let up: i64 = -n;
        let q: i64 = (up + d - 1) / d;
        proof {
            let di = d as int;
            let qi = q as int;
            lemma_fundamental_div_mod(up + d - 1, di);
            let r = (up + d - 1) % di;
            assert(0 <= r < di) by {
                lemma_mod_bound(up + d - 1, di);
            }
            assert(up + d - 1 == di * qi + r);
            assert((-qi) * di == -(di * qi)) by (nonlinear_arith);
            lemma_fundamental_div_mod_converse(n as int, di, -qi, di - 1 - r);
            assert(qi * di == di * qi) by (nonlinear_arith);
            lemma_div_pos_is_pos(up + d - 1, di);
            assert(di * qi >= qi) by (nonlinear_arith)
                requires
                    di >= 1,
                    qi >= 0,
            ;
        }
        (-q, n + q * d)
    }
}

/// Whether `year` is a leap year.
fn leap_year(year: i32) -> (leap: bool)
    ensures
        leap == is_leap_year(year as int),
{
    let by_four = divide_down(year as i64, 4).1;
    let by_hundred = divide_down(year as i64, 100).1;
    let by_four_hundred = divide_down(year as i64, 400).1;
    by_four == 0 && (by_hundred != 0 || by_four_hundred == 0)
}

/// The day of the week of a calendar date, counted from Monday as 0.
fn day_of_week(year: i32, month: u32, day: u32) -> (weekday: u8)
    requires
        is_calendar_date(year as int, month as int, day as int),
    ensures
        weekday == weekday_number(year as int, month as int, day as int),
        weekday < 7,
{
    let common: i64 = if month <= 1 {
        0
    } else if month == 2 {
        31
    } else if month == 3 {
        59
    } else if month == 4 {
        90
    } else if month == 5 {
        120
    } else if month == 6 {
        151
    } else if month == 7 {
        181
    } else if month == 8 {
        212
    } else if month == 9 {
        243
    } else if month == 10 {
        273
    } else if month == 11 {
        304
    } else {
        334
    };
    let before_month: i64 = if month > 2 && leap_year(year) { common + 1 } else { common };
    let last_year: i64 = year as i64 - 1;
    let leap_days: i64 = divide_down(last_year, 4).0 - divide_down(last_year, 100).0 + divide_down(
        last_year,
        400,
    ).0;
    let number: i64 = 365 * last_year + leap_days + before_month + day as i64;
    let left = divide_down(number - 1, 7).1;
    left as u8
}

/// Calls `chrono::NaiveDate::parse_from_str` with the format `%Y%m%d` and
/// hands out the year, month and day of the date it read.
///
/// Trusted: that the outcome depends on the text alone, and that a date
/// which `chrono` hands out is a day of the calendar.
#[verifier::external_body]
fn parse_ymd(raw_ymd: &str) -> (parsed: Result<(i32, u32, u32), chrono::ParseError>)
    ensures
        parsed is Ok <==> chrono_parse_ymd(raw_ymd@) is Some,
        parsed matches Ok(ymd) ==> chrono_parse_ymd(raw_ymd@) == Some(ymd) && is_calendar_date(
            ymd.0 as int,
            ymd.1 as int,
            ymd.2 as int,
        ),
{
    match chrono::NaiveDate::parse_from_str(raw_ymd, "%Y%m%d") {
        Ok(date) => Ok(
            (
                chrono::Datelike::year(&date),
                chrono::Datelike::month(&date),
                chrono::Datelike::day(&date),
            ),
        ),
        Err(error) => Err(error),
    }
}

/// A day of the calendar, with its day of the week (Monday is 0).
#[derive(Debug, Clone, Copy, PartialEq, Eq, PartialOrd, Ord, Hash, Structural)]
pub struct Date {
    pub year: i32,
    pub month: u32,
    pub day: u32,
    pub weekday: u8,
}

impl Date {
    /// Whether this is a day of the calendar and carries its own weekday.
    pub open spec fn wf(&self) -> bool {
        &&& is_calendar_date(self.year as int, self.month as int, self.day as int)
        &&& self.weekday == weekday_number(self.year as int, self.month as int, self.day as int)
    }

    /// Whether `self` and `other` are the same day.
    pub open spec fn same_day(&self, other: &Date) -> bool {
        self.year == other.year && self.month == other.month && self.day == other.day
    }

    /// Whether `self` is `other` or an earlier day.
    pub open spec fn spec_on_or_before(&self, other: &Date) -> bool {
        self.year < other.year || (self.year == other.year && (self.month < other.month || (
        self.month == other.month && self.day <= other.day)))
    }

    /// The date of a year, a month and a day, where the calendar has such a
    /// day.
    pub fn from_ymd(year: i32, month: u32, day: u32) -> (date: Option<Date>)
        ensures
            date is Some <==> is_calendar_date(year as int, month as int, day as int),
            date matches Some(d) ==> d.wf() && d.year == year && d.month == month && d.day == day,
    {
        if calendar_has(year, month, day) {
            Some(Date { year, month, day, weekday: day_of_week(year, month, day) })
        } else {
            None
        }
    }

    pub fn is_same_day(&self, other: &Date) -> (same: bool)
        ensures
            same == self.same_day(other),
    {
        self.year == other.year && self.month == other.month && self.day == other.day
    }

    pub fn on_or_before(&self, other: &Date) -> (result: bool)
        ensures
            result == self.spec_on_or_before(other),
    {
        self.year < other.year || (self.year == other.year && (self.month < other.month || (
        self.month == other.month && self.day <= other.day)))
    }
}

/// Turns what was read from a date field into a date: the day that was
/// read, if one was read and the calendar has it.
pub fn date_from_parsed(parsed: Option<(i32, u32, u32)>) -> (result: Result<Date, GtfsError>)
    ensures
        result is Ok <==> (parsed matches Some(ymd) && is_calendar_date(
            ymd.0 as int,
            ymd.1 as int,
            ymd.2 as int,
        )),
        result matches Ok(date) ==> date.wf() && parsed == Some((date.year, date.month, date.day)),
        result matches Err(e) ==> e == GtfsError::MalformedDate,
{
    match parsed {
        Some((year, month, day)) => match Date::from_ymd(year, month, day) {
            Some(date) => Ok(date),
            None => Err(GtfsError::MalformedDate),
        },
        None => Err(GtfsError::MalformedDate),
    }
}

/// Reads a date written `YYYYMMDD`.
///
/// The text is read by `chrono`; a text that it rejects, such as one that
/// names no day of the calendar, is malformed.
pub fn parse_date(text: &str) -> (result: Result<Date, GtfsError>)
    ensures
        result is Ok <==> chrono_parse_ymd(text@) is Some,
        result matches Ok(date) ==> date.wf() && chrono_parse_ymd(text@) == Some(
            (date.year, date.month, date.day),
        ),
        result matches Err(e) ==> e == GtfsError::MalformedDate,
{
    let parsed = match parse_ymd(text) {
        Ok(ymd) => Some(ymd),
        Err(_) => None,
    };
    date_from_parsed(parsed)
}

/// The `exception_type` of a day on which service is added.
pub const EXCEPTION_ADDED: u8 = 1;

/// The `exception_type` of a day on which service is removed.
pub const EXCEPTION_REMOVED: u8 = 2;

/// One day on which a service departs from its weekly pattern.
#[derive(Debug)]
pub struct ServiceException {
    pub service_id: String,
    pub date: Date,
    /// [`EXCEPTION_ADDED`] or [`EXCEPTION_REMOVED`].
    pub exception_type: u8,
}

/// The days on which the trips of a service run: a weekly pattern within a
/// period, and the exceptions to it.
#[derive(Debug)]
pub struct Service {
    pub service_id: String,
    pub monday: bool,
    pub tuesday: bool,
    pub wednesday: bool,
    pub thursday: bool,
    pub friday: bool,
    pub saturday: bool,
    pub sunday: bool,
    pub start_date: Date,
    pub end_date: Date,
    pub exceptions: Vec<ServiceException>,
}

impl Service {
    /// The flag of the weekly pattern for a day of the week; no flag is set
    /// for a number that names no day.
    pub open spec fn weekday_flag(&self, weekday: u8) -> bool {
        if weekday == 0 {
            self.monday
        } else if weekday == 1 {
            self.tuesday
        } else if weekday == 2 {
            self.wednesday
        } else if weekday == 3 {
            self.thursday
        } else if weekday == 4 {
            self.friday
        } else if weekday == 5 {
            self.saturday
        } else if weekday == 6 {
            self.sunday
        } else {
            false
        }
    }

    /// Whether the service has an exception of the given type on `date`.
    pub open spec fn has_exception(&self, date: Date, exception_type: u8) -> bool {
        exists|i: int|
            0 <= i < self.exceptions@.len() && (#[trigger] self.exceptions@[i]).date.same_day(&date)
                && self.exceptions@[i].exception_type == exception_type
    }

    /// Whether `date` lies within the service's period.
    pub open spec fn in_period(&self, date: Date) -> bool {
        self.start_date.spec_on_or_before(&date) && date.spec_on_or_before(&self.end_date)
    }

    /// The exception type that would change what the weekly pattern says
    /// about `date`: a removal on a day that the pattern includes, an
    /// addition on a day that it leaves out.
    pub open spec fn overriding_type(&self, date: Date) -> u8 {
        if self.weekday_flag(date.weekday) {
            EXCEPTION_REMOVED
        } else {
            EXCEPTION_ADDED
        }
    }

    /// Whether the service runs on `date`: the date lies within the period,
    /// and either the weekly pattern includes its weekday or an exception
    /// overrides the pattern, but not both.
    pub open spec fn active_on(&self, date: Date) -> bool {
        self.in_period(date) && (self.weekday_flag(date.weekday) != self.has_exception(
            date,
            self.overriding_type(date),
        ))
    }

    fn flag_of(&self, weekday: u8) -> (flag: bool)
        ensures
            flag == self.weekday_flag(weekday),
    {
        if weekday == 0 {
            self.monday
        } else if weekday == 1 {
            self.tuesday
        } else if weekday == 2 {
            self.wednesday
        } else if weekday == 3 {
            self.thursday
        } else if weekday == 4 {
            self.friday
        } else if weekday == 5 {
            self.saturday
        } else if weekday == 6 {
            self.sunday
        } else {
            false
        }
    }

    fn finds_exception(&self, date: &Date, exception_type: u8) -> (found: bool)
        ensures
            found == self.has_exception(*date, exception_type),
    {
        let mut i: usize = 0;
        while i < self.exceptions.len()
            invariant
                i <= self.exceptions@.len(),
                forall|k: int|
                    0 <= k < i ==> !((#[trigger] self.exceptions@[k]).date.same_day(date)
                        && self.exceptions@[k].exception_type == exception_type),
            decreases self.exceptions.len() - i,
        {
            if self.exceptions[i].date.is_same_day(date) && self.exceptions[i].exception_type
                == exception_type {
                return true;
            }
            i += 1;
        }
        false
    }
}

/// Whether the trips of `service` run on `date`.
pub fn service_active(service: &Service, date: &Date) -> (active: bool)
    ensures
        active == service.active_on(*date),
{
    if !(service.start_date.on_or_before(date) && date.on_or_before(&service.end_date)) {
        return false;
    }
    let flag = service.flag_of(date.weekday);
    let overriding = if flag { EXCEPTION_REMOVED } else { EXCEPTION_ADDED };
    let overridden = service.finds_exception(date, overriding);
    flag != overridden
}

/// No service runs outside its period, whatever its pattern and its
/// exceptions say.
pub proof fn lemma_inactive_outside_period(service: Service, date: Date)
    requires
        !service.in_period(date),
    ensures
        !service.active_on(date),
{
}

/// Within the period and without an exception on that day, a service runs
/// exactly on the weekdays of its pattern.
pub proof fn lemma_pattern_decides_without_exception(service: Service, date: Date)
    requires
        service.in_period(date),
        !service.has_exception(date, EXCEPTION_ADDED),
        !service.has_exception(date, EXCEPTION_REMOVED),
    ensures
        service.active_on(date) == service.weekday_flag(date.weekday),
{
}

/// Within the period, a day with an added exception and no removed one is a
/// day of service, whatever the pattern says.
pub proof fn lemma_added_exception_forces_service(service: Service, date: Date)
    requires
        service.in_period(date),
        service.has_exception(date, EXCEPTION_ADDED),
        !service.has_exception(date, EXCEPTION_REMOVED),
    ensures
        service.active_on(date),
{
}

/// Within the period, a day with a removed exception and no added one is
/// not a day of service, whatever the pattern says.
pub proof fn lemma_removed_exception_stops_service(service: Service, date: Date)
    requires
        service.in_period(date),
        service.has_exception(date, EXCEPTION_REMOVED),
        !service.has_exception(date, EXCEPTION_ADDED),
    ensures
        !service.active_on(date),
{
}

} // verus!
