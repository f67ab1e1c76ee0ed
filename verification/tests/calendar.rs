use prahadlo::calendar::{
    date_from_parsed, parse_date, parse_number, parse_time, service_active, Date, Service,
    ServiceException, EXCEPTION_ADDED, EXCEPTION_REMOVED,
};
use prahadlo::error::GtfsError;
use prahadlo::records::bool_from_int;
use chrono::Datelike;

fn date(year: i32, month: u32, day: u32) -> Date {
    Date::from_ymd(year, month, day).unwrap()
}

fn weekdays_only() -> Service {
    Service {
        service_id: "W".to_string(),
        monday: true,
        tuesday: true,
        wednesday: true,
        thursday: true,
        friday: true,
        saturday: false,
        sunday: false,
        start_date: date(2020, 1, 1),
        end_date: date(2020, 12, 31),
        exceptions: Vec::new(),
    }
}

fn exception(on: Date, exception_type: u8) -> ServiceException {
    ServiceException { service_id: "W".to_string(), date: on, exception_type }
}

#[test]
fn time_is_read_as_seconds() {
    assert_eq!(parse_time("00:00:00"), Ok(0));
    assert_eq!(parse_time("08:05:06"), Ok(29106));
    assert_eq!(parse_time("23:59:59"), Ok(86399));
}

#[test]
fn hours_past_midnight_are_accepted() {
    assert_eq!(parse_time("24:00:00"), Ok(86400));
    assert_eq!(parse_time("25:30:15"), Ok(91815));
    assert_eq!(parse_time("47:59:59"), Ok(172799));
}

#[test]
fn single_digit_fields_are_numbers_too() {
    assert_eq!(parse_time("7:5:9"), Ok(7 * 3600 + 5 * 60 + 9));
}

#[test]
fn time_of_wrong_shape_is_malformed() {
    assert_eq!(parse_time(""), Err(GtfsError::MalformedTime));
    assert_eq!(parse_time("08:05"), Err(GtfsError::MalformedTime));
    assert_eq!(parse_time("08:05:06:07"), Err(GtfsError::MalformedTime));
    assert_eq!(parse_time("080506"), Err(GtfsError::MalformedTime));
    assert_eq!(parse_time(":05:06"), Err(GtfsError::MalformedTime));
    assert_eq!(parse_time("08::06"), Err(GtfsError::MalformedTime));
    assert_eq!(parse_time("08:05:"), Err(GtfsError::MalformedTime));
}

#[test]
fn time_with_other_characters_is_malformed() {
    assert_eq!(parse_time("ab:cd:ef"), Err(GtfsError::MalformedTime));
    assert_eq!(parse_time("08:05:0x"), Err(GtfsError::MalformedTime));
    assert_eq!(parse_time("-8:05:06"), Err(GtfsError::MalformedTime));
    assert_eq!(parse_time("+8:05:06"), Err(GtfsError::MalformedTime));
    assert_eq!(parse_time(" 8:05:06"), Err(GtfsError::MalformedTime));
    assert_eq!(parse_time("08:05:06 "), Err(GtfsError::MalformedTime));
    assert_eq!(parse_time("０8:05:06"), Err(GtfsError::MalformedTime));
}

#[test]
fn time_that_does_not_fit_is_malformed() {
    assert_eq!(parse_time("1193046:28:15"), Ok(u32::MAX));
    assert_eq!(parse_time("1193046:28:16"), Err(GtfsError::MalformedTime));
    assert_eq!(parse_time("99999999999:00:00"), Err(GtfsError::MalformedTime));
    assert_eq!(parse_time("0:0:4294967296"), Err(GtfsError::MalformedTime));
}

#[test]
fn number_is_read_from_part_of_the_characters() {
    let chars: Vec<char> = "ab120:7".chars().collect();
    assert_eq!(parse_number(&chars, 2, 5), Some(120));
    assert_eq!(parse_number(&chars, 6, 7), Some(7));
    assert_eq!(parse_number(&chars, 0, 2), None);
    assert_eq!(parse_number(&chars, 2, 6), None);
    assert_eq!(parse_number(&chars, 3, 3), None);
    let large: Vec<char> = "4294967295".chars().collect();
    assert_eq!(parse_number(&large, 0, 10), Some(u32::MAX));
    let too_large: Vec<char> = "4294967296".chars().collect();
    assert_eq!(parse_number(&too_large, 0, 10), None);
}

#[test]
fn date_is_read_from_eight_digits() {
    let read = parse_date("20200125").unwrap();
    assert_eq!((read.year, read.month, read.day), (2020, 1, 25));
    assert_eq!(read.weekday, 5);
    assert_eq!(read, date(2020, 1, 25));
}

#[test]
fn date_that_is_no_day_is_malformed() {
    assert_eq!(parse_date("20200230"), Err(GtfsError::MalformedDate));
    assert_eq!(parse_date("20201301"), Err(GtfsError::MalformedDate));
    assert_eq!(parse_date("20200100"), Err(GtfsError::MalformedDate));
    assert_eq!(parse_date("20190229"), Err(GtfsError::MalformedDate));
    assert_eq!(parse_date(""), Err(GtfsError::MalformedDate));
    assert_eq!(parse_date("2020-01-25"), Err(GtfsError::MalformedDate));
    assert_eq!(parse_date("yesterday"), Err(GtfsError::MalformedDate));
    assert_eq!(parse_date("202001251"), Err(GtfsError::MalformedDate));
}

#[test]
fn parsed_day_becomes_a_date_only_if_it_is_one() {
    assert_eq!(date_from_parsed(Some((2020, 2, 29))), Ok(date(2020, 2, 29)));
    assert_eq!(date_from_parsed(Some((2021, 2, 29))), Err(GtfsError::MalformedDate));
    assert_eq!(date_from_parsed(Some((2021, 0, 1))), Err(GtfsError::MalformedDate));
    assert_eq!(date_from_parsed(None), Err(GtfsError::MalformedDate));
}

#[test]
fn calendar_knows_leap_years() {
    assert!(Date::from_ymd(2020, 2, 29).is_some());
    assert!(Date::from_ymd(2000, 2, 29).is_some());
    assert!(Date::from_ymd(1900, 2, 29).is_none());
    assert!(Date::from_ymd(2100, 2, 29).is_none());
    assert!(Date::from_ymd(2023, 4, 31).is_none());
    assert!(Date::from_ymd(2023, 4, 30).is_some());
    assert!(Date::from_ymd(2023, 12, 31).is_some());
    assert!(Date::from_ymd(2023, 13, 1).is_none());
    assert!(Date::from_ymd(2023, 0, 1).is_none());
    assert!(Date::from_ymd(2023, 1, 0).is_none());
    assert!(Date::from_ymd(2023, 1, 32).is_none());
    assert!(Date::from_ymd(-4, 2, 29).is_some());
}

#[test]
fn calendar_ends_at_its_first_and_last_year() {
    assert!(Date::from_ymd(262142, 12, 31).is_some());
    assert!(Date::from_ymd(262143, 1, 1).is_none());
    assert!(Date::from_ymd(-262143, 1, 1).is_some());
    assert!(Date::from_ymd(-262144, 12, 31).is_none());
    assert!(Date::from_ymd(400000, 1, 1).is_none());
}

#[test]
fn weekday_counts_from_monday() {
    assert_eq!(date(2020, 1, 20).weekday, 0);
    assert_eq!(date(2020, 1, 21).weekday, 1);
    assert_eq!(date(2020, 1, 22).weekday, 2);
    assert_eq!(date(2020, 1, 23).weekday, 3);
    assert_eq!(date(2020, 1, 24).weekday, 4);
    assert_eq!(date(2020, 1, 25).weekday, 5);
    assert_eq!(date(2020, 1, 26).weekday, 6);
    assert_eq!(date(1970, 1, 1).weekday, 3);
}

#[test]
fn dates_are_ordered_by_day() {
    assert!(date(2020, 1, 25).on_or_before(&date(2020, 1, 25)));
    assert!(date(2020, 1, 25).on_or_before(&date(2020, 2, 7)));
    assert!(date(2019, 12, 31).on_or_before(&date(2020, 1, 1)));
    assert!(!date(2020, 2, 7).on_or_before(&date(2020, 1, 25)));
    assert!(!date(2021, 1, 1).on_or_before(&date(2020, 12, 31)));
    assert!(date(2020, 3, 1).is_same_day(&date(2020, 3, 1)));
    assert!(!date(2020, 3, 1).is_same_day(&date(2020, 3, 2)));
    assert!(date(2020, 1, 25) < date(2020, 2, 7));
}

#[test]
fn service_follows_its_weekly_pattern() {
    let service = weekdays_only();
    assert!(service_active(&service, &date(2020, 1, 20)));
    assert!(service_active(&service, &date(2020, 1, 24)));
    assert!(!service_active(&service, &date(2020, 1, 25)));
    assert!(!service_active(&service, &date(2020, 1, 26)));
}

#[test]
fn service_is_bounded_by_its_period() {
    let service = weekdays_only();
    assert!(service_active(&service, &date(2020, 1, 1)));
    assert!(service_active(&service, &date(2020, 12, 31)));
    assert!(!service_active(&service, &date(2019, 12, 31)));
    assert!(!service_active(&service, &date(2021, 1, 1)));
}

#[test]
fn added_exception_forces_service() {
    let mut service = weekdays_only();
    service.exceptions.push(exception(date(2020, 1, 25), EXCEPTION_ADDED));
    assert!(service_active(&service, &date(2020, 1, 25)));
    assert!(!service_active(&service, &date(2020, 1, 26)));
    assert!(service_active(&service, &date(2020, 1, 24)));
}

#[test]
fn removed_exception_stops_service() {
    let mut service = weekdays_only();
    service.exceptions.push(exception(date(2020, 1, 22), EXCEPTION_REMOVED));
    assert!(!service_active(&service, &date(2020, 1, 22)));
    assert!(service_active(&service, &date(2020, 1, 23)));
}

#[test]
fn exception_that_agrees_with_the_pattern_changes_nothing() {
    let mut service = weekdays_only();
    service.exceptions.push(exception(date(2020, 1, 22), EXCEPTION_ADDED));
    service.exceptions.push(exception(date(2020, 1, 25), EXCEPTION_REMOVED));
    assert!(service_active(&service, &date(2020, 1, 22)));
    assert!(!service_active(&service, &date(2020, 1, 25)));
}

#[test]
fn exception_outside_the_period_adds_no_service() {
    let mut service = weekdays_only();
    service.exceptions.push(exception(date(2021, 1, 2), EXCEPTION_ADDED));
    assert!(!service_active(&service, &date(2021, 1, 2)));
}

#[test]
fn flag_is_read_from_zero_and_one() {
    assert_eq!(bool_from_int(0), Ok(false));
    assert_eq!(bool_from_int(1), Ok(true));
    assert_eq!(bool_from_int(2), Err(GtfsError::MalformedBool));
    assert_eq!(bool_from_int(255), Err(GtfsError::MalformedBool));
}

#[test]
fn every_error_has_its_message() {
    let all = [
        GtfsError::IoFailure,
        GtfsError::SchemaMismatch,
        GtfsError::MalformedTime,
        GtfsError::MalformedDate,
        GtfsError::MalformedNumber,
        GtfsError::MalformedBool,
        GtfsError::DanglingReference,
        GtfsError::ScheduleConflict,
        GtfsError::NotFinalized,
        GtfsError::AlreadyFinalized,
        GtfsError::UnknownStop,
        GtfsError::NoDeparture,
    ];
    for (i, a) in all.iter().enumerate() {
        assert!(!a.message().is_empty());
        for b in all.iter().skip(i + 1) {
            assert_ne!(a.message(), b.message());
        }
    }
    assert_eq!(GtfsError::UnknownStop.message(), "stop not found");
}

#[test]
fn weekday_agrees_with_the_calendar_of_chrono() {
    let years = [
        -262143, -262142, -100000, -401, -400, -399, -101, -100, -99, -5, -4, -3, -1, 0, 1, 2, 3, 4, 5,
        99, 100, 101, 399, 400, 401, 1582, 1600, 1699, 1700, 1800, 1899, 1900, 1901, 1969, 1970, 1999,
        2000, 2001, 2019, 2020, 2021, 2023, 2024, 2099, 2100, 2400, 9999, 10000, 262141, 262142,
    ];
    let mut compared = 0;
    for year in years {
        for month in 1..=12 {
            for day in 1..=31 {
                let ours = Date::from_ymd(year, month, day);
                let theirs = chrono::NaiveDate::from_ymd_opt(year, month, day);
                assert_eq!(ours.is_some(), theirs.is_some());
                if let (Some(ours), Some(theirs)) = (ours, theirs) {
                    assert_eq!(u32::from(ours.weekday), theirs.weekday().num_days_from_monday());
                    compared += 1;
                }
            }
        }
    }
    assert!(compared > 18000);
}

#[test]
fn weekday_follows_from_day_to_day() {
    let mut date = chrono::NaiveDate::from_ymd_opt(1995, 1, 1).unwrap();
    let mut last = Date::from_ymd(1994, 12, 31).unwrap().weekday;
    for _ in 0..12000 {
        let ours = Date::from_ymd(date.year(), date.month(), date.day()).unwrap();
        assert_eq!(ours.weekday, (last + 1) % 7);
        assert_eq!(u32::from(ours.weekday), date.weekday().num_days_from_monday());
        last = ours.weekday;
        date = date.succ_opt().unwrap();
    }
}

#[test]
fn first_day_of_the_first_year_is_a_monday() {
    assert_eq!(date(1, 1, 1).weekday, 0);
    assert_eq!(date(0, 12, 31).weekday, 6);
    assert_eq!(date(2026, 10, 29).weekday, 3);
}
