use xlsxparser::date::{civil_from_days, excel_serial_day_to_ymd, serial_to_date_time, SerialParts};
use xlsxparser::model::cell::DateTimeValue;
use xlsxparser::parse::iso8601::parse_iso8601_datetime;
use xlsxparser::parse::number_format::{
    builtin_format, contains_date_time_token, is_date_time_format,
};
use xlsxparser::Error;

#[test]
fn day_numbers_count_from_1970() {
    assert_eq!(civil_from_days(0), (1970, 1, 1));
    assert_eq!(civil_from_days(-1), (1969, 12, 31));
    assert_eq!(civil_from_days(59), (1970, 3, 1));
    assert_eq!(civil_from_days(11_016), (2000, 2, 29));
    assert_eq!(civil_from_days(11_017), (2000, 3, 1));
    assert_eq!(civil_from_days(-25_567), (1900, 1, 1));
    assert_eq!(civil_from_days(-719_528), (0, 1, 1));
    assert_eq!(civil_from_days(2_932_896), (9999, 12, 31));
}

#[test]
fn consecutive_day_numbers_are_consecutive_days() {
    let mut last = civil_from_days(-1_000_000);
    for z in -999_999..=1_000_000 {
        let next = civil_from_days(z);
        assert!(next > last);
        assert!(next.2 == last.2 + 1 || next.2 == 1);
        last = next;
    }
}

#[test]
fn serials_of_both_date_systems() {
    assert_eq!(excel_serial_day_to_ymd(1, false), (1900, 1, 1));
    assert_eq!(excel_serial_day_to_ymd(59, false), (1900, 2, 28));
    assert_eq!(excel_serial_day_to_ymd(60, false), (1900, 2, 29));
    assert_eq!(excel_serial_day_to_ymd(61, false), (1900, 3, 1));
    assert_eq!(excel_serial_day_to_ymd(0, false), (1899, 12, 30));
    assert_eq!(excel_serial_day_to_ymd(0, true), (1904, 1, 1));
    assert_eq!(excel_serial_day_to_ymd(60, true), (1904, 3, 1));
    for serial in [61, 45_000, 2_958_465] {
        assert_eq!(
            excel_serial_day_to_ymd(serial, false),
            excel_serial_day_to_ymd(serial - 1462, true)
        );
    }
}

#[test]
fn a_fraction_that_rounds_up_to_a_day_is_the_next_midnight() {
    let at = |day, seconds| serial_to_date_time(SerialParts { day, seconds }, false);
    assert_eq!(
        at(45_000, 86_399),
        DateTimeValue { year: 2023, month: 3, day: 15, hour: 23, minute: 59, second: 59 }
    );
    assert_eq!(
        at(45_000, 86_400),
        DateTimeValue { year: 2023, month: 3, day: 16, hour: 0, minute: 0, second: 0 }
    );
    assert_eq!(at(59, 86_400).day, 29);
}

#[test]
fn iso_dates_and_times_are_read() {
    let read = |s: &str| parse_iso8601_datetime(s, "xl/sheet.xml", false).unwrap();
    assert_eq!(
        read("2021-10-10T13:05:09.75Z"),
        DateTimeValue { year: 2021, month: 10, day: 10, hour: 13, minute: 5, second: 9 }
    );
    assert_eq!(
        read("2021-10-10"),
        DateTimeValue { year: 2021, month: 10, day: 10, hour: 0, minute: 0, second: 0 }
    );
    assert_eq!(
        read("10:11:12"),
        DateTimeValue { year: 1899, month: 12, day: 30, hour: 10, minute: 11, second: 12 }
    );
    for s in ["", "2021", "2021-10", "2021-13-01", "2021-10-10T", "10", "x:y"] {
        match parse_iso8601_datetime(s, "xl/sheet.xml", false) {
            Err(Error::InvalidPackage(m)) => assert!(m.contains(&format!("{s:?}")), "{m}"),
            other => panic!("{s:?}: {other:?}"),
        }
    }
}

#[test]
fn format_codes_show_dates_by_their_letters() {
    for code in ["yyyy/m/d", "h:mm", "[h]:mm:ss", "d", "S", "[Red]m"] {
        assert!(contains_date_time_token(code), "{code}");
    }
    for code in ["0.00", "General", "\"days\" 0", "[Red]0", "\\d0", "#,##0"] {
        assert!(!contains_date_time_token(code), "{code}");
    }
}

#[test]
fn builtin_formats_decide_without_a_code() {
    for id in [14, 15, 22, 45, 47] {
        assert!(is_date_time_format(id, None), "{id}");
    }
    for id in [0, 1, 10, 49] {
        assert!(!is_date_time_format(id, None), "{id}");
    }
    assert!(is_date_time_format(164, Some("yyyy")));
    assert!(!is_date_time_format(164, None));
    assert_eq!(builtin_format(0), None);
    assert_eq!(builtin_format(1), Some("0"));
    assert_eq!(builtin_format(9), Some("0%"));
    assert_eq!(builtin_format(49), Some("@"));
    assert_eq!(builtin_format(163), None);
}
