use clockin::format_util::{
    fmt_duration, fmt_duration_uncertain, fmt_hours_mins, fmt_month, fmt_weekday,
};
use clockin::summary::MonthId;
use clockin::text::{str_le, trim_end_str};

#[test]
fn duration_formatting() {
    assert_eq!(fmt_duration(0), "00:00:00");
    assert_eq!(fmt_duration(3661), "01:01:01");
    assert_eq!(fmt_duration(59), "00:00:59");
    assert_eq!(fmt_duration(86399), "23:59:59");
    // Hours grow beyond two digits.
    assert_eq!(fmt_duration(100 * 3600 + 2 * 60 + 3), "100:02:03");
}

#[test]
fn duration_uncertain_formatting() {
    assert_eq!(fmt_duration_uncertain(3661, true), "01:01:01");
    assert_eq!(fmt_duration_uncertain(3661, false), "01:01:01 (incompleto)");
}

#[test]
fn month_formatting() {
    assert_eq!(fmt_month(MonthId::new(2024, 0)), "Enero 2024");
    assert_eq!(fmt_month(MonthId::new(1999, 11)), "Diciembre 1999");
    assert_eq!(fmt_month(MonthId::new(2000, 8)), "Septiembre 2000");
}

#[test]
fn weekday_formatting() {
    assert_eq!(fmt_weekday(0), "Lunes");
    assert_eq!(fmt_weekday(2), "Miércoles");
    assert_eq!(fmt_weekday(6), "Domingo");
}

#[test]
fn hours_mins_formatting() {
    assert_eq!(fmt_hours_mins(0), "00:00");
    assert_eq!(fmt_hours_mins(3 * 3600 + 30 * 60), "03:30");
    assert_eq!(fmt_hours_mins(86399), "23:59");
}

#[test]
fn trim_end_removes_trailing_whitespace() {
    assert_eq!(trim_end_str("abc  \n\t "), "abc");
    assert_eq!(trim_end_str("  abc"), "  abc");
    assert_eq!(trim_end_str("\n\n"), "");
    assert_eq!(trim_end_str(""), "");
    assert_eq!(trim_end_str("a b"), "a b");
}

#[test]
fn string_order_is_lexicographic() {
    assert!(str_le("alfa", "beta"));
    assert!(!str_le("beta", "alfa"));
    assert!(str_le("a", "ab"));
    assert!(!str_le("ab", "a"));
    assert!(str_le("same", "same"));
    assert!(str_le("", "x"));
}
