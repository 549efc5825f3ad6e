use clockin::dates::day_of_ymd;
use clockin::parser::{SessionTZ, Zoned};
use clockin::summary::{
    filter_by_start_date, month_id, real_week, total_worked_seconds, DateBound, MonthId, Summary,
};

fn session(start: i64, end: i64, desc: &str) -> SessionTZ {
    SessionTZ {
        start: Zoned { epoch: start, offset: 0 },
        end: Zoned { epoch: end, offset: 0 },
        description: String::from(desc),
    }
}

fn midnight(year: i32, month: u32, day: u32) -> i64 {
    day_of_ymd(year, month, day).unwrap() * 86400
}

#[test]
fn summarize_groups_by_day() {
    let m = midnight(2000, 1, 1);
    let sessions = vec![
        session(m + 3600, m + 7200, "alpha"),
        session(m + 10800, m + 14400, "beta"),
        session(m + 86400 + 3600, m + 86400 + 5400, "gamma"),
    ];
    let offsets = vec![0, 0, 0];
    let summary = Summary::summarize(&sessions, &offsets);
    assert_eq!(summary.days.len(), 2);
    assert_eq!(summary.days[0].date, 10957);
    assert_eq!(summary.days[0].day.duration, 7200);
    assert_eq!(summary.days[1].date, 10958);
    assert_eq!(summary.days[1].day.duration, 1800);
    let mut descs: Vec<&str> = summary.days[0]
        .day
        .descriptions
        .iter()
        .map(|s| s.as_str())
        .collect();
    descs.sort();
    assert_eq!(descs, vec!["alpha", "beta"]);
}

#[test]
fn summarize_deduplicates_descriptions() {
    let m = midnight(2000, 1, 1);
    let sessions = vec![
        session(m + 3600, m + 7200, "same text"),
        session(m + 10800, m + 14400, "same text"),
        session(m + 18000, m + 21600, ""),
    ];
    let offsets = vec![0, 0, 0];
    let summary = Summary::summarize(&sessions, &offsets);
    assert_eq!(summary.days.len(), 1);
    // The empty description adds no entry; the repeated text only one.
    assert_eq!(summary.days[0].day.descriptions.len(), 1);
    assert_eq!(summary.days[0].day.descriptions[0], "same text");
    assert_eq!(summary.days[0].day.duration, 3600 * 3);
}

#[test]
fn split_then_sum_is_lossless() {
    // A midnight-crossing session: the summed day durations equal the
    // sessions' own durations.
    let m = midnight(2000, 1, 1);
    let sessions = vec![
        session(m + 43200, m + 2 * 86400 + 43200, "long"),
        session(m + 2 * 86400 + 50000, m + 2 * 86400 + 60000, "short"),
    ];
    let offsets = vec![0, 0];
    let total_input: u128 = (2 * 86400) + 10000;
    let summary = Summary::summarize(&sessions, &offsets);
    assert_eq!(
        summary.duration(DateBound::Unbounded, DateBound::Unbounded),
        total_input
    );
    assert_eq!(total_worked_seconds(&sessions) as u128, total_input);
}

#[test]
fn duration_respects_bounds() {
    let m = midnight(2000, 1, 1);
    let sessions = vec![
        session(m + 100, m + 200, "a"),
        session(m + 86400 + 100, m + 86400 + 300, "b"),
        session(m + 2 * 86400 + 100, m + 2 * 86400 + 500, "c"),
    ];
    let offsets = vec![0, 0, 0];
    let summary = Summary::summarize(&sessions, &offsets);
    let d0 = 10957;
    assert_eq!(summary.duration(DateBound::Unbounded, DateBound::Unbounded), 700);
    assert_eq!(
        summary.duration(DateBound::Included(d0 + 1), DateBound::Unbounded),
        600
    );
    assert_eq!(
        summary.duration(DateBound::Unbounded, DateBound::Included(d0 + 1)),
        300
    );
    assert_eq!(
        summary.duration(DateBound::Included(d0 + 1), DateBound::Included(d0 + 1)),
        200
    );
    assert_eq!(
        summary.duration(DateBound::Included(d0 + 3), DateBound::Unbounded),
        0
    );
}

#[test]
fn week_duration_covers_monday_to_sunday() {
    // 2000-01-03 was a Monday.
    let monday = day_of_ymd(2000, 1, 3).unwrap();
    let m = monday * 86400;
    let sessions = vec![
        session(m + 100, m + 200, "mon"),
        session(m + 6 * 86400 + 100, m + 6 * 86400 + 400, "sun"),
        session(m + 7 * 86400 + 100, m + 7 * 86400 + 900, "next mon"),
    ];
    let offsets = vec![0, 0, 0];
    let summary = Summary::summarize(&sessions, &offsets);
    let week = real_week(monday);
    assert_eq!(week.first_day(), monday);
    assert_eq!(summary.week_duration(week), 400);
}

#[test]
fn week_identity() {
    // Dates in the same week share a Monday and compare equal.
    let monday = day_of_ymd(2000, 1, 3).unwrap();
    let sunday = monday + 6;
    assert_eq!(real_week(monday), real_week(sunday));
    // A date a full week apart falls in a different week.
    assert_ne!(real_week(monday), real_week(monday + 7));
    assert_eq!(real_week(monday + 7).first_day(), monday + 7);
    // A Sunday and the following Monday never share a week.
    assert_ne!(real_week(sunday), real_week(sunday + 1));
}

#[test]
fn month_identity() {
    let jan1 = day_of_ymd(2000, 1, 1).unwrap();
    let m = month_id(jan1).unwrap();
    assert_eq!(m.year(), 2000);
    assert_eq!(m.month(), 0);
    assert_eq!(m.first_day().unwrap(), jan1);
    // January 2000 has 31 days.
    assert_eq!(m.last_day().unwrap(), jan1 + 30);
    // February 2000 was a leap month.
    let feb = MonthId::new(2000, 1);
    assert_eq!(
        feb.last_day().unwrap() - feb.first_day().unwrap(),
        28
    );
    // December rolls over to the next year.
    let dec = MonthId::new(1999, 11);
    assert_eq!(dec.last_day().unwrap(), jan1 - 1);
    assert_eq!(MonthId::new(2024, 5), MonthId::new(2024, 5));
    assert_ne!(MonthId::new(2024, 5), MonthId::new(2024, 6));
}

#[test]
fn input_check_detects_disorder() {
    let m = midnight(2000, 1, 1);
    let good = vec![session(m + 100, m + 200, "a"), session(m + 300, m + 400, "b")];
    assert!(clockin::summary::summarize_input_ok(&good, &vec![0, 0]));
    // Overlapping sessions are rejected.
    let overlapping = vec![session(m + 100, m + 500, "a"), session(m + 300, m + 600, "b")];
    assert!(!clockin::summary::summarize_input_ok(&overlapping, &vec![0, 0]));
    // A session ending before it starts is rejected.
    let backwards = vec![session(m + 500, m + 100, "a")];
    assert!(!clockin::summary::summarize_input_ok(&backwards, &vec![0]));
    // Mismatched lengths are rejected.
    assert!(!clockin::summary::summarize_input_ok(&good, &vec![0]));
}

#[test]
fn local_offsets_are_valid() {
    let m = midnight(2000, 1, 1);
    let sessions = vec![session(m + 100, m + 200, "a"), session(m + 300, m + 400, "b")];
    let offsets = clockin::parser::local_offsets(&sessions).unwrap();
    assert_eq!(offsets.len(), 2);
    for o in offsets {
        assert!(-86400 < o && o < 86400);
    }
}

#[test]
fn filter_by_date_range() {
    let m = midnight(2000, 1, 1);
    let sessions = vec![
        session(m + 100, m + 200, "a"),
        session(m + 86400 + 100, m + 86400 + 300, "b"),
        session(m + 2 * 86400 + 100, m + 2 * 86400 + 500, "c"),
    ];
    let kept = filter_by_start_date(
        &sessions,
        0,
        DateBound::Included(10958),
        DateBound::Included(10958),
    );
    assert_eq!(kept.len(), 1);
    assert_eq!(kept[0].description, "b");
    let all = filter_by_start_date(&sessions, 0, DateBound::Unbounded, DateBound::Unbounded);
    assert_eq!(all.len(), 3);
    assert_eq!(total_worked_seconds(&kept), 200);
    // A timezone offset can move a session to another local date.
    let near_midnight = vec![session(m + 86400 - 1800, m + 86400 + 1800, "edge")];
    let utc_day = filter_by_start_date(
        &near_midnight,
        0,
        DateBound::Included(10957),
        DateBound::Included(10957),
    );
    assert_eq!(utc_day.len(), 1);
    let shifted_day = filter_by_start_date(
        &near_midnight,
        3600,
        DateBound::Included(10958),
        DateBound::Included(10958),
    );
    assert_eq!(shifted_day.len(), 1);
}
