use clockin::dates::day_of_ymd;
use clockin::parser::NaiveSession;

fn dt(year: i32, month: u32, day: u32, h: i64, m: i64, s: i64) -> i64 {
    let d = day_of_ymd(year, month, day).unwrap();
    d * 86400 + h * 3600 + m * 60 + s
}

fn sess(from: i64, to: i64) -> NaiveSession {
    NaiveSession { start: from, end: to, description: String::new() }
}

#[test]
fn split_at_days() {
    assert_eq!(
        sess(dt(2000, 1, 1, 0, 0, 0), dt(2000, 1, 2, 0, 0, 1)).split_at_days(),
        vec![
            sess(dt(2000, 1, 1, 0, 0, 0), dt(2000, 1, 2, 0, 0, 0)),
            sess(dt(2000, 1, 2, 0, 0, 0), dt(2000, 1, 2, 0, 0, 1))
        ],
    );

    assert_eq!(
        sess(dt(2000, 1, 1, 0, 0, 0), dt(2000, 1, 2, 0, 0, 0)).split_at_days(),
        vec![sess(dt(2000, 1, 1, 0, 0, 0), dt(2000, 1, 2, 0, 0, 0))],
    );

    assert_eq!(
        sess(dt(2000, 1, 1, 12, 0, 0), dt(2000, 1, 3, 12, 0, 0)).split_at_days(),
        vec![
            sess(dt(2000, 1, 1, 12, 0, 0), dt(2000, 1, 2, 0, 0, 0)),
            sess(dt(2000, 1, 2, 0, 0, 0), dt(2000, 1, 3, 0, 0, 0)),
            sess(dt(2000, 1, 3, 0, 0, 0), dt(2000, 1, 3, 12, 0, 0)),
        ],
    );
}

#[test]
fn split_keeps_description() {
    let s = NaiveSession {
        start: dt(2000, 1, 1, 23, 0, 0),
        end: dt(2000, 1, 2, 1, 0, 0),
        description: String::from("late work"),
    };
    let parts = s.split_at_days();
    assert_eq!(parts.len(), 2);
    assert_eq!(parts[0].description, "late work");
    assert_eq!(parts[1].description, "late work");
    assert_eq!(parts[0].end, parts[1].start);
}

#[test]
fn split_empty_session_yields_nothing() {
    let t = dt(2000, 1, 1, 12, 0, 0);
    assert_eq!(sess(t, t).split_at_days(), vec![]);
}

#[test]
fn calendar_day_roundtrip() {
    // 1970-01-01 is day zero and was a Thursday (Monday = 0).
    assert_eq!(day_of_ymd(1970, 1, 1).unwrap(), 0);
    assert_eq!(clockin::dates::weekday_of_day(0), 3);
    assert_eq!(clockin::dates::monday_of_day(0), -3);
    // 2000-01-01 is 10957 days after the epoch.
    assert_eq!(day_of_ymd(2000, 1, 1).unwrap(), 10957);
    assert_eq!(clockin::dates::midnight_of(10957), 946684800);
    assert_eq!(clockin::dates::civil_day(946684800 + 43200), 10957);
    assert_eq!(clockin::dates::civil_tod(946684800 + 43200), 43200);
    let (y, m0, d0) = clockin::dates::ymd_of_day(10957).unwrap();
    assert_eq!((y, m0, d0), (2000, 0, 0));
    // An invalid civil date has no day number.
    assert!(day_of_ymd(2000, 2, 30).is_none());
    assert!(day_of_ymd(2000, 13, 1).is_none());
}
