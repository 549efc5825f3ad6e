use clockin::parser::{
    get_last_session_status, is_macro_line, parse_sessions, LogParseError, SessionIterator,
    SessionStatus, SessionTZ, Zoned,
};

fn lines(v: &[&str]) -> Vec<String> {
    v.iter().map(|s| s.to_string()).collect()
}

fn now(epoch: i64) -> Zoned {
    Zoned { epoch, offset: 0 }
}

#[test]
fn parses_one_closed_session() {
    let log = lines(&[
        "some junk before",
        "%-2000-01-01T08:00:00+00:00",
        "worked on stuff",
        "",
        "%+2000-01-01T10:00:00+00:00",
    ]);
    let sessions = parse_sessions(log, now(1_000_000_000)).unwrap();
    assert_eq!(sessions.len(), 1);
    assert_eq!(sessions[0].start.epoch, 946_713_600);
    assert_eq!(sessions[0].start.offset, 0);
    assert_eq!(sessions[0].end.epoch, 946_720_800);
    assert_eq!(sessions[0].description, "worked on stuff");
}

#[test]
fn parses_timestamp_offset() {
    let log = lines(&["%-2000-01-01T12:00:00+02:00", "%+2000-01-01T13:00:00+02:00"]);
    let sessions = parse_sessions(log, now(1_000_000_000)).unwrap();
    assert_eq!(sessions[0].start.epoch, 946_720_800);
    assert_eq!(sessions[0].start.offset, 7200);
    assert_eq!(sessions[0].duration(), 3600);
}

#[test]
fn naive_local_uses_start_offset() {
    let s = SessionTZ {
        start: Zoned { epoch: 946_720_800, offset: 7200 },
        end: Zoned { epoch: 946_724_400, offset: 0 },
        description: String::from("x"),
    };
    // The end instant is read with the start's offset.
    let naive = s.naive_local();
    assert_eq!(naive.start, 946_728_000);
    assert_eq!(naive.end, 946_731_600);
    assert_eq!(naive.description, "x");
    let s2 = SessionTZ {
        start: Zoned { epoch: 100, offset: 3600 },
        end: Zoned { epoch: 200, offset: 3600 },
        description: String::new(),
    };
    let shifted = s2.with_timezone(0);
    assert_eq!(shifted.start.epoch, 100);
    assert_eq!(shifted.start.offset, 0);
    assert_eq!(shifted.end.offset, 0);
}

#[test]
fn open_session_ends_now() {
    let log = || lines(&["%-2000-01-01T08:00:00+00:00", "unfinished work"]);
    let early = parse_sessions(log(), now(946_713_700)).unwrap();
    assert_eq!(early.len(), 1);
    assert_eq!(early[0].end.epoch, 946_713_700);
    assert!(early[0].start.epoch <= early[0].end.epoch);
    assert_eq!(early[0].description, "unfinished work");
    // Re-parsing later yields a longer open session.
    let late = parse_sessions(log(), now(946_717_200)).unwrap();
    assert_eq!(late[0].end.epoch, 946_717_200);
    assert!(late[0].end.epoch > early[0].end.epoch);
}

#[test]
fn malformed_timestamp_aborts() {
    let log = lines(&["%-not a timestamp"]);
    assert!(matches!(
        parse_sessions(log, now(0)),
        Err(LogParseError::MalformedTimestamp)
    ));
    let log2 = lines(&["%-2000-01-01T08:00:00+00:00", "%+broken"]);
    assert!(matches!(
        parse_sessions(log2, now(0)),
        Err(LogParseError::MalformedTimestamp)
    ));
}

#[test]
fn junk_before_first_marker_is_skipped() {
    let log = lines(&["%+2000-01-01T09:00:00+00:00", "noise", ""]);
    let sessions = parse_sessions(log, now(0)).unwrap();
    assert_eq!(sessions.len(), 0);
}

#[test]
fn start_marker_inside_body_is_description() {
    let log = lines(&[
        "%-2000-01-01T08:00:00+00:00",
        "%-2000-01-01T09:00:00+00:00",
        "%+2000-01-01T10:00:00+00:00",
    ]);
    let sessions = parse_sessions(log, now(0)).unwrap();
    assert_eq!(sessions.len(), 1);
    assert_eq!(sessions[0].description, "%-2000-01-01T09:00:00+00:00");
}

#[test]
fn iterator_yields_sessions_in_order() {
    let log = lines(&[
        "%-2000-01-01T08:00:00+00:00",
        "a",
        "%+2000-01-01T09:00:00+00:00",
        "%-2000-01-01T10:00:00+00:00",
        "b",
        "%+2000-01-01T11:00:00+00:00",
    ]);
    let mut it = SessionIterator::new(log, now(0));
    let first = it.next_session().unwrap().unwrap();
    assert_eq!(first.description, "a");
    let second = it.next_session().unwrap().unwrap();
    assert_eq!(second.description, "b");
    assert!(first.end.epoch <= second.start.epoch);
    assert!(it.next_session().unwrap().is_none());
}

#[test]
fn macro_line_prefix() {
    assert!(is_macro_line("%-2000", '-'));
    assert!(!is_macro_line("%-2000", '+'));
    assert!(is_macro_line("%+x", '+'));
    assert!(!is_macro_line("-2000", '-'));
    assert!(!is_macro_line("%", '-'));
    assert!(!is_macro_line("", '-'));
}

#[test]
fn last_session_status() {
    assert_eq!(
        get_last_session_status(&lines(&[])),
        SessionStatus::Finished
    );
    assert_eq!(
        get_last_session_status(&lines(&["junk", "%-2000-01-01T08:00:00+00:00", "work"])),
        SessionStatus::Started
    );
    assert_eq!(
        get_last_session_status(&lines(&[
            "%-2000-01-01T08:00:00+00:00",
            "work",
            "%+2000-01-01T09:00:00+00:00",
        ])),
        SessionStatus::Finished
    );
}
