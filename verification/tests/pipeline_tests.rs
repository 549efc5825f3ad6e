use clockin::parser::{parse_sessions, Zoned};
use clockin::summary::{summarize_input_ok, DateBound, Summary};

fn lines(v: &[&str]) -> Vec<String> {
    v.iter().map(|s| s.to_string()).collect()
}

#[test]
fn log_to_summary_pipeline() {
    // Two sessions on 2000-01-01 UTC, one crossing into the next day.
    let log = lines(&[
        "%-2000-01-01T08:00:00+00:00",
        "proj: morning work",
        "%+2000-01-01T10:00:00+00:00",
        "",
        "%-2000-01-01T23:00:00+00:00",
        "proj: night work",
        "%+2000-01-02T01:00:00+00:00",
    ]);
    let now = Zoned { epoch: 2_000_000_000, offset: 0 };
    let sessions = parse_sessions(log, now).unwrap();
    assert_eq!(sessions.len(), 2);
    let offsets = vec![0i32; sessions.len()];
    assert!(summarize_input_ok(&sessions, &offsets));
    let summary = Summary::summarize(&sessions, &offsets);
    assert_eq!(summary.days.len(), 2);
    // 2 h in the morning plus 1 h before midnight.
    assert_eq!(summary.days[0].day.duration, 3 * 3600);
    // 1 h after midnight.
    assert_eq!(summary.days[1].day.duration, 3600);
    // Split-then-sum is lossless: 4 h in total.
    assert_eq!(
        summary.duration(DateBound::Unbounded, DateBound::Unbounded),
        4 * 3600
    );
}

#[test]
fn pipeline_with_offset_timezone() {
    // The same instants read one hour east: the midnight cut moves.
    let log = lines(&[
        "%-2000-01-01T23:00:00+00:00",
        "late",
        "%+2000-01-02T01:00:00+00:00",
    ]);
    let now = Zoned { epoch: 2_000_000_000, offset: 0 };
    let sessions = parse_sessions(log, now).unwrap();
    let offsets = vec![3600i32];
    assert!(summarize_input_ok(&sessions, &offsets));
    let summary = Summary::summarize(&sessions, &offsets);
    // Read at +01:00 the session runs from 00:00 to 02:00, one local day.
    assert_eq!(summary.days.len(), 1);
    assert_eq!(summary.days[0].day.duration, 2 * 3600);
}

#[test]
fn chronological_log_yields_ordered_sessions() {
    let log = lines(&[
        "%-2000-01-01T08:00:00+00:00",
        "a",
        "%+2000-01-01T09:00:00+00:00",
        "%-2000-01-01T10:00:00+00:00",
        "b",
    ]);
    let now = Zoned { epoch: 946_724_400, offset: 0 };
    let sessions = parse_sessions(log, now).unwrap();
    for s in &sessions {
        assert!(s.start.epoch <= s.end.epoch);
    }
    for w in sessions.windows(2) {
        assert!(w[0].end.epoch <= w[1].start.epoch);
    }
}
