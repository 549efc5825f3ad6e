use clockin::binnacle::process;
use clockin::binnacle_body_parser::parse;
use clockin::dates::day_of_ymd;
use clockin::parser::{SessionTZ, Zoned};

fn session(start: i64, end: i64, desc: &str) -> SessionTZ {
    SessionTZ {
        start: Zoned { epoch: start, offset: 0 },
        end: Zoned { epoch: end, offset: 0 },
        description: String::from(desc),
    }
}

#[test]
fn body_parse_splits_at_first_separator() {
    let b = parse("proj: fix bug").unwrap();
    assert_eq!(b.sub_project, Some("proj"));
    assert_eq!(b.subject, "fix bug");

    let b = parse("fix bug").unwrap();
    assert_eq!(b.sub_project, None);
    assert_eq!(b.subject, "fix bug");

    let b = parse("a: b: c").unwrap();
    assert_eq!(b.sub_project, Some("a"));
    assert_eq!(b.subject, "b: c");
}

#[test]
fn body_parse_edge_cases() {
    let b = parse("").unwrap();
    assert_eq!(b.sub_project, None);
    assert_eq!(b.subject, "");

    let b = parse(": leading").unwrap();
    assert_eq!(b.sub_project, Some(""));
    assert_eq!(b.subject, "leading");

    // A colon without a following space is not a separator.
    let b = parse("a:b").unwrap();
    assert_eq!(b.sub_project, None);
    assert_eq!(b.subject, "a:b");
}

#[test]
fn body_to_owned_keeps_parts() {
    let b = parse("proj: task").unwrap().to_owned();
    assert_eq!(b.sub_project.as_deref(), Some("proj"));
    assert_eq!(b.subject, "task");
}

#[test]
fn process_groups_and_sorts_categories() {
    let m = day_of_ymd(2000, 1, 1).unwrap() * 86400;
    let sessions = vec![
        session(m + 1000, m + 2000, "beta: second"),
        session(m + 3000, m + 4000, "alfa: first"),
        session(m + 5000, m + 6000, "no category here"),
        session(m + 7000, m + 8000, "alfa: first"),
        session(m + 9000, m + 9500, "alfa: another"),
    ];
    let offsets = vec![0, 0, 0, 0, 0];
    let data = process(&sessions, &offsets).unwrap();
    assert_eq!(data.months.len(), 1);
    let month = &data.months[0];
    assert_eq!(month.id.year, 2000);
    assert_eq!(month.id.month, 0);
    assert_eq!(month.total_time, 4500);
    assert_eq!(month.days.len(), 1);
    let day = &month.days[0];
    assert_eq!(day.date, 10957);
    let names: Vec<&str> = day
        .sub_projects
        .iter()
        .map(|g| g.sub_project_name.as_str())
        .collect();
    // Categories come sorted by name; the uncategorized label sorts last
    // here.
    assert_eq!(names, vec!["alfa", "beta", "sin categoría"]);
    let alfa = &day.sub_projects[0];
    assert_eq!(alfa.info.total_time, 2500);
    // The repeated subject is kept once.
    let subjects: Vec<&str> = alfa.info.tasks.iter().map(|t| t.subject.as_str()).collect();
    assert_eq!(subjects, vec!["first", "another"]);
    let uncat = &day.sub_projects[2];
    assert_eq!(uncat.info.tasks[0].subject, "no category here");
}

#[test]
fn process_rejects_days_outside_calendar() {
    // Within the library's timestamp bound but beyond the calendar's
    // roughly 262000-year span.
    let far = 9_900_000_000_000i64;
    let sessions = vec![session(far, far + 100, "x: y")];
    let offsets = vec![0];
    assert!(matches!(
        process(&sessions, &offsets),
        Err(clockin::binnacle::BinnacleError::DateOutOfRange)
    ));
}

#[test]
fn process_splits_months_and_days() {
    let jan31 = day_of_ymd(2000, 1, 31).unwrap() * 86400;
    let sessions = vec![
        session(jan31 + 43200, jan31 + 86400 + 43200, "x: across months"),
        session(jan31 + 86400 + 50000, jan31 + 86400 + 51000, "y: feb only"),
    ];
    let offsets = vec![0, 0];
    let data = process(&sessions, &offsets).unwrap();
    assert_eq!(data.months.len(), 2);
    assert_eq!(data.months[0].id.month, 0);
    assert_eq!(data.months[0].total_time, 43200);
    assert_eq!(data.months[1].id.month, 1);
    assert_eq!(data.months[1].total_time, 43200 + 1000);
    assert_eq!(data.months[0].days.len(), 1);
    assert_eq!(data.months[1].days.len(), 1);
    assert_eq!(data.months[1].days[0].sub_projects.len(), 2);
}
