use clockin::dates::day_of_ymd;
use clockin::histogram::{histogram, HistogramError};
use clockin::parser::NaiveSession;

fn sub(start: i64, end: i64) -> NaiveSession {
    NaiveSession { start, end, description: String::new() }
}

#[test]
fn full_day_fills_every_slot() {
    let m = day_of_ymd(2000, 1, 1).unwrap() * 86400;
    // One sub-session lasting exactly one full day.
    let subs = vec![sub(m, m + 86400)];
    let h = histogram(&subs, 3600).unwrap();
    assert_eq!(h.slots.len(), 24);
    for s in &h.slots {
        assert_eq!(*s, 3600);
    }
    assert_eq!(h.total, 86400);
}

#[test]
fn midnight_end_credits_last_slot() {
    let m = day_of_ymd(2000, 1, 1).unwrap() * 86400;
    // Ends exactly at midnight: the last slot gets its full worth.
    let subs = vec![sub(m + 82800, m + 86400)];
    let h = histogram(&subs, 3600).unwrap();
    assert_eq!(h.slots[23], 3600);
    assert_eq!(h.slots[22], 0);
    assert_eq!(h.total, 3600);
}

#[test]
fn partial_overlap_is_clipped() {
    let m = day_of_ymd(2000, 1, 1).unwrap() * 86400;
    // From 01:30 to 02:15, with hour-wide slots.
    let subs = vec![sub(m + 5400, m + 8100)];
    let h = histogram(&subs, 3600).unwrap();
    assert_eq!(h.slots[0], 0);
    assert_eq!(h.slots[1], 1800);
    assert_eq!(h.slots[2], 900);
    assert_eq!(h.slots[3], 0);
    assert_eq!(h.total, 2700);
}

#[test]
fn days_superpose_on_one_axis() {
    let m = day_of_ymd(2000, 1, 1).unwrap() * 86400;
    // The same morning hour on two different days lands in one slot.
    let subs = vec![sub(m + 32400, m + 36000), sub(m + 86400 + 32400, m + 86400 + 36000)];
    let h = histogram(&subs, 3600).unwrap();
    assert_eq!(h.slots[9], 7200);
    assert_eq!(h.total, 7200);
}

#[test]
fn invalid_slot_width_is_rejected() {
    let subs: Vec<NaiveSession> = vec![];
    assert!(matches!(histogram(&subs, 0), Err(HistogramError::InvalidSlotWidth)));
    assert!(matches!(histogram(&subs, -60), Err(HistogramError::InvalidSlotWidth)));
    // Seven seconds do not divide a day evenly.
    assert!(matches!(histogram(&subs, 7), Err(HistogramError::InvalidSlotWidth)));
    assert!(histogram(&subs, 1800).is_ok());
}
