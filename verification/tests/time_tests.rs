use rust_game_common::utility::time::{clock_time, minutes_until};

#[test]
fn clock_wraps_after_a_day() {
    // 8 o'clock start, 25 game hours later: 9:00
    assert_eq!(clock_time(8, 25 * 3600), (9, 0));
    assert_eq!(clock_time(8, 0), (8, 0));
    assert_eq!(clock_time(23, 59 * 60 + 59), (23, 59));
    assert_eq!(clock_time(23, 3600), (0, 0));
}

#[test]
fn skipping_to_a_time_of_day() {
    // from 8:00 to 10:30 the same day
    let d1 = minutes_until(8, 0, 10, 30);
    assert_eq!(d1, 150);
    assert_eq!(clock_time(8, d1 as u64 * 60), (10, 30));
    // from 10:30 to 8:15 the next day
    let d2 = minutes_until(10, 30, 8, 15);
    assert_eq!(d2, 1305);
    assert_eq!(clock_time(8, (d1 + d2) as u64 * 60), (8, 15));
    // the same time of day means a full day ahead
    assert_eq!(minutes_until(6, 45, 6, 45), 1440);
}
