use oncall::range::ClosedRange;
use oncall::time::{day_number, hms, local_datetime, weekday_of_day, TimeOfDay, TimeOfDayDuration, Weekday};

const EST: i32 = -4 * 3600;

/// The instant of a local wall-clock time in a zone `offset` seconds east of UTC.
fn zoned(year: i32, month: u32, day: u32, hour: u32, offset: i32) -> i64 {
    local_datetime(year, month, day, hms(hour, 0, 0)).unwrap() - offset as i64
}

fn day(year: i32, month: u32, d: u32) -> i64 {
    day_number(year, month, d).unwrap()
}

#[test]
fn test_time_of_day() {
    let t1 = hms(9, 0, 0);
    let d1 = day(2020, 6, 1);
    let est = EST;
    let nine_daily = TimeOfDay::new_tod(t1, None);
    let until = zoned(2020, 6, 3, 9, est) + 1;
    assert_eq!(
        nine_daily.to_succ(d1, est, until),
        vec![zoned(2020, 6, 1, 9, est), zoned(2020, 6, 2, 9, est), zoned(2020, 6, 3, 9, est)]
    );
}

#[test]
fn test_time_of_day_2() {
    let t1 = hms(9, 0, 0);
    let d1 = day(2020, 6, 1);
    let est = EST;
    let nine_daily = TimeOfDay::new_tod(t1, Some(Weekday::Wed));
    let until = zoned(2020, 6, 17, 9, est) + 1;
    assert_eq!(
        nine_daily.to_succ(d1, est, until),
        vec![zoned(2020, 6, 3, 9, est), zoned(2020, 6, 10, 9, est), zoned(2020, 6, 17, 9, est)]
    );
}

#[test]
fn test_time_of_day_3() {
    let t1 = hms(9, 0, 0);
    let d1 = day(2020, 5, 28);
    let est = EST;
    let nine_daily = TimeOfDay::new_tod(t1, Some(Weekday::Wed));
    let until = zoned(2020, 6, 17, 9, est) + 1;
    assert_eq!(
        nine_daily.to_succ(d1, est, until),
        vec![zoned(2020, 6, 3, 9, est), zoned(2020, 6, 10, 9, est), zoned(2020, 6, 17, 9, est)]
    );
}

#[test]
fn test_time_of_day_duration_1() {
    let t1 = hms(9, 0, 0);
    let t2 = hms(17, 0, 0);
    let dt1 = local_datetime(2020, 5, 28, t1).unwrap();
    let est = EST;
    let nine = TimeOfDay::new_tod(t1, Some(Weekday::Wed));
    let five = TimeOfDay::new_tod(t2, Some(Weekday::Wed));
    let todd = TimeOfDayDuration::new_todd(nine, five);
    let until = zoned(2020, 6, 17, 9, est) + 1;
    assert_eq!(
        todd.to_iter(dt1, est, until),
        vec![
            ClosedRange { start: zoned(2020, 6, 3, 9, est), end: zoned(2020, 6, 3, 17, est) },
            ClosedRange { start: zoned(2020, 6, 10, 9, est), end: zoned(2020, 6, 10, 17, est) },
            ClosedRange { start: zoned(2020, 6, 17, 9, est), end: zoned(2020, 6, 17, 17, est) },
        ]
    );
}

#[test]
fn calendar_dates_become_day_numbers() {
    assert_eq!(day_number(1970, 1, 1), Some(0));
    assert_eq!(day_number(2020, 6, 1), Some(18414));
    assert_eq!(day_number(1969, 12, 31), Some(-1));
    assert_eq!(day_number(2020, 2, 30), None);
    assert_eq!(local_datetime(2020, 6, 1, hms(9, 0, 0)), Some(18414 * 86400 + 9 * 3600));
}

#[test]
fn weekdays_of_known_dates() {
    assert_eq!(weekday_of_day(day(2020, 6, 1)), 0); // Monday
    assert_eq!(weekday_of_day(day(2020, 6, 3)), 2); // Wednesday
    assert_eq!(weekday_of_day(day(1970, 1, 1)), 3); // Thursday
    assert_eq!(weekday_of_day(day(1969, 12, 28)), 6); // Sunday
    assert_eq!(Weekday::Sun.num_days_from_monday(), 6);
}

#[test]
fn weekly_rule_starting_on_its_day() {
    let mon9 = TimeOfDay::new_tod(hms(9, 0, 0), Some(Weekday::Mon));
    let until = zoned(2020, 6, 15, 9, 0) + 1;
    assert_eq!(
        mon9.to_succ(day(2020, 6, 1), 0, until),
        vec![zoned(2020, 6, 1, 9, 0), zoned(2020, 6, 8, 9, 0), zoned(2020, 6, 15, 9, 0)]
    );
}

#[test]
fn weekly_rule_starting_before_its_day() {
    let wed9 = TimeOfDay::new_tod(hms(9, 0, 0), Some(Weekday::Wed));
    let until = zoned(2020, 6, 30, 0, 0);
    let succ = wed9.to_succ(day(2020, 6, 1), 0, until);
    assert_eq!(succ[0], zoned(2020, 6, 3, 9, 0));
    assert_eq!(succ.len(), 4);
}

#[test]
fn weekly_rule_wraps_to_next_week() {
    let mon9 = TimeOfDay::new_tod(hms(9, 0, 0), Some(Weekday::Mon));
    let until = zoned(2020, 6, 9, 0, EST);
    assert_eq!(mon9.to_succ(day(2020, 6, 3), EST, until), vec![zoned(2020, 6, 8, 9, EST)]);
}

#[test]
fn nothing_before_first_occurrence() {
    let mon9 = TimeOfDay::new_tod(hms(9, 0, 0), None);
    let until = zoned(2020, 6, 1, 9, EST);
    assert_eq!(mon9.to_succ(day(2020, 6, 1), EST, until), Vec::<i64>::new());
}

#[test]
fn window_holding_now_starts_at_now() {
    let todd = TimeOfDayDuration::new_todd(
        TimeOfDay::new_tod(hms(9, 0, 0), Some(Weekday::Wed)),
        TimeOfDay::new_tod(hms(17, 0, 0), Some(Weekday::Wed)),
    );
    let now = local_datetime(2020, 6, 3, hms(12, 0, 0)).unwrap();
    let until = zoned(2020, 6, 10, 9, EST) + 1;
    assert_eq!(
        todd.to_iter(now, EST, until),
        vec![
            ClosedRange { start: zoned(2020, 6, 3, 12, EST), end: zoned(2020, 6, 3, 17, EST) },
            ClosedRange { start: zoned(2020, 6, 10, 9, EST), end: zoned(2020, 6, 10, 17, EST) },
        ]
    );
}

#[test]
fn end_sequence_is_aligned_after_start() {
    // Every day from 22:00 to 06:00 the next morning.
    let todd = TimeOfDayDuration::new_todd(TimeOfDay::new_tod(hms(22, 0, 0), None), TimeOfDay::new_tod(hms(6, 0, 0), None));
    let now = local_datetime(2020, 6, 1, 0).unwrap();
    let until = zoned(2020, 6, 2, 22, 0) + 1;
    assert_eq!(
        todd.to_iter(now, 0, until),
        vec![
            ClosedRange { start: zoned(2020, 6, 1, 22, 0), end: zoned(2020, 6, 2, 6, 0) },
            ClosedRange { start: zoned(2020, 6, 2, 22, 0), end: zoned(2020, 6, 3, 6, 0) },
        ]
    );
}

#[test]
fn mismatched_steps_skip_pairs_ending_before_they_start() {
    // Starts on Mondays at 09:00, ends every day at 17:00.
    let todd = TimeOfDayDuration::new_todd(
        TimeOfDay::new_tod(hms(9, 0, 0), Some(Weekday::Mon)),
        TimeOfDay::new_tod(hms(17, 0, 0), None),
    );
    let now = local_datetime(2020, 6, 1, 0).unwrap();
    let until = zoned(2020, 6, 20, 0, 0);
    assert_eq!(
        todd.to_iter(now, 0, until),
        vec![ClosedRange { start: zoned(2020, 6, 1, 9, 0), end: zoned(2020, 6, 1, 17, 0) }]
    );
}

#[test]
fn calendar_edge_dates() {
    assert_eq!(day_number(2020, 2, 29), Some(18321));
    assert_eq!(day_number(2019, 2, 29), None);
    assert_eq!(day_number(2000, 2, 29), Some(11016));
    assert_eq!(day_number(1900, 2, 29), None);
    assert_eq!(day_number(2020, 13, 1), None);
    assert_eq!(day_number(2020, 4, 31), None);
    assert_eq!(day_number(2020, 1, 0), None);
    assert_eq!(day_number(1, 1, 1), Some(1 - 719163));
    assert_eq!(day_number(262142, 12, 31).map(|d| d > 0), Some(true));
    assert_eq!(day_number(262143, 1, 1), None);
    assert_eq!(day_number(-262143, 1, 1).map(|d| d < 0), Some(true));
    assert_eq!(day_number(-262144, 12, 31), None);
}

#[test]
fn windows_start_at_now_inside_and_keep_their_order() {
    let todd = TimeOfDayDuration::new_todd(TimeOfDay::new_tod(hms(9, 0, 0), None), TimeOfDay::new_tod(hms(17, 0, 0), None));
    let now = local_datetime(2020, 6, 1, hms(10, 0, 0)).unwrap();
    let until = zoned(2020, 6, 3, 9, EST) + 1;
    assert_eq!(
        todd.to_iter(now, EST, until),
        vec![
            ClosedRange { start: zoned(2020, 6, 1, 10, EST), end: zoned(2020, 6, 1, 17, EST) },
            ClosedRange { start: zoned(2020, 6, 2, 9, EST), end: zoned(2020, 6, 2, 17, EST) },
            ClosedRange { start: zoned(2020, 6, 3, 9, EST), end: zoned(2020, 6, 3, 17, EST) },
        ]
    );
}
