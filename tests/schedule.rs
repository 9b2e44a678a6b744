use oncall::range::{ClosedRange, OpenRange};
use oncall::schedule::{generate_schedule, merge_entries, merge_into, Entry, Schedule, ScheduleSlot};
use oncall::time::{hms, local_datetime, TimeOfDay, TimeOfDayDuration, Weekday};
use oncall::users::User;

const EST: i32 = -4 * 3600;

fn zoned(year: i32, month: u32, day: u32, hour: u32, offset: i32) -> i64 {
    local_datetime(year, month, day, hms(hour, 0, 0)).unwrap() - offset as i64
}

fn naive(year: i32, month: u32, day: u32) -> i64 {
    local_datetime(year, month, day, 0).unwrap()
}

fn user(id: &str, name: &str) -> User {
    User::new_user(id.to_owned(), "+12183957949".to_owned(), name.to_owned(), "+10000000000".to_owned())
}

fn entry(start: i64, end: i64, providers: Vec<User>) -> Entry {
    Entry { range: ClosedRange { start, end }, providers }
}

fn no_overlaps(entries: &[Entry]) -> bool {
    entries.iter().enumerate().all(|(i, a)| {
        entries.iter().enumerate().all(|(j, b)| i == j || a.range.end <= b.range.start || b.range.end <= a.range.start)
    })
}

fn has_entry(s: &Schedule, start: i64, end: i64, providers: &[User]) -> bool {
    s.entries.iter().any(|e| e.range.start == start && e.range.end == end && e.providers == providers)
}

#[test]
fn test_schedule() {
    let tobias = User::new_user(
        "1".to_owned(),
        "+12183957949".to_owned(),
        "Tobias Funke".to_owned(),
        "+19149543303".to_owned(),
    );
    let jeff = User::new_user(
        "2".to_owned(),
        "+12183957949".to_owned(),
        "Jeff Winger".to_owned(),
        "+19147251309".to_owned(),
    );
    let test_guy = User::new_user(
        "3".to_owned(),
        "+12183957949".to_owned(),
        "Test Guy".to_owned(),
        "+19143745558".to_owned(),
    );
    let test_guy2 = User::new_user(
        "4".to_owned(),
        "+12183957949".to_owned(),
        "Test Guy2".to_owned(),
        "+13473513315".to_owned(),
    );
    let june1 = naive(2020, 6, 1);
    let june30 = naive(2020, 6, 7);
    let june_range = OpenRange::new_open_range(&june1, &Some(june30));

    let everyday9 = TimeOfDay::new_tod(hms(9, 0, 0), None);
    let everyday5 = TimeOfDay::new_tod(hms(17, 0, 0), None);
    let everyday9to5 = TimeOfDayDuration::new_todd(everyday9, everyday5.clone());
    let slot1 = ScheduleSlot::new_schedule_slot(june_range.clone(), everyday9to5, vec![jeff.clone()]);

    let mon12 = TimeOfDay::new_tod(hms(12, 0, 0), Some(Weekday::Mon));
    let mon10 = TimeOfDay::new_tod(hms(22, 0, 0), Some(Weekday::Mon));
    let mon1210 = TimeOfDayDuration::new_todd(mon12, mon10);
    let slot2 = ScheduleSlot::new_schedule_slot(june_range.clone(), mon1210, vec![tobias.clone()]);

    let everyday10 = TimeOfDay::new_tod(hms(22, 0, 0), None);
    let everyday510 = TimeOfDayDuration::new_todd(everyday5, everyday10);
    let slot3 = ScheduleSlot::new_schedule_slot(
        june_range.clone(),
        everyday510,
        vec![test_guy.clone(), test_guy2.clone()],
    );

    let tue9 = TimeOfDay::new_tod(hms(9, 0, 0), Some(Weekday::Tue));
    let tue5 = TimeOfDay::new_tod(hms(17, 0, 0), Some(Weekday::Tue));
    let tue9to5 = TimeOfDayDuration::new_todd(tue9, tue5);
    let slot4 = ScheduleSlot::new_schedule_slot(june_range.clone(), tue9to5, vec![test_guy2.clone()]);
    let est = EST;

    let schedule = generate_schedule(
        vec![slot1, slot2, slot3, slot4],
        june1,
        june30,
        est,
        "+12183957949".to_owned(),
    );
    assert_eq!(schedule.group_id, "+12183957949");
    assert!(no_overlaps(&schedule.entries));
    assert_eq!(schedule.get_providers(zoned(2020, 6, 1, 10, est)), Some(vec![jeff.clone()]));
    assert_eq!(schedule.get_providers(zoned(2020, 6, 1, 13, est)), Some(vec![tobias.clone(), jeff.clone()]));
    assert_eq!(
        schedule.get_providers(zoned(2020, 6, 1, 18, est)),
        Some(vec![test_guy.clone(), test_guy2.clone(), tobias.clone()])
    );
    assert_eq!(schedule.get_providers(zoned(2020, 6, 2, 10, est)), Some(vec![test_guy2.clone(), jeff.clone()]));
    assert_eq!(schedule.get_providers(zoned(2020, 6, 3, 18, est)), Some(vec![test_guy, test_guy2]));
    assert_eq!(schedule.get_providers(zoned(2020, 6, 3, 23, est)), None);
}

#[test]
fn end_to_end_monday() {
    let jeff = user("2", "Jeff Winger");
    let tobias = user("1", "Tobias Funke");
    let range = OpenRange::new_open_range(&naive(2020, 6, 1), &Some(naive(2020, 6, 8)));
    let daily = TimeOfDayDuration::new_todd(TimeOfDay::new_tod(hms(9, 0, 0), None), TimeOfDay::new_tod(hms(17, 0, 0), None));
    let monday = TimeOfDayDuration::new_todd(
        TimeOfDay::new_tod(hms(12, 0, 0), Some(Weekday::Mon)),
        TimeOfDay::new_tod(hms(22, 0, 0), Some(Weekday::Mon)),
    );
    let a = ScheduleSlot::new_schedule_slot(range, daily, vec![jeff.clone()]);
    let b = ScheduleSlot::new_schedule_slot(range, monday, vec![tobias.clone()]);
    let s = generate_schedule(vec![a, b], naive(2020, 6, 1), naive(2020, 6, 8), EST, "g".to_owned());
    let at = |h: u32| zoned(2020, 6, 1, h, EST);
    assert!(has_entry(&s, at(9), at(12), &[jeff.clone()]));
    // The common part lists the later slot's providers first.
    assert!(has_entry(&s, at(12), at(17), &[tobias.clone(), jeff.clone()]));
    assert!(has_entry(&s, at(17), at(22), &[tobias.clone()]));
    assert_eq!(s.get_providers(at(13)), Some(vec![tobias.clone(), jeff.clone()]));
    assert!(no_overlaps(&s.entries));
}

#[test]
fn lookup_in_a_gap_finds_nobody() {
    let s = Schedule {
        group_id: "g".to_owned(),
        entries: vec![entry(0, 10, vec![user("1", "a")]), entry(20, 30, vec![user("2", "b")])],
    };
    assert_eq!(s.get_providers(15), None);
    assert_eq!(s.get_providers(10), None);
    assert_eq!(s.get_providers(-1), None);
    assert_eq!(s.get_providers(29), Some(vec![user("2", "b")]));
    let empty = Schedule { group_id: "g".to_owned(), entries: vec![] };
    assert_eq!(empty.get_providers(0), None);
}

#[test]
fn merge_into_empty_appends() {
    let r = merge_into(vec![], entry(0, 10, vec![user("1", "a")]));
    assert_eq!(r, vec![entry(0, 10, vec![user("1", "a")])]);
}

#[test]
fn merge_into_splits_at_four_boundaries() {
    let a = user("1", "a");
    let b = user("2", "b");
    let r = merge_into(vec![entry(0, 10, vec![a.clone()])], entry(5, 15, vec![b.clone()]));
    assert!(no_overlaps(&r));
    assert_eq!(r.len(), 3);
    assert!(r.contains(&entry(0, 5, vec![a.clone()])));
    assert!(r.contains(&entry(5, 10, vec![b.clone(), a.clone()])));
    assert!(r.contains(&entry(10, 15, vec![b.clone()])));
}

#[test]
fn merge_into_equal_ranges_gives_one_entry() {
    let a = user("1", "a");
    let b = user("2", "b");
    let r = merge_into(vec![entry(0, 10, vec![a.clone()])], entry(0, 10, vec![b.clone()]));
    assert_eq!(r, vec![entry(0, 10, vec![b, a])]);
}

#[test]
fn merge_into_spanning_two_entries() {
    let a = user("1", "a");
    let b = user("2", "b");
    let c = user("3", "c");
    let r = merge_into(vec![entry(0, 10, vec![a.clone()]), entry(20, 30, vec![b.clone()])], entry(5, 25, vec![c.clone()]));
    assert!(no_overlaps(&r));
    assert_eq!(r.len(), 5);
    assert!(r.contains(&entry(0, 5, vec![a.clone()])));
    assert!(r.contains(&entry(5, 10, vec![c.clone(), a.clone()])));
    assert!(r.contains(&entry(10, 20, vec![c.clone()])));
    assert!(r.contains(&entry(20, 25, vec![c.clone(), b.clone()])));
    assert!(r.contains(&entry(25, 30, vec![b.clone()])));
}

#[test]
fn merge_entries_three_way_overlap() {
    let a = user("1", "a");
    let b = user("2", "b");
    let c = user("3", "c");
    let merged = merge_entries(vec![
        vec![entry(0, 10, vec![a.clone()])],
        vec![entry(5, 15, vec![b.clone()])],
        vec![entry(8, 12, vec![c.clone()])],
    ]);
    assert!(no_overlaps(&merged));
    let s = Schedule { group_id: "g".to_owned(), entries: merged };
    assert_eq!(s.get_providers(2), Some(vec![a.clone()]));
    assert_eq!(s.get_providers(6), Some(vec![b.clone(), a.clone()]));
    assert_eq!(s.get_providers(9), Some(vec![c.clone(), b.clone(), a.clone()]));
    assert_eq!(s.get_providers(11), Some(vec![c.clone(), b.clone()]));
    assert_eq!(s.get_providers(13), Some(vec![b.clone()]));
    assert_eq!(s.get_providers(15), None);
    let total: i64 = s.entries.iter().map(|e| e.range.end - e.range.start).sum();
    assert_eq!(total, 15);
}

#[test]
fn slot_outside_window_contributes_nothing() {
    let a = user("1", "a");
    let range = OpenRange::new_open_range(&naive(2021, 1, 1), &None);
    let daily = TimeOfDayDuration::new_todd(TimeOfDay::new_tod(hms(9, 0, 0), None), TimeOfDay::new_tod(hms(17, 0, 0), None));
    let slot = ScheduleSlot::new_schedule_slot(range, daily, vec![a]);
    let s = generate_schedule(vec![slot], naive(2020, 6, 1), naive(2020, 6, 8), 0, "g".to_owned());
    assert!(s.entries.is_empty());
}

#[test]
fn slot_entry_is_cut_at_the_window_end() {
    let a = user("1", "a");
    let range = OpenRange::new_open_range(&naive(2020, 6, 1), &None);
    let daily = TimeOfDayDuration::new_todd(TimeOfDay::new_tod(hms(9, 0, 0), None), TimeOfDay::new_tod(hms(17, 0, 0), None));
    let slot = ScheduleSlot::new_schedule_slot(range, daily, vec![a.clone()]);
    let end = local_datetime(2020, 6, 2, hms(12, 0, 0)).unwrap();
    let s = generate_schedule(vec![slot], naive(2020, 6, 1), end, 0, "g".to_owned());
    assert_eq!(s.entries.len(), 2);
    assert!(has_entry(&s, zoned(2020, 6, 1, 9, 0), zoned(2020, 6, 1, 17, 0), &[a.clone()]));
    assert!(has_entry(&s, zoned(2020, 6, 2, 9, 0), zoned(2020, 6, 2, 12, 0), &[a]));
}

#[test]
fn merge_into_monday_example_exact() {
    let jeff = user("2", "Jeff Winger");
    let tobias = user("1", "Tobias Funke");
    let at = |h: u32| zoned(2020, 6, 1, h, EST);
    let r = merge_into(vec![entry(at(9), at(17), vec![jeff.clone()])], entry(at(12), at(22), vec![tobias.clone()]));
    assert_eq!(
        r,
        vec![
            entry(at(9), at(12), vec![jeff.clone()]),
            entry(at(12), at(17), vec![tobias.clone(), jeff.clone()]),
            entry(at(17), at(22), vec![tobias]),
        ]
    );
}

#[test]
fn merge_into_keeps_untouched_entries() {
    let a = user("1", "a");
    let b = user("2", "b");
    let c = user("3", "c");
    let r = merge_into(vec![entry(0, 10, vec![a.clone()]), entry(20, 30, vec![b.clone()])], entry(25, 40, vec![c.clone()]));
    assert_eq!(r[0], entry(0, 10, vec![a]));
    assert_eq!(r.len(), 4);
    let none = merge_into(vec![entry(0, 10, vec![b.clone()])], entry(10, 20, vec![c.clone()]));
    assert_eq!(none, vec![entry(0, 10, vec![b]), entry(10, 20, vec![c])]);
}

#[test]
fn merge_entries_disjoint_inputs_come_back_in_order() {
    let a = user("1", "a");
    let b = user("2", "b");
    let input = vec![vec![entry(20, 30, vec![a.clone()]), entry(0, 5, vec![b.clone()])], vec![], vec![entry(5, 10, vec![a.clone()])]];
    assert_eq!(
        merge_entries(input),
        vec![entry(20, 30, vec![a.clone()]), entry(0, 5, vec![b]), entry(5, 10, vec![a])]
    );
    assert_eq!(merge_entries(vec![]), Vec::<Entry>::new());
}

#[test]
fn slots_missing_the_window_change_nothing() {
    let jeff = user("2", "Jeff Winger");
    let tobias = user("1", "Tobias Funke");
    let w = OpenRange::new_open_range(&naive(2020, 6, 1), &Some(naive(2020, 6, 8)));
    let away = OpenRange::new_open_range(&naive(2021, 1, 1), &None);
    let daily = TimeOfDayDuration::new_todd(TimeOfDay::new_tod(hms(9, 0, 0), None), TimeOfDay::new_tod(hms(17, 0, 0), None));
    let a = ScheduleSlot::new_schedule_slot(w, daily, vec![jeff.clone()]);
    let gone = ScheduleSlot::new_schedule_slot(away, daily, vec![tobias]);
    let all = generate_schedule(vec![a.clone(), gone], naive(2020, 6, 1), naive(2020, 6, 8), EST, "g".to_owned());
    let keep = generate_schedule(vec![a], naive(2020, 6, 1), naive(2020, 6, 8), EST, "g".to_owned());
    assert_eq!(all.entries, keep.entries);
}

#[test]
fn slot_end_is_local_time_with_an_offset() {
    let a = user("1", "a");
    let cet = 3600;
    let start = local_datetime(2020, 6, 1, 0).unwrap();
    let end = local_datetime(2020, 6, 1, hms(0, 30, 0)).unwrap();
    let range = OpenRange::new_open_range(&start, &Some(end));
    let rule = TimeOfDayDuration::new_todd(TimeOfDay::new_tod(0, None), TimeOfDay::new_tod(hms(2, 0, 0), None));
    let slot = ScheduleSlot::new_schedule_slot(range, rule, vec![a.clone()]);
    assert_eq!(slot.to_iter(cet), vec![entry(start - cet as i64, end - cet as i64, vec![a.clone()])]);
    let s = generate_schedule(vec![slot], start, end, cet, "g".to_owned());
    assert_eq!(s.entries, vec![entry(start - cet as i64, end - cet as i64, vec![a])]);
}

#[test]
fn slot_end_in_a_zone_west_of_utc() {
    let a = user("1", "a");
    let range = OpenRange::new_open_range(&naive(2020, 6, 1), &Some(local_datetime(2020, 6, 1, hms(12, 0, 0)).unwrap()));
    let daily = TimeOfDayDuration::new_todd(TimeOfDay::new_tod(hms(9, 0, 0), None), TimeOfDay::new_tod(hms(17, 0, 0), None));
    let slot = ScheduleSlot::new_schedule_slot(range, daily, vec![a.clone()]);
    assert_eq!(slot.to_iter(EST), vec![entry(zoned(2020, 6, 1, 9, EST), zoned(2020, 6, 1, 12, EST), vec![a])]);
}
