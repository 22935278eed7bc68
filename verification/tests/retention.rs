use snapshot_retention::namer::Namer;
use snapshot_retention::retention::{
    managed_snapshots, newest_first, select_expired, select_for_deletion, Age, InvalidPolicy,
    RetentionPolicy, Snapshot,
};
use snapshot_retention::timestamp::Timestamp;

const DEFAULT_FORMAT: &str = "%Y-%m-%d-%H%M%S";
const DAY: u64 = 86400;

fn ts(year: u16, month: u8, day: u8, hour: u8, minute: u8, second: u8) -> Timestamp {
    Timestamp::new(year, month, day, hour, minute, second).unwrap()
}

fn namer() -> Namer {
    Namer::new("snap", DEFAULT_FORMAT).unwrap()
}

fn daily_name(day: u8) -> String {
    format!("snap-2024-01-{:02}-000000", day)
}

/// The names of the snapshots taken at midnight on the given days of January 2024.
fn daily(days: &[u8]) -> Vec<String> {
    days.iter().map(|day| daily_name(*day)).collect()
}

fn ten_days() -> Vec<String> {
    daily(&[1, 2, 3, 4, 5, 6, 7, 8, 9, 10])
}

fn names_of(snapshots: &[Snapshot]) -> Vec<String> {
    snapshots.iter().map(|s| s.name.clone()).collect()
}

fn count(n: usize) -> RetentionPolicy {
    RetentionPolicy::new(Some(n), None).unwrap()
}

fn since(secs: u64) -> RetentionPolicy {
    RetentionPolicy::new(None, Some(Age { secs, nanos: 0 })).unwrap()
}

fn count_and_since(n: usize, secs: u64) -> RetentionPolicy {
    RetentionPolicy::new(Some(n), Some(Age { secs, nanos: 0 })).unwrap()
}

#[test]
fn policy_needs_a_count_or_an_age() {
    assert_eq!(RetentionPolicy::new(None, None), Err(InvalidPolicy));
    assert_eq!(
        RetentionPolicy::new(Some(0), None),
        Ok(RetentionPolicy { keep_count: Some(0), keep_since: None })
    );
    let age = Age { secs: 5, nanos: 7 };
    assert_eq!(
        RetentionPolicy::new(None, Some(age)),
        Ok(RetentionPolicy { keep_count: None, keep_since: Some(age) })
    );
    assert_eq!(
        RetentionPolicy::new(Some(2), Some(age)),
        Ok(RetentionPolicy { keep_count: Some(2), keep_since: Some(age) })
    );
}

#[test]
fn protection_ends_when_the_age_is_reached() {
    let now = ts(2024, 1, 10, 0, 0, 0);
    let policy = since(5 * DAY);
    assert!(policy.is_protected(&ts(2024, 1, 5, 0, 0, 1), &now));
    assert!(!policy.is_protected(&ts(2024, 1, 5, 0, 0, 0), &now));
    assert!(!policy.is_protected(&ts(2024, 1, 4, 23, 59, 59), &now));
    assert!(policy.is_protected(&now, &now));
}

#[test]
fn protection_counts_the_nanoseconds_of_the_age() {
    let now = ts(2024, 1, 10, 0, 0, 0);
    let taken = ts(2024, 1, 5, 0, 0, 0);
    let exact = RetentionPolicy::new(None, Some(Age { secs: 5 * DAY, nanos: 0 })).unwrap();
    let longer = RetentionPolicy::new(None, Some(Age { secs: 5 * DAY, nanos: 1 })).unwrap();
    let shorter =
        RetentionPolicy::new(None, Some(Age { secs: 5 * DAY - 1, nanos: 999_999_999 })).unwrap();
    assert!(!exact.is_protected(&taken, &now));
    assert!(longer.is_protected(&taken, &now));
    assert!(!shorter.is_protected(&taken, &now));
}

#[test]
fn protection_covers_snapshots_from_the_future() {
    let now = ts(2024, 1, 10, 0, 0, 0);
    assert!(since(1).is_protected(&ts(2024, 1, 11, 0, 0, 0), &now));
    assert!(since(0).is_protected(&ts(2024, 1, 10, 0, 0, 1), &now));
    assert!(!since(0).is_protected(&now, &now));
}

#[test]
fn protection_needs_an_age() {
    let now = ts(2024, 1, 10, 0, 0, 0);
    assert!(!count(3).is_protected(&now, &now));
    assert!(!count(3).is_protected(&ts(2024, 1, 11, 0, 0, 0), &now));
}

#[test]
fn protection_holds_for_the_longest_age() {
    let now = ts(9999, 12, 31, 23, 59, 59);
    let policy =
        RetentionPolicy::new(None, Some(Age { secs: u64::MAX, nanos: u32::MAX })).unwrap();
    assert!(policy.is_protected(&ts(0, 1, 1, 0, 0, 0), &now));
}

#[test]
fn a_count_of_three_keeps_the_three_newest() {
    let gone = select_for_deletion(&ten_days(), &namer(), &count(3), &ts(2024, 1, 10, 0, 0, 0));
    assert_eq!(names_of(&gone), daily(&[7, 6, 5, 4, 3, 2, 1]));
    assert_eq!(gone[0].created_at, ts(2024, 1, 7, 0, 0, 0));
    assert_eq!(gone[6].created_at, ts(2024, 1, 1, 0, 0, 0));
}

#[test]
fn an_age_of_five_days_keeps_what_is_younger() {
    let gone =
        select_for_deletion(&ten_days(), &namer(), &since(5 * DAY), &ts(2024, 1, 10, 0, 0, 0));
    assert_eq!(names_of(&gone), daily(&[5, 4, 3, 2, 1]));
}

#[test]
fn an_age_of_five_days_keeps_the_fifth_until_it_is_that_old() {
    let gone =
        select_for_deletion(&ten_days(), &namer(), &since(5 * DAY), &ts(2024, 1, 9, 23, 59, 59));
    assert_eq!(names_of(&gone), daily(&[4, 3, 2, 1]));
}

#[test]
fn age_overrides_a_lower_count() {
    let now = ts(2024, 1, 10, 0, 0, 0);
    let both = select_for_deletion(&ten_days(), &namer(), &count_and_since(2, 5 * DAY), &now);
    let age_only = select_for_deletion(&ten_days(), &namer(), &since(5 * DAY), &now);
    assert_eq!(names_of(&both), daily(&[5, 4, 3, 2, 1]));
    assert_eq!(both, age_only);
    let count_only = select_for_deletion(&ten_days(), &namer(), &count(2), &now);
    assert_eq!(names_of(&count_only), daily(&[8, 7, 6, 5, 4, 3, 2, 1]));
}

#[test]
fn age_overrides_a_lower_count_a_second_earlier() {
    let now = ts(2024, 1, 9, 23, 59, 59);
    let both = select_for_deletion(&ten_days(), &namer(), &count_and_since(2, 5 * DAY), &now);
    assert_eq!(names_of(&both), daily(&[4, 3, 2, 1]));
}

#[test]
fn a_malformed_entry_is_left_alone() {
    let mut names = daily(&[1, 2, 3]);
    names.push(String::from("random_file"));
    names.extend(daily(&[4, 5]));
    let gone = select_for_deletion(&names, &namer(), &count(1), &ts(2024, 1, 5, 0, 0, 0));
    assert_eq!(names_of(&gone), daily(&[4, 3, 2, 1]));
    assert!(gone.iter().all(|s| s.name != "random_file"));
}

#[test]
fn unreadable_entries_take_no_place_in_the_count() {
    let names = vec![
        String::from("snap-9999-99-99-999999"),
        daily_name(1),
        String::from("other-2024-01-09-000000"),
        String::from("snap-2024-01-08"),
        daily_name(2),
        String::from("snap-2024-01-07-000000.old"),
        String::from(""),
    ];
    let now = ts(2024, 1, 10, 0, 0, 0);
    assert_eq!(names_of(&select_for_deletion(&names, &namer(), &count(0), &now)), daily(&[2, 1]));
    assert_eq!(names_of(&select_for_deletion(&names, &namer(), &count(1), &now)), daily(&[1]));
    assert!(select_for_deletion(&names, &namer(), &count(2), &now).is_empty());
    assert_eq!(names_of(&select_for_deletion(&names, &namer(), &since(0), &now)), daily(&[2, 1]));
}

#[test]
fn protected_snapshots_are_never_selected() {
    let now = ts(2024, 1, 10, 0, 0, 0);
    let mut n: usize = 0;
    while n <= 11 {
        let policy = count_and_since(n, 3 * DAY + 1);
        let gone = select_for_deletion(&ten_days(), &namer(), &policy, &now);
        for s in gone.iter() {
            assert!(!policy.is_protected(&s.created_at, &now));
            assert!(s.created_at.to_seconds() < ts(2024, 1, 7, 0, 0, 0).to_seconds());
        }
        n += 1;
    }
    let gone = select_for_deletion(&ten_days(), &namer(), &count_and_since(0, 3 * DAY + 1), &now);
    assert_eq!(names_of(&gone), daily(&[6, 5, 4, 3, 2, 1]));
}

#[test]
fn a_higher_count_selects_no_more() {
    let now = ts(2024, 1, 10, 0, 0, 0);
    let mut earlier: Vec<Snapshot> =
        select_for_deletion(&ten_days(), &namer(), &count_and_since(0, 2 * DAY), &now);
    assert_eq!(earlier.len(), 8);
    let mut n: usize = 1;
    while n <= 12 {
        let gone = select_for_deletion(&ten_days(), &namer(), &count_and_since(n, 2 * DAY), &now);
        assert!(gone.len() <= earlier.len());
        assert_eq!(gone[..], earlier[earlier.len() - gone.len()..]);
        earlier = gone;
        n += 1;
    }
    assert!(earlier.is_empty());
}

#[test]
fn a_higher_count_selects_one_fewer_each_time() {
    let now = ts(2024, 1, 10, 0, 0, 0);
    let expected: Vec<usize> = vec![10, 9, 8, 7, 6, 5, 4, 3, 2, 1, 0, 0];
    let mut n: usize = 0;
    while n < expected.len() {
        let gone = select_for_deletion(&ten_days(), &namer(), &count(n), &now);
        assert_eq!(gone.len(), expected[n]);
        n += 1;
    }
}

#[test]
fn nothing_is_selected_within_the_count() {
    let now = ts(2024, 1, 10, 0, 0, 0);
    assert!(select_for_deletion(&ten_days(), &namer(), &count(10), &now).is_empty());
    assert!(select_for_deletion(&ten_days(), &namer(), &count(11), &now).is_empty());
    assert!(select_for_deletion(&ten_days(), &namer(), &count(usize::MAX), &now).is_empty());
    assert!(select_for_deletion(&daily(&[3]), &namer(), &count(1), &now).is_empty());
}

#[test]
fn nothing_is_selected_where_all_are_young() {
    let now = ts(2024, 1, 10, 0, 0, 0);
    assert!(select_for_deletion(&ten_days(), &namer(), &since(9 * DAY + 1), &now).is_empty());
    let gone = select_for_deletion(&ten_days(), &namer(), &count_and_since(0, 9 * DAY + 1), &now);
    assert!(gone.is_empty());
    let gone = select_for_deletion(&ten_days(), &namer(), &since(9 * DAY), &now);
    assert_eq!(names_of(&gone), daily(&[1]));
}

#[test]
fn nothing_is_selected_from_nothing() {
    let now = ts(2024, 1, 10, 0, 0, 0);
    let none: Vec<String> = Vec::new();
    assert!(select_for_deletion(&none, &namer(), &count(0), &now).is_empty());
    assert!(select_for_deletion(&none, &namer(), &since(0), &now).is_empty());
    let strangers = vec![String::from("random_file"), String::from("lost+found")];
    assert!(select_for_deletion(&strangers, &namer(), &count(0), &now).is_empty());
    assert!(select_for_deletion(&strangers, &namer(), &since(0), &now).is_empty());
}

#[test]
fn a_count_of_zero_selects_all_that_age_does_not_protect() {
    let now = ts(2024, 1, 10, 0, 0, 0);
    let gone = select_for_deletion(&ten_days(), &namer(), &count(0), &now);
    assert_eq!(names_of(&gone), daily(&[10, 9, 8, 7, 6, 5, 4, 3, 2, 1]));
    let gone = select_for_deletion(&ten_days(), &namer(), &count_and_since(0, 5 * DAY), &now);
    assert_eq!(names_of(&gone), daily(&[5, 4, 3, 2, 1]));
}

#[test]
fn the_count_takes_protected_snapshots_into_account() {
    let now = ts(2024, 1, 10, 0, 0, 0);
    let gone = select_for_deletion(&ten_days(), &namer(), &count_and_since(7, 5 * DAY), &now);
    assert_eq!(names_of(&gone), daily(&[3, 2, 1]));
    let gone = select_for_deletion(&ten_days(), &namer(), &count_and_since(5, 5 * DAY), &now);
    assert_eq!(names_of(&gone), daily(&[5, 4, 3, 2, 1]));
    let gone = select_for_deletion(&ten_days(), &namer(), &count_and_since(6, 5 * DAY), &now);
    assert_eq!(names_of(&gone), daily(&[4, 3, 2, 1]));
}

#[test]
fn the_order_of_the_listing_does_not_matter() {
    let now = ts(2024, 1, 10, 0, 0, 0);
    let shuffled = daily(&[4, 9, 1, 10, 6, 2, 8, 3, 7, 5]);
    let gone = select_for_deletion(&shuffled, &namer(), &count(3), &now);
    assert_eq!(names_of(&gone), daily(&[7, 6, 5, 4, 3, 2, 1]));
    let gone = select_for_deletion(&shuffled, &namer(), &count_and_since(7, 5 * DAY), &now);
    assert_eq!(names_of(&gone), daily(&[3, 2, 1]));
}

#[test]
fn the_order_is_that_of_the_moments_not_of_the_names() {
    let scheme = Namer::new("snap", "%d.%m.%Y").unwrap();
    let names = vec![
        String::from("snap-01.03.2024"),
        String::from("snap-31.01.2024"),
        String::from("snap-15.02.2024"),
        String::from("snap-02.01.2023"),
    ];
    let gone = select_for_deletion(&names, &scheme, &count(1), &ts(2024, 3, 2, 0, 0, 0));
    assert_eq!(
        names_of(&gone),
        vec![
            String::from("snap-15.02.2024"),
            String::from("snap-31.01.2024"),
            String::from("snap-02.01.2023"),
        ]
    );
}

#[test]
fn managed_snapshots_are_those_whose_names_read() {
    let names = vec![
        daily_name(3),
        String::from("random_file"),
        daily_name(1),
        String::from("snap-2024-01-32-000000"),
        daily_name(2),
    ];
    let found = managed_snapshots(&names, &namer());
    assert_eq!(
        found,
        vec![
            Snapshot { name: daily_name(3), created_at: ts(2024, 1, 3, 0, 0, 0) },
            Snapshot { name: daily_name(1), created_at: ts(2024, 1, 1, 0, 0, 0) },
            Snapshot { name: daily_name(2), created_at: ts(2024, 1, 2, 0, 0, 0) },
        ]
    );
}

fn snapshot(name: &str, created_at: Timestamp) -> Snapshot {
    Snapshot { name: String::from(name), created_at }
}

#[test]
fn newest_first_sorts_and_keeps_ties_in_order() {
    let early = ts(2024, 1, 1, 0, 0, 0);
    let noon = ts(2024, 1, 1, 12, 0, 0);
    let late = ts(2024, 1, 2, 0, 0, 0);
    let given = vec![
        snapshot("a", noon),
        snapshot("b", early),
        snapshot("c", late),
        snapshot("d", noon),
        snapshot("e", early),
        snapshot("f", noon),
    ];
    let names: Vec<String> = names_of(&newest_first(&given));
    assert_eq!(names, vec!["c", "a", "d", "f", "b", "e"]);
    let none: Vec<Snapshot> = Vec::new();
    assert!(newest_first(&none).is_empty());
}

#[test]
fn select_expired_skips_the_head_and_the_protected() {
    let now = ts(2024, 1, 10, 0, 0, 0);
    let ordered = vec![
        snapshot("a", ts(2024, 1, 9, 0, 0, 0)),
        snapshot("b", ts(2024, 1, 8, 0, 0, 0)),
        snapshot("c", ts(2024, 1, 7, 0, 0, 0)),
        snapshot("d", ts(2024, 1, 6, 0, 0, 0)),
    ];
    assert_eq!(names_of(&select_expired(&ordered, &count(1), &now)), vec!["b", "c", "d"]);
    assert_eq!(names_of(&select_expired(&ordered, &since(3 * DAY), &now)), vec!["c", "d"]);
    assert_eq!(
        names_of(&select_expired(&ordered, &count_and_since(3, 2 * DAY), &now)),
        vec!["d"]
    );
    assert!(select_expired(&ordered, &count(4), &now).is_empty());
}

#[test]
fn snapshot_clone_is_equal() {
    let s = snapshot("snap-2024-01-10-000000", ts(2024, 1, 10, 0, 0, 0));
    assert_eq!(s.clone(), s);
}
