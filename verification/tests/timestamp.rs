use comm::timestamp::Timestamp;

#[test]
fn test_timestamp_order() {
    let early = Timestamp::new(10, 999_999_999);
    let late = Timestamp::new(11, 0);
    assert!(early.is_before(&late));
    assert!(!late.is_before(&early));
    assert!(!early.is_before(&early));
    assert!(early < late);
    assert_eq!(early.latest(late), late);
    assert_eq!(late.latest(early), late);
}

#[test]
fn test_timestamp_before_the_epoch() {
    let before = Timestamp::new(-2, 800_000_000);
    let after = Timestamp::new(-1, 0);
    assert!(before.is_before(&after));
    assert_eq!(Timestamp::new(0, -1), Timestamp::new(-1, 999_999_999));
}

#[test]
fn test_timestamp_minutes() {
    let then = Timestamp::new(1_000, 0);
    let just_under = Timestamp::new(1_000 + 15 * 60 - 1, 999_999_999);
    let exactly = Timestamp::new(1_000 + 15 * 60, 0);
    let just_over = Timestamp::new(1_000 + 15 * 60, 1);
    assert!(just_under.is_within_minutes_of(&then, 15));
    assert!(!exactly.is_within_minutes_of(&then, 15));
    assert!(!just_over.is_within_minutes_of(&then, 15));
    assert!(!just_under.is_minutes_past(&then, 15));
    assert!(!exactly.is_minutes_past(&then, 15));
    assert!(just_over.is_minutes_past(&then, 15));
}

#[test]
fn test_timestamp_empty_is_the_empty_calendar_time() {
    let empty = time::empty_tm().to_timespec();
    assert_eq!(Timestamp::empty(), Timestamp::new(empty.sec, empty.nsec));
    assert!(Timestamp::empty().is_before(&Timestamp::now()));
}

#[test]
fn test_timestamp_now_follows_the_clock() {
    let before = time::get_time();
    let now = Timestamp::now();
    let after = time::get_time();
    assert!(!now.is_before(&Timestamp::new(before.sec, before.nsec)));
    assert!(!Timestamp::new(after.sec, after.nsec).is_before(&now));
}
