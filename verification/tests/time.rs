use chrono::NaiveTime;
use zone_score::{MatchWindow, TimeOfDay};

#[test]
fn from_hms_counts_seconds_since_midnight() {
    assert_eq!(TimeOfDay::from_hms(1, 2, 3), Some(TimeOfDay { secs: 3_723, frac: 0 }));
    assert_eq!(TimeOfDay::from_hms(0, 0, 0), Some(TimeOfDay { secs: 0, frac: 0 }));
    assert_eq!(TimeOfDay::from_hms(23, 59, 59), Some(TimeOfDay { secs: 86_399, frac: 0 }));
}

#[test]
fn from_hms_refuses_what_is_out_of_range() {
    assert_eq!(TimeOfDay::from_hms(24, 0, 0), None);
    assert_eq!(TimeOfDay::from_hms(0, 60, 0), None);
    assert_eq!(TimeOfDay::from_hms(0, 0, 60), None);
}

#[test]
fn from_hms_nano_takes_leap_second_after_second_59_only() {
    assert_eq!(
        TimeOfDay::from_hms_nano(23, 59, 59, 1_500_000_000),
        Some(TimeOfDay { secs: 86_399, frac: 1_500_000_000 })
    );
    assert_eq!(TimeOfDay::from_hms_nano(23, 59, 58, 1_000_000_000), None);
    assert_eq!(TimeOfDay::from_hms_nano(23, 59, 59, 2_000_000_000), None);
    assert_eq!(
        TimeOfDay::from_hms_nano(10, 0, 0, 999_999_999),
        Some(TimeOfDay { secs: 36_000, frac: 999_999_999 })
    );
}

#[test]
fn from_seconds_checks_both_parts() {
    assert_eq!(TimeOfDay::from_seconds(86_399, 0), Some(TimeOfDay { secs: 86_399, frac: 0 }));
    assert_eq!(TimeOfDay::from_seconds(86_400, 0), None);
    assert_eq!(TimeOfDay::from_seconds(59, 1_999_999_999).map(|t| t.frac), Some(1_999_999_999));
    assert_eq!(TimeOfDay::from_seconds(60, 1_000_000_000), None);
    assert_eq!(TimeOfDay::from_seconds(0, 2_000_000_000), None);
}

#[test]
fn check_valid_tells_times_from_other_pairs() {
    assert!(TimeOfDay { secs: 0, frac: 0 }.check_valid());
    assert!(TimeOfDay { secs: 86_399, frac: 1_999_999_999 }.check_valid());
    assert!(!TimeOfDay { secs: 86_400, frac: 0 }.check_valid());
    assert!(!TimeOfDay { secs: 1, frac: 1_000_000_000 }.check_valid());
}

#[test]
fn seconds_until_drops_part_of_a_second() {
    let a = TimeOfDay::from_hms_nano(10, 0, 0, 700_000_000).unwrap();
    let b = TimeOfDay::from_hms_nano(10, 0, 1, 200_000_000).unwrap();
    let c = TimeOfDay::from_hms_nano(10, 0, 1, 700_000_000).unwrap();
    let d = TimeOfDay::from_hms_nano(10, 0, 2, 699_999_999).unwrap();
    assert_eq!(a.seconds_until(&b), 0);
    assert_eq!(a.seconds_until(&c), 1);
    assert_eq!(a.seconds_until(&d), 1);
    assert_eq!(a.seconds_until(&a), 0);
}

#[test]
fn seconds_until_is_nothing_backwards() {
    let a = TimeOfDay::from_hms(10, 0, 0).unwrap();
    let b = TimeOfDay::from_hms(12, 0, 0).unwrap();
    assert_eq!(a.seconds_until(&b), 7_200);
    assert_eq!(b.seconds_until(&a), 0);
}

#[test]
fn is_at_or_after_goes_by_seconds_and_nanoseconds() {
    let a = TimeOfDay::from_hms(10, 0, 0).unwrap();
    let b = TimeOfDay::from_hms_nano(10, 0, 0, 1).unwrap();
    assert!(a.is_at_or_after(&a));
    assert!(b.is_at_or_after(&a));
    assert!(!a.is_at_or_after(&b));
}

#[test]
fn window_keeps_its_end() {
    let end = TimeOfDay::from_hms(14, 0, 30).unwrap();
    assert_eq!(MatchWindow::new(end).end(), end);
}

fn naive(time: TimeOfDay) -> NaiveTime {
    NaiveTime::from_num_seconds_from_midnight_opt(time.secs, time.frac).unwrap()
}

fn sample_times() -> Vec<TimeOfDay> {
    let mut times = Vec::new();
    for secs in [0u32, 1, 58, 59, 60, 61, 119, 120, 3_599, 3_600, 86_339, 86_340, 86_398, 86_399] {
        for frac in [0u32, 1, 200_000_000, 500_000_000, 999_999_999] {
            times.push(TimeOfDay::from_seconds(secs, frac).unwrap());
        }
        if secs % 60 == 59 {
            for frac in [1_000_000_000u32, 1_000_000_001, 1_500_000_000, 1_999_999_999] {
                times.push(TimeOfDay::from_seconds(secs, frac).unwrap());
            }
        }
    }
    times
}

#[test]
fn order_of_times_is_that_of_chrono() {
    let times = sample_times();
    for a in &times {
        for b in &times {
            assert_eq!(a.is_at_or_after(b), naive(*a) >= naive(*b), "{a:?} {b:?}");
        }
    }
}

#[test]
fn seconds_until_is_what_chrono_counts() {
    let times = sample_times();
    for a in &times {
        for b in &times {
            let counted = naive(*b).signed_duration_since(naive(*a)).num_seconds();
            let expected = if counted > 0 { counted as u64 } else { 0 };
            assert_eq!(a.seconds_until(b), expected, "{a:?} {b:?}");
        }
    }
}

#[test]
fn leap_second_comes_before_the_next_minute() {
    let leap = TimeOfDay::from_hms_nano(23, 58, 59, 1_500_000_000).unwrap();
    let next = TimeOfDay::from_hms(23, 59, 0).unwrap();
    assert!(next.is_at_or_after(&leap));
    assert!(!leap.is_at_or_after(&next));
    let before = TimeOfDay::from_hms_nano(23, 58, 59, 999_999_999).unwrap();
    assert!(leap.is_at_or_after(&before));
    assert!(!before.is_at_or_after(&leap));
}

#[test]
fn leap_second_counts_as_a_second_of_its_own() {
    let last = TimeOfDay::from_hms(3, 0, 59).unwrap();
    let leap = TimeOfDay::from_hms_nano(3, 0, 59, 1_000_000_000).unwrap();
    let next = TimeOfDay::from_hms(3, 1, 0).unwrap();
    let start = TimeOfDay::from_hms(3, 0, 0).unwrap();
    assert_eq!(last.seconds_until(&leap), 1);
    assert_eq!(leap.seconds_until(&next), 1);
    assert_eq!(start.seconds_until(&leap), 60);
    assert_eq!(last.seconds_until(&next), 1);
    let earlier_leap = TimeOfDay::from_hms_nano(2, 59, 59, 1_000_000_000).unwrap();
    assert_eq!(earlier_leap.seconds_until(&leap), 61);
    let within = TimeOfDay::from_hms_nano(3, 0, 59, 1_500_000_000).unwrap();
    let early_next = TimeOfDay::from_hms_nano(3, 1, 0, 200_000_000).unwrap();
    assert_eq!(within.seconds_until(&early_next), 0);
    assert_eq!(early_next.seconds_until(&within), 0);
    let late_next = TimeOfDay::from_hms_nano(3, 1, 0, 500_000_000).unwrap();
    assert_eq!(within.seconds_until(&late_next), 1);
}

#[test]
fn seconds_until_takes_any_pair_of_fields() {
    let small = TimeOfDay { secs: 0, frac: u32::MAX };
    let large = TimeOfDay { secs: u32::MAX, frac: u32::MAX };
    assert_eq!(small.seconds_until(&large), 4_294_967_296);
    assert_eq!(large.seconds_until(&small), 0);
    let odd = TimeOfDay { secs: 1, frac: 0 };
    assert_eq!(small.seconds_until(&odd), 0);
}
