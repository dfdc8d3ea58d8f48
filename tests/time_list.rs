use iptooled::time_list::{CoarseDuration, CoarseSystemTime, TimeList};
use quickcheck::QuickCheck;
use rand::Rng;
use rand_distr::Exp1;

fn t(h: u32) -> CoarseSystemTime {
    CoarseSystemTime::from_epoch_hours(h)
}

#[test]
fn time_since_counts_hours() {
    assert_eq!(t(100).time_since(t(90)).hours, 10);
    assert_eq!(t(100).time_since(t(100)).hours, 0);
    assert_eq!(t(100).time_since(t(101)).hours, 0);
    assert_eq!(t(65535).time_since(t(0)).hours, 65535);
}

#[test]
fn epoch_seconds_round_down_to_hours() {
    assert_eq!(CoarseSystemTime::from_epoch_seconds(0).unwrap().epoch_hours(), 0);
    assert_eq!(CoarseSystemTime::from_epoch_seconds(3599).unwrap().epoch_hours(), 0);
    assert_eq!(CoarseSystemTime::from_epoch_seconds(7200).unwrap().epoch_hours(), 2);
    assert_eq!(CoarseSystemTime::from_epoch_seconds(u32::MAX as u64 * 3600).unwrap().epoch_hours(), u32::MAX);
    assert!(CoarseSystemTime::from_epoch_seconds((u32::MAX as u64 + 1) * 3600).is_none());
}

#[test]
fn now_reads_the_clock() {
    let now = CoarseSystemTime::now().unwrap();
    assert!(now.epoch_hours() > 480_000);
}

#[test]
fn checked_arithmetic_on_times() {
    assert_eq!(t(10).checked_add(CoarseDuration { hours: 5 }).unwrap(), t(15));
    assert!(t(u32::MAX).checked_add(CoarseDuration { hours: 1 }).is_none());
    assert_eq!(t(10).checked_sub(CoarseDuration { hours: 5 }).unwrap(), t(5));
    assert!(t(4).checked_sub(CoarseDuration { hours: 5 }).is_none());
}

#[test]
fn trim_removes_only_expired_values_in_order() {
    let mut list = TimeList::new(CoarseDuration { hours: 10 });
    list.push(1u32, t(100));
    list.push(2, t(105));
    list.push(3, t(105));
    list.push(4, t(120));
    let trim = list.trim(t(116));
    assert_eq!(trim.next(&mut list), Some((1, t(100))));
    assert_eq!(trim.next(&mut list), Some((2, t(105))));
    assert_eq!(trim.next(&mut list), Some((3, t(105))));
    assert_eq!(trim.next(&mut list), None);
    assert_eq!(list.last(), Some(t(120)));
    let rest = list.drain_expired(t(131));
    assert_eq!(rest, vec![(4, t(120))]);
    assert!(list.is_empty());
    assert_eq!(list.last(), None);
}

#[test]
fn value_at_exactly_the_limit_stays() {
    let mut list = TimeList::new(CoarseDuration { hours: 10 });
    list.push('a', t(100));
    assert!(list.drain_expired(t(110)).is_empty());
    assert_eq!(list.drain_expired(t(111)), vec![('a', t(100))]);
}

#[test]
fn push_within_an_hour_earlier_counts_as_the_tail() {
    let mut list = TimeList::new(CoarseDuration { hours: 0 });
    list.push(1u8, t(50));
    list.push(2, t(49));
    assert_eq!(list.last(), Some(t(50)));
    assert_eq!(list.drain_expired(t(51)), vec![(1, t(50)), (2, t(50))]);
}

#[test]
fn trim_before_the_limit_is_safe() {
    let mut list = TimeList::new(CoarseDuration { hours: 1000 });
    list.push(7u8, t(0));
    assert!(list.drain_expired(t(5)).is_empty());
    assert_eq!(list.last(), Some(t(0)));
}

/// Pushes values at times with random gaps, trimming before each push as the core does, then checks that a
/// trim returns exactly the expired values, oldest first, and leaves the tail in place.
fn trimmed_values_are_expired(gaps: Vec<u8>, limit: u8, step: u8) -> bool {
    let limit = CoarseDuration { hours: limit as u16 };
    let mut list = TimeList::new(limit);
    let mut now: u32 = 262_000;
    let mut pushed: Vec<(usize, u32)> = Vec::new();
    for (i, gap) in gaps.iter().enumerate() {
        let _ = list.drain_expired(t(now));
        pushed.retain(|&(_, time)| time + limit.hours as u32 >= now);
        list.push(i, t(now));
        pushed.push((i, now));
        now += *gap as u32 % 5;
    }
    let tail = list.last().map(|x| x.epoch_hours());
    if tail != pushed.last().map(|&(_, time)| time) {
        return false;
    }
    let later = now + step as u32;
    let trimmed = list.drain_expired(t(later));
    let expected: Vec<(usize, CoarseSystemTime)> = pushed
        .iter()
        .filter(|&&(_, time)| time + (limit.hours as u32) < later)
        .map(|&(i, time)| (i, t(time)))
        .collect();
    trimmed == expected
}

#[test]
fn trimmed_values_are_expired_for_random_lists() {
    QuickCheck::new().tests(200).quickcheck(trimmed_values_are_expired as fn(Vec<u8>, u8, u8) -> bool);
}

#[test]
fn head_plus_gaps_is_tail_with_exponential_gaps() {
    let mut rng = rand::thread_rng();
    let mut list = TimeList::new(CoarseDuration { hours: 50 });
    let mut now: u32 = 300_000;
    for i in 0..500u32 {
        let _ = list.drain_expired(t(now));
        list.push(i, t(now));
        assert_eq!(list.last(), Some(t(now)));
        let gap: f32 = rng.sample(Exp1);
        now += gap as u32;
    }
    let all = list.drain_expired(t(u32::MAX));
    assert!(!all.is_empty());
    assert!(all.windows(2).all(|w| w[0].1 <= w[1].1));
    assert!(list.is_empty());
}
