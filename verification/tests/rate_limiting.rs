use std::time::{Duration, Instant};
use super_antenna::clock::{Stopwatch, NANOS_PER_SECOND};
use super_antenna::keywords::Antenna;
use super_antenna::limits::{RateLimits, Readings};
use super_antenna::rate_limit::RateLimitInfo;

#[test]
fn test_rate_limit_info() {
    let mut rate_limit = RateLimitInfo::new(3);

    // Should allow first 3 requests
    assert!(rate_limit.can_process());
    assert!(rate_limit.can_process());
    assert!(rate_limit.can_process());

    // Should deny 4th request
    assert!(!rate_limit.can_process());

    // Test expiration of old requests
    let mut rate_limit = RateLimitInfo::new(2);
    assert!(rate_limit.can_process());
    assert!(rate_limit.can_process());
    assert!(!rate_limit.can_process());

    // Manually modify timestamps to simulate time passing
    rate_limit.matches[0] = rate_limit.clock.now() - 61 * NANOS_PER_SECOND;

    // Should allow another request after one expired
    assert!(rate_limit.can_process());
    assert!(!rate_limit.can_process());

    // Test with zero limit
    let mut zero_limit = RateLimitInfo::new(0);
    assert!(!zero_limit.can_process());
}

const MINUTE: i128 = 60 * NANOS_PER_SECOND;

/// A limit on its own, and the clock readings at given times on its stopwatch.
fn limited(max_per_minute: usize) -> (RateLimitInfo, impl Fn(i128) -> Instant) {
    let start = Instant::now();
    let info = RateLimitInfo::with_clock(Stopwatch::start_at(start), max_per_minute);
    (info, move |nanos: i128| start + Duration::from_nanos(nanos as u64))
}

#[test]
fn the_window_is_one_minute() {
    let (mut info, at) = limited(1);
    assert!(info.can_process_at(at(0), at(5)));
    assert!(!info.can_process_at(at(MINUTE + 4), at(MINUTE + 4)));
    assert_eq!(info.matches, vec![5]);
    assert!(info.can_process_at(at(MINUTE + 5), at(MINUTE + 6)));
    assert_eq!(info.matches, vec![MINUTE + 6]);
}

#[test]
fn times_at_the_ends_of_the_range_are_compared_exactly() {
    let (mut info, at) = limited(1);
    info.matches = vec![i128::MAX];
    assert!(!info.can_process_at(at(0), at(0)));
    info.matches = vec![1 - MINUTE];
    assert!(!info.can_process_at(at(0), at(0)));
    info.matches = vec![-MINUTE];
    assert!(info.can_process_at(at(0), at(0)));
    info.matches = vec![i128::MIN];
    assert!(info.can_process_at(at(0), at(7)));
    assert_eq!(info.matches, vec![7]);
}

#[test]
fn times_are_counted_on_the_stopwatch_of_the_limit() {
    let start = Instant::now();
    let at = |seconds: u64| start + Duration::from_secs(seconds);
    for offset in [0, 20] {
        let mut info = RateLimitInfo::with_clock(Stopwatch::start_at(at(offset)), 1);
        assert!(info.can_process_at(at(30), at(30)));
        assert_eq!(info.matches, vec![(30 - offset as i128) * NANOS_PER_SECOND]);
        assert!(!info.can_process_at(at(89), at(89)));
        assert!(info.can_process_at(at(90), at(90)));
    }
}

#[test]
fn no_minute_holds_more_than_the_limit() {
    let (mut info, at) = limited(4);
    let mut admitted: Vec<i128> = Vec::new();
    let mut now: i128 = 0;
    for step in 0..2000i128 {
        now += (step * step * 7919) % (13 * NANOS_PER_SECOND);
        if info.can_process_at(at(now), at(now + 1)) {
            admitted.push(now + 1);
        }
        let kept: Vec<i128> = admitted.iter().copied().filter(|t| *t > now - MINUTE).collect();
        assert_eq!(info.matches, kept);
    }
    assert!(admitted.len() > 100);
    for end in &admitted {
        let inside = admitted.iter().filter(|t| **t > end - MINUTE && *t <= end).count();
        assert!(inside <= 4);
    }
}

#[test]
fn room_returns_after_a_minute() {
    let (mut info, at) = limited(2);
    assert!(info.can_process_at(at(0), at(0)));
    assert!(info.can_process_at(at(1), at(1)));
    assert!(!info.can_process_at(at(2), at(2)));
    assert!(info.can_process_at(at(MINUTE + 1), at(MINUTE + 1)));
    assert_eq!(info.matches, vec![MINUTE + 1]);
}

#[test]
fn warnings_are_a_minute_apart() {
    let mut info = RateLimitInfo::new(0);
    assert!(info.should_log_rate_limit());
    assert!(!info.should_log_rate_limit());

    let (mut info, at) = limited(0);
    assert!(info.should_log_rate_limit_at(at(7)));
    assert!(!info.should_log_rate_limit_at(at(7)));
    assert!(!info.should_log_rate_limit_at(at(0)));
    assert!(!info.should_log_rate_limit_at(at(MINUTE + 6)));
    assert!(info.should_log_rate_limit_at(at(MINUTE + 7)));
    assert_eq!(info.last_warning_time, Some(MINUTE + 7));
    assert!(info.matches.is_empty());
}

#[test]
fn the_clock_is_read_for_every_request() {
    let long_ago = Stopwatch::start();
    while long_ago.now() < 5_000_000 {}
    let mut info = RateLimitInfo::with_clock(long_ago, 1);
    let before = long_ago.now();
    assert!(info.can_process());
    assert!(info.should_log_rate_limit());
    let after = long_ago.now();
    assert!(before <= info.matches[0] && info.matches[0] <= after);
    let warning = info.last_warning_time.unwrap();
    assert!(info.matches[0] <= warning && warning <= after);
}

#[test]
fn the_stopwatch_runs_forward() {
    let watch = Stopwatch::start();
    let first = watch.now();
    let started = Instant::now();
    while started.elapsed() < Duration::from_millis(5) {}
    let second = watch.now();
    assert!(0 <= first && first + 5_000_000 <= second);
    assert!(second < 20 * NANOS_PER_SECOND);
}

#[test]
fn the_stopwatch_measures_from_its_start() {
    let reading = Instant::now();
    let watch = Stopwatch::start_at(reading);
    let later = |millis: u64| reading + Duration::from_millis(millis);
    assert_eq!(watch.now_at(reading), 0);
    assert_eq!(watch.now_at(later(1_500)), 1_500_000_000);
    assert_eq!(watch.now_at(later(60_000)), 60 * NANOS_PER_SECOND);

    let second = Stopwatch::start_at(later(1_000));
    assert_eq!(second.now_at(later(1_500)), 500_000_000);
    assert_eq!(second.now_at(reading), 0);
}

fn antenna(id: &str) -> Antenna {
    Antenna { id: id.to_string(), keywords_groups: vec![] }
}

fn ids(list: &[&str]) -> Vec<String> {
    list.iter().map(|id| id.to_string()).collect()
}

/// No limits, and the clock readings at given times on the stopwatch of later ones.
fn no_limits() -> (RateLimits, impl Fn(i128) -> Readings) {
    let start = Instant::now();
    let limits = RateLimits::with_clock(Stopwatch::start_at(start));
    let at = move |nanos: i128| {
        let time = start + Duration::from_nanos(nanos as u64);
        Readings { cutoff: time, stamp: time, warning: time }
    };
    (limits, at)
}

#[test]
fn each_antenna_has_its_own_limit() {
    let mut limits = RateLimits::new();
    limits.add_missing(&vec![antenna("a"), antenna("b")], 1);
    let verdicts = limits.decide_all(&ids(&["a", "b", "a", "a"]));
    let said: Vec<(&str, bool, bool, bool)> = verdicts
        .iter()
        .map(|v| (v.antenna_id.as_str(), v.unannounced, v.admitted, v.warn))
        .collect();
    assert_eq!(
        said,
        vec![
            ("a", false, true, false),
            ("b", false, true, false),
            ("a", false, false, true),
            ("a", false, false, false),
        ]
    );
}

#[test]
fn an_unannounced_antenna_gets_a_limit_of_five() {
    let mut limits = RateLimits::new();
    for i in 0..7 {
        let verdict = limits.decide("new");
        assert_eq!(verdict.unannounced, i == 0);
        assert_eq!(verdict.admitted, i < 5);
        assert_eq!(verdict.warn, i == 5);
    }
}

#[test]
fn adding_keeps_and_resetting_forgets_what_is_used() {
    let list = vec![antenna("a")];
    let (mut limits, at) = no_limits();
    limits.add_missing(&list, 1);
    assert!(limits.decide_at("a", at(0)).admitted);
    limits.add_missing(&list, 100);
    assert!(!limits.decide_at("a", at(1)).admitted);
    limits.reset_all(&list, 2);
    assert!(limits.decide_at("a", at(2)).admitted);
    assert!(limits.decide_at("a", at(3)).admitted);
    assert!(!limits.decide_at("a", at(4)).admitted);
}

#[test]
fn decisions_follow_the_clock_readings() {
    let (mut limits, at) = no_limits();
    limits.add_missing(&vec![antenna("a"), antenna("b")], 1);
    let verdicts = limits.decide_all_at(
        &ids(&["a", "a", "b", "a"]),
        &vec![at(0), at(1), at(2), at(MINUTE)],
    );
    let admitted: Vec<bool> = verdicts.iter().map(|v| v.admitted).collect();
    assert_eq!(admitted, vec![true, false, true, true]);
    assert!(verdicts[1].warn);
}

#[test]
fn the_stopwatch_of_a_limit_is_kept_from_match_to_match() {
    let (mut limits, at) = no_limits();
    limits.add_missing(&vec![antenna("a"), antenna("b")], 2);
    assert!(limits.decide_at("a", at(10)).admitted);
    assert!(limits.decide_at("b", at(MINUTE / 2)).admitted);
    assert!(limits.decide_at("a", at(MINUTE / 2)).admitted);
    assert!(!limits.decide_at("a", at(MINUTE + 9)).admitted);
    limits.add_missing(&vec![antenna("a"), antenna("c")], 2);
    assert!(limits.decide_at("a", at(MINUTE + 10)).admitted);
    assert!(!limits.decide_at("a", at(MINUTE + 11)).admitted);
    assert!(limits.decide_at("a", at(MINUTE + MINUTE / 2)).admitted);
}

#[test]
fn two_lists_of_matches_are_decided_as_one() {
    let matches = ids(&["a", "b", "a", "new", "b", "a", "a", "new"]);
    let times: [i128; 8] = [0, 1, 2, MINUTE - 1, MINUTE, MINUTE + 1, MINUTE + 2, 2 * MINUTE];
    let outcomes: Vec<Vec<(String, bool, bool, bool)>> = (0..=matches.len())
        .map(|cut| {
            let (mut limits, at) = no_limits();
            limits.add_missing(&vec![antenna("a"), antenna("b")], 1);
            let readings: Vec<Readings> = times.iter().map(|time| at(*time)).collect();
            let mut verdicts =
                limits.decide_all_at(&matches[..cut].to_vec(), &readings[..cut].to_vec());
            verdicts.extend(
                limits.decide_all_at(&matches[cut..].to_vec(), &readings[cut..].to_vec()),
            );
            verdicts
                .into_iter()
                .map(|v| (v.antenna_id, v.unannounced, v.admitted, v.warn))
                .collect()
        })
        .collect();
    assert!(outcomes.iter().all(|outcome| *outcome == outcomes[0]));
    let admitted: Vec<bool> = outcomes[0].iter().map(|verdict| verdict.2).collect();
    assert_eq!(admitted, vec![true, true, false, true, false, true, false, true]);
}

#[test]
fn an_antenna_without_a_limit_never_exceeds_the_one_it_gets() {
    for refreshed in [false, true] {
        let (mut limits, at) = no_limits();
        let max = if refreshed { 3 } else { 5 };
        if refreshed {
            limits.add_missing(&vec![antenna("a")], max);
        }
        let mut admitted: Vec<i128> = Vec::new();
        for step in 0..400i128 {
            let now = step * 7 * NANOS_PER_SECOND;
            if limits.decide_at("a", at(now)).admitted {
                admitted.push(now);
            }
            limits.add_missing(&vec![antenna("a"), antenna("b")], 100);
        }
        let fullest = admitted
            .iter()
            .map(|end| admitted.iter().filter(|t| **t > end - MINUTE && *t <= end).count())
            .max();
        assert_eq!(fullest, Some(max));
    }
}
