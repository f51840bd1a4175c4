use std::time::{Duration, Instant};
use super_antenna::api::{antennas_url, bearer, fetch_error, import_url};
use super_antenna::clock::Stopwatch;
use super_antenna::config::{max_matches_per_minute, metrics_port, parse_number};
use super_antenna::keywords::Antenna;
use super_antenna::limits::{RateLimits, Readings, Verdict};
use super_antenna::metrics;
use super_antenna::posts::{
    handle_post, match_post, plan_import, settle, settle_at, Account, Post,
};

fn post(content: &str) -> Post {
    Post {
        id: "123".to_string(),
        content: content.to_string(),
        uri: "https://example.com/posts/123".to_string(),
        account: Account { username: "testuser".to_string() },
    }
}

fn antenna(id: &str, keyword: &str) -> Antenna {
    Antenna { id: id.to_string(), keywords_groups: vec![vec![keyword.to_string()]] }
}

fn verdict(id: &str, admitted: bool) -> Verdict {
    Verdict { antenna_id: id.to_string(), unannounced: false, admitted, warn: !admitted }
}

#[test]
fn a_post_is_matched_in_lower_case() {
    let antennas = vec![antenna("1", "äpfel"), antenna("2", "ÄPFEL"), antenna("3", "ROT")];
    assert_eq!(match_post(&post("Rote ÄPFEL, rot"), &antennas), vec!["1", "3"]);
    assert!(match_post(&post("Birnen"), &antennas).is_empty());
}

#[test]
fn a_post_is_imported_if_a_match_is_admitted() {
    let verdicts = vec![verdict("a", false), verdict("b", true), verdict("c", true)];
    let import = plan_import(&verdicts, "u".to_string(), "https://x.y", "t").unwrap();
    assert_eq!(import.url, "https://x.y/api/ap/show");
    assert_eq!(import.authorization, "Bearer t");
    assert_eq!(import.request.uri, "u");
    assert_eq!(import.antennas, vec!["b", "c"]);
    assert!(plan_import(&vec![verdict("a", false)], "u".to_string(), "b", "t").is_none());
    assert!(plan_import(&vec![], "u".to_string(), "b", "t").is_none());
}

#[test]
fn a_matching_post_with_room_is_imported() {
    let antennas = vec![antenna("1", "rust"), antenna("2", "go")];
    let mut limits = RateLimits::new();
    limits.add_missing(&antennas, 1);
    let matching = match_post(&post("Rust!"), &antennas);
    let settlement = settle(post("Rust!"), &matching, &mut limits, "https://x.y", "t");
    assert_eq!(settlement.verdicts.len(), 1);
    let import = settlement.import.unwrap();
    assert_eq!(import.request.uri, "https://example.com/posts/123");
    assert_eq!(import.antennas, vec!["1"]);
    let settlement = settle(post("Rust!"), &matching, &mut limits, "https://x.y", "t");
    assert!(settlement.import.is_none());
    assert!(settlement.verdicts[0].warn);
}

#[test]
fn a_post_is_handled_for_the_antennas_that_it_matches() {
    let antennas = vec![antenna("1", "rust"), antenna("2", "go"), antenna("3", "äpfel")];
    let mut limits = RateLimits::new();
    limits.add_missing(&antennas, 2);
    let mut handle = |content: &str| {
        let settlement = handle_post(post(content), &antennas, &mut limits, "https://x.y", "t");
        let decided: Vec<(String, bool)> =
            settlement.verdicts.into_iter().map(|v| (v.antenna_id, v.admitted)).collect();
        (decided, settlement.import.map(|import| import.antennas))
    };
    let said = |list: &[(&str, bool)]| -> Vec<(String, bool)> {
        list.iter().map(|(id, admitted)| (id.to_string(), *admitted)).collect()
    };
    let named =
        |list: &[&str]| Some(list.iter().map(|id| id.to_string()).collect::<Vec<String>>());
    assert_eq!(
        handle("ÄPFEL in Rust"),
        (said(&[("1", true), ("3", true)]), named(&["1", "3"]))
    );
    assert_eq!(handle("golang"), (said(&[]), None));
    assert_eq!(handle("rust"), (said(&[("1", true)]), named(&["1"])));
    assert_eq!(handle("rust, go"), (said(&[("1", false), ("2", true)]), named(&["2"])));
    assert_eq!(handle("rust"), (said(&[("1", false)]), None));
}

#[test]
fn an_unmatched_post_changes_nothing() {
    let mut limits = RateLimits::new();
    let settlement = settle(post("x"), &vec![], &mut limits, "b", "t");
    assert!(settlement.verdicts.is_empty());
    assert!(settlement.import.is_none());
}

#[test]
fn a_post_is_settled_by_the_clock_readings() {
    let start = Instant::now();
    let mut limits = RateLimits::with_clock(Stopwatch::start_at(start));
    limits.add_missing(&vec![antenna("1", "rust")], 1);
    let matching = vec!["1".to_string()];
    let outcomes: Vec<bool> = [0, 1, 60_000_000_000]
        .into_iter()
        .map(|nanos| {
            let time = start + Duration::from_nanos(nanos);
            let readings = vec![Readings { cutoff: time, stamp: time, warning: time }];
            settle_at(post("rust"), &matching, &mut limits, &readings, "b", "t").import.is_some()
        })
        .collect();
    assert_eq!(outcomes, vec![true, false, true]);
}

#[test]
fn texts_of_requests() {
    assert_eq!(antennas_url("https://x.y"), "https://x.y/api/admin/antennas/global");
    assert_eq!(import_url(""), "/api/ap/show");
    assert_eq!(bearer("abc"), "Bearer abc");
    assert_eq!(fetch_error("404 Not Found"), "Failed to fetch antennas: HTTP 404 Not Found");
}

#[test]
fn numbers_are_read_as_the_standard_library_reads_them() {
    let samples = [
        "", "+", "-", "0", "+0", "-0", "7", "+7", "++7", "007", "65535", "65536", "9091x", " 1",
        "1 ", "1_0", "18446744073709551615", "18446744073709551616",
        "99999999999999999999999999999999999999999", "٣", "0000000000000000000000000000001",
    ];
    for s in samples {
        assert_eq!(parse_number(s, u64::MAX), s.parse::<u64>().ok(), "{s:?}");
        assert_eq!(metrics_port(Some(s)), s.parse::<u16>().unwrap_or(9091), "{s:?}");
        assert_eq!(max_matches_per_minute(Some(s)), s.parse::<usize>().unwrap_or(15), "{s:?}");
    }
    assert_eq!(parse_number("10", 9), None);
    assert_eq!(parse_number("9", 9), Some(9));
}

#[test]
fn unset_numbers_have_defaults() {
    assert_eq!(metrics_port(None), 9091);
    assert_eq!(max_matches_per_minute(None), 15);
}

#[test]
fn each_decided_match_has_its_counter() {
    assert_eq!(metrics::counter_for(&verdict("a", true)), metrics::MatchCounter::Matched);
    assert_eq!(metrics::counter_for(&verdict("a", false)), metrics::MatchCounter::RateLimited);
}

#[test]
fn the_metrics_can_be_registered() {
    let registry = prometheus::Registry::new();
    for definition in [metrics::posts_processed(), metrics::active_antennas()] {
        assert!(definition.labels.is_empty());
        let counter = prometheus::IntCounter::new(definition.name, definition.help).unwrap();
        registry.register(Box::new(counter)).unwrap();
    }
    for definition in [metrics::posts_matched(), metrics::posts_rate_limited()] {
        assert_eq!(definition.labels, vec!["antenna_id"]);
        let labels: Vec<&str> = definition.labels.iter().map(|label| label.as_str()).collect();
        let opts = prometheus::Opts::new(definition.name, definition.help);
        let counters = prometheus::IntCounterVec::new(opts, &labels).unwrap();
        registry.register(Box::new(counters.clone())).unwrap();
        counters.with_label_values(&["1"]).inc();
    }
    let definition = metrics::post_processing_time();
    let bounds: Vec<f64> =
        metrics::processing_time_bounds().iter().map(|ms| *ms as f64 / 1000.0).collect();
    assert_eq!(bounds, vec![0.001, 0.005, 0.01, 0.025, 0.05, 0.1, 0.25, 0.5, 1.0, 2.5, 5.0]);
    let opts = prometheus::HistogramOpts::new(definition.name, definition.help).buckets(bounds);
    registry.register(Box::new(prometheus::Histogram::with_opts(opts).unwrap())).unwrap();
    let names: Vec<String> =
        registry.gather().iter().map(|family| family.get_name().to_string()).collect();
    assert_eq!(
        names,
        vec![
            "super_antenna_active_antennas",
            "super_antenna_post_processing_time_seconds",
            "super_antenna_posts_matched_total",
            "super_antenna_posts_processed_total",
            "super_antenna_posts_rate_limited_total",
        ]
    );
}
