use velocity::performance::{
    sort_samples, BatchOptimizer, LatencyStats, LatencyTracker, LoadBalancer,
};
use velocity::studio::{assess, StudioEngine, SystemFindings};

fn pair(k: &str, v: &str) -> (String, String) {
    (k.to_string(), v.to_string())
}

#[test]
fn render_fills_in_every_placeholder() {
    let mut engine = StudioEngine::new();
    engine.register("index", "<h1>[[ title ]]</h1><p>[[ body ]] by [[ title ]]</p>[[ other ]]");
    let out = engine.render("index", &vec![pair("title", "Velocity"), pair("body", "fast")]);
    assert_eq!(out, "<h1>Velocity</h1><p>fast by Velocity</p>[[ other ]]");
}

#[test]
fn render_replaces_in_the_order_given() {
    let mut engine = StudioEngine::new();
    engine.register("t", "[[ a ]]");
    let out = engine.render("t", &vec![pair("a", "[[ b ]]"), pair("b", "done")]);
    assert_eq!(out, "done");
    let out = engine.render("t", &vec![pair("b", "done"), pair("a", "[[ b ]]")]);
    assert_eq!(out, "[[ b ]]");
}

#[test]
fn render_of_a_missing_template_says_so() {
    let engine = StudioEngine::new();
    assert_eq!(engine.render("home", &Vec::new()), "Template home not found");
    assert_eq!(
        engine.render("[[ x ]]", &vec![pair("x", "y")]),
        "Template y not found"
    );
}

#[test]
fn register_replaces_a_template_of_the_same_name() {
    let mut engine = StudioEngine::new();
    engine.register("a", "first");
    engine.register("b", "other");
    engine.register("a", "second");
    assert_eq!(engine.render("a", &Vec::new()), "second");
    assert_eq!(engine.render("b", &Vec::new()), "other");
}

fn healthy() -> SystemFindings {
    SystemFindings {
        config_exists: true,
        config_readable: true,
        has_bind_address: true,
        backup_disabled: false,
        sstable_count: 50,
        database_dir_exists: true,
    }
}

#[test]
fn healthy_installation_scores_a_hundred() {
    let report = assess(&healthy());
    assert_eq!(report.score, 100);
    assert!(report.issues.is_empty());
}

#[test]
fn missing_configuration_costs_fifty() {
    let mut f = healthy();
    f.config_exists = false;
    f.has_bind_address = false;
    f.backup_disabled = true;
    let report = assess(&f);
    assert_eq!(report.score, 50);
    assert_eq!(report.issues, vec!["Configuration file (velocity.toml) is missing!"]);
}

#[test]
fn every_other_issue_is_reported_in_order() {
    let f = SystemFindings {
        config_exists: true,
        config_readable: true,
        has_bind_address: false,
        backup_disabled: true,
        sstable_count: 51,
        database_dir_exists: false,
    };
    let report = assess(&f);
    assert_eq!(report.score, 45);
    assert_eq!(
        report.issues,
        vec![
            "Security: No bind_address defined, using default.",
            "Risk: Automatic backup system is disabled.",
            "Performance: High SSTable count (51), compaction might be lagging.",
            "Path Error: External database directory does not exist.",
        ]
    );
}

#[test]
fn unreadable_configuration_raises_no_issue_of_its_content() {
    let mut f = healthy();
    f.config_readable = false;
    f.has_bind_address = false;
    f.backup_disabled = true;
    f.sstable_count = 1234;
    let report = assess(&f);
    assert_eq!(report.score, 85);
    assert_eq!(
        report.issues,
        vec!["Performance: High SSTable count (1234), compaction might be lagging."]
    );
}

#[test]
fn samples_sort_ascending() {
    assert_eq!(sort_samples(&vec![5, 1, 4, 1, 9, 0]), vec![0, 1, 1, 4, 5, 9]);
    assert_eq!(sort_samples(&Vec::new()), Vec::<u64>::new());
    assert_eq!(sort_samples(&vec![u64::MAX, 0]), vec![0, u64::MAX]);
}

#[test]
fn empty_tracker_shows_zeros() {
    let tracker = LatencyTracker::new();
    assert_eq!(tracker.get_stats(), LatencyStats::default());
    assert_eq!(
        LatencyStats::default(),
        LatencyStats { count: 0, min: 0, max: 0, avg: 0, p50: 0, p95: 0, p99: 0 }
    );
}

#[test]
fn tracker_statistics_of_a_hundred_samples() {
    let mut tracker = LatencyTracker::new();
    for i in (1..=100u64).rev() {
        tracker.record(i * 10);
    }
    let stats = tracker.get_stats();
    assert_eq!(
        stats,
        LatencyStats { count: 100, min: 10, max: 1000, avg: 505, p50: 510, p95: 960, p99: 1000 }
    );
}

#[test]
fn tracker_statistics_of_few_samples() {
    let mut tracker = LatencyTracker::new();
    tracker.record(7);
    assert_eq!(
        tracker.get_stats(),
        LatencyStats { count: 1, min: 7, max: 7, avg: 7, p50: 7, p95: 7, p99: 7 }
    );
    tracker.record(2);
    tracker.record(4);
    // The mean of 7, 2 and 4 is 4.33: rounded down.
    assert_eq!(
        tracker.get_stats(),
        LatencyStats { count: 3, min: 2, max: 7, avg: 4, p50: 4, p95: 7, p99: 7 }
    );
}

#[test]
fn tracker_keeps_the_last_thousand_samples() {
    let mut tracker = LatencyTracker::new();
    for i in 0..1500u64 {
        tracker.record(i);
    }
    let stats = tracker.get_stats();
    assert_eq!(stats.count, 1000);
    assert_eq!(stats.min, 500);
    assert_eq!(stats.max, 1499);
    assert_eq!(stats.p50, 1000);
    assert_eq!(stats.p95, 1450);
    assert_eq!(stats.p99, 1490);
    assert_eq!(stats.avg, 999);
}

#[test]
fn tracker_mean_of_the_largest_samples() {
    let mut tracker = LatencyTracker::new();
    for _ in 0..1000 {
        tracker.record(u64::MAX);
    }
    let stats = tracker.get_stats();
    assert_eq!(stats.avg, u64::MAX);
    assert_eq!(stats.min, u64::MAX);
}

#[test]
fn balancer_hands_out_healthy_servers_in_turn() {
    let names = |v: &[&str]| v.iter().map(|s| s.to_string()).collect::<Vec<String>>();
    let mut balancer = LoadBalancer::new(names(&["a", "b", "c", "b"]));
    let mut seen = Vec::new();
    for _ in 0..5 {
        seen.push(balancer.get_next_server().unwrap());
    }
    assert_eq!(seen, names(&["a", "b", "c", "b", "a"]));
    // The sixth turn falls on the third of the healthy servers "a", "c" and the second "b".
    balancer.mark_server_unhealthy("b");
    assert_eq!(balancer.get_next_server(), Some("b".to_string()));
    assert_eq!(balancer.get_next_server(), Some("a".to_string()));
    balancer.mark_server_unhealthy("nobody");
    balancer.mark_server_unhealthy("a");
    balancer.mark_server_unhealthy("c");
    assert_eq!(balancer.get_next_server(), Some("b".to_string()));
    balancer.mark_server_healthy("b");
    balancer.mark_server_unhealthy("b");
    assert_eq!(balancer.get_next_server(), Some("b".to_string()));
}

#[test]
fn balancer_without_healthy_servers_hands_out_none() {
    let mut balancer = LoadBalancer::new(vec!["only".to_string()]);
    balancer.mark_server_unhealthy("only");
    assert_eq!(balancer.get_next_server(), None);
    balancer.mark_server_healthy("only");
    assert_eq!(balancer.get_next_server(), Some("only".to_string()));
    let mut empty = LoadBalancer::new(Vec::new());
    assert_eq!(empty.get_next_server(), None);
}

#[test]
fn optimizer_lets_a_full_batch_go() {
    let mut optimizer = BatchOptimizer::new(3, 100);
    assert_eq!(optimizer.add_write("a".to_string(), vec![1]), None);
    assert_eq!(optimizer.add_write("b".to_string(), vec![2]), None);
    assert_eq!(
        optimizer.add_write("c".to_string(), vec![3]),
        Some(vec![("a".to_string(), vec![1]), ("b".to_string(), vec![2]), ("c".to_string(), vec![3])])
    );
    assert_eq!(optimizer.add_write("d".to_string(), vec![4]), None);
    let mut eager = BatchOptimizer::new(0, 100);
    assert_eq!(eager.add_write("a".to_string(), vec![]), Some(vec![("a".to_string(), vec![])]));
}

#[test]
fn optimizer_lets_waiting_writes_go_after_the_timeout() {
    let mut optimizer = BatchOptimizer::new(10, 100);
    assert_eq!(optimizer.flush_if_needed(1000), None);
    optimizer.add_write("a".to_string(), vec![1]);
    assert_eq!(optimizer.flush_if_needed(99), None);
    assert_eq!(optimizer.flush_if_needed(100), Some(vec![("a".to_string(), vec![1])]));
    assert_eq!(optimizer.flush_if_needed(100), None);
}
