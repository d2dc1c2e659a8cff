use opensearch::TransportError;
use opensearch::pool::BASE_RESURRECT_MILLIS;
use opensearch::pool::ConnectionPool;
use opensearch::pool::MAX_RESURRECT_MILLIS;
use opensearch::pool::resurrect_timeout;

fn pool_of(urls: &[&str]) -> ConnectionPool {
    let urls: Vec<String> = urls.iter().map(|u| u.to_string()).collect();
    ConnectionPool::new(urls, None).unwrap()
}

#[test]
fn empty_node_list_is_a_configuration_defect() {
    let r = ConnectionPool::new(Vec::new(), None);
    assert!(matches!(r, Err(TransportError::NoConnections)));
}

#[test]
fn single_node_pool_always_returns_its_node() {
    let mut pool = ConnectionPool::single_node("http://one:9200".to_string());
    for _ in 0..5 {
        assert_eq!(pool.next(0), 0);
    }
}

#[test]
fn round_robin_visits_every_healthy_node_fairly() {
    let mut pool = pool_of(&["http://a:9200", "http://b:9200", "http://c:9200"]);
    let mut visits = [0usize; 3];
    // twelve calls over three healthy nodes: each is visited exactly four times
    for _ in 0..12 {
        visits[pool.next(0)] += 1;
    }
    assert_eq!(visits, [4, 4, 4]);
}

#[test]
fn dead_node_is_skipped_until_its_cooldown_elapses() {
    let mut pool = pool_of(&["http://a:9200", "http://b:9200", "http://c:9200"]);
    let first = pool.next(1_000);
    pool.report_failure(first, 1_000);
    // while the cooldown runs, the dead node is never selected
    for _ in 0..10 {
        let picked = pool.next(1_500);
        assert_ne!(picked, first);
    }
    // once the grown cooldown has elapsed, it is offered again
    let later = 1_000 + 2 * BASE_RESURRECT_MILLIS;
    let mut seen_first = false;
    for _ in 0..3 {
        if pool.next(later) == first {
            seen_first = true;
        }
    }
    assert!(seen_first);
}

#[test]
fn all_dead_pool_force_selects_the_node_dead_longest() {
    let mut pool = pool_of(&["http://a:9200", "http://b:9200"]);
    pool.report_failure(0, 100);
    pool.report_failure(1, 900);
    // nothing is eligible at time 1000, so the least-recently-dead node wins
    assert_eq!(pool.next(1_000), 0);
}

#[test]
fn resurrect_timeout_doubles_and_caps() {
    assert_eq!(resurrect_timeout(0), BASE_RESURRECT_MILLIS);
    assert_eq!(resurrect_timeout(1), 2 * BASE_RESURRECT_MILLIS);
    assert_eq!(resurrect_timeout(2), 4 * BASE_RESURRECT_MILLIS);
    assert_eq!(resurrect_timeout(10), MAX_RESURRECT_MILLIS);
    assert_eq!(resurrect_timeout(u64::MAX), MAX_RESURRECT_MILLIS);
}

#[test]
fn sniff_refresh_keeps_liveness_of_surviving_urls() {
    let mut pool = pool_of(&["http://a:9200", "http://b:9200"]);
    pool.report_failure(0, 50);
    let new_urls = vec![
        "http://b:9200".to_string(),
        "http://a:9200".to_string(),
        "http://c:9200".to_string(),
    ];
    pool.refresh(new_urls, 60);
    assert_eq!(pool.connections.len(), 3);
    assert_eq!(pool.connections[0].url, "http://b:9200");
    assert!(pool.connections[0].dead_since.is_none());
    assert_eq!(pool.connections[1].url, "http://a:9200");
    assert_eq!(pool.connections[1].dead_since, Some(50));
    assert_eq!(pool.connections[2].url, "http://c:9200");
    assert!(pool.connections[2].dead_since.is_none());
}

#[test]
fn empty_sniff_result_retains_the_existing_set() {
    let mut pool = pool_of(&["http://a:9200"]);
    pool.refresh(Vec::new(), 10);
    assert_eq!(pool.connections.len(), 1);
    assert_eq!(pool.last_sniff, Some(10));
}

#[test]
fn sniffing_is_due_only_once_the_interval_passed() {
    let mut pool = ConnectionPool::new(vec!["http://a:9200".to_string()], Some(1_000)).unwrap();
    assert!(pool.due_for_sniff(0));
    pool.refresh(vec!["http://a:9200".to_string()], 0);
    assert!(!pool.due_for_sniff(999));
    assert!(pool.due_for_sniff(1_000));
    let without = ConnectionPool::single_node("http://a:9200".to_string());
    assert!(!without.due_for_sniff(u64::MAX));
}
