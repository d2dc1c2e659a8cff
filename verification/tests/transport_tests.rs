use opensearch::LastFailure;
use opensearch::TransportError;
use opensearch::pool::ConnectionPool;
use opensearch::transport::AttemptOutcome;
use opensearch::transport::Dispatcher;
use opensearch::transport::MAX_BACKOFF_MILLIS;
use opensearch::transport::RetryPolicy;
use opensearch::transport::Step;
use opensearch::transport::request_target;
use opensearch::transport::{attempt_headers, Request};
use opensearch::pool::Connection;
use opensearch::transport::error_for_status;

fn policy(max_retries: u64) -> RetryPolicy {
    RetryPolicy { max_retries, retry_statuses: vec![502, 503, 504], base_backoff_millis: 100 }
}

fn pool_of(urls: &[&str]) -> ConnectionPool {
    let urls: Vec<String> = urls.iter().map(|u| u.to_string()).collect();
    ConnectionPool::new(urls, None).unwrap()
}

// drives a whole call against a backend that answers every attempt alike,
// returning how many executions ran and how the call ended
fn drive(max_retries: u64, outcome: AttemptOutcome, pool: &mut ConnectionPool) -> (u64, Step) {
    let mut d = Dispatcher::start(policy(max_retries), pool, 0);
    let mut executions: u64 = 0;
    loop {
        executions += 1; // the driver performs the in-flight attempt
        match d.on_outcome(pool, outcome, 0) {
            Step::Backoff { .. } => continue,
            done => return (executions, done),
        }
    }
}

#[test]
fn always_retryable_status_runs_max_retries_plus_one_attempts() {
    let mut pool = pool_of(&["http://a:9200", "http://b:9200"]);
    let k = 3;
    let (executions, end) = drive(k, AttemptOutcome::Status(503), &mut pool);
    assert_eq!(executions, k + 1);
    assert_eq!(
        end,
        Step::Fail(TransportError::MaxRetriesExceeded(LastFailure::Status(503)))
    );
}

#[test]
fn non_retryable_status_is_delivered_after_one_attempt() {
    let mut pool = pool_of(&["http://a:9200", "http://b:9200"]);
    let (executions, end) = drive(5, AttemptOutcome::Status(404), &mut pool);
    assert_eq!(executions, 1);
    assert_eq!(end, Step::Deliver(404));
}

#[test]
fn success_is_delivered_verbatim() {
    let mut pool = pool_of(&["http://a:9200"]);
    let (executions, end) = drive(5, AttemptOutcome::Status(200), &mut pool);
    assert_eq!(executions, 1);
    assert_eq!(end, Step::Deliver(200));
}

#[test]
fn connection_failures_exhaust_retries_and_mark_nodes_dead() {
    let mut pool = pool_of(&["http://a:9200", "http://b:9200"]);
    let (executions, end) = drive(1, AttemptOutcome::Failed, &mut pool);
    assert_eq!(executions, 2);
    assert_eq!(
        end,
        Step::Fail(TransportError::MaxRetriesExceeded(LastFailure::Connection))
    );
    // both nodes took one failure each
    assert!(pool.connections[0].dead_since.is_some());
    assert!(pool.connections[1].dead_since.is_some());
}

#[test]
fn retry_after_connection_failure_moves_to_a_fresh_node() {
    let mut pool = pool_of(&["http://a:9200", "http://b:9200"]);
    let mut d = Dispatcher::start(policy(3), &mut pool, 0);
    let first = d.current;
    match d.on_outcome(&mut pool, AttemptOutcome::Failed, 0) {
        Step::Backoff { connection, .. } => assert_ne!(connection, first),
        other => panic!("expected a retry, got {:?}", other),
    }
}

#[test]
fn backoff_doubles_and_caps() {
    let p = policy(9);
    assert_eq!(p.backoff_millis(0), 100);
    assert_eq!(p.backoff_millis(1), 200);
    assert_eq!(p.backoff_millis(4), 1_600);
    assert_eq!(p.backoff_millis(60), MAX_BACKOFF_MILLIS);
}

#[test]
fn retryable_statuses_come_from_the_policy() {
    let p = policy(0);
    assert!(p.retryable_status(503));
    assert!(!p.retryable_status(404));
    assert!(!p.retryable_status(200));
}

#[test]
fn request_target_appends_the_encoded_query() {
    let query = vec![
        ("q".to_string(), "user name".to_string()),
        ("size".to_string(), "10".to_string()),
    ];
    assert_eq!(request_target("/idx/_search", &query), "/idx/_search?q=user%20name&size=10");
    assert_eq!(request_target("/idx/_search", &Vec::new()), "/idx/_search");
}

#[test]
fn attempt_headers_put_connection_headers_first() {
    let mut conn = Connection::new("http://a:9200".to_string());
    conn.headers.push(("x-node".to_string(), "a".to_string()));
    let request = Request {
        method: "GET".to_string(),
        path: "/_search".to_string(),
        query: Vec::new(),
        headers: vec![("accept".to_string(), "application/json".to_string())],
        body: None,
    };
    let merged = attempt_headers(&conn, &request);
    assert_eq!(merged.len(), 2);
    assert_eq!(merged[0].0, "x-node");
    assert_eq!(merged[1].0, "accept");
    assert_eq!(request.target(), "/_search");
}

#[test]
fn statuses_outside_the_success_class_become_http_status_errors() {
    assert_eq!(error_for_status(200), Ok(200));
    assert_eq!(error_for_status(299), Ok(299));
    assert_eq!(error_for_status(404), Err(TransportError::HttpStatus(404)));
    assert_eq!(error_for_status(503), Err(TransportError::HttpStatus(503)));
}
