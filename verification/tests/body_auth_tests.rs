use opensearch::TransportError;
use opensearch::auth::AuthProvider;
use opensearch::auth::SigningCredentials;
use opensearch::auth::sort_pairs_by_key;
use opensearch::body::Body;

#[test]
fn ndjson_frames_each_document_with_one_newline_in_order() {
    let body = Body::NdJson(vec![br#"{"a":1}"#.to_vec(), br#"{"b":2}"#.to_vec()]);
    let encoded = body.encode().unwrap();
    assert_eq!(encoded, b"{\"a\":1}\n{\"b\":2}\n".to_vec());
}

#[test]
fn empty_bulk_body_is_rejected() {
    let body = Body::NdJson(Vec::new());
    assert!(matches!(body.encode(), Err(TransportError::EmptyBulkBody)));
}

#[test]
fn json_and_raw_bodies_pass_through_unchanged() {
    let doc = br#"{"query":{"match_all":{}}}"#.to_vec();
    assert_eq!(Body::Json(doc.clone()).encode().unwrap(), doc);
    let raw = vec![0u8, 159, 146, 150];
    assert_eq!(Body::Raw(raw.clone()).encode().unwrap(), raw);
}

#[test]
fn content_types_follow_the_body_kind() {
    assert_eq!(Body::Json(Vec::new()).content_type(), Some("application/json"));
    assert_eq!(Body::NdJson(Vec::new()).content_type(), Some("application/x-ndjson"));
    assert_eq!(Body::Raw(Vec::new()).content_type(), None);
}

#[test]
fn anonymous_auth_adds_no_headers() {
    let auth = AuthProvider::Anonymous;
    let headers = auth
        .sign("GET", "/", Vec::new(), Vec::new(), b"", "20240101", "20240101T000000Z", 0)
        .unwrap();
    assert!(headers.is_empty());
}

#[test]
fn basic_auth_encodes_the_credentials() {
    let auth = AuthProvider::Basic("user".to_string(), "pass".to_string());
    let headers = auth
        .sign("GET", "/", Vec::new(), Vec::new(), b"", "20240101", "20240101T000000Z", 0)
        .unwrap();
    assert_eq!(headers.len(), 1);
    assert_eq!(headers[0].0, "authorization");
    assert_eq!(headers[0].1, "Basic dXNlcjpwYXNz");
}

fn credentials() -> SigningCredentials {
    SigningCredentials {
        access_key: "AKIDEXAMPLE".to_string(),
        secret_key: "test-secret-key".to_string(),
        region: "us-east-1".to_string(),
        service: "es".to_string(),
        expiry: None,
    }
}

fn request_headers() -> Vec<(String, String)> {
    vec![
        ("Host".to_string(), "example.com".to_string()),
        ("X-Custom".to_string(), "  padded value  ".to_string()),
    ]
}

fn sign_once(headers: Vec<(String, String)>) -> Vec<(String, String)> {
    let auth = AuthProvider::Signing(credentials());
    auth.sign(
        "POST",
        "/index/_search",
        vec![("size".to_string(), "10".to_string()), ("from".to_string(), "0".to_string())],
        headers,
        br#"{"query":{"match_all":{}}}"#,
        "20240101",
        "20240101T000000Z",
        0,
    )
    .unwrap()
}

#[test]
fn signing_emits_the_three_signature_headers() {
    let headers = sign_once(request_headers());
    assert_eq!(headers.len(), 3);
    assert_eq!(headers[0].0, "x-amz-date");
    assert_eq!(headers[0].1, "20240101T000000Z");
    assert_eq!(headers[1].0, "x-amz-content-sha256");
    assert_eq!(headers[2].0, "authorization");
    let auth_value = &headers[2].1;
    assert!(auth_value.starts_with(
        "AWS4-HMAC-SHA256 Credential=AKIDEXAMPLE/20240101/us-east-1/es/aws4_request"
    ));
    assert!(auth_value.contains("SignedHeaders=host;x-custom"));
    assert!(auth_value.contains("Signature="));
}

#[test]
fn signing_twice_gives_byte_identical_headers() {
    let first = sign_once(request_headers());
    let second = sign_once(request_headers());
    assert_eq!(first, second);
}

#[test]
fn changing_one_header_value_changes_the_signature() {
    let baseline = sign_once(request_headers());
    let mut changed_headers = request_headers();
    changed_headers[1].1 = "  padded value x ".to_string();
    let changed = sign_once(changed_headers);
    assert_ne!(baseline[2].1, changed[2].1);
}

#[test]
fn content_hash_of_an_empty_body_matches_the_known_digest() {
    let auth = AuthProvider::Signing(credentials());
    let headers = auth
        .sign("GET", "/", Vec::new(), Vec::new(), b"", "20240101", "20240101T000000Z", 0)
        .unwrap();
    assert_eq!(
        headers[1].1,
        "e3b0c44298fc1c149afbf4c8996fb92427ae41e4649b934ca495991b7852b855"
    );
}

#[test]
fn expired_or_absent_credentials_fail_with_signing_error() {
    let mut expired = credentials();
    expired.expiry = Some(100);
    let auth = AuthProvider::Signing(expired);
    let r = auth.sign("GET", "/", Vec::new(), Vec::new(), b"", "20240101", "20240101T000000Z", 100);
    assert!(matches!(r, Err(TransportError::SigningError)));

    let mut absent = credentials();
    absent.secret_key = String::new();
    let auth = AuthProvider::Signing(absent);
    let r = auth.sign("GET", "/", Vec::new(), Vec::new(), b"", "20240101", "20240101T000000Z", 0);
    assert!(matches!(r, Err(TransportError::SigningError)));
}

#[test]
fn sorting_orders_pairs_by_key_bytes() {
    let pairs = vec![
        ("size".to_string(), "10".to_string()),
        ("from".to_string(), "0".to_string()),
        ("q".to_string(), "x".to_string()),
    ];
    let sorted = sort_pairs_by_key(pairs, false);
    let keys: Vec<&str> = sorted.iter().map(|p| p.0.as_str()).collect();
    assert_eq!(keys, vec!["from", "q", "size"]);
}
