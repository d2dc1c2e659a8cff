use opensearch::TransportError;
use opensearch::parts::SearchParts;
use opensearch::parts::api_path;
use opensearch::parts::encode_required_part;

#[test]
fn build_search_on_all_indices() {
    let parts = SearchParts::All;
    let url = parts.url();
    assert_eq!(url, "/_search");
}

#[test]
fn build_search_on_selected_indices() {
    let parts = SearchParts::Index(&["index-1", "index-2"]);
    let url = parts.url();
    assert_eq!(url, "/index-1,index-2/_search");
}

#[test]
fn percent_encode_characters() {
    let parts = SearchParts::Index(&[" !\"#$%&'\\()*+,-./:;<=>?@[\\]^_`{|}~"]);
    let url = parts.url();
    assert_eq!(url, "/%20%21%22%23%24%25%26%27%5C%28%29*%2B,-.%2F%3A%3B%3C%3D%3E%3F%40%5B%5C%5D%5E_%60%7B%7C%7D%7E/_search");
}

#[test]
fn empty_index_list_collapses_to_bare_search() {
    let parts = SearchParts::Index(&[]);
    assert_eq!(parts.url(), "/_search");
}

#[test]
fn api_path_joins_parts_before_encoding() {
    let path = api_path(&["logs-2024", "metrics*"], "_count");
    assert_eq!(path, "/logs-2024,metrics*/_count");
}

#[test]
fn required_part_rejects_empty_identifier() {
    assert_eq!(encode_required_part(""), Err(TransportError::InvalidPart));
}

#[test]
fn required_part_encodes_reserved_characters() {
    let encoded = encode_required_part("a doc/id").unwrap();
    assert_eq!(encoded, "a%20doc%2Fid");
}

// percent-decodes one path segment, undoing exactly what the encoder does
fn percent_decode(s: &str) -> Vec<u8> {
    let bytes = s.as_bytes();
    let mut out = Vec::new();
    let mut i = 0;
    while i < bytes.len() {
        if bytes[i] == b'%' && i + 2 < bytes.len() {
            let hv = |b: u8| -> u8 {
                if b.is_ascii_digit() { b - b'0' } else { b - b'A' + 10 }
            };
            out.push(hv(bytes[i + 1]) * 16 + hv(bytes[i + 2]));
            i += 3;
        } else {
            out.push(bytes[i]);
            i += 1;
        }
    }
    out
}

#[test]
fn encoded_segment_round_trips_through_percent_decoding() {
    let original = "logs index/№7 +*,-._~";
    let parts = SearchParts::Index(&[original]);
    let url = parts.url();
    let segment = url
        .strip_prefix('/')
        .unwrap()
        .strip_suffix("/_search")
        .unwrap();
    assert_eq!(percent_decode(segment), original.as_bytes());
    assert!(!segment.contains("%2A"));
    assert!(!segment.contains("%2C"));
    assert!(!segment.contains("%2D"));
}
