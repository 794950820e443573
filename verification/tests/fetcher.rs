use base64::Engine;
use gallery_core::fetcher::content_type_of;
use gallery_core::fetcher::data_uri;

#[test]
fn png_header_gives_png_data_uri() {
    let body: Vec<u8> = vec![1, 2, 3];
    let uri = data_uri(Some("image/png; charset=binary"), &body);
    assert!(uri.starts_with("data:image/png;base64,"));
}

#[test]
fn missing_header_defaults_to_jpeg() {
    let body: Vec<u8> = vec![1, 2, 3];
    let uri = data_uri(None, &body);
    assert!(uri.starts_with("data:image/jpeg;base64,"));
}

#[test]
fn payload_round_trips_to_the_body_bytes() {
    let body: Vec<u8> = (0u16..=255).map(|b| b as u8).collect();
    let uri = data_uri(None, &body);
    let prefix = "data:image/jpeg;base64,";
    assert!(uri.starts_with(prefix));
    let decoded = base64::engine::general_purpose::STANDARD
        .decode(&uri[prefix.len()..])
        .unwrap();
    assert_eq!(decoded, body);
}

#[test]
fn exact_data_uri_for_known_bytes() {
    let body: Vec<u8> = b"hi".to_vec();
    let uri = data_uri(None, &body);
    assert_eq!(uri, "data:image/jpeg;base64,aGk=");
}

#[test]
fn empty_body_gives_empty_payload() {
    let body: Vec<u8> = Vec::new();
    let uri = data_uri(Some("image/gif"), &body);
    assert_eq!(uri, "data:image/gif;base64,");
}

#[test]
fn content_type_takes_part_before_parameters() {
    assert_eq!(content_type_of(Some("text/html; charset=utf-8")), "text/html");
}

#[test]
fn content_type_is_trimmed() {
    assert_eq!(content_type_of(Some("  image/webp  ; q=1")), "image/webp");
}

#[test]
fn content_type_defaults_when_absent() {
    assert_eq!(content_type_of(None), "image/jpeg");
}

#[test]
fn empty_header_gives_empty_content_type() {
    assert_eq!(content_type_of(Some("")), "");
    let uri = data_uri(Some(""), &vec![9u8]);
    assert!(uri.starts_with("data:;base64,"));
}

#[test]
fn header_without_parameters_is_kept_whole() {
    assert_eq!(content_type_of(Some("image/png")), "image/png");
}

#[test]
fn semicolon_only_header_gives_empty_content_type() {
    assert_eq!(content_type_of(Some(";foo")), "");
}
