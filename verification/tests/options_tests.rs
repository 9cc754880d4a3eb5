use multipart_parser::MultipartError;
use multipart_parser::parse_options_header;

#[test]
fn token_without_parameters() {
    let (token, params) = parse_options_header(String::from("  text/plain  ")).unwrap();
    assert_eq!(token, "text/plain");
    assert_eq!(params.len(), 0);
}

#[test]
fn token_with_parameters() {
    let (token, params) =
        parse_options_header(String::from("form-data; name=\"a\"; filename=\"f.txt\"")).unwrap();
    assert_eq!(token, "form-data");
    assert_eq!(params.len(), 2);
    assert_eq!(params.get("name").unwrap(), "\"a\"");
    assert_eq!(params.get("filename").unwrap(), "\"f.txt\"");
    assert!(params.get("missing").is_none());
}

#[test]
fn parameter_sides_are_trimmed() {
    let (token, params) = parse_options_header(String::from("t;  key  =  value  ")).unwrap();
    assert_eq!(token, "t");
    assert_eq!(params.get("key").unwrap(), "value");
}

#[test]
fn parameter_without_equals_is_rejected() {
    assert_eq!(
        parse_options_header(String::from("form-data; name")).err(),
        Some(MultipartError::MalformedHeaderValue)
    );
}

#[test]
fn trailing_semicolon_is_rejected() {
    assert_eq!(
        parse_options_header(String::from("form-data;")).err(),
        Some(MultipartError::MalformedHeaderValue)
    );
}

#[test]
fn duplicate_keys_keep_the_last_value() {
    let (_, params) = parse_options_header(String::from("t; k=1; k=2")).unwrap();
    assert_eq!(params.len(), 1);
    assert_eq!(params.get("k").unwrap(), "2");
}

#[test]
fn value_splits_on_the_first_equals() {
    let (_, params) = parse_options_header(String::from("t; k=a=b")).unwrap();
    assert_eq!(params.get("k").unwrap(), "a=b");
}

#[test]
fn empty_token_is_kept() {
    let (token, params) = parse_options_header(String::from("; k=v")).unwrap();
    assert_eq!(token, "");
    assert_eq!(params.get("k").unwrap(), "v");
}
