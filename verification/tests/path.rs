//! The path of an upgrade request.
use pylon::transport::worker::establish::Refusal;
use pylon::transport::worker::head::require_app_key;
use pylon::transport::worker::path::{parse_app_path, query_param};

#[test]
fn parse_app_path_extracts_key_protocol_and_version() {
    assert_eq!(
        parse_app_path("/app/app-key?protocol=7&version=7.4.1"),
        (
            Some("app-key".to_string()),
            Some("7".to_string()),
            Some("7.4.1".to_string())
        )
    );
    assert_eq!(
        parse_app_path("/app/app-key"),
        (Some("app-key".to_string()), None, None)
    );
    assert_eq!(
        parse_app_path("/app/k?foo=1&protocol=7&version=8.2.0&bar=2"),
        (
            Some("k".to_string()),
            Some("7".to_string()),
            Some("8.2.0".to_string())
        )
    );
    // A version without a protocol.
    assert_eq!(
        parse_app_path("/app/k?version=7.4.1"),
        (Some("k".to_string()), None, Some("7.4.1".to_string()))
    );
}

#[test]
fn parse_app_path_rejects_non_app_shapes_with_none() {
    assert_eq!(
        parse_app_path("/nope/?protocol=7"),
        (None, Some("7".to_string()), None)
    );
    assert_eq!(
        parse_app_path("/app/?protocol=7"),
        (None, Some("7".to_string()), None)
    );
    assert_eq!(
        parse_app_path("/app/a/b?protocol=7"),
        (None, Some("7".to_string()), None)
    );
    assert_eq!(parse_app_path("/"), (None, None, None));
}

#[test]
fn the_first_value_of_a_repeated_parameter_counts() {
    assert_eq!(
        query_param(Some("a=1&b=2&a=3"), "a"),
        Some("1".to_string())
    );
    assert_eq!(query_param(Some("a=1"), "b"), None);
    assert_eq!(query_param(None, "a"), None);
}

#[test]
fn a_path_without_a_key_is_refused() {
    assert_eq!(require_app_key(None), Err(Refusal::PathNotFound));
    assert_eq!(Refusal::PathNotFound.code(), 4005);
    assert_eq!(require_app_key(Some("k".to_string())), Ok("k".to_string()));
}
