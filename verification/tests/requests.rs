use mpvserve::api::{ApiBrowseResult, Config, JsonError};
use mpvserve::http::{HostHeader, NeverHappensError, UserId};
use mpvserve::reading_dirs::ReadDirResult;

#[test]
fn host_header_is_kept_as_sent() {
    let header = HostHeader::from_header(Some("example.org:8000")).unwrap();
    assert_eq!(header.to_string(), "example.org:8000");
}

#[test]
fn missing_host_header_is_an_error() {
    match HostHeader::from_header(None) {
        Err(error) => assert_eq!(error, NeverHappensError::MissingHostHeader),
        Ok(header) => panic!("expected an error, got {:?}", header),
    }
}

#[test]
fn cookie_names_the_viewer() {
    let (user, set_cookie) = UserId::from_cookie(Some("abc-123"));
    assert_eq!(user.to_string(), "abc-123");
    assert_eq!(user.as_str(), "abc-123");
    assert!(!set_cookie);
}

#[test]
fn viewer_without_cookie_gets_a_new_identifier() {
    let (first, set_first) = UserId::from_cookie(None);
    let (second, set_second) = UserId::from_cookie(None);
    assert!(set_first);
    assert!(set_second);
    assert!(!first.to_string().is_empty());
    assert_ne!(first.to_string(), second.to_string());
}

#[test]
fn fallback_identifier_is_used_only_without_cookie() {
    let (user, set_cookie) = UserId::from_cookie_or(None, "fresh".to_string());
    assert_eq!(user.to_string(), "fresh");
    assert!(set_cookie);
    let (user, set_cookie) = UserId::from_cookie_or(Some("known"), "fresh".to_string());
    assert_eq!(user.to_string(), "known");
    assert!(!set_cookie);
}

#[test]
fn file_request_without_user_gets_the_placeholder() {
    assert_eq!(UserId::or_missing(None), "MISSING_USER_ID");
    assert_eq!(UserId::or_missing(Some("someone".to_string())), "someone");
    assert_eq!(UserId::or_missing(Some(String::new())), "");
}

#[test]
fn browse_answer_wraps_listing_or_message() {
    let listing = ReadDirResult { dirs: Vec::new(), movies: Vec::new() };
    match ApiBrowseResult::from_outcome(Ok(listing)) {
        ApiBrowseResult::Result(result) => {
            assert!(result.dirs.is_empty());
            assert!(result.movies.is_empty());
        }
        other => panic!("expected a listing, got {:?}", other),
    }
    match ApiBrowseResult::from_outcome(Err("no such directory".to_string())) {
        ApiBrowseResult::Error(error) => assert_eq!(error.message(), "no such directory"),
        other => panic!("expected an error, got {:?}", other),
    }
}

#[test]
fn config_and_error_hold_their_text() {
    let config = Config::new("sqlite://data.db?mode=rwc".to_string());
    assert_eq!(config.db_url(), "sqlite://data.db?mode=rwc");
    assert_eq!(config, Config::new("sqlite://data.db?mode=rwc".to_string()));
    assert_eq!(JsonError::new("boom".to_string()).message(), "boom");
}

#[test]
fn sqlite_address_names_the_file() {
    let config = Config::sqlite("/home/someone/.mpvserve/data.db");
    assert_eq!(config.db_url(), "sqlite:///home/someone/.mpvserve/data.db?mode=rwc");
    assert_eq!(Config::sqlite("").db_url(), "sqlite://?mode=rwc");
}
