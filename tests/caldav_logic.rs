use caldav_sync::caldav::{after_query, FetchAction, FetchError, GoogleCaldavAdapter};
use caldav_sync::config::AppConfig;

#[test]
fn events_url_for_account() {
    assert_eq!(
        GoogleCaldavAdapter::events_url("me@example.com"),
        "https://apidata.googleusercontent.com/caldav/v2/me@example.com/events"
    );
}

#[test]
fn refused_token_is_forgotten() {
    assert!(matches!(after_query(401), FetchAction::ForgetTokenAndRetry));
    assert!(matches!(after_query(207), FetchAction::ScanBody));
    assert!(matches!(after_query(500), FetchAction::ScanBody));
}

#[test]
fn adapter_keeps_config() {
    let cfg = AppConfig {
        caldav_provider: "google".to_string(),
        google_client_id: "id".to_string(),
        google_client_secret: "SECRET-REDACTED".to_string(),
        google_email: "me@example.com".to_string(),
    };
    let a = GoogleCaldavAdapter::new(cfg);
    assert_eq!(a.config.google_email, "me@example.com");
    assert_eq!(a.config.google_client_id, "id");
}

#[test]
fn fetch_error_message() {
    assert_eq!(FetchError::Unavailable("net down".to_string()).message(), "net down");
    assert!(!FetchError::Decode.message().is_empty());
}
