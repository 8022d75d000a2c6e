use card_deck::error::{ApiError, BAD_REQUEST, JSON_LIMIT};

#[test]
fn json_error_keeps_its_cause() {
    let error = ApiError::json_error("EOF while parsing".to_string());
    assert!(matches!(error, ApiError::JsonError { ref cause } if cause == "EOF while parsing"));
}

#[test]
fn api_error_in_words_is_its_cause() {
    let error = ApiError::JsonError { cause: "Payload too large".to_string() };
    assert_eq!(error.message(), "Payload too large");
}

#[test]
fn api_error_report_names_json() {
    let error = ApiError::json_error("bad".to_string());
    assert_eq!(error.report(), "JSON error: bad");
    assert_eq!(ApiError::json_error(String::new()).report(), "JSON error: ");
}

#[test]
fn api_error_is_a_bad_request() {
    let error = ApiError::json_error("bad".to_string());
    assert_eq!(error.status_code(), 400);
    assert_eq!(BAD_REQUEST, 400);
}

#[test]
fn json_bodies_are_limited() {
    assert_eq!(JSON_LIMIT, 4096);
}
