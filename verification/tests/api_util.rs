use jjs_commons::api_util::{recover, ApiError, ErrorKind};
use serde_json::Value;

#[test]
fn kinds_have_their_status_and_name() {
    assert_eq!(ErrorKind::InvalidInput.http_status(), 400);
    assert_eq!(ErrorKind::Internal.http_status(), 500);
    assert_eq!(ErrorKind::InvalidInput.wire_name(), "INVALID_INPUT");
    assert_eq!(ErrorKind::Internal.wire_name(), "INTERNAL");
}

#[test]
fn details_are_kept_by_key() {
    let mut error = ApiError::new(ErrorKind::InvalidInput, "BadName");
    assert!(error.details.is_empty());
    error.add_detail("name", serde_json::to_value("x y")).unwrap();
    error.add_detail("limit", serde_json::to_value(7)).unwrap();
    error.add_detail("name", serde_json::to_value("z")).unwrap();
    assert_eq!(error.details.len(), 2);
    assert_eq!(error.details["name"], Value::from("z"));
    assert_eq!(error.details["limit"], Value::from(7));
}

#[test]
fn failed_detail_changes_nothing() {
    let mut error = ApiError::new(ErrorKind::Internal, "Oops");
    error.add_detail("a", serde_json::to_value(1)).unwrap();
    let failure = serde_json::from_str::<Value>("{").unwrap_err();
    assert!(error.add_detail("a", Err(failure)).is_err());
    assert_eq!(error.details["a"], Value::from(1));
    assert_eq!(error.description(), "api error");
}

#[test]
fn reply_tells_everything() {
    let mut error = ApiError::new(ErrorKind::InvalidInput, "BadName");
    error.add_detail("n", serde_json::to_value(3)).unwrap();
    let reply = error.reply();
    assert_eq!(reply.status, 400);
    assert_eq!(reply.kind, "INVALID_INPUT");
    assert_eq!(reply.code, "BadName");
    assert_eq!(reply.details["n"], Value::from(3));
}

#[test]
fn unknown_rejections_are_internal_errors() {
    let answer = recover(None);
    assert_eq!(answer.kind, ErrorKind::Internal);
    assert_eq!(answer.code, "UnknownError");
    assert!(answer.details.is_empty());
    assert_eq!(answer.reply().status, 500);

    let answer = recover(Some(ApiError::new(ErrorKind::InvalidInput, "BadName")));
    assert_eq!(answer.code, "BadName");
    assert_eq!(answer.reply().status, 400);
}
