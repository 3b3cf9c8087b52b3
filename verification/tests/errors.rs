use possess::error::{message, AppError};

#[test]
fn keeps_a_three_digit_status() {
    assert_eq!(AppError::new(413, "too big".to_string()).status, 413);
    assert_eq!(AppError::new(999, String::new()).status, 999);
    assert_eq!(AppError::new(100, String::new()).status, 100);
}

#[test]
fn an_unusable_status_becomes_500() {
    assert_eq!(AppError::new(42, String::new()).status, 500);
    assert_eq!(AppError::new(1000, String::new()).status, 500);
    assert_eq!(AppError::new(99, "x".to_string()).detail, "x");
}

#[test]
fn each_constructor_has_its_status() {
    assert_eq!(AppError::bad_request("a".to_string()).status, 400);
    assert_eq!(AppError::forbidden("a".to_string()).status, 403);
    assert_eq!(AppError::not_found("a".to_string()).status, 404);
    assert_eq!(AppError::conflict("a".to_string()).status, 409);
    assert_eq!(AppError::unsupported_media("a".to_string()).status, 415);
    assert_eq!(AppError::internal("a".to_string()).status, 500);
    assert_eq!(AppError::internal("boom".to_string()).detail, "boom");
}

#[test]
fn builds_messages() {
    assert_eq!(message("Not found: ", "a.md"), "Not found: a.md");
}
