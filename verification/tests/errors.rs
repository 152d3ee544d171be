use libraries_rust::error::MyError;

#[test]
fn addition_error_message_is_fixed() {
    assert_eq!(MyError::AdditionError.message(), "an addition error occurred");
}

#[test]
fn subtraction_error_message_is_fixed() {
    assert_eq!(
        MyError::SubtractionError.message(),
        "a subtraction error occurred"
    );
}
