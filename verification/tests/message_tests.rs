use csv_parser::{CSVError, SizeError};

#[test]
fn unequal_columns_message() {
    let e = CSVError::UnequalColumns(SizeError {
        line_no: 3,
        expected_size: 4,
        actual_size: 3,
    });
    assert_eq!(
        e.message(),
        "Unequal number of columns at line 3, expected: 4 columns, got: 3"
    );
}

#[test]
fn syntax_error_message() {
    let e = CSVError::SyntaxError(7);
    assert_eq!(e.message(), "Syntax error at line number: 7");
}

#[test]
fn message_renders_zero_and_large_numbers() {
    assert_eq!(
        CSVError::SyntaxError(0).message(),
        "Syntax error at line number: 0"
    );
    assert_eq!(
        CSVError::SyntaxError(1234567890).message(),
        "Syntax error at line number: 1234567890"
    );
}
