use rlox::errors::{error, report, Error};

#[test]
fn error_has_no_position_marker() {
    assert_eq!(error(3, "Unexpected character."), "[line 3] Error : Unexpected character.");
}

#[test]
fn report_writes_line_position_and_message() {
    let line = report(Error {
        line: 120,
        position_in_string: "at end".to_owned(),
        message: "Unterminated string.".to_owned(),
    });
    assert_eq!(line, "[line 120] Error at end: Unterminated string.");
}

#[test]
fn line_numbers_are_written_in_decimal() {
    assert_eq!(error(0, ""), "[line 0] Error : ");
    assert_eq!(error(9, "m"), "[line 9] Error : m");
    assert_eq!(error(10, "m"), "[line 10] Error : m");
    assert_eq!(error(1005, "m"), "[line 1005] Error : m");
    assert_eq!(error(u32::MAX, "m"), "[line 4294967295] Error : m");
}
