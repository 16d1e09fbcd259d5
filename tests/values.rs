use viva::text::decimal;
use viva::value::{error_report, format_viva_value, print_line};

#[test]
fn decimal_of_extremes() {
    assert_eq!(decimal(0), "0");
    assert_eq!(decimal(-17), "-17");
    assert_eq!(decimal(i64::MAX), "9223372036854775807");
    assert_eq!(decimal(i64::MIN), "-9223372036854775808");
}

#[test]
fn format_shows_booleans_by_name() {
    assert_eq!(format_viva_value(3), "true");
    assert_eq!(format_viva_value(1), "false");
}

#[test]
fn format_untags_numbers() {
    assert_eq!(format_viva_value(36), "18");
    assert_eq!(format_viva_value(0), "0");
    assert_eq!(format_viva_value(-34), "-17");
    assert_eq!(format_viva_value(110), "55");
}

#[test]
fn print_line_of_each_kind() {
    assert_eq!(print_line(3), "true");
    assert_eq!(print_line(1), "false");
    assert_eq!(print_line(84), "42");
    assert_eq!(print_line(7), "Unknown value: 7");
}

#[test]
fn error_report_of_each_code() {
    assert_eq!(error_report(1), ("Runtime error: overflow".to_string(), Some(1)));
    assert_eq!(error_report(2), ("Runtime error: invalid argument".to_string(), Some(2)));
    assert_eq!(error_report(5), ("snek_error called with code = 5".to_string(), None));
}
