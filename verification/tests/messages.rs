use cargo_cyclist::report::{failure_message, usize_string};

#[test]
fn counts_render_in_decimal() {
    assert_eq!(usize_string(0), "0".to_string());
    assert_eq!(usize_string(7), "7".to_string());
    assert_eq!(usize_string(10), "10".to_string());
    assert_eq!(usize_string(12), "12".to_string());
    assert_eq!(usize_string(205), "205".to_string());
}

#[test]
fn failure_message_carries_the_count() {
    assert_eq!(failure_message(1), "1 cyclic dependencies found".to_string());
    assert_eq!(failure_message(42), "42 cyclic dependencies found".to_string());
}
