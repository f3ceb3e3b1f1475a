use poker_engine::text::{decimal_string, joined};

#[test]
fn numbers_are_written_in_decimal() {
    assert_eq!(decimal_string(0), "0");
    assert_eq!(decimal_string(7), "7");
    assert_eq!(decimal_string(10), "10");
    assert_eq!(decimal_string(1020), "1020");
    assert_eq!(decimal_string(4294967295), "4294967295");
    assert_eq!(decimal_string(u64::MAX), "18446744073709551615");
}

#[test]
fn texts_are_joined_in_order() {
    assert_eq!(joined("Alice", "_"), "Alice_");
    assert_eq!(joined("", ""), "");
}
