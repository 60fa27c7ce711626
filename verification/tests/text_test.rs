use wr::text::{i32_to_string, join_with, u64_to_string};

#[test]
fn test_u64_to_string_values() {
    assert_eq!(u64_to_string(0), "0");
    assert_eq!(u64_to_string(7), "7");
    assert_eq!(u64_to_string(105), "105");
    assert_eq!(u64_to_string(18446744073709551615), "18446744073709551615");
}

#[test]
fn test_i32_to_string_values() {
    assert_eq!(i32_to_string(0), "0");
    assert_eq!(i32_to_string(42), "42");
    assert_eq!(i32_to_string(-5), "-5");
    assert_eq!(i32_to_string(-2147483648), "-2147483648");
    assert_eq!(i32_to_string(2147483647), "2147483647");
}

#[test]
fn test_join_with_values() {
    let parts: Vec<String> = vec![];
    assert_eq!(join_with(&parts, ", "), "");
    let parts = vec!["a".to_string()];
    assert_eq!(join_with(&parts, " -> "), "a");
    let parts = vec!["a".to_string(), "b".to_string(), "a".to_string()];
    assert_eq!(join_with(&parts, " -> "), "a -> b -> a");
}
