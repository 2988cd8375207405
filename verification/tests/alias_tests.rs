use join_scope::alias::AliasSet;
use join_scope::constants::{CTE_ALIAS_PREFIX, INDENT_SPACER};
use join_scope::text::{decimal_string, repeat_text};

#[test]
fn decimal_string_writes_digits() {
    assert_eq!(decimal_string(0), "0");
    assert_eq!(decimal_string(7), "7");
    assert_eq!(decimal_string(10), "10");
    assert_eq!(decimal_string(1203), "1203");
}

#[test]
fn allocate_appends_suffixes_in_order() {
    let mut set = AliasSet::new();
    assert_eq!(set.allocate("customer"), "customer");
    assert_eq!(set.allocate("customer"), "customer_1");
    assert_eq!(set.allocate("customer"), "customer_2");
    assert_eq!(set.allocate("customer_1"), "customer_1_1");
    assert_eq!(set.len(), 4);
}

#[test]
fn alias_set_tells_what_is_taken() {
    let mut set = AliasSet::new();
    assert_eq!(set.len(), 0);
    assert!(!set.contains(&String::from("a")));
    assert!(set.insert(String::from("a")));
    assert!(set.contains(&String::from("a")));
    assert!(!set.contains(&String::from("A")));
    assert!(!set.insert(String::from("a")));
    assert_eq!(set.len(), 1);
}

#[test]
fn allocate_fills_the_first_gap() {
    let mut set = AliasSet::new();
    assert!(set.insert(String::from("t")));
    assert!(set.insert(String::from("t_1")));
    assert!(set.insert(String::from("t_3")));
    assert_eq!(set.allocate("t"), "t_2");
    assert_eq!(set.allocate("t"), "t_4");
    assert_eq!(set.allocate(""), "");
    assert_eq!(set.allocate(""), "_1");
}

#[test]
fn repeat_text_writes_the_text_over_and_over() {
    assert_eq!(repeat_text("ab", 0), "");
    assert_eq!(repeat_text("ab", 3), "ababab");
    assert_eq!(repeat_text("", 5), "");
}

#[test]
fn decimal_string_writes_the_largest_number() {
    assert_eq!(decimal_string(usize::MAX), usize::MAX.to_string());
    assert_eq!(decimal_string(9), "9");
    assert_eq!(decimal_string(100), "100");
}

#[test]
fn constants_hold_their_text() {
    assert_eq!(INDENT_SPACER, "    ");
    assert_eq!(CTE_ALIAS_PREFIX, "cte");
}
