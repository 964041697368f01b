use rayonet::names::NameMap;
use rayonet::text::{after, cut, first_number, join, less, push_decimal, same, trim};

#[test]
fn text_is_ordered_by_code_point() {
    assert!(less("a", "b"));
    assert!(less("a", "a/b"));
    assert!(!less("b", "a"));
    assert!(!less("a", "a"));
    assert!(same("x", "x"));
    assert!(!same("x", "y"));
}

#[test]
fn text_is_cut_trimmed_and_joined() {
    assert_eq!(trim(" \t a b\u{a0}\n"), "a b");
    assert_eq!(trim("  "), "");
    assert_eq!(cut("a,b,,", ','), vec!["a", "b", "", ""]);
    assert_eq!(after("key: value", ": "), Some("value".to_string()));
    assert_eq!(after("key", ":"), None);
    assert_eq!(after("abc", ""), Some("abc".to_string()));
    assert_eq!(
        join(&vec!["a".to_string(), "b".to_string()], "; "),
        "a; b"
    );
    assert_eq!(join(&Vec::new(), "; "), "");
}

#[test]
fn numbers_are_read_and_written() {
    assert_eq!(first_number("x 42 43"), Some(42));
    assert_eq!(first_number("none"), None);
    assert_eq!(first_number("18446744073709551615"), Some(u64::MAX));
    assert_eq!(first_number("18446744073709551616"), None);
    let mut s = String::new();
    push_decimal(&mut s, 0);
    push_decimal(&mut s, 1090);
    assert_eq!(s, "01090");
}

#[test]
fn a_name_map_stays_in_order() {
    let mut map = NameMap::new();
    for (key, value) in [("b", 1), ("a", 2), ("c", 3), ("a", 4)] {
        map.set(key, value);
    }
    let keys: Vec<&str> = map.entries.iter().map(|e| e.0.as_str()).collect();
    assert_eq!(keys, vec!["a", "b", "c"]);
    assert_eq!(map.get("a"), Some(&4));
    assert_eq!(map.get("z"), None);
}
