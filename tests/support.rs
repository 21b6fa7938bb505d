use stm32f7_httpd::logger::{split_string, time_parts};
use stm32f7_httpd::string_map::StringMap;
use stm32f7_httpd::text::str_eq;

#[test]
fn split_string_pieces() {
    assert_eq!(split_string("abcdefg", 3), vec!["abc", "def", "g"]);
    assert_eq!(split_string("abcdef", 3), vec!["abc", "def"]);
    assert_eq!(split_string("", 3), Vec::<&str>::new());
    assert_eq!(split_string("\u{e9}\u{e9}\u{e9}", 2), vec!["\u{e9}\u{e9}", "\u{e9}"]);
}

#[test]
fn string_map_insert_get() {
    let mut m = StringMap::new();
    assert!(m.get("a").is_none());
    m.insert("a".to_string(), "1".to_string());
    m.insert("b".to_string(), "2".to_string());
    m.insert("a".to_string(), "3".to_string());
    assert_eq!(m.len(), 2);
    assert!(m.contains_key("b"));
    assert!(!m.contains_key("c"));
    let (k, v) = m.entry_at(0);
    assert_eq!((k.as_str(), v.as_str()), ("a", "3"));
}

#[test]
fn str_eq_compares_content() {
    assert!(str_eq("abc", "abc"));
    assert!(!str_eq("abc", "abd"));
    assert!(!str_eq("ab", "abc"));
    assert!(str_eq("", ""));
}

#[test]
fn time_parts_splits_milliseconds() {
    assert_eq!(time_parts(15_329), (15, 32));
    assert_eq!(time_parts(0), (0, 0));
    assert_eq!(time_parts(999), (0, 99));
}
