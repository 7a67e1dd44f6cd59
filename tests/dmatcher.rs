use droute::dmatcher::Dmatcher;

fn sorted(v: Option<Vec<String>>) -> Vec<String> {
    let mut v = v.unwrap();
    v.sort();
    v
}

#[test]
fn lib_matches() {
    let mut matcher = Dmatcher::new();
    matcher.insert("apple.com", "global").unwrap();
    matcher.insert("apple.cn", "domestic").unwrap();
    assert_eq!(matcher.matches("store.apple.com").unwrap(), Some("global".into()));
    assert_eq!(matcher.matches("store.apple.com.").unwrap(), Some("global".into()));
    assert_eq!(matcher.matches("baidu.com").unwrap(), None);
    assert_eq!(matcher.matches("你好.store.www.apple.cn").unwrap(), Some("domestic".into()));
}

#[test]
fn lib_insertion() {
    let mut matcher = Dmatcher::new();
    matcher.insert("apple.com", "global").unwrap();
    matcher.insert("apple.cn", "domestic").unwrap();
    assert_eq!(sorted(matcher.children("")), vec!["cn".to_string(), "com".to_string()]);
    assert_eq!(matcher.destination(""), None);
    assert_eq!(sorted(matcher.children("cn")), vec!["apple".to_string()]);
    assert_eq!(matcher.destination("cn"), None);
    assert_eq!(sorted(matcher.children("com")), vec!["apple".to_string()]);
    assert_eq!(matcher.destination("com"), None);
    assert_eq!(sorted(matcher.children("apple.cn")), Vec::<String>::new());
    assert_eq!(matcher.destination("apple.cn"), Some("domestic".to_string()));
    assert_eq!(sorted(matcher.children("apple.com")), Vec::<String>::new());
    assert_eq!(matcher.destination("apple.com"), Some("global".to_string()));
}

#[test]
fn insert_lines_keeps_one_destination() {
    let mut matcher = Dmatcher::new();
    matcher.insert_lines("apple.com\napple.cn".to_string(), "global").unwrap();
    assert_eq!(matcher.matches("www.apple.cn").unwrap(), Some("global".into()));
    assert_eq!(matcher.matches("www.apple.com").unwrap(), Some("global".into()));
    assert_eq!(matcher.matches("www.apple.org").unwrap(), None);
}

#[test]
fn empty_line_sets_root_destination() {
    let mut matcher = Dmatcher::new();
    matcher.insert_lines("apple.com\n".to_string(), "global").unwrap();
    assert_eq!(matcher.destination(""), Some("global".to_string()));
}

#[test]
fn later_insert_overrides_destination() {
    let mut matcher = Dmatcher::new();
    matcher.insert("apple.com", "global").unwrap();
    matcher.insert("apple.com", "domestic").unwrap();
    assert_eq!(matcher.matches("x.apple.com").unwrap(), Some("domestic".into()));
}

#[test]
fn walk_stopping_on_inner_node_has_no_destination() {
    let mut matcher = Dmatcher::new();
    matcher.insert("apple.com", "global").unwrap();
    // The walk consumes `com` and stops at a node without a destination.
    assert_eq!(matcher.matches("com").unwrap(), None);
}
