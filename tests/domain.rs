use droute::domain::Domain;

#[test]
fn domain_matches() {
    let mut matcher = Domain::new();
    matcher.insert("apple.com");
    matcher.insert("apple.cn");
    assert_eq!(matcher.matches("store.apple.com"), true);
    assert_eq!(matcher.matches("store.apple.com."), true);
    assert_eq!(matcher.matches("baidu.com"), false);
    assert_eq!(matcher.matches("你好.store.www.apple.cn"), true);
}

#[test]
fn insert_multi() {
    let mut matcher = Domain::new();
    matcher.insert_multi("apple.com\n\napple.cn");
    assert_eq!(matcher.matches("store.apple.com"), true);
    assert_eq!(matcher.matches("store.apple.com."), true);
    assert_eq!(matcher.matches("baidu.com"), false);
    assert_eq!(matcher.matches("你好.store.www.apple.cn"), true);
}

#[test]
fn comment_not_matches() {
    let mut matcher = Domain::new();
    matcher.insert("# apple.com");
    matcher.insert("*** apple.com");
    matcher.insert("apple-cn.com");
    matcher.insert("apple.cn");
    assert_eq!(matcher.matches("store.apple.com"), false);
    assert_eq!(matcher.matches("store.apple.com."), false);
    assert_eq!(matcher.matches("baidu.com"), false);
    assert_eq!(matcher.matches("store.apple-cn.com"), true);
    assert_eq!(matcher.matches("你好.store.www.apple.cn"), true);
}

fn sorted(v: Option<Vec<String>>) -> Vec<String> {
    let mut v = v.unwrap();
    v.sort();
    v
}

#[test]
fn domain_insertion() {
    let mut matcher = Domain::new();
    matcher.insert("apple.com");
    matcher.insert("apple.cn");
    assert_eq!(sorted(matcher.children("")), vec!["cn".to_string(), "com".to_string()]);
    assert_eq!(sorted(matcher.children("cn")), vec!["apple".to_string()]);
    assert_eq!(sorted(matcher.children("com")), vec!["apple".to_string()]);
    assert_eq!(sorted(matcher.children("apple.cn")), Vec::<String>::new());
    assert_eq!(sorted(matcher.children("apple.com")), Vec::<String>::new());
    assert!(matcher.children("org").is_none());
}

#[test]
fn suffix_match_any_depth() {
    let mut matcher = Domain::new();
    matcher.insert("apple.com");
    assert!(matcher.matches("apple.com"));
    assert!(matcher.matches("a.b.c.d.apple.com"));
    assert!(matcher.matches("a.b.c.d.apple.com."));
    assert!(matcher.matches("..apple..com.."));
}

#[test]
fn no_false_match() {
    let mut matcher = Domain::new();
    matcher.insert("apple.com");
    assert!(!matcher.matches("apple.cn"));
    assert!(!matcher.matches("pineapple.com"));
    assert!(!matcher.matches("www.apple.org"));
}

#[test]
fn shorter_name_than_rule_does_not_match() {
    // The labels of `com` run out at a node where no rule ends.
    let mut matcher = Domain::new();
    matcher.insert("apple.com");
    assert!(!matcher.matches("com"));
    assert!(!matcher.matches(""));
    assert!(!matcher.matches("."));
}

#[test]
fn name_ending_at_inner_rule_matches() {
    let mut matcher = Domain::new();
    matcher.insert("apple.com");
    matcher.insert("www.apple.com");
    assert!(matcher.matches("apple.com"));
    assert!(matcher.matches("www.apple.com"));
    assert!(!matcher.matches("com"));
}

#[test]
fn fresh_trie_matches_everything() {
    let matcher = Domain::new();
    assert!(matcher.matches("example.org"));
    assert!(matcher.matches(""));
}

#[test]
fn deeper_rule_shadows_its_parent() {
    let mut matcher = Domain::new();
    matcher.insert("apple.com");
    matcher.insert("www.apple.com");
    assert!(matcher.matches("store.www.apple.com"));
    assert!(!matcher.matches("store.apple.com"));
}

#[test]
fn invalid_rule_leaves_trie_unchanged() {
    let mut matcher = Domain::new();
    matcher.insert("apple.com");
    matcher.insert("bad_rule.org");
    matcher.insert("ünï.org");
    assert!(!matcher.matches("x.org"));
    assert!(matcher.matches("x.apple.com"));
}

#[test]
fn duplicate_insert_is_noop() {
    let mut matcher = Domain::new();
    matcher.insert("apple.com");
    matcher.insert("apple.com");
    matcher.insert("APPLE.com");
    assert!(matcher.matches("www.apple.com"));
    assert!(matcher.matches("www.APPLE.com"));
    assert!(!matcher.matches("www.banana.com"));
}
