use droute::domain::Domain;
use droute::table::{Action, Branch, CacheMode, Matcher, Rule, TableBuilder, TableError};

fn branch(next: &str) -> Branch {
    Branch { actions: Vec::new(), next: next.to_string() }
}

fn query_branch(upstream: &str, next: &str) -> Branch {
    Branch {
        actions: vec![Action::Query(upstream.to_string(), CacheMode::Persist)],
        next: next.to_string(),
    }
}

#[test]
fn is_not_recursion() {
    TableBuilder::new()
        .add_rule("start", Rule::IfBlock(Matcher::Any, branch("foo"), branch("foo")))
        .add_rule("foo", Rule::IfBlock(Matcher::Any, branch("end"), branch("end")))
        .build()
        .ok()
        .unwrap();
}

#[test]
fn fail_table_recursion() {
    match TableBuilder::new()
        .add_rule("start", Rule::SeqBlock(branch("start")))
        .build()
        .err()
        .unwrap()
    {
        TableError::RuleRecursion(t) => assert_eq!(t, "start"),
        _ => panic!("Not the right error type"),
    }
}

#[test]
fn fail_unused_rules() {
    match TableBuilder::new()
        .add_rule(
            "start",
            Rule::IfBlock(Matcher::Any, query_branch("mock", "end"), branch("end")),
        )
        .add_rule("mock", Rule::SeqBlock(branch("end")))
        .add_rule("unused", Rule::SeqBlock(branch("end")))
        .build()
        .err()
        .unwrap()
    {
        TableError::UnusedRules(v) => {
            let mut v = v;
            v.sort();
            assert_eq!(v, vec!["mock".to_string(), "unused".to_string()]);
        }
        _ => panic!("Not the right error type"),
    }
}

#[test]
fn undefined_tag_is_reported() {
    match TableBuilder::new()
        .add_rule("start", Rule::SeqBlock(branch("nowhere")))
        .build()
        .err()
        .unwrap()
    {
        TableError::UndefinedTag(t) => assert_eq!(t, "nowhere"),
        _ => panic!("Not the right error type"),
    }
}

#[test]
fn missing_start_is_undefined() {
    match TableBuilder::new()
        .add_rule("begin", Rule::SeqBlock(branch("end")))
        .build()
        .err()
        .unwrap()
    {
        TableError::UndefinedTag(t) => assert_eq!(t, "start"),
        _ => panic!("Not the right error type"),
    }
}

#[test]
fn longer_cycle_is_recursion() {
    let r = TableBuilder::new()
        .add_rule("start", Rule::SeqBlock(branch("a")))
        .add_rule("a", Rule::SeqBlock(branch("b")))
        .add_rule("b", Rule::IfBlock(Matcher::Any, branch("end"), branch("a")))
        .build();
    match r.err().unwrap() {
        TableError::RuleRecursion(t) => assert_eq!(t, "a"),
        _ => panic!("Not the right error type"),
    }
}

#[test]
fn shared_subgraph_is_accepted() {
    let mut d = Domain::new();
    d.insert("apple.com");
    let t = TableBuilder::new()
        .add_rule("start", Rule::IfBlock(Matcher::Domain(d), branch("a"), branch("b")))
        .add_rule("a", Rule::SeqBlock(query_branch("up1", "c")))
        .add_rule("b", Rule::SeqBlock(branch("c")))
        .add_rule("c", Rule::SeqBlock(query_branch("up2", "end")))
        .build()
        .ok()
        .unwrap();
    let mut used = t.used_upstreams().clone();
    used.sort();
    assert_eq!(used, vec!["up1".to_string(), "up2".to_string()]);
}

#[test]
fn add_rule_replaces_same_tag() {
    let t = TableBuilder::new()
        .add_rule("start", Rule::SeqBlock(branch("start")))
        .add_rule("start", Rule::SeqBlock(branch("end")))
        .build();
    assert!(t.is_ok());
}
