use droute::cache::{RecordStatus, RespCache};
use droute::domain::Domain;
use droute::engine::{finalize, plan_query, settle_query, stores_answer, QueryPlan, Routing, Step};
use droute::message::{Message, Question, Record, OPCODE_QUERY, RCODE_SERVFAIL};
use droute::router::{Router, RouterBuilder, RouterError};
use droute::table::{Action, Branch, CacheMode, Matcher, Rule, TableBuilder, TableError};

fn query_msg(id: u16, name: &str) -> Message {
    Message {
        id,
        qr: false,
        opcode: OPCODE_QUERY,
        rd: true,
        rcode: 0,
        queries: vec![Question { name: name.to_string(), qtype: 1, qclass: 1 }],
        answers: Vec::new(),
    }
}

fn dummy_answer() -> Message {
    Message {
        id: 0,
        qr: true,
        opcode: OPCODE_QUERY,
        rd: false,
        rcode: 0,
        queries: vec![Question { name: "www.apple.com".to_string(), qtype: 1, qclass: 1 }],
        answers: vec![Record {
            name: "www.apple.com".to_string(),
            rtype: 1,
            ttl: 32,
            data: vec![1, 1, 1, 1],
        }],
    }
}

fn same_answers(a: &Message, b: &Message) -> bool {
    a.answers.len() == b.answers.len()
        && a.answers.iter().zip(b.answers.iter()).all(|(x, y)| {
            x.name == y.name && x.rtype == y.rtype && x.ttl == y.ttl && x.data == y.data
        })
}

// Drives the routing of one query the way a front end does, with `upstream`
// standing for the transport of every upstream.
fn resolve(
    router: &Router,
    cache: &mut RespCache,
    query: Message,
    now: u64,
    upstream: &dyn Fn(&Message) -> Result<Message, ()>,
) -> Message {
    if let Some(m) = Router::reject_empty(&query) {
        return m;
    }
    let mut routing = Routing::new(query, None);
    loop {
        match routing.step(router.table(), cache, now) {
            Step::Continue => {}
            Step::Ask(_, msg) => routing.answer(cache, now, upstream(&msg)),
            Step::Done(m) => return m,
        }
    }
}

fn mock_router() -> Router {
    let table = TableBuilder::new()
        .add_rule(
            "start",
            Rule::IfBlock(
                Matcher::Any,
                Branch {
                    actions: vec![Action::Query("mock".to_string(), CacheMode::Persist)],
                    next: "end".to_string(),
                },
                Branch { actions: Vec::new(), next: "end".to_string() },
            ),
        )
        .build()
        .ok()
        .unwrap();
    Router::new(table, vec!["mock".to_string()]).ok().unwrap()
}

#[test]
fn test_resolve() {
    let router = mock_router();
    let mut cache = RespCache::new(1024);
    let upstream = |_: &Message| -> Result<Message, ()> { Ok(dummy_answer()) };
    let q = query_msg(4242, "www.apple.com");
    let r = resolve(&router, &mut cache, q, 10, &upstream);
    assert!(same_answers(&r, &dummy_answer()));
    assert_eq!(r.id, 4242);
    assert!(r.qr);

    let empty = Message {
        id: 0,
        qr: false,
        opcode: OPCODE_QUERY,
        rd: false,
        rcode: 0,
        queries: Vec::new(),
        answers: Vec::new(),
    };
    let r = resolve(&router, &mut cache, empty, 10, &upstream);
    assert_eq!(r.id, 0);
    assert_eq!(r.opcode, OPCODE_QUERY);
    assert_eq!(r.rcode, RCODE_SERVFAIL);
    assert!(r.qr);
    assert!(r.queries.is_empty());
    assert!(r.answers.is_empty());
}

#[test]
fn upstream_failure_gives_servfail_with_query_header() {
    let router = mock_router();
    let mut cache = RespCache::new(4);
    let failing = |_: &Message| -> Result<Message, ()> { Err(()) };
    let r = resolve(&router, &mut cache, query_msg(7, "www.apple.com"), 10, &failing);
    assert_eq!(r.id, 7);
    assert_eq!(r.opcode, OPCODE_QUERY);
    assert_eq!(r.rcode, RCODE_SERVFAIL);
    assert!(r.qr);
}

#[test]
fn expired_entry_served_when_upstream_fails() {
    let router = mock_router();
    let mut cache = RespCache::new(4);
    let ok = |_: &Message| -> Result<Message, ()> { Ok(dummy_answer()) };
    let failing = |_: &Message| -> Result<Message, ()> { Err(()) };
    resolve(&router, &mut cache, query_msg(1, "www.apple.com"), 100, &ok);
    // Within the time to live the cache answers without asking.
    let r = resolve(&router, &mut cache, query_msg(2, "www.apple.com"), 132, &failing);
    assert!(same_answers(&r, &dummy_answer()));
    assert_eq!(r.id, 2);
    // After it, the failed upstream falls back to the expired entry.
    let r = resolve(&router, &mut cache, query_msg(3, "www.apple.com"), 500, &failing);
    assert!(same_answers(&r, &dummy_answer()));
    assert_eq!(r.id, 3);
}

#[test]
fn missing_upstream_is_reported() {
    let table = TableBuilder::new()
        .add_rule(
            "start",
            Rule::SeqBlock(Branch {
                actions: vec![Action::Query("mock".to_string(), CacheMode::Standard)],
                next: "end".to_string(),
            }),
        )
        .build()
        .ok()
        .unwrap();
    match Router::new(table, vec!["other".to_string()]) {
        Err(RouterError::MissingUpstream(u)) => assert_eq!(u, "mock"),
        _ => panic!("router built with a missing upstream"),
    }
}

#[test]
fn router_builder_reports_table_errors() {
    let rules = TableBuilder::new().add_rule(
        "start",
        Rule::SeqBlock(Branch { actions: Vec::new(), next: "start".to_string() }),
    );
    match RouterBuilder::new(rules, Vec::new()).build() {
        Err(RouterError::Table(TableError::RuleRecursion(t))) => assert_eq!(t, "start"),
        _ => panic!("expected a table error"),
    }
    let rules = TableBuilder::new().add_rule(
        "start",
        Rule::SeqBlock(Branch {
            actions: vec![Action::Query("mock".to_string(), CacheMode::Persist)],
            next: "end".to_string(),
        }),
    );
    assert!(RouterBuilder::new(rules, vec!["mock".to_string()]).build().is_ok());
}

#[test]
fn disable_answers_empty_without_asking() {
    let table = TableBuilder::new()
        .add_rule(
            "start",
            Rule::SeqBlock(Branch {
                actions: vec![Action::Skip, Action::Disable],
                next: "end".to_string(),
            }),
        )
        .build()
        .ok()
        .unwrap();
    let router = Router::new(table, Vec::new()).ok().unwrap();
    let mut cache = RespCache::new(4);
    let never = |_: &Message| -> Result<Message, ()> { panic!("no upstream is asked") };
    let r = resolve(&router, &mut cache, query_msg(11, "example.org"), 0, &never);
    assert_eq!(r.id, 11);
    assert!(r.qr);
    assert_eq!(r.rcode, 0);
    assert_eq!(r.queries.len(), 1);
    assert!(r.answers.is_empty());
}

#[test]
fn standard_mode_does_not_serve_expired() {
    let table = TableBuilder::new()
        .add_rule(
            "start",
            Rule::SeqBlock(Branch {
                actions: vec![Action::Query("mock".to_string(), CacheMode::Standard)],
                next: "end".to_string(),
            }),
        )
        .build()
        .ok()
        .unwrap();
    let router = Router::new(table, vec!["mock".to_string()]).ok().unwrap();
    let mut cache = RespCache::new(4);
    let ok = |_: &Message| -> Result<Message, ()> { Ok(dummy_answer()) };
    let failing = |_: &Message| -> Result<Message, ()> { Err(()) };
    resolve(&router, &mut cache, query_msg(1, "www.apple.com"), 100, &ok);
    let r = resolve(&router, &mut cache, query_msg(2, "www.apple.com"), 500, &failing);
    assert_eq!(r.rcode, RCODE_SERVFAIL);
    assert_eq!(r.id, 2);
}

#[test]
fn domain_matcher_picks_branch() {
    let mut d = Domain::new();
    d.insert("apple.com");
    let table = TableBuilder::new()
        .add_rule(
            "start",
            Rule::IfBlock(
                Matcher::Domain(d),
                Branch { actions: vec![Action::Disable], next: "end".to_string() },
                Branch {
                    actions: vec![Action::Query("mock".to_string(), CacheMode::Disabled)],
                    next: "end".to_string(),
                },
            ),
        )
        .build()
        .ok()
        .unwrap();
    let router = Router::new(table, vec!["mock".to_string()]).ok().unwrap();
    let mut cache = RespCache::new(4);
    let ok = |_: &Message| -> Result<Message, ()> { Ok(dummy_answer()) };
    let r = resolve(&router, &mut cache, query_msg(1, "store.apple.com"), 0, &ok);
    assert!(r.answers.is_empty());
    let r = resolve(&router, &mut cache, query_msg(2, "example.org"), 0, &ok);
    assert_eq!(r.answers.len(), 1);
    assert_eq!(r.id, 2);
}

#[test]
fn header_is_normalized() {
    let q = query_msg(99, "example.org");
    let mut resp = dummy_answer();
    resp.id = 5;
    resp.qr = false;
    resp.opcode = 4;
    resp.rd = false;
    resp.rcode = 3;
    let r = finalize(&q, resp);
    assert_eq!(r.id, 99);
    assert_eq!(r.opcode, OPCODE_QUERY);
    assert!(r.rd);
    assert!(r.qr);
    assert_eq!(r.rcode, 3);
    assert_eq!(r.answers.len(), 1);
}

#[test]
fn query_plans_follow_cache_mode() {
    let alive = || Some(RecordStatus::Alive(dummy_answer()));
    let expired = || Some(RecordStatus::Expired(dummy_answer()));
    assert!(matches!(plan_query(CacheMode::Persist, alive()), QueryPlan::Cached(_)));
    assert!(matches!(plan_query(CacheMode::Standard, alive()), QueryPlan::Cached(_)));
    assert!(matches!(plan_query(CacheMode::Disabled, alive()), QueryPlan::Ask(None)));
    assert!(matches!(plan_query(CacheMode::Persist, expired()), QueryPlan::Ask(Some(_))));
    assert!(matches!(plan_query(CacheMode::Standard, expired()), QueryPlan::Ask(None)));
    assert!(matches!(plan_query(CacheMode::Persist, None), QueryPlan::Ask(None)));
    assert!(!stores_answer(CacheMode::Disabled));
    assert!(stores_answer(CacheMode::Standard));
    let r: Result<Message, u8> = settle_query(Some(dummy_answer()), Err(1));
    assert!(r.is_ok());
    let r: Result<Message, u8> = settle_query(None, Err(1));
    assert_eq!(r.err(), Some(1));
}

#[test]
fn combined_matchers_pick_branch() {
    let mut d = Domain::new();
    d.insert("apple.com");
    // Matches names under apple.com that ask for recursion, or that do not ask for type A.
    let m = Matcher::Or(
        Box::new(Matcher::And(Box::new(Matcher::Domain(d)), Box::new(Matcher::Header(true)))),
        Box::new(Matcher::Not(Box::new(Matcher::QType(vec![1])))),
    );
    let table = TableBuilder::new()
        .add_rule(
            "start",
            Rule::IfBlock(
                m,
                Branch { actions: vec![Action::Disable], next: "end".to_string() },
                Branch {
                    actions: vec![Action::Query("mock".to_string(), CacheMode::Disabled)],
                    next: "end".to_string(),
                },
            ),
        )
        .build()
        .ok()
        .unwrap();
    let router = Router::new(table, vec!["mock".to_string()]).ok().unwrap();
    let mut cache = RespCache::new(4);
    let ok = |_: &Message| -> Result<Message, ()> { Ok(dummy_answer()) };
    // apple.com with rd set: matched, disabled.
    let r = resolve(&router, &mut cache, query_msg(1, "www.apple.com"), 0, &ok);
    assert!(r.answers.is_empty());
    // apple.com without rd, type A: not matched, asks upstream.
    let mut q = query_msg(2, "www.apple.com");
    q.rd = false;
    let r = resolve(&router, &mut cache, q, 0, &ok);
    assert_eq!(r.answers.len(), 1);
    // Other type: matched through the negation.
    let mut q = query_msg(3, "example.org");
    q.queries[0].qtype = 28;
    let r = resolve(&router, &mut cache, q, 0, &ok);
    assert!(r.answers.is_empty());
}
