//! Per-query routing: matchers, branch selection, the cache decisions of a `Query`
//! action, and the reply sent back.
use crate::cache::{KeyView, after_put, order_after_touch, order_after_put, CacheRecord, RecordStatus, RespCache, cache_key, is_fresh, lemma_min_ttl_same, min_ttl};
use crate::domain::{covers, domain_key};
use crate::message::{Message, RCODE_NOERROR, RCODE_SERVFAIL, questions_view, same_answers};
use crate::domain::LabelPath;
use crate::table::{Action, Branch, Matcher, Rule, CacheMode, Table, defined, dsts, end_tag, is_path, lemma_path_push, lemma_walk_bounded, matcher_wf, path_from_start, start_tag, valid_table};
use crate::text::str_equal;
use vstd::prelude::*;

verus! {

/// Where a query came from.
pub struct QueryContext {
    /// The sender's address octets (4 for IPv4, 16 for IPv6).
    pub ip: Vec<u8>,
}

/// The state of one query in flight.
pub struct State {
    pub qctx: Option<QueryContext>,
    /// The response so far; it starts as the query itself.
    pub resp: Message,
    /// The query as received.
    pub query: Message,
}

impl State {
    /// The state at the start of routing: the response is a copy of the query.
    pub fn new(query: Message, qctx: Option<QueryContext>) -> (r: State)
        ensures
            r.query == query,
            r.resp.same_content(&query),
            r.qctx == qctx,
    {
        let resp = query.duplicate();
        State { qctx, resp, query }
    }
}

/// The matcher holds for a query with at least one question.
pub open spec fn matcher_holds(m: Matcher, query: Message) -> bool
    decreases m,
{
    match m {
        Matcher::Any => true,
        Matcher::Domain(d) => covers(d@, d.ends(), domain_key(query.queries@[0].name@)),
        Matcher::QType(ts) => ts@.contains(query.queries@[0].qtype),
        Matcher::Header(rd) => query.rd == rd,
        Matcher::Not(a) => !matcher_holds(*a, query),
        Matcher::And(a, b) => matcher_holds(*a, query) && matcher_holds(*b, query),
        Matcher::Or(a, b) => matcher_holds(*a, query) || matcher_holds(*b, query),
    }
}

/// The branch that a rule takes on a query.
pub open spec fn selected_branch(r: Rule, query: Message) -> Branch {
    match r {
        Rule::SeqBlock(b) => b,
        Rule::IfBlock(m, a, b) => if matcher_holds(m, query) {
            a
        } else {
            b
        },
    }
}

impl Matcher {
    /// Whether the matcher holds on the state's query.
    pub fn matches(&self, state: &State) -> (r: bool)
        requires
            matcher_wf(*self),
            state.query.queries@.len() > 0,
        ensures
            r == matcher_holds(*self, state.query),
        decreases *self,
    {
        match self {
            Matcher::Any => true,
            Matcher::Header(rd) => state.query.rd == *rd,
            Matcher::Not(a) => !a.matches(state),
            Matcher::And(a, b) => a.matches(state) && b.matches(state),
            Matcher::Or(a, b) => a.matches(state) || b.matches(state),
            Matcher::Domain(d) => d.matches(state.query.queries[0].name.as_str()),
            Matcher::QType(ts) => {
                let t = state.query.queries[0].qtype;
                let mut i: usize = 0;
                while i < ts.len()
                    invariant
                        *self == Matcher::QType(*ts),
                        state.query.queries@.len() > 0,
                        t == state.query.queries@[0].qtype,
                        i <= ts@.len(),
                        forall|j: int| 0 <= j < i ==> ts@[j] != t,
                    decreases ts@.len() - i,
                {
                    if ts[i] == t {
                        assert(ts@[i as int] == t);
                        return true;
                    }
                    i = i + 1;
                }
                false
            },
        }
    }
}

impl Table {
    /// The branch that the rule tagged `tag` takes on the state's query, or `None` when no
    /// rule has that tag.
    pub fn route(&self, tag: &str, state: &State) -> (r: Option<&Branch>)
        requires
            self.wf(),
            state.query.queries@.len() > 0,
        ensures
            match r {
                None => !defined(self.rules(), tag@),
                Some(b) => exists|i: int| 0 <= i < self.rules().len() && #[trigger] self.rules()[i].0@ == tag@ && *b == selected_branch(self.rules()[i].1, state.query),
            },
    {
        let rules = self.rule_list();
        let mut i: usize = 0;
        while i < rules.len()
            invariant
                rules@ == self.rules(),
                self.wf(),
                state.query.queries@.len() > 0,
                i <= rules@.len(),
                forall|j: int| 0 <= j < i ==> rules@[j].0@ != tag@,
            decreases rules@.len() - i,
        {
            if str_equal(rules[i].0.as_str(), tag) {
                let ghost k = i as int;
                assert(self.rules()[k].0@ == tag@);
                proof {
                    self.lemma_rule_wf(k);
                }
                return match &rules[i].1 {
                    Rule::SeqBlock(b) => Some(b),
                    Rule::IfBlock(m, a, b) => {
                        if m.matches(state) {
                            Some(a)
                        } else {
                            Some(b)
                        }
                    },
                };
            }
            i = i + 1;
        }
        None
    }
}

/// The response that a `Disable` action leaves: the query's questions and no answer,
/// under a header that answers the query with no error.
pub fn disabled_response(query: &Message) -> (r: Message)
    ensures
        answers_query(r, *query),
        r.rcode == RCODE_NOERROR,
        questions_view(r.queries@) == questions_view(query.queries@),
        r.answers@.len() == 0,
{
    let copy = query.duplicate();
    Message {
        id: query.id,
        qr: true,
        opcode: query.opcode,
        rd: query.rd,
        rcode: RCODE_NOERROR,
        queries: copy.queries,
        answers: Vec::new(),
    }
}

/// What a `Query` action does before it may ask the upstream.
pub enum QueryPlan {
    /// Answer with this cached response.
    Cached(Message),
    /// Ask the upstream; on failure fall back to `stale` if it is there.
    Ask(Option<Message>),
}

/// Decides from the cache mode and the cache lookup (`None` for a miss) whether the cached
/// response is served, or the upstream is asked and with what fallback.
pub fn plan_query(mode: CacheMode, cached: Option<RecordStatus>) -> (r: QueryPlan)
    ensures
        match (mode, cached) {
            (CacheMode::Disabled, _) => r matches QueryPlan::Ask(None),
            (_, None) => r matches QueryPlan::Ask(None),
            (_, Some(RecordStatus::Alive(m))) => r == QueryPlan::Cached(m),
            (CacheMode::Persist, Some(RecordStatus::Expired(m))) => r == QueryPlan::Ask(Some(m)),
            (CacheMode::Standard, Some(RecordStatus::Expired(_))) => r matches QueryPlan::Ask(None),
        },
{
    match mode {
        CacheMode::Disabled => QueryPlan::Ask(None),
        _ => match cached {
            None => QueryPlan::Ask(None),
            Some(RecordStatus::Alive(m)) => QueryPlan::Cached(m),
            Some(RecordStatus::Expired(m)) => {
                if mode == CacheMode::Persist {
                    QueryPlan::Ask(Some(m))
                } else {
                    QueryPlan::Ask(None)
                }
            },
        },
    }
}

/// Whether an upstream answer is written to the cache.
pub fn stores_answer(mode: CacheMode) -> (r: bool)
    ensures
        r == (mode != CacheMode::Disabled),
{
    mode != CacheMode::Disabled
}

/// The outcome of asking the upstream: its answer, else the stale fallback, else its error.
pub fn settle_query<E>(stale: Option<Message>, answer: Result<Message, E>) -> (r: Result<Message, E>)
    ensures
        match answer {
            Ok(m) => r == Ok::<Message, E>(m),
            Err(e) => match stale {
                Some(s) => r == Ok::<Message, E>(s),
                None => r == Err::<Message, E>(e),
            },
        },
{
    match answer {
        Ok(m) => Ok(m),
        Err(e) => match stale {
            Some(s) => Ok(s),
            None => Err(e),
        },
    }
}

/// The header of `r` answers `query`: same identifier, operation code and recursion flag,
/// marked as a response.
pub open spec fn answers_query(r: Message, query: Message) -> bool {
    &&& r.id == query.id
    &&& r.opcode == query.opcode
    &&& r.rd == query.rd
    &&& r.qr
}

/// The reply built from the routed response: its sections and response code, under a
/// header that answers the query.
pub fn finalize(query: &Message, resp: Message) -> (r: Message)
    ensures
        answers_query(r, *query),
        r.rcode == resp.rcode,
        r.queries == resp.queries,
        r.answers == resp.answers,
{
    Message {
        id: query.id,
        qr: true,
        opcode: query.opcode,
        rd: query.rd,
        rcode: resp.rcode,
        queries: resp.queries,
        answers: resp.answers,
    }
}

/// The server failure reply to `query`.
pub fn servfail(query: &Message) -> (r: Message)
    ensures
        r.id == query.id,
        r.opcode == query.opcode,
        r.rcode == RCODE_SERVFAIL,
        r.qr,
        !r.rd,
        r.queries@.len() == 0,
        r.answers@.len() == 0,
{
    Message::error_msg(query.id, query.opcode, RCODE_SERVFAIL)
}

impl Action {
    pub fn duplicate(&self) -> (r: Action)
        ensures
            r == *self,
    {
        match self {
            Action::Query(t, m) => Action::Query(t.clone(), *m),
            Action::Disable => Action::Disable,
            Action::Skip => Action::Skip,
        }
    }
}

fn copy_actions(v: &Vec<Action>) -> (r: Vec<Action>)
    ensures
        r@ == v@,
{
    let mut r: Vec<Action> = Vec::new();
    let mut i: usize = 0;
    while i < v.len()
        invariant
            i <= v@.len(),
            r@ == v@.take(i as int),
        decreases v@.len() - i,
    {
        r.push(v[i].duplicate());
        i = i + 1;
        assert(r@ =~= v@.take(i as int));
    }
    assert(v@.take(i as int) =~= v@);
    r
}

/// What the driver of a routing does next.
pub enum Step {
    /// Send the message to the upstream with this tag and hand the outcome to `answer`.
    Ask(String, Message),
    /// Call `step` again.
    Continue,
    /// Routing is over: send this reply.
    Done(Message),
}

/// The cache entry that a `Query` action under `mode` consults.
pub open spec fn consulted(
    cache: Map<KeyView, CacheRecord>,
    mode: CacheMode,
    upstream: Seq<char>,
    resp: Message,
) -> Option<CacheRecord> {
    if mode == CacheMode::Disabled {
        None
    } else {
        cache.get(cache_key(upstream, resp.queries@))
    }
}

/// `r` asks the upstream `u` with a copy of `resp`.
pub open spec fn asks(r: Step, u: Seq<char>, resp: Message) -> bool {
    match r {
        Step::Ask(u2, q) => u2@ == u && q.same_content(&resp),
        _ => false,
    }
}

/// The exchange in progress is with upstream `u` under `mode`, with the response of
/// `fallback` to use if it fails.
pub open spec fn awaiting(
    a: Option<(String, CacheMode, Option<Message>)>,
    u: Seq<char>,
    mode: CacheMode,
    fallback: Option<CacheRecord>,
) -> bool {
    match a {
        Some((u2, m2, stale)) => u2@ == u && m2 == mode && match (stale, fallback) {
            (Some(s), Some(rec)) => s.same_content(&rec.msg),
            (None, None) => true,
            _ => false,
        },
        None => false,
    }
}

/// `m` is the bare server failure reply to `query`: its identifier and operation code,
/// marked as a response, recursion not desired, no question and no answer.
pub open spec fn is_servfail_for(m: Message, query: Message) -> bool {
    &&& m.id == query.id
    &&& m.opcode == query.opcode
    &&& m.qr
    &&& !m.rd
    &&& m.rcode == RCODE_SERVFAIL
    &&& m.queries@.len() == 0
    &&& m.answers@.len() == 0
}

/// `r` ends routing with the server failure reply to `query`.
pub open spec fn fails_with_servfail(r: Step, query: Message) -> bool {
    match r {
        Step::Done(m) => is_servfail_for(m, query),
        _ => false,
    }
}

/// `r` ends routing with `resp` under a header that answers `query`.
pub open spec fn replies_with(r: Step, query: Message, resp: Message) -> bool {
    match r {
        Step::Done(m) => answers_query(m, query) && m.rcode == resp.rcode && questions_view(m.queries@)
            == questions_view(resp.queries@) && same_answers(m.answers@, resp.answers@),
        _ => false,
    }
}

/// The routing of one query through a table, one step at a time. The driver performs
/// the upstream exchanges that `step` asks for.
pub struct Routing {
    state: State,
    tag: String,
    pending: Vec<Action>,
    next_at: usize,
    failed: bool,
    asking: Option<(String, CacheMode, Option<Message>)>,
    walked: Ghost<Seq<Seq<char>>>,
}

impl Routing {
    pub closed spec fn query(&self) -> Message {
        self.state.query
    }

    /// The response so far.
    pub closed spec fn resp(&self) -> Message {
        self.state.resp
    }

    /// The tag of the rule to run once the pending actions are done.
    pub closed spec fn tag(&self) -> Seq<char> {
        self.tag@
    }

    /// The actions of the current branch that are still to run.
    pub closed spec fn pending(&self) -> Seq<Action> {
        self.pending@.skip(self.next_at as int)
    }

    pub closed spec fn failed(&self) -> bool {
        self.failed
    }

    /// The upstream exchange in progress: tag, cache mode and fallback response.
    pub closed spec fn asking(&self) -> Option<(String, CacheMode, Option<Message>)> {
        self.asking
    }

    pub closed spec fn wf(&self) -> bool {
        self.state.query.queries@.len() > 0 && self.next_at <= self.pending@.len()
    }

    /// The tags of the rules run so far, in order.
    pub closed spec fn walked(&self) -> Seq<Seq<char>> {
        self.walked@
    }

    /// The rules run so far, followed by the next one unless it is `end`, form a walk of
    /// jumps from `start` through `rules`.
    pub open spec fn follows(&self, rules: Seq<(String, Rule)>) -> bool {
        &&& self.walked().len() > 0 ==> path_from_start(rules, self.walked())
        &&& self.tag() != end_tag() ==> path_from_start(rules, self.walked().push(self.tag()))
    }

    /// Starts routing `query`, which has at least one question, at the rule `start`.
    pub fn new(query: Message, qctx: Option<QueryContext>) -> (r: Routing)
        requires
            query.queries@.len() > 0,
        ensures
            r.wf(),
            r.query() == query,
            r.resp().same_content(&query),
            r.tag() == seq!['s', 't', 'a', 'r', 't'],
            r.pending().len() == 0,
            !r.failed(),
            r.asking() is None,
            r.walked().len() == 0,
            forall|rules: Seq<(String, Rule)>| #[trigger] r.follows(rules),
    {
        let tag = String::from_str("start");
        proof {
            reveal_strlit("start");
        }
        let ghost none = Seq::<Seq<char>>::empty();
        let r = Routing {
            state: State::new(query, qctx),
            tag,
            pending: Vec::new(),
            next_at: 0,
            failed: false,
            asking: None,
            walked: Ghost(none),
        };
        assert(r.pending() =~= Seq::<Action>::empty());
        assert forall|rules: Seq<(String, Rule)>| #[trigger] r.follows(rules) by {
            assert(none.push(r.tag())[0] == start_tag());
            assert(is_path(rules, none.push(r.tag())));
        }
        r
    }

    /// Runs the next action, or moves to the next rule, or finishes. A `Query` action is
    /// answered from the cache while its entry is fresh; otherwise `step` asks the driver
    /// to send the current response to the upstream.
    pub fn step(&mut self, table: &Table, cache: &mut RespCache, now: u64) -> (r: Step)
        requires
            table.wf(),
            old(self).wf(),
            old(self).asking() is None,
            old(self).follows(table.rules()),
            old(cache).wf(),
        ensures
            final(self).wf(),
            final(self).follows(table.rules()),
            final(self).walked() == old(self).walked() || (r is Continue && final(self).walked()
                == old(self).walked().push(old(self).tag())),
            final(cache).wf(),
            final(cache)@ == old(cache)@,
            final(cache).order() == (if !old(self).failed() && old(self).pending().len() > 0 && (old(self).pending()[0] matches Action::Query(u, mode) && mode != CacheMode::Disabled) {
                match old(self).pending()[0] {
                    Action::Query(u, _) => order_after_touch(old(cache)@, old(cache).order(), cache_key(u@, old(self).resp().queries@)),
                    _ => old(cache).order(),
                }
            } else {
                old(cache).order()
            }),
            final(self).query() == old(self).query(),
            r matches Step::Done(m) ==> m.id == old(self).query().id && m.opcode == old(self).query().opcode && m.qr,
            old(self).failed() ==> final(self).failed() && fails_with_servfail(r, old(self).query()),
            !old(self).failed() && old(self).pending().len() > 0 ==> {
                &&& final(self).pending() == old(self).pending().drop_first()
                &&& final(self).tag() == old(self).tag()
                &&& !final(self).failed()
                &&& match old(self).pending()[0] {
                    Action::Skip => r is Continue && final(self).resp() == old(self).resp() && final(self).asking() is None,
                    Action::Disable => r is Continue && final(self).asking() is None
                        && answers_query(final(self).resp(), old(self).query())
                        && final(self).resp().rcode == RCODE_NOERROR
                        && final(self).resp().answers@.len() == 0
                        && questions_view(final(self).resp().queries@) == questions_view(old(self).query().queries@),
                    Action::Query(u, mode) => match consulted(old(cache)@, mode, u@, old(self).resp()) {
                        Some(rec) => if is_fresh(rec, now) {
                            r is Continue && final(self).asking() is None && final(self).resp().same_content(&rec.msg)
                        } else {
                            asks(r, u@, old(self).resp()) && final(self).resp() == old(self).resp()
                                && awaiting(final(self).asking(), u@, mode, if mode == CacheMode::Persist {
                                    Some(rec)
                                } else {
                                    None
                                })
                        },
                        None => asks(r, u@, old(self).resp()) && final(self).resp() == old(self).resp()
                            && awaiting(final(self).asking(), u@, mode, None),
                    },
                }
            },
            !old(self).failed() && old(self).pending().len() == 0 ==> {
                if old(self).tag() == end_tag() {
                    replies_with(r, old(self).query(), old(self).resp())
                } else if !defined(table.rules(), old(self).tag()) {
                    final(self).failed() && fails_with_servfail(r, old(self).query())
                } else {
                    &&& r is Continue
                    &&& !final(self).failed()
                    &&& final(self).asking() is None
                    &&& final(self).resp() == old(self).resp()
                    &&& exists|i: int| 0 <= i < table.rules().len() && #[trigger] table.rules()[i].0@ == old(self).tag() && {
                        let b = selected_branch(table.rules()[i].1, old(self).query());
                        final(self).pending() == b.actions@ && final(self).tag() == b.next@
                    }
                }
            },
    {
        if self.failed {
            return Step::Done(servfail(&self.state.query));
        }
        if self.next_at < self.pending.len() {
            let k = self.next_at;
            self.next_at = k + 1;
            assert(self.pending@.skip(k as int + 1) =~= self.pending@.skip(k as int).drop_first());
            match &self.pending[k] {
                Action::Skip => Step::Continue,
                Action::Disable => {
                    self.state.resp = disabled_response(&self.state.query);
                    Step::Continue
                },
                Action::Query(u, mode) => {
                    let u = u.clone();
                    let mode = *mode;
                    let cached = if stores_answer(mode) {
                        cache.get(&u, &self.state.resp, now)
                    } else {
                        None
                    };
                    match plan_query(mode, cached) {
                        QueryPlan::Cached(m) => {
                            self.state.resp = m;
                            Step::Continue
                        },
                        QueryPlan::Ask(stale) => {
                            let q = self.state.resp.duplicate();
                            self.asking = Some((u.clone(), mode, stale));
                            Step::Ask(u, q)
                        },
                    }
                },
            }
        } else if str_equal(self.tag.as_str(), "end") {
            proof {
                reveal_strlit("end");
                assert("end"@ == end_tag());
            }
            let resp = self.state.resp.duplicate();
            Step::Done(finalize(&self.state.query, resp))
        } else {
            proof {
                reveal_strlit("end");
                assert("end"@ == end_tag());
            }
            match table.route(self.tag.as_str(), &self.state) {
                None => {
                    self.failed = true;
                    Step::Done(servfail(&self.state.query))
                },
                Some(b) => {
                    assert(defined(table.rules(), self.tag@));
                    self.pending = copy_actions(&b.actions);
                    self.next_at = 0;
                    let ghost prev = self.walked@;
                    let ghost here = self.tag@;
                    self.tag = b.next.clone();
                    self.walked = Ghost(prev.push(here));
                    assert(self.pending@.skip(0) =~= self.pending@);
                    proof {
                        if self.tag@ != end_tag() {
                            let i = choose|i: int| 0 <= i < table.rules().len() && #[trigger] table.rules()[i].0@ == here
                                && *b == selected_branch(table.rules()[i].1, self.state.query);
                            assert(dsts(table.rules()[i].1).contains(b.next@)) by {
                                match table.rules()[i].1 {
                                    Rule::SeqBlock(x) => { assert(dsts(table.rules()[i].1)[0] == b.next@); },
                                    Rule::IfBlock(m, x, y) => {
                                        if matcher_holds(m, self.state.query) {
                                            assert(dsts(table.rules()[i].1)[0] == b.next@);
                                        } else {
                                            assert(dsts(table.rules()[i].1)[1] == b.next@);
                                        }
                                    },
                                }
                            }
                            assert(prev.push(here).last() == here);
                            lemma_path_push(table.rules(), prev.push(here), self.tag@);
                        }
                    }
                    Step::Continue
                },
            }
        }
    }

    /// Over a valid table routing runs each rule at most once: the rules run so far, and
    /// the next one unless it is `end`, are at most as many as the table has. Each `step`
    /// that loads a rule extends that walk by one.
    pub proof fn lemma_bounded(&self, table: &Table)
        requires
            table.wf(),
            self.follows(table.rules()),
        ensures
            self.walked().len() <= table.rules().len(),
            self.tag() != end_tag() ==> self.walked().len() < table.rules().len(),
    {
        table.lemma_valid();
        if self.tag() != end_tag() {
            lemma_walk_bounded(table.rules(), self.walked().push(self.tag()));
        } else if self.walked().len() > 0 {
            lemma_walk_bounded(table.rules(), self.walked());
        }
    }

    /// Hands over the outcome of the upstream exchange that `step` asked for. An answer is
    /// stored in the cache unless the mode is `Disabled`, and becomes the response; on
    /// failure the fallback response is used, or routing fails.
    pub fn answer<E>(&mut self, cache: &mut RespCache, now: u64, outcome: Result<Message, E>)
        requires
            old(self).wf(),
            old(self).asking() is Some,
            !old(self).failed(),
            old(cache).wf(),
        ensures
            final(self).wf(),
            final(self).walked() == old(self).walked(),
            final(cache).wf(),
            final(self).query() == old(self).query(),
            final(self).tag() == old(self).tag(),
            final(self).pending() == old(self).pending(),
            final(self).asking() is None,
            match (old(self).asking(), outcome) {
                (Some((u, mode, _)), Ok(m)) => {
                    &&& final(self).resp() == m
                    &&& !final(self).failed()
                    &&& mode == CacheMode::Disabled || m.rcode != RCODE_NOERROR ==> final(cache)@ == old(cache)@
                        && final(cache).order() == old(cache).order()
                    &&& mode != CacheMode::Disabled && m.rcode == RCODE_NOERROR ==> {
                        let k = cache_key(u@, m.queries@);
                        &&& final(cache)@.contains_key(k)
                        &&& final(cache)@[k].created == now
                        &&& final(cache)@[k].ttl == min_ttl(m.answers@)
                        &&& final(cache)@[k].msg.same_content(&m)
                        &&& final(cache)@ == after_put(old(cache)@, old(cache).order(), old(cache).capacity(), k, final(cache)@[k])
                        &&& final(cache).order() == order_after_put(old(cache)@, old(cache).order(), old(cache).capacity(), k)
                    }
                },
                (Some((_, _, Some(s))), Err(_)) => final(self).resp() == s && !final(self).failed() && final(cache)@ == old(cache)@
                    && final(cache).order() == old(cache).order(),
                (Some((_, _, None)), Err(_)) => final(self).failed() && final(cache)@ == old(cache)@
                    && final(cache).order() == old(cache).order(),
                _ => true,
            },
    {
        let (u, mode, stale) = self.asking.take().unwrap();
        if let Ok(m) = &outcome {
            if stores_answer(mode) {
                let dup = m.duplicate();
                assert(cache_key(u@, dup.queries@) == cache_key(u@, m.queries@));
                proof {
                    lemma_min_ttl_same(dup.answers@, m.answers@);
                }
                cache.put(&u, dup, now);
            }
        }
        match settle_query(stale, outcome) {
            Ok(m) => {
                self.state.resp = m;
            },
            Err(_) => {
                self.failed = true;
            },
        }
    }
}

} // verus!
