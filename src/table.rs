//! The routing table: a graph of named rules, validated before it serves queries.
use crate::domain::{Domain, covers, domain_key};
use crate::message::Message;
use crate::text::{lists, str_equal};
use vstd::prelude::*;

verus! {

/// How a `Query` action uses the response cache.
#[derive(PartialEq, Eq, Structural, Clone, Copy, Debug)]
pub enum CacheMode {
    /// Serve fresh entries; on upstream failure serve an expired entry.
    Persist,
    /// Serve fresh entries only.
    Standard,
    /// Never read or write the cache.
    Disabled,
}

/// A step that transforms the per-query state.
pub enum Action {
    /// Ask the upstream with this tag.
    Query(String, CacheMode),
    /// Answer with an empty response to the query.
    Disable,
    /// Do nothing.
    Skip,
}

/// A matcher on the per-query state.
pub enum Matcher {
    Any,
    /// The first question's name is covered by the trie.
    Domain(Domain),
    /// The first question's type is one of these.
    QType(Vec<u16>),
    /// The query's recursion-desired flag has this value.
    Header(bool),
    Not(Box<Matcher>),
    And(Box<Matcher>, Box<Matcher>),
    Or(Box<Matcher>, Box<Matcher>),
}

/// Actions to run, then the tag of the rule to go to.
pub struct Branch {
    pub actions: Vec<Action>,
    pub next: String,
}

pub enum Rule {
    /// Run the branch unconditionally.
    SeqBlock(Branch),
    /// Run `on_match` when the matcher holds, `no_match` otherwise.
    IfBlock(Matcher, Branch, Branch),
}

pub open spec fn start_tag() -> Seq<char> {
    seq!['s', 't', 'a', 'r', 't']
}

pub open spec fn end_tag() -> Seq<char> {
    seq!['e', 'n', 'd']
}

/// Tags that a rule may jump to.
pub open spec fn dsts(r: Rule) -> Seq<Seq<char>> {
    match r {
        Rule::SeqBlock(b) => seq![b.next@],
        Rule::IfBlock(_, a, b) => seq![a.next@, b.next@],
    }
}

/// The action queries the upstream `u`.
pub open spec fn action_uses(a: Action, u: Seq<char>) -> bool {
    match a {
        Action::Query(t, _) => t@ == u,
        _ => false,
    }
}

/// Some `Query` action of the branch names the upstream `u`.
pub open spec fn branch_uses(b: Branch, u: Seq<char>) -> bool {
    exists|k: int| 0 <= k < b.actions@.len() && action_uses(#[trigger] b.actions@[k], u)
}

/// The rule names the upstream `u` in one of its `Query` actions.
pub open spec fn rule_uses(r: Rule, u: Seq<char>) -> bool {
    match r {
        Rule::SeqBlock(b) => branch_uses(b, u),
        Rule::IfBlock(_, a, b) => branch_uses(a, u) || branch_uses(b, u),
    }
}

pub open spec fn matcher_wf(m: Matcher) -> bool
    decreases m,
{
    match m {
        Matcher::Domain(d) => d.wf(),
        Matcher::Not(a) => matcher_wf(*a),
        Matcher::And(a, b) => matcher_wf(*a) && matcher_wf(*b),
        Matcher::Or(a, b) => matcher_wf(*a) && matcher_wf(*b),
        _ => true,
    }
}

/// Every domain matcher of the rules is a well-formed trie.
pub open spec fn rules_wf(rules: Seq<(String, Rule)>) -> bool {
    forall|i: int| 0 <= i < rules.len() ==> match #[trigger] rules[i].1 {
        Rule::IfBlock(m, _, _) => matcher_wf(m),
        _ => true,
    }
}

/// No two rules share a tag.
pub open spec fn unique_tags(rules: Seq<(String, Rule)>) -> bool {
    forall|i: int, j: int|
        0 <= i < rules.len() && 0 <= j < rules.len() && i != j ==> rules[i].0@ != rules[j].0@
}

pub open spec fn defined(rules: Seq<(String, Rule)>, t: Seq<char>) -> bool {
    exists|i: int| 0 <= i < rules.len() && #[trigger] rules[i].0@ == t
}

/// The rule tagged `a` may jump to the rule tagged `b` (the terminal `end` is no rule).
pub open spec fn has_edge(rules: Seq<(String, Rule)>, a: Seq<char>, b: Seq<char>) -> bool {
    &&& b != end_tag()
    &&& exists|i: int| 0 <= i < rules.len() && #[trigger] rules[i].0@ == a && dsts(rules[i].1).contains(b)
}

/// `p` is a walk of jumps through the table.
pub open spec fn is_path(rules: Seq<(String, Rule)>, p: Seq<Seq<char>>) -> bool {
    &&& p.len() >= 1
    &&& forall|i: int| 0 <= i < p.len() - 1 ==> #[trigger] has_edge(rules, p[i], p[i + 1])
}

pub open spec fn path_from_start(rules: Seq<(String, Rule)>, p: Seq<Seq<char>>) -> bool {
    is_path(rules, p) && p[0] == start_tag()
}

pub open spec fn reachable(rules: Seq<(String, Rule)>, t: Seq<char>) -> bool {
    exists|p: Seq<Seq<char>>| #[trigger] path_from_start(rules, p) && p.last() == t
}

/// A walk from `start` reaches a tag that no rule has.
pub open spec fn undefined_reachable(rules: Seq<(String, Rule)>) -> bool {
    exists|p: Seq<Seq<char>>| #[trigger] path_from_start(rules, p) && !defined(rules, p.last())
}

/// A walk from `start` comes back to a rule it has passed.
pub open spec fn cycle_reachable(rules: Seq<(String, Rule)>) -> bool {
    exists|p: Seq<Seq<char>>| #[trigger] path_from_start(rules, p) && p.drop_last().contains(p.last())
}

/// Every rule is reachable from `start`, no cycle can be reached, and every jump goes
/// to a rule or to `end`.
pub open spec fn valid_table(rules: Seq<(String, Rule)>) -> bool {
    &&& !undefined_reachable(rules)
    &&& !cycle_reachable(rules)
    &&& forall|i: int| 0 <= i < rules.len() ==> reachable(rules, #[trigger] rules[i].0@)
}

/// Errors found when building a table.
pub enum TableError {
    /// Rules that `start` cannot reach.
    UnusedRules(Vec<String>),
    /// A rule that can reach itself.
    RuleRecursion(String),
    /// A tag that is jumped to but not defined.
    UndefinedTag(String),
}

pub open spec fn marked(rules: Seq<(String, Rule)>, used: Seq<bool>, t: Seq<char>) -> bool {
    exists|i: int| 0 <= i < rules.len() && #[trigger] rules[i].0@ == t && used[i]
}

pub open spec fn count_clear(flags: Seq<bool>) -> nat
    decreases flags.len(),
{
    if flags.len() == 0 {
        0
    } else {
        count_clear(flags.drop_last()) + if flags.last() {
            0nat
        } else {
            1nat
        }
    }
}

proof fn lemma_count_clear_set(flags: Seq<bool>, i: int)
    requires
        0 <= i < flags.len(),
        !flags[i],
    ensures
        count_clear(flags.update(i, true)) + 1 == count_clear(flags),
    decreases flags.len(),
{
    if i < flags.len() - 1 {
        assert(flags.update(i, true).drop_last() =~= flags.drop_last().update(i, true));
        lemma_count_clear_set(flags.drop_last(), i);
    } else {
        assert(flags.update(i, true).drop_last() =~= flags.drop_last());
    }
}

/// Index of the rule tagged `tag`.
fn find_rule(rules: &Vec<(String, Rule)>, tag: &str) -> (r: Option<usize>)
    ensures
        match r {
            Some(i) => i < rules@.len() && rules@[i as int].0@ == tag@,
            None => !defined(rules@, tag@),
        },
{
    let mut i: usize = 0;
    while i < rules.len()
        invariant
            i <= rules@.len(),
            forall|j: int| 0 <= j < i ==> rules@[j].0@ != tag@,
        decreases rules@.len() - i,
    {
        if str_equal(rules[i].0.as_str(), tag) {
            return Some(i);
        }
        i = i + 1;
    }
    None
}

fn rule_dsts(r: &Rule) -> (d: Vec<String>)
    ensures
        d@.len() == dsts(*r).len(),
        forall|k: int| 0 <= k < d@.len() ==> (#[trigger] d@[k])@ == dsts(*r)[k],
{
    let mut d: Vec<String> = Vec::new();
    match r {
        Rule::SeqBlock(b) => {
            d.push(b.next.clone());
        },
        Rule::IfBlock(_, a, b) => {
            d.push(a.next.clone());
            d.push(b.next.clone());
        },
    }
    d
}

// Depth-first walk from `tag`. `stack` holds the tags of the rules on the way from
// `start`; `on_stack` flags them, and `used` flags every rule reached so far.
fn traverse(
    rules: &Vec<(String, Rule)>,
    tag: &String,
    on_stack: &mut Vec<bool>,
    used: &mut Vec<bool>,
    stack: Ghost<Seq<Seq<char>>>,
) -> (r: Result<(), TableError>)
    requires
        unique_tags(rules@),
        old(on_stack)@.len() == rules@.len(),
        old(used)@.len() == rules@.len(),
        path_from_start(rules@, stack@.push(tag@)),
        forall|i: int| 0 <= i < rules@.len() ==> (old(on_stack)@[i] <==> stack@.contains(#[trigger] rules@[i].0@)),
        forall|t: Seq<char>| #[trigger] stack@.contains(t) ==> defined(rules@, t),
        forall|i: int| 0 <= i < rules@.len() && #[trigger] old(used)@[i] ==> reachable(rules@, rules@[i].0@),
    ensures
        final(used)@.len() == rules@.len(),
        final(on_stack)@.len() == rules@.len(),
        !defined(rules@, tag@) ==> (r matches Err(TableError::UndefinedTag(x)) && x@ == tag@)
            && final(on_stack)@ == old(on_stack)@ && final(used)@ == old(used)@,
        defined(rules@, tag@) && stack@.contains(tag@) ==> (r matches Err(TableError::RuleRecursion(x)) && x@ == tag@)
            && final(on_stack)@ == old(on_stack)@ && final(used)@ == old(used)@,
        forall|i: int| 0 <= i < rules@.len() && #[trigger] final(used)@[i] ==> reachable(rules@, rules@[i].0@),
        forall|i: int| 0 <= i < rules@.len() && #[trigger] old(used)@[i] ==> final(used)@[i],
        match r {
            Ok(()) => {
                &&& final(on_stack)@ == old(on_stack)@
                &&& forall|q: Seq<Seq<char>>| #[trigger] is_path(rules@, q) && q[0] == tag@ ==> {
                    &&& defined(rules@, q.last())
                    &&& !(stack@ + q.drop_last()).contains(q.last())
                    &&& marked(rules@, final(used)@, q.last())
                }
            },
            Err(TableError::UndefinedTag(x)) => exists|q: Seq<Seq<char>>| #[trigger] is_path(rules@, q) && q[0] == tag@ && q.last() == x@ && !defined(rules@, x@),
            Err(TableError::RuleRecursion(x)) => exists|q: Seq<Seq<char>>| #[trigger] is_path(rules@, q) && q[0] == tag@ && q.last() == x@ && (stack@ + q.drop_last()).contains(x@),
            Err(TableError::UnusedRules(_)) => false,
        },
    decreases count_clear(old(on_stack)@),
{
    let ghost one = seq![tag@];
    assert(is_path(rules@, one));
    assert(one.drop_last() =~= Seq::<Seq<char>>::empty());
    assert(stack@ + one.drop_last() =~= stack@);
    let i = match find_rule(rules, tag.as_str()) {
        Some(i) => i,
        None => {
            return Err(TableError::UndefinedTag(tag.clone()));
        },
    };
    if on_stack[i] {
        return Err(TableError::RuleRecursion(tag.clone()));
    }
    proof {
        lemma_count_clear_set(on_stack@, i as int);
    }
    on_stack.set(i, true);
    used.set(i, true);
    let ghost inner = stack@.push(tag@);
    assert(reachable(rules@, tag@)) by {
        assert(inner.last() == tag@);
        assert(path_from_start(rules@, inner));
    }
    assert(!stack@.contains(tag@));
    let ds = rule_dsts(&rules[i].1);
    let mut k: usize = 0;
    while k < ds.len()
        invariant
            unique_tags(rules@),
            i < rules@.len(),
            rules@[i as int].0@ == tag@,
            ds@.len() == dsts(rules@[i as int].1).len(),
            forall|k2: int| 0 <= k2 < ds@.len() ==> (#[trigger] ds@[k2])@ == dsts(rules@[i as int].1)[k2],
            k <= ds@.len(),
            inner == stack@.push(tag@),
            path_from_start(rules@, inner),
            !stack@.contains(tag@),
            forall|j: int| 0 <= j < rules@.len() ==> (old(on_stack)@[j] <==> stack@.contains(#[trigger] rules@[j].0@)),
            forall|t: Seq<char>| #[trigger] stack@.contains(t) ==> defined(rules@, t),
            old(on_stack)@.len() == rules@.len(),
            on_stack@ == old(on_stack)@.update(i as int, true),
            count_clear(on_stack@) < count_clear(old(on_stack)@),
            used@.len() == rules@.len(),
            used@[i as int],
            forall|j: int| 0 <= j < rules@.len() && #[trigger] old(used)@[j] ==> used@[j],
            forall|j: int| 0 <= j < rules@.len() && #[trigger] used@[j] ==> reachable(rules@, rules@[j].0@),
            forall|k2: int, q: Seq<Seq<char>>| 0 <= k2 < k && #[trigger] is_path(rules@, q) && q[0] == #[trigger] ds@[k2]@ && ds@[k2]@ != end_tag() ==> {
                &&& defined(rules@, q.last())
                &&& !(inner + q.drop_last()).contains(q.last())
                &&& marked(rules@, used@, q.last())
            },
        decreases ds@.len() - k,
    {
        let d = &ds[k];
        proof {
            reveal_strlit("end");
            assert("end"@ == end_tag());
        }
        if !str_equal(d.as_str(), "end") {
            assert(dsts(rules@[i as int].1)[k as int] == d@);
            assert(dsts(rules@[i as int].1).contains(d@));
            assert(has_edge(rules@, tag@, d@));
            proof {
                lemma_path_push(rules@, inner, d@);
            }
            assert forall|j: int| 0 <= j < rules@.len() implies (on_stack@[j] <==> inner.contains(
                #[trigger] rules@[j].0@,
            )) by {
                if j != i {
                    assert(rules@[j].0@ != tag@);
                    if stack@.contains(rules@[j].0@) {
                        let x = choose|x: int| 0 <= x < stack@.len() && stack@[x] == rules@[j].0@;
                        assert(inner[x] == rules@[j].0@);
                    }
                    if inner.contains(rules@[j].0@) {
                        let x = choose|x: int| 0 <= x < inner.len() && inner[x] == rules@[j].0@;
                        assert(stack@[x] == rules@[j].0@);
                    }
                } else {
                    assert(inner[inner.len() - 1] == tag@);
                }
            }
            assert forall|t: Seq<char>| #[trigger] inner.contains(t) implies defined(rules@, t) by {
                let x = choose|x: int| 0 <= x < inner.len() && inner[x] == t;
                if x < stack@.len() {
                    assert(stack@[x] == t);
                    assert(stack@.contains(t));
                }
            }
            let ghost used_before = used@;
            let res = traverse(rules, d, on_stack, used, Ghost(inner));
            match res {
                Ok(()) => {},
                Err(e) => {
                    proof {
                        match &e {
                            TableError::UndefinedTag(x) => {
                                let q1 = choose|q1: Seq<Seq<char>>| #[trigger] is_path(rules@, q1) && q1[0] == d@ && q1.last() == x@ && !defined(rules@, x@);
                                lemma_path_cons(rules@, tag@, q1);
                                assert((seq![tag@] + q1).last() == x@);
                            },
                            TableError::RuleRecursion(x) => {
                                let q1 = choose|q1: Seq<Seq<char>>| #[trigger] is_path(rules@, q1) && q1[0] == d@ && q1.last() == x@ && (inner + q1.drop_last()).contains(x@);
                                lemma_path_cons(rules@, tag@, q1);
                                let q = seq![tag@] + q1;
                                assert(q.last() == x@);
                                assert(stack@ + q.drop_last() =~= inner + q1.drop_last());
                            },
                            TableError::UnusedRules(_) => {},
                        }
                    }
                    return Err(e);
                },
            }
        }
        k = k + 1;
    }
    on_stack.set(i, false);
    assert(on_stack@ =~= old(on_stack)@);
    assert forall|q: Seq<Seq<char>>| #[trigger] is_path(rules@, q) && q[0] == tag@ implies {
        &&& defined(rules@, q.last())
        &&& !(stack@ + q.drop_last()).contains(q.last())
        &&& marked(rules@, used@, q.last())
    } by {
        if q.len() == 1 {
            assert(q.drop_last() =~= Seq::<Seq<char>>::empty());
            assert(stack@ + q.drop_last() =~= stack@);
            assert(rules@[i as int].0@ == q.last());
        } else {
            assert(has_edge(rules@, q[0], q[1]));
            let j = choose|j: int| 0 <= j < rules@.len() && #[trigger] rules@[j].0@ == q[0] && dsts(rules@[j].1).contains(q[1]);
            assert(j == i);
            let k2 = choose|k2: int| 0 <= k2 < dsts(rules@[i as int].1).len() && dsts(rules@[i as int].1)[k2] == q[1];
            assert(ds@[k2]@ == q[1]);
            lemma_path_tail(rules@, q);
            let q1 = q.subrange(1, q.len() as int);
            assert(q1[0] == q[1]);
            assert(q1.last() == q.last());
            assert(is_path(rules@, q1) && q1[0] == ds@[k2]@);
            assert(stack@ + q.drop_last() =~= inner + q1.drop_last());
        }
    }
    Ok(())
}

/// Collects tagged rules for a table; a rule added under a tag already present
/// replaces the earlier one.
pub struct TableBuilder {
    rules: Vec<(String, Rule)>,
}

impl TableBuilder {
    pub closed spec fn view(&self) -> Seq<(String, Rule)> {
        self.rules@
    }

    pub open spec fn wf(&self) -> bool {
        unique_tags(self@) && rules_wf(self@)
    }

    /// A builder with no rules.
    pub fn new() -> (r: TableBuilder)
        ensures
            r.wf(),
            r@.len() == 0,
    {
        TableBuilder { rules: Vec::new() }
    }

    /// A builder holding `rules`, whose tags are distinct.
    pub fn from_map(rules: Vec<(String, Rule)>) -> (r: TableBuilder)
        requires
            unique_tags(rules@),
            rules_wf(rules@),
        ensures
            r.wf(),
            r@ == rules@,
    {
        TableBuilder { rules }
    }

    /// Adds `rule` under `tag`, replacing the rule that had this tag.
    pub fn add_rule(self, tag: &str, rule: Rule) -> (r: TableBuilder)
        requires
            self.wf(),
            match rule {
                Rule::IfBlock(m, _, _) => matcher_wf(m),
                _ => true,
            },
        ensures
            r.wf(),
            defined(self@, tag@) ==> r@.len() == self@.len() && exists|i: int|
                0 <= i < self@.len() && #[trigger] self@[i].0@ == tag@ && r@[i].0@ == tag@ && r@[i].1
                    == rule && forall|j: int| 0 <= j < self@.len() && j != i ==> r@[j] == self@[j],
            !defined(self@, tag@) ==> r@.len() == self@.len() + 1 && r@.last().0@ == tag@
                && r@.last().1 == rule && forall|j: int| 0 <= j < self@.len() ==> r@[j] == self@[j],
    {
        let mut rules = self.rules;
        let t = String::from_str(tag);
        match find_rule(&rules, tag) {
            Some(i) => {
                let ghost before = rules@;
                rules.set(i, (t, rule));
                assert(rules@ == before.update(i as int, rules@[i as int]));
                assert forall|a: int, b: int|
                    0 <= a < rules@.len() && 0 <= b < rules@.len() && a != b implies rules@[a].0@ != rules@[b].0@ by {
                    if a != i && b != i {
                        assert(before[a].0@ != before[b].0@);
                    } else if a == i {
                        assert(before[i as int].0@ != before[b].0@);
                    } else {
                        assert(before[i as int].0@ != before[a].0@);
                    }
                }
                assert(before[i as int].0@ == tag@);
            },
            None => {
                let ghost before = rules@;
                rules.push((t, rule));
                assert forall|a: int, b: int|
                    0 <= a < rules@.len() && 0 <= b < rules@.len() && a != b implies rules@[a].0@ != rules@[b].0@ by {
                    if a < before.len() && b < before.len() {
                        assert(before[a].0@ != before[b].0@);
                    } else if a < before.len() {
                        assert(before[a].0@ != tag@);
                    } else {
                        assert(before[b].0@ != tag@);
                    }
                }
            },
        }
        TableBuilder { rules }
    }

    /// Validates the collected rules and builds the table (see `Table::new`).
    pub fn build(self) -> (r: Result<Table, TableError>)
        requires
            self.wf(),
        ensures
            r is Ok <==> valid_table(self@),
            match r {
                Ok(t) => t.wf() && t.rules() == self@,
                Err(TableError::UndefinedTag(x)) => exists|p: Seq<Seq<char>>| #[trigger] path_from_start(self@, p) && p.last() == x@ && !defined(self@, x@),
                Err(TableError::RuleRecursion(x)) => exists|p: Seq<Seq<char>>| #[trigger] path_from_start(self@, p) && p.last() == x@ && p.drop_last().contains(x@),
                Err(TableError::UnusedRules(v)) => {
                    &&& !undefined_reachable(self@)
                    &&& !cycle_reachable(self@)
                    &&& forall|t: Seq<char>| #[trigger] lists(v@, t) <==> (defined(self@, t) && !reachable(self@, t))
                },
            },
    {
        Table::new(self.rules)
    }
}

proof fn lemma_lists_push(v: Seq<String>, x: String)
    ensures
        forall|u: Seq<char>| #[trigger] lists(v.push(x), u) <==> (lists(v, u) || x@ == u),
{
    assert forall|u: Seq<char>| #[trigger] lists(v.push(x), u) <==> (lists(v, u) || x@ == u) by {
        if lists(v, u) {
            let k = choose|k: int| 0 <= k < v.len() && #[trigger] v[k]@ == u;
            assert(v.push(x)[k]@ == u);
        }
        if x@ == u {
            assert(v.push(x)[v.len() as int]@ == u);
        }
        if lists(v.push(x), u) {
            let k = choose|k: int| 0 <= k < v.len() + 1 && #[trigger] v.push(x)[k]@ == u;
            if k < v.len() {
                assert(v[k]@ == u);
            }
        }
    }
}

/// A routing table whose rule graph has been validated.
pub struct Table {
    rules: Vec<(String, Rule)>,
    used_upstreams: Vec<String>,
}

/// Some rule of `rules` names upstream `u` in a `Query` action.
pub open spec fn table_uses(rules: Seq<(String, Rule)>, u: Seq<char>) -> bool {
    exists|i: int| 0 <= i < rules.len() && rule_uses(#[trigger] rules[i].1, u)
}

impl Table {
    pub closed spec fn rules(&self) -> Seq<(String, Rule)> {
        self.rules@
    }

    pub closed spec fn upstreams_view(&self) -> Seq<String> {
        self.used_upstreams@
    }

    /// The rules are well tagged and form a valid graph; the upstream list holds exactly
    /// the upstreams that the rules query.
    pub closed spec fn wf(&self) -> bool {
        &&& unique_tags(self.rules@)
        &&& rules_wf(self.rules@)
        &&& valid_table(self.rules@)
        &&& forall|u: Seq<char>| table_uses(self.rules@, u) <==> #[trigger] lists(self.used_upstreams@, u)
    }

    /// The upstreams that the table's rules query.
    pub fn used_upstreams(&self) -> (r: &Vec<String>)
        requires
            self.wf(),
        ensures
            r@ == self.upstreams_view(),
            forall|u: Seq<char>| table_uses(self.rules(), u) <==> #[trigger] lists(r@, u),
    {
        &self.used_upstreams
    }

    pub(crate) fn rule_list(&self) -> (r: &Vec<(String, Rule)>)
        ensures
            r@ == self.rules(),
    {
        &self.rules
    }

    pub proof fn lemma_valid(&self)
        requires
            self.wf(),
        ensures
            valid_table(self.rules()),
            unique_tags(self.rules()),
    {
    }

    pub(crate) proof fn lemma_rule_wf(&self, i: int)
        requires
            self.wf(),
            0 <= i < self.rules().len(),
        ensures
            match self.rules()[i].1 {
                Rule::IfBlock(m, _, _) => matcher_wf(m),
                _ => true,
            },
    {
    }

    /// Builds a table from tagged rules after checking the graph from `start`: every jump
    /// goes to a rule or to `end`, no rule can reach itself, and every rule is reached.
    pub fn new(rules: Vec<(String, Rule)>) -> (r: Result<Table, TableError>)
        requires
            unique_tags(rules@),
            rules_wf(rules@),
        ensures
            r is Ok <==> valid_table(rules@),
            match r {
                Ok(t) => t.wf() && t.rules() == rules@,
                Err(TableError::UndefinedTag(x)) => exists|p: Seq<Seq<char>>| #[trigger] path_from_start(rules@, p) && p.last() == x@ && !defined(rules@, x@),
                Err(TableError::RuleRecursion(x)) => exists|p: Seq<Seq<char>>| #[trigger] path_from_start(rules@, p) && p.last() == x@ && p.drop_last().contains(x@),
                Err(TableError::UnusedRules(v)) => {
                    &&& !undefined_reachable(rules@)
                    &&& !cycle_reachable(rules@)
                    &&& forall|t: Seq<char>| #[trigger] lists(v@, t) <==> (defined(rules@, t) && !reachable(rules@, t))
                },
            },
    {
        let n = rules.len();
        let mut on_stack: Vec<bool> = Vec::new();
        let mut used: Vec<bool> = Vec::new();
        let mut i: usize = 0;
        while i < n
            invariant
                n == rules@.len(),
                i <= n,
                on_stack@.len() == i,
                used@.len() == i,
                forall|j: int| 0 <= j < i ==> !(#[trigger] on_stack@[j]),
                forall|j: int| 0 <= j < i ==> !(#[trigger] used@[j]),
            decreases n - i,
        {
            on_stack.push(false);
            used.push(false);
            i = i + 1;
        }
        let start = String::from_str("start");
        proof {
            reveal_strlit("start");
        }
        let ghost empty = Seq::<Seq<char>>::empty();
        assert(is_path(rules@, empty.push(start@)));
        assert(empty.push(start@)[0] == start_tag());
        match traverse(&rules, &start, &mut on_stack, &mut used, Ghost(empty)) {
            Ok(()) => {},
            Err(e) => {
                proof {
                    match &e {
                        TableError::UndefinedTag(x) => {
                            let q = choose|q: Seq<Seq<char>>| #[trigger] is_path(rules@, q) && q[0] == start@ && q.last() == x@ && !defined(rules@, x@);
                            assert(path_from_start(rules@, q));
                        },
                        TableError::RuleRecursion(x) => {
                            let q = choose|q: Seq<Seq<char>>| #[trigger] is_path(rules@, q) && q[0] == start@ && q.last() == x@ && (empty + q.drop_last()).contains(x@);
                            assert(empty + q.drop_last() =~= q.drop_last());
                            assert(path_from_start(rules@, q));
                        },
                        TableError::UnusedRules(_) => {},
                    }
                }
                return Err(e);
            },
        }
        assert forall|p: Seq<Seq<char>>| #[trigger] path_from_start(rules@, p) implies defined(rules@, p.last()) && !p.drop_last().contains(p.last()) && marked(rules@, used@, p.last()) by {
            assert(is_path(rules@, p) && p[0] == start@);
            assert(empty + p.drop_last() =~= p.drop_last());
        }
        assert forall|j: int| 0 <= j < n implies (#[trigger] used@[j] <==> reachable(rules@, rules@[j].0@)) by {
            if reachable(rules@, rules@[j].0@) {
                let p = choose|p: Seq<Seq<char>>| #[trigger] path_from_start(rules@, p) && p.last() == rules@[j].0@;
                assert(marked(rules@, used@, p.last()));
            }
        }
        let mut unused: Vec<String> = Vec::new();
        let mut upstreams: Vec<String> = Vec::new();
        let mut i: usize = 0;
        while i < n
            invariant
                n == rules@.len(),
                used@.len() == n,
                unique_tags(rules@),
                i <= n,
                forall|j: int| 0 <= j < n ==> (#[trigger] used@[j] <==> reachable(rules@, rules@[j].0@)),
                forall|t: Seq<char>| #[trigger] lists(unused@, t) <==> (exists|j: int| 0 <= j < i && #[trigger] rules@[j].0@ == t && !used@[j]),
                forall|u: Seq<char>| #[trigger] lists(upstreams@, u) <==> (exists|j: int| 0 <= j < i && rule_uses(#[trigger] rules@[j].1, u)),
            decreases n - i,
        {
            let ghost prev_unused = unused@;
            let ghost prev_up = upstreams@;
            if !used[i] {
                let c = rules[i].0.clone();
                unused.push(c);
                proof {
                    lemma_lists_push(prev_unused, c);
                }
            }
            collect_upstreams(&rules[i].1, &mut upstreams);
            proof {
                assert forall|t: Seq<char>| #[trigger] lists(unused@, t) <==> (exists|j: int| 0 <= j < i + 1 && #[trigger] rules@[j].0@ == t && !used@[j]) by {
                    if exists|j: int| 0 <= j < i + 1 && #[trigger] rules@[j].0@ == t && !used@[j] {
                        let j = choose|j: int| 0 <= j < i + 1 && #[trigger] rules@[j].0@ == t && !used@[j];
                        if j < i {
                            assert(lists(prev_unused, t));
                        }
                    }
                }
                assert forall|u: Seq<char>| #[trigger] lists(upstreams@, u) <==> (exists|j: int| 0 <= j < i + 1 && rule_uses(#[trigger] rules@[j].1, u)) by {
                    if exists|j: int| 0 <= j < i + 1 && rule_uses(#[trigger] rules@[j].1, u) {
                        let j = choose|j: int| 0 <= j < i + 1 && rule_uses(#[trigger] rules@[j].1, u);
                        if j < i {
                            assert(lists(prev_up, u));
                        }
                    }
                }
            }
            i = i + 1;
        }
        assert forall|t: Seq<char>| #[trigger] lists(unused@, t) <==> (defined(rules@, t) && !reachable(rules@, t)) by {
            if defined(rules@, t) && !reachable(rules@, t) {
                let j = choose|j: int| 0 <= j < rules@.len() && #[trigger] rules@[j].0@ == t;
                assert(!used@[j]);
            }
            if lists(unused@, t) {
                let j = choose|j: int| 0 <= j < n && #[trigger] rules@[j].0@ == t && !used@[j];
                assert(defined(rules@, t));
            }
        }
        assert(!undefined_reachable(rules@));
        assert(!cycle_reachable(rules@));
        if unused.len() > 0 {
            assert(lists(unused@, unused@[0]@));
            assert(!valid_table(rules@)) by {
                let j = choose|j: int| 0 <= j < n && #[trigger] rules@[j].0@ == unused@[0]@ && !used@[j];
            }
            return Err(TableError::UnusedRules(unused));
        }
        assert forall|j: int| 0 <= j < n implies reachable(rules@, #[trigger] rules@[j].0@) by {
            if !used@[j] {
                assert(lists(unused@, rules@[j].0@));
            }
        }
        Ok(Table { rules, used_upstreams: upstreams })
    }
}

/// Appends to `out` the upstream tags of the `Query` actions of `r`.
fn collect_upstreams(r: &Rule, out: &mut Vec<String>)
    ensures
        forall|u: Seq<char>| #[trigger] lists(final(out)@, u) <==> (lists(old(out)@, u) || rule_uses(*r, u)),
{
    match r {
        Rule::SeqBlock(b) => {
            collect_branch(b, out);
        },
        Rule::IfBlock(_, a, b) => {
            collect_branch(a, out);
            collect_branch(b, out);
        },
    }
}

fn collect_branch(b: &Branch, out: &mut Vec<String>)
    ensures
        forall|u: Seq<char>| #[trigger] lists(final(out)@, u) <==> (lists(old(out)@, u) || branch_uses(*b, u)),
{
    let mut i: usize = 0;
    while i < b.actions.len()
        invariant
            i <= b.actions@.len(),
            forall|u: Seq<char>| #[trigger] lists(out@, u) <==> (lists(old(out)@, u) || exists|k: int|
                0 <= k < i && action_uses(#[trigger] b.actions@[k], u)),
        decreases b.actions@.len() - i,
    {
        let ghost prev = out@;
        match &b.actions[i] {
            Action::Query(t, _) => {
                let c = t.clone();
                out.push(c);
                proof {
                    lemma_lists_push(prev, c);
                }
            },
            _ => {},
        }
        proof {
            assert forall|u: Seq<char>| #[trigger] lists(out@, u) <==> (lists(old(out)@, u) || exists|k: int|
                0 <= k < i + 1 && action_uses(#[trigger] b.actions@[k], u)) by {
                if exists|k: int| 0 <= k < i + 1 && action_uses(#[trigger] b.actions@[k], u) {
                    let k = choose|k: int| 0 <= k < i + 1 && action_uses(#[trigger] b.actions@[k], u);
                    if k < i {
                        assert(lists(prev, u));
                    }
                }
                if lists(prev, u) && !lists(old(out)@, u) {
                    let k = choose|k: int| 0 <= k < i && action_uses(#[trigger] b.actions@[k], u);
                    assert(0 <= k < i + 1);
                }
                if lists(out@, u) && !lists(prev, u) {
                    assert(action_uses(b.actions@[i as int], u));
                }
            }
        }
        i = i + 1;
    }
}

/// In a valid table every jump of every rule goes to a defined rule or to `end`.
pub proof fn lemma_valid_table_closed(rules: Seq<(String, Rule)>, i: int, k: int)
    requires
        valid_table(rules),
        0 <= i < rules.len(),
        0 <= k < dsts(rules[i].1).len(),
    ensures
        dsts(rules[i].1)[k] == end_tag() || defined(rules, dsts(rules[i].1)[k]),
{
    let d = dsts(rules[i].1)[k];
    if d != end_tag() {
        assert(reachable(rules, rules[i].0@));
        let p = choose|p: Seq<Seq<char>>| #[trigger] path_from_start(rules, p) && p.last() == rules[i].0@;
        assert(dsts(rules[i].1).contains(d));
        assert(has_edge(rules, p.last(), d));
        lemma_path_push(rules, p, d);
        assert(path_from_start(rules, p.push(d)));
        assert(p.push(d).last() == d);
    }
}

/// In a valid table no walk of jumps, from any rule, comes back to a rule it has passed.
pub proof fn lemma_valid_table_acyclic(rules: Seq<(String, Rule)>, p: Seq<Seq<char>>)
    requires
        valid_table(rules),
        is_path(rules, p),
    ensures
        !p.drop_last().contains(p.last()),
{
    if p.len() >= 2 {
        let z: int = 0;
        assert(has_edge(rules, p[z], p[z + 1]));
        let i = choose|i: int| 0 <= i < rules.len() && #[trigger] rules[i].0@ == p[0] && dsts(rules[i].1).contains(p[1]);
        assert(reachable(rules, rules[i].0@));
        let s = choose|s: Seq<Seq<char>>| #[trigger] path_from_start(rules, s) && s.last() == rules[i].0@;
        let rest = p.subrange(1, p.len() as int);
        lemma_path_tail(rules, p);
        let q = s + rest;
        assert forall|j: int| 0 <= j < q.len() - 1 implies #[trigger] has_edge(rules, q[j], q[j + 1]) by {
            if j < s.len() - 1 {
                assert(q[j] == s[j] && q[j + 1] == s[j + 1]);
                assert(has_edge(rules, s[j], s[j + 1]));
            } else if j == s.len() - 1 {
                assert(q[j] == p[0] && q[j + 1] == p[1]);
            } else {
                let m = j - s.len();
                assert(q[j] == rest[m] && q[j + 1] == rest[m + 1]);
                assert(has_edge(rules, rest[m], rest[m + 1]));
            }
        }
        assert(path_from_start(rules, q));
        assert(q.last() == p.last());
        if p.drop_last().contains(p.last()) {
            let x = choose|x: int| 0 <= x < p.drop_last().len() && p.drop_last()[x] == p.last();
            if x == 0 {
                assert(q.drop_last()[s.len() - 1] == p.last());
            } else {
                assert(q.drop_last()[s.len() + x - 1] == p.last());
            }
            assert(q.drop_last().contains(q.last()));
        }
    } else {
        assert(p.drop_last().len() == 0);
    }
}

/// In a valid table a walk from `start` passes each rule at most once, so it runs
/// through at most as many rules as the table has.
pub proof fn lemma_walk_bounded(rules: Seq<(String, Rule)>, p: Seq<Seq<char>>)
    requires
        valid_table(rules),
        path_from_start(rules, p),
    ensures
        p.no_duplicates(),
        p.len() <= rules.len(),
{
    broadcast use vstd::seq_lib::seq_to_set_is_finite;
    assert forall|i: int, j: int| 0 <= i < p.len() && 0 <= j < p.len() && i != j implies p[i] != p[j] by {
        let (a, b) = if i < j { (i, j) } else { (j, i) };
        let q = p.take(b + 1);
        lemma_path_take(rules, p, b + 1);
        lemma_valid_table_acyclic(rules, q);
        assert(q.drop_last()[a] == p[a]);
        assert(q.last() == p[b]);
    }
    let tags = rules.map_values(|r: (String, Rule)| r.0@);
    assert forall|t: Seq<char>| p.to_set().contains(t) implies tags.to_set().contains(t) by {
        let k = choose|k: int| 0 <= k < p.len() && p[k] == t;
        lemma_path_take(rules, p, k + 1);
        assert(path_from_start(rules, p.take(k + 1)));
        assert(p.take(k + 1).last() == t);
        assert(defined(rules, t));
        let i = choose|i: int| 0 <= i < rules.len() && #[trigger] rules[i].0@ == t;
        assert(tags[i] == t);
    }
    p.unique_seq_to_set();
    tags.lemma_cardinality_of_set();
    vstd::set_lib::lemma_len_subset(p.to_set(), tags.to_set());
}

proof fn lemma_path_take(rules: Seq<(String, Rule)>, p: Seq<Seq<char>>, n: int)
    requires
        is_path(rules, p),
        1 <= n <= p.len(),
    ensures
        is_path(rules, p.take(n)),
        p.take(n)[0] == p[0],
{
    let q = p.take(n);
    assert forall|i: int| 0 <= i < q.len() - 1 implies #[trigger] has_edge(rules, q[i], q[i + 1]) by {
        assert(q[i] == p[i] && q[i + 1] == p[i + 1]);
        assert(has_edge(rules, p[i], p[i + 1]));
    }
}

pub proof fn lemma_path_push(rules: Seq<(String, Rule)>, p: Seq<Seq<char>>, b: Seq<char>)
    requires
        is_path(rules, p),
        has_edge(rules, p.last(), b),
    ensures
        is_path(rules, p.push(b)),
        p.push(b)[0] == p[0],
{
    let q = p.push(b);
    assert forall|i: int| 0 <= i < q.len() - 1 implies #[trigger] has_edge(rules, q[i], q[i + 1]) by {
        if i < p.len() - 1 {
            assert(has_edge(rules, p[i], p[i + 1]));
        }
    }
}

proof fn lemma_path_cons(rules: Seq<(String, Rule)>, a: Seq<char>, q: Seq<Seq<char>>)
    requires
        is_path(rules, q),
        has_edge(rules, a, q[0]),
    ensures
        is_path(rules, seq![a] + q),
        (seq![a] + q)[0] == a,
        (seq![a] + q).last() == q.last(),
        (seq![a] + q).drop_last() == seq![a] + q.drop_last(),
{
    let r = seq![a] + q;
    assert forall|i: int| 0 <= i < r.len() - 1 implies #[trigger] has_edge(rules, r[i], r[i + 1]) by {
        if i > 0 {
            let j = i - 1;
            assert(r[i] == q[j] && r[i + 1] == q[j + 1]);
            assert(has_edge(rules, q[j], q[j + 1]));
        }
    }
    assert(r.drop_last() =~= seq![a] + q.drop_last());
}

proof fn lemma_path_tail(rules: Seq<(String, Rule)>, q: Seq<Seq<char>>)
    requires
        is_path(rules, q),
        q.len() >= 2,
    ensures
        is_path(rules, q.subrange(1, q.len() as int)),
{
    let r = q.subrange(1, q.len() as int);
    assert forall|i: int| 0 <= i < r.len() - 1 implies #[trigger] has_edge(rules, r[i], r[i + 1]) by {
        let j = i + 1;
        assert(r[i] == q[j] && r[i + 1] == q[j + 1]);
        assert(has_edge(rules, q[j], q[j + 1]));
    }
}

} // verus!
