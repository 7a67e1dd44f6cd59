//! A domain matcher: a trie keyed by domain labels in reverse order (top level first).
use crate::text::{lists, chars_of, segments, split_nonempty, string_of, views_of, lemma_trailing_separator};
use vstd::prelude::*;

verus! {

/// A path from the root of the trie: labels, top level first.
pub type LabelPath = Seq<Seq<char>>;

pub open spec fn valid_domain_char(c: char) -> bool {
    ('a' <= c && c <= 'z') || ('A' <= c && c <= 'Z') || ('0' <= c && c <= '9') || c == '-' || c
        == '.'
}

/// Every character of `s` may appear in a domain rule.
pub open spec fn valid_domain(s: Seq<char>) -> bool {
    forall|i: int| 0 <= i < s.len() ==> valid_domain_char(#[trigger] s[i])
}

/// The non-empty labels of `s`, top level first.
pub open spec fn domain_key(s: Seq<char>) -> LabelPath {
    segments(s, '.').reverse()
}

/// Every prefix of `p`, `p` itself and the empty path included.
pub open spec fn prefixes(p: LabelPath) -> Set<LabelPath> {
    Set::new(|q: LabelPath| exists|m: int| 0 <= m <= p.len() && q == p.take(m))
}

/// The node at `p` has no children.
pub open spec fn is_leaf(nodes: Set<LabelPath>, p: LabelPath) -> bool {
    forall|l: Seq<char>| !nodes.contains(#[trigger] p.push(l))
}

/// The walk down `key` can stop at the node of its first `k` labels: that node exists,
/// and it has no children or `k` labels are all there are.
pub open spec fn stops_at(nodes: Set<LabelPath>, key: LabelPath, k: int) -> bool {
    0 <= k <= key.len() && nodes.contains(key.take(k)) && (k == key.len() || is_leaf(
        nodes,
        key.take(k),
    ))
}

/// The walk down `key` stops at some node without falling off the trie.
pub open spec fn covers_walk(nodes: Set<LabelPath>, key: LabelPath) -> bool {
    exists|k: int| #[trigger] stops_at(nodes, key, k)
}

/// The walk down `key` stops at the node of its first `k` labels with a match: that node
/// has no children, or every label is used and an inserted rule ends there.
pub open spec fn matches_at(nodes: Set<LabelPath>, ends: Set<LabelPath>, key: LabelPath, k: int) -> bool {
    stops_at(nodes, key, k) && (is_leaf(nodes, key.take(k)) || ends.contains(key.take(k)))
}

/// The walk down `key` stops with a match.
pub open spec fn covers(nodes: Set<LabelPath>, ends: Set<LabelPath>, key: LabelPath) -> bool {
    exists|k: int| #[trigger] matches_at(nodes, ends, key, k)
}

/// The node set after inserting the rule `s`.
pub open spec fn insert_rule(nodes: Set<LabelPath>, s: Seq<char>) -> Set<LabelPath> {
    if valid_domain(s) {
        nodes.union(prefixes(domain_key(s)))
    } else {
        nodes
    }
}

/// The rule ends after inserting the rule `s`: a valid rule with at least one label
/// ends at its node.
pub open spec fn insert_end(ends: Set<LabelPath>, s: Seq<char>) -> Set<LabelPath> {
    if valid_domain(s) && domain_key(s).len() > 0 {
        ends.insert(domain_key(s))
    } else {
        ends
    }
}

/// The rule ends after inserting each of `rules` in order.
pub open spec fn insert_ends(ends: Set<LabelPath>, rules: Seq<Seq<char>>) -> Set<LabelPath>
    decreases rules.len(),
{
    if rules.len() == 0 {
        ends
    } else {
        insert_end(insert_ends(ends, rules.drop_last()), rules.last())
    }
}

/// The node set after inserting each of `rules` in order.
pub open spec fn insert_rules(nodes: Set<LabelPath>, rules: Seq<Seq<char>>) -> Set<LabelPath>
    decreases rules.len(),
{
    if rules.len() == 0 {
        nodes
    } else {
        insert_rule(insert_rules(nodes, rules.drop_last()), rules.last())
    }
}

/// A trie node: its children, each under its label, by index into the node list.
pub struct LevelNode {
    next_lvs: Vec<(Vec<char>, usize)>,
    /// An inserted rule ends here.
    terminal: bool,
}

/// Domain matcher. Inserting `apple.com` makes `www.apple.com` and
/// `store.www.apple.com` match, while `apple.cn` does not.
pub struct Domain {
    nodes: Vec<LevelNode>,
    paths: Ghost<Seq<LabelPath>>,
}

impl Default for Domain {
    fn default() -> (r: Self)
        ensures
            r.wf(),
            r@ == set![Seq::<Seq<char>>::empty()],
            r.ends() == Set::<LabelPath>::empty(),
    {
        Self::new()
    }
}

impl Domain {
    /// The paths of all nodes of the trie, the root (the empty path) included.
    pub closed spec fn view(&self) -> Set<LabelPath> {
        Set::new(|p: LabelPath| exists|i: int| 0 <= i < self.paths@.len() && self.paths@[i] == p)
    }

    /// The paths at which an inserted rule ends.
    pub closed spec fn ends(&self) -> Set<LabelPath> {
        Set::new(
            |p: LabelPath|
                exists|i: int| 0 <= i < self.paths@.len() && self.paths@[i] == p && self.nodes@[i].terminal,
        )
    }

    spec fn has_node(&self, p: LabelPath) -> bool {
        exists|i: int| 0 <= i < self.paths@.len() && #[trigger] self.paths@[i] == p
    }

    spec fn edge(&self, i: int, k: int) -> (Vec<char>, usize) {
        self.nodes@[i].next_lvs@[k]
    }

    pub closed spec fn wf(&self) -> bool {
        let n = self.nodes@.len();
        &&& n >= 1
        &&& self.paths@.len() == n
        &&& self.paths@[0] == Seq::<Seq<char>>::empty()
        &&& !self.nodes@[0].terminal
        &&& forall|i: int, k: int|
            0 <= i < n && 0 <= k < self.nodes@[i].next_lvs@.len() ==> {
                let e = #[trigger] self.edge(i, k);
                &&& e.1 < n
                &&& self.paths@[e.1 as int] == self.paths@[i].push(e.0@)
            }
        &&& forall|i: int, j: int|
            0 <= i < n && 0 <= j < n && i != j ==> self.paths@[i] != self.paths@[j]
        &&& forall|i: int, l: Seq<char>|
            0 <= i < n && #[trigger] self.has_node(self.paths@[i].push(l)) ==> exists|k: int|
                0 <= k < self.nodes@[i].next_lvs@.len() && (#[trigger] self.edge(i, k)).0@ == l
        &&& forall|j: int, m: int|
            0 <= j < n && 0 <= m <= self.paths@[j].len() ==> self.has_node(
                #[trigger] self.paths@[j].take(m),
            )
    }

    /// An empty matcher: the trie holds its root alone.
    pub fn new() -> (r: Self)
        ensures
            r.wf(),
            r@ == set![Seq::<Seq<char>>::empty()],
            r.ends() == Set::<LabelPath>::empty(),
    {
        let mut nodes: Vec<LevelNode> = Vec::new();
        nodes.push(LevelNode { next_lvs: Vec::new(), terminal: false });
        let ghost root: Seq<LabelPath> = seq![Seq::<Seq<char>>::empty()];
        let r = Domain { nodes, paths: Ghost(root) };
        assert forall|j: int, m: int|
            0 <= j < 1 && 0 <= m <= r.paths@[j].len() implies r.has_node(
                #[trigger] r.paths@[j].take(m),
            ) by {
            assert(r.paths@[0].take(m) == r.paths@[0]);
        }
        assert forall|i: int, l: Seq<char>|
            0 <= i < 1 && #[trigger] r.has_node(r.paths@[i].push(l)) implies exists|k: int|
                0 <= k < r.nodes@[i].next_lvs@.len() && (#[trigger] r.edge(i, k)).0@ == l by {
            let j = choose|j: int| 0 <= j < 1 && #[trigger] r.paths@[j] == r.paths@[i].push(l);
            assert(r.paths@[j].len() == 0);
        }
        assert forall|p: LabelPath| r@.contains(p) <==> set![Seq::<Seq<char>>::empty()].contains(p) by {
            if p == Seq::<Seq<char>>::empty() {
                assert(r.paths@[0] == p);
            }
        }
        assert(r@ =~= set![Seq::<Seq<char>>::empty()]);
        assert(r.ends() =~= Set::<LabelPath>::empty());
        r
    }

    /// The node at `i` has no children exactly when its path is a leaf.
    proof fn lemma_leaf(&self, i: int)
        requires
            self.wf(),
            0 <= i < self.nodes@.len(),
        ensures
            (self.nodes@[i].next_lvs@.len() == 0) == is_leaf(self@, self.paths@[i]),
    {
        if self.nodes@[i].next_lvs@.len() == 0 {
            assert forall|l: Seq<char>| !self@.contains(#[trigger] self.paths@[i].push(l)) by {
                if self@.contains(self.paths@[i].push(l)) {
                    assert(self.has_node(self.paths@[i].push(l)));
                }
            }
        } else {
            let e = self.edge(i, 0);
            assert(self.paths@[e.1 as int] == self.paths@[i].push(e.0@));
            assert(self@.contains(self.paths@[i].push(e.0@)));
        }
    }

    /// Whether `domain` is covered by an inserted rule: the walk down its labels, top
    /// level first, reaches a node with no children or consumes every label.
    pub fn matches(&self, domain: &str) -> (r: bool)
        requires
            self.wf(),
        ensures
            r == covers(self@, self.ends(), domain_key(domain@)),
    {
        let chars = chars_of(domain);
        let labels = split_nonempty(&chars, '.');
        let ghost key = domain_key(domain@);
        match self.walk(&labels, Ghost(key)) {
            None => {
                assert forall|k: int| !(#[trigger] matches_at(self@, self.ends(), key, k)) by {
                    if stops_at(self@, key, k) {
                        assert(covers_walk(self@, key));
                    }
                }
                false
            },
            Some(i) => {
                let r = self.nodes[i].next_lvs.len() == 0 || self.nodes[i].terminal;
                proof {
                    let k0 = self.paths@[i as int].len() as int;
                    self.lemma_leaf(i as int);
                    assert(self.ends().contains(key.take(k0)) == self.nodes@[i as int].terminal) by {
                        if self.ends().contains(key.take(k0)) {
                            let j = choose|j: int| 0 <= j < self.paths@.len() && self.paths@[j] == key.take(k0) && self.nodes@[j].terminal;
                            assert(j == i);
                        }
                    }
                    if r {
                        assert(matches_at(self@, self.ends(), key, k0));
                    } else {
                        assert forall|k: int| !(#[trigger] matches_at(self@, self.ends(), key, k)) by {
                            if stops_at(self@, key, k) {
                                self.lemma_stop_unique(key, k, k0);
                            }
                        }
                    }
                }
                r
            },
        }
    }

    pub(crate) fn node_count(&self) -> (r: usize)
        requires
            self.wf(),
        ensures
            r == self.node_paths().len(),
    {
        self.nodes.len()
    }

    pub(crate) proof fn lemma_size_one(&self)
        requires
            self.wf(),
            self@ == set![Seq::<Seq<char>>::empty()],
        ensures
            self.node_paths().len() == 1,
    {
        if self.paths@.len() > 1 {
            assert(self@.contains(self.paths@[1]));
            assert(self.paths@[1] == self.paths@[0]);
        }
    }

    pub(crate) proof fn lemma_paths_injective(&self, i: int, j: int)
        requires
            self.wf(),
            0 <= i < self.node_paths().len(),
            0 <= j < self.node_paths().len(),
        ensures
            (self.node_paths()[i] == self.node_paths()[j]) == (i == j),
    {
    }

    /// The paths of the nodes, by index.
    pub(crate) closed spec fn node_paths(&self) -> Seq<LabelPath> {
        self.paths@
    }

    pub(crate) proof fn lemma_node_path(&self, i: int)
        requires
            self.wf(),
            0 <= i < self.node_paths().len(),
        ensures
            self@.contains(self.node_paths()[i]),
    {
    }

    /// The walk down a key can stop at one node at most.
    pub(crate) proof fn lemma_stop_unique(&self, key: LabelPath, k1: int, k2: int)
        requires
            self.wf(),
            stops_at(self@, key, k1),
            stops_at(self@, key, k2),
        ensures
            k1 == k2,
    {
        if k1 != k2 {
            let (a, b) = if k1 < k2 { (k1, k2) } else { (k2, k1) };
            let i = choose|i: int| 0 <= i < self.paths@.len() && self.paths@[i] == key.take(b);
            assert(self.paths@[i].take(a + 1) == key.take(a + 1));
            assert(key.take(a + 1) == key.take(a).push(key[a]));
            assert(self.has_node(self.paths@[i].take(a + 1)));
        }
    }

    /// Walks down `key`, whose labels `labels` holds in text order (top level last), and
    /// returns the index of the node where the walk stops with a match.
    pub(crate) fn walk(&self, labels: &Vec<Vec<char>>, key: Ghost<LabelPath>) -> (r: Option<usize>)
        requires
            self.wf(),
            key@ == views_of(labels@).reverse(),
        ensures
            r is Some <==> covers_walk(self@, key@),
            match r {
                Some(i) => i < self.node_paths().len() && self.node_paths()[i as int].len() <= key@.len()
                    && self.node_paths()[i as int] == key@.take(self.node_paths()[i as int].len() as int)
                    && stops_at(self@, key@, self.node_paths()[i as int].len() as int),
                None => true,
            },
    {
        let ghost kk = key@;
        assert(kk.len() == labels@.len());
        let n = labels.len();
        let mut t: usize = 0;
        let mut ptr: usize = 0;
        assert(kk.take(0) =~= Seq::<Seq<char>>::empty());
        while t < n
            invariant
                self.wf(),
                n == labels@.len() == kk.len(),
                kk == views_of(labels@).reverse(),
                kk == key@,
                t <= n,
                ptr < self.nodes@.len(),
                self.paths@[ptr as int] == kk.take(t as int),
                forall|t2: int| 0 <= t2 < t ==> !is_leaf(self@, #[trigger] kk.take(t2)),
            decreases n - t,
        {
            proof {
                self.lemma_leaf(ptr as int);
            }
            if self.nodes[ptr].next_lvs.len() == 0 {
                assert(self@.contains(kk.take(t as int)));
                assert(stops_at(self@, kk, t as int));
                assert(covers_walk(self@, kk));
                return Some(ptr);
            }
            let lv = &labels[n - 1 - t];
            assert(lv@ == kk[t as int]);
            assert(kk.take(t as int + 1) == kk.take(t as int).push(lv@));
            match self.child(ptr, lv) {
                Some(j) => {
                    ptr = j;
                    t = t + 1;
                },
                None => {
                    assert forall|k: int| !(#[trigger] stops_at(self@, kk, k)) by {
                        if 0 <= k <= kk.len() && self@.contains(kk.take(k)) {
                            if k > t {
                                let i = choose|i: int| 0 <= i < self.paths@.len() && self.paths@[i] == kk.take(k);
                                assert(self.paths@[i].take(t as int + 1) == kk.take(t as int + 1));
                            }
                        }
                    }
                    return None;
                },
            }
        }
        assert(kk.take(n as int) == kk);
        assert(self@.contains(kk.take(n as int)));
        assert(stops_at(self@, kk, n as int));
        Some(ptr)
    }

    /// Inserts the rule `domain`. A rule holding any character other than ASCII letters,
    /// digits, `-` and `.` is ignored.
    pub fn insert(&mut self, domain: &str)
        requires
            old(self).wf(),
        ensures
            final(self).wf(),
            final(self)@ == insert_rule(old(self)@, domain@),
            final(self).ends() == insert_end(old(self).ends(), domain@),
    {
        let chars = chars_of(domain);
        self.insert_chars(&chars);
    }

    /// Inserts each non-empty line of `text` as a rule.
    pub fn insert_multi(&mut self, text: &str)
        requires
            old(self).wf(),
        ensures
            final(self).wf(),
            final(self)@ == insert_rules(old(self)@, segments(text@, '\n')),
            final(self).ends() == insert_ends(old(self).ends(), segments(text@, '\n')),
    {
        let chars = chars_of(text);
        let lines = split_nonempty(&chars, '\n');
        let ghost rules = segments(text@, '\n');
        let ghost start = self@;
        let ghost start_ends = self.ends();
        let mut i: usize = 0;
        while i < lines.len()
            invariant
                self.wf(),
                views_of(lines@) == rules,
                i <= lines@.len(),
                self@ == insert_rules(start, rules.take(i as int)),
                self.ends() == insert_ends(start_ends, rules.take(i as int)),
            decreases lines@.len() - i,
        {
            assert(rules.take(i as int + 1).drop_last() == rules.take(i as int));
            assert(lines@[i as int]@ == rules[i as int]);
            self.insert_chars(&lines[i]);
            i = i + 1;
        }
        assert(rules.take(i as int) == rules);
    }

    fn insert_chars(&mut self, chars: &Vec<char>)
        requires
            old(self).wf(),
        ensures
            final(self).wf(),
            final(self)@ == insert_rule(old(self)@, chars@),
            final(self).ends() == insert_end(old(self).ends(), chars@),
    {
        let mut i: usize = 0;
        while i < chars.len()
            invariant
                self.wf(),
                                i <= chars@.len(),
                forall|j: int| 0 <= j < i ==> valid_domain_char(#[trigger] chars@[j]),
            decreases chars@.len() - i,
        {
            let c = chars[i];
            let ok = ('a' <= c && c <= 'z') || ('A' <= c && c <= 'Z') || ('0' <= c && c <= '9')
                || c == '-' || c == '.';
            if !ok {
                assert(!valid_domain(chars@));
                return;
            }
            i = i + 1;
        }
        let labels = split_nonempty(&chars, '.');
        let nl = labels.len();
        let idx = self.insert_key(labels, Ghost(domain_key(chars@)));
        assert(valid_domain(chars@));
        if nl > 0 {
            self.mark_end(idx);
        }
    }

    /// Marks node `i`, which is not the root, as the end of an inserted rule.
    fn mark_end(&mut self, i: usize)
        requires
            old(self).wf(),
            0 < i < old(self).node_paths().len(),
        ensures
            final(self).wf(),
            final(self)@ == old(self)@,
            final(self).node_paths() == old(self).node_paths(),
            final(self).ends() == old(self).ends().insert(old(self).node_paths()[i as int]),
    {
        let ghost old_self = *self;
        self.nodes[i].terminal = true;
        assert forall|a: int, k: int| 0 <= a < self.nodes@.len() && 0 <= k < self.nodes@[a].next_lvs@.len()
            implies #[trigger] self.edge(a, k) == old_self.edge(a, k) by {
        }
        assert forall|a: int, l: Seq<char>|
            0 <= a < self.nodes@.len() && #[trigger] self.has_node(self.paths@[a].push(l)) implies exists|k: int|
                0 <= k < self.nodes@[a].next_lvs@.len() && (#[trigger] self.edge(a, k)).0@ == l by {
            assert(old_self.has_node(old_self.paths@[a].push(l)));
            let k = choose|k: int| 0 <= k < old_self.nodes@[a].next_lvs@.len() && (#[trigger] old_self.edge(a, k)).0@ == l;
            assert(self.edge(a, k) == old_self.edge(a, k));
        }
        assert forall|j: int, m: int|
            0 <= j < self.nodes@.len() && 0 <= m <= self.paths@[j].len() implies self.has_node(
                #[trigger] self.paths@[j].take(m),
            ) by {
            assert(old_self.has_node(old_self.paths@[j].take(m)));
        }
        assert(self@ =~= old_self@);
        assert(self.ends() =~= old_self.ends().insert(self.paths@[i as int])) by {
            assert forall|p: LabelPath| self.ends().contains(p) implies old_self.ends().insert(self.paths@[i as int]).contains(p) by {
                let j = choose|j: int| 0 <= j < self.paths@.len() && self.paths@[j] == p && self.nodes@[j].terminal;
                if j != i {
                    assert(old_self.nodes@[j].terminal);
                }
            }
            assert forall|p: LabelPath| old_self.ends().insert(self.paths@[i as int]).contains(p) implies self.ends().contains(p) by {
                if p != self.paths@[i as int] {
                    let j = choose|j: int| 0 <= j < old_self.paths@.len() && old_self.paths@[j] == p && old_self.nodes@[j].terminal;
                    assert(self.nodes@[j].terminal);
                }
            }
        }
    }

    /// Adds the nodes along `key`, whose labels `labels` holds in text order (top level
    /// last), and returns the index of the node at `key`. Existing nodes keep their index.
    pub(crate) fn insert_key(&mut self, labels: Vec<Vec<char>>, path: Ghost<LabelPath>) -> (r: usize)
        requires
            old(self).wf(),
            path@ == views_of(labels@).reverse(),
        ensures
            final(self).wf(),
            final(self)@ == old(self)@.union(prefixes(path@)),
            r < final(self).node_paths().len(),
            final(self).node_paths()[r as int] == path@,
            old(self).node_paths().len() <= final(self).node_paths().len(),
            forall|i: int| 0 <= i < old(self).node_paths().len() ==> #[trigger] final(self).node_paths()[i] == old(self).node_paths()[i],
            final(self).ends() == old(self).ends(),
    {
        let mut labels = labels;
        let ghost key = path@;
        let ghost start_paths = self.paths@;
        let nl = labels.len();
        assert(key.len() == nl);
        let ghost start = self@;
        assert forall|j: int| 0 <= j < labels@.len() implies (#[trigger] labels@[j])@ == key[key.len() - 1 - j] by {
            assert(views_of(labels@)[key.len() - 1 - (key.len() - 1 - j)] == labels@[j]@);
        }
        let mut t: usize = 0;
        let mut ptr: usize = 0;
        assert(key.take(0) =~= Seq::<Seq<char>>::empty());
        assert(self@ =~= start.union(prefixes(key.take(0)))) by {
            assert forall|p: LabelPath| prefixes(key.take(0)).contains(p) implies start.contains(p) by {
                let m = choose|m: int| 0 <= m <= 0 && p == key.take(0).take(m);
                assert(p =~= Seq::<Seq<char>>::empty());
                assert(self.paths@[0] == p);
            }
        }
        while labels.len() > 0
            invariant
                self.wf(),
                key == path@,
                t + labels@.len() == key.len(),
                key.len() <= usize::MAX,
                forall|j: int| 0 <= j < labels@.len() ==> (#[trigger] labels@[j])@ == key[key.len() - 1 - j],
                ptr < self.nodes@.len(),
                self.paths@[ptr as int] == key.take(t as int),
                self@ == start.union(prefixes(key.take(t as int))),
                start_paths.len() <= self.paths@.len(),
                forall|i: int| 0 <= i < start_paths.len() ==> #[trigger] self.paths@[i] == start_paths[i],
                self.ends() == old(self).ends(),
            decreases labels@.len(),
        {
            let lv = labels.pop().unwrap();
            assert(lv@ == key[t as int]);
            let ghost next = key.take(t as int + 1);
            assert(next == key.take(t as int).push(lv@));
            assert(prefixes(next) =~= prefixes(key.take(t as int)).insert(next)) by {
                assert forall|p: LabelPath| prefixes(next).contains(p) implies prefixes(key.take(t as int)).insert(next).contains(p) by {
                    let m = choose|m: int| 0 <= m <= next.len() && p == next.take(m);
                    if m <= t {
                        assert(next.take(m) =~= key.take(t as int).take(m));
                        assert(prefixes(key.take(t as int)).contains(p));
                    } else {
                        assert(next.take(m) =~= next);
                    }
                }
                assert forall|p: LabelPath| prefixes(key.take(t as int)).insert(next).contains(p) implies prefixes(next).contains(p) by {
                    if p == next {
                        assert(next.take(next.len() as int) == next);
                    } else {
                        let m = choose|m: int| 0 <= m <= t && p == key.take(t as int).take(m);
                        assert(next.take(m) == p);
                    }
                }
            }
            match self.child(ptr, &lv) {
                Some(j) => {
                    assert(self@.contains(next));
                    assert(self@ =~= start.union(prefixes(next)));
                    ptr = j;
                },
                None => {
                    ptr = self.add_child(ptr, lv);
                    assert(self@ =~= start.union(prefixes(next)));
                },
            }
            t = t + 1;
        }
        assert(key.take(t as int) == key);
        ptr
    }

    /// Adds a new child under label `l` to node `i`, which has none under that label.
    fn add_child(&mut self, i: usize, l: Vec<char>) -> (r: usize)
        requires
            old(self).wf(),
            i < old(self).nodes@.len(),
            !old(self).has_node(old(self).paths@[i as int].push(l@)),
        ensures
            final(self).wf(),
            r < final(self).nodes@.len(),
            final(self).paths@[r as int] == old(self).paths@[i as int].push(l@),
            final(self)@ == old(self)@.insert(old(self).paths@[i as int].push(l@)),
            final(self).paths@ == old(self).paths@.push(old(self).paths@[i as int].push(l@)),
            final(self).ends() == old(self).ends(),
    {
        let ghost p = self.paths@[i as int].push(l@);
        let ghost old_self = *self;
        let j = self.nodes.len();
        self.nodes.push(LevelNode { next_lvs: Vec::new(), terminal: false });
        self.paths = Ghost(self.paths@.push(p));
        let ghost lv = l@;
        self.nodes[i].next_lvs.push((l, j));
        let ghost n = j as int;
        assert forall|a: int, k: int|
            0 <= a < n + 1 && 0 <= k < self.nodes@[a].next_lvs@.len() implies {
                let e = #[trigger] self.edge(a, k);
                &&& e.1 < n + 1
                &&& self.paths@[e.1 as int] == self.paths@[a].push(e.0@)
            } by {
            if a < n && !(a == i && k == old_self.nodes@[a].next_lvs@.len()) {
                assert(self.edge(a, k) == old_self.edge(a, k));
            }
        }
        assert forall|a: int, b: int|
            0 <= a < n + 1 && 0 <= b < n + 1 && a != b implies self.paths@[a] != self.paths@[b] by {
            if a == n {
                assert(old_self.paths@[b] != p);
            } else if b == n {
                assert(old_self.paths@[a] != p);
            }
        }
        assert forall|a: int, l2: Seq<char>|
            0 <= a < n + 1 && #[trigger] self.has_node(self.paths@[a].push(l2)) implies exists|k: int|
                0 <= k < self.nodes@[a].next_lvs@.len() && (#[trigger] self.edge(a, k)).0@ == l2 by {
            let x = choose|x: int| 0 <= x < n + 1 && #[trigger] self.paths@[x] == self.paths@[a].push(l2);
            if x == n {
                assert(self.paths@[a] == self.paths@[a].push(l2).drop_last());
                assert(p.drop_last() == old_self.paths@[i as int]);
                assert(self.paths@[a] == self.paths@[i as int]);
                assert(a == i);
                let k0 = old_self.nodes@[i as int].next_lvs@.len() as int;
                assert(self.edge(a, k0).0@ == lv);
                assert(self.paths@[a].push(l2).last() == l2);
                assert(p.last() == lv);
            } else if a == n {
                let q = old_self.paths@[x];
                assert(q.take(p.len() as int) =~= p);
                assert(old_self.has_node(q.take(p.len() as int)));
            } else {
                assert(old_self.has_node(old_self.paths@[a].push(l2)));
                let k = choose|k: int|
                    0 <= k < old_self.nodes@[a].next_lvs@.len() && (#[trigger] old_self.edge(a, k)).0@ == l2;
                assert(self.edge(a, k) == old_self.edge(a, k));
            }
        }
        assert forall|b: int, m: int|
            0 <= b < n + 1 && 0 <= m <= self.paths@[b].len() implies self.has_node(
                #[trigger] self.paths@[b].take(m),
            ) by {
            if b == n {
                if m == p.len() {
                    assert(p.take(m) =~= p);
                    assert(self.paths@[n] == p.take(m));
                } else {
                    assert(p.take(m) =~= old_self.paths@[i as int].take(m));
                    assert(old_self.has_node(old_self.paths@[i as int].take(m)));
                    let x = choose|x: int| 0 <= x < n && #[trigger] old_self.paths@[x] == old_self.paths@[i as int].take(m);
                    assert(self.paths@[x] == p.take(m));
                }
            } else {
                assert(old_self.has_node(old_self.paths@[b].take(m)));
                let x = choose|x: int| 0 <= x < n && #[trigger] old_self.paths@[x] == old_self.paths@[b].take(m);
                assert(self.paths@[x] == self.paths@[b].take(m));
            }
        }
        assert(self.ends() =~= old_self.ends()) by {
            assert forall|q: LabelPath| self.ends().contains(q) implies old_self.ends().contains(q) by {
                let x = choose|x: int| 0 <= x < self.paths@.len() && self.paths@[x] == q && self.nodes@[x].terminal;
                assert(x < n);
                assert(old_self.nodes@[x].terminal);
            }
            assert forall|q: LabelPath| old_self.ends().contains(q) implies self.ends().contains(q) by {
                let x = choose|x: int| 0 <= x < old_self.paths@.len() && old_self.paths@[x] == q && old_self.nodes@[x].terminal;
                assert(self.nodes@[x].terminal);
                assert(self.paths@[x] == q);
            }
        }
        assert(self@ =~= old_self@.insert(p)) by {
            assert forall|q: LabelPath| self@.contains(q) <==> old_self@.insert(p).contains(q) by {
                if old_self@.contains(q) {
                    let x = choose|x: int| 0 <= x < n && old_self.paths@[x] == q;
                    assert(self.paths@[x] == q);
                }
                if q == p {
                    assert(self.paths@[n] == q);
                }
            }
        }
        j
    }

    /// Index of the node at `key`, whose labels `labels` holds in text order (top level
    /// last).
    pub(crate) fn locate(&self, labels: &Vec<Vec<char>>, path: Ghost<LabelPath>) -> (r: Option<usize>)
        requires
            self.wf(),
            path@ == views_of(labels@).reverse(),
        ensures
            match r {
                Some(i) => i < self.node_paths().len() && self.node_paths()[i as int] == path@,
                None => !self@.contains(path@),
            },
    {
        let ghost key = path@;
        let n = labels.len();
        let mut t: usize = 0;
        let mut ptr: usize = 0;
        assert(key.take(0) =~= Seq::<Seq<char>>::empty());
        while t < n
            invariant
                self.wf(),
                n == labels@.len() == key.len(),
                key == path@,
                key == views_of(labels@).reverse(),
                t <= n,
                ptr < self.nodes@.len(),
                self.paths@[ptr as int] == key.take(t as int),
            decreases n - t,
        {
            let lv = &labels[n - 1 - t];
            assert(lv@ == key[t as int]);
            assert(key.take(t as int + 1) == key.take(t as int).push(lv@));
            match self.child(ptr, lv) {
                Some(j) => {
                    ptr = j;
                    t = t + 1;
                },
                None => {
                    assert(!self@.contains(key)) by {
                        if self@.contains(key) {
                            let i = choose|i: int| 0 <= i < self.paths@.len() && self.paths@[i] == key;
                            assert(key.take(t as int + 1) == self.paths@[i].take(t as int + 1));
                        }
                    }
                    return None;
                },
            }
        }
        assert(key.take(n as int) == key);
        Some(ptr)
    }

    /// The labels under the node reached by the labels of `domain`, top level first, or
    /// `None` when the trie has no such node.
    pub fn children(&self, domain: &str) -> (r: Option<Vec<String>>)
        requires
            self.wf(),
        ensures
            r is Some <==> self@.contains(domain_key(domain@)),
            match r {
                Some(v) => forall|l: Seq<char>| #[trigger] lists(v@, l)
                    <==> self@.contains(domain_key(domain@).push(l)),
                None => true,
            },
    {
        let chars = chars_of(domain);
        let labels = split_nonempty(&chars, '.');
        let ghost key = domain_key(domain@);
        let ptr = match self.locate(&labels, Ghost(key)) {
            Some(i) => i,
            None => {
                return None;
            },
        };
        assert(self.has_node(key));
        assert(self@.contains(key));
        let node = &self.nodes[ptr];
        let mut out: Vec<String> = Vec::new();
        let mut k: usize = 0;
        while k < node.next_lvs.len()
            invariant
                self.wf(),
                ptr < self.nodes@.len(),
                node == self.nodes@[ptr as int],
                self.paths@[ptr as int] == key,
                k <= node.next_lvs@.len(),
                out@.len() == k,
                forall|x: int| 0 <= x < k ==> (#[trigger] out@[x])@ == self.edge(ptr as int, x).0@,
            decreases node.next_lvs@.len() - k,
        {
            out.push(string_of(&node.next_lvs[k].0));
            assert(self.edge(ptr as int, k as int) == node.next_lvs@[k as int]);
            k = k + 1;
        }
        assert forall|l: Seq<char>| #[trigger] lists(out@, l)
            <==> self@.contains(domain_key(domain@).push(l)) by {
            if lists(out@, l) {
                let x = choose|x: int| 0 <= x < out@.len() && #[trigger] out@[x]@ == l;
                let e = self.edge(ptr as int, x);
                assert(self.paths@[e.1 as int] == key.push(l));
            }
            if self@.contains(key.push(l)) {
                assert(self.has_node(self.paths@[ptr as int].push(l)));
                let x = choose|x: int| 0 <= x < self.nodes@[ptr as int].next_lvs@.len() && (#[trigger] self.edge(ptr as int, x)).0@ == l;
                assert(out@[x]@ == l);
            }
        }
        Some(out)
    }

    /// Index of the child of node `i` under label `l`.
    fn child(&self, i: usize, l: &Vec<char>) -> (r: Option<usize>)
        requires
            self.wf(),
            i < self.nodes@.len(),
        ensures
            match r {
                Some(j) => j < self.nodes@.len() && self.paths@[j as int] == self.paths@[i as int].push(l@),
                None => !self.has_node(self.paths@[i as int].push(l@)),
            },
    {
        let node = &self.nodes[i];
        let mut k: usize = 0;
        while k < node.next_lvs.len()
            invariant
                self.wf(),
                i < self.nodes@.len(),
                node == self.nodes@[i as int],
                k <= node.next_lvs@.len(),
                forall|k2: int| 0 <= k2 < k ==> (#[trigger] self.edge(i as int, k2)).0@ != l@,
            decreases node.next_lvs@.len() - k,
        {
            if labels_equal(&node.next_lvs[k].0, l) {
                assert(self.edge(i as int, k as int) == node.next_lvs@[k as int]);
                return Some(node.next_lvs[k].1);
            }
            assert(self.edge(i as int, k as int) == node.next_lvs@[k as int]);
            k = k + 1;
        }
        None
    }
}

/// An inserted rule `d` covers every name below it: a name whose labels, top level
/// first, start with those of `d`. The name may carry a trailing dot. Where the name goes
/// deeper than `d`, this needs `d` to be a leaf, i.e. no rule was inserted strictly
/// below `d`.
pub proof fn lemma_suffix_match(t: &Domain, d: Seq<char>, q: Seq<char>)
    requires
        t.wf(),
        t.ends().contains(domain_key(d)),
        domain_key(q).len() >= domain_key(d).len(),
        domain_key(q).take(domain_key(d).len() as int) == domain_key(d),
        domain_key(q).len() == domain_key(d).len() || is_leaf(t@, domain_key(d)),
    ensures
        covers(t@, t.ends(), domain_key(q)),
        covers(t@, t.ends(), domain_key(q.push('.'))),
{
    let kd = domain_key(d);
    let kq = domain_key(q);
    lemma_trailing_separator(q, '.');
    let i = choose|i: int| 0 <= i < t.paths@.len() && t.paths@[i] == kd && t.nodes@[i].terminal;
    assert(t@.contains(kd));
    assert(kq.take(kq.len() as int) == kq);
    assert(t@.contains(kq.take(kd.len() as int)));
    assert(matches_at(t@, t.ends(), kq, kd.len() as int));
}

/// With the single rule `d` inserted, a name matches only if its labels, top level
/// first, start with those of `d`.
pub proof fn lemma_no_false_match(t: &Domain, d: Seq<char>, x: Seq<char>)
    requires
        t@ == insert_rule(set![Seq::<Seq<char>>::empty()], d),
        t.ends() == insert_end(Set::<LabelPath>::empty(), d),
        valid_domain(d),
        !(domain_key(x).len() >= domain_key(d).len() && domain_key(x).take(
            domain_key(d).len() as int,
        ) == domain_key(d)),
    ensures
        !covers(t@, t.ends(), domain_key(x)),
{
    let kd = domain_key(d);
    let kx = domain_key(x);
    assert(kd.take(0) =~= Seq::<Seq<char>>::empty());
    assert(kx.take(0) =~= Seq::<Seq<char>>::empty());
    assert(kd.len() > 0);
    assert(t@ =~= prefixes(kd));
    if covers(t@, t.ends(), kx) {
        let k = choose|k: int| #[trigger] matches_at(t@, t.ends(), kx, k);
        assert(prefixes(kd).contains(kx.take(k)));
        let m = choose|m: int| 0 <= m <= kd.len() && kx.take(k) == kd.take(m);
        assert(kx.take(k).len() == k);
        assert(kd.take(m).len() == m);
        if t.ends().contains(kx.take(k)) {
            assert(kx.take(k) == kd);
        } else if k < kd.len() {
            assert(kd.take(k + 1) =~= kd.take(k).push(kd[k]));
            assert(t@.contains(kd.take(k + 1)));
        } else {
            assert(kd.take(k) =~= kd);
        }
    }
}

/// A name with no label matches exactly when the trie has no rule, i.e. the root has no
/// children.
pub proof fn lemma_empty_name(t: &Domain)
    requires
        t.wf(),
    ensures
        covers(t@, t.ends(), Seq::<Seq<char>>::empty()) == is_leaf(t@, Seq::<Seq<char>>::empty()),
{
    let e = Seq::<Seq<char>>::empty();
    assert(e.take(0) =~= e);
    assert(t.paths@[0] == e);
    assert(t@.contains(e));
    assert(!t.ends().contains(e)) by {
        if t.ends().contains(e) {
            let j = choose|j: int| 0 <= j < t.paths@.len() && t.paths@[j] == e && t.nodes@[j].terminal;
            assert(j == 0);
        }
    }
    if is_leaf(t@, e) {
        assert(matches_at(t@, t.ends(), e, 0));
    }
}

/// Inserting a rule that holds a character other than an ASCII letter, a digit, `-` or
/// `.` leaves the trie unchanged.
pub proof fn lemma_invalid_rule_ignored(nodes: Set<LabelPath>, s: Seq<char>, i: int)
    requires
        0 <= i < s.len(),
        !valid_domain_char(s[i]),
    ensures
        insert_rule(nodes, s) == nodes,
{
}

fn labels_equal(a: &Vec<char>, b: &Vec<char>) -> (r: bool)
    ensures
        r == (a@ == b@),
{
    if a.len() != b.len() {
        return false;
    }
    let mut i: usize = 0;
    while i < a.len()
        invariant
            a@.len() == b@.len(),
            i <= a@.len(),
            forall|j: int| 0 <= j < i ==> a@[j] == b@[j],
        decreases a@.len() - i,
    {
        if a[i] != b[i] {
            return false;
        }
        i = i + 1;
    }
    assert(a@ =~= b@);
    true
}

} // verus!
