//! A domain matcher that maps each rule to a destination label.
use crate::domain::{Domain, LabelPath, domain_key, prefixes, stops_at, covers_walk};
use crate::text::{lists, chars_of, pieces, split_all, split_nonempty, views_of};
use trust_dns_proto::error::ProtoError;
use vstd::prelude::*;

verus! {

#[verifier::external_type_specification]
#[verifier::external_body]
pub struct ExProtoError(ProtoError);

/// The destination of `p`: the one of the node at `p`, if the node has one.
pub open spec fn opt_view(o: Option<String>) -> Option<Seq<char>> {
    match o {
        Some(s) => Some(s@),
        None => None,
    }
}

/// The nodes and destinations after rule `s` is inserted with destination `d`.
pub open spec fn insert_dst(
    nodes: Set<LabelPath>,
    dsts: Map<LabelPath, Seq<char>>,
    s: Seq<char>,
    d: Seq<char>,
) -> (Set<LabelPath>, Map<LabelPath, Seq<char>>) {
    (nodes.union(prefixes(domain_key(s))), dsts.insert(domain_key(s), d))
}

/// The nodes and destinations after each of `lines` is inserted with destination `d`.
pub open spec fn insert_dsts(
    nodes: Set<LabelPath>,
    dsts: Map<LabelPath, Seq<char>>,
    lines: Seq<Seq<char>>,
    d: Seq<char>,
) -> (Set<LabelPath>, Map<LabelPath, Seq<char>>)
    decreases lines.len(),
{
    if lines.len() == 0 {
        (nodes, dsts)
    } else {
        let prev = insert_dsts(nodes, dsts, lines.drop_last(), d);
        insert_dst(prev.0, prev.1, lines.last(), d)
    }
}

/// Domain matcher whose rules carry a destination. A name gets the destination of the
/// node where the walk down its labels stops with a match.
pub struct Dmatcher {
    trie: Domain,
    dst: Vec<Option<String>>,
}

impl Default for Dmatcher {
    fn default() -> (r: Self)
        ensures
            r.wf(),
            r.nodes() == set![Seq::<Seq<char>>::empty()],
            r.dsts() == Map::<LabelPath, Seq<char>>::empty(),
    {
        Self::new()
    }
}

impl Dmatcher {
    pub closed spec fn wf(&self) -> bool {
        self.trie.wf() && self.dst@.len() == self.trie.node_paths().len()
    }

    /// The nodes of the trie.
    pub closed spec fn nodes(&self) -> Set<LabelPath> {
        self.trie@
    }

    spec fn has_dst_at(&self, p: LabelPath, i: int) -> bool {
        0 <= i < self.dst@.len() && self.trie.node_paths()[i] == p && self.dst@[i] is Some
    }

    spec fn dst_index(&self, p: LabelPath) -> int {
        choose|i: int| self.has_dst_at(p, i)
    }

    /// The destination set at each node that has one.
    pub closed spec fn dsts(&self) -> Map<LabelPath, Seq<char>> {
        Map::new(
            |p: LabelPath| exists|i: int| self.has_dst_at(p, i),
            |p: LabelPath| self.dst@[self.dst_index(p)]->Some_0@,
        )
    }

    /// An empty matcher.
    pub fn new() -> (r: Self)
        ensures
            r.wf(),
            r.nodes() == set![Seq::<Seq<char>>::empty()],
            r.dsts() == Map::<LabelPath, Seq<char>>::empty(),
    {
        let trie = Domain::new();
        let mut dst: Vec<Option<String>> = Vec::new();
        dst.push(None);
        proof {
            trie.lemma_size_one();
        }
        let r = Dmatcher { trie, dst };
        assert(r.dsts() =~= Map::<LabelPath, Seq<char>>::empty());
        r
    }

    /// Inserts each line of `domain`, empty ones included, with destination `dst`.
    pub fn insert_lines(&mut self, domain: String, dst: &str) -> (r: Result<(), ProtoError>)
        requires
            old(self).wf(),
        ensures
            r is Ok,
            final(self).wf(),
            (final(self).nodes(), final(self).dsts()) == insert_dsts(
                old(self).nodes(),
                old(self).dsts(),
                pieces(domain@, '\n'),
                dst@,
            ),
    {
        let chars = chars_of(domain.as_str());
        let lines = split_all(&chars, '\n');
        let ghost all = pieces(domain@, '\n');
        let ghost start = (self.nodes(), self.dsts());
        let mut i: usize = 0;
        while i < lines.len()
            invariant
                self.wf(),
                views_of(lines@) == all,
                i <= lines@.len(),
                (self.nodes(), self.dsts()) == insert_dsts(start.0, start.1, all.take(i as int), dst@),
            decreases lines@.len() - i,
        {
            assert(all.take(i as int + 1).drop_last() == all.take(i as int));
            assert(lines@[i as int]@ == all[i as int]);
            self.insert_chars(&lines[i], dst);
            i = i + 1;
        }
        assert(all.take(i as int) == all);
        Ok(())
    }

    /// Inserts the rule `domain` with destination `dst`.
    pub fn insert(&mut self, domain: &str, dst: &str) -> (r: Result<(), ProtoError>)
        requires
            old(self).wf(),
        ensures
            r is Ok,
            final(self).wf(),
            (final(self).nodes(), final(self).dsts()) == insert_dst(old(self).nodes(), old(self).dsts(), domain@, dst@),
    {
        let chars = chars_of(domain);
        self.insert_chars(&chars, dst);
        Ok(())
    }

    fn insert_chars(&mut self, chars: &Vec<char>, dst: &str)
        requires
            old(self).wf(),
        ensures
            final(self).wf(),
            (final(self).nodes(), final(self).dsts()) == insert_dst(old(self).nodes(), old(self).dsts(), chars@, dst@),
    {
        let labels = split_nonempty(chars, '.');
        let ghost key = domain_key(chars@);
        let ghost old_paths = self.trie.node_paths();
        let ghost old_dst = self.dst@;
        let ghost old_dsts = self.dsts();
        let idx = self.trie.insert_key(labels, Ghost(key));
        let ghost mid = self.dst@;
        while self.dst.len() < self.trie.node_count()
            invariant
                self.trie.wf(),
                self.trie@ == old(self).nodes().union(prefixes(key)),
                idx < self.trie.node_paths().len(),
                self.trie.node_paths()[idx as int] == key,
                old_paths.len() <= self.trie.node_paths().len(),
                forall|i: int| 0 <= i < old_paths.len() ==> #[trigger] self.trie.node_paths()[i] == old_paths[i],
                old_dst.len() == old_paths.len(),
                old_dsts == old(self).dsts(),
                self.dst@.len() <= self.trie.node_paths().len(),
                old_dst.len() <= self.dst@.len(),
                forall|i: int| 0 <= i < old_dst.len() ==> self.dst@[i] == old_dst[i],
                forall|i: int| old_dst.len() <= i < self.dst@.len() ==> self.dst@[i] is None,
            decreases self.trie.node_paths().len() - self.dst@.len(),
        {
            self.dst.push(None);
        }
        let d = String::from_str(dst);
        self.dst.set(idx, Some(d));
        assert(self.dsts() =~= old_dsts.insert(key, dst@)) by {
            assert forall|p: LabelPath| #[trigger] self.dsts().contains_key(p) <==> old_dsts.insert(key, dst@).contains_key(p) by {
                if p == key {
                    assert(self.trie.node_paths()[idx as int] == p);
                    assert(self.has_dst_at(p, idx as int));
                } else if old_dsts.contains_key(p) {
                    let i = choose|i: int| old(self).has_dst_at(p, i);
                    assert(self.trie.node_paths()[i] == p);
                    assert(i != idx);
                    assert(self.has_dst_at(p, i));
                } else if self.dsts().contains_key(p) {
                    let i = choose|i: int| self.has_dst_at(p, i);
                    assert(i != idx);
                    assert(i < old_dst.len());
                    assert(old_paths[i] == p);
                    assert(old(self).has_dst_at(p, i));
                }
            }
            assert forall|p: LabelPath| #[trigger] self.dsts().contains_key(p) implies self.dsts()[p] == old_dsts.insert(key, dst@)[p] by {
                let i = self.dst_index(p);
                assert(self.has_dst_at(p, i));
                self.trie.lemma_paths_injective(i, idx as int);
                if p != key {
                    let j = old(self).dst_index(p);
                    assert(old(self).has_dst_at(p, j));
                    assert(self.trie.node_paths()[j] == p);
                    self.trie.lemma_paths_injective(i, j);
                }
            }
        }
    }

    /// The labels under the node at the labels of `domain` (see `Domain::children`).
    pub fn children(&self, domain: &str) -> (r: Option<Vec<String>>)
        requires
            self.wf(),
        ensures
            r is Some <==> self.nodes().contains(domain_key(domain@)),
            match r {
                Some(v) => forall|l: Seq<char>| #[trigger] lists(v@, l)
                    <==> self.nodes().contains(domain_key(domain@).push(l)),
                None => true,
            },
    {
        self.trie.children(domain)
    }

    /// The destination set at the node at the labels of `domain` itself, if any.
    pub fn destination(&self, domain: &str) -> (r: Option<String>)
        requires
            self.wf(),
        ensures
            opt_view(r) == (if self.dsts().contains_key(domain_key(domain@)) {
                Some(self.dsts()[domain_key(domain@)])
            } else {
                None
            }),
    {
        let chars = chars_of(domain);
        let labels = split_nonempty(&chars, '.');
        let ghost key = domain_key(domain@);
        match self.trie.locate(&labels, Ghost(key)) {
            None => {
                proof {
                    if self.dsts().contains_key(key) {
                        let j = self.dst_index(key);
                        assert(self.has_dst_at(key, j));
                        self.trie.lemma_node_path(j);
                    }
                }
                None
            },
            Some(i) => {
                let x = match &self.dst[i] {
                    Some(s) => Some(s.clone()),
                    None => None,
                };
                proof {
                    if self.dsts().contains_key(key) {
                        let j = self.dst_index(key);
                        assert(self.has_dst_at(key, j));
                        self.trie.lemma_paths_injective(i as int, j);
                    } else if self.dst@[i as int] is Some {
                        assert(self.has_dst_at(key, i as int));
                    }
                }
                x
            },
        }
    }

    /// The destination of the node where the walk down the labels of `domain` stops
    /// with a match; `None` when the walk falls off the trie or that node has none.
    pub fn matches(&self, domain: &str) -> (r: Result<Option<String>, ProtoError>)
        requires
            self.wf(),
        ensures
            match r {
                Ok(x) => {
                    &&& !covers_walk(self.nodes(), domain_key(domain@)) ==> x is None
                    &&& forall|k: int| #[trigger] stops_at(self.nodes(), domain_key(domain@), k) ==> opt_view(x)
                        == (if self.dsts().contains_key(domain_key(domain@).take(k)) {
                            Some(self.dsts()[domain_key(domain@).take(k)])
                        } else {
                            None
                        })
                },
                Err(_) => false,
            },
    {
        let chars = chars_of(domain);
        let labels = split_nonempty(&chars, '.');
        let ghost key = domain_key(domain@);
        match self.trie.walk(&labels, Ghost(key)) {
            None => Ok(None),
            Some(i) => {
                let x = match &self.dst[i] {
                    Some(s) => Some(s.clone()),
                    None => None,
                };
                proof {
                    let k0 = self.trie.node_paths()[i as int].len() as int;
                    assert forall|k: int| #[trigger] stops_at(self.nodes(), key, k) implies opt_view(x) == (if self.dsts().contains_key(key.take(k)) {
                        Some(self.dsts()[key.take(k)])
                    } else {
                        None
                    }) by {
                        self.trie.lemma_stop_unique(key, k, k0);
                        let p = key.take(k);
                        assert(self.trie.node_paths()[i as int] == p);
                        if self.dsts().contains_key(p) {
                            let j = self.dst_index(p);
                            assert(self.has_dst_at(p, j));
                            self.trie.lemma_paths_injective(i as int, j);
                            assert(self.dsts()[p] == self.dst@[j]->Some_0@);
                        } else if self.dst@[i as int] is Some {
                            assert(self.has_dst_at(p, i as int));
                            assert(self.dsts().contains_key(p));
                        }
                    }
                }
                Ok(x)
            },
        }
    }
}

} // verus!
