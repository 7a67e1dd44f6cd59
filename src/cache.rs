//! A bounded LRU cache of upstream responses, with a time to live per entry.
use crate::message::{Message, Question, Record, RCODE_NOERROR, questions_view, same_answers};
use clru::CLruCache;
use std::num::NonZeroUsize;
use vstd::prelude::*;

verus! {

/// Fallback time to live, in seconds, of a response without answers.
pub const MAX_TTL: u32 = 86400;

/// Cache key: the upstream tag and the questions, each as name and type.
pub type CacheKey = (String, Vec<(String, u16, u16)>);

pub type KeyView = (Seq<char>, Seq<(Seq<char>, u16, u16)>);

pub open spec fn key_view(k: CacheKey) -> KeyView {
    (k.0@, k.1@.map_values(|q: (String, u16, u16)| (q.0@, q.1, q.2)))
}

/// A cached response with the time it was stored and how long it stays fresh, both in
/// seconds.
pub struct CacheRecord {
    pub created: u64,
    pub ttl: u64,
    pub msg: Message,
}

/// The outcome of a cache hit.
pub enum RecordStatus {
    /// The entry is within its time to live.
    Alive(Message),
    /// The entry has outlived its time to live.
    Expired(Message),
}

/// The LRU map of `clru`, kept opaque: what it holds is known through `lru_contents`.
#[verifier::external_body]
pub struct Lru {
    inner: CLruCache<CacheKey, CacheRecord>,
}

/// What the LRU cache holds, by key.
pub uninterp spec fn lru_contents(c: Lru) -> Map<KeyView, CacheRecord>;

/// The number of entries the LRU cache was made to hold.
pub uninterp spec fn lru_capacity(c: Lru) -> nat;

/// The keys of the LRU cache, most recently used first.
pub uninterp spec fn lru_order(c: Lru) -> Seq<KeyView>;

/// The order lists each key of `contents` once, and there are no more than `cap`.
pub open spec fn lru_consistent(contents: Map<KeyView, CacheRecord>, order: Seq<KeyView>, cap: nat) -> bool {
    &&& cap > 0
    &&& contents.dom().finite()
    &&& order.no_duplicates()
    &&& order.to_set() == contents.dom()
    &&& order.len() <= cap
}

/// The entries after putting `v` under `k`: when `k` is absent and the cache is full,
/// the least recently used entry goes.
pub open spec fn after_put(contents: Map<KeyView, CacheRecord>, order: Seq<KeyView>, cap: nat, k: KeyView, v: CacheRecord) -> Map<KeyView, CacheRecord> {
    if contents.contains_key(k) || order.len() < cap {
        contents.insert(k, v)
    } else {
        contents.remove(order.last()).insert(k, v)
    }
}

/// The order after putting under `k`: `k` comes first.
pub open spec fn order_after_put(contents: Map<KeyView, CacheRecord>, order: Seq<KeyView>, cap: nat, k: KeyView) -> Seq<KeyView> {
    seq![k] + if contents.contains_key(k) {
        order.remove_value(k)
    } else if order.len() < cap {
        order
    } else {
        order.drop_last()
    }
}

/// The order after a lookup of `k`: a key that is present comes first.
pub open spec fn order_after_touch(contents: Map<KeyView, CacheRecord>, order: Seq<KeyView>, k: KeyView) -> Seq<KeyView> {
    if contents.contains_key(k) {
        seq![k] + order.remove_value(k)
    } else {
        order
    }
}

/// Relies on `CLruCache::new`: an empty cache that holds at most `cap` entries.
#[verifier::external_body]
fn lru_new(cap: usize) -> (r: Lru)
    requires
        cap > 0,
    ensures
        lru_contents(r).dom().finite(),
        lru_contents(r).dom().len() == 0,
        lru_order(r) == Seq::<KeyView>::empty(),
        lru_capacity(r) == cap,
{
    Lru { inner: CLruCache::new(NonZeroUsize::new(cap).unwrap()) }
}

/// Relies on `CLruCache::put`: the key maps to the value and becomes the most recently
/// used; when the key was absent and the cache full, the least recently used entry is
/// evicted first.
#[verifier::external_body]
fn lru_put(c: &mut Lru, k: CacheKey, v: CacheRecord)
    requires
        lru_consistent(lru_contents(*old(c)), lru_order(*old(c)), lru_capacity(*old(c))),
    ensures
        lru_capacity(*final(c)) == lru_capacity(*old(c)),
        lru_contents(*final(c)) == after_put(lru_contents(*old(c)), lru_order(*old(c)), lru_capacity(*old(c)), key_view(k), v),
        lru_order(*final(c)) == order_after_put(lru_contents(*old(c)), lru_order(*old(c)), lru_capacity(*old(c)), key_view(k)),
        lru_consistent(lru_contents(*final(c)), lru_order(*final(c)), lru_capacity(*final(c))),
{
    c.inner.put(k, v);
}

/// Relies on `CLruCache::get`: the value under the key, if any; a key that is present
/// becomes the most recently used.
#[verifier::external_body]
fn lru_get<'a>(c: &'a mut Lru, k: &CacheKey) -> (r: Option<&'a CacheRecord>)
    requires
        lru_consistent(lru_contents(*old(c)), lru_order(*old(c)), lru_capacity(*old(c))),
    ensures
        lru_contents(*final(c)) == lru_contents(*old(c)),
        lru_capacity(*final(c)) == lru_capacity(*old(c)),
        lru_order(*final(c)) == order_after_touch(lru_contents(*old(c)), lru_order(*old(c)), key_view(*k)),
        lru_consistent(lru_contents(*final(c)), lru_order(*final(c)), lru_capacity(*final(c))),
        match r {
            Some(v) => lru_contents(*old(c)).contains_key(key_view(*k)) && *v == lru_contents(*old(c))[key_view(*k)],
            None => !lru_contents(*old(c)).contains_key(key_view(*k)),
        },
{
    c.inner.get(k)
}

/// The smallest of the answers' times to live, or `MAX_TTL` when there is no answer.
pub open spec fn min_ttl(a: Seq<Record>) -> u32
    decreases a.len(),
{
    if a.len() == 0 {
        MAX_TTL
    } else if a.len() == 1 {
        a[0].ttl
    } else {
        let m = min_ttl(a.drop_last());
        if a.last().ttl < m {
            a.last().ttl
        } else {
            m
        }
    }
}

/// Records with the same times to live, in order, have the same smallest one.
pub proof fn lemma_min_ttl_same(a: Seq<Record>, b: Seq<Record>)
    requires
        same_answers(a, b),
    ensures
        min_ttl(a) == min_ttl(b),
    decreases a.len(),
{
    if a.len() > 1 {
        assert(same_answers(a.drop_last(), b.drop_last())) by {
            assert forall|i: int| 0 <= i < a.drop_last().len() implies {
                &&& (#[trigger] a.drop_last()[i]).name@ == b.drop_last()[i].name@
                &&& a.drop_last()[i].rtype == b.drop_last()[i].rtype
                &&& a.drop_last()[i].ttl == b.drop_last()[i].ttl
                &&& a.drop_last()[i].data@ == b.drop_last()[i].data@
            } by {
                assert(a.drop_last()[i] == a[i]);
                assert(b.drop_last()[i] == b[i]);
            }
        }
        lemma_min_ttl_same(a.drop_last(), b.drop_last());
        assert(a.last() == a[a.len() - 1]);
    } else if a.len() == 1 {
        assert(a[0].ttl == b[0].ttl);
    }
}

/// The key under which a response to `queries` from upstream `tag` is stored.
pub open spec fn cache_key(tag: Seq<char>, queries: Seq<Question>) -> KeyView {
    (tag, questions_view(queries))
}

/// A record stored at `created` is fresh at `now` while no more than its time to live has
/// passed (a clock that went back counts as no time passed).
pub open spec fn is_fresh(rec: CacheRecord, now: u64) -> bool {
    now <= rec.created + rec.ttl
}

/// The record that `put` stores for `msg` at time `now`.
pub open spec fn record_of(msg: Message, now: u64) -> CacheRecord {
    CacheRecord { created: now, ttl: min_ttl(msg.answers@) as u64, msg }
}

/// What `get` reports at time `now` for a key whose entry is `e`.
pub open spec fn lookup_matches(e: Option<CacheRecord>, now: u64, r: Option<RecordStatus>) -> bool {
    match (e, r) {
        (None, None) => true,
        (Some(rec), Some(RecordStatus::Alive(m))) => is_fresh(rec, now) && m.same_content(&rec.msg),
        (Some(rec), Some(RecordStatus::Expired(m))) => !is_fresh(rec, now) && m.same_content(&rec.msg),
        _ => false,
    }
}

impl CacheRecord {
    /// The record of `msg` stored at time `now`; it stays fresh for the smallest time to
    /// live among its answers.
    pub fn new(msg: Message, now: u64) -> (r: CacheRecord)
        ensures
            r == record_of(msg, now),
    {
        let ttl = answers_min_ttl(&msg.answers);
        CacheRecord { created: now, ttl: ttl as u64, msg }
    }

    /// A copy of the stored response.
    pub fn get(&self) -> (r: Message)
        ensures
            r.same_content(&self.msg),
    {
        self.msg.duplicate()
    }

    /// Whether the record is still fresh at time `now`.
    pub fn validate(&self, now: u64) -> (r: bool)
        ensures
            r == is_fresh(*self, now),
    {
        now as u128 <= self.created as u128 + self.ttl as u128
    }
}

/// A bounded LRU cache of upstream responses keyed by upstream tag and questions.
pub struct RespCache {
    cache: Lru,
}

impl RespCache {
    /// The entries, by key.
    pub closed spec fn view(&self) -> Map<KeyView, CacheRecord> {
        lru_contents(self.cache)
    }

    pub closed spec fn capacity(&self) -> nat {
        lru_capacity(self.cache)
    }

    /// The keys, most recently used first.
    pub closed spec fn order(&self) -> Seq<KeyView> {
        lru_order(self.cache)
    }

    pub closed spec fn wf(&self) -> bool {
        lru_consistent(lru_contents(self.cache), lru_order(self.cache), lru_capacity(self.cache))
    }

    /// An empty cache that holds at most `size` responses.
    pub fn new(size: usize) -> (r: RespCache)
        requires
            size > 0,
        ensures
            r.wf(),
            r@.dom().len() == 0,
            r.order().len() == 0,
            r.capacity() == size,
    {
        let r = RespCache { cache: lru_new(size) };
        assert(r.order().to_set() =~= r@.dom()) by {
            assert(r@.dom() =~= Set::<KeyView>::empty());
        }
        r
    }

    /// Stores `msg` as the response of upstream `tag` at time `now` (in seconds), unless
    /// it reports an error. An entry with another key may be evicted, and only when the
    /// key was absent and the cache full.
    pub fn put(&mut self, tag: &String, msg: Message, now: u64)
        requires
            old(self).wf(),
        ensures
            final(self).wf(),
            final(self).capacity() == old(self).capacity(),
            msg.rcode != RCODE_NOERROR ==> final(self)@ == old(self)@ && final(self).order() == old(self).order(),
            msg.rcode == RCODE_NOERROR ==> {
                let k = cache_key(tag@, msg.queries@);
                &&& final(self)@ == after_put(old(self)@, old(self).order(), old(self).capacity(), k, record_of(msg, now))
                &&& final(self).order() == order_after_put(old(self)@, old(self).order(), old(self).capacity(), k)
            },
    {
        if msg.rcode != RCODE_NOERROR {
            return;
        }
        let key = make_key(tag, &msg.queries);
        let rec = CacheRecord::new(msg, now);
        lru_put(&mut self.cache, key, rec);
    }

    /// Looks up the response of upstream `tag` to the questions of `msg` at time `now`:
    /// `Alive` while within its time to live, `Expired` after. Expired entries stay.
    pub fn get(&mut self, tag: &String, msg: &Message, now: u64) -> (r: Option<RecordStatus>)
        requires
            old(self).wf(),
        ensures
            final(self)@ == old(self)@,
            final(self).wf(),
            final(self).capacity() == old(self).capacity(),
            final(self).order() == order_after_touch(old(self)@, old(self).order(), cache_key(tag@, msg.queries@)),
            lookup_matches(old(self)@.get(cache_key(tag@, msg.queries@)), now, r),
    {
        let key = make_key(tag, &msg.queries);
        match lru_get(&mut self.cache, &key) {
            None => None,
            Some(rec) => {
                let resp = rec.get();
                if rec.validate(now) {
                    Some(RecordStatus::Alive(resp))
                } else {
                    Some(RecordStatus::Expired(resp))
                }
            },
        }
    }
}

/// A response stored at time `created` is reported `Alive` at `now` exactly while no
/// more than its smallest answer time to live has passed, and `Expired` after; either way
/// the response handed back has the stored content.
pub proof fn lemma_cache_ttl(
    stored: Map<KeyView, CacheRecord>,
    tag: Seq<char>,
    msg: Message,
    created: u64,
    now: u64,
    r: Option<RecordStatus>,
)
    requires
        stored.contains_key(cache_key(tag, msg.queries@)),
        stored[cache_key(tag, msg.queries@)] == record_of(msg, created),
        lookup_matches(stored.get(cache_key(tag, msg.queries@)), now, r),
    ensures
        r is Some,
        (r matches Some(RecordStatus::Alive(_))) <==> now <= created + min_ttl(msg.answers@),
        match r {
            Some(RecordStatus::Alive(m)) => m.same_content(&msg),
            Some(RecordStatus::Expired(m)) => m.same_content(&msg),
            None => false,
        },
{
}

fn make_key(tag: &String, queries: &Vec<Question>) -> (k: CacheKey)
    ensures
        key_view(k) == cache_key(tag@, queries@),
{
    let mut qs: Vec<(String, u16, u16)> = Vec::new();
    let mut i: usize = 0;
    while i < queries.len()
        invariant
            i <= queries@.len(),
            qs@.len() == i,
            forall|j: int| 0 <= j < i ==> (#[trigger] qs@[j]).0@ == queries@[j].name@ && qs@[j].1 == queries@[j].qtype && qs@[j].2 == queries@[j].qclass,
        decreases queries@.len() - i,
    {
        qs.push((queries[i].name.clone(), queries[i].qtype, queries[i].qclass));
        i = i + 1;
    }
    let k = (tag.clone(), qs);
    assert(key_view(k).1 =~= cache_key(tag@, queries@).1);
    k
}

fn answers_min_ttl(a: &Vec<Record>) -> (r: u32)
    ensures
        r == min_ttl(a@),
{
    if a.len() == 0 {
        return MAX_TTL;
    }
    let mut m: u32 = a[0].ttl;
    let mut i: usize = 1;
    assert(a@.take(1).drop_last() =~= Seq::<Record>::empty());
    assert(a@.take(1)[0] == a@[0]);
    while i < a.len()
        invariant
            1 <= i <= a@.len(),
            m == min_ttl(a@.take(i as int)),
        decreases a@.len() - i,
    {
        assert(a@.take(i as int + 1).drop_last() =~= a@.take(i as int));
        if a[i].ttl < m {
            m = a[i].ttl;
        }
        i = i + 1;
    }
    assert(a@.take(i as int) =~= a@);
    m
}

} // verus!
