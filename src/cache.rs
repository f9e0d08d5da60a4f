//! The response cache: at most ten records, evicted least recently used
//! first, each with an optional lifetime.
use vstd::prelude::*;
use crate::bytes::{bytes_eq, to_vec};
use crate::error::ProxyError;
use crate::lru_queue::{promote, LruQueue};
use crate::request::{Request, RequestView};

verus! {

/// The most records the cache holds.
pub const CACHE_MAX: usize = 10;

pub struct CacheRecordView {
    pub request: RequestView,
    pub response: Seq<u8>,
    pub time_now: u64,
    pub expiry_secs: Option<u32>,
    pub date: Seq<u8>,
}

/// A cached response: the request it answered, the response bytes, when it
/// was stored (in seconds on the caller's clock), its lifetime in seconds if
/// any, and the response's `date` header.
pub struct CacheRecord {
    pub request: Request,
    pub response: Vec<u8>,
    pub time_now: u64,
    pub expiry_secs: Option<u32>,
    pub date: Vec<u8>,
}

impl View for CacheRecord {
    type V = CacheRecordView;

    open spec fn view(&self) -> CacheRecordView {
        CacheRecordView {
            request: self.request@,
            response: self.response@,
            time_now: self.time_now,
            expiry_secs: self.expiry_secs,
            date: self.date@,
        }
    }
}

impl CacheRecord {
    pub fn new(
        request: Request,
        response: Vec<u8>,
        time_now: u64,
        expiry_secs: Option<u32>,
        date: Vec<u8>,
    ) -> (r: CacheRecord)
        ensures
            r@ == (CacheRecordView {
                request: request@,
                response: response@,
                time_now,
                expiry_secs,
                date: date@,
            }),
    {
        CacheRecord { request, response, time_now, expiry_secs, date }
    }

    /// An independent copy.
    pub fn copy(&self) -> (r: CacheRecord)
        ensures
            r@ == self@,
    {
        CacheRecord {
            request: self.request.copy(),
            response: to_vec(self.response.as_slice()),
            time_now: self.time_now,
            expiry_secs: self.expiry_secs,
            date: to_vec(self.date.as_slice()),
        }
    }
}

/// Seconds from `since` to `now`; zero when `now` is earlier.
pub open spec fn elapsed(since: u64, now: u64) -> u64 {
    if now >= since {
        (now - since) as u64
    } else {
        0
    }
}

/// A record is stale once more seconds than its lifetime have passed since
/// it was stored; one without a lifetime never is.
pub open spec fn is_stale(r: CacheRecordView, now: u64) -> bool {
    match r.expiry_secs {
        Some(ttl) => elapsed(r.time_now, now) > ttl,
        None => false,
    }
}

/// The cache as a recency order of keys (least recently used first) and the
/// records by key.
pub struct CacheView {
    pub order: Seq<Seq<u8>>,
    pub records: Map<Seq<u8>, CacheRecordView>,
}

/// The order names each stored key exactly once, and there are at most
/// `CACHE_MAX` of them.
pub open spec fn cache_wf(c: CacheView) -> bool {
    &&& c.order.no_duplicates()
    &&& c.order.len() <= CACHE_MAX
    &&& forall|k: Seq<u8>| #[trigger] c.records.contains_key(k) <==> c.order.contains(k)
}

pub open spec fn empty_cache() -> CacheView {
    CacheView { order: Seq::empty(), records: Map::empty() }
}

/// `key` becomes the most recently used.
pub open spec fn touched(c: CacheView, key: Seq<u8>) -> CacheView {
    CacheView { order: promote(c.order, key), records: c.records }
}

/// `key` stored (or overwritten) as the most recently used.
pub open spec fn inserted(c: CacheView, key: Seq<u8>, r: CacheRecordView) -> CacheView {
    CacheView { order: promote(c.order, key), records: c.records.insert(key, r) }
}

/// The least recently used key dropped.
pub open spec fn evicted(c: CacheView) -> CacheView {
    CacheView { order: c.order.drop_first(), records: c.records.remove(c.order[0]) }
}

/// `key` dropped.
pub open spec fn removed(c: CacheView, key: Seq<u8>) -> CacheView {
    CacheView { order: c.order.remove_value(key), records: c.records.remove(key) }
}

/// What a lookup of `key` at time `now` finds: the record and whether it is
/// stale.
pub open spec fn lookup(c: CacheView, key: Seq<u8>, now: u64) -> Option<(CacheRecordView, bool)> {
    if c.records.contains_key(key) {
        Some((c.records[key], is_stale(c.records[key], now)))
    } else {
        None
    }
}

/// The cache after a lookup: a fresh hit becomes the most recently used;
/// a miss or a stale hit leaves the order alone.
pub open spec fn after_lookup(c: CacheView, key: Seq<u8>, now: u64) -> CacheView {
    match lookup(c, key, now) {
        Some((_, false)) => touched(c, key),
        _ => c,
    }
}

/// The least recently used key dropped when the cache is at capacity, so
/// that one more key fits.
pub open spec fn evict_if_full(c: CacheView) -> CacheView {
    if c.order.len() >= CACHE_MAX {
        evicted(c)
    } else {
        c
    }
}

/// The cache after storing `keys[i]` with `recs[i]` in turn, starting
/// empty, each time making room first when it is full.
pub open spec fn fill(keys: Seq<Seq<u8>>, recs: Seq<CacheRecordView>) -> CacheView
    decreases keys.len(),
{
    if keys.len() == 0 {
        empty_cache()
    } else {
        inserted(
            evict_if_full(fill(keys.drop_last(), recs.drop_last())),
            keys.last(),
            recs.last(),
        )
    }
}

proof fn lemma_fill_small(keys: Seq<Seq<u8>>, recs: Seq<CacheRecordView>)
    requires
        keys.len() <= CACHE_MAX,
        keys.no_duplicates(),
    ensures
        fill(keys, recs).order == keys,
        forall|x: Seq<u8>| #[trigger] fill(keys, recs).records.contains_key(x) <==> keys.contains(x),
    decreases keys.len(),
{
    if keys.len() > 0 {
        let p = keys.drop_last();
        assert forall|a: int, b: int| 0 <= a < p.len() && 0 <= b < p.len() && a != b implies p[a]
            != p[b] by {
            assert(p[a] == keys[a] && p[b] == keys[b]);
        }
        lemma_fill_small(p, recs.drop_last());
        let k = keys.last();
        assert(!p.contains(k)) by {
            if p.contains(k) {
                let j = choose|j: int| 0 <= j < p.len() && p[j] == k;
                assert(keys[j] == keys[keys.len() - 1]);
            }
        }
        p.index_of_first_ensures(k);
        assert(p.remove_value(k) == p);
        assert(p.push(k) =~= keys);
        assert forall|x: Seq<u8>| #[trigger] keys.contains(x) <==> (p.contains(x) || x == k) by {
            if keys.contains(x) {
                let j = choose|j: int| 0 <= j < keys.len() && keys[j] == x;
                if j < p.len() {
                    assert(p[j] == x);
                }
            }
            if p.contains(x) {
                let j = choose|j: int| 0 <= j < p.len() && p[j] == x;
                assert(keys[j] == x);
            }
            if x == k {
                assert(keys[keys.len() - 1] == x);
            }
        }
    }
}

/// Storing eleven distinct keys, one after another, in a cache that starts
/// empty leaves the first key out and the other ten in.
pub proof fn lemma_capacity(keys: Seq<Seq<u8>>, recs: Seq<CacheRecordView>)
    requires
        keys.len() == CACHE_MAX + 1,
        keys.no_duplicates(),
    ensures
        !fill(keys, recs).records.contains_key(keys[0]),
        forall|i: int| 1 <= i < keys.len() ==> fill(keys, recs).records.contains_key(#[trigger] keys[i]),
        fill(keys, recs).order.len() == CACHE_MAX,
{
    let p = keys.drop_last();
    let k = keys.last();
    assert forall|a: int, b: int| 0 <= a < p.len() && 0 <= b < p.len() && a != b implies p[a]
        != p[b] by {
        assert(p[a] == keys[a] && p[b] == keys[b]);
    }
    lemma_fill_small(p, recs.drop_last());
    let c = fill(p, recs.drop_last());
    let e = evicted(c);
    assert(e.order =~= keys.subrange(1, CACHE_MAX as int));
    assert(!e.order.contains(k)) by {
        if e.order.contains(k) {
            let j = choose|j: int| 0 <= j < e.order.len() && e.order[j] == k;
            assert(keys[j + 1] == keys[keys.len() - 1]);
        }
    }
    e.order.index_of_first_ensures(k);
    assert(e.order.remove_value(k) == e.order);
    assert(keys[0] != k);
    assert forall|i: int| 1 <= i < keys.len() implies fill(keys, recs).records.contains_key(
        #[trigger] keys[i],
    ) by {
        if i < keys.len() - 1 {
            assert(p[i] == keys[i]);
            assert(p.contains(keys[i]));
            assert(keys[i] != keys[0]);
        }
    }
}

/// In a full cache, a fresh lookup of the least recently used key protects
/// it: storing a new key afterwards evicts the second least recently used
/// key instead.
pub proof fn lemma_lookup_promotes(c: CacheView, now: u64, key: Seq<u8>, r: CacheRecordView)
    requires
        cache_wf(c),
        c.order.len() == CACHE_MAX,
        !is_stale(c.records[c.order[0]], now),
        !c.records.contains_key(key),
    ensures
        ({
            let after = inserted(evict_if_full(after_lookup(c, c.order[0], now)), key, r);
            &&& after.records.contains_key(c.order[0])
            &&& !after.records.contains_key(c.order[1])
            &&& after.records.contains_key(key)
        }),
{
    let k0 = c.order[0];
    assert(c.order.contains(k0));
    assert(c.records.contains_key(k0));
    let t = after_lookup(c, k0, now);
    c.order.index_of_first_ensures(k0);
    assert(c.order.index_of_first(k0) == Some(0int));
    lemma_promote(c.order, k0);
    assert(t.order[0] == c.order[1]);
    assert(t.order.len() == CACHE_MAX);
    assert(c.order[1] != k0);
    assert(c.order.contains(c.order[1]));
    assert(c.order[1] != key);
}

pub open spec fn entry_views(s: Seq<(Vec<u8>, CacheRecord)>) -> Seq<(Seq<u8>, CacheRecordView)> {
    s.map_values(|e: (Vec<u8>, CacheRecord)| (e.0@, e.1@))
}

/// The records of an entry list, a later entry overriding an earlier one.
pub open spec fn entry_map(s: Seq<(Seq<u8>, CacheRecordView)>) -> Map<Seq<u8>, CacheRecordView>
    decreases s.len(),
{
    if s.len() == 0 {
        Map::empty()
    } else {
        entry_map(s.drop_last()).insert(s.last().0, s.last().1)
    }
}

pub open spec fn entry_keys(s: Seq<(Seq<u8>, CacheRecordView)>) -> Seq<Seq<u8>> {
    s.map_values(|e: (Seq<u8>, CacheRecordView)| e.0)
}

proof fn lemma_entry_map_dom(s: Seq<(Seq<u8>, CacheRecordView)>, k: Seq<u8>)
    ensures
        entry_map(s).contains_key(k) <==> entry_keys(s).contains(k),
    decreases s.len(),
{
    if s.len() > 0 {
        let p = s.drop_last();
        lemma_entry_map_dom(p, k);
        assert(entry_keys(s) =~= entry_keys(p).push(s.last().0));
        if k == s.last().0 {
            assert(entry_keys(s)[s.len() - 1] == k);
        }
        if entry_keys(p).contains(k) {
            let i = choose|i: int| 0 <= i < entry_keys(p).len() && entry_keys(p)[i] == k;
            assert(entry_keys(s)[i] == k);
        }
        if entry_keys(s).contains(k) {
            let i = choose|i: int| 0 <= i < entry_keys(s).len() && entry_keys(s)[i] == k;
            if i < p.len() {
                assert(entry_keys(p)[i] == k);
            }
        }
    } else {
        assert(!entry_keys(s).contains(k));
    }
}

proof fn lemma_entry_map_value(s: Seq<(Seq<u8>, CacheRecordView)>, i: int)
    requires
        entry_keys(s).no_duplicates(),
        0 <= i < s.len(),
    ensures
        entry_map(s).contains_key(s[i].0),
        entry_map(s)[s[i].0] == s[i].1,
    decreases s.len(),
{
    let p = s.drop_last();
    if i < s.len() - 1 {
        assert(entry_keys(p) =~= entry_keys(s).drop_last());
        assert(entry_keys(s)[i] != entry_keys(s)[s.len() - 1]);
        lemma_entry_map_value(p, i);
    }
}

proof fn lemma_entry_map_update(es: Seq<(Seq<u8>, CacheRecordView)>, i: int, r: CacheRecordView)
    requires
        entry_keys(es).no_duplicates(),
        0 <= i < es.len(),
    ensures
        entry_keys(es.update(i, (es[i].0, r))) == entry_keys(es),
        entry_map(es.update(i, (es[i].0, r))) == entry_map(es).insert(es[i].0, r),
{
    let k = es[i].0;
    let u = es.update(i, (k, r));
    assert(entry_keys(u) =~= entry_keys(es));
    let m = entry_map(es).insert(k, r);
    assert forall|x: Seq<u8>| entry_map(u).contains_key(x) <==> m.contains_key(x) by {
        lemma_entry_map_dom(u, x);
        lemma_entry_map_dom(es, x);
        if x == k {
            lemma_entry_map_value(es, i);
        }
    }
    assert forall|x: Seq<u8>| entry_map(u).contains_key(x) implies entry_map(u)[x] == m[x] by {
        lemma_entry_map_dom(u, x);
        let j = choose|j: int| 0 <= j < entry_keys(u).len() && entry_keys(u)[j] == x;
        lemma_entry_map_value(u, j);
        if j != i {
            assert(u[j] == es[j]);
            assert(entry_keys(es)[j] != entry_keys(es)[i]);
            lemma_entry_map_value(es, j);
        }
    }
    assert(entry_map(u) =~= m);
}

proof fn lemma_entry_map_remove(es: Seq<(Seq<u8>, CacheRecordView)>, i: int)
    requires
        entry_keys(es).no_duplicates(),
        0 <= i < es.len(),
    ensures
        entry_keys(es.remove(i)) == entry_keys(es).remove(i),
        entry_keys(es.remove(i)).no_duplicates(),
        entry_map(es.remove(i)) == entry_map(es).remove(es[i].0),
{
    let k = es[i].0;
    let u = es.remove(i);
    let ks = entry_keys(es);
    es.remove_ensures(i);
    ks.remove_ensures(i);
    assert(entry_keys(u) =~= ks.remove(i));
    assert forall|a: int, b: int|
        0 <= a < entry_keys(u).len() && 0 <= b < entry_keys(u).len() && a != b implies entry_keys(
        u)[a] != entry_keys(u)[b] by {
        let a2 = if a < i {
            a
        } else {
            a + 1
        };
        let b2 = if b < i {
            b
        } else {
            b + 1
        };
        assert(entry_keys(u)[a] == ks[a2]);
        assert(entry_keys(u)[b] == ks[b2]);
    }
    assert(entry_keys(u).no_duplicates());
    let m = entry_map(es).remove(k);
    assert forall|x: Seq<u8>| entry_map(u).contains_key(x) <==> m.contains_key(x) by {
        lemma_entry_map_dom(u, x);
        lemma_entry_map_dom(es, x);
        assert(ks[i] == k);
        if entry_keys(es).contains(x) && x != k {
            let j = choose|j: int| 0 <= j < ks.len() && ks[j] == x;
            let j2 = if j < i {
                j
            } else {
                j - 1
            };
            assert(entry_keys(u)[j2] == x);
        }
        if entry_keys(u).contains(x) {
            let j = choose|j: int| 0 <= j < entry_keys(u).len() && entry_keys(u)[j] == x;
            let j2 = if j < i {
                j
            } else {
                j + 1
            };
            assert(ks[j2] == x);
            assert(j2 != i);
            assert(x != k);
        }
        assert(m.contains_key(x) <==> (entry_map(es).contains_key(x) && x != k));
    }
    assert forall|x: Seq<u8>| entry_map(u).contains_key(x) implies entry_map(u)[x] == m[x] by {
        lemma_entry_map_dom(u, x);
        let j = choose|j: int| 0 <= j < entry_keys(u).len() && entry_keys(u)[j] == x;
        lemma_entry_map_value(u, j);
        let j2 = if j < i {
            j
        } else {
            j + 1
        };
        assert(es[j2] == u[j]);
        assert(ks[j2] == x);
        assert(ks[i] == k);
        assert(x != k);
        lemma_entry_map_value(es, j2);
    }
    assert(entry_map(u) =~= m);
}

/// Moving or adding a key at the back keeps the keys distinct, adds only
/// that key, and grows the order only when the key was absent.
pub proof fn lemma_promote(q: Seq<Seq<u8>>, k: Seq<u8>)
    requires
        q.no_duplicates(),
    ensures
        promote(q, k).no_duplicates(),
        forall|x: Seq<u8>| #[trigger] promote(q, k).contains(x) <==> (q.contains(x) || x == k),
        promote(q, k).len() == if q.contains(k) {
            q.len()
        } else {
            q.len() + 1
        },
        promote(q, k).last() == k,
{
    lemma_remove_value(q, k);
    let r = q.remove_value(k);
    let p = r.push(k);
    assert forall|x: Seq<u8>| #[trigger] p.contains(x) <==> (r.contains(x) || x == k) by {
        if r.contains(x) {
            let j = choose|j: int| 0 <= j < r.len() && r[j] == x;
            assert(p[j] == x);
        }
        if x == k {
            assert(p[r.len() as int] == x);
        }
        if p.contains(x) {
            let j = choose|j: int| 0 <= j < p.len() && p[j] == x;
            if j < r.len() {
                assert(r[j] == x);
            }
        }
    }
    assert forall|a: int, b: int| 0 <= a < p.len() && 0 <= b < p.len() && a != b implies p[a]
        != p[b] by {
        if a < r.len() && b < r.len() {
            assert(p[a] == r[a] && p[b] == r[b]);
        } else if a < r.len() {
            assert(r.contains(p[a]));
        } else if b < r.len() {
            assert(r.contains(p[b]));
        }
    }
}

/// Removing a key keeps the others distinct and drops only that key.
pub proof fn lemma_remove_value(q: Seq<Seq<u8>>, k: Seq<u8>)
    requires
        q.no_duplicates(),
    ensures
        q.remove_value(k).no_duplicates(),
        forall|x: Seq<u8>| #[trigger] q.remove_value(k).contains(x) <==> (q.contains(x) && x != k),
        q.remove_value(k).len() == if q.contains(k) {
            q.len() - 1
        } else {
            q.len() as int
        },
{
    q.index_of_first_ensures(k);
    match q.index_of_first(k) {
        Some(i) => {
            lemma_seq_remove(q, i);
        },
        None => {},
    }
}

/// Removing the element at an index keeps the others distinct and drops
/// only that element.
pub proof fn lemma_seq_remove(q: Seq<Seq<u8>>, i: int)
    requires
        q.no_duplicates(),
        0 <= i < q.len(),
    ensures
        q.remove(i).no_duplicates(),
        forall|x: Seq<u8>| #[trigger] q.remove(i).contains(x) <==> (q.contains(x) && x != q[i]),
        q.remove(i).len() == q.len() - 1,
{
    let r = q.remove(i);
    assert forall|a: int, b: int| 0 <= a < r.len() && 0 <= b < r.len() && a != b implies r[a]
        != r[b] by {
        let a2 = if a < i {
            a
        } else {
            a + 1
        };
        let b2 = if b < i {
            b
        } else {
            b + 1
        };
        assert(r[a] == q[a2] && r[b] == q[b2]);
    }
    assert forall|x: Seq<u8>| #[trigger] r.contains(x) <==> (q.contains(x) && x != q[i]) by {
        if r.contains(x) {
            let j = choose|j: int| 0 <= j < r.len() && r[j] == x;
            let j2 = if j < i {
                j
            } else {
                j + 1
            };
            assert(q[j2] == x);
        }
        if q.contains(x) && x != q[i] {
            let j = choose|j: int| 0 <= j < q.len() && q[j] == x;
            let j2 = if j < i {
                j
            } else {
                j - 1
            };
            assert(r[j2] == x);
        }
    }
}

/// The cache: a recency queue of keys and the entries, kept in step.
pub struct Cache {
    lru: LruQueue,
    cache: Vec<(Vec<u8>, CacheRecord)>,
}

impl View for Cache {
    type V = CacheView;

    closed spec fn view(&self) -> CacheView {
        CacheView { order: self.lru@, records: entry_map(entry_views(self.cache@)) }
    }
}

impl Cache {
    /// The entries and the queue agree.
    pub closed spec fn consistent(&self) -> bool {
        &&& entry_keys(entry_views(self.cache@)).no_duplicates()
        &&& self.cache@.len() == self.lru@.len()
    }

    pub open spec fn wf(&self) -> bool {
        self.consistent() && cache_wf(self@)
    }

    pub fn new() -> (r: Cache)
        ensures
            r.wf(),
            r@ == empty_cache(),
    {
        let r = Cache { lru: LruQueue::new(), cache: Vec::new() };
        assert(entry_views(r.cache@) =~= Seq::<(Seq<u8>, CacheRecordView)>::empty());
        assert(r@.records =~= Map::<Seq<u8>, CacheRecordView>::empty());
        assert(entry_keys(entry_views(r.cache@)) =~= Seq::<Seq<u8>>::empty());
        r
    }

    /// The index of the entry for `key`.
    fn find_entry(&self, key: &[u8]) -> (r: Option<usize>)
        ensures
            match r {
                Some(i) => i < self.cache@.len() && self.cache@[i as int].0@ == key@,
                None => !self@.records.contains_key(key@),
            },
    {
        let ghost es = entry_views(self.cache@);
        let mut i: usize = 0;
        while i < self.cache.len()
            invariant
                i <= self.cache@.len(),
                es == entry_views(self.cache@),
                forall|j: int| 0 <= j < i ==> entry_keys(es)[j] != key@,
            decreases self.cache@.len() - i,
        {
            if bytes_eq(self.cache[i].0.as_slice(), key) {
                return Some(i);
            }
            assert(entry_keys(es)[i as int] == self.cache@[i as int].0@);
            i = i + 1;
        }
        proof {
            lemma_entry_map_dom(es, key@);
            if entry_keys(es).contains(key@) {
                let j = choose|j: int| 0 <= j < entry_keys(es).len() && entry_keys(es)[j] == key@;
                assert(j < i);
            }
        }
        None
    }

    pub fn is_full(&self) -> (r: bool)
        requires
            self.wf(),
        ensures
            r == (self@.order.len() == CACHE_MAX),
    {
        self.cache.len() == CACHE_MAX
    }

    /// The number of records.
    pub fn len(&self) -> (r: usize)
        requires
            self.wf(),
        ensures
            r == self@.order.len(),
    {
        self.cache.len()
    }

    /// Whether a record is stored under `key`.
    pub fn contains_key(&self, key: &[u8]) -> (r: bool)
        requires
            self.wf(),
        ensures
            r == self@.records.contains_key(key@),
    {
        match self.find_entry(key) {
            Some(i) => {
                proof {
                    lemma_entry_map_value(entry_views(self.cache@), i as int);
                }
                true
            },
            None => false,
        }
    }

    /// Whether a record stored at `time_now` with lifetime `expiry` is stale
    /// at `now`.
    fn check_time_out(&self, time_now: u64, expiry: Option<u32>, now: u64) -> (r: bool)
        ensures
            r == match expiry {
                Some(ttl) => elapsed(time_now, now) > ttl,
                None => false,
            },
    {
        let expiry_secs = match expiry {
            Some(t) => t,
            None => {
                return false;
            },
        };
        let elapsed_secs: u64 = if now >= time_now {
            now - time_now
        } else {
            0
        };
        elapsed_secs > expiry_secs as u64
    }

    /// Looks up `request` at time `now`: the record and whether it is stale.
    /// A fresh hit becomes the most recently used; a stale hit does not.
    pub fn get(&mut self, request: &[u8], now: u64) -> (r: Option<(CacheRecord, bool)>)
        requires
            old(self).wf(),
        ensures
            final(self).wf(),
            final(self)@ == after_lookup(old(self)@, request@, now),
            match lookup(old(self)@, request@, now) {
                Some((rec, stale)) => r matches Some((c, st)) && c@ == rec && st == stale,
                None => r is None,
            },
    {
        let i = match self.find_entry(request) {
            Some(i) => i,
            None => {
                return None;
            },
        };
        proof {
            lemma_entry_map_value(entry_views(self.cache@), i as int);
            assert(entry_views(self.cache@)[i as int] == (
                self.cache@[i as int].0@,
                self.cache@[i as int].1@,
            ));
        }
        let record = self.cache[i].1.copy();
        if self.check_time_out(record.time_now, record.expiry_secs, now) {
            return Some((record, true));
        }
        proof {
            lemma_promote(self@.order, request@);
        }
        self.lru.add_lru(request);
        assert(final(self)@ =~= touched(old(self)@, request@));
        Some((record, false))
    }

    /// Stores a record for `request_data`, stamped `now`, as the most
    /// recently used, overwriting one already stored under that key. Fails
    /// when the cache is at capacity.
    pub fn add_cache(
        &mut self,
        request_data: Vec<u8>,
        request: Request,
        response_data: Vec<u8>,
        expiry: Option<u32>,
        date: Vec<u8>,
        now: u64,
    ) -> (r: Result<(), ProxyError>)
        requires
            old(self).wf(),
        ensures
            final(self).wf(),
            old(self)@.order.len() == CACHE_MAX ==> r == Err::<(), ProxyError>(ProxyError::CacheFull)
                && final(self)@ == old(self)@,
            old(self)@.order.len() < CACHE_MAX ==> r is Ok && final(self)@ == inserted(
                old(self)@,
                request_data@,
                CacheRecordView {
                    request: request@,
                    response: response_data@,
                    time_now: now,
                    expiry_secs: expiry,
                    date: date@,
                },
            ),
    {
        if self.cache.len() == CACHE_MAX {
            return Err(ProxyError::CacheFull);
        }
        let ghost es = entry_views(self.cache@);
        let ghost key = request_data@;
        proof {
            lemma_promote(self@.order, key);
            lemma_entry_map_dom(es, key);
        }
        self.lru.add_lru(request_data.as_slice());
        let record = CacheRecord::new(request, response_data, now, expiry, date);
        let ghost rv = record@;
        match self.find_entry(request_data.as_slice()) {
            Some(i) => {
                proof {
                    lemma_entry_map_update(es, i as int, rv);
                    lemma_entry_map_value(es, i as int);
                    assert(es[i as int].0 == key);
                    assert(old(self)@.records.contains_key(key));
                }
                self.cache.set(i, (request_data, record));
                assert(entry_views(self.cache@) =~= es.update(i as int, (es[i as int].0, rv)));
            },
            None => {
                assert(!old(self)@.records.contains_key(key));
                self.cache.push((request_data, record));
                assert(entry_views(self.cache@) =~= es.push((key, rv)));
                assert(entry_views(self.cache@).drop_last() =~= es);
                proof {
                    let ks = entry_keys(es);
                    assert(entry_keys(entry_views(self.cache@)) =~= ks.push(key));
                    assert forall|a: int, b: int|
                        0 <= a < ks.len() + 1 && 0 <= b < ks.len() + 1 && a != b implies ks.push(
                        key,
                    )[a] != ks.push(key)[b] by {
                        if a < ks.len() && b == ks.len() {
                            assert(ks.contains(ks[a]));
                        }
                        if b < ks.len() && a == ks.len() {
                            assert(ks.contains(ks[b]));
                        }
                    }
                }
            },
        }
        assert(final(self)@.records =~= old(self)@.records.insert(key, rv));
        Ok(())
    }

    /// Removes and returns the least recently used record.
    pub fn remove_lru_cache(&mut self) -> (r: Result<CacheRecord, ProxyError>)
        requires
            old(self).wf(),
        ensures
            final(self).wf(),
            old(self)@.order.len() == 0 ==> r == Err::<CacheRecord, ProxyError>(
                ProxyError::CacheEmpty,
            ) && final(self)@ == old(self)@,
            old(self)@.order.len() > 0 ==> (r matches Ok(rec) && rec@ == old(self)@.records[old(
                self,
            )@.order[0]]),
            old(self)@.order.len() > 0 ==> final(self)@ == evicted(old(self)@),
    {
        let ghost es = entry_views(self.cache@);
        let evicted_key = match self.lru.evict_lru() {
            Some(k) => k,
            None => {
                return Err(ProxyError::CacheEmpty);
            },
        };
        let ghost key = evicted_key@;
        assert(old(self)@.order.contains(key)) by {
            assert(old(self)@.order[0] == key);
        }
        assert(old(self)@.records.contains_key(key));
        let i = match self.find_entry(evicted_key.as_slice()) {
            Some(i) => i,
            None => {
                return Err(ProxyError::CacheInvariantViolation);
            },
        };
        proof {
            lemma_entry_map_value(es, i as int);
            lemma_entry_map_remove(es, i as int);
            old(self)@.order.remove_ensures(0);
            lemma_seq_remove(old(self)@.order, 0);
            assert(old(self)@.order.drop_first() =~= old(self)@.order.remove(0));
        }
        let (_, record) = self.cache.remove(i);
        assert(entry_views(self.cache@) =~= es.remove(i as int));
        assert(final(self)@.records =~= old(self)@.records.remove(key));
        Ok(record)
    }

    /// Removes and returns the record stored under `request`.
    pub fn remove_cache(&mut self, request: &[u8]) -> (r: Result<CacheRecord, ProxyError>)
        requires
            old(self).wf(),
        ensures
            final(self).wf(),
            !old(self)@.order.contains(request@) ==> r == Err::<CacheRecord, ProxyError>(
                ProxyError::KeyNotTracked,
            ) && final(self)@ == old(self)@,
            old(self)@.order.contains(request@) ==> (r matches Ok(rec) && rec@ == old(
                self,
            )@.records[request@]),
            old(self)@.order.contains(request@) ==> final(self)@ == removed(old(self)@, request@),
    {
        let ghost es = entry_views(self.cache@);
        proof {
            old(self)@.order.index_of_first_ensures(request@);
        }
        match self.lru.evict_lru_by_value(request) {
            Some(_) => {},
            None => {
                return Err(ProxyError::KeyNotTracked);
            },
        }
        assert(old(self)@.records.contains_key(request@));
        let i = match self.find_entry(request) {
            Some(i) => i,
            None => {
                return Err(ProxyError::CacheInvariantViolation);
            },
        };
        proof {
            lemma_entry_map_value(es, i as int);
            lemma_entry_map_remove(es, i as int);
            lemma_remove_value(old(self)@.order, request@);
        }
        let (_, record) = self.cache.remove(i);
        assert(entry_views(self.cache@) =~= es.remove(i as int));
        assert(final(self)@.records =~= old(self)@.records.remove(request@));
        Ok(record)
    }
}

} // verus!
