//! The recorder of block events: the records of the blocks in flight, kept
//! in a cache of bounded capacity that drops the least recently used record.
use vstd::prelude::*;
use lru_time_cache::LruCache;
use crate::block::{spec_log_line, BlockRecord, CustomTick};
use crate::event::{spec_event_index, Event};
use crate::text::{chars_of, push_decimal_u128, spec_decimal, string_of};
use crate::types::H256;

verus! {

/// The key of a block record: the bytes of the block hash.
pub type BlockHash = [u8; 32];

#[verifier::external_type_specification]
#[verifier::external_body]
#[verifier::reject_recursive_types(Key)]
#[verifier::reject_recursive_types(Value)]
pub struct ExLruCache<Key, Value>(LruCache<Key, Value>);

/// No records.
pub open spec fn no_records() -> Map<BlockHash, BlockRecord> {
    Map::empty()
}

/// The records that a cache holds, by block hash.
pub uninterp spec fn lru_contents(c: LruCache<BlockHash, BlockRecord>) -> Map<BlockHash, BlockRecord>;

/// The limits a cache was made with: its capacity, and whether its entries
/// expire after a time to live.
pub uninterp spec fn lru_limits(c: LruCache<BlockHash, BlockRecord>) -> (usize, bool);

/// The use order of a cache: the keys it holds, least recently used first.
pub uninterp spec fn lru_order(c: LruCache<BlockHash, BlockRecord>) -> Seq<BlockHash>;

/// `s` without the key `k`.
pub open spec fn without(s: Seq<BlockHash>, k: BlockHash) -> Seq<BlockHash>
    decreases s.len(),
{
    if s.len() == 0 {
        s
    } else if s.last() == k {
        without(s.drop_last(), k)
    } else {
        without(s.drop_last(), k).push(s.last())
    }
}

/// The use order lists each held key once, and only those.
pub open spec fn order_matches(order: Seq<BlockHash>, m: Map<BlockHash, BlockRecord>) -> bool {
    &&& order.no_duplicates()
    &&& forall|k: BlockHash| #[trigger] m.contains_key(k) <==> order.contains(k)
}

/// A cache whose use order lists each held key once, and only those: so it
/// is for every cache, as the cache keeps its map and its use list
/// together.
pub open spec fn lru_consistent(c: LruCache<BlockHash, BlockRecord>) -> bool {
    order_matches(lru_order(c), lru_contents(c))
}

/// Trusted: calls `LruCache::with_capacity`, which makes an empty cache of
/// that capacity whose entries do not expire.
#[verifier::external_body]
fn lru_with_capacity(capacity: usize) -> (r: LruCache<BlockHash, BlockRecord>)
    ensures
        lru_contents(r) == no_records(),
        lru_order(r) == Seq::<BlockHash>::empty(),
        lru_limits(r) == (capacity, false),
{
    LruCache::with_capacity(capacity)
}

/// Trusted: calls `LruCache::contains_key`. In a cache whose entries do not
/// expire, it tells whether the key is held; in one whose entries expire,
/// a key it reports is held. The use order is left as it is.
#[verifier::external_body]
fn lru_contains(c: &LruCache<BlockHash, BlockRecord>, k: &BlockHash) -> (r: bool)
    ensures
        r ==> lru_contents(*c).contains_key(*k),
        !lru_limits(*c).1 ==> (r == lru_contents(*c).contains_key(*k)),
{
    c.contains_key(k)
}

/// Trusted: calls `LruCache::remove`, which takes the entry of the key out
/// of the cache, and out of the use order, and returns its value.
#[verifier::external_body]
fn lru_remove(c: &mut LruCache<BlockHash, BlockRecord>, k: &BlockHash) -> (r: Option<BlockRecord>)
    ensures
        lru_contents(*final(c)) == lru_contents(*old(c)).remove(*k),
        lru_limits(*final(c)) == lru_limits(*old(c)),
        lru_consistent(*old(c)) ==> lru_order(*final(c)) == without(lru_order(*old(c)), *k),
        r == (if lru_contents(*old(c)).contains_key(*k) {
            Some(lru_contents(*old(c))[*k])
        } else {
            None
        }),
{
    c.remove(k)
}

/// Trusted: calls `LruCache::notify_insert`. The key takes the value and
/// becomes the most recently used; an entry already held is replaced.
/// Otherwise, in a full cache whose entries do not expire, the least
/// recently used entry (the first of the use order) is dropped first.
/// Entries that expired are removed and returned (none in a cache whose
/// entries do not expire).
#[verifier::external_body]
fn lru_insert(c: &mut LruCache<BlockHash, BlockRecord>, k: BlockHash, v: BlockRecord) -> (r: Vec<
    (BlockHash, BlockRecord),
>)
    requires
        lru_limits(*old(c)).0 > 0,
    ensures
        lru_limits(*final(c)) == lru_limits(*old(c)),
        lru_contents(*final(c)).contains_key(k),
        lru_contents(*final(c))[k] == v,
        forall|j: BlockHash| #[trigger]
            lru_contents(*final(c)).contains_key(j) && j != k ==> lru_contents(*old(c)).contains_key(j)
                && lru_contents(*final(c))[j] == lru_contents(*old(c))[j],
        !lru_limits(*old(c)).1 ==> r@.len() == 0,
        forall|i: int|
            0 <= i < r@.len() ==> lru_contents(*old(c)).contains_key(#[trigger] r@[i].0) && lru_contents(
                *old(c),
            )[r@[i].0] == r@[i].1,
        ({
            let m = lru_contents(*old(c));
            let o = lru_order(*old(c));
            let cap = lru_limits(*old(c)).0;
            !lru_limits(*old(c)).1 && lru_consistent(*old(c)) && m.len() <= cap ==> {
                &&& m.contains_key(k) ==> lru_contents(*final(c)) == m.insert(k, v) && lru_order(
                    *final(c),
                ) == without(o, k).push(k)
                &&& !m.contains_key(k) && m.len() < cap ==> lru_contents(*final(c)) == m.insert(k, v)
                    && lru_order(*final(c)) == o.push(k)
                &&& !m.contains_key(k) && m.len() == cap ==> lru_contents(*final(c)) == m.remove(
                    o[0],
                ).insert(k, v) && lru_order(*final(c)) == o.drop_first().push(k)
            }
        }),
{
    c.notify_insert(k, v).1
}

/// Trusted: calls `LruCache::clear`, which empties the cache.
#[verifier::external_body]
fn lru_clear(c: &mut LruCache<BlockHash, BlockRecord>)
    ensures
        lru_contents(*final(c)) == no_records(),
        lru_order(*final(c)) == Seq::<BlockHash>::empty(),
        lru_limits(*final(c)) == lru_limits(*old(c)),
{
    c.clear()
}

/// Trusted: walks the cache with `LruCache::peek_iter`, which leaves the use
/// order as it is, and hands out each key with its record. In a cache whose
/// entries do not expire, these are all the entries, most recently used
/// first.
#[verifier::external_body]
fn lru_entries(c: &LruCache<BlockHash, BlockRecord>) -> (r: Vec<(BlockHash, &BlockRecord)>)
    ensures
        !lru_limits(*c).1 && lru_consistent(*c) ==> {
            &&& r@.len() == lru_order(*c).len()
            &&& forall|i: int|
                0 <= i < r@.len() ==> (#[trigger] r@[i]).0 == lru_order(*c)[lru_order(*c).len() - 1
                    - i] && *r@[i].1 == lru_contents(*c)[r@[i].0]
        },
{
    c.peek_iter().map(|(k, v)| (*k, v)).collect()
}

/// The keys of `s` but `k`: `k` is not among them, the others are; no key
/// occurs twice where none did before.
pub proof fn lemma_without(s: Seq<BlockHash>, k: BlockHash)
    ensures
        forall|x: BlockHash| #[trigger] without(s, k).contains(x) <==> (s.contains(x) && x != k),
        s.no_duplicates() ==> without(s, k).no_duplicates(),
        s.no_duplicates() && s.contains(k) ==> without(s, k).len() == s.len() - 1,
        !s.contains(k) ==> without(s, k) == s,
    decreases s.len(),
{
    if s.len() > 0 {
        let p = s.drop_last();
        lemma_without(p, k);
        assert forall|x: BlockHash| #[trigger] s.contains(x) <==> (p.contains(x) || x == s.last()) by {
            if s.contains(x) && x != s.last() {
                let i = choose|i: int| 0 <= i < s.len() && s[i] == x;
                assert(i < s.len() - 1);
                assert(p[i] == x);
            }
            if p.contains(x) {
                let i = choose|i: int| 0 <= i < p.len() && p[i] == x;
                assert(s[i] == x);
            }
            if x == s.last() {
                assert(s[s.len() - 1] == x);
            }
        }
        if s.no_duplicates() {
            assert(p.no_duplicates());
            assert(!p.contains(s.last())) by {
                if p.contains(s.last()) {
                    let i = choose|i: int| 0 <= i < p.len() && p[i] == s.last();
                    assert(s[i] == s[s.len() - 1]);
                }
            }
        }
        if s.last() != k {
            let w = without(p, k);
            assert forall|x: BlockHash| #[trigger] w.push(s.last()).contains(x) <==> (w.contains(x)
                || x == s.last()) by {
                if w.push(s.last()).contains(x) && x != s.last() {
                    let i = choose|i: int| 0 <= i < w.len() + 1 && w.push(s.last())[i] == x;
                    assert(w[i] == x);
                }
                if w.contains(x) {
                    let i = choose|i: int| 0 <= i < w.len() && w[i] == x;
                    assert(w.push(s.last())[i] == x);
                }
                if x == s.last() {
                    assert(w.push(s.last())[w.len() as int] == x);
                }
            }
            if s.no_duplicates() {
                assert(without(s, k).no_duplicates()) by {
                    let ws = w.push(s.last());
                    assert forall|i: int, j: int|
                        0 <= i < ws.len() && 0 <= j < ws.len() && i != j implies ws[i] != ws[j] by {
                        if i < w.len() && j < w.len() {
                        } else if i == w.len() {
                            assert(w.contains(ws[j]));
                        } else {
                            assert(w.contains(ws[i]));
                        }
                    }
                }
            }
            if !s.contains(k) {
                assert(s == p.push(s.last()));
            }
        } else {
            if !s.contains(k) {
                assert(s[s.len() - 1] == k);
            }
        }
    }
}

/// A use order that matches the records counts them.
pub proof fn lemma_order_len(order: Seq<BlockHash>, m: Map<BlockHash, BlockRecord>)
    requires
        order_matches(order, m),
    ensures
        m.dom() == order.to_set(),
        m.dom().finite(),
        m.len() == order.len(),
{
    assert(m.dom() =~= order.to_set());
    order.unique_seq_to_set();
    vstd::seq_lib::seq_to_set_is_finite(order);
}

proof fn lemma_matches_remove(o: Seq<BlockHash>, m: Map<BlockHash, BlockRecord>, k: BlockHash)
    requires
        order_matches(o, m),
    ensures
        order_matches(without(o, k), m.remove(k)),
{
    lemma_without(o, k);
}

proof fn lemma_matches_push(
    o: Seq<BlockHash>,
    m: Map<BlockHash, BlockRecord>,
    k: BlockHash,
    v: BlockRecord,
)
    requires
        order_matches(o, m),
        !m.contains_key(k),
    ensures
        order_matches(o.push(k), m.insert(k, v)),
{
    let p = o.push(k);
    assert forall|x: BlockHash| #[trigger] p.contains(x) <==> (o.contains(x) || x == k) by {
        if p.contains(x) && x != k {
            let i = choose|i: int| 0 <= i < p.len() && p[i] == x;
            assert(o[i] == x);
        }
        if o.contains(x) {
            let i = choose|i: int| 0 <= i < o.len() && o[i] == x;
            assert(p[i] == x);
        }
        if x == k {
            assert(p[o.len() as int] == x);
        }
    }
    assert forall|i: int, j: int| 0 <= i < p.len() && 0 <= j < p.len() && i != j implies p[i]
        != p[j] by {
        if i < o.len() && j < o.len() {
        } else if i == o.len() {
            assert(o.contains(p[j]));
        } else {
            assert(o.contains(p[i]));
        }
    }
}

proof fn lemma_matches_evict(
    o: Seq<BlockHash>,
    m: Map<BlockHash, BlockRecord>,
    k: BlockHash,
    v: BlockRecord,
)
    requires
        order_matches(o, m),
        o.len() > 0,
        !m.contains_key(k),
    ensures
        order_matches(o.drop_first().push(k), m.remove(o[0]).insert(k, v)),
{
    let d = o.drop_first();
    assert(o.contains(o[0]));
    assert forall|x: BlockHash| #[trigger] d.contains(x) <==> (o.contains(x) && x != o[0]) by {
        if d.contains(x) {
            let i = choose|i: int| 0 <= i < d.len() && d[i] == x;
            assert(o[i + 1] == x);
        }
        if o.contains(x) && x != o[0] {
            let i = choose|i: int| 0 <= i < o.len() && o[i] == x;
            assert(i > 0);
            assert(d[i - 1] == x);
        }
    }
    assert(order_matches(d, m.remove(o[0])));
    lemma_matches_push(d, m.remove(o[0]), k, v);
}

/// `b` is `a` with the event recorded: the event happened, at some tick if
/// not before; nothing else changed.
pub open spec fn event_recorded(a: BlockRecord, b: BlockRecord, event: Event) -> bool {
    &&& b.wf()
    &&& b.events().dom() == a.events().dom().insert(spec_event_index(event))
    &&& forall|k: u8| #[trigger] a.events().contains_key(k) ==> b.events()[k] == a.events()[k]
    &&& b.customs() == a.customs()
    &&& b.start_timestamp() == a.start_timestamp()
    &&& b.hash_ready() == a.hash_ready()
}

/// What recording an event for a block came to.
pub enum RecordOutcome {
    /// No record of the block is held.
    UnknownHash,
    /// The event was recorded.
    Recorded,
    /// The event completed the record, which left the recorder; its report
    /// line.
    Completed(String),
}

/// Recording `event` for the block `h` takes the records `bm` with use order
/// `bo` to the records `am` with use order `ao` and comes to `o`: a block not
/// held changes nothing; a record the event completes leaves, and its report
/// line is given; another record has the event and becomes the most recently
/// used.
pub open spec fn event_step(
    bm: Map<BlockHash, BlockRecord>,
    bo: Seq<BlockHash>,
    am: Map<BlockHash, BlockRecord>,
    ao: Seq<BlockHash>,
    h: BlockHash,
    event: Event,
    o: RecordOutcome,
) -> bool {
    if !bm.contains_key(h) {
        o is UnknownHash && am == bm && ao == bo
    } else {
        exists|b: BlockRecord|
            #[trigger] event_recorded(bm[h], b, event) && if b.spec_is_complete() {
                &&& am == bm.remove(h)
                &&& ao == without(bo, h)
                &&& o matches RecordOutcome::Completed(line) && line@ == spec_log_line(h@, b)
            } else {
                &&& am == bm.insert(h, b)
                &&& ao == without(bo, h).push(h)
                &&& o is Recorded
            }
    }
}

/// The recorder.
pub struct Recorder {
    lock_acquire_time: u128,
    records: LruCache<BlockHash, BlockRecord>,
}

impl Recorder {
    /// The records held, by block hash.
    pub closed spec fn records(&self) -> Map<BlockHash, BlockRecord> {
        lru_contents(self.records)
    }

    /// The blocks held, least recently used first.
    pub closed spec fn use_order(&self) -> Seq<BlockHash> {
        lru_order(self.records)
    }

    /// The capacity.
    pub closed spec fn capacity(&self) -> usize {
        lru_limits(self.records).0
    }

    /// The time spent waiting for the lock of the recorder, in nanoseconds.
    pub closed spec fn lock_wait(&self) -> u128 {
        self.lock_acquire_time
    }

    /// Records are well formed and within the capacity; they do not expire;
    /// the use order lists each held block once.
    pub closed spec fn wf(&self) -> bool {
        &&& self.capacity() > 0
        &&& !lru_limits(self.records).1
        &&& lru_consistent(self.records)
        &&& self.records().dom().finite()
        &&& self.records().len() <= self.capacity()
        &&& forall|k: BlockHash| #[trigger] self.records().contains_key(k) ==> self.records()[k].wf()
    }

    /// A well-formed recorder holds at most its capacity of records, and its
    /// use order lists each of them once.
    pub proof fn lemma_within_capacity(&self)
        requires
            self.wf(),
        ensures
            self.records().len() <= self.capacity(),
            self.records().len() == self.use_order().len(),
            self.use_order().no_duplicates(),
            forall|k: BlockHash| #[trigger]
                self.records().contains_key(k) <==> self.use_order().contains(k),
    {
        lemma_order_len(self.use_order(), self.records());
    }

    /// The time spent waiting for the lock of the recorder, in nanoseconds.
    pub fn lock_wait_nanos(&self) -> (r: u128)
        ensures
            r == self.lock_wait(),
    {
        self.lock_acquire_time
    }

    /// An empty recorder of the given capacity.
    pub fn with_capacity(capacity: usize) -> (r: Self)
        requires
            capacity > 0,
        ensures
            r.wf(),
            r.records() == no_records(),
            r.use_order() == Seq::<BlockHash>::empty(),
            r.capacity() == capacity,
            r.lock_wait() == 0,
    {
        Recorder { records: lru_with_capacity(capacity), lock_acquire_time: 0 }
    }

    /// Adds time spent waiting for the lock of the recorder.
    pub fn add_lock_wait(&mut self, nanos: u128)
        requires
            old(self).lock_wait() + nanos <= u128::MAX,
        ensures
            final(self).lock_wait() == old(self).lock_wait() + nanos,
            final(self).records() == old(self).records(),
            final(self).use_order() == old(self).use_order(),
            final(self).capacity() == old(self).capacity(),
            final(self).wf() == old(self).wf(),
    {
        self.lock_acquire_time = self.lock_acquire_time + nanos;
    }

    /// Records an event of a block. A record that the event completes is
    /// reported and leaves the recorder.
    pub fn record_event(&mut self, hash: &H256, event: Event) -> (r: RecordOutcome)
        requires
            old(self).wf(),
        ensures
            final(self).wf(),
            final(self).capacity() == old(self).capacity(),
            final(self).lock_wait() == old(self).lock_wait(),
            event_step(
                old(self).records(),
                old(self).use_order(),
                final(self).records(),
                final(self).use_order(),
                hash.0,
                event,
                r,
            ),
    {
        if !lru_contains(&self.records, &hash.0) {
            return RecordOutcome::UnknownHash;
        }
        let mut record = match lru_remove(&mut self.records, &hash.0) {
            Some(r) => r,
            None => {
                proof {
                    assert(false);
                }
                return RecordOutcome::UnknownHash;
            },
        };
        let ghost a = record;
        let completed = record.record_event(event);
        proof {
            assert(event_recorded(a, record, event));
            lemma_matches_remove(old(self).use_order(), old(self).records(), hash.0);
            lemma_order_len(old(self).use_order(), old(self).records());
            lemma_order_len(self.use_order(), self.records());
            lemma_without(old(self).use_order(), hash.0);
            assert(old(self).use_order().contains(hash.0));
        }
        if completed {
            let line = record.log_line(hash);
            proof {
                assert(event_recorded(old(self).records()[hash.0], record, event));
            }
            RecordOutcome::Completed(line)
        } else {
            let ghost removed = self.records();
            let ghost ro = self.use_order();
            let _ = lru_insert(&mut self.records, hash.0, record);
            proof {
                lemma_matches_push(ro, removed, hash.0, record);
                lemma_order_len(self.use_order(), self.records());
                assert(self.records() =~= old(self).records().insert(hash.0, record));
                assert(event_recorded(old(self).records()[hash.0], record, event));
            }
            RecordOutcome::Recorded
        }
    }
}

/// `b` is `a` with the custom event recorded: it happened, at some tick if
/// not before, in its place in the order; nothing else changed.
pub open spec fn custom_event_recorded(a: BlockRecord, b: BlockRecord, name: Seq<char>, stage: usize) -> bool {
    &&& b.wf()
    &&& b.events() == a.events()
    &&& b.start_timestamp() == a.start_timestamp()
    &&& b.hash_ready() == a.hash_ready()
    &&& (exists|j: int| 0 <= j < a.customs().len() && a.customs()[j].0 == name && a.customs()[j].1 == stage)
        ==> b.customs() == a.customs()
    &&& !(exists|j: int|
        0 <= j < a.customs().len() && a.customs()[j].0 == name && a.customs()[j].1 == stage)
        ==> exists|p: int, t: u64|
        0 <= p <= a.customs().len() && b.customs() == a.customs().insert(p, (name, stage, t))
}

impl Recorder {
    /// Records a custom event of a block; `false` where no record of the
    /// block is held.
    pub fn record_custom_event(&mut self, hash: &H256, name: &'static str, stage: usize) -> (r:
        bool)
        requires
            old(self).wf(),
        ensures
            final(self).wf(),
            final(self).capacity() == old(self).capacity(),
            final(self).lock_wait() == old(self).lock_wait(),
            r == old(self).records().contains_key(hash.0),
            !r ==> final(self).records() == old(self).records() && final(self).use_order() == old(
                self,
            ).use_order(),
            r ==> exists|b: BlockRecord|
                #[trigger] custom_event_recorded(old(self).records()[hash.0], b, name@, stage)
                    && final(self).records() == old(self).records().insert(hash.0, b),
            r ==> final(self).use_order() == without(old(self).use_order(), hash.0).push(hash.0),
    {
        if !lru_contains(&self.records, &hash.0) {
            return false;
        }
        let mut record = match lru_remove(&mut self.records, &hash.0) {
            Some(r) => r,
            None => {
                proof {
                    assert(false);
                }
                return false;
            },
        };
        let ghost a = record;
        let _ = record.record_custom_event(name, stage);
        let ghost removed = self.records();
        let ghost ro = self.use_order();
        proof {
            assert(custom_event_recorded(a, record, name@, stage));
            lemma_matches_remove(old(self).use_order(), old(self).records(), hash.0);
            lemma_order_len(old(self).use_order(), old(self).records());
            lemma_order_len(ro, removed);
            lemma_without(old(self).use_order(), hash.0);
            assert(old(self).use_order().contains(hash.0));
        }
        let _ = lru_insert(&mut self.records, hash.0, record);
        proof {
            lemma_matches_push(ro, removed, hash.0, record);
            lemma_order_len(self.use_order(), self.records());
            assert(self.records() =~= old(self).records().insert(hash.0, record));
        }
        true
    }

    /// Starts the record of a block, unless one is held already. In a full
    /// recorder, the least recently used record is dropped. Returns the
    /// report lines of the records that expired (none, as records here do not
    /// expire).
    pub fn insert_new_block(&mut self, hash: &H256, record: BlockRecord) -> (r: Vec<String>)
        requires
            old(self).wf(),
            record.wf(),
        ensures
            final(self).wf(),
            final(self).capacity() == old(self).capacity(),
            final(self).lock_wait() == old(self).lock_wait(),
            old(self).records().contains_key(hash.0) ==> final(self).records() == old(
                self,
            ).records() && final(self).use_order() == old(self).use_order(),
            !old(self).records().contains_key(hash.0) && old(self).records().len() < old(
                self,
            ).capacity() ==> final(self).records() == old(self).records().insert(hash.0, record)
                && final(self).use_order() == old(self).use_order().push(hash.0),
            !old(self).records().contains_key(hash.0) && old(self).records().len() == old(
                self,
            ).capacity() ==> final(self).records() == old(self).records().remove(
                old(self).use_order()[0],
            ).insert(hash.0, record) && final(self).use_order() == old(
                self,
            ).use_order().drop_first().push(hash.0) && final(self).records().len() == old(
                self,
            ).capacity(),
            !old(self).records().contains_key(hash.0) ==> {
                &&& final(self).records().contains_key(hash.0)
                &&& final(self).records()[hash.0] == record
                &&& forall|j: BlockHash| #[trigger]
                    final(self).records().contains_key(j) && j != hash.0 ==> old(
                        self,
                    ).records().contains_key(j) && final(self).records()[j] == old(
                        self,
                    ).records()[j]
                &&& old(self).records().len() < old(self).capacity() ==> final(self).records()
                    == old(self).records().insert(hash.0, record)
            },
            r@.len() == 0,
    {
        if lru_contains(&self.records, &hash.0) {
            return Vec::new();
        }
        proof {
            lemma_order_len(old(self).use_order(), old(self).records());
        }
        let eliminated = lru_insert(&mut self.records, hash.0, record);
        proof {
            if old(self).records().len() < old(self).capacity() {
                lemma_matches_push(old(self).use_order(), old(self).records(), hash.0, record);
            } else {
                lemma_matches_evict(old(self).use_order(), old(self).records(), hash.0, record);
            }
            lemma_order_len(self.use_order(), self.records());
        }
        Self::process_eliminated_items(eliminated)
    }

    /// The report lines of records that left the recorder.
    fn process_eliminated_items(items: Vec<(BlockHash, BlockRecord)>) -> (r: Vec<String>)
        requires
            forall|i: int| 0 <= i < items@.len() ==> (#[trigger] items@[i]).1.wf(),
        ensures
            r@.len() == items@.len(),
            forall|i: int|
                0 <= i < items@.len() ==> (#[trigger] r@[i])@ == spec_log_line(
                    items@[i].0@,
                    items@[i].1,
                ),
    {
        let mut lines: Vec<String> = Vec::new();
        let mut i: usize = 0;
        while i < items.len()
            invariant
                i <= items@.len(),
                lines@.len() == i,
                forall|j: int| 0 <= j < items@.len() ==> (#[trigger] items@[j]).1.wf(),
                forall|j: int|
                    0 <= j < i ==> (#[trigger] lines@[j])@ == spec_log_line(
                        items@[j].0@,
                        items@[j].1,
                    ),
            decreases items@.len() - i,
        {
            let hash = H256(items[i].0);
            lines.push(items[i].1.log_line(&hash));
            i = i + 1;
        }
        lines
    }

    /// Drops all records and resets the lock wait time. Returns the lock wait
    /// time before.
    pub fn clear(&mut self) -> (r: u128)
        requires
            old(self).wf(),
        ensures
            final(self).wf(),
            final(self).records() == no_records(),
            final(self).use_order() == Seq::<BlockHash>::empty(),
            final(self).capacity() == old(self).capacity(),
            final(self).lock_wait() == 0,
            r == old(self).lock_wait(),
    {
        let waited = self.lock_acquire_time;
        lru_clear(&mut self.records);
        self.lock_acquire_time = 0;
        waited
    }
}

/// The statistics line of a recorder: its lock wait time.
pub open spec fn spec_statistics_line(lock_wait: u128) -> Seq<char> {
    "Recorder statistics. recorder_lock_wait: "@ + spec_decimal(lock_wait as nat)
}

/// The block of one of the first `i` hashes is `k`.
pub open spec fn seen_before(hashes: Seq<H256>, i: int, k: BlockHash) -> bool {
    exists|j: int| 0 <= j < i && (#[trigger] hashes[j]).0 == k
}

/// The event completes the record `a`.
pub open spec fn completes(a: BlockRecord, event: Event) -> bool {
    a.events().dom().insert(spec_event_index(event)).len() == 8
}

/// `o` is what recording `event` for the `j`-th block came to, `old` being
/// the records before the first block: unknown for a block not held, or held
/// and completed by the event at an earlier occurrence; completed, with the
/// report line, at the first occurrence of a block that the event completes;
/// recorded otherwise.
pub open spec fn outcome_at(
    old: Map<BlockHash, BlockRecord>,
    hashes: Seq<H256>,
    j: int,
    event: Event,
    o: RecordOutcome,
) -> bool {
    let h = hashes[j].0;
    if !old.contains_key(h) || (seen_before(hashes, j, h) && completes(old[h], event)) {
        o is UnknownHash
    } else if !completes(old[h], event) {
        o is Recorded
    } else {
        exists|b: BlockRecord|
            #[trigger] event_recorded(old[h], b, event) && (o matches RecordOutcome::Completed(
                line,
            ) && line@ == spec_log_line(h@, b))
    }
}

/// `cur` is what the records `old` become after the event is recorded for
/// the first `i` blocks: a record recorded for leaves when the event
/// completes it and has the event otherwise; the others are unchanged.
pub open spec fn after_blocks(
    old: Map<BlockHash, BlockRecord>,
    cur: Map<BlockHash, BlockRecord>,
    hashes: Seq<H256>,
    i: int,
    event: Event,
) -> bool {
    &&& forall|k: BlockHash| #[trigger] cur.contains_key(k) ==> old.contains_key(k)
    &&& forall|k: BlockHash|
        #[trigger] old.contains_key(k) && !seen_before(hashes, i, k) ==> cur.contains_key(k)
            && cur[k] == old[k]
    &&& forall|k: BlockHash|
        #[trigger] old.contains_key(k) && seen_before(hashes, i, k) ==> (cur.contains_key(k)
            <==> !completes(old[k], event)) && (cur.contains_key(k) ==> event_recorded(
            old[k],
            cur[k],
            event,
        ))
}

proof fn lemma_event_recorded_twice(a: BlockRecord, b: BlockRecord, c: BlockRecord, event: Event)
    requires
        event_recorded(a, b, event),
        event_recorded(b, c, event),
    ensures
        event_recorded(a, c, event),
{
    assert(c.events().dom() =~= a.events().dom().insert(spec_event_index(event)));
    assert forall|k: u8| #[trigger] a.events().contains_key(k) implies c.events()[k] == a.events()[k] by {
        assert(b.events().contains_key(k));
    }
}

proof fn lemma_seen_before_next(hashes: Seq<H256>, i: int, k: BlockHash)
    requires
        0 <= i < hashes.len(),
    ensures
        seen_before(hashes, i + 1, k) == (seen_before(hashes, i, k) || hashes[i].0 == k),
{
    if seen_before(hashes, i + 1, k) && hashes[i].0 != k {
        let j = choose|j: int| 0 <= j < i + 1 && (#[trigger] hashes[j]).0 == k;
        assert(j < i);
    }
    if seen_before(hashes, i, k) {
        let j = choose|j: int| 0 <= j < i && (#[trigger] hashes[j]).0 == k;
        assert(0 <= j < i + 1 && hashes[j].0 == k);
    }
    if hashes[i].0 == k {
        assert(0 <= i < i + 1 && hashes[i].0 == k);
    }
}

/// The `i`-th block is held when its turn comes: it was held before the
/// first block, and the event did not complete it at an earlier turn.
pub open spec fn held_at(old: Map<BlockHash, BlockRecord>, hashes: Seq<H256>, i: int, event: Event) -> bool {
    let h = hashes[i].0;
    old.contains_key(h) && !(seen_before(hashes, i, h) && completes(old[h], event))
}

/// The use order after the event is recorded for the `i`-th block: a block
/// not held leaves it as it is; a completed record leaves it; a recorded one
/// becomes the most recently used.
pub open spec fn order_step(
    o: Seq<BlockHash>,
    old: Map<BlockHash, BlockRecord>,
    hashes: Seq<H256>,
    i: int,
    event: Event,
) -> Seq<BlockHash> {
    let h = hashes[i].0;
    if !held_at(old, hashes, i, event) {
        o
    } else if completes(old[h], event) {
        without(o, h)
    } else {
        without(o, h).push(h)
    }
}

/// The use order after the event is recorded for the first `n` blocks.
pub open spec fn order_after_events(
    o: Seq<BlockHash>,
    old: Map<BlockHash, BlockRecord>,
    hashes: Seq<H256>,
    n: nat,
    event: Event,
) -> Seq<BlockHash>
    decreases n,
{
    if n == 0 {
        o
    } else {
        order_step(
            order_after_events(o, old, hashes, (n - 1) as nat, event),
            old,
            hashes,
            n - 1,
            event,
        )
    }
}

/// Recording an event for several blocks is recording it for each in turn:
/// a step of `Recorder::record_event` (`event_step`) for the next block,
/// from the records and use order after the blocks before it, comes to the
/// outcome, the records and the use order that `record_event_for_blocks`
/// states for the blocks up to that one.
pub proof fn lemma_events_in_turn(
    start_order: Seq<BlockHash>,
    start: Map<BlockHash, BlockRecord>,
    hashes: Seq<H256>,
    i: nat,
    event: Event,
    before: Map<BlockHash, BlockRecord>,
    bo: Seq<BlockHash>,
    m2: Map<BlockHash, BlockRecord>,
    o2: Seq<BlockHash>,
    out: RecordOutcome,
)
    requires
        i < hashes.len(),
        after_blocks(start, before, hashes, i as int, event),
        bo == order_after_events(start_order, start, hashes, i, event),
        event_step(before, bo, m2, o2, hashes[i as int].0, event, out),
    ensures
        after_blocks(start, m2, hashes, i + 1int, event),
        o2 == order_after_events(start_order, start, hashes, i + 1, event),
        outcome_at(start, hashes, i as int, event, out),
{
    let h = hashes[i as int].0;
    let cur = m2;
    assert forall|k: BlockHash| #[trigger] start.contains_key(k) implies seen_before(
        hashes,
        i + 1int,
        k,
    ) == (seen_before(hashes, i as int, k) || h == k) by {
        lemma_seen_before_next(hashes, i as int, k);
    }
    lemma_seen_before_next(hashes, i as int, h);
    let co = o2;
    if before.contains_key(h) {
        let b = choose|b: BlockRecord| #[trigger]
            event_recorded(before[h], b, event) && if b.spec_is_complete() {
                &&& cur == before.remove(h)
                &&& co == without(bo, h)
                &&& out matches RecordOutcome::Completed(line) && line@ == spec_log_line(
                    h@,
                    b,
                )
            } else {
                &&& cur == before.insert(h, b)
                &&& co == without(bo, h).push(h)
                &&& out is Recorded
            };
        assert(start.contains_key(h));
        if seen_before(hashes, i as int, h) {
            assert(event_recorded(start[h], before[h], event));
            lemma_event_recorded_twice(start[h], before[h], b, event);
            assert(b.events().dom() =~= start[h].events().dom().insert(
                spec_event_index(event),
            ));
        } else {
            assert(before[h] == start[h]);
        }
        assert(b.spec_is_complete() == completes(start[h], event));
        assert(outcome_at(start, hashes, i as int, event, out));
        assert(held_at(start, hashes, i as int, event));
        assert(co == order_step(bo, start, hashes, i as int, event));
    } else {
        assert(cur == before);
        assert(outcome_at(start, hashes, i as int, event, out));
        assert(!held_at(start, hashes, i as int, event));
        assert(co == order_step(bo, start, hashes, i as int, event));
    }
    assert(after_blocks(start, cur, hashes, i + 1int, event));
}

/// Recording an event for blocks one after another, with each step what
/// `Recorder::record_event` states (`event_step`), from `states[0]` to
/// `states[n]`, comes to the records, the use order and the outcomes that
/// `record_event_for_blocks` states for those `n` blocks.
pub proof fn lemma_events_one_after_another(
    hashes: Seq<H256>,
    event: Event,
    states: Seq<(Map<BlockHash, BlockRecord>, Seq<BlockHash>)>,
    outs: Seq<RecordOutcome>,
    n: nat,
)
    requires
        n <= hashes.len(),
        states.len() == n + 1,
        outs.len() == n,
        forall|j: int|
            0 <= j < n ==> event_step(
                (#[trigger] states[j]).0,
                states[j].1,
                states[j + 1].0,
                states[j + 1].1,
                hashes[j].0,
                event,
                outs[j],
            ),
    ensures
        after_blocks(states[0].0, states[n as int].0, hashes, n as int, event),
        states[n as int].1 == order_after_events(states[0].1, states[0].0, hashes, n, event),
        forall|j: int| 0 <= j < n ==> outcome_at(states[0].0, hashes, j, event, #[trigger] outs[j]),
    decreases n,
{
    if n == 0 {
        let m = states[0].0;
        assert forall|k: BlockHash| #[trigger] m.contains_key(k) && !seen_before(hashes, 0, k)
            implies m.contains_key(k) && m[k] == m[k] by {}
        assert forall|k: BlockHash| #[trigger] m.contains_key(k) && seen_before(hashes, 0, k)
            implies false by {
            let j = choose|j: int| 0 <= j < 0 && (#[trigger] hashes[j]).0 == k;
        }
    } else {
        let k = (n - 1) as nat;
        let sub = states.take(n as int);
        let subo = outs.take(k as int);
        assert forall|j: int| 0 <= j < k implies event_step(
            (#[trigger] sub[j]).0,
            sub[j].1,
            sub[j + 1].0,
            sub[j + 1].1,
            hashes[j].0,
            event,
            subo[j],
        ) by {
            assert(sub[j] == states[j]);
            assert(sub[j + 1] == states[j + 1]);
            assert(subo[j] == outs[j]);
            assert(event_step(
                states[j].0,
                states[j].1,
                states[j + 1].0,
                states[j + 1].1,
                hashes[j].0,
                event,
                outs[j],
            ));
        }
        lemma_events_one_after_another(hashes, event, sub, subo, k);
        assert(sub[0] == states[0]);
        assert(sub[k as int] == states[k as int]);
        assert(event_step(
            states[k as int].0,
            states[k as int].1,
            states[k + 1int].0,
            states[k + 1int].1,
            hashes[k as int].0,
            event,
            outs[k as int],
        ));
        lemma_events_in_turn(
            states[0].1,
            states[0].0,
            hashes,
            k,
            event,
            states[k as int].0,
            states[k as int].1,
            states[k + 1int].0,
            states[k + 1int].1,
            outs[k as int],
        );
        assert forall|j: int| 0 <= j < n implies outcome_at(
            states[0].0,
            hashes,
            j,
            event,
            #[trigger] outs[j],
        ) by {
            if j < k {
                assert(subo[j] == outs[j]);
            }
        }
    }
}

/// Records an event for each of the blocks, in order.
pub fn record_event_for_blocks(recorder: &mut Recorder, hashes: &[H256], event: Event) -> (r: Vec<
    RecordOutcome,
>)
    requires
        old(recorder).wf(),
    ensures
        final(recorder).wf(),
        final(recorder).capacity() == old(recorder).capacity(),
        final(recorder).lock_wait() == old(recorder).lock_wait(),
        r@.len() == hashes@.len(),
        forall|j: int|
            0 <= j < hashes@.len() ==> outcome_at(
                old(recorder).records(),
                hashes@,
                j,
                event,
                #[trigger] r@[j],
            ),
        after_blocks(
            old(recorder).records(),
            final(recorder).records(),
            hashes@,
            hashes@.len() as int,
            event,
        ),
        final(recorder).use_order() == order_after_events(
            old(recorder).use_order(),
            old(recorder).records(),
            hashes@,
            hashes@.len() as nat,
            event,
        ),
{
    let ghost start_order = recorder.use_order();
    let ghost start = recorder.records();
    let mut outcomes: Vec<RecordOutcome> = Vec::new();
    let mut i: usize = 0;
    while i < hashes.len()
        invariant
            i <= hashes@.len(),
            outcomes@.len() == i,
            recorder.wf(),
            recorder.capacity() == old(recorder).capacity(),
            recorder.lock_wait() == old(recorder).lock_wait(),
            start == old(recorder).records(),
            forall|j: int|
                0 <= j < i ==> outcome_at(start, hashes@, j, event, #[trigger] outcomes@[j]),
            after_blocks(start, recorder.records(), hashes@, i as int, event),
            start_order == old(recorder).use_order(),
            recorder.use_order() == order_after_events(start_order, start, hashes@, i as nat, event),
        decreases hashes@.len() - i,
    {
        let ghost bo = recorder.use_order();
        let ghost before = recorder.records();
        let o = recorder.record_event(&hashes[i], event);
        proof {
            lemma_events_in_turn(
                start_order,
                start,
                hashes@,
                i as nat,
                event,
                before,
                bo,
                recorder.records(),
                recorder.use_order(),
                o,
            );
        }
        let ghost prev = outcomes@;
        outcomes.push(o);
        proof {
            assert forall|j: int| 0 <= j < i + 1 implies outcome_at(
                start,
                hashes@,
                j,
                event,
                #[trigger] outcomes@[j],
            ) by {
                if j < i {
                    assert(outcomes@[j] == prev[j]);
                }
            }
        }
        i = i + 1;
    }
    outcomes
}

/// The use order after a block is started: a block held stays where it
/// is; a new one becomes the most recently used, after the least recently
/// used block leaves a full recorder.
pub open spec fn order_after_insert(o: Seq<BlockHash>, h: BlockHash, cap: nat) -> Seq<BlockHash> {
    if o.contains(h) {
        o
    } else if o.len() >= cap {
        o.drop_first().push(h)
    } else {
        o.push(h)
    }
}

/// The use order after the blocks are started, one after another.
pub open spec fn order_after_inserts(o: Seq<BlockHash>, hashes: Seq<H256>, cap: nat) -> Seq<
    BlockHash,
>
    decreases hashes.len(),
{
    if hashes.len() == 0 {
        o
    } else {
        order_after_insert(order_after_inserts(o, hashes.drop_last(), cap), hashes.last().0, cap)
    }
}

/// Starts a record for each block received, in order; returns the report
/// lines of records that expired (none here).
pub fn new_received_block_hashes(recorder: &mut Recorder, hashes: &[H256]) -> (r: Vec<String>)
    requires
        old(recorder).wf(),
    ensures
        final(recorder).wf(),
        final(recorder).capacity() == old(recorder).capacity(),
        final(recorder).lock_wait() == old(recorder).lock_wait(),
        final(recorder).use_order() == order_after_inserts(
            old(recorder).use_order(),
            hashes@,
            old(recorder).capacity() as nat,
        ),
        hashes@.len() > 0 ==> final(recorder).records().contains_key(hashes@.last().0),
        hashes@.len() <= old(recorder).capacity() - old(recorder).records().len() ==> forall|
            k: BlockHash,
        | #[trigger] old(recorder).records().contains_key(k) ==> final(recorder).records().contains_key(k),
        forall|k: BlockHash| #[trigger]
            final(recorder).records().contains_key(k) ==> (old(recorder).records().contains_key(k)
                && final(recorder).records()[k] == old(recorder).records()[k]) || (seen_before(
                hashes@,
                hashes@.len() as int,
                k,
            ) && final(recorder).records()[k].events() == Map::<u8, u64>::empty()
                && final(recorder).records()[k].customs() == Seq::<CustomTick>::empty()),
        r@.len() == 0,
{
    let mut i: usize = 0;
    while i < hashes.len()
        invariant
            i <= hashes@.len(),
            recorder.wf(),
            recorder.capacity() == old(recorder).capacity(),
            recorder.records().len() <= old(recorder).records().len() + i,
            hashes@.len() <= old(recorder).capacity() - old(recorder).records().len() ==> (
            forall|k: BlockHash| #[trigger]
                old(recorder).records().contains_key(k) ==> recorder.records().contains_key(k)),
            hashes@.len() <= old(recorder).capacity() - old(recorder).records().len() ==> (
            forall|j: int|
                0 <= j < i ==> recorder.records().contains_key(#[trigger] hashes@[j].0)),
            recorder.lock_wait() == old(recorder).lock_wait(),
            recorder.use_order() == order_after_inserts(
                old(recorder).use_order(),
                hashes@.take(i as int),
                old(recorder).capacity() as nat,
            ),
            i > 0 ==> recorder.records().contains_key(hashes@[i - 1].0),
            forall|k: BlockHash| #[trigger]
                recorder.records().contains_key(k) ==> (old(recorder).records().contains_key(k)
                    && recorder.records()[k] == old(recorder).records()[k]) || (seen_before(
                    hashes@,
                    i as int,
                    k,
                ) && recorder.records()[k].events() == Map::<u8, u64>::empty()
                    && recorder.records()[k].customs() == Seq::<CustomTick>::empty()),
        decreases hashes@.len() - i,
    {
        let ghost before = recorder.records();
        let ghost bo = recorder.use_order();
        proof {
            recorder.lemma_within_capacity();
            assert(hashes@.take(i + 1).drop_last() =~= hashes@.take(i as int));
            assert(hashes@.take(i + 1).last() == hashes@[i as int]);
        }
        let _ = recorder.insert_new_block(&hashes[i], BlockRecord::new_received_block());
        proof {
            assert(recorder.use_order() == order_after_insert(
                bo,
                hashes@[i as int].0,
                old(recorder).capacity() as nat,
            ));
            assert forall|k: BlockHash| #[trigger] recorder.records().contains_key(k) implies (old(
                recorder,
            ).records().contains_key(k) && recorder.records()[k] == old(recorder).records()[k])
                || (seen_before(hashes@, i + 1, k) && recorder.records()[k].events() == Map::<
                u8,
                u64,
            >::empty() && recorder.records()[k].customs() == Seq::<CustomTick>::empty()) by {
                lemma_seen_before_next(hashes@, i as int, k);
                if k != hashes@[i as int].0 || before.contains_key(k) {
                    assert(before.contains_key(k));
                }
            }
        }
        i = i + 1;
    }
    proof {
        assert(hashes@.take(hashes@.len() as int) =~= hashes@);
    }
    Vec::new()
}

/// Starts the record of a block mined here; returns the report lines of
/// records that expired (none here).
pub fn new_mined_block(recorder: &mut Recorder, hash: &H256) -> (r: Vec<String>)
    requires
        old(recorder).wf(),
    ensures
        final(recorder).wf(),
        final(recorder).capacity() == old(recorder).capacity(),
        final(recorder).lock_wait() == old(recorder).lock_wait(),
        final(recorder).records().contains_key(hash.0),
        old(recorder).records().contains_key(hash.0) ==> final(recorder).records() == old(
            recorder,
        ).records(),
        final(recorder).use_order() == order_after_insert(
            old(recorder).use_order(),
            hash.0,
            old(recorder).capacity() as nat,
        ),
        !old(recorder).records().contains_key(hash.0) && old(recorder).records().len() == old(
            recorder,
        ).capacity() ==> !final(recorder).records().contains_key(old(recorder).use_order()[0])
            && final(recorder).records().len() == old(recorder).capacity(),
        !old(recorder).records().contains_key(hash.0) ==> {
            &&& final(recorder).records()[hash.0].events() == map![0u8 => 0u64, 1u8 => 0u64]
            &&& final(recorder).records()[hash.0].customs() == Seq::<CustomTick>::empty()
            &&& forall|j: BlockHash| #[trigger]
                final(recorder).records().contains_key(j) && j != hash.0 ==> old(
                    recorder,
                ).records().contains_key(j) && final(recorder).records()[j] == old(
                    recorder,
                ).records()[j]
        },
        r@.len() == 0,
{
    proof {
        recorder.lemma_within_capacity();
    }
    let r = recorder.insert_new_block(hash, BlockRecord::new_mined_block());
    proof {
        if !old(recorder).records().contains_key(hash.0) && old(recorder).records().len() == old(
            recorder,
        ).capacity() {
            lemma_without(old(recorder).use_order(), old(recorder).use_order()[0]);
            recorder.lemma_within_capacity();
            assert(old(recorder).use_order()[0] != hash.0);
            assert(!old(recorder).use_order().drop_first().contains(old(recorder).use_order()[0]))
                by {
                let o = old(recorder).use_order();
                if o.drop_first().contains(o[0]) {
                    let i = choose|i: int| 0 <= i < o.drop_first().len() && o.drop_first()[i] == o[0];
                    assert(o[i + 1] == o[0]);
                }
            }
        }
    }
    r
}

/// The report line of the record at the `i`-th place of the use order
/// counted from the most recently used.
pub open spec fn recent_line(order: Seq<BlockHash>, m: Map<BlockHash, BlockRecord>, i: int) -> Seq<
    char,
> {
    let k = order[order.len() - 1 - i];
    spec_log_line(k@, m[k])
}

/// The report lines of all records held, most recently used first.
fn report_lines(recorder: &Recorder) -> (r: Vec<String>)
    requires
        recorder.wf(),
    ensures
        r@.len() == recorder.use_order().len(),
        forall|i: int|
            0 <= i < r@.len() ==> (#[trigger] r@[i])@ == recent_line(
                recorder.use_order(),
                recorder.records(),
                i,
            ),
{
    let entries = lru_entries(&recorder.records);
    let ghost o = recorder.use_order();
    let ghost m = recorder.records();
    let mut lines: Vec<String> = Vec::new();
    let mut i: usize = 0;
    while i < entries.len()
        invariant
            i <= entries@.len(),
            entries@.len() == o.len(),
            o == recorder.use_order(),
            m == recorder.records(),
            recorder.wf(),
            forall|j: int|
                0 <= j < entries@.len() ==> (#[trigger] entries@[j]).0 == o[o.len() - 1 - j]
                    && *entries@[j].1 == m[entries@[j].0],
            lines@.len() == i,
            forall|j: int| 0 <= j < i ==> (#[trigger] lines@[j])@ == recent_line(o, m, j),
        decreases entries@.len() - i,
    {
        let k = entries[i].0;
        proof {
            assert(entries@[i as int].0 == o[o.len() - 1 - i]);
            assert(o.contains(k));
            assert(m.contains_key(k));
        }
        let line = entries[i].1.log_line(&H256(k));
        lines.push(line);
        i = i + 1;
    }
    lines
}

/// The report at shutdown: the report line of every record held, most
/// recently used first, then the statistics line; the recorder is cleared.
pub fn handle_shutdown(recorder: &mut Recorder) -> (r: Vec<String>)
    requires
        old(recorder).wf(),
    ensures
        final(recorder).wf(),
        final(recorder).records() == no_records(),
        final(recorder).use_order() == Seq::<BlockHash>::empty(),
        final(recorder).lock_wait() == 0,
        r@.len() == old(recorder).records().len() + 1,
        forall|i: int|
            0 <= i < r@.len() - 1 ==> (#[trigger] r@[i])@ == recent_line(
                old(recorder).use_order(),
                old(recorder).records(),
                i,
            ),
        r@.last()@ == spec_statistics_line(old(recorder).lock_wait()),
{
    proof {
        recorder.lemma_within_capacity();
    }
    let mut lines = report_lines(recorder);
    let waited = recorder.clear();
    let mut stat = chars_of("Recorder statistics. recorder_lock_wait: ");
    push_decimal_u128(waited, &mut stat);
    let ghost before = lines@;
    lines.push(string_of(stat.as_slice()));
    proof {
        assert(lines@.drop_last() =~= before);
        assert forall|i: int| 0 <= i < lines@.len() - 1 implies (#[trigger] lines@[i])@
            == recent_line(old(recorder).use_order(), old(recorder).records(), i) by {
            assert(lines@[i] == before[i]);
        }
    }
    lines
}

} // verus!
