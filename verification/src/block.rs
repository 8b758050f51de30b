//! The record of the events in the life of one block: when each event first
//! happened, counted from the moment the block's hash became known.
use vstd::prelude::*;
use std::collections::BTreeMap;
use std::time::{Duration, Instant, SystemTime};
use crate::event::{
    spec_custom_event_key, spec_event_index, spec_event_key, CustomEvent, Event,
};
use crate::text::{
    append_chars, chars_of, compare_chars, join, lemma_seq_lt_transitive,
    lemma_seq_lt_trichotomy, push_decimal, push_hex, seq_lt, spec_decimal, spec_hex, spec_join,
    string_of,
};
use crate::types::H256;

verus! {

#[verifier::external_type_specification]
#[verifier::external_body]
pub struct ExInstant(Instant);

/// Trusted: calls `Instant::now`; nothing is stated of the clock.
#[verifier::external_body]
fn instant_now() -> Instant {
    Instant::now()
}

/// Trusted: calls `Instant::elapsed`; nothing is stated of the clock.
#[verifier::external_body]
fn elapsed(since: &Instant) -> Duration {
    since.elapsed()
}

/// Trusted: calls `Duration::as_nanos`; the duration is opaque here, so
/// nothing is stated of the result.
#[verifier::external_body]
fn duration_as_nanos(d: &Duration) -> u128 {
    d.as_nanos()
}

/// Trusted: reads the clock with `SystemTime::now` and formats that moment
/// as `chrono`'s `DateTime<Utc>` does with `{:?}`. The conversion fails only
/// for a moment outside chrono's range of dates (hundreds of thousands of
/// years away), which no reading of the clock is. Nothing is stated of the
/// clock.
#[verifier::external_body]
fn now_utc_debug_string() -> String {
    format!("{:?}", chrono::DateTime::<chrono::Utc>::from(SystemTime::now()))
}

/// A custom event as plain values: its name, its stage and its tick.
pub type CustomTick = (Seq<char>, usize, u64);

/// The order of custom event keys: by name, then by stage.
pub open spec fn key_lt(an: Seq<char>, as_: usize, bn: Seq<char>, bs: usize) -> bool {
    seq_lt(an, bn) || (an == bn && as_ < bs)
}

/// The order of custom events: by name, then by stage.
pub open spec fn custom_lt(a: CustomTick, b: CustomTick) -> bool {
    key_lt(a.0, a.1, b.0, b.1)
}

proof fn lemma_key_lt_transitive(
    an: Seq<char>,
    as_: usize,
    bn: Seq<char>,
    bs: usize,
    cn: Seq<char>,
    cs: usize,
)
    requires
        key_lt(an, as_, bn, bs),
        key_lt(bn, bs, cn, cs),
    ensures
        key_lt(an, as_, cn, cs),
{
    if seq_lt(an, bn) && seq_lt(bn, cn) {
        lemma_seq_lt_transitive(an, bn, cn);
    }
}

proof fn lemma_key_lt_trichotomy(an: Seq<char>, as_: usize, bn: Seq<char>, bs: usize)
    ensures
        key_lt(an, as_, bn, bs) || (an == bn && as_ == bs) || key_lt(bn, bs, an, as_),
        !(key_lt(an, as_, bn, bs) && key_lt(bn, bs, an, as_)),
        !(key_lt(an, as_, bn, bs) && an == bn && as_ == bs),
{
    lemma_seq_lt_trichotomy(an, bn);
}

/// Custom events in strictly increasing order, so each occurs once.
pub open spec fn customs_sorted(cs: Seq<CustomTick>) -> bool {
    forall|i: int, j: int| 0 <= i < j < cs.len() ==> custom_lt(#[trigger] cs[i], #[trigger] cs[j])
}

/// The event at a position of the order of the stages.
pub open spec fn event_of_index(k: u8) -> Event {
    if k == 0 {
        Event::HeaderReady
    } else if k == 1 {
        Event::BodyReady
    } else if k == 2 {
        Event::SyncGraph
    } else if k == 3 {
        Event::ConGraph
    } else if k == 4 {
        Event::ConGraphDone
    } else if k == 5 {
        Event::ComputeEpoch
    } else if k == 6 {
        Event::NotifyTxPool
    } else {
        Event::TxPoolUpdated
    }
}

fn event_at(k: u8) -> (e: Event)
    requires
        k < 8,
    ensures
        e == event_of_index(k),
{
    match k {
        0 => Event::HeaderReady,
        1 => Event::BodyReady,
        2 => Event::SyncGraph,
        3 => Event::ConGraph,
        4 => Event::ConGraphDone,
        5 => Event::ComputeEpoch,
        6 => Event::NotifyTxPool,
        _ => Event::TxPoolUpdated,
    }
}

/// The record of one block.
pub struct BlockRecord {
    hash_ready_instant: Instant,
    start_timestamp: String,
    event_ticks: BTreeMap<u8, u64>,
    custom_event_ticks: Vec<(CustomEvent, u64)>,
}

impl BlockRecord {
    /// The tick of each event that happened, by its position in the order of
    /// the stages.
    pub closed spec fn events(&self) -> Map<u8, u64> {
        self.event_ticks@
    }

    /// The custom events that happened, in order, with their ticks.
    pub closed spec fn customs(&self) -> Seq<CustomTick> {
        self.custom_event_ticks@.map_values(|e: (CustomEvent, u64)| (e.0.0@, e.0.1, e.1))
    }

    /// The instant the block's hash became known: the origin of the ticks.
    pub closed spec fn hash_ready(&self) -> Instant {
        self.hash_ready_instant
    }

    /// The moment the block's hash became known, as `chrono` writes it.
    pub closed spec fn start_timestamp(&self) -> Seq<char> {
        self.start_timestamp@
    }

    /// Events are among the eight kinds; custom events are ordered.
    pub open spec fn wf(&self) -> bool {
        &&& forall|k: u8| #[trigger] self.events().contains_key(k) ==> k < 8
        &&& customs_sorted(self.customs())
    }

    /// All eight events happened.
    pub open spec fn spec_is_complete(&self) -> bool {
        self.events().dom().len() == 8
    }

    /// All events up to the end of the consensus graph insertion happened.
    pub open spec fn spec_is_complete_for_non_pivot(&self) -> bool {
        forall|k: u8| k <= 4 ==> #[trigger] self.events().contains_key(k)
    }

    fn with_ticks(ticks: BTreeMap<u8, u64>) -> (r: Self)
        ensures
            r.events() == ticks@,
            r.customs() == Seq::<CustomTick>::empty(),
    {
        let start_timestamp = now_utc_debug_string();
        let hash_ready_instant = instant_now();
        let r = BlockRecord {
            hash_ready_instant,
            start_timestamp,
            event_ticks: ticks,
            custom_event_ticks: Vec::new(),
        };
        proof {
            assert(r.customs() =~= Seq::<CustomTick>::empty());
        }
        r
    }

    /// A record of a block received from the network: no event yet.
    pub fn new_received_block() -> (r: Self)
        ensures
            r.wf(),
            r.events() == Map::<u8, u64>::empty(),
            r.customs() == Seq::<CustomTick>::empty(),
    {
        Self::with_ticks(BTreeMap::new())
    }

    /// A record of a block mined here: header and body ready at tick 0.
    pub fn new_mined_block() -> (r: Self)
        ensures
            r.wf(),
            r.events() == map![0u8 => 0u64, 1u8 => 0u64],
            r.customs() == Seq::<CustomTick>::empty(),
    {
        broadcast use vstd::std_specs::btree::group_btree_axioms;

        let mut ticks: BTreeMap<u8, u64> = BTreeMap::new();
        ticks.insert(0u8, 0u64);
        ticks.insert(1u8, 0u64);
        proof {
            assert(ticks@ =~= map![0u8 => 0u64, 1u8 => 0u64]);
        }
        Self::with_ticks(ticks)
    }

    /// Whether all eight events happened.
    pub fn is_complete(&self) -> (r: bool)
        requires
            self.wf(),
        ensures
            r == self.spec_is_complete(),
    {
        broadcast use vstd::std_specs::btree::group_btree_axioms;

        self.event_ticks.len() == 8
    }

    /// Whether all events up to the end of the consensus graph insertion
    /// happened.
    pub fn is_complete_for_non_pivot(&self) -> (r: bool)
        requires
            self.wf(),
        ensures
            r == self.spec_is_complete_for_non_pivot(),
    {
        broadcast use vstd::std_specs::btree::group_btree_axioms;

        let mut k: u8 = 0;
        while k <= 4
            invariant
                k <= 5,
                forall|j: u8| j < k ==> #[trigger] self.events().contains_key(j),
            decreases 5 - k,
        {
            if !self.event_ticks.contains_key(&k) {
                assert(!self.events().contains_key(k));
                return false;
            }
            k = k + 1;
        }
        true
    }

    /// Records the first occurrence of an event: an event that already
    /// happened keeps its tick. Returns whether all eight events happened.
    pub fn record_event(&mut self, event: Event) -> (r: bool)
        requires
            old(self).wf(),
        ensures
            final(self).wf(),
            final(self).events().dom() == old(self).events().dom().insert(
                crate::event::spec_event_index(event),
            ),
            forall|k: u8| #[trigger]
                old(self).events().contains_key(k) ==> final(self).events()[k] == old(
                    self,
                ).events()[k],
            final(self).customs() == old(self).customs(),
            final(self).start_timestamp() == old(self).start_timestamp(),
            final(self).hash_ready() == old(self).hash_ready(),
            r == final(self).spec_is_complete(),
    {
        broadcast use vstd::std_specs::btree::group_btree_axioms;

        let k = event.index();
        if !self.event_ticks.contains_key(&k) {
            let d = elapsed(&self.hash_ready_instant);
            let nanos = duration_as_nanos(&d);
            self.event_ticks.insert(k, nanos as u64);
        }
        proof {
            assert(self.events().dom() =~= old(self).events().dom().insert(k));
        }
        self.is_complete()
    }
}

/// A record is complete for a block off the pivot chain exactly when the
/// header, the body, the sync graph insertion, the consensus graph
/// insertion and its end all happened; the later events do not count.
pub proof fn lemma_complete_for_non_pivot_events(r: BlockRecord)
    ensures
        r.spec_is_complete_for_non_pivot() <==> {
            &&& r.events().contains_key(spec_event_index(Event::HeaderReady))
            &&& r.events().contains_key(spec_event_index(Event::BodyReady))
            &&& r.events().contains_key(spec_event_index(Event::SyncGraph))
            &&& r.events().contains_key(spec_event_index(Event::ConGraph))
            &&& r.events().contains_key(spec_event_index(Event::ConGraphDone))
        },
        spec_event_index(Event::HeaderReady) < spec_event_index(Event::BodyReady)
            < spec_event_index(Event::SyncGraph) < spec_event_index(Event::ConGraph)
            < spec_event_index(Event::ConGraphDone) < spec_event_index(Event::ComputeEpoch)
            < spec_event_index(Event::NotifyTxPool) < spec_event_index(Event::TxPoolUpdated),
        r.wf() && !r.events().contains_key(spec_event_index(Event::ConGraphDone)) ==> spec_status(r)
            == "incomplete"@,
{
    if r.wf() && !r.events().contains_key(4) && r.spec_is_complete() {
        lemma_complete_is_complete_for_non_pivot(r);
    }
    if r.events().contains_key(0) && r.events().contains_key(1) && r.events().contains_key(2)
        && r.events().contains_key(3) && r.events().contains_key(4) {
        assert forall|k: u8| k <= 4 implies #[trigger] r.events().contains_key(k) by {
            if k == 0 {
            } else if k == 1 {
            } else if k == 2 {
            } else if k == 3 {
            } else {
            }
        }
    }
}

/// A record in which all eight events happened is also complete for a block
/// off the pivot chain: its status is never "partially complete" then.
pub proof fn lemma_complete_is_complete_for_non_pivot(r: BlockRecord)
    requires
        r.wf(),
        r.spec_is_complete(),
    ensures
        r.spec_is_complete_for_non_pivot(),
{
    broadcast use vstd::set::group_set_axioms;

    let full = set![0u8, 1u8, 2u8, 3u8, 4u8, 5u8, 6u8, 7u8];
    let dom = r.events().dom();
    vstd::std_specs::btree::axiom_btree_map_view_finite_dom(r.event_ticks);
    assert(dom.subset_of(full)) by {
        assert forall|k: u8| dom.contains(k) implies full.contains(k) by {
            assert(r.events().contains_key(k));
            assert(k < 8);
        }
    }
    assert(full.len() == 8);
    vstd::set_lib::lemma_subset_equality(dom, full);
    assert forall|k: u8| k <= 4 implies #[trigger] r.events().contains_key(k) by {
        assert(full.contains(k));
    }
}

impl BlockRecord {
    /// Records the first occurrence of a custom event: one that already
    /// happened keeps its tick, a new one takes its place in the order of
    /// custom events. Returns whether all eight events happened.
    pub fn record_custom_event(&mut self, name: &'static str, stage: usize) -> (r: bool)
        requires
            old(self).wf(),
        ensures
            final(self).wf(),
            final(self).events() == old(self).events(),
            final(self).start_timestamp() == old(self).start_timestamp(),
            final(self).hash_ready() == old(self).hash_ready(),
            (exists|j: int|
                0 <= j < old(self).customs().len() && old(self).customs()[j].0 == name@ && old(
                    self,
                ).customs()[j].1 == stage) ==> final(self).customs() == old(self).customs(),
            !(exists|j: int|
                0 <= j < old(self).customs().len() && old(self).customs()[j].0 == name@ && old(
                    self,
                ).customs()[j].1 == stage) ==> exists|p: int, t: u64|
                0 <= p <= old(self).customs().len() && final(self).customs() == old(
                    self,
                ).customs().insert(p, (name@, stage, t)),
            r == final(self).spec_is_complete(),
    {
        let key = chars_of(name);
        let ghost cs = self.customs();
        let mut i: usize = 0;
        let n = self.custom_event_ticks.len();
        loop
            invariant
                i <= n,
                n == self.custom_event_ticks@.len(),
                cs == self.customs(),
                self == old(self),
                old(self).wf(),
                key@ == name@,
                forall|j: int| 0 <= j < i ==> key_lt(cs[j].0, cs[j].1, name@, stage),
            ensures
                i <= n,
                self == old(self),
                forall|j: int| 0 <= j < i ==> key_lt(cs[j].0, cs[j].1, name@, stage),
                i < n ==> key_lt(name@, stage, cs[i as int].0, cs[i as int].1),
            decreases n - i,
        {
            if i == n {
                break;
            }
            let e = self.custom_event_ticks[i].0;
            let en = chars_of(e.0);
            let c = compare_chars(en.as_slice(), key.as_slice());
            proof {
                assert(cs[i as int].0 == e.0@);
                assert(cs[i as int].1 == e.1);
            }
            if c == 0 && e.1 == stage {
                proof {
                    assert(cs[i as int].0 == name@ && cs[i as int].1 == stage);
                }
                return self.is_complete();
            }
            if c == 1 || (c == 0 && e.1 > stage) {
                break;
            }
            i = i + 1;
        }
        proof {
            assert forall|j: int| 0 <= j < cs.len() implies !(cs[j].0 == name@ && cs[j].1
                == stage) by {
                if j < i {
                    lemma_key_lt_trichotomy(cs[j].0, cs[j].1, name@, stage);
                } else {
                    lemma_key_lt_trichotomy(cs[i as int].0, cs[i as int].1, name@, stage);
                    if j > i {
                        assert(custom_lt(cs[i as int], cs[j]));
                        if cs[j].0 == name@ && cs[j].1 == stage {
                            lemma_key_lt_trichotomy(
                                cs[i as int].0,
                                cs[i as int].1,
                                cs[j].0,
                                cs[j].1,
                            );
                        }
                    }
                }
            }
        }
        let d = elapsed(&self.hash_ready_instant);
        let nanos = duration_as_nanos(&d);
        let t = #[verifier::truncate] (nanos as u64);
        self.custom_event_ticks.insert(i, (CustomEvent::new(name, stage), t));
        proof {
            let ncs = self.customs();
            assert(ncs =~= cs.insert(i as int, (name@, stage, t)));
            assert forall|a: int, b: int| 0 <= a < b < ncs.len() implies custom_lt(
                #[trigger] ncs[a],
                #[trigger] ncs[b],
            ) by {
                if b < i {
                    assert(ncs[a] == cs[a] && ncs[b] == cs[b]);
                } else if a > i {
                    assert(ncs[a] == cs[a - 1] && ncs[b] == cs[b - 1]);
                } else if a == i {
                    assert(ncs[b] == cs[b - 1]);
                    lemma_key_lt_trichotomy(cs[i as int].0, cs[i as int].1, name@, stage);
                    if b - 1 > i {
                        assert(custom_lt(cs[i as int], cs[b - 1]));
                        assert(key_lt(name@, stage, cs[i as int].0, cs[i as int].1));
                        lemma_key_lt_transitive(
                            name@,
                            stage,
                            cs[i as int].0,
                            cs[i as int].1,
                            cs[b - 1].0,
                            cs[b - 1].1,
                        );
                    }
                } else if b == i {
                    assert(ncs[a] == cs[a]);
                } else {
                    assert(ncs[a] == cs[a] && ncs[b] == cs[b - 1]);
                    assert(a < i && i < b);
                    assert(key_lt(cs[a].0, cs[a].1, name@, stage));
                    if b - 1 > a {
                        assert(custom_lt(cs[a], cs[b - 1]));
                    }
                }
            }
            assert(customs_sorted(self.customs()));
            assert(self.events() == old(self).events());
            assert(forall|k: u8| #[trigger] self.events().contains_key(k) ==> k < 8);
        }
        self.is_complete()
    }
}

/// A report item: `key: value`.
pub open spec fn dict_entry(key: Seq<char>, value: Seq<char>) -> Seq<char> {
    key + seq![':', ' '] + value
}

/// The report items of the events among the first `n` kinds that happened,
/// in the order of the stages.
pub open spec fn event_items(m: Map<u8, u64>, n: nat) -> Seq<Seq<char>>
    decreases n,
{
    if n == 0 {
        Seq::empty()
    } else {
        let k = (n - 1) as u8;
        event_items(m, (n - 1) as nat) + if m.contains_key(k) {
            seq![dict_entry(spec_event_key(event_of_index(k)), spec_decimal(m[k] as nat))]
        } else {
            Seq::empty()
        }
    }
}

/// The report items of the custom events, in their order.
pub open spec fn custom_items(cs: Seq<CustomTick>) -> Seq<Seq<char>> {
    cs.map_values(|c: CustomTick| dict_entry(spec_custom_event_key(c.0, c.1), spec_decimal(c.2 as nat)))
}

/// How complete a record is, in words.
pub open spec fn spec_status(r: BlockRecord) -> Seq<char> {
    if r.spec_is_complete() {
        "complete"@
    } else if r.spec_is_complete_for_non_pivot() {
        "partially complete"@
    } else {
        "incomplete"@
    }
}

/// The report line of the record of the block with hash `hash`.
pub open spec fn spec_log_line(hash: Seq<u8>, r: BlockRecord) -> Seq<char> {
    "Block events record "@ + spec_status(r) + ". "@ + spec_join(
        seq![
            dict_entry("hash"@, "0x"@ + spec_hex(hash)),
            dict_entry("start_timestamp"@, r.start_timestamp()),
        ] + event_items(r.events(), 8) + custom_items(r.customs()),
        ", "@,
    )
}

fn dict_chars(key: Vec<char>, value: &[char]) -> (r: Vec<char>)
    ensures
        r@ == dict_entry(key@, value@),
{
    let mut r = key;
    r.push(':');
    r.push(' ');
    append_chars(&mut r, value);
    proof {
        assert(r@ =~= dict_entry(key@, value@));
    }
    r
}

/// A report item `key: value`, where `value_debug` is the value as `{:?}`
/// writes it.
pub fn dict_item(key: &str, value_debug: &str) -> (r: String)
    ensures
        r@ == dict_entry(key@, value_debug@),
{
    let k = chars_of(key);
    let v = chars_of(value_debug);
    let r = dict_chars(k, v.as_slice());
    string_of(r.as_slice())
}

impl BlockRecord {
    /// The report line of the record of the block with hash `hash`.
    pub fn log_line(&self, hash: &H256) -> (r: String)
        requires
            self.wf(),
        ensures
            r@ == spec_log_line(hash.0@, *self),
    {
        broadcast use vstd::std_specs::btree::group_btree_axioms;

        let mut items: Vec<Vec<char>> = Vec::new();
        let mut hv = chars_of("0x");
        push_hex(hash.0.as_slice(), &mut hv);
        items.push(dict_chars(chars_of("hash"), hv.as_slice()));
        let ts = chars_of(self.start_timestamp.as_str());
        items.push(dict_chars(chars_of("start_timestamp"), ts.as_slice()));
        let ghost head = items@.map_values(|p: Vec<char>| p@);
        proof {
            assert(head =~= seq![
                dict_entry("hash"@, "0x"@ + spec_hex(hash.0@)),
                dict_entry("start_timestamp"@, self.start_timestamp()),
            ]);
            assert(event_items(self.events(), 0) =~= Seq::<Seq<char>>::empty());
        }
        let mut k: u8 = 0;
        while k < 8
            invariant
                k <= 8,
                items@.map_values(|p: Vec<char>| p@) == head + event_items(
                    self.events(),
                    k as nat,
                ),
            decreases 8 - k,
        {
            let ghost before = items@.map_values(|p: Vec<char>| p@);
            match self.event_ticks.get(&k) {
                Some(v) => {
                    let key = chars_of(event_at(k).key());
                    let mut value: Vec<char> = Vec::new();
                    push_decimal(*v, &mut value);
                    items.push(dict_chars(key, value.as_slice()));
                    proof {
                        assert(self.events().contains_key(k) && self.events()[k] == *v);
                        assert(items@.map_values(|p: Vec<char>| p@) =~= before.push(
                            dict_entry(spec_event_key(event_of_index(k)), spec_decimal(*v as nat)),
                        ));
                    }
                },
                None => {
                    proof {
                        assert(!self.events().contains_key(k));
                    }
                },
            }
            proof {
                assert(((k + 1) - 1) as u8 == k);
                assert(items@.map_values(|p: Vec<char>| p@) =~= head + event_items(
                    self.events(),
                    (k + 1) as nat,
                ));
            }
            k = k + 1;
        }
        let ghost mid = items@.map_values(|p: Vec<char>| p@);
        let mut i: usize = 0;
        proof {
            assert(custom_items(self.customs().take(0)) =~= Seq::<Seq<char>>::empty());
        }
        while i < self.custom_event_ticks.len()
            invariant
                i <= self.custom_event_ticks@.len(),
                items@.map_values(|p: Vec<char>| p@) == mid + custom_items(
                    self.customs().take(i as int),
                ),
            decreases self.custom_event_ticks@.len() - i,
        {
            let ghost before = items@.map_values(|p: Vec<char>| p@);
            let (e, t) = self.custom_event_ticks[i];
            let key_string = e.key();
            let key = chars_of(key_string.as_str());
            let mut value: Vec<char> = Vec::new();
            push_decimal(t, &mut value);
            items.push(dict_chars(key, value.as_slice()));
            proof {
                let c = self.customs()[i as int];
                assert(c == (e.0@, e.1, t));
                assert(self.customs().take(i + 1) =~= self.customs().take(i as int).push(c));
                assert(items@.map_values(|p: Vec<char>| p@) =~= before.push(
                    dict_entry(spec_custom_event_key(c.0, c.1), spec_decimal(c.2 as nat)),
                ));
                assert(custom_items(self.customs().take(i + 1)) =~= custom_items(
                    self.customs().take(i as int),
                ).push(dict_entry(spec_custom_event_key(c.0, c.1), spec_decimal(c.2 as nat))));
            }
            i = i + 1;
        }
        proof {
            assert(self.customs().take(self.custom_event_ticks@.len() as int) =~= self.customs());
        }
        let sep = chars_of(", ");
        let joined = join(&items, sep.as_slice());
        let complete = self.is_complete();
        let partial = self.is_complete_for_non_pivot();
        let status = if complete {
            chars_of("complete")
        } else if partial {
            chars_of("partially complete")
        } else {
            chars_of("incomplete")
        };
        let mut line = chars_of("Block events record ");
        append_chars(&mut line, status.as_slice());
        let dot = chars_of(". ");
        append_chars(&mut line, dot.as_slice());
        append_chars(&mut line, joined.as_slice());
        string_of(line.as_slice())
    }
}

} // verus!
