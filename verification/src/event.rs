//! The events in the life of a block that are recorded, and the keys under
//! which they are reported.
use vstd::prelude::*;
use crate::text::{
    append_chars, chars_of, decimal, is_digit, lemma_decimal, spec_decimal, string_of,
};

verus! {

/// A stage in the processing of a block, in the order in which the stages
/// happen.
#[derive(Clone, Copy, Debug, PartialEq, Eq, Structural, PartialOrd, Ord)]
pub enum Event {
    HeaderReady,
    BodyReady,
    SyncGraph,
    ConGraph,
    ConGraphDone,
    ComputeEpoch,
    NotifyTxPool,
    TxPoolUpdated,
}

/// The number of kinds of events.
pub const EVENT_COUNT: u8 = 8;

/// The position of an event in the order of the stages.
pub open spec fn spec_event_index(e: Event) -> u8 {
    match e {
        Event::HeaderReady => 0,
        Event::BodyReady => 1,
        Event::SyncGraph => 2,
        Event::ConGraph => 3,
        Event::ConGraphDone => 4,
        Event::ComputeEpoch => 5,
        Event::NotifyTxPool => 6,
        Event::TxPoolUpdated => 7,
    }
}

/// The report key of an event.
pub open spec fn spec_event_key(e: Event) -> Seq<char> {
    match e {
        Event::HeaderReady => "header_ready"@,
        Event::BodyReady => "body_ready"@,
        Event::SyncGraph => "sync_graph"@,
        Event::ConGraph => "consensys_graph_insert"@,
        Event::ConGraphDone => "consensys_graph_ready"@,
        Event::ComputeEpoch => "compute_epoch"@,
        Event::NotifyTxPool => "notify_tx_pool"@,
        Event::TxPoolUpdated => "tx_pool_updated"@,
    }
}

impl Event {
    /// The report key of the event.
    pub fn key(&self) -> (r: &'static str)
        ensures
            r@ == spec_event_key(*self),
    {
        match self {
            Event::HeaderReady => "header_ready",
            Event::BodyReady => "body_ready",
            Event::SyncGraph => "sync_graph",
            Event::ConGraph => "consensys_graph_insert",
            Event::ConGraphDone => "consensys_graph_ready",
            Event::ComputeEpoch => "compute_epoch",
            Event::NotifyTxPool => "notify_tx_pool",
            Event::TxPoolUpdated => "tx_pool_updated",
        }
    }

    /// The position of the event in the order of the stages.
    pub fn index(&self) -> (r: u8)
        ensures
            r == spec_event_index(*self),
            r < EVENT_COUNT,
    {
        match self {
            Event::HeaderReady => 0,
            Event::BodyReady => 1,
            Event::SyncGraph => 2,
            Event::ConGraph => 3,
            Event::ConGraphDone => 4,
            Event::ComputeEpoch => 5,
            Event::NotifyTxPool => 6,
            Event::TxPoolUpdated => 7,
        }
    }
}

/// A named event of a custom stage.
#[derive(Clone, Copy, Debug, PartialEq, Eq, PartialOrd, Ord)]
pub struct CustomEvent(pub &'static str, pub usize);

/// The report key of a custom event: `custom_<name>_<stage>`.
pub open spec fn spec_custom_event_key(name: Seq<char>, stage: usize) -> Seq<char> {
    seq!['c', 'u', 's', 't', 'o', 'm', '_'] + name + seq!['_'] + spec_decimal(stage as nat)
}

impl CustomEvent {
    pub fn new(name: &'static str, stage: usize) -> (r: Self)
        ensures
            r.0 == name,
            r.1 == stage,
    {
        CustomEvent(name, stage)
    }

    /// The report key of the custom event.
    pub fn key(&self) -> (r: String)
        ensures
            r@ == spec_custom_event_key(self.0@, self.1),
    {
        let mut out = vec!['c', 'u', 's', 't', 'o', 'm', '_'];
        let name = chars_of(self.0);
        append_chars(&mut out, name.as_slice());
        out.push('_');
        let stage = decimal(self.1 as u64);
        append_chars(&mut out, stage.as_slice());
        proof {
            assert(out@ =~= spec_custom_event_key(self.0@, self.1));
        }
        string_of(out.as_slice())
    }
}

/// A named gauge.
#[derive(Clone, Copy, Debug, PartialEq, Eq, PartialOrd, Ord)]
pub struct CustomGauge(pub &'static str);

/// The report key of a gauge: `gauge_<name>`.
pub open spec fn spec_custom_gauge_key(name: Seq<char>) -> Seq<char> {
    seq!['g', 'a', 'u', 'g', 'e', '_'] + name
}

impl CustomGauge {
    pub fn new(name: &'static str) -> (r: Self)
        ensures
            r.0 == name,
    {
        CustomGauge(name)
    }

    /// The report key of the gauge.
    pub fn key(&self) -> (r: String)
        ensures
            r@ == spec_custom_gauge_key(self.0@),
    {
        let mut out = vec!['g', 'a', 'u', 'g', 'e', '_'];
        let name = chars_of(self.0);
        append_chars(&mut out, name.as_slice());
        string_of(out.as_slice())
    }
}

/// Distinct events are reported under distinct keys.
pub proof fn lemma_event_keys_distinct(a: Event, b: Event)
    requires
        a != b,
    ensures
        spec_event_key(a) != spec_event_key(b),
{
    reveal_strlit("header_ready");
    reveal_strlit("body_ready");
    reveal_strlit("sync_graph");
    reveal_strlit("consensys_graph_insert");
    reveal_strlit("consensys_graph_ready");
    reveal_strlit("compute_epoch");
    reveal_strlit("notify_tx_pool");
    reveal_strlit("tx_pool_updated");
    if spec_event_key(a).len() == spec_event_key(b).len() {
        assert(spec_event_key(a)[0] != spec_event_key(b)[0] || spec_event_key(a)[19] != spec_event_key(
            b,
        )[19]);
    }
}

/// Distinct custom events are reported under distinct keys: the key ends
/// with the stage, after the last underscore.
pub proof fn lemma_custom_event_keys_distinct(n1: Seq<char>, s1: usize, n2: Seq<char>, s2: usize)
    requires
        spec_custom_event_key(n1, s1) == spec_custom_event_key(n2, s2),
    ensures
        n1 == n2,
        s1 == s2,
{
    let d1 = spec_decimal(s1 as nat);
    let d2 = spec_decimal(s2 as nat);
    lemma_decimal(s1 as nat);
    lemma_decimal(s2 as nat);
    let k = spec_custom_event_key(n1, s1);
    let k2 = spec_custom_event_key(n2, s2);
    let l = k.len() as int;
    assert(k[l - d1.len() - 1] == '_');
    assert(k2[l - d2.len() - 1] == '_');
    if d1.len() < d2.len() {
        let i = l - d1.len() - 1;
        assert(k2[i] == d2[i - (l - d2.len())]);
        assert(is_digit(d2[i - (l - d2.len())]));
        assert(false);
    } else if d2.len() < d1.len() {
        let i = l - d2.len() - 1;
        assert(k[i] == d1[i - (l - d1.len())]);
        assert(is_digit(d1[i - (l - d1.len())]));
        assert(false);
    }
    assert(d1 =~= k.subrange(l - d1.len(), l));
    assert(d2 =~= k2.subrange(l - d2.len(), l));
    assert(n1 =~= k.subrange(7, 7 + n1.len() as int));
    assert(n2 =~= k2.subrange(7, 7 + n2.len() as int));
}

/// The report key of each event, in the order of the stages.
pub proof fn lemma_event_keys()
    ensures
        spec_event_key(Event::HeaderReady) == "header_ready"@,
        spec_event_key(Event::BodyReady) == "body_ready"@,
        spec_event_key(Event::SyncGraph) == "sync_graph"@,
        spec_event_key(Event::ConGraph) == "consensys_graph_insert"@,
        spec_event_key(Event::ConGraphDone) == "consensys_graph_ready"@,
        spec_event_key(Event::ComputeEpoch) == "compute_epoch"@,
        spec_event_key(Event::NotifyTxPool) == "notify_tx_pool"@,
        spec_event_key(Event::TxPoolUpdated) == "tx_pool_updated"@,
{
}

} // verus!
