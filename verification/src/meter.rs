//! Metering of peer-to-peer messages: each message is counted on the meter
//! of all messages and on the meter of its own kind.
use vstd::prelude::*;
use once_cell::sync::{Lazy, OnceCell};

verus! {

/// A meter that records values. Users implement it over the metrics of
/// their choice.
pub trait MeterRecord {
    fn record(&self, v: u64);
}

#[verifier::external_type_specification]
#[verifier::external_body]
#[verifier::reject_recursive_types(T)]
#[verifier::reject_recursive_types(F)]
pub struct ExLazy<T, F>(Lazy<T, F>);

/// Trusted: calls `once_cell::sync::Lazy::force`, which makes the value on
/// first use and returns it; nothing is stated of the value.
#[verifier::external_body]
fn lazy_force<T, F: FnOnce() -> T>(l: &Lazy<T, F>) -> &T {
    Lazy::force(l)
}

/// A meter made on first use records on the meter once made.
impl<T: MeterRecord, F: Send + 'static + Fn() -> T> MeterRecord for Lazy<T, F> {
    fn record(&self, v: u64) {
        lazy_force(self).record(v)
    }
}

/// The number of message kinds with a meter of their own.
pub const MSG_KINDS: usize = 36;

/// Meters of different kinds behind one type record as each of them does.
impl MeterRecord for Box<dyn MeterRecord> {
    fn record(&self, v: u64) {
        (**self).record(v)
    }
}

#[verifier::external_type_specification]
#[verifier::external_body]
#[verifier::reject_recursive_types(T)]
pub struct ExOnceCell<T>(OnceCell<T>);

/// Trusted: calls `once_cell::sync::OnceCell::new`, an empty cell.
#[verifier::external_body]
fn once_cell_new<T>() -> OnceCell<T> {
    OnceCell::new()
}

/// Trusted: calls `once_cell::sync::OnceCell::get_or_init`, which runs `g`
/// and keeps its result if the cell is empty, and returns the value held;
/// nothing is stated of the value.
#[verifier::external_body]
fn once_cell_get_or_init<T, G: FnOnce() -> T>(cell: &OnceCell<T>, g: G) -> &T
    requires
        g.requires(()),
{
    cell.get_or_init(g)
}

/// A meter made on first use: `make(name)`, made at the first record and
/// kept.
#[verifier::reject_recursive_types(T)]
pub struct LazyMeter<F: Fn(&'static str) -> T, T> {
    make: F,
    name: &'static str,
    cell: OnceCell<T>,
}

impl<F: Fn(&'static str) -> T, T> LazyMeter<F, T> {
    #[verifier::type_invariant]
    spec fn can_make(self) -> bool {
        forall|n: &'static str| self.make.requires((n,))
    }

    /// The function that makes the meter.
    pub closed spec fn maker(&self) -> F {
        self.make
    }

    /// The name the meter is made with.
    pub closed spec fn meter_name(&self) -> &'static str {
        self.name
    }

    /// A meter to be made with `make(name)` at its first record; `make` is
    /// not called here.
    pub fn new(make: F, name: &'static str) -> (r: Self)
        requires
            forall|n: &'static str| make.requires((n,)),
        ensures
            r.maker() == make,
            r.meter_name() == name,
    {
        LazyMeter { make, name, cell: once_cell_new() }
    }
}

/// A meter made on first use records on the meter once made.
impl<F: Fn(&'static str) -> T, T: MeterRecord> MeterRecord for LazyMeter<F, T> {
    fn record(&self, v: u64) {
        proof {
            use_type_invariant(self);
        }
        let make = &self.make;
        let name = self.name;
        let init = move ||
            requires
                make.requires((name,)),
            { make(name) };
        let meter = once_cell_get_or_init(&self.cell, init);
        meter.record(v)
    }
}

/// The meters of the message kinds: one for all messages, one for each of
/// the known kinds, one for the others.
pub struct MessageMeter<M> {
    all: M,
    other: M,
    inner: [M; 36],
}

/// The meter that a message id is counted on, besides the meter of all
/// messages: ids 1 to 36 have the meter of their kind, `id - 1`; the others
/// share one.
pub open spec fn spec_meter_slot(msg_id: u16) -> Option<usize> {
    if 1 <= msg_id <= MSG_KINDS {
        Some((msg_id - 1) as usize)
    } else {
        None
    }
}

/// The name of the meter of a message kind.
pub open spec fn spec_msg_name(idx: usize) -> Seq<char> {
    if idx == 0 {
        "new_block_hashes"@
    } else if idx == 1 {
        "transactions"@
    } else if idx == 2 {
        "get_block_hashes"@
    } else if idx == 3 {
        "get_block_hashes_response"@
    } else if idx == 4 {
        "get_block_headers"@
    } else if idx == 5 {
        "get_block_headers_response"@
    } else if idx == 6 {
        "get_block_bodies"@
    } else if idx == 7 {
        "get_block_bodies_response"@
    } else if idx == 8 {
        "new_block"@
    } else if idx == 9 {
        "get_terminal_block_hashes_response"@
    } else if idx == 10 {
        "get_terminal_block_hashes"@
    } else if idx == 11 {
        "get_blocks"@
    } else if idx == 12 {
        "get_blocks_response"@
    } else if idx == 13 {
        "get_blocks_with_public_response"@
    } else if idx == 14 {
        "get_cmpct_blocks"@
    } else if idx == 15 {
        "get_cmpct_blocks_response"@
    } else if idx == 16 {
        "get_block_txn"@
    } else if idx == 17 {
        "get_block_txn_response"@
    } else if idx == 18 {
        "dynamic_capability_change"@
    } else if idx == 19 {
        "transaction_digests"@
    } else if idx == 20 {
        "get_transactions"@
    } else if idx == 21 {
        "get_transactions_response"@
    } else if idx == 22 {
        "get_block_hashes_by_epoch"@
    } else if idx == 23 {
        "get_block_header_chain"@
    } else if idx == 24 {
        "get_snapshot_manifest"@
    } else if idx == 25 {
        "get_snapshot_manifest_response"@
    } else if idx == 26 {
        "get_snapshot_chunk"@
    } else if idx == 27 {
        "get_snapshot_chunk_response"@
    } else if idx == 28 {
        "get_transactions_from_tx_hashes"@
    } else if idx == 29 {
        "get_transactions_from_tx_hashes_response"@
    } else if idx == 30 {
        ""@
    } else if idx == 31 {
        "state_sync_candidate_request"@
    } else if idx == 32 {
        "state_sync_candidate_response"@
    } else if idx == 33 {
        "status_v2"@
    } else if idx == 34 {
        "status_v3"@
    } else {
        "heartbeat"@
    }
}

/// The name of the meter of a message kind.
pub fn msg_name(idx: usize) -> (r: &'static str)
    requires
        idx < MSG_KINDS,
    ensures
        r@ == spec_msg_name(idx),
{
    match idx {
        0 => "new_block_hashes",
        1 => "transactions",
        2 => "get_block_hashes",
        3 => "get_block_hashes_response",
        4 => "get_block_headers",
        5 => "get_block_headers_response",
        6 => "get_block_bodies",
        7 => "get_block_bodies_response",
        8 => "new_block",
        9 => "get_terminal_block_hashes_response",
        10 => "get_terminal_block_hashes",
        11 => "get_blocks",
        12 => "get_blocks_response",
        13 => "get_blocks_with_public_response",
        14 => "get_cmpct_blocks",
        15 => "get_cmpct_blocks_response",
        16 => "get_block_txn",
        17 => "get_block_txn_response",
        18 => "dynamic_capability_change",
        19 => "transaction_digests",
        20 => "get_transactions",
        21 => "get_transactions_response",
        22 => "get_block_hashes_by_epoch",
        23 => "get_block_header_chain",
        24 => "get_snapshot_manifest",
        25 => "get_snapshot_manifest_response",
        26 => "get_snapshot_chunk",
        27 => "get_snapshot_chunk_response",
        28 => "get_transactions_from_tx_hashes",
        29 => "get_transactions_from_tx_hashes_response",
        30 => "",
        31 => "state_sync_candidate_request",
        32 => "state_sync_candidate_response",
        33 => "status_v2",
        34 => "status_v3",
        _ => "heartbeat",
    }
}

impl<M: MeterRecord> MessageMeter<M> {
    /// The meter of all messages.
    pub closed spec fn all_meter(&self) -> M {
        self.all
    }

    /// The meter of the messages of no known kind.
    pub closed spec fn other_meter(&self) -> M {
        self.other
    }

    /// The meter of the message kind `i`.
    pub closed spec fn kind_meter(&self, i: int) -> M {
        self.inner@[i]
    }

    /// The meters that a message of id `msg_id` is counted on, in order:
    /// the meter of all messages, then the meter of its kind (see
    /// `meter_slot`), or the meter of the other messages.
    pub fn meters_for(&self, msg_id: u16) -> (r: (&M, &M))
        ensures
            *r.0 == self.all_meter(),
            *r.1 == match spec_meter_slot(msg_id) {
                Some(i) => self.kind_meter(i as int),
                None => self.other_meter(),
            },
    {
        match MessageMeter::<Box<dyn MeterRecord>>::meter_slot(msg_id) {
            Some(i) => (&self.all, &self.inner[i]),
            None => (&self.all, &self.other),
        }
    }

    /// Counts `num` for a message of id `msg_id`: records it on each of the
    /// two meters of `meters_for`, in order.
    pub fn mark(&self, msg_id: u16, num: u64) {
        let (all, kind) = self.meters_for(msg_id);
        all.record(num);
        kind.record(num);
    }
}

impl<F: Copy + Fn(&'static str) -> T, T: MeterRecord> MessageMeter<LazyMeter<F, T>> {
    /// The meters of the message kinds, each to be made with `f` from its
    /// name at its first record: `all_msg`, `other_msg`, then the name of
    /// each message kind in order. `f` is not called here.
    pub fn new(f: F) -> (r: Self)
        requires
            forall|name: &'static str| f.requires((name,)),
        ensures
            r.all_meter().maker() == f && r.all_meter().meter_name() == "all_msg",
            r.other_meter().maker() == f && r.other_meter().meter_name() == "other_msg",
            forall|i: int|
                #![trigger r.kind_meter(i)]
                0 <= i < MSG_KINDS ==> r.kind_meter(i).maker() == f && r.kind_meter(
                    i,
                ).meter_name()@ == spec_msg_name(i as usize),
    {
        let all = LazyMeter::new(f, "all_msg");
        let other = LazyMeter::new(f, "other_msg");
        let inner: [LazyMeter<F, T>; 36] = [
                LazyMeter::new(f, msg_name(0)),
                LazyMeter::new(f, msg_name(1)),
                LazyMeter::new(f, msg_name(2)),
                LazyMeter::new(f, msg_name(3)),
                LazyMeter::new(f, msg_name(4)),
                LazyMeter::new(f, msg_name(5)),
                LazyMeter::new(f, msg_name(6)),
                LazyMeter::new(f, msg_name(7)),
                LazyMeter::new(f, msg_name(8)),
                LazyMeter::new(f, msg_name(9)),
                LazyMeter::new(f, msg_name(10)),
                LazyMeter::new(f, msg_name(11)),
                LazyMeter::new(f, msg_name(12)),
                LazyMeter::new(f, msg_name(13)),
                LazyMeter::new(f, msg_name(14)),
                LazyMeter::new(f, msg_name(15)),
                LazyMeter::new(f, msg_name(16)),
                LazyMeter::new(f, msg_name(17)),
                LazyMeter::new(f, msg_name(18)),
                LazyMeter::new(f, msg_name(19)),
                LazyMeter::new(f, msg_name(20)),
                LazyMeter::new(f, msg_name(21)),
                LazyMeter::new(f, msg_name(22)),
                LazyMeter::new(f, msg_name(23)),
                LazyMeter::new(f, msg_name(24)),
                LazyMeter::new(f, msg_name(25)),
                LazyMeter::new(f, msg_name(26)),
                LazyMeter::new(f, msg_name(27)),
                LazyMeter::new(f, msg_name(28)),
                LazyMeter::new(f, msg_name(29)),
                LazyMeter::new(f, msg_name(30)),
                LazyMeter::new(f, msg_name(31)),
                LazyMeter::new(f, msg_name(32)),
                LazyMeter::new(f, msg_name(33)),
                LazyMeter::new(f, msg_name(34)),
                LazyMeter::new(f, msg_name(35)),
            ];
        MessageMeter { all, other, inner }
    }
}

impl MessageMeter<Box<dyn MeterRecord>> {
    /// The meter of kind `id - 1` for message ids 1 to 36; `None` for the
    /// others.
    pub fn meter_slot(msg_id: u16) -> (r: Option<usize>)
        ensures
            r == spec_meter_slot(msg_id),
    {
        match msg_id.checked_sub(1) {
            Some(i) => if (i as usize) < MSG_KINDS {
                Some(i as usize)
            } else {
                None
            },
            None => None,
        }
    }
}

/// The meter of the messages of id `i + 1` is named after their kind, in the
/// order of the message ids of the peer-to-peer protocol.
pub proof fn lemma_msg_names()
    ensures
        spec_msg_name(0) == "new_block_hashes"@,
        spec_msg_name(1) == "transactions"@,
        spec_msg_name(2) == "get_block_hashes"@,
        spec_msg_name(3) == "get_block_hashes_response"@,
        spec_msg_name(4) == "get_block_headers"@,
        spec_msg_name(5) == "get_block_headers_response"@,
        spec_msg_name(6) == "get_block_bodies"@,
        spec_msg_name(7) == "get_block_bodies_response"@,
        spec_msg_name(8) == "new_block"@,
        spec_msg_name(9) == "get_terminal_block_hashes_response"@,
        spec_msg_name(10) == "get_terminal_block_hashes"@,
        spec_msg_name(11) == "get_blocks"@,
        spec_msg_name(12) == "get_blocks_response"@,
        spec_msg_name(13) == "get_blocks_with_public_response"@,
        spec_msg_name(14) == "get_cmpct_blocks"@,
        spec_msg_name(15) == "get_cmpct_blocks_response"@,
        spec_msg_name(16) == "get_block_txn"@,
        spec_msg_name(17) == "get_block_txn_response"@,
        spec_msg_name(18) == "dynamic_capability_change"@,
        spec_msg_name(19) == "transaction_digests"@,
        spec_msg_name(20) == "get_transactions"@,
        spec_msg_name(21) == "get_transactions_response"@,
        spec_msg_name(22) == "get_block_hashes_by_epoch"@,
        spec_msg_name(23) == "get_block_header_chain"@,
        spec_msg_name(24) == "get_snapshot_manifest"@,
        spec_msg_name(25) == "get_snapshot_manifest_response"@,
        spec_msg_name(26) == "get_snapshot_chunk"@,
        spec_msg_name(27) == "get_snapshot_chunk_response"@,
        spec_msg_name(28) == "get_transactions_from_tx_hashes"@,
        spec_msg_name(29) == "get_transactions_from_tx_hashes_response"@,
        spec_msg_name(30) == ""@,
        spec_msg_name(31) == "state_sync_candidate_request"@,
        spec_msg_name(32) == "state_sync_candidate_response"@,
        spec_msg_name(33) == "status_v2"@,
        spec_msg_name(34) == "status_v3"@,
        spec_msg_name(35) == "heartbeat"@,
{
}

} // verus!
