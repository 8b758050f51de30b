use conflux_utils::block::{dict_item, BlockRecord};
use conflux_utils::event::{CustomEvent, CustomGauge, Event};
use conflux_utils::meter::{msg_name, MessageMeter, MeterRecord};
use conflux_utils::recorder::{
    handle_shutdown, new_mined_block, new_received_block_hashes, record_event_for_blocks,
    RecordOutcome, Recorder,
};
use conflux_utils::types::H256;
use std::cell::RefCell;
use std::sync::atomic::{AtomicU64, Ordering};
use std::sync::Arc;

const ALL_EVENTS: [Event; 8] = [
    Event::HeaderReady,
    Event::BodyReady,
    Event::SyncGraph,
    Event::ConGraph,
    Event::ConGraphDone,
    Event::ComputeEpoch,
    Event::NotifyTxPool,
    Event::TxPoolUpdated,
];

#[test]
fn event_keys() {
    assert_eq!(Event::HeaderReady.key(), "header_ready");
    assert_eq!(Event::ConGraph.key(), "consensys_graph_insert");
    assert_eq!(Event::ConGraphDone.key(), "consensys_graph_ready");
    assert_eq!(Event::TxPoolUpdated.key(), "tx_pool_updated");
    for (i, e) in ALL_EVENTS.iter().enumerate() {
        assert_eq!(e.index() as usize, i);
    }
}

#[test]
fn custom_keys() {
    assert_eq!(CustomEvent::new("verify", 3).key(), "custom_verify_3");
    assert_eq!(CustomEvent::new("", 0).key(), "custom__0");
    assert_eq!(CustomEvent::new("x", 1234567890).key(), "custom_x_1234567890");
    assert_eq!(CustomGauge::new("size").key(), "gauge_size");
}

#[test]
fn dict_item_joins_key_and_value() {
    assert_eq!(dict_item("hash", "0x00"), "hash: 0x00");
}

#[test]
fn block_record_completes_after_all_events() {
    let mut r = BlockRecord::new_mined_block();
    assert!(!r.is_complete());
    assert!(!r.is_complete_for_non_pivot());
    for e in &ALL_EVENTS[2..5] {
        assert!(!r.record_event(*e));
    }
    assert!(r.is_complete_for_non_pivot());
    assert!(!r.record_event(Event::ComputeEpoch));
    assert!(!r.record_event(Event::ComputeEpoch));
    assert!(!r.record_event(Event::NotifyTxPool));
    assert!(r.record_event(Event::TxPoolUpdated));
    assert!(r.is_complete());
}

#[test]
fn mined_block_log_line() {
    let r = BlockRecord::new_mined_block();
    let line = r.log_line(&H256([0xab; 32]));
    let expected_hash = format!("hash: 0x{}", "ab".repeat(32));
    assert!(line.starts_with(&format!("Block events record incomplete. {}, start_timestamp: ", expected_hash)));
    assert!(line.ends_with(", header_ready: 0, body_ready: 0"));
}

#[test]
fn custom_events_are_reported_in_order() {
    let mut r = BlockRecord::new_received_block();
    r.record_custom_event("b", 2);
    r.record_custom_event("a", 5);
    r.record_custom_event("b", 1);
    r.record_custom_event("a", 5);
    let line = r.log_line(&H256([0; 32]));
    let a = line.find("custom_a_5: ").unwrap();
    let b1 = line.find("custom_b_1: ").unwrap();
    let b2 = line.find("custom_b_2: ").unwrap();
    assert!(a < b1 && b1 < b2);
    assert_eq!(line.matches("custom_a_5").count(), 1);
}

#[test]
fn recorder_flow() {
    let mut rec = Recorder::with_capacity(4);
    let h1 = H256([1; 32]);
    let h2 = H256([2; 32]);
    assert!(matches!(rec.record_event(&h1, Event::SyncGraph), RecordOutcome::UnknownHash));
    assert!(!rec.record_custom_event(&h1, "x", 0));
    assert!(new_received_block_hashes(&mut rec, &[h1, h2]).is_empty());
    assert!(rec.record_custom_event(&h1, "x", 0));
    let mut completed = None;
    for e in ALL_EVENTS.iter() {
        match rec.record_event(&h1, *e) {
            RecordOutcome::Completed(line) => completed = Some(line),
            RecordOutcome::Recorded => {}
            RecordOutcome::UnknownHash => panic!("record lost"),
        }
    }
    let line = completed.unwrap();
    assert!(line.starts_with("Block events record complete. "));
    assert!(line.contains("custom_x_0: "));
    assert!(matches!(rec.record_event(&h1, Event::SyncGraph), RecordOutcome::UnknownHash));
    let outcomes = record_event_for_blocks(&mut rec, &[h1, h2], Event::BodyReady);
    assert!(matches!(outcomes[0], RecordOutcome::UnknownHash));
    assert!(matches!(outcomes[1], RecordOutcome::Recorded));
    rec.add_lock_wait(42);
    let lines = handle_shutdown(&mut rec);
    assert_eq!(lines.len(), 2);
    assert!(lines[0].starts_with("Block events record incomplete. hash: 0x0202"));
    assert_eq!(lines[1], "Recorder statistics. recorder_lock_wait: 42");
    assert_eq!(handle_shutdown(&mut rec), vec!["Recorder statistics. recorder_lock_wait: 0".to_string()]);
}

#[test]
fn recorder_drops_least_recently_used() {
    let mut rec = Recorder::with_capacity(2);
    let h = |b: u8| H256([b; 32]);
    new_mined_block(&mut rec, &h(1));
    new_mined_block(&mut rec, &h(2));
    assert!(rec.record_custom_event(&h(1), "touch", 0));
    new_mined_block(&mut rec, &h(3));
    assert!(matches!(rec.record_event(&h(2), Event::SyncGraph), RecordOutcome::UnknownHash));
    assert!(matches!(rec.record_event(&h(1), Event::SyncGraph), RecordOutcome::Recorded));
    assert!(matches!(rec.record_event(&h(3), Event::SyncGraph), RecordOutcome::Recorded));
    assert_eq!(rec.clear(), 0);
}

struct Counter(&'static RefCell<Vec<(String, u64)>>, &'static str);

fn new_log() -> &'static RefCell<Vec<(String, u64)>> {
    Box::leak(Box::new(RefCell::new(Vec::new())))
}

impl MeterRecord for Counter {
    fn record(&self, v: u64) {
        self.0.borrow_mut().push((self.1.to_string(), v));
    }
}

#[test]
fn message_meter_marks_all_and_kind() {
    let log = new_log();
    let meter = MessageMeter::new(move |name| Box::new(Counter(log, name)) as Box<dyn MeterRecord>);
    meter.mark(1, 10);
    meter.mark(36, 5);
    meter.mark(0, 7);
    meter.mark(37, 8);
    let got = log.borrow().clone();
    let expect: Vec<(String, u64)> = vec![
        ("all_msg".into(), 10),
        ("new_block_hashes".into(), 10),
        ("all_msg".into(), 5),
        ("heartbeat".into(), 5),
        ("all_msg".into(), 7),
        ("other_msg".into(), 7),
        ("all_msg".into(), 8),
        ("other_msg".into(), 8),
    ];
    assert_eq!(got, expect);
    assert_eq!(MessageMeter::meter_slot(31), Some(30));
    assert_eq!(msg_name(30), "");
}

#[test]
fn event_keys_are_distinct() {
    let mut keys: Vec<&str> = ALL_EVENTS.iter().map(|e| e.key()).collect();
    keys.sort();
    keys.dedup();
    assert_eq!(keys.len(), 8);
}

#[test]
fn custom_event_keys_are_distinct() {
    assert_eq!(CustomEvent::new("a_1", 2).key(), "custom_a_1_2");
    assert_eq!(CustomEvent::new("a", 12).key(), "custom_a_12");
    assert_ne!(CustomEvent::new("a_1", 2).key(), CustomEvent::new("a", 12).key());
    assert_ne!(CustomEvent::new("a_1", 23).key(), CustomEvent::new("a_12", 3).key());
}

#[test]
fn complete_record_is_complete_for_non_pivot() {
    let mut r = BlockRecord::new_mined_block();
    assert!(!r.is_complete_for_non_pivot());
    for e in ALL_EVENTS.iter() {
        r.record_event(*e);
    }
    assert!(r.is_complete());
    assert!(r.is_complete_for_non_pivot());
}

struct Total(Arc<AtomicU64>);

impl MeterRecord for Total {
    fn record(&self, v: u64) {
        self.0.fetch_add(v, Ordering::SeqCst);
    }
}

#[test]
fn lazy_meter_is_made_on_first_use() {
    let made = Arc::new(AtomicU64::new(0));
    let total = Arc::new(AtomicU64::new(0));
    let (m2, t2) = (made.clone(), total.clone());
    let lazy = once_cell::sync::Lazy::new(move || {
        m2.fetch_add(1, Ordering::SeqCst);
        Total(t2.clone())
    });
    assert_eq!(made.load(Ordering::SeqCst), 0);
    lazy.record(3);
    lazy.record(4);
    assert_eq!(made.load(Ordering::SeqCst), 1);
    assert_eq!(total.load(Ordering::SeqCst), 7);
}

#[test]
fn message_meter_of_one_meter_type() {
    let log = new_log();
    let meter = MessageMeter::new(move |name| Counter(log, name));
    meter.mark(2, 4);
    meter.mark(40, 1);
    let got = log.borrow().clone();
    let expect: Vec<(String, u64)> = vec![
        ("all_msg".into(), 4),
        ("transactions".into(), 4),
        ("all_msg".into(), 1),
        ("other_msg".into(), 1),
    ];
    assert_eq!(got, expect);
}

#[test]
fn full_recorder_drops_exactly_the_least_recently_used() {
    let mut rec = Recorder::with_capacity(3);
    let h = |b: u8| H256([b; 32]);
    new_received_block_hashes(&mut rec, &[h(1), h(2), h(3)]);
    // Recording an event uses a record: 2 becomes the most recently used.
    assert!(matches!(rec.record_event(&h(2), Event::HeaderReady), RecordOutcome::Recorded));
    new_received_block_hashes(&mut rec, &[h(4)]);
    // Only 1, the least recently used, left.
    assert!(matches!(rec.record_event(&h(1), Event::HeaderReady), RecordOutcome::UnknownHash));
    for b in [2u8, 3, 4] {
        assert!(matches!(rec.record_event(&h(b), Event::BodyReady), RecordOutcome::Recorded));
    }
    // Starting a block that is held changes nothing.
    new_received_block_hashes(&mut rec, &[h(3)]);
    let lines = handle_shutdown(&mut rec);
    assert_eq!(lines.len(), 4);
    // Most recently used first: 4, 3, 2.
    assert!(lines[0].contains(&format!("0x{}", "04".repeat(32))));
    assert!(lines[1].contains(&format!("0x{}", "03".repeat(32))));
    assert!(lines[2].contains(&format!("0x{}", "02".repeat(32))));
}

#[test]
fn message_meters_made_on_first_use() {
    let made: &'static RefCell<Vec<&'static str>> = Box::leak(Box::new(RefCell::new(Vec::new())));
    let log = new_log();
    let meter = MessageMeter::new(move |name| {
        made.borrow_mut().push(name);
        Counter(log, name)
    });
    // Making the meters registers none of them.
    assert!(made.borrow().is_empty());
    meter.mark(3, 5);
    meter.mark(3, 1);
    meter.mark(0, 2);
    // Each meter used was made once, at its first record; the others never.
    assert_eq!(*made.borrow(), vec!["all_msg", "get_block_hashes", "other_msg"]);
    let expect: Vec<(String, u64)> = vec![
        ("all_msg".into(), 5),
        ("get_block_hashes".into(), 5),
        ("all_msg".into(), 1),
        ("get_block_hashes".into(), 1),
        ("all_msg".into(), 2),
        ("other_msg".into(), 2),
    ];
    assert_eq!(*log.borrow(), expect);
}
