use std::collections::VecDeque;

use mqtt_storage::Key;
use mqtt_storage::Payload;
use mqtt_storage::app::{EgressStats, IngressStats, egress_step, ingress_step};
use mqtt_storage::memory::{BTreeQueue, Queue, VecQueue};

#[test]
fn ingress_counts_every_push() {
    let mut q0 = VecQueue::default();
    let mut q1 = VecQueue::default();
    let mut stats = IngressStats::default();

    let payloads: [&[u8]; 5] = [b"a", b"bc", b"", b"def", b"gh"];
    let mut pushed: u64 = 0;
    let mut bytes: u64 = 0;
    for (i, payload) in payloads.iter().enumerate() {
        let queue = if i % 2 == 0 { &mut q0 } else { &mut q1 };
        ingress_step(queue, &mut stats, payload.to_vec());
        pushed += 1;
        bytes += payload.len() as u64;
    }

    assert_eq!(stats.total_items, pushed);
    assert_eq!(stats.total_bytes, bytes);
    let observed = q0.batch(100).len() + q1.batch(100).len();
    assert_eq!(observed as u64, pushed, "the counter matches what the storage observed");
}

#[test]
fn ingress_stats_add_sums() {
    let a = IngressStats { total_bytes: 10, total_items: 2 };
    let b = IngressStats { total_bytes: 5, total_items: 3 };
    let sum = a.add(b);
    assert_eq!(sum.total_bytes, 15);
    assert_eq!(sum.total_items, 5);
}

#[test]
fn egress_stats_add_sums() {
    let a = EgressStats { empty: 1, total_bytes: 10, total_items: 2, loop_iter: 4 };
    let b = EgressStats { empty: 2, total_bytes: 1, total_items: 1, loop_iter: 6 };
    let sum = a.add(b);
    assert_eq!(sum.empty, 3);
    assert_eq!(sum.total_bytes, 11);
    assert_eq!(sum.total_items, 3);
    assert_eq!(sum.loop_iter, 10);
}

#[test]
fn egress_step_consumes_and_acknowledges() {
    let mut queue = BTreeQueue::default();
    let mut ingress = IngressStats::default();
    ingress_step(&mut queue, &mut ingress, b"a".to_vec());
    ingress_step(&mut queue, &mut ingress, b"bc".to_vec());

    let mut stats = EgressStats::default();
    let mut batch: VecDeque<(Key, Payload)> = queue.batch(100);
    let mut inflight: Vec<Key> = Vec::new();

    // First iteration: take (0,0) in flight and immediately acknowledge it.
    egress_step(&mut queue, &mut stats, &mut batch, &mut inflight, 0);
    assert_eq!(stats.loop_iter, 1);
    assert_eq!(stats.total_items, 1);
    assert_eq!(stats.total_bytes, 1);
    assert_eq!(stats.empty, 0);
    assert!(inflight.is_empty());
    let left: Vec<(Key, Vec<u8>)> = queue.batch(100).into_iter().collect();
    assert_eq!(left, vec![(Key(0, 1), b"bc".to_vec())]);

    // Second iteration drains the cached batch.
    egress_step(&mut queue, &mut stats, &mut batch, &mut inflight, 0);
    assert_eq!(stats.total_items, 2);
    assert_eq!(stats.total_bytes, 3);
    assert!(batch.is_empty());
    assert_eq!(queue.batch(100).len(), 0);

    // An empty poll is counted as such.
    egress_step(&mut queue, &mut stats, &mut batch, &mut inflight, 0);
    assert_eq!(stats.empty, 1);
    assert_eq!(stats.loop_iter, 3);
    assert_eq!(stats.total_items, 2);
}
