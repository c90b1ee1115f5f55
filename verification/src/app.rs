//! Statistics and per-iteration logic of the synthetic workload
//! generator. Producers push random payloads; consumers read batches,
//! keep the keys they have pulled but not yet acknowledged in an
//! in-flight list, and acknowledge from it in randomized order. The
//! concurrent harness — spawning workers, drawing random numbers and
//! signalling shutdown — lives outside the library; the bookkeeping of
//! one iteration, and its exact effect on the storage, is here.

use vstd::prelude::*;
use std::collections::VecDeque;
use crate::{Key, Payload};
use crate::memory::Queue;

verus! {

/// What the producers report: how many items and bytes were pushed.
pub struct IngressStats {
    pub total_bytes: u64,
    pub total_items: u64,
}

impl Default for IngressStats {
    /// All counters at zero.
    fn default() -> (r: Self)
        ensures
            r.total_bytes == 0 && r.total_items == 0,
    {
        IngressStats { total_bytes: 0, total_items: 0 }
    }
}

impl IngressStats {
    /// Combines the reports of two producers.
    pub fn add(self, rhs: Self) -> (r: Self)
        requires
            self.total_bytes + rhs.total_bytes <= u64::MAX,
            self.total_items + rhs.total_items <= u64::MAX,
        ensures
            r.total_bytes == self.total_bytes + rhs.total_bytes,
            r.total_items == self.total_items + rhs.total_items,
    {
        IngressStats {
            total_bytes: self.total_bytes + rhs.total_bytes,
            total_items: self.total_items + rhs.total_items,
        }
    }
}

/// What the consumers report: items and bytes read, empty polls, and
/// loop iterations.
pub struct EgressStats {
    pub empty: u64,
    pub total_bytes: u64,
    pub total_items: u64,
    pub loop_iter: u64,
}

impl Default for EgressStats {
    /// All counters at zero.
    fn default() -> (r: Self)
        ensures
            r.empty == 0 && r.total_bytes == 0 && r.total_items == 0 && r.loop_iter == 0,
    {
        EgressStats { empty: 0, total_bytes: 0, total_items: 0, loop_iter: 0 }
    }
}

impl EgressStats {
    /// Combines the reports of two consumers.
    pub fn add(self, rhs: Self) -> (r: Self)
        requires
            self.empty + rhs.empty <= u64::MAX,
            self.total_bytes + rhs.total_bytes <= u64::MAX,
            self.total_items + rhs.total_items <= u64::MAX,
            self.loop_iter + rhs.loop_iter <= u64::MAX,
        ensures
            r.empty == self.empty + rhs.empty,
            r.total_bytes == self.total_bytes + rhs.total_bytes,
            r.total_items == self.total_items + rhs.total_items,
            r.loop_iter == self.loop_iter + rhs.loop_iter,
    {
        EgressStats {
            empty: self.empty + rhs.empty,
            total_bytes: self.total_bytes + rhs.total_bytes,
            total_items: self.total_items + rhs.total_items,
            loop_iter: self.loop_iter + rhs.loop_iter,
        }
    }
}

/// One producer iteration: pushes `payload` to the chosen queue and
/// counts it. The item counter grows by exactly one per push applied, so
/// the ingress statistics of a run count precisely the pushes that were
/// observed by the storage — nothing double counted, nothing lost.
pub fn ingress_step<Q: Queue>(
    queue: &mut Q,
    stats: &mut IngressStats,
    payload: Payload,
) -> (key: Key)
    requires
        old(queue).inv(),
        old(queue).can_push(payload@),
        old(stats).total_items < u64::MAX,
        old(stats).total_bytes + payload@.len() <= u64::MAX,
    ensures
        final(queue).inv(),
        key == old(queue).next_key(),
        key.1 < u64::MAX,
        final(queue).next_key() == Key(key.0, (key.1 + 1) as u64),
        final(queue).visible() == old(queue).visible().push((key, payload@)),
        final(stats).total_items == old(stats).total_items + 1,
        final(stats).total_bytes == old(stats).total_bytes + payload@.len(),
{
    let size = payload.len();
    let key = queue.push(payload);
    stats.total_items = stats.total_items + 1;
    stats.total_bytes = stats.total_bytes + size as u64;
    key
}

/// One consumer iteration on the chosen queue, over an already fetched
/// batch: counts the poll; on a non-empty batch takes its first item
/// into the in-flight list at the caller's chosen position; then, if
/// anything is in flight, acknowledges the most recently listed key.
/// The randomized choices — which queue, which position — are the
/// caller's.
pub fn egress_step<Q: Queue>(
    queue: &mut Q,
    stats: &mut EgressStats,
    batch: &mut VecDeque<(Key, Payload)>,
    inflight: &mut Vec<Key>,
    insert_at: usize,
)
    requires
        old(queue).inv(),
        insert_at <= old(inflight)@.len(),
        old(stats).loop_iter < u64::MAX,
        old(stats).empty < u64::MAX,
        old(stats).total_items < u64::MAX,
        old(batch)@.len() > 0 ==> old(stats).total_bytes + old(batch)@[0].1@.len() <= u64::MAX,
    ensures
        final(queue).inv(),
        final(queue).next_key() == old(queue).next_key(),
        final(stats).loop_iter == old(stats).loop_iter + 1,
        old(batch)@.len() == 0 ==> final(stats).empty == old(stats).empty + 1
            && final(stats).total_items == old(stats).total_items
            && final(stats).total_bytes == old(stats).total_bytes
            && final(batch)@ == old(batch)@,
        old(batch)@.len() > 0 ==> final(stats).empty == old(stats).empty
            && final(stats).total_items == old(stats).total_items + 1
            && final(stats).total_bytes == old(stats).total_bytes + old(batch)@[0].1@.len()
            && final(batch)@ == old(batch)@.drop_first(),
        ({
            let taken = if old(batch)@.len() > 0 {
                old(inflight)@.insert(insert_at as int, old(batch)@[0].0)
            } else {
                old(inflight)@
            };
            &&& (taken.len() == 0 ==> final(inflight)@ == taken
                && *final(queue) == *old(queue))
            &&& (taken.len() > 0 ==> final(inflight)@ == taken.drop_last()
                && Q::remove_rel(*old(queue), taken.last(), *final(queue)))
        }),
{
    stats.loop_iter = stats.loop_iter + 1;
    if batch.len() == 0 {
        stats.empty = stats.empty + 1;
    }
    match batch.pop_front() {
        Some(pair) => {
            stats.total_items = stats.total_items + 1;
            stats.total_bytes = stats.total_bytes + pair.1.len() as u64;
            inflight.insert(insert_at, pair.0);
        },
        None => {},
    }
    match inflight.pop() {
        Some(key) => {
            queue.remove(key);
        },
        None => {},
    }
}

} // verus!
