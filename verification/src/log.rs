//! The append-only-log queue variant. The physical log supports only
//! appending at the tail, discarding its head, and iterating from the
//! head, yet keys may be acknowledged in any order. A sorted list of
//! pending acknowledgments tracks the offsets that are acked but not yet
//! contiguous with the oldest physically present record; the head is
//! discarded exactly when the run of acked offsets starting at the head
//! closes.

use vstd::prelude::*;
use vstd::assert_seqs_equal;
use std::collections::VecDeque;
use crate::{Key, Payload};
use crate::memory::{pairs_view, min_int};
use crate::memory::Queue as _;
use crate::Storage as _;

verus! {

#[verifier::external_type_specification]
#[verifier::external_body]
pub struct ExQueueFile(queue_file::QueueFile);

/// The records the physical log holds, head first.
pub uninterp spec fn log_records(q: queue_file::QueueFile) -> Seq<Seq<u8>>;

/// Relies on queue_file::QueueFile::add: appends one record at the tail
/// of the log; an I/O failure aborts, as storage faults are fatal here.
#[verifier::external_body]
fn log_append(q: &mut queue_file::QueueFile, data: &[u8])
    requires
        log_records(*old(q)).len() + 1 < 0x7fffffff,
        data@.len() < 0x7fffffff,
    ensures
        log_records(*final(q)) == log_records(*old(q)).push(data@),
{
    q.add(data).unwrap();
}

/// Relies on queue_file::QueueFile::remove: discards the oldest record;
/// an I/O failure aborts, as storage faults are fatal here.
#[verifier::external_body]
fn log_discard_head(q: &mut queue_file::QueueFile)
    requires
        log_records(*old(q)).len() > 0,
    ensures
        log_records(*final(q)) == log_records(*old(q)).drop_first(),
{
    q.remove().unwrap();
}

/// Relies on queue_file::QueueFile::iter, which yields the records from
/// head to tail, and on size, the record count. The iterator swallows a
/// read failure by ending early; that would shorten the result, so it is
/// checked against the count and aborts — storage faults are fatal here.
#[verifier::external_body]
fn log_head_records(q: &queue_file::QueueFile, count: usize) -> (r: Vec<Vec<u8>>)
    ensures
        r@.map_values(|v: Vec<u8>| v@) == log_records(*q).take(
            min_int(count as int, log_records(*q).len() as int),
        ),
{
    let r: Vec<Vec<u8>> = q.iter().take(count).collect();
    let want = count.min(q.size());
    (r.len() == want).then_some(r).unwrap()
}

/// `p` with `v` placed at its sorted position; already-present values are
/// not duplicated.
pub open spec fn sorted_insert(p: Seq<u64>, v: u64) -> Seq<u64>
    decreases p.len(),
{
    if p.len() == 0 {
        seq![v]
    } else if v < p[0] {
        seq![v] + p
    } else if v == p[0] {
        p
    } else {
        seq![p[0]] + sorted_insert(p.drop_first(), v)
    }
}

/// How many leading entries of the sorted pending list form a contiguous
/// run starting exactly at `start`: the number of head records that may
/// be physically discarded.
pub open spec fn drain_count(p: Seq<u64>, start: int) -> int
    decreases p.len(),
{
    if p.len() > 0 && p[0] == start {
        1 + drain_count(p.drop_first(), start + 1)
    } else {
        0
    }
}

/// Strictly ascending entries.
pub open spec fn strictly_sorted(p: Seq<u64>) -> bool {
    forall|i: int, j: int| 0 <= i < j < p.len() ==> p[i] < p[j]
}

/// The drain never runs past the pending list.
proof fn lemma_drain_count_bound(p: Seq<u64>, start: int)
    ensures
        0 <= drain_count(p, start) <= p.len(),
    decreases p.len(),
{
    if p.len() > 0 && p[0] == start {
        lemma_drain_count_bound(p.drop_first(), start + 1);
    }
}

/// A pending list whose first entry is not `start` drains nothing.
proof fn lemma_drain_count_zero(p: Seq<u64>, start: int)
    requires
        p.len() == 0 || p[0] != start,
    ensures
        drain_count(p, start) == 0,
{
}

/// A queue whose head advanced by `d` steps while its log dropped `d`
/// head records sees exactly the old visible records past `d`.
proof fn lemma_visible_is_skip(pre: Queue, post: Queue, d: int)
    requires
        0 <= d <= log_records(pre.file).len(),
        post.last_key == pre.last_key,
        post.oldest.1 == pre.oldest.1 + d,
        log_records(post.file) == log_records(pre.file).skip(d),
    ensures
        post.visible() == pre.visible().skip(d),
{
    assert forall|i: int| 0 <= i < post.visible().len()
        implies post.visible()[i] == pre.visible().skip(d)[i] by {
        assert(pre.visible().skip(d)[i] == pre.visible()[d + i]);
        assert(log_records(post.file)[i] == log_records(pre.file).skip(d)[i]);
        assert(log_records(pre.file).skip(d)[i] == log_records(pre.file)[d + i]);
    }
    assert(post.visible() =~= pre.visible().skip(d));
}

/// Skipping one more element is dropping the front of the skip.
proof fn lemma_skip_one_more<T>(s: Seq<T>, k: int)
    requires
        0 <= k < s.len(),
    ensures
        s.skip(k).remove(0) == s.skip(k + 1),
        s.skip(k).drop_first() == s.skip(k + 1),
{
    assert_seqs_equal!(s.skip(k).remove(0), s.skip(k + 1));
    assert_seqs_equal!(s.skip(k).drop_first(), s.skip(k + 1));
}

/// Inserting at the right position splices the value in.
proof fn lemma_sorted_insert_at(p: Seq<u64>, v: u64, pos: int)
    requires
        strictly_sorted(p),
        0 <= pos <= p.len(),
        forall|i: int| 0 <= i < pos ==> p[i] < v,
        pos < p.len() ==> p[pos] > v,
    ensures
        sorted_insert(p, v) == p.take(pos) + seq![v] + p.skip(pos),
    decreases p.len(),
{
    if p.len() == 0 {
        assert_seqs_equal!(sorted_insert(p, v), p.take(pos) + seq![v] + p.skip(pos));
    } else if pos == 0 {
        assert(v < p[0]);
        assert_seqs_equal!(sorted_insert(p, v), p.take(pos) + seq![v] + p.skip(pos));
    } else {
        assert(p[0] < v);
        let rest = p.drop_first();
        assert(forall|i: int| 0 <= i < rest.len() ==> rest[i] == p[i + 1]);
        lemma_sorted_insert_at(rest, v, pos - 1);
        assert_seqs_equal!(
            seq![p[0]] + (rest.take(pos - 1) + seq![v] + rest.skip(pos - 1)),
            p.take(pos) + seq![v] + p.skip(pos)
        );
    }
}

/// A single queue on an append-only log: `push` appends, `batch` reads
/// from the head with synthetic keys, and `remove` tracks out-of-order
/// acknowledgments, discarding head records only when every earlier
/// offset is acknowledged too.
pub struct Queue {
    file: queue_file::QueueFile,
    last_key: Key,
    oldest: Key,
    to_remove: Vec<u64>,
}

impl Queue {
    /// The offset of the oldest record still physically present.
    pub closed spec fn oldest_unacked(&self) -> u64 {
        self.oldest.1
    }

    /// The acknowledged offsets that are waiting for earlier holes to
    /// close.
    pub closed spec fn pending(&self) -> Seq<u64> {
        self.to_remove@
    }

    /// Wraps a freshly created, still empty log.
    pub fn new(file: queue_file::QueueFile) -> (q: Queue)
        requires
            log_records(file) == Seq::<Seq<u8>>::empty(),
        ensures
            q.inv(),
            q.next_key() == Key(0u16, 0u64),
            q.oldest_unacked() == 0,
            q.pending() == Seq::<u64>::empty(),
            q.visible() == Seq::<(Key, Seq<u8>)>::empty(),
    {
        let q = Queue { file, last_key: Key(0, 0), oldest: Key(0, 0), to_remove: Vec::new() };
        proof {
            assert_seqs_equal!(q.visible(), Seq::<(Key, Seq<u8>)>::empty());
            assert_seqs_equal!(q.pending(), Seq::<u64>::empty());
        }
        q
    }

    /// The offset of the oldest record still physically present.
    pub fn oldest_offset(&self) -> (r: u64)
        ensures
            r == self.oldest_unacked(),
    {
        self.oldest.1
    }

    /// Appends `item` to the log and returns its freshly assigned key.
    /// Beyond the queue contract, a push touches no acknowledgment
    /// state: the head offset and the pending list stay as they were.
    pub fn push(&mut self, item: Payload) -> (key: Key)
        requires
            old(self).inv(),
            old(self).can_push(item@),
        ensures
            final(self).inv(),
            key == old(self).next_key(),
            key.1 < u64::MAX,
            final(self).next_key() == Key(key.0, (key.1 + 1) as u64),
            final(self).visible() == old(self).visible().push((key, item@)),
            final(self).oldest_unacked() == old(self).oldest_unacked(),
            final(self).pending() == old(self).pending(),
    {
        let current = self.last_key;
        log_append(&mut self.file, item.as_slice());
        self.last_key = Key(current.0, current.1 + 1);
        proof {
            assert_seqs_equal!(
                self.visible(),
                old(self).visible().push((current, item@))
            );
        }
        current
    }
}

impl crate::memory::Queue for Queue {
    closed spec fn inv(&self) -> bool {
        &&& self.last_key.0 == 0
        &&& self.oldest.0 == 0
        &&& self.oldest.1 <= self.last_key.1
        &&& log_records(self.file).len() == self.last_key.1 - self.oldest.1
        &&& strictly_sorted(self.to_remove@)
        &&& forall|i: int| 0 <= i < self.to_remove@.len()
            ==> self.oldest.1 < #[trigger] self.to_remove@[i] < self.last_key.1
    }

    closed spec fn next_key(&self) -> Key {
        self.last_key
    }

    closed spec fn visible(&self) -> Seq<(Key, Seq<u8>)> {
        Seq::new(
            log_records(self.file).len(),
            |i: int| (Key(0u16, (self.oldest.1 + i) as u64), log_records(self.file)[i]),
        )
    }

    closed spec fn can_push(&self, item: Seq<u8>) -> bool {
        &&& self.last_key.1 < u64::MAX
        &&& item.len() < 0x7fffffff
        &&& self.last_key.1 - self.oldest.1 + 1 < 0x7fffffff
    }

    open spec fn remove_rel(pre: Self, key: Key, post: Self) -> bool {
        let in_range = key.0 == 0 && pre.oldest_unacked() <= key.1 < pre.next_key().1;
        let p1 = if in_range {
            sorted_insert(pre.pending(), key.1)
        } else {
            pre.pending()
        };
        let d = drain_count(p1, pre.oldest_unacked() as int);
        &&& post.next_key() == pre.next_key()
        &&& post.oldest_unacked() == pre.oldest_unacked() + d
        &&& post.pending() == p1.skip(d)
        &&& post.visible() == pre.visible().skip(d)
    }

    fn push(&mut self, item: Payload) -> (key: Key) {
        self.push(item)
    }

    fn remove(&mut self, key: Key) {
        let ghost pre = *self;
        if key.0 != 0 || key.1 < self.oldest.1 || key.1 >= self.last_key.1 {
            proof {
                lemma_drain_count_zero(pre.to_remove@, pre.oldest.1 as int);
                assert_seqs_equal!(pre.to_remove@.skip(0), pre.to_remove@);
                assert_seqs_equal!(pre.visible().skip(0), pre.visible());
            }
            return;
        }
        let mut pos: usize = 0;
        while pos < self.to_remove.len() && self.to_remove[pos] < key.1
            invariant
                *self == pre,
                pre == *old(self),
                pos <= self.to_remove@.len(),
                forall|i: int| 0 <= i < pos ==> self.to_remove@[i] < key.1,
            decreases self.to_remove@.len() - pos,
        {
            pos = pos + 1;
        }
        if pos < self.to_remove.len() {
            let at_pos = self.to_remove[pos];
            if at_pos == key.1 {
                proof {
                    assert(sorted_insert(pre.to_remove@, key.1) == pre.to_remove@) by {
                        lemma_sorted_insert_noop(pre.to_remove@, key.1, pos as int);
                    }
                    lemma_drain_count_zero(pre.to_remove@, pre.oldest.1 as int);
                    assert_seqs_equal!(pre.to_remove@.skip(0), pre.to_remove@);
                    assert_seqs_equal!(pre.visible().skip(0), pre.visible());
                }
                return;
            }
        }
        self.to_remove.insert(pos, key.1);
        let ghost p1 = sorted_insert(pre.to_remove@, key.1);
        proof {
            lemma_sorted_insert_at(pre.to_remove@, key.1, pos as int);
            assert_seqs_equal!(
                self.to_remove@,
                pre.to_remove@.take(pos as int) + seq![key.1] + pre.to_remove@.skip(pos as int)
            );
            assert(self.to_remove@ == p1);
        }
        let ghost o0 = pre.oldest.1 as int;
        let ghost log0 = log_records(pre.file);
        let ghost d_total = drain_count(p1, o0);
        proof {
            lemma_drain_count_bound(p1, o0);
            assert(strictly_sorted(p1));
            assert(forall|i: int| 0 <= i < p1.len() ==> o0 <= #[trigger] p1[i] < pre.last_key.1);
        }
        while self.to_remove.len() > 0 && self.to_remove[0] == self.oldest.1
            invariant
                self.last_key == pre.last_key,
                o0 <= self.oldest.1 <= pre.last_key.1,
                self.oldest.0 == 0,
                self.last_key.0 == 0,
                0 <= self.oldest.1 - o0 <= p1.len(),
                self.to_remove@ == p1.skip(self.oldest.1 - o0),
                log_records(self.file) == log0.skip(self.oldest.1 - o0),
                log0.len() == pre.last_key.1 - o0,
                log_records(self.file).len() == self.last_key.1 - self.oldest.1,
                strictly_sorted(self.to_remove@),
                forall|i: int| 0 <= i < self.to_remove@.len()
                    ==> self.oldest.1 <= #[trigger] self.to_remove@[i] < self.last_key.1,
                d_total == self.oldest.1 - o0 + drain_count(self.to_remove@, self.oldest.1 as int),
            decreases self.to_remove@.len(),
        {
            let ghost snap = *self;
            proof {
                assert(self.to_remove@[0] < self.last_key.1);
                assert(log_records(self.file).len() > 0);
            }
            log_discard_head(&mut self.file);
            self.oldest = Key(0, self.oldest.1 + 1);
            self.to_remove.remove(0);
            proof {
                let k = snap.oldest.1 - o0;
                assert(0 <= k < p1.len()) by {
                    assert(snap.to_remove@.len() > 0);
                    assert(snap.to_remove@ == p1.skip(k));
                }
                assert(k < log0.len());
                lemma_skip_one_more(p1, k);
                lemma_skip_one_more(log0, k);
                assert(self.to_remove@ == snap.to_remove@.remove(0));
                assert(self.to_remove@ == p1.skip(k + 1));
                assert(log_records(self.file) == log0.skip(k + 1));
                // One more entry of the contiguous run has drained.
                assert(snap.to_remove@[0] == snap.oldest.1);
                assert(drain_count(snap.to_remove@, snap.oldest.1 as int)
                    == 1 + drain_count(snap.to_remove@.drop_first(), snap.oldest.1 + 1));
                assert(snap.to_remove@.drop_first() == self.to_remove@) by {
                    assert_seqs_equal!(snap.to_remove@.drop_first(), snap.to_remove@.remove(0));
                }
            }
        }
        proof {
            lemma_drain_count_zero(self.to_remove@, self.oldest.1 as int);
            assert(d_total == self.oldest.1 - o0);
            lemma_visible_is_skip(pre, *self, d_total);
        }
    }

    fn batch(&self, count: usize) -> (out: VecDeque<(Key, Payload)>) {
        let records = log_head_records(&self.file, count);
        let ghost taken = min_int(count as int, log_records(self.file).len() as int);
        let mut out: VecDeque<(Key, Payload)> = VecDeque::new();
        let mut i: usize = 0;
        while i < records.len()
            invariant
                self.inv(),
                i <= records@.len(),
                records@.map_values(|v: Vec<u8>| v@) == log_records(self.file).take(taken),
                taken == min_int(count as int, log_records(self.file).len() as int),
                pairs_view(out@) == self.visible().take(taken).take(i as int),
            decreases records@.len() - i,
        {
            proof {
                assert(records@.map_values(|v: Vec<u8>| v@).len() == records@.len());
                assert(records@.len() == taken);
                assert(taken <= log_records(self.file).len());
                assert(self.oldest.1 + log_records(self.file).len() == self.last_key.1);
            }
            let off = self.oldest.1 + i as u64;
            let payload = crate::memory::copy_payload(&records[i]);
            let ghost old_out = out@;
            out.push_back((Key(0, off), payload));
            proof {
                assert_seqs_equal!(
                    pairs_view(old_out.push((Key(0u16, off), payload))),
                    pairs_view(old_out).push((Key(0u16, off), payload@))
                );
                assert(records@.map_values(|v: Vec<u8>| v@)[i as int] == records@[i as int]@);
                assert_seqs_equal!(
                    self.visible().take(taken).take(i + 1),
                    self.visible().take(taken).take(i as int).push(self.visible()[i as int])
                );
            }
            i = i + 1;
        }
        proof {
            assert(records@.map_values(|v: Vec<u8>| v@).len() == records@.len());
            assert(records@.len() == taken);
            assert_seqs_equal!(
                self.visible().take(taken).take(records@.len() as int),
                self.visible().take(min_int(count as int, self.visible().len() as int))
            );
        }
        out
    }
}

/// The append-only-log storage backend: a registry of log-backed queues
/// under the uniform storage contract. The caller opens one empty log
/// file per queue; everything after that is the library's logic.
pub struct LogStore {
    inner: crate::memory::Memory<Queue>,
}

impl LogStore {
    /// The offset of the oldest record still physically present in
    /// queue `i`.
    pub closed spec fn oldest_at(&self, i: int) -> u64 {
        self.inner.queue_at(i).oldest_unacked()
    }

    /// The acknowledged offsets of queue `i` that are waiting for
    /// earlier holes to close.
    pub closed spec fn pending_at(&self, i: int) -> Seq<u64> {
        self.inner.queue_at(i).pending()
    }

    /// The log queue at registry position `i`.
    pub closed spec fn queue_at(&self, i: int) -> Queue {
        self.inner.queue_at(i)
    }

    /// A registry of `count` log queues named `{prefix}{0}` through
    /// `{prefix}{count - 1}`, one per freshly created, still empty log.
    pub fn new(prefix: &str, count: u16, files: Vec<queue_file::QueueFile>) -> (s: LogStore)
        requires
            files@.len() == count as int,
            forall|i: int| 0 <= i < files@.len()
                ==> log_records(#[trigger] files@[i]) == Seq::<Seq<u8>>::empty(),
        ensures
            s.inv(),
            s.names_model() == crate::names_spec(prefix@, count as int),
            forall|i: int| 0 <= i < count
                ==> s.visible_at(i) == Seq::<(Key, Seq<u8>)>::empty()
                    && s.next_at(i) == Key(0u16, 0u64)
                    && s.oldest_at(i) == 0
                    && s.pending_at(i) == Seq::<u64>::empty(),
    {
        let names = crate::make_names(prefix, count);
        let mut files = files;
        let mut queues: Vec<Queue> = Vec::new();
        let mut i: u16 = 0;
        while i < count
            invariant
                i <= count,
                queues@.len() == i as int,
                files@.len() == count - i,
                forall|j: int| 0 <= j < files@.len()
                    ==> log_records(#[trigger] files@[j]) == Seq::<Seq<u8>>::empty(),
                forall|j: int| 0 <= j < i ==> (#[trigger] queues@[j]).inv()
                    && queues@[j].visible() == Seq::<(Key, Seq<u8>)>::empty()
                    && queues@[j].next_key() == Key(0u16, 0u64)
                    && queues@[j].oldest_unacked() == 0
                    && queues@[j].pending() == Seq::<u64>::empty(),
            decreases count - i,
        {
            let f = files.remove(0);
            queues.push(Queue::new(f));
            i = i + 1;
        }
        proof {
            assert(names@.map_values(|s: String| s@).len() == names@.len());
            assert(names@.len() == count);
        }
        LogStore { inner: crate::memory::Memory::from_parts(names, queues) }
    }
}

impl crate::Storage for LogStore {
    closed spec fn inv(&self) -> bool {
        self.inner.inv()
    }

    closed spec fn names_model(&self) -> Seq<Seq<char>> {
        self.inner.names_model()
    }

    closed spec fn next_at(&self, i: int) -> Key {
        self.inner.next_at(i)
    }

    closed spec fn visible_at(&self, i: int) -> Seq<(Key, Seq<u8>)> {
        self.inner.visible_at(i)
    }

    closed spec fn can_push_at(&self, i: int, item: Seq<u8>) -> bool {
        self.inner.can_push_at(i, item)
    }

    closed spec fn removed_at(pre: Self, i: int, key: Key, post: Self) -> bool {
        <crate::memory::Memory<Queue> as crate::Storage>::removed_at(
            pre.inner,
            i,
            key,
            post.inner,
        )
    }

    fn names(&self) -> (out: Vec<String>) {
        self.inner.names()
    }

    fn push(&mut self, name: &str, payload: Payload) -> (key: Key) {
        self.inner.push(name, payload)
    }

    fn batch(&self, name: &str, size: usize) -> (out: VecDeque<(Key, Payload)>) {
        self.inner.batch(name, size)
    }

    fn remove(&mut self, name: &str, key: Key) {
        self.inner.remove(name, key)
    }
}

/// What the queue's observables are shaped like: the visible records
/// are exactly the offsets from the head to the next key, in order, so
/// batch keys are the head offset plus the record's position.
pub proof fn lemma_log_queue_shape(q: Queue)
    requires
        q.inv(),
    ensures
        q.next_key().0 == 0,
        q.oldest_unacked() <= q.next_key().1,
        q.visible().len() == q.next_key().1 - q.oldest_unacked(),
        forall|i: int| 0 <= i < q.visible().len()
            ==> (#[trigger] q.visible()[i]).0 == Key(0u16, (q.oldest_unacked() + i) as u64),
{
}

/// A log queue accepts a push whenever the offsets have not run out,
/// the payload fits one log element, and the log has room for one more
/// record. All three are visible to callers through the queue's
/// observables.
pub proof fn lemma_can_push_log(q: Queue, item: Seq<u8>)
    requires
        q.inv(),
        q.next_key().1 < u64::MAX,
        item.len() < 0x7fffffff,
        q.visible().len() + 1 < 0x7fffffff,
    ensures
        q.can_push(item),
{
}

/// The store's observables at position `i` are its queue's.
pub proof fn lemma_log_store_observables(s: LogStore, i: int)
    ensures
        s.visible_at(i) == s.queue_at(i).visible(),
        s.next_at(i) == s.queue_at(i).next_key(),
        s.oldest_at(i) == s.queue_at(i).oldest_unacked(),
        s.pending_at(i) == s.queue_at(i).pending(),
{
    crate::memory::lemma_memory_observables(s.inner, i);
}

/// The shape of a named log queue, seen from the store: visible records
/// run from the head offset to the next key, in order.
pub proof fn lemma_log_store_shape(s: LogStore, i: int)
    requires
        s.inv(),
        0 <= i < s.names_model().len(),
    ensures
        s.next_at(i).0 == 0,
        s.oldest_at(i) <= s.next_at(i).1,
        s.visible_at(i).len() == s.next_at(i).1 - s.oldest_at(i),
        forall|j: int| 0 <= j < s.visible_at(i).len()
            ==> (#[trigger] s.visible_at(i)[j]).0 == Key(0u16, (s.oldest_at(i) + j) as u64),
{
    crate::memory::lemma_memory_model(s.inner, i);
    lemma_log_store_observables(s, i);
    lemma_log_queue_shape(s.inner.queue_at(i));
}

/// A named log queue accepts a push under the same three conditions as
/// the queue itself, read off the store's observables.
pub proof fn lemma_log_store_can_push_at(s: LogStore, i: int, item: Seq<u8>)
    requires
        s.inv(),
        0 <= i < s.names_model().len(),
        s.next_at(i).1 < u64::MAX,
        item.len() < 0x7fffffff,
        s.visible_at(i).len() + 1 < 0x7fffffff,
    ensures
        s.can_push_at(i, item),
{
    crate::memory::lemma_memory_model(s.inner, i);
    lemma_log_store_observables(s, i);
    lemma_can_push_log(s.inner.queue_at(i), item);
    crate::memory::lemma_memory_can_push_at(s.inner, i, item);
}

/// What a store-level removal does to the named log queue, over the
/// store's own observables: the acked offset joins the pending list if
/// it is in range and new, and the head then drains through the
/// contiguous acknowledged run, if any.
pub proof fn lemma_log_store_remove(pre: LogStore, i: int, key: Key, post: LogStore)
    requires
        <LogStore as crate::Storage>::removed_at(pre, i, key, post),
    ensures
        ({
            let in_range = key.0 == 0 && pre.oldest_at(i) <= key.1 < pre.next_at(i).1;
            let p1 = if in_range {
                sorted_insert(pre.pending_at(i), key.1)
            } else {
                pre.pending_at(i)
            };
            let d = drain_count(p1, pre.oldest_at(i) as int);
            &&& post.next_at(i) == pre.next_at(i)
            &&& post.oldest_at(i) == pre.oldest_at(i) + d
            &&& post.pending_at(i) == p1.skip(d)
            &&& post.visible_at(i) == pre.visible_at(i).skip(d)
        }),
{
    lemma_log_store_observables(pre, i);
    lemma_log_store_observables(post, i);
    crate::memory::lemma_memory_removed_at(pre.inner, i, key, post.inner);
}

/// Inserting a value already present leaves the list unchanged.
proof fn lemma_sorted_insert_noop(p: Seq<u64>, v: u64, pos: int)
    requires
        strictly_sorted(p),
        0 <= pos < p.len(),
        p[pos] == v,
        forall|i: int| 0 <= i < pos ==> p[i] < v,
    ensures
        sorted_insert(p, v) == p,
    decreases p.len(),
{
    if pos == 0 {
    } else {
        assert(p[0] < v);
        let rest = p.drop_first();
        assert(forall|i: int| 0 <= i < rest.len() ==> rest[i] == p[i + 1]);
        lemma_sorted_insert_noop(rest, v, pos - 1);
        assert_seqs_equal!(seq![p[0]] + rest, p);
    }
}

/// At the storage level too, acknowledging a key on a named log queue
/// twice leaves what the second call found: the repeat is a no-op.
pub proof fn lemma_storage_remove_idempotent_log(
    s0: LogStore,
    s1: LogStore,
    s2: LogStore,
    i: int,
    key: Key,
)
    requires
        s0.inv(),
        s1.inv(),
        0 <= i < s0.names_model().len(),
        s0.names_model().len() == s1.names_model().len(),
        <LogStore as crate::Storage>::removed_at(s0, i, key, s1),
        <LogStore as crate::Storage>::removed_at(s1, i, key, s2),
    ensures
        s2.visible_at(i) == s1.visible_at(i),
{
    crate::memory::lemma_memory_model(s0.inner, i);
    crate::memory::lemma_memory_model(s1.inner, i);
    crate::memory::lemma_memory_observables(s2.inner, i);
    crate::memory::lemma_memory_removed_at(s0.inner, i, key, s1.inner);
    crate::memory::lemma_memory_removed_at(s1.inner, i, key, s2.inner);
    lemma_remove_idempotent_log(
        s0.inner.queue_at(i),
        s1.inner.queue_at(i),
        s2.inner.queue_at(i),
        key,
    );
}

/// Acknowledging exactly the head frees the head, and with it the whole
/// contiguous run of already acknowledged offsets behind it: the log
/// shrinks by one more than the run that was waiting, and the records
/// that remain visible are exactly those past the run.
pub proof fn lemma_ack_head_frees_run(pre: Queue, post: Queue)
    requires
        pre.inv(),
        pre.visible().len() > 0,
        <Queue as crate::memory::Queue>::remove_rel(pre, Key(0u16, pre.oldest_unacked()), post),
    ensures
        post.oldest_unacked()
            == pre.oldest_unacked() + 1 + drain_count(pre.pending(), pre.oldest_unacked() + 1),
        post.visible() == pre.visible().skip(
            1 + drain_count(pre.pending(), pre.oldest_unacked() + 1),
        ),
        post.pending() == pre.pending().skip(
            drain_count(pre.pending(), pre.oldest_unacked() + 1),
        ),
{
    let key = Key(0u16, pre.oldest_unacked());
    assert(pre.oldest.1 < pre.last_key.1);
    let p1 = sorted_insert(pre.to_remove@, key.1);
    if pre.to_remove@.len() == 0 {
        assert(p1 == seq![key.1]);
    } else {
        assert(key.1 < pre.to_remove@[0]);
        assert(p1 == seq![key.1] + pre.to_remove@);
    }
    assert(p1[0] == pre.oldest.1);
    assert(p1.drop_first() == pre.to_remove@) by {
        assert_seqs_equal!(p1.drop_first(), pre.to_remove@);
    }
    let d = drain_count(p1, pre.oldest.1 as int);
    assert(d == 1 + drain_count(pre.to_remove@, pre.oldest.1 + 1));
    lemma_drain_count_bound(pre.to_remove@, pre.oldest.1 + 1);
    assert_seqs_equal!(
        p1.skip(d),
        pre.to_remove@.skip(drain_count(pre.to_remove@, pre.oldest.1 + 1))
    );
}

/// Acknowledging an offset beyond the current head leaves the head and
/// every physically present record in place: a hole never frees storage.
pub proof fn lemma_hole_blocks_head(pre: Queue, key: Key, post: Queue)
    requires
        pre.inv(),
        key.1 > pre.oldest_unacked(),
        <Queue as crate::memory::Queue>::remove_rel(pre, key, post),
    ensures
        post.oldest_unacked() == pre.oldest_unacked(),
        post.visible() == pre.visible(),
        post.pending() == (if key.0 == 0 && key.1 < pre.next_key().1 {
            sorted_insert(pre.pending(), key.1)
        } else {
            pre.pending()
        }),
{
    let in_range = key.0 == 0 && pre.oldest.1 <= key.1 < pre.last_key.1;
    if in_range {
        let p1 = sorted_insert(pre.to_remove@, key.1);
        lemma_sorted_insert_members(pre.to_remove@, key.1);
        assert(forall|i: int| 0 <= i < p1.len() ==> p1[i] > pre.oldest.1);
        lemma_drain_count_zero(p1, pre.oldest.1 as int);
        assert_seqs_equal!(pre.visible().skip(0), pre.visible());
        assert_seqs_equal!(p1.skip(0), p1);
    } else {
        lemma_drain_count_zero(pre.to_remove@, pre.oldest.1 as int);
        assert_seqs_equal!(pre.visible().skip(0), pre.visible());
        assert_seqs_equal!(pre.to_remove@.skip(0), pre.to_remove@);
    }
}

/// Every entry of an insertion result is the inserted value or an
/// original entry.
proof fn lemma_sorted_insert_members(p: Seq<u64>, v: u64)
    ensures
        forall|i: int| 0 <= i < sorted_insert(p, v).len()
            ==> (sorted_insert(p, v)[i] == v || p.contains(sorted_insert(p, v)[i])),
    decreases p.len(),
{
    if p.len() == 0 {
    } else if v < p[0] {
    } else if v == p[0] {
    } else {
        let rest = p.drop_first();
        lemma_sorted_insert_members(rest, v);
        let r = sorted_insert(p, v);
        assert forall|i: int| 0 <= i < r.len()
            implies (r[i] == v || p.contains(r[i])) by {
            if i == 0 {
                assert(p[0] == r[0]);
                assert(p.contains(p[0]));
            } else {
                assert(r[i] == sorted_insert(rest, v)[i - 1]);
                if sorted_insert(rest, v)[i - 1] != v {
                    assert(rest.contains(sorted_insert(rest, v)[i - 1]));
                    let j = choose|j: int| 0 <= j < rest.len() && rest[j] == sorted_insert(rest, v)[i - 1];
                    assert(p[j + 1] == rest[j]);
                    assert(p.contains(p[j + 1]));
                }
            }
        }
    }
}

/// Acknowledging the same key twice has the same observable effect as
/// acknowledging it once: the second call changes nothing.
pub proof fn lemma_remove_idempotent_log(s0: Queue, s1: Queue, s2: Queue, key: Key)
    requires
        s0.inv(),
        s1.inv(),
        <Queue as crate::memory::Queue>::remove_rel(s0, key, s1),
        <Queue as crate::memory::Queue>::remove_rel(s1, key, s2),
    ensures
        s2.oldest_unacked() == s1.oldest_unacked(),
        s2.visible() == s1.visible(),
        s2.pending() == s1.pending(),
{
    let in_range1 = key.0 == 0 && s1.oldest.1 <= key.1 < s1.last_key.1;
    if in_range1 {
        // After the first removal the key is either already pending or
        // already drained past; here it is still in range, so it must be
        // pending, and re-inserting it changes nothing.
        assert(key.1 >= s1.oldest.1);
        lemma_remove_leaves_key_pending(s0, key, s1);
        let pos = choose|pos: int| 0 <= pos < s1.to_remove@.len() && s1.to_remove@[pos] == key.1
            && forall|i: int| 0 <= i < pos ==> s1.to_remove@[i] < key.1;
        lemma_sorted_insert_noop(s1.to_remove@, key.1, pos);
        lemma_drain_count_zero(s1.to_remove@, s1.oldest.1 as int);
        assert_seqs_equal!(s1.to_remove@.skip(0), s1.to_remove@);
        assert_seqs_equal!(s1.visible().skip(0), s1.visible());
    } else {
        lemma_drain_count_zero(s1.to_remove@, s1.oldest.1 as int);
        assert_seqs_equal!(s1.to_remove@.skip(0), s1.to_remove@);
        assert_seqs_equal!(s1.visible().skip(0), s1.visible());
    }
}

/// After a removal whose key is still in range, the key sits in the
/// pending list at its sorted position.
proof fn lemma_remove_leaves_key_pending(s0: Queue, key: Key, s1: Queue)
    requires
        s0.inv(),
        s1.inv(),
        <Queue as crate::memory::Queue>::remove_rel(s0, key, s1),
        key.0 == 0,
        s1.oldest.1 <= key.1 < s1.last_key.1,
    ensures
        exists|pos: int| 0 <= pos < s1.to_remove@.len() && s1.to_remove@[pos] == key.1
            && forall|i: int| 0 <= i < pos ==> s1.to_remove@[i] < key.1,
{
    let in_range0 = key.0 == 0 && s0.oldest.1 <= key.1 < s0.last_key.1;
    assert(in_range0);
    let p1 = sorted_insert(s0.to_remove@, key.1);
    let d = drain_count(p1, s0.oldest.1 as int);
    lemma_sorted_insert_contains(s0.to_remove@, key.1);
    let j = choose|j: int| 0 <= j < p1.len() && p1[j] == key.1;
    lemma_drain_count_bound(p1, s0.oldest.1 as int);
    lemma_drain_count_run(p1, s0.oldest.1 as int);
    lemma_sorted_insert_sorted(s0.to_remove@, key.1);
    // Entries drained lie below the new oldest offset; the key does not.
    assert(s1.oldest.1 == s0.oldest.1 + d);
    assert(key.1 >= s1.oldest.1);
    if j < d {
        assert(p1[j] == s0.oldest.1 + j);
        assert(key.1 < s1.oldest.1);
        assert(false);
    }
    assert(s1.to_remove@[j - d] == key.1);
    assert forall|i: int| 0 <= i < j - d implies s1.to_remove@[i] < key.1 by {
        assert(s1.to_remove@[i] == p1[i + d]);
        assert(p1[i + d] < p1[j]);
    }
}

/// The drained prefix is exactly the contiguous run at the head.
proof fn lemma_drain_count_run(p: Seq<u64>, start: int)
    ensures
        forall|i: int| 0 <= i < drain_count(p, start) ==> p[i] == start + i,
    decreases p.len(),
{
    if p.len() > 0 && p[0] == start {
        lemma_drain_count_run(p.drop_first(), start + 1);
        lemma_drain_count_bound(p.drop_first(), start + 1);
        let d = drain_count(p, start);
        assert forall|i: int| 0 <= i < d implies p[i] == start + i by {
            if i > 0 {
                assert(0 <= i - 1 < drain_count(p.drop_first(), start + 1));
                assert(p.drop_first()[i - 1] == p[i]);
            }
        }
    }
}

/// Insertion keeps the list strictly sorted.
proof fn lemma_sorted_insert_sorted(p: Seq<u64>, v: u64)
    requires
        strictly_sorted(p),
    ensures
        strictly_sorted(sorted_insert(p, v)),
    decreases p.len(),
{
    if p.len() == 0 {
    } else if v < p[0] {
    } else if v == p[0] {
    } else {
        let rest = p.drop_first();
        assert(forall|i: int| 0 <= i < rest.len() ==> rest[i] == p[i + 1]);
        lemma_sorted_insert_sorted(rest, v);
        lemma_sorted_insert_members(rest, v);
        let r = sorted_insert(p, v);
        assert forall|i: int, j: int| 0 <= i < j < r.len() implies r[i] < r[j] by {
            if i == 0 {
                assert(r[j] == sorted_insert(rest, v)[j - 1]);
                if sorted_insert(rest, v)[j - 1] != v {
                    assert(rest.contains(sorted_insert(rest, v)[j - 1]));
                    let m = choose|m: int| 0 <= m < rest.len()
                        && rest[m] == sorted_insert(rest, v)[j - 1];
                    assert(p[0] < rest[m]);
                }
            } else {
                assert(r[i] == sorted_insert(rest, v)[i - 1]);
                assert(r[j] == sorted_insert(rest, v)[j - 1]);
            }
        }
    }
}

/// The insertion result carries the inserted value.
proof fn lemma_sorted_insert_contains(p: Seq<u64>, v: u64)
    ensures
        exists|j: int| 0 <= j < sorted_insert(p, v).len() && sorted_insert(p, v)[j] == v,
    decreases p.len(),
{
    if p.len() == 0 {
        assert(sorted_insert(p, v)[0] == v);
    } else if v < p[0] {
        assert(sorted_insert(p, v)[0] == v);
    } else if v == p[0] {
        assert(sorted_insert(p, v)[0] == v);
    } else {
        let rest = p.drop_first();
        lemma_sorted_insert_contains(rest, v);
        let j = choose|j: int| 0 <= j < sorted_insert(rest, v).len() && sorted_insert(rest, v)[j] == v;
        assert(sorted_insert(p, v)[j + 1] == v);
    }
}

} // verus!
