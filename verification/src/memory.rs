//! In-memory queue variants: an ordered-map-style queue that removes by
//! binary search, and a sequence-backed queue that removes by a linear
//! scan. Both satisfy the same contract: pushes assign strictly increasing
//! keys, batches peek at the oldest items in ascending key order, and
//! removal of an absent key is a no-op.

use vstd::prelude::*;
use vstd::assert_seqs_equal;
use vstd::pervasive::unreached;
use std::collections::VecDeque;
use crate::{Key, Payload, key_lt, Storage, names_spec, lemma_index_of_unique};

verus! {

/// The pairs a queue holds, as (key, payload bytes).
pub open spec fn pairs_view(items: Seq<(Key, Payload)>) -> Seq<(Key, Seq<u8>)> {
    items.map_values(|p: (Key, Payload)| (p.0, p.1@))
}

/// The predicate that keeps every pair not carrying `key`.
pub open spec fn keeps(key: Key) -> spec_fn((Key, Seq<u8>)) -> bool {
    |p: (Key, Seq<u8>)| p.0 != key
}

/// `s` with every pair carrying `key` dropped.
pub open spec fn without_key(s: Seq<(Key, Seq<u8>)>, key: Key) -> Seq<(Key, Seq<u8>)> {
    s.filter(keeps(key))
}

/// Strictly ascending keys, each below the key the next push will take.
pub open spec fn wf_items(items: Seq<(Key, Payload)>, bound: Key) -> bool {
    &&& forall|i: int, j: int| 0 <= i < j < items.len() ==> key_lt(items[i].0, items[j].0)
    &&& forall|i: int| 0 <= i < items.len() ==> key_lt(items[i].0, bound)
}

/// The smaller of two lengths.
pub open spec fn min_int(a: int, b: int) -> int {
    if a < b {
        a
    } else {
        b
    }
}

/// The uniform contract of a single named queue.
pub trait Queue: Sized {
    /// The internal well-formedness condition.
    spec fn inv(&self) -> bool;

    /// The key the next push will return.
    spec fn next_key(&self) -> Key;

    /// The items a batch read can see, in ascending key order.
    spec fn visible(&self) -> Seq<(Key, Seq<u8>)>;

    /// Whether a push of `item` can be accepted without exhausting the
    /// offset space or the storage medium.
    spec fn can_push(&self, item: Seq<u8>) -> bool;

    /// How `remove` transforms the observable state.
    spec fn remove_rel(pre: Self, key: Key, post: Self) -> bool;

    /// Appends `item` as the new tail and returns its freshly assigned key;
    /// keys are handed out in strictly increasing order with no gaps.
    fn push(&mut self, item: Payload) -> (key: Key)
        requires
            old(self).inv(),
            old(self).can_push(item@),
        ensures
            final(self).inv(),
            key == old(self).next_key(),
            key.1 < u64::MAX,
            final(self).next_key() == Key(key.0, (key.1 + 1) as u64),
            final(self).visible() == old(self).visible().push((key, item@)),
    ;

    /// Logically deletes the item at `key`; an absent key is a no-op.
    fn remove(&mut self, key: Key)
        requires
            old(self).inv(),
        ensures
            final(self).inv(),
            final(self).next_key() == old(self).next_key(),
            Self::remove_rel(*old(self), key, *final(self)),
    ;

    /// Copies out up to `count` of the oldest visible items, oldest first,
    /// without removing anything: a peek, not a pop.
    fn batch(&self, count: usize) -> (out: VecDeque<(Key, Payload)>)
        requires
            self.inv(),
        ensures
            pairs_view(out@) == self.visible().take(
                min_int(count as int, self.visible().len() as int),
            ),
    ;
}

/// Monotonic offsets: two successive pushes on one queue hand out
/// consecutive keys — offsets strictly increase with no gap. The push
/// contract gives each call's key and the next key it leaves behind;
/// chaining two calls pins the second key to the first plus one.
pub proof fn lemma_push_keys_consecutive<Q: Queue>(s0: Q, s1: Q, k1: Key, k2: Key)
    requires
        k1 == s0.next_key(),
        k1.1 < u64::MAX,
        s1.next_key() == Key(k1.0, (k1.1 + 1) as u64),
        k2 == s1.next_key(),
    ensures
        k2.0 == k1.0,
        k2.1 == k1.1 + 1,
        key_lt(k1, k2),
{
}

/// Batch is a peek: `batch` borrows the queue immutably and its contract
/// determines the result from the queue state alone, so two batches with
/// no intervening push or remove see one state and return one answer.
pub proof fn lemma_batch_is_peek<Q: Queue>(
    q: Q,
    count: int,
    r1: Seq<(Key, Seq<u8>)>,
    r2: Seq<(Key, Seq<u8>)>,
)
    requires
        r1 == q.visible().take(min_int(count, q.visible().len() as int)),
        r2 == q.visible().take(min_int(count, q.visible().len() as int)),
    ensures
        r1 == r2,
{
}

/// A byte-for-byte copy of a payload.
pub(crate) fn copy_payload(p: &Payload) -> (r: Payload)
    ensures
        r@ == p@,
{
    let mut r: Vec<u8> = Vec::new();
    let mut i: usize = 0;
    while i < p.len()
        invariant
            i <= p@.len(),
            r@ == p@.take(i as int),
        decreases p@.len() - i,
    {
        r.push(p[i]);
        proof {
            assert_seqs_equal!(r@, p@.take(i + 1));
        }
        i = i + 1;
    }
    proof {
        assert_seqs_equal!(r@, p@);
    }
    r
}

/// Mapping the pair view over a push appends the viewed pair.
proof fn lemma_pairs_view_push(items: Seq<(Key, Payload)>, x: (Key, Payload))
    ensures
        pairs_view(items.push(x)) == pairs_view(items).push((x.0, x.1@)),
{
    assert_seqs_equal!(pairs_view(items.push(x)), pairs_view(items).push((x.0, x.1@)));
}

/// The pair view maps indices one for one.
proof fn lemma_pairs_view_index(items: Seq<(Key, Payload)>, i: int)
    requires
        0 <= i < items.len(),
    ensures
        pairs_view(items)[i] == (items[i].0, items[i].1@),
{
}

/// A filter whose predicate holds everywhere keeps the sequence intact.
proof fn lemma_filter_all_pass<T>(s: Seq<T>, pred: spec_fn(T) -> bool)
    requires
        forall|i: int| 0 <= i < s.len() ==> pred(s[i]),
    ensures
        s.filter(pred) == s,
    decreases s.len(),
{
    reveal(Seq::filter);
    if s.len() > 0 {
        assert(forall|i: int| 0 <= i < s.drop_last().len() ==> s.drop_last()[i] == s[i]);
        lemma_filter_all_pass(s.drop_last(), pred);
        assert(pred(s.last()));
        assert_seqs_equal!(s.drop_last().push(s.last()), s);
    }
}

/// Filtering out a key that occurs at exactly one position removes
/// exactly that position.
pub proof fn lemma_without_key_removes_one(s: Seq<(Key, Seq<u8>)>, key: Key, j: int)
    requires
        0 <= j < s.len(),
        s[j].0 == key,
        forall|i: int| 0 <= i < s.len() && i != j ==> s[i].0 != key,
    ensures
        without_key(s, key) == s.remove(j),
    decreases s.len(),
{
    reveal(Seq::filter);
    if j == s.len() - 1 {
        assert(!keeps(key)(s.last()));
        assert(forall|i: int| 0 <= i < s.drop_last().len() ==> s.drop_last()[i] == s[i]);
        lemma_filter_all_pass(s.drop_last(), keeps(key));
        assert_seqs_equal!(s.remove(j), s.drop_last());
    } else {
        assert(keeps(key)(s.last()));
        assert(forall|i: int| 0 <= i < s.drop_last().len() ==> s.drop_last()[i] == s[i]);
        lemma_without_key_removes_one(s.drop_last(), key, j);
        assert(s.filter(keeps(key)) == s.drop_last().filter(keeps(key)).push(s.last()));
        assert_seqs_equal!(s.remove(j), s.drop_last().remove(j).push(s.last()));
    }
}

/// Filtering a key out of a sequence that does not carry it is a no-op.
pub proof fn lemma_without_key_absent(s: Seq<(Key, Seq<u8>)>, key: Key)
    requires
        forall|i: int| 0 <= i < s.len() ==> s[i].0 != key,
    ensures
        without_key(s, key) == s,
{
    assert(forall|i: int| 0 <= i < s.len() ==> keeps(key)(s[i]));
    lemma_filter_all_pass(s, keeps(key));
}

/// Dropping a key is idempotent: a second removal of the same key finds
/// nothing left to drop.
pub proof fn lemma_without_key_idempotent(s: Seq<(Key, Seq<u8>)>, key: Key)
    ensures
        without_key(without_key(s, key), key) == without_key(s, key),
{
    broadcast use vstd::seq_lib::group_filter_ensures;

    let t = s.filter(keeps(key));
    assert(forall|i: int| 0 <= i < t.len() ==> keeps(key)(t[i]));
    lemma_filter_all_pass(t, keeps(key));
}

/// The ordered-map in-memory variant: items kept sorted by key, removal
/// by binary search.
pub struct BTreeQueue {
    last_key: Key,
    items: Vec<(Key, Payload)>,
}

impl Default for BTreeQueue {
    /// An empty queue whose first push returns the zero key.
    fn default() -> (q: Self)
        ensures
            q.inv(),
            q.next_key() == Key(0u16, 0u64),
            q.visible() == Seq::<(Key, Seq<u8>)>::empty(),
    {
        let q = BTreeQueue { last_key: Key(0, 0), items: Vec::new() };
        proof {
            assert_seqs_equal!(q.visible(), Seq::<(Key, Seq<u8>)>::empty());
        }
        q
    }
}

impl Queue for BTreeQueue {
    closed spec fn inv(&self) -> bool {
        wf_items(self.items@, self.last_key)
    }

    closed spec fn next_key(&self) -> Key {
        self.last_key
    }

    closed spec fn visible(&self) -> Seq<(Key, Seq<u8>)> {
        pairs_view(self.items@)
    }

    closed spec fn can_push(&self, item: Seq<u8>) -> bool {
        self.last_key.1 < u64::MAX
    }

    open spec fn remove_rel(pre: Self, key: Key, post: Self) -> bool {
        post.visible() == without_key(pre.visible(), key)
    }

    fn push(&mut self, item: Payload) -> (key: Key) {
        let current = self.last_key;
        let ghost old_items = self.items@;
        self.items.push((current, item));
        self.last_key = Key(current.0, current.1 + 1);
        proof {
            lemma_pairs_view_push(old_items, (current, item));
        }
        current
    }

    fn remove(&mut self, key: Key) {
        let mut lo: usize = 0;
        let mut hi: usize = self.items.len();
        while lo < hi
            invariant
                lo <= hi <= self.items@.len(),
                wf_items(self.items@, self.last_key),
                forall|i: int| 0 <= i < lo ==> key_lt(self.items@[i].0, key),
                forall|i: int| hi <= i < self.items@.len() ==> !key_lt(self.items@[i].0, key),
            decreases hi - lo,
        {
            let mid = lo + (hi - lo) / 2;
            let probe = self.items[mid].0;
            if probe.0 < key.0 || (probe.0 == key.0 && probe.1 < key.1) {
                assert(forall|i: int| 0 <= i < mid ==> key_lt(self.items@[i].0, self.items@[mid as int].0));
                lo = mid + 1;
            } else {
                assert(forall|i: int| mid < i < self.items@.len()
                    ==> key_lt(self.items@[mid as int].0, self.items@[i].0));
                hi = mid;
            }
        }
        let ghost pre = *self;
        if lo < self.items.len() && self.items[lo].0 == key {
            self.items.remove(lo);
            proof {
                assert forall|i: int| 0 <= i < pre.visible().len() && i != lo
                    implies pre.visible()[i].0 != key by {
                    lemma_pairs_view_index(pre.items@, i);
                }
                lemma_pairs_view_index(pre.items@, lo as int);
                lemma_without_key_removes_one(pre.visible(), key, lo as int);
                assert_seqs_equal!(self.visible(), pre.visible().remove(lo as int));
            }
        } else {
            proof {
                assert forall|i: int| 0 <= i < pre.visible().len()
                    implies pre.visible()[i].0 != key by {
                    lemma_pairs_view_index(pre.items@, i);
                }
                lemma_without_key_absent(pre.visible(), key);
            }
        }
    }

    fn batch(&self, count: usize) -> (out: VecDeque<(Key, Payload)>) {
        let limit = if count < self.items.len() {
            count
        } else {
            self.items.len()
        };
        let mut out: VecDeque<(Key, Payload)> = VecDeque::new();
        let mut i: usize = 0;
        while i < limit
            invariant
                i <= limit,
                limit == min_int(count as int, self.visible().len() as int),
                self.inv(),
                pairs_view(out@) == self.visible().take(i as int),
            decreases limit - i,
        {
            let entry = &self.items[i];
            let key = entry.0;
            let payload = copy_payload(&entry.1);
            let ghost old_out = out@;
            out.push_back((key, payload));
            proof {
                lemma_pairs_view_push(old_out, (key, payload));
                lemma_pairs_view_index(self.items@, i as int);
                assert_seqs_equal!(
                    self.visible().take(i + 1),
                    self.visible().take(i as int).push(self.visible()[i as int])
                );
            }
            i = i + 1;
        }
        out
    }
}

/// The sequence-backed in-memory variant: items in insertion order with
/// the oldest at the front, removal by a linear scan.
pub struct VecQueue {
    last_key: Key,
    items: VecDeque<(Key, Payload)>,
}

impl Default for VecQueue {
    /// An empty queue whose first push returns the zero key.
    fn default() -> (q: Self)
        ensures
            q.inv(),
            q.next_key() == Key(0u16, 0u64),
            q.visible() == Seq::<(Key, Seq<u8>)>::empty(),
    {
        let q = VecQueue { last_key: Key(0, 0), items: VecDeque::new() };
        proof {
            assert_seqs_equal!(q.visible(), Seq::<(Key, Seq<u8>)>::empty());
        }
        q
    }
}

impl VecQueue {
    /// The number of items still present.
    pub fn len(&self) -> (n: usize)
        ensures
            n == self.visible().len(),
    {
        self.items.len()
    }

    /// Whether nothing is present.
    pub fn is_empty(&self) -> (b: bool)
        ensures
            b == (self.visible().len() == 0),
    {
        self.items.len() == 0
    }
}

impl Queue for VecQueue {
    closed spec fn inv(&self) -> bool {
        wf_items(self.items@, self.last_key)
    }

    closed spec fn next_key(&self) -> Key {
        self.last_key
    }

    closed spec fn visible(&self) -> Seq<(Key, Seq<u8>)> {
        pairs_view(self.items@)
    }

    closed spec fn can_push(&self, item: Seq<u8>) -> bool {
        self.last_key.1 < u64::MAX
    }

    open spec fn remove_rel(pre: Self, key: Key, post: Self) -> bool {
        post.visible() == without_key(pre.visible(), key)
    }

    fn push(&mut self, item: Payload) -> (key: Key) {
        let current = self.last_key;
        let ghost old_items = self.items@;
        self.items.push_back((current, item));
        self.last_key = Key(current.0, current.1 + 1);
        proof {
            lemma_pairs_view_push(old_items, (current, item));
        }
        current
    }

    fn remove(&mut self, key: Key) {
        let ghost pre = *self;
        let mut i: usize = 0;
        while i < self.items.len()
            invariant
                *self == pre,
                pre == *old(self),
                i <= self.items@.len(),
                wf_items(self.items@, self.last_key),
                forall|j: int| 0 <= j < i ==> self.items@[j].0 != key,
            decreases self.items@.len() - i,
        {
            if self.items[i].0 == key {
                self.items.remove(i);
                proof {
                    assert(self.last_key == pre.last_key);
                    assert forall|j: int| 0 <= j < pre.visible().len() && j != i
                        implies pre.visible()[j].0 != key by {
                        lemma_pairs_view_index(pre.items@, j);
                        if j > i {
                            assert(key_lt(pre.items@[i as int].0, pre.items@[j].0));
                        } else {
                            assert(pre.items@[j].0 != key);
                        }
                    }
                    lemma_pairs_view_index(pre.items@, i as int);
                    lemma_without_key_removes_one(pre.visible(), key, i as int);
                    assert_seqs_equal!(self.visible(), pre.visible().remove(i as int));
                }
                return;
            }
            i = i + 1;
        }
        proof {
            assert forall|j: int| 0 <= j < pre.visible().len()
                implies pre.visible()[j].0 != key by {
                lemma_pairs_view_index(pre.items@, j);
            }
            lemma_without_key_absent(pre.visible(), key);
        }
    }

    fn batch(&self, count: usize) -> (out: VecDeque<(Key, Payload)>) {
        let limit = if count < self.items.len() {
            count
        } else {
            self.items.len()
        };
        let mut out: VecDeque<(Key, Payload)> = VecDeque::new();
        let mut i: usize = 0;
        while i < limit
            invariant
                i <= limit,
                limit == min_int(count as int, self.visible().len() as int),
                self.inv(),
                pairs_view(out@) == self.visible().take(i as int),
            decreases limit - i,
        {
            let entry = &self.items[i];
            let key = entry.0;
            let payload = copy_payload(&entry.1);
            let ghost old_out = out@;
            out.push_back((key, payload));
            proof {
                lemma_pairs_view_push(old_out, (key, payload));
                lemma_pairs_view_index(self.items@, i as int);
                assert_seqs_equal!(
                    self.visible().take(i + 1),
                    self.visible().take(i as int).push(self.visible()[i as int])
                );
            }
            i = i + 1;
        }
        out
    }
}

/// A registry of independently operating named queues: the fixed name
/// set is laid down at construction, and every operation touches exactly
/// the queue it names.
pub struct Memory<Q> {
    names: Vec<String>,
    queues: Vec<Q>,
}

impl Memory<BTreeQueue> {
    /// A registry of `count` empty ordered-map queues named
    /// `{prefix}{0}` through `{prefix}{count - 1}`.
    pub fn tree(prefix: &str, count: u16) -> (s: Memory<BTreeQueue>)
        ensures
            s.inv(),
            s.names_model() == names_spec(prefix@, count as int),
            forall|i: int| 0 <= i < count
                ==> s.visible_at(i) == Seq::<(Key, Seq<u8>)>::empty()
                    && s.next_at(i) == Key(0u16, 0u64),
    {
        let names = crate::make_names(prefix, count);
        let mut queues: Vec<BTreeQueue> = Vec::new();
        let mut i: u16 = 0;
        while i < count
            invariant
                i <= count,
                queues@.len() == i,
                forall|j: int| 0 <= j < i ==> (#[trigger] queues@[j]).inv()
                    && queues@[j].visible() == Seq::<(Key, Seq<u8>)>::empty()
                    && queues@[j].next_key() == Key(0u16, 0u64),
            decreases count - i,
        {
            queues.push(BTreeQueue::default());
            i = i + 1;
        }
        proof {
            assert(names@.map_values(|s: String| s@).len() == names@.len());
            assert(names@.len() == count);
        }
        Memory { names, queues }
    }
}

impl Memory<VecQueue> {
    /// A registry of `count` empty sequence-backed queues named
    /// `{prefix}{0}` through `{prefix}{count - 1}`.
    pub fn vec(prefix: &str, count: u16) -> (s: Memory<VecQueue>)
        ensures
            s.inv(),
            s.names_model() == names_spec(prefix@, count as int),
            forall|i: int| 0 <= i < count
                ==> s.visible_at(i) == Seq::<(Key, Seq<u8>)>::empty()
                    && s.next_at(i) == Key(0u16, 0u64),
    {
        let names = crate::make_names(prefix, count);
        let mut queues: Vec<VecQueue> = Vec::new();
        let mut i: u16 = 0;
        while i < count
            invariant
                i <= count,
                queues@.len() == i,
                forall|j: int| 0 <= j < i ==> (#[trigger] queues@[j]).inv()
                    && queues@[j].visible() == Seq::<(Key, Seq<u8>)>::empty()
                    && queues@[j].next_key() == Key(0u16, 0u64),
            decreases count - i,
        {
            queues.push(VecQueue::default());
            i = i + 1;
        }
        proof {
            assert(names@.map_values(|s: String| s@).len() == names@.len());
            assert(names@.len() == count);
        }
        Memory { names, queues }
    }
}

impl<Q: Queue> Memory<Q> {
    /// The queue at registry position `i`.
    pub closed spec fn queue_at(&self, i: int) -> Q {
        self.queues@[i]
    }

    /// A registry over already constructed queues; the names and the
    /// queues correspond position by position.
    pub fn from_parts(names: Vec<String>, queues: Vec<Q>) -> (s: Memory<Q>)
        requires
            names@.len() == queues@.len(),
            forall|i: int, j: int| 0 <= i < j < names@.len() ==> names@[i]@ != names@[j]@,
            forall|i: int| 0 <= i < queues@.len() ==> (#[trigger] queues@[i]).inv(),
        ensures
            s.inv(),
            s.names_model() == names@.map_values(|n: String| n@),
            forall|i: int| 0 <= i < queues@.len()
                ==> s.visible_at(i) == queues@[i].visible()
                    && s.next_at(i) == queues@[i].next_key()
                    && s.queue_at(i) == queues@[i],
    {
        Memory { names, queues }
    }
}

impl<Q: Queue> Storage for Memory<Q> {
    closed spec fn inv(&self) -> bool {
        &&& self.names@.len() == self.queues@.len()
        &&& forall|i: int, j: int| 0 <= i < j < self.names@.len()
            ==> self.names@[i]@ != self.names@[j]@
        &&& forall|i: int| 0 <= i < self.queues@.len() ==> (#[trigger] self.queues@[i]).inv()
    }

    closed spec fn names_model(&self) -> Seq<Seq<char>> {
        self.names@.map_values(|n: String| n@)
    }

    closed spec fn next_at(&self, i: int) -> Key {
        self.queues@[i].next_key()
    }

    closed spec fn visible_at(&self, i: int) -> Seq<(Key, Seq<u8>)> {
        self.queues@[i].visible()
    }

    closed spec fn can_push_at(&self, i: int, item: Seq<u8>) -> bool {
        self.queues@[i].can_push(item)
    }

    open spec fn removed_at(pre: Self, i: int, key: Key, post: Self) -> bool {
        Q::remove_rel(pre.queue_at(i), key, post.queue_at(i))
    }

    fn names(&self) -> (out: Vec<String>) {
        let mut out: Vec<String> = Vec::new();
        let mut i: usize = 0;
        while i < self.names.len()
            invariant
                i <= self.names@.len(),
                out@.len() == i,
                forall|j: int| 0 <= j < i ==> out@[j]@ == self.names@[j]@,
            decreases self.names@.len() - i,
        {
            out.push(self.names[i].clone());
            i = i + 1;
        }
        proof {
            assert_seqs_equal!(
                out@.map_values(|s: String| s@),
                self.names_model()
            );
        }
        out
    }

    fn push(&mut self, name: &str, payload: Payload) -> (key: Key) {
        let idx = match crate::find_index(&self.names, name) {
            Some(i) => i,
            None => {
                proof {
                    let i0 = old(self).names_model().index_of(name@);
                    assert(old(self).names_model()[i0] == name@);
                    assert(self.names@[i0]@ == name@);
                }
                unreached()
            },
        };
        proof {
            lemma_index_of_unique(self.names_model(), name@, idx as int);
        }
        let mut q = self.queues.remove(idx);
        let key = q.push(payload);
        let ghost q_snap = q;
        self.queues.insert(idx, q);
        proof {
            assert_seqs_equal!(self.queues@, old(self).queues@.update(idx as int, q_snap));
        }
        key
    }

    fn batch(&self, name: &str, size: usize) -> (out: VecDeque<(Key, Payload)>) {
        let idx = match crate::find_index(&self.names, name) {
            Some(i) => i,
            None => {
                proof {
                    let i0 = self.names_model().index_of(name@);
                    assert(self.names_model()[i0] == name@);
                    assert(self.names@[i0]@ == name@);
                }
                unreached()
            },
        };
        proof {
            lemma_index_of_unique(self.names_model(), name@, idx as int);
        }
        self.queues[idx].batch(size)
    }

    fn remove(&mut self, name: &str, key: Key) {
        let idx = match crate::find_index(&self.names, name) {
            Some(i) => i,
            None => {
                proof {
                    let i0 = old(self).names_model().index_of(name@);
                    assert(old(self).names_model()[i0] == name@);
                    assert(self.names@[i0]@ == name@);
                }
                unreached()
            },
        };
        proof {
            lemma_index_of_unique(self.names_model(), name@, idx as int);
        }
        let mut q = self.queues.remove(idx);
        q.remove(key);
        let ghost q_snap = q;
        self.queues.insert(idx, q);
        proof {
            assert_seqs_equal!(self.queues@, old(self).queues@.update(idx as int, q_snap));
        }
    }
}

/// Removing the same key twice has the same observable effect as removing
/// it once: the second removal finds nothing and changes nothing.
pub proof fn lemma_remove_idempotent_btree(s0: BTreeQueue, s1: BTreeQueue, s2: BTreeQueue, key: Key)
    requires
        BTreeQueue::remove_rel(s0, key, s1),
        BTreeQueue::remove_rel(s1, key, s2),
    ensures
        s2.visible() == s1.visible(),
{
    lemma_without_key_idempotent(s0.visible(), key);
}

/// Removing the same key twice has the same observable effect as removing
/// it once: the second removal finds nothing and changes nothing.
pub proof fn lemma_remove_idempotent_vec(s0: VecQueue, s1: VecQueue, s2: VecQueue, key: Key)
    requires
        VecQueue::remove_rel(s0, key, s1),
        VecQueue::remove_rel(s1, key, s2),
    ensures
        s2.visible() == s1.visible(),
{
    lemma_without_key_idempotent(s0.visible(), key);
}

/// An ordered-map queue accepts a push whenever its offsets have not run
/// out: the next key the constructor and the push contract report is the
/// whole condition.
pub proof fn lemma_can_push_btree(q: BTreeQueue, item: Seq<u8>)
    requires
        q.next_key().1 < u64::MAX,
    ensures
        q.can_push(item),
{
}

/// A sequence-backed queue accepts a push whenever its offsets have not
/// run out: the next key the constructor and the push contract report is
/// the whole condition.
pub proof fn lemma_can_push_vec(q: VecQueue, item: Seq<u8>)
    requires
        q.next_key().1 < u64::MAX,
    ensures
        q.can_push(item),
{
}

/// At the registry, accepting a push is exactly the named queue's own
/// acceptance.
pub proof fn lemma_memory_can_push_at<Q: Queue>(s: Memory<Q>, i: int, item: Seq<u8>)
    ensures
        s.can_push_at(i, item) == s.queue_at(i).can_push(item),
{
}

/// The registry's observables at position `i` are its queue's.
pub proof fn lemma_memory_observables<Q: Queue>(s: Memory<Q>, i: int)
    ensures
        s.visible_at(i) == s.queue_at(i).visible(),
        s.next_at(i) == s.queue_at(i).next_key(),
{
}

/// What the registry's observables are in terms of its queues.
pub proof fn lemma_memory_model<Q: Queue>(s: Memory<Q>, i: int)
    requires
        s.inv(),
        0 <= i < s.names_model().len(),
    ensures
        s.visible_at(i) == s.queue_at(i).visible(),
        s.next_at(i) == s.queue_at(i).next_key(),
        s.queue_at(i).inv(),
{
    assert(s.names@.map_values(|n: String| n@).len() == s.names@.len());
}

/// A registry-level removal is a queue-level removal at that position.
pub proof fn lemma_memory_removed_at<Q: Queue>(pre: Memory<Q>, i: int, key: Key, post: Memory<Q>)
    requires
        <Memory<Q> as Storage>::removed_at(pre, i, key, post),
    ensures
        Q::remove_rel(pre.queue_at(i), key, post.queue_at(i)),
{
}

/// At the storage level too, removing a key from a named ordered-map
/// queue twice leaves what the second call found: the repeat is a no-op.
pub proof fn lemma_storage_remove_idempotent_tree(
    s0: Memory<BTreeQueue>,
    s1: Memory<BTreeQueue>,
    s2: Memory<BTreeQueue>,
    i: int,
    key: Key,
)
    requires
        <Memory<BTreeQueue> as Storage>::removed_at(s0, i, key, s1),
        <Memory<BTreeQueue> as Storage>::removed_at(s1, i, key, s2),
    ensures
        s2.visible_at(i) == s1.visible_at(i),
{
    lemma_remove_idempotent_btree(s0.queues@[i], s1.queues@[i], s2.queues@[i], key);
}

/// At the storage level too, removing a key from a named sequence-backed
/// queue twice leaves what the second call found: the repeat is a no-op.
pub proof fn lemma_storage_remove_idempotent_vec(
    s0: Memory<VecQueue>,
    s1: Memory<VecQueue>,
    s2: Memory<VecQueue>,
    i: int,
    key: Key,
)
    requires
        <Memory<VecQueue> as Storage>::removed_at(s0, i, key, s1),
        <Memory<VecQueue> as Storage>::removed_at(s1, i, key, s2),
    ensures
        s2.visible_at(i) == s1.visible_at(i),
{
    lemma_remove_idempotent_vec(s0.queues@[i], s1.queues@[i], s2.queues@[i], key);
}

} // verus!
