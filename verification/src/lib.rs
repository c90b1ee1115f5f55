//! A named-queue storage library: per-queue monotonic keys with a fixed-width
//! textual encoding, bounded peek-style read batches, and out-of-order
//! acknowledgment against an append-only physical log.

use vstd::prelude::*;
use vstd::assert_seqs_equal;
use std::collections::VecDeque;

pub mod app;
pub mod codec;
pub mod memory;
pub mod log;

verus! {

/// An opaque message payload; the storage layer never interprets its bytes.
pub type Payload = Vec<u8>;

/// Rejection of a malformed key encoding: the byte layout does not match
/// the fixed width, or a numeric field is not all decimal digits.
#[derive(Debug, Clone, Copy, PartialEq, Eq, Structural)]
pub struct FormatError;

/// A queue-local message identifier: a generation counter and a
/// monotonically increasing offset, ordered by generation then offset.
#[derive(Debug, Clone, Copy, PartialEq, Eq, PartialOrd, Ord, Structural)]
pub struct Key(pub u16, pub u64);

/// The order on keys: by generation first, then by offset.
pub open spec fn key_lt(a: Key, b: Key) -> bool {
    a.0 < b.0 || (a.0 == b.0 && a.1 < b.1)
}

impl Key {
    /// The key that follows this one: same generation, next offset.
    pub fn next(&self) -> (r: Key)
        requires
            self.1 < u64::MAX,
        ensures
            r == Key(self.0, (self.1 + 1) as u64),
    {
        Key(self.0, self.1 + 1)
    }

    /// A generation-zero key at the given offset.
    pub fn with_offset(offset: u64) -> (r: Self)
        ensures
            r == Key(0u16, offset),
    {
        Key(0, offset)
    }
}

impl Default for Key {
    /// The first key of a fresh queue: generation zero, offset zero.
    fn default() -> (r: Self)
        ensures
            r == Key(0u16, 0u64),
    {
        Key(0, 0)
    }
}

/// The decimal digit `d` as a character.
pub open spec fn digit_char(d: int) -> char {
    ((48 + d) as u8) as char
}

/// The decimal text of `n`, without padding.
pub open spec fn dec_chars(n: int) -> Seq<char>
    decreases n,
{
    if n < 0 {
        Seq::empty()
    } else if n < 10 {
        seq![digit_char(n)]
    } else {
        dec_chars(n / 10).push(digit_char(n % 10))
    }
}

/// The names of a storage with `count` queues: the prefix followed by the
/// queue's number.
pub open spec fn names_spec(prefix: Seq<char>, count: int) -> Seq<Seq<char>> {
    Seq::new(count as nat, |i: int| prefix + dec_chars(i))
}

/// Distinct numbers have distinct decimal texts.
pub proof fn lemma_dec_chars_injective(a: int, b: int)
    requires
        0 <= a,
        0 <= b,
        a != b,
    ensures
        dec_chars(a) != dec_chars(b),
    decreases a + b,
{
    if a < 10 && b < 10 {
        assert(dec_chars(a)[0] == digit_char(a));
        assert(dec_chars(b)[0] == digit_char(b));
        assert(digit_char(a) != digit_char(b));
    } else if a < 10 {
        assert(dec_chars(b).len() >= 2) by {
            lemma_dec_chars_len(b / 10);
        }
    } else if b < 10 {
        assert(dec_chars(a).len() >= 2) by {
            lemma_dec_chars_len(a / 10);
        }
    } else {
        if a / 10 == b / 10 {
            assert(a % 10 != b % 10);
            assert(dec_chars(a).last() == digit_char(a % 10));
            assert(dec_chars(b).last() == digit_char(b % 10));
            assert(digit_char(a % 10) != digit_char(b % 10));
        } else {
            lemma_dec_chars_injective(a / 10, b / 10);
            assert(dec_chars(a).drop_last() == dec_chars(a / 10));
            assert(dec_chars(b).drop_last() == dec_chars(b / 10));
        }
    }
}

/// The decimal text is never empty.
pub proof fn lemma_dec_chars_len(n: int)
    requires
        0 <= n,
    ensures
        dec_chars(n).len() >= 1,
    decreases n,
{
    if n >= 10 {
        lemma_dec_chars_len(n / 10);
    }
}

/// Relies on String::push: appends one character.
#[verifier::external_body]
fn push_char(s: &mut String, c: char)
    ensures
        final(s)@ == old(s)@.push(c),
{
    s.push(c);
}

/// Appends the decimal text of `n` to `s`.
fn push_dec(s: &mut String, n: u16)
    ensures
        final(s)@ == old(s)@ + dec_chars(n as int),
    decreases n,
{
    if n < 10 {
        push_char(s, (48 + n as u8) as char);
        proof {
            assert_seqs_equal!(s@, old(s)@ + dec_chars(n as int));
        }
    } else {
        push_dec(s, n / 10);
        push_char(s, (48 + (n % 10) as u8) as char);
        proof {
            assert_seqs_equal!(s@, old(s)@ + dec_chars(n as int));
        }
    }
}

/// The distinct names `{prefix}{0}` through `{prefix}{count - 1}`.
pub fn make_names(prefix: &str, count: u16) -> (names: Vec<String>)
    ensures
        names@.map_values(|s: String| s@) == names_spec(prefix@, count as int),
        forall|i: int, j: int| 0 <= i < j < names@.len() ==> names@[i]@ != names@[j]@,
{
    let mut names: Vec<String> = Vec::new();
    let mut i: u16 = 0;
    while i < count
        invariant
            i <= count,
            names@.len() == i,
            forall|j: int| 0 <= j < i ==> names@[j]@ == prefix@ + dec_chars(j),
        decreases count - i,
    {
        let mut name: String = prefix.to_owned();
        push_dec(&mut name, i);
        names.push(name);
        i = i + 1;
    }
    proof {
        assert forall|i0: int, j0: int| 0 <= i0 < j0 < names@.len()
            implies names@[i0]@ != names@[j0]@ by {
            lemma_dec_chars_injective(i0, j0);
            if names@[i0]@ == names@[j0]@ {
                let a = dec_chars(i0);
                let b = dec_chars(j0);
                assert((prefix@ + a).len() == (prefix@ + b).len());
                assert(a.len() == b.len());
                assert forall|k: int| 0 <= k < a.len() implies a[k] == b[k] by {
                    assert((prefix@ + a)[prefix@.len() + k] == a[k]);
                    assert((prefix@ + b)[prefix@.len() + k] == b[k]);
                }
                assert(a =~= b);
            }
        }
        assert_seqs_equal!(names@.map_values(|s: String| s@), names_spec(prefix@, count as int));
    }
    names
}

/// Finds the queue with the given name.
pub(crate) fn find_index(names: &Vec<String>, name: &str) -> (r: Option<usize>)
    ensures
        match r {
            Some(i) => i < names@.len() && names@[i as int]@ == name@,
            None => forall|i: int| 0 <= i < names@.len() ==> names@[i]@ != name@,
        },
{
    let wanted: String = name.to_owned();
    let mut i: usize = 0;
    while i < names.len()
        invariant
            i <= names@.len(),
            wanted@ == name@,
            forall|j: int| 0 <= j < i ==> names@[j]@ != name@,
        decreases names@.len() - i,
    {
        if names[i] == wanted {
            return Some(i);
        }
        i = i + 1;
    }
    None
}

/// With distinct names, the index a lookup finds is the index the
/// contracts speak of.
pub proof fn lemma_index_of_unique(model: Seq<Seq<char>>, name: Seq<char>, idx: int)
    requires
        0 <= idx < model.len(),
        model[idx] == name,
        forall|i: int, j: int| 0 <= i < j < model.len() ==> model[i] != model[j],
    ensures
        model.contains(name),
        model.index_of(name) == idx,
{
    assert(model.contains(name));
    let i0 = model.index_of(name);
    assert(0 <= i0 < model.len() && model[i0] == name);
    if i0 < idx {
        assert(model[i0] != model[idx]);
        assert(false);
    } else if idx < i0 {
        assert(model[idx] != model[i0]);
        assert(false);
    }
}

/// The uniform contract every storage backend satisfies: a fixed set of
/// named queues, each following the queue contract, with operations on
/// one queue leaving every other queue untouched.
pub trait Storage: Sized {
    /// The internal well-formedness condition.
    spec fn inv(&self) -> bool;

    /// The configured queue names, in registry order, distinct.
    spec fn names_model(&self) -> Seq<Seq<char>>;

    /// The key the next push on queue `i` will return.
    spec fn next_at(&self, i: int) -> Key;

    /// What a batch read on queue `i` can see, in ascending key order.
    spec fn visible_at(&self, i: int) -> Seq<(Key, Seq<u8>)>;

    /// Whether queue `i` can accept a push of `item`.
    spec fn can_push_at(&self, i: int, item: Seq<u8>) -> bool;

    /// How a remove on queue `i` transforms that queue.
    spec fn removed_at(pre: Self, i: int, key: Key, post: Self) -> bool;

    /// The configured queue names; stable for the life of the storage.
    fn names(&self) -> (out: Vec<String>)
        requires
            self.inv(),
        ensures
            out@.map_values(|s: String| s@) == self.names_model(),
    ;

    /// Appends `payload` as the new tail of the named queue and returns
    /// the assigned key; every other queue is untouched.
    fn push(&mut self, name: &str, payload: Payload) -> (key: Key)
        requires
            old(self).inv(),
            old(self).names_model().contains(name@),
            old(self).can_push_at(old(self).names_model().index_of(name@), payload@),
        ensures
            final(self).inv(),
            final(self).names_model() == old(self).names_model(),
            ({
                let i = old(self).names_model().index_of(name@);
                &&& key == old(self).next_at(i)
                &&& key.1 < u64::MAX
                &&& final(self).next_at(i) == Key(key.0, (key.1 + 1) as u64)
                &&& final(self).visible_at(i) == old(self).visible_at(i).push((key, payload@))
                &&& forall|j: int| 0 <= j < old(self).names_model().len() && j != i
                    ==> final(self).visible_at(j) == old(self).visible_at(j)
                        && final(self).next_at(j) == old(self).next_at(j)
            }),
    ;

    /// Copies out up to `size` of the oldest items of the named queue,
    /// oldest first, removing nothing: a peek, not a pop.
    fn batch(&self, name: &str, size: usize) -> (out: VecDeque<(Key, Payload)>)
        requires
            self.inv(),
            self.names_model().contains(name@),
        ensures
            ({
                let i = self.names_model().index_of(name@);
                crate::memory::pairs_view(out@) == self.visible_at(i).take(
                    crate::memory::min_int(size as int, self.visible_at(i).len() as int),
                )
            }),
    ;

    /// Logically deletes the item at `key` from the named queue; an
    /// absent key is a no-op, and every other queue is untouched.
    fn remove(&mut self, name: &str, key: Key)
        requires
            old(self).inv(),
            old(self).names_model().contains(name@),
        ensures
            final(self).inv(),
            final(self).names_model() == old(self).names_model(),
            ({
                let i = old(self).names_model().index_of(name@);
                &&& Self::removed_at(*old(self), i, key, *final(self))
                &&& final(self).next_at(i) == old(self).next_at(i)
                &&& forall|j: int| 0 <= j < old(self).names_model().len() && j != i
                    ==> final(self).visible_at(j) == old(self).visible_at(j)
                        && final(self).next_at(j) == old(self).next_at(j)
            }),
    ;
}

} // verus!
