//! A fixed-capacity circular store keyed by wrapping 16-bit sequence numbers.
//!
//! Each entry lives in slot `sequence mod capacity` of two parallel arrays:
//! one of slot tags (the exact sequence number an entry was stored under) and
//! one of payloads.  A value is valid for a sequence number only while the
//! tag matches it exactly, which keeps a stale value left over from an
//! earlier cycle of the counter from being read as the entry of a newer,
//! wrapped-around sequence number that maps to the same slot.

use vstd::prelude::*;

use crate::compare::seq_gt;
use crate::compare::seq_lt;
use crate::compare::sequence_greater_than;
use crate::compare::sequence_less_than;
use crate::compare::wrap_add;
use crate::compare::wrap_dist;
use crate::compare::wrap_fwd;
use crate::compare::wrap_sub;
use crate::compare::SequenceNumber;

verus! {

/// What happens to a slot tag when the sequence numbers at a forward
/// distance below `n` from `from` are removed: a tag in that range is
/// cleared, every other tag stays.
pub open spec fn swept_tag(tag: Option<u16>, from: u16, n: int) -> Option<u16> {
    match tag {
        Some(t) => if wrap_dist(from, t) < n {
            None
        } else {
            Some(t)
        },
        None => None,
    }
}

/// The payload counterpart of [`swept_tag`]: a payload is dropped exactly
/// when its slot's tag is cleared.
pub open spec fn swept_value<T>(tag: Option<u16>, value: Option<T>, from: u16, n: int) -> Option<
    T,
> {
    match tag {
        Some(t) => if wrap_dist(from, t) < n {
            None
        } else {
            value
        },
        None => value,
    }
}

/// Fixed-capacity store for payloads of any duplicable kind, keyed by
/// wrapping 16-bit sequence numbers.
#[derive(Debug)]
pub struct SequenceBuffer<T: Clone> {
    sequence_num: SequenceNumber,
    entry_sequences: Vec<Option<SequenceNumber>>,
    entries: Vec<Option<T>>,
}

impl<T: Clone> SequenceBuffer<T> {
    /// The fixed number of slots, chosen at construction.
    pub closed spec fn cap(self) -> int {
        self.entry_sequences@.len() as int
    }

    /// One past the most recently accepted sequence number.
    pub closed spec fn head(self) -> u16 {
        self.sequence_num
    }

    /// The slot tags: `Some(s)` where the slot holds the entry for `s`.
    pub closed spec fn tags(self) -> Seq<Option<u16>> {
        self.entry_sequences@
    }

    /// The stored payloads, parallel to [`Self::tags`].
    pub closed spec fn values(self) -> Seq<Option<T>> {
        self.entries@
    }

    /// Well-formedness: the two slot arrays have the fixed positive length,
    /// a slot holds a payload exactly when it holds a tag, and every tag
    /// sits in the slot its sequence number maps to.
    pub open spec fn wf(self) -> bool {
        &&& 1 <= self.cap() <= 65535
        &&& self.tags().len() == self.cap()
        &&& self.values().len() == self.cap()
        &&& (forall|i: int|
            0 <= i < self.cap() ==> ((#[trigger] self.tags()[i]) is Some <==> self.values()[i]
                is Some))
        &&& (forall|i: int|
            0 <= i < self.cap() ==> ((#[trigger] self.tags()[i]) matches Some(t) ==> t as int
                % self.cap() == i))
    }

    /// The slot the sequence number `s` maps to.
    pub open spec fn slot_of(self, s: u16) -> int {
        s as int % self.cap()
    }

    /// Whether an entry is currently stored under `s` exactly.
    pub open spec fn has(self, s: u16) -> bool {
        self.tags()[self.slot_of(s)] == Some(s)
    }

    /// The payload stored under `s`; meaningful only when `self.has(s)`.
    pub open spec fn value_at(self, s: u16) -> T {
        self.values()[self.slot_of(s)]->Some_0
    }

    /// The lower bound of the retained window, `head - capacity` (wrapping).
    pub open spec fn spec_oldest(self) -> u16 {
        wrap_sub(self.head(), self.cap() as u16)
    }

    /// Whether accepting `s` slides the window forward: true when `s + 1` is
    /// cyclically ahead of the current head.
    pub open spec fn advances(self, s: u16) -> bool {
        seq_gt(wrap_add(s, 1), self.head())
    }

    /// How far the eviction that accompanies a slide to `s` reaches: every
    /// tag within that forward distance of the head is cleared.  When the
    /// span from the head to `s` is at least the capacity, every slot is
    /// wiped outright, which clears every tag whatever its distance.
    pub open spec fn evict_count(self, s: u16) -> int {
        if wrap_dist(self.head(), s) < self.cap() {
            wrap_dist(self.head(), s) + 1
        } else {
            65536
        }
    }

    /// Creates a buffer with `size` empty slots and a head of 0.
    pub fn with_capacity(size: u16) -> (r: Self)
        requires
            1 <= size,
        ensures
            r.wf(),
            r.cap() == size as int,
            r.head() == 0,
            forall|i: int| 0 <= i < r.cap() ==> (#[trigger] r.tags()[i]) is None,
            forall|i: int| 0 <= i < r.cap() ==> (#[trigger] r.values()[i]) is None,
            forall|s: u16| !r.has(s),
    {
        let mut entry_sequences: Vec<Option<u16>> = Vec::new();
        let mut entries: Vec<Option<T>> = Vec::new();
        let mut i: usize = 0;
        while i < size as usize
            invariant
                i <= size as usize,
                entry_sequences@.len() == i,
                entries@.len() == i,
                forall|j: int| 0 <= j < i ==> (#[trigger] entry_sequences@[j]) is None,
                forall|j: int| 0 <= j < i ==> (#[trigger] entries@[j]) is None,
            decreases size as int - i,
        {
            entry_sequences.push(None);
            entries.push(None);
            i = i + 1;
        }
        SequenceBuffer { sequence_num: 0, entry_sequences, entries }
    }

    /// Returns the sequence number one past the most recently accepted entry.
    pub fn sequence_num(&self) -> (r: SequenceNumber)
        ensures
            r == self.head(),
    {
        self.sequence_num
    }

    /// Maps a sequence number to its slot in the two arrays.
    fn index(&self, sequence: SequenceNumber) -> (r: usize)
        requires
            self.wf(),
        ensures
            r == self.slot_of(sequence),
            r < self.tags().len(),
    {
        sequence as usize % self.entry_sequences.len()
    }

    /// Returns whether an entry was stored under exactly this sequence
    /// number and is still live.
    pub fn contains(&self, sequence_num: SequenceNumber) -> (r: bool)
        requires
            self.wf(),
        ensures
            r == self.has(sequence_num),
    {
        let index = self.index(sequence_num);
        if let Some(s) = self.entry_sequences[index] {
            return s == sequence_num;
        }
        false
    }

    /// Returns a reference to the entry stored under the given sequence
    /// number, or nothing when no live entry matches it exactly.
    pub fn get(&self, sequence_num: SequenceNumber) -> (r: Option<&T>)
        requires
            self.wf(),
        ensures
            (match r {
                Some(v) => self.has(sequence_num) && *v == self.value_at(sequence_num),
                None => !self.has(sequence_num),
            }),
    {
        if self.contains(sequence_num) {
            let index = self.index(sequence_num);
            return self.entries[index].as_ref();
        }
        None
    }

    /// Returns a mutable reference to the entry stored under the given
    /// sequence number, or nothing when no live entry matches it exactly.
    /// Writing through the reference replaces that one payload; the tags and
    /// the head are untouched.
    pub fn get_mut(&mut self, sequence_num: SequenceNumber) -> (r: Option<&mut T>)
        requires
            old(self).wf(),
        ensures
            final(self).wf(),
            final(self).cap() == old(self).cap(),
            r is Some ==> {
                &&& old(self).has(sequence_num)
                &&& *r.unwrap() == old(self).value_at(sequence_num)
                &&& final(self).head() == old(self).head()
                &&& final(self).tags() == old(self).tags()
                &&& final(self).values() == old(self).values().update(
                    old(self).slot_of(sequence_num),
                    Some(*final(r.unwrap())),
                )
            },
            r is None ==> !old(self).has(sequence_num) && *final(self) == *old(self),
    {
        if self.contains(sequence_num) {
            let index = self.index(sequence_num);
            return self.entries[index].as_mut();
        }
        None
    }

    /// Accepts `sequence_num` into the buffer together with its payload.
    /// A sequence number cyclically older than the retained window is
    /// rejected and the buffer is left untouched.  Otherwise the window
    /// slides forward when needed, evicting every entry the slide passes
    /// over, and the payload is written into the slot the number maps to.
    pub fn insert(&mut self, sequence_num: SequenceNumber, entry: T) -> (r: bool)
        requires
            old(self).wf(),
        ensures
            final(self).wf(),
            final(self).cap() == old(self).cap(),
            r == !seq_lt(sequence_num, old(self).spec_oldest()),
            !r ==> *final(self) == *old(self),
            r ==> {
                let slot = old(self).slot_of(sequence_num);
                let n = if old(self).advances(sequence_num) {
                    old(self).evict_count(sequence_num)
                } else {
                    0
                };
                &&& final(self).head() == (if old(self).advances(sequence_num) {
                    wrap_add(sequence_num, 1)
                } else {
                    old(self).head()
                })
                &&& final(self).tags()[slot] == Some(sequence_num)
                &&& final(self).values()[slot] == Some(entry)
                &&& (forall|i: int|
                    0 <= i < final(self).cap() && i != slot ==> (#[trigger] final(self).tags()[i]) == swept_tag(old(self).tags()[i], old(self).head(), n))
                &&& (forall|i: int|
                    0 <= i < final(self).cap() && i != slot ==> (#[trigger] final(self).values()[i]) == swept_value(
                        old(self).tags()[i],
                        old(self).values()[i],
                        old(self).head(),
                        n,
                    ))
            },
            r ==> final(self).has(sequence_num) && final(self).value_at(sequence_num) == entry,
    {
        let c: u16 = self.entry_sequences.len() as u16;
        if sequence_less_than(sequence_num, self.sequence_num.wrapping_sub(c)) {
            return false;
        }
        self.advance_sequence(sequence_num);

        let index = self.index(sequence_num);
        self.entry_sequences.set(index, Some(sequence_num));
        self.entries.set(index, Some(entry));

        true
    }

    /// Slides the window forward when `sequence_num` lies at or past the
    /// head, evicting every entry the slide passes over.
    fn advance_sequence(&mut self, sequence_num: SequenceNumber)
        requires
            old(self).wf(),
        ensures
            final(self).wf(),
            final(self).cap() == old(self).cap(),
            old(self).advances(sequence_num) ==> {
                &&& final(self).head() == wrap_add(sequence_num, 1)
                &&& (forall|i: int|
                    0 <= i < final(self).cap() ==> (#[trigger] final(self).tags()[i])
                        == swept_tag(
                        old(self).tags()[i],
                        old(self).head(),
                        old(self).evict_count(sequence_num),
                    ))
                &&& (forall|i: int|
                    0 <= i < final(self).cap() ==> (#[trigger] final(self).values()[i])
                        == swept_value(
                        old(self).tags()[i],
                        old(self).values()[i],
                        old(self).head(),
                        old(self).evict_count(sequence_num),
                    ))
            },
            !old(self).advances(sequence_num) ==> *final(self) == *old(self),
    {
        if sequence_greater_than(sequence_num.wrapping_add(1), self.sequence_num) {
            self.remove_entries(sequence_num as u32);
            self.sequence_num = sequence_num.wrapping_add(1);
        }
    }

    /// Evicts the entries from the head up to and including
    /// `finish_sequence`, one sequence number at a time; when that span is
    /// at least the capacity, wipes every slot outright.
    fn remove_entries(&mut self, finish_sequence: u32)
        requires
            old(self).wf(),
            finish_sequence <= 65535,
        ensures
            final(self).wf(),
            final(self).cap() == old(self).cap(),
            final(self).head() == old(self).head(),
            forall|i: int|
                0 <= i < final(self).cap() ==> (#[trigger] final(self).tags()[i]) == swept_tag(
                    old(self).tags()[i],
                    old(self).head(),
                    old(self).evict_count(finish_sequence as u16),
                ),
            forall|i: int|
                0 <= i < final(self).cap() ==> (#[trigger] final(self).values()[i])
                    == swept_value(
                    old(self).tags()[i],
                    old(self).values()[i],
                    old(self).head(),
                    old(self).evict_count(finish_sequence as u16),
                ),
    {
        let start_sequence: u32 = self.sequence_num as u32;
        let mut finish: u32 = finish_sequence;
        if finish < start_sequence {
            finish = finish + 65536;
        }
        let span: u32 = finish - start_sequence;
        assert(span == wrap_dist(old(self).head(), finish_sequence as u16));

        if span < self.entry_sequences.len() as u32 {
            let mut k: u32 = 0;
            let mut s: u16 = self.sequence_num;
            while k <= span
                invariant
                    old(self).wf(),
                    self.wf(),
                    self.cap() == old(self).cap(),
                    self.head() == old(self).head(),
                    0 <= k <= span + 1,
                    span < old(self).cap(),
                    span == wrap_dist(old(self).head(), finish_sequence as u16),
                    s == wrap_fwd(old(self).head(), k as int),
                    forall|i: int|
                        0 <= i < self.cap() ==> (#[trigger] self.tags()[i]) == swept_tag(
                            old(self).tags()[i],
                            old(self).head(),
                            k as int,
                        ),
                    forall|i: int|
                        0 <= i < self.cap() ==> (#[trigger] self.values()[i]) == swept_value(
                            old(self).tags()[i],
                            old(self).values()[i],
                            old(self).head(),
                            k as int,
                        ),
                decreases span + 1 - k,
            {
                let ghost pre = *self;
                self.remove(s);
                proof {
                    let h = old(self).head();
                    let kk = k as int;
                    assert(wrap_dist(h, s) == kk);
                    assert forall|i: int| 0 <= i < self.cap() implies (#[trigger] self.tags()[i])
                        == swept_tag(old(self).tags()[i], h, kk + 1) && self.values()[i]
                        == swept_value(old(self).tags()[i], old(self).values()[i], h, kk + 1) by {
                        let orig = old(self).tags()[i];
                        let j = pre.slot_of(s);
                        if pre.has(s) {
                            if i == j {
                                assert(orig == Some(s));
                            } else {
                                if orig is Some && wrap_dist(h, orig->Some_0) == kk {
                                    let t = orig->Some_0;
                                    assert(t == s);
                                    assert(t as int % old(self).cap() == i);
                                    assert(false);
                                }
                            }
                        } else {
                            if orig is Some && wrap_dist(h, orig->Some_0) == kk {
                                let t = orig->Some_0;
                                assert(t == s);
                                assert(pre.tags()[i] == Some(s));
                                assert(i == s as int % old(self).cap());
                                assert(pre.has(s));
                                assert(false);
                            }
                        }
                    }
                }
                s = s.wrapping_add(1);
                k = k + 1;
            }
            proof {
                assert(old(self).evict_count(finish_sequence as u16) == span + 1);
            }
        } else {
            let len = self.entry_sequences.len();
            let mut i: usize = 0;
            while i < len
                invariant
                    i <= len,
                    len == old(self).cap(),
                    self.head() == old(self).head(),
                    self.entry_sequences@.len() == len,
                    self.entries@.len() == len,
                    forall|j: int| 0 <= j < i ==> (#[trigger] self.entry_sequences@[j]) is None,
                    forall|j: int| 0 <= j < i ==> (#[trigger] self.entries@[j]) is None,
                decreases len - i,
            {
                self.entry_sequences.set(i, None);
                self.entries.set(i, None);
                i = i + 1;
            }
            proof {
                assert(old(self).evict_count(finish_sequence as u16) == 65536);
            }
        }
    }

    /// Returns the lower bound of the retained window: `head - capacity`,
    /// wrapping.
    pub fn oldest(&self) -> (r: u16)
        requires
            self.wf(),
        ensures
            r == self.spec_oldest(),
    {
        let c: u16 = self.entry_sequences.len() as u16;
        self.sequence_num.wrapping_sub(c)
    }

    /// Removes the entry stored under the given sequence number, handing its
    /// payload back; absent when no live entry matches it exactly, and the
    /// buffer is then left untouched.  Either way no entry is stored under
    /// the number afterwards.
    pub fn remove(&mut self, sequence_num: SequenceNumber) -> (r: Option<T>)
        requires
            old(self).wf(),
        ensures
            final(self).wf(),
            final(self).cap() == old(self).cap(),
            final(self).head() == old(self).head(),
            old(self).has(sequence_num) ==> {
                &&& r == Some(old(self).value_at(sequence_num))
                &&& final(self).tags() == old(self).tags().update(
                    old(self).slot_of(sequence_num),
                    None::<u16>,
                )
                &&& final(self).values() == old(self).values().update(
                    old(self).slot_of(sequence_num),
                    None::<T>,
                )
            },
            !old(self).has(sequence_num) ==> r is None && *final(self) == *old(self),
            !final(self).has(sequence_num),
    {
        if self.contains(sequence_num) {
            let index = self.index(sequence_num);
            let value = self.entries[index].take();
            self.entry_sequences.set(index, None);
            return value;
        }
        None
    }

    /// Resets the head to 0 and wipes every slot, returning the buffer to
    /// the state of a freshly constructed one of the same capacity.
    pub fn clear(&mut self)
        requires
            old(self).wf(),
        ensures
            final(self).wf(),
            final(self).cap() == old(self).cap(),
            final(self).head() == 0,
            forall|i: int| 0 <= i < final(self).cap() ==> (#[trigger] final(self).tags()[i])
                is None,
            forall|i: int| 0 <= i < final(self).cap() ==> (#[trigger] final(self).values()[i])
                is None,
            forall|s: u16| !final(self).has(s),
    {
        let size = self.entry_sequences.len();
        self.sequence_num = 0;
        let mut i: usize = 0;
        while i < size
            invariant
                i <= size,
                self.sequence_num == 0,
                self.entry_sequences@.len() == size,
                self.entries@.len() == size,
                1 <= size <= 65535,
                forall|j: int| 0 <= j < i ==> (#[trigger] self.entry_sequences@[j]) is None,
                forall|j: int| 0 <= j < i ==> (#[trigger] self.entries@[j]) is None,
            decreases size - i,
        {
            self.entry_sequences.set(i, None);
            self.entries.set(i, None);
            i = i + 1;
        }
    }

    /// Removes every entry in the cyclic range from `oldest()` up to but
    /// not including `finish_sequence`, one sequence number at a time, and
    /// walks at most `capacity` steps — the whole retained window.  The
    /// head does not move.
    pub fn remove_until(&mut self, finish_sequence: SequenceNumber)
        requires
            old(self).wf(),
        ensures
            final(self).wf(),
            final(self).cap() == old(self).cap(),
            final(self).head() == old(self).head(),
            ({
                let from = old(self).spec_oldest();
                let n = if wrap_dist(from, finish_sequence) < old(self).cap() {
                    wrap_dist(from, finish_sequence)
                } else {
                    old(self).cap()
                };
                &&& (forall|i: int|
                    0 <= i < final(self).cap() ==> (#[trigger] final(self).tags()[i])
                        == swept_tag(old(self).tags()[i], from, n))
                &&& (forall|i: int|
                    0 <= i < final(self).cap() ==> (#[trigger] final(self).values()[i])
                        == swept_value(old(self).tags()[i], old(self).values()[i], from, n))
            }),
    {
        let oldest = self.oldest();
        let cap32: u32 = self.entry_sequences.len() as u32;
        let d: u32 = if finish_sequence >= oldest {
            (finish_sequence - oldest) as u32
        } else {
            finish_sequence as u32 + 65536 - oldest as u32
        };
        let n: u32 = if d < cap32 {
            d
        } else {
            cap32
        };
        let mut k: u32 = 0;
        let mut s: u16 = oldest;
        while k < n
            invariant
                old(self).wf(),
                self.wf(),
                self.cap() == old(self).cap(),
                self.head() == old(self).head(),
                0 <= k <= n,
                n <= old(self).cap(),
                oldest == old(self).spec_oldest(),
                s == wrap_fwd(oldest, k as int),
                forall|i: int|
                    0 <= i < self.cap() ==> (#[trigger] self.tags()[i]) == swept_tag(
                        old(self).tags()[i],
                        oldest,
                        k as int,
                    ),
                forall|i: int|
                    0 <= i < self.cap() ==> (#[trigger] self.values()[i]) == swept_value(
                        old(self).tags()[i],
                        old(self).values()[i],
                        oldest,
                        k as int,
                    ),
            decreases n - k,
        {
            let ghost pre = *self;
            self.remove(s);
            proof {
                let kk = k as int;
                assert(wrap_dist(oldest, s) == kk);
                assert forall|i: int| 0 <= i < self.cap() implies (#[trigger] self.tags()[i])
                    == swept_tag(old(self).tags()[i], oldest, kk + 1) && self.values()[i]
                    == swept_value(old(self).tags()[i], old(self).values()[i], oldest, kk + 1) by {
                    let orig = old(self).tags()[i];
                    let j = pre.slot_of(s);
                    if pre.has(s) {
                        if i == j {
                            assert(orig == Some(s));
                        } else {
                            if orig is Some && wrap_dist(oldest, orig->Some_0) == kk {
                                let t = orig->Some_0;
                                assert(t == s);
                                assert(t as int % old(self).cap() == i);
                                assert(false);
                            }
                        }
                    } else {
                        if orig is Some && wrap_dist(oldest, orig->Some_0) == kk {
                            let t = orig->Some_0;
                            assert(t == s);
                            assert(pre.tags()[i] == Some(s));
                            assert(i == s as int % old(self).cap());
                            assert(pre.has(s));
                            assert(false);
                        }
                    }
                }
            }
            s = s.wrapping_add(1);
            k = k + 1;
        }
    }

    /// The sequence numbers a traversal that starts at `start` and advances
    /// `count` times yields: those among `start`, `start + 1`, ... (with
    /// wraparound) holding a live entry, in the order visited.
    pub open spec fn yielded_from(self, start: u16, count: nat) -> Seq<u16>
        decreases count,
    {
        if count == 0 {
            Seq::empty()
        } else {
            let rest = self.yielded_from(wrap_add(start, 1), (count - 1) as nat);
            if self.has(start) {
                seq![start] + rest
            } else {
                rest
            }
        }
    }

    /// Returns an independent traversal over the currently live entries,
    /// oldest first.
    pub fn iter(&self) -> (r: SequenceIterator<'_, T>)
        requires
            self.wf(),
        ensures
            r.spec_buffer() == *self,
            r.spec_index() == self.spec_oldest(),
            r.spec_count() == self.cap(),
    {
        SequenceIterator::new(self.oldest(), self.entry_sequences.len(), self)
    }
}

/// Lazy, read-only, forward-only traversal over a buffer's live entries:
/// it advances the visited sequence number (with wraparound) exactly
/// `capacity` times from the buffer's `oldest()`, yielding the slots that
/// hold a live entry and skipping the rest.
pub struct SequenceIterator<'s, T: Clone> {
    index: SequenceNumber,
    count: usize,
    buffer: &'s SequenceBuffer<T>,
}

impl<'s, T: Clone> SequenceIterator<'s, T> {
    /// The next sequence number the traversal will visit.
    pub closed spec fn spec_index(self) -> u16 {
        self.index
    }

    /// How many more slots the traversal will visit.
    pub closed spec fn spec_count(self) -> nat {
        self.count as nat
    }

    /// The buffer being traversed.
    pub closed spec fn spec_buffer(self) -> SequenceBuffer<T> {
        *self.buffer
    }

    /// A traversal is well-formed when its buffer is.
    pub open spec fn wf(self) -> bool {
        self.spec_buffer().wf()
    }

    /// The sequence numbers still to be yielded, in order.
    pub open spec fn remaining(self) -> Seq<u16> {
        self.spec_buffer().yielded_from(self.spec_index(), self.spec_count())
    }

    /// Creates a traversal over `seq_buf` that starts at `start` and
    /// advances `count` times.
    pub fn new(start: u16, count: usize, seq_buf: &'s SequenceBuffer<T>) -> (r: SequenceIterator<
        's,
        T,
    >)
        ensures
            r.spec_buffer() == *seq_buf,
            r.spec_index() == start,
            r.spec_count() == count,
    {
        SequenceIterator { index: start, count, buffer: seq_buf }
    }

    /// Yields a reference to the next live entry, or nothing once the
    /// traversal has visited its full span.  The buffer itself is never
    /// changed.
    pub fn next(&mut self) -> (r: Option<&'s T>)
        requires
            old(self).wf(),
        ensures
            final(self).wf(),
            final(self).spec_buffer() == old(self).spec_buffer(),
            r is Some ==> {
                &&& old(self).remaining().len() > 0
                &&& old(self).spec_buffer().has(old(self).remaining()[0])
                &&& *r.unwrap() == old(self).spec_buffer().value_at(old(self).remaining()[0])
                &&& final(self).remaining() == old(self).remaining().drop_first()
            },
            r is None ==> old(self).remaining().len() == 0 && final(self).remaining().len() == 0,
    {
        loop
            invariant
                self.wf(),
                self.spec_buffer() == old(self).spec_buffer(),
                self.remaining() == old(self).remaining(),
            decreases self.spec_count(),
        {
            if self.count == 0 {
                return None;
            }
            let current_item = self.buffer.get(self.index);
            let ghost prev = *self;
            self.index = self.index.wrapping_add(1);
            self.count = self.count - 1;
            proof {
                assert(self.spec_index() == wrap_add(prev.spec_index(), 1));
                assert(self.spec_count() == prev.spec_count() - 1);
            }
            if current_item.is_some() {
                proof {
                    let buf = self.spec_buffer();
                    assert(buf.has(prev.spec_index()));
                    assert(prev.remaining() == seq![prev.spec_index()] + self.remaining());
                    assert(prev.remaining()[0] == prev.spec_index());
                    assert(prev.remaining().drop_first() =~= self.remaining());
                }
                return current_item;
            }
            proof {
                assert(!self.spec_buffer().has(prev.spec_index()));
                assert(prev.remaining() == self.remaining());
            }
        }
    }
}

/// Law: a full traversal from the window's lower bound yields exactly those
/// sequence numbers of the retained window that hold a live entry, in
/// ascending cyclic order from `oldest()`, without duplicates, and yields
/// nothing from outside the window.
pub proof fn lemma_iteration_complete<T: Clone>(buf: SequenceBuffer<T>)
    requires
        buf.wf(),
    ensures
        ({
            let ys = buf.yielded_from(buf.spec_oldest(), buf.cap() as nat);
            &&& (forall|j: int| 0 <= j < ys.len() ==> buf.has(#[trigger] ys[j]))
            &&& (forall|j: int|
                0 <= j < ys.len() ==> wrap_dist(buf.spec_oldest(), #[trigger] ys[j]) < buf.cap())
            &&& (forall|s: u16|
                buf.has(s) && wrap_dist(buf.spec_oldest(), s) < buf.cap() ==> ys.contains(s))
            &&& (forall|j: int, k: int|
                0 <= j < k < ys.len() ==> wrap_dist(buf.spec_oldest(), ys[j]) < wrap_dist(
                    buf.spec_oldest(),
                    ys[k],
                ))
        }),
{
    lemma_yielded_from_props(buf, buf.spec_oldest(), buf.cap() as nat);
}

/// A traversal of `count` steps from `start` yields exactly the live
/// sequence numbers within forward distance `count` of `start`, ordered by
/// that distance.
proof fn lemma_yielded_from_props<T: Clone>(buf: SequenceBuffer<T>, start: u16, count: nat)
    requires
        buf.wf(),
        count <= 65536,
    ensures
        ({
            let ys = buf.yielded_from(start, count);
            &&& (forall|j: int|
                0 <= j < ys.len() ==> buf.has(#[trigger] ys[j]) && wrap_dist(start, ys[j])
                    < count)
            &&& (forall|s: u16| buf.has(s) && wrap_dist(start, s) < count ==> ys.contains(s))
            &&& (forall|j: int, k: int|
                0 <= j < k < ys.len() ==> wrap_dist(start, ys[j]) < wrap_dist(start, ys[k]))
        }),
    decreases count,
{
    if count > 0 {
        let nxt = wrap_add(start, 1);
        lemma_yielded_from_props(buf, nxt, (count - 1) as nat);
        let rest = buf.yielded_from(nxt, (count - 1) as nat);
        let ys = buf.yielded_from(start, count);
        assert forall|s: u16| s != start implies wrap_dist(start, s) == wrap_dist(nxt, s) + 1 by {}
        assert forall|j: int| 0 <= j < rest.len() implies rest[j] != start by {
            assert(buf.has(rest[j]) && wrap_dist(nxt, rest[j]) < count - 1);
        }
        if buf.has(start) {
            assert(ys == seq![start] + rest);
            assert forall|s: u16|
                buf.has(s) && wrap_dist(start, s) < count implies ys.contains(s) by {
                if s == start {
                    assert(ys[0] == start);
                } else {
                    assert(wrap_dist(nxt, s) < count - 1);
                    assert(rest.contains(s));
                    let i = choose|i: int| 0 <= i < rest.len() && rest[i] == s;
                    assert(rest[i] == s);
                    assert(ys[i + 1] == s);
                }
            }
            assert forall|j: int|
                0 <= j < ys.len() implies buf.has(#[trigger] ys[j]) && wrap_dist(start, ys[j])
                < count by {
                if j > 0 {
                    assert(ys[j] == rest[j - 1]);
                }
            }
            assert forall|j: int, k: int|
                0 <= j < k < ys.len() implies wrap_dist(start, ys[j]) < wrap_dist(
                start,
                ys[k],
            ) by {
                if j > 0 {
                    assert(ys[j] == rest[j - 1]);
                    assert(ys[k] == rest[k - 1]);
                } else {
                    assert(ys[0] == start);
                    assert(ys[k] == rest[k - 1]);
                    assert(wrap_dist(start, ys[k]) == wrap_dist(nxt, ys[k]) + 1);
                }
            }
        } else {
            assert(ys == rest);
            assert forall|s: u16|
                buf.has(s) && wrap_dist(start, s) < count implies ys.contains(s) by {
                assert(s != start);
                assert(wrap_dist(nxt, s) < count - 1);
                assert(rest.contains(s));
                let i = choose|i: int| 0 <= i < rest.len() && rest[i] == s;
                assert(rest[i] == s);
                assert(ys[i] == s);
            }
        }
    }
}

/// Law: a buffer whose slots are all empty — freshly constructed or just
/// cleared — holds no entry under any sequence number, so two such buffers
/// of one capacity and head agree on every lookup.
pub proof fn lemma_empty_buffers_agree<T: Clone>(a: SequenceBuffer<T>, b: SequenceBuffer<T>)
    requires
        a.wf(),
        b.wf(),
        a.cap() == b.cap(),
        a.head() == b.head(),
        forall|i: int| 0 <= i < a.cap() ==> (#[trigger] a.tags()[i]) is None,
        forall|i: int| 0 <= i < b.cap() ==> (#[trigger] b.tags()[i]) is None,
    ensures
        forall|s: u16| !a.has(s),
        forall|s: u16| a.has(s) == b.has(s),
        a.spec_oldest() == b.spec_oldest(),
{
}

} // verus!
