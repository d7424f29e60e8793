//! A short oblivious queue.
use vstd::prelude::*;
use crate::datastructures::array::ShortArray;
use crate::primitives::indexable::Length;
use crate::primitives::traits::{Cmov, cmov_result};

verus! {

/// An element of a short queue. A timestamp of zero marks an empty slot; otherwise the
/// timestamp orders the element among the others in the queue.
#[derive(Debug, Clone, Copy)]
pub struct ShortQueueElement<T> {
    /// When the element was pushed; zero for an empty slot.
    pub timestamp: usize,
    /// The element.
    pub value: T,
}

impl<T: Default> Default for ShortQueueElement<T> {
    fn default() -> (r: Self)
        ensures
            r.timestamp == 0,
    {
        ShortQueueElement { timestamp: 0, value: T::default() }
    }
}

impl<T> ShortQueueElement<T> {
    /// Whether the slot is empty: its timestamp is zero.
    pub fn is_empty(&self) -> (b: bool)
        ensures
            b == (self.timestamp == 0),
    {
        self.timestamp == 0
    }
}

impl<T: Cmov + Copy> Cmov for ShortQueueElement<T> {
    fn cmov(&mut self, other: &Self, choice: bool) {
        self.timestamp.cmov(&other.timestamp, choice);
        self.value.cmov(&other.value, choice);
    }

    fn cxchg(&mut self, other: &mut Self, choice: bool) {
        let tmp = *self;
        self.cmov(other, choice);
        other.cmov(&tmp, choice);
    }
}

/// A queue of at most `N` elements whose access pattern and size are oblivious: every
/// operation scans all `N` slots. Elements carry the timestamp of their push; a pop takes
/// the element with the lowest timestamp.
#[derive(Debug)]
pub struct ShortQueue<T, const N: usize> {
    /// The timestamp of the most recently pushed element.
    pub(crate) highest_timestamp: usize,
    /// The timestamp of the oldest element, or the next timestamp when the queue is empty.
    pub(crate) lowest_timestamp: usize,
    /// Number of elements in the queue.
    pub(crate) size: usize,
    /// The slots.
    pub(crate) elements: ShortArray<ShortQueueElement<T>, N>,
}

/// Number of empty slots (timestamp zero) among the first `k` slots of `s`.
pub open spec fn count_empty<T>(s: Seq<ShortQueueElement<T>>, k: int) -> nat
    decreases k,
{
    if k <= 0 {
        0
    } else {
        count_empty(s, k - 1) + (if s[k - 1].timestamp == 0 { 1nat } else { 0nat })
    }
}

/// Counting empty slots looks only at the timestamps of the first `k` slots.
proof fn lemma_count_empty_same<T>(s: Seq<ShortQueueElement<T>>, t: Seq<ShortQueueElement<T>>, k: int)
    requires
        0 <= k <= s.len(),
        k <= t.len(),
        forall|i: int| 0 <= i < k ==> (s[i].timestamp == 0) == (t[i].timestamp == 0),
    ensures
        count_empty(s, k) == count_empty(t, k),
    decreases k,
{
    if k > 0 {
        lemma_count_empty_same(s, t, k - 1);
    }
}

/// Filling (or emptying) slot `i` takes one from (or adds one to) the count of empty slots.
proof fn lemma_count_empty_update<T>(s: Seq<ShortQueueElement<T>>, i: int, e: ShortQueueElement<T>, k: int)
    requires
        0 <= i < k <= s.len(),
    ensures
        count_empty(s.update(i, e), k) + (if s[i].timestamp == 0 { 1int } else { 0int }) == count_empty(s, k) + (if e.timestamp == 0 { 1int } else { 0int }),
    decreases k,
{
    if k - 1 > i {
        lemma_count_empty_update(s, i, e, k - 1);
    } else {
        lemma_count_empty_same(s.update(i, e), s, k - 1);
    }
}

/// Some slot is empty when the count of empty slots is not zero.
proof fn lemma_count_empty_exists<T>(s: Seq<ShortQueueElement<T>>, k: int)
    requires
        0 <= k <= s.len(),
        count_empty(s, k) > 0,
    ensures
        exists|i: int| 0 <= i < k && s[i].timestamp == 0,
    decreases k,
{
    if s[k - 1].timestamp != 0 {
        lemma_count_empty_exists(s, k - 1);
    }
}

/// All slots are empty: the count is the number of slots.
proof fn lemma_count_empty_all<T>(s: Seq<ShortQueueElement<T>>, k: int)
    requires
        0 <= k <= s.len(),
        forall|i: int| 0 <= i < k ==> s[i].timestamp == 0,
    ensures
        count_empty(s, k) == k,
    decreases k,
{
    if k > 0 {
        lemma_count_empty_all(s, k - 1);
    }
}

impl<T, const N: usize> ShortQueue<T, N> {
    /// Timestamp of slot `i`.
    spec fn ts(&self, i: int) -> usize {
        self.elements.data@[i].timestamp
    }

    /// The slots with non-zero timestamps hold exactly the timestamps
    /// `lowest_timestamp..=highest_timestamp`, once each; the others are empty.
    pub closed spec fn wf(&self) -> bool {
        &&& 1 <= self.lowest_timestamp <= self.highest_timestamp + 1
        &&& self.highest_timestamp < usize::MAX
        &&& self.size == self.highest_timestamp + 1 - self.lowest_timestamp
        &&& self.size <= N
        &&& count_empty(self.elements.data@, N as int) == N - self.size
        &&& forall|i: int| 0 <= i < N ==> self.ts(i) == 0 || (self.lowest_timestamp <= #[trigger] self.ts(i) <= self.highest_timestamp)
        &&& forall|i: int, j: int| 0 <= i < N && 0 <= j < N && i != j && self.ts(i) != 0 ==> #[trigger] self.ts(i) != #[trigger] self.ts(j)
        &&& forall|t: int| self.lowest_timestamp <= t <= self.highest_timestamp ==> #[trigger] self.has_ts(t)
    }

    /// Some slot holds timestamp `t`.
    spec fn has_ts(&self, t: int) -> bool {
        exists|i: int| 0 <= i < N && self.ts(i) == t
    }

    /// The slot that holds timestamp `t`.
    spec fn slot_of(&self, t: int) -> int {
        choose|i: int| 0 <= i < N && self.ts(i) == t
    }

    /// The elements in the queue, oldest first.
    pub closed spec fn contents(&self) -> Seq<T> {
        Seq::new(self.size as nat, |j: int| self.elements.data@[self.slot_of(self.lowest_timestamp + j)].value)
    }

    /// The element held in slot `i`, with its timestamp; an empty slot has timestamp zero.
    pub closed spec fn slot_at(&self, i: int) -> ShortQueueElement<T> {
        self.elements.data@[i]
    }

    /// Number of elements in the queue.
    pub closed spec fn size(&self) -> nat {
        self.size as nat
    }

    /// Number of timestamps handed out so far: one per real push.
    pub closed spec fn issued(&self) -> nat {
        self.highest_timestamp as nat
    }

    /// Timestamps can still be handed out to a push.
    pub open spec fn has_timestamps(&self) -> bool {
        self.issued() + 1 < usize::MAX
    }

    /// In a well-formed queue the slot of a timestamp in range is the one that holds it.
    proof fn lemma_slot_of(&self, t: int, i: int)
        requires
            self.wf(),
            self.lowest_timestamp <= t <= self.highest_timestamp,
            0 <= i < N,
            self.ts(i) == t,
        ensures
            self.slot_of(t) == i,
    {
        let k = self.slot_of(t);
        assert(0 <= k < N && self.ts(k) == t);
        if k != i {
            assert(self.ts(k) != self.ts(i));
        }
    }

    /// The number of elements is the length of the contents.
    pub proof fn lemma_size_is_len(&self)
        ensures
            self.contents().len() == self.size(),
    {
    }

    /// Whether timestamps are left for a push.
    pub fn has_timestamp_room(&self) -> (r: bool)
        ensures
            r == self.has_timestamps(),
    {
        self.highest_timestamp < usize::MAX - 1
    }

    /// Whether a push can be taken: the queue has room and timestamps are left.
    pub fn can_push(&self) -> (r: bool)
        requires
            self.wf(),
        ensures
            r == (self.size() < N && self.has_timestamps()),
    {
        self.size < N && self.highest_timestamp < usize::MAX - 1
    }
}

impl<T: Cmov + Copy + Default, const N: usize> ShortQueue<T, N> {
    /// Creates a new empty `ShortQueue` with maximum size `N`.
    pub fn new() -> (r: Self)
        ensures
            r.wf(),
            r.contents() == Seq::<T>::empty(),
            r.size() == 0,
            r.issued() == 0,
            r.has_timestamps(),
    {
        let empty = ShortQueueElement::<T>::default();
        let r = ShortQueue { highest_timestamp: 0, lowest_timestamp: 1, size: 0, elements: ShortArray { data: [empty; N] } };
        proof {
            assert forall|i: int| 0 <= i < N implies r.ts(i) == 0 by {
                assert(r.elements.data@[i] == empty);
            }
            lemma_count_empty_all(r.elements.data@, N as int);
            assert(r.contents() =~= Seq::<T>::empty());
        }
        r
    }

    /// Pushes `element` at the back of the queue if `real_op` is true; otherwise only goes
    /// through the same motions. Every slot is scanned.
    pub fn maybe_push(&mut self, real_op: bool, element: T)
        requires
            old(self).wf(),
            real_op ==> old(self).size() < N && old(self).has_timestamps(),
        ensures
            final(self).wf(),
            final(self).contents() == (if real_op { old(self).contents().push(element) } else { old(self).contents() }),
            final(self).size() == (if real_op { old(self).size() + 1 } else { old(self).size() }),
            final(self).issued() == (if real_op { old(self).issued() + 1 } else { old(self).issued() }),
    {
        let ghost orig = *self;
        let next_size = self.size.wrapping_add(1);
        self.size.cmov(&next_size, real_op);
        let next_ts = self.highest_timestamp.wrapping_add(1);
        self.highest_timestamp.cmov(&next_ts, real_op);
        let ts = self.highest_timestamp;
        let ghost mut slot: int = -1;
        proof {
            if real_op {
                lemma_count_empty_exists(orig.elements.data@, N as int);
                let k = choose|k: int| 0 <= k < N && orig.elements.data@[k].timestamp == 0;
                assert(orig.ts(k) == 0);
            }
        }
        let mut inserted = !real_op;
        let mut i: usize = 0;
        while i < N
            invariant
                i <= N,
                orig.wf(),
                self.size == (if real_op { (orig.size + 1) as usize } else { orig.size }),
                self.highest_timestamp == ts,
                ts == (if real_op { (orig.highest_timestamp + 1) as usize } else { orig.highest_timestamp }),
                self.lowest_timestamp == orig.lowest_timestamp,
                real_op ==> orig.size < N,
                real_op ==> exists|k: int| 0 <= k < N && orig.ts(k) == 0,
                !inserted ==> real_op && forall|k: int| 0 <= k < i ==> orig.ts(k) != 0,
                !inserted ==> self.elements == orig.elements,
                inserted && real_op ==> 0 <= slot < i && orig.ts(slot) == 0
                    && self.elements.data@ == orig.elements.data@.update(slot, ShortQueueElement { timestamp: ts, value: element }),
                !real_op ==> inserted && self.elements == orig.elements,
            decreases N - i,
        {
            let ghost prev = self.elements;
            let mut curr = self.elements.data[i];
            let is_empty = curr.timestamp == 0;
            let should_insert = !inserted && is_empty;
            curr.timestamp.cmov(&ts, should_insert);
            curr.value.cmov(&element, should_insert);
            self.elements.data[i] = curr;
            proof {
                if should_insert {
                    slot = i as int;
                    assert(self.elements.data@ =~= orig.elements.data@.update(slot, ShortQueueElement { timestamp: ts, value: element }));
                } else {
                    assert(self.elements.data =~= prev.data);
                }
            }
            inserted = inserted || should_insert;
            i += 1;
        }
        proof {
            if real_op {
                if !inserted {
                    let k = choose|k: int| 0 <= k < N && orig.ts(k) == 0;
                    assert(orig.ts(k) != 0);
                }
                let e = ShortQueueElement { timestamp: ts, value: element };
                lemma_count_empty_update(orig.elements.data@, slot, e, N as int);
                assert(self.ts(slot) == ts);
                assert forall|a: int| 0 <= a < N && a != slot implies self.ts(a) == orig.ts(a) by {}
                assert forall|t: int| self.lowest_timestamp <= t <= self.highest_timestamp implies #[trigger] self.has_ts(t) by {
                    if t < ts {
                        assert(orig.has_ts(t));
                        let a = choose|a: int| 0 <= a < N && orig.ts(a) == t;
                        assert(self.ts(a) == t);
                    } else {
                        assert(self.ts(slot) == t);
                    }
                }
                assert forall|a: int, b: int| 0 <= a < N && 0 <= b < N && a != b && self.ts(a) != 0 implies #[trigger] self.ts(a) != #[trigger] self.ts(b) by {
                    if a != slot && b != slot {
                        assert(orig.ts(a) != orig.ts(b));
                    } else if a == slot {
                        assert(orig.ts(b) == 0 || orig.ts(b) <= orig.highest_timestamp);
                    } else {
                        assert(orig.ts(a) == 0 || orig.ts(a) <= orig.highest_timestamp);
                    }
                }
                assert forall|a: int| 0 <= a < N implies self.ts(a) == 0 || (self.lowest_timestamp <= #[trigger] self.ts(a) <= self.highest_timestamp) by {
                    if a != slot {
                        assert(orig.ts(a) == 0 || (orig.lowest_timestamp <= orig.ts(a) <= orig.highest_timestamp));
                    }
                }
                assert(self.wf());
                assert forall|j: int| 0 <= j < orig.size implies self.contents()[j] == orig.contents()[j] by {
                    let t = orig.lowest_timestamp + j;
                    assert(orig.has_ts(t));
                    let k = orig.slot_of(t);
                    assert(0 <= k < N && orig.ts(k) == t);
                    assert(k != slot);
                    self.lemma_slot_of(t, k);
                }
                self.lemma_slot_of(ts as int, slot);
                assert(self.contents() =~= orig.contents().push(element));
            } else {
                assert(self.elements == orig.elements);
                assert(*self == orig);
            }
        }
    }

    /// Pops the oldest element of the queue into `out` if `real_op` is true; otherwise only
    /// goes through the same motions and leaves `out` unchanged. Every slot is scanned.
    pub fn maybe_pop(&mut self, real_op: bool, out: &mut T)
        requires
            old(self).wf(),
            real_op ==> old(self).size() > 0,
        ensures
            final(self).wf(),
            real_op ==> *final(out) == old(self).contents()[0] && final(self).contents() == old(self).contents().drop_first(),
            !real_op ==> *final(out) == *old(out) && final(self).contents() == old(self).contents(),
            final(self).size() == (if real_op { (old(self).size() - 1) as nat } else { old(self).size() }),
            final(self).issued() == old(self).issued(),
    {
        let ghost orig = *self;
        let next_size = self.size.wrapping_sub(1);
        self.size.cmov(&next_size, real_op);
        let lowest = self.lowest_timestamp;
        let mut second_lowest_timestamp = self.highest_timestamp.wrapping_add(1);
        let ghost low_slot: int = if real_op { orig.slot_of(lowest as int) } else { -1 };
        proof {
            if real_op {
                assert(orig.has_ts(lowest as int));
            }
        }
        let mut i: usize = 0;
        while i < N
            invariant
                i <= N,
                orig.wf(),
                lowest == orig.lowest_timestamp,
                self.size == (if real_op { (orig.size - 1) as usize } else { orig.size }),
                self.highest_timestamp == orig.highest_timestamp,
                self.lowest_timestamp == lowest,
                real_op ==> 0 <= low_slot < N && orig.ts(low_slot) == lowest,
                real_op ==> (*out == (if low_slot < i { orig.elements.data@[low_slot].value } else { *old(out) })),
                !real_op ==> *out == *old(out),
                forall|k: int| 0 <= k < N ==> #[trigger] self.elements.data@[k] == (if k < i && real_op && k == low_slot {
                    ShortQueueElement { timestamp: 0, value: orig.elements.data@[k].value }
                } else {
                    orig.elements.data@[k]
                }),
                second_lowest_timestamp <= orig.highest_timestamp + 1,
                real_op ==> lowest < second_lowest_timestamp,
                forall|k: int| 0 <= k < i && orig.ts(k) != 0 && orig.ts(k) != lowest ==> second_lowest_timestamp <= #[trigger] orig.ts(k),
                second_lowest_timestamp == orig.highest_timestamp + 1 || exists|k: int| 0 <= k < i && #[trigger] orig.ts(k) == second_lowest_timestamp,
            decreases N - i,
        {
            let mut curr = self.elements.data[i];
            proof {
                assert(curr == orig.elements.data@[i as int]);
                assert(orig.ts(i as int) == 0 || (lowest <= orig.ts(i as int) <= orig.highest_timestamp));
            }
            let is_empty = curr.timestamp == 0;
            let is_lowest = !is_empty && curr.timestamp == lowest;
            let could_be_second_lowest = !is_empty && !is_lowest && (curr.timestamp < second_lowest_timestamp);
            let should_pop = real_op && is_lowest;
            proof {
                if real_op && is_lowest {
                    orig.lemma_slot_of(lowest as int, i as int);
                }
                if real_op && i as int == low_slot {
                    assert(is_lowest);
                }
            }
            second_lowest_timestamp.cmov(&curr.timestamp, could_be_second_lowest);
            proof {
                if could_be_second_lowest {
                    assert(orig.ts(i as int) == second_lowest_timestamp);
                }
            }
            out.cmov(&curr.value, should_pop);
            curr.timestamp.cmov(&0, should_pop);
            self.elements.data[i] = curr;
            i += 1;
        }
        self.lowest_timestamp.cmov(&second_lowest_timestamp, real_op);
        proof {
            if real_op {
                // The next oldest timestamp is `lowest + 1`.
                if lowest + 1 <= orig.highest_timestamp {
                    assert(orig.has_ts(lowest + 1));
                    let k = choose|k: int| 0 <= k < N && #[trigger] orig.ts(k) == lowest + 1;
                    assert(second_lowest_timestamp <= orig.ts(k));
                }
                if second_lowest_timestamp != orig.highest_timestamp + 1 {
                    let k = choose|k: int| 0 <= k < N && #[trigger] orig.ts(k) == second_lowest_timestamp;
                    assert(orig.ts(k) != 0);
                }
                assert(self.lowest_timestamp == lowest + 1);
                let e = ShortQueueElement { timestamp: 0, value: orig.elements.data@[low_slot].value };
                assert(self.elements.data@ =~= orig.elements.data@.update(low_slot, e));
                lemma_count_empty_update(orig.elements.data@, low_slot, e, N as int);
                assert forall|a: int| 0 <= a < N && a != low_slot implies self.ts(a) == orig.ts(a) by {}
                assert forall|t: int| self.lowest_timestamp <= t <= self.highest_timestamp implies #[trigger] self.has_ts(t) by {
                    assert(orig.has_ts(t));
                    let a = choose|a: int| 0 <= a < N && orig.ts(a) == t;
                    assert(a != low_slot);
                    assert(self.ts(a) == t);
                }
                assert forall|a: int, b: int| 0 <= a < N && 0 <= b < N && a != b && self.ts(a) != 0 implies #[trigger] self.ts(a) != #[trigger] self.ts(b) by {
                    if a != low_slot && b != low_slot {
                        assert(orig.ts(a) != orig.ts(b));
                    }
                }
                assert forall|a: int| 0 <= a < N implies self.ts(a) == 0 || (self.lowest_timestamp <= #[trigger] self.ts(a) <= self.highest_timestamp) by {
                    if a != low_slot && orig.ts(a) != 0 {
                        assert(orig.ts(a) != orig.ts(low_slot));
                    }
                }
                assert(self.wf());
                assert forall|j: int| 0 <= j < self.size implies self.contents()[j] == orig.contents()[j + 1] by {
                    let t = orig.lowest_timestamp + j + 1;
                    assert(orig.has_ts(t));
                    let k = orig.slot_of(t);
                    assert(0 <= k < N && orig.ts(k) == t);
                    assert(k != low_slot);
                    self.lemma_slot_of(t, k);
                }
                assert(self.contents() =~= orig.contents().drop_first());
                assert(orig.slot_of(orig.lowest_timestamp + 0) == low_slot);
            } else {
                assert(self.elements.data =~= orig.elements.data);
                assert(*self == orig);
            }
        }
    }
}

impl<T: Copy, const N: usize> ShortQueue<T, N> {
    /// The element in slot `i`; empty slots have timestamp zero.
    pub(crate) fn slot(&self, i: usize) -> (r: ShortQueueElement<T>)
        requires
            i < N,
        ensures
            r == self.slot_at(i as int),
    {
        self.elements.data[i]
    }

    /// Replaces the value held in slot `i`, keeping its timestamp: the queue's size and
    /// timestamps do not change, and every other slot stays as it was.
    pub fn set_slot_value(&mut self, i: usize, value: T)
        requires
            old(self).wf(),
            i < N,
        ensures
            final(self).wf(),
            final(self).size() == old(self).size(),
            final(self).issued() == old(self).issued(),
            final(self).slot_at(i as int) == (ShortQueueElement { timestamp: old(self).slot_at(i as int).timestamp, value }),
            forall|j: int| 0 <= j < N && j != i ==> #[trigger] final(self).slot_at(j) == old(self).slot_at(j),
    {
        let ghost orig = *self;
        let mut e = self.elements.data[i];
        e.value = value;
        self.elements.data[i] = e;
        proof {
            assert forall|a: int| 0 <= a < N implies self.ts(a) == orig.ts(a) by {}
            lemma_count_empty_same(self.elements.data@, orig.elements.data@, N as int);
            assert forall|a: int, b: int| 0 <= a < N && 0 <= b < N && a != b && self.ts(a) != 0 implies #[trigger] self.ts(a) != #[trigger] self.ts(b) by {
                assert(orig.ts(a) != orig.ts(b));
            }
            assert forall|a: int| 0 <= a < N implies self.ts(a) == 0 || (self.lowest_timestamp <= #[trigger] self.ts(a) <= self.highest_timestamp) by {
                assert(orig.ts(a) == 0 || (orig.lowest_timestamp <= orig.ts(a) <= orig.highest_timestamp));
            }
            assert forall|t: int| self.lowest_timestamp <= t <= self.highest_timestamp implies #[trigger] self.has_ts(t) by {
                assert(orig.has_ts(t));
                let a = choose|a: int| 0 <= a < N && orig.ts(a) == t;
                assert(self.ts(a) == t);
            }
        }
    }
}

impl<T, const N: usize> Length for ShortQueue<T, N> {
    open spec fn len_spec(&self) -> nat {
        self.size()
    }

    fn len(&self) -> (r: usize) {
        self.size
    }
}

impl<T: Cmov + Copy + Default, const N: usize> Default for ShortQueue<T, N> {
    fn default() -> (r: Self)
        ensures
            r.wf(),
            r.contents() == Seq::<T>::empty(),
    {
        Self::new()
    }
}

} // verus!
