//! An oblivious unsorted map: cuckoo hashing over two tables of buckets, with a short
//! deamortization queue for insertions that did not find a slot yet.
use vstd::prelude::*;
use ahash::RandomState;
use rand::rngs::ThreadRng;
use crate::datastructures::array::MultiWayArray;
use crate::datastructures::queue::ShortQueue;
use crate::primitives::traits::{Cmov, cmov_result};
use crate::primitives::indexable::Length;
use crate::random::{thread_rng, random_below};

verus! {

/// Size of the insertion queue for deamortized insertions that failed.
pub const INSERTION_QUEUE_MAX_SIZE: usize = 10;

/// Number of deamortized insertions to perform per insertion.
pub const DEAMORTIZED_INSERTIONS: usize = 2;

/// Number of elements in each map bucket.
pub const BUCKET_SIZE: usize = 4;

/// Declares `ahash::RandomState`, a keyed hasher builder, as an opaque type.
#[verifier::external_type_specification]
#[verifier::external_body]
pub struct ExRandomState(RandomState);

/// Calls `ahash::RandomState::new()`: a hasher builder with fresh random keys. Nothing is
/// stated of the keys.
#[verifier::external_body]
fn new_random_state() -> RandomState {
    RandomState::new()
}

/// Calls `ahash::RandomState::hash_one(key)`. The hash depends on the random keys of
/// `state`, so nothing is stated of it.
#[verifier::external_body]
fn hash_one<K: std::hash::Hash>(state: &RandomState, key: &K) -> u64 {
    state.hash_one(key)
}

/// Keys of the map: values with a conditional move, a hash and an equality whose result
/// is spec equality.
pub trait OHash: Cmov + Copy + std::hash::Hash {
    /// Whether `self` and `other` are the same key.
    fn key_eq(&self, other: &Self) -> (r: bool)
        ensures
            r == (*self == *other),
    ;
}

impl OHash for u8 {
    fn key_eq(&self, other: &Self) -> (r: bool) {
        *self == *other
    }
}

impl OHash for u16 {
    fn key_eq(&self, other: &Self) -> (r: bool) {
        *self == *other
    }
}

impl OHash for u32 {
    fn key_eq(&self, other: &Self) -> (r: bool) {
        *self == *other
    }
}

impl OHash for u64 {
    fn key_eq(&self, other: &Self) -> (r: bool) {
        *self == *other
    }
}

impl OHash for u128 {
    fn key_eq(&self, other: &Self) -> (r: bool) {
        *self == *other
    }
}

impl OHash for usize {
    fn key_eq(&self, other: &Self) -> (r: bool) {
        *self == *other
    }
}

impl OHash for i8 {
    fn key_eq(&self, other: &Self) -> (r: bool) {
        *self == *other
    }
}

impl OHash for i16 {
    fn key_eq(&self, other: &Self) -> (r: bool) {
        *self == *other
    }
}

impl OHash for i32 {
    fn key_eq(&self, other: &Self) -> (r: bool) {
        *self == *other
    }
}

impl OHash for i64 {
    fn key_eq(&self, other: &Self) -> (r: bool) {
        *self == *other
    }
}

impl OHash for i128 {
    fn key_eq(&self, other: &Self) -> (r: bool) {
        *self == *other
    }
}

/// An element in the map.
#[derive(Debug, Clone, Copy)]
pub struct InlineElement<K, V> {
    /// The key.
    pub key: K,
    /// The value.
    pub value: V,
}

impl<K: Default, V: Default> Default for InlineElement<K, V> {
    fn default() -> (r: Self) {
        InlineElement { key: K::default(), value: V::default() }
    }
}

impl<K: Cmov + Copy, V: Cmov + Copy> Cmov for InlineElement<K, V> {
    fn cmov(&mut self, other: &Self, choice: bool) {
        self.key.cmov(&other.key, choice);
        self.value.cmov(&other.value, choice);
    }

    fn cxchg(&mut self, other: &mut Self, choice: bool) {
        let tmp = *self;
        self.cmov(other, choice);
        other.cmov(&tmp, choice);
    }
}

/// A bucket of `BUCKET_SIZE` slots; a slot holds an element when its valid flag is set.
#[derive(Debug, Clone, Copy)]
pub struct Bucket<K, V> {
    /// Which slots hold an element.
    pub is_valid: [bool; BUCKET_SIZE],
    /// The slots.
    pub elements: [InlineElement<K, V>; BUCKET_SIZE],
}

impl<K: Default + Copy, V: Default + Copy> Default for Bucket<K, V> {
    fn default() -> (r: Self)
        ensures
            forall|i: int| 0 <= i < BUCKET_SIZE ==> !r.is_valid@[i],
    {
        Bucket { is_valid: [false; BUCKET_SIZE], elements: [InlineElement::default(); BUCKET_SIZE] }
    }
}

impl<K: Cmov + Copy, V: Cmov + Copy> Cmov for Bucket<K, V> {
    fn cmov(&mut self, other: &Self, choice: bool) {
        let mut i: usize = 0;
        let ghost orig = *self;
        while i < BUCKET_SIZE
            invariant
                i <= BUCKET_SIZE,
                forall|j: int| 0 <= j < i ==> self.is_valid@[j] == cmov_result(orig, *other, choice).is_valid@[j],
                forall|j: int| 0 <= j < i ==> self.elements@[j] == cmov_result(orig, *other, choice).elements@[j],
                forall|j: int| i <= j < BUCKET_SIZE ==> self.is_valid@[j] == orig.is_valid@[j],
                forall|j: int| i <= j < BUCKET_SIZE ==> self.elements@[j] == orig.elements@[j],
            decreases BUCKET_SIZE - i,
        {
            let mut v = self.is_valid[i];
            v.cmov(&other.is_valid[i], choice);
            self.is_valid[i] = v;
            let mut e = self.elements[i];
            e.cmov(&other.elements[i], choice);
            self.elements[i] = e;
            i += 1;
        }
        proof {
            if choice {
                assert(self.is_valid =~= other.is_valid);
                assert(self.elements =~= other.elements);
            } else {
                assert(self.is_valid =~= orig.is_valid);
                assert(self.elements =~= orig.elements);
            }
        }
    }

    fn cxchg(&mut self, other: &mut Self, choice: bool) {
        let tmp = *self;
        self.cmov(other, choice);
        other.cmov(&tmp, choice);
    }
}

/// Slot `i` of `b` holds an element with key `key`.
pub open spec fn slot_matches<K, V>(b: Bucket<K, V>, i: int, key: K) -> bool {
    b.is_valid@[i] && b.elements@[i].key == key
}

/// Some valid slot of `b` holds key `key`.
pub open spec fn bucket_has<K, V>(b: Bucket<K, V>, key: K) -> bool {
    exists|i: int| 0 <= i < BUCKET_SIZE && #[trigger] slot_matches(b, i, key)
}

/// A write of `key` into `b` replaces a value: no earlier bucket took the write and `b`
/// holds the key.
pub open spec fn updates<K, V>(
    is_valid: [bool; BUCKET_SIZE],
    elements: [InlineElement<K, V>; BUCKET_SIZE],
    key: K,
    done_before: bool,
) -> bool {
    !done_before && bucket_has(Bucket { is_valid, elements }, key)
}

/// Slot `i` is the first empty slot of `b`.
pub open spec fn first_free_slot<K, V>(b: Bucket<K, V>, i: int) -> bool {
    &&& 0 <= i < BUCKET_SIZE
    &&& !b.is_valid@[i]
    &&& forall|j: int| 0 <= j < i ==> b.is_valid@[j]
}

impl<K: OHash, V: Cmov + Copy> Bucket<K, V> {
    /// Whether slot `i` is empty.
    fn is_empty(&self, i: usize) -> (b: bool)
        requires
            i < BUCKET_SIZE,
        ensures
            b == !self.is_valid@[i as int],
    {
        !self.is_valid[i]
    }

    /// Replaces the value of every valid slot whose key is `element.key` when `real_op`.
    /// Returns whether a replacement happened.
    fn update_if_exists(&mut self, real_op: bool, element: InlineElement<K, V>) -> (updated: bool)
        ensures
            updated == (real_op && bucket_has(*old(self), element.key)),
            final(self).is_valid == old(self).is_valid,
            forall|i: int| 0 <= i < BUCKET_SIZE ==> (#[trigger] final(self).elements@[i]).key == old(self).elements@[i].key,
            forall|i: int| 0 <= i < BUCKET_SIZE ==> (#[trigger] final(self).elements@[i]).value == (if real_op && slot_matches(*old(self), i, element.key) {
                element.value
            } else {
                old(self).elements@[i].value
            }),
    {
        let mut updated = false;
        let mut i: usize = 0;
        while i < BUCKET_SIZE
            invariant
                i <= BUCKET_SIZE,
                self.is_valid == old(self).is_valid,
                updated == (real_op && exists|j: int| 0 <= j < i && slot_matches(*old(self), j, element.key)),
                forall|j: int| 0 <= j < BUCKET_SIZE ==> (#[trigger] self.elements@[j]).key == old(self).elements@[j].key,
                forall|j: int| 0 <= j < i ==> (#[trigger] self.elements@[j]).value == (if real_op && slot_matches(*old(self), j, element.key) {
                    element.value
                } else {
                    old(self).elements@[j].value
                }),
                forall|j: int| i <= j < BUCKET_SIZE ==> self.elements@[j] == old(self).elements@[j],
            decreases BUCKET_SIZE - i,
        {
            let choice = real_op && !self.is_empty(i) && self.elements[i].key.key_eq(&element.key);
            let mut e = self.elements[i];
            e.value.cmov(&element.value, choice);
            self.elements[i] = e;
            updated.cmov(&true, choice);
            proof {
                if choice {
                    assert(slot_matches(*old(self), i as int, element.key));
                }
            }
            i += 1;
        }
        updated
    }

    /// One cuckoo step on this bucket: unless `was_done`, inserts `el` into the first empty
    /// slot; if there is none, swaps `el` with slot `randidx`. Returns whether the step is
    /// done and the element carried on.
    fn insert_or_swap(&mut self, was_done: bool, el: InlineElement<K, V>, randidx: usize) -> (r: (bool, InlineElement<K, V>))
        requires
            randidx < BUCKET_SIZE,
        ensures
            was_done ==> r.0 && r.1 == el && *final(self) == *old(self),
    {
        let inserted = self.insert_if_available(!was_done, el);
        let mut now_done = was_done;
        now_done.cmov(&true, inserted);
        let mut carried = el;
        let mut slot = self.elements[randidx];
        slot.cxchg(&mut carried, !now_done);
        let ghost prev = *self;
        self.elements[randidx] = slot;
        proof {
            if was_done {
                assert(self.elements =~= prev.elements);
            }
        }
        (now_done, carried)
    }

    /// Reads the value of key `key` into `ret` if a valid slot holds it. Returns whether
    /// one does; `ret` is untouched otherwise.
    fn read_if_exists(&self, key: K, ret: &mut V) -> (found: bool)
        ensures
            found == (exists|i: int| 0 <= i < BUCKET_SIZE && slot_matches(*self, i, key)),
            found ==> exists|i: int|
                0 <= i < BUCKET_SIZE && slot_matches(*self, i, key) && *final(ret) == self.elements@[i].value,
            !found ==> *final(ret) == *old(ret),
    {
        let mut found = false;
        let mut i: usize = 0;
        while i < BUCKET_SIZE
            invariant
                i <= BUCKET_SIZE,
                found == (exists|j: int| 0 <= j < i && slot_matches(*self, j, key)),
                found ==> exists|j: int| 0 <= j < i && slot_matches(*self, j, key) && *ret == self.elements@[j].value,
                !found ==> *ret == *old(ret),
            decreases BUCKET_SIZE - i,
        {
            let choice = !self.is_empty(i) && self.elements[i].key.key_eq(&key);
            ret.cmov(&self.elements[i].value, choice);
            found.cmov(&true, choice);
            proof {
                if choice {
                    assert(slot_matches(*self, i as int, key));
                }
            }
            i += 1;
        }
        found
    }

    /// Inserts `element` into the first empty slot when `real_op`; does nothing when the
    /// bucket is full. Returns whether the element was inserted, or `true` when `real_op`
    /// is false.
    fn insert_if_available(&mut self, real_op: bool, element: InlineElement<K, V>) -> (inserted: bool)
        ensures
            !real_op ==> inserted && *final(self) == *old(self),
            real_op ==> inserted == (exists|i: int| first_free_slot(*old(self), i)),
            real_op && !inserted ==> *final(self) == *old(self),
            real_op && inserted ==> exists|i: int|
                first_free_slot(*old(self), i) && final(self).is_valid@ == old(self).is_valid@.update(i, true)
                    && final(self).elements@ == old(self).elements@.update(i, element),
    {
        let mut inserted = !real_op;
        let mut i: usize = 0;
        let ghost mut slot: int = -1;
        while i < BUCKET_SIZE
            invariant
                i <= BUCKET_SIZE,
                !real_op ==> inserted && *self == *old(self),
                real_op && !inserted ==> *self == *old(self) && forall|j: int| 0 <= j < i ==> old(self).is_valid@[j],
                real_op && inserted ==> 0 <= slot < i && first_free_slot(*old(self), slot)
                    && self.is_valid@ == old(self).is_valid@.update(slot, true)
                    && self.elements@ == old(self).elements@.update(slot, element),
            decreases BUCKET_SIZE - i,
        {
            let choice = !inserted && self.is_empty(i);
            let ghost prev = *self;
            let mut v = self.is_valid[i];
            v.cmov(&true, choice);
            self.is_valid[i] = v;
            let mut e = self.elements[i];
            e.cmov(&element, choice);
            self.elements[i] = e;
            proof {
                if choice {
                    slot = i as int;
                    assert(self.is_valid@ =~= old(self).is_valid@.update(slot, true));
                    assert(self.elements@ =~= old(self).elements@.update(slot, element));
                } else {
                    assert(self.is_valid =~= prev.is_valid);
                    assert(self.elements =~= prev.elements);
                }
            }
            inserted.cmov(&true, choice);
            i += 1;
        }
        proof {
            if real_op && !inserted {
                assert(forall|j: int| 0 <= j < BUCKET_SIZE ==> old(self).is_valid@[j]);
                assert(!exists|k: int| first_free_slot(*old(self), k));
            }
        }
        inserted
    }
}

/// Writes `value` under `key` into `bucket` unless an earlier bucket took the write;
/// returns whether a slot of `bucket` held the key.
fn write_in_bucket<K: OHash, V: Cmov + Copy>(bucket: &mut Bucket<K, V>, done_before: bool, key: K, value: V) -> (r: bool)
    ensures
        r == updates(old(bucket).is_valid, old(bucket).elements, key, done_before),
{
    bucket.update_if_exists(!done_before, InlineElement { key, value })
}

/// Writes `value` under `key` into bucket `index` of table `t`, unless an earlier bucket
/// took the write; returns whether the bucket held the key.
fn write_table<K: OHash + Default, V: Cmov + Copy + Default>(
    table: &mut MultiWayArray<Bucket<K, V>, 2>,
    t: usize,
    index: usize,
    done_before: bool,
    key: K,
    value: V,
) -> (r: bool)
    requires
        old(table).wf(),
        t < 2,
        index < old(table).size(),
    ensures
        final(table).wf(),
        final(table).size() == old(table).size(),
        old(table).valid() && old(table).mapped(t as int, index as int) && old(table)@.contains_key((t, index)) ==> r == updates(
            old(table)@[(t, index)].is_valid,
            old(table)@[(t, index)].elements,
            key,
            done_before,
        ),
{
    let write_bucket = |bucket: &mut Bucket<K, V>| -> (r: bool)
        ensures
            r == updates(old(bucket).is_valid, old(bucket).elements, key, done_before),
        {
            let r = write_in_bucket(bucket, done_before, key, value);
            r
        };
    proof {
        lemma_two_is_pow2();
    }
    let (_, res) = table.update(t, index, write_bucket);
    res
}

/// Two tables: the number of subarrays of the table array is a power of two.
proof fn lemma_two_is_pow2()
    ensures
        crate::primitives::utils::is_pow2(2),
{
    reveal_with_fuel(crate::primitives::utils::is_pow2, 3);
}

/// An unsorted map whose access pattern does not reveal the keys: cuckoo hashing with
/// buckets of `BUCKET_SIZE` slots in two tables, plus a deamortization queue that holds
/// elements whose insertion has not found a slot yet.
pub struct UnsortedMap<K, V> {
    /// Number of elements in the map.
    size: usize,
    /// Number of elements the map was sized for.
    _capacity: usize,
    /// Number of buckets in each table.
    table_size: usize,
    /// The two tables.
    table: MultiWayArray<Bucket<K, V>, 2>,
    /// The keyed hashers of the two tables.
    hash_builders: [RandomState; 2],
    /// The deamortization queue.
    insertion_queue: ShortQueue<InlineElement<K, V>, INSERTION_QUEUE_MAX_SIZE>,
    /// Random source for the slot that a collision evicts.
    rng: ThreadRng,
    /// The buckets that lookups and writes looked at so far, oldest first: each a table,
    /// a bucket index, and whether the bucket then held the key looked for.
    lookups: Ghost<Seq<(usize, usize, bool)>>,
}

impl<K, V> UnsortedMap<K, V> {
    /// The tables are well formed with `table_size` buckets each, and the queue is not
    /// over its capacity.
    pub closed spec fn wf(&self) -> bool {
        &&& self.table.wf()
        &&& self.table.size() == self.table_size
        &&& 1 < self.table_size <= 0x1000_0000
        &&& self.insertion_queue.wf()
        &&& self.insertion_queue.size() <= INSERTION_QUEUE_MAX_SIZE
    }

    /// Number of elements in the map.
    pub closed spec fn size(&self) -> nat {
        self.size as nat
    }

    /// Number of elements waiting in the deamortization queue.
    pub closed spec fn pending(&self) -> nat {
        self.insertion_queue.size()
    }

    /// The deamortization queue can still hand out timestamps.
    pub closed spec fn queue_has_timestamps(&self) -> bool {
        self.insertion_queue.has_timestamps()
    }

    /// Number of buckets in each table.
    pub closed spec fn buckets(&self) -> nat {
        self.table_size as nat
    }

    /// The buckets that `get` and `write` looked at so far, oldest first: each a table, a
    /// bucket index, and whether, at that moment, `bucket_holds` said the bucket held the
    /// key looked for.
    pub closed spec fn lookups(&self) -> Seq<(usize, usize, bool)> {
        self.lookups@
    }

    /// Bucket `i` of table `t` holds a slot with key `key`: the tables are valid, the
    /// bucket's position is known, and a valid slot of the bucket written there has the key.
    pub closed spec fn bucket_holds(&self, t: int, i: int, key: K) -> bool {
        &&& self.table.valid()
        &&& self.table.mapped(t, i)
        &&& self.table@.contains_key((t as usize, i as usize))
        &&& bucket_has(self.table@[(t as usize, i as usize)], key)
    }
}

/// A call of `get` or `write` that started with the lookups `before` and ended with
/// `after` looked at one bucket of table 0 and then one bucket of table 1, each below
/// `buckets`.
pub open spec fn looked_in_both_tables(before: Seq<(usize, usize, bool)>, after: Seq<(usize, usize, bool)>, buckets: nat) -> bool {
    &&& after.len() == before.len() + 2
    &&& after.subrange(0, before.len() as int) == before
    &&& after[before.len() as int].0 == 0
    &&& after[before.len() + 1int].0 == 1
    &&& after[before.len() as int].1 < buckets
    &&& after[before.len() + 1int].1 < buckets
}

/// One of the two buckets that a call of `get` or `write` looked at held the key at the
/// moment it was looked at.
pub open spec fn held_in_a_table(before: Seq<(usize, usize, bool)>, after: Seq<(usize, usize, bool)>) -> bool {
    after[before.len() as int].2 || after[before.len() + 1int].2
}

/// The value of the last slot among the first `m` of the deamortization queue `q` that
/// holds `key`, if any.
pub open spec fn queue_match<K, V>(q: ShortQueue<InlineElement<K, V>, INSERTION_QUEUE_MAX_SIZE>, key: K, m: int) -> Option<V>
    decreases m,
{
    if m <= 0 {
        None
    } else if q.slot_at(m - 1).timestamp != 0 && q.slot_at(m - 1).value.key == key {
        Some(q.slot_at(m - 1).value.value)
    } else {
        queue_match(q, key, m - 1)
    }
}

impl<K, V> UnsortedMap<K, V> {
    /// The value the deamortization queue holds for `key`: that of its last slot holding
    /// `key`, if any.
    pub closed spec fn queued(&self, key: K) -> Option<V> {
        queue_match(self.insertion_queue, key, INSERTION_QUEUE_MAX_SIZE as int)
    }
}

impl<K, V> Length for UnsortedMap<K, V> {
    open spec fn len_spec(&self) -> nat {
        self.size()
    }

    fn len(&self) -> (r: usize) {
        self.size
    }
}

impl<K: OHash + Default, V: Cmov + Copy + Default> UnsortedMap<K, V> {
    /// Creates an empty `UnsortedMap` for `capacity` elements: each table has
    /// `max(ceil(5 * capacity / (4 * BUCKET_SIZE)), 2)` buckets, a load factor of 0.8.
    pub fn new(capacity: usize) -> (r: Self)
        requires
            0 < capacity <= 0x1000_0000,
        ensures
            r.wf(),
            r.size() == 0,
            r.pending() == 0,
            r.buckets() == (if (5 * capacity + 15) / 16 > 2 { (5 * capacity + 15) / 16 } else { 2 }),
    {
        let table_size = crate::primitives::utils::max((capacity * 5 + (4 * BUCKET_SIZE - 1)) / (4 * BUCKET_SIZE), 2);
        proof {
            lemma_two_is_pow2();
        }
        UnsortedMap {
            size: 0,
            _capacity: capacity,
            table_size,
            table: MultiWayArray::new(table_size),
            hash_builders: [new_random_state(), new_random_state()],
            insertion_queue: ShortQueue::new(),
            rng: thread_rng(),
            lookups: Ghost(Seq::empty()),
        }
    }

    /// The bucket of `key` in table `table`.
    fn hash_key(&self, table: usize, key: &K) -> (r: usize)
        requires
            self.wf(),
            table < 2,
        ensures
            r < self.table_size,
    {
        let h = hash_one(&self.hash_builders[table], key);
        (h % (self.table_size as u64)) as usize
    }

    /// Looks up `key`. Returns whether it was found, in either table or in the
    /// deamortization queue; its value is then written to `ret`, which is otherwise left
    /// unchanged.
    pub fn get(&mut self, key: K, ret: &mut V) -> (found: bool)
        requires
            old(self).wf(),
        ensures
            final(self).wf(),
            final(self).size() == old(self).size(),
            final(self).pending() == old(self).pending(),
            final(self).buckets() == old(self).buckets(),
            !found ==> *final(ret) == *old(ret),
            old(self).queued(key) is Some ==> found && *final(ret) == old(self).queued(key)->0,
            forall|k2: K| #[trigger] final(self).queued(k2) == old(self).queued(k2),
            looked_in_both_tables(old(self).lookups(), final(self).lookups(), old(self).buckets()),
            final(self).lookups()[old(self).lookups().len() as int].2 == old(self).bucket_holds(
                0,
                final(self).lookups()[old(self).lookups().len() as int].1 as int,
                key,
            ),
            held_in_a_table(old(self).lookups(), final(self).lookups()) ==> found,
    {
        let mut found = false;
        let mut tmp: Bucket<K, V> = Bucket::default();
        let ghost n0 = self.lookups@.len() as int;
        proof {
            assert(self.lookups@.subrange(0, n0) =~= old(self).lookups@);
        }
        let mut t: usize = 0;
        while t < 2
            invariant
                self.wf(),
                self.size == old(self).size,
                self.table_size == old(self).table_size,
                self.insertion_queue == old(self).insertion_queue,
                t <= 2,
                !found ==> *ret == *old(ret),
                t == 0 ==> self.table == old(self).table,
                n0 == old(self).lookups@.len(),
                self.lookups@.len() == n0 + t,
                self.lookups@.subrange(0, n0) == old(self).lookups@,
                forall|j: int| 0 <= j < t ==> (#[trigger] self.lookups@[n0 + j]).0 == j && self.lookups@[n0 + j].1 < self.table_size,
                t >= 1 ==> self.lookups@[n0].2 == old(self).bucket_holds(0, self.lookups@[n0].1 as int, key),
                forall|j: int| 0 <= j < t ==> (#[trigger] self.lookups@[n0 + j]).2 ==> found,
            decreases 2 - t,
        {
            let hash = self.hash_key(t, &key);
            proof {
                lemma_two_is_pow2();
                let before = self.lookups@;
                self.lookups@ = self.lookups@.push((t, hash, self.bucket_holds(t as int, hash as int, key)));
                assert(self.lookups@.subrange(0, n0) =~= before.subrange(0, n0));
                assert(self.lookups@[n0 + t] == (t, hash, self.bucket_holds(t as int, hash as int, key)));
                assert forall|j: int| 0 <= j < t implies #[trigger] self.lookups@[n0 + j] == before[n0 + j] by {}
            }
            self.table.read(t, hash, &mut tmp);
            let found_local = tmp.read_if_exists(key, ret);
            found.cmov(&true, found_local);
            t += 1;
        }
        let ghost lk = self.lookups@;
        proof {
            assert(lk[n0 + 0].0 == 0 && lk[n0 + 1].0 == 1);
            assert(lk[n0 + 0].2 ==> found);
            assert(lk[n0 + 1].2 ==> found);
            assert(looked_in_both_tables(old(self).lookups@, lk, old(self).table_size as nat));
        }
        let mut i: usize = 0;
        while i < INSERTION_QUEUE_MAX_SIZE
            invariant
                i <= INSERTION_QUEUE_MAX_SIZE,
                !found ==> *ret == *old(ret),
                self.insertion_queue == old(self).insertion_queue,
                self.lookups@ == lk,
                n0 == old(self).lookups@.len(),
                looked_in_both_tables(old(self).lookups@, lk, old(self).table_size as nat),
                lk[n0].2 == old(self).bucket_holds(0, lk[n0].1 as int, key),
                held_in_a_table(old(self).lookups@, lk) ==> found,
                queue_match(self.insertion_queue, key, i as int) is Some ==> found && *ret == queue_match(
                    self.insertion_queue,
                    key,
                    i as int,
                )->0,
            decreases INSERTION_QUEUE_MAX_SIZE - i,
        {
            let element = self.insertion_queue.slot(i);
            let found_local = !element.is_empty() && element.value.key.key_eq(&key);
            ret.cmov(&element.value.value, found_local);
            found.cmov(&true, found_local);
            i += 1;
        }
        found
    }

    /// Tries to insert `element` into one of the tables, table 1 first. On a collision a
    /// random slot of the full bucket is swapped with `element`, which then goes on to the
    /// next table. Returns `true` when the element found an empty slot or `real_op` is
    /// false; `false` when an element is left over in `element` and must be queued.
    fn try_insert_entry(&mut self, real_op: bool, element: &mut InlineElement<K, V>) -> (done: bool)
        requires
            old(self).wf(),
        ensures
            final(self).wf(),
            final(self).size == old(self).size,
            final(self).table_size == old(self).table_size,
            final(self).insertion_queue == old(self).insertion_queue,
            !real_op ==> done,
    {
        let mut done = !real_op;
        let mut rev: usize = 0;
        while rev < 2
            invariant
                self.wf(),
                self.size == old(self).size,
                self.table_size == old(self).table_size,
                self.insertion_queue == old(self).insertion_queue,
                rev <= 2,
                !real_op ==> done,
            decreases 2 - rev,
        {
            let index = 1 - rev;
            let hash = self.hash_key(index, &element.key);
            let randidx = random_below(&mut self.rng, BUCKET_SIZE);
            let was_done = done;
            let el = *element;
            proof {
                lemma_two_is_pow2();
            }
            let (_, res) = self.table.update(
                index,
                hash,
                move |bucket: &mut Bucket<K, V>| bucket.insert_or_swap(was_done, el, randidx),
            );
            done = done || res.0;
            *element = res.1;
            rev += 1;
        }
        done
    }

    /// Performs `DEAMORTIZED_INSERTIONS` rounds of: pop the oldest queued element, if any,
    /// try to insert it into the tables, and queue whatever element is left over.
    pub fn deamortize_insertion_queue(&mut self)
        requires
            old(self).wf(),
        ensures
            final(self).wf(),
            final(self).size() == old(self).size(),
            final(self).pending() <= old(self).pending(),
            final(self).buckets() == old(self).buckets(),
    {
        let mut round: usize = 0;
        while round < DEAMORTIZED_INSERTIONS
            invariant
                self.wf(),
                self.size == old(self).size,
                self.table_size == old(self).table_size,
                self.insertion_queue.size() <= old(self).insertion_queue.size(),
                round <= DEAMORTIZED_INSERTIONS,
            decreases DEAMORTIZED_INSERTIONS - round,
        {
            let mut element = InlineElement::default();
            let real_op = self.insertion_queue.len() > 0 && self.insertion_queue.has_timestamp_room();
            self.insertion_queue.maybe_pop(real_op, &mut element);
            let has_pending_element = !self.try_insert_entry(real_op, &mut element);
            self.insertion_queue.maybe_push(has_pending_element, element);
            round += 1;
        }
    }

    /// Inserts `key` with `value`; the key must not be in the map already. The element
    /// goes through the deamortization queue. Returns `false`, and changes nothing, when
    /// the queue is full or the size counter is at its maximum.
    pub fn insert(&mut self, key: K, value: V) -> (ok: bool)
        requires
            old(self).wf(),
        ensures
            final(self).wf(),
            ok == (old(self).pending() < INSERTION_QUEUE_MAX_SIZE && old(self).size() < usize::MAX
                && old(self).queue_has_timestamps()),
            ok ==> final(self).size() == old(self).size() + 1,
            ok ==> final(self).pending() <= old(self).pending() + 1,
            !ok ==> *final(self) == *old(self),
            final(self).buckets() == old(self).buckets(),
    {
        self.insert_cond(key, value, true)
    }

    /// Inserts `key` with `value` when `real_op`; otherwise performs the same steps without
    /// changing the logical map. A real key must not be in the map already. Returns
    /// `false`, and changes nothing, when the queue is full or the size counter is at its
    /// maximum.
    pub fn insert_cond(&mut self, key: K, value: V, real_op: bool) -> (ok: bool)
        requires
            old(self).wf(),
        ensures
            final(self).wf(),
            ok == (old(self).pending() < INSERTION_QUEUE_MAX_SIZE && old(self).size() < usize::MAX
                && old(self).queue_has_timestamps()),
            ok ==> final(self).size() == old(self).size() + (if real_op { 1int } else { 0int }),
            ok ==> final(self).pending() <= old(self).pending() + (if real_op { 1int } else { 0int }),
            !ok ==> *final(self) == *old(self),
            final(self).buckets() == old(self).buckets(),
    {
        if self.insertion_queue.len() >= INSERTION_QUEUE_MAX_SIZE || self.size == usize::MAX
            || !self.insertion_queue.has_timestamp_room() {
            return false;
        }
        self.insertion_queue.maybe_push(real_op, InlineElement { key, value });
        self.deamortize_insertion_queue();
        let next = self.size + 1;
        self.size.cmov(&next, real_op);
        true
    }

    /// Replaces the value of `key`, which should be in the map. Returns whether the key was
    /// found, in either table or in the deamortization queue.
    pub fn write(&mut self, key: K, value: V) -> (updated: bool)
        requires
            old(self).wf(),
        ensures
            final(self).wf(),
            final(self).size() == old(self).size(),
            final(self).pending() == old(self).pending(),
            final(self).buckets() == old(self).buckets(),
            old(self).queued(key) is Some ==> updated,
            looked_in_both_tables(old(self).lookups(), final(self).lookups(), old(self).buckets()),
            final(self).lookups()[old(self).lookups().len() as int].2 == old(self).bucket_holds(
                0,
                final(self).lookups()[old(self).lookups().len() as int].1 as int,
                key,
            ),
            held_in_a_table(old(self).lookups(), final(self).lookups()) ==> updated,
    {
        let mut updated = false;
        let ghost n0 = self.lookups@.len() as int;
        proof {
            assert(self.lookups@.subrange(0, n0) =~= old(self).lookups@);
        }
        let mut t: usize = 0;
        while t < 2
            invariant
                self.wf(),
                self.size == old(self).size,
                self.table_size == old(self).table_size,
                self.insertion_queue == old(self).insertion_queue,
                t <= 2,
                t == 0 ==> self.table == old(self).table && !updated,
                n0 == old(self).lookups@.len(),
                self.lookups@.len() == n0 + t,
                self.lookups@.subrange(0, n0) == old(self).lookups@,
                forall|j: int| 0 <= j < t ==> (#[trigger] self.lookups@[n0 + j]).0 == j && self.lookups@[n0 + j].1 < self.table_size,
                t >= 1 ==> self.lookups@[n0].2 == old(self).bucket_holds(0, self.lookups@[n0].1 as int, key),
                forall|j: int| 0 <= j < t ==> (#[trigger] self.lookups@[n0 + j]).2 ==> updated,
            decreases 2 - t,
        {
            let hash = self.hash_key(t, &key);
            let was_updated = updated;
            proof {
                lemma_two_is_pow2();
                let before = self.lookups@;
                self.lookups@ = self.lookups@.push((t, hash, self.bucket_holds(t as int, hash as int, key)));
                assert(self.lookups@.subrange(0, n0) =~= before.subrange(0, n0));
                assert(self.lookups@[n0 + t] == (t, hash, self.bucket_holds(t as int, hash as int, key)));
                assert forall|j: int| 0 <= j < t implies #[trigger] self.lookups@[n0 + j] == before[n0 + j] by {}
            }
            let res = write_table(&mut self.table, t, hash, was_updated, key, value);
            updated = updated || res;
            t += 1;
        }
        let ghost lk = self.lookups@;
        proof {
            assert(lk[n0 + 0].0 == 0 && lk[n0 + 1].0 == 1);
            assert(lk[n0 + 0].2 ==> updated);
            assert(lk[n0 + 1].2 ==> updated);
            assert(looked_in_both_tables(old(self).lookups@, lk, old(self).table_size as nat));
        }
        let mut i: usize = 0;
        let ghost q0 = self.insertion_queue;
        proof {
            assert(q0 == old(self).insertion_queue);
        }
        while i < INSERTION_QUEUE_MAX_SIZE
            invariant
                self.wf(),
                self.size == old(self).size,
                self.table_size == old(self).table_size,
                self.insertion_queue.size() == old(self).insertion_queue.size(),
                i <= INSERTION_QUEUE_MAX_SIZE,
                q0 == old(self).insertion_queue,
                forall|j: int| 0 <= j < INSERTION_QUEUE_MAX_SIZE ==> (#[trigger] self.insertion_queue.slot_at(j)).timestamp
                    == q0.slot_at(j).timestamp && self.insertion_queue.slot_at(j).value.key == q0.slot_at(j).value.key,
                queue_match(q0, key, i as int) is Some ==> updated,
                self.lookups@ == lk,
                n0 == old(self).lookups@.len(),
                looked_in_both_tables(old(self).lookups@, lk, old(self).table_size as nat),
                lk[n0].2 == old(self).bucket_holds(0, lk[n0].1 as int, key),
                held_in_a_table(old(self).lookups@, lk) ==> updated,
            decreases INSERTION_QUEUE_MAX_SIZE - i,
        {
            let element = self.insertion_queue.slot(i);
            let choice = !updated && !element.is_empty() && element.value.key.key_eq(&key);
            let mut v = element.value;
            v.value.cmov(&value, choice);
            self.insertion_queue.set_slot_value(i, v);
            updated.cmov(&true, choice);
            i += 1;
        }
        updated
    }
}

} // verus!
