//! A sharded oblivious map: the keys are spread over `P` partitions by a keyed hash, each
//! partition an `UnsortedMap`. Queries are answered in batches that send the same number
//! of queries to every partition, so the batch does not reveal how many keys go to each.
use vstd::prelude::*;
use ahash::RandomState;
use crate::datastructures::map::{OHash, UnsortedMap, INSERTION_QUEUE_MAX_SIZE};
use crate::primitives::ooption::OOption;
use crate::primitives::traits::Cmov;
use crate::primitives::utils::{usize_leading_zeros, bit_length};
use crate::sort::bitonic::{bitonic_payload_sort, bitonic_sort};
use crate::sort::compaction::{compact, compact_payload, distribute_payload, is_prefix_count, is_real, lemma_prefix_count_bounds};
use crate::sort::order::{le, sorted, total_order};

verus! {

/// Number of partitions in the map.
pub const P: usize = 15;

/// Index that marks a block as belonging to another partition.
pub const INVALID_ID: usize = usize::MAX;

/// Number of queries sent to a partition in one message.
pub const SUBTASK_SIZE: usize = 32;

/// Calls `ahash::RandomState::new()`: a hasher builder with fresh random keys.
#[verifier::external_body]
fn new_partition_hasher() -> RandomState {
    RandomState::new()
}

/// Calls `ahash::RandomState::hash_one(key)`. The hash depends on the random keys of
/// `state`, so nothing is stated of it.
#[verifier::external_body]
fn partition_hash<K: std::hash::Hash>(state: &RandomState, key: &K) -> u64 {
    state.hash_one(key)
}

/// Calls std's `usize::isqrt`, documented as the square root rounded down.
#[verifier::external_body]
fn usize_isqrt(x: usize) -> (r: usize)
    ensures
        r * r <= x < (r + 1) * (r + 1),
{
    x.isqrt()
}

/// A block in a batch: a key, its value when it has one, and the index of the block in
/// the original batch (`INVALID_ID` for a block of another partition).
#[derive(Debug, Clone, Copy, PartialEq, Eq, PartialOrd, Ord)]
pub struct BatchBlock<K, V> {
    /// Index of the block in the batch.
    pub index: usize,
    /// The key.
    pub k: K,
    /// The value, if any.
    pub v: OOption<V>,
}

impl<K: Default, V: Default> Default for BatchBlock<K, V> {
    fn default() -> (r: Self)
        ensures
            r.index == 0,
            !r.v.is_some,
    {
        BatchBlock { index: 0, k: K::default(), v: OOption { value: V::default(), is_some: false } }
    }
}

impl<K: Cmov + Copy, V: Cmov + Copy> Cmov for BatchBlock<K, V> {
    fn cmov(&mut self, other: &Self, choice: bool) {
        self.index.cmov(&other.index, choice);
        self.k.cmov(&other.k, choice);
        self.v.cmov(&other.v, choice);
    }

    fn cxchg(&mut self, other: &mut Self, choice: bool) {
        let tmp = *self;
        self.cmov(other, choice);
        other.cmov(&tmp, choice);
    }
}

/// A key with its partition; ordered by partition, then by key.
#[derive(Debug, Clone, Copy, PartialEq, Eq, PartialOrd, Ord)]
pub struct KeyWithPart<K> {
    /// The partition of the key; `P` marks padding.
    pub partition: usize,
    /// The key.
    pub key: K,
}

impl<K: Cmov + Copy> Cmov for KeyWithPart<K> {
    fn cmov(&mut self, other: &Self, choice: bool) {
        self.partition.cmov(&other.partition, choice);
        self.key.cmov(&other.key, choice);
    }

    fn cxchg(&mut self, other: &mut Self, choice: bool) {
        let tmp = *self;
        self.cmov(other, choice);
        other.cmov(&tmp, choice);
    }
}

/// A key with its partition, its position in the batch and its value; ordered by
/// partition, then by key, then by position, so that the first occurrence of a repeated
/// key comes first.
#[derive(Debug, Clone, Copy, PartialEq, Eq, PartialOrd, Ord)]
pub struct KeyWithPartValue<K, V> {
    /// The partition of the key; `P` marks padding and repeated keys.
    pub partition: usize,
    /// The key.
    pub key: K,
    /// Position of the key in the batch.
    pub index: usize,
    /// The value.
    pub value: V,
}

impl<K: Cmov + Copy, V: Cmov + Copy> Cmov for KeyWithPartValue<K, V> {
    fn cmov(&mut self, other: &Self, choice: bool) {
        self.partition.cmov(&other.partition, choice);
        self.key.cmov(&other.key, choice);
        self.index.cmov(&other.index, choice);
        self.value.cmov(&other.value, choice);
    }

    fn cxchg(&mut self, other: &mut Self, choice: bool) {
        let tmp = *self;
        self.cmov(other, choice);
        other.cmov(&tmp, choice);
    }
}

/// A `Get` command on a partition: looks up each block's key, filling its value.
pub fn partition_get<K: OHash + Default, V: Cmov + Copy + Default>(map: &mut UnsortedMap<K, V>, blocks: &mut Vec<BatchBlock<K, V>>)
    requires
        old(map).wf(),
    ensures
        final(map).wf(),
        final(map).size() == old(map).size(),
        final(map).pending() == old(map).pending(),
        final(blocks)@.len() == old(blocks)@.len(),
        forall|i: int| 0 <= i < final(blocks)@.len() ==> (#[trigger] final(blocks)@[i]).index == old(blocks)@[i].index && final(blocks)@[i].k == old(blocks)@[i].k,
        forall|i: int|
            0 <= i < final(blocks)@.len() && old(map).queued(old(blocks)@[i].k) is Some ==> (#[trigger] final(blocks)@[i]).v.is_some
                && final(blocks)@[i].v.value == old(map).queued(old(blocks)@[i].k)->0,
        forall|k2: K| #[trigger] final(map).queued(k2) == old(map).queued(k2),
{
    let mut i: usize = 0;
    while i < blocks.len()
        invariant
            map.wf(),
            map.size() == old(map).size(),
            map.pending() == old(map).pending(),
            blocks@.len() == old(blocks)@.len(),
            forall|j: int| 0 <= j < blocks@.len() ==> (#[trigger] blocks@[j]).index == old(blocks)@[j].index && blocks@[j].k == old(blocks)@[j].k,
            forall|k2: K| #[trigger] map.queued(k2) == old(map).queued(k2),
            forall|j: int|
                0 <= j < i && old(map).queued(old(blocks)@[j].k) is Some ==> (#[trigger] blocks@[j]).v.is_some && blocks@[j].v.value
                    == old(map).queued(old(blocks)@[j].k)->0,
        decreases blocks@.len() - i,
    {
        let mut blk = blocks[i];
        blk.v = OOption::new(V::default(), true);
        blk.v.is_some = map.get(blk.k, &mut blk.v.value);
        blocks.set(i, blk);
        i += 1;
    }
}

/// Number of blocks among the first `m` of `s` that hold a value.
pub open spec fn real_blocks<K, V>(s: Seq<BatchBlock<K, V>>, m: int) -> int
    decreases m,
{
    if m <= 0 {
        0
    } else {
        real_blocks(s, m - 1) + (if s[m - 1].v.is_some { 1int } else { 0int })
    }
}

/// The map refuses an insertion: its queue is full, its size at the maximum, or its queue
/// out of timestamps.
pub open spec fn map_refuses<K, V>(map: UnsortedMap<K, V>) -> bool {
    !(map.pending() < INSERTION_QUEUE_MAX_SIZE && map.size() < usize::MAX && map.queue_has_timestamps())
}

/// An `Insert` command on a partition: inserts the key of each block that holds a value.
/// Returns `false` when the partition could not take an insertion (its deamortization
/// queue was full); the remaining blocks are then not inserted.
pub fn partition_insert<K: OHash + Default, V: Cmov + Copy + Default>(map: &mut UnsortedMap<K, V>, blocks: &[BatchBlock<K, V>]) -> (ok: bool)
    requires
        old(map).wf(),
    ensures
        final(map).wf(),
        final(map).buckets() == old(map).buckets(),
        ok ==> final(map).size() == old(map).size() + real_blocks(blocks@, blocks@.len() as int),
        !ok ==> exists|m: int|
            0 <= m < blocks@.len() && final(map).size() == old(map).size() + real_blocks(blocks@, m) && map_refuses(
                *final(map),
            ),
{
    let mut i: usize = 0;
    while i < blocks.len()
        invariant
            map.wf(),
            map.buckets() == old(map).buckets(),
            i <= blocks@.len(),
            map.size() == old(map).size() + real_blocks(blocks@, i as int),
        decreases blocks@.len() - i,
    {
        let blk = blocks[i];
        if !map.insert_cond(blk.k, blk.v.value, blk.v.is_some) {
            return false;
        }
        i += 1;
    }
    true
}

/// A `Getv2` command on a partition: looks up each key.
pub fn partition_get_keys<K: OHash + Default, V: Cmov + Copy + Default>(map: &mut UnsortedMap<K, V>, keys: &[K]) -> (values: Vec<OOption<V>>)
    requires
        old(map).wf(),
    ensures
        final(map).wf(),
        final(map).size() == old(map).size(),
        final(map).pending() == old(map).pending(),
        values@.len() == keys@.len(),
        forall|i: int|
            0 <= i < keys@.len() && old(map).queued(keys@[i]) is Some ==> (#[trigger] values@[i]).is_some && values@[i].value
                == old(map).queued(keys@[i])->0,
        forall|i: int| 0 <= i < keys@.len() && !(#[trigger] values@[i]).is_some ==> call_ensures(V::default, (), values@[i].value),
        forall|k2: K| #[trigger] final(map).queued(k2) == old(map).queued(k2),
{
    let mut values: Vec<OOption<V>> = Vec::with_capacity(keys.len());
    let mut i: usize = 0;
    while i < keys.len()
        invariant
            map.wf(),
            map.size() == old(map).size(),
            map.pending() == old(map).pending(),
            values@.len() == i,
            i <= keys@.len(),
            forall|k2: K| #[trigger] map.queued(k2) == old(map).queued(k2),
            forall|j: int|
                0 <= j < i && old(map).queued(keys@[j]) is Some ==> (#[trigger] values@[j]).is_some && values@[j].value
                    == old(map).queued(keys@[j])->0,
            forall|j: int| 0 <= j < i && !(#[trigger] values@[j]).is_some ==> call_ensures(V::default, (), values@[j].value),
        decreases keys@.len() - i,
    {
        let mut value = V::default();
        let is_some = map.get(keys[i], &mut value);
        values.push(OOption::new(value, is_some));
        i += 1;
    }
    values
}

/// An `Insertv2` command on partition `pid`: inserts each key whose partition is `pid`,
/// and goes through the same steps for the others. Returns `false` when the partition
/// could not take an insertion (its deamortization queue was full); the remaining keys
/// are then not inserted.
pub fn partition_insert_keys<K: OHash + Default, V: Cmov + Copy + Default>(map: &mut UnsortedMap<K, V>, blocks: &[KeyWithPartValue<K, V>], pid: usize) -> (ok: bool)
    requires
        old(map).wf(),
    ensures
        final(map).wf(),
        final(map).buckets() == old(map).buckets(),
        ok ==> final(map).size() == old(map).size() + blocks_of(blocks@, pid, blocks@.len() as int),
        !ok ==> exists|m: int|
            0 <= m < blocks@.len() && final(map).size() == old(map).size() + blocks_of(blocks@, pid, m) && map_refuses(
                *final(map),
            ),
{
    let mut i: usize = 0;
    while i < blocks.len()
        invariant
            map.wf(),
            map.buckets() == old(map).buckets(),
            i <= blocks@.len(),
            map.size() == old(map).size() + blocks_of(blocks@, pid, i as int),
        decreases blocks@.len() - i,
    {
        let blk = blocks[i];
        let real_op = blk.partition == pid;
        if !map.insert_cond(blk.key, blk.value, real_op) {
            return false;
        }
        i += 1;
    }
    true
}

/// Number of blocks among the first `m` of `s` that go to partition `pid`.
pub open spec fn blocks_of<K, V>(s: Seq<KeyWithPartValue<K, V>>, pid: usize, m: int) -> int
    decreases m,
{
    if m <= 0 {
        0
    } else {
        blocks_of(s, pid, m - 1) + (if s[m - 1].partition == pid { 1int } else { 0int })
    }
}

/// `ceil(a / b)`.
pub open spec fn div_ceil_spec(a: int, b: int) -> int {
    (a + b - 1) / b
}

/// Number of entries of `s` equal to `p`.
pub open spec fn count_eq(s: Seq<usize>, p: int) -> nat
    decreases s.len(),
{
    if s.len() == 0 {
        0
    } else {
        count_eq(s.drop_last(), p) + (if s.last() == p { 1nat } else { 0nat })
    }
}

/// Number of entries of `s` below `m`, counted value by value: the sum of `count_eq(s, p)`
/// for `p < m`.
pub open spec fn sum_counts(s: Seq<usize>, m: int) -> nat
    decreases m,
{
    if m <= 0 {
        0
    } else {
        sum_counts(s, m - 1) + count_eq(s, m - 1)
    }
}

/// Appending `x` adds one to the count of the values below `m` exactly when `x < m`.
proof fn lemma_sum_counts_push(s: Seq<usize>, x: usize, m: int)
    requires
        0 <= m,
    ensures
        sum_counts(s.push(x), m) == sum_counts(s, m) + (if x < m { 1nat } else { 0nat }),
    decreases m,
{
    assert(s.push(x).drop_last() =~= s);
    if m > 0 {
        lemma_sum_counts_push(s, x, m - 1);
    }
}

/// When every entry is below `m`, counting value by value gives the length: a key is in
/// exactly one partition.
pub proof fn lemma_sum_counts_len(s: Seq<usize>, m: int)
    requires
        0 <= m,
        forall|i: int| 0 <= i < s.len() ==> s[i] < m,
    ensures
        sum_counts(s, m) == s.len(),
    decreases s.len(),
{
    if s.len() == 0 {
        assert(sum_counts(s, m) == 0) by {
            lemma_sum_counts_empty(s, m);
        }
    } else {
        let t = s.drop_last();
        lemma_sum_counts_len(t, m);
        lemma_sum_counts_push(t, s.last(), m);
        assert(t.push(s.last()) =~= s);
    }
}

/// Nothing is counted in an empty sequence.
proof fn lemma_sum_counts_empty(s: Seq<usize>, m: int)
    requires
        s.len() == 0,
    ensures
        sum_counts(s, m) == 0,
    decreases m,
{
    if m > 0 {
        lemma_sum_counts_empty(s, m - 1);
    }
}

/// When no value is counted more than `b` times, the values below `m` are counted at most
/// `m * b` times.
proof fn lemma_sum_counts_bound(s: Seq<usize>, m: int, b: int)
    requires
        0 <= m,
        forall|q: int| 0 <= q < m ==> #[trigger] count_eq(s, q) <= b,
    ensures
        sum_counts(s, m) <= m * b,
    decreases m,
{
    if m > 0 {
        lemma_sum_counts_bound(s, m - 1, b);
        assert(count_eq(s, m - 1) <= b);
        assert((m - 1) * b + b == m * b) by (nonlinear_arith);
    } else {
        assert(m * b == 0) by (nonlinear_arith)
            requires
                m == 0,
        ;
    }
}

/// The first `b` blocks of `part`.
fn prefix_copy<T: Copy>(part: &Vec<T>, b: usize) -> (r: Vec<T>)
    requires
        b <= part@.len(),
    ensures
        r@ == part@.subrange(0, b as int),
{
    let mut r: Vec<T> = Vec::with_capacity(b);
    let mut i: usize = 0;
    while i < b
        invariant
            b <= part@.len(),
            i <= b,
            r@ == part@.subrange(0, i as int),
        decreases b - i,
    {
        r.push(part[i]);
        i += 1;
    }
    r
}

/// Blocks of partition `p` for the batch `keys`: block `i` holds `keys[i]`, index `i` when
/// key `i` belongs to `p` and `INVALID_ID` otherwise, and `values[i]` when values are
/// given.
pub open spec fn partition_blocks_spec<K, V>(blocks: Seq<BatchBlock<K, V>>, keys: Seq<K>, targets: Seq<usize>, p: int) -> bool {
    &&& blocks.len() == keys.len()
    &&& forall|i: int|
        0 <= i < blocks.len() ==> (#[trigger] blocks[i]).k == keys[i] && blocks[i].index == (if targets[i] == p {
            i as usize
        } else {
            INVALID_ID
        })
}

/// A prefix sum of the blocks of partition `p` that are not marked `INVALID_ID` counts the
/// keys of that partition.
proof fn lemma_partition_count<K, V, F: Fn(&BatchBlock<K, V>) -> bool>(pp: Seq<usize>, blocks: Seq<BatchBlock<K, V>>, keys: Seq<K>, targets: Seq<usize>, p: int, is_dummy: F, i: int)
    requires
        crate::sort::compaction::is_real_prefix_sum(pp, blocks, is_dummy),
        partition_blocks_spec(blocks, keys, targets, p),
        targets.len() == blocks.len(),
        blocks.len() < INVALID_ID,
        forall|x: &BatchBlock<K, V>, r: bool| is_dummy.ensures((x,), r) ==> r == (x.index == INVALID_ID),
        0 <= i <= blocks.len(),
    ensures
        pp[i] == count_eq(targets.subrange(0, i), p),
    decreases i,
{
    if i > 0 {
        lemma_partition_count(pp, blocks, keys, targets, p, is_dummy, i - 1);
        assert(targets.subrange(0, i).drop_last() =~= targets.subrange(0, i - 1));
        assert(pp[(i - 1) + 1] == pp[i]);
        let b = blocks[i - 1];
        assert(b.index == (if targets[i - 1] == p { (i - 1) as usize } else { INVALID_ID }));
    } else {
        assert(targets.subrange(0, 0).len() == 0);
    }
}

/// The sum of the entries of `s`.
pub open spec fn seq_sum(s: Seq<usize>) -> int
    decreases s.len(),
{
    if s.len() == 0 {
        0
    } else {
        seq_sum(s.drop_last()) + s.last()
    }
}

/// Raising one entry by `d` raises the sum by `d`.
proof fn lemma_seq_sum_update(s: Seq<usize>, j: int, x: usize)
    requires
        0 <= j < s.len(),
    ensures
        seq_sum(s.update(j, x)) == seq_sum(s) - s[j] + x,
    decreases s.len(),
{
    if j < s.len() - 1 {
        assert(s.update(j, x).drop_last() =~= s.drop_last().update(j, x));
        lemma_seq_sum_update(s.drop_last(), j, x);
    } else {
        assert(s.update(j, x).drop_last() =~= s.drop_last());
    }
}

/// A value is counted at most as often as there are entries.
proof fn lemma_count_eq_le_len(s: Seq<usize>, p: int)
    ensures
        count_eq(s, p) <= s.len(),
    decreases s.len(),
{
    if s.len() > 0 {
        lemma_count_eq_le_len(s.drop_last(), p);
    }
}

/// The prefix sum that spreads the distinct keys, stored partition after partition
/// (`par_load[j]` of them for partition `j`), over `P` slots of `b` entries:
/// `ps[j * b + i + 1]` is the number of keys before partition `j` plus
/// `min(i + 1, par_load[j])`.
fn partition_ranks(par_load: &Vec<usize>, b: usize) -> (ps: Vec<usize>)
    requires
        par_load@.len() == P,
        forall|j: int| 0 <= j < P ==> #[trigger] par_load@[j] <= b,
        P * b < usize::MAX / 2,
    ensures
        ps@.len() == P * b + 1,
        ps@[0] == 0,
        ps@[P * b] == seq_sum(par_load@),
        is_prefix_count(ps@),
{
    let mut par_load_ps: Vec<usize> = Vec::with_capacity(P + 1);
    par_load_ps.push(0);
    let mut j: usize = 0;
    while j < P
        invariant
            par_load@.len() == P,
            forall|q: int| 0 <= q < P ==> #[trigger] par_load@[q] <= b,
            P * b < usize::MAX / 2,
            j <= P,
            par_load_ps@.len() == j + 1,
            par_load_ps@[0] == 0,
            forall|q: int| 0 <= q < j ==> #[trigger] par_load_ps@[q + 1] == par_load_ps@[q] + par_load@[q],
            forall|q: int| 0 <= q <= j ==> #[trigger] par_load_ps@[q] <= q * b,
            par_load_ps@[j as int] == seq_sum(par_load@.subrange(0, j as int)),
        decreases P - j,
    {
        proof {
            assert(par_load@.subrange(0, j + 1).drop_last() =~= par_load@.subrange(0, j as int));
            assert(j * b + b == (j + 1) * b) by (nonlinear_arith);
            assert((j + 1) * b <= P * b) by (nonlinear_arith)
                requires
                    j < P,
            ;
        }
        let next = par_load_ps[j] + par_load[j];
        par_load_ps.push(next);
        j += 1;
    }
    proof {
        assert(par_load@.subrange(0, P as int) =~= par_load@);
    }
    let bp = P * b;
    let mut ps: Vec<usize> = Vec::with_capacity(bp + 1);
    ps.push(0);
    let mut j: usize = 0;
    while j < P
        invariant
            par_load@.len() == P,
            forall|q: int| 0 <= q < P ==> #[trigger] par_load@[q] <= b,
            bp == P * b,
            bp < usize::MAX / 2,
            par_load_ps@.len() == P + 1,
            par_load_ps@[0] == 0,
            forall|q: int| 0 <= q < P ==> #[trigger] par_load_ps@[q + 1] == par_load_ps@[q] + par_load@[q],
            forall|q: int| 0 <= q <= P ==> #[trigger] par_load_ps@[q] <= q * b,
            par_load_ps@[P as int] == seq_sum(par_load@),
            j <= P,
            ps@.len() == j * b + 1,
            ps@[0] == 0,
            ps@[j * b] == par_load_ps@[j as int],
            is_prefix_count(ps@),
        decreases P - j,
    {
        let mut i: usize = 0;
        while i < b
            invariant
                par_load@.len() == P,
                forall|q: int| 0 <= q < P ==> #[trigger] par_load@[q] <= b,
                bp == P * b,
                bp < usize::MAX / 2,
                par_load_ps@.len() == P + 1,
                forall|q: int| 0 <= q <= P ==> #[trigger] par_load_ps@[q] <= q * b,
                j < P,
                i <= b,
                ps@.len() == j * b + i + 1,
                ps@[0] == 0,
                ps@[j * b + i] == par_load_ps@[j as int] + (if i < par_load@[j as int] { i as int } else { par_load@[j as int] as int }),
                is_prefix_count(ps@),
            decreases b - i,
        {
            proof {
                assert(par_load_ps@[j as int] + b <= P * b) by (nonlinear_arith)
                    requires
                        par_load_ps@[j as int] <= j * b,
                        j < P,
                ;
            }
            let mut rank_in_part = i + 1;
            rank_in_part.cmov(&par_load[j], rank_in_part > par_load[j]);
            let ghost before = ps@;
            ps.push(par_load_ps[j] + rank_in_part);
            proof {
                assert forall|t: int| 0 < t < ps@.len() implies (#[trigger] ps@[t] == ps@[t - 1] || ps@[t] == ps@[t - 1] + 1) by {
                    if t < before.len() {
                        assert(before[t] == before[t - 1] || before[t] == before[t - 1] + 1);
                    }
                }
            }
            i += 1;
        }
        proof {
            assert(j * b + b == (j + 1) * b) by (nonlinear_arith);
        }
        j += 1;
    }
    ps
}


/// A message to a partition: slots `low..high` of partition `partition`, which start
/// `offset` slots into the partition.
#[derive(Debug, Clone, Copy)]
pub struct Subtask {
    /// The partition.
    pub partition: usize,
    /// First slot, counted over all partitions.
    pub low: usize,
    /// End of the slots, counted over all partitions.
    pub high: usize,
    /// First slot, counted within the partition.
    pub offset: usize,
}

/// One message of `subtasks(b)`: partition, slots `[low, high)` counted over all
/// partitions, and `offset` of `low` within the partition; it is cut at `SUBTASK_SIZE`
/// slots or at the end of the partition, whichever comes first.
pub open spec fn subtask_ok(st: Subtask, b: int) -> bool {
    &&& st.partition < P
    &&& st.low == st.partition * b + st.offset
    &&& st.offset < b
    &&& st.low < st.high <= (st.partition + 1) * b
    &&& st.high - st.low <= SUBTASK_SIZE
    &&& st.high == (if st.low + SUBTASK_SIZE < (st.partition + 1) * b {
        st.low + SUBTASK_SIZE
    } else {
        (st.partition + 1) * b
    })
}

/// The messages that cover `b` slots of each partition, at most `SUBTASK_SIZE` slots each,
/// partition after partition: in order, their slot ranges tile `[0, P * b)`.
pub fn subtasks(b: usize) -> (r: Vec<Subtask>)
    requires
        P * b < usize::MAX / 2,
    ensures
        forall|t: int| 0 <= t < r@.len() ==> #[trigger] subtask_ok(r@[t], b as int),
        (r@.len() == 0) == (b == 0),
        r@.len() > 0 ==> r@[0].low == 0 && r@[r@.len() - 1].high == P * b,
        forall|t: int| 0 <= t < r@.len() - 1 ==> #[trigger] r@[t + 1].low == r@[t].high,
{
    let mut r: Vec<Subtask> = Vec::new();
    let mut j: usize = 0;
    while j < P
        invariant
            P * b < usize::MAX / 2,
            j <= P,
            forall|t: int| 0 <= t < r@.len() ==> #[trigger] subtask_ok(r@[t], b as int),
            r@.len() == 0 ==> j * b == 0,
            b == 0 ==> r@.len() == 0,
            r@.len() > 0 ==> r@[0].low == 0 && r@[r@.len() - 1].high == j * b,
            b > 0 && j > 0 ==> r@.len() > 0,
            forall|t: int| 0 <= t < r@.len() - 1 ==> #[trigger] r@[t + 1].low == r@[t].high,
        decreases P - j,
    {
        proof {
            assert((j + 1) * b <= P * b) by (nonlinear_arith)
                requires
                    j < P,
            ;
            assert(j * b + b == (j + 1) * b) by (nonlinear_arith);
        }
        let end = (j + 1) * b;
        let mut offset: usize = 0;
        while offset < b
            invariant
                P * b < usize::MAX / 2,
                j < P,
                end == j * b + b,
                end == (j + 1) * b,
                end <= P * b,
                offset <= b,
                forall|t: int| 0 <= t < r@.len() ==> #[trigger] subtask_ok(r@[t], b as int),
                r@.len() == 0 ==> j * b + offset == 0,
                b == 0 ==> r@.len() == 0,
                r@.len() > 0 ==> r@[0].low == 0 && r@[r@.len() - 1].high == j * b + offset,
                b > 0 && (j > 0 || offset > 0) ==> r@.len() > 0,
                forall|t: int| 0 <= t < r@.len() - 1 ==> #[trigger] r@[t + 1].low == r@[t].high,
            decreases b - offset,
        {
            let low = j * b + offset;
            let high = crate::primitives::utils::min(low + SUBTASK_SIZE, end);
            let ghost r0 = r@;
            r.push(Subtask { partition: j, low, high, offset });
            proof {
                assert forall|t: int| 0 <= t < r@.len() - 1 implies #[trigger] r@[t + 1].low == r@[t].high by {
                    if t < r0.len() - 1 {
                        assert(r@[t + 1] == r0[t + 1] && r@[t] == r0[t]);
                    }
                }
                assert forall|t: int| 0 <= t < r@.len() implies #[trigger] subtask_ok(r@[t], b as int) by {
                    if t < r0.len() {
                        assert(r@[t] == r0[t]);
                    }
                }
            }
            offset = offset + SUBTASK_SIZE;
            if offset > b {
                offset = b;
            }
        }
        j += 1;
    }
    r
}

/// What a batch read sends to the partitions, and what it needs to put the answers back
/// in the order of the batch.
pub struct GetBatchPlan<K> {
    /// Number of keys in the batch.
    pub n: usize,
    /// Number of slots of each partition.
    pub b: usize,
    /// The keys to query, `b` slots per partition; padding has partition `P`.
    pub keyinfo: Vec<KeyWithPart<K>>,
    /// For each key sorted by partition, its position in the batch.
    pub index_map: Vec<usize>,
    /// Prefix sum of the first occurrences among the sorted keys.
    pub prefix_sum_1: Vec<usize>,
    /// Prefix sum that spreads the distinct keys over the slots of the partitions.
    pub prefix_sum_2: Vec<usize>,
}

impl<K> GetBatchPlan<K> {
    /// The parts have the sizes that the batch and the slots call for.
    pub open spec fn wf(&self) -> bool {
        &&& 0 < self.n <= P * self.b
        &&& P * self.b < usize::MAX / 2
        &&& self.keyinfo@.len() == P * self.b
        &&& self.index_map@.len() == self.n
        &&& self.prefix_sum_1@.len() == self.n + 1
        &&& is_prefix_count(self.prefix_sum_1@)
        &&& self.prefix_sum_2@.len() == P * self.b + 1
        &&& is_prefix_count(self.prefix_sum_2@)
        &&& self.prefix_sum_1@[0] == 0
        &&& self.prefix_sum_1@[1] == 1
        &&& self.prefix_sum_2@[0] == 0
        &&& self.index_map@.no_duplicates()
        &&& forall|j: int| 0 <= j < self.n ==> #[trigger] self.index_map@[j] < self.n
    }
}

/// Equal keys of the batch have equal partitions.
pub open spec fn consistent_targets<K>(keys: Seq<K>, targets: Seq<usize>) -> bool {
    forall|i: int, j: int| 0 <= i < keys.len() && 0 <= j < keys.len() && keys[i] == keys[j] ==> targets[i] == targets[j]
}

/// The distinct keys of the batch whose partition is `p`.
pub open spec fn partition_keys<K>(keys: Seq<K>, targets: Seq<usize>, p: int) -> Set<K> {
    Set::new(|k: K| exists|i: int| 0 <= i < keys.len() && keys[i] == k && targets[i] == p)
}

/// The indices below `m` of `s` that start a run of equal keys in partition `q`.
spec fn run_starts<K>(s: Seq<KeyWithPart<K>>, q: int, m: int) -> Set<int> {
    Set::new(|j: int| 0 <= j < m && s[j].partition == q && (j == 0 || s[j].key != s[j - 1].key))
}

/// `run_starts` grows by at most the index it reaches.
proof fn lemma_run_starts_step<K>(s: Seq<KeyWithPart<K>>, q: int, m: int)
    requires
        0 <= m < s.len(),
    ensures
        run_starts(s, q, m).finite(),
        run_starts(s, q, m + 1).finite(),
        run_starts(s, q, m + 1).len() == run_starts(s, q, m).len() + (if s[m].partition == q && (m == 0 || s[m].key != s[m - 1].key) {
            1int
        } else {
            0int
        }),
{
    vstd::set_lib::lemma_int_range(0, m + 1);
    vstd::set_lib::lemma_len_subset(run_starts(s, q, m), vstd::set_lib::set_int_range(0, m + 1));
    vstd::set_lib::lemma_len_subset(run_starts(s, q, m + 1), vstd::set_lib::set_int_range(0, m + 1));
    if s[m].partition == q && (m == 0 || s[m].key != s[m - 1].key) {
        assert(run_starts(s, q, m + 1) =~= run_starts(s, q, m).insert(m));
    } else {
        assert(run_starts(s, q, m + 1) =~= run_starts(s, q, m));
    }
}

/// A key held at index `m` of `s` has a run start at or before `m`.
proof fn lemma_run_start_before<K>(s: Seq<KeyWithPart<K>>, k: K, m: int) -> (j: int)
    requires
        0 <= m < s.len(),
        s[m].key == k,
    ensures
        0 <= j <= m,
        s[j].key == k,
        j == 0 || s[j - 1].key != k,
    decreases m,
{
    if m == 0 || s[m - 1].key != k {
        m
    } else {
        lemma_run_start_before(s, k, m - 1)
    }
}

/// `x` is a key of the batch with its partition.
spec fn in_batch<K>(keys: Seq<K>, targets: Seq<usize>, x: KeyWithPart<K>) -> bool {
    exists|i: int| 0 <= i < keys.len() && keys[i] == x.key && targets[i] == x.partition
}

/// `s` holds key `k` with partition `t`.
spec fn holds<K>(s: Seq<KeyWithPart<K>>, k: K, t: usize) -> bool {
    exists|m: int| 0 <= m < s.len() && s[m].key == k && s[m].partition == t
}

/// Every element of `s` is a key of the batch with its partition.
spec fn from_batch<K>(keys: Seq<K>, targets: Seq<usize>, s: Seq<KeyWithPart<K>>) -> bool {
    forall|a: int| 0 <= a < s.len() ==> in_batch(keys, targets, #[trigger] s[a])
}

/// Every key of the batch is in `s` with its partition.
spec fn covers_batch<K>(keys: Seq<K>, targets: Seq<usize>, s: Seq<KeyWithPart<K>>) -> bool {
    forall|i: int| 0 <= i < keys.len() ==> holds(s, #[trigger] keys[i], targets[i])
}

/// Sorted or not, a rearrangement of the batch in which equal keys share a partition has
/// at least as many run starts in partition `q` as the batch has distinct keys there.
proof fn lemma_run_starts_cover<K>(keys: Seq<K>, targets: Seq<usize>, s: Seq<KeyWithPart<K>>, q: int)
    requires
        keys.len() == targets.len(),
        consistent_targets(keys, targets),
        from_batch(keys, targets, s),
        covers_batch(keys, targets, s),
    ensures
        partition_keys(keys, targets, q).finite(),
        partition_keys(keys, targets, q).len() <= run_starts(s, q, s.len() as int).len(),
{
    let n = s.len() as int;
    let rs = run_starts(s, q, n);
    let f = |j: int| s[j].key;
    vstd::set_lib::lemma_int_range(0, n);
    vstd::set_lib::lemma_len_subset(rs, vstd::set_lib::set_int_range(0, n));
    vstd::set_lib::lemma_map_size_bound(rs, rs.map(f), f);
    let d = partition_keys(keys, targets, q);
    assert forall|k: K| d.contains(k) implies #[trigger] rs.map(f).contains(k) by {
        let i = choose|i: int| 0 <= i < keys.len() && keys[i] == k && targets[i] == q;
        assert(keys[i] == k);
        assert(holds(s, keys[i], targets[i]));
        let m = choose|m: int| 0 <= m < n && s[m].key == keys[i] && s[m].partition == targets[i];
        let j = lemma_run_start_before(s, k, m);
        assert(s[j].key == k);
        assert(in_batch(keys, targets, s[j]));
        let ij = choose|ij: int| 0 <= ij < keys.len() && keys[ij] == s[j].key && targets[ij] == s[j].partition;
        assert(keys[ij] == keys[i]);
        assert(rs.contains(j));
        assert(f(j) == k);
    }
    vstd::set_lib::lemma_len_subset(d, rs.map(f));
}

/// A rearrangement of the batch, as a multiset, holds each key of the batch with its
/// partition and nothing else.
proof fn lemma_rearranged_batch<K>(keys: Seq<K>, targets: Seq<usize>, s: Seq<KeyWithPart<K>>)
    requires
        keys.len() == targets.len(),
        s.to_multiset() == Seq::new(keys.len(), |i: int| KeyWithPart { partition: targets[i], key: keys[i] }).to_multiset(),
    ensures
        from_batch(keys, targets, s),
        covers_batch(keys, targets, s),
{
    broadcast use vstd::seq_lib::group_to_multiset_ensures;
    let orig = Seq::new(keys.len(), |i: int| KeyWithPart { partition: targets[i], key: keys[i] });
    assert forall|a: int| 0 <= a < s.len() implies in_batch(keys, targets, #[trigger] s[a]) by {
        assert(s.contains(s[a]));
        assert(orig.to_multiset().count(s[a]) > 0);
        assert(orig.contains(s[a]));
        let i = choose|i: int| 0 <= i < orig.len() && orig[i] == s[a];
        assert(keys[i] == s[a].key && targets[i] == s[a].partition);
    }
    assert forall|i: int| 0 <= i < keys.len() implies holds(s, #[trigger] keys[i], targets[i]) by {
        assert(orig.contains(orig[i]));
        assert(s.to_multiset().count(orig[i]) > 0);
        assert(s.contains(orig[i]));
        let m = choose|m: int| 0 <= m < s.len() && s[m] == orig[i];
        assert(s[m].key == keys[i]);
    }
}

/// The partitions and keys of a batch of elements.
spec fn key_parts<K, V>(s: Seq<KeyWithPartValue<K, V>>) -> Seq<KeyWithPart<K>> {
    Seq::new(s.len(), |a: int| KeyWithPart { partition: s[a].partition, key: s[a].key })
}

/// A rearrangement of a batch of elements, as a multiset, holds each key of the batch with
/// its partition and nothing else.
proof fn lemma_rearranged_value_batch<K, V>(keys: Seq<K>, values: Seq<V>, targets: Seq<usize>, s: Seq<KeyWithPartValue<K, V>>)
    requires
        keys.len() == targets.len(),
        keys.len() == values.len(),
        s.to_multiset() == Seq::new(
            keys.len(),
            |i: int| KeyWithPartValue { partition: targets[i], key: keys[i], index: i as usize, value: values[i] },
        ).to_multiset(),
    ensures
        from_batch(keys, targets, key_parts(s)),
        covers_batch(keys, targets, key_parts(s)),
{
    broadcast use vstd::seq_lib::group_to_multiset_ensures;
    let orig = Seq::new(
        keys.len(),
        |i: int| KeyWithPartValue { partition: targets[i], key: keys[i], index: i as usize, value: values[i] },
    );
    let sp = key_parts(s);
    assert forall|a: int| 0 <= a < sp.len() implies in_batch(keys, targets, #[trigger] sp[a]) by {
        assert(s.contains(s[a]));
        assert(orig.to_multiset().count(s[a]) > 0);
        assert(orig.contains(s[a]));
        let i = choose|i: int| 0 <= i < orig.len() && orig[i] == s[a];
        assert(keys[i] == sp[a].key && targets[i] == sp[a].partition);
    }
    assert forall|i: int| 0 <= i < keys.len() implies holds(sp, #[trigger] keys[i], targets[i]) by {
        assert(orig.contains(orig[i]));
        assert(s.to_multiset().count(orig[i]) > 0);
        assert(s.contains(orig[i]));
        let m = choose|m: int| 0 <= m < s.len() && s[m] == orig[i];
        assert(sp[m].key == keys[i] && sp[m].partition == targets[i]);
    }
}

/// Steps 1 to 3 of a batch read of `keys`, whose partitions are `targets`: sorts the keys
/// by partition, moves repeated keys out, and spreads the distinct keys over `b` slots per
/// partition. Returns `None` when some partition holds more than `b` distinct keys; when
/// equal keys have equal partitions, such a partition always makes it return `None`.
pub fn plan_get_batch<K: OHash + Default + Ord>(keys: &[K], targets: &[usize], b: usize) -> (r: Option<GetBatchPlan<K>>)
    requires
        keys@.len() == targets@.len(),
        0 < keys@.len(),
        b <= keys@.len(),
        div_ceil_spec(keys@.len() as int, P as int) <= b,
        keys@.len() * P < usize::MAX / 2,
    ensures
        r is Some ==> r->0.wf() && r->0.n == keys@.len() && r->0.b == b,
        b == keys@.len() ==> r is Some,
        consistent_targets(keys@, targets@) && (exists|q: int| 0 <= q < P && #[trigger] partition_keys(keys@, targets@, q).len() > b)
            ==> r is None,
{
    let n: usize = keys.len();
    proof {
        assert(P * b <= P * n) by (nonlinear_arith)
            requires
                b <= n,
        ;
        assert(n <= P * b) by (nonlinear_arith)
            requires
                (n + P - 1) / (P as int) <= b,
                P == 15,
        ;
    }
    let bp = b * P;
    // 1. Sort the keys by partition.
    let mut keyinfo: Vec<KeyWithPart<K>> = Vec::with_capacity(bp);
    let mut index_map_1: Vec<usize> = Vec::with_capacity(n);
    let mut i: usize = 0;
    while i < n
        invariant
            n == keys@.len(),
            n == targets@.len(),
            i <= n,
            keyinfo@.len() == i,
            index_map_1@.len() == i,
            forall|j: int| 0 <= j < i ==> #[trigger] keyinfo@[j] == (KeyWithPart { partition: targets@[j], key: keys@[j] }),
            forall|j: int| 0 <= j < i ==> #[trigger] index_map_1@[j] == j,
        decreases n - i,
    {
        keyinfo.push(KeyWithPart { partition: targets[i], key: keys[i] });
        index_map_1.push(i);
        i += 1;
    }
    proof {
        assert(keyinfo@ =~= Seq::new(keys@.len(), |i: int| KeyWithPart { partition: targets@[i], key: keys@[i] }));
    }
    let ghost im0 = index_map_1@;
    bitonic_payload_sort(keyinfo.as_mut_slice(), index_map_1.as_mut_slice());
    let ghost s = keyinfo@;
    proof {
        broadcast use vstd::seq_lib::group_to_multiset_ensures;
        let im1 = index_map_1@;
        assert(im0.no_duplicates());
        im0.lemma_multiset_has_no_duplicates();
        im1.lemma_multiset_has_no_duplicates_conv();
        assert forall|j: int| 0 <= j < n implies #[trigger] im1[j] < n by {
            assert(im1.contains(im1[j]));
            assert(im0.to_multiset().count(im1[j]) > 0);
            assert(im0.contains(im1[j]));
        }
    }
    // 2. Count the distinct keys of each partition and move the repeated ones to the end.
    let mut par_load: Vec<usize> = Vec::with_capacity(P);
    let mut j: usize = 0;
    while j < P
        invariant
            j <= P,
            par_load@.len() == j,
            keyinfo@.len() == n,
            keyinfo@ == s,
            0 < n,
            forall|q: int| 0 <= q < j ==> #[trigger] par_load@[q] <= 1,
            forall|q: int| 0 <= q < j ==> #[trigger] par_load@[q] == run_starts(s, q, 1).len(),
        decreases P - j,
    {
        let mut load: usize = 0;
        load.cmov(&1, keyinfo[0].partition == j);
        proof {
            lemma_run_starts_step(s, j as int, 0);
            assert(run_starts(s, j as int, 0) =~= Set::<int>::empty());
        }
        par_load.push(load);
        j += 1;
    }
    let mut prefix_sum_1: Vec<usize> = Vec::with_capacity(n + 1);
    prefix_sum_1.push(0);
    prefix_sum_1.push(1);
    let mut i: usize = 1;
    while i < n
        invariant
            1 <= i <= n,
            keyinfo@.len() == n,
            n * P < usize::MAX / 2,
            prefix_sum_1@.len() == i + 1,
            prefix_sum_1@[0] == 0,
            prefix_sum_1@[1] == 1,
            prefix_sum_1@[i as int] <= i,
            is_prefix_count(prefix_sum_1@),
            par_load@.len() == P,
            forall|q: int| 0 <= q < P ==> #[trigger] par_load@[q] <= i,
            keyinfo@ == s,
            forall|q: int| 0 <= q < P ==> #[trigger] par_load@[q] == run_starts(s, q, i as int).len(),
        decreases n - i,
    {
        let new_key = !keyinfo[i].key.key_eq(&keyinfo[i - 1].key);
        let prev = prefix_sum_1[i];
        let mut next = prev;
        next.cmov(&(prev + 1), new_key);
        prefix_sum_1.push(next);
        let mut j: usize = 0;
        while j < P
            invariant
                j <= P,
                i < n,
                keyinfo@.len() == n,
                par_load@.len() == P,
                forall|q: int| 0 <= q < j ==> #[trigger] par_load@[q] <= i + 1,
                forall|q: int| j <= q < P ==> #[trigger] par_load@[q] <= i,
                keyinfo@ == s,
                1 <= i,
                new_key == (s[i as int].key != s[i - 1].key),
                forall|q: int| 0 <= q < j ==> #[trigger] par_load@[q] == run_starts(s, q, i + 1).len(),
                forall|q: int| j <= q < P ==> #[trigger] par_load@[q] == run_starts(s, q, i as int).len(),
            decreases P - j,
        {
            let cond = keyinfo[i].partition == j;
            let mut load = par_load[j];
            load.cmov(&(par_load[j] + 1), cond && new_key);
            proof {
                lemma_run_starts_step(s, j as int, i as int);
            }
            par_load.set(j, load);
            j += 1;
        }
        i += 1;
    }
    let mut j: usize = 0;
    while j < P
        invariant
            j <= P,
            par_load@.len() == P,
            forall|q: int| 0 <= q < j ==> #[trigger] par_load@[q] <= b,
            forall|q: int| 0 <= q < P ==> #[trigger] par_load@[q] <= n,
            n == keys@.len(),
            n == s.len(),
            forall|q: int| 0 <= q < P ==> #[trigger] par_load@[q] == run_starts(s, q, n as int).len(),
        decreases P - j,
    {
        if par_load[j] > b {
            return None;
        }
        j += 1;
    }
    proof {
        if consistent_targets(keys@, targets@) && (exists|q: int| 0 <= q < P && #[trigger] partition_keys(keys@, targets@, q).len() > b) {
            let q = choose|q: int| 0 <= q < P && #[trigger] partition_keys(keys@, targets@, q).len() > b;
            lemma_rearranged_batch(keys@, targets@, s);
            lemma_run_starts_cover(keys@, targets@, s, q);
            assert(par_load@[q] <= b);
        }
    }
    compact_payload(keyinfo.as_mut_slice(), prefix_sum_1.as_slice());
    // 3. Spread the distinct keys over `b` slots per partition.
    let prefix_sum_2 = partition_ranks(&par_load, b);
    let mut t: usize = n;
    while t < bp
        invariant
            n <= t <= bp,
            keyinfo@.len() == t,
        decreases bp - t,
    {
        keyinfo.push(KeyWithPart { partition: P, key: K::default() });
        t += 1;
    }
    distribute_payload(keyinfo.as_mut_slice(), prefix_sum_2.as_slice());
    Some(GetBatchPlan { n, b, keyinfo, index_map: index_map_1, prefix_sum_1, prefix_sum_2 })
}

/// The run of equal keys that holds index `i` of the keys sorted by partition starts at
/// `run_head(p, i)`: the last index at or before `i` that the prefix count `p` of first
/// occurrences marks as one.
pub open spec fn run_head(p: Seq<usize>, i: int) -> int
    decreases i,
{
    if i <= 0 {
        0
    } else if is_real(p, i) {
        i
    } else {
        run_head(p, i - 1)
    }
}

/// `run_head` lies at or before its index and, when index 0 is a first occurrence, is one.
proof fn lemma_run_head(p: Seq<usize>, i: int)
    requires
        0 <= i,
        is_real(p, 0),
    ensures
        0 <= run_head(p, i) <= i,
        is_real(p, run_head(p, i)),
    decreases i,
{
    if i > 0 && !is_real(p, i) {
        lemma_run_head(p, i - 1);
    }
}

/// `usize` is totally ordered, by `<=`.
proof fn lemma_usize_order()
    ensures
        total_order::<usize>(),
        forall|x: usize, y: usize| #[trigger] le(x, y) == (x <= y),
{
}

/// A sorted sequence of `n` distinct indices below `n` is `0, 1, ..., n - 1`.
proof fn lemma_sorted_indices(s: Seq<usize>)
    requires
        sorted(s),
        s.no_duplicates(),
        forall|k: int| 0 <= k < s.len() ==> #[trigger] s[k] < s.len(),
    ensures
        forall|k: int| 0 <= k < s.len() ==> #[trigger] s[k] == k,
{
    lemma_usize_order();
    assert forall|i: int, j: int| 0 <= i < j < s.len() implies s[i] < s[j] by {
        assert(le(s[i], s[j]));
    }
    assert forall|k: int| 0 <= k < s.len() implies #[trigger] s[k] == k by {
        lemma_sorted_index_low(s, k);
        lemma_sorted_index_high(s, k);
    }
}

/// In a strictly increasing sequence of naturals the element at `k` is at least `k`.
proof fn lemma_sorted_index_low(s: Seq<usize>, k: int)
    requires
        0 <= k < s.len(),
        forall|i: int, j: int| 0 <= i < j < s.len() ==> s[i] < s[j],
    ensures
        s[k] >= k,
    decreases k,
{
    if k > 0 {
        lemma_sorted_index_low(s, k - 1);
    }
}

/// In a strictly increasing sequence of values below its length the element at `k` is at
/// most `k`.
proof fn lemma_sorted_index_high(s: Seq<usize>, k: int)
    requires
        0 <= k < s.len(),
        forall|i: int, j: int| 0 <= i < j < s.len() ==> s[i] < s[j],
        forall|i: int| 0 <= i < s.len() ==> #[trigger] s[i] < s.len(),
    ensures
        s[k] <= k,
    decreases s.len() - k,
{
    if k + 1 < s.len() {
        lemma_sorted_index_high(s, k + 1);
    }
}

/// Slot `i2` of the partitions' answers is the one that the plan gave to the key at
/// position `j` of the keys sorted by partition: the slot of the rank of the first
/// occurrence of that key.
pub open spec fn answers<K>(plan: GetBatchPlan<K>, j: int, i2: int) -> bool {
    &&& is_real(plan.prefix_sum_2@, i2)
    &&& plan.prefix_sum_2@[i2] == plan.prefix_sum_1@[run_head(plan.prefix_sum_1@, j)]
}

/// Step 5 of a batch read: given the answers `res` of the partitions, slot by slot, puts
/// them back in the order of the batch and copies the answer of each key to its
/// repetitions: the key at position `index_map[j]` of the batch gets the answer in the
/// slot that the plan gave to its first occurrence.
pub fn finish_get_batch<K, V: Cmov + Copy>(plan: GetBatchPlan<K>, res: Vec<OOption<V>>) -> (r: Vec<OOption<V>>)
    requires
        plan.wf(),
        res@.len() == P * plan.b,
    ensures
        r@.len() == plan.n,
        forall|j: int, i2: int|
            0 <= j < plan.n && 0 <= i2 < P * plan.b && #[trigger] answers(plan, j, i2) ==> r@[plan.index_map@[j] as int] == res@[i2],
{
    let ghost pl = plan;
    let ghost res0 = res@;
    let n = plan.n;
    let mut res = res;
    let mut index_map_1 = plan.index_map;
    let prefix_sum_1 = plan.prefix_sum_1;
    let prefix_sum_2 = plan.prefix_sum_2;
    let ghost ps1 = prefix_sum_1@;
    let ghost ps2 = prefix_sum_2@;
    // 5. Undo the distribution and the compaction, and copy the values of repeated keys.
    compact_payload(res.as_mut_slice(), prefix_sum_2.as_slice());
    let ghost res1 = res@;
    {
        let (first, rest) = res.as_mut_slice().split_at_mut(n);
        distribute_payload(first, prefix_sum_1.as_slice());
        proof {
            assert(res@ =~= first@ + rest@);
        }
    }
    let ghost res2 = res@;
    proof {
        assert(is_real(ps1, 0));
        lemma_run_head(ps1, 0);
    }
    let mut i: usize = 1;
    while i < n
        invariant
            1 <= i <= n,
            n <= res@.len(),
            res@.len() == res2.len(),
            prefix_sum_1@.len() == n + 1,
            prefix_sum_1@ == ps1,
            is_prefix_count(ps1),
            forall|k: int| 0 <= k < i ==> #[trigger] res@[k] == res2[run_head(ps1, k)],
            forall|k: int| i <= k < res@.len() ==> #[trigger] res@[k] == res2[k],
        decreases n - i,
    {
        let cond = prefix_sum_1[i + 1] == prefix_sum_1[i];
        let copy = res[i - 1];
        let mut cur = res[i];
        cur.cmov(&copy, cond);
        proof {
            assert(res@[i - 1] == res2[run_head(ps1, i - 1)]);
            assert(ps1[i + 1] == ps1[i as int] || ps1[i + 1] == ps1[i as int] + 1);
            assert(run_head(ps1, i as int) == (if is_real(ps1, i as int) { i as int } else { run_head(ps1, i - 1) }));
        }
        res.set(i, cur);
        i += 1;
    }
    res.truncate(n);
    let ghost res3 = res@;
    let ghost im = index_map_1@;
    bitonic_payload_sort(index_map_1.as_mut_slice(), res.as_mut_slice());
    proof {
        broadcast use vstd::seq_lib::group_to_multiset_ensures;
        let im2 = index_map_1@;
        lemma_usize_order();
        im.lemma_multiset_has_no_duplicates();
        im2.lemma_multiset_has_no_duplicates_conv();
        assert forall|k: int| 0 <= k < im2.len() implies #[trigger] im2[k] < im2.len() by {
            assert(im2.contains(im2[k]));
            assert(im.to_multiset().count(im2[k]) > 0);
            assert(im.contains(im2[k]));
        }
        lemma_sorted_indices(im2);
        let z0 = crate::sort::utils::zip_spec(im, res3);
        let z1 = crate::sort::utils::zip_spec(im2, res@);
        assert forall|j: int, i2: int|
            0 <= j < n && 0 <= i2 < P * pl.b && #[trigger] answers(pl, j, i2) implies res@[im[j] as int] == res0[i2] by {
            assert(z0[j] == (im[j], res3[j]));
            assert(z0.contains(z0[j]));
            assert(z1.to_multiset().count(z0[j]) > 0);
            assert(z1.contains(z0[j]));
            let k = choose|k: int| 0 <= k < z1.len() && z1[k] == z0[j];
            assert(im2[k] == im[j]);
            assert(k == im[j]);
            let h = run_head(ps1, j);
            lemma_run_head(ps1, j);
            lemma_prefix_count_bounds(ps1, 0, h);
            assert(res3[j] == res2[h]);
            assert(res2[h] == res1[ps1[h] as int]);
            assert(res1[ps2[i2] as int] == res0[i2]);
        }
    }
    res
}

/// What a batch insertion sends to the partitions.
pub struct InsertBatchPlan<K, V> {
    /// Number of slots of each partition.
    pub b: usize,
    /// The elements to insert, `b` slots per partition; padding and repeated keys have
    /// partition `P`.
    pub keyinfo: Vec<KeyWithPartValue<K, V>>,
    /// Number of distinct keys in the batch.
    pub added: usize,
}

/// Steps 1 to 3 of a batch insertion of `keys` with `values`, whose partitions are
/// `targets`: sorts by partition, key and position, marks every repetition of a key as
/// padding so that its first occurrence is kept, and spreads the distinct keys over `b`
/// slots per partition. Returns `None` when some partition holds more than `b` distinct
/// keys; when equal keys have equal partitions, such a partition always makes it return
/// `None`.
pub fn plan_insert_batch<K: OHash + Default + Ord, V: Cmov + Copy + Default + Ord>(keys: &[K], values: &[V], targets: &[usize], b: usize) -> (r: Option<InsertBatchPlan<K, V>>)
    requires
        keys@.len() == targets@.len(),
        0 < keys@.len(),
        keys@.len() == values@.len(),
        b <= keys@.len(),
        div_ceil_spec(keys@.len() as int, P as int) <= b,
        keys@.len() * P < usize::MAX / 2,
    ensures
        r is Some ==> r->0.b == b && r->0.keyinfo@.len() == P * b && r->0.added <= keys@.len()
            && P * b < usize::MAX / 2,
        b == keys@.len() ==> r is Some,
        consistent_targets(keys@, targets@) && (exists|q: int| 0 <= q < P && #[trigger] partition_keys(keys@, targets@, q).len() > b)
            ==> r is None,
{
    let n: usize = keys.len();
    proof {
        assert(P * b <= P * n) by (nonlinear_arith)
            requires
                b <= n,
        ;
        assert(n <= P * b) by (nonlinear_arith)
            requires
                (n + P - 1) / (P as int) <= b,
                P == 15,
        ;
    }
    let bp = b * P;
    // 1. Sort the keys by partition, then by key, then by position.
    let mut keyinfo: Vec<KeyWithPartValue<K, V>> = Vec::with_capacity(bp);
    let mut index_map_1: Vec<usize> = Vec::with_capacity(n);
    let mut i: usize = 0;
    while i < n
        invariant
            n == keys@.len(),
            n == values@.len(),
            n == targets@.len(),
            i <= n,
            keyinfo@.len() == i,
            index_map_1@.len() == i,
            forall|j: int| 0 <= j < i ==> #[trigger] keyinfo@[j] == (KeyWithPartValue {
                partition: targets@[j],
                key: keys@[j],
                index: j as usize,
                value: values@[j],
            }),
        decreases n - i,
    {
        keyinfo.push(KeyWithPartValue { partition: targets[i], key: keys[i], index: i, value: values[i] });
        index_map_1.push(i);
        i += 1;
    }
    proof {
        assert(keyinfo@ =~= Seq::new(
            keys@.len(),
            |i: int| KeyWithPartValue { partition: targets@[i], key: keys@[i], index: i as usize, value: values@[i] },
        ));
    }
    bitonic_payload_sort(keyinfo.as_mut_slice(), index_map_1.as_mut_slice());
    let ghost s = keyinfo@;
    let ghost sp = key_parts(s);
    // 2. Count the distinct keys of each partition; mark the repeated ones as padding
    //    and move them to the end.
    let mut par_load: Vec<usize> = Vec::with_capacity(P);
    let mut j: usize = 0;
    while j < P
        invariant
            j <= P,
            par_load@.len() == j,
            keyinfo@.len() == n,
            0 < n,
            forall|q: int| 0 <= q < j ==> #[trigger] par_load@[q] <= 1,
            seq_sum(par_load@) <= (if j > keyinfo@[0].partition { 1int } else { 0int }),
            keyinfo@ == s,
            sp == key_parts(s),
            forall|q: int| 0 <= q < j ==> #[trigger] par_load@[q] == run_starts(sp, q, 1).len(),
        decreases P - j,
    {
        let mut load: usize = 0;
        load.cmov(&1, keyinfo[0].partition == j);
        proof {
            assert(par_load@.push(load).drop_last() =~= par_load@);
            lemma_run_starts_step(sp, j as int, 0);
            assert(run_starts(sp, j as int, 0) =~= Set::<int>::empty());
        }
        par_load.push(load);
        j += 1;
    }
    let mut prefix_sum_1: Vec<usize> = Vec::with_capacity(n + 1);
    prefix_sum_1.push(0);
    prefix_sum_1.push(1);
    let mut i: usize = 1;
    while i < n
        invariant
            1 <= i <= n,
            keyinfo@.len() == n,
            n * P < usize::MAX / 2,
            prefix_sum_1@.len() == i + 1,
            prefix_sum_1@[0] == 0,
            prefix_sum_1@[i as int] <= i,
            is_prefix_count(prefix_sum_1@),
            par_load@.len() == P,
            forall|q: int| 0 <= q < P ==> #[trigger] par_load@[q] <= i,
            seq_sum(par_load@) <= prefix_sum_1@[i as int],
            s.len() == n,
            sp == key_parts(s),
            forall|a: int| 0 <= a < n ==> (#[trigger] keyinfo@[a]).key == s[a].key,
            forall|a: int| i <= a < n ==> #[trigger] keyinfo@[a] == s[a],
            forall|q: int| 0 <= q < P ==> #[trigger] par_load@[q] == run_starts(sp, q, i as int).len(),
        decreases n - i,
    {
        let new_key = !keyinfo[i].key.key_eq(&keyinfo[i - 1].key);
        let prev = prefix_sum_1[i];
        let mut next = prev;
        next.cmov(&(prev + 1), new_key);
        prefix_sum_1.push(next);
        let mut cur = keyinfo[i];
        cur.partition.cmov(&P, !new_key);
        keyinfo.set(i, cur);
        let part = cur.partition;
        let ghost loads = par_load@;
        let mut j: usize = 0;
        while j < P
            invariant
                j <= P,
                i < n,
                keyinfo@.len() == n,
                par_load@.len() == P,
                loads.len() == P,
                forall|q: int| 0 <= q < j ==> #[trigger] par_load@[q] <= i + 1,
                forall|q: int| j <= q < P ==> #[trigger] par_load@[q] <= i,
                forall|q: int| 0 <= q < P ==> #[trigger] par_load@[q] == (if q < j && q == part && new_key {
                    loads[q] + 1
                } else {
                    loads[q] as int
                }),
            decreases P - j,
        {
            let cond = part == j;
            let mut load = par_load[j];
            load.cmov(&(par_load[j] + 1), cond && new_key);
            par_load.set(j, load);
            j += 1;
        }
        proof {
            if new_key && part < P {
                lemma_seq_sum_update(loads, part as int, (loads[part as int] + 1) as usize);
                assert(par_load@ =~= loads.update(part as int, (loads[part as int] + 1) as usize));
            } else {
                assert(par_load@ =~= loads);
            }
            assert(new_key == (sp[i as int].key != sp[i - 1].key));
            assert forall|q: int| 0 <= q < P implies #[trigger] par_load@[q] == run_starts(sp, q, i + 1).len() by {
                lemma_run_starts_step(sp, q, i as int);
            }
        }
        i += 1;
    }
    let mut j: usize = 0;
    while j < P
        invariant
            j <= P,
            par_load@.len() == P,
            forall|q: int| 0 <= q < j ==> #[trigger] par_load@[q] <= b,
            forall|q: int| 0 <= q < P ==> #[trigger] par_load@[q] <= n,
            n == keys@.len(),
            sp.len() == n,
            forall|q: int| 0 <= q < P ==> #[trigger] par_load@[q] == run_starts(sp, q, n as int).len(),
        decreases P - j,
    {
        if par_load[j] > b {
            return None;
        }
        j += 1;
    }
    proof {
        if consistent_targets(keys@, targets@) && (exists|q: int| 0 <= q < P && #[trigger] partition_keys(keys@, targets@, q).len() > b) {
            let q = choose|q: int| 0 <= q < P && #[trigger] partition_keys(keys@, targets@, q).len() > b;
            lemma_rearranged_value_batch(keys@, values@, targets@, s);
            lemma_run_starts_cover(keys@, targets@, sp, q);
            assert(par_load@[q] <= b);
        }
    }
    compact_payload(keyinfo.as_mut_slice(), prefix_sum_1.as_slice());
    // 3. Spread the distinct keys over `b` slots per partition.
    let prefix_sum_2 = partition_ranks(&par_load, b);
    let added = prefix_sum_2[bp];
    let mut t: usize = n;
    while t < bp
        invariant
            n <= t <= bp,
            keyinfo@.len() == t,
        decreases bp - t,
    {
        keyinfo.push(KeyWithPartValue { partition: P, key: K::default(), index: 0, value: V::default() });
        t += 1;
    }
    distribute_payload(keyinfo.as_mut_slice(), prefix_sum_2.as_slice());
    Some(InsertBatchPlan { b, keyinfo, added })
}

/// A batch size `b` for `n` distinct queries that a partition exceeds only with small
/// probability: `min(ceil(n / P) + isqrt(ceil(n * (log2(P) + 1) / P)) + 20, n)`.
pub fn safe_batch_size(n: usize) -> (r: usize)
    requires
        n <= usize::MAX / 4,
    ensures
        exists|s: int|
            #![trigger s * s]
            0 <= s && s * s <= div_ceil_spec(n * 4, P as int) < (s + 1) * (s + 1) && r == (if div_ceil_spec(n as int, P as int) + s + 20 < n {
                div_ceil_spec(n as int, P as int) + s + 20
            } else {
                n as int
            }),
{
    let lz = usize_leading_zeros(P);
    proof {
        reveal_with_fuel(bit_length, 6);
    }
    let log_p = (usize::BITS - 1 - lz) as usize;
    proof {
        assert(n * (log_p + 1) == n * 4) by (nonlinear_arith)
            requires
                log_p == 3,
        ;
    }
    let m = n * (log_p + 1);
    let t = m / P + (if m % P != 0 { 1usize } else { 0usize });
    proof {
        assert(t == div_ceil_spec(m as int, P as int)) by (nonlinear_arith)
            requires
                t == m / 15 + (if m % 15 != 0 { 1int } else { 0int }),
                P == 15,
                div_ceil_spec(m as int, P as int) == (m + 14) / 15,
        ;
    }
    let s = usize_isqrt(t);
    proof {
        assert(s <= t) by (nonlinear_arith)
            requires
                s * s <= t,
        ;
    }
    let a = (n + (P - 1)) / P + s + 20;
    if a < n {
        a
    } else {
        n
    }
}

/// A sharded map with `P` partitions. Batches of queries send `b` queries to every
/// partition, whatever the keys, so a batch leaks only its size and `b`.
pub struct ShardedMap<K, V> {
    /// Number of elements in the map.
    size: usize,
    /// Capacity of the map: `P` times the capacity of a partition.
    capacity: usize,
    /// The partitions.
    partitions: Vec<UnsortedMap<K, V>>,
    /// The keyed hasher that maps keys to partitions.
    random_state: RandomState,
}

impl<K, V> ShardedMap<K, V> {
    /// One well-formed partition per partition index.
    pub closed spec fn wf(&self) -> bool {
        &&& self.partitions@.len() == P
        &&& forall|p: int| 0 <= p < P ==> (#[trigger] self.partitions@[p]).wf()
    }

    /// Number of elements in the map.
    pub closed spec fn size_spec(&self) -> nat {
        self.size as nat
    }

    /// Capacity of the map.
    pub closed spec fn capacity_spec(&self) -> nat {
        self.capacity as nat
    }

    /// Number of elements in the map.
    pub fn size(&self) -> (r: usize)
        ensures
            r == self.size_spec(),
    {
        self.size
    }

    /// Capacity of the map.
    pub fn capacity(&self) -> (r: usize)
        ensures
            r == self.capacity_spec(),
    {
        self.capacity
    }
}

impl<K: OHash + Default + Ord, V: Cmov + Copy + Default + Ord> ShardedMap<K, V> {
    /// The partition of each key.
    fn partitions_of(&self, keys: &[K]) -> (targets: Vec<usize>)
        ensures
            targets@.len() == keys@.len(),
            forall|i: int| 0 <= i < keys@.len() ==> #[trigger] targets@[i] < P,
    {
        let mut targets: Vec<usize> = Vec::with_capacity(keys.len());
        let mut i: usize = 0;
        while i < keys.len()
            invariant
                i <= keys@.len(),
                targets@.len() == i,
                forall|j: int| 0 <= j < i ==> #[trigger] targets@[j] < P,
            decreases keys@.len() - i,
        {
            targets.push(self.get_partition(&keys[i]));
            i += 1;
        }
        targets
    }

    /// Compacts the blocks of every partition; `None` when a partition holds more than
    /// `b` of the keys. Otherwise the keys number at most `P * b`.
    fn split_batch(keys: &[K], values: &[V], targets: &Vec<usize>, b: usize) -> (r: Option<Vec<Vec<BatchBlock<K, V>>>>)
        requires
            values@.len() == 0 || values@.len() == keys@.len(),
            targets@.len() == keys@.len(),
            keys@.len() <= usize::MAX / 2,
            forall|i: int| 0 <= i < keys@.len() ==> #[trigger] targets@[i] < P,
        ensures
            r is Some ==> r->0@.len() == P && keys@.len() <= P * b
                && forall|p: int| 0 <= p < P ==> (#[trigger] r->0@[p])@.len() == keys@.len(),
            r is None ==> exists|p: int| 0 <= p < P && count_eq(targets@, p) > b,
            (forall|p: int| 0 <= p < P ==> #[trigger] count_eq(targets@, p) <= b) ==> r is Some,
    {
        let mut per_p: Vec<Vec<BatchBlock<K, V>>> = Vec::with_capacity(P);
        let mut p: usize = 0;
        while p < P
            invariant
                values@.len() == 0 || values@.len() == keys@.len(),
                targets@.len() == keys@.len(),
                keys@.len() <= usize::MAX / 2,
                p <= P,
                per_p@.len() == p,
                forall|q: int| 0 <= q < p ==> (#[trigger] per_p@[q])@.len() == keys@.len(),
                forall|q: int| 0 <= q < p ==> #[trigger] count_eq(targets@, q) <= b,
            decreases P - p,
        {
            let (part, cnt) = Self::compacted_partition(keys, values, targets, p);
            if cnt > b {
                return None;
            }
            per_p.push(part);
            p += 1;
        }
        proof {
            lemma_sum_counts_len(targets@, P as int);
            lemma_sum_counts_bound(targets@, P as int, b as int);
        }
        Some(per_p)
    }

    /// Sends the first `b` blocks of each partition to it as a `Get` command and gathers
    /// the answers, partition after partition.
    fn dispatch_get(&mut self, per_p: &Vec<Vec<BatchBlock<K, V>>>, b: usize) -> (merged: Vec<BatchBlock<K, V>>)
        requires
            old(self).wf(),
            per_p@.len() == P,
            forall|p: int| 0 <= p < P ==> b <= (#[trigger] per_p@[p])@.len(),
            P * b <= usize::MAX,
        ensures
            final(self).wf(),
            final(self).size == old(self).size,
            final(self).capacity == old(self).capacity,
            merged@.len() == P * b,
    {
        let mut merged: Vec<BatchBlock<K, V>> = Vec::with_capacity(P * b);
        let mut p: usize = 0;
        while p < P
            invariant
                self.wf(),
                self.size == old(self).size,
                self.capacity == old(self).capacity,
                per_p@.len() == P,
                forall|q: int| 0 <= q < P ==> b <= (#[trigger] per_p@[q])@.len(),
                P * b <= usize::MAX,
                p <= P,
                merged@.len() == p * b,
            decreases P - p,
        {
            let mut blocks = prefix_copy(&per_p[p], b);
            let ghost maps = self.partitions@;
            partition_get(&mut self.partitions[p], &mut blocks);
            proof {
                assert forall|q: int| 0 <= q < P implies (#[trigger] self.partitions@[q]).wf() by {
                    if q != p {
                        assert(self.partitions@[q] == maps[q]);
                    }
                }
            }
            let mut i: usize = 0;
            while i < b
                invariant
                    blocks@.len() == b,
                    i <= b,
                    merged@.len() == p * b + i,
                    p < P,
                    P * b <= usize::MAX,
                decreases b - i,
            {
                proof {
                    assert(p * b + i < P * b) by (nonlinear_arith)
                        requires
                            p < P,
                            i < b,
                    ;
                }
                merged.push(blocks[i]);
                i += 1;
            }
            proof {
                assert(p * b + b == (p + 1) * b) by (nonlinear_arith);
            }
            p += 1;
        }
        merged
    }

    /// Reads the values of `keys`, which must be distinct, sending `b` queries to each
    /// partition: leaks only `keys.len()` and `b`. Returns `None` when some partition holds
    /// more than `b` of the keys.
    pub fn get_batch_distinct(&mut self, keys: &[K], b: usize) -> (r: Option<Vec<OOption<V>>>)
        requires
            old(self).wf(),
            b <= keys@.len(),
            keys@.len() * P <= usize::MAX / 2,
        ensures
            final(self).wf(),
            final(self).size_spec() == old(self).size_spec(),
            final(self).capacity_spec() == old(self).capacity_spec(),
            r is Some ==> r->0@.len() == keys@.len(),
            b == keys@.len() ==> r is Some,
    {
        let n = keys.len();
        let targets = self.partitions_of(keys);
        let no_values: Vec<V> = Vec::new();
        proof {
            assert forall|p: int| 0 <= p < P implies #[trigger] count_eq(targets@, p) <= n by {
                lemma_count_eq_le_len(targets@, p);
            }
        }
        let per_p = match Self::split_batch(keys, no_values.as_slice(), &targets, b) {
            Some(per_p) => per_p,
            None => {
                return None;
            },
        };
        proof {
            assert(P * b <= P * n) by (nonlinear_arith)
                requires
                    b <= n,
            ;
        }
        let mut merged = self.dispatch_get(&per_p, b);
        bitonic_sort(merged.as_mut_slice());
        let mut ret: Vec<OOption<V>> = Vec::with_capacity(n);
        let mut i: usize = 0;
        while i < n
            invariant
                n <= merged@.len(),
                i <= n,
                ret@.len() == i,
            decreases n - i,
        {
            ret.push(merged[i].v);
            i += 1;
        }
        Some(ret)
    }

    /// Reads the values of `keys`, sending to each partition as many queries as the
    /// largest partition needs. Unlike `get_batch_distinct` this leaks the size of the
    /// largest partition, which over repeated batches reveals how keys map to partitions.
    pub fn get_batch_leaky(&mut self, keys: &[K]) -> (r: Vec<OOption<V>>)
        requires
            old(self).wf(),
            keys@.len() * P <= usize::MAX / 2,
        ensures
            final(self).wf(),
            final(self).size_spec() == old(self).size_spec(),
            final(self).capacity_spec() == old(self).capacity_spec(),
            r@.len() == keys@.len(),
    {
        let n = keys.len();
        let targets = self.partitions_of(keys);
        let no_values: Vec<V> = Vec::new();
        let mut per_p: Vec<Vec<BatchBlock<K, V>>> = Vec::with_capacity(P);
        let mut b: usize = 0;
        let mut p: usize = 0;
        while p < P
            invariant
                targets@.len() == n,
                n == keys@.len(),
                n * P <= usize::MAX / 2,
                no_values@.len() == 0,
                p <= P,
                b <= n,
                per_p@.len() == p,
                forall|q: int| 0 <= q < p ==> (#[trigger] per_p@[q])@.len() == n,
                forall|q: int| 0 <= q < p ==> #[trigger] count_eq(targets@, q) <= b,
            decreases P - p,
        {
            let (part, cnt) = Self::compacted_partition(keys, no_values.as_slice(), &targets, p);
            proof {
                lemma_count_eq_le_len(targets@, p as int);
            }
            b = crate::primitives::utils::max(b, cnt);
            per_p.push(part);
            p += 1;
        }
        proof {
            lemma_sum_counts_len(targets@, P as int);
            lemma_sum_counts_bound(targets@, P as int, b as int);
            assert(P * b <= P * n) by (nonlinear_arith)
                requires
                    b <= n,
            ;
        }
        let mut merged = self.dispatch_get(&per_p, b);
        bitonic_sort(merged.as_mut_slice());
        let mut ret: Vec<OOption<V>> = Vec::with_capacity(n);
        let mut i: usize = 0;
        while i < n
            invariant
                n <= merged@.len(),
                i <= n,
                ret@.len() == i,
            decreases n - i,
        {
            ret.push(merged[i].v);
            i += 1;
        }
        ret
    }

    /// Inserts the distinct `keys` with `values`, none of which may be in the map already,
    /// sending `b` blocks to each partition. Returns `false` when some partition holds more
    /// than `b` of the keys, in which case nothing is inserted, or when a partition could
    /// not take an insertion.
    pub fn insert_batch_distinct(&mut self, keys: &[K], values: &[V], b: usize) -> (ok: bool)
        requires
            old(self).wf(),
            keys@.len() == values@.len(),
            old(self).size_spec() + keys@.len() <= old(self).capacity_spec(),
            b <= keys@.len(),
            keys@.len() * P <= usize::MAX / 2,
        ensures
            final(self).wf(),
            final(self).capacity_spec() == old(self).capacity_spec(),
            ok ==> final(self).size_spec() == old(self).size_spec() + keys@.len(),
    {
        let n = keys.len();
        let targets = self.partitions_of(keys);
        let per_p = match Self::split_batch(keys, values, &targets, b) {
            Some(per_p) => per_p,
            None => {
                return false;
            },
        };
        let mut ok = true;
        let mut p: usize = 0;
        while p < P
            invariant
                self.wf(),
                self.size == old(self).size,
                self.capacity == old(self).capacity,
                per_p@.len() == P,
                forall|q: int| 0 <= q < P ==> (#[trigger] per_p@[q])@.len() == n,
                b <= n,
                p <= P,
            decreases P - p,
        {
            let blocks = prefix_copy(&per_p[p], b);
            let ghost maps = self.partitions@;
            let inserted = partition_insert(&mut self.partitions[p], blocks.as_slice());
            proof {
                assert forall|q: int| 0 <= q < P implies (#[trigger] self.partitions@[q]).wf() by {
                    if q != p {
                        assert(self.partitions@[q] == maps[q]);
                    }
                }
            }
            ok = ok && inserted;
            p += 1;
        }
        if ok {
            self.size = self.size + n;
        }
        ok
    }

    /// Sends the keys of `keyinfo`, `b` slots per partition, to their partitions in
    /// `Getv2` commands of at most `SUBTASK_SIZE` keys, and gathers the answers in the
    /// same slots.
    fn query_partitions(&mut self, keyinfo: &Vec<KeyWithPart<K>>, b: usize) -> (res: Vec<OOption<V>>)
        requires
            old(self).wf(),
            keyinfo@.len() == P * b,
            P * b < usize::MAX / 2,
        ensures
            final(self).wf(),
            final(self).size == old(self).size,
            final(self).capacity == old(self).capacity,
            res@.len() == P * b,
    {
        let bp = P * b;
        let mut res: Vec<OOption<V>> = Vec::with_capacity(bp);
        let mut t: usize = 0;
        while t < bp
            invariant
                t <= bp,
                res@.len() == t,
            decreases bp - t,
        {
            res.push(OOption { value: V::default(), is_some: false });
            t += 1;
        }
        let tasks = subtasks(b);
        proof {
            assert forall|u: int| 0 <= u < tasks@.len() implies {
                let st = #[trigger] tasks@[u];
                &&& st.partition < P
                &&& st.low == st.partition * b + st.offset
                &&& st.offset < b
                &&& st.low < st.high <= (st.partition + 1) * b
                &&& st.high - st.low <= SUBTASK_SIZE
            } by {
                assert(subtask_ok(tasks@[u], b as int));
            }
        }
        let mut t: usize = 0;
        while t < tasks.len()
            invariant
                self.wf(),
                self.size == old(self).size,
                self.capacity == old(self).capacity,
                keyinfo@.len() == bp,
                bp == P * b,
                bp < usize::MAX / 2,
                res@.len() == bp,
                forall|u: int| 0 <= u < tasks@.len() ==> {
                    let st = #[trigger] tasks@[u];
                    &&& st.partition < P
                    &&& st.low == st.partition * b + st.offset
                    &&& st.offset < b
                    &&& st.low < st.high <= (st.partition + 1) * b
                    &&& st.high - st.low <= SUBTASK_SIZE
                },
            decreases tasks@.len() - t,
        {
            let st = tasks[t];
            proof {
                assert((st.partition + 1) * b <= P * b) by (nonlinear_arith)
                    requires
                        st.partition < P,
                ;
            }
            let mut blocks: Vec<K> = Vec::with_capacity(st.high - st.low);
            let mut x: usize = st.low;
            while x < st.high
                invariant
                    st.low <= x <= st.high,
                    st.high <= keyinfo@.len(),
                decreases st.high - x,
            {
                blocks.push(keyinfo[x].key);
                x += 1;
            }
            let ghost maps = self.partitions@;
            let values = partition_get_keys(&mut self.partitions[st.partition], blocks.as_slice());
            proof {
                assert forall|q: int| 0 <= q < P implies (#[trigger] self.partitions@[q]).wf() by {
                    if q != st.partition {
                        assert(self.partitions@[q] == maps[q]);
                    }
                }
            }
            let mut y: usize = 0;
            while y < values.len() && y < SUBTASK_SIZE && st.low + y < bp
                invariant
                    res@.len() == bp,
                    st.low < bp,
                    bp < usize::MAX / 2,
                    y <= SUBTASK_SIZE,
                decreases SUBTASK_SIZE - y,
            {
                res.set(st.low + y, values[y]);
                y += 1;
            }
            t += 1;
        }
        res
    }

    /// Reads the values of `keys`, which may repeat, sending `b` queries to every
    /// partition: leaks only `keys.len()` and `b`. Returns `None` when some partition holds
    /// more than `b` distinct keys of the batch.
    pub fn get_batch(&mut self, keys: &[K], b: usize) -> (r: Option<Vec<OOption<V>>>)
        requires
            old(self).wf(),
            0 < keys@.len(),
            b <= keys@.len(),
            div_ceil_spec(keys@.len() as int, P as int) <= b,
            keys@.len() * P < usize::MAX / 2,
        ensures
            final(self).wf(),
            final(self).size_spec() == old(self).size_spec(),
            final(self).capacity_spec() == old(self).capacity_spec(),
            r is Some ==> r->0@.len() == keys@.len(),
            b == keys@.len() ==> r is Some,
    {
        let targets = self.partitions_of(keys);
        let plan = match plan_get_batch(keys, targets.as_slice(), b) {
            Some(plan) => plan,
            None => {
                return None;
            },
        };
        let res = self.query_partitions(&plan.keyinfo, b);
        Some(finish_get_batch(plan, res))
    }

    /// Inserts `keys` with `values`, sending `b` blocks to every partition: leaks only
    /// `keys.len()` and `b`. A key that repeats in the batch is inserted once, with the
    /// value of its first occurrence; the keys must not be in the map already. Returns
    /// `false` when some partition holds more than `b` distinct keys of the batch, in which
    /// case nothing is inserted, or when a partition could not take an insertion.
    pub fn insert_batch(&mut self, keys: &[K], values: &[V], b: usize) -> (ok: bool)
        requires
            old(self).wf(),
            0 < keys@.len(),
            keys@.len() == values@.len(),
            b <= keys@.len(),
            div_ceil_spec(keys@.len() as int, P as int) <= b,
            keys@.len() * P < usize::MAX / 2,
            old(self).size_spec() + keys@.len() <= usize::MAX,
        ensures
            final(self).wf(),
            final(self).capacity_spec() == old(self).capacity_spec(),
            old(self).size_spec() <= final(self).size_spec() <= old(self).size_spec() + keys@.len(),
    {
        let targets = self.partitions_of(keys);
        let plan = match plan_insert_batch(keys, values, targets.as_slice(), b) {
            Some(plan) => plan,
            None => {
                return false;
            },
        };
        let tasks = subtasks(b);
        proof {
            assert forall|u: int| 0 <= u < tasks@.len() implies {
                let st = #[trigger] tasks@[u];
                &&& st.partition < P
                &&& st.low == st.partition * b + st.offset
                &&& st.offset < b
                &&& st.low < st.high <= (st.partition + 1) * b
                &&& st.high - st.low <= SUBTASK_SIZE
            } by {
                assert(subtask_ok(tasks@[u], b as int));
            }
        }
        let mut ok = true;
        let mut t: usize = 0;
        while t < tasks.len()
            invariant
                self.wf(),
                self.size == old(self).size,
                self.capacity == old(self).capacity,
                plan.keyinfo@.len() == P * b,
                forall|u: int| 0 <= u < tasks@.len() ==> {
                    let st = #[trigger] tasks@[u];
                    &&& st.partition < P
                    &&& st.low < st.high <= (st.partition + 1) * b
                },
            decreases tasks@.len() - t,
        {
            let st = tasks[t];
            proof {
                assert((st.partition + 1) * b <= P * b) by (nonlinear_arith)
                    requires
                        st.partition < P,
                ;
            }
            let mut blocks: Vec<KeyWithPartValue<K, V>> = Vec::with_capacity(st.high - st.low);
            let mut x: usize = st.low;
            while x < st.high
                invariant
                    st.low <= x <= st.high,
                    st.high <= plan.keyinfo@.len(),
                decreases st.high - x,
            {
                blocks.push(plan.keyinfo[x]);
                x += 1;
            }
            let ghost maps = self.partitions@;
            let inserted = partition_insert_keys(&mut self.partitions[st.partition], blocks.as_slice(), st.partition);
            proof {
                assert forall|q: int| 0 <= q < P implies (#[trigger] self.partitions@[q]).wf() by {
                    if q != st.partition {
                        assert(self.partitions@[q] == maps[q]);
                    }
                }
            }
            ok = ok && inserted;
            t += 1;
        }
        self.size = self.size + plan.added;
        ok
    }


    /// The blocks of partition `p`, compacted so that the keys of `p` come first, and
    /// their number. Each block holds `values[i]` when `values` is not empty.
    fn compacted_partition(keys: &[K], values: &[V], targets: &Vec<usize>, p: usize) -> (r: (Vec<BatchBlock<K, V>>, usize))
        requires
            values@.len() == 0 || values@.len() == keys@.len(),
            targets@.len() == keys@.len(),
            keys@.len() <= usize::MAX / 2,
        ensures
            r.0@.len() == keys@.len(),
            r.1 == count_eq(targets@, p as int),
    {
        let n = keys.len();
        let mut part: Vec<BatchBlock<K, V>> = Vec::with_capacity(n);
        let mut i: usize = 0;
        while i < n
            invariant
                n == keys@.len(),
                n == targets@.len(),
                n <= usize::MAX / 2,
                values@.len() == 0 || values@.len() == n,
                i <= n,
                partition_blocks_spec(part@, keys@.subrange(0, i as int), targets@, p as int),
            decreases n - i,
        {
            let mut blk: BatchBlock<K, V> = BatchBlock::default();
            blk.k = keys[i];
            if values.len() > 0 {
                blk.v = OOption::new(values[i], true);
            }
            blk.index = i;
            blk.index.cmov(&INVALID_ID, targets[i] != p);
            part.push(blk);
            i += 1;
        }
        proof {
            assert(keys@.subrange(0, n as int) =~= keys@);
        }
        let ghost blocks = part@;
        let is_dummy = |x: &BatchBlock<K, V>| -> (r: bool)
            ensures
                r == (x.index == INVALID_ID),
            { x.index == INVALID_ID };
        let cnt = compact(part.as_mut_slice(), is_dummy);
        proof {
            let pp = choose|pp: Seq<usize>| crate::sort::compaction::is_real_prefix_sum(pp, blocks, is_dummy) && cnt == pp[n as int];
            lemma_partition_count(pp, blocks, keys@, targets@, p as int, is_dummy, n as int);
            assert(targets@.subrange(0, n as int) =~= targets@);
        }
        (part, cnt)
    }

    /// Creates an empty map for at least `capacity` elements: each of the `P` partitions
    /// gets `ceil(capacity / P)` of them.
    pub fn new(capacity: usize) -> (r: Self)
        requires
            0 < capacity <= 0x1000_0000,
        ensures
            r.wf(),
            r.size_spec() == 0,
            r.capacity_spec() == div_ceil_spec(capacity as int, P as int) * P,
    {
        let per_part = (capacity + (P - 1)) / P;
        let mut partitions: Vec<UnsortedMap<K, V>> = Vec::with_capacity(P);
        let mut i: usize = 0;
        while i < P
            invariant
                0 < per_part <= 0x1000_0000,
                i <= P,
                partitions@.len() == i,
                forall|p: int| 0 <= p < i ==> (#[trigger] partitions@[p]).wf(),
            decreases P - i,
        {
            partitions.push(UnsortedMap::new(per_part));
            i += 1;
        }
        ShardedMap { size: 0, capacity: per_part * P, partitions, random_state: new_partition_hasher() }
    }

    /// The partition of `key`.
    fn get_partition(&self, key: &K) -> (r: usize)
        ensures
            r < P,
    {
        (partition_hash(&self.random_state, key) % (P as u64)) as usize
    }

    /// A batch size `b` for `n` distinct queries that a partition exceeds only with small
    /// probability: `min(ceil(n / P) + isqrt(ceil(n * (log2(P) + 1) / P)) + 20, n)`.
    pub fn compute_safe_batch_size(&self, n: usize) -> (r: usize)
        requires
            n <= usize::MAX / 4,
        ensures
            exists|s: int|
                #![trigger s * s]
                0 <= s && s * s <= div_ceil_spec(n * 4, P as int) < (s + 1) * (s + 1) && r == (if div_ceil_spec(n as int, P as int) + s + 20 < n {
                    div_ceil_spec(n as int, P as int) + s + 20
                } else {
                    n as int
                }),
    {
        safe_batch_size(n)
    }
}

} // verus!
