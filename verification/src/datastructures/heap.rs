//! A path oblivious heap: the elements live in a Circuit ORAM, and a metadata tree of the
//! same shape records the minimum element of each subtree.
use vstd::prelude::*;
use rand::rngs::ThreadRng;
use crate::oram::circuit_oram::{remove_element, write_to_stash, Block, CircuitORAM, S, Z, is_live, can_sink, is_first_empty, lemma_stash_write, lemma_remove_access, lemma_remove_any, oram_blocks, path_blocks, live_blocks, write_path_spec};
use crate::oram::block_sets::{lemma_write_path, lemma_tree_live_path, lemma_live_blocks_concat, lemma_read_path_legal, lemma_live_blocks_member, tree_live, tree_live_in, off_path};
use crate::oram::heap_tree::{HeapTree, node_index, lemma_node_index_bounds};
use crate::oram::prelude::{PositionType, K, DUMMY_POS};
use crate::primitives::traits::Cmov;
use crate::random::{thread_rng, random_below};
use crate::datastructures::heap_meta::{meta_ok, meta_off_ok, meta_at_ok, path_copy, lemma_flip_bit, lemma_children, lemma_meta_new, lemma_meta_frame, lemma_root, lemma_meta_in_tree, lemma_meta_below_tree, lemma_meta_off_after_write, lemma_path_copy};

verus! {

/// A logical heap element: a priority and a value.
#[derive(Debug, Clone, Copy)]
pub struct HeapElement<V> {
    /// The priority of the element; smaller comes first.
    pub key: K,
    /// The value of the element.
    pub value: V,
}

impl<V: Default> Default for HeapElement<V> {
    fn default() -> (r: Self)
        ensures
            r.key == K::MAX,
    {
        HeapElement { key: K::MAX, value: V::default() }
    }
}

impl<V: Cmov + Copy> Cmov for HeapElement<V> {
    fn cmov(&mut self, other: &Self, choice: bool) {
        self.key.cmov(&other.key, choice);
        self.value.cmov(&other.value, choice);
    }

    fn cxchg(&mut self, other: &mut Self, choice: bool) {
        let tmp = *self;
        self.cmov(other, choice);
        other.cmov(&tmp, choice);
    }
}

/// One step of a minimum scan: `e` replaces `cur` when it holds an element with a
/// strictly smaller priority.
pub open spec fn min_step<V>(cur: Block<HeapElement<V>>, e: Block<HeapElement<V>>) -> Block<HeapElement<V>> {
    if e.pos != DUMMY_POS && e.value.key < cur.value.key {
        e
    } else {
        cur
    }
}

/// The minimum scan of `s` from left to right, starting at `init`: the first block with
/// the smallest priority, or `init` when no block beats it.
pub open spec fn min_scan<V>(init: Block<HeapElement<V>>, s: Seq<Block<HeapElement<V>>>) -> Block<HeapElement<V>>
    decreases s.len(),
{
    if s.len() == 0 {
        init
    } else {
        min_step(min_scan(init, s.drop_last()), s.last())
    }
}

/// The minimum scan is no larger than its start and than any live block it scans, and it
/// is its start or one of the live blocks.
pub proof fn lemma_min_scan<V>(init: Block<HeapElement<V>>, s: Seq<Block<HeapElement<V>>>)
    ensures
        min_scan(init, s).value.key <= init.value.key,
        forall|i: int| 0 <= i < s.len() && is_live(s[i]) ==> min_scan(init, s).value.key <= #[trigger] s[i].value.key,
        min_scan(init, s) == init || exists|i: int| 0 <= i < s.len() && s[i] == min_scan(init, s) && is_live(s[i]),
    decreases s.len(),
{
    if s.len() > 0 {
        lemma_min_scan(init, s.drop_last());
        let r0 = min_scan(init, s.drop_last());
        assert forall|i: int| 0 <= i < s.len() && is_live(s[i]) implies min_scan(init, s).value.key <= #[trigger] s[i].value.key by {
            if i < s.len() - 1 {
                assert(s.drop_last()[i] == s[i]);
            }
        }
        if min_scan(init, s) != init {
            if min_scan(init, s) == r0 {
                let i = choose|i: int| 0 <= i < s.drop_last().len() && s.drop_last()[i] == r0 && is_live(s.drop_last()[i]);
                assert(s[i] == r0);
            } else {
                assert(s[s.len() - 1] == min_scan(init, s));
            }
        }
    }
}

/// An oblivious heap.
///
/// Elements are stored in a Circuit ORAM, keyed by the timestamp of their insertion and
/// mapped to a random path that does not change after insertion. `metadata` has the shape
/// of the ORAM tree and records, for each node, the minimum element of its subtree.
pub struct Heap<V> {
    /// The heap elements.
    pub data: CircuitORAM<HeapElement<V>>,
    /// The minimum element of each subtree.
    pub metadata: HeapTree<Block<HeapElement<V>>>,
    /// Random source for paths.
    pub rng: ThreadRng,
    /// Maximum number of elements of the heap.
    pub max_size: usize,
    /// Timestamp of the next insertion, the ORAM key of the next element.
    pub timestamp: K,
    /// The evictions performed so far, oldest first: for each, the path and the stash
    /// buffer (the stash proper, then the path) before and after blocks were moved.
    pub evictions: Ghost<Seq<(PositionType, Seq<Block<HeapElement<V>>>, Seq<Block<HeapElement<V>>>)>>,
}

/// One eviction: its path, and the stash buffer before and after blocks were moved.
pub type EvictionStep<V> = (PositionType, Seq<Block<HeapElement<V>>>, Seq<Block<HeapElement<V>>>);

/// An eviction made progress where it could: whenever a block of the stash proper or of
/// the root bucket could go down its path to a level with an empty slot, one of them left.
pub open spec fn eviction_progress<V>(e: EvictionStep<V>, h: int) -> bool {
    can_sink(e.1, e.0, h) ==> exists|j: int| 0 <= j < S + Z && is_live(e.1[j]) && !is_live(#[trigger] e.2[j])
}

/// In an eviction the stash proper and the root bucket only give blocks up: each of their
/// slots keeps its block or ends empty.
pub open spec fn level0_gives_up<V>(e: EvictionStep<V>) -> bool {
    &&& e.1.len() == e.2.len()
    &&& S + Z <= e.1.len()
    &&& forall|k: int| 0 <= k < S + Z ==> e.2[k] == e.1[k] || !is_live(#[trigger] e.2[k])
}

/// Number of live blocks among the first `m` slots of `s`.
pub open spec fn live_count<V>(s: Seq<Block<V>>, m: int) -> nat
    decreases m,
{
    if m <= 0 {
        0
    } else {
        live_count(s, m - 1) + (if is_live(s[m - 1]) { 1nat } else { 0nat })
    }
}

/// Slots that only give blocks up hold no more live blocks afterwards, and fewer when one
/// of them gave its block up.
proof fn lemma_live_count_gives_up<V>(a: Seq<Block<V>>, b: Seq<Block<V>>, m: int)
    requires
        0 <= m <= a.len(),
        a.len() == b.len(),
        forall|k: int| 0 <= k < m ==> b[k] == a[k] || !is_live(#[trigger] b[k]),
    ensures
        live_count(b, m) <= live_count(a, m),
        (exists|j: int| 0 <= j < m && is_live(a[j]) && !is_live(#[trigger] b[j])) ==> live_count(b, m) < live_count(a, m),
    decreases m,
{
    if m > 0 {
        lemma_live_count_gives_up(a, b, m - 1);
        if exists|j: int| 0 <= j < m && is_live(a[j]) && !is_live(#[trigger] b[j]) {
            let j = choose|j: int| 0 <= j < m && is_live(a[j]) && !is_live(#[trigger] b[j]);
            if j < m - 1 {
                assert(exists|j2: int| 0 <= j2 < m - 1 && is_live(a[j2]) && !is_live(#[trigger] b[j2]));
            }
        }
    }
}

/// An eviction that made progress where it could, and in which the stash proper and the
/// root bucket only gave blocks up, leaves fewer blocks in them whenever one of their
/// blocks could go down its path to a level with an empty slot.
pub proof fn lemma_eviction_frees_stash<V>(e: EvictionStep<V>, h: int)
    requires
        eviction_progress(e, h),
        level0_gives_up(e),
        can_sink(e.1, e.0, h),
    ensures
        live_count(e.2, S + Z) < live_count(e.1, S + Z),
{
    lemma_live_count_gives_up(e.1, e.2, S + Z);
}

/// The stash proper `sp` after `b` is written into its first empty slot, if it has one.
pub open spec fn stash_with<V>(sp: Seq<Block<V>>, b: Block<V>) -> Seq<Block<V>> {
    if exists|i: int| is_first_empty(sp, i) {
        sp.update(choose|i: int| is_first_empty(sp, i), b)
    } else {
        sp
    }
}

/// A sequence has at most one first empty slot.
proof fn lemma_first_empty_unique<V>(sp: Seq<Block<V>>, i: int, j: int)
    requires
        is_first_empty(sp, i),
        is_first_empty(sp, j),
    ensures
        i == j,
{
    if i < j {
        assert(sp[i].pos != DUMMY_POS);
    } else if j < i {
        assert(sp[j].pos != DUMMY_POS);
    }
}

impl<V> Heap<V> {
    /// The ORAM is well formed and the metadata tree has its shape.
    pub open spec fn wf(&self) -> bool {
        &&& self.data.wf()
        &&& self.metadata.wf()
        &&& self.metadata.height == self.data.h
    }

    /// Well formed, the ORAM valid, and every timestamp held below the next one.
    pub open spec fn data_ok(&self) -> bool {
        &&& self.wf()
        &&& self.data.valid()
        &&& forall|k: K| #[trigger] self.data.contents().contains_key(k) ==> k < self.timestamp
    }

    /// The ORAM valid as above and every metadata node in order.
    pub open spec fn valid(&self) -> bool {
        &&& self.data_ok()
        &&& meta_ok(self.metadata.tree@, self.data.tree.tree@, self.data.h as int)
    }

    /// The block `find_min` reports: the minimum scan, from the root of the metadata tree,
    /// over the stash proper.
    pub open spec fn min_block(&self) -> Block<HeapElement<V>> {
        min_scan(self.metadata.tree@[0], self.data.stash@.subrange(0, S as int))
    }

    /// The evictions the heap has performed, oldest first.
    pub open spec fn eviction_log(&self) -> Seq<EvictionStep<V>> {
        self.evictions@
    }

    /// The elements of the heap, by timestamp, each with its path.
    pub open spec fn contents(&self) -> Map<K, (PositionType, HeapElement<V>)> {
        self.data.contents()
    }
}

/// In a valid heap, the block `find_min` reports is an element of the heap when live, has
/// a priority no larger than that of any element, and is empty only with priority `K::MAX`.
pub proof fn lemma_min_block<V>(heap: Heap<V>)
    requires
        heap.valid(),
    ensures
        is_live(heap.min_block()) ==> heap.contents().contains_key(heap.min_block().key) && heap.contents()[heap.min_block().key]
            == (heap.min_block().pos, heap.min_block().value),
        forall|k: K| #[trigger] heap.contents().contains_key(k) ==> heap.min_block().value.key <= heap.contents()[k].1.key,
        !is_live(heap.min_block()) ==> heap.min_block().value.key == K::MAX,
{
    let meta = heap.metadata.tree@;
    let nodes = heap.data.tree.tree@;
    let h = heap.data.h as int;
    let proper = heap.data.stash@.subrange(0, S as int);
    let r = heap.min_block();
    let m = oram_blocks(heap.data);
    lemma_min_scan(meta[0], proper);
    lemma_root(0);
    assert(meta_at_ok(meta, nodes, h, 0, 0));
    if is_live(r) {
        if r == meta[0] {
            lemma_meta_in_tree(meta, nodes, h, 0, 0);
        } else {
            lemma_live_blocks_member(proper, r);
        }
        assert(m.count(r) > 0);
        let b = choose|b: Block<HeapElement<V>>| m.count(b) > 0 && b.key == r.key;
        assert(b == r);
    }
    assert forall|k: K| #[trigger] heap.contents().contains_key(k) implies r.value.key <= heap.contents()[k].1.key by {
        let b = choose|b: Block<HeapElement<V>>| m.count(b) > 0 && b.key == k;
        if live_blocks(proper).count(b) > 0 {
            lemma_live_blocks_member(proper, b);
            let i = choose|i: int| 0 <= i < proper.len() && proper[i] == b && is_live(b);
            assert(is_live(proper[i]));
        } else {
            assert(tree_live(nodes).count(b) > 0);
            lemma_meta_below_tree(meta, nodes, h, b);
        }
    }
}

/// An element inserted into a valid heap bounds the minimum: `find_min` then reports a
/// priority no larger than the inserted one.
pub proof fn lemma_insert_bounds_min<V>(before: Heap<V>, after: Heap<V>, pos: PositionType, ts: K, key: K, value: V)
    requires
        after.valid(),
        after.contents() == before.contents().insert(ts, (pos, HeapElement { key, value })),
    ensures
        after.min_block().value.key <= key,
{
    lemma_min_block(after);
    assert(after.contents().contains_key(ts));
}

/// Writing back the path `pos` from a stash buffer of the right length leaves a copy of the
/// path in the buffer, and the metadata off the path in order when all of it was.
proof fn lemma_meta_after_path_write<V>(
    o: CircuitORAM<HeapElement<V>>,
    f: CircuitORAM<HeapElement<V>>,
    meta: Seq<Block<HeapElement<V>>>,
    pos: PositionType,
)
    requires
        o.wf(),
        f.wf(),
        f.h == o.h,
        meta_ok(meta, o.tree.tree@, o.h as int),
        f.tree.tree@ == write_path_spec(o.tree.tree@, o.h as int, pos as int, f.stash@.subrange(S as int, f.stash@.len() as int)),
    ensures
        path_copy(f.tree.tree@, f.stash@, f.h as int, pos as int),
        meta_off_ok(meta, f.tree.tree@, f.h as int, pos as int),
{
    let h = o.h as int;
    let tail = f.stash@.subrange(S as int, f.stash@.len() as int);
    lemma_write_path(o.tree.tree@, o.h as nat, pos, tail);
    lemma_path_copy(f.tree.tree@, f.stash@, h, pos as int);
    assert(meta_off_ok(meta, o.tree.tree@, h, pos as int)) by {
        assert forall|d: int, p: int|
            0 <= d < h && 0 <= p && node_index(d, p) != node_index(d, pos as int) implies #[trigger] meta_at_ok(
            meta,
            o.tree.tree@,
            h,
            d,
            p,
        ) by {}
    }
    lemma_meta_off_after_write(meta, o.tree.tree@, f.tree.tree@, h, pos as int);
}

impl<V: Cmov + Copy + Default> Heap<V> {
    /// Creates a heap for at most `n` elements.
    pub fn new(n: usize) -> (r: Self)
        requires
            1 < n <= 0xffff_ffff,
            n <= usize::MAX / 4,
        ensures
            r.wf(),
            r.max_size == n,
            r.timestamp == 0,
            forall|i: int| 0 <= i < r.metadata.tree@.len() ==> r.metadata.tree@[i].pos == DUMMY_POS,
            forall|i: int| 0 <= i < r.data.stash@.len() ==> r.data.stash@[i].pos == DUMMY_POS,
            r.valid(),
            r.contents() == Map::<K, (PositionType, HeapElement<V>)>::empty(),
            r.eviction_log() == Seq::<EvictionStep<V>>::empty(),
    {
        let data = CircuitORAM::new(n);
        let default_value = Block { pos: DUMMY_POS, key: 0, value: HeapElement::<V>::default() };
        let metadata = HeapTree::new_with(data.h, default_value);
        let r = Heap { data, metadata, rng: thread_rng(), max_size: n, timestamp: 0, evictions: Ghost(Seq::empty()) };
        proof {
            assert forall|d: int, p: int| 0 <= d < r.data.h && 0 <= p implies #[trigger] meta_at_ok(
                r.metadata.tree@,
                r.data.tree.tree@,
                r.data.h as int,
                d,
                p,
            ) by {
                lemma_node_index_bounds(d, p, r.data.h as nat);
                vstd::arithmetic::power2::lemma_pow2_pos(d as nat);
                if d + 1 < r.data.h {
                    lemma_node_index_bounds(d + 1, p, r.data.h as nat);
                    vstd::arithmetic::power2::lemma_pow2_pos((d + 1) as nat);
                }
            }
        }
        r
    }

    /// The minimum element of the heap: the minimum scan, from the root of the metadata
    /// tree, over the stash proper. In a valid heap the result is an element of smallest
    /// priority, or an empty block of priority `K::MAX` when no element has a priority below
    /// `K::MAX`.
    pub fn find_min(&self) -> (r: Block<HeapElement<V>>)
        requires
            self.wf(),
        ensures
            r == self.min_block(),
            self.valid() && is_live(r) ==> self.contents().contains_key(r.key) && self.contents()[r.key] == (
            r.pos,
            r.value,
            ),
            self.valid() ==> forall|k: K| #[trigger] self.contents().contains_key(k) ==> r.value.key <= self.contents()[k].1.key,
            self.valid() && !is_live(r) ==> r.value.key == K::MAX,
    {
        proof {
            if self.valid() {
                lemma_min_block(*self);
            }
        }
        let mut min_node = *self.metadata.get_path_at_depth(0, 0);
        proof {
            assert(node_index(0, 0) == 0) by {
                vstd::arithmetic::power2::lemma2_to64();
            }
        }
        let ghost init = min_node;
        let mut i: usize = 0;
        while i < S
            invariant
                self.wf(),
                i <= S,
                min_node == min_scan(init, self.data.stash@.subrange(0, i as int)),
            decreases S - i,
        {
            let elem = self.data.stash[i];
            let should_mov = !elem.is_empty() && elem.value.key < min_node.value.key;
            min_node.cmov(&elem, should_mov);
            proof {
                assert(self.data.stash@.subrange(0, i + 1).drop_last() =~= self.data.stash@.subrange(0, i as int));
            }
            i += 1;
        }
        min_node
    }

    /// Reads path `pos`, performs one eviction on it and writes it back, leaving a copy of
    /// the path at the end of the stash.
    fn evict(&mut self, pos: PositionType)
        requires
            old(self).wf(),
        ensures
            final(self).wf(),
            final(self).metadata == old(self).metadata,
            final(self).max_size == old(self).max_size,
            final(self).timestamp == old(self).timestamp,
            final(self).data.max_n == old(self).data.max_n,
            old(self).valid() ==> final(self).data_ok() && final(self).contents() == old(self).contents()
                && path_copy(final(self).data.tree.tree@, final(self).data.stash@, final(self).data.h as int, pos as int)
                && meta_off_ok(final(self).metadata.tree@, final(self).data.tree.tree@, final(self).data.h as int, pos as int),
            final(self).eviction_log().len() == old(self).eviction_log().len() + 1,
            final(self).eviction_log().subrange(0, old(self).eviction_log().len() as int) == old(self).eviction_log(),
            final(self).eviction_log().last().0 == pos,
            final(self).eviction_log().last().1.subrange(0, S as int) == old(self).data.stash@.subrange(0, S as int),
            final(self).eviction_log().last().2 == final(self).data.stash@,
            eviction_progress(final(self).eviction_log().last(), final(self).data.h as int),
            level0_gives_up(final(self).eviction_log().last()),
    {
        let ghost o = self.data;
        let ghost heap0 = *self;
        self.data.read_path_and_get_nodes(pos);
        proof {
            lemma_tree_live_path(o.tree.tree@, o.h as nat, pos);
            lemma_live_blocks_concat(o.stash@.subrange(0, S as int), path_blocks(o.tree.tree@, o.h as int, pos as int));
            if o.valid() {
                lemma_read_path_legal(o.tree.tree@, o.h as nat, pos, o.stash@.subrange(0, S as int));
            }
        }
        let ghost s0 = self.data.stash@;
        self.data.evict_once_fast(pos);
        let ghost s = self.data.stash@;
        proof {
            self.evictions@ = self.evictions@.push((pos, s0, s));
            assert(s0.subrange(0, S as int) =~= o.stash@.subrange(0, S as int));
        }
        self.data.write_back_path(pos);
        proof {
            assert(self.evictions@.subrange(0, heap0.evictions@.len() as int) =~= heap0.evictions@);
            if o.valid() {
                crate::oram::circuit_oram::lemma_finish_write_back(o, s, self.data, pos);
                assert(crate::oram::circuit_oram::live_blocks(s0).add(tree_live_in(o.tree.tree@, off_path(o.h as int, pos as int))) =~= oram_blocks(o));
                assert(oram_blocks(self.data) =~= oram_blocks(o));
                assert(self.data.valid());
                assert(self.data.contents() == o.contents());
            }
            if heap0.valid() {
                lemma_meta_after_path_write(o, self.data, self.metadata.tree@, pos);
            }
        }
    }

    /// Recomputes the metadata along path `pos` from the copy of the path held at the end
    /// of the stash, from the leaf up: each node gets the minimum of its bucket, of the
    /// node below it on the path and of that node's sibling. When the stash holds a copy of
    /// the path and the metadata off the path is in order, all the metadata is in order
    /// afterwards.
    fn update_min(&mut self, pos: PositionType)
        requires
            old(self).wf(),
        ensures
            final(self).wf(),
            final(self).data == old(self).data,
            final(self).metadata.height == old(self).metadata.height,
            final(self).max_size == old(self).max_size,
            final(self).timestamp == old(self).timestamp,
            final(self).eviction_log() == old(self).eviction_log(),
            path_copy(old(self).data.tree.tree@, old(self).data.stash@, old(self).data.h as int, pos as int)
                && meta_off_ok(old(self).metadata.tree@, old(self).data.tree.tree@, old(self).data.h as int, pos as int)
                ==> meta_ok(final(self).metadata.tree@, final(self).data.tree.tree@, final(self).data.h as int),
    {
        let ghost nodes = self.data.tree.tree@;
        let ghost hh = self.data.h as int;
        let ghost good = path_copy(nodes, self.data.stash@, hh, pos as int) && meta_off_ok(
            self.metadata.tree@,
            nodes,
            hh,
            pos as int,
        );
        let h = self.data.h;
        let mut h_index = h;
        let mut curr_min = Block::<HeapElement<V>>::default();
        curr_min.value.key = K::MAX;
        while h_index > 0
            invariant
                self.evictions == old(self).evictions,
                self.wf(),
                self.data == old(self).data,
                self.metadata.height == old(self).metadata.height,
                self.max_size == old(self).max_size,
                self.timestamp == old(self).timestamp,
                nodes == self.data.tree.tree@,
                hh == h as int,
                h == self.data.h,
                h_index <= h,
                h_index == h ==> !is_live(curr_min) && curr_min.value.key == K::MAX,
                h_index < h ==> curr_min == self.metadata.tree@[node_index(h_index as int, pos as int)],
                good ==> path_copy(nodes, self.data.stash@, hh, pos as int),
                good ==> meta_off_ok(self.metadata.tree@, nodes, hh, pos as int),
                good ==> forall|d: int, p: int|
                    h_index <= d < hh && 0 <= p && node_index(d, p) == node_index(d, pos as int)
                        ==> #[trigger] meta_at_ok(self.metadata.tree@, nodes, hh, d, p),
            decreases h_index,
        {
            let ghost start = curr_min;
            let base = S + (h_index - 1) * Z;
            let mut j: usize = 0;
            while j < Z
                invariant
                    self.evictions == old(self).evictions,
                    self.wf(),
                    self.data == old(self).data,
                    h == self.data.h,
                    1 <= h_index <= h,
                    base == S + (h_index - 1) * Z,
                    j <= Z,
                    curr_min.value.key <= start.value.key,
                    !is_live(curr_min) ==> curr_min == start,
                    is_live(curr_min) ==> {
                        ||| curr_min == start
                        ||| 0 < j && curr_min == self.data.stash@[base as int]
                        ||| 1 < j && curr_min == self.data.stash@[base + 1]
                    },
                    0 < j && is_live(self.data.stash@[base as int]) ==> curr_min.value.key
                        <= self.data.stash@[base as int].value.key,
                    1 < j && is_live(self.data.stash@[base + 1]) ==> curr_min.value.key
                        <= self.data.stash@[base + 1].value.key,
                decreases Z - j,
            {
                let elem = self.data.stash[base + j];
                let should_mov = !elem.is_empty() && elem.value.key < curr_min.value.key;
                curr_min.cmov(&elem, should_mov);
                j += 1;
            }
            let ghost after_bucket = curr_min;
            let ghost l = (h_index - 1) as int;
            let ghost xpos = (pos ^ (1usize << ((h_index - 1) as usize))) as int;
            if h_index != h {
                let sibling = *self.metadata.get_the_other_child(h_index - 1, pos);
                let should_mov = !sibling.is_empty() && sibling.value.key < curr_min.value.key;
                curr_min.cmov(&sibling, should_mov);
            }
            let ghost meta = self.metadata.tree@;
            proof {
                if good {
                    lemma_flip_bit(pos, (h_index - 1) as usize);
                    lemma_children(pos as int, xpos, l, pos as int);
                    assert(nodes[node_index(l, pos as int)].0@[0] == self.data.stash@[S + l * Z + 0]);
                    assert(nodes[node_index(l, pos as int)].0@[1] == self.data.stash@[S + l * Z + 1]);
                    if h_index < h {
                        assert(meta_at_ok(meta, nodes, hh, l + 1, pos as int));
                        assert(meta_at_ok(meta, nodes, hh, l + 1, xpos));
                    }
                    lemma_meta_new(meta, nodes, hh, l, pos as int, xpos, curr_min);
                }
            }
            *self.metadata.get_path_at_depth_mut(h_index - 1, pos) = curr_min;
            proof {
                if good {
                    assert forall|d: int, p: int|
                        0 <= d < hh && 0 <= p && node_index(d, p) != node_index(d, pos as int) implies #[trigger] meta_at_ok(
                        self.metadata.tree@,
                        nodes,
                        hh,
                        d,
                        p,
                    ) by {
                        lemma_meta_frame(meta, nodes, hh, l, pos as int, curr_min, d, p);
                    }
                    assert forall|d: int, p: int|
                        l <= d < hh && 0 <= p && node_index(d, p) == node_index(d, pos as int) implies #[trigger] meta_at_ok(
                        self.metadata.tree@,
                        nodes,
                        hh,
                        d,
                        p,
                    ) by {
                        if d > l {
                            lemma_meta_frame(meta, nodes, hh, l, pos as int, curr_min, d, p);
                        }
                    }
                }
            }
            h_index -= 1;
        }
        proof {
            if good {
                assert forall|d: int, p: int| 0 <= d < hh && 0 <= p implies #[trigger] meta_at_ok(
                    self.metadata.tree@,
                    nodes,
                    hh,
                    d,
                    p,
                ) by {
                    if node_index(d, p) == node_index(d, pos as int) {
                    } else {
                    }
                }
            }
        }
    }

    /// Inserts `value` with priority `key`. Returns the path and the timestamp of the new
    /// element, which identify it for `delete`.
    pub fn insert(&mut self, key: K, value: V) -> (r: (PositionType, K))
        requires
            old(self).wf(),
            old(self).timestamp < K::MAX,
        ensures
            final(self).wf(),
            r.0 < old(self).data.max_n,
            r.1 == old(self).timestamp,
            final(self).timestamp == old(self).timestamp + 1,
            final(self).max_size == old(self).max_size,
            final(self).data.max_n == old(self).data.max_n,
            old(self).valid() ==> final(self).valid() && final(self).contents() == (if exists|i: int|
                0 <= i < S && !is_live(#[trigger] old(self).data.stash@[i]) {
                old(self).contents().insert(r.1, (r.0, HeapElement { key, value }))
            } else {
                old(self).contents()
            }),
            final(self).eviction_log().len() == old(self).eviction_log().len() + 2,
            final(self).eviction_log().subrange(0, old(self).eviction_log().len() as int) == old(self).eviction_log(),
            forall|k: int|
                old(self).eviction_log().len() <= k < final(self).eviction_log().len() ==> eviction_progress(
                    #[trigger] final(self).eviction_log()[k],
                    old(self).data.h as int,
                ) && level0_gives_up(final(self).eviction_log()[k]),
            final(self).eviction_log()[old(self).eviction_log().len() as int].1.subrange(0, S as int) == stash_with(
                old(self).data.stash@.subrange(0, S as int),
                (Block { pos: r.0, key: r.1, value: HeapElement { key, value } }),
            ),
            final(self).eviction_log()[old(self).eviction_log().len() + 1int].1.subrange(0, S as int)
                == final(self).eviction_log()[old(self).eviction_log().len() as int].2.subrange(0, S as int),
            final(self).data.stash@.subrange(0, S as int) == final(self).eviction_log()[old(self).eviction_log().len()
                + 1int].2.subrange(0, S as int),
    {
        let ghost o = *self;
        let new_pos = random_below(&mut self.rng, self.data.max_n);
        let oram_key: K = self.timestamp;
        self.timestamp += 1;
        let heap_value = HeapElement { key, value };
        let b = Block { pos: new_pos, key: oram_key, value: heap_value };
        let room = write_to_stash(&mut self.data.stash, &b);
        proof {
            if o.valid() {
                let proper = o.data.stash@.subrange(0, S as int);
                if exists|i: int| 0 <= i < S && !is_live(#[trigger] o.data.stash@[i]) {
                    let i = choose|i: int| 0 <= i < S && !is_live(#[trigger] o.data.stash@[i]);
                    assert(proper[i].pos == DUMMY_POS);
                    crate::oram::block_sets::lemma_first_empty_exists(proper, i);
                }
                if room {
                    let i = choose|i: int| is_first_empty(proper, i) && self.data.stash@.subrange(0, S as int) == proper.update(i, b);
                    assert(!o.data.contents().contains_key(oram_key));
                    lemma_stash_write(o.data, self.data, b, i);
                    assert(exists|i: int| 0 <= i < S && !is_live(#[trigger] o.data.stash@[i])) by {
                        assert(!is_live(o.data.stash@[i]));
                    }
                } else {
                    assert(self.data.stash@ == o.data.stash@);
                    assert(oram_blocks(self.data) == oram_blocks(o.data));
                    assert(self.data.contents() == o.data.contents());
                    assert(self.data.valid());
                }
            }
        }
        let ghost after_write = *self;
        let ghost base = old(self).evictions@.len() as int;
        proof {
            let sp = o.data.stash@.subrange(0, S as int);
            if room {
                let i = choose|i: int| is_first_empty(sp, i) && self.data.stash@.subrange(0, S as int) == sp.update(i, b);
                lemma_first_empty_unique(sp, i, choose|j: int| is_first_empty(sp, j));
            }
            assert(self.data.stash@.subrange(0, S as int) == stash_with(sp, b));
            assert(self.evictions@.subrange(0, base) =~= old(self).evictions@);
        }
        let mut round: usize = 0;
        while round < 2
            invariant
                self.wf(),
                self.timestamp == old(self).timestamp + 1,
                self.max_size == old(self).max_size,
                self.data.max_n == old(self).data.max_n,
                self.data.h == old(self).data.h,
                round <= 2,
                after_write.valid() ==> self.valid() && self.contents() == after_write.contents(),
                base == old(self).evictions@.len(),
                self.evictions@.len() == base + round,
                self.evictions@.subrange(0, base) == old(self).evictions@,
                forall|k: int|
                    base <= k < base + round ==> eviction_progress(#[trigger] self.evictions@[k], old(self).data.h as int)
                        && level0_gives_up(self.evictions@[k]),
                round == 0 ==> self.data.stash@.subrange(0, S as int) == after_write.data.stash@.subrange(0, S as int),
                round >= 1 ==> self.evictions@[base].1.subrange(0, S as int) == after_write.data.stash@.subrange(0, S as int),
                round == 2 ==> self.evictions@[base + 1].1.subrange(0, S as int) == self.evictions@[base].2.subrange(0, S as int),
                round >= 1 ==> self.data.stash@.subrange(0, S as int) == self.evictions@[base + round - 1].2.subrange(0, S as int),
            decreases 2 - round,
        {
            let ghost before = self.evictions@;
            let pos_to_evict = random_below(&mut self.rng, self.data.max_n);
            self.evict(pos_to_evict);
            self.update_min(pos_to_evict);
            proof {
                assert(self.evictions@.subrange(0, before.len() as int) == before);
                assert forall|k: int| 0 <= k < before.len() implies self.evictions@[k] == before[k] by {
                    assert(self.evictions@.subrange(0, before.len() as int)[k] == self.evictions@[k]);
                }
                assert(self.evictions@.subrange(0, base) =~= old(self).evictions@) by {
                    assert forall|k: int| 0 <= k < base implies self.evictions@[k] == old(self).evictions@[k] by {
                        assert(before.subrange(0, base)[k] == before[k]);
                    }
                }
            }
            round += 1;
        }
        (new_pos, oram_key)
    }

    /// Deletes the element with timestamp `timestamp` mapped to path `pos`; nothing
    /// happens when there is no such element. A valid heap stays valid; when the element is
    /// mapped to another path it leaves only if the stash proper or the path `pos` holds it.
    pub fn delete(&mut self, pos: PositionType, timestamp: K)
        requires
            old(self).wf(),
        ensures
            final(self).wf(),
            final(self).timestamp == old(self).timestamp,
            final(self).max_size == old(self).max_size,
            final(self).data.max_n == old(self).data.max_n,
            old(self).valid() ==> final(self).valid(),
            old(self).valid() ==> final(self).contents() == old(self).contents().remove(timestamp) || final(self).contents()
                == old(self).contents(),
            old(self).valid() && (old(self).contents().contains_key(timestamp) ==> old(self).contents()[timestamp].0 == pos)
                ==> final(self).contents() == old(self).contents().remove(timestamp),
    {
        let ghost o = *self;
        self.data.read_path_and_get_nodes(pos);
        remove_element(self.data.stash.as_mut_slice(), timestamp);
        let ghost o2 = self.data;
        self.data.evict_once_fast(pos);
        let ghost s = self.data.stash@;
        self.data.write_back_path(pos);
        proof {
            if o.valid() && (o.contents().contains_key(timestamp) ==> o.contents()[timestamp].0 == pos) {
                lemma_remove_access(o.data, o2, s, self.data, pos, timestamp);
            }
            if o.valid() {
                lemma_remove_any(o.data, o2, s, self.data, pos, timestamp);
                lemma_meta_after_path_write(o.data, self.data, self.metadata.tree@, pos);
            }
        }
        self.update_min(pos);
        let pos_to_evict = random_below(&mut self.rng, self.data.max_n);
        self.evict(pos_to_evict);
        self.update_min(pos_to_evict);
    }

    /// Finds the minimum element and deletes it. A valid heap stays valid; when its minimum
    /// is an element, that element leaves, and otherwise at most the element whose timestamp
    /// the empty minimum block carries leaves.
    pub fn extract_min(&mut self)
        requires
            old(self).wf(),
        ensures
            final(self).wf(),
            final(self).timestamp == old(self).timestamp,
            final(self).max_size == old(self).max_size,
            final(self).data.max_n == old(self).data.max_n,
            old(self).valid() ==> final(self).valid(),
            old(self).valid() && is_live(old(self).min_block()) ==> final(self).contents() == old(self).contents().remove(
                old(self).min_block().key,
            ),
            old(self).valid() ==> final(self).contents() == old(self).contents().remove(old(self).min_block().key)
                || final(self).contents() == old(self).contents(),
    {
        let to_delete = self.find_min();
        self.delete(to_delete.pos, to_delete.key);
    }
}

} // verus!
