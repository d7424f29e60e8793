//! Circuit ORAM (<https://eprint.iacr.org/2014/672.pdf>).
use vstd::prelude::*;
use vstd::arithmetic::power2::{pow2, lemma_pow2_pos, lemma_pow2_unfold, lemma_pow2_strictly_increases};
use vstd::std_specs::bits::u64_trailing_zeros;
use vstd::multiset::Multiset;
use crate::oram::heap_tree::{HeapTree, node_index, tree_size, lemma_node_index_bounds};
use crate::oram::prelude::{PositionType, DUMMY_POS, K};
use crate::primitives::traits::{Cmov, cmov_result};
use crate::primitives::utils::{lemma_usize_max_pow2, usize_leading_zeros, bit_length, pow2_above, lemma_pow2_above};
use crate::oram::block_sets::{tree_live, tree_live_in, off_path, tree_legal, lemma_tree_live_path, lemma_write_path, lemma_live_blocks_concat, lemma_read_path_legal, lemma_write_path_legal};

verus! {

/// Blocks per bucket.
pub const Z: usize = 2;

/// Stash size.
pub const S: usize = 20;

/// Evictions per operation.
pub const EVICTIONS_PER_OP: usize = 2;

/// A block in the ORAM tree. If `pos == DUMMY_POS` the block is empty and its key and
/// value mean nothing; otherwise the block holds `value` under `key`, mapped to leaf `pos`.
#[derive(Debug, Clone, Copy)]
pub struct Block<V> {
    /// The position (leaf) of the block.
    pub pos: PositionType,
    /// The key of the block.
    pub key: K,
    /// The data stored in the block.
    pub value: V,
}

impl<V: Default> Default for Block<V> {
    fn default() -> (r: Self)
        ensures
            r.pos == DUMMY_POS,
            r.key == 0,
    {
        Block { pos: DUMMY_POS, key: 0, value: V::default() }
    }
}

impl<V: Cmov + Copy> Cmov for Block<V> {
    fn cmov(&mut self, other: &Self, choice: bool) {
        self.pos.cmov(&other.pos, choice);
        self.key.cmov(&other.key, choice);
        self.value.cmov(&other.value, choice);
    }

    fn cxchg(&mut self, other: &mut Self, choice: bool) {
        let tmp = *self;
        self.cmov(other, choice);
        other.cmov(&tmp, choice);
    }
}

impl<V> Block<V> {
    /// Checks if the block is empty.
    pub fn is_empty(&self) -> (b: bool)
        ensures
            b == (self.pos == DUMMY_POS),
    {
        self.pos == DUMMY_POS
    }
}

/// The block holds a value under key `k`.
pub open spec fn block_matches<V>(b: Block<V>, k: K) -> bool {
    b.pos != DUMMY_POS && b.key == k
}

/// Some non-empty block of `s` has key `k`.
pub open spec fn has_key<V>(s: Seq<Block<V>>, k: K) -> bool {
    exists|i: int| 0 <= i < s.len() && block_matches(s[i], k)
}

/// The value of the last block of `s` with key `k`, or `init` when there is none.
pub open spec fn last_value<V>(s: Seq<Block<V>>, k: K, init: V) -> V
    decreases s.len(),
{
    if s.len() == 0 {
        init
    } else if block_matches(s.last(), k) {
        s.last().value
    } else {
        last_value(s.drop_last(), k, init)
    }
}

/// `s` with every block of key `k` emptied.
pub open spec fn remove_key<V>(s: Seq<Block<V>>, k: K) -> Seq<Block<V>> {
    Seq::new(s.len(), |i: int| if block_matches(s[i], k) { Block { pos: DUMMY_POS, ..s[i] } } else { s[i] })
}

/// `i` is the first empty slot of `s`.
pub open spec fn is_first_empty<V>(s: Seq<Block<V>>, i: int) -> bool {
    &&& 0 <= i < s.len()
    &&& s[i].pos == DUMMY_POS
    &&& forall|j: int| 0 <= j < i ==> s[j].pos != DUMMY_POS
}

/// A bucket in the ORAM tree.
#[derive(Debug, Clone, Copy)]
pub struct Bucket<V>(pub [Block<V>; 2]);

impl<V: Cmov + Copy> Cmov for Bucket<V> {
    fn cmov(&mut self, other: &Self, choice: bool) {
        let mut b0 = self.0[0];
        let mut b1 = self.0[1];
        b0.cmov(&other.0[0], choice);
        b1.cmov(&other.0[1], choice);
        proof {
            assert([b0, b1] =~= cmov_result(*old(self), *other, choice).0);
        }
        *self = Bucket([b0, b1]);
    }

    fn cxchg(&mut self, other: &mut Self, choice: bool) {
        let tmp = *self;
        self.cmov(other, choice);
        other.cmov(&tmp, choice);
    }
}

/// The blocks of the path `path` of a tree of the given height, root first:
/// `[bucket at depth 0: block 0, block 1, bucket at depth 1: block 0, block 1, ...]`.
pub open spec fn path_blocks<V>(nodes: Seq<Bucket<V>>, height: int, path: int) -> Seq<Block<V>> {
    Seq::new((height * 2) as nat, |k: int| nodes[node_index(k / 2, path)].0@[k % 2])
}

/// Removes the element with key `k` from `arr` into `ret`. If the key is not present
/// nothing changes and `ret` is untouched.
fn read_and_remove_element<V: Cmov + Copy>(arr: &mut [Block<V>], k: K, ret: &mut V) -> (rv: bool)
    ensures
        rv == has_key(old(arr)@, k),
        *final(ret) == last_value(old(arr)@, k, *old(ret)),
        final(arr)@ == remove_key(old(arr)@, k),
{
    let ghost orig = arr@;
    let mut rv = false;
    let n = arr.len();
    let mut i: usize = 0;
    while i < n
        invariant
            n == orig.len(),
            arr@.len() == n,
            i <= n,
            rv == has_key(orig.subrange(0, i as int), k),
            *ret == last_value(orig.subrange(0, i as int), k, *old(ret)),
            forall|j: int| 0 <= j < n ==> #[trigger] arr@[j] == (if j < i { remove_key(orig, k)[j] } else { orig[j] }),
        decreases n - i,
    {
        let mut item = arr[i];
        let matched = !item.is_empty() && (item.key == k);
        ret.cmov(&item.value, matched);
        item.pos.cmov(&DUMMY_POS, matched);
        rv.cmov(&true, matched);
        arr[i] = item;
        proof {
            let pre = orig.subrange(0, i as int);
            let post = orig.subrange(0, i + 1);
            assert(post.drop_last() =~= pre);
            assert(post.last() == orig[i as int]);
            if has_key(post, k) && !has_key(pre, k) {
                let w = choose|w: int| 0 <= w < post.len() && block_matches(post[w], k);
                assert(w == i);
            }
            if has_key(pre, k) {
                let w = choose|w: int| 0 <= w < pre.len() && block_matches(pre[w], k);
                assert(post[w] == pre[w]);
            }
        }
        i += 1;
    }
    proof {
        assert(orig.subrange(0, n as int) =~= orig);
        assert(arr@ =~= remove_key(orig, k));
    }
    rv
}

/// Removes the element identified by key `k` from `arr`, returning whether it was
/// present. If the key is not in the array nothing happens.
pub fn remove_element<V: Cmov + Copy>(arr: &mut [Block<V>], k: K) -> (rv: bool)
    ensures
        rv == has_key(old(arr)@, k),
        final(arr)@ == remove_key(old(arr)@, k),
{
    let ghost orig = arr@;
    let mut rv = false;
    let n = arr.len();
    let mut i: usize = 0;
    while i < n
        invariant
            n == orig.len(),
            arr@.len() == n,
            i <= n,
            rv == has_key(orig.subrange(0, i as int), k),
            forall|j: int| 0 <= j < n ==> #[trigger] arr@[j] == (if j < i { remove_key(orig, k)[j] } else { orig[j] }),
        decreases n - i,
    {
        let mut item = arr[i];
        let matched = !item.is_empty() && (item.key == k);
        item.pos.cmov(&DUMMY_POS, matched);
        rv.cmov(&true, matched);
        arr[i] = item;
        proof {
            let pre = orig.subrange(0, i as int);
            let post = orig.subrange(0, i + 1);
            assert(post.drop_last() =~= pre);
            assert(post.last() == orig[i as int]);
            if has_key(post, k) && !has_key(pre, k) {
                let w = choose|w: int| 0 <= w < post.len() && block_matches(post[w], k);
                assert(w == i);
            }
            if has_key(pre, k) {
                let w = choose|w: int| 0 <= w < pre.len() && block_matches(pre[w], k);
                assert(post[w] == pre[w]);
            }
        }
        i += 1;
    }
    proof {
        assert(orig.subrange(0, n as int) =~= orig);
        assert(arr@ =~= remove_key(orig, k));
    }
    rv
}

/// Writes `val` into the first empty slot of `arr`. If there is no empty slot nothing
/// happens and the result is false.
pub fn write_block_to_empty_slot<V: Cmov + Copy>(arr: &mut [Block<V>], val: &Block<V>) -> (rv: bool)
    ensures
        rv == (exists|i: int| is_first_empty(old(arr)@, i)),
        rv ==> exists|i: int| is_first_empty(old(arr)@, i) && final(arr)@ == old(arr)@.update(i, *val),
        !rv ==> final(arr)@ == old(arr)@,
{
    let ghost orig = arr@;
    let ghost mut at: int = -1;
    let mut rv = false;
    let n = arr.len();
    let mut i: usize = 0;
    while i < n
        invariant
            n == orig.len(),
            arr@.len() == n,
            i <= n,
            rv ==> is_first_empty(orig, at) && at < i && arr@ == orig.update(at, *val),
            !rv ==> arr@ == orig && forall|j: int| 0 <= j < i ==> orig[j].pos != DUMMY_POS,
        decreases n - i,
    {
        let mut item = arr[i];
        let matched = item.is_empty() && !rv;
        item.cmov(val, matched);
        proof {
            if matched {
                at = i as int;
            }
        }
        rv.cmov(&true, matched);
        arr[i] = item;
        proof {
            if !matched {
                assert(arr@ =~= (if rv { orig.update(at, *val) } else { orig }));
            }
        }
        i += 1;
    }
    proof {
        if !rv {
            if exists|j: int| is_first_empty(orig, j) {
                let j = choose|j: int| is_first_empty(orig, j);
                assert(orig[j].pos != DUMMY_POS);
            }
        }
    }
    rv
}

/// The lowest `bits` bits of `n` in reverse order: bit `bits - 1 - i` of the result is
/// bit `i` of `n`.
pub open spec fn reverse_bits_spec(n: nat, bits: nat) -> nat
    decreases bits,
{
    if bits == 0 {
        0
    } else {
        2 * reverse_bits_spec(n, (bits - 1) as nat) + (n / pow2((bits - 1) as nat)) % 2
    }
}

proof fn lemma_reverse_bits_bound(n: nat, bits: nat)
    ensures
        reverse_bits_spec(n, bits) < pow2(bits),
    decreases bits,
{
    lemma_pow2_pos(bits);
    if bits > 0 {
        lemma_reverse_bits_bound(n, (bits - 1) as nat);
        lemma_pow2_unfold(bits);
    } else {
        vstd::arithmetic::power2::lemma2_to64();
    }
}

/// Reverses the lowest `bits` bits of `n`.
pub fn reverse_bits(n: usize, bits: usize) -> (r: usize)
    requires
        bits <= usize::BITS,
    ensures
        r == reverse_bits_spec(n as nat, bits as nat),
{
    let mut result: usize = 0;
    let mut value = n;
    let mut i: usize = 0;
    proof {
        vstd::arithmetic::power2::lemma2_to64();
        lemma_usize_max_pow2();
        if bits < usize::BITS {
            lemma_pow2_strictly_increases(bits as nat, usize::BITS as nat);
        }
    }
    while i < bits
        invariant
            bits <= usize::BITS,
            pow2(bits as nat) <= usize::MAX + 1,
            i <= bits,
            result == reverse_bits_spec(n as nat, i as nat),
            value == n as nat / pow2(i as nat),
        decreases bits - i,
    {
        proof {
            lemma_reverse_bits_bound(n as nat, (i + 1) as nat);
            if i + 1 < bits {
                lemma_pow2_strictly_increases((i + 1) as nat, bits as nat);
            }
            lemma_pow2_pos(i as nat);
            lemma_pow2_unfold((i + 1) as nat);
            vstd::arithmetic::div_mod::lemma_div_denominator(n as int, pow2(i as nat) as int, 2);
        }
        result = result * 2 + (value % 2);
        value = value / 2;
        i += 1;
    }
    result
}

/// Length of the common low-bit suffix of two positions: the number of trailing zeros of
/// `a ^ b`, that is, how deep the paths `a` and `b` run together.
fn common_suffix_length(a: PositionType, b: PositionType) -> (r: u32)
    ensures
        r == u64_trailing_zeros((a ^ b) as u64),
        r <= 64,
{
    let w = (a ^ b) as u64;
    proof {
        vstd::std_specs::bits::axiom_u64_trailing_zeros(w);
    }
    w.trailing_zeros()
}

/// `idx` is the index of a node on the path `path` of a tree of the given height.
pub open spec fn on_path(idx: int, height: int, path: int) -> bool {
    exists|d: int| 0 <= d < height && idx == #[trigger] node_index(d, path)
}

/// The nodes after writing `blocks` along the path `path`.
pub open spec fn write_path_spec<V>(nodes: Seq<Bucket<V>>, height: int, path: int, blocks: Seq<Block<V>>) -> Seq<Bucket<V>> {
    Seq::new(
        nodes.len(),
        |idx: int|
            if on_path(idx, height, path) {
                let d = choose|d: int| 0 <= d < height && idx == #[trigger] node_index(d, path);
                Bucket([blocks[2 * d], blocks[2 * d + 1]])
            } else {
                nodes[idx]
            },
    )
}

/// Nodes at different depths of one path are different.
pub proof fn lemma_path_nodes_distinct(d1: int, d2: int, path: int, height: nat)
    requires
        0 <= d1 < height,
        0 <= d2 < height,
        0 <= path,
        d1 != d2,
    ensures
        node_index(d1, path) != node_index(d2, path),
{
    lemma_node_index_bounds(d1, path, height);
    lemma_node_index_bounds(d2, path, height);
    if d1 < d2 {
        if d1 + 1 < d2 {
            lemma_pow2_strictly_increases((d1 + 1) as nat, d2 as nat);
        }
    } else {
        if d2 + 1 < d1 {
            lemma_pow2_strictly_increases((d2 + 1) as nat, d1 as nat);
        }
    }
}

impl<V: Copy> HeapTree<Bucket<V>> {
    /// Reads all the blocks of a path into `out`, root first:
    /// `[bucket at depth 0: block 0, block 1, bucket at depth 1: block 0, block 1, ...]`.
    pub fn read_path(&mut self, path: PositionType, out: &mut [Block<V>])
        requires
            old(self).wf(),
            old(out)@.len() == old(self).height * 2,
        ensures
            *final(self) == *old(self),
            final(out)@ == path_blocks(old(self).tree@, old(self).height as int, path as int),
    {
        let ghost nodes = self.tree@;
        let h = self.height;
        let mut i: usize = 0;
        while i < h
            invariant
                self.wf(),
                h == self.height,
                self.tree@ == nodes,
                out@.len() == h * 2,
                i <= h,
                forall|k: int| 0 <= k < 2 * i ==> #[trigger] out@[k] == path_blocks(nodes, h as int, path as int)[k],
            decreases h - i,
        {
            let index = self.get_index(i, path);
            let bucket = self.tree[index];
            out[i * 2] = bucket.0[0];
            out[i * 2 + 1] = bucket.0[1];
            i += 1;
        }
        proof {
            assert(out@ =~= path_blocks(nodes, h as int, path as int));
        }
    }

    /// Writes a path of blocks, laid out as `read_path` gives it, into the tree.
    pub fn write_path(&mut self, path: PositionType, in_: &[Block<V>])
        requires
            old(self).wf(),
            in_@.len() == old(self).height * 2,
        ensures
            final(self).height == old(self).height,
            final(self).tree@ == write_path_spec(old(self).tree@, old(self).height as int, path as int, in_@),
            final(self).wf(),
    {
        let ghost nodes = self.tree@;
        let h = self.height;
        let mut i: usize = 0;
        while i < h
            invariant
                self.wf(),
                h == self.height,
                self.tree@.len() == nodes.len(),
                in_@.len() == h * 2,
                i <= h,
                forall|idx: int|
                    0 <= idx < nodes.len() ==> #[trigger] self.tree@[idx] == (if exists|d: int|
                        0 <= d < i && idx == #[trigger] node_index(d, path as int) {
                        write_path_spec(nodes, h as int, path as int, in_@)[idx]
                    } else {
                        nodes[idx]
                    }),
            decreases h - i,
        {
            let index = self.get_index(i, path);
            let b = Bucket([in_[i * 2], in_[i * 2 + 1]]);
            let ghost before = self.tree@;
            self.tree.set(index, b);
            proof {
                assert forall|idx: int| 0 <= idx < nodes.len() implies #[trigger] self.tree@[idx] == (if exists|d: int|
                    0 <= d < i + 1 && idx == #[trigger] node_index(d, path as int) {
                    write_path_spec(nodes, h as int, path as int, in_@)[idx]
                } else {
                    nodes[idx]
                }) by {
                    if idx == index {
                        assert(on_path(idx, h as int, path as int));
                        let d = choose|d: int| 0 <= d < h && idx == #[trigger] node_index(d, path as int);
                        if d != i {
                            lemma_path_nodes_distinct(d, i as int, path as int, h as nat);
                        }
                        assert([in_@[2 * i], in_@[2 * i + 1]] =~= b.0);
                    } else {
                        if exists|d: int| 0 <= d < i + 1 && idx == #[trigger] node_index(d, path as int) {
                            let d = choose|d: int| 0 <= d < i + 1 && idx == #[trigger] node_index(d, path as int);
                            assert(d != i);
                        }
                    }
                }
            }
            i += 1;
        }
        proof {
            assert(self.tree@ =~= write_path_spec(nodes, h as int, path as int, in_@));
        }
    }
}

/// The Circuit ORAM structure.
///
/// The stash has `S + h * Z` slots: the first `S` are the stash proper, the rest hold the
/// path that an operation works on.
#[derive(Debug)]
pub struct CircuitORAM<V> {
    /// Number of leaves, a power of two; its logarithm is public through `h`.
    pub max_n: usize,
    /// Height of the tree, public; a single-node tree has height 1.
    pub h: usize,
    /// The stash, followed by room for one path.
    pub stash: Vec<Block<V>>,
    /// The tree.
    pub tree: HeapTree<Bucket<V>>,
    /// Counter of deterministic evictions.
    pub evict_counter: PositionType,
}

/// The blocks an operation on path `pos` scans: the stash proper followed by the path.
pub open spec fn scan_view<V>(o: CircuitORAM<V>, pos: int) -> Seq<Block<V>> {
    o.stash@.subrange(0, S as int) + path_blocks(o.tree.tree@, o.h as int, pos)
}

impl<V> CircuitORAM<V> {
    /// Shape invariant: the stash has room for the stash proper and one path, the tree
    /// has height `h` and `max_n = 2^(h-1)` leaves.
    pub open spec fn wf(&self) -> bool {
        &&& 2 <= self.h <= 34
        &&& self.h < usize::BITS
        &&& self.stash@.len() == S + self.h * Z
        &&& self.tree.wf()
        &&& self.tree.height == self.h
        &&& self.max_n == pow2((self.h - 1) as nat)
        &&& self.evict_counter < self.max_n
    }
}

/// Writes `val` into the first empty slot of the stash proper (the first `S` slots).
pub(crate) fn write_to_stash<V: Cmov + Copy>(stash: &mut Vec<Block<V>>, val: &Block<V>) -> (rv: bool)
    requires
        old(stash)@.len() >= S,
    ensures
        final(stash)@.len() == old(stash)@.len(),
        final(stash)@.subrange(S as int, old(stash)@.len() as int) == old(stash)@.subrange(S as int, old(stash)@.len() as int),
        rv == (exists|i: int| is_first_empty(old(stash)@.subrange(0, S as int), i)),
        rv ==> exists|i: int|
            is_first_empty(old(stash)@.subrange(0, S as int), i) && final(stash)@.subrange(0, S as int) == old(
                stash,
            )@.subrange(0, S as int).update(i, *val),
        !rv ==> final(stash)@ == old(stash)@,
{
    let ghost orig = stash@;
    let (first, rest) = stash.as_mut_slice().split_at_mut(S);
    let rv = write_block_to_empty_slot(first, val);
    proof {
        assert(stash@ =~= first@ + rest@);
        assert(stash@.subrange(0, S as int) =~= first@);
        assert(stash@.subrange(S as int, orig.len() as int) =~= rest@);
        if !rv {
            assert(stash@ =~= orig);
        }
    }
    rv
}

impl<V: Cmov + Copy + Default> CircuitORAM<V> {
    /// Creates an empty `CircuitORAM` for at least `max_n` blocks: `max_n` is rounded up
    /// to a power of two.
    pub fn new(max_n: usize) -> (r: Self)
        requires
            1 < max_n < 0x2_0000_0000,
            max_n <= usize::MAX / 4,
        ensures
            r.wf(),
            r.max_n == pow2_above(max_n - 1),
            r.evict_counter == 0,
            forall|i: int| 0 <= i < r.stash@.len() ==> r.stash@[i].pos == DUMMY_POS,
            forall|i: int, b: int| 0 <= i < r.tree.tree@.len() && 0 <= b < 2 ==> r.tree.tree@[i].0@[b].pos == DUMMY_POS,
            r.valid(),
            r.contents() == Map::<K, (PositionType, V)>::empty(),
    {
        proof {
            lemma_usize_max_pow2();
            lemma_pow2_above(max_n as int);
            lemma_pow2_above(max_n - 1);
            vstd::arithmetic::power2::lemma2_to64();
            vstd::arithmetic::power2::lemma2_to64_rest();
        }
        let lz = usize_leading_zeros(max_n);
        let h0 = (usize::BITS - 1 - lz) as usize;
        proof {
            let bl = bit_length(max_n as nat);
            lemma_pow2_unfold(bl);
            assert(h0 == bl - 1);
            assert(pow2(h0 as nat) <= max_n < pow2((h0 + 1) as nat));
            if h0 > 33 {
                lemma_pow2_strictly_increases(33, h0 as nat);
            }
            if h0 + 2 < usize::BITS {
                lemma_pow2_strictly_increases((h0 + 2) as nat, usize::BITS as nat);
            }
            vstd::bits::lemma_usize_shl_is_mul(1, h0);
        }
        let h = if (1usize << h0) < max_n {
            h0 + 2
        } else {
            h0 + 1
        };
        let empty = Block::<V>::default();
        let tree = HeapTree::new_with(h, Bucket([empty, empty]));
        let stash_len = S + h * Z;
        let mut stash: Vec<Block<V>> = Vec::with_capacity(stash_len);
        let mut i: usize = 0;
        while i < stash_len
            invariant
                i <= stash_len,
                stash@.len() == i,
                forall|j: int| 0 <= j < i ==> stash@[j] == empty,
            decreases stash_len - i,
        {
            stash.push(empty);
            i += 1;
        }
        proof {
            vstd::bits::lemma_usize_shl_is_mul(1, (h - 1) as usize);
            lemma_pow2_unfold((h0 + 1) as nat);
            if h == h0 + 1 {
                crate::primitives::utils::lemma_pow2_is_pow2(h0 as nat);
                crate::primitives::utils::lemma_pow2_above_unique(max_n as int, max_n - 1);
            } else {
                crate::primitives::utils::lemma_pow2_is_pow2((h0 + 1) as nat);
                crate::primitives::utils::lemma_pow2_above_unique(pow2((h0 + 1) as nat) as int, max_n - 1);
            }
        }
        let n = 1usize << (h - 1);
        let r = CircuitORAM { max_n: n, h, stash, tree, evict_counter: 0 };
        proof {
            lemma_live_blocks_none(r.stash@.subrange(0, S as int));
            lemma_tree_live_none(r.tree.tree@, |n: int| true);
            assert(oram_blocks(r) =~= Multiset::<Block<V>>::empty());
            assert(r.contents() =~= Map::<K, (PositionType, V)>::empty());
        }
        r
    }
}

impl<V: Cmov + Copy> CircuitORAM<V> {
    /// Reads the path `pos` into the end of the stash.
    pub fn read_path_and_get_nodes(&mut self, pos: PositionType)
        requires
            old(self).wf(),
        ensures
            final(self).wf(),
            final(self).tree == old(self).tree,
            final(self).h == old(self).h,
            final(self).max_n == old(self).max_n,
            final(self).evict_counter == old(self).evict_counter,
            final(self).stash@ == old(self).stash@.subrange(0, S as int) + path_blocks(
                old(self).tree.tree@,
                old(self).h as int,
                pos as int,
            ),
    {
        let ghost orig = self.stash@;
        let (first, rest) = self.stash.as_mut_slice().split_at_mut(S);
        self.tree.read_path(pos, rest);
        proof {
            assert(self.stash@ =~= orig.subrange(0, S as int) + path_blocks(self.tree.tree@, self.h as int, pos as int));
        }
    }

    /// Writes the path held at the end of the stash back into the tree along `pos`.
    pub fn write_back_path(&mut self, pos: PositionType)
        requires
            old(self).wf(),
        ensures
            final(self).wf(),
            final(self).stash == old(self).stash,
            final(self).h == old(self).h,
            final(self).max_n == old(self).max_n,
            final(self).evict_counter == old(self).evict_counter,
            final(self).tree.height == old(self).tree.height,
            final(self).tree.tree@ == write_path_spec(
                old(self).tree.tree@,
                old(self).h as int,
                pos as int,
                old(self).stash@.subrange(S as int, old(self).stash@.len() as int),
            ),
    {
        let (_first, rest) = self.stash.as_slice().split_at(S);
        self.tree.write_path(pos, rest);
    }
}

/// Reads `a[i]`, applies a conditional move and writes it back.
fn cmov_at_i32(a: &mut [i32; 64], i: usize, v: i32, choice: bool)
    requires
        i < 64,
    ensures
        final(a)@ == old(a)@.update(i as int, cmov_result(old(a)@[i as int], v, choice)),
{
    let mut t = a[i];
    t.cmov(&v, choice);
    a[i] = t;
}

/// The blocks the ORAM holds: the live blocks of the stash proper and of the tree.
pub open spec fn oram_blocks<V>(o: CircuitORAM<V>) -> Multiset<Block<V>> {
    live_blocks(o.stash@.subrange(0, S as int)).add(tree_live(o.tree.tree@))
}

/// No two blocks of `m` share a key, and none is counted twice.
pub open spec fn keys_unique<V>(m: Multiset<Block<V>>) -> bool {
    forall|b1: Block<V>, b2: Block<V>|
        #[trigger] m.count(b1) > 0 && #[trigger] m.count(b2) > 0 && b1.key == b2.key ==> b1 == b2 && m.count(b1) == 1
}

/// The key-value pairs held by the blocks of `m`: each key with the position and the value
/// of its block.
pub open spec fn blocks_contents<V>(m: Multiset<Block<V>>) -> Map<K, (PositionType, V)> {
    Map::new(
        |k: K| exists|b: Block<V>| m.count(b) > 0 && b.key == k,
        |k: K|
            {
                let b = choose|b: Block<V>| m.count(b) > 0 && b.key == k;
                (b.pos, b.value)
            },
    )
}

impl<V> CircuitORAM<V> {
    /// Well formed, every block of the tree on the path of its position, and no key held
    /// twice.
    pub open spec fn valid(&self) -> bool {
        &&& self.wf()
        &&& tree_legal(self.tree.tree@, self.h as int)
        &&& keys_unique(oram_blocks(*self))
    }

    /// The key-value pairs the ORAM holds, each with the position its block is mapped to.
    pub open spec fn contents(&self) -> Map<K, (PositionType, V)> {
        blocks_contents(oram_blocks(*self))
    }
}

/// After an eviction on the path `pos` read into the stash buffer, writing the path back
/// leaves an ORAM with the blocks of the stash buffer and of the tree off the path, every
/// block on its path.
#[verifier::spinoff_prover]
#[verifier::rlimit(40)]
pub(crate) proof fn lemma_finish_write_back<V>(o: CircuitORAM<V>, s: Seq<Block<V>>, f: CircuitORAM<V>, pos: PositionType)
    requires
        o.wf(),
        tree_legal(o.tree.tree@, o.h as int),
        s.len() == S + o.h * Z,
        path_legal(s, pos, o.h as int),
        f.wf(),
        f.h == o.h,
        f.stash@ == s,
        f.tree.tree@ == write_path_spec(o.tree.tree@, o.h as int, pos as int, s.subrange(S as int, s.len() as int)),
    ensures
        tree_legal(f.tree.tree@, f.h as int),
        oram_blocks(f) == live_blocks(s).add(tree_live_in(o.tree.tree@, off_path(o.h as int, pos as int))),
{
    lemma_write_path_legal(o.tree.tree@, o.h as nat, pos, s);
    lemma_write_path(o.tree.tree@, o.h as nat, pos, s.subrange(S as int, s.len() as int));
    lemma_live_blocks_concat(s.subrange(0, S as int), s.subrange(S as int, s.len() as int));
    assert(s.subrange(0, S as int) + s.subrange(S as int, s.len() as int) =~= s);
    assert(oram_blocks(f) =~= live_blocks(s).add(tree_live_in(o.tree.tree@, off_path(o.h as int, pos as int))));
}

/// The stash proper of `o` has an empty slot once the blocks of `key` are removed.
pub open spec fn stash_room<V>(o: CircuitORAM<V>, key: K) -> bool {
    exists|i: int| 0 <= i < S && (!is_live(#[trigger] o.stash@[i]) || o.stash@[i].key == key)
}

/// The blocks in the middle of an access on the path `pos`: those of the stash buffer,
/// which holds the path, and those of the tree off the path.
pub open spec fn mid_blocks<V>(o: CircuitORAM<V>, pos: PositionType) -> Multiset<Block<V>> {
    live_blocks(o.stash@).add(tree_live_in(o.tree.tree@, off_path(o.h as int, pos as int)))
}

/// In the middle of an access on the path `pos`, the blocks are where they may be, no key
/// is held twice, and the block to be stored has a key that no other block holds.
pub open spec fn mid_ok<V>(o: CircuitORAM<V>, pos: PositionType, to_write: Block<V>) -> bool {
    &&& tree_legal(o.tree.tree@, o.h as int)
    &&& path_legal(o.stash@, pos, o.h as int)
    &&& keys_unique(mid_blocks(o, pos))
    &&& is_live(to_write) ==> forall|x: Block<V>| #[trigger] mid_blocks(o, pos).count(x) > 0 ==> x.key != to_write.key
}

/// Adding a block whose key no block holds keeps keys unique.
proof fn lemma_keys_unique_add<V>(m: Multiset<Block<V>>, b: Block<V>)
    requires
        keys_unique(m),
        is_live(b) ==> forall|x: Block<V>| #[trigger] m.count(x) > 0 ==> x.key != b.key,
    ensures
        keys_unique(m.add(live_one(b))),
{
    assert forall|b1: Block<V>, b2: Block<V>|
        #[trigger] m.add(live_one(b)).count(b1) > 0 && #[trigger] m.add(live_one(b)).count(b2) > 0 && b1.key == b2.key implies b1 == b2
            && m.add(live_one(b)).count(b1) == 1 by {
        if is_live(b) {
            if b1 == b {
                assert(m.count(b1) == 0);
            }
            if b2 == b {
                assert(m.count(b2) == 0);
            }
        }
    }
}

/// The key-value pairs of a multiset without the blocks of `k`, plus possibly one new block
/// of key `k`.
proof fn lemma_contents_update<V>(m: Multiset<Block<V>>, base: Multiset<Block<V>>, k: K, tw: Block<V>, add: bool)
    requires
        keys_unique(m),
        forall|x: Block<V>| #[trigger] base.count(x) == (if x.key == k { 0 } else { m.count(x) }),
        tw.key == k,
        add ==> is_live(tw),
    ensures
        blocks_contents(base.add(if add { live_one(tw) } else { Multiset::empty() })) == (if add {
            blocks_contents(m).insert(k, (tw.pos, tw.value))
        } else {
            blocks_contents(m).remove(k)
        }),
{
    let n = base.add(if add { live_one(tw) } else { Multiset::empty() });
    let target = if add {
        blocks_contents(m).insert(k, (tw.pos, tw.value))
    } else {
        blocks_contents(m).remove(k)
    };
    assert forall|j: K| #[trigger] blocks_contents(n).contains_key(j) <==> target.contains_key(j) by {
        if j != k {
            if exists|b: Block<V>| m.count(b) > 0 && b.key == j {
                let b = choose|b: Block<V>| m.count(b) > 0 && b.key == j;
                assert(n.count(b) > 0);
            }
            if exists|b: Block<V>| n.count(b) > 0 && b.key == j {
                let b = choose|b: Block<V>| n.count(b) > 0 && b.key == j;
                assert(m.count(b) > 0);
            }
        } else if add {
            assert(n.count(tw) > 0);
        } else {
            if exists|b: Block<V>| n.count(b) > 0 && b.key == j {
                let b = choose|b: Block<V>| n.count(b) > 0 && b.key == j;
                assert(base.count(b) == 0);
            }
        }
    }
    assert forall|j: K| #[trigger] blocks_contents(n).contains_key(j) implies blocks_contents(n)[j] == target[j] by {
        let b = choose|b: Block<V>| n.count(b) > 0 && b.key == j;
        if j != k {
            assert(m.count(b) > 0);
            let c = choose|c: Block<V>| m.count(c) > 0 && c.key == j;
            assert(b == c);
        } else {
            assert(add);
            assert(base.count(b) == 0);
            assert(b == tw);
        }
    }
    assert(blocks_contents(n) =~= target);
}

/// A stash buffer whose slots are all empty holds no live block.
proof fn lemma_live_blocks_none<V>(s: Seq<Block<V>>)
    requires
        forall|i: int| 0 <= i < s.len() ==> !is_live(#[trigger] s[i]),
    ensures
        live_blocks(s) == Multiset::<Block<V>>::empty(),
    decreases s.len(),
{
    if s.len() > 0 {
        lemma_live_blocks_none(s.drop_last());
        assert(live_blocks(s) =~= Multiset::<Block<V>>::empty());
    }
}

/// A tree whose slots are all empty holds no live block.
proof fn lemma_tree_live_none<V>(nodes: Seq<Bucket<V>>, sel: spec_fn(int) -> bool)
    requires
        forall|n: int, b: int| 0 <= n < nodes.len() && 0 <= b < 2 ==> !is_live(#[trigger] nodes[n].0@[b]),
    ensures
        tree_live_in(nodes, sel) == Multiset::<Block<V>>::empty(),
    decreases nodes.len(),
{
    if nodes.len() > 0 {
        lemma_tree_live_none(nodes.drop_last(), sel);
        assert(!is_live(nodes[nodes.len() - 1].0@[0]));
        assert(!is_live(nodes[nodes.len() - 1].0@[1]));
        assert(tree_live_in(nodes, sel) =~= Multiset::<Block<V>>::empty());
    }
}

/// At the start of an access on the path `pos` of a valid ORAM: reading the path keeps the
/// same blocks, puts the path blocks at depths they may go to, and, when the key is mapped
/// to `pos`, brings its block into the stash buffer, which holds no other block of that key.
proof fn lemma_access_front<V>(o: CircuitORAM<V>, pos: PositionType, key: K, s1: Seq<Block<V>>)
    requires
        o.valid(),
        s1 == o.stash@.subrange(0, S as int) + path_blocks(o.tree.tree@, o.h as int, pos as int),
        o.contents().contains_key(key) ==> o.contents()[key].0 == pos,
    ensures
        live_blocks(s1).add(tree_live_in(o.tree.tree@, off_path(o.h as int, pos as int))) == oram_blocks(o),
        path_legal(s1, pos, o.h as int),
        has_key(s1, key) == o.contents().contains_key(key),
        o.contents().contains_key(key) ==> forall|j: int|
            0 <= j < s1.len() && block_matches(#[trigger] s1[j], key) ==> s1[j].pos == pos && s1[j].value == o.contents()[key].1,
        forall|x: Block<V>| #[trigger] tree_live_in(o.tree.tree@, off_path(o.h as int, pos as int)).count(x) > 0 ==> x.key != key,
{
    let m = oram_blocks(o);
    let off = tree_live_in(o.tree.tree@, off_path(o.h as int, pos as int));
    lemma_tree_live_path(o.tree.tree@, o.h as nat, pos);
    lemma_live_blocks_concat(o.stash@.subrange(0, S as int), path_blocks(o.tree.tree@, o.h as int, pos as int));
    assert(live_blocks(s1).add(off) =~= m);
    lemma_read_path_legal(o.tree.tree@, o.h as nat, pos, o.stash@.subrange(0, S as int));
    assert forall|x: Block<V>| #[trigger] off.count(x) > 0 implies x.key != key by {
        if x.key == key {
            crate::oram::block_sets::lemma_tree_live_in_member(o.tree.tree@, off_path(o.h as int, pos as int), x);
            let (n, b) = choose|n: int, b: int| 0 <= n < o.tree.tree@.len() && 0 <= b < 2 && off_path(o.h as int, pos as int)(n)
                && o.tree.tree@[n].0@[b] == x && is_live(x);
            assert(on_path(n, o.h as int, x.pos as int));
            assert(m.count(x) > 0);
            let c = choose|c: Block<V>| m.count(c) > 0 && c.key == key;
            assert(c == x);
            assert(o.contents()[key].0 == x.pos);
        }
    }
    if o.contents().contains_key(key) {
        let c = choose|c: Block<V>| m.count(c) > 0 && c.key == key;
        assert(off.count(c) == 0);
        assert(live_blocks(s1).count(c) > 0);
        crate::oram::block_sets::lemma_live_blocks_member(s1, c);
        let i = choose|i: int| 0 <= i < s1.len() && s1[i] == c && is_live(c);
        assert(block_matches(s1[i], key));
        assert forall|j: int| 0 <= j < s1.len() && block_matches(#[trigger] s1[j], key) implies s1[j].pos == pos && s1[j].value == o.contents()[key].1 by {
            crate::oram::block_sets::lemma_live_blocks_member(s1, s1[j]);
            assert(m.count(s1[j]) > 0);
        }
    } else {
        if has_key(s1, key) {
            let i = choose|i: int| 0 <= i < s1.len() && block_matches(s1[i], key);
            crate::oram::block_sets::lemma_live_blocks_member(s1, s1[i]);
            assert(m.count(s1[i]) > 0);
        }
    }
}

/// The inputs of a fresh ORAM: keys pairwise distinct, each mapped to a real position.
pub open spec fn initial_inputs_ok(keys: Seq<K>, positions: Seq<PositionType>) -> bool {
    &&& forall|i: int, j: int| 0 <= i < j < keys.len() ==> keys[i] != keys[j]
    &&& forall|i: int| 0 <= i < positions.len() ==> positions[i] != DUMMY_POS
}

/// Every key of `m` is one of the first `n` keys, with its position and value.
pub open spec fn held_from_inputs<V>(m: Map<K, (PositionType, V)>, keys: Seq<K>, values: Seq<V>, positions: Seq<PositionType>, n: int) -> bool {
    forall|k: K| #[trigger] m.contains_key(k) ==> exists|j: int| 0 <= j < n && keys[j] == k && m[k] == (positions[j], values[j])
}

/// A key that a write left in a valid ORAM at position `p` can be read on the path `p`,
/// with any real new position, and the read gives back the value written.
pub proof fn lemma_written_key_readable<V>(o: CircuitORAM<V>, key: K, p: PositionType, v: V, new_pos: PositionType)
    requires
        o.valid(),
        o.contents().contains_key(key),
        o.contents()[key] == (p, v),
        new_pos != DUMMY_POS,
    ensures
        access_pre(o, p, key, new_pos),
        o.contents()[key].1 == v,
{
}

/// An access on the path `pos` for `key` finds it where it is: a valid ORAM in which
/// `key`, when present, is mapped to `pos`.
pub open spec fn access_ok<V>(o: CircuitORAM<V>, pos: PositionType, key: K) -> bool {
    &&& o.valid()
    &&& o.contents().contains_key(key) ==> o.contents()[key].0 == pos
}

/// The conditions of an access that maps `key` on to a real position: `access_ok` and
/// `new_pos` real.
pub open spec fn access_pre<V>(o: CircuitORAM<V>, pos: PositionType, key: K, new_pos: PositionType) -> bool {
    &&& o.valid()
    &&& new_pos != DUMMY_POS
    &&& o.contents().contains_key(key) ==> o.contents()[key].0 == pos
}

/// After the path is read and the blocks of `key` removed, the ORAM is ready to store a
/// block of `key`: the blocks are those of before without `key`, and the stash proper has
/// room exactly when `stash_room` says so.
proof fn lemma_after_remove<V>(o: CircuitORAM<V>, pos: PositionType, key: K, o2: CircuitORAM<V>, tw: Block<V>)
    requires
        o.valid(),
        o.contents().contains_key(key) ==> o.contents()[key].0 == pos,
        o2.wf(),
        o2.h == o.h,
        o2.tree == o.tree,
        o2.stash@ == remove_key(o.stash@.subrange(0, S as int) + path_blocks(o.tree.tree@, o.h as int, pos as int), key),
        tw.key == key,
    ensures
        mid_ok(o2, pos, tw),
        forall|y: Block<V>| #[trigger] mid_blocks(o2, pos).count(y) == (if y.key == key { 0 } else { oram_blocks(o).count(y) }),
        (exists|i: int| 0 <= i < S && !is_live(#[trigger] o2.stash@[i])) == stash_room(o, key),
{
    let s1 = o.stash@.subrange(0, S as int) + path_blocks(o.tree.tree@, o.h as int, pos as int);
    lemma_access_front(o, pos, key, s1);
    let off = tree_live_in(o.tree.tree@, off_path(o.h as int, pos as int));
    let m = oram_blocks(o);
    assert forall|y: Block<V>| #[trigger] mid_blocks(o2, pos).count(y) == (if y.key == key { 0 } else { m.count(y) }) by {
        crate::oram::block_sets::lemma_live_remove_key(s1, key, y);
        if y.key == key {
            assert(off.count(y) == 0);
        }
    }
    crate::oram::block_sets::lemma_remove_key_legal(s1, key, pos, o.h as int);
    assert forall|b1: Block<V>, b2: Block<V>|
        #[trigger] mid_blocks(o2, pos).count(b1) > 0 && #[trigger] mid_blocks(o2, pos).count(b2) > 0 && b1.key == b2.key implies b1 == b2
            && mid_blocks(o2, pos).count(b1) == 1 by {
        assert(m.count(b1) > 0 && m.count(b2) > 0);
    }
    if exists|i: int| 0 <= i < S && !is_live(#[trigger] o2.stash@[i]) {
        let i = choose|i: int| 0 <= i < S && !is_live(#[trigger] o2.stash@[i]);
        assert(s1[i] == o.stash@[i]);
        assert(!is_live(o.stash@[i]) || o.stash@[i].key == key);
    }
    if stash_room(o, key) {
        let i = choose|i: int| 0 <= i < S && (!is_live(#[trigger] o.stash@[i]) || o.stash@[i].key == key);
        assert(s1[i] == o.stash@[i]);
        assert(!is_live(o2.stash@[i]));
    }
}

/// Storing a live block of a new key in the first empty slot of the stash proper of a valid
/// ORAM adds that key to its contents.
pub(crate) proof fn lemma_stash_write<V>(o: CircuitORAM<V>, f: CircuitORAM<V>, b: Block<V>, i: int)
    requires
        o.valid(),
        is_live(b),
        !o.contents().contains_key(b.key),
        f.wf(),
        f.h == o.h,
        f.tree == o.tree,
        is_first_empty(o.stash@.subrange(0, S as int), i),
        f.stash@.subrange(0, S as int) == o.stash@.subrange(0, S as int).update(i, b),
    ensures
        f.valid(),
        f.contents() == o.contents().insert(b.key, (b.pos, b.value)),
{
    let proper = o.stash@.subrange(0, S as int);
    lemma_live_blocks_update(proper, i, b);
    assert(live_one(proper[i]) =~= Multiset::empty());
    assert(live_blocks(proper.update(i, b)) =~= live_blocks(proper).add(live_one(b)));
    let m = oram_blocks(o);
    assert(oram_blocks(f) =~= m.add(live_one(b)));
    assert forall|x: Block<V>| #[trigger] m.count(x) > 0 implies x.key != b.key by {
        if x.key == b.key {
            assert(o.contents().contains_key(b.key));
        }
    }
    lemma_keys_unique_add(m, b);
    assert forall|x: Block<V>| #[trigger] m.count(x) == (if x.key == b.key { 0 } else { m.count(x) }) by {
        if x.key == b.key && m.count(x) > 0 {
            assert(o.contents().contains_key(b.key));
        }
    }
    lemma_contents_update(m, m, b.key, b, true);
}

/// Reading the path `pos` of a valid ORAM in which `key`, when present, is mapped to `pos`,
/// removing the blocks of `key`, evicting once along the path and writing it back leaves a
/// valid ORAM without `key`.
pub(crate) proof fn lemma_remove_access<V>(o: CircuitORAM<V>, o2: CircuitORAM<V>, s: Seq<Block<V>>, f: CircuitORAM<V>, pos: PositionType, key: K)
    requires
        o.valid(),
        o.contents().contains_key(key) ==> o.contents()[key].0 == pos,
        o2.wf(),
        o2.h == o.h,
        o2.tree == o.tree,
        o2.stash@ == remove_key(o.stash@.subrange(0, S as int) + path_blocks(o.tree.tree@, o.h as int, pos as int), key),
        s.len() == o2.stash@.len(),
        live_blocks(s) == live_blocks(o2.stash@),
        path_legal(o2.stash@, pos, o.h as int) ==> path_legal(s, pos, o.h as int),
        f.wf(),
        f.h == o.h,
        f.stash@ == s,
        f.tree.tree@ == write_path_spec(o.tree.tree@, o.h as int, pos as int, s.subrange(S as int, s.len() as int)),
    ensures
        f.valid(),
        f.contents() == o.contents().remove(key),
{
    let tw = Block { pos: DUMMY_POS, key, value: arbitrary() };
    lemma_after_remove(o, pos, key, o2, tw);
    lemma_finish_write_back(o2, s, f, pos);
    assert(oram_blocks(f) =~= mid_blocks(o2, pos));
    lemma_contents_update(oram_blocks(o), mid_blocks(o2, pos), key, tw, false);
    assert(mid_blocks(o2, pos).add(Multiset::empty()) =~= mid_blocks(o2, pos));
}

/// Removing the blocks of `key` from the stash proper and the path `pos` of a valid ORAM,
/// evicting once along the path and writing it back leaves a valid ORAM that either no
/// longer holds `key`, or, when the block of `key` lies off the path, is unchanged.
pub(crate) proof fn lemma_remove_any<V>(o: CircuitORAM<V>, o2: CircuitORAM<V>, s: Seq<Block<V>>, f: CircuitORAM<V>, pos: PositionType, key: K)
    requires
        o.valid(),
        o2.wf(),
        o2.h == o.h,
        o2.tree == o.tree,
        o2.stash@ == remove_key(o.stash@.subrange(0, S as int) + path_blocks(o.tree.tree@, o.h as int, pos as int), key),
        s.len() == o2.stash@.len(),
        live_blocks(s) == live_blocks(o2.stash@),
        path_legal(o2.stash@, pos, o.h as int) ==> path_legal(s, pos, o.h as int),
        f.wf(),
        f.h == o.h,
        f.stash@ == s,
        f.tree.tree@ == write_path_spec(o.tree.tree@, o.h as int, pos as int, s.subrange(S as int, s.len() as int)),
    ensures
        f.valid(),
        f.contents() == o.contents().remove(key) || f.contents() == o.contents(),
{
    let s1 = o.stash@.subrange(0, S as int) + path_blocks(o.tree.tree@, o.h as int, pos as int);
    let off = tree_live_in(o.tree.tree@, off_path(o.h as int, pos as int));
    let m = oram_blocks(o);
    let mid = mid_blocks(o2, pos);
    crate::oram::block_sets::lemma_tree_live_path(o.tree.tree@, o.h as nat, pos);
    crate::oram::block_sets::lemma_live_blocks_concat(o.stash@.subrange(0, S as int), path_blocks(o.tree.tree@, o.h as int, pos as int));
    assert(live_blocks(s1).add(off) =~= m);
    crate::oram::block_sets::lemma_read_path_legal(o.tree.tree@, o.h as nat, pos, o.stash@.subrange(0, S as int));
    crate::oram::block_sets::lemma_remove_key_legal(s1, key, pos, o.h as int);
    assert forall|y: Block<V>| #[trigger] mid.count(y) == (if y.key == key { off.count(y) } else { m.count(y) }) by {
        crate::oram::block_sets::lemma_live_remove_key(s1, key, y);
    }
    assert forall|b1: Block<V>, b2: Block<V>|
        #[trigger] mid.count(b1) > 0 && #[trigger] mid.count(b2) > 0 && b1.key == b2.key implies b1 == b2 && mid.count(b1) == 1 by {
        assert(m.count(b1) > 0 && m.count(b2) > 0);
    }
    lemma_finish_write_back(o2, s, f, pos);
    assert(oram_blocks(f) =~= mid);
    if exists|c: Block<V>| off.count(c) > 0 && c.key == key {
        let c = choose|c: Block<V>| off.count(c) > 0 && c.key == key;
        assert forall|y: Block<V>| #[trigger] mid.count(y) == m.count(y) by {
            if y.key == key && m.count(y) > 0 {
                assert(m.count(c) > 0);
                assert(y == c && m.count(c) == 1);
            }
        }
        assert(mid =~= m);
    } else {
        let tw = Block { pos: DUMMY_POS, key, value: arbitrary() };
        assert forall|y: Block<V>| #[trigger] mid.count(y) == (if y.key == key { 0 } else { m.count(y) }) by {
            if y.key == key && off.count(y) > 0 {
                assert(off.count(y) > 0 && y.key == key);
            }
        }
        lemma_contents_update(m, mid, key, tw, false);
        assert(mid.add(Multiset::empty()) =~= mid);
    }
}

/// First slot of level `l` of the stash buffer: the stash proper and the root bucket form
/// level 0, and the bucket at depth `l >= 1` of the path is level `l`.
pub open spec fn level_start(l: int) -> int {
    if l == 0 {
        0
    } else {
        S + l * Z
    }
}

/// End of the slots of level `l` of the stash buffer.
pub open spec fn level_end(l: int) -> int {
    S + (l + 1) * Z
}

/// The block holds an element.
pub open spec fn is_live<V>(b: Block<V>) -> bool {
    b.pos != DUMMY_POS
}

/// How deep along the path `pos` the block may be stored: the length of the common low-bit
/// suffix of its position and `pos`.
pub open spec fn legal_depth<V>(b: Block<V>, pos: PositionType) -> int {
    u64_trailing_zeros((b.pos ^ pos) as u64) as int
}

/// Slot `b` of the bucket at depth `l` of the path held in the stash buffer `s`.
pub open spec fn path_slot<V>(s: Seq<Block<V>>, l: int, b: int) -> Block<V> {
    s[S + l * Z + b]
}

/// Every live block of the path part of the stash buffer sits at a depth it may go to.
pub open spec fn path_legal<V>(s: Seq<Block<V>>, pos: PositionType, h: int) -> bool {
    forall|l: int, b: int|
        1 <= l < h && 0 <= b < Z && is_live(#[trigger] path_slot(s, l, b)) ==> legal_depth(path_slot(s, l, b), pos) >= l
}

/// The bucket at depth `l` of the path held in the stash buffer `s` has an empty slot.
pub open spec fn level_has_empty<V>(s: Seq<Block<V>>, l: int) -> bool {
    exists|b: int| 0 <= b < Z && !is_live(#[trigger] path_slot(s, l, b))
}

/// Some live block of the stash proper or the root bucket may go down the path `pos` to a
/// level whose bucket has an empty slot.
pub open spec fn can_sink<V>(s: Seq<Block<V>>, pos: PositionType, h: int) -> bool {
    exists|j: int, l: int|
        0 <= j < S + Z && 1 <= l < h && is_live(#[trigger] s[j]) && legal_depth(s[j], pos) >= l && #[trigger] level_has_empty(s, l)
}

/// `di[l]` points at a live block of level `l`.
pub open spec fn deepest_idx_ok<V>(di: Seq<i32>, s: Seq<Block<V>>, l: int) -> bool {
    &&& level_start(l) <= di[l] < level_end(l)
    &&& is_live(s[di[l] as int])
}

/// `deepest[k]`, when set, names a level above `k` whose chosen block may go to depth `k`.
pub open spec fn deepest_ok<V>(deepest: Seq<i32>, di: Seq<i32>, s: Seq<Block<V>>, pos: PositionType, h: int) -> bool {
    forall|k: int|
        1 <= k < h ==> #[trigger] deepest[k] == -1 || (0 <= deepest[k] < k && deepest_idx_ok(di, s, deepest[k] as int)
            && legal_depth(s[di[deepest[k] as int] as int], pos) >= k)
}

/// `has_empty[k]` is set only for levels with an empty slot.
pub open spec fn has_empty_ok<V>(he: Seq<bool>, s: Seq<Block<V>>, h: int) -> bool {
    forall|k: int| 1 <= k < h && #[trigger] he[k] ==> exists|b: int| 0 <= b < Z && !is_live(#[trigger] path_slot(s, k, b))
}

/// `target[k]`, when set, is a deeper level that the chosen block of level `k` may go to
/// and that either has an empty slot or gives up its own chosen block.
pub open spec fn target_ok<V>(target: Seq<i32>, he: Seq<bool>, di: Seq<i32>, s: Seq<Block<V>>, pos: PositionType, h: int) -> bool {
    &&& target[h - 1] == -1
    &&& forall|k: int|
        0 <= k < h ==> #[trigger] target[k] == -1 || (k < target[k] < h && (he[target[k] as int] || target[target[k] as int]
            != -1) && deepest_idx_ok(di, s, k) && legal_depth(s[di[k] as int], pos) >= target[k])
}

/// PrepareDeepest (Alg. 2 of the Circuit ORAM paper) on the path `pos` held in the stash
/// buffer `s`: for each level, the index of its deepest-going block; for each level `k`,
/// the level above `k` holding the deepest-going block seen so far, if that block may go to
/// depth `k`; and which levels have an empty slot.
fn prepare_deepest<V: Copy>(s: &Vec<Block<V>>, pos: PositionType, h: usize) -> (r: ([i32; 64], [i32; 64], [bool; 64]))
    requires
        2 <= h <= 34,
        s@.len() == S + h * Z,
    ensures
        deepest_ok(r.0@, r.1@, s@, pos, h as int),
        has_empty_ok(r.2@, s@, h as int),
        forall|k: int| 0 <= k < 64 ==> -1 <= #[trigger] r.0@[k] < 64,
        (exists|j: int| 0 <= j < S + Z && is_live(#[trigger] s@[j])) ==> deepest_idx_ok(r.1@, s@, 0),
        forall|j: int| 0 <= j < S + Z && is_live(#[trigger] s@[j]) ==> legal_depth(s@[j], pos) <= legal_depth(s@[r.1@[0] as int], pos),
        forall|k: int|
            1 <= k < h && deepest_idx_ok(r.1@, s@, 0) && legal_depth(s@[r.1@[0] as int], pos) >= k ==> #[trigger] r.0@[k] != -1,
        forall|k: int| 1 <= k < h ==> (#[trigger] r.2@[k] <==> level_has_empty(s@, k)),
{
    let mut deepest: [i32; 64] = [-1i32; 64];
    let mut deepest_idx: [i32; 64] = [0i32; 64];
    let mut has_empty: [bool; 64] = [false; 64];
    let mut src: i32 = -1;
    let mut dst: i32 = -1;
    let mut idx: usize = 0;
    while idx < S + Z
        invariant
            2 <= h <= 34,
            s@.len() == S + h * Z,
            idx <= S + Z,
            -1 <= dst <= 64,
            dst != -1 ==> 0 <= deepest_idx@[0] < idx && is_live(s@[deepest_idx@[0] as int]) && legal_depth(
                s@[deepest_idx@[0] as int],
                pos,
            ) == dst,
            forall|k: int| 0 <= k < 64 ==> #[trigger] deepest@[k] == -1,
            forall|k: int| 0 <= k < 64 ==> !#[trigger] has_empty@[k],
            forall|j: int| 0 <= j < idx && is_live(#[trigger] s@[j]) ==> dst != -1 && legal_depth(s@[j], pos) <= dst,
        decreases S + Z - idx,
    {
        let blk = s[idx];
        let deepest_level = common_suffix_length(blk.pos, pos) as i32;
        let deeper_flag = !blk.is_empty() && (deepest_level > dst);
        dst.cmov(&deepest_level, deeper_flag);
        cmov_at_i32(&mut deepest_idx, 0, idx as i32, deeper_flag);
        idx += 1;
    }
    src.cmov(&0, dst != -1);
    let ghost d0 = dst;
    let ghost di0 = deepest_idx@[0];
    let mut idx: usize = S + Z;
    let mut i: usize = 1;
    while i < h
        invariant
            2 <= h <= 34,
            s@.len() == S + h * Z,
            1 <= i <= h,
            idx == S + i * Z,
            -1 <= dst <= 64,
            -1 <= src < 64,
            (dst == -1) == (src == -1),
            dst != -1 ==> 0 <= src < i && deepest_idx_ok(deepest_idx@, s@, src as int) && legal_depth(
                s@[deepest_idx@[src as int] as int],
                pos,
            ) == dst,
            forall|k: int|
                1 <= k < i ==> #[trigger] deepest@[k] == -1 || (0 <= deepest@[k] < k && deepest_idx_ok(
                    deepest_idx@,
                    s@,
                    deepest@[k] as int,
                ) && legal_depth(s@[deepest_idx@[deepest@[k] as int] as int], pos) >= k),
            forall|k: int| 0 <= k < 64 && (k == 0 || k >= i) ==> #[trigger] deepest@[k] == -1,
            forall|k: int| 0 <= k < 64 ==> -1 <= #[trigger] deepest@[k] < 64,
            has_empty_ok(has_empty@, s@, i as int),
            forall|k: int| 0 <= k < 64 && (k == 0 || k >= i) ==> !#[trigger] has_empty@[k],
            deepest_idx@[0] == di0,
            -1 <= d0 <= 64,
            d0 != -1 ==> 0 <= di0 < S + Z && is_live(s@[di0 as int]) && legal_depth(s@[di0 as int], pos) == d0 && dst >= d0,
            forall|j: int| 0 <= j < S + Z && is_live(#[trigger] s@[j]) ==> d0 != -1 && legal_depth(s@[j], pos) <= d0,
            forall|k: int| 1 <= k < i && d0 >= k ==> #[trigger] deepest@[k] != -1,
            forall|k: int| 1 <= k < i ==> (#[trigger] has_empty@[k] <==> level_has_empty(s@, k)),
        decreases h - i,
    {
        let ghost di_before = deepest_idx@;
        let ghost he_before = has_empty@;
        cmov_at_i32(&mut deepest, i, src, dst >= i as i32);
        let mut bucket_deepest_level: i32 = -1;
        let mut b: usize = 0;
        while b < Z
            invariant
                2 <= h <= 34,
                s@.len() == S + h * Z,
                1 <= i < h,
                idx == S + i * Z + b,
                b <= Z,
                -1 <= bucket_deepest_level <= 64,
                bucket_deepest_level != -1 ==> S + i * Z <= deepest_idx@[i as int] < idx && is_live(
                    s@[deepest_idx@[i as int] as int],
                ) && legal_depth(s@[deepest_idx@[i as int] as int], pos) == bucket_deepest_level,
                forall|k: int| 0 <= k < 64 && k != i ==> #[trigger] deepest_idx@[k] == di_before[k],
                has_empty@[i as int] <==> exists|bb: int| 0 <= bb < b && !is_live(#[trigger] path_slot(s@, i as int, bb)),
                forall|k: int| 0 <= k < 64 && k != i ==> #[trigger] has_empty@[k] == he_before[k],
                !he_before[i as int],
            decreases Z - b,
        {
            let blk = s[idx];
            let deepest_level = common_suffix_length(blk.pos, pos) as i32;
            let is_empty = blk.is_empty();
            let mut he = has_empty[i];
            he.cmov(&true, is_empty);
            has_empty[i] = he;
            proof {
                assert(path_slot(s@, i as int, b as int) == blk);
            }
            let deeper_flag = !is_empty && (deepest_level > bucket_deepest_level);
            bucket_deepest_level.cmov(&deepest_level, deeper_flag);
            cmov_at_i32(&mut deepest_idx, i, idx as i32, deeper_flag);
            idx += 1;
            b += 1;
        }
        let deeper_flag = bucket_deepest_level > dst;
        src.cmov(&(i as i32), deeper_flag);
        dst.cmov(&bucket_deepest_level, deeper_flag);
        proof {
            assert(has_empty@[i as int] <==> level_has_empty(s@, i as int));
        }
        i += 1;
    }
    proof {
        if exists|j: int| 0 <= j < S + Z && is_live(#[trigger] s@[j]) {
            let j = choose|j: int| 0 <= j < S + Z && is_live(#[trigger] s@[j]);
            assert(d0 != -1);
        }
        if deepest_idx_ok(deepest_idx@, s@, 0) {
            assert(is_live(s@[di0 as int]));
            assert(d0 != -1);
        }
    }
    (deepest, deepest_idx, has_empty)
}

/// PrepareTarget (Alg. 3 of the Circuit ORAM paper): from the deepest level up, picks for
/// each level the deeper level that its chosen block is moved to.
fn prepare_target<V>(deepest: &[i32; 64], deepest_idx: &[i32; 64], has_empty: &[bool; 64], s: &Vec<Block<V>>, pos: PositionType, h: usize) -> (target: [i32; 64])
    requires
        2 <= h <= 34,
        s@.len() == S + h * Z,
        deepest_ok(deepest@, deepest_idx@, s@, pos, h as int),
        forall|k: int| 0 <= k < 64 ==> -1 <= #[trigger] deepest@[k] < 64,
        forall|k: int|
            1 <= k < h && deepest_idx_ok(deepest_idx@, s@, 0) && legal_depth(s@[deepest_idx@[0] as int], pos) >= k ==> #[trigger] deepest@[k]
                != -1,
    ensures
        target_ok(target@, has_empty@, deepest_idx@, s@, pos, h as int),
        forall|k: int| 0 <= k < 64 ==> -1 <= #[trigger] target@[k] < 64,
        deepest_idx_ok(deepest_idx@, s@, 0) && (exists|l: int|
            1 <= l < h && legal_depth(s@[deepest_idx@[0] as int], pos) >= l && #[trigger] has_empty@[l]) ==> target@[0] != -1,
{
    let mut target: [i32; 64] = [-1i32; 64];
    let mut src: i32 = -1;
    let mut dst: i32 = -1;
    let mut i: usize = h - 1;
    while i >= 1
        invariant
            2 <= h <= 34,
            s@.len() == S + h * Z,
            deepest_ok(deepest@, deepest_idx@, s@, pos, h as int),
            forall|k: int| 0 <= k < 64 ==> -1 <= #[trigger] deepest@[k] < 64,
            i <= h - 1,
            (src == -1) == (dst == -1),
            src != -1 ==> 0 <= src <= i && src < dst < h && (has_empty@[dst as int] || target@[dst as int] != -1)
                && deepest_idx_ok(deepest_idx@, s@, src as int) && legal_depth(s@[deepest_idx@[src as int] as int], pos) >= dst,
            forall|k: int|
                i < k < h ==> #[trigger] target@[k] == -1 || (k < target@[k] < h && (has_empty@[target@[k] as int]
                    || target@[target@[k] as int] != -1) && deepest_idx_ok(deepest_idx@, s@, k) && legal_depth(
                    s@[deepest_idx@[k] as int],
                    pos,
                ) >= target@[k]),
            forall|k: int| 0 <= k < 64 && (k <= i || k >= h - 1) ==> #[trigger] target@[k] == -1,
            forall|k: int| 0 <= k < 64 ==> -1 <= #[trigger] target@[k] < 64,
            forall|k: int|
                1 <= k < h && deepest_idx_ok(deepest_idx@, s@, 0) && legal_depth(s@[deepest_idx@[0] as int], pos) >= k ==> #[trigger] deepest@[k]
                    != -1,
            deepest_idx_ok(deepest_idx@, s@, 0) && (exists|l: int|
                i < l < h && legal_depth(s@[deepest_idx@[0] as int], pos) >= l && #[trigger] has_empty@[l]) ==> src != -1,
        decreases i,
    {
        let ghost src0 = src;
        let ghost dst0 = dst;
        let is_src = (i as i32) == src;
        cmov_at_i32(&mut target, i, dst, is_src);
        src.cmov(&-1, is_src);
        dst.cmov(&-1, is_src);
        let change_flag = (((dst == -1) && has_empty[i]) || (target[i] != -1)) && (deepest[i] != -1);
        proof {
            assert(deepest@[i as int] == -1 || (0 <= deepest@[i as int] < i && deepest_idx_ok(deepest_idx@, s@, deepest@[i as int] as int)
                && legal_depth(s@[deepest_idx@[deepest@[i as int] as int] as int], pos) >= i));
        }
        src.cmov(&deepest[i], change_flag);
        dst.cmov(&(i as i32), change_flag);
        proof {
            if deepest_idx_ok(deepest_idx@, s@, 0) && (exists|l: int|
                i - 1 < l < h && legal_depth(s@[deepest_idx@[0] as int], pos) >= l && #[trigger] has_empty@[l]) {
                let l = choose|l: int| i - 1 < l < h && legal_depth(s@[deepest_idx@[0] as int], pos) >= l && #[trigger] has_empty@[l];
                assert(deepest@[i as int] != -1);
                if l > i {
                    assert(src0 != -1);
                }
            }
        }
        i -= 1;
    }
    cmov_at_i32(&mut target, 0, dst, src == 0);
    target
}

/// One block counted when it is live.
pub open spec fn live_one<V>(b: Block<V>) -> Multiset<Block<V>> {
    if is_live(b) {
        Multiset::singleton(b)
    } else {
        Multiset::empty()
    }
}

/// The live blocks of `s`, counted with multiplicity.
pub open spec fn live_blocks<V>(s: Seq<Block<V>>) -> Multiset<Block<V>>
    decreases s.len(),
{
    if s.len() == 0 {
        Multiset::empty()
    } else {
        live_blocks(s.drop_last()).add(live_one(s.last()))
    }
}

/// Replacing slot `i` by `a` trades its block for `a` among the live blocks.
pub proof fn lemma_live_blocks_update<V>(s: Seq<Block<V>>, i: int, a: Block<V>)
    requires
        0 <= i < s.len(),
    ensures
        live_blocks(s.update(i, a)).add(live_one(s[i])) == live_blocks(s).add(live_one(a)),
    decreases s.len(),
{
    if i == s.len() - 1 {
        assert(s.update(i, a).drop_last() =~= s.drop_last());
        assert(live_blocks(s.update(i, a)).add(live_one(s[i])) =~= live_blocks(s).add(live_one(a)));
    } else {
        let t = s.update(i, a);
        assert(t.drop_last() =~= s.drop_last().update(i, a));
        assert(t.last() == s.last());
        assert(s.drop_last()[i] == s[i]);
        lemma_live_blocks_update(s.drop_last(), i, a);
        assert(live_blocks(t) == live_blocks(s.drop_last().update(i, a)).add(live_one(s.last())));
        assert(live_blocks(s) == live_blocks(s.drop_last()).add(live_one(s.last())));
        let l = live_blocks(s.drop_last().update(i, a));
        assert forall|x: Block<V>| #[trigger] live_blocks(t).add(live_one(s[i])).count(x) == live_blocks(s).add(live_one(a)).count(x) by {
            broadcast use vstd::multiset::group_multiset_axioms;
            assert(l.add(live_one(s[i])).count(x) == live_blocks(s.drop_last()).add(live_one(a)).count(x));
        }
        assert(live_blocks(t).add(live_one(s[i])) =~= live_blocks(s).add(live_one(a)));
    }
}

/// EvictOnceFast's data movement (end of Alg. 4 of the Circuit ORAM paper) on the path
/// `pos` held in `stash`: walking from the root, the chosen block of each level with a
/// target is picked up, and the block in hand is put down at its target level. No live
/// block is lost, the stash and the root bucket only give blocks up, and every block that
/// moves goes to a depth it may occupy.
fn evict_move_blocks<V: Cmov + Copy + Default>(stash: &mut Vec<Block<V>>, target: &[i32; 64], deepest_idx: &[i32; 64], has_empty: &[bool; 64], pos: PositionType, h: usize)
    requires
        2 <= h <= 34,
        old(stash)@.len() == S + h * Z,
        target_ok(target@, has_empty@, deepest_idx@, old(stash)@, pos, h as int),
        has_empty_ok(has_empty@, old(stash)@, h as int),
        forall|k: int| 0 <= k < 64 ==> -1 <= #[trigger] target@[k] < 64,
    ensures
        final(stash)@.len() == old(stash)@.len(),
        live_blocks(final(stash)@) == live_blocks(old(stash)@),
        path_legal(old(stash)@, pos, h as int) ==> path_legal(final(stash)@, pos, h as int),
        forall|k: int| 0 <= k < S + Z ==> final(stash)@[k] == old(stash)@[k] || !is_live(#[trigger] final(stash)@[k]),
        target@[0] != -1 ==> 0 <= deepest_idx@[0] < S + Z && is_live(old(stash)@[deepest_idx@[0] as int]) && !is_live(
            final(stash)@[deepest_idx@[0] as int],
        ),
{
    let ghost orig = stash@;
    let mut hold = Block::<V>::default();
    let mut idx: usize = 0;
    while idx < S + Z
        invariant
            2 <= h <= 34,
            orig.len() == S + h * Z,
            stash@.len() == orig.len(),
            target_ok(target@, has_empty@, deepest_idx@, orig, pos, h as int),
            idx <= S + Z,
            live_blocks(stash@).add(live_one(hold)) == live_blocks(orig),
            hold == (if target@[0] != -1 && deepest_idx@[0] < idx { orig[deepest_idx@[0] as int] } else { hold }),
            !(target@[0] != -1 && deepest_idx@[0] < idx) ==> !is_live(hold),
            forall|k: int| idx <= k < orig.len() ==> #[trigger] stash@[k] == orig[k],
            forall|k: int| 0 <= k < idx ==> #[trigger] stash@[k] == orig[k] || !is_live(stash@[k]),
            target@[0] != -1 && 0 <= deepest_idx@[0] < idx ==> !is_live(stash@[deepest_idx@[0] as int]),
        decreases S + Z - idx,
    {
        let is_deepest = deepest_idx[0] == idx as i32;
        let read_and_remove_flag = is_deepest && (target[0] != -1);
        let blk = stash[idx];
        let ghost before = stash@;
        let ghost hold_before = hold;
        hold.cmov(&blk, read_and_remove_flag);
        let mut emptied = blk;
        emptied.pos.cmov(&DUMMY_POS, read_and_remove_flag);
        stash.set(idx, emptied);
        proof {
            lemma_live_blocks_update(before, idx as int, emptied);
            if read_and_remove_flag {
                assert(live_blocks(stash@).add(live_one(blk)) =~= live_blocks(before));
                assert(live_one(hold_before) =~= Multiset::empty());
            } else {
                assert(emptied == blk);
                assert(stash@ =~= before);
            }
        }
        idx += 1;
    }
    let ghost s1 = stash@;
    let mut dst = target[0];
    proof {
        assert(target@[0] == -1 || (0 < target@[0] < h && deepest_idx_ok(deepest_idx@, orig, 0)
            && legal_depth(orig[deepest_idx@[0] as int], pos) >= target@[0]));
    }
    let mut idx: usize = S + Z;
    let mut i: usize = 1;
    while i < h - 1
        invariant
            2 <= h <= 34,
            orig.len() == S + h * Z,
            stash@.len() == orig.len(),
            target_ok(target@, has_empty@, deepest_idx@, orig, pos, h as int),
            has_empty_ok(has_empty@, orig, h as int),
            forall|k: int| 0 <= k < 64 ==> -1 <= #[trigger] target@[k] < 64,
            1 <= i <= h - 1,
            idx == S + i * Z,
            live_blocks(stash@).add(live_one(hold)) == live_blocks(orig),
            (dst != -1) == is_live(hold),
            dst != -1 ==> i <= dst < h && legal_depth(hold, pos) >= dst && (has_empty@[dst as int] || target@[dst as int] != -1),
            forall|k: int| idx <= k < orig.len() ==> #[trigger] stash@[k] == orig[k],
            forall|k: int| 0 <= k < S + Z ==> #[trigger] stash@[k] == orig[k] || !is_live(stash@[k]),
            path_legal(orig, pos, h as int) ==> forall|l: int, b: int|
                1 <= l < i && 0 <= b < Z && is_live(#[trigger] path_slot(stash@, l, b)) ==> legal_depth(path_slot(stash@, l, b), pos) >= l,
            s1.len() == orig.len(),
            forall|k: int| 0 <= k < S + Z ==> #[trigger] stash@[k] == s1[k],
        decreases h - 1 - i,
    {
        let has_target_flag = target[i] != -1;
        let place_dummy_flag = (i as i32 == dst) && !has_target_flag;
        let ghost hold_start = hold;
        let ghost stash_start = stash@;
        proof {
            assert(target@[i as int] == -1 || (i < target@[i as int] < h && (has_empty@[target@[i as int] as int]
                || target@[target@[i as int] as int] != -1) && deepest_idx_ok(deepest_idx@, orig, i as int)
                && legal_depth(orig[deepest_idx@[i as int] as int], pos) >= target@[i as int]));
        }
        let mut b: usize = 0;
        while b < Z
            invariant
                2 <= h <= 34,
                orig.len() == S + h * Z,
                stash@.len() == orig.len(),
                1 <= i < h - 1,
                idx == S + i * Z + b,
                b <= Z,
                has_target_flag == (target@[i as int] != -1),
                place_dummy_flag == ((i as i32 == dst) && !has_target_flag),
                has_target_flag ==> S + i * Z <= deepest_idx@[i as int] < S + i * Z + Z && is_live(orig[deepest_idx@[i as int] as int]),
                live_blocks(stash@).add(live_one(hold)) == live_blocks(orig),
                forall|k: int| idx <= k < orig.len() ==> #[trigger] stash@[k] == orig[k],
                forall|k: int| 0 <= k < S + i * Z ==> #[trigger] stash@[k] == stash_start[k],
                has_target_flag ==> hold == (if deepest_idx@[i as int] < idx { orig[deepest_idx@[i as int] as int] } else { hold_start }),
                place_dummy_flag ==> ((exists|bb: int| 0 <= bb < b && !is_live(#[trigger] path_slot(orig, i as int, bb))) ==> !is_live(hold)),
                place_dummy_flag ==> (!(exists|bb: int| 0 <= bb < b && !is_live(#[trigger] path_slot(orig, i as int, bb))) ==> hold == hold_start),
                !has_target_flag && !place_dummy_flag ==> hold == hold_start,
                forall|bb: int|
                    0 <= bb < b && is_live(#[trigger] path_slot(stash@, i as int, bb)) ==> path_slot(stash@, i as int, bb) == path_slot(orig, i as int, bb)
                        || (is_live(hold_start) && path_slot(stash@, i as int, bb) == hold_start),
            decreases Z - b,
        {
            let is_deepest = deepest_idx[i] == idx as i32;
            let read_and_remove_flag = is_deepest && has_target_flag;
            let mut slot = stash[idx];
            let write_flag = slot.is_empty() && place_dummy_flag;
            let swap_flag = read_and_remove_flag || write_flag;
            let ghost before = stash@;
            let ghost hold_before = hold;
            proof {
                assert(slot == orig[idx as int]);
                assert(path_slot(orig, i as int, b as int) == orig[idx as int]);
            }
            hold.cxchg(&mut slot, swap_flag);
            stash.set(idx, slot);
            proof {
                lemma_live_blocks_update(before, idx as int, slot);
                if swap_flag {
                    assert(live_blocks(stash@).add(live_one(hold)) =~= live_blocks(orig));
                } else {
                    assert(stash@ =~= before);
                }
                assert(path_slot(stash@, i as int, b as int) == slot);
                if place_dummy_flag && (exists|bb: int| 0 <= bb < b && !is_live(#[trigger] path_slot(orig, i as int, bb))) {
                    assert(!is_live(hold_before));
                }
                assert forall|bb: int|
                    0 <= bb < b + 1 && is_live(#[trigger] path_slot(stash@, i as int, bb)) implies path_slot(stash@, i as int, bb)
                        == path_slot(orig, i as int, bb) || (is_live(hold_start) && path_slot(stash@, i as int, bb) == hold_start) by {
                    if bb < b {
                        assert(path_slot(stash@, i as int, bb) == path_slot(before, i as int, bb));
                    } else if swap_flag {
                        if read_and_remove_flag {
                            assert(hold_before == hold_start);
                        } else if exists|x: int| 0 <= x < b && !is_live(#[trigger] path_slot(orig, i as int, x)) {
                            assert(!is_live(hold_before));
                        } else {
                            assert(hold_before == hold_start);
                        }
                    }
                }
            }
            idx += 1;
            b += 1;
        }
        proof {
            if place_dummy_flag {
                assert(has_empty@[i as int]);
                assert(exists|bb: int| 0 <= bb < Z && !is_live(#[trigger] path_slot(orig, i as int, bb)));
            }
            if path_legal(orig, pos, h as int) {
                assert forall|l: int, bb: int|
                    1 <= l < i + 1 && 0 <= bb < Z && is_live(#[trigger] path_slot(stash@, l, bb)) implies legal_depth(path_slot(stash@, l, bb), pos) >= l by {
                    if l < i {
                        assert(path_slot(stash@, l, bb) == path_slot(stash_start, l, bb));
                    } else {
                        assert(path_slot(orig, i as int, bb) == orig[S + i * Z + bb]);
                    }
                }
            }
        }
        dst.cmov(&target[i], has_target_flag || place_dummy_flag);
        i += 1;
    }
    let place_dummy_flag = ((h - 1) as i32) == dst;
    let ghost stash_start = stash@;
    let ghost hold_start = hold;
    proof {
        if place_dummy_flag {
            assert(has_empty@[(h - 1) as int]);
        }
    }
    let mut written = false;
    let mut b: usize = 0;
    while b < Z
        invariant
            2 <= h <= 34,
            orig.len() == S + h * Z,
            stash@.len() == orig.len(),
            idx == S + (h - 1) * Z + b,
            b <= Z,
            hold == hold_start,
            place_dummy_flag == (dst == h - 1),
            (dst != -1) == is_live(hold),
            dst != -1 ==> dst == h - 1 && legal_depth(hold, pos) >= dst,
            live_blocks(stash@).add(if written { Multiset::empty() } else { live_one(hold) }) == live_blocks(orig),
            written ==> place_dummy_flag,
            place_dummy_flag && (exists|bb: int| 0 <= bb < b && !is_live(#[trigger] path_slot(orig, (h - 1) as int, bb))) ==> written,
            forall|k: int| idx <= k < orig.len() ==> #[trigger] stash@[k] == orig[k],
            forall|k: int| 0 <= k < S + (h - 1) * Z ==> #[trigger] stash@[k] == stash_start[k],
            forall|bb: int|
                0 <= bb < b && is_live(#[trigger] path_slot(stash@, (h - 1) as int, bb)) ==> path_slot(stash@, (h - 1) as int, bb)
                    == path_slot(orig, (h - 1) as int, bb) || path_slot(stash@, (h - 1) as int, bb) == hold,
        decreases Z - b,
    {
        let mut slot = stash[idx];
        let write_flag = slot.is_empty() && place_dummy_flag && !written;
        let ghost before = stash@;
        proof {
            assert(slot == orig[idx as int]);
            assert(path_slot(orig, (h - 1) as int, b as int) == orig[idx as int]);
        }
        written = written || write_flag;
        slot.cmov(&hold, write_flag);
        stash.set(idx, slot);
        proof {
            lemma_live_blocks_update(before, idx as int, slot);
            if write_flag {
                assert(live_one(before[idx as int]) =~= Multiset::empty());
                assert(live_blocks(stash@) =~= live_blocks(before).add(live_one(hold)));
            } else {
                assert(stash@ =~= before);
            }
            assert(path_slot(stash@, (h - 1) as int, b as int) == slot);
            assert forall|bb: int|
                0 <= bb < b + 1 && is_live(#[trigger] path_slot(stash@, (h - 1) as int, bb)) implies path_slot(stash@, (h - 1) as int, bb)
                    == path_slot(orig, (h - 1) as int, bb) || path_slot(stash@, (h - 1) as int, bb) == hold by {
                if bb < b {
                    assert(path_slot(stash@, (h - 1) as int, bb) == path_slot(before, (h - 1) as int, bb));
                }
            }
        }
        idx += 1;
        b += 1;
    }
    proof {
        if place_dummy_flag {
            assert(exists|bb: int| 0 <= bb < Z && !is_live(#[trigger] path_slot(orig, (h - 1) as int, bb)));
            assert(written);
        } else {
            assert(live_one(hold) =~= Multiset::empty());
        }
        assert(live_blocks(stash@) =~= live_blocks(orig));
        if target@[0] != -1 {
            assert(stash@[deepest_idx@[0] as int] == s1[deepest_idx@[0] as int]);
        }
        if path_legal(orig, pos, h as int) {
            assert forall|l: int, bb: int|
                1 <= l < h && 0 <= bb < Z && is_live(#[trigger] path_slot(stash@, l, bb)) implies legal_depth(path_slot(stash@, l, bb), pos) >= l by {
                if l < h - 1 {
                    assert(path_slot(stash@, l, bb) == path_slot(stash_start, l, bb));
                }
            }
        }
    }
}

impl<V: Cmov + Copy + Default> CircuitORAM<V> {
    /// One eviction along path `pos` (Alg. 4, EvictOnceFast, of the Circuit ORAM paper)
    /// on the path held at the end of the stash: each block is moved as deep along the
    /// path as it may go, with a data-independent access pattern. Only the stash changes.
    ///
    /// No block is lost, the stash proper and the root bucket only give blocks up, blocks
    /// stay on their paths, and whenever a block there may go down to a level with an
    /// empty slot, one of them leaves.
    pub fn evict_once_fast(&mut self, pos: PositionType)
        requires
            old(self).wf(),
        ensures
            final(self).wf(),
            final(self).tree == old(self).tree,
            final(self).h == old(self).h,
            final(self).max_n == old(self).max_n,
            final(self).evict_counter == old(self).evict_counter,
            final(self).stash@.len() == old(self).stash@.len(),
            live_blocks(final(self).stash@) == live_blocks(old(self).stash@),
            path_legal(old(self).stash@, pos, old(self).h as int) ==> path_legal(final(self).stash@, pos, old(self).h as int),
            forall|k: int| 0 <= k < S + Z ==> final(self).stash@[k] == old(self).stash@[k] || !is_live(#[trigger] final(self).stash@[k]),
            can_sink(old(self).stash@, pos, old(self).h as int) ==> exists|j: int|
                0 <= j < S + Z && is_live(old(self).stash@[j]) && !is_live(#[trigger] final(self).stash@[j]),
    {
        let h = self.h;
        let ghost s0 = self.stash@;
        let (deepest, deepest_idx, has_empty) = prepare_deepest(&self.stash, pos, h);
        let target = prepare_target(&deepest, &deepest_idx, &has_empty, &self.stash, pos, h);
        proof {
            if can_sink(s0, pos, h as int) {
                let (j, l) = choose|j: int, l: int|
                    0 <= j < S + Z && 1 <= l < h && is_live(#[trigger] s0[j]) && legal_depth(s0[j], pos) >= l && #[trigger] level_has_empty(s0, l);
                assert(is_live(s0[j]));
                assert(deepest_idx_ok(deepest_idx@, s0, 0));
                assert(has_empty@[l]);
                assert(target@[0] != -1);
            }
        }
        evict_move_blocks(&mut self.stash, &target, &deepest_idx, &has_empty, pos, h);
        proof {
            if can_sink(s0, pos, h as int) {
                let j = deepest_idx@[0] as int;
                assert(is_live(s0[j]) && !is_live(self.stash@[j]));
            }
        }
    }
}

impl<V: Cmov + Copy + Default> CircuitORAM<V> {
    /// Reads a path, performs one eviction on it and writes it back: the ORAM keeps the
    /// same blocks, each on its path.
    fn perform_eviction(&mut self, pos: PositionType)
        requires
            old(self).wf(),
        ensures
            final(self).wf(),
            final(self).h == old(self).h,
            final(self).max_n == old(self).max_n,
            final(self).evict_counter == old(self).evict_counter,
            old(self).valid() ==> final(self).valid() && oram_blocks(*final(self)) == oram_blocks(*old(self)),
    {
        let ghost o = *self;
        self.read_path_and_get_nodes(pos);
        proof {
            lemma_tree_live_path(o.tree.tree@, o.h as nat, pos);
            lemma_live_blocks_concat(o.stash@.subrange(0, S as int), path_blocks(o.tree.tree@, o.h as int, pos as int));
            if o.valid() {
                lemma_read_path_legal(o.tree.tree@, o.h as nat, pos, o.stash@.subrange(0, S as int));
            }
        }
        let ghost s0 = self.stash@;
        self.evict_once_fast(pos);
        let ghost s = self.stash@;
        self.write_back_path(pos);
        proof {
            if o.valid() {
                lemma_finish_write_back(o, s, *self, pos);
                assert(live_blocks(s0).add(tree_live_in(o.tree.tree@, off_path(o.h as int, pos as int))) =~= oram_blocks(o));
                assert(oram_blocks(*self) =~= oram_blocks(o));
            }
        }
    }

    /// Deterministic evictions (Alg. 6 of the Circuit ORAM paper): evicts along the next
    /// paths in counter order, wrapping around after the last leaf. The ORAM keeps the same
    /// blocks, and the counter moves on by the number of evictions.
    pub fn perform_deterministic_evictions(&mut self)
        requires
            old(self).wf(),
        ensures
            final(self).wf(),
            final(self).h == old(self).h,
            final(self).max_n == old(self).max_n,
            final(self).evict_counter == (old(self).evict_counter + EVICTIONS_PER_OP) % (old(self).max_n as int),
            old(self).valid() ==> final(self).valid() && oram_blocks(*final(self)) == oram_blocks(*old(self)),
    {
        proof {
            vstd::arithmetic::power2::lemma2_to64();
            if self.h - 1 > 1 {
                vstd::arithmetic::power2::lemma_pow2_strictly_increases(1, (self.h - 1) as nat);
            }
            assert(self.max_n >= 2);
            vstd::arithmetic::div_mod::lemma_small_mod(self.evict_counter as nat, self.max_n as nat);
        }
        let mut e: usize = 0;
        while e < EVICTIONS_PER_OP
            invariant
                self.wf(),
                self.h == old(self).h,
                self.max_n == old(self).max_n,
                self.max_n >= 2,
                e <= EVICTIONS_PER_OP,
                self.evict_counter == (old(self).evict_counter + e) % (old(self).max_n as int),
                old(self).valid() ==> self.valid() && oram_blocks(*self) == oram_blocks(*old(self)),
            decreases EVICTIONS_PER_OP - e,
        {
            let evict_pos = self.evict_counter;
            self.perform_eviction(evict_pos);
            proof {
                vstd::arithmetic::div_mod::lemma_add_mod_noop(
                    old(self).evict_counter + e,
                    1,
                    old(self).max_n as int,
                );
                vstd::arithmetic::div_mod::lemma_small_mod(1, self.max_n as nat);
                vstd::arithmetic::div_mod::lemma_mod_twice(old(self).evict_counter + e + 1, old(self).max_n as int);
            }
            self.evict_counter = (self.evict_counter + 1) % self.max_n;
            e += 1;
        }
    }

    /// Stores `to_write` in the first empty slot of the stash proper, if there is one, then
    /// evicts along the path `pos`, writes the path back and runs the deterministic
    /// evictions.
    fn finish_access(&mut self, pos: PositionType, to_write: &Block<V>) -> (room: bool)
        requires
            old(self).wf(),
        ensures
            final(self).wf(),
            final(self).h == old(self).h,
            final(self).max_n == old(self).max_n,
            room == (exists|i: int| 0 <= i < S && !is_live(#[trigger] old(self).stash@[i])),
            mid_ok(*old(self), pos, *to_write) ==> final(self).valid() && oram_blocks(*final(self)) == mid_blocks(*old(self), pos).add(
                if room {
                    live_one(*to_write)
                } else {
                    Multiset::empty()
                },
            ),
    {
        let ghost o = *self;
        let room = write_to_stash(&mut self.stash, to_write);
        let ghost s0 = self.stash@;
        proof {
            let proper = o.stash@.subrange(0, S as int);
            if exists|i: int| 0 <= i < S && !is_live(#[trigger] o.stash@[i]) {
                let i = choose|i: int| 0 <= i < S && !is_live(#[trigger] o.stash@[i]);
                assert(proper[i].pos == DUMMY_POS);
                crate::oram::block_sets::lemma_first_empty_exists(proper, i);
            }
            if room {
                let i = choose|i: int| is_first_empty(proper, i) && s0.subrange(0, S as int) == proper.update(i, *to_write);
                let len = o.stash@.len() as int;
                assert forall|k: int| 0 <= k < len implies #[trigger] s0[k] == o.stash@.update(i, *to_write)[k] by {
                    if k < S {
                        assert(s0.subrange(0, S as int)[k] == s0[k]);
                        assert(proper[k] == o.stash@[k]);
                    } else {
                        assert(s0.subrange(S as int, len)[k - S] == s0[k]);
                        assert(o.stash@.subrange(S as int, len)[k - S] == o.stash@[k]);
                    }
                }
                assert(s0 =~= o.stash@.update(i, *to_write));
                lemma_live_blocks_update(o.stash@, i, *to_write);
                assert(live_one(o.stash@[i]) =~= Multiset::empty());
                assert(live_blocks(s0) =~= live_blocks(o.stash@).add(live_one(*to_write)));
                assert forall|l: int, b: int| 1 <= l < o.h && 0 <= b < Z implies #[trigger] path_slot(s0, l, b) == path_slot(o.stash@, l, b) by {}
            } else {
                assert(s0 =~= o.stash@);
                assert(live_blocks(s0) =~= live_blocks(o.stash@).add(Multiset::empty()));
            }
            if mid_ok(o, pos, *to_write) {
                lemma_keys_unique_add(mid_blocks(o, pos), *to_write);
                if !room {
                    assert(mid_blocks(o, pos).add(Multiset::empty()) =~= mid_blocks(o, pos));
                }
            }
        }
        self.evict_once_fast(pos);
        let ghost s = self.stash@;
        self.write_back_path(pos);
        proof {
            if mid_ok(o, pos, *to_write) {
                lemma_finish_write_back(o, s, *self, pos);
                assert(oram_blocks(*self) =~= mid_blocks(o, pos).add(
                    if room {
                        live_one(*to_write)
                    } else {
                        Multiset::empty()
                    },
                ));
                if !room {
                    assert(mid_blocks(o, pos).add(Multiset::empty()) =~= mid_blocks(o, pos));
                }
            }
        }
        self.perform_deterministic_evictions();
        room
    }

    /// Reads the value of `key`, whose block is mapped to path `pos`, and remaps the block
    /// to `new_pos`. Returns whether the key was found among the blocks of the stash and
    /// of path `pos`; `ret` receives its value when found and is untouched otherwise.
    ///
    /// On a valid ORAM in which `key`, if present, is mapped to `pos`: the result says
    /// whether the ORAM holds `key`, `ret` receives its value, and the key is remapped to
    /// `new_pos`; it is dropped only if the stash proper has no room for it.
    pub fn read(&mut self, pos: PositionType, new_pos: PositionType, key: K, ret: &mut V) -> (found: bool)
        requires
            old(self).wf(),
        ensures
            final(self).wf(),
            final(self).h == old(self).h,
            final(self).max_n == old(self).max_n,
            found == has_key(scan_view(*old(self), pos as int), key),
            *final(ret) == last_value(scan_view(*old(self), pos as int), key, *old(ret)),
            access_pre(*old(self), pos, key, new_pos) ==> {
                &&& final(self).valid()
                &&& found == old(self).contents().contains_key(key)
                &&& found ==> *final(ret) == old(self).contents()[key].1
                &&& !found ==> *final(ret) == *old(ret) && final(self).contents() == old(self).contents()
                &&& found ==> final(self).contents() == (if stash_room(*old(self), key) {
                    old(self).contents().insert(key, (new_pos, old(self).contents()[key].1))
                } else {
                    old(self).contents().remove(key)
                })
            },
            access_ok(*old(self), pos, key) && new_pos == DUMMY_POS ==> {
                &&& final(self).valid()
                &&& found == old(self).contents().contains_key(key)
                &&& found ==> *final(ret) == old(self).contents()[key].1
                &&& !found ==> *final(ret) == *old(ret)
                &&& final(self).contents() == old(self).contents().remove(key)
            },
    {
        let ghost o = *self;
        self.read_path_and_get_nodes(pos);
        let ghost s1 = self.stash@;
        let found = read_and_remove_element(self.stash.as_mut_slice(), key, ret);
        proof {
            if access_ok(o, pos, key) {
                lemma_access_front(o, pos, key, s1);
                if found {
                    let j = choose|j: int| 0 <= j < s1.len() && block_matches(s1[j], key);
                    let x = s1[j];
                    crate::oram::block_sets::lemma_last_value_unique(s1, key, x, *old(ret));
                } else {
                    crate::oram::block_sets::lemma_last_value_absent(s1, key, *old(ret));
                }
            }
        }
        let mut to_write = Block { pos: new_pos, key, value: *ret };
        to_write.pos.cmov(&DUMMY_POS, !found);
        let ghost o2 = *self;
        proof {
            if access_ok(o, pos, key) {
                lemma_after_remove(o, pos, key, o2, to_write);
            }
        }
        let room = self.finish_access(pos, &to_write);
        proof {
            if access_ok(o, pos, key) && new_pos == DUMMY_POS {
                lemma_contents_update(oram_blocks(o), mid_blocks(o2, pos), key, to_write, false);
                if room {
                    assert(live_one(to_write) =~= Multiset::empty());
                }
                assert(mid_blocks(o2, pos).add(Multiset::empty()) =~= mid_blocks(o2, pos));
            }
            if access_pre(o, pos, key, new_pos) {
                lemma_contents_update(oram_blocks(o), mid_blocks(o2, pos), key, to_write, found && room);
                if !(found && room) {
                    if room {
                        assert(live_one(to_write) =~= Multiset::empty());
                    }
                    assert(!o.contents().contains_key(key) ==> o.contents().remove(key) =~= o.contents());
                }
                assert(self.valid());
                assert(found == o.contents().contains_key(key));
                assert(found ==> *ret == o.contents()[key].1);
                assert(!found ==> *ret == *old(ret));
                assert(!found ==> self.contents() == o.contents());
                assert(found ==> self.contents() == (if stash_room(o, key) {
                    o.contents().insert(key, (new_pos, o.contents()[key].1))
                } else {
                    o.contents().remove(key)
                }));
            }
        }
        found
    }

    /// Writes `val` under `key`, whose block is mapped to path `pos`, if the key is
    /// present, remapping it to `new_pos`. Returns whether the key was found among the
    /// blocks of the stash and of path `pos`.
    ///
    /// On a valid ORAM in which `key`, if present, is mapped to `pos`: the result says
    /// whether the ORAM holds `key`; if it does, the key now holds `val` mapped to `new_pos`,
    /// unless the stash proper has no room for it, in which case it is dropped.
    pub fn write(&mut self, pos: PositionType, new_pos: PositionType, key: K, val: V) -> (found: bool)
        requires
            old(self).wf(),
        ensures
            final(self).wf(),
            final(self).h == old(self).h,
            final(self).max_n == old(self).max_n,
            found == has_key(scan_view(*old(self), pos as int), key),
            access_pre(*old(self), pos, key, new_pos) ==> {
                &&& final(self).valid()
                &&& found == old(self).contents().contains_key(key)
                &&& !found ==> final(self).contents() == old(self).contents()
                &&& found ==> final(self).contents() == (if stash_room(*old(self), key) {
                    old(self).contents().insert(key, (new_pos, val))
                } else {
                    old(self).contents().remove(key)
                })
            },
    {
        let ghost o = *self;
        self.read_path_and_get_nodes(pos);
        let ghost s1 = self.stash@;
        let found = remove_element(self.stash.as_mut_slice(), key);
        proof {
            if access_pre(o, pos, key, new_pos) {
                lemma_access_front(o, pos, key, s1);
            }
        }
        let mut target_pos = DUMMY_POS;
        target_pos.cmov(&new_pos, found);
        let to_write = Block { pos: target_pos, key, value: val };
        let ghost o2 = *self;
        proof {
            if access_pre(o, pos, key, new_pos) {
                lemma_after_remove(o, pos, key, o2, to_write);
            }
        }
        let room = self.finish_access(pos, &to_write);
        proof {
            if access_pre(o, pos, key, new_pos) {
                lemma_contents_update(oram_blocks(o), mid_blocks(o2, pos), key, to_write, found && room);
                if !(found && room) {
                    if room {
                        assert(live_one(to_write) =~= Multiset::empty());
                    }
                    assert(!o.contents().contains_key(key) ==> o.contents().remove(key) =~= o.contents());
                }
            }
        }
        found
    }

    /// Writes `val` under `key`, whose block is mapped to path `pos`, inserting the key if
    /// it is not present, and maps the block to `new_pos`. Returns whether the key was
    /// found among the blocks of the stash and of path `pos`.
    ///
    /// On a valid ORAM in which `key`, if present, is mapped to `pos`: the result says
    /// whether the ORAM held `key`, and the key now holds `val` mapped to `new_pos`, unless
    /// the stash proper has no room for it, in which case it is dropped.
    pub fn write_or_insert(&mut self, pos: PositionType, new_pos: PositionType, key: K, val: V) -> (found: bool)
        requires
            old(self).wf(),
        ensures
            final(self).wf(),
            final(self).h == old(self).h,
            final(self).max_n == old(self).max_n,
            found == has_key(scan_view(*old(self), pos as int), key),
            access_pre(*old(self), pos, key, new_pos) ==> {
                &&& final(self).valid()
                &&& found == old(self).contents().contains_key(key)
                &&& final(self).contents() == (if stash_room(*old(self), key) {
                    old(self).contents().insert(key, (new_pos, val))
                } else {
                    old(self).contents().remove(key)
                })
            },
            access_ok(*old(self), pos, key) && new_pos == DUMMY_POS ==> {
                &&& final(self).valid()
                &&& found == old(self).contents().contains_key(key)
                &&& final(self).contents() == old(self).contents().remove(key)
            },
    {
        let ghost o = *self;
        self.read_path_and_get_nodes(pos);
        let ghost s1 = self.stash@;
        let found = remove_element(self.stash.as_mut_slice(), key);
        proof {
            if access_ok(o, pos, key) {
                lemma_access_front(o, pos, key, s1);
            }
        }
        let to_write = Block { pos: new_pos, key, value: val };
        let ghost o2 = *self;
        proof {
            if access_ok(o, pos, key) {
                lemma_after_remove(o, pos, key, o2, to_write);
            }
        }
        let room = self.finish_access(pos, &to_write);
        proof {
            if access_ok(o, pos, key) && new_pos == DUMMY_POS {
                lemma_contents_update(oram_blocks(o), mid_blocks(o2, pos), key, to_write, false);
                if room {
                    assert(live_one(to_write) =~= Multiset::empty());
                }
                assert(mid_blocks(o2, pos).add(Multiset::empty()) =~= mid_blocks(o2, pos));
            }
            if access_pre(o, pos, key, new_pos) {
                lemma_contents_update(oram_blocks(o), mid_blocks(o2, pos), key, to_write, room);
            }
        }
        found
    }

    /// Applies `update_func` to the value of `key`, whose block is mapped to path `pos`
    /// (to `V::default()` when the key is absent, which inserts it), and maps the block to
    /// `new_pos`. Returns whether the key was found among the blocks of the stash and of
    /// path `pos`, and what `update_func` returned.
    ///
    /// On a valid ORAM in which `key`, if present, is mapped to `pos`: the result says
    /// whether the ORAM held `key`, and the key now holds some value mapped to `new_pos`,
    /// unless the stash proper has no room for it, in which case it is dropped.
    pub fn update<T, F: FnOnce(&mut V) -> T>(&mut self, pos: PositionType, new_pos: PositionType, key: K, update_func: F) -> (r: (bool, T))
        requires
            old(self).wf(),
            forall|x: &mut V| update_func.requires((x,)),
        ensures
            final(self).wf(),
            final(self).h == old(self).h,
            final(self).max_n == old(self).max_n,
            r.0 == has_key(scan_view(*old(self), pos as int), key),
            access_pre(*old(self), pos, key, new_pos) ==> final(self).valid(),
            access_pre(*old(self), pos, key, new_pos) ==> r.0 == old(self).contents().contains_key(key),
            access_pre(*old(self), pos, key, new_pos) ==> {
                &&& exists|x: &mut V|
                    #![trigger update_func.ensures((x,), r.1)]
                    {
                        &&& r.0 ==> *x == old(self).contents()[key].1
                        &&& update_func.ensures((x,), r.1)
                        &&& final(self).contents() == (if stash_room(*old(self), key) {
                            old(self).contents().insert(key, (new_pos, *final(x)))
                        } else {
                            old(self).contents().remove(key)
                        })
                    }
            },
    {
        let ghost o = *self;
        self.read_path_and_get_nodes(pos);
        let ghost s1 = self.stash@;
        let mut val = V::default();
        let ghost val0 = val;
        let found = read_and_remove_element(self.stash.as_mut_slice(), key, &mut val);
        proof {
            if access_pre(o, pos, key, new_pos) {
                lemma_access_front(o, pos, key, s1);
                if found {
                    let j = choose|j: int| 0 <= j < s1.len() && block_matches(s1[j], key);
                    crate::oram::block_sets::lemma_last_value_unique(s1, key, s1[j], val0);
                }
            }
        }
        let ghost val1 = val;
        let rv = update_func(&mut val);
        let ghost xw = choose|x: &mut V| #![trigger update_func.ensures((x,), rv)] *x == val1 && *final(x) == val && update_func.ensures((x,), rv);
        assert(*xw == val1 && *final(xw) == val && update_func.ensures((xw,), rv));
        let to_write = Block { pos: new_pos, key, value: val };
        let ghost o2 = *self;
        proof {
            if access_pre(o, pos, key, new_pos) {
                lemma_after_remove(o, pos, key, o2, to_write);
            }
        }
        let room = self.finish_access(pos, &to_write);
        let r = (found, rv);
        proof {
            if access_pre(o, pos, key, new_pos) {
                lemma_contents_update(oram_blocks(o), mid_blocks(o2, pos), key, to_write, room);
                assert(self.contents() == (if stash_room(o, key) {
                    o.contents().insert(key, (new_pos, to_write.value))
                } else {
                    o.contents().remove(key)
                }));
                assert(self.valid());
                assert(found == o.contents().contains_key(key));
                assert(found ==> *xw == o.contents()[key].1);
                assert(self.contents() == (if stash_room(o, key) {
                    o.contents().insert(key, (new_pos, *final(xw)))
                } else {
                    o.contents().remove(key)
                }));
                assert(update_func.ensures((xw,), r.1));
                assert(exists|x: &mut V|
                    #![trigger update_func.ensures((x,), r.1)]
                    {
                        &&& r.0 ==> *x == o.contents()[key].1
                        &&& update_func.ensures((x,), r.1)
                        &&& self.contents() == (if stash_room(o, key) {
                            o.contents().insert(key, (new_pos, *final(x)))
                        } else {
                            o.contents().remove(key)
                        })
                    });
            }
        }
        r
    }

    /// Creates a `CircuitORAM` for `max_n` blocks holding `values[i]` under `keys[i]`,
    /// mapped to `positions[i]`.
    ///
    /// With distinct keys and real positions, the ORAM is valid and every key it holds is
    /// one of `keys`, with its value and position; a key is missing only when the stash
    /// proper had no room for it.
    pub fn new_with_positions_and_values(max_n: usize, keys: &[K], values: &[V], positions: &[PositionType]) -> (r: Self)
        requires
            1 < max_n < 0x2_0000_0000,
            max_n <= usize::MAX / 4,
            keys@.len() == values@.len(),
            keys@.len() == positions@.len(),
            keys@.len() <= max_n,
        ensures
            r.wf(),
            r.max_n == pow2_above(max_n - 1),
            initial_inputs_ok(keys@, positions@) ==> r.valid() && held_from_inputs(
                r.contents(),
                keys@,
                values@,
                positions@,
                keys@.len() as int,
            ),
    {
        let mut oram = Self::new(max_n);
        let n = keys.len();
        let mut i: usize = 0;
        while i < n
            invariant
                oram.wf(),
                oram.max_n == pow2_above(max_n - 1),
                n == keys@.len(),
                n == values@.len(),
                n == positions@.len(),
                i <= n,
                initial_inputs_ok(keys@, positions@) ==> oram.valid() && held_from_inputs(
                    oram.contents(),
                    keys@,
                    values@,
                    positions@,
                    i as int,
                ),
            decreases n - i,
        {
            let ghost o = oram;
            oram.write_or_insert(i as PositionType, positions[i], keys[i], values[i]);
            proof {
                if initial_inputs_ok(keys@, positions@) {
                    let k = keys@[i as int];
                    if o.contents().contains_key(k) {
                        let j = choose|j: int| 0 <= j < i && keys@[j] == k && o.contents()[k] == (positions@[j], values@[j]);
                        assert(keys@[j] == keys@[i as int]);
                    }
                    assert(access_pre(o, i as PositionType, k, positions@[i as int]));
                    let c = oram.contents();
                    assert forall|x: K| #[trigger] c.contains_key(x) implies exists|j: int|
                        0 <= j < i + 1 && keys@[j] == x && c[x] == (positions@[j], values@[j]) by {
                        if x == k {
                            assert(keys@[i as int] == x);
                        } else {
                            let j = choose|j: int| 0 <= j < i && keys@[j] == x && o.contents()[x] == (positions@[j], values@[j]);
                            assert(keys@[j] == x);
                        }
                    }
                }
            }
            i += 1;
        }
        proof {
            if initial_inputs_ok(keys@, positions@) {
                assert(held_from_inputs(oram.contents(), keys@, values@, positions@, n as int));
            }
        }
        oram
    }
}

} // verus!
