//! The live blocks of an ORAM tree and of its paths, counted as multisets, and where a
//! block may sit in the tree.
use vstd::prelude::*;
use vstd::multiset::Multiset;
use vstd::arithmetic::power2::pow2;
use vstd::std_specs::bits::u64_trailing_zeros;
use crate::oram::circuit_oram::{Block, Bucket, is_live, live_one, live_blocks, path_blocks, on_path, write_path_spec, legal_depth, path_legal, path_slot, remove_key, block_matches, has_key, last_value, is_first_empty, S, Z};
use crate::oram::heap_tree::{node_index, tree_size, lemma_node_index_bounds};
use crate::oram::prelude::{PositionType, K, DUMMY_POS};

verus! {

/// The live blocks of a bucket.
pub open spec fn bucket_live<V>(b: Bucket<V>) -> Multiset<Block<V>> {
    live_one(b.0@[0]).add(live_one(b.0@[1]))
}

/// The live blocks of the nodes `n < nodes.len()` with `sel(n)`.
pub open spec fn tree_live_in<V>(nodes: Seq<Bucket<V>>, sel: spec_fn(int) -> bool) -> Multiset<Block<V>>
    decreases nodes.len(),
{
    if nodes.len() == 0 {
        Multiset::empty()
    } else {
        tree_live_in(nodes.drop_last(), sel).add(
            if sel(nodes.len() - 1) {
                bucket_live(nodes.last())
            } else {
                Multiset::empty()
            },
        )
    }
}

/// The live blocks of all the nodes.
pub open spec fn tree_live<V>(nodes: Seq<Bucket<V>>) -> Multiset<Block<V>> {
    tree_live_in(nodes, |n: int| true)
}

/// The nodes off the path `pos` of a tree of height `h`.
pub open spec fn off_path(h: int, pos: int) -> spec_fn(int) -> bool {
    |n: int| !on_path(n, h, pos)
}

/// The nodes of the path `pos` above depth `d`.
pub open spec fn path_upto(d: int, pos: int) -> spec_fn(int) -> bool {
    |n: int| exists|e: int| 0 <= e < d && n == #[trigger] node_index(e, pos)
}

/// The live blocks of `a + b` are those of `a` and those of `b`.
pub proof fn lemma_live_blocks_concat<V>(a: Seq<Block<V>>, b: Seq<Block<V>>)
    ensures
        live_blocks(a + b) == live_blocks(a).add(live_blocks(b)),
    decreases b.len(),
{
    if b.len() == 0 {
        assert(a + b =~= a);
        assert(live_blocks(a).add(live_blocks(b)) =~= live_blocks(a));
    } else {
        assert((a + b).drop_last() =~= a + b.drop_last());
        lemma_live_blocks_concat(a, b.drop_last());
        assert(live_blocks(a + b) =~= live_blocks(a).add(live_blocks(b)));
    }
}

/// Selections that agree on the nodes count the same blocks.
pub proof fn lemma_tree_live_in_ext<V>(nodes: Seq<Bucket<V>>, p: spec_fn(int) -> bool, q: spec_fn(int) -> bool)
    requires
        forall|n: int| 0 <= n < nodes.len() ==> #[trigger] p(n) == q(n),
    ensures
        tree_live_in(nodes, p) == tree_live_in(nodes, q),
    decreases nodes.len(),
{
    if nodes.len() > 0 {
        lemma_tree_live_in_ext(nodes.drop_last(), p, q);
    }
}

/// Selecting one more node adds its live blocks.
pub proof fn lemma_tree_live_in_add<V>(nodes: Seq<Bucket<V>>, p: spec_fn(int) -> bool, j: int)
    requires
        0 <= j < nodes.len(),
        !p(j),
    ensures
        tree_live_in(nodes, |n: int| p(n) || n == j) == tree_live_in(nodes, p).add(bucket_live(nodes[j])),
    decreases nodes.len(),
{
    let q = |n: int| p(n) || n == j;
    if j == nodes.len() - 1 {
        lemma_tree_live_in_ext(nodes.drop_last(), q, p);
        assert(tree_live_in(nodes, q) =~= tree_live_in(nodes, p).add(bucket_live(nodes[j])));
    } else {
        lemma_tree_live_in_add(nodes.drop_last(), p, j);
        assert(tree_live_in(nodes, q) =~= tree_live_in(nodes, p).add(bucket_live(nodes[j])));
    }
}

/// A selection and its complement together count all the live blocks.
pub proof fn lemma_tree_live_in_split<V>(nodes: Seq<Bucket<V>>, p: spec_fn(int) -> bool)
    ensures
        tree_live_in(nodes, p).add(tree_live_in(nodes, |n: int| !p(n))) == tree_live(nodes),
    decreases nodes.len(),
{
    if nodes.len() > 0 {
        lemma_tree_live_in_split(nodes.drop_last(), p);
        assert(tree_live_in(nodes, p).add(tree_live_in(nodes, |n: int| !p(n))) =~= tree_live(nodes));
    } else {
        assert(tree_live_in(nodes, p).add(tree_live_in(nodes, |n: int| !p(n))) =~= tree_live(nodes));
    }
}

/// The live blocks of a bucket are those of its two slots.
proof fn lemma_bucket_live_seq<V>(b: Bucket<V>)
    ensures
        live_blocks(seq![b.0@[0], b.0@[1]]) == bucket_live(b),
{
    let s = seq![b.0@[0], b.0@[1]];
    let s1 = seq![b.0@[0]];
    assert(s.drop_last() =~= s1);
    assert(s1.drop_last() =~= Seq::<Block<V>>::empty());
    assert(live_blocks(s1) == live_blocks(Seq::<Block<V>>::empty()).add(live_one(b.0@[0])));
    assert(live_blocks(s1) =~= live_one(b.0@[0]));
    assert(live_blocks(s) == live_blocks(s1).add(live_one(b.0@[1])));
    assert(live_blocks(s) =~= bucket_live(b));
}

/// The nodes of the path above depth `d` hold the live blocks of the first `d` levels of
/// the path.
proof fn lemma_path_upto<V>(nodes: Seq<Bucket<V>>, h: nat, pos: PositionType, d: int)
    requires
        nodes.len() == tree_size(h),
        0 <= d <= h,
    ensures
        tree_live_in(nodes, path_upto(d, pos as int)) == live_blocks(path_blocks(nodes, d, pos as int)),
    decreases d,
{
    if d == 0 {
        lemma_tree_live_in_ext(nodes, path_upto(0, pos as int), |n: int| false);
        lemma_tree_live_in_none(nodes);
        assert(path_blocks(nodes, 0, pos as int) =~= Seq::<Block<V>>::empty());
    } else {
        lemma_path_upto(nodes, h, pos, d - 1);
        let j = node_index(d - 1, pos as int);
        lemma_node_index_bounds(d - 1, pos as int, h);
        vstd::arithmetic::power2::lemma_pow2_pos((d - 1) as nat);
        assert(0 <= j < nodes.len());
        let p = path_upto(d - 1, pos as int);
        assert(!p(j)) by {
            if p(j) {
                let e = choose|e: int| 0 <= e < d - 1 && j == #[trigger] node_index(e, pos as int);
                crate::oram::circuit_oram::lemma_path_nodes_distinct(e, d - 1, pos as int, h);
            }
        }
        lemma_tree_live_in_add(nodes, p, j);
        lemma_tree_live_in_ext(nodes, |n: int| p(n) || n == j, path_upto(d, pos as int));
        let prev = path_blocks(nodes, d - 1, pos as int);
        let last2 = seq![nodes[j].0@[0], nodes[j].0@[1]];
        assert(path_blocks(nodes, d, pos as int) =~= prev + last2);
        lemma_live_blocks_concat(prev, last2);
        lemma_bucket_live_seq(nodes[j]);
    }
}

/// Selecting nothing counts nothing.
proof fn lemma_tree_live_in_none<V>(nodes: Seq<Bucket<V>>)
    ensures
        tree_live_in(nodes, |n: int| false) == Multiset::<Block<V>>::empty(),
    decreases nodes.len(),
{
    if nodes.len() > 0 {
        lemma_tree_live_in_none(nodes.drop_last());
        assert(tree_live_in(nodes, |n: int| false) =~= Multiset::<Block<V>>::empty());
    }
}

/// The live blocks of the tree are those off the path `pos` and those read along it.
pub proof fn lemma_tree_live_path<V>(nodes: Seq<Bucket<V>>, h: nat, pos: PositionType)
    requires
        nodes.len() == tree_size(h),
    ensures
        tree_live(nodes) == tree_live_in(nodes, off_path(h as int, pos as int)).add(
            live_blocks(path_blocks(nodes, h as int, pos as int)),
        ),
{
    lemma_path_upto(nodes, h, pos, h as int);
    let p = path_upto(h as int, pos as int);
    lemma_tree_live_in_split(nodes, p);
    lemma_tree_live_in_ext(nodes, |n: int| !p(n), off_path(h as int, pos as int));
    assert(tree_live(nodes) =~= tree_live_in(nodes, off_path(h as int, pos as int)).add(
        live_blocks(path_blocks(nodes, h as int, pos as int)),
    ));
}

/// Writing blocks back along the path `pos` keeps the nodes off the path, and the path
/// reads back what was written.
pub proof fn lemma_write_path<V>(nodes: Seq<Bucket<V>>, h: nat, pos: PositionType, blocks: Seq<Block<V>>)
    requires
        nodes.len() == tree_size(h),
        blocks.len() == 2 * h,
    ensures
        write_path_spec(nodes, h as int, pos as int, blocks).len() == nodes.len(),
        path_blocks(write_path_spec(nodes, h as int, pos as int, blocks), h as int, pos as int) == blocks,
        tree_live(write_path_spec(nodes, h as int, pos as int, blocks)) == tree_live_in(nodes, off_path(h as int, pos as int)).add(
            live_blocks(blocks),
        ),
{
    let w = write_path_spec(nodes, h as int, pos as int, blocks);
    assert forall|k: int| 0 <= k < 2 * h implies #[trigger] path_blocks(w, h as int, pos as int)[k] == blocks[k] by {
        let d = k / 2;
        let height = h as int;
        let path = pos as int;
        let idx = node_index(d, path);
        lemma_node_index_bounds(d, path, h);
        vstd::arithmetic::power2::lemma_pow2_pos(d as nat);
        assert(on_path(idx, height, path));
        let dd = choose|d: int| 0 <= d < height && idx == #[trigger] node_index(d, path);
        if dd != d {
            crate::oram::circuit_oram::lemma_path_nodes_distinct(dd, d, pos as int, h);
        }
        assert(w[idx] == Bucket([blocks[2 * d], blocks[2 * d + 1]]));
        if k % 2 == 0 {
            assert(k == 2 * d);
            assert(w[idx].0@[0] == blocks[2 * d]);
        } else {
            assert(k == 2 * d + 1);
            assert(w[idx].0@[1] == blocks[2 * d + 1]);
        }
    }
    assert(path_blocks(w, h as int, pos as int) =~= blocks);
    lemma_tree_live_path(w, h, pos);
    lemma_tree_live_in_ext(w, off_path(h as int, pos as int), off_path(h as int, pos as int));
    lemma_tree_live_in_same_off(nodes, w, h, pos);
}

/// Nodes that agree off the path count the same blocks off the path.
proof fn lemma_tree_live_in_same_off<V>(nodes: Seq<Bucket<V>>, w: Seq<Bucket<V>>, h: nat, pos: PositionType)
    requires
        w.len() == nodes.len(),
        forall|n: int| 0 <= n < nodes.len() && !on_path(n, h as int, pos as int) ==> w[n] == nodes[n],
    ensures
        tree_live_in(w, off_path(h as int, pos as int)) == tree_live_in(nodes, off_path(h as int, pos as int)),
    decreases nodes.len(),
{
    if nodes.len() > 0 {
        lemma_tree_live_in_same_off(nodes.drop_last(), w.drop_last(), h, pos);
    }
}

/// A block that may go to depth `l` along the path `pos` lies, at depth `l`, on the node
/// of that path.
pub proof fn lemma_legal_depth_node<V>(b: Block<V>, pos: PositionType, l: int)
    requires
        0 <= l < 64,
        legal_depth(b, pos) >= l,
    ensures
        node_index(l, b.pos as int) == node_index(l, pos as int),
{
    let bp: usize = b.pos;
    let x = (bp ^ pos) as u64;
    vstd::std_specs::bits::axiom_u64_trailing_zeros(x);
    let tz = u64_trailing_zeros(x);
    let lu = l as u64;
    if tz < 64 {
        assert(x << ((64 - tz) as u64) == 0);
        assert(x << ((64 - lu) as u64) == 0 || lu == 0) by (bit_vector)
            requires
                x << ((64 - tz) as u64) == 0,
                lu <= tz,
                tz < 64,
        ;
    } else {
        assert(x == 0);
    }
    let a = bp as u64;
    let c = pos as u64;
    assert(x == a ^ c) by (bit_vector)
        requires
            x == (bp ^ pos) as u64,
            a == bp as u64,
            c == pos as u64,
    ;
    assert(a & (((1u64 << lu) - 1) as u64) == c & (((1u64 << lu) - 1) as u64)) by (bit_vector)
        requires
            x == a ^ c,
            lu < 64,
            x << ((64 - lu) as u64) == 0 || lu == 0 || x == 0,
    ;
    vstd::bits::lemma_u64_pow2_no_overflow(l as nat);
    vstd::bits::lemma_u64_shl_is_mul(1, lu);
    vstd::bits::lemma_u64_low_bits_mask_is_mod(a, l as nat);
    vstd::bits::lemma_u64_low_bits_mask_is_mod(c, l as nat);
    vstd::arithmetic::power2::lemma_pow2_pos(l as nat);
    assert((((1u64 << lu) - 1) as u64) == vstd::bits::low_bits_mask(l as nat) as u64);
    assert(a % (pow2(l as nat) as u64) == c % (pow2(l as nat) as u64));
}

/// A block counted among the live blocks of `s` is a live block of some slot.
pub proof fn lemma_live_blocks_member<V>(s: Seq<Block<V>>, x: Block<V>)
    ensures
        live_blocks(s).count(x) > 0 <==> exists|i: int| 0 <= i < s.len() && s[i] == x && is_live(x),
    decreases s.len(),
{
    if s.len() > 0 {
        lemma_live_blocks_member(s.drop_last(), x);
        if exists|i: int| 0 <= i < s.len() && s[i] == x && is_live(x) {
            let i = choose|i: int| 0 <= i < s.len() && s[i] == x && is_live(x);
            if i < s.len() - 1 {
                assert(s.drop_last()[i] == x);
            }
        }
        if exists|i: int| 0 <= i < s.len() - 1 && s.drop_last()[i] == x && is_live(x) {
            let i = choose|i: int| 0 <= i < s.len() - 1 && s.drop_last()[i] == x && is_live(x);
            assert(s[i] == x);
        }
    }
}

/// A block counted among the live blocks of the selected nodes is a live block of a slot
/// of a selected node.
pub proof fn lemma_tree_live_in_member<V>(nodes: Seq<Bucket<V>>, sel: spec_fn(int) -> bool, x: Block<V>)
    requires
        tree_live_in(nodes, sel).count(x) > 0,
    ensures
        exists|n: int, b: int| 0 <= n < nodes.len() && 0 <= b < 2 && sel(n) && nodes[n].0@[b] == x && is_live(x),
    decreases nodes.len(),
{
    let last = nodes.len() - 1;
    if tree_live_in(nodes.drop_last(), sel).count(x) > 0 {
        lemma_tree_live_in_member(nodes.drop_last(), sel, x);
        let (n, b) = choose|n: int, b: int| 0 <= n < nodes.len() - 1 && 0 <= b < 2 && sel(n) && nodes.drop_last()[n].0@[b] == x && is_live(x);
        assert(nodes[n] == nodes.drop_last()[n]);
    } else {
        assert(sel(last));
        if live_one(nodes[last].0@[0]).count(x) > 0 {
            assert(nodes[last].0@[0] == x);
        } else {
            assert(nodes[last].0@[1] == x);
        }
    }
}

/// Removing a key removes every live block of that key and keeps the others.
pub proof fn lemma_live_remove_key<V>(s: Seq<Block<V>>, k: K, x: Block<V>)
    ensures
        live_blocks(remove_key(s, k)).count(x) == (if x.key == k { 0 } else { live_blocks(s).count(x) }),
    decreases s.len(),
{
    if s.len() > 0 {
        assert(remove_key(s, k).drop_last() =~= remove_key(s.drop_last(), k));
        lemma_live_remove_key(s.drop_last(), k, x);
    }
}

/// Removing a key keeps the blocks of a path at depths they may go to.
pub proof fn lemma_remove_key_legal<V>(s: Seq<Block<V>>, k: K, pos: PositionType, h: int)
    requires
        path_legal(s, pos, h),
        s.len() == S + h * Z,
    ensures
        path_legal(remove_key(s, k), pos, h),
{
    assert forall|l: int, b: int|
        1 <= l < h && 0 <= b < Z && is_live(#[trigger] path_slot(remove_key(s, k), l, b)) implies legal_depth(path_slot(remove_key(s, k), l, b), pos) >= l by {
        assert(path_slot(remove_key(s, k), l, b) == path_slot(s, l, b));
    }
}

/// A sequence with an empty slot has a first empty slot.
pub proof fn lemma_first_empty_exists<V>(s: Seq<Block<V>>, i: int)
    requires
        0 <= i < s.len(),
        s[i].pos == DUMMY_POS,
    ensures
        exists|j: int| is_first_empty(s, j),
    decreases i,
{
    if forall|j: int| 0 <= j < i ==> s[j].pos != DUMMY_POS {
        assert(is_first_empty(s, i));
    } else {
        let j = choose|j: int| 0 <= j < i && s[j].pos == DUMMY_POS;
        lemma_first_empty_exists(s, j);
    }
}

/// When every block of key `k` in `s` is `x`, the value read for `k` is that of `x`.
pub proof fn lemma_last_value_unique<V>(s: Seq<Block<V>>, k: K, x: Block<V>, init: V)
    requires
        has_key(s, k),
        forall|j: int| 0 <= j < s.len() && block_matches(s[j], k) ==> s[j] == x,
    ensures
        last_value(s, k, init) == x.value,
    decreases s.len(),
{
    if !block_matches(s.last(), k) {
        let i = choose|i: int| 0 <= i < s.len() && block_matches(s[i], k);
        assert(s.drop_last()[i] == s[i]);
        lemma_last_value_unique(s.drop_last(), k, x, init);
    }
}

/// Without a block of key `k`, the last value of `k` is the initial one.
pub proof fn lemma_last_value_absent<V>(s: Seq<Block<V>>, k: K, init: V)
    requires
        !has_key(s, k),
    ensures
        last_value(s, k, init) == init,
    decreases s.len(),
{
    if s.len() > 0 {
        assert(!block_matches(s[s.len() - 1], k));
        assert forall|i: int| 0 <= i < s.drop_last().len() implies !block_matches(#[trigger] s.drop_last()[i], k) by {
            assert(s.drop_last()[i] == s[i]);
        }
        lemma_last_value_absent(s.drop_last(), k, init);
    }
}

/// A block whose path shares the node at depth `l` with the path `pos` may go to depth `l`
/// along `pos`.
pub proof fn lemma_node_legal_depth<V>(b: Block<V>, pos: PositionType, l: int)
    requires
        0 <= l < 64,
        node_index(l, b.pos as int) == node_index(l, pos as int),
    ensures
        legal_depth(b, pos) >= l,
{
    let bp: usize = b.pos;
    let x = (bp ^ pos) as u64;
    let a = bp as u64;
    let c = pos as u64;
    let lu = l as u64;
    vstd::bits::lemma_u64_pow2_no_overflow(l as nat);
    vstd::bits::lemma_u64_shl_is_mul(1, lu);
    vstd::bits::lemma_u64_low_bits_mask_is_mod(a, l as nat);
    vstd::bits::lemma_u64_low_bits_mask_is_mod(c, l as nat);
    vstd::arithmetic::power2::lemma_pow2_pos(l as nat);
    assert(a % (pow2(l as nat) as u64) == c % (pow2(l as nat) as u64));
    assert((((1u64 << lu) - 1) as u64) == vstd::bits::low_bits_mask(l as nat) as u64);
    assert(a & (((1u64 << lu) - 1) as u64) == c & (((1u64 << lu) - 1) as u64));
    assert(x == a ^ c) by (bit_vector)
        requires
            x == (bp ^ pos) as u64,
            a == bp as u64,
            c == pos as u64,
    ;
    vstd::std_specs::bits::axiom_u64_trailing_zeros(x);
    let tz = u64_trailing_zeros(x);
    if tz < l {
        let t = tz as u64;
        assert((x >> t) & 1u64 == 1u64);
        assert((x >> t) & 1u64 == 0u64) by (bit_vector)
            requires
                x == a ^ c,
                a & (((1u64 << lu) - 1) as u64) == c & (((1u64 << lu) - 1) as u64),
                t < lu,
                lu < 64,
        ;
    }
}

/// Every live block of the tree lies on the path of its position.
pub open spec fn tree_legal<V>(nodes: Seq<Bucket<V>>, h: int) -> bool {
    forall|n: int, b: int|
        0 <= n < nodes.len() && 0 <= b < 2 && is_live(#[trigger] nodes[n].0@[b]) ==> on_path(n, h, nodes[n].0@[b].pos as int)
}

/// Nodes at different depths of any two paths are different.
pub proof fn lemma_node_depth_unique(d1: int, p1: int, d2: int, p2: int, h: nat)
    requires
        0 <= d1 < h,
        0 <= d2 < h,
        0 <= p1,
        0 <= p2,
        node_index(d1, p1) == node_index(d2, p2),
    ensures
        d1 == d2,
{
    lemma_node_index_bounds(d1, p1, h);
    lemma_node_index_bounds(d2, p2, h);
    if d1 < d2 {
        if d1 + 1 < d2 {
            vstd::arithmetic::power2::lemma_pow2_strictly_increases((d1 + 1) as nat, d2 as nat);
        }
    } else if d2 < d1 {
        if d2 + 1 < d1 {
            vstd::arithmetic::power2::lemma_pow2_strictly_increases((d2 + 1) as nat, d1 as nat);
        }
    }
}

/// Reading the path `pos` of a tree whose blocks lie on their paths gives blocks at depths
/// they may go to along `pos`.
pub proof fn lemma_read_path_legal<V>(nodes: Seq<Bucket<V>>, h: nat, pos: PositionType, proper: Seq<Block<V>>)
    requires
        nodes.len() == tree_size(h),
        tree_legal(nodes, h as int),
        proper.len() == S,
        2 <= h < 64,
    ensures
        path_legal(proper + path_blocks(nodes, h as int, pos as int), pos, h as int),
{
    let s = proper + path_blocks(nodes, h as int, pos as int);
    assert forall|l: int, b: int| 1 <= l < h && 0 <= b < Z && is_live(#[trigger] path_slot(s, l, b)) implies legal_depth(path_slot(s, l, b), pos) >= l by {
        let k = 2 * l + b;
        assert(k / 2 == l && k % 2 == b);
        let n = node_index(l, pos as int);
        lemma_node_index_bounds(l, pos as int, h);
        vstd::arithmetic::power2::lemma_pow2_pos(l as nat);
        let blk = path_slot(s, l, b);
        assert(blk == nodes[n].0@[b]);
        assert(on_path(n, h as int, blk.pos as int));
        let d = choose|d: int| 0 <= d < h && n == #[trigger] node_index(d, blk.pos as int);
        lemma_node_depth_unique(l, pos as int, d, blk.pos as int, h);
        lemma_node_legal_depth(blk, pos, l);
    }
}

/// Writing back along the path `pos` blocks that sit at depths they may go to keeps every
/// block of the tree on its path.
pub proof fn lemma_write_path_legal<V>(nodes: Seq<Bucket<V>>, h: nat, pos: PositionType, s: Seq<Block<V>>)
    requires
        nodes.len() == tree_size(h),
        tree_legal(nodes, h as int),
        s.len() == S + h * Z,
        path_legal(s, pos, h as int),
        2 <= h < 64,
    ensures
        tree_legal(write_path_spec(nodes, h as int, pos as int, s.subrange(S as int, s.len() as int)), h as int),
{
    let tail = s.subrange(S as int, s.len() as int);
    let w = write_path_spec(nodes, h as int, pos as int, tail);
    assert forall|n: int, b: int| 0 <= n < w.len() && 0 <= b < 2 && is_live(#[trigger] w[n].0@[b]) implies on_path(n, h as int, w[n].0@[b].pos as int) by {
        if on_path(n, h as int, pos as int) {
            let height = h as int;
            let path = pos as int;
            let d = choose|d: int| 0 <= d < height && n == #[trigger] node_index(d, path);
            let blk = w[n].0@[b];
            if b == 0 {
                assert(blk == tail[2 * d]);
            } else {
                assert(blk == tail[2 * d + 1]);
            }
            assert(blk == s[S + 2 * d + b]);
            if d == 0 {
                assert(node_index(0, blk.pos as int) == n) by {
                    vstd::arithmetic::power2::lemma2_to64();
                }
            } else {
                assert(path_slot(s, d, b) == blk);
                lemma_legal_depth_node(blk, pos, d);
            }
            assert(n == node_index(d, blk.pos as int));
        } else {
            assert(w[n] == nodes[n]);
        }
    }
}

} // verus!
