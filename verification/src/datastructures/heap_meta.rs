//! The order kept by the metadata tree of the oblivious heap: each metadata node holds an
//! element of smallest priority among its bucket and the metadata nodes below it.
use vstd::prelude::*;
use vstd::arithmetic::power2::{pow2, lemma_pow2_pos, lemma_pow2_unfold, lemma2_to64};
use vstd::arithmetic::div_mod::{lemma_mod_breakdown, lemma_mod_mod};
use vstd::bits::{lemma_usize_shl_is_mul, lemma_usize_shr_is_div, lemma_usize_low_bits_mask_is_mod, low_bits_mask};
use crate::datastructures::heap::HeapElement;
use crate::oram::block_sets::{tree_live, tree_live_in, tree_legal, lemma_node_depth_unique, lemma_tree_live_in_member};
use crate::oram::circuit_oram::{Block, Bucket, is_live, on_path, path_blocks, S, Z};
use crate::oram::heap_tree::{node_index, tree_size, lemma_node_index_bounds};
use crate::oram::prelude::K;
use crate::primitives::utils::lemma_usize_max_pow2;

verus! {

/// The metadata node at depth `d` of path `p` is in order: an empty node has priority
/// `K::MAX`; no live block of its bucket and no metadata node below it on the path has a
/// smaller priority; and a live node is a block of its bucket or the metadata node of one of
/// its children.
pub open spec fn meta_at_ok<V>(meta: Seq<Block<HeapElement<V>>>, nodes: Seq<Bucket<HeapElement<V>>>, h: int, d: int, p: int) -> bool {
    let m = meta[node_index(d, p)];
    let bk = nodes[node_index(d, p)];
    &&& !is_live(m) ==> m.value.key == K::MAX
    &&& is_live(bk.0@[0]) ==> m.value.key <= bk.0@[0].value.key
    &&& is_live(bk.0@[1]) ==> m.value.key <= bk.0@[1].value.key
    &&& d + 1 < h ==> m.value.key <= meta[node_index(d + 1, p)].value.key
    &&& is_live(m) ==> {
        ||| bk.0@[0] == m
        ||| bk.0@[1] == m
        ||| d + 1 < h && exists|q: int|
            #![trigger node_index(d, q)]
            0 <= q && node_index(d, q) == node_index(d, p) && m == meta[node_index(d + 1, q)]
    }
}

/// Every metadata node of a tree of height `h` is in order.
pub open spec fn meta_ok<V>(meta: Seq<Block<HeapElement<V>>>, nodes: Seq<Bucket<HeapElement<V>>>, h: int) -> bool {
    forall|d: int, p: int| 0 <= d < h && 0 <= p ==> #[trigger] meta_at_ok(meta, nodes, h, d, p)
}

/// Every metadata node off the path `pos` is in order.
pub open spec fn meta_off_ok<V>(meta: Seq<Block<HeapElement<V>>>, nodes: Seq<Bucket<HeapElement<V>>>, h: int, pos: int) -> bool {
    forall|d: int, p: int|
        0 <= d < h && 0 <= p && node_index(d, p) != node_index(d, pos) ==> #[trigger] meta_at_ok(meta, nodes, h, d, p)
}

/// The stash buffer holds a copy of the path `pos` of the tree after the stash proper.
pub open spec fn path_copy<V>(nodes: Seq<Bucket<V>>, stash: Seq<Block<V>>, h: int, pos: int) -> bool {
    forall|l: int, j: int|
        #![trigger nodes[node_index(l, pos)].0@[j]]
        0 <= l < h && 0 <= j < 2 ==> nodes[node_index(l, pos)].0@[j] == stash[S + l * Z + j]
}

/// The root of every path is node 0.
pub proof fn lemma_root(p: int)
    ensures
        node_index(0, p) == 0,
{
    lemma2_to64();
}

/// Two paths that meet at depth `d + 1` meet at depth `d`.
pub proof fn lemma_parent(d: int, p: int, q: int)
    requires
        0 <= d,
        node_index(d + 1, p) == node_index(d + 1, q),
    ensures
        node_index(d, p) == node_index(d, q),
{
    lemma_pow2_unfold((d + 1) as nat);
    lemma_pow2_pos(d as nat);
    let a = pow2(d as nat) as int;
    assert(pow2((d + 1) as nat) as int == a * 2);
    assert(p % (a * 2) == q % (a * 2));
    lemma_mod_mod(p, a, 2);
    lemma_mod_mod(q, a, 2);
}

/// Flipping bit `l` of `pos` keeps the low `l` bits and changes bit `l`.
pub proof fn lemma_flip_bit(pos: usize, l: usize)
    requires
        l + 1 < usize::BITS,
    ensures
        ((pos ^ (1usize << l)) as int) % (pow2(l as nat) as int) == (pos as int) % (pow2(l as nat) as int),
        ((pos ^ (1usize << l)) as int / (pow2(l as nat) as int)) % 2 != (pos as int / (pow2(l as nat) as int)) % 2,
{
    let x = pos ^ (1usize << l);
    lemma_usize_max_pow2();
    lemma_pow2_pos(l as nat);
    vstd::arithmetic::power2::lemma_pow2_strictly_increases(l as nat, usize::BITS as nat);
    assert(1 * pow2(l as nat) <= usize::MAX);
    lemma_usize_shl_is_mul(1, l);
    let m = 1usize << l;
    assert(m as int == pow2(l as nat));
    let mask: usize = (m - 1) as usize;
    assert(x & mask == pos & mask) by (bit_vector)
        requires
            x == pos ^ m,
            m == 1usize << l,
            mask + 1 == m,
            l < usize::BITS,
    ;
    assert(mask == low_bits_mask(l as nat) as usize);
    lemma_usize_low_bits_mask_is_mod(x, l as nat);
    lemma_usize_low_bits_mask_is_mod(pos, l as nat);
    assert(((x >> l) & 1) != ((pos >> l) & 1)) by (bit_vector)
        requires
            x == pos ^ (1usize << l),
            l < usize::BITS,
    ;
    let a = x >> l;
    let b = pos >> l;
    assert(a & 1 == a % 2) by (bit_vector);
    assert(b & 1 == b % 2) by (bit_vector);
    lemma_usize_shr_is_div(x, l);
    lemma_usize_shr_is_div(pos, l);
}

/// With `x` the path `pos` with bit `l` flipped, the nodes at depth `l + 1` below the node
/// of `pos` at depth `l` are those of `pos` and of `x`, and they differ.
pub proof fn lemma_children(pos: int, x: int, l: int, p: int)
    requires
        0 <= l,
        0 <= pos,
        0 <= x,
        0 <= p,
        x % (pow2(l as nat) as int) == pos % (pow2(l as nat) as int),
        (x / (pow2(l as nat) as int)) % 2 != (pos / (pow2(l as nat) as int)) % 2,
        node_index(l, p) == node_index(l, pos),
    ensures
        node_index(l, x) == node_index(l, pos),
        node_index(l + 1, x) != node_index(l + 1, pos),
        node_index(l + 1, p) == node_index(l + 1, pos) || node_index(l + 1, p) == node_index(l + 1, x),
{
    lemma_pow2_unfold((l + 1) as nat);
    lemma_pow2_pos(l as nat);
    let a = pow2(l as nat) as int;
    assert(pow2((l + 1) as nat) as int == a * 2);
    lemma_mod_breakdown(p, a, 2);
    lemma_mod_breakdown(pos, a, 2);
    lemma_mod_breakdown(x, a, 2);
    let bp = (p / a) % 2;
    let bpos = (pos / a) % 2;
    let bx = (x / a) % 2;
    assert(0 <= bp < 2 && 0 <= bpos < 2 && 0 <= bx < 2);
    assert((bp == 0 ==> a * bp == 0) && (bp == 1 ==> a * bp == a)) by (nonlinear_arith)
        requires
            0 <= bp < 2,
    ;
    assert((bpos == 0 ==> a * bpos == 0) && (bpos == 1 ==> a * bpos == a)) by (nonlinear_arith)
        requires
            0 <= bpos < 2,
    ;
    assert((bx == 0 ==> a * bx == 0) && (bx == 1 ==> a * bx == a)) by (nonlinear_arith)
        requires
            0 <= bx < 2,
    ;
}

/// Along a path, the metadata priorities grow with depth.
pub proof fn lemma_meta_le_path<V>(meta: Seq<Block<HeapElement<V>>>, nodes: Seq<Bucket<HeapElement<V>>>, h: int, d: int, e: int, p: int)
    requires
        meta_ok(meta, nodes, h),
        0 <= d <= e < h,
        0 <= p,
    ensures
        meta[node_index(d, p)].value.key <= meta[node_index(e, p)].value.key,
    decreases e - d,
{
    if d < e {
        assert(meta_at_ok(meta, nodes, h, d, p));
        lemma_meta_le_path(meta, nodes, h, d + 1, e, p);
    }
}

/// A live block of a selected node is counted among the live blocks of the selection.
pub proof fn lemma_tree_live_in_has<V>(nodes: Seq<Bucket<V>>, sel: spec_fn(int) -> bool, n: int, j: int)
    requires
        0 <= n < nodes.len(),
        0 <= j < 2,
        sel(n),
        is_live(nodes[n].0@[j]),
    ensures
        tree_live_in(nodes, sel).count(nodes[n].0@[j]) > 0,
    decreases nodes.len(),
{
    if n < nodes.len() - 1 {
        lemma_tree_live_in_has(nodes.drop_last(), sel, n, j);
        assert(nodes.drop_last()[n] == nodes[n]);
    }
}

/// A live metadata node is a live block of the tree.
pub proof fn lemma_meta_in_tree<V>(meta: Seq<Block<HeapElement<V>>>, nodes: Seq<Bucket<HeapElement<V>>>, h: int, d: int, p: int)
    requires
        meta_ok(meta, nodes, h),
        nodes.len() == tree_size(h as nat),
        0 <= d < h,
        0 <= p,
        is_live(meta[node_index(d, p)]),
    ensures
        tree_live(nodes).count(meta[node_index(d, p)]) > 0,
    decreases h - d,
{
    let m = meta[node_index(d, p)];
    let bk = nodes[node_index(d, p)];
    assert(meta_at_ok(meta, nodes, h, d, p));
    lemma_node_index_bounds(d, p, h as nat);
    lemma_pow2_pos(d as nat);
    if bk.0@[0] == m {
        lemma_tree_live_in_has(nodes, |n: int| true, node_index(d, p), 0);
    } else if bk.0@[1] == m {
        lemma_tree_live_in_has(nodes, |n: int| true, node_index(d, p), 1);
    } else {
        let q = choose|q: int|
            #![trigger node_index(d, q)]
            0 <= q && node_index(d, q) == node_index(d, p) && m == meta[node_index(d + 1, q)];
        lemma_meta_in_tree(meta, nodes, h, d + 1, q);
    }
}

/// No live block of a tree whose blocks lie on their paths has a smaller priority than the
/// root of the metadata.
pub proof fn lemma_meta_below_tree<V>(meta: Seq<Block<HeapElement<V>>>, nodes: Seq<Bucket<HeapElement<V>>>, h: int, b: Block<HeapElement<V>>)
    requires
        meta_ok(meta, nodes, h),
        nodes.len() == tree_size(h as nat),
        tree_legal(nodes, h),
        tree_live(nodes).count(b) > 0,
    ensures
        meta[0].value.key <= b.value.key,
{
    lemma_tree_live_in_member(nodes, |n: int| true, b);
    let (n, j) = choose|n: int, j: int| 0 <= n < nodes.len() && 0 <= j < 2 && (|n: int| true)(n) && nodes[n].0@[j] == b && is_live(b);
    assert(is_live(nodes[n].0@[j]));
    assert(on_path(n, h, b.pos as int));
    let e = choose|e: int| 0 <= e < h && n == #[trigger] node_index(e, b.pos as int);
    assert(meta_at_ok(meta, nodes, h, e, b.pos as int));
    lemma_meta_le_path(meta, nodes, h, 0, e, b.pos as int);
    lemma_root(b.pos as int);
}

/// Writing `x` at the node of `pos` at depth `l` keeps in order every node that was in
/// order and is deeper than `l` or off the path.
pub proof fn lemma_meta_frame<V>(
    meta: Seq<Block<HeapElement<V>>>,
    nodes: Seq<Bucket<HeapElement<V>>>,
    h: int,
    l: int,
    pos: int,
    x: Block<HeapElement<V>>,
    d: int,
    p: int,
)
    requires
        meta.len() == tree_size(h as nat),
        0 <= l < h,
        0 <= pos,
        0 <= d < h,
        0 <= p,
        meta_at_ok(meta, nodes, h, d, p),
        d > l || node_index(d, p) != node_index(d, pos),
    ensures
        meta_at_ok(meta.update(node_index(l, pos), x), nodes, h, d, p),
{
    let m2 = meta.update(node_index(l, pos), x);
    lemma_node_index_bounds(d, p, h as nat);
    lemma_node_index_bounds(l, pos, h as nat);
    lemma_pow2_pos(d as nat);
    lemma_pow2_pos(l as nat);
    if d != l {
        if node_index(d, p) == node_index(l, pos) {
            lemma_node_depth_unique(d, p, l, pos, h as nat);
        }
    }
    assert(m2[node_index(d, p)] == meta[node_index(d, p)]);
    if d + 1 < h {
        lemma_node_index_bounds(d + 1, p, h as nat);
        lemma_pow2_pos((d + 1) as nat);
        if node_index(d + 1, p) == node_index(l, pos) {
            lemma_node_depth_unique(d + 1, p, l, pos, h as nat);
            lemma_parent(d, p, pos);
        }
        assert(m2[node_index(d + 1, p)] == meta[node_index(d + 1, p)]);
        let m = meta[node_index(d, p)];
        let bk = nodes[node_index(d, p)];
        if is_live(m) && bk.0@[0] != m && bk.0@[1] != m {
            let q = choose|q: int|
                #![trigger node_index(d, q)]
                0 <= q && node_index(d, q) == node_index(d, p) && m == meta[node_index(d + 1, q)];
            lemma_node_index_bounds(d + 1, q, h as nat);
            if node_index(d + 1, q) == node_index(l, pos) {
                lemma_node_depth_unique(d + 1, q, l, pos, h as nat);
                lemma_parent(d, q, pos);
            }
            assert(m2[node_index(d + 1, q)] == meta[node_index(d + 1, q)]);
            assert(0 <= q && node_index(d, q) == node_index(d, p) && m == m2[node_index(d + 1, q)]);
        }
    }
}

/// A block `x` that is no larger than the live blocks of the bucket of `pos` at depth `l`
/// and than the metadata of both its children, that is empty only with priority `K::MAX`,
/// and that is one of those blocks when live, puts that node in order once written.
pub proof fn lemma_meta_new<V>(
    meta: Seq<Block<HeapElement<V>>>,
    nodes: Seq<Bucket<HeapElement<V>>>,
    h: int,
    l: int,
    pos: int,
    xpos: int,
    x: Block<HeapElement<V>>,
)
    requires
        meta.len() == tree_size(h as nat),
        0 <= l < h,
        0 <= pos,
        0 <= xpos,
        xpos % (pow2(l as nat) as int) == pos % (pow2(l as nat) as int),
        (xpos / (pow2(l as nat) as int)) % 2 != (pos / (pow2(l as nat) as int)) % 2,
        !is_live(x) ==> x.value.key == K::MAX,
        is_live(nodes[node_index(l, pos)].0@[0]) ==> x.value.key <= nodes[node_index(l, pos)].0@[0].value.key,
        is_live(nodes[node_index(l, pos)].0@[1]) ==> x.value.key <= nodes[node_index(l, pos)].0@[1].value.key,
        l + 1 < h ==> x.value.key <= meta[node_index(l + 1, pos)].value.key,
        l + 1 < h ==> x.value.key <= meta[node_index(l + 1, xpos)].value.key,
        is_live(x) ==> {
            ||| nodes[node_index(l, pos)].0@[0] == x
            ||| nodes[node_index(l, pos)].0@[1] == x
            ||| l + 1 < h && (x == meta[node_index(l + 1, pos)] || x == meta[node_index(l + 1, xpos)])
        },
    ensures
        forall|p: int|
            0 <= p && node_index(l, p) == node_index(l, pos) ==> #[trigger] meta_at_ok(
                meta.update(node_index(l, pos), x),
                nodes,
                h,
                l,
                p,
            ),
{
    let m2 = meta.update(node_index(l, pos), x);
    lemma_node_index_bounds(l, pos, h as nat);
    lemma_pow2_pos(l as nat);
    assert forall|p: int| 0 <= p && node_index(l, p) == node_index(l, pos) implies #[trigger] meta_at_ok(m2, nodes, h, l, p) by {
        lemma_children(pos, xpos, l, p);
        if l + 1 < h {
            lemma_node_index_bounds(l + 1, p, h as nat);
            lemma_node_index_bounds(l + 1, pos, h as nat);
            lemma_node_index_bounds(l + 1, xpos, h as nat);
            lemma_pow2_pos((l + 1) as nat);
            if node_index(l + 1, p) == node_index(l, pos) {
                lemma_node_depth_unique(l + 1, p, l, pos, h as nat);
            }
            if node_index(l + 1, pos) == node_index(l, pos) {
                lemma_node_depth_unique(l + 1, pos, l, pos, h as nat);
            }
            if node_index(l + 1, xpos) == node_index(l, pos) {
                lemma_node_depth_unique(l + 1, xpos, l, pos, h as nat);
            }
            assert(m2[node_index(l + 1, p)] == meta[node_index(l + 1, p)]);
            assert(m2[node_index(l + 1, pos)] == meta[node_index(l + 1, pos)]);
            assert(m2[node_index(l + 1, xpos)] == meta[node_index(l + 1, xpos)]);
            if is_live(x) && nodes[node_index(l, pos)].0@[0] != x && nodes[node_index(l, pos)].0@[1] != x {
                if x == meta[node_index(l + 1, pos)] {
                    assert(0 <= pos && node_index(l, pos) == node_index(l, p) && x == m2[node_index(l + 1, pos)]);
                } else {
                    assert(0 <= xpos && node_index(l, xpos) == node_index(l, p) && x == m2[node_index(l + 1, xpos)]);
                }
            }
        }
    }
}

/// Nodes off the path `pos` that keep their buckets keep their metadata in order.
pub proof fn lemma_meta_off_after_write<V>(
    meta: Seq<Block<HeapElement<V>>>,
    nodes: Seq<Bucket<HeapElement<V>>>,
    w: Seq<Bucket<HeapElement<V>>>,
    h: int,
    pos: int,
)
    requires
        meta_off_ok(meta, nodes, h, pos),
        0 <= pos,
        nodes.len() == tree_size(h as nat),
        w.len() == nodes.len(),
        forall|n: int| 0 <= n < nodes.len() && !on_path(n, h, pos) ==> #[trigger] w[n] == nodes[n],
    ensures
        meta_off_ok(meta, w, h, pos),
{
    assert forall|d: int, p: int|
        0 <= d < h && 0 <= p && node_index(d, p) != node_index(d, pos) implies #[trigger] meta_at_ok(meta, w, h, d, p) by {
        let n = node_index(d, p);
        assert(meta_at_ok(meta, nodes, h, d, p));
        if on_path(n, h, pos) {
            let e = choose|e: int| 0 <= e < h && n == #[trigger] node_index(e, pos);
            lemma_node_depth_unique(d, p, e, pos, h as nat);
        }
        lemma_node_index_bounds(d, p, h as nat);
        lemma_pow2_pos(d as nat);
        assert(w[n] == nodes[n]);
    }
}

/// A path written from the stash buffer leaves a copy of itself there.
pub proof fn lemma_path_copy<V>(w: Seq<Bucket<V>>, stash: Seq<Block<V>>, h: int, pos: int)
    requires
        0 <= h,
        stash.len() == S + h * Z,
        path_blocks(w, h, pos) == stash.subrange(S as int, stash.len() as int),
    ensures
        path_copy(w, stash, h, pos),
{
    assert forall|l: int, j: int| 0 <= l < h && 0 <= j < 2 implies #[trigger] w[node_index(l, pos)].0@[j] == stash[S + l * Z + j] by {
        let k = 2 * l + j;
        assert(k / 2 == l && k % 2 == j);
        assert(path_blocks(w, h, pos)[k] == stash.subrange(S as int, stash.len() as int)[k]);
    }
}

} // verus!
