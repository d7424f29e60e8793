//! A heap tree stored in an array, with access by depth and path.
//!
//! The tree is laid out level by level; a path selects a leaf by its bits, lowest bit
//! first, so the node at depth `d` of path `p` is `2^d - 1 + (p mod 2^d)`:
//!                            0
//!                     1             2
//!                3         5    4       6
//! Path:          0         2    1       3
use vstd::prelude::*;
use vstd::arithmetic::power2::{pow2, lemma_pow2_pos, lemma_pow2_unfold, lemma_pow2_strictly_increases};
use vstd::bits::{lemma_usize_shl_is_mul, lemma_usize_low_bits_mask_is_mod, low_bits_mask};
use crate::oram::prelude::PositionType;
use crate::primitives::utils::lemma_usize_max_pow2;

verus! {

/// Index in the array of the node at `depth` on `path`.
pub open spec fn node_index(depth: int, path: int) -> int {
    pow2(depth as nat) - 1 + path % (pow2(depth as nat) as int)
}

/// Number of nodes of a tree of the given height.
pub open spec fn tree_size(height: nat) -> int {
    pow2(height) - 1
}

/// Nodes on a path at different depths, or at depths inside the tree, are in range and
/// distinct.
pub proof fn lemma_node_index_bounds(depth: int, path: int, height: nat)
    requires
        0 <= depth < height,
        0 <= path,
    ensures
        pow2(depth as nat) - 1 <= node_index(depth, path) < pow2((depth + 1) as nat) - 1,
        node_index(depth, path) < tree_size(height),
{
    lemma_pow2_pos(depth as nat);
    lemma_pow2_unfold((depth + 1) as nat);
    if depth + 1 < height {
        lemma_pow2_strictly_increases((depth + 1) as nat, height);
    }
}

/// Represents a heap tree structure.
#[derive(Debug)]
pub struct HeapTree<T> {
    /// Storage, level by level.
    pub tree: Vec<T>,
    /// Height of the tree, public; a tree with a single element has height 1.
    pub height: usize,
}

impl<T> HeapTree<T> {
    /// The array holds exactly the nodes of a tree of height `height`.
    pub open spec fn wf(&self) -> bool {
        &&& self.height < usize::BITS
        &&& self.tree@.len() == tree_size(self.height as nat)
    }

    /// The nodes, level by level.
    pub open spec fn nodes(&self) -> Seq<T> {
        self.tree@
    }

    /// Get the index of a node at a certain depth and path.
    pub fn get_index(&self, depth: usize, path: PositionType) -> (r: usize)
        requires
            self.wf(),
            depth < self.height,
        ensures
            r == node_index(depth as int, path as int),
            r < self.tree@.len(),
    {
        proof {
            lemma_usize_max_pow2();
            lemma_pow2_strictly_increases(depth as nat, self.height as nat);
            lemma_pow2_strictly_increases(self.height as nat, usize::BITS as nat);
            lemma_pow2_pos(depth as nat);
            assert(1 * pow2(depth as nat) <= usize::MAX);
            lemma_usize_shl_is_mul(1, depth);
            lemma_usize_low_bits_mask_is_mod(path, depth as nat);
            lemma_node_index_bounds(depth as int, path as int, self.height as nat);
        }
        let level_offset = (1usize << depth) - 1;
        let mask = level_offset;
        proof {
            assert(mask == low_bits_mask(depth as nat));
            assert(path & mask == path % (pow2(depth as nat) as usize));
        }
        level_offset + (path & mask)
    }

    /// Get a node of a certain path at a certain depth. Reveals depth and path.
    pub fn get_path_at_depth(&self, depth: usize, path: PositionType) -> (r: &T)
        requires
            self.wf(),
            depth < self.height,
        ensures
            0 <= node_index(depth as int, path as int) < self.tree@.len(),
            *r == self.tree@[node_index(depth as int, path as int)],
    {
        let index = self.get_index(depth, path);
        &self.tree[index]
    }

    /// Get a mutable reference to the node of a certain path at a certain depth.
    /// Reveals depth and path.
    pub fn get_path_at_depth_mut(&mut self, depth: usize, path: PositionType) -> (r: &mut T)
        requires
            old(self).wf(),
            depth < old(self).height,
        ensures
            0 <= node_index(depth as int, path as int) < old(self).tree@.len(),
            *r == old(self).tree@[node_index(depth as int, path as int)],
            final(self).height == old(self).height,
            final(self).tree@ == old(self).tree@.update(node_index(depth as int, path as int), *final(r)),
    {
        let index = self.get_index(depth, path);
        &mut self.tree[index]
    }

    /// Get a node by its index in the tree.
    pub fn get_node_by_index(&self, index: usize) -> (r: &T)
        requires
            index < self.tree@.len(),
        ensures
            *r == self.tree@[index as int],
    {
        &self.tree[index]
    }

    /// Given a path and a node at a certain depth, returns the other child of that node:
    /// the node at the next depth on the path that differs from `path` in bit `depth`.
    pub fn get_the_other_child(&self, depth: usize, path: PositionType) -> (r: &T)
        requires
            self.wf(),
            depth + 1 < self.height,
        ensures
            *r == self.tree@[node_index(depth + 1, (path ^ (1usize << depth)) as int)],
    {
        proof {
            lemma_usize_max_pow2();
        }
        let new_path = path ^ (1usize << depth);
        self.get_path_at_depth(depth + 1, new_path)
    }

    /// Checks whether the node at `index` is a leaf, that is, has no children.
    pub fn is_leaf(&self, index: usize) -> (r: bool)
        ensures
            r == (index >= self.tree@.len() / 2),
    {
        if index >= self.tree.len() / 2 {
            return true;
        }
        false
    }
}

impl<T: Copy> HeapTree<T> {
    /// Creates a heap tree of the given height with every node set to `default`.
    pub fn new_with(height: usize, default: T) -> (r: Self)
        requires
            height < usize::BITS,
        ensures
            r.wf(),
            r.height == height,
            forall|i: int| 0 <= i < r.tree@.len() ==> r.tree@[i] == default,
    {
        proof {
            lemma_usize_max_pow2();
            lemma_pow2_pos(height as nat);
            if height < usize::BITS - 1 {
                lemma_pow2_strictly_increases(height as nat, (usize::BITS - 1) as nat);
            }
            lemma_usize_shl_is_mul(1, height);
        }
        let size = (1usize << height) - 1;
        let mut tree: Vec<T> = Vec::with_capacity(size);
        let mut i: usize = 0;
        while i < size
            invariant
                i <= size,
                tree@.len() == i,
                forall|j: int| 0 <= j < i ==> tree@[j] == default,
            decreases size - i,
        {
            tree.push(default);
            i += 1;
        }
        HeapTree { tree, height }
    }
}

impl<T: Copy + Default> HeapTree<T> {
    /// Creates a heap tree of the given height with every node set to `T::default()`.
    pub fn new(height: usize) -> (r: Self)
        requires
            height < usize::BITS,
        ensures
            r.wf(),
            r.height == height,
            forall|i: int, j: int| 0 <= i < r.tree@.len() && 0 <= j < r.tree@.len() ==> r.tree@[i] == r.tree@[j],
            forall|i: int| 0 <= i < r.tree@.len() ==> call_ensures(T::default, (), #[trigger] r.tree@[i]),
    {
        let d = T::default();
        Self::new_with(height, d)
    }
}

} // verus!
