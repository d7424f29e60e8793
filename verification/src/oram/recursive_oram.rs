//! The recursive position map: a linear-scan ORAM for the first level and a chain of
//! Circuit ORAMs for the remaining levels.
use vstd::prelude::*;
use rand::rngs::ThreadRng;
use crate::oram::circuit_oram::{CircuitORAM, stash_room, access_pre, initial_inputs_ok, held_from_inputs};
use crate::oram::linear_oram::{oblivious_read_update_index, LinearORAM};
use crate::oram::prelude::{PositionType, DUMMY_POS, K};
use crate::primitives::traits::{Cmov, cmov_result};
use crate::primitives::utils::{min, pow2_above};
use crate::primitives::indexable::Length;
use crate::random::{thread_rng, random_below};

verus! {

/// Number of positions held by the first (linear) level.
pub const LINEAR_MAP_SIZE: usize = 128;

/// Number of positions held by one node of a recursive level: 64 bytes of positions.
pub const FAN_OUT: usize = 8;

/// Bits of a key consumed by the first level.
const LEVEL0_BITS: usize = 7;

/// Mask selecting the first-level bits of a key.
const MASK0: usize = 127;

/// Bits of a key consumed by each recursive level.
const LEVELN_BITS: usize = 3;

/// Mask selecting the bits of a key consumed by one recursive level.
const MASKN: usize = 7;

/// A node of a recursive level: the positions of `FAN_OUT` nodes of the next level.
#[derive(Debug, Clone, Copy)]
pub struct InternalNode(pub [PositionType; 8]);

impl Default for InternalNode {
    fn default() -> (r: Self)
        ensures
            forall|i: int| 0 <= i < 8 ==> r.0@[i] == DUMMY_POS,
    {
        InternalNode([DUMMY_POS; 8])
    }
}

impl Cmov for InternalNode {
    fn cmov(&mut self, other: &Self, choice: bool) {
        let ghost orig = *self;
        let mut i: usize = 0;
        while i < FAN_OUT
            invariant
                i <= FAN_OUT,
                forall|j: int| 0 <= j < 8 ==> #[trigger] self.0@[j] == (if j < i { cmov_result(orig.0@[j], other.0@[j], choice) } else { orig.0@[j] }),
            decreases FAN_OUT - i,
        {
            let mut x = self.0[i];
            x.cmov(&other.0[i], choice);
            self.0[i] = x;
            i += 1;
        }
        proof {
            assert(self.0 =~= cmov_result(orig, *other, choice).0);
        }
    }

    fn cxchg(&mut self, other: &mut Self, choice: bool) {
        let tmp = *self;
        self.cmov(other, choice);
        other.cmov(&tmp, choice);
    }
}

/// Reads entry `slot` of `node` and sets it to `value`, touching every entry. Out of range,
/// nothing changes and `DUMMY_POS` is returned.
fn read_update_entry(node: &mut InternalNode, slot: usize, value: PositionType) -> (r: PositionType)
    ensures
        slot < 8 ==> r == old(node).0@[slot as int] && final(node).0@ == old(node).0@.update(slot as int, value),
{
    let ghost orig = node.0@;
    let mut out = DUMMY_POS;
    let mut i: usize = 0;
    while i < FAN_OUT
        invariant
            i <= FAN_OUT,
            forall|j: int| 0 <= j < 8 ==> #[trigger] node.0@[j] == (if j < i && j == slot { value } else { orig[j] }),
            slot < i ==> out == orig[slot as int],
        decreases FAN_OUT - i,
    {
        let cur = node.0[i];
        let choice = i == slot;
        out.cmov(&cur, choice);
        let mut x = cur;
        x.cmov(&value, choice);
        node.0[i] = x;
        i += 1;
    }
    proof {
        if slot < 8 {
            assert(node.0@ =~= orig.update(slot as int, value));
        }
    }
    out
}

/// Reads entry `slot` of node `key` of `oram`, mapped to `pos`, sets it to `value` and maps
/// the node to `new_pos`; returns the entry read.
///
/// On a valid ORAM that holds `key` at `pos`, and with a real new position: the ORAM stays
/// valid, the result is the entry, and the node is held at `new_pos` with that entry set
/// to `value`, or dropped when the stash proper has no room for it.
fn update_node_entry(
    oram: &mut CircuitORAM<InternalNode>,
    pos: PositionType,
    new_pos: PositionType,
    key: K,
    slot: usize,
    value: PositionType,
) -> (r: PositionType)
    requires
        old(oram).wf(),
        slot < 8,
    ensures
        final(oram).wf(),
        final(oram).h == old(oram).h,
        final(oram).max_n == old(oram).max_n,
        access_pre(*old(oram), pos, key, new_pos) && old(oram).contents().contains_key(key) ==> {
            &&& final(oram).valid()
            &&& r == old(oram).contents()[key].1.0@[slot as int]
            &&& exists|v: InternalNode|
                #![trigger v.0@]
                {
                    &&& v.0@ == old(oram).contents()[key].1.0@.update(slot as int, value)
                    &&& final(oram).contents() == (if stash_room(*old(oram), key) {
                        old(oram).contents().insert(key, (new_pos, v))
                    } else {
                        old(oram).contents().remove(key)
                    })
                }
        },
{
    let update_node = |node: &mut InternalNode| -> (r: PositionType)
        ensures
            r == old(node).0@[slot as int] && final(node).0@ == old(node).0@.update(slot as int, value),
        {
            let r = read_update_entry(node, slot, value);
            r
        };
    let ghost o = *oram;
    let (found, entry) = oram.update(pos, new_pos, key, update_node);
    proof {
        if access_pre(o, pos, key, new_pos) && o.contents().contains_key(key) {
            let x = choose|x: &mut InternalNode|
                #![trigger update_node.ensures((x,), entry)]
                {
                    &&& found ==> *x == o.contents()[key].1
                    &&& update_node.ensures((x,), entry)
                    &&& oram.contents() == (if stash_room(o, key) {
                        o.contents().insert(key, (new_pos, *final(x)))
                    } else {
                        o.contents().remove(key)
                    })
                };
            let v = *final(x);
            assert(v.0@ == o.contents()[key].1.0@.update(slot as int, value));
        }
    }
    entry
}

/// An efficient position map for an ORAM whose keys are `0..n`. The first level is a
/// linear-scan ORAM; the remaining levels are Circuit ORAMs of nodes that each hold
/// `FAN_OUT` positions of the next level.
#[derive(Debug)]
pub struct RecursivePositionMap {
    /// The first level.
    pub linear_oram: LinearORAM<PositionType>,
    /// Remaining levels.
    pub recursive_orams: Vec<CircuitORAM<InternalNode>>,
    /// The number of recursive levels, public.
    pub h: usize,
    /// Thread-local random generator.
    rng: ThreadRng,
    /// Number of keys.
    pub(crate) n: usize,
}

impl RecursivePositionMap {
    /// The first level has `min(n, LINEAR_MAP_SIZE)` entries and every recursive level is
    /// a well-formed Circuit ORAM.
    pub closed spec fn wf(&self) -> bool {
        &&& self.recursive_orams@.len() == self.h
        &&& self.h <= 8
        &&& (self.h == 0 <==> self.n <= LINEAR_MAP_SIZE)
        &&& self.linear_oram.data@.len() == (if self.h == 0 { self.n as nat } else { LINEAR_MAP_SIZE as nat })
        &&& 0 < self.n <= 0x1000_0000
        &&& self.n <= level_capacity(self.h as nat)
        &&& forall|i: int| 0 <= i < self.h ==> #[trigger] self.recursive_orams@[i].wf()
    }

    /// The number of recursive levels, the field `h`.
    pub closed spec fn levels(&self) -> nat {
        self.h as nat
    }

    /// The number of entries of the first level, the length of `linear_oram.data`.
    pub closed spec fn first_level_len(&self) -> nat {
        self.linear_oram.data@.len()
    }

    /// The nodes held by recursive level `t`, each with its position and its entries.
    pub closed spec fn level_map(&self, t: int) -> Map<K, (PositionType, InternalNode)> {
        self.recursive_orams@[t].contents()
    }

    /// The position recorded for node `j` of level `t` by the level above: an entry of
    /// the first level for `t == 0`, else entry `j % 8` of node `j / 8` of level `t - 1`.
    pub closed spec fn parent_entry(&self, t: int, j: int) -> PositionType {
        if t == 0 {
            self.linear_oram.data@[j]
        } else {
            self.level_map(t - 1)[(j / 8) as usize].1.0@[j % 8]
        }
    }

    /// The level above node `j` of level `t` holds the node that records its position.
    pub closed spec fn parent_held(&self, t: int, j: int) -> bool {
        t == 0 || self.level_map(t - 1).contains_key((j / 8) as usize)
    }

    /// Well formed, every recursive level a valid ORAM, and every node held at the
    /// position that the level above records for it, when that level holds the record.
    pub closed spec fn valid(&self) -> bool {
        &&& self.wf()
        &&& forall|t: int| 0 <= t < self.h ==> #[trigger] self.recursive_orams@[t].valid()
        &&& forall|t: int, j: K|
            0 <= t < self.h && #[trigger] self.level_map(t).contains_key(j) ==> j < level_capacity(t as nat) && (self.parent_held(
                t,
                j as int,
            ) ==> self.level_map(t)[j].0 == self.parent_entry(t, j as int))
    }

    /// Key `k` is below `n` and every node on the way to its position is held.
    pub closed spec fn has_position(&self, k: int) -> bool {
        &&& 0 <= k < self.n
        &&& forall|t: int| 0 <= t < self.h ==> #[trigger] self.level_map(t).contains_key(node_key(k, t as nat) as usize)
    }

    /// The position recorded for key `k`.
    pub closed spec fn position(&self, k: int) -> PositionType {
        if self.h == 0 {
            self.linear_oram.data@[k]
        } else {
            self.level_map(self.h - 1)[node_key(k, (self.h - 1) as nat) as usize].1.0@[node_slot(k, (self.h - 1) as nat)]
        }
    }

    /// Every recursive level has room in its stash proper for the node on the way to `k`.
    pub closed spec fn room(&self, k: int) -> bool {
        forall|t: int| 0 <= t < self.h ==> stash_room(#[trigger] self.recursive_orams@[t], node_key(k, t as nat) as usize)
    }

    /// Number of keys of the map.
    pub closed spec fn size(&self) -> nat {
        self.n as nat
    }

    /// The map has no recursive level: all positions sit in the linear first level.
    pub closed spec fn is_flat(&self) -> bool {
        self.h == 0
    }

    /// For a flat map, the position stored for each key.
    pub closed spec fn flat_positions(&self) -> Seq<PositionType> {
        self.linear_oram.data@
    }

    /// Draws `count` random positions below `bound`.
    fn random_positions(rng: &mut ThreadRng, count: usize, bound: usize) -> (r: Vec<PositionType>)
        requires
            bound > 0,
        ensures
            r@.len() == count,
            forall|i: int| 0 <= i < count ==> #[trigger] r@[i] < bound,
    {
        let mut v: Vec<PositionType> = Vec::with_capacity(count);
        let mut i: usize = 0;
        while i < count
            invariant
                bound > 0,
                i <= count,
                v@.len() == i,
                forall|j: int| 0 <= j < i ==> #[trigger] v@[j] < bound,
            decreases count - i,
        {
            v.push(random_below(rng, bound));
            i += 1;
        }
        v
    }

    /// Creates a position map for the keys `0..n`, every key at a random position.
    pub fn new(n: usize) -> (r: Self)
        requires
            0 < n <= 0x1000_0000,
        ensures
            r.wf(),
            r.size() == n,
            r.is_flat() == (n <= LINEAR_MAP_SIZE),
            r.is_flat() ==> r.flat_positions().len() == n && forall|i: int| 0 <= i < n ==> #[trigger] r.flat_positions()[i] < n,
            r.valid(),
            n <= level_capacity(r.levels()),
            r.levels() > 0 ==> level_capacity((r.levels() - 1) as nat) < n,
            r.first_level_len() == (if n <= LINEAR_MAP_SIZE { n } else { LINEAR_MAP_SIZE }),
            r.is_flat() ==> forall|k: int| 0 <= k < n ==> #[trigger] r.has_position(k),
    {
        let mut rng = thread_rng();
        proof {
            reveal_with_fuel(level_capacity, 10);
        }
        // The number of recursive levels: the least h with LINEAR_MAP_SIZE * FAN_OUT^h >= n.
        let mut h: usize = 0;
        let mut curr: usize = LINEAR_MAP_SIZE;
        while curr < n
            invariant
                0 < n <= 0x1000_0000,
                curr == level_capacity(h as nat),
                h <= 8,
                h > 0 ==> level_capacity((h - 1) as nat) < n,
            decreases 8 - h,
        {
            proof {
                reveal_with_fuel(level_capacity, 10);
                assert(h != 8);
            }
            curr = curr * FAN_OUT;
            h += 1;
        }
        let first_len = min(LINEAR_MAP_SIZE, n);
        let mut first_level: LinearORAM<PositionType> = LinearORAM::new(first_len);
        if h == 0 {
            curr = n;
        }
        let mut positions = Self::random_positions(&mut rng, curr, curr);
        let mut levels_rev: Vec<CircuitORAM<InternalNode>> = Vec::with_capacity(h);
        let mut i: usize = h;
        while i > 0
            invariant
                0 < n <= 0x1000_0000,
                h <= 8,
                i <= h,
                h == 0 ==> curr == n,
                h > 0 ==> curr == level_capacity(i as nat),
                positions@.len() == curr,
                forall|j: int| 0 <= j < curr ==> #[trigger] positions@[j] < curr,
                levels_rev@.len() == h - i,
                forall|j: int| 0 <= j < h - i ==> #[trigger] levels_rev@[j].wf(),
                forall|t: int| i <= t < h ==> #[trigger] levels_rev@[h - 1 - t].valid(),
                forall|t: int, j: K|
                    i <= t < h && #[trigger] levels_rev@[h - 1 - t].contents().contains_key(j) ==> j < level_capacity(t as nat),
                forall|t: int, m: K|
                    i <= t && t + 1 < h && #[trigger] levels_rev@[h - 2 - t].contents().contains_key(m)
                        && levels_rev@[h - 1 - t].contents().contains_key(m / 8) ==> levels_rev@[h - 1 - t].contents()[m / 8].1.0@[(m % 8) as int]
                        == levels_rev@[h - 2 - t].contents()[m].0,
                i < h ==> forall|m: K| #[trigger] levels_rev@[h - 1 - i].contents().contains_key(m) ==> levels_rev@[h - 1 - i].contents()[m].0
                    == positions@[m as int],
            decreases i,
        {
            proof {
                lemma_level_capacity_bounds((i - 1) as nat);
                reveal_with_fuel(level_capacity, 2);
            }
            curr = curr / FAN_OUT;
            let mut keys: Vec<K> = Vec::with_capacity(curr);
            let mut values: Vec<InternalNode> = Vec::with_capacity(curr);
            let mut j: usize = 0;
            while j < curr
                invariant
                    j <= curr,
                    curr <= 0x1000_0000,
                    curr * 8 == positions@.len(),
                    keys@.len() == j,
                    values@.len() == j,
                    forall|jj: int| 0 <= jj < j ==> #[trigger] keys@[jj] == jj,
                    forall|jj: int, q: int| 0 <= jj < j && 0 <= q < 8 ==> #[trigger] values@[jj].0@[q] == positions@[jj * 8 + q],
                decreases curr - j,
            {
                let mut node = InternalNode::default();
                let mut k: usize = 0;
                while k < FAN_OUT
                    invariant
                        k <= FAN_OUT,
                        j < curr,
                        curr <= 0x1000_0000,
                        curr * 8 == positions@.len(),
                        forall|q: int| 0 <= q < k ==> #[trigger] node.0@[q] == positions@[j * 8 + q],
                    decreases FAN_OUT - k,
                {
                    proof {
                        assert(j * 8 + k < curr * 8) by (nonlinear_arith)
                            requires
                                j < curr,
                                k < 8,
                        ;
                    }
                    node.0[k] = positions[j * FAN_OUT + k];
                    k += 1;
                }
                keys.push(j);
                values.push(node);
                j += 1;
            }
            let ghost prev_positions = positions@;
            positions = Self::random_positions(&mut rng, curr, curr);
            let level = CircuitORAM::new_with_positions_and_values(curr, keys.as_slice(), values.as_slice(), positions.as_slice());
            proof {
                assert(initial_inputs_ok(keys@, positions@));
                let c = level.contents();
                assert forall|m: K| #[trigger] c.contains_key(m) implies m < curr && c[m] == (positions@[m as int], values@[m as int]) by {
                    let jj = choose|jj: int| 0 <= jj < curr && keys@[jj] == m && c[m] == (positions@[jj], values@[jj]);
                }
            }
            let ghost prev_rev = levels_rev@;
            levels_rev.push(level);
            proof {
                let t0 = (i - 1) as int;
                assert(levels_rev@[h - 1 - t0] == level);
                assert forall|t: int| i - 1 <= t < h implies #[trigger] levels_rev@[h - 1 - t].valid() by {
                    if t >= i {
                        assert(levels_rev@[h - 1 - t] == prev_rev[h - 1 - t]);
                    }
                }
                assert forall|t: int, jk: K|
                    i - 1 <= t < h && #[trigger] levels_rev@[h - 1 - t].contents().contains_key(jk) implies jk < level_capacity(t as nat) by {
                    if t >= i {
                        assert(levels_rev@[h - 1 - t] == prev_rev[h - 1 - t]);
                    }
                }
                assert forall|t: int, m: K|
                    i - 1 <= t && t + 1 < h && #[trigger] levels_rev@[h - 2 - t].contents().contains_key(m)
                        && levels_rev@[h - 1 - t].contents().contains_key(m / 8) implies levels_rev@[h - 1 - t].contents()[m / 8].1.0@[(m % 8) as int]
                        == levels_rev@[h - 2 - t].contents()[m].0 by {
                    assert(levels_rev@[h - 2 - t] == prev_rev[h - 2 - t]);
                    if t >= i {
                        assert(levels_rev@[h - 1 - t] == prev_rev[h - 1 - t]);
                    } else {
                        let mq = (m / 8) as int;
                        let q = (m % 8) as int;
                        assert(levels_rev@[h - 1 - t] == level);
                        assert(level.contents().contains_key(m / 8));
                        assert(level.contents()[m / 8] == (positions@[mq], values@[mq]));
                        assert(m == mq * 8 + q);
                        assert(values@[mq].0@[q] == prev_positions[mq * 8 + q]);
                        assert(prev_rev[h - 1 - i].contents()[m].0 == prev_positions[m as int]);
                    }
                }
            }
            i -= 1;
        }
        let ghost rev = levels_rev@;
        let mut data_maps: Vec<CircuitORAM<InternalNode>> = Vec::with_capacity(h);
        while levels_rev.len() > 0
            invariant
                data_maps@.len() + levels_rev@.len() == h,
                levels_rev@ == rev.subrange(0, levels_rev@.len() as int),
                rev.len() == h,
                forall|j: int| 0 <= j < data_maps@.len() ==> #[trigger] data_maps@[j] == rev[h - 1 - j],
            decreases levels_rev@.len(),
        {
            let level = levels_rev.pop().unwrap();
            data_maps.push(level);
        }
        let mut p: usize = 0;
        while p < first_len
            invariant
                first_len == first_level.data@.len(),
                h == 0 ==> first_len == n && curr == n,
                h > 0 ==> first_len == LINEAR_MAP_SIZE && curr == LINEAR_MAP_SIZE,
                positions@.len() == curr,
                forall|j: int| 0 <= j < curr ==> #[trigger] positions@[j] < curr,
                p <= first_len,
                forall|j: int| 0 <= j < p ==> #[trigger] first_level.data@[j] == positions@[j],
            decreases first_len - p,
        {
            first_level.write(p, positions[p]);
            p += 1;
        }
        let r = RecursivePositionMap { linear_oram: first_level, recursive_orams: data_maps, h, rng, n };
        proof {
            assert forall|t: int| 0 <= t < h implies #[trigger] r.recursive_orams@[t].valid() by {
                assert(r.recursive_orams@[t] == rev[h - 1 - t]);
            }
            assert forall|t: int, j: K|
                0 <= t < h && #[trigger] r.level_map(t).contains_key(j) implies j < level_capacity(t as nat) && (r.parent_held(
                    t,
                    j as int,
                ) ==> r.level_map(t)[j].0 == r.parent_entry(t, j as int)) by {
                assert(r.recursive_orams@[t] == rev[h - 1 - t]);
                if t > 0 {
                    assert(r.recursive_orams@[t - 1] == rev[h - 1 - (t - 1)]);
                    assert(h - 2 - (t - 1) == h - 1 - t);
                }
            }
        }
        r
    }

    /// Sets the position of key `k` to `new_pos` and returns its previous position. The
    /// levels are walked with a data-independent access pattern.
    ///
    /// On a valid map in which every node on the way to `k` is held, and with a real new
    /// position: the map stays valid, the result is the position of `k`, `k` is now at
    /// `new_pos` unless a level had no room for its node, and every other key keeps its
    /// position.
    pub fn access_position(&mut self, k: K, new_pos: PositionType) -> (r: PositionType)
        requires
            old(self).wf(),
        ensures
            final(self).wf(),
            final(self).size() == old(self).size(),
            final(self).is_flat() == old(self).is_flat(),
            old(self).is_flat() && k < old(self).size() ==> r == old(self).flat_positions()[k as int],
            old(self).is_flat() && k < old(self).size() ==> final(self).flat_positions() == old(self).flat_positions().update(k as int, new_pos),
            old(self).valid() && old(self).has_position(k as int) && new_pos != DUMMY_POS ==> {
                &&& final(self).valid()
                &&& r == old(self).position(k as int)
                &&& old(self).room(k as int) ==> final(self).has_position(k as int)
                &&& final(self).has_position(k as int) ==> final(self).position(k as int) == new_pos
                &&& old(self).room(k as int) ==> forall|k2: int| #[trigger] old(self).has_position(k2) ==> final(self).has_position(k2)
                &&& forall|k2: int|
                    k2 != k && #[trigger] final(self).has_position(k2) ==> old(self).has_position(k2) && final(self).position(k2)
                        == old(self).position(k2)
            },
    {
        let ghost o = *self;
        let ghost pre = o.valid() && o.has_position(k as int) && new_pos != DUMMY_POS;
        let mut ret: PositionType = 0;
        let ghost k0 = k;
        proof {
            assert(k < 128 ==> k & 127 == k) by (bit_vector);
            assert((1usize << 7usize) == 128) by (bit_vector);
            assert(k & 127 == k % 128) by (bit_vector);
            assert(k >> 7usize == k / 128) by (bit_vector);
            reveal_with_fuel(level_capacity, 2);
        }
        let mut k = k;
        let mut curr_max_pos: usize = 1;
        let mask0 = k & MASK0;
        let mut curr_k = mask0;
        k = k >> LEVEL0_BITS;
        curr_max_pos = curr_max_pos << LEVEL0_BITS;
        let mut new_curr_pos: PositionType = if self.h == 0 {
            new_pos
        } else {
            random_below(&mut self.rng, curr_max_pos)
        };
        self.linear_oram.read_update(curr_k, new_curr_pos, &mut ret);
        let ghost lin = self.linear_oram.data@;
        let ghost ret0 = ret;
        let ghost mut nps: Seq<PositionType> = seq![new_curr_pos];
        proof {
            if self.h > 0 {
                lemma_node_key_bound(k0 as int, 0);
                assert(node_key(k0 as int, 0) == k0 % 128);
                if pre {
                    let t = 0int;
                    assert(o.level_map(t).contains_key(node_key(k0 as int, t as nat) as usize));
                    assert(o.parent_held(t, node_key(k0 as int, t as nat)));
                }
            }
        }
        let h = self.h;
        let mut i: usize = 0;
        while i < h
            invariant
                self.wf(),
                o.wf(),
                h == self.h,
                h == o.h,
                self.n == o.n,
                o == *old(self),
                pre == (o.valid() && o.has_position(k0 as int) && new_pos != DUMMY_POS),
                self.linear_oram.data@ == lin,
                i == 0 ==> ret == ret0,
                i > 0 && i == h ==> new_curr_pos == new_pos,
                h == 0 ==> new_curr_pos == new_pos,
                h > 0 ==> lin == o.linear_oram.data@.update(node_key(k0 as int, 0), nps[0]),
                i <= h,
                curr_max_pos == level_capacity(i as nat),
                nps.len() == i + 1,
                nps[i as int] == new_curr_pos,
                pre ==> forall|t: int| 0 <= t <= i ==> #[trigger] nps[t] != DUMMY_POS,
                curr_k as int == node_key(k0 as int, i as nat),
                k as int == k0 as int / level_capacity(i as nat) as int,
                forall|t: int| i <= t < h ==> #[trigger] self.recursive_orams@[t] == o.recursive_orams@[t],
                pre ==> forall|t: int| 0 <= t < i ==> #[trigger] level_step(o, *self, t, k0 as int, nps[t], nps[t + 1]),
                pre && i < h ==> ret == o.level_map(i as int)[curr_k].0,
                pre && i == h ==> ret == o.position(k0 as int),
            decreases h - i,
        {
            let ghost head = *self;
            proof {
                lemma_level_capacity_bounds(i as nat);
                lemma_level_capacity_pos(i as nat);
                lemma_shl3(curr_max_pos);
                lemma_node_key_bound(k0 as int, i as nat);
                assert(k & 7 < 8) by (bit_vector);
                assert(k & 7 == k % 8) by (bit_vector);
                assert(k >> 3usize == k / 8) by (bit_vector);
            }
            let mask = k & MASKN;
            k = k >> LEVELN_BITS;
            curr_max_pos = curr_max_pos << LEVELN_BITS;
            let pos = ret;
            let next_curr_pos = if h == i + 1 {
                new_pos
            } else {
                random_below(&mut self.rng, curr_max_pos)
            };
            let ghost before = *self;
            proof {
                if pre {
                    assert(o.recursive_orams@[i as int].valid());
                    let t = i as int;
                    assert(o.level_map(t).contains_key(node_key(k0 as int, t as nat) as usize));
                    assert(access_pre(self.recursive_orams@[i as int], pos, curr_k, new_curr_pos));
                }
            }
            let nextpos = update_node_entry(&mut self.recursive_orams[i], pos, new_curr_pos, curr_k, mask, next_curr_pos);
            proof {
                vstd::arithmetic::div_mod::lemma_div_denominator(k0 as int, level_capacity(i as nat) as int, 8);
                lemma_node_key_parent(k0 as int, i as nat);
                assert(mask == node_slot(k0 as int, i as nat));
                let ghost nps0 = nps;
                nps = nps.push(next_curr_pos);
                if pre {
                    let v = choose|v: InternalNode|
                        #![trigger v.0@]
                        {
                            &&& v.0@ == o.level_map(i as int)[curr_k].1.0@.update(mask as int, next_curr_pos)
                            &&& self.recursive_orams@[i as int].contents() == (if stash_room(o.recursive_orams@[i as int], curr_k) {
                                o.level_map(i as int).insert(curr_k, (new_curr_pos, v))
                            } else {
                                o.level_map(i as int).remove(curr_k)
                            })
                        };
                    assert(level_step(o, *self, i as int, k0 as int, nps[i as int], nps[i + 1]));
                    assert forall|t: int| 0 <= t < i + 1 implies #[trigger] level_step(o, *self, t, k0 as int, nps[t], nps[t + 1]) by {
                        if t < i {
                            assert(level_step(o, head, t, k0 as int, nps0[t], nps0[t + 1]));
                            assert(nps0[t] == nps[t] && nps0[t + 1] == nps[t + 1]);
                            assert(self.recursive_orams@[t] == head.recursive_orams@[t]);
                        }
                    }
                    if i + 1 < h {
                        lemma_node_key_bound(k0 as int, (i + 1) as nat);
                        lemma_level_capacity_bounds((i + 1) as nat);
                        let t1 = (i + 1) as int;
                        let nk1 = node_key(k0 as int, t1 as nat) as usize;
                        assert(o.level_map(t1).contains_key(nk1));
                        assert(o.parent_held(t1, nk1 as int));
                    }
                }
            }
            new_curr_pos = next_curr_pos;
            ret = nextpos;
            proof {
                assert(curr_k < 0x1000_0000 && mask < 8 ==> (curr_k << 3usize) | mask == curr_k * 8 + mask) by (bit_vector);
            }
            curr_k = (curr_k << LEVELN_BITS) | mask;
            i += 1;
        }
        proof {
            if pre {
                if h > 0 {
                    lemma_access_result(o, *self, k0 as int, nps);
                } else {
                    assert(level_capacity(0) == 128);
                    assert(self.valid());
                    assert(ret == o.position(k0 as int));
                    assert(self.has_position(k0 as int));
                    assert(self.position(k0 as int) == new_pos);
                    assert forall|k2: int| #[trigger] o.has_position(k2) implies self.has_position(k2) by {
                    }
                    assert forall|k2: int| k2 != k0 && #[trigger] self.has_position(k2) implies o.has_position(k2) && self.position(k2) == o.position(k2) by {
                    }
                }
            }
        }
        ret
    }
}

/// Level `t` of `f` is level `t` of `o` after the access on the way to key `k`: the node
/// on the way now sits at `np_t` with its entry towards `k` set to `np_next`, or is
/// dropped when the stash proper had no room for it; every other node is unchanged.
spec fn level_step(o: RecursivePositionMap, f: RecursivePositionMap, t: int, k: int, np_t: PositionType, np_next: PositionType) -> bool {
    let nk = node_key(k, t as nat) as usize;
    let om = o.level_map(t);
    let fm = f.level_map(t);
    &&& f.recursive_orams@[t].valid()
    &&& forall|j: K|
        #![trigger fm.contains_key(j)]
        #![trigger om.contains_key(j)]
        j != nk ==> fm.contains_key(j) == om.contains_key(j) && (fm.contains_key(j) ==> fm[j] == om[j])
    &&& stash_room(o.recursive_orams@[t], nk) ==> fm.contains_key(nk) && fm[nk].0 == np_t && fm[nk].1.0@ == om[nk].1.0@.update(
        node_slot(k, t as nat),
        np_next,
    )
    &&& !stash_room(o.recursive_orams@[t], nk) ==> !fm.contains_key(nk)
}

/// After an access on the way to key `k` whose levels each moved as `level_step` says,
/// the map is valid, `k` is at the last new position when every level had room, and every
/// other key keeps its position.
proof fn lemma_access_result(o: RecursivePositionMap, f: RecursivePositionMap, k: int, nps: Seq<PositionType>)
    requires
        o.valid(),
        o.has_position(k),
        o.h > 0,
        f.wf(),
        f.h == o.h,
        f.n == o.n,
        f.linear_oram.data@ == o.linear_oram.data@.update(node_key(k, 0), nps[0]),
        nps.len() == o.h + 1,
        forall|t: int| 0 <= t < o.h ==> #[trigger] level_step(o, f, t, k, nps[t], nps[t + 1]),
    ensures
        f.valid(),
        o.room(k) ==> f.has_position(k) && f.position(k) == nps[o.h as int],
        f.has_position(k) ==> o.room(k),
        o.room(k) ==> forall|k2: int| #[trigger] o.has_position(k2) ==> f.has_position(k2),
        forall|k2: int| k2 != k && #[trigger] f.has_position(k2) ==> o.has_position(k2) && f.position(k2) == o.position(k2),
{
    let h = o.h as int;
    assert forall|t: int| 0 <= t < h implies #[trigger] f.recursive_orams@[t].valid() by {
        assert(level_step(o, f, t, k, nps[t], nps[t + 1]));
    }
    assert forall|t: int, j: K|
        0 <= t < h && #[trigger] f.level_map(t).contains_key(j) implies j < level_capacity(t as nat) && (f.parent_held(t, j as int)
            ==> f.level_map(t)[j].0 == f.parent_entry(t, j as int)) by {
        assert(level_step(o, f, t, k, nps[t], nps[t + 1]));
        let nk = node_key(k, t as nat) as usize;
        lemma_node_key_bound(k, t as nat);
        lemma_level_capacity_bounds(t as nat);
        assert(o.level_map(t).contains_key(nk));
        if j != nk {
            assert(o.level_map(t).contains_key(j));
        }
        if f.parent_held(t, j as int) {
            if t == 0 {
                if j != nk {
                    assert(o.level_map(0)[j].0 == o.parent_entry(0, j as int));
                }
            } else {
                let pk = node_key(k, (t - 1) as nat) as usize;
                assert(level_step(o, f, t - 1, k, nps[t - 1], nps[t - 1 + 1]));
                lemma_node_key_parent(k, (t - 1) as nat);
                lemma_node_key_bound(k, (t - 1) as nat);
                lemma_level_capacity_bounds((t - 1) as nat);
                assert(o.level_map(t - 1).contains_key(pk));
                let p = (j / 8) as usize;
                if j == nk {
                    assert(p == pk);
                } else {
                    if p != pk {
                        assert(o.level_map(t - 1).contains_key(p));
                        assert(o.parent_held(t, j as int));
                    } else {
                        assert(j == p * 8 + j % 8);
                        assert(nk == pk * 8 + node_slot(k, (t - 1) as nat));
                        assert(j % 8 != node_slot(k, (t - 1) as nat));
                        assert(o.parent_held(t, j as int));
                    }
                }
            }
        }
    }
    if f.has_position(k) {
        assert forall|t: int| 0 <= t < h implies stash_room(#[trigger] o.recursive_orams@[t], node_key(k, t as nat) as usize) by {
            assert(level_step(o, f, t, k, nps[t], nps[t + 1]));
            assert(f.level_map(t).contains_key(node_key(k, t as nat) as usize));
        }
    }
    if o.room(k) {
        assert forall|t: int| 0 <= t < h implies #[trigger] f.level_map(t).contains_key(node_key(k, t as nat) as usize) by {
            assert(level_step(o, f, t, k, nps[t], nps[t + 1]));
            assert(stash_room(o.recursive_orams@[t], node_key(k, t as nat) as usize));
        }
        assert(level_step(o, f, h - 1, k, nps[h - 1], nps[h - 1 + 1]));
        assert(stash_room(o.recursive_orams@[h - 1], node_key(k, (h - 1) as nat) as usize));
        assert forall|k2: int| #[trigger] o.has_position(k2) implies f.has_position(k2) by {
            assert forall|t: int| 0 <= t < h implies #[trigger] f.level_map(t).contains_key(node_key(k2, t as nat) as usize) by {
                assert(level_step(o, f, t, k, nps[t], nps[t + 1]));
                assert(stash_room(o.recursive_orams@[t], node_key(k, t as nat) as usize));
                assert(o.level_map(t).contains_key(node_key(k2, t as nat) as usize));
            }
        }
    }
    assert forall|k2: int| k2 != k && #[trigger] f.has_position(k2) implies o.has_position(k2) && f.position(k2) == o.position(k2) by {
        assert forall|t: int| 0 <= t < h implies #[trigger] o.level_map(t).contains_key(node_key(k2, t as nat) as usize) by {
            assert(level_step(o, f, t, k, nps[t], nps[t + 1]));
            assert(f.level_map(t).contains_key(node_key(k2, t as nat) as usize));
            assert(o.level_map(t).contains_key(node_key(k, t as nat) as usize));
        }
        let u = (h - 1) as nat;
        assert(level_step(o, f, h - 1, k, nps[h - 1], nps[h - 1 + 1]));
        lemma_level_capacity_bounds(u);
        let l2 = node_key(k2, u) as usize;
        assert(f.level_map(h - 1).contains_key(l2));
        if l2 == node_key(k, u) as usize {
            lemma_node_key_bound(k, u);
            lemma_node_key_bound(k2, u);
            assert(f.level_map(h - 1).contains_key(node_key(k, u) as usize));
            assert(stash_room(o.recursive_orams@[h - 1], node_key(k, u) as usize));
            if node_slot(k2, u) == node_slot(k, u) {
                assert(u + 1 == h);
                lemma_node_entry_unique(k, k2, u);
            }
            lemma_node_key_parent(k, u);
            lemma_node_key_parent(k2, u);
        }
    }
}

impl Length for RecursivePositionMap {
    closed spec fn len_spec(&self) -> nat {
        self.n as nat
    }

    fn len(&self) -> (r: usize) {
        self.n
    }
}

/// The length of a position map is its number of keys.
pub proof fn lemma_position_map_len(m: RecursivePositionMap)
    ensures
        m.len_spec() == m.size(),
{
}

/// Key of the node at recursive level `t` on the way to the position of key `k`: the
/// first-level bits of `k`, followed by one group of bits per level.
pub open spec fn node_key(k: int, t: nat) -> int
    decreases t,
{
    if t == 0 {
        k % 128
    } else {
        node_key(k, (t - 1) as nat) * 8 + node_slot(k, (t - 1) as nat)
    }
}

/// Entry of the node at recursive level `t` that leads towards key `k`.
pub open spec fn node_slot(k: int, t: nat) -> int {
    (k / level_capacity(t) as int) % 8
}

/// A node key lies below the number of nodes of its level.
proof fn lemma_node_key_bound(k: int, t: nat)
    requires
        0 <= k,
    ensures
        0 <= node_key(k, t) < level_capacity(t),
    decreases t,
{
    if t > 0 {
        lemma_node_key_bound(k, (t - 1) as nat);
        lemma_level_capacity_pos((t - 1) as nat);
    }
}

/// The node at level `t + 1` on the way to `k` is entry `node_slot(k, t)` of the node at
/// level `t`.
proof fn lemma_node_key_parent(k: int, t: nat)
    requires
        0 <= k,
    ensures
        node_key(k, t + 1) / 8 == node_key(k, t),
        node_key(k, t + 1) % 8 == node_slot(k, t),
        0 <= node_slot(k, t) < 8,
{
    lemma_level_capacity_pos(t);
    vstd::arithmetic::div_mod::lemma_fundamental_div_mod_converse(node_key(k, t + 1), 8, node_key(k, t), node_slot(k, t));
}

/// Equal node keys at level `t` come from keys equal modulo the capacity of level `t`.
proof fn lemma_node_key_determines(k1: int, k2: int, t: nat)
    requires
        0 <= k1,
        0 <= k2,
        node_key(k1, t) == node_key(k2, t),
    ensures
        k1 % level_capacity(t) as int == k2 % level_capacity(t) as int,
    decreases t,
{
    if t > 0 {
        let u = (t - 1) as nat;
        lemma_node_key_parent(k1, u);
        lemma_node_key_parent(k2, u);
        lemma_node_key_determines(k1, k2, u);
        let c = level_capacity(u) as int;
        lemma_level_capacity_pos(u);
        vstd::arithmetic::div_mod::lemma_breakdown(k1, c, 8);
        vstd::arithmetic::div_mod::lemma_breakdown(k2, c, 8);
        assert(level_capacity(t) == c * 8);
    }
}

/// Two keys below the capacity of level `t + 1` that reach the same entry of the same node
/// at level `t` are equal.
proof fn lemma_node_entry_unique(k1: int, k2: int, t: nat)
    requires
        0 <= k1 < level_capacity(t + 1),
        0 <= k2 < level_capacity(t + 1),
        node_key(k1, t) == node_key(k2, t),
        node_slot(k1, t) == node_slot(k2, t),
    ensures
        k1 == k2,
{
    assert(node_key(k1, t + 1) == node_key(k2, t + 1));
    lemma_node_key_determines(k1, k2, t + 1);
    vstd::arithmetic::div_mod::lemma_small_mod(k1 as nat, level_capacity(t + 1));
    vstd::arithmetic::div_mod::lemma_small_mod(k2 as nat, level_capacity(t + 1));
}

proof fn lemma_level_capacity_pos(t: nat)
    ensures
        level_capacity(t) >= 128,
        level_capacity(t + 1) == 8 * level_capacity(t),
    decreases t,
{
    if t > 0 {
        lemma_level_capacity_pos((t - 1) as nat);
    }
}

/// Number of leaves below the first level when there are `h` recursive levels:
/// `LINEAR_MAP_SIZE * FAN_OUT^h`.
pub open spec fn level_capacity(h: nat) -> nat
    decreases h,
{
    if h == 0 {
        128
    } else {
        8 * level_capacity((h - 1) as nat)
    }
}

proof fn lemma_shl3(x: usize)
    by (bit_vector)
    requires
        x <= 0x1000_0000,
    ensures
        x << 3usize == x * 8,
{
}

proof fn lemma_level_capacity_bounds(i: nat)
    requires
        i <= 7,
    ensures
        128 <= level_capacity(i) <= 0x1000_0000,
        level_capacity(i + 1) == 8 * level_capacity(i),
{
    reveal_with_fuel(level_capacity, 9);
    assert(i == 0 || i == 1 || i == 2 || i == 3 || i == 4 || i == 5 || i == 6 || i == 7);
}

} // verus!
