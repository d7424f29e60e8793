//! An oblivious stack: a linked list of elements stored in a Circuit ORAM.
use vstd::prelude::*;
use rand::rngs::ThreadRng;
use crate::oram::circuit_oram::{CircuitORAM, stash_room};
use crate::oram::prelude::{PositionType, DUMMY_POS, K};
use crate::primitives::indexable::Length;
use crate::primitives::traits::Cmov;
use crate::random::{thread_rng, random_below};

verus! {

/// An element of the stack: a value and the position of the element below it.
#[derive(Debug, Clone, Copy)]
pub struct StackElement<T> {
    /// The value.
    pub value: T,
    /// ORAM position of the element below.
    pub next: PositionType,
}

impl<T: Default> Default for StackElement<T> {
    fn default() -> (r: Self)
        ensures
            r.next == 0,
    {
        StackElement { value: T::default(), next: 0 }
    }
}

impl<T: Cmov + Copy> Cmov for StackElement<T> {
    fn cmov(&mut self, other: &Self, choice: bool) {
        self.value.cmov(&other.value, choice);
        self.next.cmov(&other.next, choice);
    }

    fn cxchg(&mut self, other: &mut Self, choice: bool) {
        let tmp = *self;
        self.cmov(other, choice);
        other.cmov(&tmp, choice);
    }
}

/// A stack with a fixed maximum size whose access pattern and size are oblivious. It is a
/// linked list on top of a Circuit ORAM: the element at depth `d` from the bottom has ORAM
/// key `d + 1`.
#[derive(Debug)]
pub struct Stack<T> {
    /// The elements.
    oram: CircuitORAM<StackElement<T>>,
    /// ORAM position of the top element.
    top: PositionType,
    /// Number of elements.
    size: usize,
    /// Random source for positions.
    rng: ThreadRng,
}

impl<T> Stack<T> {
    /// The ORAM is well formed and the size within its capacity.
    pub closed spec fn wf(&self) -> bool {
        self.oram.wf() && self.size <= self.oram.max_n
    }

    /// Number of elements on the stack.
    pub closed spec fn size(&self) -> nat {
        self.size as nat
    }

    /// Maximum number of elements.
    pub closed spec fn capacity(&self) -> nat {
        self.oram.max_n as nat
    }

    /// Well formed, and the ORAM holds exactly the keys `1..=size`, each element linked to
    /// the position of the one below it, with `top` the position of the topmost.
    pub closed spec fn valid(&self) -> bool {
        &&& self.wf()
        &&& self.oram.valid()
        &&& forall|k: K| #[trigger] self.oram.contents().contains_key(k) <==> 1 <= k <= self.size
        &&& forall|k: K| 2 <= k <= self.size ==> #[trigger] self.oram.contents()[k].1.next == self.oram.contents()[(k - 1) as K].0
        &&& self.size >= 1 ==> self.top == self.oram.contents()[self.size as K].0
    }

    /// The ORAM's stash has room for the element a push would store.
    pub closed spec fn push_room(&self) -> bool {
        stash_room(self.oram, (self.size + 1) as K)
    }
}

impl<T> View for Stack<T> {
    type V = Seq<T>;

    /// The elements from the bottom of the stack to its top.
    closed spec fn view(&self) -> Seq<T> {
        Seq::new(self.size as nat, |i: int| self.oram.contents()[(i + 1) as K].1.value)
    }
}

impl<T: Cmov + Copy + Default> Stack<T> {
    /// Creates a new stack for at least `max_size` elements (rounded up to a power of two).
    pub fn new(max_size: usize) -> (r: Self)
        requires
            1 < max_size <= 0x1000_0000,
        ensures
            r.wf(),
            r.valid(),
            r@ == Seq::<T>::empty(),
            r.size() == 0,
            r.capacity() >= max_size,
    {
        let oram = CircuitORAM::new(max_size);
        proof {
            crate::primitives::utils::lemma_pow2_above((max_size - 1) as int);
        }
        let r = Stack { oram, top: DUMMY_POS, size: 0, rng: thread_rng() };
        proof {
            assert(r@ =~= Seq::<T>::empty());
        }
        r
    }

    /// Pushes `value` if `real_op` is true; otherwise goes through the same motions and
    /// leaves the stack as it was.
    ///
    /// On a valid stack a real push puts `value` on top, provided the ORAM's stash has room
    /// for it (else the element is lost, which happens with negligible probability); a dummy
    /// push changes nothing.
    pub fn maybe_push(&mut self, real_op: bool, value: T)
        requires
            old(self).wf(),
            real_op ==> old(self).size() < old(self).capacity(),
        ensures
            final(self).wf(),
            final(self).capacity() == old(self).capacity(),
            final(self).size() == (if real_op { old(self).size() + 1 } else { old(self).size() }),
            old(self).valid() && real_op && old(self).push_room() ==> final(self).valid() && final(self)@ == old(self)@.push(value),
            old(self).valid() && !real_op ==> final(self).valid() && final(self)@ == old(self)@,
    {
        let ghost o = self.oram;
        let new_id = self.size.wrapping_add(1);
        let max_n = self.oram.max_n;
        let read_pos = random_below(&mut self.rng, max_n);
        let mut new_pos = random_below(&mut self.rng, max_n);
        new_pos.cmov(&DUMMY_POS, !real_op);
        let wv = StackElement { value, next: self.top };
        proof {
            if old(self).valid() {
                assert(!o.contents().contains_key(new_id));
            }
        }
        let _found = self.oram.write_or_insert(read_pos, new_pos, new_id, wv);
        self.top.cmov(&new_pos, real_op);
        self.size.cmov(&new_id, real_op);
        proof {
            if old(self).valid() {
                let c = o.contents();
                let c2 = self.oram.contents();
                if real_op && old(self).push_room() {
                    assert(c2 == c.insert(new_id, (new_pos, wv)));
                    assert(self@ =~= old(self)@.push(value));
                } else if !real_op {
                    assert(c2 =~= c);
                    assert(self@ =~= old(self)@);
                }
            }
        }
    }

    /// Pops the top element into `out` if `real_op` is true; otherwise goes through the
    /// same motions and leaves the stack and `out` as they were.
    ///
    /// On a valid stack a real pop hands out the top element and removes it; a dummy pop
    /// changes nothing.
    pub fn maybe_pop(&mut self, real_op: bool, out: &mut T)
        requires
            old(self).wf(),
            real_op ==> old(self).size() > 0,
        ensures
            final(self).wf(),
            final(self).capacity() == old(self).capacity(),
            final(self).size() == (if real_op { (old(self).size() - 1) as nat } else { old(self).size() }),
            !real_op ==> *final(out) == *old(out),
            old(self).valid() && real_op ==> final(self).valid() && *final(out) == old(self)@.last() && final(self)@ == old(self)@.drop_last(),
            old(self).valid() && !real_op ==> final(self).valid() && final(self)@ == old(self)@,
    {
        let ghost o = self.oram;
        // Keys run from 1 to the size, so a dummy pop looks up key 0, which is never held.
        let mut target_id: usize = 0;
        target_id.cmov(&self.size, real_op);
        let max_n = self.oram.max_n;
        let mut read_pos = random_below(&mut self.rng, max_n);
        read_pos.cmov(&self.top, real_op);
        // A real pop removes the top element; a dummy one leaves the ORAM's contents as
        // they were.
        let mut new_pos = self.top;
        new_pos.cmov(&DUMMY_POS, real_op);
        let mut imse = StackElement::default();
        self.oram.read(read_pos, new_pos, target_id, &mut imse);
        out.cmov(&imse.value, real_op);
        self.top.cmov(&imse.next, real_op);
        let prev = self.size.wrapping_sub(1);
        self.size.cmov(&prev, real_op);
        proof {
            if old(self).valid() {
                let c = o.contents();
                let c2 = self.oram.contents();
                if real_op {
                    assert(c2 == c.remove(target_id));
                    assert(self@ =~= old(self)@.drop_last());
                } else {
                    assert(!c.contains_key(0));
                    assert(c.remove(0) =~= c);
                    assert(c2 =~= c);
                    assert(self@ =~= old(self)@);
                }
            }
        }
    }
}

impl<T> Length for Stack<T> {
    closed spec fn len_spec(&self) -> nat {
        self.size as nat
    }

    fn len(&self) -> (r: usize) {
        self.size
    }
}

} // verus!
