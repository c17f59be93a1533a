//! The storage blocks and the queue built on them.

use crate::index::{
    lemma_level_at_start, lemma_level_bounds, lemma_level_mono, lemma_level_step, level,
    level_offset, level_start, locate_inner, locate_outer, outer_index, pow2_usize, split_index,
};
use std::collections::VecDeque;
use vstd::arithmetic::power2::{
    lemma2_to64, lemma_pow2_adds, lemma_pow2_pos, lemma_pow2_strictly_increases, pow2,
};
use vstd::math::min;
use vstd::prelude::*;

verus! {

broadcast use lemma_pow2_pos;

/// Relies on `VecDeque::get_mut`: a mutable reference to the element at
/// `index`, or `None` when `index` is out of bounds.
#[verifier::external_body]
fn deque_get_mut<T>(v: &mut VecDeque<T>, index: usize) -> (r: Option<&mut T>)
    ensures
        index < old(v)@.len() ==> r.is_some() && *r.unwrap() == old(v)@[index as int]
            && final(v)@ == old(v)@.update(index as int, *final(r.unwrap())),
        index >= old(v)@.len() ==> r.is_none() && final(v)@ == old(v)@,
{
    v.get_mut(index)
}

/// A fixed-capacity storage segment holding a contiguous run of elements.
///
/// A block never moves an element after insertion: removal from the front
/// advances its internal start without shifting the remaining elements, and
/// its backing storage is reserved once, at creation, so that appends up to
/// the fixed capacity never reallocate it.
pub struct Block<T> {
    items: VecDeque<T>,
    capacity: usize,
}

impl<T> View for Block<T> {
    type V = Seq<T>;

    closed spec fn view(&self) -> Seq<T> {
        self.items@
    }
}

impl<T> Block<T> {
    /// The capacity fixed at creation.
    pub closed spec fn cap(&self) -> nat {
        self.capacity as nat
    }

    /// A block with room for exactly `capacity` elements and none present.
    pub fn new(capacity: usize) -> (b: Block<T>)
        ensures
            b@ == Seq::<T>::empty(),
            b.cap() == capacity,
    {
        Block { items: VecDeque::with_capacity(capacity), capacity }
    }

    /// True iff no live elements remain.
    pub fn is_empty(&self) -> (r: bool)
        ensures
            r == (self@.len() == 0),
    {
        self.items.len() == 0
    }

    /// The element at `index` counted from this block's current front, or
    /// `None` when `index` is out of bounds.
    pub fn get(&self, index: usize) -> (r: Option<&T>)
        ensures
            match r {
                Some(v) => index < self@.len() && *v == self@[index as int],
                None => index >= self@.len(),
            },
    {
        if index < self.items.len() {
            Some(&self.items[index])
        } else {
            None
        }
    }

    /// Like `get`, but mutable: writing through the reference replaces the
    /// element at `index` in place.
    pub fn get_mut(&mut self, index: usize) -> (r: Option<&mut T>)
        ensures
            final(self).cap() == old(self).cap(),
            index < old(self)@.len() ==> r.is_some() && *r.unwrap() == old(self)@[index as int]
                && final(self)@ == old(self)@.update(index as int, *final(r.unwrap())),
            index >= old(self)@.len() ==> r.is_none() && final(self)@ == old(self)@,
    {
        deque_get_mut(&mut self.items, index)
    }

    /// Appends at the block's current logical end. Appending to a full block
    /// is a contract violation, not a runtime condition: it would mean the
    /// index arithmetic upstream is broken.
    pub fn push_back(&mut self, item: T)
        requires
            old(self)@.len() < old(self).cap(),
        ensures
            final(self)@ == old(self)@.push(item),
            final(self).cap() == old(self).cap(),
    {
        self.items.push_back(item);
    }

    /// Destroys the front element and advances the block's front by one.
    /// Calling this on an empty block is a contract violation.
    pub fn pop_front(&mut self)
        requires
            old(self)@.len() > 0,
        ensures
            final(self)@ == old(self)@.subrange(1, old(self)@.len() as int),
            final(self).cap() == old(self).cap(),
    {
        let _ = self.items.pop_front();
    }

    /// Destroys the element at `index` and stores `item` in its place; the
    /// slot is reused, never reallocated.
    pub fn replace(&mut self, index: usize, item: T)
        requires
            index < old(self)@.len(),
        ensures
            final(self)@ == old(self)@.update(index as int, item),
            final(self).cap() == old(self).cap(),
    {
        let slot = deque_get_mut(&mut self.items, index);
        *slot.unwrap() = item;
    }
}

/// A growable first-in-first-out sequence container whose elements never
/// move once inserted.
///
/// Storage is an ordered sequence of blocks of geometrically increasing
/// capacity. `head` is the absolute position (counted over the queue's whole
/// lifetime, never reset) of the current front element; it only increases.
/// The block at physical offset `d` holds exactly the live absolute
/// positions of level `level(head) + d`, so a logical index is resolved by
/// pure arithmetic and no element is ever copied between blocks.
pub struct PinnedQueue<T> {
    blocks: VecDeque<Block<T>>,
    head: usize,
    len: usize,
}

impl<T> View for PinnedQueue<T> {
    type V = Seq<T>;

    /// The live elements in front-to-back order.
    closed spec fn view(&self) -> Seq<T> {
        Seq::new(
            self.len as nat,
            |i: int|
                self.blocks@[locate_outer(self.head as nat, i as nat) as int]@[locate_inner(
                    self.head as nat,
                    i as nat,
                ) as int],
        )
    }
}

impl<T> PinnedQueue<T> {
    /// The absolute position of the current front element: the number of
    /// elements ever removed from the front.
    pub closed spec fn head_pos(&self) -> nat {
        self.head as nat
    }

    /// How many blocks the queue currently owns.
    pub closed spec fn block_count(&self) -> nat {
        self.blocks@.len()
    }

    /// First absolute position held by the block at physical offset `d`.
    spec fn block_lo(&self, d: int) -> nat {
        if d == 0 {
            self.head as nat
        } else {
            level_start((level(self.head as nat) + d) as nat)
        }
    }

    /// One past the last absolute position held by the block at physical
    /// offset `d`: its level range ends there, or the queue does.
    spec fn block_hi(&self, d: int) -> nat {
        min(
            self.head + self.len,
            level_start((level(self.head as nat) + d + 1) as nat) as int,
        ) as nat
    }

    /// The structural invariant: the blocks exactly tile the absolute range
    /// `[head, head + len)` according to the level partition, relative to
    /// `head`, and each block's capacity is the size of its level.
    pub closed spec fn wf(&self) -> bool {
        let h = self.head as nat;
        let n = self.len as nat;
        let lh = level(h);
        &&& h + n <= usize::MAX
        &&& (n == 0 ==> self.blocks@.len() == 0)
        &&& (n > 0 ==> {
            &&& self.blocks@.len() == level((h + n - 1) as nat) - lh + 1
            &&& forall|d: int|
                0 <= d < self.blocks@.len() ==> {
                    &&& (#[trigger] self.blocks@[d]).cap() == pow2((lh + d) as nat)
                    &&& self.blocks@[d]@.len() == self.block_hi(d) - self.block_lo(d)
                }
        })
    }

    /// An empty queue: no blocks, nothing ever removed.
    pub fn new() -> (q: PinnedQueue<T>)
        ensures
            q.wf(),
            q@ == Seq::<T>::empty(),
            q.head_pos() == 0,
    {
        let q = PinnedQueue { blocks: VecDeque::new(), head: 0, len: 0 };
        proof {
            assert(q@ =~= Seq::<T>::empty());
        }
        q
    }

    /// Returns the number of elements in the queue.
    pub fn len(&self) -> (n: usize)
        ensures
            n == self@.len(),
    {
        self.len
    }

    /// True iff the queue holds no elements.
    pub fn is_empty(&self) -> (r: bool)
        ensures
            r == (self@.len() == 0),
    {
        self.len == 0
    }

    /// Once every element has been removed, no block is retained: draining
    /// the queue frees all of its storage segments.
    pub proof fn lemma_empty_owns_no_blocks(&self)
        requires
            self.wf(),
            self@.len() == 0,
        ensures
            self.block_count() == 0,
    {
    }

    /// Capacity growth: the number of blocks a queue owns is logarithmic in
    /// the number of elements currently live. Together with the contract of
    /// `push_back` — which succeeds on every input below the machine limit
    /// and allocates at most one block — this is the growth guarantee:
    /// appends never fail, and `n` live elements take at most
    /// `level(n - 1) + 2`, that is `floor(log2(n)) + 2`, blocks.
    pub proof fn lemma_block_count_logarithmic(&self)
        requires
            self.wf(),
            self@.len() > 0,
        ensures
            self.block_count() <= level((self@.len() - 1) as nat) + 2,
    {
        let h = self.head as nat;
        let n = self.len as nat;
        let lh = level(h);
        let m = self.blocks@.len();
        lemma_level_mono(h, (h + n - 1) as nat);
        lemma_level_bounds(h);
        lemma_level_bounds((h + n - 1) as nat);
        lemma_level_bounds((n - 1) as nat);
        if m >= 3 {
            // everything from the start of the second level through the
            // start of the last is live, which forces n to be large
            assert(h + n - 1 >= level_start((lh + m - 1) as nat));
            assert(h < level_start((lh + 1) as nat));
            lemma_pow2_adds((lh + 1) as nat, (m - 2) as nat);
            lemma_pow2_strictly_increases(0, (lh + 1) as nat);
            lemma2_to64();
            assert(pow2((lh + m - 1) as nat) - pow2((lh + 1) as nat) >= pow2((m - 2) as nat)
                - 1) by (nonlinear_arith)
                requires
                    pow2((lh + m - 1) as nat) == pow2((lh + 1) as nat) * pow2((m - 2) as nat),
                    pow2((lh + 1) as nat) >= 2,
                    pow2((m - 2) as nat) >= 1,
            {}
            assert(n > pow2((m - 2) as nat));
            assert(m - 2 < level((n - 1) as nat) + 1) by {
                if level((n - 1) as nat) + 1 <= m - 2 {
                    if level((n - 1) as nat) + 1 < m - 2 {
                        lemma_pow2_strictly_increases(
                            level((n - 1) as nat) + 1,
                            (m - 2) as nat,
                        );
                    }
                }
            }
        }
    }

    /// Under the invariant, every live logical index resolves to a block
    /// that exists and a slot that is in bounds.
    proof fn lemma_locate_valid(&self, i: nat)
        requires
            self.wf(),
            i < self.len,
        ensures
            locate_outer(self.head as nat, i) < self.blocks@.len(),
            locate_inner(self.head as nat, i) < self.blocks@[locate_outer(
                self.head as nat,
                i,
            ) as int]@.len(),
    {
        let h = self.head as nat;
        let n = self.len as nat;
        let a = (h + i) as nat;
        let lh = level(h);
        let la = level(a);
        lemma_level_mono(h, a);
        lemma_level_mono(a, (h + n - 1) as nat);
        lemma_level_bounds(a);
        lemma_level_bounds(h);
        let d = locate_outer(h, i);
        assert(d < self.blocks@.len());
        assert(self.blocks@[d as int]@.len() == self.block_hi(d as int) - self.block_lo(d as int));
        if la == lh {
            assert(a + 1 < pow2(lh + 1));
        } else {
            assert(la == lh + d);
            assert(a < level_start((la + 1) as nat));
        }
    }

    /// Distinct live logical indices resolve to distinct physical slots: the
    /// coordinates determine the absolute position.
    proof fn lemma_locate_injective(&self, i: nat, j: nat)
        requires
            self.wf(),
            i < self.len,
            j < self.len,
            locate_outer(self.head as nat, i) == locate_outer(self.head as nat, j),
            locate_inner(self.head as nat, i) == locate_inner(self.head as nat, j),
        ensures
            i == j,
    {
        let h = self.head as nat;
        lemma_level_mono(h, (h + i) as nat);
        lemma_level_mono(h, (h + j) as nat);
        lemma_level_bounds((h + i) as nat);
        lemma_level_bounds((h + j) as nat);
    }

    /// Provides a reference to the element at the given index, or `None`
    /// when `index` is at or beyond the current length.
    pub fn get(&self, index: usize) -> (r: Option<&T>)
        requires
            self.wf(),
        ensures
            match r {
                Some(v) => index < self@.len() && *v == self@[index as int],
                None => index >= self@.len(),
            },
    {
        if index >= self.len {
            None
        } else {
            proof {
                self.lemma_locate_valid(index as nat);
            }
            let (outer, inner) = split_index(self.head, index);
            self.blocks[outer].get(inner)
        }
    }

    /// Provides a mutable reference to the element at the given index, or
    /// `None` when `index` is at or beyond the current length. Writing
    /// through the reference replaces that element in place and touches no
    /// other element.
    pub fn get_mut(&mut self, index: usize) -> (r: Option<&mut T>)
        requires
            old(self).wf(),
        ensures
            final(self).wf(),
            final(self).head_pos() == old(self).head_pos(),
            final(self)@.len() == old(self)@.len(),
            index >= old(self)@.len() ==> r.is_none() && final(self)@ == old(self)@,
            index < old(self)@.len() ==> r.is_some() && *r.unwrap() == old(self)@[index as int]
                && final(self)@[index as int] == *final(r.unwrap()) && (forall|j: int|
                0 <= j < old(self)@.len() && j != index ==> final(self)@[j] == old(self)@[j]),
    {
        if index >= self.len {
            None
        } else {
            proof {
                self.lemma_locate_valid(index as nat);
                let h = self.head as nat;
                assert forall|j: int| 0 <= j < self.len && j != index implies (#[trigger]
                locate_outer(h, j as nat) != locate_outer(h, index as nat) || locate_inner(
                    h,
                    j as nat,
                ) != locate_inner(h, index as nat)) && locate_outer(h, j as nat)
                    < self.blocks@.len() && locate_inner(h, j as nat) < self.blocks@[locate_outer(
                    h,
                    j as nat,
                ) as int]@.len() by {
                    self.lemma_locate_valid(j as nat);
                    if locate_outer(h, j as nat) == locate_outer(h, index as nat)
                        && locate_inner(h, j as nat) == locate_inner(h, index as nat) {
                        self.lemma_locate_injective(j as nat, index as nat);
                    }
                }
            }
            let (outer, inner) = split_index(self.head, index);
            let blk = deque_get_mut(&mut self.blocks, outer).unwrap();
            blk.get_mut(inner)
        }
    }

    /// Provides a mutable reference to the last element, or `None` when the
    /// queue is empty.
    pub fn last_mut(&mut self) -> (r: Option<&mut T>)
        requires
            old(self).wf(),
        ensures
            final(self).wf(),
            final(self).head_pos() == old(self).head_pos(),
            final(self)@.len() == old(self)@.len(),
            old(self)@.len() == 0 ==> r.is_none() && final(self)@ == old(self)@,
            old(self)@.len() > 0 ==> r.is_some() && *r.unwrap() == old(self)@.last()
                && final(self)@.last() == *final(r.unwrap()) && (forall|j: int|
                0 <= j < old(self)@.len() - 1 ==> final(self)@[j] == old(self)@[j]),
    {
        if self.len == 0 {
            None
        } else {
            self.get_mut(self.len - 1)
        }
    }

    /// Appends an element to the end of the queue, never moving the elements
    /// already stored: it either fills the tail block or allocates exactly
    /// one new block of twice the previous capacity.
    pub fn push_back(&mut self, item: T)
        requires
            old(self).wf(),
            old(self).head_pos() + old(self)@.len() < usize::MAX,
        ensures
            final(self).wf(),
            final(self)@ == old(self)@.push(item),
            final(self).head_pos() == old(self).head_pos(),
            final(self).block_count() <= old(self).block_count() + 1,
    {
        let ghost h = self.head as nat;
        let ghost n = self.len as nat;
        let ghost p = (h + n) as nat;
        let ghost lh = level(h);
        let ghost lp = level(p);
        let ghost m = self.blocks@.len();
        proof {
            lemma_level_mono(h, p);
            lemma_level_bounds(p);
            lemma_level_bounds(h);
            if n > 0 {
                lemma_level_step((p - 1) as nat);
                lemma_level_bounds((p - 1) as nat);
                lemma_level_mono((p - 1) as nat, p);
            }
        }
        let head_outer = outer_index(self.head);
        let outer = outer_index(self.head + self.len);
        let outer_rel = outer - head_outer;
        if outer_rel >= self.blocks.len() {
            proof {
                assert(lp - lh == m);
                if n > 0 {
                    // the new position starts the next level
                    assert(level_offset(p) == 0);
                }
            }
            let cap = pow2_usize(outer);
            self.blocks.push_back(Block::new(cap));
        }
        proof {
            assert(self.blocks@[(lp - lh) as int]@.len() < pow2(lp)) by {
                if lp == lh {
                    assert(h >= level_start(lh));
                } else {
                    assert(self.block_lo((lp - lh) as int) == level_start(lp));
                }
            }
        }
        let blk = deque_get_mut(&mut self.blocks, outer_rel).unwrap();
        blk.push_back(item);
        self.len = self.len + 1;
        proof {
            let mf = self.blocks@.len();
            assert forall|d: int| 0 <= d < mf implies (#[trigger] self.blocks@[d]).cap() == pow2(
                (lh + d) as nat,
            ) && self.blocks@[d]@.len() == self.block_hi(d) - self.block_lo(d) by {
                if d < mf - 1 {
                    // every block below the tail is already full: its level
                    // range ends at or before the new position
                    assert(level_start((lh + d + 1) as nat) <= p) by {
                        if ((lh + d + 1) as nat) < lp {
                            lemma_pow2_strictly_increases((lh + d + 1) as nat, lp);
                        }
                    }
                }
            }
            assert(self.wf());
            assert forall|i: int| 0 <= i < n implies self@[i] == old(self)@[i] by {
                old(self).lemma_locate_valid(i as nat);
            }
            assert(self@[n as int] == item) by {
                if lp != lh {
                    assert(level_offset(p) == p - level_start(lp));
                }
            }
            assert(self@ =~= old(self)@.push(item));
        }
    }

    /// Removes the first element and returns `true`, or `false` if the queue
    /// is empty. The element is destroyed in place; when the front block
    /// becomes empty it is discarded and the next block becomes the front.
    pub fn pop_front(&mut self) -> (b: bool)
        requires
            old(self).wf(),
        ensures
            final(self).wf(),
            b == (old(self)@.len() > 0),
            b ==> final(self)@ == old(self)@.subrange(1, old(self)@.len() as int),
            b ==> final(self).head_pos() == old(self).head_pos() + 1,
            !b ==> *final(self) == *old(self),
    {
        if self.is_empty() {
            return false;
        }
        let ghost h = self.head as nat;
        let ghost n = self.len as nat;
        let ghost lh = level(h);
        let ghost m = self.blocks@.len();
        proof {
            lemma_level_bounds(h);
            lemma_level_step(h);
            lemma_level_mono(h, (h + n - 1) as nat);
            assert(self.blocks@[0]@.len() > 0);
        }
        self.len = self.len - 1;
        self.head = self.head + 1;
        let blk = deque_get_mut(&mut self.blocks, 0).unwrap();
        blk.pop_front();
        if self.blocks[0].is_empty() {
            let _ = self.blocks.pop_front();
        }
        proof {
            let h1 = (h + 1) as nat;
            lemma_pow2_adds(lh, 1);
            lemma2_to64();
            let len0 = min((h + n) as int, level_start(lh + 1) as int) - h;
            let discard = len0 == 1;
            if n > 1 {
                lemma_level_mono(h1, (h + n - 1) as nat);
                lemma_level_bounds((h + n - 1) as nat);
                if discard {
                    // the head crossed a level boundary: the front block is
                    // gone and every later block moves down one slot
                    assert(level_offset(h) == pow2(lh) - 1);
                    assert(level(h1) == lh + 1 && level_offset(h1) == 0);
                    lemma_level_at_start((lh + 1) as nat);
                } else {
                    assert(level(h1) == lh);
                }
            }
            let mf = self.blocks@.len();
            assert forall|d: int| 0 <= d < mf implies (#[trigger] self.blocks@[d]).cap() == pow2(
                (level(h1) + d) as nat,
            ) && self.blocks@[d]@.len() == self.block_hi(d) - self.block_lo(d) by {
                if discard {
                    assert(old(self).blocks@[d + 1].cap() == pow2((lh + d + 1) as nat));
                } else {
                    assert(old(self).blocks@[d].cap() == pow2((lh + d) as nat));
                }
            }
            assert(self.wf());
            assert forall|i: int| 0 <= i < n - 1 implies self@[i] == old(self)@[i + 1] by {
                old(self).lemma_locate_valid((i + 1) as nat);
                lemma_level_mono(h1, (h + 1 + i) as nat);
            }
            assert(self@ =~= old(self)@.subrange(1, n as int));
        }
        true
    }

    /// Replaces the element at the given index with another one, in place.
    /// The index must be a currently live position; anything else is a
    /// contract violation, not a recoverable error.
    pub fn replace(&mut self, index: usize, item: T)
        requires
            old(self).wf(),
            index < old(self)@.len(),
        ensures
            final(self).wf(),
            final(self)@ == old(self)@.update(index as int, item),
            final(self).head_pos() == old(self).head_pos(),
    {
        proof {
            self.lemma_locate_valid(index as nat);
        }
        let (outer, inner) = split_index(self.head, index);
        let blk = deque_get_mut(&mut self.blocks, outer).unwrap();
        blk.replace(inner, item);
        proof {
            let h = self.head as nat;
            assert forall|j: int| 0 <= j < self.len && j != index implies self@[j] == old(
                self,
            )@[j] by {
                old(self).lemma_locate_valid(j as nat);
                old(self).lemma_locate_valid(index as nat);
                if locate_outer(h, j as nat) == locate_outer(h, index as nat)
                    && locate_inner(h, j as nat) == locate_inner(h, index as nat) {
                    old(self).lemma_locate_injective(j as nat, index as nat);
                }
            }
            assert(self@ =~= old(self)@.update(index as int, item));
        }
    }
}

} // verus!
