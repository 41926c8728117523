//! A buddy allocator of 4 KiB to 16 MiB blocks, carved from 32 MiB arenas.
use crate::sys::Kernel;
use crate::va::space::{claimed, AddressSpace};
use crate::va::{align_to, aligned_up, is_pow2};
use vstd::prelude::*;

verus! {

/// The smallest block: 4 KiB.
pub const BUDDY_BLOCK: u64 = 4096;

/// The largest order: blocks of `4096 << 12` bytes.
pub const MAX_ORDER: u64 = 12;

/// Bytes of an arena.
pub const ARENA_SIZE: u64 = 33554432;

/// Bytes of a block of `order`.
pub open spec fn order_size(order: int) -> int
    decreases order,
{
    if order <= 0 { 4096 } else { 2 * order_size(order - 1) }
}

proof fn lemma_order_size(order: int)
    requires
        0 <= order <= MAX_ORDER,
    ensures
        4096 <= order_size(order) <= 16777216,
        order > 0 ==> order_size(order) == 2 * order_size(order - 1),
        (order_size(order) as u64) & ((order_size(order) - 1) as u64) == 0,
        order_size(order) as u64 == 4096u64 << (order as u64),
        order == MAX_ORDER ==> order_size(order) == 16777216,
    decreases order,
{
    let o = order as u64;
    if order == 0 {
        assert(4096u64 << 0u64 == 4096u64) by (bit_vector);
        assert(4096u64 & 4095u64 == 0) by (bit_vector);
    } else {
        lemma_order_size(order - 1);
        let p = order_size(order - 1) as u64;
        let s = (2 * p) as u64;
        assert(s == 2 * p);
        assert(s == 4096u64 << o && s & ((s - 1) as u64) == 0 && 4096 <= s <= 16777216 && (o == 12 ==> s == 16777216)) by (bit_vector)
            requires
                p == 4096u64 << ((o - 1) as u64),
                1 <= o <= 12,
                s == 2 * p,
        ;
    }
}

/// Flipping the bit of a block size moves an address up or down by that size.
proof fn lemma_flip(x: u64, order: int)
    requires
        0 <= order <= MAX_ORDER,
    ensures
        x & (order_size(order) as u64) == 0 ==> x ^ (order_size(order) as u64) == x + order_size(order),
        x & (order_size(order) as u64) != 0 ==> x ^ (order_size(order) as u64) == x - order_size(order),
{
    lemma_order_size(order);
    let o = order as u64;
    let b = order_size(order) as u64;
    assert((x & b == 0 ==> x ^ b == x + b) && (x & b != 0 ==> x ^ b == x - b)) by (bit_vector)
        requires
            b == 4096u64 << o,
            o <= 12,
    ;
}

/// Bytes of a block of `order`: `4096 << order`.
pub fn order_to_size(order: u64) -> (r: u64)
    requires
        order <= MAX_ORDER,
    ensures
        r == order_size(order as int),
{
    proof {
        lemma_order_size(order as int);
    }
    BUDDY_BLOCK << order
}

/// The buddy of the block at `base` of `size` bytes: the block it merges with.
pub fn buddy_of(base: u64, size: u64) -> (r: u64)
    ensures
        r == base ^ size,
{
    base ^ size
}

/// A block is the buddy of its buddy.
pub proof fn lemma_buddy_involution(base: u64, size: u64)
    ensures
        (base ^ size) ^ size == base,
{
    assert((base ^ size) ^ size == base) by (bit_vector);
}

/// The free blocks of each order, the most recently freed last.
pub struct Buddy {
    pub free_lists: Vec<Vec<u64>>,
}

/// The smallest order whose blocks hold `size` bytes.
pub open spec fn order_of(size: int) -> int
    recommends
        0 < size <= 16777216,
    decreases 16777216 - size,
{
    order_from(size, 0)
}

/// The first order from `o` on whose blocks hold `size` bytes, or 13.
pub open spec fn order_from(size: int, o: int) -> int
    decreases 13 - o,
{
    if o >= 13 || order_size(o) >= size { o } else { order_from(size, o + 1) }
}


/// The lower of two addresses.
pub open spec fn lower(a: u64, b: u64) -> u64 {
    if b < a { b } else { a }
}

/// The free lists after a block of `order` at `base` is freed: while its
/// buddy is the most recently freed block of its order (and the order is
/// below the largest), the two merge into the block of the next order at the
/// lower address; the result goes on the free list of its order.
pub open spec fn coalesced(lists: Seq<Seq<u64>>, order: int, base: u64) -> Seq<Seq<u64>>
    decreases MAX_ORDER - order,
{
    if order < MAX_ORDER && 0 <= order && lists[order].len() > 0
        && lists[order].last() == base ^ (order_size(order) as u64) {
        coalesced(
            lists.update(order, lists[order].drop_last()),
            order + 1,
            lower(base, base ^ (order_size(order) as u64)),
        )
    } else {
        lists.update(order, lists[order].push(base))
    }
}

/// The order that holds `size` bytes, up to 16 MiB, is one of the orders.
proof fn lemma_order_of_bounds(size: int, o: int)
    requires
        0 < size <= 16777216,
        0 <= o <= MAX_ORDER,
    ensures
        o <= order_from(size, o) <= MAX_ORDER,
    decreases MAX_ORDER - o,
{
    lemma_order_size(o);
    if order_size(o) < size {
        if o == MAX_ORDER {
        } else {
            lemma_order_of_bounds(size, o + 1);
        }
    }
}

/// A freed block whose buddy is not the most recently freed block of its
/// order stays whole, and is the next block that an allocation of the same
/// size takes from that order's free list.
pub proof fn law_free_then_alloc(lists: Seq<Seq<u64>>, size: u64, base: u64)
    requires
        lists.len() == MAX_ORDER + 1,
        0 < size <= 16777216,
        !(order_of(size as int) < MAX_ORDER && lists[order_of(size as int)].len() > 0
            && lists[order_of(size as int)].last() == base ^ (order_size(order_of(size as int)) as u64)),
    ensures
        coalesced(lists, order_of(size as int), base)[order_of(size as int)].len() > 0,
        coalesced(lists, order_of(size as int), base)[order_of(size as int)].last() == base,
{
    lemma_order_of_bounds(size as int, 0);
}

/// `new` is `old` after the most recently freed block `b` of order `i`, the
/// first order above `order` with a free block, was split down to `order`:
/// its upper half freed at each order from `i - 1` down to `order`.
pub open spec fn split_down(old: &Buddy, new: &Buddy, order: int, i: int, b: u64) -> bool {
    &&& order < i <= MAX_ORDER
    &&& old.list(i).len() > 0
    &&& b == old.list(i).last()
    &&& forall|o: int| order < o < i ==> #[trigger] old.list(o).len() == 0
    &&& new.list(i) == old.list(i).drop_last()
    &&& forall|o: int| order <= o < i ==> #[trigger] new.list(o) == old.list(o).push((b + order_size(o)) as u64)
    &&& forall|o: int| 0 <= o <= MAX_ORDER && (o < order || o > i) ==> #[trigger] new.list(o) == old.list(o)
}

impl Buddy {
    pub open spec fn wf(&self) -> bool {
        &&& self.free_lists@.len() == MAX_ORDER + 1
        &&& forall|o: int, i: int| 0 <= o <= MAX_ORDER && 0 <= i < self.free_lists@[o]@.len()
            ==> #[trigger] self.free_lists@[o]@[i] + order_size(o) <= u64::MAX
    }

    /// All free lists, by order.
    pub open spec fn lists(&self) -> Seq<Seq<u64>> {
        Seq::new((MAX_ORDER + 1) as nat, |o: int| self.free_lists@[o]@)
    }

    /// The free list of `order`.
    pub open spec fn list(&self, order: int) -> Seq<u64> {
        self.free_lists@[order]@
    }

    /// No free block.
    pub fn new() -> (b: Self)
        ensures
            b.wf(),
            forall|o: int| 0 <= o <= MAX_ORDER ==> #[trigger] b.list(o).len() == 0,
    {
        let mut lists: Vec<Vec<u64>> = Vec::new();
        let mut i: u64 = 0;
        while i <= MAX_ORDER
            invariant
                i <= MAX_ORDER + 1,
                lists@.len() == i,
                forall|o: int| 0 <= o < i ==> #[trigger] lists@[o]@.len() == 0,
            decreases MAX_ORDER + 1 - i,
        {
            lists.push(Vec::new());
            i = i + 1;
        }
        Buddy { free_lists: lists }
    }

    /// Puts the block at `base` on the free list of `order`.
    pub fn push_free(&mut self, order: u64, base: u64)
        requires
            old(self).wf(),
            order <= MAX_ORDER,
            base + order_size(order as int) <= u64::MAX,
        ensures
            final(self).wf(),
            final(self).list(order as int) == old(self).list(order as int).push(base),
            forall|o: int| 0 <= o <= MAX_ORDER && o != order ==> #[trigger] final(self).list(o) == old(self).list(o),
    {
        let mut l: Vec<u64> = Vec::new();
        self.free_lists.set_and_swap(order as usize, &mut l);
        l.push(base);
        self.free_lists.set(order as usize, l);
        proof {
            assert forall|o: int, i: int| 0 <= o <= MAX_ORDER && 0 <= i < self.free_lists@[o]@.len()
                implies #[trigger] self.free_lists@[o]@[i] + order_size(o) <= u64::MAX by {
                if o != order && i < old(self).free_lists@[o]@.len() {
                    assert(self.free_lists@[o]@[i] == old(self).free_lists@[o]@[i]);
                } else if o == order && i < old(self).free_lists@[o]@.len() {
                    assert(self.free_lists@[o]@[i] == old(self).free_lists@[o]@[i]);
                }
            }
        }
    }

    /// Takes the most recently freed block of `order`, if any.
    pub fn pop_free(&mut self, order: u64) -> (r: Option<u64>)
        requires
            old(self).wf(),
            order <= MAX_ORDER,
        ensures
            final(self).wf(),
            old(self).list(order as int).len() == 0 ==> r is None && final(self).list(order as int) == old(self).list(order as int),
            old(self).list(order as int).len() > 0 ==> r == Some(old(self).list(order as int).last())
                && final(self).list(order as int) == old(self).list(order as int).drop_last(),
            forall|o: int| 0 <= o <= MAX_ORDER && o != order ==> #[trigger] final(self).list(o) == old(self).list(o),
            r matches Some(b) ==> b + order_size(order as int) <= u64::MAX,
    {
        let mut l: Vec<u64> = Vec::new();
        self.free_lists.set_and_swap(order as usize, &mut l);
        let r = l.pop();
        proof {
            if old(self).list(order as int).len() > 0 {
                let n = old(self).list(order as int).len() - 1;
                assert(old(self).free_lists@[order as int]@[n] + order_size(order as int) <= u64::MAX);
            }
        }
        self.free_lists.set(order as usize, l);
        proof {
            assert forall|o: int, i: int| 0 <= o <= MAX_ORDER && 0 <= i < self.free_lists@[o]@.len()
                implies #[trigger] self.free_lists@[o]@[i] + order_size(o) <= u64::MAX by {
                assert(self.free_lists@[o]@[i] == old(self).free_lists@[o]@[i]);
            }
        }
        r
    }

    /// Takes a block of the first larger order that has one and splits it
    /// down to `order`, freeing the upper half at each step.
    pub fn find_and_split(&mut self, order: u64) -> (r: Option<u64>)
        requires
            old(self).wf(),
            order <= MAX_ORDER,
        ensures
            final(self).wf(),
            r is None <==> forall|o: int| order < o <= MAX_ORDER ==> #[trigger] old(self).list(o).len() == 0,
            r is None ==> forall|o: int| 0 <= o <= MAX_ORDER ==> #[trigger] final(self).list(o) == old(self).list(o),
            r matches Some(b) ==> b + order_size(order as int) <= u64::MAX,
            r matches Some(b) ==> exists|i: int| #[trigger] split_down(old(self), final(self), order as int, i, b),
    {
        let mut i = order + 1;
        while i <= MAX_ORDER
            invariant
                order < i <= MAX_ORDER + 1,
                self.wf(),
                forall|o: int| 0 <= o <= MAX_ORDER ==> #[trigger] self.list(o) == old(self).list(o),
                forall|o: int| order < o < i ==> #[trigger] old(self).list(o).len() == 0,
            decreases MAX_ORDER + 1 - i,
        {
            if let Some(base) = self.pop_free(i) {
                let mut curr_order = i;
                while curr_order > order
                    invariant
                        order <= curr_order <= i <= MAX_ORDER,
                        self.wf(),
                        base + order_size(curr_order as int) <= u64::MAX,
                        old(self).list(i as int).len() > 0,
                        base == old(self).list(i as int).last(),
                        self.list(i as int) == old(self).list(i as int).drop_last(),
                        forall|o: int| curr_order <= o < i ==> #[trigger] self.list(o) == old(self).list(o).push((base + order_size(o)) as u64),
                        forall|o: int| 0 <= o <= MAX_ORDER && (o < curr_order || o > i) ==> #[trigger] self.list(o) == old(self).list(o),
                    decreases curr_order,
                {
                    proof {
                        lemma_order_size(curr_order as int);
                        lemma_order_size(curr_order as int - 1);
                    }
                    let size = order_to_size(curr_order);
                    let half = size / 2;
                    self.push_free(curr_order - 1, base + half);
                    curr_order = curr_order - 1;
                }
                assert(split_down(old(self), self, order as int, i as int, base));
                return Some(base);
            }
            i = i + 1;
        }
        None
    }

    /// Adds a 32 MiB arena, claimed in the address space and mapped, as a
    /// free block of the largest order.
    pub fn add_arena<K: Kernel>(&mut self, space: &mut AddressSpace, os: &mut K) -> (r: bool)
        requires
            old(self).wf(),
            old(space).wf(),
        ensures
            final(self).wf(),
            final(space).wf(),
            forall|a: u64| old(space).map.owns(a) ==> #[trigger] final(space).map.owns(a),
            forall|o: int| 0 <= o < MAX_ORDER ==> #[trigger] final(self).list(o) == old(self).list(o),
            !r ==> final(self).list(MAX_ORDER as int) == old(self).list(MAX_ORDER as int),
            r ==> exists|a: u64| #[trigger] claimed(&old(space).map, &final(space).map, ARENA_SIZE, a)
                && final(self).list(MAX_ORDER as int) == old(self).list(MAX_ORDER as int).push(aligned_up(a, BUDDY_BLOCK)),
    {
        let hint = match space.allocate(ARENA_SIZE, os) {
            Ok(Some(h)) => h,
            _ => return false,
        };
        if !os.map_fixed(hint, ARENA_SIZE) {
            return false;
        }
        if hint > u64::MAX - 2 * ARENA_SIZE {
            return false;
        }
        assert(is_pow2(4096)) by (bit_vector);
        let aligned = align_to(hint, BUDDY_BLOCK);
        proof {
            lemma_order_size(MAX_ORDER as int);
        }
        self.push_free(MAX_ORDER, aligned);
        true
    }

    /// A block of at least `size` bytes (up to 16 MiB): of the smallest
    /// order that holds it, taken from its free list, else split from a
    /// larger free block, else from a new arena. `None` for zero bytes, for
    /// more than 16 MiB, or when no arena could be added.
    #[verifier::loop_isolation(false)]
    pub fn buddy_alloc<K: Kernel>(&mut self, space: &mut AddressSpace, os: &mut K, size: u64) -> (r: Option<u64>)
        requires
            old(self).wf(),
            old(space).wf(),
        ensures
            final(self).wf(),
            final(space).wf(),
            size == 0 || size > 16777216 ==> r is None,
            size > 0 && size <= 16777216 && old(self).list(order_of(size as int)).len() > 0 ==> {
                &&& r == Some(old(self).list(order_of(size as int)).last())
                &&& final(self).list(order_of(size as int)) == old(self).list(order_of(size as int)).drop_last()
                &&& forall|o: int| 0 <= o <= MAX_ORDER && o != order_of(size as int) ==> #[trigger] final(self).list(o) == old(self).list(o)
                &&& *final(space) == *old(space)
            },
            size > 0 && size <= 16777216 && old(self).list(order_of(size as int)).len() == 0
                && (exists|o: int| order_of(size as int) < o <= MAX_ORDER && #[trigger] old(self).list(o).len() > 0) ==> {
                &&& r is Some
                &&& exists|i: int| #[trigger] split_down(old(self), final(self), order_of(size as int), i, r->0)
                &&& *final(space) == *old(space)
            },
            r matches Some(b) ==> b + size <= u64::MAX,
    {
        if size == 0 {
            return None;
        }
        let mut order: u64 = 0;
        proof {
            lemma_order_size(0);
        }
        while order_to_size(order) < size
            invariant
                order <= MAX_ORDER,
                order_from(size as int, 0) == order_from(size as int, order as int),
            decreases MAX_ORDER - order,
        {
            order = order + 1;
            if order > MAX_ORDER {
                proof {
                    lemma_order_size(MAX_ORDER as int);
                }
                return None;
            }
        }
        proof {
            lemma_order_size(order as int);
            assert(order_of(size as int) == order);
        }
        if let Some(b) = self.pop_free(order) {
            return Some(b);
        }
        let ghost mid = *self;
        if let Some(b) = self.find_and_split(order) {
            proof {
                let i = choose|i: int| #[trigger] split_down(&mid, self, order as int, i, b);
                assert(mid.list(i) == old(self).list(i));
                assert forall|o: int| order < o < i implies #[trigger] old(self).list(o).len() == 0 by {
                    assert(mid.list(o) == old(self).list(o));
                }
                assert forall|o: int| order <= o < i implies #[trigger] self.list(o) == old(self).list(o).push((b + order_size(o)) as u64) by {
                    assert(mid.list(o) == old(self).list(o));
                }
                assert forall|o: int| 0 <= o <= MAX_ORDER && (o < order || o > i) implies #[trigger] self.list(o) == old(self).list(o) by {
                    assert(mid.list(o) == old(self).list(o));
                }
                assert(split_down(old(self), self, order as int, i, b));
            }
            return Some(b);
        }
        proof {
            assert forall|o: int| order < o <= MAX_ORDER implies #[trigger] old(self).list(o).len() == 0 by {
                assert(mid.list(o) == old(self).list(o));
            }
        }
        if !self.add_arena(space, os) {
            return None;
        }
        if let Some(b) = self.pop_free(order) {
            return Some(b);
        }
        self.find_and_split(order)
    }

    /// Frees the block at `base` of `size` bytes (of the smallest order that
    /// holds it), merging it with its buddy while that buddy is the most
    /// recently freed block of its order. Nothing happens for zero bytes or
    /// for more than 16 MiB.
    #[verifier::loop_isolation(false)]
    pub fn buddy_free(&mut self, base: u64, size: u64)
        requires
            old(self).wf(),
            0 < size <= 16777216 ==> base + order_size(order_of(size as int)) <= u64::MAX,
        ensures
            final(self).wf(),
            size == 0 || size > 16777216 ==> final(self).lists() == old(self).lists(),
            0 < size <= 16777216 ==> final(self).lists() == coalesced(old(self).lists(), order_of(size as int), base),
    {
        if size == 0 {
            return;
        }
        let mut order: u64 = 0;
        proof {
            lemma_order_size(0);
        }
        while order_to_size(order) < size
            invariant
                order <= MAX_ORDER,
                order_from(size as int, 0) == order_from(size as int, order as int),
            decreases MAX_ORDER - order,
        {
            order = order + 1;
            if order > MAX_ORDER {
                proof {
                    lemma_order_size(MAX_ORDER as int);
                }
                return;
            }
        }
        proof {
            lemma_order_size(order as int);
            assert(order_of(size as int) == order);
        }
        let mut block_size = order_to_size(order);
        let mut current = base;
        let ghost target = coalesced(old(self).lists(), order as int, base);
        while order < MAX_ORDER
            invariant
                order <= MAX_ORDER,
                self.wf(),
                block_size == order_size(order as int),
                current + order_size(order as int) <= u64::MAX,
                coalesced(self.lists(), order as int, current) == target,
            decreases MAX_ORDER - order,
        {
            let buddy = buddy_of(current, block_size);
            let ghost before = self.lists();
            let o = order as usize;
            let n = self.free_lists[o].len();
            if n == 0 {
                break;
            }
            if self.free_lists[o][n - 1] != buddy {
                break;
            }
            let _ = self.pop_free(order);
            proof {
                lemma_order_size(order as int);
                lemma_order_size(order as int + 1);
                lemma_flip(current, order as int);
                assert forall|i: int| 0 <= i <= MAX_ORDER implies #[trigger] self.lists()[i]
                    == before.update(order as int, before[order as int].drop_last())[i] by {
                    assert(self.list(i) == self.lists()[i]);
                }
                assert(self.lists() =~= before.update(order as int, before[order as int].drop_last()));
            }
            if buddy < current {
                current = buddy;
            }
            order = order + 1;
            block_size = block_size * 2;
        }
        proof {
            lemma_order_size(order as int);
        }
        let ghost before = self.lists();
        self.push_free(order, current);
        proof {
            assert forall|i: int| 0 <= i <= MAX_ORDER implies #[trigger] self.lists()[i]
                == before.update(order as int, before[order as int].push(current))[i] by {
                assert(self.list(i) == self.lists()[i]);
            }
            assert(self.lists() =~= before.update(order as int, before[order as int].push(current)));
        }
    }
}

} // verus!
