//! The 22-class size table with its lookup, the fixed address-space bitmap
//! of 64 KiB blocks, and the locks and one-time initialisation.
pub mod lock;
pub mod once;
pub mod oncelock;

use crate::bits::{bit_of, bit_set, chunk_mask, lemma_chunk_mask, lemma_chunk_positions, lemma_full_word_bits, lemma_lowest_set, lemma_not_bit, lemma_word_and_not, lemma_word_or, lemma_zero_word_bits, range_clear, range_written};
use crate::va::{align_to, is_pow2};
use vstd::prelude::*;

verus! {

/// The word stamped into the headers of blocks handed out.
pub const MAGIC: u64 = 0x01B01698BF0BEEF;

/// Payload bytes of each size class.
pub const SIZE_CLASSES: [usize; 22] = [
    8, 16, 24, 32, 64, 128, 256, 512, 1024, 2048, 4096, 8192, 16384, 32768, 65536, 131072, 262144,
    524288, 1048576, 2097152, 4194304, 8388608,
];

/// Blocks carved at once for each size class.
pub const ITERATIONS: [usize; 22] = [
    2048, 1024, 1024, 1024, 512, 512, 256, 128, 64, 32, 16, 8, 4, 2, 2, 2, 2, 1, 1, 1, 1, 1,
];

/// Number of size classes.
pub const NUM_CLASSES: usize = 22;

/// `size` rounded up to a whole number of 4 KiB pages.
pub fn align(size: usize) -> (r: usize)
    requires
        size + 4095 <= usize::MAX,
    ensures
        r % 4096 == 0,
        size <= r < size + 4096,
{
    assert(is_pow2(4096)) by (bit_vector);
    let r = align_to(size as u64, 4096);
    r as usize
}

/// The size-class lookup over the 22-class table.
pub struct AllocationHelper;

impl AllocationHelper {
    /// The first class whose payload holds `size` bytes, if any.
    pub fn match_size_class(&self, size: usize) -> (r: Option<usize>)
        ensures
            match r {
                Some(i) => i < NUM_CLASSES && size <= SIZE_CLASSES[i as int]
                    && forall|j: int| 0 <= j < i ==> size > #[trigger] SIZE_CLASSES[j],
                None => forall|j: int| 0 <= j < NUM_CLASSES ==> size > #[trigger] SIZE_CLASSES[j],
            },
    {
        let mut i: usize = 0;
        while i < NUM_CLASSES
            invariant
                i <= NUM_CLASSES,
                forall|j: int| 0 <= j < i ==> size > #[trigger] SIZE_CLASSES[j],
            decreases NUM_CLASSES - i,
        {
            if size <= SIZE_CLASSES[i] {
                return Some(i);
            }
            i = i + 1;
        }
        None
    }
}

/// Bytes of an address-space block.
pub const BLOCK_SIZE: u64 = 65536;

/// Words of the address-space bitmap, 64 blocks each.
pub const BITMAP_LEN: usize = 65536;

/// Blocks that the bitmap covers.
pub const TOTAL_BITS: u64 = 4194304;

/// Testing a word against a one-bit mask reads that bit.
proof fn lemma_test_bit(w: u64, b: u64)
    requires
        b < 64,
    ensures
        ((w & (1u64 << b)) != 0) == bit_set(w, b as int),
        (1u64 << b) == chunk_mask(1, b),
{
    assert(((w & (1u64 << b)) != 0) == (((w >> b) & 1u64) == 1u64)) by (bit_vector)
        requires
            b < 64,
    ;
    assert((1u64 << b) == ((((1u64 << 1u64) - 1u64) as u64) << b)) by (bit_vector)
        requires
            b < 64,
    ;
}

/// How many blocks from `start` on a range of `count` blocks covers inside
/// the bitmap.
pub open spec fn cleared(start: int, count: int) -> int {
    if start >= TOTAL_BITS {
        0
    } else if start + count > TOTAL_BITS {
        TOTAL_BITS - start
    } else {
        count
    }
}

/// `count` blocks from `q` on lie inside the bitmap and are all free.
pub open spec fn window_clear(map: Seq<u64>, q: int, count: int) -> bool {
    &&& q < TOTAL_BITS
    &&& q + count <= TOTAL_BITS
    &&& range_clear(map, q, count)
}

/// The address-space bitmap: one bit per 64 KiB block from the start of the
/// reserved range, set when the block is in use, and the word at which
/// searches start.
pub struct VaBitmap {
    pub map: Vec<u64>,
    pub hint: usize,
}

impl VaBitmap {
    pub open spec fn wf(&self) -> bool {
        &&& self.map@.len() == BITMAP_LEN
        &&& self.hint < BITMAP_LEN
    }

    /// Block `i` is in use.
    pub open spec fn used(&self, i: int) -> bool {
        bit_of(self.map@, i)
    }

    /// What a search for one block does: the first free block from the hint
    /// word on is claimed and its word becomes the hint.
    pub open spec fn single_effect(old: &Self, new: &Self, va_start: u64, res: Option<u64>) -> bool {
        &&& new.wf()
        &&& match res {
            Some(a) => {
                let g = (a - va_start) / (BLOCK_SIZE as int);
                &&& va_start <= a
                &&& (a - va_start) % (BLOCK_SIZE as int) == 0
                &&& old.hint * 64 <= g < TOTAL_BITS
                &&& !old.used(g)
                &&& forall|p: int| old.hint * 64 <= p < g ==> #[trigger] old.used(p)
                &&& range_written(old.map@, new.map@, g, 1, true)
                &&& new.hint as int == g / 64
            },
            None => {
                &&& new.map@ == old.map@
                &&& new.hint == old.hint
                &&& forall|p: int| old.hint * 64 <= p < TOTAL_BITS ==> #[trigger] old.used(p)
            },
        }
    }

    /// What a search for `count` consecutive blocks does: the first window
    /// of free blocks from the hint word on is claimed, and the word of its
    /// last block becomes the hint. Zero blocks are never found.
    pub open spec fn multi_effect(old: &Self, new: &Self, count: int, va_start: u64, res: Option<u64>) -> bool {
        &&& new.wf()
        &&& match res {
            Some(a) => {
                let g = (a - va_start) / (BLOCK_SIZE as int);
                &&& 1 <= count
                &&& va_start <= a
                &&& (a - va_start) % (BLOCK_SIZE as int) == 0
                &&& old.hint * 64 <= g
                &&& window_clear(old.map@, g, count)
                &&& forall|q: int| old.hint * 64 <= q < g ==> !#[trigger] window_clear(old.map@, q, count)
                &&& range_written(old.map@, new.map@, g, count, true)
                &&& new.hint as int == (g + count - 1) / 64
            },
            None => {
                &&& new.map@ == old.map@
                &&& new.hint == old.hint
                &&& 1 <= count ==> forall|q: int| old.hint * 64 <= q ==> !#[trigger] window_clear(old.map@, q, count)
            },
        }
    }

    /// What freeing `size` bytes at `addr` does.
    pub open spec fn free_effect(old: &Self, new: &Self, addr: u64, size: u64, va_start: u64) -> bool {
        &&& new.wf()
        &&& addr < va_start ==> new.map@ == old.map@ && new.hint == old.hint
        &&& addr >= va_start ==> {
            let s = (addr - va_start) / (BLOCK_SIZE as int);
            let c = (size + BLOCK_SIZE - 1) / (BLOCK_SIZE as int);
            &&& range_written(old.map@, new.map@, s, cleared(s, c), false)
            &&& new.hint == if s / 64 < old.hint { (s / 64) as usize } else { old.hint }
        }
    }

    /// Every block free, searches starting at the first word.
    pub fn new() -> (b: Self)
        ensures
            b.wf(),
            b.hint == 0,
            forall|i: int| 0 <= i < TOTAL_BITS ==> !#[trigger] b.used(i),
    {
        let mut map: Vec<u64> = Vec::new();
        let mut k: usize = 0;
        while k < BITMAP_LEN
            invariant
                k <= BITMAP_LEN,
                map@.len() == k,
                forall|j: int| 0 <= j < k ==> #[trigger] map@[j] == 0,
            decreases BITMAP_LEN - k,
        {
            map.push(0);
            k = k + 1;
        }
        let b = VaBitmap { map, hint: 0 };
        proof {
            assert forall|i: int| 0 <= i < TOTAL_BITS implies !#[trigger] b.used(i) by {
                lemma_zero_word_bits(b.map@[i / 64], (i % 64) as u64);
            }
        }
        b
    }

    /// Marks the blocks of `[start_idx, start_idx + count)` free, one at a
    /// time, stopping at the end of the bitmap.
    fn rollback(&mut self, start_idx: u64, count: u64)
        requires
            old(self).wf(),
            start_idx + count <= u64::MAX,
        ensures
            final(self).wf(),
            final(self).hint == old(self).hint,
            range_written(old(self).map@, final(self).map@, start_idx as int, cleared(start_idx as int, count as int), false),
    {
        let mut k: u64 = 0;
        while k < count
            invariant
                old(self).wf(),
                self.wf(),
                self.hint == old(self).hint,
                start_idx + count <= u64::MAX,
                k <= count,
                k == 0 || start_idx + k <= TOTAL_BITS,
                range_written(old(self).map@, self.map@, start_idx as int, k as int, false),
            decreases count - k,
        {
            let idx = start_idx + k;
            let chunk_idx = idx / 64;
            if chunk_idx >= BITMAP_LEN as u64 {
                return;
            }
            let b = idx % 64;
            let mask = 1u64 << b;
            proof {
                lemma_test_bit(0, b);
            }
            let w = chunk_idx as usize;
            let ghost before = self.map@;
            let cur = self.map[w];
            self.map.set(w, cur & !mask);
            proof {
                lemma_word_and_not(before, self.map@, w as int, mask);
                assert forall|i: int| 0 <= i < old(self).map@.len() * 64 implies #[trigger] bit_of(self.map@, i)
                    == if start_idx <= i < start_idx + k + 1 { false } else { bit_of(old(self).map@, i) } by {
                    lemma_chunk_positions(idx as int, 1, i);
                    if i / 64 == w as int {
                        lemma_chunk_mask(1, b, (i % 64) as u64);
                    }
                }
            }
            k = k + 1;
        }
    }

    /// Marks `count` blocks from `start_idx` on as in use when they lie in
    /// the bitmap and are all free; otherwise leaves every block as it was.
    fn try_claim(&mut self, start_idx: u64, count: u64) -> (ok: bool)
        requires
            old(self).wf(),
        ensures
            final(self).wf(),
            final(self).hint == old(self).hint,
            ok == window_clear(old(self).map@, start_idx as int, count as int),
            ok ==> range_written(old(self).map@, final(self).map@, start_idx as int, count as int, true),
            !ok ==> range_written(old(self).map@, final(self).map@, start_idx as int, 0, true),
    {
        if start_idx >= TOTAL_BITS || count > TOTAL_BITS - start_idx {
            return false;
        }
        let mut k: u64 = 0;
        while k < count
            invariant
                old(self).wf(),
                self.wf(),
                self.hint == old(self).hint,
                start_idx + count <= TOTAL_BITS,
                k <= count,
                range_clear(old(self).map@, start_idx as int, k as int),
                range_written(old(self).map@, self.map@, start_idx as int, k as int, true),
            decreases count - k,
        {
            let idx = start_idx + k;
            let chunk_idx = idx / 64;
            if chunk_idx >= BITMAP_LEN as u64 {
                self.rollback(start_idx, k);
                return false;
            }
            let b = idx % 64;
            let mask = 1u64 << b;
            let w = chunk_idx as usize;
            let ghost before = self.map@;
            let prev = self.map[w];
            proof {
                lemma_test_bit(prev, b);
                assert(bit_of(self.map@, idx as int) == bit_of(old(self).map@, idx as int));
                assert(bit_set(prev, b as int) == bit_of(old(self).map@, idx as int));
            }
            self.map.set(w, prev | mask);
            proof {
                lemma_word_or(before, self.map@, w as int, mask);
                assert forall|i: int| 0 <= i < old(self).map@.len() * 64 implies #[trigger] bit_of(self.map@, i)
                    == (bit_of(before, i) || i == idx) by {
                    lemma_chunk_positions(idx as int, 1, i);
                    if i / 64 == w as int {
                        lemma_chunk_mask(1, b, (i % 64) as u64);
                    }
                }
            }
            if prev & mask != 0 {
                let ghost mid = self.map@;
                self.rollback(start_idx, k);
                proof {
                    assert(!range_clear(old(self).map@, start_idx as int, count as int)) by {
                        assert(bit_of(old(self).map@, idx as int));
                    }
                    assert forall|i: int| 0 <= i < old(self).map@.len() * 64 implies #[trigger] bit_of(self.map@, i)
                        == bit_of(old(self).map@, i) by {
                        if start_idx <= i < start_idx + k {
                            assert(!bit_of(old(self).map@, i));
                        }
                    }
                }
                return false;
            }
            k = k + 1;
        }
        true
    }

    /// Claims the first free block from the hint word on.
    fn alloc_single(&mut self, va_start: u64) -> (res: Option<u64>)
        requires
            old(self).wf(),
            va_start + TOTAL_BITS * BLOCK_SIZE <= u64::MAX,
        ensures
            Self::single_effect(old(self), final(self), va_start, res),
    {
        let start = self.hint;
        let mut i = start;
        while i < BITMAP_LEN
            invariant
                old(self).wf(),
                self.map@ == old(self).map@,
                self.hint == old(self).hint,
                start == old(self).hint,
                start <= i <= BITMAP_LEN,
                va_start + TOTAL_BITS * BLOCK_SIZE <= u64::MAX,
                forall|p: int| start * 64 <= p < i * 64 ==> #[trigger] old(self).used(p),
            decreases BITMAP_LEN - i,
        {
            let chunk = self.map[i];
            proof {
                assert forall|b: int| 0 <= b < 64 implies #[trigger] bit_set(chunk, b) == old(self).used(i * 64 + b) by {
                    assert((i * 64 + b) / 64 == i);
                    assert((i * 64 + b) % 64 == b);
                }
            }
            if chunk == u64::MAX {
                proof {
                    assert forall|p: int| start * 64 <= p < (i + 1) * 64 implies #[trigger] old(self).used(p) by {
                        if p >= i * 64 {
                            lemma_full_word_bits(chunk, (p - i * 64) as u64);
                            assert(bit_set(chunk, p - i * 64));
                        }
                    }
                }
                i = i + 1;
                continue;
            }
            let nc = !chunk;
            proof {
                assert(nc != 0) by (bit_vector)
                    requires
                        nc == !chunk,
                        chunk != u64::MAX,
                ;
                lemma_lowest_set(nc);
            }
            let bit = nc.trailing_zeros() as u64;
            let mask = 1u64 << bit;
            proof {
                lemma_not_bit(chunk, bit);
                lemma_test_bit(chunk, bit);
                assert forall|b: int| 0 <= b < bit implies #[trigger] bit_set(chunk, b) by {
                    lemma_not_bit(chunk, b as u64);
                    assert(!bit_set(nc, b));
                }
            }
            let prev = chunk;
            if prev & mask == 0 {
                let ghost before = self.map@;
                self.map.set(i, prev | mask);
                self.hint = i;
                let global_idx = (i as u64) * 64 + bit;
                proof {
                    lemma_word_or(before, self.map@, i as int, mask);
                    assert forall|q: int| 0 <= q < before.len() * 64 implies #[trigger] bit_of(self.map@, q)
                        == if global_idx <= q < global_idx + 1 { true } else { bit_of(before, q) } by {
                        lemma_chunk_positions(global_idx as int, 1, q);
                        if q / 64 == i as int {
                            lemma_chunk_mask(1, bit, (q % 64) as u64);
                        }
                    }
                    assert forall|p: int| start * 64 <= p < global_idx implies #[trigger] old(self).used(p) by {
                        if p >= i * 64 {
                            assert(bit_set(chunk, p - i * 64));
                        }
                    }
                    assert(!old(self).used(global_idx as int));
                }
                return Some(va_start + global_idx * BLOCK_SIZE);
            }
            i = i + 1;
        }
        None
    }

    /// Claims the first window of `count` free blocks from the hint word on,
    /// scanning block by block.
    #[verifier::rlimit(30)]
    fn alloc_multi(&mut self, count: u64, va_start: u64) -> (res: Option<u64>)
        requires
            old(self).wf(),
            va_start + TOTAL_BITS * BLOCK_SIZE <= u64::MAX,
        ensures
            Self::multi_effect(old(self), final(self), count as int, va_start, res),
    {
        if count > TOTAL_BITS {
            return None;
        }
        let start_bit = (self.hint as u64) * 64;
        let mut current_run: u64 = 0;
        let mut run_start: u64 = 0;
        let mut global_bit = start_bit;
        while global_bit < TOTAL_BITS
            invariant
                old(self).wf(),
                self.map@ == old(self).map@,
                self.hint == old(self).hint,
                count <= TOTAL_BITS,
                va_start + TOTAL_BITS * BLOCK_SIZE <= u64::MAX,
                start_bit == old(self).hint * 64,
                start_bit <= global_bit <= TOTAL_BITS,
                count == 0 || current_run < count,
                current_run <= global_bit - start_bit,
                current_run > 0 ==> run_start == global_bit - current_run,
                range_clear(old(self).map@, global_bit - current_run, current_run as int),
                current_run < global_bit - start_bit ==> old(self).used(global_bit - current_run - 1),
                count >= 1 ==> forall|q: int| start_bit <= q && q + count <= global_bit ==> !#[trigger] window_clear(old(self).map@, q, count as int),
            decreases TOTAL_BITS - global_bit,
        {
            let chunk_idx = global_bit / 64;
            let bit_in_chunk = global_bit % 64;
            let chunk = self.map[chunk_idx as usize];
            proof {
                lemma_test_bit(chunk, bit_in_chunk);
            }
            if (chunk & (1u64 << bit_in_chunk)) != 0 {
                proof {
                    assert(old(self).used(global_bit as int));
                    if count >= 1 {
                        assert forall|q: int| start_bit <= q && q + count <= global_bit + 1 implies !#[trigger] window_clear(old(self).map@, q, count as int) by {
                            if q + count == global_bit + 1 {
                                assert(q <= global_bit < q + count);
                            }
                        }
                    }
                }
                current_run = 0;
            } else {
                if current_run == 0 {
                    run_start = global_bit;
                }
                current_run = current_run + 1;
                if current_run == count {
                    proof {
                        assert(range_clear(old(self).map@, run_start as int, count as int));
                    }
                    if self.try_claim(run_start, count) {
                        self.hint = chunk_idx as usize;
                        return Some(va_start + run_start * BLOCK_SIZE);
                    }
                    current_run = 0;
                } else {
                    proof {
                        if count >= 1 {
                            assert forall|q: int| start_bit <= q && q + count <= global_bit + 1 implies !#[trigger] window_clear(old(self).map@, q, count as int) by {
                                if q + count == global_bit + 1 {
                                    let s = global_bit + 1 - current_run - 1;
                                    assert(old(self).used(s));
                                    assert(q <= s < q + count);
                                }
                            }
                        }
                    }
                }
            }
            global_bit = global_bit + 1;
        }
        proof {
            if count >= 1 {
                assert forall|q: int| old(self).hint * 64 <= q implies !#[trigger] window_clear(old(self).map@, q, count as int) by {
                    if q + count <= TOTAL_BITS {
                    }
                }
            }
        }
        None
    }

    /// Claims address space for `size` bytes, rounded up to whole blocks,
    /// and returns its address: one block by the single-block search, more
    /// by the window search. Zero bytes are never found.
    pub fn alloc_range(&mut self, size: u64, va_start: u64) -> (res: Option<u64>)
        requires
            old(self).wf(),
            size + BLOCK_SIZE - 1 <= u64::MAX,
            va_start + TOTAL_BITS * BLOCK_SIZE <= u64::MAX,
        ensures
            ({
                let needed = (size + BLOCK_SIZE - 1) / (BLOCK_SIZE as int);
                if needed == 1 {
                    Self::single_effect(old(self), final(self), va_start, res)
                } else {
                    Self::multi_effect(old(self), final(self), needed, va_start, res)
                }
            }),
    {
        let needed = (size + (BLOCK_SIZE - 1)) / BLOCK_SIZE;
        if needed == 1 {
            return self.alloc_single(va_start);
        }
        self.alloc_multi(needed, va_start)
    }

    /// Gives the blocks of `size` bytes at `addr` back (cut at the end of
    /// the bitmap), and moves the hint down to their first word when that is
    /// lower. Addresses below the range are ignored.
    pub fn free(&mut self, addr: u64, size: u64, va_start: u64)
        requires
            old(self).wf(),
            size + BLOCK_SIZE - 1 <= u64::MAX,
        ensures
            Self::free_effect(old(self), final(self), addr, size, va_start),
    {
        if addr < va_start {
            return;
        }
        let offset = addr - va_start;
        let start_idx = offset / BLOCK_SIZE;
        let count = (size + (BLOCK_SIZE - 1)) / BLOCK_SIZE;
        self.rollback(start_idx, count);
        let chunk = start_idx / 64;
        if chunk < self.hint as u64 {
            self.hint = chunk as usize;
        }
    }
}


/// Freeing what was just claimed, with the same size, gives every block the
/// state it had before the claim.
pub proof fn law_alloc_then_free(b0: &VaBitmap, b1: &VaBitmap, b2: &VaBitmap, size: u64, va_start: u64, a: u64)
    requires
        b0.wf(),
        size + BLOCK_SIZE - 1 <= u64::MAX,
        ({
            let needed = (size + BLOCK_SIZE - 1) / (BLOCK_SIZE as int);
            if needed == 1 {
                VaBitmap::single_effect(b0, b1, va_start, Some(a))
            } else {
                VaBitmap::multi_effect(b0, b1, needed, va_start, Some(a))
            }
        }),
        VaBitmap::free_effect(b1, b2, a, size, va_start),
    ensures
        forall|i: int| 0 <= i < TOTAL_BITS ==> #[trigger] b2.used(i) == b0.used(i),
{
    assert forall|i: int| 0 <= i < TOTAL_BITS implies #[trigger] b2.used(i) == b0.used(i) by {
        assert(bit_of(b2.map@, i) == bit_of(b0.map@, i));
    }
}

} // verus!
