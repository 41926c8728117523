//! Reserved address space: segments of 4 KiB blocks tracked by bitmaps, and
//! a two-level radix table that maps each 4 GiB chunk of the address space
//! to the segment that owns it.
use crate::bits::{
    bit_of, bit_set, bits_in_chunk, chunk_mask, clear_bits, lemma_and_mask_zero, lemma_chunk_mask,
    lemma_chunk_positions, lemma_full_word_bits, lemma_lowest_set, lemma_not_bit, lemma_or_bit, lemma_word_and_not, lemma_word_or,
    lemma_zero_word_bits, make_chunk_mask, range_clear, range_written, set_bits,
};
use crate::va::rng::Rng;
use vstd::prelude::*;

verus! {

/// Bytes in one block of a segment.
pub const BLOCK_SIZE: u64 = 4096;

/// The first bit of a search is drawn from this many blocks past the hint.
pub const MAX_RANDOM_BLOCKS: u64 = 65536;

/// Bytes covered by `MAX_RANDOM_BLOCKS` blocks.
pub const MAX_RANDOM_BYTES: u64 = 268435456;

/// Granule of the radix table: 4 GiB.
pub const CHUNK_SIZE: u64 = 4294967296;

/// Global bit `i` of a segment, as the search loops see it: set when the
/// block is in use or lies past the end of the segment.
pub open spec fn taken(map: Seq<u64>, total: int, i: int) -> bool {
    i >= total || bit_of(map, i)
}

/// Position of bit `p` in a cyclic scan of `n` bits that begins at `s`.
pub open spec fn scan_rank(p: int, s: int, n: int) -> int {
    if p >= s {
        p - s
    } else {
        p + n - s
    }
}

/// The word in which the single-block search begins.
pub open spec fn single_start_chunk(hint: u64, r: u64, chunks: u64) -> int {
    ((hint * 64 + (r & 65535u64)) / 64) % (chunks as int)
}

/// The bit at which the multi-block search begins.
pub open spec fn multi_start_bit(hint: u64, r: u64, total: u64) -> int {
    (hint * 64 + (r & 65535u64)) % (total as int)
}

/// `count` blocks from `p` on lie inside the segment and are all free.
pub open spec fn window_free(map: Seq<u64>, total: int, p: int, count: int) -> bool {
    &&& 0 <= p
    &&& p + count <= total
    &&& range_clear(map, p, count)
}

/// Bit `b` of the word that masks off the bits at and above `lv` is one
/// exactly from `lv` on.
proof fn lemma_tail_mask_bit(lv: u64, b: u64)
    requires
        1 <= lv < 64,
        b < 64,
    ensures
        (((!(((1u64 << lv) - 1u64) as u64)) >> b) & 1u64 == 1u64) == (b >= lv),
{
    assert((((!(((1u64 << lv) - 1u64) as u64)) >> b) & 1u64 == 1u64) == (b >= lv)) by (bit_vector)
        requires
            1 <= lv < 64,
            b < 64,
    ;
}

pub struct Segment {
    next: Option<usize>,
    va_start: u64,
    va_end: u64,
    pub map: Vec<u64>,
    pub claim: Vec<u64>,
    hint: u64,
    pub map_len: usize,
    pub full: bool,
    failed_trys: u8,
}

impl Segment {
    /// First address of the segment.
    pub closed spec fn start(&self) -> u64 {
        self.va_start
    }

    /// One past the last address of the segment.
    pub closed spec fn end(&self) -> u64 {
        self.va_end
    }

    /// Number of whole blocks in the segment.
    pub closed spec fn total(&self) -> int {
        (self.va_end - self.va_start) / 4096
    }

    /// Word at which searches start.
    pub closed spec fn hint_word(&self) -> u64 {
        self.hint
    }

    /// Failed searches since the segment was last found to have room.
    pub closed spec fn failures(&self) -> u8 {
        self.failed_trys
    }

    /// The segment that was reserved before this one.
    pub closed spec fn next_segment(&self) -> Option<usize> {
        self.next
    }

    /// The segment was marked as having no room.
    pub closed spec fn is_full(&self) -> bool {
        self.full
    }

    /// The words of the bitmap.
    pub closed spec fn words(&self) -> Seq<u64> {
        self.map@
    }

    /// Block `i` is in use.
    pub open spec fn is_used(&self, i: int) -> bool {
        bit_of(self.words(), i)
    }

    /// The segment agrees with `other` in everything but its bitmap, hint,
    /// and fullness bookkeeping.
    pub open spec fn same_range(&self, other: &Segment) -> bool {
        &&& self.start() == other.start()
        &&& self.end() == other.end()
        &&& self.words().len() == other.words().len()
        &&& self.next_segment() == other.next_segment()
    }

    pub closed spec fn wf(&self) -> bool {
        &&& self.va_start <= self.va_end
        &&& self.total() >= 1
        &&& self.map_len as int == (self.total() + 63) / 64
        &&& self.map.len() == self.map_len
        &&& self.claim.len() == self.map_len
        &&& self.hint < self.map_len
        &&& forall|k: int| 0 <= k < self.claim.len() ==> #[trigger] self.claim@[k] == 0
        &&& forall|i: int| self.total() <= i < self.map_len * 64 ==> !#[trigger] bit_of(self.map@, i)
    }

    /// Segments over the same range have as many blocks.
    pub proof fn lemma_same_range_total(&self, other: &Segment)
        requires
            self.same_range(other),
        ensures
            self.total() == other.total(),
    {
    }

    /// The blocks of a well-formed segment fit its bitmap words, and every
    /// bit past its last block is clear.
    pub proof fn lemma_blocks_fit_words(&self)
        requires
            self.wf(),
        ensures
            1 <= self.total() <= self.words().len() * 64,
            forall|i: int| self.total() <= i < self.words().len() * 64 ==> !#[trigger] bit_of(self.words(), i),
    {
    }

    /// A segment over `[va_start, va_end)` with every block free and the
    /// search hint taken from `seed`.
    pub fn new(va_start: u64, va_end: u64, seed: u64, next: Option<usize>) -> (s: Segment)
        requires
            va_start + BLOCK_SIZE <= va_end,
            ((va_end - va_start) / 4096 + 63) / 64 <= usize::MAX,
        ensures
            s.wf(),
            s.start() == va_start,
            s.end() == va_end,
            s.next_segment() == next,
            s.total() == (va_end - va_start) / 4096,
            s.hint_word() == seed % (s.words().len() as u64),
            !s.is_full(),
            forall|i: int| 0 <= i < s.total() ==> !#[trigger] s.is_used(i),
    {
        let bit_count = (va_end - va_start) / BLOCK_SIZE;
        let map_len64 = (bit_count + 63) / 64;
        let map_len = map_len64 as usize;
        let mut map: Vec<u64> = Vec::new();
        let mut claim: Vec<u64> = Vec::new();
        let mut k: usize = 0;
        while k < map_len
            invariant
                k <= map_len,
                map.len() == k,
                claim.len() == k,
                forall|j: int| 0 <= j < k ==> #[trigger] map@[j] == 0,
                forall|j: int| 0 <= j < k ==> #[trigger] claim@[j] == 0,
            decreases map_len - k,
        {
            map.push(0);
            claim.push(0);
            k = k + 1;
        }
        let s = Segment {
            next,
            va_start,
            va_end,
            map,
            claim,
            hint: seed % map_len64,
            map_len,
            full: false,
            failed_trys: 0,
        };
        proof {
            assert forall|i: int| 0 <= i < map_len * 64 implies !#[trigger] bit_of(s.map@, i) by {
                lemma_zero_word_bits(s.map@[i / 64], (i % 64) as u64);
            }
        }
        s
    }

    /// Number of whole blocks between the start and the end of the segment.
    pub fn max_bits(&self) -> (n: u64)
        requires
            self.wf(),
        ensures
            n == self.total(),
    {
        (self.va_end - self.va_start) / BLOCK_SIZE
    }

    /// Clears the claim bits of `[start_idx, start_idx + count)`.
    fn rollback_claim(&mut self, start_idx: u64, count: u64)
        requires
            start_idx + count <= old(self).map_len * 64,
            start_idx + count <= u64::MAX,
            old(self).claim.len() == old(self).map_len,
        ensures
            final(self).map == old(self).map,
            final(self).map_len == old(self).map_len,
            final(self).va_start == old(self).va_start,
            final(self).va_end == old(self).va_end,
            final(self).hint == old(self).hint,
            final(self).next == old(self).next,
            final(self).full == old(self).full,
            final(self).failed_trys == old(self).failed_trys,
            range_written(old(self).claim@, final(self).claim@, start_idx as int, count as int, false),
    {
        clear_bits(&mut self.claim, start_idx, count);
    }

    /// Marks `count` blocks from `start_idx` on as in use when all of them
    /// are free; otherwise changes nothing. The range may reach into the
    /// unused bits of the last word, which are always free: claiming them
    /// marks blocks past the segment's end, and the segment is then no
    /// longer well formed.
    #[verifier::spinoff_prover]
    pub fn try_claim(&mut self, start_idx: u64, count: u64) -> (ok: bool)
        requires
            old(self).wf(),
            start_idx + count <= old(self).words().len() * 64,
        ensures
            !ok || start_idx + count <= old(self).total() ==> final(self).wf(),
            final(self).same_range(old(self)),
            final(self).hint_word() == old(self).hint_word(),
            final(self).is_full() == old(self).is_full(),
            final(self).failures() == old(self).failures(),
            ok == range_clear(old(self).words(), start_idx as int, count as int),
            ok ==> range_written(old(self).words(), final(self).words(), start_idx as int, count as int, true),
            !ok ==> final(self).words() == old(self).words(),
    {
        let ghost old_claim = self.claim@;
        let mut bits_processed: u64 = 0;

        while bits_processed < count
            invariant
                old(self).wf(),
                self.map == old(self).map,
                self.map_len == old(self).map_len,
                self.va_start == old(self).va_start,
                self.va_end == old(self).va_end,
                self.hint == old(self).hint,
                self.next == old(self).next,
                self.full == old(self).full,
                self.failed_trys == old(self).failed_trys,
                start_idx + count <= old(self).map_len * 64,
                old_claim == old(self).claim@,
                bits_processed <= count,
                range_written(old_claim, self.claim@, start_idx as int, bits_processed as int, true),
                range_clear(self.map@, start_idx as int, bits_processed as int),
            decreases count - bits_processed,
        {
            let current_bit = start_idx + bits_processed;
            let chunk_idx = (current_bit / 64) as usize;
            let shift = current_bit % 64;
            let bits_in_this_chunk = bits_in_chunk(shift, count - bits_processed);
            let mask = make_chunk_mask(bits_in_this_chunk, shift);

            assert(chunk_idx < old(self).map_len);
            assert(old_claim.len() == old(self).map_len);
            let claim_val = self.claim[chunk_idx];
            let map_val = self.map[chunk_idx];
            proof {
                lemma_and_mask_zero(claim_val | map_val, bits_in_this_chunk, shift);
                lemma_and_mask_zero(map_val, bits_in_this_chunk, shift);
                assert forall|b: int| shift <= b < shift + bits_in_this_chunk implies #[trigger] bit_set(
                    claim_val | map_val,
                    b,
                ) == bit_set(map_val, b) by {
                    lemma_or_bit(claim_val, map_val, b as u64);
                    let i = chunk_idx * 64 + b;
                    lemma_chunk_positions(current_bit as int, bits_in_this_chunk as int, i);
                    assert(bit_of(self.claim@, i) == bit_of(old_claim, i));
                    lemma_zero_word_bits(old_claim[chunk_idx as int], b as u64);
                }
            }
            if ((claim_val | map_val) & mask) != 0 {
                proof {
                    let b = choose|b: int|
                        shift <= b < shift + bits_in_this_chunk && #[trigger] bit_set(map_val, b);
                    let i = chunk_idx * 64 + b;
                    lemma_chunk_positions(current_bit as int, bits_in_this_chunk as int, i);
                    assert(bit_of(old(self).map@, i));
                }
                self.rollback_claim(start_idx, bits_processed);
                proof {
                    assert forall|k: int| 0 <= k < self.claim.len() implies #[trigger] self.claim@[k]
                        == 0 by {
                        if self.claim@[k] != 0 {
                            lemma_lowest_set(self.claim@[k]);
                            let t = self.claim@[k].trailing_zeros() as int;
                            assert(bit_of(self.claim@, k * 64 + t));
                            lemma_zero_word_bits(old_claim[k], t as u64);
                            assert(bit_of(old_claim, k * 64 + t) == false);
                        }
                    }
                }
                return false;
            }
            let ghost before = self.claim@;
            self.claim.set(chunk_idx, claim_val | mask);
            proof {
                lemma_word_or(before, self.claim@, chunk_idx as int, mask);
                assert forall|i: int| 0 <= i < old_claim.len() * 64 implies #[trigger] bit_of(
                    self.claim@,
                    i,
                ) == if start_idx <= i < start_idx + bits_processed + bits_in_this_chunk {
                    true
                } else {
                    bit_of(old_claim, i)
                } by {
                    lemma_chunk_positions(current_bit as int, bits_in_this_chunk as int, i);
                    if i / 64 == chunk_idx as int {
                        lemma_chunk_mask(bits_in_this_chunk, shift, (i % 64) as u64);
                    }
                }
                assert forall|i: int|
                    start_idx <= i < start_idx + bits_processed + bits_in_this_chunk implies !#[trigger] bit_of(
                    self.map@,
                    i,
                ) by {
                    if i >= current_bit {
                        lemma_chunk_positions(current_bit as int, bits_in_this_chunk as int, i);
                        let b = i % 64;
                        assert(bit_set(claim_val | map_val, b) == bit_set(map_val, b));
                        assert(!bit_set(claim_val | map_val, b));
                        assert(self.map@[i / 64] == map_val);
                    }
                }
            }
            bits_processed = bits_processed + bits_in_this_chunk;
        }

        set_bits(&mut self.map, start_idx, count);
        clear_bits(&mut self.claim, start_idx, count);
        proof {
            assert forall|k: int| 0 <= k < self.claim.len() implies #[trigger] self.claim@[k] == 0 by {
                if self.claim@[k] != 0 {
                    lemma_lowest_set(self.claim@[k]);
                    let t = self.claim@[k].trailing_zeros() as int;
                    assert(bit_of(self.claim@, k * 64 + t));
                    lemma_zero_word_bits(old_claim[k], t as u64);
                    assert(bit_of(old_claim, k * 64 + t) == false);
                }
            }
        }
        true
    }

    /// Marks `count` blocks from `start_idx` on as free, one bit at a time.
    fn rollback(&mut self, start_idx: u64, count: u64)
        requires
            old(self).wf(),
            start_idx + count <= old(self).map_len * 64,
        ensures
            final(self).wf(),
            final(self).same_range(old(self)),
            final(self).hint == old(self).hint,
            final(self).full == old(self).full,
            final(self).failed_trys == old(self).failed_trys,
            range_written(old(self).map@, final(self).map@, start_idx as int, count as int, false),
    {
        let mut k: u64 = 0;
        while k < count
            invariant
                old(self).wf(),
                self.claim == old(self).claim,
                self.map_len == old(self).map_len,
                self.va_start == old(self).va_start,
                self.va_end == old(self).va_end,
                self.hint == old(self).hint,
                self.next == old(self).next,
                self.full == old(self).full,
                self.failed_trys == old(self).failed_trys,
                start_idx + count <= old(self).map_len * 64,
                k <= count,
                range_written(old(self).map@, self.map@, start_idx as int, k as int, false),
            decreases count - k,
        {
            let idx = start_idx + k;
            let b = idx % 64;
            let mask = 1u64 << b;
            assert(mask == chunk_mask(1, b)) by (bit_vector)
                requires
                    mask == 1u64 << b,
                    b < 64,
            ;
            let w = (idx / 64) as usize;
            let ghost before = self.map@;
            let cur = self.map[w];
            self.map.set(w, cur & !mask);
            proof {
                lemma_word_and_not(before, self.map@, w as int, mask);
                assert forall|i: int| 0 <= i < old(self).map.len() * 64 implies #[trigger] bit_of(
                    self.map@,
                    i,
                ) == if start_idx <= i < start_idx + k + 1 {
                    false
                } else {
                    bit_of(old(self).map@, i)
                } by {
                    lemma_chunk_positions(idx as int, 1, i);
                    if i / 64 == w as int {
                        lemma_chunk_mask(1, b, (i % 64) as u64);
                    }
                }
            }
            k = k + 1;
        }
    }

    /// Searches words `[from, to)` for the lowest free block and claims it.
    #[verifier::spinoff_prover]
    #[verifier::rlimit(50)]
    fn scan_single(&mut self, from: u64, to: u64, chunks: u64, last_valid_bits: u64, total_bits: u64) -> (res: Option<u64>)
        requires
            old(self).wf(),
            total_bits == old(self).total(),
            chunks as int == old(self).map_len,
            last_valid_bits == total_bits % 64,
            from <= to <= chunks,
        ensures
            final(self).wf(),
            final(self).same_range(old(self)),
            final(self).full == old(self).full,
            final(self).failed_trys == old(self).failed_trys,
            match res {
                Some(a) => {
                    let g = (a - old(self).va_start) / 4096;
                    &&& old(self).va_start <= a
                    &&& (a - old(self).va_start) % 4096 == 0
                    &&& from * 64 <= g < to * 64
                    &&& g < old(self).total()
                    &&& !old(self).is_used(g)
                    &&& forall|p: int| from * 64 <= p < g ==> #[trigger] taken(old(self).map@, old(self).total(), p)
                    &&& range_written(old(self).map@, final(self).map@, g, 1, true)
                    &&& final(self).hint as int == g / 64
                },
                None => {
                    &&& final(self).map@ == old(self).map@
                    &&& final(self).hint == old(self).hint
                    &&& forall|p: int| from * 64 <= p < to * 64 ==> #[trigger] taken(old(self).map@, old(self).total(), p)
                },
            },
    {
        let mut i = from;
        while i < to
            invariant
                old(self).wf(),
                self.map == old(self).map,
                self.claim == old(self).claim,
                self.map_len == old(self).map_len,
                self.va_start == old(self).va_start,
                self.va_end == old(self).va_end,
                self.hint == old(self).hint,
                self.next == old(self).next,
                self.full == old(self).full,
                self.failed_trys == old(self).failed_trys,
                total_bits == old(self).total(),
                chunks as int == old(self).map_len,
                last_valid_bits == total_bits % 64,
                from <= i <= to,
                to <= chunks,
                forall|p: int| from * 64 <= p < i * 64 ==> #[trigger] taken(old(self).map@, old(self).total(), p),
            decreases to - i,
        {
            let mut chunk = self.map[i as usize];
            proof {
                assert forall|b: int| 0 <= b < 64 implies #[trigger] bit_set(chunk, b) == bit_of(self.map@, i * 64 + b) by {
                    assert((i * 64 + b) / 64 == i);
                    assert((i * 64 + b) % 64 == b);
                }
            }

            if chunk == u64::MAX {
                proof {
                    assert forall|p: int| from * 64 <= p < (i + 1) * 64 implies #[trigger] taken(old(self).map@, old(self).total(), p) by {
                        if p >= i * 64 {
                            lemma_full_word_bits(chunk, (p - i * 64) as u64);
                            assert(bit_set(chunk, p - i * 64));
                        }
                    }
                }
                i = i + 1;
                continue;
            }

            if i == chunks - 1 && last_valid_bits != 0 {
                assert((1u64 << last_valid_bits) >= 1u64) by (bit_vector)
                    requires
                        last_valid_bits < 64,
                ;
                let tail = !((1u64 << last_valid_bits) - 1);
                let ghost before = chunk;
                chunk = chunk | tail;
                proof {
                    assert forall|b: int| 0 <= b < 64 implies #[trigger] bit_set(chunk, b) == taken(self.map@, total_bits as int, i * 64 + b) by {
                        lemma_or_bit(before, tail, b as u64);
                        lemma_tail_mask_bit(last_valid_bits, b as u64);
                        assert(bit_set(before, b) == bit_of(self.map@, i * 64 + b));
                    }
                }
                if chunk == u64::MAX {
                    proof {
                        assert forall|p: int| from * 64 <= p < (i + 1) * 64 implies #[trigger] taken(old(self).map@, old(self).total(), p) by {
                            if p >= i * 64 {
                                lemma_full_word_bits(chunk, (p - i * 64) as u64);
                                assert(bit_set(chunk, p - i * 64));
                            }
                        }
                    }
                    i = i + 1;
                    continue;
                }
            } else {
                proof {
                    assert forall|b: int| 0 <= b < 64 implies #[trigger] bit_set(chunk, b) == taken(self.map@, total_bits as int, i * 64 + b) by {
                        assert(i * 64 + b < total_bits);
                    }
                }
            }

            while chunk != u64::MAX
                invariant
                    old(self).wf(),
                    self.map == old(self).map,
                    self.claim == old(self).claim,
                    self.map_len == old(self).map_len,
                    self.va_start == old(self).va_start,
                    self.va_end == old(self).va_end,
                    self.hint == old(self).hint,
                    self.next == old(self).next,
                    self.full == old(self).full,
                    self.failed_trys == old(self).failed_trys,
                    total_bits == old(self).total(),
                    from <= i < to,
                    to <= chunks,
                    chunks as int == old(self).map_len,
                    forall|p: int| from * 64 <= p < i * 64 ==> #[trigger] taken(old(self).map@, old(self).total(), p),
                    forall|b: int| 0 <= b < 64 ==> #[trigger] bit_set(chunk, b) == taken(self.map@, total_bits as int, i * 64 + b),
                ensures
                    chunk == u64::MAX,
                decreases u64::MAX - chunk,
            {
                let nc = !chunk;
                proof {
                    assert(nc != 0) by (bit_vector)
                        requires
                            nc == !chunk,
                            chunk != u64::MAX,
                    ;
                    lemma_lowest_set(nc);
                }
                let bit = nc.trailing_zeros() as u64;
                proof {
                    lemma_not_bit(chunk, bit);
                    assert(!bit_set(chunk, bit as int));
                    assert forall|b: int| 0 <= b < bit implies #[trigger] bit_set(chunk, b) by {
                        lemma_not_bit(chunk, b as u64);
                        assert(!bit_set(nc, b));
                    }
                }
                let mask = 1u64 << bit;
                let global_idx = i * 64 + bit;
                if global_idx >= total_bits {
                    break;
                }
                if self.try_claim(global_idx, 1) {
                    self.hint = i;
                    proof {
                        assert forall|p: int| from * 64 <= p < global_idx implies #[trigger] taken(old(self).map@, old(self).total(), p) by {
                            if p >= i * 64 {
                                assert(bit_set(chunk, p - i * 64));
                            }
                        }
                    }
                    return Some(self.va_start + global_idx * BLOCK_SIZE);
                }
                chunk = chunk | mask;
            }
            proof {
                assert forall|p: int| from * 64 <= p < (i + 1) * 64 implies #[trigger] taken(old(self).map@, old(self).total(), p) by {
                    if p >= i * 64 {
                        lemma_full_word_bits(chunk, (p - i * 64) as u64);
                        assert(bit_set(chunk, p - i * 64));
                    }
                }
            }
            i = i + 1;
        }
        None
    }

    /// Claims one free block, searching word by word from a word drawn
    /// near the hint and wrapping around to the start.
    #[verifier::spinoff_prover]
    pub fn alloc_single(&mut self, rng: &mut Rng) -> (res: Option<u64>)
        requires
            old(self).wf(),
        ensures
            final(self).wf(),
            final(self).same_range(old(self)),
            final(self).is_full() == old(self).is_full(),
            final(self).failures() == old(self).failures(),
            final(rng).state() == old(rng).next_state(),
            ({
                let n = (old(self).words().len() * 64) as int;
                let s = single_start_chunk(old(self).hint_word(), old(rng).next_value(), old(self).words().len() as u64) * 64;
                match res {
                    Some(a) => {
                        let g = (a - old(self).start()) / 4096;
                        &&& old(self).start() <= a
                        &&& (a - old(self).start()) % 4096 == 0
                        &&& 0 <= g < old(self).total()
                        &&& !old(self).is_used(g)
                        &&& forall|p: int| 0 <= p < old(self).total() && scan_rank(p, s, n) < scan_rank(g, s, n) ==> #[trigger] old(self).is_used(p)
                        &&& range_written(old(self).words(), final(self).words(), g, 1, true)
                        &&& final(self).hint_word() as int == g / 64
                    },
                    None => {
                        &&& final(self).words() == old(self).words()
                        &&& final(self).hint_word() == old(self).hint_word()
                        &&& forall|p: int| 0 <= p < old(self).total() ==> #[trigger] old(self).is_used(p)
                    },
                }
            }),
    {
        let total_bits = self.max_bits();
        if total_bits == 0 {
            return None;
        }
        let chunks = (total_bits + 63) / 64;
        let h = self.hint;
        let r = rng.next_usize();
        let rand_blocks = r & (MAX_RANDOM_BLOCKS - 1);
        assert(rand_blocks <= 65535) by (bit_vector)
            requires
                rand_blocks == r & 65535u64,
        ;
        assert(h * 64 < total_bits + 64);
        let start_chunk = (h * 64 + rand_blocks) / 64 % chunks;
        let last_valid_bits = total_bits % 64;
        let ghost n = chunks * 64;
        let ghost s = start_chunk * 64;
        assert(start_chunk as int == single_start_chunk(h, r, chunks));

        let first = self.scan_single(start_chunk, chunks, chunks, last_valid_bits, total_bits);
        if first.is_some() {
            proof {
                let g = (first.unwrap() - old(self).va_start) / 4096;
                assert forall|p: int| 0 <= p < old(self).total() && scan_rank(p, s, n) < scan_rank(g, s, n) implies #[trigger] old(self).is_used(p) by {
                    assert(taken(old(self).map@, old(self).total(), p));
                }
            }
            return first;
        }
        let ghost mid = *self;
        let second = self.scan_single(0, start_chunk, chunks, last_valid_bits, total_bits);
        proof {
            assert forall|p: int| s <= p < n implies #[trigger] taken(old(self).map@, old(self).total(), p) by {
                assert(taken(mid.map@, mid.total(), p));
            }
            match second {
                Some(a) => {
                    let g = (a - old(self).va_start) / 4096;
                    assert forall|p: int| 0 <= p < old(self).total() && scan_rank(p, s, n) < scan_rank(g, s, n) implies #[trigger] old(self).is_used(p) by {
                        assert(taken(old(self).map@, old(self).total(), p));
                    }
                },
                None => {
                    assert forall|p: int| 0 <= p < old(self).total() implies #[trigger] old(self).is_used(p) by {
                        assert(taken(old(self).map@, old(self).total(), p));
                    }
                },
            }
        }
        second
    }

    /// Scans bits `[range_start, range_end)` for a run of `count` free
    /// blocks and claims the first one found. When none is found, also
    /// returns the length and start of the free run that reaches the end of
    /// the range.
    #[verifier::spinoff_prover]
    fn scan_runs(&mut self, range_start: u64, range_end: u64, count: u64) -> (res: (Option<u64>, u64, u64))
        requires
            old(self).wf(),
            range_start <= range_end <= old(self).total(),
            1 <= count,
        ensures
            final(self).wf(),
            final(self).same_range(old(self)),
            final(self).full == old(self).full,
            final(self).failed_trys == old(self).failed_trys,
            match res.0 {
                Some(a) => {
                    let g = (a - old(self).va_start) / 4096;
                    &&& old(self).va_start <= a
                    &&& (a - old(self).va_start) % 4096 == 0
                    &&& range_start <= g
                    &&& g + count <= range_end
                    &&& window_free(old(self).map@, old(self).total(), g, count as int)
                    &&& forall|q: int| range_start <= q < g ==> !#[trigger] window_free(old(self).map@, old(self).total(), q, count as int)
                    &&& range_written(old(self).map@, final(self).map@, g, count as int, true)
                    &&& final(self).hint as int == g / 64
                },
                None => {
                    let c = res.1;
                    let rs = res.2;
                    &&& final(self).map@ == old(self).map@
                    &&& final(self).hint == old(self).hint
                    &&& c < count
                    &&& c > 0 ==> (rs + c == range_end && range_start <= rs && range_clear(old(self).map@, rs as int, c as int))
                    &&& forall|q: int| range_start <= q < (if c > 0 { rs as int } else { range_end as int }) ==> !#[trigger] window_free(old(self).map@, old(self).total(), q, count as int)
                },
            },
    {
        let ghost total = old(self).total();
        let ghost map0 = old(self).map@;
        let mut current_run: u64 = 0;
        let mut run_start: u64 = 0;
        let mut global_bit = range_start;

        while global_bit < range_end
            invariant
                old(self).wf(),
                self.map == old(self).map,
                self.claim == old(self).claim,
                self.map_len == old(self).map_len,
                self.va_start == old(self).va_start,
                self.va_end == old(self).va_end,
                self.hint == old(self).hint,
                self.next == old(self).next,
                self.full == old(self).full,
                self.failed_trys == old(self).failed_trys,
                total == old(self).total(),
                map0 == old(self).map@,
                range_start <= range_end <= total,
                1 <= count,
                range_start <= global_bit <= old(self).map_len * 64,
                current_run < count,
                current_run > 0 ==> (global_bit <= range_end && run_start + current_run == global_bit && range_start <= run_start && range_clear(map0, run_start as int, current_run as int)),
                forall|q: int| range_start <= q < (if current_run > 0 { run_start as int } else { global_bit as int }) ==> !#[trigger] window_free(map0, total, q, count as int),
            decreases old(self).map_len * 64 - global_bit,
        {
            let chunk_idx = global_bit / 64;
            let bit_in_chunk = global_bit % 64;
            let chunk = self.map[chunk_idx as usize];
            proof {
                assert forall|b: int| 0 <= b < 64 implies #[trigger] bit_set(chunk, b) == bit_of(map0, chunk_idx * 64 + b) by {
                    assert((chunk_idx * 64 + b) / 64 == chunk_idx);
                    assert((chunk_idx * 64 + b) % 64 == b);
                }
            }

            if bit_in_chunk == 0 && chunk == 0 {
                let remaining_in_range = range_end - global_bit;
                let skip = if 64 < remaining_in_range { 64 } else { remaining_in_range };
                proof {
                    assert forall|i: int| global_bit <= i < global_bit + skip implies !#[trigger] bit_of(map0, i) by {
                        lemma_zero_word_bits(chunk, (i - global_bit) as u64);
                        assert(bit_set(chunk, i - global_bit) == bit_of(map0, chunk_idx * 64 + (i - global_bit)));
                    }
                }
                let ghost old_run = current_run;
                if current_run == 0 {
                    run_start = global_bit;
                }
                current_run = current_run + skip;

                if current_run >= count {
                    proof {
                        assert forall|i: int| run_start <= i < run_start + count implies !#[trigger] bit_of(map0, i) by {
                            if i < global_bit {
                                assert(range_clear(map0, run_start as int, old_run as int));
                            }
                        }
                    }
                    if self.try_claim(run_start, count) {
                        self.hint = run_start / 64;
                        return (Some(self.va_start + run_start * BLOCK_SIZE), 0, 0);
                    }
                    current_run = 0;
                    global_bit = global_bit + 1;
                    continue;
                }
                proof {
                    assert forall|i: int| run_start <= i < run_start + current_run implies !#[trigger] bit_of(map0, i) by {
                        if i < global_bit {
                            assert(range_clear(map0, run_start as int, old_run as int));
                        }
                    }
                }
                global_bit = global_bit + skip;
                continue;
            }

            if chunk == u64::MAX {
                proof {
                    let r0 = if current_run > 0 { run_start as int } else { global_bit as int };
                    assert forall|q: int| range_start <= q < (chunk_idx + 1) * 64 implies !#[trigger] window_free(map0, total, q, count as int) by {
                        if q >= r0 {
                            let u = if q < global_bit { global_bit as int } else { q };
                            lemma_full_word_bits(chunk, (u - chunk_idx * 64) as u64);
                            assert(bit_set(chunk, u - chunk_idx * 64));
                            assert(bit_of(map0, u));
                        }
                    }
                }
                current_run = 0;
                global_bit = (chunk_idx + 1) * 64;
                continue;
            }

            proof {
                lemma_and_mask_zero(chunk, 1, bit_in_chunk);
                assert forall|b: u64| b < 64 implies #[trigger] (chunk_mask(1, bit_in_chunk) >> b) & 1u64 == 1u64 <==> b == bit_in_chunk by {
                    lemma_chunk_mask(1, bit_in_chunk, b);
                }
            }
            let one = make_chunk_mask(1, bit_in_chunk);
            assert(one == 1u64 << bit_in_chunk) by (bit_vector)
                requires
                    one == chunk_mask(1, bit_in_chunk),
                    bit_in_chunk < 64,
            ;
            if (chunk & (1u64 << bit_in_chunk)) != 0 {
                proof {
                    assert(bit_set(chunk, bit_in_chunk as int));
                    assert(bit_of(map0, global_bit as int));
                    let r0 = if current_run > 0 { run_start as int } else { global_bit as int };
                    assert forall|q: int| range_start <= q < global_bit + 1 implies !#[trigger] window_free(map0, total, q, count as int) by {
                        if q >= r0 {
                            assert(bit_of(map0, global_bit as int));
                        }
                    }
                }
                current_run = 0;
            } else {
                proof {
                    assert(!bit_set(chunk, bit_in_chunk as int));
                    assert(!bit_of(map0, global_bit as int));
                }
                let ghost old_run = current_run;
                if current_run == 0 {
                    run_start = global_bit;
                }
                current_run = current_run + 1;
                proof {
                    assert forall|i: int| run_start <= i < run_start + current_run implies !#[trigger] bit_of(map0, i) by {
                        if i < global_bit {
                            assert(range_clear(map0, run_start as int, old_run as int));
                        }
                    }
                }

                if current_run == count {
                    if self.try_claim(run_start, count) {
                        self.hint = run_start / 64;
                        return (Some(self.va_start + run_start * BLOCK_SIZE), 0, 0);
                    }
                    current_run = 0;
                }
            }
            global_bit = global_bit + 1;
        }
        (None, current_run, run_start)
    }

    /// Claims `count` consecutive free blocks. The search starts at a bit
    /// drawn near the hint, runs to the end of the segment, and then runs
    /// from the start; a free run that reaches the starting bit from below
    /// may continue past it.
    #[verifier::spinoff_prover]
    pub fn alloc_multi(&mut self, count: u64, rng: &mut Rng) -> (res: Option<u64>)
        requires
            old(self).wf(),
            count >= 1,
        ensures
            final(self).wf(),
            final(self).same_range(old(self)),
            final(self).is_full() == old(self).is_full(),
            final(self).failures() == old(self).failures(),
            count <= old(self).total() ==> final(rng).state() == old(rng).next_state(),
            count > old(self).total() ==> final(rng).state() == old(rng).state(),
            ({
                let t = old(self).total();
                let sb = multi_start_bit(old(self).hint_word(), old(rng).next_value(), t as u64);
                match res {
                    Some(a) => {
                        let g = (a - old(self).start()) / 4096;
                        &&& old(self).start() <= a
                        &&& (a - old(self).start()) % 4096 == 0
                        &&& window_free(old(self).words(), t, g, count as int)
                        &&& forall|q: int| 0 <= q < t && scan_rank(q, sb, t) < scan_rank(g, sb, t) ==> !#[trigger] window_free(old(self).words(), t, q, count as int)
                        &&& range_written(old(self).words(), final(self).words(), g, count as int, true)
                        &&& final(self).hint_word() as int == g / 64
                    },
                    None => {
                        &&& final(self).words() == old(self).words()
                        &&& final(self).hint_word() == old(self).hint_word()
                        &&& forall|q: int| 0 <= q < t ==> !#[trigger] window_free(old(self).words(), t, q, count as int)
                    },
                }
            }),
    {
        let total_bits = self.max_bits();
        if total_bits == 0 || count > total_bits {
            proof {
                assert forall|q: int| 0 <= q < total_bits implies !#[trigger] window_free(old(self).map@, old(self).total(), q, count as int) by {}
            }
            return None;
        }
        let ghost map0 = self.map@;
        let ghost t = self.total();

        let h = self.hint;
        let r = rng.next_usize();
        let rand_bits = r & (MAX_RANDOM_BLOCKS - 1);
        assert(rand_bits <= 65535) by (bit_vector)
            requires
                rand_bits == r & 65535u64,
        ;
        assert(h * 64 < total_bits + 64);
        let start_bit = (h * 64 + rand_bits) % total_bits;
        let ghost sb = start_bit as int;
        assert(sb == multi_start_bit(h, r, total_bits));

        let (first, _, _) = self.scan_runs(start_bit, total_bits, count);
        if first.is_some() {
            proof {
                let g = (first.unwrap() - old(self).va_start) / 4096;
                assert forall|q: int| 0 <= q < t && scan_rank(q, sb, t) < scan_rank(g, sb, t) implies !#[trigger] window_free(map0, t, q, count as int) by {}
            }
            return first;
        }
        proof {
            assert forall|q: int| sb <= q < t implies !#[trigger] window_free(map0, t, q, count as int) by {
                if q >= sb && window_free(map0, t, q, count as int) {
                    assert(q + count <= t);
                }
            }
        }

        let (second, current_run, run_start) = self.scan_runs(0, start_bit, count);
        if second.is_some() {
            proof {
                let g = (second.unwrap() - old(self).va_start) / 4096;
                assert forall|q: int| 0 <= q < t && scan_rank(q, sb, t) < scan_rank(g, sb, t) implies !#[trigger] window_free(map0, t, q, count as int) by {}
            }
            return second;
        }

        if current_run > 0 {
            let carry_start = run_start;
            let carry_len = current_run;
            let mut extend: u64 = 0;
            let need = count - carry_len;

            if need > 0 {
                let mut b = start_bit;
                while b < total_bits && extend < need
                    invariant
                        self.wf(),
                        self.map@ == map0,
                        self.map_len as int == (t + 63) / 64,
                        total_bits == t,
                        start_bit <= b <= total_bits,
                        b == start_bit + extend,
                        extend <= need,
                        range_clear(map0, start_bit as int, extend as int),
                    ensures
                        range_clear(map0, start_bit as int, extend as int),
                        b == start_bit + extend,
                        extend <= need,
                        extend < need ==> (b == total_bits || bit_of(map0, b as int)),
                    decreases total_bits - b,
                {
                    let chunk = self.map[(b / 64) as usize];
                    let sh = b % 64;
                    proof {
                        lemma_and_mask_zero(chunk, 1, sh);
                    }
                    let one = make_chunk_mask(1, sh);
                    assert(one == 1u64 << sh) by (bit_vector)
                        requires
                            one == chunk_mask(1, sh),
                            sh < 64,
                    ;
                    proof {
                        assert(self.map@[b as int / 64] == chunk);
                    }
                    if (chunk & (1u64 << sh)) != 0 {
                        proof {
                            assert(bit_set(chunk, sh as int));
                        }
                        break;
                    }
                    proof {
                        assert(!bit_set(chunk, sh as int));
                    }
                    extend = extend + 1;
                    b = b + 1;
                }
            }

            if carry_len + extend >= count {
                proof {
                    assert forall|i: int| carry_start <= i < carry_start + count implies !#[trigger] bit_of(map0, i) by {
                        if i >= start_bit {
                            assert(range_clear(map0, start_bit as int, extend as int));
                        }
                    }
                }
                if self.try_claim(carry_start, count) {
                    self.hint = carry_start / 64;
                    proof {
                        let g = carry_start as int;
                        assert forall|q: int| 0 <= q < t && scan_rank(q, sb, t) < scan_rank(g, sb, t) implies !#[trigger] window_free(map0, t, q, count as int) by {}
                    }
                    return Some(self.va_start + carry_start * BLOCK_SIZE);
                }
            } else {
                proof {
                    let b = start_bit + extend;
                    assert forall|q: int| carry_start <= q < start_bit implies !#[trigger] window_free(map0, t, q, count as int) by {
                        if window_free(map0, t, q, count as int) {
                            assert(q + count > b);
                            if b < t {
                                assert(bit_of(map0, b as int));
                            }
                        }
                    }
                }
            }
        }
        proof {
            assert forall|q: int| 0 <= q < t implies !#[trigger] window_free(map0, t, q, count as int) by {}
        }
        None
    }

    /// `new` is `old` after `old.free(addr, size)`.
    pub open spec fn free_effect(old: &Segment, new: &Segment, addr: u64, size: u64) -> bool {
        let idx = (addr - old.start()) / 4096;
        let want = (size + 4095) / 4096;
        let count = if idx + want > old.total() { old.total() - idx } else { want };
        &&& new.wf()
        &&& new.same_range(old)
        &&& if old.start() <= addr < old.end() && idx < old.total() {
            &&& range_written(old.words(), new.words(), idx, count, false)
            &&& new.hint_word() == if idx / 64 < old.hint_word() { (idx / 64) as u64 } else { old.hint_word() }
            &&& if size > MAX_RANDOM_BYTES && old.is_full() {
                &&& !new.is_full()
                &&& new.failures() == vstd::wrapping::u8_specs::wrapping_sub(old.failures(), 1)
            } else {
                &&& new.is_full() == old.is_full()
                &&& new.failures() == old.failures()
            }
        } else {
            &&& new.words() == old.words()
            &&& new.hint_word() == old.hint_word()
            &&& new.is_full() == old.is_full()
            &&& new.failures() == old.failures()
        }
    }

    /// Returns `size` bytes at `addr` to the segment. Addresses outside the
    /// segment are ignored, and the range is cut at the segment's end. Freeing
    /// a large range from a full segment makes it eligible for searches again.
    pub fn free(&mut self, addr: u64, size: u64)
        requires
            old(self).wf(),
            size + 4095 <= u64::MAX,
        ensures
            Segment::free_effect(old(self), final(self), addr, size),
    {
        let start = self.va_start;
        let end = self.va_end;
        if addr < start || addr >= end {
            return;
        }

        let total_bits = self.max_bits();
        if total_bits == 0 {
            return;
        }

        let offset = addr - start;
        let start_idx = offset / BLOCK_SIZE;
        if start_idx >= total_bits {
            return;
        }

        let mut count = (size + (BLOCK_SIZE - 1)) / BLOCK_SIZE;
        if start_idx + count > total_bits {
            count = total_bits - start_idx;
        }

        self.rollback(start_idx, count);

        let chunk = start_idx / 64;
        let current_hint = self.hint;
        if chunk < current_hint {
            self.hint = chunk;
        }
        if size > MAX_RANDOM_BYTES && self.full {
            self.failed_trys = self.failed_trys.wrapping_sub(1);
            self.full = false;
        }
    }

    /// The arguments that `realloc_inplace` accepts for this segment.
    pub open spec fn realloc_args(&self, addr: u64, old_size: u64, new_size: u64) -> bool {
        &&& old_size + 4096 <= u64::MAX
        &&& new_size + 4096 <= u64::MAX
        &&& (new_size + 4095) / 4096 != (old_size + 4095) / 4096 ==> self.start() <= addr
        &&& (new_size + 4095) / 4096 < (old_size + 4095) / 4096 ==> (addr - self.start()) / 4096 + (old_size + 4095) / 4096 <= self.words().len() * 64
    }

    /// `new` and `res` are `old` and the result after `old.realloc_inplace(addr, old_size, new_size)`.
    pub open spec fn realloc_effect(old: &Segment, new: &Segment, addr: u64, old_size: u64, new_size: u64, res: Option<u64>) -> bool {
        let ob = (old_size + 4095) / 4096;
        let nb = (new_size + 4095) / 4096;
        let sb = (addr - old.start()) / 4096;
        &&& new.wf()
        &&& new.same_range(old)
        &&& new.hint_word() == old.hint_word()
        &&& new.is_full() == old.is_full()
        &&& new.failures() == old.failures()
        &&& if nb == ob {
            res == Some((ob * 4096) as u64) && new.words() == old.words()
        } else if nb < ob {
            res == Some((nb * 4096) as u64) && range_written(old.words(), new.words(), sb + nb, ob - nb, false)
        } else if sb + nb <= old.total() && range_clear(old.words(), sb + ob, nb - ob) {
            res == Some((nb * 4096) as u64) && range_written(old.words(), new.words(), sb + ob, nb - ob, true)
        } else {
            res is None && new.words() == old.words()
        }
    }

    /// Resizes the allocation of `old_size` bytes at `addr` in place.
    /// Shrinking frees the tail; growing claims the blocks right after the
    /// allocation when they are all free and inside the segment. Returns the
    /// new size rounded up to whole blocks.
    pub fn realloc_inplace(&mut self, addr: u64, old_size: u64, new_size: u64) -> (res: Option<u64>)
        requires
            old(self).wf(),
            old(self).realloc_args(addr, old_size, new_size),
        ensures
            Segment::realloc_effect(old(self), final(self), addr, old_size, new_size, res),
    {
        let old_blocks = (old_size + BLOCK_SIZE - 1) / BLOCK_SIZE;
        let new_blocks = (new_size + BLOCK_SIZE - 1) / BLOCK_SIZE;

        if new_blocks == old_blocks {
            return Some(old_blocks * BLOCK_SIZE);
        }

        if new_blocks < old_blocks {
            let shrink_start_bit = (addr - self.va_start) / BLOCK_SIZE + new_blocks;
            let count_to_free = old_blocks - new_blocks;
            self.rollback(shrink_start_bit, count_to_free);
            return Some(new_blocks * BLOCK_SIZE);
        }

        let start_va = self.va_start;
        let offset = addr - start_va;
        let start_bit = offset / BLOCK_SIZE;
        let growth_start_bit = start_bit + old_blocks;
        let additional_needed = new_blocks - old_blocks;

        if growth_start_bit + additional_needed > self.max_bits() {
            return None;
        }

        if self.try_claim(growth_start_bit, additional_needed) {
            Some(new_blocks * BLOCK_SIZE)
        } else {
            None
        }
    }
}

/// Bits of a chunk index that select the first-level slot.
pub const L1_BITS: u64 = 12;
/// Bits of a chunk index that select the second-level slot.
pub const L2_BITS: u64 = 13;
/// Slots in the first level.
pub const L1_SIZE: usize = 4096;
/// Slots in each second-level table.
pub const L2_SIZE: usize = 8192;
/// Chunk indices at or above this bound are never recorded.
pub const RADIX_MAX_CHUNKS: u64 = 33554432;

/// A two-level table from chunk indices to non-zero segment references.
/// The first level is mapped on first use; each second-level table when
/// its first entry is recorded.
pub struct Radix {
    l1: Vec<Vec<u64>>,
}

impl Radix {
    pub closed spec fn wf(&self) -> bool {
        &&& (self.l1.len() == 0 || self.l1.len() == L1_SIZE)
        &&& forall|i: int| 0 <= i < self.l1.len() ==> (#[trigger] self.l1@[i]).len() == 0 || self.l1@[i].len() == L2_SIZE
    }

    /// The first level has been mapped.
    pub closed spec fn is_mapped(&self) -> bool {
        self.l1.len() == L1_SIZE
    }

    /// What the table records for chunk `c`.
    pub closed spec fn entry(&self, c: int) -> Option<u64> {
        if 0 <= c < RADIX_MAX_CHUNKS && self.l1.len() == L1_SIZE {
            let row = self.l1@[c / 8192];
            if row.len() == L2_SIZE && row@[c % 8192] != 0 {
                Some(row@[c % 8192])
            } else {
                None
            }
        } else {
            None
        }
    }

    /// The table before its first level is mapped.
    pub fn unmapped() -> (r: Radix)
        ensures
            r.wf(),
            !r.is_mapped(),
            forall|c: int| #[trigger] r.entry(c) is None,
    {
        Radix { l1: Vec::new() }
    }

    /// An empty table with its first level mapped.
    pub fn new() -> (r: Radix)
        ensures
            r.wf(),
            r.is_mapped(),
            forall|c: int| #[trigger] r.entry(c) is None,
    {
        let mut l1: Vec<Vec<u64>> = Vec::new();
        let mut i: usize = 0;
        while i < L1_SIZE
            invariant
                i <= L1_SIZE,
                l1.len() == i,
                forall|k: int| 0 <= k < i ==> (#[trigger] l1@[k]).len() == 0,
            decreases L1_SIZE - i,
        {
            l1.push(Vec::new());
            i = i + 1;
        }
        Radix { l1 }
    }

    /// Splits a chunk index into its first- and second-level slots.
    pub fn split(idx: u64) -> (r: (u64, u64))
        ensures
            r.0 == idx / 8192,
            r.1 == idx % 8192,
    {
        let l1 = idx >> L2_BITS;
        let l2 = idx & (8192u64 - 1);
        assert(l1 == idx / 8192 && l2 == idx % 8192) by (bit_vector)
            requires
                l1 == idx >> 13u64,
                l2 == idx & 8191u64,
        ;
        (l1, l2)
    }

    /// Records `seg` for chunk `chunk_idx`; indices past the table's range
    /// are ignored.
    pub fn set(&mut self, chunk_idx: u64, seg: u64)
        requires
            old(self).wf(),
            old(self).is_mapped(),
        ensures
            final(self).wf(),
            final(self).is_mapped(),
            forall|c: int| #[trigger] final(self).entry(c) == if c == chunk_idx && chunk_idx < RADIX_MAX_CHUNKS {
                if seg != 0 { Some(seg) } else { None }
            } else {
                old(self).entry(c)
            },
    {
        if chunk_idx >= RADIX_MAX_CHUNKS {
            return;
        }
        let (i, j) = Self::split(chunk_idx);
        let i = i as usize;
        let j = j as usize;
        if self.l1[i].len() == 0 {
            let mut row: Vec<u64> = Vec::new();
            let mut k: usize = 0;
            while k < L2_SIZE
                invariant
                    k <= L2_SIZE,
                    row.len() == k,
                    forall|m: int| 0 <= m < k ==> #[trigger] row@[m] == 0,
                decreases L2_SIZE - k,
            {
                row.push(0);
                k = k + 1;
            }
            self.l1.set(i, row);
        }
        self.l1[i].set(j, seg);
        proof {
            assert forall|c: int| #[trigger] self.entry(c) == if c == chunk_idx && chunk_idx < RADIX_MAX_CHUNKS {
                if seg != 0 { Some(seg) } else { None }
            } else {
                old(self).entry(c)
            } by {
                if 0 <= c < RADIX_MAX_CHUNKS && c != chunk_idx && c / 8192 == i {
                    assert(c % 8192 != j);
                }
            }
        }
    }

    /// The first level has been mapped.
    pub fn is_mapped_exec(&self) -> (r: bool)
        requires
            self.wf(),
        ensures
            r == self.is_mapped(),
    {
        self.l1.len() == L1_SIZE
    }

    /// What the table records for chunk `chunk_idx`.
    pub fn get(&self, chunk_idx: u64) -> (r: Option<u64>)
        requires
            self.wf(),
        ensures
            r == self.entry(chunk_idx as int),
    {
        if chunk_idx >= RADIX_MAX_CHUNKS || self.l1.len() != L1_SIZE {
            return None;
        }
        let (i, j) = Self::split(chunk_idx);
        let row = &self.l1[i as usize];
        if row.len() == 0 {
            None
        } else {
            let entry = row[j as usize];
            if entry == 0 {
                None
            } else {
                Some(entry)
            }
        }
    }
}

/// Index of the first chunk that `[start, start + size)` touches.
pub open spec fn first_chunk(start: u64) -> int {
    (start as int) / (CHUNK_SIZE as int)
}

/// Index of the last chunk that `[start, start + size)` touches, with the
/// end saturated at the top of the address space.
pub open spec fn last_chunk(start: u64, size: u64) -> int {
    let last = if size == 0 { 0int } else { size - 1 };
    let end = if start + last > u64::MAX { u64::MAX as int } else { start + last };
    end / (CHUNK_SIZE as int)
}

pub struct RadixTree {
    pub nodes: Radix,
}

impl RadixTree {
    pub open spec fn wf(&self) -> bool {
        self.nodes.wf()
    }

    /// An empty tree with its first level mapped.
    pub fn new() -> (t: RadixTree)
        ensures
            t.wf(),
            t.nodes.is_mapped(),
            forall|c: int| #[trigger] t.nodes.entry(c) is None,
    {
        RadixTree { nodes: Radix::new() }
    }

    /// Records `seg_ptr` for every chunk that `[start, start + size)` touches.
    pub fn set_range(&mut self, start: u64, size: u64, seg_ptr: u64)
        requires
            old(self).wf(),
            old(self).nodes.is_mapped(),
            seg_ptr != 0,
        ensures
            final(self).wf(),
            final(self).nodes.is_mapped(),
            forall|c: int| #[trigger] final(self).nodes.entry(c) == if first_chunk(start) <= c <= last_chunk(start, size) && c < RADIX_MAX_CHUNKS {
                Some(seg_ptr)
            } else {
                old(self).nodes.entry(c)
            },
    {
        let start_idx = start / CHUNK_SIZE;
        let end_idx = start.saturating_add(size.saturating_sub(1)) / CHUNK_SIZE;
        let count = end_idx.saturating_sub(start_idx) + 1;
        let mut i: u64 = 0;
        while i < count
            invariant
                self.wf(),
                self.nodes.is_mapped(),
                seg_ptr != 0,
                start_idx == first_chunk(start),
                end_idx == last_chunk(start, size),
                start_idx <= end_idx,
                count == end_idx - start_idx + 1,
                i <= count,
                forall|c: int| #[trigger] self.nodes.entry(c) == if start_idx <= c < start_idx + i && c < RADIX_MAX_CHUNKS {
                    Some(seg_ptr)
                } else {
                    old(self).nodes.entry(c)
                },
            decreases count - i,
        {
            self.nodes.set(start_idx + i, seg_ptr);
            i = i + 1;
        }
    }

    /// The segment recorded for the chunk that holds `addr`.
    pub fn get_segment(&self, addr: u64) -> (r: Option<u64>)
        requires
            self.wf(),
        ensures
            r == self.nodes.entry(addr as int / CHUNK_SIZE as int),
    {
        let idx = addr / CHUNK_SIZE;
        self.nodes.get(idx)
    }

    /// `[start, start + size)` reaches past the table's range, or touches a
    /// chunk that is already recorded.
    pub fn check_collision(&self, start: u64, size: u64) -> (r: bool)
        requires
            self.wf(),
        ensures
            r == (last_chunk(start, size) >= RADIX_MAX_CHUNKS || exists|c: int| first_chunk(start) <= c <= last_chunk(start, size) && #[trigger] self.nodes.entry(c) is Some),
    {
        let start_idx = start / CHUNK_SIZE;
        let end_idx = start.saturating_add(size.saturating_sub(1)) / CHUNK_SIZE;
        if end_idx >= RADIX_MAX_CHUNKS {
            return true;
        }
        let mut i = start_idx;
        while i <= end_idx
            invariant
                self.wf(),
                start_idx == first_chunk(start),
                end_idx == last_chunk(start, size),
                end_idx < RADIX_MAX_CHUNKS,
                start_idx <= i <= end_idx + 1,
                forall|c: int| start_idx <= c < i ==> #[trigger] self.nodes.entry(c) is None,
            decreases end_idx + 1 - i,
        {
            if self.nodes.get(i).is_some() {
                return true;
            }
            i = i + 1;
        }
        false
    }
}

/// The segment bitmap's search gave `res` for a request of `count` blocks:
/// either a claimed window of `old` or nothing.
pub open spec fn claim_effect(old: &Segment, new: &Segment, count: int, res: Option<u64>) -> bool {
    match res {
        Some(a) => {
            let g = (a - old.start()) / 4096;
            &&& old.start() <= a
            &&& (a - old.start()) % 4096 == 0
            &&& window_free(old.words(), old.total(), g, count)
            &&& range_written(old.words(), new.words(), g, count, true)
        },
        None => new.words() == old.words(),
    }
}

/// Two claims in a row on one segment hand out address ranges that share
/// no byte.
pub proof fn law_claims_apart(s0: &Segment, s1: &Segment, s2: &Segment, n1: int, n2: int, a1: u64, a2: u64)
    requires
        s1.wf(),
        1 <= n1,
        1 <= n2,
        s1.start() == s0.start(),
        claim_effect(s0, s1, n1, Some(a1)),
        claim_effect(s1, s2, n2, Some(a2)),
    ensures
        a1 + n1 * 4096 <= a2 || a2 + n2 * 4096 <= a1,
{
    let st = s0.start() as int;
    let g1 = (a1 - st) / 4096;
    let g2 = (a2 - st) / 4096;
    s1.lemma_blocks_fit_words();
    if !(g1 + n1 <= g2 || g2 + n2 <= g1) {
        let i = if g1 >= g2 { g1 } else { g2 };
        assert(bit_of(s1.words(), i));
        assert(!bit_of(s1.words(), i));
    }
    assert(a1 == st + g1 * 4096) by (nonlinear_arith)
        requires
            st <= a1,
            (a1 - st) % 4096 == 0,
            g1 == (a1 - st) / 4096,
    ;
    assert(a2 == st + g2 * 4096) by (nonlinear_arith)
        requires
            st <= a2,
            (a2 - st) % 4096 == 0,
            g2 == (a2 - st) / 4096,
    ;
    if g1 + n1 <= g2 {
        assert(a1 + n1 * 4096 <= a2) by (nonlinear_arith)
            requires
                a1 == st + g1 * 4096,
                a2 == st + g2 * 4096,
                g1 + n1 <= g2,
        ;
    } else {
        assert(a2 + n2 * 4096 <= a1) by (nonlinear_arith)
            requires
                a1 == st + g1 * 4096,
                a2 == st + g2 * 4096,
                g2 + n2 <= g1,
        ;
    }
}

/// A claimed window lies inside its segment.
pub proof fn lemma_claim_inside(s0: &Segment, s1: &Segment, count: int, a: u64)
    requires
        s0.wf(),
        1 <= count,
        s1.same_range(s0),
        claim_effect(s0, s1, count, Some(a)),
    ensures
        s1.start() <= a < s1.end(),
{
    let g = (a - s0.start()) / 4096;
    let d = (a - s0.start()) as int;
    let span = (s0.end() - s0.start()) as int;
    assert(d == g * 4096);
    assert(g < s0.total());
    assert(d < span) by (nonlinear_arith)
        requires
            d == g * 4096,
            g < span / 4096,
            0 <= g,
    ;
}

/// Freeing a window right after it was claimed gives every block of the
/// segment back the state it had before the claim.
pub proof fn law_claim_then_free(s0: &Segment, s1: &Segment, s2: &Segment, count: int, a: u64)
    requires
        s0.wf(),
        1 <= count,
        count * 4096 + 4096 <= u64::MAX,
        s1.wf(),
        s1.same_range(s0),
        claim_effect(s0, s1, count, Some(a)),
        Segment::free_effect(s1, s2, a, (count * 4096) as u64),
    ensures
        s2.same_range(s0),
        forall|i: int| 0 <= i < s0.words().len() * 64 ==> #[trigger] s2.is_used(i) == s0.is_used(i),
{
    let g = (a - s0.start()) / 4096;
    let d = (a - s0.start()) as int;
    let span = (s0.end() - s0.start()) as int;
    assert(d == g * 4096);
    assert(g < s0.total());
    assert(d < span) by (nonlinear_arith)
        requires
            d == g * 4096,
            g < span / 4096,
            0 <= g,
    ;
    assert((count * 4096 + 4095) / 4096 == count);
    assert(forall|i: int| 0 <= i < s0.words().len() * 64 ==> #[trigger] bit_of(s2.words(), i) == bit_of(s0.words(), i));
}

/// Outcome of a request to the reserved address space.
pub struct VaBitmap {
    map: Vec<Segment>,
    latest_segment: Option<usize>,
    lock: crate::internals::lock::SerialLock,
    radix_tree: RadixTree,
}

impl VaBitmap {
    /// Number of reserved segments.
    pub closed spec fn len(&self) -> nat {
        self.map@.len()
    }

    /// Segment `k`; the newest is the last.
    pub closed spec fn seg(&self, k: int) -> Segment {
        self.map@[k]
    }

    /// Every segment of a well-formed map is well formed, and starts above
    /// address zero.
    pub proof fn lemma_seg_wf(&self, k: int)
        requires
            self.wf(),
            0 <= k < self.len(),
        ensures
            self.seg(k).wf(),
            self.seg(k).start() > 0,
    {
    }

    /// The segment tried first by the next allocation.
    pub closed spec fn latest(&self) -> Option<usize> {
        self.latest_segment
    }

    /// Some reserved segment holds `addr`.
    pub open spec fn owns(&self, addr: u64) -> bool {
        exists|k: int| 0 <= k < self.len() && #[trigger] self.seg(k).start() <= addr < self.seg(k).end()
    }

    /// Well formed, with the lock free.
    pub open spec fn wf(&self) -> bool {
        &&& self.wf_but_lock()
        &&& !self.lock_held()
    }

    /// The map's lock is held.
    pub closed spec fn lock_held(&self) -> bool {
        self.lock.is_locked()
    }

    /// Well formed whether or not the lock is held, as in a child process
    /// after `fork`, where the thread that held it no longer exists.
    pub closed spec fn wf_but_lock(&self) -> bool {
        &&& self.radix_tree.wf()
        &&& self.map.len() > 0 ==> self.radix_tree.nodes.is_mapped()
        &&& self.latest_segment matches Some(k) ==> k < self.map.len()
        &&& forall|k: int| 0 <= k < self.map.len() ==> (#[trigger] self.map@[k]).wf() && self.map@[k].start() > 0
        &&& forall|k: int| 0 <= k < self.map.len() ==> (#[trigger] self.map@[k]).next_segment() == if k == 0 { None::<usize> } else { Some((k - 1) as usize) }
        &&& forall|k: int| 0 <= k < self.map.len() ==> last_chunk((#[trigger] self.map@[k]).start(), (self.map@[k].end() - self.map@[k].start()) as u64) < RADIX_MAX_CHUNKS
        &&& forall|k: int, c: int| #![trigger self.map@[k], self.radix_tree.nodes.entry(c)] 0 <= k < self.map.len() && first_chunk(self.map@[k].start()) <= c <= last_chunk(self.map@[k].start(), (self.map@[k].end() - self.map@[k].start()) as u64)
            ==> self.radix_tree.nodes.entry(c) == Some((k + 1) as u64)
        &&& forall|c: int| #[trigger] self.radix_tree.nodes.entry(c) matches Some(v) ==> {
            &&& 1 <= v <= self.map.len()
            &&& first_chunk(self.map@[v - 1].start()) <= c <= last_chunk(self.map@[v - 1].start(), (self.map@[v - 1].end() - self.map@[v - 1].start()) as u64)
        }
    }

    /// Releases the map's lock in a child process after `fork`, whether or
    /// not it was held; nothing else changes.
    pub fn reset_fork_locks(&mut self)
        requires
            old(self).wf_but_lock(),
        ensures
            final(self).wf(),
            !final(self).lock_held(),
            final(self).len() == old(self).len(),
            forall|k: int| 0 <= k < old(self).len() ==> #[trigger] final(self).seg(k) == old(self).seg(k),
            final(self).latest() == old(self).latest(),
            forall|a: u64| #[trigger] final(self).owns(a) == old(self).owns(a),
    {
        self.lock.reset_on_fork();
        assert(self.map == old(self).map);
        assert forall|a: u64| #[trigger] self.owns(a) == old(self).owns(a) by {
            if old(self).owns(a) {
                let k = choose|k: int| 0 <= k < old(self).len() && #[trigger] old(self).seg(k).start() <= a < old(self).seg(k).end();
                assert(self.seg(k) == old(self).seg(k));
            }
            if self.owns(a) {
                let k = choose|k: int| 0 <= k < self.len() && #[trigger] self.seg(k).start() <= a < self.seg(k).end();
                assert(self.seg(k) == old(self).seg(k));
            }
        }
    }

    /// No address space reserved yet.
    pub fn new() -> (v: VaBitmap)
        ensures
            v.wf(),
            v.len() == 0,
    {
        VaBitmap {
            map: Vec::new(),
            latest_segment: None,
            lock: crate::internals::lock::SerialLock::new(),
            radix_tree: RadixTree { nodes: Radix::unmapped() },
        }
    }

    proof fn lemma_owner(&self, addr: u64, k: int)
        requires
            self.wf(),
            0 <= k < self.len(),
            self.seg(k).start() <= addr < self.seg(k).end(),
        ensures
            self.radix_tree.nodes.entry(addr as int / CHUNK_SIZE as int) == Some((k + 1) as u64),
    {
        let s = self.map@[k];
        assert(s.wf());
        let c = addr as int / CHUNK_SIZE as int;
        assert(first_chunk(s.start()) <= c);
        assert(c <= last_chunk(s.start(), (s.end() - s.start()) as u64));
    }

    /// `addr` lies in a reserved segment.
    pub fn is_ours(&self, addr: u64) -> (r: bool)
        requires
            self.wf(),
        ensures
            r == self.owns(addr),
    {
        if !self.radix_tree.nodes.is_mapped_exec() {
            return false;
        }
        let segment = self.radix_tree.get_segment(addr);
        match segment {
            None => {
                proof {
                    if self.owns(addr) {
                        let k = choose|k: int| 0 <= k < self.len() && #[trigger] self.seg(k).start() <= addr < self.seg(k).end();
                        self.lemma_owner(addr, k);
                    }
                }
                false
            },
            Some(v) => {
                let s = &self.map[(v - 1) as usize];
                let r = addr >= s.va_start && addr < s.va_end;
                proof {
                    if r {
                        assert(self.seg((v - 1) as int).start() <= addr < self.seg((v - 1) as int).end());
                    }
                    if self.owns(addr) {
                        let k = choose|k: int| 0 <= k < self.len() && #[trigger] self.seg(k).start() <= addr < self.seg(k).end();
                        self.lemma_owner(addr, k);
                    }
                }
                r
            },
        }
    }

    /// Some reserved segment touches the 4 GiB chunk `c`.
    pub open spec fn chunk_in_use(&self, c: int) -> bool {
        exists|k: int| 0 <= k < self.len() && first_chunk(#[trigger] self.seg(k).start()) <= c <= last_chunk(self.seg(k).start(), (self.seg(k).end() - self.seg(k).start()) as u64)
    }

    /// Adds the segment `[user_va, end)` that the kernel reserved, of
    /// `total_size` bytes, unless the reservation failed (`user_va == 0`)
    /// or it reaches past the radix table's range or shares a 4 GiB chunk
    /// with a segment reserved before.
    pub fn grow(&mut self, user_va: u64, end: u64, total_size: u64) -> (res: Option<usize>)
        requires
            old(self).wf(),
            user_va != 0 ==> end == user_va + total_size,
            user_va != 0 ==> total_size >= BLOCK_SIZE,
            user_va != 0 ==> (total_size / 4096 + 63) / 64 <= usize::MAX,
        ensures
            final(self).wf(),
            res is None <==> (user_va == 0 || last_chunk(user_va, total_size) >= RADIX_MAX_CHUNKS
                || exists|c: int| first_chunk(user_va) <= c <= last_chunk(user_va, total_size) && #[trigger] old(self).chunk_in_use(c)),
            final(self).latest() == old(self).latest(),
            forall|k: int| 0 <= k < old(self).len() ==> #[trigger] final(self).seg(k) == old(self).seg(k),
            match res {
                None => final(self).len() == old(self).len(),
                Some(k) => {
                    &&& k == old(self).len()
                    &&& final(self).len() == old(self).len() + 1
                    &&& final(self).seg(k as int).start() == user_va
                    &&& final(self).seg(k as int).end() == end
                    &&& forall|i: int| 0 <= i < final(self).seg(k as int).total() ==> !#[trigger] final(self).seg(k as int).is_used(i)
                    &&& forall|a: u64| #[trigger] final(self).owns(a) == (old(self).owns(a) || (user_va <= a < end))
                },
            },
    {
        self.lock.lock();

        if !self.radix_tree.nodes.is_mapped_exec() {
            self.radix_tree = RadixTree::new();
        }

        proof {
            assert forall|c: int| #[trigger] self.radix_tree.nodes.entry(c) == old(self).radix_tree.nodes.entry(c) by {}
            assert forall|c: int| #[trigger] self.radix_tree.nodes.entry(c) is Some <==> old(self).chunk_in_use(c) by {
                if old(self).radix_tree.nodes.entry(c) is Some {
                    let v = old(self).radix_tree.nodes.entry(c).unwrap();
                    let k = v - 1;
                    assert(first_chunk(old(self).seg(k).start()) <= c <= last_chunk(old(self).seg(k).start(), (old(self).seg(k).end() - old(self).seg(k).start()) as u64));
                }
                if old(self).chunk_in_use(c) {
                    let k = choose|k: int| 0 <= k < old(self).len() && first_chunk(#[trigger] old(self).seg(k).start()) <= c <= last_chunk(old(self).seg(k).start(), (old(self).seg(k).end() - old(self).seg(k).start()) as u64);
                    assert(old(self).map@[k] == old(self).seg(k));
                    assert(old(self).radix_tree.nodes.entry(c) == Some((k + 1) as u64));
                }
            }
        }

        if user_va == 0 {
            self.lock.unlock();
            return None;
        }

        if self.radix_tree.check_collision(user_va, total_size) {
            self.lock.unlock();
            return None;
        }
        proof {
            assert forall|c: int| first_chunk(user_va) <= c <= last_chunk(user_va, total_size) implies !#[trigger] old(self).chunk_in_use(c) by {
                assert(self.radix_tree.nodes.entry(c) is None);
            }
        }

        let mut v = user_va;
        v ^= v >> 33;
        v ^= v << 17;
        v ^= v >> 7;
        let seed = v;

        let old_head = if self.map.len() == 0 { None } else { Some(self.map.len() - 1) };
        let idx = self.map.len();
        let seg = Segment::new(user_va, end, seed, old_head);
        self.map.push(seg);
        let ghost mid = self.radix_tree;
        assert(idx < self.map.len());
        self.radix_tree.set_range(user_va, total_size, (idx as u64) + 1);
        self.lock.unlock();

        proof {
            let fc = first_chunk(user_va);
            let lc = last_chunk(user_va, total_size);
            assert(self.map@[idx as int].end() - self.map@[idx as int].start() == total_size);
            assert forall|k: int, c: int| #![trigger self.map@[k], self.radix_tree.nodes.entry(c)] 0 <= k < self.map.len() && first_chunk(self.map@[k].start()) <= c <= last_chunk(self.map@[k].start(), (self.map@[k].end() - self.map@[k].start()) as u64)
                implies self.radix_tree.nodes.entry(c) == Some((k + 1) as u64) by {
                if k < idx {
                    assert(self.map@[k] == old(self).map@[k]);
                    assert(old(self).radix_tree.nodes.entry(c) == Some((k + 1) as u64));
                    assert(mid.nodes.entry(c) == Some((k + 1) as u64));
                }
            }
            assert forall|c: int| #[trigger] self.radix_tree.nodes.entry(c) is Some implies {
                let v = self.radix_tree.nodes.entry(c).unwrap();
                &&& 1 <= v <= self.map.len()
                &&& first_chunk(self.map@[v - 1].start()) <= c <= last_chunk(self.map@[v - 1].start(), (self.map@[v - 1].end() - self.map@[v - 1].start()) as u64)
            } by {
                if !(fc <= c <= lc && c < RADIX_MAX_CHUNKS) {
                    assert(self.radix_tree.nodes.entry(c) == mid.nodes.entry(c));
                    assert(mid.nodes.entry(c) == old(self).radix_tree.nodes.entry(c));
                    let v = mid.nodes.entry(c).unwrap();
                    assert(old(self).radix_tree.nodes.entry(c) == Some(v));
                    assert(1 <= v <= old(self).map.len());
                    assert(self.map@[v - 1] == old(self).map@[v - 1]);
                } else {
                    assert(self.radix_tree.nodes.entry(c) == Some(((idx as u64) + 1) as u64));
                    let v = self.radix_tree.nodes.entry(c).unwrap();
                    assert(v - 1 == idx);
                    assert(self.map@[idx as int].start() == user_va);
                    assert((self.map@[idx as int].end() - self.map@[idx as int].start()) as u64 == total_size);
                    assert(first_chunk(self.map@[v - 1].start()) <= c);
                    assert(c <= last_chunk(self.map@[v - 1].start(), (self.map@[v - 1].end() - self.map@[v - 1].start()) as u64));
                }
            }
            assert forall|k: int| 0 <= k < self.map.len() implies (#[trigger] self.map@[k]).next_segment() == if k == 0 { None::<usize> } else { Some((k - 1) as usize) } by {
                if k < idx {
                    assert(self.map@[k] == old(self).map@[k]);
                }
            }
            assert forall|a: u64| #[trigger] self.owns(a) == (old(self).owns(a) || (user_va <= a < end)) by {
                if old(self).owns(a) {
                    let k = choose|k: int| 0 <= k < old(self).len() && #[trigger] old(self).seg(k).start() <= a < old(self).seg(k).end();
                    assert(self.seg(k) == old(self).seg(k));
                }
                if user_va <= a < end {
                    assert(self.seg(idx as int).start() <= a < self.seg(idx as int).end());
                }
                if self.owns(a) {
                    let k = choose|k: int| 0 <= k < self.len() && #[trigger] self.seg(k).start() <= a < self.seg(k).end();
                    if k < idx {
                        assert(old(self).seg(k) == self.seg(k));
                    }
                }
            }
        }
        Some(idx)
    }

    /// `new` differs from `old` only in the bitmaps and bookkeeping of its
    /// segments, which keep their ranges.
    pub open spec fn same_segments(old: &VaBitmap, new: &VaBitmap) -> bool {
        &&& new.len() == old.len()
        &&& forall|k: int| 0 <= k < old.len() ==> (#[trigger] new.seg(k)).same_range(&old.seg(k))
    }

    proof fn lemma_same_segments_wf(old: &VaBitmap, new: &VaBitmap)
        requires
            old.wf(),
            new.radix_tree == old.radix_tree,
            new.lock == old.lock,
            new.latest_segment matches Some(k) ==> k < new.map.len(),
            new.map.len() == old.map.len(),
            forall|k: int| 0 <= k < old.map.len() ==> (#[trigger] new.map@[k]).wf() && new.map@[k].same_range(&old.map@[k]),
        ensures
            new.wf(),
            VaBitmap::same_segments(old, new),
            forall|a: u64| #[trigger] new.owns(a) == old.owns(a),
    {
        assert forall|k: int, c: int| #![trigger new.map@[k], new.radix_tree.nodes.entry(c)] 0 <= k < new.map.len() && first_chunk(new.map@[k].start()) <= c <= last_chunk(new.map@[k].start(), (new.map@[k].end() - new.map@[k].start()) as u64)
            implies new.radix_tree.nodes.entry(c) == Some((k + 1) as u64) by {
            assert(old.map@[k].start() == new.map@[k].start());
            assert(old.radix_tree.nodes.entry(c) == Some((k + 1) as u64));
        }
        assert forall|c: int| #[trigger] new.radix_tree.nodes.entry(c) is Some implies {
            let v = new.radix_tree.nodes.entry(c).unwrap();
            &&& 1 <= v <= new.map.len()
            &&& first_chunk(new.map@[v - 1].start()) <= c <= last_chunk(new.map@[v - 1].start(), (new.map@[v - 1].end() - new.map@[v - 1].start()) as u64)
        } by {
            let v = new.radix_tree.nodes.entry(c).unwrap();
            assert(old.radix_tree.nodes.entry(c) == Some(v));
            assert(new.map@[v - 1].same_range(&old.map@[v - 1]));
        }
        assert forall|k: int| 0 <= k < new.map.len() implies (#[trigger] new.map@[k]).next_segment() == if k == 0 { None::<usize> } else { Some((k - 1) as usize) } by {
            assert(new.map@[k].same_range(&old.map@[k]));
        }
        assert forall|k: int| 0 <= k < new.map.len() implies last_chunk((#[trigger] new.map@[k]).start(), (new.map@[k].end() - new.map@[k].start()) as u64) < RADIX_MAX_CHUNKS by {
            assert(new.map@[k].same_range(&old.map@[k]));
        }
        assert forall|a: u64| #[trigger] new.owns(a) == old.owns(a) by {
            if old.owns(a) {
                let k = choose|k: int| 0 <= k < old.len() && #[trigger] old.seg(k).start() <= a < old.seg(k).end();
                assert(new.seg(k).same_range(&old.seg(k)));
            }
            if new.owns(a) {
                let k = choose|k: int| 0 <= k < new.len() && #[trigger] new.seg(k).start() <= a < new.seg(k).end();
                assert(new.seg(k).same_range(&old.seg(k)));
            }
        }
    }

    /// Asks segment `k` for `needed` blocks.
    fn alloc_in(&mut self, k: usize, needed: u64, rng: &mut Rng) -> (res: Option<u64>)
        requires
            old(self).wf(),
            k < old(self).len(),
            needed >= 1,
        ensures
            final(self).radix_tree == old(self).radix_tree,
            final(self).lock == old(self).lock,
            final(self).map.len() == old(self).map.len(),
            final(self).wf(),
            VaBitmap::same_segments(old(self), final(self)),
            forall|a: u64| #[trigger] final(self).owns(a) == old(self).owns(a),
            final(self).latest() == old(self).latest(),
            forall|j: int| 0 <= j < old(self).len() && j != k ==> #[trigger] final(self).seg(j) == old(self).seg(j),
            final(self).seg(k as int).is_full() == old(self).seg(k as int).is_full(),
            final(self).seg(k as int).failures() == old(self).seg(k as int).failures(),
            claim_effect(&old(self).seg(k as int), &final(self).seg(k as int), needed as int, res),
            res is None ==> forall|q: int| 0 <= q < old(self).seg(k as int).total() ==> !#[trigger] window_free(old(self).seg(k as int).words(), old(self).seg(k as int).total(), q, needed as int),
    {
        let ghost before = *self;
        let res = if needed == 1 {
            self.map[k].alloc_single(rng)
        } else {
            self.map[k].alloc_multi(needed, rng)
        };
        proof {
            VaBitmap::lemma_same_segments_wf(&before, self);
            let s0 = before.map@[k as int];
            match res {
                Some(a) => {
                    let g = (a - s0.start()) / 4096;
                    if needed == 1 {
                        assert(range_clear(s0.words(), g, 1)) by {
                            assert forall|i: int| g <= i < g + 1 implies !#[trigger] bit_of(s0.words(), i) by {
                                assert(i == g);
                            }
                        }
                    }
                },
                None => {
                    if needed == 1 {
                        assert forall|q: int| 0 <= q < s0.total() implies !#[trigger] window_free(s0.words(), s0.total(), q, needed as int) by {
                            assert(s0.is_used(q));
                        }
                    }
                },
            }
        }
        res
    }

    /// Records a failed search of segment `k`: after more than three
    /// failures in a row the segment is marked full and skipped.
    fn note_failure(&mut self, k: usize)
        requires
            old(self).wf(),
            k < old(self).len(),
        ensures
            final(self).radix_tree == old(self).radix_tree,
            final(self).lock == old(self).lock,
            final(self).map.len() == old(self).map.len(),
            final(self).wf(),
            VaBitmap::same_segments(old(self), final(self)),
            forall|a: u64| #[trigger] final(self).owns(a) == old(self).owns(a),
            final(self).latest() == old(self).latest(),
            forall|j: int| 0 <= j < old(self).len() && j != k ==> #[trigger] final(self).seg(j) == old(self).seg(j),
            final(self).seg(k as int).words() == old(self).seg(k as int).words(),
            final(self).seg(k as int).failures() == vstd::wrapping::u8_specs::wrapping_add(old(self).seg(k as int).failures(), 1),
            final(self).seg(k as int).is_full() == (old(self).seg(k as int).is_full() || old(self).seg(k as int).failures() > 2),
    {
        let ghost before = *self;
        let try_count = self.map[k].failed_trys;
        self.map[k].failed_trys = try_count.wrapping_add(1);
        if try_count > 2 {
            self.map[k].full = true;
        }
        proof {
            VaBitmap::lemma_same_segments_wf(&before, self);
        }
    }

    /// Finds `size` bytes of free blocks in the reserved segments and
    /// claims them: first in the segment that served the last request, then
    /// in every segment not marked full, newest first. `None` means that no
    /// segment searched has room; the caller then reserves a new segment
    /// with `grow` and asks again.
    pub fn alloc_range(&mut self, size: u64, rng: &mut Rng) -> (res: Option<u64>)
        requires
            old(self).wf(),
            size + 4096 <= u64::MAX,
        ensures
            final(self).wf(),
            VaBitmap::same_segments(old(self), final(self)),
            forall|a: u64| #[trigger] final(self).owns(a) == old(self).owns(a),
            size == 0 ==> res is None && *final(self) == *old(self),
            ({
                let needed = (size + 4095) / 4096;
                match res {
                    Some(a) => exists|k: int| 0 <= k < old(self).len()
                        && #[trigger] claim_effect(&old(self).seg(k), &final(self).seg(k), needed, Some(a))
                        && forall|j: int| 0 <= j < old(self).len() && j != k ==> #[trigger] final(self).seg(j).words() == old(self).seg(j).words(),
                    None => forall|k: int| 0 <= k < old(self).len() ==> {
                        &&& #[trigger] final(self).seg(k).words() == old(self).seg(k).words()
                        &&& (size > 0 && !old(self).seg(k).is_full()) ==> forall|q: int| 0 <= q < old(self).seg(k).total() ==> !#[trigger] window_free(old(self).seg(k).words(), old(self).seg(k).total(), q, needed)
                    },
                }
            }),
    {
        if size == 0 {
            return None;
        }

        let needed = (size + BLOCK_SIZE - 1) / BLOCK_SIZE;
        if let Some(k) = self.latest_segment {
            let res = self.alloc_in(k, needed, rng);
            if res.is_some() {
                proof {
                    let a = res.unwrap();
                    assert(claim_effect(&old(self).seg(k as int), &self.seg(k as int), ((size + 4095) / 4096) as int, Some(a)));
                    assert(forall|j: int| 0 <= j < old(self).len() && j != k ==> #[trigger] self.seg(j).words() == old(self).seg(j).words());
                }
                return res;
            }
        }
        let ghost start = *self;
        proof {
            assert forall|j: int| 0 <= j < old(self).len() implies #[trigger] start.seg(j).words() == old(self).seg(j).words() && start.seg(j).is_full() == old(self).seg(j).is_full() by {}
        }

        let mut curr = self.map.len();
        while curr > 0
            invariant
                self.wf(),
                VaBitmap::same_segments(old(self), self),
                forall|a: u64| #[trigger] self.owns(a) == old(self).owns(a),
                needed == (size + 4095) / 4096,
                needed >= 1,
                curr <= self.len(),
                forall|j: int| 0 <= j < old(self).len() ==> #[trigger] self.seg(j).words() == old(self).seg(j).words(),
                forall|j: int| 0 <= j < curr ==> #[trigger] self.seg(j).is_full() == old(self).seg(j).is_full(),
                forall|j: int| curr <= j < old(self).len() && !old(self).seg(j).is_full() ==> forall|q: int| 0 <= q < old(self).seg(j).total() ==> !#[trigger] window_free(old(self).seg(j).words(), old(self).seg(j).total(), q, needed as int),
            decreases curr,
        {
            let k = curr - 1;
            if self.map[k].full {
                proof {
                    assert(self.seg(k as int).is_full());
                    assert(old(self).seg(k as int).is_full());
                }
                curr = k;
                continue;
            }
            let res = self.alloc_in(k, needed, rng);
            if res.is_some() {
                let ghost mid = *self;
                self.latest_segment = Some(k);
                proof {
                    assert(self.wf());
                    assert forall|j: int| 0 <= j < old(self).len() implies #[trigger] self.seg(j) == mid.seg(j) by {}
                    assert forall|a: u64| #[trigger] self.owns(a) == mid.owns(a) by {
                        if mid.owns(a) {
                            let j = choose|j: int| 0 <= j < mid.len() && #[trigger] mid.seg(j).start() <= a < mid.seg(j).end();
                            assert(self.seg(j) == mid.seg(j));
                        }
                        if self.owns(a) {
                            let j = choose|j: int| 0 <= j < self.len() && #[trigger] self.seg(j).start() <= a < self.seg(j).end();
                            assert(self.seg(j) == mid.seg(j));
                        }
                    }
                    let a = res.unwrap();
                    assert(claim_effect(&old(self).seg(k as int), &self.seg(k as int), ((size + 4095) / 4096) as int, Some(a)));
                }
                return res;
            }
            self.note_failure(k);
            curr = k;
        }
        None
    }

    /// Returns `size` bytes at `addr` to the segment that holds `addr`.
    /// Null addresses, empty sizes and addresses outside every segment are
    /// ignored.
    pub fn free(&mut self, addr: u64, size: u64)
        requires
            old(self).wf(),
            size + 4095 <= u64::MAX,
        ensures
            final(self).wf(),
            VaBitmap::same_segments(old(self), final(self)),
            forall|a: u64| #[trigger] final(self).owns(a) == old(self).owns(a),
            forall|k: int| 0 <= k < old(self).len() ==> if addr != 0 && size != 0 && old(self).seg(k).start() <= addr < old(self).seg(k).end() {
                Segment::free_effect(&old(self).seg(k), &#[trigger] final(self).seg(k), addr, size)
            } else {
                final(self).seg(k) == old(self).seg(k)
            },
    {
        if addr == 0 || size == 0 {
            return;
        }

        let segment = self.radix_tree.get_segment(addr);
        if let Some(v) = segment {
            let k = (v - 1) as usize;
            if addr >= self.map[k].va_start && addr < self.map[k].va_end {
                let ghost before = *self;
                self.map[k].free(addr, size);
                proof {
                    VaBitmap::lemma_same_segments_wf(&before, self);
                    assert forall|j: int| 0 <= j < old(self).len() && j != k implies !(old(self).seg(j).start() <= addr < #[trigger] old(self).seg(j).end()) by {
                        if old(self).seg(j).start() <= addr < old(self).seg(j).end() {
                            old(self).lemma_owner(addr, j);
                        }
                    }
                }
                return;
            }
        }

        proof {
            assert forall|k: int| 0 <= k < old(self).len() implies !(old(self).seg(k).start() <= addr < #[trigger] old(self).seg(k).end()) by {
                if old(self).seg(k).start() <= addr < old(self).seg(k).end() {
                    old(self).lemma_owner(addr, k);
                }
            }
        }
        let mut curr = self.map.len();
        while curr > 0
            invariant
                forall|k: int| 0 <= k < old(self).len() ==> !(old(self).seg(k).start() <= addr < #[trigger] old(self).seg(k).end()),
                self == old(self),
                old(self).wf(),
                curr <= self.map.len(),
                forall|j: int| curr <= j < old(self).len() ==> !(old(self).seg(j).start() <= addr < #[trigger] old(self).seg(j).end()),
            decreases curr,
        {
            let k = curr - 1;
            if addr >= self.map[k].va_start && addr < self.map[k].va_end {
                proof {
                    assert(old(self).seg(k as int).start() <= addr < old(self).seg(k as int).end());
                }
                let ghost before = *self;
                self.map[k].free(addr, size);
                proof {
                    VaBitmap::lemma_same_segments_wf(&before, self);
                }
                return;
            }
            curr = k;
        }
        proof {
            assert forall|k: int| 0 <= k < old(self).len() implies !(old(self).seg(k).start() <= addr < #[trigger] old(self).seg(k).end()) by {}
        }
    }

    /// Resizes in place the allocation of `old_size` bytes at `addr`, in
    /// the segment that holds it; `None` when no segment holds `addr` or
    /// the growth does not fit.
    pub fn realloc_inplace(&mut self, addr: u64, old_size: u64, new_size: u64) -> (res: Option<u64>)
        requires
            old(self).wf(),
            forall|k: int| 0 <= k < old(self).len() && old(self).seg(k).start() <= addr < old(self).seg(k).end() ==> #[trigger] old(self).seg(k).realloc_args(addr, old_size, new_size),
        ensures
            final(self).wf(),
            VaBitmap::same_segments(old(self), final(self)),
            forall|a: u64| #[trigger] final(self).owns(a) == old(self).owns(a),
            !old(self).owns(addr) ==> res is None && *final(self) == *old(self),
            forall|k: int| 0 <= k < old(self).len() ==> if old(self).seg(k).start() <= addr < old(self).seg(k).end() {
                Segment::realloc_effect(&old(self).seg(k), &#[trigger] final(self).seg(k), addr, old_size, new_size, res)
            } else {
                final(self).seg(k) == old(self).seg(k)
            },
    {
        let segment = self.radix_tree.get_segment(addr);
        if let Some(v) = segment {
            let k = (v - 1) as usize;
            if addr >= self.map[k].va_start && addr < self.map[k].va_end {
                let ghost before = *self;
                proof {
                    assert(old(self).seg(k as int).realloc_args(addr, old_size, new_size));
                }
                let res = self.map[k].realloc_inplace(addr, old_size, new_size);
                proof {
                    VaBitmap::lemma_same_segments_wf(&before, self);
                    assert forall|j: int| 0 <= j < old(self).len() && j != k implies !(old(self).seg(j).start() <= addr < #[trigger] old(self).seg(j).end()) by {
                        if old(self).seg(j).start() <= addr < old(self).seg(j).end() {
                            old(self).lemma_owner(addr, j);
                        }
                    }
                }
                return res;
            }
        }
        proof {
            if old(self).owns(addr) {
                let k = choose|k: int| 0 <= k < old(self).len() && #[trigger] old(self).seg(k).start() <= addr < old(self).seg(k).end();
                old(self).lemma_owner(addr, k);
            }
            assert forall|k: int| 0 <= k < old(self).len() implies !(old(self).seg(k).start() <= addr < #[trigger] old(self).seg(k).end()) by {
                if old(self).seg(k).start() <= addr < old(self).seg(k).end() {
                    old(self).lemma_owner(addr, k);
                }
            }
        }
        None
    }

    /// The `size` bytes from `addr` end within the bitmap words of a segment
    /// that holds `addr`.
    pub open spec fn span_in_words(&self, addr: u64, size: u64) -> bool {
        exists|k: int| 0 <= k < self.len() && #[trigger] self.seg(k).start() <= addr < self.seg(k).end()
            && (addr - self.seg(k).start()) / 4096 + (size + 4095) / 4096 <= self.seg(k).words().len() * 64
    }

    /// Whether the `size` bytes from `addr` end within the bitmap words of
    /// the segment holding `addr`; `false` when no segment holds it.
    pub fn span_fits(&self, addr: u64, size: u64) -> (r: bool)
        requires
            self.wf(),
            size + 4096 <= u64::MAX,
        ensures
            r == self.span_in_words(addr, size),
            r ==> forall|k: int| 0 <= k < self.len() && self.seg(k).start() <= addr < self.seg(k).end()
                ==> (addr - #[trigger] self.seg(k).start()) / 4096 + (size + 4095) / 4096 <= self.seg(k).words().len() * 64,
    {
        let segment = self.radix_tree.get_segment(addr);
        if let Some(v) = segment {
            let k = (v - 1) as usize;
            if addr >= self.map[k].va_start && addr < self.map[k].va_end {
                let blocks = (addr - self.map[k].va_start) / 4096 + (size + 4095) / 4096;
                proof {
                    assert(self.map@[k as int].wf());
                }
                let fits = (blocks as u128) <= (self.map[k].map_len as u128) * 64;
                proof {
                    assert forall|j: int| 0 <= j < self.len() && j != k implies !(self.seg(j).start() <= addr < #[trigger] self.seg(j).end()) by {
                        if self.seg(j).start() <= addr < self.seg(j).end() {
                            self.lemma_owner(addr, j);
                        }
                    }
                    assert(self.seg(k as int).start() <= addr < self.seg(k as int).end());
                }
                return fits;
            }
        }
        proof {
            if self.owns(addr) {
                let k = choose|k: int| 0 <= k < self.len() && #[trigger] self.seg(k).start() <= addr < self.seg(k).end();
                self.lemma_owner(addr, k);
            }
        }
        false
    }

    /// Number of reserved segments.
    pub fn segment_count(&self) -> (n: usize)
        ensures
            n == self.len(),
    {
        self.map.len()
    }

    /// Claims `size` bytes in the newest segment, and makes that segment
    /// the one the next request tries first.
    pub fn alloc_in_newest(&mut self, size: u64, rng: &mut Rng) -> (res: Option<u64>)
        requires
            old(self).wf(),
            old(self).len() > 0,
            size >= 1,
            size + 4096 <= u64::MAX,
        ensures
            final(self).wf(),
            VaBitmap::same_segments(old(self), final(self)),
            forall|a: u64| #[trigger] final(self).owns(a) == old(self).owns(a),
            final(self).latest() == Some((old(self).len() - 1) as usize),
            forall|j: int| 0 <= j < old(self).len() - 1 ==> #[trigger] final(self).seg(j) == old(self).seg(j),
            claim_effect(&old(self).seg(old(self).len() - 1), &final(self).seg(old(self).len() - 1), (size + 4095) / 4096, res),
    {
        let k = self.map.len() - 1;
        let needed = (size + BLOCK_SIZE - 1) / BLOCK_SIZE;
        let res = self.alloc_in(k, needed, rng);
        let ghost mid = *self;
        self.latest_segment = Some(k);
        proof {
            assert(self.wf());
            assert forall|j: int| 0 <= j < old(self).len() implies #[trigger] self.seg(j) == mid.seg(j) by {}
            assert forall|a: u64| #[trigger] self.owns(a) == mid.owns(a) by {
                if mid.owns(a) {
                    let j = choose|j: int| 0 <= j < mid.len() && #[trigger] mid.seg(j).start() <= a < mid.seg(j).end();
                    assert(self.seg(j) == mid.seg(j));
                }
                if self.owns(a) {
                    let j = choose|j: int| 0 <= j < self.len() && #[trigger] self.seg(j).start() <= a < self.seg(j).end();
                    assert(self.seg(j) == mid.seg(j));
                }
            }
        }
        res
    }
}

} // verus!
