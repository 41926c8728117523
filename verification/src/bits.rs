//! Word-level bitmap helpers shared by the address-space bitmaps.
//!
//! A bitmap is a sequence of `u64` words; global bit `i` lives in word
//! `i / 64` at position `i % 64`.
use vstd::prelude::*;

verus! {

/// Bit `b` of word `w` is one.
pub open spec fn bit_set(w: u64, b: int) -> bool {
    0 <= b < 64 && ((w >> (b as u64)) & 1u64) == 1u64
}

/// Global bit `i` of the word sequence `words` is one.
pub open spec fn bit_of(words: Seq<u64>, i: int) -> bool {
    bit_set(words[i / 64], i % 64)
}

/// The mask of `n` consecutive ones starting at position `s` of a word.
pub open spec fn chunk_mask(n: u64, s: u64) -> u64 {
    if n == 64 {
        u64::MAX
    } else {
        (((1u64 << n) - 1u64) as u64) << s
    }
}

/// Every global bit of `words` in `[start, start + count)` is zero.
pub open spec fn range_clear(words: Seq<u64>, start: int, count: int) -> bool {
    forall|i: int| start <= i < start + count ==> !#[trigger] bit_of(words, i)
}

/// `new` agrees with `old` on every bit but those of `[start, start + count)`,
/// which are all `val` in `new`.
pub open spec fn range_written(old: Seq<u64>, new: Seq<u64>, start: int, count: int, val: bool) -> bool {
    &&& new.len() == old.len()
    &&& forall|i: int|
        0 <= i < old.len() * 64 ==> #[trigger] bit_of(new, i) == if start <= i < start + count {
            val
        } else {
            bit_of(old, i)
        }
}

pub proof fn lemma_or_bit(a: u64, m: u64, b: u64)
    requires
        b < 64,
    ensures
        (((a | m) >> b) & 1u64 == 1u64) == ((((a >> b) & 1u64) == 1u64) || (((m >> b) & 1u64)
            == 1u64)),
{
    assert((((a | m) >> b) & 1u64 == 1u64) == ((((a >> b) & 1u64) == 1u64) || (((m >> b) & 1u64)
        == 1u64))) by (bit_vector)
        requires
            b < 64,
    ;
}

pub proof fn lemma_and_not_bit(a: u64, m: u64, b: u64)
    requires
        b < 64,
    ensures
        (((a & !m) >> b) & 1u64 == 1u64) == ((((a >> b) & 1u64) == 1u64) && !(((m >> b) & 1u64)
            == 1u64)),
{
    assert((((a & !m) >> b) & 1u64 == 1u64) == ((((a >> b) & 1u64) == 1u64) && !(((m >> b) & 1u64)
        == 1u64))) by (bit_vector)
        requires
            b < 64,
    ;
}

pub proof fn lemma_not_bit(a: u64, b: u64)
    requires
        b < 64,
    ensures
        (((!a) >> b) & 1u64 == 1u64) == !(((a >> b) & 1u64) == 1u64),
{
    assert((((!a) >> b) & 1u64 == 1u64) == !(((a >> b) & 1u64) == 1u64)) by (bit_vector)
        requires
            b < 64,
    ;
}

pub proof fn lemma_and_bit(a: u64, m: u64, b: u64)
    requires
        b < 64,
    ensures
        (((a & m) >> b) & 1u64 == 1u64) == ((((a >> b) & 1u64) == 1u64) && (((m >> b) & 1u64)
            == 1u64)),
{
    assert((((a & m) >> b) & 1u64 == 1u64) == ((((a >> b) & 1u64) == 1u64) && (((m >> b) & 1u64)
        == 1u64))) by (bit_vector)
        requires
            b < 64,
    ;
}

/// Bit `b` of the chunk mask is one exactly inside `[s, s + n)`.
pub proof fn lemma_chunk_mask(n: u64, s: u64, b: u64)
    requires
        1 <= n <= 64,
        s + n <= 64,
        b < 64,
    ensures
        ((chunk_mask(n, s) >> b) & 1u64 == 1u64) == (s <= b && b < s + n),
{
    if n == 64 {
        assert(((u64::MAX >> b) & 1u64) == 1u64) by (bit_vector)
            requires
                b < 64,
        ;
        assert(s == 0);
    } else {
        let m = chunk_mask(n, s);
        assert(m == (((1u64 << n) - 1u64) as u64) << s);
        assert(((((((1u64 << n) - 1u64) as u64) << s) >> b) & 1u64 == 1u64) == (s <= b && b < s + n))
            by (bit_vector)
            requires
                1 <= n < 64,
                s + n <= 64,
                b < 64,
        ;
    }
}

/// The exact word computed by the range loops.
pub fn make_chunk_mask(n: u64, s: u64) -> (m: u64)
    requires
        1 <= n <= 64,
        s + n <= 64,
    ensures
        m == chunk_mask(n, s),
{
    if n == 64 {
        u64::MAX
    } else {
        assert((1u64 << n) >= 1u64) by (bit_vector)
            requires
                n < 64,
        ;
        ((1u64 << n) - 1) << s
    }
}

/// A word is zero where its bits are all zero.
pub proof fn lemma_zero_word_bits(w: u64, b: u64)
    requires
        w == 0,
        b < 64,
    ensures
        ((w >> b) & 1u64) != 1u64,
{
    assert(((0u64 >> b) & 1u64) != 1u64) by (bit_vector);
}

/// A full word has all bits set.
pub proof fn lemma_full_word_bits(w: u64, b: u64)
    requires
        w == u64::MAX,
        b < 64,
    ensures
        ((w >> b) & 1u64) == 1u64,
{
    assert(((u64::MAX >> b) & 1u64) == 1u64) by (bit_vector)
        requires
            b < 64,
    ;
}

/// If a word has a one bit, its lowest one bit is at `trailing_zeros`, and
/// no lower bit is set.
pub proof fn lemma_lowest_set(w: u64)
    requires
        w != 0,
    ensures
        (w.trailing_zeros() as int) < 64,
        bit_set(w, w.trailing_zeros() as int),
        forall|b: int| 0 <= b < w.trailing_zeros() ==> !#[trigger] bit_set(w, b),
{
    vstd::std_specs::bits::axiom_u64_trailing_zeros(w);
    let t = w.trailing_zeros();
    assert forall|b: int| 0 <= b < t implies !#[trigger] bit_set(w, b) by {
        let bb = b as u64;
        assert((w >> bb) & 1u64 == 0u64);
    }
}

/// A word whose bits `[s, s + n)` are the bits it shares with the chunk
/// mask; `(w & mask) == 0` exactly when none of them is set.
pub proof fn lemma_and_mask_zero(w: u64, n: u64, s: u64)
    requires
        1 <= n <= 64,
        s + n <= 64,
    ensures
        (w & chunk_mask(n, s) == 0) == (forall|b: int| s <= b < s + n ==> !#[trigger] bit_set(w, b)),
{
    let m = chunk_mask(n, s);
    if w & m == 0 {
        assert forall|b: int| s <= b < s + n implies !#[trigger] bit_set(w, b) by {
            let bb = b as u64;
            lemma_chunk_mask(n, s, bb);
            lemma_and_bit(w, m, bb);
            lemma_zero_word_bits(w & m, bb);
        }
    } else {
        let x = w & m;
        lemma_lowest_set(x);
        let t = x.trailing_zeros() as u64;
        lemma_and_bit(w, m, t);
        lemma_chunk_mask(n, s, t);
        assert(bit_set(w, t as int));
    }
}

/// Word-level effect of OR-ing a mask into word `k`.
pub proof fn lemma_word_or(old: Seq<u64>, new: Seq<u64>, k: int, m: u64)
    requires
        0 <= k < old.len(),
        new == old.update(k, old[k] | m),
    ensures
        forall|i: int|
            0 <= i < old.len() * 64 ==> #[trigger] bit_of(new, i) == (bit_of(old, i) || (i / 64
                == k && bit_set(m, i % 64))),
{
    assert forall|i: int| 0 <= i < old.len() * 64 implies #[trigger] bit_of(new, i) == (bit_of(
        old,
        i,
    ) || (i / 64 == k && bit_set(m, i % 64))) by {
        let b = (i % 64) as u64;
        if i / 64 == k {
            lemma_or_bit(old[k], m, b);
        }
    }
}

/// Word-level effect of clearing a mask from word `k`.
pub proof fn lemma_word_and_not(old: Seq<u64>, new: Seq<u64>, k: int, m: u64)
    requires
        0 <= k < old.len(),
        new == old.update(k, old[k] & !m),
    ensures
        forall|i: int|
            0 <= i < old.len() * 64 ==> #[trigger] bit_of(new, i) == (bit_of(old, i) && !(i / 64
                == k && bit_set(m, i % 64))),
{
    assert forall|i: int| 0 <= i < old.len() * 64 implies #[trigger] bit_of(new, i) == (bit_of(
        old,
        i,
    ) && !(i / 64 == k && bit_set(m, i % 64))) by {
        let b = (i % 64) as u64;
        if i / 64 == k {
            lemma_and_not_bit(old[k], m, b);
        }
    }
}

/// The chunk that the range loops handle next: the bits of
/// `[cur, cur + n)` all lie in word `cur / 64`, at positions `[cur % 64, cur % 64 + n)`.
pub proof fn lemma_chunk_positions(cur: int, n: int, i: int)
    requires
        0 <= cur,
        1 <= n,
        cur % 64 + n <= 64,
        0 <= i,
    ensures
        (i / 64 == cur / 64 && cur % 64 <= i % 64 < cur % 64 + n) == (cur <= i < cur + n),
{
}

/// The number of bits that the range loops take from the current word.
pub fn bits_in_chunk(shift: u64, left: u64) -> (n: u64)
    requires
        shift < 64,
        left >= 1,
    ensures
        n == if 64 - shift < left {
            (64 - shift) as u64
        } else {
            left
        },
        1 <= n <= 64,
        shift + n <= 64,
{
    if 64 - shift < left {
        64 - shift
    } else {
        left
    }
}

/// Sets every bit of `[start, start + count)`.
pub fn set_bits(words: &mut Vec<u64>, start: u64, count: u64)
    requires
        start + count <= old(words).len() * 64,
        start + count <= u64::MAX,
    ensures
        range_written(old(words)@, final(words)@, start as int, count as int, true),
{
    let mut processed: u64 = 0;
    while processed < count
        invariant
            words.len() == old(words).len(),
            processed <= count,
            start + count <= words.len() * 64,
            start + count <= u64::MAX,
            range_written(old(words)@, words@, start as int, processed as int, true),
        decreases count - processed,
    {
        let cur = start + processed;
        let chunk_idx = (cur / 64) as usize;
        let shift = cur % 64;
        let n = bits_in_chunk(shift, count - processed);
        let mask = make_chunk_mask(n, shift);
        let ghost before = words@;
        let w = words[chunk_idx];
        words.set(chunk_idx, w | mask);
        proof {
            lemma_word_or(before, words@, chunk_idx as int, mask);
            assert forall|i: int| 0 <= i < old(words).len() * 64 implies #[trigger] bit_of(
                words@,
                i,
            ) == if start <= i < start + processed + n {
                true
            } else {
                bit_of(old(words)@, i)
            } by {
                lemma_chunk_positions(cur as int, n as int, i);
                if i / 64 == chunk_idx as int {
                    lemma_chunk_mask(n, shift, (i % 64) as u64);
                }
                assert(bit_of(before, i) == if start <= i < start + processed {
                    true
                } else {
                    bit_of(old(words)@, i)
                });
            }
        }
        processed = processed + n;
    }
}

/// Clears every bit of `[start, start + count)`.
pub fn clear_bits(words: &mut Vec<u64>, start: u64, count: u64)
    requires
        start + count <= old(words).len() * 64,
        start + count <= u64::MAX,
    ensures
        range_written(old(words)@, final(words)@, start as int, count as int, false),
{
    let mut processed: u64 = 0;
    while processed < count
        invariant
            words.len() == old(words).len(),
            processed <= count,
            start + count <= words.len() * 64,
            start + count <= u64::MAX,
            range_written(old(words)@, words@, start as int, processed as int, false),
        decreases count - processed,
    {
        let cur = start + processed;
        let chunk_idx = (cur / 64) as usize;
        let shift = cur % 64;
        let n = bits_in_chunk(shift, count - processed);
        let mask = make_chunk_mask(n, shift);
        let ghost before = words@;
        let w = words[chunk_idx];
        words.set(chunk_idx, w & !mask);
        proof {
            lemma_word_and_not(before, words@, chunk_idx as int, mask);
            assert forall|i: int| 0 <= i < old(words).len() * 64 implies #[trigger] bit_of(
                words@,
                i,
            ) == if start <= i < start + processed + n {
                false
            } else {
                bit_of(old(words)@, i)
            } by {
                lemma_chunk_positions(cur as int, n as int, i);
                if i / 64 == chunk_idx as int {
                    lemma_chunk_mask(n, shift, (i % 64) as u64);
                }
                assert(bit_of(before, i) == if start <= i < start + processed {
                    false
                } else {
                    bit_of(old(words)@, i)
                });
            }
        }
        processed = processed + n;
    }
}

} // verus!
