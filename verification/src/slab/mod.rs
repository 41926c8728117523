//! Size classes of the slab allocator.
use crate::va::align_to;
use crate::HEADER_SIZE;
use vstd::prelude::*;

pub mod bulk_allocation;
pub mod census;
pub mod global;
pub mod interconnect;
pub mod quartine;
pub mod rseq_general;
pub mod thread_local;

verus! {

/// Payload bytes of each size class.
pub const SIZE_CLASSES: [usize; 18] = [
    16, 32, 64, 128, 256, 512, 1024, 2048, 4096, 8192, 16384, 32768, 65536, 131072, 262144, 524288,
    1048576, 2097152,
];

/// Blocks carved from a fresh slab segment of each class.
pub const ITERATIONS: [usize; 18] = [2048, 1024, 512, 256, 32, 16, 8, 4, 2, 1, 1, 1, 1, 1, 1, 1, 1, 1];

/// Number of size classes.
pub const NUM_SIZE_CLASSES: usize = 18;

pub const TLS_MAX_SIZE_CLASS: usize = 262144;
pub const TLS_BIG_CLASS_BYTES: usize = 65536;
pub const TLS_MEDIUM_CLASS_BYTES: usize = 98304;
pub const TLS_SMALL_CLASS_BYTES: usize = 131072;

/// Most blocks of each class that a thread cache keeps.
pub const TLS_MAX_BLOCKS: [usize; 18] = [4096, 2730, 1638, 910, 361, 186, 94, 47, 23, 11, 3, 1, 1, 1, 1, 1, 1, 1];

/// Size class of each request of up to 4096 bytes, by `(size - 1) >> 4`.
pub const SIZE_LUT: [u8; 256] = [
    0, 1, 2, 2, 3, 3, 3, 3, 4, 4, 4, 4, 4, 4, 4, 4, 5, 5, 5, 5, 5, 5, 5, 5, 5, 5, 5, 5, 5, 5, 5, 5,
    6, 6, 6, 6, 6, 6, 6, 6, 6, 6, 6, 6, 6, 6, 6, 6, 6, 6, 6, 6, 6, 6, 6, 6, 6, 6, 6, 6, 6, 6, 6, 6,
    7, 7, 7, 7, 7, 7, 7, 7, 7, 7, 7, 7, 7, 7, 7, 7, 7, 7, 7, 7, 7, 7, 7, 7, 7, 7, 7, 7, 7, 7, 7, 7,
    7, 7, 7, 7, 7, 7, 7, 7, 7, 7, 7, 7, 7, 7, 7, 7, 7, 7, 7, 7, 7, 7, 7, 7, 7, 7, 7, 7, 7, 7, 7, 7,
    8, 8, 8, 8, 8, 8, 8, 8, 8, 8, 8, 8, 8, 8, 8, 8, 8, 8, 8, 8, 8, 8, 8, 8, 8, 8, 8, 8, 8, 8, 8, 8,
    8, 8, 8, 8, 8, 8, 8, 8, 8, 8, 8, 8, 8, 8, 8, 8, 8, 8, 8, 8, 8, 8, 8, 8, 8, 8, 8, 8, 8, 8, 8, 8,
    8, 8, 8, 8, 8, 8, 8, 8, 8, 8, 8, 8, 8, 8, 8, 8, 8, 8, 8, 8, 8, 8, 8, 8, 8, 8, 8, 8, 8, 8, 8, 8,
    8, 8, 8, 8, 8, 8, 8, 8, 8, 8, 8, 8, 8, 8, 8, 8, 8, 8, 8, 8, 8, 8, 8, 8, 8, 8, 8, 8, 8, 8, 8, 8,
];

/// The smallest class whose payload holds `size` bytes, if there is one.
pub open spec fn fitting_class(size: int) -> Option<usize> {
    if size > 2097152 {
        None
    } else if size <= 16 { Some(0) }
    else if size <= 32 { Some(1) }
    else if size <= 64 { Some(2) }
    else if size <= 128 { Some(3) }
    else if size <= 256 { Some(4) }
    else if size <= 512 { Some(5) }
    else if size <= 1024 { Some(6) }
    else if size <= 2048 { Some(7) }
    else if size <= 4096 { Some(8) }
    else if size <= 8192 { Some(9) }
    else if size <= 16384 { Some(10) }
    else if size <= 32768 { Some(11) }
    else if size <= 65536 { Some(12) }
    else if size <= 131072 { Some(13) }
    else if size <= 262144 { Some(14) }
    else if size <= 524288 { Some(15) }
    else if size <= 1048576 { Some(16) }
    else { Some(17) }
}

proof fn lemma_lut(index: int)
    requires
        0 <= index < 256,
    ensures
        fitting_class((index + 1) * 16) == Some(SIZE_LUT[index] as usize),
{
}

/// The class of an allocation of `size` bytes: none for zero bytes or for
/// more than the largest class holds.
pub open spec fn class_of(size: int) -> Option<usize> {
    if size <= 0 { None } else { fitting_class(size) }
}

/// The size class of an allocation of `size` bytes, if one holds it.
/// Requests of up to 4096 bytes are looked up in `SIZE_LUT`.
pub fn match_size_class(size: usize) -> (r: Option<usize>)
    ensures
        r == class_of(size as int),
{
    if size == 0 || size > 2097152 {
        return None;
    }
    if size <= 4096 {
        let sm1 = size - 1;
        let index = sm1 >> 4;
        assert(sm1 >> 4 == sm1 / 16) by (bit_vector);
        proof {
            lemma_lut(index as int);
        }
        return Some(SIZE_LUT[index] as usize);
    }
    slow_path_match(size)
}

/// The first class whose payload is at least `size` bytes.
pub fn slow_path_match(size: usize) -> (r: Option<usize>)
    ensures
        r == fitting_class(size as int),
{
    let mut i: usize = 0;
    while i < NUM_SIZE_CLASSES
        invariant
            i <= NUM_SIZE_CLASSES,
            forall|j: int| 0 <= j < i ==> size > #[trigger] SIZE_CLASSES[j],
        decreases NUM_SIZE_CLASSES - i,
    {
        if size <= SIZE_CLASSES[i] {
            return Some(i);
        }
        i = i + 1;
    }
    None
}

/// The first class whose payload is at least 4096 bytes: the first class
/// that the trimmer gives pages back for.
pub fn get_size_4096_class() -> (r: usize)
    ensures
        r == 8,
        SIZE_CLASSES[r as int] == 4096,
        forall|j: int| 0 <= j < r ==> #[trigger] SIZE_CLASSES[j] < 4096,
{
    let mut i: usize = 0;
    while i < NUM_SIZE_CLASSES
        invariant
            i <= 8,
            forall|j: int| 0 <= j < i ==> #[trigger] SIZE_CLASSES[j] < 4096,
        decreases NUM_SIZE_CLASSES - i,
    {
        if SIZE_CLASSES[i] >= 4096 {
            return i;
        }
        i = i + 1;
    }
    8
}

/// Bytes of a block of `class`: its payload and header, rounded up to 16.
pub open spec fn block_size(class: int) -> int {
    SIZE_CLASSES[class] + HEADER_SIZE
}

/// Bytes of a block of `class`.
pub fn block_size_of(class: usize) -> (r: u64)
    requires
        class < NUM_SIZE_CLASSES,
    ensures
        r == block_size(class as int),
{
    let payload = SIZE_CLASSES[class] as u64;
    let r = align_to(payload + HEADER_SIZE as u64, 16);
    assert(crate::va::is_pow2(16)) by (bit_vector);
    r
}

/// The most blocks a thread keeps of a class of `payload` bytes: what fits
/// in 128 KiB for payloads under 256 bytes, 96 KiB under 16 KiB, 64 KiB
/// above, and one block for the classes above 256 KiB.
pub open spec fn tls_limit(payload: int) -> int {
    let block = payload + HEADER_SIZE;
    let blocks: int = if block > TLS_MAX_SIZE_CLASS {
        0
    } else if payload < 256 {
        (TLS_SMALL_CLASS_BYTES as int) / block
    } else if payload < 16384 {
        (TLS_MEDIUM_CLASS_BYTES as int) / block
    } else {
        (TLS_BIG_CLASS_BYTES as int) / block
    };
    if blocks == 0 { 1 } else { blocks }
}

/// `TLS_MAX_BLOCKS` holds the limit of every class.
pub proof fn lemma_tls_max_blocks(class: int)
    requires
        0 <= class < NUM_SIZE_CLASSES,
    ensures
        TLS_MAX_BLOCKS[class] == tls_limit(SIZE_CLASSES[class] as int),
{
    if class == 0 {
        assert(TLS_MAX_BLOCKS[0] == tls_limit(SIZE_CLASSES[0] as int));
    } else if class == 1 {
        assert(TLS_MAX_BLOCKS[1] == tls_limit(SIZE_CLASSES[1] as int));
    } else if class == 2 {
        assert(TLS_MAX_BLOCKS[2] == tls_limit(SIZE_CLASSES[2] as int));
    } else if class == 3 {
        assert(TLS_MAX_BLOCKS[3] == tls_limit(SIZE_CLASSES[3] as int));
    } else if class == 4 {
        assert(TLS_MAX_BLOCKS[4] == tls_limit(SIZE_CLASSES[4] as int));
    } else if class == 5 {
        assert(TLS_MAX_BLOCKS[5] == tls_limit(SIZE_CLASSES[5] as int));
    } else if class == 6 {
        assert(TLS_MAX_BLOCKS[6] == tls_limit(SIZE_CLASSES[6] as int));
    } else if class == 7 {
        assert(TLS_MAX_BLOCKS[7] == tls_limit(SIZE_CLASSES[7] as int));
    } else if class == 8 {
        assert(TLS_MAX_BLOCKS[8] == tls_limit(SIZE_CLASSES[8] as int));
    } else if class == 9 {
        assert(TLS_MAX_BLOCKS[9] == tls_limit(SIZE_CLASSES[9] as int));
    } else if class == 10 {
        assert(TLS_MAX_BLOCKS[10] == tls_limit(SIZE_CLASSES[10] as int));
    } else if class == 11 {
        assert(TLS_MAX_BLOCKS[11] == tls_limit(SIZE_CLASSES[11] as int));
    } else if class == 12 {
        assert(TLS_MAX_BLOCKS[12] == tls_limit(SIZE_CLASSES[12] as int));
    } else if class == 13 {
        assert(TLS_MAX_BLOCKS[13] == tls_limit(SIZE_CLASSES[13] as int));
    } else if class == 14 {
        assert(TLS_MAX_BLOCKS[14] == tls_limit(SIZE_CLASSES[14] as int));
    } else if class == 15 {
        assert(TLS_MAX_BLOCKS[15] == tls_limit(SIZE_CLASSES[15] as int));
    } else if class == 16 {
        assert(TLS_MAX_BLOCKS[16] == tls_limit(SIZE_CLASSES[16] as int));
    } else if class == 17 {
        assert(TLS_MAX_BLOCKS[17] == tls_limit(SIZE_CLASSES[17] as int));
    }
}


/// Bounds of the class tables.
pub proof fn lemma_class_bounds(c: int)
    requires
        0 <= c < NUM_SIZE_CLASSES,
    ensures
        16 <= SIZE_CLASSES[c] <= 2097152,
        SIZE_CLASSES[c] % 16 == 0,
        1 <= ITERATIONS[c] <= 2048,
        1 <= TLS_MAX_BLOCKS[c] <= 4096,
        c < 8 ==> SIZE_CLASSES[c] < 4096,
        c >= 8 ==> SIZE_CLASSES[c] >= 4096,
        forall|d: int| c < d < NUM_SIZE_CLASSES ==> SIZE_CLASSES[c] < #[trigger] SIZE_CLASSES[d],
{
    if c == 0 {
    } else if c == 1 {
    } else if c == 2 {
    } else if c == 3 {
    } else if c == 4 {
    } else if c == 5 {
    } else if c == 6 {
    } else if c == 7 {
    } else if c == 8 {
    } else if c == 9 {
    } else if c == 10 {
    } else if c == 11 {
    } else if c == 12 {
    } else if c == 13 {
    } else if c == 14 {
    } else if c == 15 {
    } else if c == 16 {
    } else if c == 17 {
    }
}

/// The class of a request is the smallest that holds it: its payload is at
/// least the request, and the class below it is too small.
pub proof fn law_class_fits(size: int)
    requires
        0 < size,
    ensures
        class_of(size) is None <==> size > SIZE_CLASSES[17],
        class_of(size) matches Some(c) ==> c < NUM_SIZE_CLASSES && size <= SIZE_CLASSES[c as int]
            && (c > 0 ==> SIZE_CLASSES[c - 1] < size),
{
}

/// The table lookup for requests of up to 4096 bytes agrees with the search
/// through the classes.
pub proof fn law_lut_agrees(size: int)
    requires
        1 <= size <= 4096,
    ensures
        fitting_class(size) == Some(SIZE_LUT[(size - 1) / 16] as usize),
{
    lemma_lut((size - 1) / 16);
}
} // verus!
