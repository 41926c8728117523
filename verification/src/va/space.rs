//! Reserving address space from the kernel, and claiming blocks of it.
use crate::sys::Kernel;
use crate::va::bitmap::{claim_effect, window_free, Segment, VaBitmap, CHUNK_SIZE};
use crate::va::rng::Rng;
use crate::va::{align_to, aligned_up};
use crate::OxidallocError;
use vstd::prelude::*;

verus! {

/// The smallest reservation asked for before giving up: 4 GiB.
pub const MIN_RESERVE: u64 = 4294967296;

/// Default size of the first reservations: 16 GiB.
pub const DEFAULT_MAX_RESERVATION: u64 = 17179869184;

/// Largest reservation that can be configured: 256 TiB.
pub const MAX_RESERVATION_CAP: u64 = 281474976710656;

/// How many times a request reserves a new segment before it gives up.
pub const GROW_ATTEMPTS: usize = 10;

/// The state of the reservations: the largest size that succeeded, how many
/// reservations used the configured size, and where the next one is asked for.
pub struct Reservation {
    pub latest_tried: u64,
    pub reserve_count: u8,
    pub base_hint: u64,
    pub base_init: bool,
    pub max_reservation: u64,
}

/// The next hint after moving `base` by a random page-aligned distance below `max`.
pub open spec fn randomized_hint(base: u64, rand: u64, max: u64) -> u64 {
    let off = aligned_up(rand % max, 4096);
    if base + off > u64::MAX { (base + off - u64::MAX - 1) as u64 } else { (base + off) as u64 }
}

impl Reservation {
    pub open spec fn wf(&self) -> bool {
        &&& self.latest_tried <= MAX_RESERVATION_CAP
        &&& self.max_reservation <= MAX_RESERVATION_CAP
    }

    /// No reservation made yet, with `max_reservation` bytes asked for first.
    pub fn new(max_reservation: u64) -> (r: Self)
        requires
            max_reservation <= MAX_RESERVATION_CAP,
        ensures
            r.wf(),
            r.latest_tried == 0,
            r.reserve_count == 0,
            r.base_hint == 0,
            !r.base_init,
            r.max_reservation == max_reservation,
    {
        Reservation { latest_tried: 0, reserve_count: 0, base_hint: 0, base_init: false, max_reservation }
    }

    /// Moves the hint for the next reservation by a random page-aligned
    /// distance below the largest reservation made, so that segments do not
    /// sit at predictable addresses. The kernel's random bytes are required.
    pub fn randomize_base_hint<K: Kernel>(&mut self, os: &mut K) -> (r: Result<(), OxidallocError>)
        requires
            old(self).wf(),
        ensures
            final(self).wf(),
            final(self).latest_tried == old(self).latest_tried,
            final(self).reserve_count == old(self).reserve_count,
            final(self).base_init == old(self).base_init,
            final(self).max_reservation == old(self).max_reservation,
            old(self).latest_tried == 0 ==> r is Ok && final(self).base_hint == old(self).base_hint,
            r matches Err(e) ==> e == OxidallocError::SecurityViolation,
            old(self).latest_tried != 0 && r is Ok ==> exists|rand: u64|
                final(self).base_hint == #[trigger] randomized_hint(old(self).base_hint, rand, old(self).latest_tried),
    {
        let max = self.latest_tried;
        if max == 0 {
            return Ok(());
        }
        match os.random() {
            None => Err(OxidallocError::SecurityViolation),
            Some(rand) => {
                let off = align_to(rand % max, 4096);
                self.base_hint = self.base_hint.wrapping_add(off);
                assert(self.base_hint == randomized_hint(old(self).base_hint, rand, max));
                Ok(())
            },
        }
    }

    /// Reserves a new segment: first at the configured size (the first four
    /// times), then at the largest size that succeeded, never under 4 GiB,
    /// halving the size after each refusal. Returns the segment's start and
    /// size; `None` once a 4 GiB request at the hint fails, which also
    /// drops the hint. A refused 4 GiB request without a hint means the
    /// kernel gives no address space at all.
    pub fn get_va_from_kernel<K: Kernel>(&mut self, os: &mut K) -> (r: Result<Option<(u64, u64)>, OxidallocError>)
        requires
            old(self).wf(),
        ensures
            final(self).wf(),
            final(self).max_reservation == old(self).max_reservation,
            r matches Err(e) ==> e == OxidallocError::SecurityViolation || e == OxidallocError::VAIinitFailed,
            r matches Ok(Some((start, size))) ==> {
                &&& MIN_RESERVE / 2 <= size <= MAX_RESERVATION_CAP
                &&& final(self).base_init
                &&& final(self).latest_tried == if size > old(self).latest_tried { size } else { old(self).latest_tried }
            },
            r matches Ok(None) ==> !final(self).base_init,
    {
        let res = self.randomize_base_hint(os);
        if res.is_err() {
            return Err(OxidallocError::SecurityViolation);
        }
        let max_size = if self.reserve_count > 3 {
            self.latest_tried
        } else {
            self.reserve_count = self.reserve_count + 1;
            self.max_reservation
        };
        let mut size = if max_size < MIN_RESERVE { MIN_RESERVE } else { max_size };
        let ghost lt0 = self.latest_tried;
        loop
            invariant
                self.wf(),
                self.max_reservation == old(self).max_reservation,
                self.latest_tried == lt0,
                lt0 == old(self).latest_tried,
                MIN_RESERVE / 2 <= size <= MAX_RESERVATION_CAP,
            decreases size,
        {
            let target = if self.base_init { Some(self.base_hint) } else { None };
            match os.reserve(target, size) {
                Some(out) => {
                    if size > self.latest_tried {
                        self.latest_tried = size;
                    }
                    if !self.base_init {
                        self.base_hint = out;
                        self.base_init = true;
                    } else {
                        self.base_hint = self.base_hint.wrapping_add(size);
                    }
                    return Ok(Some((out, size)));
                },
                None => {
                    if size <= MIN_RESERVE && !self.base_init {
                        return Err(OxidallocError::VAIinitFailed);
                    } else if size <= MIN_RESERVE {
                        self.base_init = false;
                        return Ok(None);
                    }
                    self.base_hint = self.base_hint.wrapping_add(size);
                    size = size / 2;
                },
            }
        }
    }
}

/// The address space of the allocator: its segments, the generator that
/// picks where searches start, and the reservation state.
pub struct AddressSpace {
    pub map: VaBitmap,
    pub rng: Rng,
    pub reserve: Reservation,
}

/// `a` is the start of `(size + 4095) / 4096` blocks that were free before
/// and are claimed now: in a segment that existed before, or in one that
/// was reserved, all free, during the request. Every other segment that
/// existed keeps its blocks, and any other new one is all free.
pub open spec fn claimed(old: &VaBitmap, new: &VaBitmap, size: u64, a: u64) -> bool {
    &&& new.len() >= old.len()
    &&& forall|j: int| 0 <= j < old.len() ==> (#[trigger] new.seg(j)).same_range(&old.seg(j))
    &&& exists|k: int, s0: Segment| {
        &&& 0 <= k < new.len()
        &&& #[trigger] claim_effect(&s0, &new.seg(k), (size + 4095) / 4096, Some(a))
        &&& s0.wf()
        &&& new.seg(k).same_range(&s0)
        &&& k < old.len() ==> s0 == old.seg(k)
        &&& k >= old.len() ==> forall|i: int| 0 <= i < s0.total() ==> !#[trigger] s0.is_used(i)
        &&& forall|j: int| 0 <= j < new.len() && j != k ==> untouched(old, new, j)
    }
}

/// Segment `j` of `new` holds the blocks it held in `old`, or, new, is all free.
pub open spec fn untouched(old: &VaBitmap, new: &VaBitmap, j: int) -> bool {
    &&& j < old.len() ==> new.seg(j).words() == old.seg(j).words()
    &&& j >= old.len() ==> forall|i: int| 0 <= i < new.seg(j).total() ==> !#[trigger] new.seg(j).is_used(i)
}

impl AddressSpace {
    pub open spec fn wf(&self) -> bool {
        &&& self.map.wf()
        &&& self.reserve.wf()
    }

    /// Nothing reserved yet.
    pub fn new(seed: u64, max_reservation: u64) -> (s: Self)
        requires
            max_reservation <= MAX_RESERVATION_CAP,
        ensures
            s.wf(),
            s.map.len() == 0,
    {
        AddressSpace { map: VaBitmap::new(), rng: Rng::new(seed), reserve: Reservation::new(max_reservation) }
    }

    /// Reserves one new segment and adds it to the map.
    pub fn grow<K: Kernel>(&mut self, os: &mut K) -> (r: Result<Option<usize>, OxidallocError>)
        requires
            old(self).wf(),
        ensures
            final(self).wf(),
            r matches Err(e) ==> e == OxidallocError::SecurityViolation || e == OxidallocError::VAIinitFailed,
            forall|k: int| 0 <= k < old(self).map.len() ==> #[trigger] final(self).map.seg(k) == old(self).map.seg(k),
            forall|a: u64| old(self).map.owns(a) ==> #[trigger] final(self).map.owns(a),
            final(self).map.latest() == old(self).map.latest(),
            match r {
                Ok(Some(k)) => {
                    &&& k == old(self).map.len()
                    &&& final(self).map.len() == old(self).map.len() + 1
                    &&& forall|i: int| 0 <= i < final(self).map.seg(k as int).total() ==> !#[trigger] final(self).map.seg(k as int).is_used(i)
                    &&& final(self).reserve.base_init
                    &&& MIN_RESERVE / 2 <= final(self).map.seg(k as int).end() - final(self).map.seg(k as int).start() <= MAX_RESERVATION_CAP
                    &&& forall|a: u64| #[trigger] final(self).map.owns(a)
                        == (old(self).map.owns(a) || final(self).map.seg(k as int).start() <= a < final(self).map.seg(k as int).end())
                },
                _ => {
                    &&& final(self).map.len() == old(self).map.len()
                    &&& forall|a: u64| #[trigger] final(self).map.owns(a) == old(self).map.owns(a)
                },
            },
            final(self).reserve.max_reservation == old(self).reserve.max_reservation,
    {
        let ghost m0 = self.map;
        let got = self.reserve.get_va_from_kernel(os);
        proof {
            assert(self.map == m0);
            assert forall|a: u64| old(self).map.owns(a) implies #[trigger] self.map.owns(a) by {}
        }
        match got {
            Err(e) => Err(e),
            Ok(None) => Ok(None),
            Ok(Some((start, size))) => {
                if start == 0 || start > u64::MAX - size {
                    return Ok(None);
                }
                let res = self.map.grow(start, start + size, size);
                proof {
                    assert forall|a: u64| old(self).map.owns(a) implies #[trigger] self.map.owns(a) by {
                        let k = choose|k: int| 0 <= k < m0.len() && #[trigger] m0.seg(k).start() <= a < m0.seg(k).end();
                        assert(self.map.seg(k) == m0.seg(k));
                    }
                }
                Ok(res)
            },
        }
    }

    /// Claims `size` bytes of address space (rounded up to 4096-byte blocks):
    /// in the segments reserved so far, else in new segments, reserving up
    /// to `GROW_ATTEMPTS` of them. The first segment is required: when it
    /// cannot be reserved the allocator cannot start.
    pub fn allocate<K: Kernel>(&mut self, size: u64, os: &mut K) -> (r: Result<Option<u64>, OxidallocError>)
        requires
            old(self).wf(),
            size + 4096 <= u64::MAX,
        ensures
            final(self).wf(),
            forall|a: u64| old(self).map.owns(a) ==> #[trigger] final(self).map.owns(a),
            size == 0 ==> r == Ok::<Option<u64>, OxidallocError>(None),
            r matches Err(e) ==> e == OxidallocError::SecurityViolation || e == OxidallocError::VAIinitFailed,
            r matches Ok(Some(a)) ==> claimed(&old(self).map, &final(self).map, size, a),
            !(r matches Ok(Some(_))) ==> {
                &&& final(self).map.len() >= old(self).map.len()
                &&& forall|j: int| 0 <= j < old(self).map.len() ==> (#[trigger] final(self).map.seg(j)).same_range(&old(self).map.seg(j))
                &&& forall|j: int| 0 <= j < final(self).map.len() ==> #[trigger] untouched(&old(self).map, &final(self).map, j)
            },
            size > 0 && (exists|k: int, q: int| 0 <= k < old(self).map.len() && !old(self).map.seg(k).is_full()
                && #[trigger] window_free(old(self).map.seg(k).words(), old(self).map.seg(k).total(), q, ((size + 4095) / 4096) as int))
                ==> (r matches Ok(Some(_))) && final(self).map.len() == old(self).map.len(),
    {
        if size == 0 {
            return Ok(None);
        }
        let ghost m0 = self.map;
        let first = self.map.alloc_range(size, &mut self.rng);
        if let Some(a) = first {
            proof {
                let k = choose|k: int| 0 <= k < m0.len()
                    && #[trigger] claim_effect(&m0.seg(k), &self.map.seg(k), ((size + 4095) / 4096) as int, Some(a))
                    && forall|j: int| 0 <= j < m0.len() && j != k ==> #[trigger] self.map.seg(j).words() == m0.seg(j).words();
                assert(claim_effect(&m0.seg(k), &self.map.seg(k), ((size + 4095) / 4096) as int, Some(a)));
                m0.lemma_seg_wf(k);
                assert(self.map.seg(k).same_range(&m0.seg(k)));
                assert forall|j: int| 0 <= j < self.map.len() && j != k implies untouched(&m0, &self.map, j) by {
                    assert(self.map.seg(j).words() == m0.seg(j).words());
                }
                assert(claimed(&m0, &self.map, size, a));
            }
            return Ok(first);
        }
        let ghost m1 = self.map;
        proof {
            assert forall|j: int| 0 <= j < m1.len() implies #[trigger] untouched(&m0, &m1, j) && m1.seg(j).same_range(&m0.seg(j)) by {
                assert(m1.seg(j).words() == m0.seg(j).words());
            }
        }
        assert forall|a: u64| m0.owns(a) implies #[trigger] m1.owns(a) by {}
        proof {
            if exists|k: int, q: int| 0 <= k < m0.len() && !m0.seg(k).is_full()
                && #[trigger] window_free(m0.seg(k).words(), m0.seg(k).total(), q, ((size + 4095) / 4096) as int) {
                let (k, q) = choose|k: int, q: int| 0 <= k < m0.len() && !m0.seg(k).is_full()
                    && #[trigger] window_free(m0.seg(k).words(), m0.seg(k).total(), q, ((size + 4095) / 4096) as int);
                assert(m1.seg(k).words() == m0.seg(k).words());
                assert(false);
            }
        }
        if self.map.segment_count() == 0 {
            let g = self.grow(os);
            match g {
                Err(e) => return Err(e),
                Ok(None) => return Err(OxidallocError::VAIinitFailed),
                Ok(Some(_)) => {},
            }
        } else {
            let mut tried: usize = 0;
            let mut grown = false;
            while tried < GROW_ATTEMPTS && !grown
                invariant
                    self.wf(),
                    self.map.len() >= m1.len(),
                    m1.len() > 0,
                    grown ==> self.map.len() == m1.len() + 1,
                    !grown ==> self.map.len() == m1.len(),
                    forall|k: int| 0 <= k < m1.len() ==> #[trigger] self.map.seg(k) == m1.seg(k),
                    forall|a: u64| m1.owns(a) ==> #[trigger] self.map.owns(a),
                    forall|a: u64| m0.owns(a) ==> #[trigger] self.map.owns(a),
                    m0 == old(self).map,
                    size != 0,
                    !(exists|k: int, q: int| 0 <= k < m0.len() && !m0.seg(k).is_full()
                        && #[trigger] window_free(m0.seg(k).words(), m0.seg(k).total(), q, ((size + 4095) / 4096) as int)),
                    grown ==> forall|i: int| 0 <= i < self.map.seg(m1.len() as int).total() ==> !#[trigger] self.map.seg(m1.len() as int).is_used(i),
                    forall|j: int| 0 <= j < m1.len() ==> #[trigger] untouched(&m0, &m1, j) && m1.seg(j).same_range(&m0.seg(j)),
                    m1.len() == m0.len(),
                decreases GROW_ATTEMPTS - tried,
            {
                let ghost mg = self.map;
                let g = self.grow(os);
                match g {
                    Err(e) => {
                        proof {
                            assert forall|j: int| 0 <= j < self.map.len() implies #[trigger] untouched(&m0, &self.map, j) by {
                                assert(self.map.seg(j) == mg.seg(j));
                                assert(mg.seg(j) == m1.seg(j));
                                assert(untouched(&m0, &m1, j));
                            }
                            assert forall|j: int| 0 <= j < m0.len() implies (#[trigger] self.map.seg(j)).same_range(&m0.seg(j)) by {
                                assert(self.map.seg(j) == mg.seg(j));
                                assert(mg.seg(j) == m1.seg(j));
                                assert(untouched(&m0, &m1, j));
                                assert(m1.seg(j).same_range(&m0.seg(j)));
                            }
                            assert(self.map.len() >= m0.len());
                        }
                        return Err(e);
                    },
                    Ok(None) => {},
                    Ok(Some(_)) => {
                        grown = true;
                    },
                }
                tried = tried + 1;
            }
            if !grown {
                return Ok(None);
            }
        }
        let ghost m2 = self.map;
        let res = self.map.alloc_in_newest(size, &mut self.rng);
        proof {
            assert forall|a: u64| m0.owns(a) implies #[trigger] self.map.owns(a) by {
                assert(m1.owns(a));
                assert(m2.owns(a));
            }
            let k = (m2.len() - 1) as int;
            assert(k == m1.len());
            assert(m1.len() == m0.len());
            assert forall|j: int| 0 <= j < m0.len() implies #[trigger] self.map.seg(j) == m1.seg(j) by {
                assert(m2.seg(j) == m1.seg(j));
            }
            if let Some(a) = res {
                assert(claim_effect(&m2.seg(k), &self.map.seg(k), ((size + 4095) / 4096) as int, Some(a)));
                m2.lemma_seg_wf(k);
                assert forall|j: int| 0 <= j < self.map.len() && j != k implies untouched(&m0, &self.map, j) by {
                    assert(untouched(&m0, &m1, j));
                }
                assert(claimed(&m0, &self.map, size, a));
            } else {
                assert forall|j: int| 0 <= j < self.map.len() implies #[trigger] untouched(&m0, &self.map, j) by {
                    if j < k {
                        assert(untouched(&m0, &m1, j));
                    } else {
                        assert(self.map.seg(k).words() == m2.seg(k).words());
                        self.map.seg(k).lemma_same_range_total(&m2.seg(k));
                        assert(forall|i: int| 0 <= i < m2.seg(k).total() ==> !#[trigger] m2.seg(k).is_used(i));
                        assert(forall|i: int| 0 <= i < self.map.seg(k).total() ==> #[trigger] self.map.seg(k).is_used(i) == m2.seg(k).is_used(i));
                    }
                }
            }
        }
        Ok(res)
    }
}

} // verus!
