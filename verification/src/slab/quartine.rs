//! A list of released pointers that may not be handed out again.
use vstd::prelude::*;

verus! {

/// Most pointers the list holds.
pub const MAX_QUARANTINE: usize = 65536;

/// Why a pointer could not be quarantined; both are fatal.
#[derive(Clone, Copy, Debug, PartialEq, Eq, Structural)]
pub enum QuarantineError {
    /// The pointer is already in the list.
    DoubleQuarantine,
    /// The list is full.
    TooMuchQuarantine,
}

/// Quarantined pointers, oldest first.
pub struct Quarantine {
    pub list: Vec<u64>,
}

impl Quarantine {
    /// No pointer occurs twice, and the list is within its bound.
    pub open spec fn wf(&self) -> bool {
        &&& self.list@.len() <= MAX_QUARANTINE
        &&& forall|i: int, j: int| 0 <= i < j < self.list@.len() ==> #[trigger] self.list@[i] != #[trigger] self.list@[j]
    }

    /// An empty list.
    pub fn new() -> (q: Self)
        ensures
            q.wf(),
            q.list@.len() == 0,
    {
        Quarantine { list: Vec::new() }
    }
}

/// Quarantines `ptr`: refused when it is already there or the list is full.
pub fn quarantine(q: &mut Quarantine, ptr: u64) -> (r: Result<(), QuarantineError>)
    requires
        old(q).wf(),
    ensures
        final(q).wf(),
        old(q).list@.contains(ptr) ==> r == Err::<(), QuarantineError>(QuarantineError::DoubleQuarantine) && final(q).list@ == old(q).list@,
        !old(q).list@.contains(ptr) && old(q).list@.len() >= MAX_QUARANTINE ==> r == Err::<(), QuarantineError>(QuarantineError::TooMuchQuarantine)
            && final(q).list@ == old(q).list@,
        !old(q).list@.contains(ptr) && old(q).list@.len() < MAX_QUARANTINE ==> r is Ok && final(q).list@ == old(q).list@.push(ptr),
{
    let mut i: usize = 0;
    while i < q.list.len()
        invariant
            q.wf(),
            *q == *old(q),
            i <= q.list@.len(),
            forall|k: int| 0 <= k < i ==> #[trigger] q.list@[k] != ptr,
        decreases q.list@.len() - i,
    {
        if q.list[i] == ptr {
            assert(q.list@[i as int] == ptr);
            return Err(QuarantineError::DoubleQuarantine);
        }
        i = i + 1;
    }
    assert(!q.list@.contains(ptr));
    if q.list.len() < MAX_QUARANTINE {
        q.list.push(ptr);
        Ok(())
    } else {
        Err(QuarantineError::TooMuchQuarantine)
    }
}

} // verus!
