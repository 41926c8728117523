//! The entry points to the shared cache.
use crate::slab::interconnect::InterConnectCache;
use crate::slab::NUM_SIZE_CLASSES;
use crate::OxHeader;
use vstd::prelude::*;

verus! {

/// Moves lists of blocks between a thread and the shared cache.
pub struct GlobalHandler;

impl GlobalHandler {
    /// Gives `batch` to the shared cache, on the CPU the thread runs on.
    pub fn push_to_global(
        &self,
        icc: &mut InterConnectCache,
        class: usize,
        batch: Vec<OxHeader>,
        need_push_pushed: bool,
        is_trimmed: bool,
    )
        requires
            old(icc).wf(),
            old(icc).ready(),
            class < NUM_SIZE_CLASSES,
        ensures
            exists|cpu: int| 0 <= cpu < old(icc).ncpu
                && #[trigger] InterConnectCache::push_effect(old(icc), final(icc), class as int, cpu, batch@, need_push_pushed, is_trimmed),
    {
        icc.try_push(class, batch, need_push_pushed, is_trimmed);
    }

    /// Takes up to `batch_size` blocks of `class` from the shared cache.
    pub fn pop_from_global(
        &self,
        icc: &mut InterConnectCache,
        class: usize,
        batch_size: usize,
        need_pushed: bool,
    ) -> (r: Option<Vec<OxHeader>>)
        requires
            old(icc).wf(),
            old(icc).ready(),
            class < NUM_SIZE_CLASSES,
        ensures
            InterConnectCache::same_shape(old(icc), final(icc)),
            exists|cpu: int| 0 <= cpu < old(icc).ncpu
                && #[trigger] InterConnectCache::pop_outcome(old(icc), final(icc), class as int, batch_size as int, need_pushed, cpu, r),
    {
        icc.try_pop(class, batch_size, need_pushed)
    }
}

} // verus!
