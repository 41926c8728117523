//! The trimming decision taken on each free of the 22-class allocator: from
//! the share of blocks in use, whether to give memory back.
use crate::trim::check_memory_pressure;
use vstd::prelude::*;

verus! {

/// Frees between two readings of the memory pressure.
pub const PRESSURE_CHECK_EVERY: usize = 55000;

/// What a free asks of the trimmer.
#[derive(Clone, Copy, Debug, PartialEq, Eq, Structural)]
pub enum TrimAction {
    /// Trim the global caches.
    Global,
    /// Trim the thread's own cache.
    Local,
    /// Nothing.
    Keep,
}

/// Percent of allocated blocks that are in use; zero when none is allocated.
pub open spec fn in_use_percent(total_allocated: int, total_in_use: int) -> int {
    if total_allocated > 0 { (total_in_use * 100) / total_allocated } else { 0 }
}

/// The trimming decision for a count of operations `total`, given the
/// pressure reading `pressure`: the global caches on the global interval, or
/// under pressure above 85%, or with under 35% of blocks in use; else the
/// thread's cache on the local interval, or above 75%, or under 50%.
pub open spec fn trim_action(
    total: int,
    total_allocated: int,
    total_in_use: int,
    pressure: int,
    global_interval: int,
    local_interval: int,
) -> TrimAction {
    let in_use = in_use_percent(total_allocated, total_in_use);
    if total % global_interval == 0 || pressure > 85 || in_use < 35 {
        TrimAction::Global
    } else if total % local_interval == 0 || pressure > 75 || in_use < 50 {
        TrimAction::Local
    } else {
        TrimAction::Keep
    }
}

/// Decides what a free asks of the trimmer. Every 55000 operations the
/// memory pressure is read anew into `last_pressure`; the decision uses the
/// reading then held.
pub fn trim(
    last_pressure: &mut usize,
    total: usize,
    total_allocated: usize,
    total_in_use: usize,
    global_interval: usize,
    local_interval: usize,
) -> (r: TrimAction)
    requires
        total_in_use * 100 <= usize::MAX,
        global_interval > 0,
        local_interval > 0,
    ensures
        total % PRESSURE_CHECK_EVERY != 0 ==> *final(last_pressure) == *old(last_pressure),
        total % PRESSURE_CHECK_EVERY == 0 ==> *final(last_pressure) <= 100,
        r == trim_action(total as int, total_allocated as int, total_in_use as int,
            *final(last_pressure) as int, global_interval as int, local_interval as int),
{
    if total % PRESSURE_CHECK_EVERY == 0 {
        *last_pressure = check_memory_pressure();
    }
    let in_use_percentage = if total_allocated > 0 {
        (total_in_use * 100) / total_allocated
    } else {
        0
    };
    let pressure = *last_pressure;
    if total % global_interval == 0 || pressure > 85 || in_use_percentage < 35 {
        TrimAction::Global
    } else if total % local_interval == 0 || pressure > 75 || in_use_percentage < 50 {
        TrimAction::Local
    } else {
        TrimAction::Keep
    }
}

} // verus!
