//! Giving memory back to the kernel: how eagerly, and when.
pub mod gtrim;
pub mod ptrim;

use crate::va::{align_to, aligned_up, is_pow2};
use crate::HEADER_SIZE;
use vstd::prelude::*;

verus! {

/// How eagerly blocks are given back, by their average idle time.
#[derive(Clone, Copy, Debug, PartialEq, Eq, Structural)]
pub enum TimeDecay {
    Normal,
    Medium,
    High,
    Aggressive,
}

impl TimeDecay {
    /// The level for an average idle time: up to 1 normal, 4 to 5 medium,
    /// 6 to 10 high, anything else aggressive.
    pub fn decide_on(avg_time: usize) -> (d: TimeDecay)
        ensures
            d == if avg_time <= 1 {
                TimeDecay::Normal
            } else if 4 <= avg_time <= 5 {
                TimeDecay::Medium
            } else if 6 <= avg_time <= 10 {
                TimeDecay::High
            } else {
                TimeDecay::Aggressive
            },
    {
        if avg_time <= 1 {
            TimeDecay::Normal
        } else if 4 <= avg_time && avg_time <= 5 {
            TimeDecay::Medium
        } else if 6 <= avg_time && avg_time <= 10 {
            TimeDecay::High
        } else {
            TimeDecay::Aggressive
        }
    }

    /// Milliseconds the trimming thread sleeps between rounds.
    pub fn get_trim_time(&self) -> (t: u64)
        ensures
            t == match *self {
                TimeDecay::Normal => 150u64,
                TimeDecay::Medium => 120u64,
                TimeDecay::High => 100u64,
                TimeDecay::Aggressive => 20u64,
            },
    {
        match self {
            TimeDecay::Normal => 150,
            TimeDecay::Medium => 120,
            TimeDecay::High => 100,
            TimeDecay::Aggressive => 20,
        }
    }

    /// Ticks of the trimming clock that a round counts for.
    pub fn get_trim_time_for_global(&self) -> (t: u64)
        ensures
            t == match *self {
                TimeDecay::Normal => 2u64,
                _ => 1u64,
            },
    {
        match self {
            TimeDecay::Normal => 2,
            TimeDecay::Medium => 1,
            TimeDecay::High => 1,
            TimeDecay::Aggressive => 1,
        }
    }

    /// The least trim threshold at this level, in bytes.
    pub fn get_threshold(&self) -> (t: u64)
        ensures
            t == match *self {
                TimeDecay::Normal => 33554432u64,
                TimeDecay::Medium => 67108864u64,
                TimeDecay::High => 134217728u64,
                TimeDecay::Aggressive => 536870912u64,
            },
    {
        match self {
            TimeDecay::Normal => 32 * 1024 * 1024,
            TimeDecay::Medium => 64 * 1024 * 1024,
            TimeDecay::High => 128 * 1024 * 1024,
            TimeDecay::Aggressive => 512 * 1024 * 1024,
        }
    }

    /// The level stored as `value`; unknown values are aggressive.
    pub fn from_u8(value: u8) -> (d: TimeDecay)
        ensures
            d == match value {
                0 => TimeDecay::Normal,
                1 => TimeDecay::Medium,
                2 => TimeDecay::High,
                _ => TimeDecay::Aggressive,
            },
    {
        match value {
            0 => TimeDecay::Normal,
            1 => TimeDecay::Medium,
            2 => TimeDecay::High,
            _ => TimeDecay::Aggressive,
        }
    }

    /// The number the level is stored as.
    pub fn to_u8(&self) -> (v: u8)
        ensures
            v == match *self {
                TimeDecay::Normal => 0u8,
                TimeDecay::Medium => 1u8,
                TimeDecay::High => 2u8,
                TimeDecay::Aggressive => 3u8,
            },
    {
        match self {
            TimeDecay::Normal => 0,
            TimeDecay::Medium => 1,
            TimeDecay::High => 2,
            TimeDecay::Aggressive => 3,
        }
    }
}

/// Storing a level and reading it back gives the level.
pub proof fn lemma_decay_roundtrip(d: TimeDecay)
    ensures
        (match d {
            TimeDecay::Normal => 0u8,
            TimeDecay::Medium => 1u8,
            TimeDecay::High => 2u8,
            TimeDecay::Aggressive => 3u8,
        }) matches v && (match v {
            0 => TimeDecay::Normal,
            1 => TimeDecay::Medium,
            2 => TimeDecay::High,
            _ => TimeDecay::Aggressive,
        }) == d,
{
}

/// A page: 4096 bytes.
pub const PAGE_SIZE: u64 = 4096;

/// `x` rounded down to a page.
pub open spec fn page_floor(x: u64) -> u64 {
    x & !4095u64
}

/// The whole pages inside the payload of `size` bytes that follows the
/// header at `header`, as a start and a length; none when there are none.
pub open spec fn release_range_spec(header: u64, size: u64) -> Option<(u64, u64)> {
    let user_start = (header + HEADER_SIZE) as u64;
    let user_end = (user_start + size) as u64;
    let page_start = aligned_up(user_start, 4096);
    let page_end = page_floor(user_end);
    if page_start >= page_end {
        None
    } else {
        Some((page_start, (page_end - page_start) as u64))
    }
}

/// The pages to give back for a free block at `header` with `size` payload bytes.
pub fn release_range(header: u64, size: u64) -> (r: Option<(u64, u64)>)
    requires
        header + HEADER_SIZE + size + PAGE_SIZE <= u64::MAX,
    ensures
        r == release_range_spec(header, size),
        r matches Some((start, len)) ==> {
            &&& start % 4096 == 0
            &&& len % 4096 == 0
            &&& header + HEADER_SIZE <= start
            &&& start + len <= header + HEADER_SIZE + size
        },
{
    let user_start = header + HEADER_SIZE as u64;
    let user_end = user_start + size;
    assert(is_pow2(4096)) by (bit_vector);
    let page_start = align_to(user_start, PAGE_SIZE);
    let page_end = user_end & !4095u64;
    assert(page_end <= user_end && page_end & 4095u64 == 0) by (bit_vector)
        requires
            page_end == user_end & !4095u64,
    ;
    if page_start >= page_end {
        return None;
    }
    let len = page_end - page_start;
    assert(page_start & 4095u64 == 0) by (bit_vector)
        requires
            page_start % 4096 == 0,
    ;
    assert(len & 4095u64 == 0) by (bit_vector)
        requires
            page_end & 4095u64 == 0,
            page_start & 4095u64 == 0,
            page_start < page_end,
            len == page_end - page_start,
    ;
    proof {
        crate::va::lemma_low_bits_zero_mod(len, 4096);
    }
    Some((page_start, len))
}

/// Percent of memory (RAM and swap) in use, from the kernel's counts in
/// units of `unit` bytes; 50 when the kernel reports no memory at all.
/// Each total is saturated at `u64::MAX` bytes, as the kernel's counts are
/// multiplied out.
pub open spec fn pressure_of(unit: u64, total_ram: u64, free_ram: u64, total_swap: u64, free_swap: u64) -> int {
    let sat = |a: u64, b: u64| if a * b > u64::MAX { u64::MAX as int } else { a * b };
    let available = sat(free_ram, unit) + sat(free_swap, unit);
    let total = sat(total_ram, unit) + sat(total_swap, unit);
    if total == 0 {
        50
    } else {
        let used = if total > available { total - available } else { 0 };
        (used * 100) / total
    }
}

/// `a * b`, saturated at `u64::MAX`.
pub fn sat_mul(a: u64, b: u64) -> (r: u64)
    ensures
        r == if a * b > u64::MAX { u64::MAX as int } else { a * b },
{
    assert((a as u128) * (b as u128) <= 0xFFFF_FFFF_FFFF_FFFF_u128 * 0xFFFF_FFFF_FFFF_FFFF_u128) by (nonlinear_arith);
    let p = (a as u128) * (b as u128);
    if p > u64::MAX as u128 {
        u64::MAX
    } else {
        p as u64
    }
}

/// Percent of memory in use; see `pressure_of`.
pub fn memory_pressure(unit: u64, total_ram: u64, free_ram: u64, total_swap: u64, free_swap: u64) -> (p: usize)
    ensures
        p == pressure_of(unit, total_ram, free_ram, total_swap, free_swap),
        p <= 100,
{
    let tr = sat_mul(total_ram, unit) as u128;
    let fr = sat_mul(free_ram, unit) as u128;
    let ts = sat_mul(total_swap, unit) as u128;
    let fs = sat_mul(free_swap, unit) as u128;
    let available = fr + fs;
    let total = tr + ts;
    if total == 0 {
        return 50;
    }
    let used = if total > available { total - available } else { 0 };
    assert(used * 100 <= total * 100) by (nonlinear_arith)
        requires
            used <= total,
    ;
    let scaled = used * 100;
    let p = scaled / total;
    assert(p <= 100) by (nonlinear_arith)
        requires
            scaled <= total * 100,
            total > 0,
            p == scaled / total,
    ;
    p as usize
}

/// The kernel's memory counts: the unit in bytes, then total and free RAM,
/// total and free swap, in units. `rustix::system::sysinfo` asks the
/// kernel; the unit is a `u32` there, and nothing more is promised of the
/// values, which change all the time.
#[verifier::external_body]
fn read_sysinfo() -> (r: (u64, u64, u64, u64, u64))
    ensures
        r.0 <= u32::MAX,
{
    let info = rustix::system::sysinfo();
    (info.mem_unit as u64, info.totalram as u64, info.freeram as u64, info.totalswap as u64, info.freeswap as u64)
}

/// Percent of memory in use right now, as `pressure_of` computes it from
/// what the kernel reports.
pub fn check_memory_pressure() -> (p: usize)
    ensures
        p <= 100,
        exists|u: u64, tr: u64, fr: u64, ts: u64, fs: u64| p == #[trigger] pressure_of(u, tr, fr, ts, fs),
{
    let (unit, tr, fr, ts, fs) = read_sysinfo();
    memory_pressure(unit, tr, fr, ts, fs)
}

/// Counters that drive trimming.
pub struct TrimState {
    /// The current time, in seconds since start-up.
    pub current_stamp: u32,
    /// Idle time after which a shared block's pages are given back.
    pub average_block_times_global: usize,
    /// The level of the shared trimmer.
    pub global_decay: u8,
    /// Percent of memory in use at the last check.
    pub last_pressure_check: usize,
    /// Bytes to give back per round.
    pub trim_threshold: usize,
    /// Ticks of the trimming clock.
    pub total_time_global: usize,
    /// The tick of the last round that trimmed.
    pub last_trim_global: usize,
    /// Idle time after which a thread's block leaves its cache.
    pub average_block_times_pthread: usize,
    /// The level of the per-thread trimmer.
    pub ptrim_decay: u8,
}

impl TrimState {
    /// The counters at start-up.
    pub fn new() -> (s: Self)
        ensures
            s.current_stamp == 0,
            s.average_block_times_global == 3,
            s.trim_threshold == 10485760,
            s.global_decay == 0,
            s.total_time_global == 0,
            s.last_trim_global == 0,
    {
        TrimState {
            current_stamp: 0,
            average_block_times_global: 3,
            global_decay: 0,
            last_pressure_check: 0,
            trim_threshold: 1024 * 1024 * 10,
            total_time_global: 0,
            last_trim_global: 0,
            average_block_times_pthread: 3,
            ptrim_decay: 0,
        }
    }

    /// Whether a round of the shared trimmer should trim, given the memory
    /// `pressure`: the threshold is first raised to the level's least one
    /// (unless trimming by threshold is off, at zero); the round trims under
    /// more than 85 percent pressure, or when at least the average idle
    /// time passed since the last round that trimmed.
    pub fn decide_global_with(&mut self, decay: TimeDecay, pressure: usize) -> (r: bool)
        ensures
            final(self).trim_threshold == if old(self).trim_threshold < decay.get_threshold_spec() && old(self).trim_threshold != 0 {
                decay.get_threshold_spec() as usize
            } else {
                old(self).trim_threshold
            },
            final(self).last_pressure_check == pressure,
            final(self).current_stamp == old(self).current_stamp,
            final(self).global_decay == old(self).global_decay,
            final(self).average_block_times_pthread == old(self).average_block_times_pthread,
            final(self).ptrim_decay == old(self).ptrim_decay,
            final(self).total_time_global == old(self).total_time_global,
            final(self).average_block_times_global == old(self).average_block_times_global,
            r == (pressure > 85 || (old(self).average_block_times_global != 0 && old(self).total_time_global != 0
                && old(self).total_time_global - old(self).last_trim_global >= old(self).average_block_times_global)),
            final(self).last_trim_global == if pressure <= 85 && r { old(self).total_time_global } else { old(self).last_trim_global },
    {
        let threshold = decay.get_threshold();
        if (self.trim_threshold as u64) < threshold && self.trim_threshold != 0 {
            self.trim_threshold = threshold as usize;
        }
        let total = self.total_time_global;
        self.last_pressure_check = pressure;
        if self.last_pressure_check > 85 {
            return true;
        }
        let timing = self.average_block_times_global;
        if timing == 0 {
            return false;
        }
        let last = self.last_trim_global;
        if total.saturating_sub(last) >= timing && total != 0 {
            self.last_trim_global = total;
            return true;
        }
        false
    }

    /// `decide_global_with` on the memory pressure measured now.
    pub fn decide_global(&mut self, decay: TimeDecay) -> (r: bool)
        ensures
            final(self).last_pressure_check <= 100,
            final(self).total_time_global == old(self).total_time_global,
    {
        let pressure = check_memory_pressure();
        self.decide_global_with(decay, pressure)
    }

    /// One wake-up of the trimming thread, `elapsed_secs` after start-up:
    /// the clock advances by the level's ticks, the time stamp is updated,
    /// and the result says whether to trim. The thread then sleeps for the
    /// level's time.
    pub fn tick(&mut self, elapsed_secs: u32, pressure: usize) -> (r: bool)
        ensures
            final(self).current_stamp == elapsed_secs,
            final(self).total_time_global == wadd_usize(old(self).total_time_global,
                TimeDecay::from_u8_spec(old(self).global_decay).trim_ticks()),
    {
        let decay = TimeDecay::from_u8(self.global_decay);
        let ticks = decay.get_trim_time_for_global() as usize;
        self.total_time_global = self.total_time_global.wrapping_add(ticks);
        self.current_stamp = elapsed_secs;
        self.decide_global_with(decay, pressure)
    }
}

/// `a + b` as `usize::wrapping_add` computes it.
pub open spec fn wadd_usize(a: usize, b: int) -> usize {
    if a + b > usize::MAX { (a + b - usize::MAX - 1) as usize } else { (a + b) as usize }
}

impl TimeDecay {
    /// The least trim threshold of the level.
    pub open spec fn get_threshold_spec(&self) -> u64 {
        match *self {
            TimeDecay::Normal => 33554432u64,
            TimeDecay::Medium => 67108864u64,
            TimeDecay::High => 134217728u64,
            TimeDecay::Aggressive => 536870912u64,
        }
    }

    /// Ticks a round at this level counts for.
    pub open spec fn trim_ticks(&self) -> int {
        match *self {
            TimeDecay::Normal => 2,
            _ => 1,
        }
    }

    /// The level stored as `value`.
    pub open spec fn from_u8_spec(value: u8) -> TimeDecay {
        match value {
            0 => TimeDecay::Normal,
            1 => TimeDecay::Medium,
            2 => TimeDecay::High,
            _ => TimeDecay::Aggressive,
        }
    }
}

} // verus!
