//! Heap accounting: the counters a tracking allocator keeps, snapshots of
//! them, and the per-call deltas computed from two snapshots.
//!
//! The counters behave as the allocator's atomic counters do: additions
//! wrap around, and the peak only ever rises.

use vstd::prelude::*;

verus! {

/// A point-in-time copy of the allocator counters.
#[derive(Clone, Copy, Debug, PartialEq, Eq, Structural)]
pub struct AllocSnapshot {
    pub current: i64,
    pub peak: u64,
    pub total_alloc: u64,
    pub total_dealloc: u64,
    pub alloc_ops: u64,
}

impl Default for AllocSnapshot {
    fn default() -> (s: Self)
        ensures
            s.current == 0 && s.peak == 0 && s.total_alloc == 0 && s.total_dealloc == 0
                && s.alloc_ops == 0,
    {
        AllocSnapshot { current: 0, peak: 0, total_alloc: 0, total_dealloc: 0, alloc_ops: 0 }
    }
}

/// `a - b`, or zero when `b` is larger.
pub open spec fn sat_sub(a: u64, b: u64) -> u64 {
    if a >= b {
        (a - b) as u64
    } else {
        0
    }
}

/// The heap level a snapshot stands at: its current bytes, counted as zero
/// when negative.
pub open spec fn level(s: AllocSnapshot) -> u64 {
    if s.current > 0 {
        s.current as u64
    } else {
        0
    }
}

/// The peak that the allocator has at least reached when `s` was taken:
/// its recorded peak or its current level, whichever is larger.
pub open spec fn entry_level(s: AllocSnapshot) -> u64 {
    if s.peak >= level(s) {
        s.peak
    } else {
        level(s)
    }
}

impl AllocSnapshot {
    /// Bytes allocated between `earlier` and `self`.
    pub fn alloc_delta(&self, earlier: &AllocSnapshot) -> (r: u64)
        ensures
            r == sat_sub(self.total_alloc, earlier.total_alloc),
    {
        self.total_alloc.saturating_sub(earlier.total_alloc)
    }

    /// Bytes freed between `earlier` and `self`.
    pub fn dealloc_delta(&self, earlier: &AllocSnapshot) -> (r: u64)
        ensures
            r == sat_sub(self.total_dealloc, earlier.total_dealloc),
    {
        self.total_dealloc.saturating_sub(earlier.total_dealloc)
    }

    /// Allocator operations between `earlier` and `self`.
    pub fn ops_delta(&self, earlier: &AllocSnapshot) -> (r: u64)
        ensures
            r == sat_sub(self.alloc_ops, earlier.alloc_ops),
    {
        self.alloc_ops.saturating_sub(earlier.alloc_ops)
    }

    /// How far the peak rose above the level at which `earlier` was taken.
    pub fn peak_delta(&self, earlier: &AllocSnapshot) -> (r: u64)
        ensures
            r == sat_sub(self.peak, entry_level(*earlier)),
    {
        let lvl: u64 = if earlier.current > 0 {
            earlier.current as u64
        } else {
            0
        };
        let base: u64 = if earlier.peak >= lvl {
            earlier.peak
        } else {
            lvl
        };
        self.peak.saturating_sub(base)
    }
}

/// The live allocator counters.
pub struct AllocCounters {
    pub current: i64,
    pub peak: u64,
    pub total_alloc: u64,
    pub total_dealloc: u64,
    pub alloc_ops: u64,
    /// Set once the allocator has served an allocation.
    pub active: bool,
}

/// `x + y` wrapped into a `u64`.
pub open spec fn wrap_add(x: u64, y: u64) -> u64 {
    if x + y <= u64::MAX {
        (x + y) as u64
    } else {
        (x + y - 0x1_0000_0000_0000_0000) as u64
    }
}

/// `x + y` wrapped into an `i64`.
pub open spec fn wrap_add_i(x: i64, y: i64) -> i64 {
    if x + y > i64::MAX {
        (x + y - 0x1_0000_0000_0000_0000) as i64
    } else if x + y < i64::MIN {
        (x + y + 0x1_0000_0000_0000_0000) as i64
    } else {
        (x + y) as i64
    }
}

/// The peak after the heap was seen at `cur` bytes.
pub open spec fn raised_peak(peak: u64, cur: i64) -> u64 {
    let c: u64 = if cur > 0 {
        cur as u64
    } else {
        0
    };
    if c > peak {
        c
    } else {
        peak
    }
}

pub(crate) fn add_wrapping(x: u64, y: u64) -> (r: u64)
    ensures
        r == wrap_add(x, y),
{
    x.wrapping_add(y)
}

fn add_wrapping_signed(x: i64, y: i64) -> (r: i64)
    ensures
        r == wrap_add_i(x, y),
{
    x.wrapping_add(y)
}

fn raise_peak(peak: u64, cur: i64) -> (r: u64)
    ensures
        r == raised_peak(peak, cur),
{
    let c: u64 = if cur > 0 {
        cur as u64
    } else {
        0
    };
    if c > peak {
        c
    } else {
        peak
    }
}

impl AllocCounters {
    /// All counters zero; the allocator has not been used.
    pub fn new() -> (c: Self)
        ensures
            c.current == 0 && c.peak == 0 && c.total_alloc == 0 && c.total_dealloc == 0
                && c.alloc_ops == 0 && !c.active,
    {
        AllocCounters {
            current: 0,
            peak: 0,
            total_alloc: 0,
            total_dealloc: 0,
            alloc_ops: 0,
            active: false,
        }
    }

    /// An allocation of `size` bytes succeeded.
    pub fn on_alloc(&mut self, size: i64)
        requires
            size >= 0,
        ensures
            final(self).current == wrap_add_i(old(self).current, size),
            final(self).total_alloc == wrap_add(old(self).total_alloc, size as u64),
            final(self).alloc_ops == wrap_add(old(self).alloc_ops, 1),
            final(self).total_dealloc == old(self).total_dealloc,
            final(self).active,
            final(self).peak == raised_peak(old(self).peak, final(self).current),
    {
        self.current = add_wrapping_signed(self.current, size);
        self.total_alloc = add_wrapping(self.total_alloc, size as u64);
        self.alloc_ops = add_wrapping(self.alloc_ops, 1);
        self.active = true;
        self.peak = raise_peak(self.peak, self.current);
    }

    /// A block of `size` bytes was freed.
    pub fn on_dealloc(&mut self, size: i64)
        requires
            size >= 0,
        ensures
            final(self).current == wrap_add_i(old(self).current, -size as i64),
            final(self).total_dealloc == wrap_add(old(self).total_dealloc, size as u64),
            final(self).total_alloc == old(self).total_alloc,
            final(self).alloc_ops == old(self).alloc_ops,
            final(self).peak == old(self).peak,
            final(self).active == old(self).active,
    {
        self.current = add_wrapping_signed(self.current, -size);
        self.total_dealloc = add_wrapping(self.total_dealloc, size as u64);
    }

    /// A block of `old_size` bytes was resized to `new_size` bytes: growth
    /// counts as an allocation, shrinking as a release.
    pub fn on_realloc(&mut self, old_size: i64, new_size: i64)
        requires
            old_size >= 0,
            new_size >= 0,
        ensures
            final(self).current == wrap_add_i(old(self).current, (new_size - old_size) as i64),
            final(self).active == old(self).active,
            new_size > old_size ==> {
                &&& final(self).total_alloc == wrap_add(
                    old(self).total_alloc,
                    (new_size - old_size) as u64,
                )
                &&& final(self).alloc_ops == wrap_add(old(self).alloc_ops, 1)
                &&& final(self).total_dealloc == old(self).total_dealloc
                &&& final(self).peak == raised_peak(old(self).peak, final(self).current)
            },
            new_size <= old_size ==> {
                &&& final(self).total_dealloc == wrap_add(
                    old(self).total_dealloc,
                    (old_size - new_size) as u64,
                )
                &&& final(self).alloc_ops == old(self).alloc_ops
                &&& final(self).total_alloc == old(self).total_alloc
                &&& final(self).peak == old(self).peak
            },
    {
        let diff: i64 = new_size - old_size;
        self.current = add_wrapping_signed(self.current, diff);
        if diff > 0 {
            self.total_alloc = add_wrapping(self.total_alloc, diff as u64);
            self.alloc_ops = add_wrapping(self.alloc_ops, 1);
            self.peak = raise_peak(self.peak, self.current);
        } else {
            let shrink: i64 = -diff;
            self.total_dealloc = add_wrapping(self.total_dealloc, shrink as u64);
        }
    }

    /// The counters as they stand, whether or not the allocator was used.
    pub fn snapshot(&self) -> (s: AllocSnapshot)
        ensures
            s.current == self.current,
            s.peak == self.peak,
            s.total_alloc == self.total_alloc,
            s.total_dealloc == self.total_dealloc,
            s.alloc_ops == self.alloc_ops,
    {
        AllocSnapshot {
            current: self.current,
            peak: self.peak,
            total_alloc: self.total_alloc,
            total_dealloc: self.total_dealloc,
            alloc_ops: self.alloc_ops,
        }
    }

    /// The counters, or `None` if the allocator has never been used.
    pub fn try_snapshot(&self) -> (r: Option<AllocSnapshot>)
        ensures
            !self.active ==> r is None,
            self.active ==> r == Some(
                AllocSnapshot {
                    current: self.current,
                    peak: self.peak,
                    total_alloc: self.total_alloc,
                    total_dealloc: self.total_dealloc,
                    alloc_ops: self.alloc_ops,
                },
            ),
    {
        if !self.active {
            return None;
        }
        Some(self.snapshot())
    }
}

/// The peak never falls, whatever the allocator does.
pub proof fn lemma_peak_never_falls(peak: u64, cur: i64)
    ensures
        raised_peak(peak, cur) >= peak,
        raised_peak(peak, cur) >= level(
            AllocSnapshot { current: cur, peak: 0, total_alloc: 0, total_dealloc: 0, alloc_ops: 0 },
        ),
{
}

/// Without wrap-around, the allocation delta between the snapshots taken
/// around one allocation of `size` bytes is `size`, and the operation delta
/// is one.
pub proof fn lemma_alloc_delta_of_one_alloc(before: AllocSnapshot, after: AllocSnapshot, size: u64)
    requires
        before.total_alloc + size <= u64::MAX,
        before.alloc_ops + 1 <= u64::MAX,
        after.total_alloc == wrap_add(before.total_alloc, size),
        after.alloc_ops == wrap_add(before.alloc_ops, 1),
    ensures
        sat_sub(after.total_alloc, before.total_alloc) == size,
        sat_sub(after.alloc_ops, before.alloc_ops) == 1,
{
}

} // verus!
