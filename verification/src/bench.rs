//! Micro-benchmark accounting: each measured iteration is folded into the
//! benchmark's totals, and the totals become the integer part of the
//! benchmark's record.

use vstd::prelude::*;
use crate::memory::{AllocSnapshot, sat_sub, entry_level, wrap_add, add_wrapping};
use crate::records::{MemoryTotals, TimingAccumulator, fresh_timing, recorded, wrap_sub_i};

verus! {

/// At most this many per-iteration times are kept.
pub const MAX_RAW_SAMPLES: usize = 10000;

/// The totals of the measured iterations so far.
pub struct BenchAccumulator {
    pub timing: TimingAccumulator,
    /// The first iteration times, up to `MAX_RAW_SAMPLES` of them.
    pub raw_samples: Vec<u64>,
    pub total_alloc: u64,
    pub total_dealloc: u64,
    pub total_ops: u64,
    pub peak_delta: u64,
}

impl BenchAccumulator {
    pub open spec fn wf(&self) -> bool {
        &&& self.timing.wf()
        &&& self.raw_samples@.len() <= MAX_RAW_SAMPLES
    }

    /// No iteration measured.
    pub fn new() -> (b: Self)
        ensures
            b.wf(),
            fresh_timing(b.timing),
            b.raw_samples@.len() == 0,
            b.total_alloc == 0 && b.total_dealloc == 0 && b.total_ops == 0 && b.peak_delta == 0,
    {
        BenchAccumulator {
            timing: TimingAccumulator::new(),
            raw_samples: Vec::new(),
            total_alloc: 0,
            total_dealloc: 0,
            total_ops: 0,
            peak_delta: 0,
        }
    }

    /// Folds in one iteration that took `elapsed_ns`, with the allocator
    /// counters read just before and just after it.
    pub fn record_iteration(&mut self, elapsed_ns: u64, before: AllocSnapshot, after: AllocSnapshot)
        requires
            old(self).wf(),
        ensures
            final(self).wf(),
            recorded(old(self).timing, final(self).timing, elapsed_ns, elapsed_ns),
            old(self).raw_samples@.len() < MAX_RAW_SAMPLES ==> final(self).raw_samples@ == old(
                self,
            ).raw_samples@.push(elapsed_ns),
            old(self).raw_samples@.len() >= MAX_RAW_SAMPLES ==> final(self).raw_samples@ == old(
                self,
            ).raw_samples@,
            final(self).total_alloc == wrap_add(
                old(self).total_alloc,
                sat_sub(after.total_alloc, before.total_alloc),
            ),
            final(self).total_dealloc == wrap_add(
                old(self).total_dealloc,
                sat_sub(after.total_dealloc, before.total_dealloc),
            ),
            final(self).total_ops == wrap_add(
                old(self).total_ops,
                sat_sub(after.alloc_ops, before.alloc_ops),
            ),
            final(self).peak_delta == (if sat_sub(after.peak, entry_level(before)) > old(
                self,
            ).peak_delta {
                sat_sub(after.peak, entry_level(before))
            } else {
                old(self).peak_delta
            }),
    {
        self.timing.record(elapsed_ns, elapsed_ns);
        if self.raw_samples.len() < MAX_RAW_SAMPLES {
            self.raw_samples.push(elapsed_ns);
        }
        self.total_alloc = add_wrapping(self.total_alloc, after.alloc_delta(&before));
        self.total_dealloc = add_wrapping(self.total_dealloc, after.dealloc_delta(&before));
        self.total_ops = add_wrapping(self.total_ops, after.ops_delta(&before));
        let pd = after.peak_delta(&before);
        if pd > self.peak_delta {
            self.peak_delta = pd;
        }
    }

    /// The integer part of the benchmark's record, for `iters` measured and
    /// `warmup` discarded iterations that took `session_ns` in all.
    pub fn finish(&self, iters: u64, warmup: u64, session_ns: u64, allocator_active: bool) -> (r:
        BenchCounts)
        ensures
            r.iterations == iters,
            r.warmup_iterations == warmup,
            r.total_ns == session_ns,
            r.avg_ns == (if iters > 0 {
                session_ns / iters
            } else {
                0
            }),
            allocator_active ==> r.memory == Some(
                MemoryTotals {
                    total_alloc_bytes: self.total_alloc,
                    total_dealloc_bytes: self.total_dealloc,
                    peak_delta_bytes: self.peak_delta as i64,
                    alloc_count: self.total_ops,
                    net_retained_bytes: wrap_sub_i(
                        self.total_alloc as i64,
                        self.total_dealloc as i64,
                    ),
                    alloc_op_count: self.total_ops,
                },
            ),
            !allocator_active ==> r.memory is None,
            iters <= MAX_RAW_SAMPLES ==> (r.raw_samples_ns matches Some(v) && v@
                == self.raw_samples@),
            iters > MAX_RAW_SAMPLES ==> r.raw_samples_ns is None,
    {
        let memory = if allocator_active {
            let a: i64 = self.total_alloc as i64;
            let d: i64 = self.total_dealloc as i64;
            Some(
                MemoryTotals {
                    total_alloc_bytes: self.total_alloc,
                    total_dealloc_bytes: self.total_dealloc,
                    peak_delta_bytes: self.peak_delta as i64,
                    alloc_count: self.total_ops,
                    net_retained_bytes: a.wrapping_sub(d),
                    alloc_op_count: self.total_ops,
                },
            )
        } else {
            None
        };
        let raw = if iters <= MAX_RAW_SAMPLES as u64 {
            Some(self.raw_samples.clone())
        } else {
            None
        };
        BenchCounts {
            iterations: iters,
            total_ns: session_ns,
            avg_ns: if iters > 0 {
                session_ns / iters
            } else {
                0
            },
            warmup_iterations: warmup,
            memory,
            raw_samples_ns: raw,
        }
    }
}

/// The integer part of a benchmark record.
pub struct BenchCounts {
    pub iterations: u64,
    pub total_ns: u64,
    pub avg_ns: u64,
    pub warmup_iterations: u64,
    pub memory: Option<MemoryTotals>,
    pub raw_samples_ns: Option<Vec<u64>>,
}

} // verus!
